//! Decoding of parameter values: RFC 8187 ext-values (charset, language and
//! percent-encoded characters) and white-space separated words.

use vstd::prelude::*;
use vstd::utf8::{decode_utf8, encode_utf8, valid_utf8};

use crate::external::{check_language_tag, is_valid_language_tag, push_char, string_from_utf8};
use crate::model::lang::{I18nString, I18nView, LanguageTag};
use crate::error::LinksetError;
use crate::message::{cat, cat_debug};
use crate::strs::{chars_of, eq_ignore_ascii_case, str_eq_ignore_ascii_case, string_of};
use super::grammar::ParamView;
use super::parser::ParamValue;

verus! {

/// The value of a hexadecimal digit.
pub open spec fn hex_digit_value(c: char) -> Option<u8> {
    if '0' <= c && c <= '9' {
        Some(((c as u32) - 48) as u8)
    } else if 'a' <= c && c <= 'f' {
        Some(((c as u32) - 87) as u8)
    } else if 'A' <= c && c <= 'F' {
        Some(((c as u32) - 55) as u8)
    } else {
        None
    }
}

/// The byte of two hexadecimal digits (RFC 8187 `pct-encoded`, `"%" HEXDIG HEXDIG`).
pub open spec fn hex_pair_value(h1: char, h2: char) -> Option<u8> {
    match (hex_digit_value(h1), hex_digit_value(h2)) {
        (Some(a), Some(b)) => Some((16 * a + b) as u8),
        _ => None,
    }
}

/// The bytes of a percent-encoded `value-chars` string (RFC 8187 §3.2): `%`
/// and two hexadecimal digits give a byte (only ASCII ones when `ascii`), any
/// other character gives its UTF-8 encoding.
pub open spec fn percent_bytes(enc: Seq<char>, ascii: bool) -> Option<Seq<u8>>
    decreases enc.len(),
{
    if enc.len() == 0 {
        Some(Seq::empty())
    } else if enc[0] == '%' {
        if enc.len() < 3 {
            None
        } else {
            match hex_pair_value(enc[1], enc[2]) {
                None => None,
                Some(b) => if ascii && b >= 128 {
                    None
                } else {
                    match percent_bytes(enc.skip(3), ascii) {
                        Some(r) => Some(seq![b] + r),
                        None => None,
                    }
                },
            }
        }
    } else {
        match percent_bytes(enc.skip(1), ascii) {
            Some(r) => Some(encode_utf8(seq![enc[0]]) + r),
            None => None,
        }
    }
}

/// The characters that a percent-encoded string stands for, if its bytes are UTF-8.
pub open spec fn percent_decoded(enc: Seq<char>, ascii: bool) -> Option<Seq<char>> {
    match percent_bytes(enc, ascii) {
        Some(b) => if valid_utf8(b) {
            Some(decode_utf8(b))
        } else {
            None
        },
        None => None,
    }
}

/// An RFC 8187 ext-value as an internationalised string: charset `US-ASCII`
/// or `UTF-8` (any case), a non-empty valid language tag, and decodable
/// characters.
pub open spec fn decoded_ext_value(v: ParamView) -> Option<I18nView> {
    match v {
        ParamView::Plain(_) => None,
        ParamView::Ext { charset, language, encoded } => {
            let ascii = if eq_ignore_ascii_case(charset, seq!['U', 'S', '-', 'A', 'S', 'C', 'I', 'I']) {
                Some(true)
            } else if eq_ignore_ascii_case(charset, seq!['U', 'T', 'F', '-', '8']) {
                Some(false)
            } else {
                None
            };
            match (ascii, language) {
                (Some(a), Some(l)) => if l.len() > 0 && is_valid_language_tag(l) {
                    match percent_decoded(encoded, a) {
                        Some(value) => Some(I18nView { value, language: l }),
                        None => None,
                    }
                } else {
                    None
                },
                _ => None,
            }
        },
    }
}

/// The ASCII white space of `char::is_ascii_whitespace`.
pub open spec fn is_ascii_ws_char(c: char) -> bool {
    c == ' ' || c == '\t' || c == '\n' || c == '\u{c}' || c == '\r'
}

/// The end of the run of white space from `i`.
pub open spec fn ws_chars_end(s: Seq<char>, i: int) -> int
    decreases s.len() - i,
{
    if 0 <= i < s.len() && is_ascii_ws_char(s[i]) {
        ws_chars_end(s, i + 1)
    } else {
        i
    }
}

/// The end of the run of non-white-space characters from `i`.
pub open spec fn word_chars_end(s: Seq<char>, i: int) -> int
    decreases s.len() - i,
{
    if 0 <= i < s.len() && !is_ascii_ws_char(s[i]) {
        word_chars_end(s, i + 1)
    } else {
        i
    }
}

/// The words of `s` from `i` (`str::split_ascii_whitespace`): maximal runs of
/// characters other than ASCII white space.
pub open spec fn words_from(s: Seq<char>, i: int) -> Seq<Seq<char>>
    decreases s.len() - i,
{
    let a = ws_chars_end(s, i);
    if 0 <= i <= a < s.len() {
        let b = word_chars_end(s, a);
        if a < b <= s.len() {
            seq![s.subrange(a, b)] + words_from(s, b)
        } else {
            Seq::empty()
        }
    } else {
        Seq::empty()
    }
}

proof fn lemma_ws_chars_end(s: Seq<char>, i: int)
    requires
        0 <= i <= s.len(),
    ensures
        i <= ws_chars_end(s, i) <= s.len(),
        ws_chars_end(s, i) < s.len() ==> !is_ascii_ws_char(s[ws_chars_end(s, i)]),
    decreases s.len() - i,
{
    if i < s.len() && is_ascii_ws_char(s[i]) {
        lemma_ws_chars_end(s, i + 1);
    }
}

proof fn lemma_word_chars_end(s: Seq<char>, i: int)
    requires
        0 <= i < s.len(),
        !is_ascii_ws_char(s[i]),
    ensures
        i < word_chars_end(s, i) <= s.len(),
    decreases s.len() - i,
{
    assert(word_chars_end(s, i) == word_chars_end(s, i + 1));
    if i + 1 < s.len() && !is_ascii_ws_char(s[i + 1]) {
        lemma_word_chars_end(s, i + 1);
    } else {
        assert(word_chars_end(s, i + 1) == i + 1);
    }
}

fn is_ascii_ws_char_exec(c: char) -> (r: bool)
    ensures
        r == is_ascii_ws_char(c),
{
    c == ' ' || c == '\t' || c == '\n' || c == '\u{c}' || c == '\r'
}

/// `str::split_ascii_whitespace`, collected.
pub fn split_ascii_whitespace(s: &str) -> (r: Vec<String>)
    ensures
        r@.map_values(|w: String| w@) == words_from(s@, 0),
{
    let cs = chars_of(s);
    let mut r: Vec<String> = Vec::new();
    let mut i: usize = 0;
    loop
        invariant
            i <= cs.len(),
            cs@ == s@,
            r@.map_values(|w: String| w@) + words_from(s@, i as int) == words_from(s@, 0),
        decreases cs.len() - i,
    {
        let mut a = i;
        while a < cs.len() && is_ascii_ws_char_exec(cs[a])
            invariant
                i <= a <= cs.len(),
                cs@ == s@,
                ws_chars_end(s@, i as int) == ws_chars_end(s@, a as int),
            decreases cs.len() - a,
        {
            a = a + 1;
        }
        if a >= cs.len() {
            assert(words_from(s@, i as int) =~= Seq::<Seq<char>>::empty());
            assert(r@.map_values(|w: String| w@) =~= words_from(s@, 0));
            return r;
        }
        let mut b = a;
        while b < cs.len() && !is_ascii_ws_char_exec(cs[b])
            invariant
                a <= b <= cs.len(),
                cs@ == s@,
                word_chars_end(s@, a as int) == word_chars_end(s@, b as int),
            decreases cs.len() - b,
        {
            b = b + 1;
        }
        proof {
            lemma_ws_chars_end(s@, i as int);
            lemma_word_chars_end(s@, a as int);
        }
        let w = crate::strs::string_of(&cs.as_slice()[a..b]);
        let ghost word = s@.subrange(a as int, b as int);
        assert(w@ == word);
        let ghost before = r@;
        r.push(w);
        assert(r@.map_values(|w: String| w@) =~= before.map_values(|w: String| w@).push(word));
        assert(words_from(s@, i as int) == seq![word] + words_from(s@, b as int));
        assert(r@.map_values(|w: String| w@) + words_from(s@, b as int) =~= words_from(s@, 0));
        i = b;
    }
}

fn hex_digit_value_exec(c: char) -> (r: Option<u8>)
    ensures
        r == hex_digit_value(c),
{
    if '0' <= c && c <= '9' {
        Some((c as u8) - 48)
    } else if 'a' <= c && c <= 'f' {
        Some((c as u8) - 87)
    } else if 'A' <= c && c <= 'F' {
        Some((c as u8) - 55)
    } else {
        None
    }
}

fn hex_pair_value_exec(h1: char, h2: char) -> (r: Option<u8>)
    ensures
        r == hex_pair_value(h1, h2),
{
    match (hex_digit_value_exec(h1), hex_digit_value_exec(h2)) {
        (Some(a), Some(b)) => Some(16 * a + b),
        _ => None,
    }
}

/// The UTF-8 bytes of one character.
fn char_bytes(c: char) -> (r: Vec<u8>)
    ensures
        r@ == encode_utf8(seq![c]),
{
    let mut s = String::new();
    push_char(&mut s, c);
    assert(s@ =~= seq![c]);
    s.as_str().as_bytes_vec()
}

/// Percent-decode a `value-chars` string (RFC 8187 §3.2); with `ascii`, only
/// ASCII bytes may be encoded. On failure, the message says what is wrong.
pub fn percent_decode(encoded: &str, ascii: bool) -> (r: Result<String, String>)
    ensures
        match r {
            Ok(v) => percent_decoded(encoded@, ascii) == Some(v@),
            Err(_) => percent_decoded(encoded@, ascii) is None,
        },
{
    let cs = chars_of(encoded);
    let mut bytes: Vec<u8> = Vec::new();
    let mut i: usize = 0;
    assert(cs@.skip(0) =~= cs@);
    proof {
        match percent_bytes(cs@, ascii) {
            Some(rest) => {
                assert(bytes@ + rest =~= rest);
            },
            None => {},
        }
    }
    loop
        invariant
            i <= cs.len(),
            cs@ == encoded@,
            match percent_bytes(cs@.skip(i as int), ascii) {
                Some(rest) => percent_bytes(encoded@, ascii) == Some(bytes@ + rest),
                None => percent_bytes(encoded@, ascii) is None,
            },
        ensures
            percent_bytes(encoded@, ascii) == Some(bytes@),
        decreases cs.len() - i,
    {
        if i == cs.len() {
            assert(cs@.skip(i as int) =~= Seq::<char>::empty());
            assert(bytes@ + Seq::<u8>::empty() =~= bytes@);
            break;
        }
        let ghost tail = cs@.skip(i as int);
        if cs[i] == '%' {
            if cs.len() - i < 3 {
                return Err("incomplete percent-encoding".to_owned());
            }
            match hex_pair_value_exec(cs[i + 1], cs[i + 2]) {
                None => {
                    let pair = [cs[i + 1], cs[i + 2]];
                    let hex = string_of(&pair);
                    return Err(cat_debug("invalid hex in percent-encoding: ", hex.as_str(), ""));
                },
                Some(b) => {
                    if ascii && b >= 128 {
                        return Err("invalid US-ASCII after decoding".to_owned());
                    }
                    assert(tail.skip(3) =~= cs@.skip(i + 3));
                    bytes.push(b);
                    proof {
                        let ghost before = bytes@.drop_last();
                        match percent_bytes(cs@.skip(i + 3), ascii) {
                            Some(rest) => {
                                assert(before + (seq![b] + rest) =~= bytes@ + rest);
                            },
                            None => {},
                        }
                    }
                    i = i + 3;
                }
            }
        } else {
            let cb = char_bytes(cs[i]);
            assert(tail.skip(1) =~= cs@.skip(i + 1));
            let ghost before = bytes@;
            let mut cb2 = cb;
            bytes.append(&mut cb2);
            proof {
                match percent_bytes(cs@.skip(i + 1), ascii) {
                    Some(rest) => {
                        assert(before + (encode_utf8(seq![tail[0]]) + rest) =~= bytes@ + rest);
                    },
                    None => {},
                }
            }
            i = i + 1;
        }
    }
    match string_from_utf8(bytes) {
        Some(v) => Ok(v),
        None => Err("invalid UTF-8 after decoding".to_owned()),
    }
}

/// Decode an RFC 8187 ext-value into an internationalised string.
/// Only the US-ASCII and UTF-8 charsets are supported.
pub fn decode_ext_value(value: &ParamValue) -> (r: Result<I18nString, LinksetError>)
    ensures
        match r {
            Ok(v) => decoded_ext_value(value@) == Some(v@),
            Err(e) => decoded_ext_value(value@) is None && e is Text,
        },
{
    match value {
        ParamValue::Plain(_) => Err(LinksetError::Text("expected ext-value for i18n attribute".to_owned())),
        ParamValue::Ext { charset, language, encoded } => {
            proof {
                reveal_strlit("US-ASCII");
                reveal_strlit("UTF-8");
                assert("US-ASCII"@ =~= seq!['U', 'S', '-', 'A', 'S', 'C', 'I', 'I']);
                assert("UTF-8"@ =~= seq!['U', 'T', 'F', '-', '8']);
            }
            let ascii = if str_eq_ignore_ascii_case(charset.as_str(), "US-ASCII") {
                true
            } else if str_eq_ignore_ascii_case(charset.as_str(), "UTF-8") {
                false
            } else {
                return Err(LinksetError::Text(cat_debug(
                    "charset ",
                    charset.as_str(),
                    " unrecognized (only UTF-8 and US-ASCII supported)",
                )));
            };
            let lang = match language {
                Some(l) => l,
                None => {
                    return Err(LinksetError::Text("missing language tag in ext-value".to_owned()));
                },
            };
            if lang.as_str().is_empty() {
                return Err(LinksetError::Text("missing language tag in ext-value".to_owned()));
            }
            if !check_language_tag(lang.as_str()) {
                return Err(LinksetError::Text("invalid language tag in ext-value".to_owned()));
            }
            match percent_decode(encoded.as_str(), ascii) {
                Ok(v) => Ok(I18nString::new(v, LanguageTag::new_unchecked(lang.clone()))),
                Err(m) => Err(LinksetError::Text(cat("percent-decode error: ", m.as_str()))),
            }
        },
    }
}

} // verus!
