//! The grammar of the `application/linkset` format (RFC 9264 §4.1), as a
//! parser on bytes:
//!
//! ```text
//! document   = OWS [ link-value *( OWS "," OWS link-value ) ] OWS
//! link-value = "<" *( ASCII except ">" ) ">" *( OWS ";" OWS link-param )
//! link-param = token "=" ( ext-value            ; when the token ends with "*"
//!                        / quoted-string / token )
//! ext-value  = charset "'" [ language ] "'" value-chars
//! ```
//!
//! where `OWS` is spaces, tabs, carriage returns and line feeds. Alternatives
//! and repetitions are tried in order and stop at the first failure, going back
//! to where the failed attempt started; the whole input must be consumed.

use vstd::prelude::*;

use crate::external::push_char;
use crate::model::ext_token::is_tchar;

verus! {

/// A class of bytes that the grammar takes runs of.
#[derive(Clone, Copy)]
pub enum ByteClass {
    /// Space, tab, carriage return, line feed.
    Space,
    /// An RFC 7230 `tchar`.
    Tchar,
    /// An ASCII byte other than `>`.
    UriByte,
    /// A `tchar` other than `'`.
    CharsetByte,
    /// An ASCII byte other than `'`.
    LanguageByte,
    /// An ASCII byte that is neither white space nor `;` nor `,`.
    ValueByte,
}

/// The ASCII white space of `u8::is_ascii_whitespace`: space, tab, line feed,
/// form feed, carriage return.
pub open spec fn is_ascii_ws_byte(b: u8) -> bool {
    b == 32 || b == 9 || b == 10 || b == 12 || b == 13
}

pub open spec fn in_class(c: ByteClass, b: u8) -> bool {
    match c {
        ByteClass::Space => b == 32 || b == 9 || b == 13 || b == 10,
        ByteClass::Tchar => is_tchar(b as char),
        ByteClass::UriByte => b < 128 && b != 62,
        ByteClass::CharsetByte => is_tchar(b as char) && b != 39,
        ByteClass::LanguageByte => b < 128 && b != 39,
        ByteClass::ValueByte => b < 128 && !is_ascii_ws_byte(b) && b != 59 && b != 44,
    }
}

/// The end of the longest run of bytes of class `c` starting at `i`.
pub open spec fn run_end(s: Seq<u8>, i: int, c: ByteClass) -> int
    decreases s.len() - i,
{
    if 0 <= i < s.len() && in_class(c, s[i]) {
        run_end(s, i + 1, c)
    } else {
        i
    }
}

/// The characters of ASCII bytes.
pub open spec fn ascii_chars(b: Seq<u8>) -> Seq<char> {
    b.map_values(|x: u8| x as char)
}

/// The value of a link parameter.
pub enum ParamView {
    Plain(Seq<char>),
    Ext { charset: Seq<char>, language: Option<Seq<char>>, encoded: Seq<char> },
}

/// One link-value: a target and its parameters, in order.
pub struct EntryView {
    pub target: Seq<char>,
    pub params: Seq<(Seq<char>, ParamView)>,
}

/// The body of a quoted string from `j`: its characters (escapes resolved)
/// and the position where it stops.
pub open spec fn quoted_body(s: Seq<u8>, j: int) -> (Seq<char>, int)
    decreases s.len() - j,
{
    if 0 <= j && j + 1 < s.len() && s[j] == 92 && s[j + 1] < 128 {
        let r = quoted_body(s, j + 2);
        (seq![s[j + 1] as char] + r.0, r.1)
    } else if 0 <= j < s.len() && s[j] != 34 && s[j] != 92 && s[j] < 128 {
        let r = quoted_body(s, j + 1);
        (seq![s[j] as char] + r.0, r.1)
    } else {
        (Seq::empty(), j)
    }
}

/// `"<" *uri-byte ">"` at `i`.
pub open spec fn parse_uri(s: Seq<u8>, i: int) -> Option<(Seq<char>, int)> {
    if 0 <= i < s.len() && s[i] == 60 {
        let e = run_end(s, i + 1, ByteClass::UriByte);
        if e < s.len() && s[e] == 62 {
            Some((ascii_chars(s.subrange(i + 1, e)), e + 1))
        } else {
            None
        }
    } else {
        None
    }
}

/// A quoted string at `i`.
pub open spec fn parse_quoted(s: Seq<u8>, i: int) -> Option<(Seq<char>, int)> {
    if 0 <= i < s.len() && s[i] == 34 {
        let b = quoted_body(s, i + 1);
        if 0 <= b.1 < s.len() && s[b.1] == 34 {
            Some((b.0, b.1 + 1))
        } else {
            None
        }
    } else {
        None
    }
}

/// A token at `i`.
pub open spec fn parse_token(s: Seq<u8>, i: int) -> Option<(Seq<char>, int)> {
    let e = run_end(s, i, ByteClass::Tchar);
    if 0 <= i < e {
        Some((ascii_chars(s.subrange(i, e)), e))
    } else {
        None
    }
}

/// An RFC 8187 ext-value at `i`.
pub open spec fn parse_ext_value(s: Seq<u8>, i: int) -> Option<(ParamView, int)> {
    let c = run_end(s, i, ByteClass::CharsetByte);
    if 0 <= i < c && c < s.len() && s[c] == 39 {
        let l = run_end(s, c + 1, ByteClass::LanguageByte);
        if l < s.len() && s[l] == 39 {
            let e = run_end(s, l + 1, ByteClass::ValueByte);
            Some((
                ParamView::Ext {
                    charset: ascii_chars(s.subrange(i, c)),
                    language: if l > c + 1 { Some(ascii_chars(s.subrange(c + 1, l))) } else { None },
                    encoded: ascii_chars(s.subrange(l + 1, e)),
                },
                e,
            ))
        } else {
            None
        }
    } else {
        None
    }
}

/// A link-param at `i`: the value is an ext-value when the name ends with
/// `*`, else a quoted string or a token.
pub open spec fn parse_param(s: Seq<u8>, i: int) -> Option<((Seq<char>, ParamView), int)> {
    match parse_token(s, i) {
        None => None,
        Some((name, t)) => if t < s.len() && s[t] == 61 {
            if name.last() == '*' {
                match parse_ext_value(s, t + 1) {
                    Some((v, e)) => Some(((name, v), e)),
                    None => None,
                }
            } else {
                match parse_quoted(s, t + 1) {
                    Some((v, e)) => Some(((name, ParamView::Plain(v)), e)),
                    None => match parse_token(s, t + 1) {
                        Some((v, e)) => Some(((name, ParamView::Plain(v)), e)),
                        None => None,
                    },
                }
            }
        } else {
            None
        },
    }
}

/// The parameters from `i`: repeated `OWS ";" OWS link-param` until one fails,
/// with the position where the last one ended.
pub open spec fn parse_params(s: Seq<u8>, i: int) -> (Seq<(Seq<char>, ParamView)>, int)
    decreases s.len() - i,
{
    let k = run_end(s, i, ByteClass::Space);
    if 0 <= i && k < s.len() && s[k] == 59 {
        let m = run_end(s, k + 1, ByteClass::Space);
        match parse_param(s, m) {
            Some((p, n)) => if i < n <= s.len() {
                let r = parse_params(s, n);
                (seq![p] + r.0, r.1)
            } else {
                (Seq::empty(), i)
            },
            None => (Seq::empty(), i),
        }
    } else {
        (Seq::empty(), i)
    }
}

/// A link-value at `i`.
pub open spec fn parse_link_value(s: Seq<u8>, i: int) -> Option<(EntryView, int)> {
    match parse_uri(s, i) {
        None => None,
        Some((t, j)) => {
            let ps = parse_params(s, j);
            Some((EntryView { target: t, params: ps.0 }, ps.1))
        },
    }
}

/// The link-values after a first one, from `i`: repeated `OWS "," OWS link-value`
/// until one fails, with the position where the last one ended.
pub open spec fn parse_more_values(s: Seq<u8>, i: int) -> (Seq<EntryView>, int)
    decreases s.len() - i,
{
    let k = run_end(s, i, ByteClass::Space);
    if 0 <= i && k < s.len() && s[k] == 44 {
        let m = run_end(s, k + 1, ByteClass::Space);
        match parse_link_value(s, m) {
            Some((e, n)) => if i < n <= s.len() {
                let r = parse_more_values(s, n);
                (seq![e] + r.0, r.1)
            } else {
                (Seq::empty(), i)
            },
            None => (Seq::empty(), i),
        }
    } else {
        (Seq::empty(), i)
    }
}

/// A whole document: its link-values, if the grammar accepts all of it.
pub open spec fn parse_document(s: Seq<u8>) -> Option<Seq<EntryView>> {
    let j = run_end(s, 0, ByteClass::Space);
    let (es, p) = match parse_link_value(s, j) {
        None => (Seq::<EntryView>::empty(), j),
        Some((e, n)) => {
            let r = parse_more_values(s, n);
            (seq![e] + r.0, r.1)
        },
    };
    if run_end(s, p, ByteClass::Space) == s.len() {
        Some(es)
    } else {
        None
    }
}

// ── Facts about the spec parsers ─────────────────────────────────────────────

pub proof fn lemma_run_end(s: Seq<u8>, i: int, c: ByteClass)
    requires
        0 <= i <= s.len(),
    ensures
        i <= run_end(s, i, c) <= s.len(),
        forall|k: int| i <= k < run_end(s, i, c) ==> in_class(c, #[trigger] s[k]),
        run_end(s, i, c) < s.len() ==> !in_class(c, s[run_end(s, i, c)]),
    decreases s.len() - i,
{
    if i < s.len() && in_class(c, s[i]) {
        lemma_run_end(s, i + 1, c);
    }
}

pub proof fn lemma_quoted_body(s: Seq<u8>, j: int)
    requires
        0 <= j <= s.len(),
    ensures
        j <= quoted_body(s, j).1 <= s.len(),
    decreases s.len() - j,
{
    if j + 1 < s.len() && s[j] == 92 && s[j + 1] < 128 {
        lemma_quoted_body(s, j + 2);
    } else if j < s.len() && s[j] != 34 && s[j] != 92 && s[j] < 128 {
        lemma_quoted_body(s, j + 1);
    }
}

pub proof fn lemma_parse_param(s: Seq<u8>, i: int)
    requires
        0 <= i <= s.len(),
    ensures
        parse_param(s, i) matches Some((_, n)) ==> i < n <= s.len(),
{
    lemma_run_end(s, i, ByteClass::Tchar);
    if let Some((name, t)) = parse_token(s, i) {
        if t < s.len() && s[t] == 61 {
            lemma_run_end(s, t + 1, ByteClass::Tchar);
            lemma_run_end(s, t + 1, ByteClass::CharsetByte);
            let c = run_end(s, t + 1, ByteClass::CharsetByte);
            if c < s.len() {
                lemma_run_end(s, c + 1, ByteClass::LanguageByte);
                let l = run_end(s, c + 1, ByteClass::LanguageByte);
                if l < s.len() {
                    lemma_run_end(s, l + 1, ByteClass::ValueByte);
                }
            }
            if t + 1 < s.len() {
                lemma_quoted_body(s, t + 2);
            }
        }
    }
}

pub proof fn lemma_parse_params(s: Seq<u8>, i: int)
    requires
        0 <= i <= s.len(),
    ensures
        i <= parse_params(s, i).1 <= s.len(),
    decreases s.len() - i,
{
    lemma_run_end(s, i, ByteClass::Space);
    let k = run_end(s, i, ByteClass::Space);
    if k < s.len() && s[k] == 59 {
        lemma_run_end(s, k + 1, ByteClass::Space);
        let m = run_end(s, k + 1, ByteClass::Space);
        if let Some((p, n)) = parse_param(s, m) {
            if i < n <= s.len() {
                lemma_parse_params(s, n);
            }
        }
    }
}

pub proof fn lemma_parse_link_value(s: Seq<u8>, i: int)
    requires
        0 <= i <= s.len(),
    ensures
        parse_link_value(s, i) matches Some((_, n)) ==> i < n <= s.len(),
{
    if i < s.len() && s[i] == 60 {
        lemma_run_end(s, i + 1, ByteClass::UriByte);
        let e = run_end(s, i + 1, ByteClass::UriByte);
        if e < s.len() && s[e] == 62 {
            lemma_parse_params(s, e + 1);
        }
    }
}

pub proof fn lemma_parse_more_values(s: Seq<u8>, i: int)
    requires
        0 <= i <= s.len(),
    ensures
        i <= parse_more_values(s, i).1 <= s.len(),
    decreases s.len() - i,
{
    lemma_run_end(s, i, ByteClass::Space);
    let k = run_end(s, i, ByteClass::Space);
    if k < s.len() && s[k] == 44 {
        lemma_run_end(s, k + 1, ByteClass::Space);
        let m = run_end(s, k + 1, ByteClass::Space);
        if let Some((e, n)) = parse_link_value(s, m) {
            if i < n <= s.len() {
                lemma_parse_more_values(s, n);
            }
        }
    }
}

} // verus!
