//! Serializing link sets in the `application/linkset` format (RFC 9264 §4.1).
//!
//! Each link becomes one link-value: the target in angle brackets, then
//! `rel`, `anchor` (unless the relativized anchor is empty), `type`, each
//! `hreflang`, `title`, `title*`, `media`, each value of each plain extension
//! attribute, then each value of each internationalised one. Link-values are
//! separated by `", "` (or `",\n"` when pretty), parameters by `"; "` (or
//! `"\n   ; "`). In compact text, quoted values are written with their line
//! breaks as spaces, so that it is one line; pretty text keeps them.

use vstd::prelude::*;
use vstd::utf8::encode_utf8;

use crate::external::{is_valid_uri, push_char};
use crate::model::lang::{I18nString, I18nView};
use crate::model::ext_values::{i18ns_view, strings_view};
use crate::model::lang::LanguageTag;
use crate::model::link::{Link, LinkView, i18n_exts, opt_i18n_view, opt_media_view, opt_str_view, plain_exts, tags_view};
use crate::model::link_context::LinkContext;
use crate::model::uri::Uri;
use crate::model::link_context::ContextView;
use crate::model::rel_type::rel_text;
use crate::model::uri::base_view;
use crate::model::Linkset;
use crate::relativizer::{UriRelativizer, relative_text};
use crate::strs::chars_of;
use super::one_line::{lemma_link_value_one_line, lemma_one_line_add, link_lines_ok, linkset_lines_ok};

verus! {

/// A character of a quoted string, escaped. With `flat` (compact text, which
/// is one line), a line break is written as a space, as a recipient reads a
/// folded header line; otherwise it is written as it is.
pub open spec fn escape_char(c: char, flat: bool) -> Seq<char> {
    if c == '"' {
        seq!['\\', '"']
    } else if c == '\\' {
        seq!['\\', '\\']
    } else if flat && (c == '\n' || c == '\r') {
        seq![' ']
    } else {
        seq![c]
    }
}

/// No line break (CR or LF) in `s`.
pub open spec fn one_line(s: Seq<char>) -> bool {
    forall|i: int| 0 <= i < s.len() ==> #[trigger] s[i] != '\n' && s[i] != '\r'
}

/// The characters of a string with `"` and `\` escaped and, with `flat`,
/// line breaks written as spaces.
pub open spec fn escaped(s: Seq<char>, flat: bool) -> Seq<char>
    decreases s.len(),
{
    if s.len() == 0 {
        Seq::empty()
    } else {
        escaped(s.drop_last(), flat) + escape_char(s.last(), flat)
    }
}

/// A quoted string.
pub open spec fn quoted(s: Seq<char>, flat: bool) -> Seq<char> {
    seq!['"'] + escaped(s, flat) + seq!['"']
}

/// An RFC 8187 §3.2 `attr-char`.
pub open spec fn is_attr_byte(b: u8) -> bool {
    (48 <= b <= 57) || (65 <= b <= 90) || (97 <= b <= 122) || b == 33 || b == 35 || b == 36
        || b == 38 || b == 43 || b == 45 || b == 46 || b == 94 || b == 95 || b == 96 || b == 124
        || b == 126
}

/// An upper-case hexadecimal digit.
pub open spec fn hex_upper(d: u8) -> char {
    if d < 10 {
        (48 + d) as char
    } else {
        (55 + d) as char
    }
}

/// A byte of an ext-value: itself if it is an `attr-char`, else `%` and two
/// upper-case hexadecimal digits.
pub open spec fn byte_pct(b: u8) -> Seq<char> {
    if is_attr_byte(b) {
        seq![b as char]
    } else {
        seq!['%', hex_upper(b / 16), hex_upper(b % 16)]
    }
}

/// Bytes percent-encoded as in an ext-value.
pub open spec fn pct_encoded(b: Seq<u8>) -> Seq<char>
    decreases b.len(),
{
    if b.len() == 0 {
        Seq::empty()
    } else {
        pct_encoded(b.drop_last()) + byte_pct(b.last())
    }
}

/// An internationalised string as an RFC 8187 ext-value, in UTF-8.
pub open spec fn ext_value_text(i: I18nView) -> Seq<char> {
    seq!['U', 'T', 'F', '-', '8', '\''] + i.language + seq!['\''] + pct_encoded(encode_utf8(i.value))
}

/// The separator before each parameter.
pub open spec fn param_sep(pretty: bool) -> Seq<char> {
    if pretty {
        seq!['\n', ' ', ' ', ' ', ';', ' ']
    } else {
        seq![';', ' ']
    }
}

/// The separator between link-values.
pub open spec fn value_sep(pretty: bool) -> Seq<char> {
    if pretty {
        seq![',', '\n']
    } else {
        seq![',', ' ']
    }
}

/// One `hreflang` parameter per language tag.
pub open spec fn hreflang_text(tags: Seq<Seq<char>>, sep: Seq<char>) -> Seq<char>
    decreases tags.len(),
{
    if tags.len() == 0 {
        Seq::empty()
    } else {
        hreflang_text(tags.drop_last(), sep) + sep + seq!['h', 'r', 'e', 'f', 'l', 'a', 'n', 'g', '=']
            + tags.last()
    }
}

/// One parameter per value of a plain extension attribute.
pub open spec fn plain_values_text(key: Seq<char>, vals: Seq<Seq<char>>, sep: Seq<char>, flat: bool) -> Seq<char>
    decreases vals.len(),
{
    if vals.len() == 0 {
        Seq::empty()
    } else {
        plain_values_text(key, vals.drop_last(), sep, flat) + sep + key + seq!['='] + quoted(vals.last(), flat)
    }
}

/// The parameters of the plain extension attributes.
pub open spec fn plain_exts_text(g: Seq<(Seq<char>, Seq<Seq<char>>)>, sep: Seq<char>, flat: bool) -> Seq<char>
    decreases g.len(),
{
    if g.len() == 0 {
        Seq::empty()
    } else {
        plain_exts_text(g.drop_last(), sep, flat) + plain_values_text(g.last().0, g.last().1, sep, flat)
    }
}

/// One parameter per value of an internationalised extension attribute.
pub open spec fn i18n_values_text(key: Seq<char>, vals: Seq<I18nView>, sep: Seq<char>) -> Seq<char>
    decreases vals.len(),
{
    if vals.len() == 0 {
        Seq::empty()
    } else {
        i18n_values_text(key, vals.drop_last(), sep) + sep + key + seq!['='] + ext_value_text(vals.last())
    }
}

/// The parameters of the internationalised extension attributes.
pub open spec fn i18n_exts_text(g: Seq<(Seq<char>, Seq<I18nView>)>, sep: Seq<char>) -> Seq<char>
    decreases g.len(),
{
    if g.len() == 0 {
        Seq::empty()
    } else {
        i18n_exts_text(g.drop_last(), sep) + i18n_values_text(g.last().0, g.last().1, sep)
    }
}

/// An optional parameter.
pub open spec fn opt_param(v: Option<Seq<char>>, sep: Seq<char>, name: Seq<char>, flat: bool) -> Seq<char> {
    match v {
        Some(t) => sep + name + quoted(t, flat),
        None => Seq::empty(),
    }
}

/// The start of a link-value: the target, the relation type and the anchor
/// (left out when empty).
pub open spec fn link_head_text(l: LinkView, target: Seq<char>, anchor: Seq<char>, pretty: bool) -> Seq<char> {
    let sep = param_sep(pretty);
    seq!['<'] + target + seq!['>'] + sep + seq!['r', 'e', 'l', '='] + quoted(rel_text(l.rel), !pretty)
        + (if anchor.len() > 0 { sep + seq!['a', 'n', 'c', 'h', 'o', 'r', '='] + quoted(anchor, !pretty) } else { Seq::empty() })
}

/// The other parameters of a link-value, in order.
pub open spec fn link_attrs_text(l: LinkView, pretty: bool) -> Seq<char> {
    let sep = param_sep(pretty);
    opt_param(l.type_, sep, seq!['t', 'y', 'p', 'e', '='], !pretty)
        + hreflang_text(l.hreflang, sep)
        + opt_param(l.title, sep, seq!['t', 'i', 't', 'l', 'e', '='], !pretty)
        + title_i18n_text(l.title_i18n, sep)
        + opt_param(l.media, sep, seq!['m', 'e', 'd', 'i', 'a', '='], !pretty)
        + plain_exts_text(plain_exts(l.exts), sep, !pretty)
        + i18n_exts_text(i18n_exts(l.exts), sep)
}

/// The link-value of a link, with its target and anchor as written.
pub open spec fn link_value_text(l: LinkView, target: Seq<char>, anchor: Seq<char>, pretty: bool) -> Seq<char> {
    link_head_text(l, target, anchor, pretty) + link_attrs_text(l, pretty)
}

/// The link-values of a context's links, targets and anchor relativized.
pub open spec fn context_link_texts(c: ContextView, base: Option<Seq<char>>, pretty: bool) -> Seq<Seq<char>> {
    c.links.map_values(|l: LinkView| link_value_text(l, relative_text(base, l.target), relative_text(base, c.anchor), pretty))
}

/// The link-values of all contexts, in order.
pub open spec fn link_texts(cs: Seq<ContextView>, base: Option<Seq<char>>, pretty: bool) -> Seq<Seq<char>>
    decreases cs.len(),
{
    if cs.len() == 0 {
        Seq::empty()
    } else {
        link_texts(cs.drop_last(), base, pretty) + context_link_texts(cs.last(), base, pretty)
    }
}

/// Parts joined by a separator.
pub open spec fn joined(parts: Seq<Seq<char>>, sep: Seq<char>) -> Seq<char>
    decreases parts.len(),
{
    if parts.len() == 0 {
        Seq::empty()
    } else if parts.len() == 1 {
        parts[0]
    } else {
        joined(parts.drop_last(), sep) + sep + parts.last()
    }
}

/// The `application/linkset` text of a link set.
pub open spec fn linkset_text(cs: Seq<ContextView>, base: Option<Seq<char>>, pretty: bool) -> Seq<char> {
    joined(link_texts(cs, base, pretty), value_sep(pretty))
}

/// Append the characters of `s`.
pub(crate) fn push_all(out: &mut String, s: &str)
    ensures
        final(out)@ == old(out)@ + s@,
{
    let cs = chars_of(s);
    let mut i: usize = 0;
    while i < cs.len()
        invariant
            i <= cs.len(),
            cs@ == s@,
            out@ == old(out)@ + s@.subrange(0, i as int),
        decreases cs.len() - i,
    {
        push_char(out, cs[i]);
        assert(old(out)@ + s@.subrange(0, i + 1) =~= old(out)@ + s@.subrange(0, i as int) + seq![cs@[i as int]]);
        i = i + 1;
    }
    assert(s@.subrange(0, i as int) =~= s@);
}

/// The fixed pieces of text that the writer uses.
proof fn lemma_write_names()
    ensures
        "rel="@ == seq!['r', 'e', 'l', '='],
        "anchor="@ == seq!['a', 'n', 'c', 'h', 'o', 'r', '='],
        "type="@ == seq!['t', 'y', 'p', 'e', '='],
        "hreflang="@ == seq!['h', 'r', 'e', 'f', 'l', 'a', 'n', 'g', '='],
        "title="@ == seq!['t', 'i', 't', 'l', 'e', '='],
        "title*="@ == seq!['t', 'i', 't', 'l', 'e', '*', '='],
        "media="@ == seq!['m', 'e', 'd', 'i', 'a', '='],
        "UTF-8'"@ == seq!['U', 'T', 'F', '-', '8', '\''],
        "\n   ; "@ == seq!['\n', ' ', ' ', ' ', ';', ' '],
        "; "@ == seq![';', ' '],
        ",\n"@ == seq![',', '\n'],
        ", "@ == seq![',', ' '],
{
    reveal_strlit("rel=");
    reveal_strlit("anchor=");
    reveal_strlit("type=");
    reveal_strlit("hreflang=");
    reveal_strlit("title=");
    reveal_strlit("title*=");
    reveal_strlit("media=");
    reveal_strlit("UTF-8'");
    reveal_strlit("\n   ; ");
    reveal_strlit("; ");
    reveal_strlit(",\n");
    reveal_strlit(", ");
    assert("rel="@ =~= seq!['r', 'e', 'l', '=']);
    assert("anchor="@ =~= seq!['a', 'n', 'c', 'h', 'o', 'r', '=']);
    assert("type="@ =~= seq!['t', 'y', 'p', 'e', '=']);
    assert("hreflang="@ =~= seq!['h', 'r', 'e', 'f', 'l', 'a', 'n', 'g', '=']);
    assert("title="@ =~= seq!['t', 'i', 't', 'l', 'e', '=']);
    assert("title*="@ =~= seq!['t', 'i', 't', 'l', 'e', '*', '=']);
    assert("media="@ =~= seq!['m', 'e', 'd', 'i', 'a', '=']);
    assert("UTF-8'"@ =~= seq!['U', 'T', 'F', '-', '8', '\'']);
    assert("\n   ; "@ =~= seq!['\n', ' ', ' ', ' ', ';', ' ']);
    assert("; "@ =~= seq![';', ' ']);
    assert(",\n"@ =~= seq![',', '\n']);
    assert(", "@ =~= seq![',', ' ']);
}

fn push_param_sep(out: &mut String, pretty: bool)
    ensures
        final(out)@ == old(out)@ + param_sep(pretty),
{
    proof {
        lemma_write_names();
    }
    if pretty {
        push_all(out, "\n   ; ");
    } else {
        push_all(out, "; ");
    }
}

fn push_value_sep(out: &mut String, pretty: bool)
    ensures
        final(out)@ == old(out)@ + value_sep(pretty),
{
    proof {
        lemma_write_names();
    }
    if pretty {
        push_all(out, ",\n");
    } else {
        push_all(out, ", ");
    }
}

/// Append `s` as a quoted string.
fn push_quoted(out: &mut String, s: &str, flat: bool)
    ensures
        final(out)@ == old(out)@ + quoted(s@, flat),
{
    let cs = chars_of(s);
    push_char(out, '"');
    let ghost start = out@;
    assert(escaped(s@.subrange(0, 0), flat) =~= Seq::<char>::empty());
    let mut i: usize = 0;
    while i < cs.len()
        invariant
            i <= cs.len(),
            cs@ == s@,
            out@ == start + escaped(s@.subrange(0, i as int), flat),
        decreases cs.len() - i,
    {
        let c = cs[i];
        if c == '"' {
            push_char(out, '\\');
            push_char(out, '"');
        } else if c == '\\' {
            push_char(out, '\\');
            push_char(out, '\\');
        } else if flat && (c == '\n' || c == '\r') {
            push_char(out, ' ');
        } else {
            push_char(out, c);
        }
        assert(s@.subrange(0, i + 1).drop_last() =~= s@.subrange(0, i as int));
        assert(out@ =~= start + escaped(s@.subrange(0, i + 1), flat));
        i = i + 1;
    }
    assert(s@.subrange(0, i as int) =~= s@);
    push_char(out, '"');
    assert(out@ =~= old(out)@ + quoted(s@, flat));
}

fn is_attr_byte_exec(b: u8) -> (r: bool)
    ensures
        r == is_attr_byte(b),
{
    (48 <= b && b <= 57) || (65 <= b && b <= 90) || (97 <= b && b <= 122) || b == 33 || b == 35 || b == 36
        || b == 38 || b == 43 || b == 45 || b == 46 || b == 94 || b == 95 || b == 96 || b == 124
        || b == 126
}

fn hex_upper_exec(d: u8) -> (c: char)
    requires
        d < 16,
    ensures
        c == hex_upper(d),
{
    if d < 10 {
        (48 + d) as char
    } else {
        (55 + d) as char
    }
}

/// Append an internationalised string as an ext-value.
fn push_ext_value(out: &mut String, i: &I18nString)
    ensures
        final(out)@ == old(out)@ + ext_value_text(i@),
{
    proof {
        lemma_write_names();
    }
    push_all(out, "UTF-8'");
    push_all(out, i.language.as_str());
    push_char(out, '\'');
    let ghost start = out@;
    let bytes = i.value.as_str().as_bytes();
    assert(pct_encoded(bytes@.subrange(0, 0)) =~= Seq::<char>::empty());
    let mut k: usize = 0;
    while k < bytes.len()
        invariant
            k <= bytes@.len(),
            bytes@ == encode_utf8(i.value@),
            out@ == start + pct_encoded(bytes@.subrange(0, k as int)),
        decreases bytes.len() - k,
    {
        let b = bytes[k];
        if is_attr_byte_exec(b) {
            push_char(out, b as char);
        } else {
            push_char(out, '%');
            push_char(out, hex_upper_exec(b / 16));
            push_char(out, hex_upper_exec(b % 16));
        }
        assert(bytes@.subrange(0, k + 1).drop_last() =~= bytes@.subrange(0, k as int));
        assert(out@ =~= start + pct_encoded(bytes@.subrange(0, k + 1)));
        k = k + 1;
    }
    assert(bytes@.subrange(0, k as int) =~= bytes@);
    assert(out@ =~= old(out)@ + ext_value_text(i@));
}

fn push_hreflangs(out: &mut String, tags: &Vec<LanguageTag>, pretty: bool)
    ensures
        final(out)@ == old(out)@ + hreflang_text(tags_view(tags@), param_sep(pretty)),
{
    proof {
        lemma_write_names();
    }
    let ghost tv = tags_view(tags@);
    let ghost sep = param_sep(pretty);
    assert(hreflang_text(tv.subrange(0, 0), sep) =~= Seq::<char>::empty());
    let mut k: usize = 0;
    while k < tags.len()
        invariant
            k <= tags.len(),
            tv == tags_view(tags@),
            sep == param_sep(pretty),
            out@ == old(out)@ + hreflang_text(tv.subrange(0, k as int), sep),
        decreases tags.len() - k,
    {
        proof {
            lemma_write_names();
        }
        push_param_sep(out, pretty);
        push_all(out, "hreflang=");
        push_all(out, tags[k].as_str());
        assert(tv[k as int] == tags@[k as int]@);
        assert(tv.subrange(0, k + 1).drop_last() =~= tv.subrange(0, k as int));
        assert(out@ =~= old(out)@ + hreflang_text(tv.subrange(0, k + 1), sep));
        k = k + 1;
    }
    assert(tv.subrange(0, k as int) =~= tv);
}

fn push_plain_values(out: &mut String, key: &str, vals: &Vec<String>, pretty: bool)
    ensures
        final(out)@ == old(out)@ + plain_values_text(key@, strings_view(vals@), param_sep(pretty), !pretty),
{
    let ghost vv = strings_view(vals@);
    let ghost sep = param_sep(pretty);
    assert(plain_values_text(key@, vv.subrange(0, 0), sep, !pretty) =~= Seq::<char>::empty());
    let mut k: usize = 0;
    while k < vals.len()
        invariant
            k <= vals.len(),
            vv == strings_view(vals@),
            sep == param_sep(pretty),
            out@ == old(out)@ + plain_values_text(key@, vv.subrange(0, k as int), sep, !pretty),
        decreases vals.len() - k,
    {
        push_param_sep(out, pretty);
        push_all(out, key);
        push_char(out, '=');
        push_quoted(out, vals[k].as_str(), !pretty);
        assert(vv.subrange(0, k + 1).drop_last() =~= vv.subrange(0, k as int));
        assert(out@ =~= old(out)@ + plain_values_text(key@, vv.subrange(0, k + 1), sep, !pretty));
        k = k + 1;
    }
    assert(vv.subrange(0, k as int) =~= vv);
}

fn push_i18n_values(out: &mut String, key: &str, vals: &Vec<I18nString>, pretty: bool)
    ensures
        final(out)@ == old(out)@ + i18n_values_text(key@, i18ns_view(vals@), param_sep(pretty)),
{
    let ghost vv = i18ns_view(vals@);
    let ghost sep = param_sep(pretty);
    assert(i18n_values_text(key@, vv.subrange(0, 0), sep) =~= Seq::<char>::empty());
    let mut k: usize = 0;
    while k < vals.len()
        invariant
            k <= vals.len(),
            vv == i18ns_view(vals@),
            sep == param_sep(pretty),
            out@ == old(out)@ + i18n_values_text(key@, vv.subrange(0, k as int), sep),
        decreases vals.len() - k,
    {
        push_param_sep(out, pretty);
        push_all(out, key);
        push_char(out, '=');
        push_ext_value(out, &vals[k]);
        assert(vv.subrange(0, k + 1).drop_last() =~= vv.subrange(0, k as int));
        assert(out@ =~= old(out)@ + i18n_values_text(key@, vv.subrange(0, k + 1), sep));
        k = k + 1;
    }
    assert(vv.subrange(0, k as int) =~= vv);
}

fn push_plain_exts(out: &mut String, l: &Link, pretty: bool)
    ensures
        final(out)@ == old(out)@ + plain_exts_text(plain_exts(l@.exts), param_sep(pretty), !pretty),
{
    let groups = l.iter_ext();
    let ghost g = plain_exts(l@.exts);
    let ghost sep = param_sep(pretty);
    assert(plain_exts_text(g.subrange(0, 0), sep, !pretty) =~= Seq::<char>::empty());
    let mut k: usize = 0;
    while k < groups.len()
        invariant
            k <= groups.len(),
            g == plain_exts(l@.exts),
            groups@.map_values(|p: (&String, &Vec<String>)| (p.0@, strings_view(p.1@))) == g,
            sep == param_sep(pretty),
            out@ == old(out)@ + plain_exts_text(g.subrange(0, k as int), sep, !pretty),
        decreases groups.len() - k,
    {
        let (key, vals) = groups[k];
        assert(g[k as int] == (key@, strings_view(vals@)));
        push_plain_values(out, key.as_str(), vals, pretty);
        assert(g.subrange(0, k + 1).drop_last() =~= g.subrange(0, k as int));
        assert(out@ =~= old(out)@ + plain_exts_text(g.subrange(0, k + 1), sep, !pretty));
        k = k + 1;
    }
    assert(g.subrange(0, k as int) =~= g);
}

fn push_i18n_exts(out: &mut String, l: &Link, pretty: bool)
    ensures
        final(out)@ == old(out)@ + i18n_exts_text(i18n_exts(l@.exts), param_sep(pretty)),
{
    let groups = l.iter_ext_i18n();
    let ghost g = i18n_exts(l@.exts);
    let ghost sep = param_sep(pretty);
    assert(i18n_exts_text(g.subrange(0, 0), sep) =~= Seq::<char>::empty());
    let mut k: usize = 0;
    while k < groups.len()
        invariant
            k <= groups.len(),
            g == i18n_exts(l@.exts),
            groups@.map_values(|p: (&String, &Vec<I18nString>)| (p.0@, i18ns_view(p.1@))) == g,
            sep == param_sep(pretty),
            out@ == old(out)@ + i18n_exts_text(g.subrange(0, k as int), sep),
        decreases groups.len() - k,
    {
        let (key, vals) = groups[k];
        assert(g[k as int] == (key@, i18ns_view(vals@)));
        push_i18n_values(out, key.as_str(), vals, pretty);
        assert(g.subrange(0, k + 1).drop_last() =~= g.subrange(0, k as int));
        assert(out@ =~= old(out)@ + i18n_exts_text(g.subrange(0, k + 1), sep));
        k = k + 1;
    }
    assert(g.subrange(0, k as int) =~= g);
}

fn push_opt_param(out: &mut String, v: &Option<String>, pretty: bool, name: &str)
    ensures
        final(out)@ == old(out)@ + opt_param(opt_str_view(*v), param_sep(pretty), name@, !pretty),
{
    match v {
        Some(t) => {
            push_param_sep(out, pretty);
            push_all(out, name);
            push_quoted(out, t.as_str(), !pretty);
        },
        None => {},
    }
}

fn push_link_head(out: &mut String, l: &Link, target: &str, anchor: &str, pretty: bool)
    ensures
        final(out)@ == old(out)@ + link_head_text(l@, target@, anchor@, pretty),
{
    proof {
        lemma_write_names();
    }
    let ghost sep = param_sep(pretty);
    push_char(out, '<');
    push_all(out, target);
    push_char(out, '>');
    push_param_sep(out, pretty);
    push_all(out, "rel=");
    push_quoted(out, l.rel().as_str(), !pretty);
    let ghost p1 = out@;
    assert(p1 =~= old(out)@ + (seq!['<'] + target@ + seq!['>'] + sep + seq!['r', 'e', 'l', '='] + quoted(rel_text(l@.rel), !pretty)));
    if !anchor.is_empty() {
        push_param_sep(out, pretty);
        push_all(out, "anchor=");
        push_quoted(out, anchor, !pretty);
    }
    assert(out@ =~= old(out)@ + link_head_text(l@, target@, anchor@, pretty));
}

proof fn lemma_add_assoc(a: Seq<char>, b: Seq<char>, c: Seq<char>)
    ensures
        (a + b) + c == a + (b + c),
{
    assert((a + b) + c =~= a + (b + c));
}

/// The text of the `title*` parameter, if any.
pub open spec fn title_i18n_text(t: Option<I18nView>, sep: Seq<char>) -> Seq<char> {
    match t {
        Some(i) => sep + seq!['t', 'i', 't', 'l', 'e', '*', '='] + ext_value_text(i),
        None => Seq::empty(),
    }
}

fn push_type(out: &mut String, t: &Option<crate::model::media_type::MediaType>, pretty: bool)
    ensures
        final(out)@ == old(out)@ + opt_param(opt_media_view(*t), param_sep(pretty), seq!['t', 'y', 'p', 'e', '='], !pretty),
{
    proof {
        lemma_write_names();
    }
    match t {
        Some(m) => {
            push_param_sep(out, pretty);
            push_all(out, "type=");
            push_quoted(out, m.as_str(), !pretty);
            assert(out@ =~= old(out)@ + (param_sep(pretty) + seq!['t', 'y', 'p', 'e', '='] + quoted(m@, !pretty)));
        },
        None => {
            assert(out@ =~= old(out)@ + Seq::<char>::empty());
        },
    }
}

fn push_title_i18n(out: &mut String, t: &Option<I18nString>, pretty: bool)
    ensures
        final(out)@ == old(out)@ + title_i18n_text(opt_i18n_view(*t), param_sep(pretty)),
{
    proof {
        lemma_write_names();
    }
    match t {
        Some(i) => {
            push_param_sep(out, pretty);
            push_all(out, "title*=");
            push_ext_value(out, i);
            assert(out@ =~= old(out)@ + (param_sep(pretty) + seq!['t', 'i', 't', 'l', 'e', '*', '='] + ext_value_text(i@)));
        },
        None => {
            assert(out@ =~= old(out)@ + Seq::<char>::empty());
        },
    }
}

fn push_link_attrs(out: &mut String, l: &Link, pretty: bool)
    ensures
        final(out)@ == old(out)@ + link_attrs_text(l@, pretty),
{
    broadcast use crate::model::link::lemma_link_view;

    proof {
        lemma_write_names();
    }
    let ghost sep = param_sep(pretty);
    let ghost lv = l@;
    let ghost o = out@;
    let ghost x1 = opt_param(lv.type_, sep, seq!['t', 'y', 'p', 'e', '='], !pretty);
    let ghost x2 = hreflang_text(lv.hreflang, sep);
    let ghost x3 = opt_param(lv.title, sep, seq!['t', 'i', 't', 'l', 'e', '='], !pretty);
    let ghost x4 = title_i18n_text(lv.title_i18n, sep);
    let ghost x5 = opt_param(lv.media, sep, seq!['m', 'e', 'd', 'i', 'a', '='], !pretty);
    let ghost x6 = plain_exts_text(plain_exts(lv.exts), sep, !pretty);
    let ghost x7 = i18n_exts_text(i18n_exts(lv.exts), sep);
    push_type(out, &l.type_, pretty);
    push_hreflangs(out, &l.hreflang, pretty);
    proof {
        lemma_add_assoc(o, x1, x2);
    }
    push_opt_param(out, &l.title, pretty, "title=");
    proof {
        lemma_add_assoc(o, x1 + x2, x3);
    }
    push_title_i18n(out, &l.title_i18n, pretty);
    proof {
        lemma_add_assoc(o, x1 + x2 + x3, x4);
    }
    push_opt_param(out, &l.media, pretty, "media=");
    proof {
        lemma_add_assoc(o, x1 + x2 + x3 + x4, x5);
    }
    push_plain_exts(out, l, pretty);
    proof {
        lemma_add_assoc(o, x1 + x2 + x3 + x4 + x5, x6);
    }
    push_i18n_exts(out, l, pretty);
    proof {
        lemma_add_assoc(o, x1 + x2 + x3 + x4 + x5 + x6, x7);
    }
    assert(link_attrs_text(lv, pretty) == x1 + x2 + x3 + x4 + x5 + x6 + x7);
}

/// Append the link-value of a link, with its target and anchor as given.
fn push_link_value(out: &mut String, l: &Link, target: &str, anchor: &str, pretty: bool)
    ensures
        final(out)@ == old(out)@ + link_value_text(l@, target@, anchor@, pretty),
{
    push_link_head(out, l, target, anchor, pretty);
    push_link_attrs(out, l, pretty);
    assert(out@ =~= old(out)@ + link_value_text(l@, target@, anchor@, pretty));
}

/// Joining one more part.
proof fn lemma_joined_push(parts: Seq<Seq<char>>, p: Seq<char>, sep: Seq<char>)
    ensures
        joined(parts.push(p), sep) == if parts.len() == 0 { p } else { joined(parts, sep) + sep + p },
{
    assert(parts.push(p).drop_last() =~= parts);
}

impl Linkset {
    /// Serialize this link set as an `application/linkset` string (RFC 9264 §4.1).
    ///
    /// With `pretty == false` the output is a single line, suitable as the
    /// value of an HTTP `Link` header (line breaks inside quoted values are
    /// written as spaces); with `pretty == true`, new lines and indentation
    /// are used, and quoted values are written as they are. With a base,
    /// anchors and targets are written relative to it.
    pub fn to_text_string(&self, pretty: bool, base: Option<&Uri>) -> (r: String)
        ensures
            r@ == linkset_text(self@, base_view(base), pretty),
            !pretty && linkset_lines_ok(self@) ==> one_line(r@),
    {
        broadcast use {crate::model::lemma_linkset_view, crate::model::link_context::lemma_context_view};

        let rel = UriRelativizer::new(base);
        let ghost cs = self@;
        let ghost bv = base_view(base);
        let ghost sep = value_sep(pretty);
        let mut out = String::new();
        let mut first = true;
        assert(cs.subrange(0, 0) =~= Seq::<ContextView>::empty());
        assert(out@ =~= Seq::<char>::empty());
        let mut i: usize = 0;
        while i < self.contexts.len()
            invariant
                i <= self.contexts.len(),
                cs == self@,
                cs.len() == self.contexts.len(),
                bv == base_view(base),
                rel@ == bv,
                sep == value_sep(pretty),
                out@ == joined(link_texts(cs.subrange(0, i as int), bv, pretty), sep),
                first <==> link_texts(cs.subrange(0, i as int), bv, pretty).len() == 0,
                !pretty && linkset_lines_ok(cs) ==> one_line(out@),
            decreases self.contexts.len() - i,
        {
            let ctx: &LinkContext = &self.contexts[i];
            let ghost cv = cs[i as int];
            proof {
                crate::model::lemma_linkset_view(*self);
                crate::model::link_context::lemma_context_view(*ctx);
            }
            assert(self@ == crate::model::contexts_view(self.contexts@));
            assert(cv == self.contexts@[i as int]@);
            assert(ctx@ == crate::model::link_context::context_view(*ctx));
            assert(cv == ctx@);
            let anchor = rel.relativize(ctx.anchor());
            let ghost done = link_texts(cs.subrange(0, i as int), bv, pretty);
            let ghost texts = context_link_texts(cv, bv, pretty);
            assert(done + texts.subrange(0, 0) =~= done);
            let mut j: usize = 0;
            while j < ctx.links.len()
                invariant
                    i < self.contexts.len(),
                    cs.len() == self.contexts.len(),
                    j <= ctx.links.len(),
                    cs == self@,
                    cv == cs[i as int],
                    cv == ctx@,
                    cv.links.len() == ctx.links.len(),
                    bv == base_view(base),
                    rel@ == bv,
                    sep == value_sep(pretty),
                    anchor@ == relative_text(bv, cv.anchor),
                    texts == context_link_texts(cv, bv, pretty),
                    out@ == joined(done + texts.subrange(0, j as int), sep),
                    first <==> (done + texts.subrange(0, j as int)).len() == 0,
                    !pretty && linkset_lines_ok(cs) ==> one_line(out@),
                decreases ctx.links.len() - j,
            {
                let ghost before = done + texts.subrange(0, j as int);
                if !first {
                    let ghost o0 = out@;
                    push_value_sep(&mut out, pretty);
                    proof {
                        if !pretty && linkset_lines_ok(cs) {
                            lemma_one_line_add(o0, value_sep(pretty));
                        }
                    }
                }
                first = false;
                let link: &Link = &ctx.links[j];
                proof {
                    crate::model::link_context::lemma_context_view(*ctx);
                }
                assert(ctx@ == crate::model::link_context::context_view(*ctx));
                assert(cv.links[j as int] == ctx.links@[j as int]@);
                assert(link@ == cv.links[j as int]);
                let target = rel.relativize(link.target());
                let ghost o = out@;
                push_link_value(&mut out, link, target.as_str(), anchor.as_str(), pretty);
                proof {
                    let p = link_value_text(link@, target@, anchor@, pretty);
                    if !pretty && linkset_lines_ok(cs) {
                        assert(link_lines_ok(cs[i as int].links[j as int]));
                        lemma_link_value_one_line(link@, target@, anchor@);
                        lemma_one_line_add(o, p);
                    }
                    assert(texts[j as int] == p);
                    lemma_joined_push(before, p, sep);
                    assert(done + texts.subrange(0, j + 1) =~= before.push(p));
                    if before.len() > 0 {
                        lemma_add_assoc(joined(before, sep), sep, p);
                    }
                }
                j = j + 1;
            }
            proof {
                assert(texts.subrange(0, j as int) =~= texts);
                assert(cs.subrange(0, i + 1).drop_last() =~= cs.subrange(0, i as int));
                assert(link_texts(cs.subrange(0, i + 1), bv, pretty) == done + texts);
            }
            i = i + 1;
        }
        assert(cs.subrange(0, i as int) =~= cs);
        out
    }

    /// Serialize this link set as `application/linkset` bytes (RFC 9264 §4.1);
    /// see [`Linkset::to_text_string`].
    pub fn to_text_vec(&self, pretty: bool, base: Option<&Uri>) -> (r: Vec<u8>)
        ensures
            r@ == encode_utf8(linkset_text(self@, base_view(base), pretty)),
    {
        let s = self.to_text_string(pretty, base);
        s.as_str().as_bytes_vec()
    }
}

} // verus!
