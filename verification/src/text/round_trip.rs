//! Reading back what the writer writes: the link-values that
//! [`Linkset::to_text_vec`](crate::model::Linkset) produces parse into the
//! same link set.

use vstd::prelude::*;
use vstd::utf8::encode_utf8;

use crate::external::{is_uri_char, is_valid_language_tag, is_valid_uri};
use crate::model::link::{LinkView, ext_entry_ok, i18n_exts, link_wf, plain_exts};
use crate::model::ext_token::ext_key_problem;
use crate::model::lang::I18nView;
use crate::model::media_type::is_media_type;
use crate::model::rel_type::{RelTypeView, rel_of_str, rel_text};
use crate::strs::{all_ascii, ends_with_char, is_ascii_alphanumeric};
use crate::model::ext_token::{is_tchar, is_token};
use super::grammar::{
    ByteClass, EntryView, ParamView, ascii_chars, in_class, is_ascii_ws_byte, parse_document, parse_ext_value,
    parse_link_value, parse_more_values, parse_param, parse_params, parse_quoted, parse_token, parse_uri,
    quoted_body, run_end,
};
use super::write::{
    escape_char, escaped, one_line, byte_pct, hex_upper, is_attr_byte, joined, value_sep, link_texts, linkset_text,
    context_link_texts,
};
use crate::model::link_context::{ContextView, context_wf};
use crate::model::ext_values::ExtValuesView;
use crate::relativizer::relative_text;
pub use crate::model::anchors_unique;
use super::decode::decoded_ext_value;
use super::convert::context_anchor;
use crate::model::uri::resolve_spec;
use super::write::{
    ext_value_text, hreflang_text, i18n_exts_text, i18n_values_text, link_attrs_text, link_head_text,
    link_value_text, opt_param, param_sep, pct_encoded, plain_exts_text, plain_values_text, quoted,
    title_i18n_text,
};

verus! {

// ── What the format can carry ────────────────────────────────────────────────

/// A URI that the text format writes and reads back: valid, non-empty, made
/// of URI characters.
pub open spec fn uri_ok(u: Seq<char>) -> bool {
    &&& is_valid_uri(u)
    &&& u.len() > 0
    &&& forall|i: int| 0 <= i < u.len() ==> is_uri_char(#[trigger] u[i])
}

/// A language tag that the text format writes as a token and reads back:
/// valid, non-empty, made of ASCII letters, digits and `-`.
pub open spec fn tag_ok(t: Seq<char>) -> bool {
    &&& is_valid_language_tag(t)
    &&& t.len() > 0
    &&& forall|i: int| 0 <= i < t.len() ==> is_ascii_alphanumeric(#[trigger] t[i]) || t[i] == '-'
}

/// A link that the text format writes and reads back: its URIs, relation type,
/// media type and language tags valid and written with the characters that
/// the grammar takes; its other strings ASCII.
pub open spec fn link_text_ok(l: LinkView) -> bool {
    &&& uri_ok(l.target)
    &&& rel_of_str(rel_text(l.rel)) == Some(l.rel)
    &&& rel_text(l.rel).len() > 0
    &&& forall|k: int| 0 <= k < rel_text(l.rel).len() ==> is_uri_char(#[trigger] rel_text(l.rel)[k])
    &&& match l.type_ {
        Some(t) => is_media_type(t) && all_ascii(t),
        None => true,
    }
    &&& match l.title {
        Some(t) => all_ascii(t),
        None => true,
    }
    &&& match l.title_i18n {
        Some(i) => tag_ok(i.language),
        None => true,
    }
    &&& forall|k: int| 0 <= k < l.hreflang.len() ==> tag_ok(#[trigger] l.hreflang[k])
    &&& match l.media {
        Some(t) => all_ascii(t),
        None => true,
    }
    &&& link_wf(l)
    &&& forall|k: int| 0 <= k < l.exts.len() ==> match (#[trigger] l.exts[k]).1 {
        ExtValuesView::Plain(vs) => forall|m: int| 0 <= m < vs.len() ==> all_ascii(#[trigger] vs[m]),
        ExtValuesView::I18n(vs) => forall|m: int| 0 <= m < vs.len() ==> tag_ok((#[trigger] vs[m]).language),
    }
}

/// A context that the text format writes and reads back: a valid anchor and
/// at least one link, each of which it can carry.
pub open spec fn context_text_ok(c: ContextView) -> bool {
    &&& uri_ok(c.anchor)
    &&& c.links.len() > 0
    &&& context_wf(c)
    &&& forall|k: int| 0 <= k < c.links.len() ==> link_text_ok(#[trigger] c.links[k])
}

/// The characters of `t` are URI characters.
pub open spec fn uri_chars(t: Seq<char>) -> bool {
    forall|k: int| 0 <= k < t.len() ==> is_uri_char(#[trigger] t[k])
}

/// A target written against `wbase` reads back, against `rbase`, as itself:
/// its text is made of URI characters and resolves into the target.
pub open spec fn target_reads_back(wbase: Option<Seq<char>>, rbase: Option<Seq<char>>, u: Seq<char>) -> bool {
    let t = relative_text(wbase, u);
    uri_chars(t) && resolve_spec(rbase, t) == Some(u)
}

/// An anchor written against `wbase` reads back, against `rbase`, as itself:
/// its text is made of URI characters and, as an `anchor` parameter (left out
/// when empty), gives back the anchor.
pub open spec fn anchor_reads_back(wbase: Option<Seq<char>>, rbase: Option<Seq<char>>, a: Seq<char>) -> bool {
    let t = relative_text(wbase, a);
    &&& uri_chars(t)
    &&& context_anchor(if t.len() > 0 { Some(t) } else { None }, rbase) == Some(a)
}

/// Every anchor and target of the contexts, written against `wbase`, reads
/// back as itself against `rbase`.
pub open spec fn uris_read_back(cs: Seq<ContextView>, wbase: Option<Seq<char>>, rbase: Option<Seq<char>>) -> bool {
    forall|i: int| 0 <= i < cs.len() ==> anchor_reads_back(wbase, rbase, (#[trigger] cs[i]).anchor)
        && forall|j: int| 0 <= j < cs[i].links.len() ==> target_reads_back(wbase, rbase, (#[trigger] cs[i].links[j]).target)
}

/// Every anchor and target of the contexts, written against `base`, is made
/// of URI characters.
pub open spec fn uris_written_ok(cs: Seq<ContextView>, base: Option<Seq<char>>) -> bool {
    forall|i: int| 0 <= i < cs.len() ==> uri_chars(relative_text(base, (#[trigger] cs[i]).anchor))
        && forall|j: int| 0 <= j < cs[i].links.len() ==> uri_chars(relative_text(base, (#[trigger] cs[i].links[j]).target))
}

/// URIs that read back are written with URI characters.
pub proof fn lemma_uris_written(cs: Seq<ContextView>, wbase: Option<Seq<char>>, rbase: Option<Seq<char>>)
    requires
        uris_read_back(cs, wbase, rbase),
    ensures
        uris_written_ok(cs, wbase),
{
    assert forall|i: int| 0 <= i < cs.len() implies uri_chars(relative_text(wbase, (#[trigger] cs[i]).anchor))
        && forall|j: int| 0 <= j < cs[i].links.len() ==> uri_chars(relative_text(wbase, (#[trigger] cs[i].links[j]).target)) by {
        assert(anchor_reads_back(wbase, rbase, cs[i].anchor));
        assert forall|j: int| 0 <= j < cs[i].links.len() implies uri_chars(relative_text(wbase, (#[trigger] cs[i].links[j]).target)) by {
            assert(target_reads_back(wbase, rbase, cs[i].links[j].target));
        }
    }
}

/// Without a base, the URIs of contexts that the format can carry read back.
pub proof fn lemma_uris_read_back_without_base(cs: Seq<ContextView>)
    requires
        forall|k: int| 0 <= k < cs.len() ==> context_text_ok(#[trigger] cs[k]),
    ensures
        uris_read_back(cs, None, None),
{
    assert forall|i: int| 0 <= i < cs.len() implies anchor_reads_back(None, None, (#[trigger] cs[i]).anchor)
        && forall|j: int| 0 <= j < cs[i].links.len() ==> target_reads_back(None, None, (#[trigger] cs[i].links[j]).target) by {
        assert(context_text_ok(cs[i]));
        assert forall|j: int| 0 <= j < cs[i].links.len() implies target_reads_back(None, None, (#[trigger] cs[i].links[j]).target) by {
            assert(link_text_ok(cs[i].links[j]));
        }
    }
}

/// A link set that the text format writes and reads back.
pub open spec fn linkset_text_ok(cs: Seq<ContextView>) -> bool {
    &&& cs.len() > 0
    &&& anchors_unique(cs)
    &&& forall|k: int| 0 <= k < cs.len() ==> context_text_ok(#[trigger] cs[k])
}

// ── Link-values as lists of parameters ───────────────────────────────────────

/// One parameter as written: its name, the text of its value, and the value
/// that reading that text gives.
pub struct Item {
    pub name: Seq<char>,
    pub text: Seq<char>,
    pub value: ParamView,
}

/// A parameter with its separator.
pub open spec fn item_text(it: Item, sep: Seq<char>) -> Seq<char> {
    sep + it.name + seq!['='] + it.text
}

/// Parameters with their separators.
pub open spec fn items_text(its: Seq<Item>, sep: Seq<char>) -> Seq<char>
    decreases its.len(),
{
    if its.len() == 0 {
        Seq::empty()
    } else {
        items_text(its.drop_last(), sep) + item_text(its.last(), sep)
    }
}

/// A parameter with a quoted value.
pub open spec fn quoted_item(name: Seq<char>, v: Seq<char>) -> Item {
    Item { name, text: quoted(v, false), value: ParamView::Plain(v) }
}

/// An optional parameter with a quoted value.
pub open spec fn opt_items(name: Seq<char>, o: Option<Seq<char>>) -> Seq<Item> {
    match o {
        Some(v) => seq![quoted_item(name, v)],
        None => Seq::empty(),
    }
}

/// An `hreflang` parameter, its value written as a token.
pub open spec fn tag_item(t: Seq<char>) -> Item {
    Item { name: seq!['h', 'r', 'e', 'f', 'l', 'a', 'n', 'g'], text: t, value: ParamView::Plain(t) }
}

/// A parameter with an ext-value.
pub open spec fn ext_item(name: Seq<char>, i: I18nView) -> Item {
    Item {
        name,
        text: ext_value_text(i),
        value: ParamView::Ext {
            charset: seq!['U', 'T', 'F', '-', '8'],
            language: Some(i.language),
            encoded: pct_encoded(encode_utf8(i.value)),
        },
    }
}

/// The `title*` parameter, if any.
pub open spec fn title_i18n_items(o: Option<I18nView>) -> Seq<Item> {
    match o {
        Some(i) => seq![ext_item(seq!['t', 'i', 't', 'l', 'e', '*'], i)],
        None => Seq::empty(),
    }
}

/// The parameters of the plain extension attributes.
pub open spec fn plain_group_items(g: Seq<(Seq<char>, Seq<Seq<char>>)>) -> Seq<Item>
    decreases g.len(),
{
    if g.len() == 0 {
        Seq::empty()
    } else {
        plain_group_items(g.drop_last()) + g.last().1.map_values(|v: Seq<char>| quoted_item(g.last().0, v))
    }
}

/// The parameters of the internationalised extension attributes.
pub open spec fn i18n_group_items(g: Seq<(Seq<char>, Seq<I18nView>)>) -> Seq<Item>
    decreases g.len(),
{
    if g.len() == 0 {
        Seq::empty()
    } else {
        i18n_group_items(g.drop_last()) + g.last().1.map_values(|v: I18nView| ext_item(g.last().0, v))
    }
}

/// The parameters after `rel` and `anchor`.
pub open spec fn attr_items(l: LinkView) -> Seq<Item> {
    opt_items(seq!['t', 'y', 'p', 'e'], l.type_)
        + l.hreflang.map_values(|t: Seq<char>| tag_item(t))
        + opt_items(seq!['t', 'i', 't', 'l', 'e'], l.title)
        + title_i18n_items(l.title_i18n)
        + opt_items(seq!['m', 'e', 'd', 'i', 'a'], l.media)
        + plain_group_items(plain_exts(l.exts))
        + i18n_group_items(i18n_exts(l.exts))
}

/// The parameters of a link-value, in order.
pub open spec fn link_items(l: LinkView, anchor: Seq<char>) -> Seq<Item> {
    seq![quoted_item(seq!['r', 'e', 'l'], rel_text(l.rel))]
        + (if anchor.len() > 0 { seq![quoted_item(seq!['a', 'n', 'c', 'h', 'o', 'r'], anchor)] } else { Seq::empty() })
        + attr_items(l)
}

// ── The text of a link-value as parameters ───────────────────────────────────

pub proof fn lemma_items_text_add(a: Seq<Item>, b: Seq<Item>, sep: Seq<char>)
    ensures
        items_text(a + b, sep) == items_text(a, sep) + items_text(b, sep),
    decreases b.len(),
{
    if b.len() == 0 {
        assert(a + b =~= a);
        assert(items_text(a, sep) + items_text(b, sep) =~= items_text(a, sep));
    } else {
        assert((a + b).drop_last() =~= a + b.drop_last());
        lemma_items_text_add(a, b.drop_last(), sep);
        assert(items_text(a + b, sep) =~= items_text(a, sep) + items_text(b, sep));
    }
}

proof fn lemma_one_item(it: Item, sep: Seq<char>)
    ensures
        items_text(seq![it], sep) == item_text(it, sep),
{
    assert(seq![it].drop_last() =~= Seq::<Item>::empty());
    assert(items_text(Seq::<Item>::empty(), sep) == Seq::<char>::empty());
    assert(items_text(seq![it].drop_last(), sep) == Seq::<char>::empty());
    assert(seq![it].last() == it);
    assert(Seq::<char>::empty() + item_text(it, sep) =~= item_text(it, sep));
}

/// Without line breaks, a value is quoted the same way in compact and pretty text.
proof fn lemma_escaped_same(v: Seq<char>, flat: bool)
    requires
        flat ==> one_line(v),
    ensures
        escaped(v, flat) == escaped(v, false),
        quoted(v, flat) == quoted(v, false),
    decreases v.len(),
{
    if v.len() > 0 {
        assert(flat ==> one_line(v.drop_last())) by {
            if flat {
                assert forall|i: int| 0 <= i < v.drop_last().len() implies #[trigger] v.drop_last()[i] != '\n' && v.drop_last()[i] != '\r' by {
                    assert(v.drop_last()[i] == v[i]);
                }
            }
        }
        lemma_escaped_same(v.drop_last(), flat);
        assert(flat ==> v[v.len() - 1] != '\n' && v[v.len() - 1] != '\r');
    }
}

proof fn lemma_opt_items(name: Seq<char>, o: Option<Seq<char>>, sep: Seq<char>, flat: bool)
    requires
        flat ==> (o matches Some(v) ==> one_line(v)),
    ensures
        items_text(opt_items(name, o), sep) == opt_param(o, sep, name + seq!['='], flat),
{
    match o {
        Some(v) => {
            lemma_escaped_same(v, flat);
            lemma_one_item(quoted_item(name, v), sep);
            assert(item_text(quoted_item(name, v), sep) =~= sep + (name + seq!['=']) + quoted(v, flat));
        },
        None => {},
    }
}

proof fn lemma_tags_items(tags: Seq<Seq<char>>, sep: Seq<char>)
    ensures
        items_text(tags.map_values(|t: Seq<char>| tag_item(t)), sep) == hreflang_text(tags, sep),
    decreases tags.len(),
{
    if tags.len() > 0 {
        let its = tags.map_values(|t: Seq<char>| tag_item(t));
        assert(its.drop_last() =~= tags.drop_last().map_values(|t: Seq<char>| tag_item(t)));
        lemma_tags_items(tags.drop_last(), sep);
        assert(item_text(its.last(), sep) =~= sep + seq!['h', 'r', 'e', 'f', 'l', 'a', 'n', 'g', '='] + tags.last());
        assert(items_text(its, sep) =~= hreflang_text(tags, sep));
    }
}

proof fn lemma_plain_values_items(k: Seq<char>, vals: Seq<Seq<char>>, sep: Seq<char>, flat: bool)
    requires
        flat ==> forall|m: int| 0 <= m < vals.len() ==> one_line(#[trigger] vals[m]),
    ensures
        items_text(vals.map_values(|v: Seq<char>| quoted_item(k, v)), sep) == plain_values_text(k, vals, sep, flat),
    decreases vals.len(),
{
    if vals.len() > 0 {
        let its = vals.map_values(|v: Seq<char>| quoted_item(k, v));
        assert(its.drop_last() =~= vals.drop_last().map_values(|v: Seq<char>| quoted_item(k, v)));
        assert(flat ==> forall|m: int| 0 <= m < vals.drop_last().len() ==> one_line(#[trigger] vals.drop_last()[m])) by {
            if flat {
                assert forall|m: int| 0 <= m < vals.drop_last().len() implies one_line(#[trigger] vals.drop_last()[m]) by {
                    assert(vals.drop_last()[m] == vals[m]);
                }
            }
        }
        lemma_plain_values_items(k, vals.drop_last(), sep, flat);
        assert(flat ==> one_line(vals[vals.len() - 1]));
        lemma_escaped_same(vals.last(), flat);
        assert(items_text(its, sep) =~= plain_values_text(k, vals, sep, flat));
    }
}

proof fn lemma_i18n_values_items(k: Seq<char>, vals: Seq<I18nView>, sep: Seq<char>)
    ensures
        items_text(vals.map_values(|v: I18nView| ext_item(k, v)), sep) == i18n_values_text(k, vals, sep),
    decreases vals.len(),
{
    if vals.len() > 0 {
        let its = vals.map_values(|v: I18nView| ext_item(k, v));
        assert(its.drop_last() =~= vals.drop_last().map_values(|v: I18nView| ext_item(k, v)));
        lemma_i18n_values_items(k, vals.drop_last(), sep);
        assert(items_text(its, sep) =~= i18n_values_text(k, vals, sep));
    }
}

/// Every value of every group holds no line break.
pub open spec fn groups_one_line(g: Seq<(Seq<char>, Seq<Seq<char>>)>) -> bool {
    forall|i: int, m: int| 0 <= i < g.len() && 0 <= m < g[i].1.len() ==> one_line(#[trigger] g[i].1[m])
}

proof fn lemma_plain_group_items(g: Seq<(Seq<char>, Seq<Seq<char>>)>, sep: Seq<char>, flat: bool)
    requires
        flat ==> groups_one_line(g),
    ensures
        items_text(plain_group_items(g), sep) == plain_exts_text(g, sep, flat),
    decreases g.len(),
{
    if g.len() > 0 {
        assert(flat ==> groups_one_line(g.drop_last())) by {
            if flat {
                assert forall|i: int, m: int| 0 <= i < g.drop_last().len() && 0 <= m < g.drop_last()[i].1.len()
                    implies one_line(#[trigger] g.drop_last()[i].1[m]) by {
                    assert(g.drop_last()[i] == g[i]);
                }
            }
        }
        lemma_plain_group_items(g.drop_last(), sep, flat);
        let last = g.last().1.map_values(|v: Seq<char>| quoted_item(g.last().0, v));
        lemma_items_text_add(plain_group_items(g.drop_last()), last, sep);
        assert(flat ==> forall|m: int| 0 <= m < g.last().1.len() ==> one_line(#[trigger] g.last().1[m])) by {
            if flat {
                assert forall|m: int| 0 <= m < g.last().1.len() implies one_line(#[trigger] g.last().1[m]) by {
                    assert(g.last() == g[g.len() - 1]);
                }
            }
        }
        lemma_plain_values_items(g.last().0, g.last().1, sep, flat);
    }
}

proof fn lemma_i18n_group_items(g: Seq<(Seq<char>, Seq<I18nView>)>, sep: Seq<char>)
    ensures
        items_text(i18n_group_items(g), sep) == i18n_exts_text(g, sep),
    decreases g.len(),
{
    if g.len() > 0 {
        lemma_i18n_group_items(g.drop_last(), sep);
        let last = g.last().1.map_values(|v: I18nView| ext_item(g.last().0, v));
        lemma_items_text_add(i18n_group_items(g.drop_last()), last, sep);
        lemma_i18n_values_items(g.last().0, g.last().1, sep);
    }
}

/// The quoted attribute values of a link (its media type, title, media and
/// plain extension values) hold no line break.
pub open spec fn quoted_one_line(l: LinkView) -> bool {
    &&& l.type_ matches Some(t) ==> one_line(t)
    &&& l.title matches Some(t) ==> one_line(t)
    &&& l.media matches Some(t) ==> one_line(t)
    &&& forall|k: int| 0 <= k < l.exts.len() ==> match (#[trigger] l.exts[k]).1 {
        ExtValuesView::Plain(vs) => forall|m: int| 0 <= m < vs.len() ==> one_line(#[trigger] vs[m]),
        ExtValuesView::I18n(_) => true,
    }
}

/// Every link of every context is [`quoted_one_line`].
pub open spec fn linkset_quoted_one_line(cs: Seq<ContextView>) -> bool {
    forall|i: int, j: int| 0 <= i < cs.len() && 0 <= j < cs[i].links.len() ==> quoted_one_line(#[trigger] cs[i].links[j])
}

proof fn lemma_groups_one_line(l: LinkView)
    requires
        quoted_one_line(l),
    ensures
        groups_one_line(plain_exts(l.exts)),
{
    let g = plain_exts(l.exts);
    lemma_plain_exts_member(l.exts);
    assert forall|i: int, m: int| 0 <= i < g.len() && 0 <= m < g[i].1.len() implies one_line(#[trigger] g[i].1[m]) by {
        let j = choose|j: int| 0 <= j < l.exts.len() && l.exts[j] == (g[i].0, ExtValuesView::Plain(g[i].1));
        if let ExtValuesView::Plain(vs) = l.exts[j].1 {
            assert(vs == g[i].1);
            assert(one_line(vs[m]));
        }
    }
}

proof fn lemma_attr_items(l: LinkView, pretty: bool)
    requires
        !pretty ==> quoted_one_line(l),
    ensures
        items_text(attr_items(l), param_sep(pretty)) == link_attrs_text(l, pretty),
{
    let sep = param_sep(pretty);
    let a1 = opt_items(seq!['t', 'y', 'p', 'e'], l.type_);
    let a2 = l.hreflang.map_values(|t: Seq<char>| tag_item(t));
    let a3 = opt_items(seq!['t', 'i', 't', 'l', 'e'], l.title);
    let a4 = title_i18n_items(l.title_i18n);
    let a5 = opt_items(seq!['m', 'e', 'd', 'i', 'a'], l.media);
    let a6 = plain_group_items(plain_exts(l.exts));
    let a7 = i18n_group_items(i18n_exts(l.exts));
    lemma_items_text_add(a1, a2, sep);
    lemma_items_text_add(a1 + a2, a3, sep);
    lemma_items_text_add(a1 + a2 + a3, a4, sep);
    lemma_items_text_add(a1 + a2 + a3 + a4, a5, sep);
    lemma_items_text_add(a1 + a2 + a3 + a4 + a5, a6, sep);
    lemma_items_text_add(a1 + a2 + a3 + a4 + a5 + a6, a7, sep);
    if !pretty {
        lemma_groups_one_line(l);
    }
    lemma_opt_items(seq!['t', 'y', 'p', 'e'], l.type_, sep, !pretty);
    assert(seq!['t', 'y', 'p', 'e'] + seq!['='] =~= seq!['t', 'y', 'p', 'e', '=']);
    lemma_tags_items(l.hreflang, sep);
    lemma_opt_items(seq!['t', 'i', 't', 'l', 'e'], l.title, sep, !pretty);
    assert(seq!['t', 'i', 't', 'l', 'e'] + seq!['='] =~= seq!['t', 'i', 't', 'l', 'e', '=']);
    match l.title_i18n {
        Some(i) => {
            lemma_one_item(ext_item(seq!['t', 'i', 't', 'l', 'e', '*'], i), sep);
            assert(item_text(ext_item(seq!['t', 'i', 't', 'l', 'e', '*'], i), sep)
                =~= sep + seq!['t', 'i', 't', 'l', 'e', '*', '='] + ext_value_text(i));
        },
        None => {},
    }
    assert(items_text(a4, sep) == title_i18n_text(l.title_i18n, sep));
    lemma_opt_items(seq!['m', 'e', 'd', 'i', 'a'], l.media, sep, !pretty);
    assert(seq!['m', 'e', 'd', 'i', 'a'] + seq!['='] =~= seq!['m', 'e', 'd', 'i', 'a', '=']);
    lemma_plain_group_items(plain_exts(l.exts), sep, !pretty);
    lemma_i18n_group_items(i18n_exts(l.exts), sep);
}

/// The text of a link-value: the target in angle brackets, then its parameters.
pub proof fn lemma_link_value_items(l: LinkView, target: Seq<char>, anchor: Seq<char>, pretty: bool)
    requires
        !pretty ==> quoted_one_line(l) && one_line(rel_text(l.rel)) && one_line(anchor),
    ensures
        link_value_text(l, target, anchor, pretty)
            == seq!['<'] + target + seq!['>'] + items_text(link_items(l, anchor), param_sep(pretty)),
{
    let sep = param_sep(pretty);
    lemma_attr_items(l, pretty);
    lemma_escaped_same(rel_text(l.rel), !pretty);
    lemma_escaped_same(anchor, !pretty);
    let r = seq![quoted_item(seq!['r', 'e', 'l'], rel_text(l.rel))];
    let an = if anchor.len() > 0 { seq![quoted_item(seq!['a', 'n', 'c', 'h', 'o', 'r'], anchor)] } else { Seq::<Item>::empty() };
    lemma_items_text_add(r, an, sep);
    lemma_items_text_add(r + an, attr_items(l), sep);
    lemma_one_item(r[0], sep);
    let at = if anchor.len() > 0 { sep + seq!['a', 'n', 'c', 'h', 'o', 'r', '='] + quoted(anchor, !pretty) } else { Seq::<char>::empty() };
    if anchor.len() > 0 {
        lemma_one_item(an[0], sep);
        assert(item_text(an[0], sep) =~= at);
    }
    assert(items_text(an, sep) == at);
    let rt = item_text(r[0], sep);
    assert(rt =~= sep + seq!['r', 'e', 'l', '='] + quoted(rel_text(l.rel), !pretty));
    let head = link_head_text(l, target, anchor, pretty);
    assert(head =~= seq!['<'] + target + seq!['>'] + rt + at);
    let attrs = link_attrs_text(l, pretty);
    assert(items_text(link_items(l, anchor), sep) == rt + at + attrs);
    assert(head + attrs =~= seq!['<'] + target + seq!['>'] + (rt + at + attrs));
}

// ── Reading bytes back ───────────────────────────────────────────────────────

/// The bytes of `s` from `i` are the characters of `p`.
pub open spec fn at(s: Seq<u8>, i: int, p: Seq<char>) -> bool {
    &&& 0 <= i
    &&& i + p.len() <= s.len()
    &&& forall|k: int| 0 <= k < p.len() ==> s[i + k] == (#[trigger] p[k]) as u8
}

proof fn lemma_at_add(s: Seq<u8>, i: int, a: Seq<char>, b: Seq<char>)
    requires
        at(s, i, a + b),
    ensures
        at(s, i, a),
        at(s, i + a.len(), b),
{
    assert forall|k: int| 0 <= k < a.len() implies s[i + k] == (#[trigger] a[k]) as u8 by {
        assert((a + b)[k] == a[k]);
    }
    assert forall|k: int| 0 <= k < b.len() implies s[i + a.len() + k] == (#[trigger] b[k]) as u8 by {
        assert((a + b)[a.len() + k] == b[k]);
    }
}

proof fn lemma_ascii_char(c: char)
    requires
        (c as u32) < 128,
    ensures
        ((c as u8) as char) == c,
        (c as u8) < 128,
        (c as u8) as u32 == c as u32,
{
}

/// A run of characters of a class ends where the characters do.
proof fn lemma_run_at(s: Seq<u8>, i: int, p: Seq<char>, c: ByteClass)
    requires
        at(s, i, p),
        forall|k: int| 0 <= k < p.len() ==> in_class(c, (#[trigger] p[k]) as u8),
        i + p.len() == s.len() || !in_class(c, s[i + p.len()]),
    ensures
        run_end(s, i, c) == i + p.len(),
    decreases p.len(),
{
    if p.len() > 0 {
        assert(s[i + 0] == p[0] as u8);
        assert(at(s, i + 1, p.drop_first())) by {
            assert forall|k: int| 0 <= k < p.drop_first().len() implies s[i + 1 + k] == (#[trigger] p.drop_first()[k]) as u8 by {
                assert(p.drop_first()[k] == p[k + 1]);
            }
        }
        assert forall|k: int| 0 <= k < p.drop_first().len() implies in_class(c, (#[trigger] p.drop_first()[k]) as u8) by {
            assert(p.drop_first()[k] == p[k + 1]);
        }
        lemma_run_at(s, i + 1, p.drop_first(), c);
    }
}

/// The characters of bytes read at `i` are those of `p`.
proof fn lemma_ascii_chars_at(s: Seq<u8>, i: int, p: Seq<char>)
    requires
        at(s, i, p),
        all_ascii(p),
    ensures
        ascii_chars(s.subrange(i, i + p.len())) == p,
{
    assert forall|k: int| 0 <= k < p.len() implies #[trigger] ascii_chars(s.subrange(i, i + p.len()))[k] == p[k] by {
        lemma_ascii_char(p[k]);
        assert(s.subrange(i, i + p.len())[k] == s[i + k]);
    }
    assert(ascii_chars(s.subrange(i, i + p.len())) =~= p);
}

pub proof fn lemma_escaped_add(a: Seq<char>, b: Seq<char>, flat: bool)
    ensures
        escaped(a + b, flat) == escaped(a, flat) + escaped(b, flat),
    decreases b.len(),
{
    if b.len() == 0 {
        assert(a + b =~= a);
        assert(escaped(a, flat) + escaped(b, flat) =~= escaped(a, flat));
    } else {
        assert((a + b).drop_last() =~= a + b.drop_last());
        lemma_escaped_add(a, b.drop_last(), flat);
        assert(escaped(a + b, flat) =~= escaped(a, flat) + escaped(b, flat));
    }
}

proof fn lemma_escaped_one(c: char, flat: bool)
    ensures
        escaped(seq![c], flat) == escape_char(c, flat),
{
    assert(seq![c].drop_last() =~= Seq::<char>::empty());
    assert(escaped(Seq::<char>::empty(), flat) == Seq::<char>::empty());
    assert(escaped(seq![c].drop_last(), flat) == Seq::<char>::empty());
    assert(Seq::<char>::empty() + escape_char(c, flat) =~= escape_char(c, flat));
}

/// The body of a quoted string reads back the escaped characters.
proof fn lemma_quoted_body_at(s: Seq<u8>, j: int, t: Seq<char>)
    requires
        at(s, j, escaped(t, false) + seq!['"']),
        all_ascii(t),
    ensures
        quoted_body(s, j) == (t, j + escaped(t, false).len()),
    decreases t.len(),
{
    let e = escaped(t, false);
    lemma_at_add(s, j, e, seq!['"']);
    assert(seq!['"'][0] == '"');
    if t.len() == 0 {
        assert(s[j + e.len() + 0] == ('"' as u8));
        assert(s[j] == 34);
    } else {
        let c = t[0];
        let rest = t.drop_first();
        assert(t =~= seq![c] + rest);
        lemma_escaped_add(seq![c], rest, false);
        lemma_escaped_one(c, false);
        let ec = escape_char(c, false);
        assert(e == ec + escaped(rest, false));
        assert(ec + escaped(rest, false) + seq!['"'] =~= ec + (escaped(rest, false) + seq!['"']));
        lemma_at_add(s, j, ec, escaped(rest, false) + seq!['"']);
        assert(all_ascii(rest)) by {
            assert forall|k: int| 0 <= k < rest.len() implies crate::strs::is_ascii_char(#[trigger] rest[k]) by {
                assert(rest[k] == t[k + 1]);
            }
        }
        lemma_quoted_body_at(s, j + ec.len(), rest);
        assert(crate::strs::is_ascii_char(t[0]));
        lemma_ascii_char(c);
        if c == '"' {
            assert(ec[0] == '\\' && ec[1] == '"');
            assert(s[j + 0] == ec[0] as u8);
            assert(s[j + 1] == ec[1] as u8);
            assert(quoted_body(s, j).0 =~= seq![c] + rest);
        } else if c == '\\' {
            assert(ec[0] == '\\' && ec[1] == '\\');
            assert(s[j + 0] == ec[0] as u8);
            assert(s[j + 1] == ec[1] as u8);
            assert(quoted_body(s, j).0 =~= seq![c] + rest);
        } else {
            assert(ec[0] == c);
            assert(s[j + 0] == ec[0] as u8);
            assert(quoted_body(s, j).0 =~= seq![c] + rest);
        }
    }
}

proof fn lemma_parse_quoted_at(s: Seq<u8>, i: int, t: Seq<char>)
    requires
        at(s, i, quoted(t, false)),
        all_ascii(t),
    ensures
        parse_quoted(s, i) == Some((t, i + quoted(t, false).len())),
{
    let q = seq!['"'];
    assert(quoted(t, false) =~= q + (escaped(t, false) + q));
    lemma_at_add(s, i, q, escaped(t, false) + q);
    assert(s[i + 0] == q[0] as u8);
    lemma_quoted_body_at(s, i + 1, t);
    lemma_at_add(s, i + 1, escaped(t, false), q);
    assert(s[i + 1 + escaped(t, false).len() + 0] == q[0] as u8);
}

/// Every character is a `tchar`.
proof fn lemma_token_ascii(t: Seq<char>)
    requires
        forall|k: int| 0 <= k < t.len() ==> is_tchar(#[trigger] t[k]),
    ensures
        all_ascii(t),
        forall|k: int| 0 <= k < t.len() ==> in_class(ByteClass::Tchar, (#[trigger] t[k]) as u8),
{
    assert forall|k: int| 0 <= k < t.len() implies crate::strs::is_ascii_char(#[trigger] t[k]) && in_class(ByteClass::Tchar, t[k] as u8) by {
        lemma_ascii_char(t[k]);
    }
}

proof fn lemma_parse_token_at(s: Seq<u8>, i: int, t: Seq<char>)
    requires
        at(s, i, t),
        is_token(t),
        i + t.len() == s.len() || !in_class(ByteClass::Tchar, s[i + t.len()]),
    ensures
        parse_token(s, i) == Some((t, i + t.len())),
{
    lemma_token_ascii(t);
    lemma_run_at(s, i, t, ByteClass::Tchar);
    lemma_ascii_chars_at(s, i, t);
}

proof fn lemma_parse_uri_at(s: Seq<u8>, i: int, u: Seq<char>)
    requires
        at(s, i, seq!['<'] + u + seq!['>']),
        forall|k: int| 0 <= k < u.len() ==> is_uri_char(#[trigger] u[k]),
    ensures
        parse_uri(s, i) == Some((u, i + u.len() + 2)),
{
    lemma_at_add(s, i, seq!['<'] + u, seq!['>']);
    lemma_at_add(s, i, seq!['<'], u);
    assert(s[i + 0] == seq!['<'][0] as u8);
    assert(s[i + 1 + u.len() + 0] == seq!['>'][0] as u8);
    assert(all_ascii(u)) by {
        assert forall|k: int| 0 <= k < u.len() implies crate::strs::is_ascii_char(#[trigger] u[k]) by {}
    }
    assert forall|k: int| 0 <= k < u.len() implies in_class(ByteClass::UriByte, (#[trigger] u[k]) as u8) by {
        lemma_ascii_char(u[k]);
    }
    lemma_run_at(s, i + 1, u, ByteClass::UriByte);
    lemma_ascii_chars_at(s, i + 1, u);
}

/// A character of an ext-value's encoded part: ASCII, neither white space nor `;` nor `,`.
pub open spec fn value_char(c: char) -> bool {
    (c as u32) < 128 && in_class(ByteClass::ValueByte, c as u8)
}

proof fn lemma_byte_pct_chars(b: u8)
    ensures
        forall|k: int| 0 <= k < byte_pct(b).len() ==> value_char(#[trigger] byte_pct(b)[k]),
{
    let p = byte_pct(b);
    if is_attr_byte(b) {
        assert(p[0] == b as char);
    } else {
        let h = b / 16;
        let l = b % 16;
        assert(h < 16 && l < 16);
        assert(p[1] == hex_upper(h));
        assert(p[2] == hex_upper(l));
    }
}

proof fn lemma_pct_chars(b: Seq<u8>)
    ensures
        forall|k: int| 0 <= k < pct_encoded(b).len() ==> value_char(#[trigger] pct_encoded(b)[k]),
    decreases b.len(),
{
    if b.len() > 0 {
        lemma_pct_chars(b.drop_last());
        lemma_byte_pct_chars(b.last());
        let a = pct_encoded(b.drop_last());
        let c = byte_pct(b.last());
        assert forall|k: int| 0 <= k < pct_encoded(b).len() implies value_char(#[trigger] pct_encoded(b)[k]) by {
            if k < a.len() {
                assert(pct_encoded(b)[k] == a[k]);
            } else {
                assert(pct_encoded(b)[k] == c[k - a.len()]);
            }
        }
    }
}

/// Reading an ext-value written in UTF-8.
proof fn lemma_parse_ext_value_at(s: Seq<u8>, i: int, lang: Seq<char>, enc: Seq<char>)
    requires
        at(s, i, seq!['U', 'T', 'F', '-', '8', '\''] + lang + seq!['\''] + enc),
        tag_ok(lang),
        forall|k: int| 0 <= k < enc.len() ==> value_char(#[trigger] enc[k]),
        ({
            let e = i + 7 + lang.len() + enc.len();
            e == s.len() || s[e] == 59 || s[e] == 10 || s[e] == 44
        }),
    ensures
        parse_ext_value(s, i) == Some((
            ParamView::Ext { charset: seq!['U', 'T', 'F', '-', '8'], language: Some(lang), encoded: enc },
            i + 7 + lang.len() + enc.len(),
        )),
{
    let cs = seq!['U', 'T', 'F', '-', '8'];
    let q = seq!['\''];
    assert(seq!['U', 'T', 'F', '-', '8', '\''] =~= cs + q);
    assert(seq!['U', 'T', 'F', '-', '8', '\''] + lang + seq!['\''] + enc =~= cs + (q + (lang + (q + enc))));
    lemma_at_add(s, i, cs, q + (lang + (q + enc)));
    lemma_at_add(s, i + 5, q, lang + (q + enc));
    lemma_at_add(s, i + 6, lang, q + enc);
    lemma_at_add(s, i + 6 + lang.len(), q, enc);
    assert(s[i + 5 + 0] == q[0] as u8);
    assert(s[i + 6 + lang.len() + 0] == q[0] as u8);
    assert forall|k: int| 0 <= k < cs.len() implies in_class(ByteClass::CharsetByte, (#[trigger] cs[k]) as u8) by {
        lemma_ascii_char(cs[k]);
    }
    lemma_run_at(s, i, cs, ByteClass::CharsetByte);
    assert(all_ascii(cs));
    lemma_ascii_chars_at(s, i, cs);
    assert(all_ascii(lang));
    assert forall|k: int| 0 <= k < lang.len() implies in_class(ByteClass::LanguageByte, (#[trigger] lang[k]) as u8) by {
        lemma_ascii_char(lang[k]);
    }
    lemma_run_at(s, i + 6, lang, ByteClass::LanguageByte);
    lemma_ascii_chars_at(s, i + 6, lang);
    assert(all_ascii(enc));
    lemma_run_at(s, i + 7 + lang.len(), enc, ByteClass::ValueByte);
    lemma_ascii_chars_at(s, i + 7 + lang.len(), enc);
}

/// A parameter that reads back as written: a token for a name, and a quoted
/// string, a token, or (for a name ending with `*`) a UTF-8 ext-value.
pub open spec fn item_ok(it: Item) -> bool {
    &&& is_token(it.name)
    &&& match it.value {
        ParamView::Plain(v) => !ends_with_char(it.name, '*') && (
            (it.text == quoted(v, false) && all_ascii(v)) || (it.text == v && is_token(v))),
        ParamView::Ext { charset, language, encoded } => {
            &&& ends_with_char(it.name, '*')
            &&& charset == seq!['U', 'T', 'F', '-', '8']
            &&& language matches Some(lang) && tag_ok(lang)
                && it.text == seq!['U', 'T', 'F', '-', '8', '\''] + lang + seq!['\''] + encoded
            &&& forall|k: int| 0 <= k < encoded.len() ==> value_char(#[trigger] encoded[k])
        },
    }
}

/// What reading back a parameter may find after it: the end, or the start of
/// a separator.
pub open spec fn stops(s: Seq<u8>, k: int) -> bool {
    k == s.len() || (0 <= k < s.len() && (s[k] == 59 || s[k] == 10 || s[k] == 44))
}

proof fn lemma_parse_param_at(s: Seq<u8>, m: int, it: Item)
    requires
        item_ok(it),
        at(s, m, it.name + seq!['='] + it.text),
        stops(s, m + it.name.len() + 1 + it.text.len()),
    ensures
        parse_param(s, m) == Some(((it.name, it.value), m + it.name.len() + 1 + it.text.len())),
{
    let eq = seq!['='];
    lemma_at_add(s, m, it.name + eq, it.text);
    lemma_at_add(s, m, it.name, eq);
    let t = m + it.name.len();
    assert(s[t + 0] == eq[0] as u8);
    lemma_parse_token_at(s, m, it.name);
    let end = t + 1 + it.text.len();
    match it.value {
        ParamView::Plain(v) => {
            if it.text == quoted(v, false) && all_ascii(v) {
                lemma_parse_quoted_at(s, t + 1, v);
            } else {
                lemma_token_ascii(v);
                assert(s[t + 1 + 0] == v[0] as u8);
                lemma_parse_token_at(s, t + 1, v);
            }
        },
        ParamView::Ext { charset, language, encoded } => {
            let lang = language->0;
            lemma_parse_ext_value_at(s, t + 1, lang, encoded);
        },
    }
}

/// The name and value of a parameter.
pub open spec fn item_param(it: Item) -> (Seq<char>, ParamView) {
    (it.name, it.value)
}

/// Skipping the separator before a parameter: white space, `;`, white space.
proof fn lemma_sep_at(s: Seq<u8>, j: int, pretty: bool, next: char)
    requires
        at(s, j, param_sep(pretty) + seq![next]),
        is_tchar(next),
    ensures
        run_end(s, j, ByteClass::Space) == j + param_sep(pretty).len() - 2,
        s[j + param_sep(pretty).len() - 2] == 59,
        run_end(s, j + param_sep(pretty).len() - 1, ByteClass::Space) == j + param_sep(pretty).len(),
{
    let sep = param_sep(pretty);
    lemma_at_add(s, j, sep, seq![next]);
    assert(s[j + sep.len() + 0] == seq![next][0] as u8);
    lemma_token_ascii(seq![next]);
    assert(in_class(ByteClass::Tchar, next as u8));
    lemma_ascii_char(next);
    if pretty {
        let ws = seq!['\n', ' ', ' ', ' '];
        let tail = seq![';', ' '];
        assert(sep =~= ws + tail);
        lemma_at_add(s, j, ws, tail);
        lemma_run_at(s, j, ws, ByteClass::Space);
        assert(s[j + 4 + 0] == tail[0] as u8);
        assert(s[j + 4 + 1] == tail[1] as u8);
        lemma_run_at(s, j + 5, seq![' '], ByteClass::Space);
    } else {
        assert(s[j + 0] == sep[0] as u8);
        assert(s[j + 1] == sep[1] as u8);
        lemma_run_at(s, j, Seq::<char>::empty(), ByteClass::Space);
        lemma_run_at(s, j + 1, seq![' '], ByteClass::Space);
    }
}

/// Reading back a list of parameters, up to a `,` or the end.
proof fn lemma_parse_params_at(s: Seq<u8>, j: int, its: Seq<Item>, pretty: bool)
    requires
        at(s, j, items_text(its, param_sep(pretty))),
        forall|k: int| 0 <= k < its.len() ==> item_ok(#[trigger] its[k]),
        j + items_text(its, param_sep(pretty)).len() == s.len() || s[j + items_text(its, param_sep(pretty)).len()] == 44,
    ensures
        parse_params(s, j) == (params_of(its), j + items_text(its, param_sep(pretty)).len()),
    decreases its.len(),
{
    let sep = param_sep(pretty);
    if its.len() == 0 {
        assert(items_text(its, sep).len() == 0);
        lemma_run_at(s, j, Seq::<char>::empty(), ByteClass::Space);
        assert(its.map_values(|it: Item| item_param(it)) =~= Seq::<(Seq<char>, ParamView)>::empty());
    } else {
        let it = its[0];
        let rest = its.drop_first();
        assert(its =~= seq![it] + rest);
        lemma_items_text_add(seq![it], rest, sep);
        lemma_one_item(it, sep);
        let body = it.name + seq!['='] + it.text;
        assert(item_text(it, sep) =~= sep + body);
        let it_len = item_text(it, sep).len();
        lemma_at_add(s, j, item_text(it, sep), items_text(rest, sep));
        lemma_at_add(s, j, sep, body);
        assert(item_ok(its[0]));
        assert(sep + body =~= sep + seq![it.name[0]] + body.drop_first());
        lemma_at_add(s, j, sep + seq![it.name[0]], body.drop_first());
        assert(is_tchar(it.name[0]));
        lemma_sep_at(s, j, pretty, it.name[0]);
        let m = j + sep.len();
        let n = j + it_len;
        assert forall|k: int| 0 <= k < rest.len() implies item_ok(#[trigger] rest[k]) by {
            assert(rest[k] == its[k + 1]);
        }
        if rest.len() > 0 {
            let r0 = rest[0];
            lemma_items_text_add(seq![r0], rest.drop_first(), sep);
            assert(rest =~= seq![r0] + rest.drop_first());
            lemma_one_item(r0, sep);
            let t2 = item_text(r0, sep);
            lemma_at_add(s, n, t2, items_text(rest.drop_first(), sep));
            assert(s[n + 0] == t2[0] as u8);
            assert(t2[0] == sep[0]);
        }
        lemma_parse_param_at(s, m, it);
        lemma_parse_params_at(s, n, rest, pretty);
        assert(its.map_values(|it: Item| item_param(it))
            =~= seq![item_param(it)] + rest.map_values(|it: Item| item_param(it)));
    }
}

/// A link-value written from a target and its parameters.
pub open spec fn value_text(v: (Seq<char>, Seq<Item>), pretty: bool) -> Seq<char> {
    seq!['<'] + v.0 + seq!['>'] + items_text(v.1, param_sep(pretty))
}

/// The names and values of parameters.
pub open spec fn params_of(its: Seq<Item>) -> Seq<(Seq<char>, ParamView)> {
    its.map_values(|it: Item| item_param(it))
}

/// The link-value read back from a target and its parameters.
pub open spec fn entry_of(v: (Seq<char>, Seq<Item>)) -> EntryView {
    EntryView { target: v.0, params: params_of(v.1) }
}

/// A link-value that reads back as written.
pub open spec fn value_ok(v: (Seq<char>, Seq<Item>)) -> bool {
    &&& forall|k: int| 0 <= k < v.0.len() ==> is_uri_char(#[trigger] v.0[k])
    &&& forall|k: int| 0 <= k < v.1.len() ==> item_ok(#[trigger] v.1[k])
}

proof fn lemma_parse_link_value_at(s: Seq<u8>, i: int, v: (Seq<char>, Seq<Item>), pretty: bool)
    requires
        at(s, i, value_text(v, pretty)),
        value_ok(v),
        i + value_text(v, pretty).len() == s.len() || s[i + value_text(v, pretty).len()] == 44,
    ensures
        parse_link_value(s, i) == Some((entry_of(v), i + value_text(v, pretty).len())),
{
    let u = seq!['<'] + v.0 + seq!['>'];
    lemma_at_add(s, i, u, items_text(v.1, param_sep(pretty)));
    lemma_parse_uri_at(s, i, v.0);
    lemma_parse_params_at(s, i + u.len(), v.1, pretty);
}

/// Each part after the first, preceded by the separator.
pub open spec fn suffix(parts: Seq<Seq<char>>, sep: Seq<char>) -> Seq<char>
    decreases parts.len(),
{
    if parts.len() == 0 {
        Seq::empty()
    } else {
        suffix(parts.drop_last(), sep) + sep + parts.last()
    }
}

proof fn lemma_suffix_front(p: Seq<char>, rest: Seq<Seq<char>>, sep: Seq<char>)
    ensures
        suffix(seq![p] + rest, sep) == sep + p + suffix(rest, sep),
    decreases rest.len(),
{
    if rest.len() == 0 {
        assert(seq![p] + rest =~= seq![p]);
        assert(seq![p].drop_last() =~= Seq::<Seq<char>>::empty());
        assert(suffix(Seq::<Seq<char>>::empty(), sep) == Seq::<char>::empty());
        assert(suffix(seq![p], sep) =~= sep + p + suffix(rest, sep));
    } else {
        assert((seq![p] + rest).drop_last() =~= seq![p] + rest.drop_last());
        lemma_suffix_front(p, rest.drop_last(), sep);
        assert(suffix(seq![p] + rest, sep) =~= sep + p + suffix(rest, sep));
    }
}

proof fn lemma_joined_front(parts: Seq<Seq<char>>, sep: Seq<char>)
    requires
        parts.len() > 0,
    ensures
        joined(parts, sep) == parts[0] + suffix(parts.drop_first(), sep),
    decreases parts.len(),
{
    if parts.len() == 1 {
        assert(parts.drop_first() =~= Seq::<Seq<char>>::empty());
        assert(parts[0] + Seq::<char>::empty() =~= parts[0]);
    } else {
        lemma_joined_front(parts.drop_last(), sep);
        assert(parts.drop_last().drop_first() =~= parts.drop_first().drop_last());
        assert(parts.drop_first().last() == parts.last());
        assert(joined(parts, sep) =~= parts[0] + suffix(parts.drop_first(), sep));
    }
}

proof fn lemma_parse_more_values_at(s: Seq<u8>, i: int, vals: Seq<(Seq<char>, Seq<Item>)>, pretty: bool)
    requires
        at(s, i, suffix(vals.map_values(|v: (Seq<char>, Seq<Item>)| value_text(v, pretty)), value_sep(pretty))),
        i + suffix(vals.map_values(|v: (Seq<char>, Seq<Item>)| value_text(v, pretty)), value_sep(pretty)).len() == s.len(),
        forall|k: int| 0 <= k < vals.len() ==> value_ok(#[trigger] vals[k]),
    ensures
        parse_more_values(s, i) == (vals.map_values(|v: (Seq<char>, Seq<Item>)| entry_of(v)), s.len() as int),
    decreases vals.len(),
{
    let vsep = value_sep(pretty);
    let texts = vals.map_values(|v: (Seq<char>, Seq<Item>)| value_text(v, pretty));
    if vals.len() == 0 {
        assert(texts =~= Seq::<Seq<char>>::empty());
        lemma_run_at(s, i, Seq::<char>::empty(), ByteClass::Space);
        assert(vals.map_values(|v: (Seq<char>, Seq<Item>)| entry_of(v)) =~= Seq::<EntryView>::empty());
    } else {
        let v0 = vals[0];
        let rest = vals.drop_first();
        let t0 = value_text(v0, pretty);
        let rtexts = rest.map_values(|v: (Seq<char>, Seq<Item>)| value_text(v, pretty));
        assert(texts =~= seq![t0] + rtexts);
        lemma_suffix_front(t0, rtexts, vsep);
        assert(vsep + t0 + suffix(rtexts, vsep) =~= vsep + (t0 + suffix(rtexts, vsep)));
        lemma_at_add(s, i, vsep, t0 + suffix(rtexts, vsep));
        lemma_at_add(s, i + 2, t0, suffix(rtexts, vsep));
        assert(s[i + 0] == vsep[0] as u8);
        assert(s[i + 1] == vsep[1] as u8);
        assert(s[i + 2 + 0] == t0[0] as u8);
        lemma_run_at(s, i, Seq::<char>::empty(), ByteClass::Space);
        lemma_run_at(s, i + 1, seq![vsep[1]], ByteClass::Space);
        let n = i + 2 + t0.len();
        if rest.len() > 0 {
            let t1 = value_text(rest[0], pretty);
            assert(rtexts =~= seq![t1] + rtexts.drop_first());
            lemma_suffix_front(t1, rtexts.drop_first(), vsep);
            assert(vsep + t1 + suffix(rtexts.drop_first(), vsep) =~= vsep + (t1 + suffix(rtexts.drop_first(), vsep)));
            lemma_at_add(s, n, vsep, t1 + suffix(rtexts.drop_first(), vsep));
            assert(s[n + 0] == vsep[0] as u8);
        } else {
            assert(rtexts =~= Seq::<Seq<char>>::empty());
        }
        assert(value_ok(vals[0]));
        lemma_parse_link_value_at(s, i + 2, v0, pretty);
        assert forall|k: int| 0 <= k < rest.len() implies value_ok(#[trigger] rest[k]) by {
            assert(rest[k] == vals[k + 1]);
        }
        lemma_parse_more_values_at(s, n, rest, pretty);
        assert(vals.map_values(|v: (Seq<char>, Seq<Item>)| entry_of(v))
            =~= seq![entry_of(v0)] + rest.map_values(|v: (Seq<char>, Seq<Item>)| entry_of(v)));
    }
}

/// Reading back a document of link-values.
pub proof fn lemma_parse_document_at(s: Seq<u8>, vals: Seq<(Seq<char>, Seq<Item>)>, pretty: bool)
    requires
        vals.len() > 0,
        at(s, 0, joined(vals.map_values(|v: (Seq<char>, Seq<Item>)| value_text(v, pretty)), value_sep(pretty))),
        s.len() == joined(vals.map_values(|v: (Seq<char>, Seq<Item>)| value_text(v, pretty)), value_sep(pretty)).len(),
        forall|k: int| 0 <= k < vals.len() ==> value_ok(#[trigger] vals[k]),
    ensures
        parse_document(s) == Some(vals.map_values(|v: (Seq<char>, Seq<Item>)| entry_of(v))),
{
    let vsep = value_sep(pretty);
    let texts = vals.map_values(|v: (Seq<char>, Seq<Item>)| value_text(v, pretty));
    lemma_joined_front(texts, vsep);
    let t0 = texts[0];
    let rest = vals.drop_first();
    let rtexts = rest.map_values(|v: (Seq<char>, Seq<Item>)| value_text(v, pretty));
    assert(texts.drop_first() =~= rtexts);
    lemma_at_add(s, 0, t0, suffix(rtexts, vsep));
    assert(s[0int + 0] == t0[0] as u8);
    lemma_run_at(s, 0, Seq::<char>::empty(), ByteClass::Space);
    let n = t0.len() as int;
    if rest.len() > 0 {
        let t1 = value_text(rest[0], pretty);
        assert(rtexts =~= seq![t1] + rtexts.drop_first());
        lemma_suffix_front(t1, rtexts.drop_first(), vsep);
        assert(vsep + t1 + suffix(rtexts.drop_first(), vsep) =~= vsep + (t1 + suffix(rtexts.drop_first(), vsep)));
        lemma_at_add(s, n, vsep, t1 + suffix(rtexts.drop_first(), vsep));
        assert(s[n + 0] == vsep[0] as u8);
    } else {
        assert(rtexts =~= Seq::<Seq<char>>::empty());
    }
    assert(value_ok(vals[0]));
    lemma_parse_link_value_at(s, 0, vals[0], pretty);
    assert forall|k: int| 0 <= k < rest.len() implies value_ok(#[trigger] rest[k]) by {
        assert(rest[k] == vals[k + 1]);
    }
    lemma_parse_more_values_at(s, n, rest, pretty);
    lemma_run_at(s, s.len() as int, Seq::<char>::empty(), ByteClass::Space);
    assert(vals.map_values(|v: (Seq<char>, Seq<Item>)| entry_of(v))
        =~= seq![entry_of(vals[0])] + rest.map_values(|v: (Seq<char>, Seq<Item>)| entry_of(v)));
}

/// The link-values that the writer writes for a context against `base`.
pub open spec fn context_values(c: ContextView, base: Option<Seq<char>>) -> Seq<(Seq<char>, Seq<Item>)> {
    c.links.map_values(|l: LinkView| (relative_text(base, l.target), link_items(l, relative_text(base, c.anchor))))
}

/// The link-values that the writer writes for contexts against `base`.
pub open spec fn all_values(cs: Seq<ContextView>, base: Option<Seq<char>>) -> Seq<(Seq<char>, Seq<Item>)>
    decreases cs.len(),
{
    if cs.len() == 0 {
        Seq::empty()
    } else {
        all_values(cs.drop_last(), base) + context_values(cs.last(), base)
    }
}

/// URI characters hold no line break.
proof fn lemma_uri_chars_one_line(t: Seq<char>)
    requires
        uri_chars(t),
    ensures
        one_line(t),
{
    assert forall|i: int| 0 <= i < t.len() implies #[trigger] t[i] != '\n' && t[i] != '\r' by {
        assert(is_uri_char(t[i]));
    }
}

proof fn lemma_link_texts_values(cs: Seq<ContextView>, base: Option<Seq<char>>, pretty: bool)
    requires
        forall|k: int| 0 <= k < cs.len() ==> context_text_ok(#[trigger] cs[k]),
        uris_written_ok(cs, base),
        !pretty ==> linkset_quoted_one_line(cs),
    ensures
        link_texts(cs, base, pretty) == all_values(cs, base).map_values(|v: (Seq<char>, Seq<Item>)| value_text(v, pretty)),
    decreases cs.len(),
{
    if cs.len() > 0 {
        let init = cs.drop_last();
        assert forall|k: int| 0 <= k < init.len() implies context_text_ok(#[trigger] init[k]) by {
            assert(init[k] == cs[k]);
        }
        assert(uris_written_ok(init, base)) by {
            assert forall|i: int| 0 <= i < init.len() implies uri_chars(relative_text(base, (#[trigger] init[i]).anchor))
                && forall|j: int| 0 <= j < init[i].links.len() ==> uri_chars(relative_text(base, (#[trigger] init[i].links[j]).target)) by {
                assert(init[i] == cs[i]);
            }
        }
        assert(!pretty ==> linkset_quoted_one_line(init)) by {
            if !pretty {
                assert forall|i: int, j: int| 0 <= i < init.len() && 0 <= j < init[i].links.len()
                    implies quoted_one_line(#[trigger] init[i].links[j]) by {
                    assert(init[i] == cs[i]);
                }
            }
        }
        lemma_link_texts_values(init, base, pretty);
        let c = cs.last();
        let a = all_values(cs.drop_last(), base);
        let b = context_values(c, base);
        let n = cs.len() - 1;
        assert(c == cs[n]);
        assert(context_text_ok(c));
        assert(uri_chars(relative_text(base, c.anchor)));
        lemma_uri_chars_one_line(relative_text(base, c.anchor));
        assert forall|k: int| 0 <= k < c.links.len() implies #[trigger] context_link_texts(c, base, pretty)[k]
            == value_text(b[k], pretty) by {
            let l = c.links[k];
            assert(link_text_ok(l));
            assert(uri_chars(rel_text(l.rel)));
            lemma_uri_chars_one_line(rel_text(l.rel));
            assert(!pretty ==> quoted_one_line(cs[n].links[k]));
            lemma_link_value_items(l, relative_text(base, l.target), relative_text(base, c.anchor), pretty);
        }
        assert(context_link_texts(c, base, pretty) =~= b.map_values(|v: (Seq<char>, Seq<Item>)| value_text(v, pretty)));
        assert((a + b).map_values(|v: (Seq<char>, Seq<Item>)| value_text(v, pretty))
            =~= a.map_values(|v: (Seq<char>, Seq<Item>)| value_text(v, pretty)) + b.map_values(|v: (Seq<char>, Seq<Item>)| value_text(v, pretty)));
    }
}

// ── ASCII ────────────────────────────────────────────────────────────────────

proof fn lemma_ascii_add(a: Seq<char>, b: Seq<char>)
    requires
        all_ascii(a),
        all_ascii(b),
    ensures
        all_ascii(a + b),
{
    assert forall|k: int| 0 <= k < (a + b).len() implies crate::strs::is_ascii_char(#[trigger] (a + b)[k]) by {
        if k < a.len() {
            assert((a + b)[k] == a[k]);
        } else {
            assert((a + b)[k] == b[k - a.len()]);
        }
    }
}

proof fn lemma_escaped_ascii(t: Seq<char>)
    requires
        all_ascii(t),
    ensures
        all_ascii(escaped(t, false)),
    decreases t.len(),
{
    if t.len() > 0 {
        assert(all_ascii(t.drop_last())) by {
            assert forall|k: int| 0 <= k < t.drop_last().len() implies crate::strs::is_ascii_char(#[trigger] t.drop_last()[k]) by {
                assert(t.drop_last()[k] == t[k]);
            }
        }
        lemma_escaped_ascii(t.drop_last());
        assert(crate::strs::is_ascii_char(t[t.len() - 1]));
        lemma_ascii_add(escaped(t.drop_last(), false), escape_char(t.last(), false));
    }
}

proof fn lemma_quoted_ascii(t: Seq<char>)
    requires
        all_ascii(t),
    ensures
        all_ascii(quoted(t, false)),
{
    lemma_escaped_ascii(t);
    lemma_ascii_add(seq!['"'], escaped(t, false));
    lemma_ascii_add(seq!['"'] + escaped(t, false), seq!['"']);
}

proof fn lemma_item_ascii(it: Item)
    requires
        item_ok(it),
    ensures
        all_ascii(it.name),
        all_ascii(it.text),
{
    lemma_token_ascii(it.name);
    match it.value {
        ParamView::Plain(v) => {
            if it.text == quoted(v, false) && all_ascii(v) {
                lemma_quoted_ascii(v);
            } else {
                lemma_token_ascii(v);
            }
        },
        ParamView::Ext { charset, language, encoded } => {
            let lang = language->0;
            assert(all_ascii(lang));
            assert(all_ascii(encoded));
            let h = seq!['U', 'T', 'F', '-', '8', '\''];
            lemma_ascii_add(h, lang);
            lemma_ascii_add(h + lang, seq!['\'']);
            lemma_ascii_add(h + lang + seq!['\''], encoded);
        },
    }
}

proof fn lemma_items_ascii(its: Seq<Item>, sep: Seq<char>)
    requires
        all_ascii(sep),
        forall|k: int| 0 <= k < its.len() ==> item_ok(#[trigger] its[k]),
    ensures
        all_ascii(items_text(its, sep)),
    decreases its.len(),
{
    if its.len() > 0 {
        assert forall|k: int| 0 <= k < its.drop_last().len() implies item_ok(#[trigger] its.drop_last()[k]) by {
            assert(its.drop_last()[k] == its[k]);
        }
        lemma_items_ascii(its.drop_last(), sep);
        let it = its.last();
        assert(item_ok(its[its.len() - 1]));
        lemma_item_ascii(it);
        lemma_ascii_add(sep, it.name);
        lemma_ascii_add(sep + it.name, seq!['=']);
        lemma_ascii_add(sep + it.name + seq!['='], it.text);
        lemma_ascii_add(items_text(its.drop_last(), sep), item_text(it, sep));
    }
}

proof fn lemma_value_ascii(v: (Seq<char>, Seq<Item>), pretty: bool)
    requires
        value_ok(v),
    ensures
        all_ascii(value_text(v, pretty)),
{
    assert(all_ascii(param_sep(pretty)));
    lemma_items_ascii(v.1, param_sep(pretty));
    assert(all_ascii(v.0));
    lemma_ascii_add(seq!['<'], v.0);
    lemma_ascii_add(seq!['<'] + v.0, seq!['>']);
    lemma_ascii_add(seq!['<'] + v.0 + seq!['>'], items_text(v.1, param_sep(pretty)));
}

proof fn lemma_joined_ascii(parts: Seq<Seq<char>>, sep: Seq<char>)
    requires
        all_ascii(sep),
        forall|k: int| 0 <= k < parts.len() ==> all_ascii(#[trigger] parts[k]),
    ensures
        all_ascii(joined(parts, sep)),
    decreases parts.len(),
{
    if parts.len() > 1 {
        assert forall|k: int| 0 <= k < parts.drop_last().len() implies all_ascii(#[trigger] parts.drop_last()[k]) by {
            assert(parts.drop_last()[k] == parts[k]);
        }
        lemma_joined_ascii(parts.drop_last(), sep);
        assert(all_ascii(parts[parts.len() - 1]));
        lemma_ascii_add(joined(parts.drop_last(), sep), sep);
        lemma_ascii_add(joined(parts.drop_last(), sep) + sep, parts.last());
    } else if parts.len() == 1 {
        assert(all_ascii(parts[0]));
    }
}

// ── The parameters of a link read back as written ───────────────────────────

/// Each plain group comes from an entry.
pub proof fn lemma_plain_exts_member(e: Seq<(Seq<char>, ExtValuesView)>)
    ensures
        forall|i: int| 0 <= i < plain_exts(e).len() ==> exists|j: int| 0 <= j < e.len()
            && e[j] == (plain_exts(e)[i].0, ExtValuesView::Plain(#[trigger] plain_exts(e)[i].1)),
    decreases e.len(),
{
    if e.len() > 0 {
        lemma_plain_exts_member(e.drop_last());
        let p = plain_exts(e.drop_last());
        assert forall|i: int| 0 <= i < plain_exts(e).len() implies exists|j: int| 0 <= j < e.len()
            && e[j] == (plain_exts(e)[i].0, ExtValuesView::Plain(#[trigger] plain_exts(e)[i].1)) by {
            if i < p.len() {
                assert(plain_exts(e)[i] == p[i]);
                let j = choose|j: int| 0 <= j < e.drop_last().len() && e.drop_last()[j] == (p[i].0, ExtValuesView::Plain(p[i].1));
                assert(e[j] == e.drop_last()[j]);
            } else {
                assert(e[e.len() - 1] == e.last());
            }
        }
    }
}

/// Each internationalised group comes from an entry.
pub proof fn lemma_i18n_exts_member(e: Seq<(Seq<char>, ExtValuesView)>)
    ensures
        forall|i: int| 0 <= i < i18n_exts(e).len() ==> exists|j: int| 0 <= j < e.len()
            && e[j] == (i18n_exts(e)[i].0, ExtValuesView::I18n(#[trigger] i18n_exts(e)[i].1)),
    decreases e.len(),
{
    if e.len() > 0 {
        lemma_i18n_exts_member(e.drop_last());
        let p = i18n_exts(e.drop_last());
        assert forall|i: int| 0 <= i < i18n_exts(e).len() implies exists|j: int| 0 <= j < e.len()
            && e[j] == (i18n_exts(e)[i].0, ExtValuesView::I18n(#[trigger] i18n_exts(e)[i].1)) by {
            if i < p.len() {
                assert(i18n_exts(e)[i] == p[i]);
                let j = choose|j: int| 0 <= j < e.drop_last().len() && e.drop_last()[j] == (p[i].0, ExtValuesView::I18n(p[i].1));
                assert(e[j] == e.drop_last()[j]);
            } else {
                assert(e[e.len() - 1] == e.last());
            }
        }
    }
}

/// Plain groups that read back: token keys without `*`, ASCII values.
pub open spec fn plain_groups_ok(g: Seq<(Seq<char>, Seq<Seq<char>>)>) -> bool {
    forall|i: int| 0 <= i < g.len() ==> {
        &&& is_token((#[trigger] g[i]).0)
        &&& !ends_with_char(g[i].0, '*')
        &&& forall|m: int| 0 <= m < g[i].1.len() ==> all_ascii(#[trigger] g[i].1[m])
    }
}

/// Internationalised groups that read back: token keys with `*`, valid languages.
pub open spec fn i18n_groups_ok(g: Seq<(Seq<char>, Seq<I18nView>)>) -> bool {
    forall|i: int| 0 <= i < g.len() ==> {
        &&& is_token((#[trigger] g[i]).0)
        &&& ends_with_char(g[i].0, '*')
        &&& forall|m: int| 0 <= m < g[i].1.len() ==> tag_ok((#[trigger] g[i].1[m]).language)
    }
}

proof fn lemma_link_groups_ok(l: LinkView)
    requires
        link_text_ok(l),
    ensures
        plain_groups_ok(plain_exts(l.exts)),
        i18n_groups_ok(i18n_exts(l.exts)),
{
    let e = l.exts;
    lemma_plain_exts_member(e);
    lemma_i18n_exts_member(e);
    let p = plain_exts(e);
    assert forall|i: int| 0 <= i < p.len() implies {
        &&& is_token((#[trigger] p[i]).0)
        &&& !ends_with_char(p[i].0, '*')
        &&& forall|m: int| 0 <= m < p[i].1.len() ==> all_ascii(#[trigger] p[i].1[m])
    } by {
        let j = choose|j: int| 0 <= j < e.len() && e[j] == (p[i].0, ExtValuesView::Plain(p[i].1));
        assert(ext_entry_ok(e[j]));
        assert(ext_key_problem(p[i].0, false) is None);
    }
    let q = i18n_exts(e);
    assert forall|i: int| 0 <= i < q.len() implies {
        &&& is_token((#[trigger] q[i]).0)
        &&& ends_with_char(q[i].0, '*')
        &&& forall|m: int| 0 <= m < q[i].1.len() ==> tag_ok((#[trigger] q[i].1[m]).language)
    } by {
        let j = choose|j: int| 0 <= j < e.len() && e[j] == (q[i].0, ExtValuesView::I18n(q[i].1));
        assert(ext_entry_ok(e[j]));
        assert(ext_key_problem(q[i].0, true) is None);
    }
}

proof fn lemma_ext_item_ok(name: Seq<char>, i: I18nView)
    requires
        is_token(name),
        ends_with_char(name, '*'),
        tag_ok(i.language),
    ensures
        item_ok(ext_item(name, i)),
{
    lemma_pct_chars(encode_utf8(i.value));
}

proof fn lemma_plain_group_items_ok(g: Seq<(Seq<char>, Seq<Seq<char>>)>)
    requires
        plain_groups_ok(g),
    ensures
        forall|k: int| 0 <= k < plain_group_items(g).len() ==> item_ok(#[trigger] plain_group_items(g)[k]),
    decreases g.len(),
{
    if g.len() > 0 {
        assert(plain_groups_ok(g.drop_last())) by {
            assert forall|i: int| 0 <= i < g.drop_last().len() implies #[trigger] g.drop_last()[i] == g[i] by {}
        }
        lemma_plain_group_items_ok(g.drop_last());
        let a = plain_group_items(g.drop_last());
        let last = g[g.len() - 1];
        let b = last.1.map_values(|v: Seq<char>| quoted_item(last.0, v));
        assert forall|k: int| 0 <= k < plain_group_items(g).len() implies item_ok(#[trigger] plain_group_items(g)[k]) by {
            if k < a.len() {
                assert(plain_group_items(g)[k] == a[k]);
            } else {
                assert(plain_group_items(g)[k] == b[k - a.len()]);
                assert(all_ascii(last.1[k - a.len()]));
            }
        }
    }
}

proof fn lemma_i18n_group_items_ok(g: Seq<(Seq<char>, Seq<I18nView>)>)
    requires
        i18n_groups_ok(g),
    ensures
        forall|k: int| 0 <= k < i18n_group_items(g).len() ==> item_ok(#[trigger] i18n_group_items(g)[k]),
    decreases g.len(),
{
    if g.len() > 0 {
        assert(i18n_groups_ok(g.drop_last())) by {
            assert forall|i: int| 0 <= i < g.drop_last().len() implies #[trigger] g.drop_last()[i] == g[i] by {}
        }
        lemma_i18n_group_items_ok(g.drop_last());
        let a = i18n_group_items(g.drop_last());
        let last = g[g.len() - 1];
        let b = last.1.map_values(|v: I18nView| ext_item(last.0, v));
        assert forall|k: int| 0 <= k < i18n_group_items(g).len() implies item_ok(#[trigger] i18n_group_items(g)[k]) by {
            if k < a.len() {
                assert(i18n_group_items(g)[k] == a[k]);
            } else {
                assert(i18n_group_items(g)[k] == b[k - a.len()]);
                assert(tag_ok(last.1[k - a.len()].language));
                lemma_ext_item_ok(last.0, last.1[k - a.len()]);
            }
        }
    }
}

/// Every parameter reads back as written.
pub open spec fn items_ok(its: Seq<Item>) -> bool {
    forall|k: int| 0 <= k < its.len() ==> item_ok(#[trigger] its[k])
}

proof fn lemma_items_ok_add(a: Seq<Item>, b: Seq<Item>)
    requires
        items_ok(a),
        items_ok(b),
    ensures
        items_ok(a + b),
{
    assert forall|k: int| 0 <= k < (a + b).len() implies item_ok(#[trigger] (a + b)[k]) by {
        if k < a.len() {
            assert((a + b)[k] == a[k]);
        } else {
            assert((a + b)[k] == b[k - a.len()]);
        }
    }
}

proof fn lemma_quoted_item_ok(name: Seq<char>, v: Seq<char>)
    requires
        is_token(name),
        !ends_with_char(name, '*'),
        all_ascii(v),
    ensures
        item_ok(quoted_item(name, v)),
{
}

proof fn lemma_opt_items_ok(name: Seq<char>, o: Option<Seq<char>>)
    requires
        is_token(name),
        !ends_with_char(name, '*'),
        o matches Some(v) ==> all_ascii(v),
    ensures
        items_ok(opt_items(name, o)),
{
}

/// The parameters of a link that the format can carry read back as written.
pub proof fn lemma_link_items_ok(l: LinkView, target: Seq<char>, anchor: Seq<char>)
    requires
        link_text_ok(l),
        uri_chars(target),
        uri_chars(anchor),
    ensures
        items_ok(link_items(l, anchor)),
        value_ok((target, link_items(l, anchor))),
{
    let rel = seq!['r', 'e', 'l'];
    let anc = seq!['a', 'n', 'c', 'h', 'o', 'r'];
    let ty = seq!['t', 'y', 'p', 'e'];
    let ti = seq!['t', 'i', 't', 'l', 'e'];
    let me = seq!['m', 'e', 'd', 'i', 'a'];
    let hl = seq!['h', 'r', 'e', 'f', 'l', 'a', 'n', 'g'];
    let tis = seq!['t', 'i', 't', 'l', 'e', '*'];
    assert(is_token(rel) && is_token(anc) && is_token(ty) && is_token(ti) && is_token(me) && is_token(hl) && is_token(tis));
    assert(all_ascii(rel_text(l.rel)));
    assert(all_ascii(anchor));
    let r = seq![quoted_item(rel, rel_text(l.rel))];
    lemma_quoted_item_ok(rel, rel_text(l.rel));
    let an = if anchor.len() > 0 { seq![quoted_item(anc, anchor)] } else { Seq::<Item>::empty() };
    lemma_quoted_item_ok(anc, anchor);
    let a1 = opt_items(ty, l.type_);
    lemma_opt_items_ok(ty, l.type_);
    let a2 = l.hreflang.map_values(|t: Seq<char>| tag_item(t));
    assert forall|k: int| 0 <= k < a2.len() implies item_ok(#[trigger] a2[k]) by {
        let t = l.hreflang[k];
        assert(tag_ok(t));
        assert(is_token(t));
    }
    let a3 = opt_items(ti, l.title);
    lemma_opt_items_ok(ti, l.title);
    let a4 = title_i18n_items(l.title_i18n);
    if let Some(i) = l.title_i18n {
        lemma_ext_item_ok(tis, i);
    }
    let a5 = opt_items(me, l.media);
    lemma_opt_items_ok(me, l.media);
    lemma_link_groups_ok(l);
    let a6 = plain_group_items(plain_exts(l.exts));
    lemma_plain_group_items_ok(plain_exts(l.exts));
    let a7 = i18n_group_items(i18n_exts(l.exts));
    lemma_i18n_group_items_ok(i18n_exts(l.exts));
    lemma_items_ok_add(a1, a2);
    lemma_items_ok_add(a1 + a2, a3);
    lemma_items_ok_add(a1 + a2 + a3, a4);
    lemma_items_ok_add(a1 + a2 + a3 + a4, a5);
    lemma_items_ok_add(a1 + a2 + a3 + a4 + a5, a6);
    lemma_items_ok_add(a1 + a2 + a3 + a4 + a5 + a6, a7);
    lemma_items_ok_add(r, an);
    lemma_items_ok_add(r + an, attr_items(l));
}

// ── Reading back the whole document ─────────────────────────────────────────

proof fn lemma_all_values_ok(cs: Seq<ContextView>, base: Option<Seq<char>>)
    requires
        forall|k: int| 0 <= k < cs.len() ==> context_text_ok(#[trigger] cs[k]),
        uris_written_ok(cs, base),
    ensures
        forall|k: int| 0 <= k < all_values(cs, base).len() ==> value_ok(#[trigger] all_values(cs, base)[k]),
        cs.len() > 0 ==> all_values(cs, base).len() > 0,
    decreases cs.len(),
{
    if cs.len() > 0 {
        let c0 = cs.drop_last();
        assert forall|k: int| 0 <= k < c0.len() implies context_text_ok(#[trigger] c0[k]) by {
            assert(c0[k] == cs[k]);
        }
        assert(uris_written_ok(c0, base)) by {
            assert forall|i: int| 0 <= i < c0.len() implies uri_chars(relative_text(base, (#[trigger] c0[i]).anchor))
                && forall|j: int| 0 <= j < c0[i].links.len() ==> uri_chars(relative_text(base, (#[trigger] c0[i].links[j]).target)) by {
                assert(c0[i] == cs[i]);
            }
        }
        lemma_all_values_ok(c0, base);
        let c = cs[cs.len() - 1];
        assert(context_text_ok(c));
        assert(uri_chars(relative_text(base, c.anchor)));
        let a = all_values(c0, base);
        let b = context_values(c, base);
        assert forall|k: int| 0 <= k < all_values(cs, base).len() implies value_ok(#[trigger] all_values(cs, base)[k]) by {
            if k < a.len() {
                assert(all_values(cs, base)[k] == a[k]);
            } else {
                let m = k - a.len();
                assert(all_values(cs, base)[k] == b[m]);
                assert(link_text_ok(c.links[m]));
                assert(uri_chars(relative_text(base, c.links[m].target)));
                lemma_link_items_ok(c.links[m], relative_text(base, c.links[m].target), relative_text(base, c.anchor));
            }
        }
    }
}

proof fn lemma_ascii_char_range(c: char)
    requires
        crate::strs::is_ascii_char(c),
    ensures
        '\0' <= c <= '\u{7f}',
{
}

/// The bytes of an ASCII text are its characters.
proof fn lemma_ascii_bytes(t: Seq<char>)
    requires
        all_ascii(t),
    ensures
        at(encode_utf8(t), 0, t),
        encode_utf8(t).len() == t.len(),
{
    assert(vstd::utf8::is_ascii_chars(t)) by {
        assert forall|i: int| 0 <= i < t.len() implies '\0' <= #[trigger] t[i] <= '\u{7f}' by {
            lemma_ascii_char_range(t[i]);
        }
    }
    vstd::utf8::is_ascii_chars_encode_utf8(t);
    let s = encode_utf8(t);
    assert forall|k: int| 0 <= k < t.len() implies s[0 + k] == (#[trigger] t[k]) as u8 by {}
}

proof fn lemma_texts_ascii(vals: Seq<(Seq<char>, Seq<Item>)>, pretty: bool)
    requires
        forall|k: int| 0 <= k < vals.len() ==> value_ok(#[trigger] vals[k]),
    ensures
        all_ascii(joined(vals.map_values(|v: (Seq<char>, Seq<Item>)| value_text(v, pretty)), value_sep(pretty))),
{
    let texts = vals.map_values(|v: (Seq<char>, Seq<Item>)| value_text(v, pretty));
    assert forall|k: int| 0 <= k < texts.len() implies all_ascii(#[trigger] texts[k]) by {
        lemma_value_ascii(vals[k], pretty);
    }
    lemma_joined_ascii(texts, value_sep(pretty));
}

/// The document that the writer writes for a link set that the format can
/// carry reads back into the link-values it was written from.
pub proof fn lemma_text_parses(cs: Seq<ContextView>, base: Option<Seq<char>>, pretty: bool)
    requires
        linkset_text_ok(cs),
        uris_written_ok(cs, base),
        !pretty ==> linkset_quoted_one_line(cs),
    ensures
        parse_document(encode_utf8(linkset_text(cs, base, pretty)))
            == Some(all_values(cs, base).map_values(|v: (Seq<char>, Seq<Item>)| entry_of(v))),
{
    let vals = all_values(cs, base);
    let texts = vals.map_values(|v: (Seq<char>, Seq<Item>)| value_text(v, pretty));
    let vsep = value_sep(pretty);
    let t = linkset_text(cs, base, pretty);
    assert(t == joined(texts, vsep)) by {
        lemma_link_texts_values(cs, base, pretty);
    }
    lemma_all_values_ok(cs, base);
    lemma_texts_ascii(vals, pretty);
    assert(at(encode_utf8(t), 0, t) && encode_utf8(t).len() == t.len()) by {
        lemma_ascii_bytes(t);
    }
    lemma_parse_document_at(encode_utf8(t), vals, pretty);
}

/// The ext-value that the writer writes for an internationalised string with
/// a valid language tag is ASCII, and reads back, as a whole, into that
/// string.
pub proof fn ext_value_round_trip(i: I18nView)
    requires
        tag_ok(i.language),
    ensures
        ({
            let s = encode_utf8(ext_value_text(i));
            &&& forall|k: int| 0 <= k < s.len() ==> #[trigger] s[k] < 128
            &&& parse_ext_value(s, 0) matches Some((v, e)) && e == s.len() && decoded_ext_value(v) == Some(i)
        }),
{
    let lang = i.language;
    let enc = pct_encoded(encode_utf8(i.value));
    lemma_pct_chars(encode_utf8(i.value));
    let h = seq!['U', 'T', 'F', '-', '8', '\''];
    let t = h + lang + seq!['\''] + enc;
    assert(t == ext_value_text(i));
    assert(all_ascii(lang));
    assert(all_ascii(enc));
    lemma_ascii_add(h, lang);
    lemma_ascii_add(h + lang, seq!['\'']);
    lemma_ascii_add(h + lang + seq!['\''], enc);
    lemma_ascii_bytes(t);
    let s = encode_utf8(t);
    assert forall|k: int| 0 <= k < s.len() implies #[trigger] s[k] < 128 by {
        assert(s[0 + k] == t[k] as u8);
        assert(crate::strs::is_ascii_char(t[k]));
        lemma_ascii_char_range(t[k]);
    }
    lemma_parse_ext_value_at(encode_utf8(t), 0, lang, enc);
    crate::text::round_trip_links::lemma_decode_ext_item(i);
}

} // verus!
