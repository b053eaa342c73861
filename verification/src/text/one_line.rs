//! The compact text of a link set is one line: quoted values have their line
//! breaks written as spaces, ext-values are percent-encoded, and what is
//! copied as it is (targets, language tags, extension keys) holds none.

use vstd::prelude::*;
use vstd::utf8::encode_utf8;

use crate::model::ext_values::ExtValuesView;
use crate::model::lang::I18nView;
use crate::model::link::{LinkView, i18n_exts, plain_exts};
use crate::model::link_context::ContextView;
use super::round_trip::{lemma_i18n_exts_member, lemma_plain_exts_member};
use super::write::{
    byte_pct, escape_char, escaped, ext_value_text, hex_upper, hreflang_text, i18n_exts_text, i18n_values_text,
    is_attr_byte, link_attrs_text, link_head_text, link_value_text, one_line, opt_param, param_sep, pct_encoded,
    plain_exts_text, plain_values_text, quoted, title_i18n_text,
};

verus! {

/// The texts of a link that the writer copies as they are hold no line break:
/// its target, its language tags, its extension keys and the languages of its
/// internationalised values.
pub open spec fn link_lines_ok(l: LinkView) -> bool {
    &&& one_line(l.target)
    &&& forall|k: int| 0 <= k < l.hreflang.len() ==> one_line(#[trigger] l.hreflang[k])
    &&& l.title_i18n matches Some(i) ==> one_line(i.language)
    &&& forall|k: int| 0 <= k < l.exts.len() ==> one_line((#[trigger] l.exts[k]).0) && match l.exts[k].1 {
        ExtValuesView::I18n(vs) => forall|m: int| 0 <= m < vs.len() ==> one_line((#[trigger] vs[m]).language),
        ExtValuesView::Plain(_) => true,
    }
}

/// Every link of every context is [`link_lines_ok`].
pub open spec fn linkset_lines_ok(cs: Seq<ContextView>) -> bool {
    forall|i: int, j: int| 0 <= i < cs.len() && 0 <= j < cs[i].links.len() ==> link_lines_ok(#[trigger] cs[i].links[j])
}

pub proof fn lemma_one_line_add(a: Seq<char>, b: Seq<char>)
    requires
        one_line(a),
        one_line(b),
    ensures
        one_line(a + b),
{
    assert forall|i: int| 0 <= i < (a + b).len() implies #[trigger] (a + b)[i] != '\n' && (a + b)[i] != '\r' by {
        if i < a.len() {
            assert((a + b)[i] == a[i]);
        } else {
            assert((a + b)[i] == b[i - a.len()]);
        }
    }
}

proof fn lemma_escaped_one_line(s: Seq<char>)
    ensures
        one_line(escaped(s, true)),
    decreases s.len(),
{
    if s.len() > 0 {
        lemma_escaped_one_line(s.drop_last());
        let c = s.last();
        assert(one_line(escape_char(c, true)));
        lemma_one_line_add(escaped(s.drop_last(), true), escape_char(c, true));
    }
}

proof fn lemma_quoted_one_line(s: Seq<char>)
    ensures
        one_line(quoted(s, true)),
{
    lemma_escaped_one_line(s);
    lemma_one_line_add(seq!['"'], escaped(s, true));
    lemma_one_line_add(seq!['"'] + escaped(s, true), seq!['"']);
}

proof fn lemma_hex_upper(d: u8)
    requires
        d < 16,
    ensures
        hex_upper(d) != '\n' && hex_upper(d) != '\r',
{
    if d < 10 {
        assert(((48 + d) as char) as u32 == 48 + d);
    } else {
        assert(((55 + d) as char) as u32 == 55 + d);
    }
}

proof fn lemma_byte_pct_one_line(b: u8)
    ensures
        one_line(byte_pct(b)),
{
    if is_attr_byte(b) {
        assert((b as char) as u32 == b as u32);
    } else {
        lemma_hex_upper(b / 16);
        lemma_hex_upper(b % 16);
    }
}

proof fn lemma_pct_one_line(b: Seq<u8>)
    ensures
        one_line(pct_encoded(b)),
    decreases b.len(),
{
    if b.len() > 0 {
        lemma_pct_one_line(b.drop_last());
        lemma_byte_pct_one_line(b.last());
        lemma_one_line_add(pct_encoded(b.drop_last()), byte_pct(b.last()));
    }
}

proof fn lemma_ext_value_one_line(i: I18nView)
    requires
        one_line(i.language),
    ensures
        one_line(ext_value_text(i)),
{
    let a = seq!['U', 'T', 'F', '-', '8', '\''];
    lemma_pct_one_line(encode_utf8(i.value));
    lemma_one_line_add(a, i.language);
    lemma_one_line_add(a + i.language, seq!['\'']);
    lemma_one_line_add(a + i.language + seq!['\''], pct_encoded(encode_utf8(i.value)));
}

proof fn lemma_hreflang_one_line(tags: Seq<Seq<char>>, sep: Seq<char>)
    requires
        one_line(sep),
        forall|k: int| 0 <= k < tags.len() ==> one_line(#[trigger] tags[k]),
    ensures
        one_line(hreflang_text(tags, sep)),
    decreases tags.len(),
{
    if tags.len() > 0 {
        let h = seq!['h', 'r', 'e', 'f', 'l', 'a', 'n', 'g', '='];
        assert forall|k: int| 0 <= k < tags.drop_last().len() implies one_line(#[trigger] tags.drop_last()[k]) by {
            assert(tags.drop_last()[k] == tags[k]);
        }
        lemma_hreflang_one_line(tags.drop_last(), sep);
        let r = hreflang_text(tags.drop_last(), sep);
        assert(one_line(tags[tags.len() - 1]));
        lemma_one_line_add(r, sep);
        lemma_one_line_add(r + sep, h);
        lemma_one_line_add(r + sep + h, tags.last());
    }
}

proof fn lemma_plain_values_one_line(key: Seq<char>, vals: Seq<Seq<char>>, sep: Seq<char>)
    requires
        one_line(sep),
        one_line(key),
    ensures
        one_line(plain_values_text(key, vals, sep, true)),
    decreases vals.len(),
{
    if vals.len() > 0 {
        lemma_plain_values_one_line(key, vals.drop_last(), sep);
        let r = plain_values_text(key, vals.drop_last(), sep, true);
        lemma_quoted_one_line(vals.last());
        lemma_one_line_add(r, sep);
        lemma_one_line_add(r + sep, key);
        lemma_one_line_add(r + sep + key, seq!['=']);
        lemma_one_line_add(r + sep + key + seq!['='], quoted(vals.last(), true));
    }
}

proof fn lemma_plain_exts_one_line(g: Seq<(Seq<char>, Seq<Seq<char>>)>, sep: Seq<char>)
    requires
        one_line(sep),
        forall|k: int| 0 <= k < g.len() ==> one_line((#[trigger] g[k]).0),
    ensures
        one_line(plain_exts_text(g, sep, true)),
    decreases g.len(),
{
    if g.len() > 0 {
        assert forall|k: int| 0 <= k < g.drop_last().len() implies one_line((#[trigger] g.drop_last()[k]).0) by {
            assert(g.drop_last()[k] == g[k]);
        }
        lemma_plain_exts_one_line(g.drop_last(), sep);
        assert(one_line(g[g.len() - 1].0));
        lemma_plain_values_one_line(g.last().0, g.last().1, sep);
        lemma_one_line_add(plain_exts_text(g.drop_last(), sep, true), plain_values_text(g.last().0, g.last().1, sep, true));
    }
}

proof fn lemma_i18n_values_one_line(key: Seq<char>, vals: Seq<I18nView>, sep: Seq<char>)
    requires
        one_line(sep),
        one_line(key),
        forall|m: int| 0 <= m < vals.len() ==> one_line((#[trigger] vals[m]).language),
    ensures
        one_line(i18n_values_text(key, vals, sep)),
    decreases vals.len(),
{
    if vals.len() > 0 {
        assert forall|m: int| 0 <= m < vals.drop_last().len() implies one_line((#[trigger] vals.drop_last()[m]).language) by {
            assert(vals.drop_last()[m] == vals[m]);
        }
        lemma_i18n_values_one_line(key, vals.drop_last(), sep);
        let r = i18n_values_text(key, vals.drop_last(), sep);
        assert(one_line(vals[vals.len() - 1].language));
        lemma_ext_value_one_line(vals.last());
        lemma_one_line_add(r, sep);
        lemma_one_line_add(r + sep, key);
        lemma_one_line_add(r + sep + key, seq!['=']);
        lemma_one_line_add(r + sep + key + seq!['='], ext_value_text(vals.last()));
    }
}

proof fn lemma_i18n_exts_one_line(g: Seq<(Seq<char>, Seq<I18nView>)>, sep: Seq<char>)
    requires
        one_line(sep),
        forall|k: int| 0 <= k < g.len() ==> one_line((#[trigger] g[k]).0),
        forall|k: int, m: int| 0 <= k < g.len() && 0 <= m < g[k].1.len() ==> one_line((#[trigger] g[k].1[m]).language),
    ensures
        one_line(i18n_exts_text(g, sep)),
    decreases g.len(),
{
    if g.len() > 0 {
        let g0 = g.drop_last();
        assert forall|k: int| 0 <= k < g0.len() implies one_line((#[trigger] g0[k]).0) by {
            assert(g0[k] == g[k]);
        }
        assert forall|k: int, m: int| 0 <= k < g0.len() && 0 <= m < g0[k].1.len() implies one_line((#[trigger] g0[k].1[m]).language) by {
            assert(g0[k] == g[k]);
        }
        lemma_i18n_exts_one_line(g0, sep);
        let n = g.len() - 1;
        assert(one_line(g[n].0));
        assert forall|m: int| 0 <= m < g[n].1.len() implies one_line((#[trigger] g[n].1[m]).language) by {}
        lemma_i18n_values_one_line(g.last().0, g.last().1, sep);
        lemma_one_line_add(i18n_exts_text(g0, sep), i18n_values_text(g.last().0, g.last().1, sep));
    }
}

proof fn lemma_opt_param_one_line(v: Option<Seq<char>>, sep: Seq<char>, name: Seq<char>)
    requires
        one_line(sep),
        one_line(name),
    ensures
        one_line(opt_param(v, sep, name, true)),
{
    if let Some(t) = v {
        lemma_quoted_one_line(t);
        lemma_one_line_add(sep, name);
        lemma_one_line_add(sep + name, quoted(t, true));
    }
}

/// The compact link-value of a link whose copied texts hold no line break,
/// written with a target that holds none, is one line.
pub proof fn lemma_link_value_one_line(l: LinkView, target: Seq<char>, anchor: Seq<char>)
    requires
        link_lines_ok(l),
        one_line(target),
    ensures
        one_line(link_value_text(l, target, anchor, false)),
{
    let sep = param_sep(false);
    assert(one_line(sep));
    let head1 = seq!['<'] + target + seq!['>'] + sep + seq!['r', 'e', 'l', '='];
    lemma_one_line_add(seq!['<'], target);
    lemma_one_line_add(seq!['<'] + target, seq!['>']);
    lemma_one_line_add(seq!['<'] + target + seq!['>'], sep);
    lemma_one_line_add(seq!['<'] + target + seq!['>'] + sep, seq!['r', 'e', 'l', '=']);
    lemma_quoted_one_line(crate::model::rel_type::rel_text(l.rel));
    lemma_one_line_add(head1, quoted(crate::model::rel_type::rel_text(l.rel), true));
    let at = if anchor.len() > 0 { sep + seq!['a', 'n', 'c', 'h', 'o', 'r', '='] + quoted(anchor, true) } else { Seq::<char>::empty() };
    if anchor.len() > 0 {
        lemma_quoted_one_line(anchor);
        lemma_one_line_add(sep, seq!['a', 'n', 'c', 'h', 'o', 'r', '=']);
        lemma_one_line_add(sep + seq!['a', 'n', 'c', 'h', 'o', 'r', '='], quoted(anchor, true));
    }
    lemma_one_line_add(head1 + quoted(crate::model::rel_type::rel_text(l.rel), true), at);
    assert(link_head_text(l, target, anchor, false) == head1 + quoted(crate::model::rel_type::rel_text(l.rel), true) + at);

    let a1 = opt_param(l.type_, sep, seq!['t', 'y', 'p', 'e', '='], true);
    lemma_opt_param_one_line(l.type_, sep, seq!['t', 'y', 'p', 'e', '=']);
    let a2 = hreflang_text(l.hreflang, sep);
    lemma_hreflang_one_line(l.hreflang, sep);
    let a3 = opt_param(l.title, sep, seq!['t', 'i', 't', 'l', 'e', '='], true);
    lemma_opt_param_one_line(l.title, sep, seq!['t', 'i', 't', 'l', 'e', '=']);
    let a4 = title_i18n_text(l.title_i18n, sep);
    if let Some(i) = l.title_i18n {
        let n = seq!['t', 'i', 't', 'l', 'e', '*', '='];
        lemma_ext_value_one_line(i);
        lemma_one_line_add(sep, n);
        lemma_one_line_add(sep + n, ext_value_text(i));
    }
    let a5 = opt_param(l.media, sep, seq!['m', 'e', 'd', 'i', 'a', '='], true);
    lemma_opt_param_one_line(l.media, sep, seq!['m', 'e', 'd', 'i', 'a', '=']);
    let pg = plain_exts(l.exts);
    lemma_plain_exts_member(l.exts);
    assert forall|k: int| 0 <= k < pg.len() implies one_line((#[trigger] pg[k]).0) by {
        let j = choose|j: int| 0 <= j < l.exts.len() && l.exts[j] == (pg[k].0, ExtValuesView::Plain(pg[k].1));
        assert(one_line(l.exts[j].0));
    }
    let a6 = plain_exts_text(pg, sep, true);
    lemma_plain_exts_one_line(pg, sep);
    let ig = i18n_exts(l.exts);
    lemma_i18n_exts_member(l.exts);
    assert forall|k: int| 0 <= k < ig.len() implies one_line((#[trigger] ig[k]).0) by {
        let j = choose|j: int| 0 <= j < l.exts.len() && l.exts[j] == (ig[k].0, ExtValuesView::I18n(ig[k].1));
        assert(one_line(l.exts[j].0));
    }
    assert forall|k: int, m: int| 0 <= k < ig.len() && 0 <= m < ig[k].1.len() implies one_line((#[trigger] ig[k].1[m]).language) by {
        let j = choose|j: int| 0 <= j < l.exts.len() && l.exts[j] == (ig[k].0, ExtValuesView::I18n(ig[k].1));
        assert(one_line(l.exts[j].0));
        if let ExtValuesView::I18n(vs) = l.exts[j].1 {
            assert(vs == ig[k].1);
            assert(one_line(vs[m].language));
        }
    }
    let a7 = i18n_exts_text(ig, sep);
    lemma_i18n_exts_one_line(ig, sep);
    lemma_one_line_add(a1, a2);
    lemma_one_line_add(a1 + a2, a3);
    lemma_one_line_add(a1 + a2 + a3, a4);
    lemma_one_line_add(a1 + a2 + a3 + a4, a5);
    lemma_one_line_add(a1 + a2 + a3 + a4 + a5, a6);
    lemma_one_line_add(a1 + a2 + a3 + a4 + a5 + a6, a7);
    assert(link_attrs_text(l, false) == a1 + a2 + a3 + a4 + a5 + a6 + a7);
    lemma_one_line_add(link_head_text(l, target, anchor, false), link_attrs_text(l, false));
}

} // verus!
