//! Reading back what the writer writes, concluded: the contexts read back
//! build a link set equal to the one written.

use vstd::prelude::*;
use vstd::utf8::encode_utf8;

use crate::error::LinksetError;
use crate::model::ext_values::{ExtValuesView, entries_key_index, lemma_entries_key_index};
use crate::model::lang::i18n_eq;
use crate::model::link::{LinkView, exts_eq, ext_values_eq, i18n_exts, i18ns_eq, link_eq, link_wf, plain_exts, tags_eq};
use crate::model::link_context::{
    ContextView, context_eq, has_equal_link, has_same_link, merge_links, no_duplicate_links, same_link,
};
use crate::model::{Linkset, anchor_index, collect_contexts, from_contexts_ok, lemma_anchor_index, linkset_eq};
use crate::external::keys_unique;
use super::convert::{ConvError, entries_contexts, entry_context, i18n_entries, plain_entries, text_result_ok};
use super::round_trip::{
    Item, all_values, anchor_reads_back, target_reads_back, uris_read_back, lemma_uris_read_back_without_base, lemma_uris_written, anchors_unique, context_text_ok, context_values, entry_of, lemma_i18n_exts_member,
    lemma_plain_exts_member, lemma_text_parses, link_items, link_text_ok, linkset_quoted_one_line, linkset_text_ok,
};
use super::round_trip_links::{lemma_entry_context_of_link, norm_link};
use super::write::linkset_text;
use crate::relativizer::relative_text;

verus! {

// ── From link-values to contexts ─────────────────────────────────────────────

/// One context per link, anchored at its context, holding the link as it reads back.
pub open spec fn link_contexts(cs: Seq<ContextView>) -> Seq<ContextView>
    decreases cs.len(),
{
    if cs.len() == 0 {
        Seq::empty()
    } else {
        link_contexts(cs.drop_last()) + single_contexts(cs.last())
    }
}

/// One context per link of `c`.
pub open spec fn single_contexts(c: ContextView) -> Seq<ContextView> {
    c.links.map_values(|l: LinkView| ContextView { anchor: c.anchor, links: seq![norm_link(l)] })
}

/// A context as it reads back.
pub open spec fn norm_context(c: ContextView) -> ContextView {
    ContextView { anchor: c.anchor, links: c.links.map_values(|l: LinkView| norm_link(l)) }
}

proof fn lemma_entries_contexts_all_ok(es: Seq<super::grammar::EntryView>, cs: Seq<ContextView>, base: Option<Seq<char>>)
    requires
        es.len() == cs.len(),
        forall|k: int| 0 <= k < es.len() ==> entry_context(#[trigger] es[k], base) == Ok::<ContextView, ConvError>(cs[k]),
    ensures
        entries_contexts(es, base) == Ok::<Seq<ContextView>, ConvError>(cs),
    decreases es.len(),
{
    if es.len() == 0 {
        assert(cs =~= Seq::<ContextView>::empty());
    } else {
        assert(entry_context(es[0], base) == Ok::<ContextView, ConvError>(cs[0]));
        assert forall|k: int| 0 <= k < es.drop_first().len() implies entry_context(#[trigger] es.drop_first()[k], base)
            == Ok::<ContextView, ConvError>(cs.drop_first()[k]) by {
            assert(es.drop_first()[k] == es[k + 1]);
        }
        lemma_entries_contexts_all_ok(es.drop_first(), cs.drop_first(), base);
        assert(seq![cs[0]] + cs.drop_first() =~= cs);
    }
}

/// Each link-value written against `wbase` and read back against `rbase`
/// gives the context of its link.
proof fn lemma_all_entries_contexts(cs: Seq<ContextView>, wbase: Option<Seq<char>>, rbase: Option<Seq<char>>)
    requires
        forall|k: int| 0 <= k < cs.len() ==> context_text_ok(#[trigger] cs[k]),
        uris_read_back(cs, wbase, rbase),
    ensures
        all_values(cs, wbase).len() == link_contexts(cs).len(),
        forall|k: int| 0 <= k < all_values(cs, wbase).len() ==> entry_context(entry_of(#[trigger] all_values(cs, wbase)[k]), rbase)
            == Ok::<ContextView, ConvError>(link_contexts(cs)[k]),
    decreases cs.len(),
{
    if cs.len() > 0 {
        let c0 = cs.drop_last();
        assert forall|k: int| 0 <= k < c0.len() implies context_text_ok(#[trigger] c0[k]) by {
            assert(c0[k] == cs[k]);
        }
        assert(uris_read_back(c0, wbase, rbase)) by {
            assert forall|i: int| 0 <= i < c0.len() implies anchor_reads_back(wbase, rbase, (#[trigger] c0[i]).anchor)
                && forall|j: int| 0 <= j < c0[i].links.len() ==> target_reads_back(wbase, rbase, (#[trigger] c0[i].links[j]).target) by {
                assert(c0[i] == cs[i]);
            }
        }
        lemma_all_entries_contexts(c0, wbase, rbase);
        let c = cs[cs.len() - 1];
        assert(context_text_ok(c));
        assert(anchor_reads_back(wbase, rbase, c.anchor));
        let a = all_values(c0, wbase);
        let b = context_values(c, wbase);
        let x = link_contexts(c0);
        let y = single_contexts(c);
        assert forall|k: int| 0 <= k < all_values(cs, wbase).len() implies entry_context(entry_of(#[trigger] all_values(cs, wbase)[k]), rbase)
            == Ok::<ContextView, ConvError>(link_contexts(cs)[k]) by {
            if k < a.len() {
                assert(all_values(cs, wbase)[k] == a[k]);
                assert(link_contexts(cs)[k] == x[k]);
            } else {
                let m = k - a.len();
                assert(all_values(cs, wbase)[k] == b[m]);
                assert(link_contexts(cs)[k] == y[m]);
                assert(link_text_ok(c.links[m]));
                assert(target_reads_back(wbase, rbase, c.links[m].target));
                lemma_entry_context_of_link(
                    c.links[m],
                    relative_text(wbase, c.links[m].target),
                    relative_text(wbase, c.anchor),
                    rbase,
                    c.anchor,
                );
            }
        }
    }
}

// ── Collecting the contexts ──────────────────────────────────────────────────

pub proof fn lemma_collect_add(acc: Seq<ContextView>, a: Seq<ContextView>, b: Seq<ContextView>)
    ensures
        collect_contexts(acc, a + b) == match collect_contexts(acc, a) {
            Ok(acc2) => collect_contexts(acc2, b),
            Err(e) => Err(e),
        },
    decreases a.len(),
{
    if a.len() == 0 {
        assert(a + b =~= b);
    } else {
        assert((a + b)[0] == a[0]);
        assert((a + b).drop_first() =~= a.drop_first() + b);
        let c = a[0];
        let i = anchor_index(acc, c.anchor);
        if i >= 0 {
            let m = merge_links(acc[i].links, c.links);
            if m.1 is None {
                lemma_collect_add(acc.update(i, ContextView { anchor: acc[i].anchor, links: m.0 }), a.drop_first(), b);
            }
        } else {
            lemma_collect_add(acc.push(c), a.drop_first(), b);
        }
    }
}

pub proof fn lemma_collect_one(acc: Seq<ContextView>, c: ContextView)
    ensures
        collect_contexts(acc, seq![c]) == ({
            let i = anchor_index(acc, c.anchor);
            if i >= 0 {
                let m = merge_links(acc[i].links, c.links);
                match m.1 {
                    Some(l) => Err((c.anchor, l)),
                    None => Ok(acc.update(i, ContextView { anchor: acc[i].anchor, links: m.0 })),
                }
            } else {
                Ok::<Seq<ContextView>, (Seq<char>, LinkView)>(acc.push(c))
            }
        }),
{
    assert(seq![c][0] == c);
    assert(seq![c].drop_first() =~= Seq::<ContextView>::empty());
    let e = Seq::<ContextView>::empty();
    let i = anchor_index(acc, c.anchor);
    if i >= 0 {
        let m = merge_links(acc[i].links, c.links);
        if m.1 is None {
            let acc2 = acc.update(i, ContextView { anchor: acc[i].anchor, links: m.0 });
            assert(collect_contexts(acc2, e) == Ok::<Seq<ContextView>, (Seq<char>, LinkView)>(acc2));
        }
    } else {
        assert(collect_contexts(acc.push(c), e) == Ok::<Seq<ContextView>, (Seq<char>, LinkView)>(acc.push(c)));
    }
}

/// The links as they read back are the same links as those written.
pub proof fn lemma_norm_same_link(a: LinkView, b: LinkView)
    ensures
        same_link(norm_link(a), norm_link(b)) == same_link(a, b),
{
}

/// The single contexts of a context whose anchor is new collect into that context.
proof fn lemma_collect_single(acc: Seq<ContextView>, c: ContextView)
    requires
        c.links.len() > 0,
        no_duplicate_links(c.links),
        forall|j: int| 0 <= j < acc.len() ==> (#[trigger] acc[j]).anchor != c.anchor,
    ensures
        collect_contexts(acc, single_contexts(c)) == Ok::<Seq<ContextView>, (Seq<char>, LinkView)>(acc.push(norm_context(c))),
    decreases c.links.len(),
{
    lemma_anchor_index(acc, c.anchor);
    if c.links.len() == 1 {
        let l = c.links[0];
        assert(single_contexts(c) =~= seq![ContextView { anchor: c.anchor, links: seq![norm_link(l)] }]);
        lemma_collect_one(acc, ContextView { anchor: c.anchor, links: seq![norm_link(l)] });
        assert(norm_context(c).links =~= seq![norm_link(l)]);
    } else {
        let c1 = ContextView { anchor: c.anchor, links: c.links.drop_last() };
        let l = c.links.last();
        assert(no_duplicate_links(c1.links)) by {
            assert forall|i: int, j: int| 0 <= i < j < c1.links.len() implies !same_link(#[trigger] c1.links[i], #[trigger] c1.links[j]) by {
                assert(c1.links[i] == c.links[i] && c1.links[j] == c.links[j]);
            }
        }
        lemma_collect_single(acc, c1);
        let x = ContextView { anchor: c.anchor, links: seq![norm_link(l)] };
        assert(single_contexts(c) =~= single_contexts(c1) + seq![x]);
        lemma_collect_add(acc, single_contexts(c1), seq![x]);
        let acc1 = acc.push(norm_context(c1));
        lemma_collect_one(acc1, x);
        lemma_anchor_index(acc1, c.anchor);
        assert(acc1[acc.len() as int].anchor == c.anchor);
        let i = anchor_index(acc1, c.anchor);
        if 0 <= i < acc.len() {
            assert(acc1[i] == acc[i]);
        }
        assert(i == acc.len());
        let nl = norm_context(c1).links;
        assert(!has_same_link(nl, norm_link(l))) by {
            if has_same_link(nl, norm_link(l)) {
                let k = choose|k: int| 0 <= k < nl.len() && same_link(#[trigger] nl[k], norm_link(l));
                lemma_norm_same_link(c.links[k], l);
                assert(nl[k] == norm_link(c.links[k]));
                assert(c.links[c.links.len() - 1] == l);
                assert(!same_link(c.links[k], c.links[c.links.len() - 1]));
            }
        }
        assert(seq![norm_link(l)][0] == norm_link(l));
        assert(seq![norm_link(l)].drop_first() =~= Seq::<LinkView>::empty());
        assert(merge_links(nl, seq![norm_link(l)]) == merge_links(nl.push(norm_link(l)), Seq::<LinkView>::empty()));
        assert(nl.push(norm_link(l)) =~= norm_context(c).links);
        assert(acc1.update(i, ContextView { anchor: c.anchor, links: nl.push(norm_link(l)) }) =~= acc.push(norm_context(c)));
    }
}

/// The contexts read back, one per link, collect into the contexts written.
proof fn lemma_collect_link_contexts(cs: Seq<ContextView>)
    requires
        anchors_unique(cs),
        forall|k: int| 0 <= k < cs.len() ==> context_text_ok(#[trigger] cs[k]),
    ensures
        collect_contexts(Seq::empty(), link_contexts(cs))
            == Ok::<Seq<ContextView>, (Seq<char>, LinkView)>(cs.map_values(|c: ContextView| norm_context(c))),
    decreases cs.len(),
{
    if cs.len() == 0 {
        assert(cs.map_values(|c: ContextView| norm_context(c)) =~= Seq::<ContextView>::empty());
    } else {
        let c0 = cs.drop_last();
        assert(anchors_unique(c0)) by {
            assert forall|i: int, j: int| 0 <= i < c0.len() && 0 <= j < c0.len() && i != j implies #[trigger] c0[i].anchor != #[trigger] c0[j].anchor by {
                assert(c0[i] == cs[i] && c0[j] == cs[j]);
            }
        }
        assert forall|k: int| 0 <= k < c0.len() implies context_text_ok(#[trigger] c0[k]) by {
            assert(c0[k] == cs[k]);
        }
        lemma_collect_link_contexts(c0);
        let c = cs[cs.len() - 1];
        assert(context_text_ok(c));
        lemma_collect_add(Seq::empty(), link_contexts(c0), single_contexts(c));
        let acc = c0.map_values(|c: ContextView| norm_context(c));
        assert forall|j: int| 0 <= j < acc.len() implies (#[trigger] acc[j]).anchor != c.anchor by {
            assert(acc[j].anchor == cs[j].anchor);
            assert(cs[j].anchor != cs[cs.len() - 1].anchor);
        }
        lemma_collect_single(acc, c);
        assert(acc.push(norm_context(c)) =~= cs.map_values(|c: ContextView| norm_context(c)));
    }
}

// ── Equality ─────────────────────────────────────────────────────────────────

pub proof fn lemma_ext_counts(e: Seq<(Seq<char>, ExtValuesView)>)
    ensures
        plain_exts(e).len() + i18n_exts(e).len() == e.len(),
    decreases e.len(),
{
    if e.len() > 0 {
        lemma_ext_counts(e.drop_last());
    }
}

/// Extension attributes with the plain ones put first are the same attributes.
pub proof fn lemma_norm_exts_eq(e: Seq<(Seq<char>, ExtValuesView)>)
    requires
        keys_unique(e),
    ensures
        exts_eq(plain_entries(plain_exts(e)) + i18n_entries(i18n_exts(e)), e),
{
    let p = plain_entries(plain_exts(e));
    let q = i18n_entries(i18n_exts(e));
    let a = p + q;
    lemma_ext_counts(e);
    lemma_plain_exts_member(e);
    lemma_i18n_exts_member(e);
    assert forall|i: int| 0 <= i < a.len() implies ({
        let j = entries_key_index(e, (#[trigger] a[i]).0);
        0 <= j && ext_values_eq(a[i].1, e[j].1)
    }) by {
        let m = if i < p.len() {
            let g = plain_exts(e);
            assert(a[i] == (g[i].0, ExtValuesView::Plain(g[i].1)));
            choose|m: int| 0 <= m < e.len() && e[m] == (g[i].0, ExtValuesView::Plain(g[i].1))
        } else {
            let g = i18n_exts(e);
            let n = i - p.len();
            assert(a[i] == (g[n].0, ExtValuesView::I18n(g[n].1)));
            choose|m: int| 0 <= m < e.len() && e[m] == (g[n].0, ExtValuesView::I18n(g[n].1))
        };
        assert(e[m] == a[i]);
        lemma_entries_key_index(e, a[i].0);
        let j = entries_key_index(e, a[i].0);
        if j != m {
            assert(e[j].0 != e[m].0);
        }
        match a[i].1 {
            ExtValuesView::Plain(v) => {},
            ExtValuesView::I18n(v) => {
                assert(i18ns_eq(v, v));
            },
        }
    }
}

/// A link as it reads back equals the link.
pub proof fn lemma_norm_link_eq(l: LinkView)
    requires
        link_wf(l),
    ensures
        link_eq(norm_link(l), l),
{
    lemma_norm_exts_eq(l.exts);
    assert(tags_eq(l.hreflang, l.hreflang));
    if let Some(i) = l.title_i18n {
        assert(i18n_eq(i, i));
    }
}

/// The contexts as they read back equal those written.
proof fn lemma_norm_linkset_eq(cs: Seq<ContextView>)
    requires
        anchors_unique(cs),
        forall|k: int| 0 <= k < cs.len() ==> context_text_ok(#[trigger] cs[k]),
    ensures
        linkset_eq(cs.map_values(|c: ContextView| norm_context(c)), cs),
{
    let a = cs.map_values(|c: ContextView| norm_context(c));
    assert forall|i: int| 0 <= i < a.len() implies ({
        let j = anchor_index(cs, (#[trigger] a[i]).anchor);
        0 <= j && context_eq(a[i], cs[j])
    }) by {
        let c = cs[i];
        assert(a[i] == norm_context(c));
        lemma_anchor_index(cs, c.anchor);
        let j = anchor_index(cs, c.anchor);
        if j != i {
            assert(cs[j].anchor != cs[i].anchor);
        }
        assert(context_text_ok(c));
        assert forall|k: int| 0 <= k < a[i].links.len() implies has_equal_link(c.links, #[trigger] a[i].links[k]) by {
            assert(link_text_ok(c.links[k]));
            lemma_norm_link_eq(c.links[k]);
            assert(a[i].links[k] == norm_link(c.links[k]));
        }
    }
}

// ── The law ──────────────────────────────────────────────────────────────────

/// Reading back, against `read_base`, the `application/linkset` text of a
/// link set written against `write_base` (`None` standing for no base) gives
/// an equal link set, for every link set that the format can carry (each
/// context with at least one link, distinct anchors, valid URIs, relation
/// types written as read, valid media types and language tags, ASCII text)
/// whose anchors and targets, as written against `write_base`, resolve
/// against `read_base` back into themselves. Pretty text keeps line breaks in
/// quoted values; compact text writes them as spaces, so there the law holds
/// when the quoted values have none.
pub proof fn text_round_trip_with_base(
    cs: Seq<ContextView>,
    write_base: Option<Seq<char>>,
    read_base: Option<Seq<char>>,
    pretty: bool,
    r: Result<Linkset, LinksetError>,
)
    requires
        linkset_text_ok(cs),
        uris_read_back(cs, write_base, read_base),
        !pretty ==> linkset_quoted_one_line(cs),
        text_result_ok(r, encode_utf8(linkset_text(cs, write_base, pretty)), read_base),
    ensures
        r matches Ok(ls) && linkset_eq(ls@, cs),
{
    lemma_text_reads(cs, write_base, read_base, pretty, r);
    lemma_norm_linkset_eq(cs);
}

/// What the reader gives back for the text of a link set: its contexts, each
/// link with its plain extension attributes before its internationalised ones.
pub(crate) proof fn lemma_text_reads(
    cs: Seq<ContextView>,
    wbase: Option<Seq<char>>,
    rbase: Option<Seq<char>>,
    pretty: bool,
    r: Result<Linkset, LinksetError>,
)
    requires
        linkset_text_ok(cs),
        uris_read_back(cs, wbase, rbase),
        !pretty ==> linkset_quoted_one_line(cs),
        text_result_ok(r, encode_utf8(linkset_text(cs, wbase, pretty)), rbase),
    ensures
        r matches Ok(ls) && ls@ == cs.map_values(|c: ContextView| norm_context(c)),
{
    lemma_uris_written(cs, wbase, rbase);
    lemma_text_parses(cs, wbase, pretty);
    let vals = all_values(cs, wbase);
    let es = vals.map_values(|v: (Seq<char>, Seq<Item>)| entry_of(v));
    lemma_all_entries_contexts(cs, wbase, rbase);
    let lc = link_contexts(cs);
    assert forall|k: int| 0 <= k < es.len() implies entry_context(#[trigger] es[k], rbase) == Ok::<ContextView, ConvError>(lc[k]) by {
        assert(es[k] == entry_of(vals[k]));
    }
    lemma_entries_contexts_all_ok(es, lc, rbase);
    lemma_collect_link_contexts(cs);
    let n = cs.map_values(|c: ContextView| norm_context(c));
    assert(n.len() > 0);
}

/// Reading back the `application/linkset` text of a link set, written
/// without a base, gives an equal link set, for every link set that the format
/// can carry: each context with at least one link, distinct anchors, valid
/// URIs, relation types written as read, valid media types and language tags,
/// and ASCII text. Pretty text keeps line breaks in quoted values; compact
/// text writes them as spaces, so there the law holds when the quoted values
/// have none.
pub proof fn text_round_trip(cs: Seq<ContextView>, pretty: bool, r: Result<Linkset, LinksetError>)
    requires
        linkset_text_ok(cs),
        !pretty ==> linkset_quoted_one_line(cs),
        text_result_ok(r, encode_utf8(linkset_text(cs, None, pretty)), None),
    ensures
        r matches Ok(ls) && linkset_eq(ls@, cs),
{
    lemma_uris_read_back_without_base(cs);
    text_round_trip_with_base(cs, None, None, pretty, r);
}

} // verus!
