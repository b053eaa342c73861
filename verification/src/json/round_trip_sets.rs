//! Reading back what the JSON writer writes, concluded: the context objects
//! and the document read back into an equal link set.

use vstd::prelude::*;

use crate::error::LinksetError;
use crate::model::ext_values::{entries_key_index, lemma_entries_key_index};
use crate::model::link::LinkView;
use crate::model::link_context::{
    ContextView, context_eq, first_dup_from, has_equal_link, no_duplicate_links, same_link,
};
use crate::model::rel_type::{RelTypeView, rel_of_str, rel_text};
use crate::model::uri::resolve_spec;
use crate::model::{Linkset, anchor_index, collect_contexts, lemma_anchor_index, linkset_eq};
use crate::text::convert::append_group;
use crate::text::round_trip::anchors_unique;
use crate::text::round_trip_links::norm_link;
use crate::text::round_trip_sets::{lemma_norm_link_eq, lemma_norm_same_link};
use super::{
    JsonValue, Outcome, context_links, context_of_json, contexts_of_json, is_context_json, is_link_json,
    is_links_json, is_linkset_json, json_anchor, json_entries, json_result_ok, linkset_of_json, obj_get, rel_groups,
    targets_links,
};
use super::round_trip::{context_json_ok, lemma_link_read, link_json_ok, linkset_json_ok};

verus! {

// ── Grouping by relation type ────────────────────────────────────────────────

/// The links of groups, group after group.
pub open spec fn group_links(g: Seq<(Seq<char>, Seq<LinkView>)>) -> Seq<LinkView>
    decreases g.len(),
{
    if g.len() == 0 {
        Seq::empty()
    } else {
        g[0].1 + group_links(g.drop_first())
    }
}

proof fn lemma_group_links_add(a: Seq<(Seq<char>, Seq<LinkView>)>, b: Seq<(Seq<char>, Seq<LinkView>)>)
    ensures
        group_links(a + b) == group_links(a) + group_links(b),
    decreases a.len(),
{
    if a.len() == 0 {
        assert(a + b =~= b);
        assert(Seq::<LinkView>::empty() + group_links(b) =~= group_links(b));
    } else {
        assert((a + b)[0] == a[0]);
        assert((a + b).drop_first() =~= a.drop_first() + b);
        lemma_group_links_add(a.drop_first(), b);
        assert(a[0].1 + (group_links(a.drop_first()) + group_links(b))
            =~= (a[0].1 + group_links(a.drop_first())) + group_links(b));
    }
}

proof fn lemma_group_links_one(x: (Seq<char>, Seq<LinkView>))
    ensures
        group_links(seq![x]) == x.1,
{
    assert(seq![x][0] == x);
    let e = seq![x].drop_first();
    assert(e.len() == 0);
    assert(group_links(e) =~= Seq::<LinkView>::empty());
    assert(x.1 + group_links(e) =~= x.1);
}

/// Adding a link to its group inserts it among the links of the groups.
proof fn lemma_group_links_append(g: Seq<(Seq<char>, Seq<LinkView>)>, k: Seq<char>, v: LinkView) -> (p: int)
    ensures
        0 <= p <= group_links(g).len(),
        group_links(append_group(g, k, v)) == group_links(g).insert(p, v),
{
    lemma_entries_key_index(g, k);
    let i = entries_key_index(g, k);
    if i >= 0 {
        let a = g.take(i);
        let b = g.skip(i + 1);
        let y = (k, g[i].1.push(v));
        assert(g =~= a + seq![g[i]] + b);
        assert(g.update(i, y) =~= a + seq![y] + b);
        lemma_group_links_add(a + seq![g[i]], b);
        lemma_group_links_add(a, seq![g[i]]);
        lemma_group_links_add(a + seq![y], b);
        lemma_group_links_add(a, seq![y]);
        lemma_group_links_one(g[i]);
        lemma_group_links_one(y);
        let p: int = (group_links(a).len() + g[i].1.len()) as int;
        assert(group_links(g.update(i, y)) =~= group_links(g).insert(p, v));
        p
    } else {
        let y = (k, seq![v]);
        assert(g.push(y) =~= g + seq![y]);
        lemma_group_links_add(g, seq![y]);
        lemma_group_links_one(y);
        let p = group_links(g).len() as int;
        assert(group_links(g.push(y)) =~= group_links(g).insert(p, v));
        p
    }
}

/// What grouping by relation type gives: non-empty groups, each of links of
/// its relation type, and, group after group, the same links in another
/// order.
pub(crate) proof fn lemma_rel_groups(links: Seq<LinkView>)
    ensures
        forall|k: int| 0 <= k < rel_groups(links).len() ==> (#[trigger] rel_groups(links)[k]).1.len() > 0,
        forall|k: int, m: int| 0 <= k < rel_groups(links).len() && 0 <= m < rel_groups(links)[k].1.len()
            ==> rel_text((#[trigger] rel_groups(links)[k].1[m]).rel) == rel_groups(links)[k].0
                && exists|j: int| 0 <= j < links.len() && #[trigger] links[j] == rel_groups(links)[k].1[m],
        group_links(rel_groups(links)).len() == links.len(),
        forall|i: int| 0 <= i < group_links(rel_groups(links)).len()
            ==> exists|j: int| 0 <= j < links.len() && #[trigger] links[j] == #[trigger] group_links(rel_groups(links))[i],
        no_duplicate_links(links) ==> no_duplicate_links(group_links(rel_groups(links))),
    decreases links.len(),
{
    if links.len() == 0 {
        assert(group_links(rel_groups(links)) =~= Seq::<LinkView>::empty());
    } else {
        let l0 = links.drop_last();
        let v = links.last();
        let n = links.len() - 1;
        assert(links[n] == v);
        lemma_rel_groups(l0);
        let g0 = rel_groups(l0);
        let key = rel_text(v.rel);
        let g = rel_groups(links);
        assert(g == append_group(g0, key, v));
        let f0 = group_links(g0);
        let p = lemma_group_links_append(g0, key, v);
        let f = group_links(g);
        assert(f == f0.insert(p, v));
        lemma_entries_key_index(g0, key);
        let gi = entries_key_index(g0, key);
        assert forall|j: int| 0 <= j < l0.len() implies #[trigger] l0[j] == links[j] by {}
        assert forall|k: int| 0 <= k < g.len() implies (#[trigger] g[k]).1.len() > 0 by {
            if gi < 0 && k == g0.len() {
            } else {
                assert(k < g0.len());
            }
        }
        assert forall|k: int, m: int| 0 <= k < g.len() && 0 <= m < g[k].1.len()
            implies rel_text((#[trigger] g[k].1[m]).rel) == g[k].0
                && exists|j: int| 0 <= j < links.len() && #[trigger] links[j] == g[k].1[m] by {
            if gi >= 0 && k == gi {
                if m == g0[k].1.len() {
                    assert(g[k].1[m] == v);
                    assert(links[n] == g[k].1[m]);
                } else {
                    assert(g[k].1[m] == g0[k].1[m]);
                    let j = choose|j: int| 0 <= j < l0.len() && #[trigger] l0[j] == g0[k].1[m];
                    assert(links[j] == g[k].1[m]);
                }
            } else if gi < 0 && k == g0.len() {
                assert(g[k].1[m] == v);
                assert(links[n] == g[k].1[m]);
            } else {
                assert(g[k] == g0[k]);
                let j = choose|j: int| 0 <= j < l0.len() && #[trigger] l0[j] == g0[k].1[m];
                assert(links[j] == g[k].1[m]);
            }
        }
        assert forall|i: int| 0 <= i < f.len()
            implies exists|j: int| 0 <= j < links.len() && #[trigger] links[j] == #[trigger] f[i] by {
            if i < p {
                assert(f[i] == f0[i]);
                let j = choose|j: int| 0 <= j < l0.len() && #[trigger] l0[j] == #[trigger] f0[i];
                assert(links[j] == f[i]);
            } else if i == p {
                assert(links[n] == f[i]);
            } else {
                assert(f[i] == f0[i - 1]);
                let j = choose|j: int| 0 <= j < l0.len() && #[trigger] l0[j] == #[trigger] f0[i - 1];
                assert(links[j] == f[i]);
            }
        }
        if no_duplicate_links(links) {
            assert(no_duplicate_links(l0)) by {
                assert forall|a: int, b: int| 0 <= a < b < l0.len() implies !same_link(#[trigger] l0[a], #[trigger] l0[b]) by {
                    assert(l0[a] == links[a] && l0[b] == links[b]);
                }
            }
            assert forall|i: int| 0 <= i < f0.len() implies !same_link(#[trigger] f0[i], v) by {
                let j = choose|j: int| 0 <= j < l0.len() && #[trigger] l0[j] == #[trigger] f0[i];
                assert(links[j] == f0[i]);
                assert(!same_link(links[j], links[n]));
            }
            assert forall|a: int, b: int| 0 <= a < b < f.len() implies !same_link(#[trigger] f[a], #[trigger] f[b]) by {
                if b < p {
                    assert(f[a] == f0[a] && f[b] == f0[b]);
                } else if b == p {
                    assert(f[a] == f0[a] && f[b] == v);
                } else if a < p {
                    assert(f[a] == f0[a] && f[b] == f0[b - 1]);
                } else if a == p {
                    assert(f[a] == v && f[b] == f0[b - 1]);
                    assert(!same_link(f0[b - 1], v));
                } else {
                    assert(f[a] == f0[a - 1] && f[b] == f0[b - 1]);
                }
            }
        }
    }
}

/// Every link appears among the links of its relation-type groups.
pub(crate) proof fn lemma_rel_groups_cover(links: Seq<LinkView>)
    ensures
        forall|j: int| 0 <= j < links.len()
            ==> exists|i: int| 0 <= i < group_links(rel_groups(links)).len()
                && #[trigger] links[j] == group_links(rel_groups(links))[i],
    decreases links.len(),
{
    if links.len() > 0 {
        let l0 = links.drop_last();
        let v = links.last();
        let n = links.len() - 1;
        lemma_rel_groups_cover(l0);
        lemma_rel_groups(l0);
        let g0 = rel_groups(l0);
        let key = rel_text(v.rel);
        assert(rel_groups(links) == append_group(g0, key, v));
        let f0 = group_links(g0);
        let p = lemma_group_links_append(g0, key, v);
        let f = group_links(rel_groups(links));
        assert(f == f0.insert(p, v));
        assert forall|j: int| 0 <= j < links.len()
            implies exists|i: int| 0 <= i < f.len() && #[trigger] links[j] == f[i] by {
            if j == n {
                assert(f[p] == v);
            } else {
                assert(l0[j] == links[j]);
                let i = choose|i: int| 0 <= i < f0.len() && #[trigger] l0[j] == f0[i];
                if i < p {
                    assert(f[i] == f0[i]);
                } else {
                    assert(f[i + 1] == f0[i]);
                }
            }
        }
    }
}

// ── Reading back ─────────────────────────────────────────────────────────────

/// The target objects of links of one relation type read back into those links.
proof fn lemma_targets_read(a: Seq<JsonValue>, links: Seq<LinkView>, rel: RelTypeView, acc: Seq<LinkView>)
    requires
        a.len() == links.len(),
        forall|i: int| 0 <= i < links.len() ==> is_link_json(#[trigger] a[i], links[i]),
        forall|i: int| 0 <= i < links.len() ==> link_json_ok(#[trigger] links[i]) && links[i].rel == rel,
    ensures
        targets_links(a, rel, None, acc) == Outcome::Done(acc + links.map_values(|l: LinkView| norm_link(l))),
    decreases a.len(),
{
    if a.len() == 0 {
        assert(acc + links.map_values(|l: LinkView| norm_link(l)) =~= acc);
    } else {
        assert(is_link_json(a[0], links[0]) && link_json_ok(links[0]));
        lemma_link_read(a[0], links[0]);
        let a1 = a.drop_first();
        let l1 = links.drop_first();
        assert forall|i: int| 0 <= i < l1.len() implies is_link_json(#[trigger] a1[i], l1[i]) by {
            assert(a1[i] == a[i + 1] && l1[i] == links[i + 1]);
        }
        assert forall|i: int| 0 <= i < l1.len() implies link_json_ok(#[trigger] l1[i]) && l1[i].rel == rel by {
            assert(l1[i] == links[i + 1]);
        }
        let acc1 = acc.push(norm_link(links[0]));
        lemma_targets_read(a1, l1, rel, acc1);
        assert(acc1 + l1.map_values(|l: LinkView| norm_link(l)) =~= acc + links.map_values(|l: LinkView| norm_link(l)));
    }
}

/// The context objects' relation entries read back into the links of the
/// groups, group after group.
proof fn lemma_groups_read(es: Seq<(String, JsonValue)>, g: Seq<(Seq<char>, Seq<LinkView>)>, acc: Seq<LinkView>)
    requires
        es.len() == g.len(),
        forall|k: int| 0 <= k < g.len() ==> (#[trigger] es[k]).0@ == g[k].0 && is_links_json(es[k].1, g[k].1),
        forall|k: int| 0 <= k < g.len() ==> (#[trigger] g[k]).1.len() > 0,
        forall|k: int, m: int| 0 <= k < g.len() && 0 <= m < g[k].1.len()
            ==> rel_text((#[trigger] g[k].1[m]).rel) == g[k].0 && link_json_ok(g[k].1[m]),
    ensures
        context_links(es, None, acc) == Outcome::Done(acc + group_links(g).map_values(|l: LinkView| norm_link(l))),
    decreases es.len(),
{
    if es.len() == 0 {
        assert(group_links(g) =~= Seq::<LinkView>::empty());
        assert(acc + group_links(g).map_values(|l: LinkView| norm_link(l)) =~= acc);
    } else {
        let x = g[0];
        assert(es[0].0@ == x.0 && is_links_json(es[0].1, x.1));
        assert(x.1.len() > 0);
        let l0 = x.1[0];
        assert(rel_text(l0.rel) == x.0 && link_json_ok(l0));
        let rel = l0.rel;
        assert(rel_of_str(es[0].0@) == Some(rel));
        assert(es[0].0@ != seq!['a', 'n', 'c', 'h', 'o', 'r']);
        let a = es[0].1->Array_0@;
        assert forall|i: int| 0 <= i < x.1.len() implies link_json_ok(#[trigger] x.1[i]) && x.1[i].rel == rel by {
            assert(rel_text(x.1[i].rel) == x.0 && link_json_ok(x.1[i]));
            assert(rel_of_str(rel_text(x.1[i].rel)) == Some(x.1[i].rel));
        }
        lemma_targets_read(a, x.1, rel, acc);
        let acc1 = acc + x.1.map_values(|l: LinkView| norm_link(l));
        let e1 = es.drop_first();
        let g1 = g.drop_first();
        assert forall|k: int| 0 <= k < g1.len() implies (#[trigger] e1[k]).0@ == g1[k].0 && is_links_json(e1[k].1, g1[k].1) by {
            assert(e1[k] == es[k + 1] && g1[k] == g[k + 1]);
        }
        assert forall|k: int| 0 <= k < g1.len() implies (#[trigger] g1[k]).1.len() > 0 by {
            assert(g1[k] == g[k + 1]);
        }
        assert forall|k: int, m: int| 0 <= k < g1.len() && 0 <= m < g1[k].1.len()
            implies rel_text((#[trigger] g1[k].1[m]).rel) == g1[k].0 && link_json_ok(g1[k].1[m]) by {
            assert(g1[k] == g[k + 1]);
        }
        lemma_groups_read(e1, g1, acc1);
        assert(acc1 + group_links(g1).map_values(|l: LinkView| norm_link(l))
            =~= acc + group_links(g).map_values(|l: LinkView| norm_link(l)));
    }
}

/// No link found twice: no first duplicate either.
proof fn lemma_no_first_dup(s: Seq<LinkView>, i: int)
    requires
        no_duplicate_links(s),
        0 <= i,
    ensures
        first_dup_from(s, i) == -1,
    decreases s.len() - i,
{
    if i < s.len() {
        assert(!exists|j: int| i < j < s.len() && same_link(s[i], #[trigger] s[j]));
        lemma_no_first_dup(s, i + 1);
    }
}

/// A context as the JSON format reads it back: its links grouped by relation type.
pub open spec fn json_context(c: ContextView) -> ContextView {
    ContextView { anchor: c.anchor, links: group_links(rel_groups(c.links)).map_values(|l: LinkView| norm_link(l)) }
}

/// A context object reads back into its context.
proof fn lemma_context_read(v: JsonValue, c: ContextView)
    requires
        is_context_json(v, c),
        context_json_ok(c),
    ensures
        context_of_json(v, None) == Outcome::Done(json_context(c)),
{
    let es = v->Object_0@;
    let g = rel_groups(c.links);
    let anchor = seq!['a', 'n', 'c', 'h', 'o', 'r'];
    lemma_entries_key_index(json_entries(es), anchor);
    assert(json_entries(es)[0].0 == anchor);
    assert(obj_get(es, anchor) == Some(es[0].1));
    assert(resolve_spec(None, c.anchor) == Some(c.anchor));
    assert(json_anchor(es, None) == Some(c.anchor));
    lemma_rel_groups(c.links);
    let e1 = es.drop_first();
    assert forall|k: int| 0 <= k < g.len() implies (#[trigger] e1[k]).0@ == g[k].0 && is_links_json(e1[k].1, g[k].1) by {
        assert(e1[k] == es[k + 1]);
    }
    assert forall|k: int, m: int| 0 <= k < g.len() && 0 <= m < g[k].1.len()
        implies rel_text((#[trigger] g[k].1[m]).rel) == g[k].0 && link_json_ok(g[k].1[m]) by {
        let j = choose|j: int| 0 <= j < c.links.len() && #[trigger] c.links[j] == g[k].1[m];
        assert(link_json_ok(c.links[j]));
    }
    lemma_groups_read(e1, g, Seq::empty());
    let f = group_links(g);
    let links = f.map_values(|l: LinkView| norm_link(l));
    assert(Seq::<LinkView>::empty() + links =~= links);
    assert(context_links(es, None, Seq::empty()) == Outcome::Done(links));
    assert(no_duplicate_links(links)) by {
        assert forall|a: int, b: int| 0 <= a < b < links.len() implies !same_link(#[trigger] links[a], #[trigger] links[b]) by {
            lemma_norm_same_link(f[a], f[b]);
        }
    }
    lemma_no_first_dup(links, 0);
}

/// Context objects read back into their contexts.
proof fn lemma_contexts_read(a: Seq<JsonValue>, cs: Seq<ContextView>, acc: Seq<ContextView>)
    requires
        a.len() == cs.len(),
        forall|i: int| 0 <= i < cs.len() ==> is_context_json(#[trigger] a[i], cs[i]),
        forall|i: int| 0 <= i < cs.len() ==> context_json_ok(#[trigger] cs[i]),
    ensures
        contexts_of_json(a, None, acc) == Outcome::Done(acc + cs.map_values(|c: ContextView| json_context(c))),
    decreases a.len(),
{
    if a.len() == 0 {
        assert(acc + cs.map_values(|c: ContextView| json_context(c)) =~= acc);
    } else {
        assert(is_context_json(a[0], cs[0]) && context_json_ok(cs[0]));
        lemma_context_read(a[0], cs[0]);
        let a1 = a.drop_first();
        let c1 = cs.drop_first();
        assert forall|i: int| 0 <= i < c1.len() implies is_context_json(#[trigger] a1[i], c1[i]) by {
            assert(a1[i] == a[i + 1] && c1[i] == cs[i + 1]);
        }
        assert forall|i: int| 0 <= i < c1.len() implies context_json_ok(#[trigger] c1[i]) by {
            assert(c1[i] == cs[i + 1]);
        }
        let acc1 = acc.push(json_context(cs[0]));
        lemma_contexts_read(a1, c1, acc1);
        assert(acc1 + c1.map_values(|c: ContextView| json_context(c)) =~= acc + cs.map_values(|c: ContextView| json_context(c)));
    }
}

/// Contexts with distinct anchors collect into themselves.
proof fn lemma_collect_distinct(acc: Seq<ContextView>, cs: Seq<ContextView>)
    requires
        anchors_unique(acc + cs),
    ensures
        collect_contexts(acc, cs) == Ok::<Seq<ContextView>, (Seq<char>, LinkView)>(acc + cs),
    decreases cs.len(),
{
    let all = acc + cs;
    if cs.len() == 0 {
        assert(all =~= acc);
    } else {
        let c = cs[0];
        assert(all[acc.len() as int] == c);
        lemma_anchor_index(acc, c.anchor);
        assert forall|j: int| 0 <= j < acc.len() implies #[trigger] acc[j].anchor != c.anchor by {
            assert(all[j] == acc[j]);
        }
        assert(acc.push(c) + cs.drop_first() =~= all);
        lemma_collect_distinct(acc.push(c), cs.drop_first());
    }
}

/// The contexts as they read back equal those written.
proof fn lemma_json_contexts_eq(cs: Seq<ContextView>)
    requires
        anchors_unique(cs),
        forall|k: int| 0 <= k < cs.len() ==> context_json_ok(#[trigger] cs[k]),
    ensures
        linkset_eq(cs.map_values(|c: ContextView| json_context(c)), cs),
{
    let a = cs.map_values(|c: ContextView| json_context(c));
    assert forall|i: int| 0 <= i < a.len() implies ({
        let j = anchor_index(cs, (#[trigger] a[i]).anchor);
        0 <= j && context_eq(a[i], cs[j])
    }) by {
        let c = cs[i];
        assert(a[i] == json_context(c));
        lemma_anchor_index(cs, c.anchor);
        let j = anchor_index(cs, c.anchor);
        if j != i {
            assert(cs[j].anchor != cs[i].anchor);
        }
        assert(context_json_ok(c));
        lemma_rel_groups(c.links);
        let f = group_links(rel_groups(c.links));
        assert forall|k: int| 0 <= k < a[i].links.len() implies has_equal_link(c.links, #[trigger] a[i].links[k]) by {
            let m = choose|m: int| 0 <= m < c.links.len() && #[trigger] c.links[m] == #[trigger] f[k];
            assert(link_json_ok(c.links[m]));
            lemma_norm_link_eq(c.links[m]);
            assert(a[i].links[k] == norm_link(c.links[m]));
        }
    }
}

// ── The law ──────────────────────────────────────────────────────────────────

/// Reading back the JSON value that a link set is written as, without a base,
/// gives an equal link set, for every link set that the format can carry: at
/// least one context, distinct anchors, valid URIs, media types and language
/// tags, relation types written as read and other than `anchor`, and no
/// extension attribute named `href`.
pub proof fn json_round_trip(cs: Seq<ContextView>, v: JsonValue, r: Result<Linkset, LinksetError>)
    requires
        linkset_json_ok(cs),
        is_linkset_json(v, cs),
        json_result_ok(r, v, None),
    ensures
        r matches Ok(ls) && linkset_eq(ls@, cs),
{
    lemma_json_reads(cs, v, r);
    lemma_json_contexts_eq(cs);
}

/// What the reader gives back for the JSON value of a link set: its contexts,
/// each with its links grouped by relation type.
pub(crate) proof fn lemma_json_reads(cs: Seq<ContextView>, v: JsonValue, r: Result<Linkset, LinksetError>)
    requires
        linkset_json_ok(cs),
        is_linkset_json(v, cs),
        json_result_ok(r, v, None),
    ensures
        r matches Ok(ls) && ls@ == cs.map_values(|c: ContextView| json_context(c)),
{
    let es = v->Object_0@;
    let key = seq!['l', 'i', 'n', 'k', 's', 'e', 't'];
    lemma_entries_key_index(json_entries(es), key);
    assert(json_entries(es)[0].0 == key);
    assert(obj_get(es, key) == Some(es[0].1));
    let a = es[0].1->Array_0@;
    lemma_contexts_read(a, cs, Seq::empty());
    let n = cs.map_values(|c: ContextView| json_context(c));
    assert(Seq::<ContextView>::empty() + n =~= n);
    assert(linkset_of_json(v, None) == Outcome::Done(n));
    assert(anchors_unique(Seq::<ContextView>::empty() + n)) by {
        assert forall|i: int, j: int| 0 <= i < n.len() && 0 <= j < n.len() && i != j
            implies #[trigger] (Seq::<ContextView>::empty() + n)[i].anchor != #[trigger] (Seq::<ContextView>::empty() + n)[j].anchor by {
            assert(n[i].anchor == cs[i].anchor && n[j].anchor == cs[j].anchor);
        }
    }
    lemma_collect_distinct(Seq::empty(), n);
    assert(n.len() > 0);
}

} // verus!
