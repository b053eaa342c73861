//! What the methods of links, contexts and link sets keep and undo.

use vstd::prelude::*;

use crate::external::keys_unique;
use crate::strs::ascii_lowercase;
use crate::text::convert::lemma_ascii_lowercase_idem;
use super::ext_token::ext_key_problem;
use super::ext_values::{ExtValuesView, entries_key_index, lemma_entries_key_index};
use super::lang::I18nView;
use super::link::{
    LinkView, entries_insert, entries_remove_i18n, entries_remove_plain, ext_entry_ok, ext_values_eq, i18n_ext_lookup,
    i18ns_eq, link_eq, link_wf, plain_ext_lookup, tags_eq,
};
use super::link_context::{ContextView, context_eq, context_wf, has_equal_link, has_same_link, links_after_del, merge_links, no_duplicate_links, same_link};
use super::{anchor_index, collect_contexts, lemma_anchor_index, linkset_eq};
use super::lang::i18n_eq;
use super::anchors_unique;

verus! {

// ── Extension attributes ─────────────────────────────────────────────────────

/// After `set_ext(key, values)` with values, `get_ext(key)` gives those values.
pub proof fn set_ext_then_get_ext(e: Seq<(Seq<char>, ExtValuesView)>, key: Seq<char>, v: Seq<Seq<char>>)
    ensures
        plain_ext_lookup(entries_insert(e, ascii_lowercase(key), ExtValuesView::Plain(v)), key) == Some(v),
{
    let k = ascii_lowercase(key);
    let x = entries_insert(e, k, ExtValuesView::Plain(v));
    lemma_entries_key_index(e, k);
    lemma_entries_key_index(x, k);
    let i = entries_key_index(e, k);
    let j = entries_key_index(x, k);
    if i >= 0 {
        assert(x[i].0 == k);
        if j != i {
            assert(j < i);
            assert(x[j] == e[j]);
        }
    } else {
        assert(x[e.len() as int].0 == k);
        if j != e.len() {
            assert(x[j] == e[j]);
        }
    }
}

/// After `set_ext_i18n(key, values)` with values, `get_ext_i18n(key)` gives those values.
pub proof fn set_ext_i18n_then_get_ext_i18n(e: Seq<(Seq<char>, ExtValuesView)>, key: Seq<char>, v: Seq<I18nView>)
    ensures
        i18n_ext_lookup(entries_insert(e, ascii_lowercase(key), ExtValuesView::I18n(v)), key) == Some(v),
{
    let k = ascii_lowercase(key);
    let x = entries_insert(e, k, ExtValuesView::I18n(v));
    lemma_entries_key_index(e, k);
    lemma_entries_key_index(x, k);
    let i = entries_key_index(e, k);
    let j = entries_key_index(x, k);
    if i >= 0 {
        assert(x[i].0 == k);
        if j != i {
            assert(j < i);
            assert(x[j] == e[j]);
        }
    } else {
        assert(x[e.len() as int].0 == k);
        if j != e.len() {
            assert(x[j] == e[j]);
        }
    }
}

/// Setting an extension attribute leaves the attributes of other keys as they were.
pub proof fn set_ext_keeps_other_keys(e: Seq<(Seq<char>, ExtValuesView)>, key: Seq<char>, v: ExtValuesView, other: Seq<char>)
    requires
        ascii_lowercase(other) != ascii_lowercase(key),
    ensures
        plain_ext_lookup(entries_insert(e, ascii_lowercase(key), v), other) == plain_ext_lookup(e, other),
        i18n_ext_lookup(entries_insert(e, ascii_lowercase(key), v), other) == i18n_ext_lookup(e, other),
{
    let k = ascii_lowercase(key);
    let o = ascii_lowercase(other);
    let x = entries_insert(e, k, v);
    lemma_entries_key_index(e, k);
    lemma_entries_key_index(e, o);
    lemma_entries_key_index(x, o);
    let i = entries_key_index(e, k);
    let a = entries_key_index(e, o);
    let b = entries_key_index(x, o);
    assert forall|j: int| 0 <= j < e.len() && j != i implies #[trigger] x[j] == e[j] by {}
    if a >= 0 {
        assert(a != i || i < 0);
        assert(x[a] == e[a]);
        if b != a {
            assert(b < a);
            if b != i {
                assert(x[b] == e[b]);
            }
        }
    } else {
        if b >= 0 {
            if b < e.len() && b != i {
                assert(x[b] == e[b]);
            }
        }
    }
}

/// After `del_ext(key)`, on a well-formed link, `get_ext(key)` finds nothing.
pub proof fn del_ext_then_get_ext(e: Seq<(Seq<char>, ExtValuesView)>, key: Seq<char>)
    requires
        keys_unique(e),
    ensures
        plain_ext_lookup(entries_remove_plain(e, key), key) is None,
{
    let k = ascii_lowercase(key);
    let x = entries_remove_plain(e, key);
    lemma_entries_key_index(e, k);
    lemma_entries_key_index(x, k);
    let i = entries_key_index(e, k);
    let j = entries_key_index(x, k);
    if plain_ext_lookup(e, key) is Some && j >= 0 {
        if j < i {
            assert(x[j] == e[j]);
        } else {
            assert(x[j] == e[j + 1]);
            assert(e[j + 1].0 != e[i].0);
        }
    }
}

/// After `del_ext_i18n(key)`, on a well-formed link, `get_ext_i18n(key)` finds nothing.
pub proof fn del_ext_i18n_then_get_ext_i18n(e: Seq<(Seq<char>, ExtValuesView)>, key: Seq<char>)
    requires
        keys_unique(e),
    ensures
        i18n_ext_lookup(entries_remove_i18n(e, key), key) is None,
{
    let k = ascii_lowercase(key);
    let x = entries_remove_i18n(e, key);
    lemma_entries_key_index(e, k);
    lemma_entries_key_index(x, k);
    let i = entries_key_index(e, k);
    let j = entries_key_index(x, k);
    if i18n_ext_lookup(e, key) is Some && j >= 0 {
        if j < i {
            assert(x[j] == e[j]);
        } else {
            assert(x[j] == e[j + 1]);
            assert(e[j + 1].0 != e[i].0);
        }
    }
}

proof fn lemma_insert_keeps_keys_unique(e: Seq<(Seq<char>, ExtValuesView)>, k: Seq<char>, v: ExtValuesView)
    requires
        keys_unique(e),
    ensures
        keys_unique(entries_insert(e, k, v)),
{
    lemma_entries_key_index(e, k);
    let x = entries_insert(e, k, v);
    let i = entries_key_index(e, k);
    assert forall|a: int, b: int| 0 <= a < x.len() && 0 <= b < x.len() && a != b implies #[trigger] x[a].0 != #[trigger] x[b].0 by {
        if i >= 0 {
            assert(x[a].0 == e[a].0 && x[b].0 == e[b].0);
        } else if a < e.len() && b < e.len() {
            assert(x[a] == e[a] && x[b] == e[b]);
        } else if a == e.len() {
            assert(x[b] == e[b]);
        } else {
            assert(x[a] == e[a]);
        }
    }
}

proof fn lemma_remove_keeps_wf(e: Seq<(Seq<char>, ExtValuesView)>, i: int)
    requires
        keys_unique(e),
        forall|j: int| 0 <= j < e.len() ==> ext_entry_ok(#[trigger] e[j]),
        0 <= i < e.len(),
    ensures
        keys_unique(e.remove(i)),
        forall|j: int| 0 <= j < e.remove(i).len() ==> ext_entry_ok(#[trigger] e.remove(i)[j]),
{
    let x = e.remove(i);
    assert forall|j: int| 0 <= j < x.len() implies #[trigger] x[j] == e[if j < i { j } else { j + 1 }] by {}
    assert forall|a: int, b: int| 0 <= a < x.len() && 0 <= b < x.len() && a != b implies #[trigger] x[a].0 != #[trigger] x[b].0 by {
        assert(x[a] == e[if a < i { a } else { a + 1 }]);
        assert(x[b] == e[if b < i { b } else { b + 1 }]);
    }
    assert forall|j: int| 0 <= j < x.len() implies ext_entry_ok(#[trigger] x[j]) by {
        assert(x[j] == e[if j < i { j } else { j + 1 }]);
    }
}

/// `set_ext` with values and a key it accepts keeps a link well-formed.
pub proof fn set_ext_keeps_link_wf(l: LinkView, key: Seq<char>, v: Seq<Seq<char>>)
    requires
        link_wf(l),
        ext_key_problem(ascii_lowercase(key), false) is None,
        v.len() > 0,
    ensures
        link_wf(LinkView { exts: entries_insert(l.exts, ascii_lowercase(key), ExtValuesView::Plain(v)), ..l }),
{
    let k = ascii_lowercase(key);
    lemma_ascii_lowercase_idem(key);
    lemma_insert_keeps_keys_unique(l.exts, k, ExtValuesView::Plain(v));
    lemma_entries_key_index(l.exts, k);
    let x = entries_insert(l.exts, k, ExtValuesView::Plain(v));
    assert forall|j: int| 0 <= j < x.len() implies ext_entry_ok(#[trigger] x[j]) by {
        if j < l.exts.len() && j != entries_key_index(l.exts, k) {
            assert(x[j] == l.exts[j]);
        }
    }
}

/// `set_ext_i18n` with values and a key it accepts keeps a link well-formed.
pub proof fn set_ext_i18n_keeps_link_wf(l: LinkView, key: Seq<char>, v: Seq<I18nView>)
    requires
        link_wf(l),
        ext_key_problem(ascii_lowercase(key), true) is None,
        v.len() > 0,
    ensures
        link_wf(LinkView { exts: entries_insert(l.exts, ascii_lowercase(key), ExtValuesView::I18n(v)), ..l }),
{
    let k = ascii_lowercase(key);
    lemma_ascii_lowercase_idem(key);
    lemma_insert_keeps_keys_unique(l.exts, k, ExtValuesView::I18n(v));
    lemma_entries_key_index(l.exts, k);
    let x = entries_insert(l.exts, k, ExtValuesView::I18n(v));
    assert forall|j: int| 0 <= j < x.len() implies ext_entry_ok(#[trigger] x[j]) by {
        if j < l.exts.len() && j != entries_key_index(l.exts, k) {
            assert(x[j] == l.exts[j]);
        }
    }
}

/// `del_ext` and `del_ext_i18n` keep a link well-formed.
pub proof fn del_ext_keeps_link_wf(l: LinkView, key: Seq<char>)
    requires
        link_wf(l),
    ensures
        link_wf(LinkView { exts: entries_remove_plain(l.exts, key), ..l }),
        link_wf(LinkView { exts: entries_remove_i18n(l.exts, key), ..l }),
{
    let k = ascii_lowercase(key);
    lemma_entries_key_index(l.exts, k);
    let i = entries_key_index(l.exts, k);
    if i >= 0 {
        lemma_remove_keeps_wf(l.exts, i);
    }
}

/// Setting a plain extension attribute under a new key, then deleting it,
/// gives the attributes back.
pub proof fn set_new_ext_then_del_ext(e: Seq<(Seq<char>, ExtValuesView)>, key: Seq<char>, v: Seq<Seq<char>>)
    requires
        entries_key_index(e, ascii_lowercase(key)) == -1,
    ensures
        entries_remove_plain(entries_insert(e, ascii_lowercase(key), ExtValuesView::Plain(v)), key) == e,
{
    let k = ascii_lowercase(key);
    let x = entries_insert(e, k, ExtValuesView::Plain(v));
    lemma_entries_key_index(e, k);
    lemma_entries_key_index(x, k);
    assert(x == e.push((k, ExtValuesView::Plain(v))));
    assert(x[e.len() as int].0 == k);
    let j = entries_key_index(x, k);
    if 0 <= j < e.len() {
        assert(x[j] == e[j]);
    }
    assert(j == e.len());
    assert(x.remove(e.len() as int) =~= e);
}

/// Setting an internationalised extension attribute under a new key, then
/// deleting it, gives the attributes back.
pub proof fn set_new_ext_i18n_then_del_ext_i18n(e: Seq<(Seq<char>, ExtValuesView)>, key: Seq<char>, v: Seq<I18nView>)
    requires
        entries_key_index(e, ascii_lowercase(key)) == -1,
    ensures
        entries_remove_i18n(entries_insert(e, ascii_lowercase(key), ExtValuesView::I18n(v)), key) == e,
{
    let k = ascii_lowercase(key);
    let x = entries_insert(e, k, ExtValuesView::I18n(v));
    lemma_entries_key_index(e, k);
    lemma_entries_key_index(x, k);
    assert(x == e.push((k, ExtValuesView::I18n(v))));
    assert(x[e.len() as int].0 == k);
    let j = entries_key_index(x, k);
    if 0 <= j < e.len() {
        assert(x[j] == e[j]);
    }
    assert(j == e.len());
    assert(x.remove(e.len() as int) =~= e);
}

/// Adding a link and then deleting the last link gives the context back.
pub proof fn add_link_then_del_link(c: ContextView, l: LinkView)
    ensures
        links_after_del(c.links.push(l), c.links.len() as int) == c.links,
{
    assert(c.links.push(l).remove(c.links.len() as int) =~= c.links);
}

// ── Links of a context ───────────────────────────────────────────────────────

/// `add_link`, when it adds a well-formed link, keeps a context well-formed.
pub proof fn add_link_keeps_context_wf(c: ContextView, l: LinkView)
    requires
        context_wf(c),
        link_wf(l),
        !has_same_link(c.links, l),
    ensures
        context_wf(ContextView { links: c.links.push(l), ..c }),
{
    let s = c.links.push(l);
    assert forall|a: int, b: int| 0 <= a < b < s.len() implies !same_link(#[trigger] s[a], #[trigger] s[b]) by {
        if b == c.links.len() {
            assert(s[a] == c.links[a]);
            assert(!same_link(c.links[a], l));
        } else {
            assert(s[a] == c.links[a] && s[b] == c.links[b]);
        }
    }
    assert forall|i: int| 0 <= i < s.len() implies link_wf(#[trigger] s[i]) by {
        if i < c.links.len() {
            assert(s[i] == c.links[i]);
        }
    }
}

/// `del_link` keeps a context well-formed.
pub proof fn del_link_keeps_context_wf(c: ContextView, idx: int)
    requires
        context_wf(c),
        0 <= idx,
    ensures
        context_wf(ContextView { links: links_after_del(c.links, idx), ..c }),
{
    let s = links_after_del(c.links, idx);
    let n = c.links.len();
    let i = if idx < n { idx } else { n - 1 };
    if n > 0 {
        assert(idx >= n ==> s =~= c.links.remove(n - 1));
        assert forall|a: int| 0 <= a < s.len() implies #[trigger] s[a] == c.links[if a < i { a } else { a + 1 }] by {}
        assert forall|a: int, b: int| 0 <= a < b < s.len() implies !same_link(#[trigger] s[a], #[trigger] s[b]) by {
            assert(s[a] == c.links[if a < i { a } else { a + 1 }]);
            assert(s[b] == c.links[if b < i { b } else { b + 1 }]);
        }
        assert forall|a: int| 0 <= a < s.len() implies link_wf(#[trigger] s[a]) by {
            assert(s[a] == c.links[if a < i { a } else { a + 1 }]);
        }
    }
}

/// Merging adds links while keeping no link twice and every link well-formed.
pub proof fn merge_keeps_context_wf(c: ContextView, rest: Seq<LinkView>)
    requires
        context_wf(c),
        forall|i: int| 0 <= i < rest.len() ==> link_wf(#[trigger] rest[i]),
    ensures
        context_wf(ContextView { links: merge_links(c.links, rest).0, ..c }),
    decreases rest.len(),
{
    if rest.len() > 0 && !has_same_link(c.links, rest[0]) {
        add_link_keeps_context_wf(c, rest[0]);
        let c1 = ContextView { links: c.links.push(rest[0]), ..c };
        assert forall|i: int| 0 <= i < rest.drop_first().len() implies link_wf(#[trigger] rest.drop_first()[i]) by {
            assert(rest.drop_first()[i] == rest[i + 1]);
        }
        merge_keeps_context_wf(c1, rest.drop_first());
    }
}

// ── Contexts of a link set ───────────────────────────────────────────────────

/// `add_context` with a new anchor keeps the anchors distinct.
pub proof fn add_context_keeps_anchors_unique(s: Seq<ContextView>, anchor: Seq<char>)
    requires
        anchors_unique(s),
        anchor_index(s, anchor) == -1,
    ensures
        anchors_unique(s.push(ContextView { anchor, links: Seq::empty() })),
{
    lemma_anchor_index(s, anchor);
    let x = s.push(ContextView { anchor, links: Seq::empty() });
    assert forall|i: int, j: int| 0 <= i < x.len() && 0 <= j < x.len() && i != j implies #[trigger] x[i].anchor != #[trigger] x[j].anchor by {
        if i < s.len() && j < s.len() {
            assert(x[i] == s[i] && x[j] == s[j]);
        } else if i < s.len() {
            assert(x[i] == s[i]);
        } else {
            assert(x[j] == s[j]);
        }
    }
}

/// `remove_context` keeps the anchors distinct.
pub proof fn remove_context_keeps_anchors_unique(s: Seq<ContextView>, i: int)
    requires
        anchors_unique(s),
        0 <= i < s.len(),
    ensures
        anchors_unique(s.update(i, s.last()).drop_last()),
{
    let n = s.len() - 1;
    let x = s.update(i, s.last()).drop_last();
    assert forall|a: int| 0 <= a < x.len() implies #[trigger] x[a] == s[if a == i { n } else { a }] by {}
    assert forall|a: int, b: int| 0 <= a < x.len() && 0 <= b < x.len() && a != b implies #[trigger] x[a].anchor != #[trigger] x[b].anchor by {
        assert(x[a] == s[if a == i { n } else { a }]);
        assert(x[b] == s[if b == i { n } else { b }]);
    }
}

/// Building a link set from well-formed contexts gives well-formed contexts
/// with distinct anchors.
pub proof fn from_contexts_keeps_wf(acc: Seq<ContextView>, rest: Seq<ContextView>)
    requires
        anchors_unique(acc),
        forall|i: int| 0 <= i < acc.len() ==> context_wf(#[trigger] acc[i]),
        forall|i: int| 0 <= i < rest.len() ==> context_wf(#[trigger] rest[i]),
    ensures
        collect_contexts(acc, rest) matches Ok(s) ==> anchors_unique(s) && forall|i: int| 0 <= i < s.len() ==> context_wf(#[trigger] s[i]),
    decreases rest.len(),
{
    if rest.len() > 0 {
        let c = rest[0];
        assert(context_wf(c));
        lemma_anchor_index(acc, c.anchor);
        let i = anchor_index(acc, c.anchor);
        assert forall|k: int| 0 <= k < rest.drop_first().len() implies context_wf(#[trigger] rest.drop_first()[k]) by {
            assert(rest.drop_first()[k] == rest[k + 1]);
        }
        if i >= 0 {
            let m = merge_links(acc[i].links, c.links);
            if m.1 is None {
                assert(context_wf(acc[i]));
                merge_keeps_context_wf(acc[i], c.links);
                let acc1 = acc.update(i, ContextView { anchor: acc[i].anchor, links: m.0 });
                assert forall|a: int, b: int| 0 <= a < acc1.len() && 0 <= b < acc1.len() && a != b
                    implies #[trigger] acc1[a].anchor != #[trigger] acc1[b].anchor by {
                    assert(acc1[a].anchor == acc[a].anchor && acc1[b].anchor == acc[b].anchor);
                }
                assert forall|k: int| 0 <= k < acc1.len() implies context_wf(#[trigger] acc1[k]) by {
                    if k != i {
                        assert(acc1[k] == acc[k]);
                    }
                }
                from_contexts_keeps_wf(acc1, rest.drop_first());
            }
        } else {
            let acc1 = acc.push(c);
            assert forall|a: int, b: int| 0 <= a < acc1.len() && 0 <= b < acc1.len() && a != b
                implies #[trigger] acc1[a].anchor != #[trigger] acc1[b].anchor by {
                if a < acc.len() && b < acc.len() {
                    assert(acc1[a] == acc[a] && acc1[b] == acc[b]);
                } else if a < acc.len() {
                    assert(acc1[a] == acc[a]);
                } else {
                    assert(acc1[b] == acc[b]);
                }
            }
            assert forall|k: int| 0 <= k < acc1.len() implies context_wf(#[trigger] acc1[k]) by {
                if k < acc.len() {
                    assert(acc1[k] == acc[k]);
                }
            }
            from_contexts_keeps_wf(acc1, rest.drop_first());
        }
    }
}

// ── Equality ─────────────────────────────────────────────────────────────────

/// A well-formed link equals itself.
pub proof fn link_eq_reflexive(l: LinkView)
    requires
        link_wf(l),
    ensures
        link_eq(l, l),
{
    assert(tags_eq(l.hreflang, l.hreflang));
    if let Some(i) = l.title_i18n {
        assert(i18n_eq(i, i));
    }
    let e = l.exts;
    assert forall|i: int| 0 <= i < e.len() implies ({
        let j = entries_key_index(e, (#[trigger] e[i]).0);
        0 <= j && ext_values_eq(e[i].1, e[j].1)
    }) by {
        lemma_entries_key_index(e, e[i].0);
        let j = entries_key_index(e, e[i].0);
        if j != i {
            assert(e[j].0 != e[i].0);
        }
        if let ExtValuesView::I18n(v) = e[i].1 {
            assert(i18ns_eq(v, v));
        }
    }
}

/// A link set with distinct anchors and well-formed contexts equals itself.
pub proof fn linkset_eq_reflexive(s: Seq<ContextView>)
    requires
        anchors_unique(s),
        forall|i: int| 0 <= i < s.len() ==> context_wf(#[trigger] s[i]),
    ensures
        linkset_eq(s, s),
{
    assert forall|i: int| 0 <= i < s.len() implies ({
        let j = anchor_index(s, (#[trigger] s[i]).anchor);
        0 <= j && context_eq(s[i], s[j])
    }) by {
        lemma_anchor_index(s, s[i].anchor);
        let j = anchor_index(s, s[i].anchor);
        if j != i {
            assert(s[j].anchor != s[i].anchor);
        }
        let c = s[i];
        assert(context_wf(c));
        assert forall|k: int| 0 <= k < c.links.len() implies has_equal_link(c.links, #[trigger] c.links[k]) by {
            link_eq_reflexive(c.links[k]);
        }
    }
}


// ── What the operations mean ─────────────────────────────────────────────────

/// Some entry of `e` has the key `k`.
pub open spec fn has_key(e: Seq<(Seq<char>, ExtValuesView)>, k: Seq<char>) -> bool {
    exists|j: int| 0 <= j < e.len() && #[trigger] e[j].0 == k
}

/// Equal links (the equality that `==` on links is specified by) have the
/// same target, relation type, media type, title, `title*` text, media and
/// number of language tags and extension attributes: two links that differ
/// in any of these are not equal.
pub proof fn equal_links_agree(a: LinkView, b: LinkView)
    requires
        link_eq(a, b),
    ensures
        a.target == b.target,
        a.rel == b.rel,
        a.type_ == b.type_,
        a.title == b.title,
        a.media == b.media,
        a.title_i18n is Some <==> b.title_i18n is Some,
        a.title_i18n matches Some(x) ==> b.title_i18n->0.value == x.value,
        a.title_i18n matches Some(x) ==> ascii_lowercase(b.title_i18n->0.language) == ascii_lowercase(x.language),
        a.hreflang.len() == b.hreflang.len(),
        forall|k: int| 0 <= k < a.hreflang.len() ==> ascii_lowercase(#[trigger] a.hreflang[k]) == ascii_lowercase(b.hreflang[k]),
        a.exts.len() == b.exts.len(),
        forall|i: int| 0 <= i < a.exts.len() ==> has_key(b.exts, (#[trigger] a.exts[i]).0),
{
    assert forall|i: int| 0 <= i < a.exts.len() implies has_key(b.exts, (#[trigger] a.exts[i]).0) by {
        let j = entries_key_index(b.exts, a.exts[i].0);
        lemma_entries_key_index(b.exts, a.exts[i].0);
        assert(b.exts[j].0 == a.exts[i].0);
    }
    assert forall|k: int| 0 <= k < a.hreflang.len() implies ascii_lowercase(#[trigger] a.hreflang[k]) == ascii_lowercase(b.hreflang[k]) by {
        assert(crate::strs::eq_ignore_ascii_case(a.hreflang[k], b.hreflang[k]));
    }
}

/// Some link of `s` has the target, relation type, media type, title and
/// media of `l`.
pub open spec fn has_link_like(s: Seq<LinkView>, l: LinkView) -> bool {
    exists|m: int| 0 <= m < s.len() && #[trigger] s[m].target == l.target && s[m].rel == l.rel
        && s[m].type_ == l.type_ && s[m].title == l.title && s[m].media == l.media
}

/// Equal contexts have the same anchor and as many links, and each link of
/// one has a link in the other with the same target, relation type, media
/// type, title and media.
pub proof fn equal_contexts_agree(a: ContextView, b: ContextView)
    requires
        context_eq(a, b),
    ensures
        a.anchor == b.anchor,
        a.links.len() == b.links.len(),
        forall|i: int| 0 <= i < a.links.len() ==> has_link_like(b.links, #[trigger] a.links[i]),
{
    assert forall|i: int| 0 <= i < a.links.len() implies has_link_like(b.links, #[trigger] a.links[i]) by {
        assert(has_equal_link(b.links, a.links[i]));
        let j = choose|j: int| 0 <= j < b.links.len() && link_eq(a.links[i], #[trigger] b.links[j]);
        equal_links_agree(a.links[i], b.links[j]);
        assert(b.links[j].target == a.links[i].target);
    }
}

/// Equal link sets have as many contexts, and each context of one has a
/// context of the other with its anchor and as many links, each of its links
/// having there a link with the same target, relation type, media type,
/// title and media.
pub proof fn equal_linksets_agree(a: Seq<ContextView>, b: Seq<ContextView>, i: int)
    requires
        linkset_eq(a, b),
        0 <= i < a.len(),
    ensures
        a.len() == b.len(),
        exists|j: int| 0 <= j < b.len() && #[trigger] b[j].anchor == a[i].anchor && b[j].links.len() == a[i].links.len()
            && forall|k: int| 0 <= k < a[i].links.len() ==> has_link_like(b[j].links, #[trigger] a[i].links[k]),
{
    let j = anchor_index(b, a[i].anchor);
    lemma_anchor_index(b, a[i].anchor);
    equal_contexts_agree(a[i], b[j]);
    assert(b[j].anchor == a[i].anchor);
}

/// Deleting a link at an index in range removes exactly that link: the links
/// before it stay, in order, and the links after it move down by one, in
/// order. Deleting out of range, from a context with links, removes the last.
pub proof fn del_link_keeps_order(s: Seq<LinkView>, idx: int)
    requires
        0 <= idx,
    ensures
        idx < s.len() ==> links_after_del(s, idx) == s.subrange(0, idx) + s.subrange(idx + 1, s.len() as int),
        idx < s.len() ==> links_after_del(s, idx).len() == s.len() - 1,
        idx < s.len() ==> forall|k: int| 0 <= k < idx ==> #[trigger] links_after_del(s, idx)[k] == s[k],
        idx < s.len() ==> forall|k: int| idx <= k < s.len() - 1 ==> #[trigger] links_after_del(s, idx)[k] == s[k + 1],
        idx >= s.len() && s.len() > 0 ==> links_after_del(s, idx) == s.subrange(0, s.len() - 1),
{
    if idx < s.len() {
        assert(links_after_del(s, idx) =~= s.subrange(0, idx) + s.subrange(idx + 1, s.len() as int));
    } else if s.len() > 0 {
        assert(links_after_del(s, idx) =~= s.subrange(0, s.len() - 1));
    }
}

} // verus!
