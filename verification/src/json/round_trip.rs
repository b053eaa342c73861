//! Reading back what the JSON writer writes: the JSON value of a link set
//! reads back into an equal link set.

use vstd::prelude::*;

use crate::error::LinksetError;
use crate::external::{is_valid_language_tag, is_valid_uri, keys_unique};
use crate::model::ext_token::{ext_key_problem, is_token, is_well_known_i18n_key, is_well_known_key};
use crate::model::ext_values::{ExtValuesView, entries_key_index, lemma_entries_key_index};
use crate::model::lang::I18nView;
use crate::model::link::{LinkView, entries_insert, ext_entry_ok, i18n_exts, link_wf, plain_exts};
use crate::model::link_context::{ContextView, context_wf};
use crate::model::media_type::is_media_type;
use crate::model::rel_type::{rel_of_str, rel_text};
use crate::strs::{ascii_lowercase, ends_with_char};
use crate::text::convert::{group_keys_unique, i18n_entries, plain_entries};
use crate::text::round_trip::{anchors_unique, lemma_i18n_exts_member, lemma_plain_exts_member};
use crate::text::round_trip_links::{lemma_i18n_exts_unique, lemma_plain_exts_unique, norm_link};
use crate::model::uri::resolve_spec;
use crate::model::rel_type::RelTypeView;
use super::{
    link_of_json, type_field, str_field, title_i18n_field, hreflang_field, opt_str_of, tags_of_json,
    JsonShape, JsonValue, entries_have_shapes, ext_attrs, ext_items, has_shape, i18n_of_json, i18ns_of_json,
    is_i18n_json, is_link_json, is_target_key, json_entries, lemma_key_index_same_keys, link_json_entries, map_insert,
    map_insert_all, obj_get, opt_entry, opt_str_shape, str_of, strs_of_json, Outcome,
};

verus! {

// ── What the JSON format can carry ───────────────────────────────────────────

/// A link that the JSON format writes and reads back: valid URI, media type
/// and language tags, a relation type written as read and other than
/// `anchor`, and no extension attribute named `href`.
pub open spec fn link_json_ok(l: LinkView) -> bool {
    &&& is_valid_uri(l.target)
    &&& rel_of_str(rel_text(l.rel)) == Some(l.rel)
    &&& rel_text(l.rel) != seq!['a', 'n', 'c', 'h', 'o', 'r']
    &&& l.type_ matches Some(t) ==> is_media_type(t)
    &&& l.title_i18n matches Some(i) ==> is_valid_language_tag(i.language)
    &&& forall|k: int| 0 <= k < l.hreflang.len() ==> is_valid_language_tag(#[trigger] l.hreflang[k])
    &&& link_wf(l)
    &&& forall|k: int| 0 <= k < l.exts.len() ==> (#[trigger] l.exts[k]).0 != seq!['h', 'r', 'e', 'f']
    &&& forall|k: int| 0 <= k < l.exts.len() ==> match (#[trigger] l.exts[k]).1 {
        ExtValuesView::I18n(vs) => forall|m: int| 0 <= m < vs.len() ==> is_valid_language_tag((#[trigger] vs[m]).language),
        ExtValuesView::Plain(_) => true,
    }
}

/// A context that the JSON format writes and reads back.
pub open spec fn context_json_ok(c: ContextView) -> bool {
    &&& is_valid_uri(c.anchor)
    &&& context_wf(c)
    &&& forall|k: int| 0 <= k < c.links.len() ==> link_json_ok(#[trigger] c.links[k])
}

/// A link set that the JSON format writes and reads back.
pub open spec fn linkset_json_ok(cs: Seq<ContextView>) -> bool {
    &&& cs.len() > 0
    &&& anchors_unique(cs)
    &&& forall|k: int| 0 <= k < cs.len() ==> context_json_ok(#[trigger] cs[k])
}

// ── The entries of a target object ───────────────────────────────────────────

/// The fixed entries of a target object.
pub open spec fn fixed_entries(l: LinkView) -> Seq<(Seq<char>, JsonShape)> {
    seq![(seq!['h', 'r', 'e', 'f'], JsonShape::Str(l.target))]
        + opt_entry(seq!['t', 'y', 'p', 'e'], opt_str_shape(l.type_))
        + opt_entry(seq!['t', 'i', 't', 'l', 'e'], opt_str_shape(l.title))
        + opt_entry(seq!['t', 'i', 't', 'l', 'e', '*'], match l.title_i18n {
            Some(i) => Some(JsonShape::I18ns(seq![i])),
            None => None,
        })
        + opt_entry(seq!['h', 'r', 'e', 'f', 'l', 'a', 'n', 'g'], if l.hreflang.len() > 0 {
            Some(JsonShape::Strs(l.hreflang))
        } else {
            None
        })
        + opt_entry(seq!['m', 'e', 'd', 'i', 'a'], opt_str_shape(l.media))
}

/// The extension entries of a target object.
pub open spec fn ext_json_entries(l: LinkView) -> Seq<(Seq<char>, JsonShape)> {
    plain_exts(l.exts).map_values(|g: (Seq<char>, Seq<Seq<char>>)| (g.0, JsonShape::Strs(g.1)))
        + i18n_exts(l.exts).map_values(|g: (Seq<char>, Seq<I18nView>)| (g.0, JsonShape::I18ns(g.1)))
}

proof fn lemma_map_insert_all_fresh<V>(e: Seq<(Seq<char>, V)>, more: Seq<(Seq<char>, V)>)
    requires
        group_keys_unique(more),
        forall|i: int, j: int| 0 <= i < more.len() && 0 <= j < e.len() ==> #[trigger] e[j].0 != #[trigger] more[i].0,
    ensures
        map_insert_all(e, more) == e + more,
    decreases more.len(),
{
    if more.len() == 0 {
        assert(e + more =~= e);
    } else {
        let m1 = more.drop_last();
        assert(group_keys_unique(m1)) by {
            assert forall|i: int, j: int| 0 <= i < m1.len() && 0 <= j < m1.len() && i != j implies #[trigger] m1[i].0 != #[trigger] m1[j].0 by {
                assert(m1[i] == more[i] && m1[j] == more[j]);
            }
        }
        assert forall|i: int, j: int| 0 <= i < m1.len() && 0 <= j < e.len() implies #[trigger] e[j].0 != #[trigger] m1[i].0 by {
            assert(m1[i] == more[i]);
        }
        lemma_map_insert_all_fresh(e, m1);
        let k = more.last().0;
        let x = e + m1;
        assert forall|j: int| 0 <= j < x.len() implies (#[trigger] x[j]).0 != k by {
            assert(more[more.len() - 1] == more.last());
            if j < e.len() {
                assert(x[j] == e[j]);
            } else {
                assert(x[j] == more[j - e.len()]);
            }
        }
        lemma_entries_key_index(x, k);
        assert(x.push(more.last()) =~= e + more);
    }
}

/// The keys of the extension entries are distinct and differ from the fixed keys.
proof fn lemma_ext_json_keys(l: LinkView)
    requires
        link_json_ok(l),
    ensures
        group_keys_unique(ext_json_entries(l)),
        forall|i: int| 0 <= i < ext_json_entries(l).len() ==> {
            let k = (#[trigger] ext_json_entries(l)[i]).0;
            &&& is_token(k)
            &&& !is_target_key(k)
            &&& ascii_lowercase(k) == k
            &&& match ext_json_entries(l)[i].1 {
                JsonShape::Strs(vs) => !ends_with_char(k, '*') && ext_key_problem(k, false) is None && vs.len() > 0,
                JsonShape::I18ns(is) => ends_with_char(k, '*') && ext_key_problem(k, true) is None && is.len() > 0
                    && forall|m: int| 0 <= m < is.len() ==> is_valid_language_tag((#[trigger] is[m]).language),
                JsonShape::Str(_) => false,
            }
        },
{
    let e = l.exts;
    let p = plain_exts(e);
    let q = i18n_exts(e);
    let a = p.map_values(|g: (Seq<char>, Seq<Seq<char>>)| (g.0, JsonShape::Strs(g.1)));
    let b = q.map_values(|g: (Seq<char>, Seq<I18nView>)| (g.0, JsonShape::I18ns(g.1)));
    let x = a + b;
    lemma_plain_exts_unique(e);
    lemma_i18n_exts_unique(e);
    lemma_plain_exts_member(e);
    lemma_i18n_exts_member(e);
    assert forall|i: int| 0 <= i < x.len() implies {
        let k = (#[trigger] x[i]).0;
        &&& is_token(k)
        &&& !is_target_key(k)
        &&& ascii_lowercase(k) == k
        &&& match x[i].1 {
            JsonShape::Strs(vs) => !ends_with_char(k, '*') && ext_key_problem(k, false) is None && vs.len() > 0,
            JsonShape::I18ns(is) => ends_with_char(k, '*') && ext_key_problem(k, true) is None && is.len() > 0
                && forall|m: int| 0 <= m < is.len() ==> is_valid_language_tag((#[trigger] is[m]).language),
            JsonShape::Str(_) => false,
        }
    } by {
        if i < a.len() {
            assert(x[i] == a[i]);
            let j = choose|j: int| 0 <= j < e.len() && e[j] == (p[i].0, ExtValuesView::Plain(p[i].1));
            assert(ext_entry_ok(e[j]));
            assert(e[j].0 != seq!['h', 'r', 'e', 'f']);
            assert(!is_well_known_key(p[i].0));
        } else {
            let n = i - a.len();
            assert(x[i] == b[n]);
            let j = choose|j: int| 0 <= j < e.len() && e[j] == (q[n].0, ExtValuesView::I18n(q[n].1));
            assert(ext_entry_ok(e[j]));
            let k = q[n].0;
            assert(k.last() == '*');
            assert(!is_well_known_i18n_key(k));
            assert(k != seq!['h', 'r', 'e', 'f']);
            assert(!is_well_known_key(k)) by {
                assert(k != seq!['r', 'e', 'l']);
                assert(k != seq!['r', 'e', 'v']);
                assert(k != seq!['a', 'n', 'c', 'h', 'o', 'r']);
                assert(k != seq!['t', 'y', 'p', 'e']);
                assert(k != seq!['t', 'i', 't', 'l', 'e']);
                assert(k != seq!['h', 'r', 'e', 'f', 'l', 'a', 'n', 'g']);
                assert(k != seq!['m', 'e', 'd', 'i', 'a']);
            }
            assert forall|m: int| 0 <= m < q[n].1.len() implies is_valid_language_tag((#[trigger] q[n].1[m]).language) by {
                assert(match e[j].1 {
                    ExtValuesView::I18n(vs) => forall|m: int| 0 <= m < vs.len() ==> is_valid_language_tag((#[trigger] vs[m]).language),
                    ExtValuesView::Plain(_) => true,
                });
            }
        }
    }
    assert forall|i: int, j: int| 0 <= i < x.len() && 0 <= j < x.len() && i != j implies #[trigger] x[i].0 != #[trigger] x[j].0 by {
        if i < a.len() && j < a.len() {
            assert(x[i] == a[i] && x[j] == a[j]);
            assert(p[i].0 != p[j].0);
        } else if i >= a.len() && j >= a.len() {
            assert(x[i] == b[i - a.len()] && x[j] == b[j - a.len()]);
            assert(q[i - a.len()].0 != q[j - a.len()].0);
        } else {
            // one ends with `*`, the other does not
            assert(ends_with_char(x[i].0, '*') != ends_with_char(x[j].0, '*'));
        }
    }
}

/// The entries of a target object: the fixed ones, then the extension ones.
pub proof fn lemma_link_json_entries(l: LinkView)
    requires
        link_json_ok(l),
    ensures
        link_json_entries(l) == fixed_entries(l) + ext_json_entries(l),
{
    lemma_ext_json_keys(l);
    let f = fixed_entries(l);
    let x = ext_json_entries(l);
    assert forall|i: int, j: int| 0 <= i < x.len() && 0 <= j < f.len() implies #[trigger] f[j].0 != #[trigger] x[i].0 by {
        assert(!is_target_key(x[i].0));
        assert(is_target_key(f[j].0));
    }
    lemma_map_insert_all_fresh(f, x);
}

// ── Reading a target object back ─────────────────────────────────────────────

/// An entry found by its key in entries of known shapes.
proof fn lemma_obj_get_at(es: Seq<(String, JsonValue)>, want: Seq<(Seq<char>, JsonShape)>, i: int)
    requires
        entries_have_shapes(es, want),
        group_keys_unique(want),
        0 <= i < want.len(),
    ensures
        obj_get(es, want[i].0) == Some(es[i].1),
        has_shape(es[i].1, want[i].1),
{
    let k = want[i].0;
    assert forall|m: int| 0 <= m < json_entries(es).len() implies (#[trigger] json_entries(es)[m]).0 == want[m].0 by {
        assert(es[m].0@ == want[m].0);
    }
    lemma_key_index_same_keys(json_entries(es), want, k);
    lemma_entries_key_index(want, k);
    let r = entries_key_index(want, k);
    if r != i && r >= 0 {
        assert(want[r].0 != want[i].0);
    }
}

/// A key that none of the entries has.
proof fn lemma_obj_get_none(es: Seq<(String, JsonValue)>, want: Seq<(Seq<char>, JsonShape)>, k: Seq<char>)
    requires
        entries_have_shapes(es, want),
        forall|m: int| 0 <= m < want.len() ==> (#[trigger] want[m]).0 != k,
    ensures
        obj_get(es, k) is None,
{
    assert forall|m: int| 0 <= m < json_entries(es).len() implies (#[trigger] json_entries(es)[m]).0 == want[m].0 by {
        assert(es[m].0@ == want[m].0);
    }
    lemma_key_index_same_keys(json_entries(es), want, k);
    lemma_entries_key_index(want, k);
}

/// The strings of an array of strings.
proof fn lemma_strs_read(v: JsonValue, vs: Seq<Seq<char>>)
    requires
        has_shape(v, JsonShape::Strs(vs)),
    ensures
        v is Array,
        strs_of_json(v->Array_0@) == Some(vs),
{
    let a = v->Array_0@;
    assert forall|i: int| 0 <= i < a.len() implies (#[trigger] str_of(a[i])) is Some by {}
    assert(a.map_values(|x: JsonValue| str_of(x)->0) =~= vs);
}

/// The internationalised string of its object.
proof fn lemma_i18n_read(v: JsonValue, i: I18nView)
    requires
        is_i18n_json(v, i),
        is_valid_language_tag(i.language),
    ensures
        i18n_of_json(v) == Some(i),
{
    let es = v->Object_0@;
    let val = seq!['v', 'a', 'l', 'u', 'e'];
    let lang = seq!['l', 'a', 'n', 'g', 'u', 'a', 'g', 'e'];
    let je = json_entries(es);
    assert(je[0].0 == lang && je[1].0 == val);
    lemma_entries_key_index(je, val);
    lemma_entries_key_index(je, lang);
    assert(entries_key_index(je, lang) == 0);
    assert(entries_key_index(je, val) == 1);
}

/// The internationalised strings of an array of their objects.
proof fn lemma_i18ns_read(v: JsonValue, is: Seq<I18nView>)
    requires
        has_shape(v, JsonShape::I18ns(is)),
        forall|m: int| 0 <= m < is.len() ==> is_valid_language_tag((#[trigger] is[m]).language),
    ensures
        v is Array,
        i18ns_of_json(v->Array_0@) == Some(is),
{
    let a = v->Array_0@;
    assert forall|m: int| 0 <= m < a.len() implies #[trigger] i18n_of_json(a[m]) == Some(is[m]) by {
        assert(is_valid_language_tag(is[m].language));
        lemma_i18n_read(a[m], is[m]);
    }
    assert forall|m: int| 0 <= m < a.len() implies (#[trigger] i18n_of_json(a[m])) is Some by {
        assert(i18n_of_json(a[m]) == Some(is[m]));
    }
    assert(a.map_values(|x: JsonValue| i18n_of_json(x)->0) =~= is);
}

/// The extension attribute of an entry.
pub open spec fn ext_value_of(sh: JsonShape) -> ExtValuesView {
    match sh {
        JsonShape::Strs(vs) => ExtValuesView::Plain(vs),
        JsonShape::I18ns(is) => ExtValuesView::I18n(is),
        JsonShape::Str(_) => ExtValuesView::Plain(Seq::empty()),
    }
}

/// Extension entries that read back: token keys in lower case, of the kind
/// that their `*` says, valid, with values.
pub open spec fn ext_shapes_ok(w: Seq<(Seq<char>, JsonShape)>) -> bool {
    forall|i: int| 0 <= i < w.len() ==> {
        let k = (#[trigger] w[i]).0;
        &&& is_token(k)
        &&& !is_target_key(k)
        &&& ascii_lowercase(k) == k
        &&& match w[i].1 {
            JsonShape::Strs(vs) => !ends_with_char(k, '*') && ext_key_problem(k, false) is None && vs.len() > 0,
            JsonShape::I18ns(is) => ends_with_char(k, '*') && ext_key_problem(k, true) is None && is.len() > 0
                && forall|m: int| 0 <= m < is.len() ==> is_valid_language_tag((#[trigger] is[m]).language),
            JsonShape::Str(_) => false,
        }
    }
}

/// Reading extension entries back.
proof fn lemma_ext_attrs_read(es: Seq<(String, JsonValue)>, w: Seq<(Seq<char>, JsonShape)>, acc: Seq<(Seq<char>, ExtValuesView)>)
    requires
        entries_have_shapes(es, w),
        ext_shapes_ok(w),
        group_keys_unique(w),
        forall|i: int, j: int| 0 <= i < w.len() && 0 <= j < acc.len() ==> #[trigger] acc[j].0 != #[trigger] w[i].0,
    ensures
        ext_attrs(es, acc) == Outcome::Done(acc + w.map_values(|e: (Seq<char>, JsonShape)| (e.0, ext_value_of(e.1)))),
    decreases es.len(),
{
    let conv = w.map_values(|e: (Seq<char>, JsonShape)| (e.0, ext_value_of(e.1)));
    if es.len() == 0 {
        assert(acc + conv =~= acc);
    } else {
        let k = w[0].0;
        assert(es[0].0@ == k);
        let rest = es.drop_first();
        let w1 = w.drop_first();
        assert(entries_have_shapes(rest, w1)) by {
            assert forall|i: int| 0 <= i < rest.len() implies (#[trigger] rest[i]).0@ == w1[i].0 && has_shape(rest[i].1, w1[i].1) by {
                assert(rest[i] == es[i + 1] && w1[i] == w[i + 1]);
            }
        }
        assert(ext_shapes_ok(w1)) by {
            assert forall|i: int| 0 <= i < w1.len() implies #[trigger] w1[i] == w[i + 1] by {}
        }
        assert(group_keys_unique(w1)) by {
            assert forall|i: int, j: int| 0 <= i < w1.len() && 0 <= j < w1.len() && i != j implies #[trigger] w1[i].0 != #[trigger] w1[j].0 by {
                assert(w1[i] == w[i + 1] && w1[j] == w[j + 1]);
            }
        }
        lemma_entries_key_index(acc, k);
        let v = ext_value_of(w[0].1);
        assert(entries_insert(acc, k, v) == acc.push((k, v)));
        let acc1 = acc.push((k, v));
        assert forall|i: int, j: int| 0 <= i < w1.len() && 0 <= j < acc1.len() implies #[trigger] acc1[j].0 != #[trigger] w1[i].0 by {
            assert(w1[i] == w[i + 1]);
            if j < acc.len() {
                assert(acc1[j] == acc[j]);
            } else {
                assert(w[0].0 != w[i + 1].0);
            }
        }
        match w[0].1 {
            JsonShape::Strs(vs) => {
                lemma_strs_read(es[0].1, vs);
            },
            JsonShape::I18ns(is) => {
                lemma_i18ns_read(es[0].1, is);
            },
            JsonShape::Str(_) => {},
        }
        lemma_ext_attrs_read(rest, w1, acc1);
        assert(conv =~= seq![(k, v)] + w1.map_values(|e: (Seq<char>, JsonShape)| (e.0, ext_value_of(e.1))));
        assert(acc1 + w1.map_values(|e: (Seq<char>, JsonShape)| (e.0, ext_value_of(e.1))) =~= acc + conv);
    }
}

/// No entry has key `k`.
pub open spec fn keys_avoid(s: Seq<(Seq<char>, JsonShape)>, k: Seq<char>) -> bool {
    forall|m: int| 0 <= m < s.len() ==> (#[trigger] s[m]).0 != k
}

proof fn lemma_keys_avoid_add(a: Seq<(Seq<char>, JsonShape)>, b: Seq<(Seq<char>, JsonShape)>, k: Seq<char>)
    requires
        keys_avoid(a, k),
        keys_avoid(b, k),
    ensures
        keys_avoid(a + b, k),
{
    assert forall|m: int| 0 <= m < (a + b).len() implies (#[trigger] (a + b)[m]).0 != k by {
        if m < a.len() {
            assert((a + b)[m] == a[m]);
        } else {
            assert((a + b)[m] == b[m - a.len()]);
        }
    }
}

/// An optional entry between entries without its key.
proof fn lemma_opt_entry_at(a: Seq<(Seq<char>, JsonShape)>, k: Seq<char>, o: Option<JsonShape>, b: Seq<(Seq<char>, JsonShape)>)
    requires
        keys_avoid(a, k),
        keys_avoid(b, k),
    ensures
        o matches Some(sh) ==> (a + opt_entry(k, o) + b)[a.len() as int] == (k, sh) && a.len() < (a + opt_entry(k, o) + b).len(),
        o is None ==> keys_avoid(a + opt_entry(k, o) + b, k),
{
    if o is None {
        lemma_keys_avoid_add(a, opt_entry(k, o), k);
        lemma_keys_avoid_add(a + opt_entry(k, o), b, k);
    }
}

/// Reading a field: present at a known place, or absent.
proof fn lemma_field_read(es: Seq<(String, JsonValue)>, want: Seq<(Seq<char>, JsonShape)>,
    a: Seq<(Seq<char>, JsonShape)>, k: Seq<char>, o: Option<JsonShape>, b: Seq<(Seq<char>, JsonShape)>)
    requires
        want == a + opt_entry(k, o) + b,
        entries_have_shapes(es, want),
        group_keys_unique(want),
        keys_avoid(a, k),
        keys_avoid(b, k),
    ensures
        o matches Some(sh) ==> obj_get(es, k) matches Some(v) && has_shape(v, sh),
        o is None ==> obj_get(es, k) is None,
{
    lemma_opt_entry_at(a, k, o, b);
    match o {
        Some(sh) => {
            lemma_obj_get_at(es, want, a.len() as int);
        },
        None => {
            lemma_obj_get_none(es, want, k);
        },
    }
}

proof fn lemma_unique_add(a: Seq<(Seq<char>, JsonShape)>, b: Seq<(Seq<char>, JsonShape)>)
    requires
        group_keys_unique(a),
        group_keys_unique(b),
        forall|m: int| 0 <= m < b.len() ==> keys_avoid(a, (#[trigger] b[m]).0),
    ensures
        group_keys_unique(a + b),
{
    let c = a + b;
    assert forall|i: int, j: int| 0 <= i < c.len() && 0 <= j < c.len() && i != j implies #[trigger] c[i].0 != #[trigger] c[j].0 by {
        if i < a.len() && j < a.len() {
            assert(c[i] == a[i] && c[j] == a[j]);
        } else if i >= a.len() && j >= a.len() {
            assert(c[i] == b[i - a.len()] && c[j] == b[j - a.len()]);
        } else if i < a.len() {
            assert(c[i] == a[i] && c[j] == b[j - a.len()]);
            assert(keys_avoid(a, b[j - a.len()].0));
        } else {
            assert(c[j] == a[j] && c[i] == b[i - a.len()]);
            assert(keys_avoid(a, b[i - a.len()].0));
        }
    }
}

proof fn lemma_ext_attrs_skip(es: Seq<(String, JsonValue)>, w: Seq<(Seq<char>, JsonShape)>, n: int, acc: Seq<(Seq<char>, ExtValuesView)>)
    requires
        entries_have_shapes(es, w),
        0 <= n <= es.len(),
        forall|m: int| 0 <= m < n ==> is_token((#[trigger] w[m]).0) && is_target_key(w[m].0),
    ensures
        ext_attrs(es, acc) == ext_attrs(es.skip(n), acc),
    decreases n,
{
    if n == 0 {
        assert(es.skip(0) =~= es);
    } else {
        assert(es[0].0@ == w[0].0);
        let w1 = w.drop_first();
        let es1 = es.drop_first();
        assert(entries_have_shapes(es1, w1)) by {
            assert forall|i: int| 0 <= i < es1.len() implies (#[trigger] es1[i]).0@ == w1[i].0 && has_shape(es1[i].1, w1[i].1) by {
                assert(es1[i] == es[i + 1] && w1[i] == w[i + 1]);
            }
        }
        assert forall|m: int| 0 <= m < n - 1 implies is_token((#[trigger] w1[m]).0) && is_target_key(w1[m].0) by {
            assert(w1[m] == w[m + 1]);
        }
        lemma_ext_attrs_skip(es1, w1, n - 1, acc);
        assert(es1.skip(n - 1) =~= es.skip(n));
    }
}

pub open spec fn f_href(l: LinkView) -> Seq<(Seq<char>, JsonShape)> {
    seq![(seq!['h', 'r', 'e', 'f'], JsonShape::Str(l.target))]
}

pub open spec fn f_type(l: LinkView) -> Seq<(Seq<char>, JsonShape)> {
    opt_entry(seq!['t', 'y', 'p', 'e'], opt_str_shape(l.type_))
}

pub open spec fn f_title(l: LinkView) -> Seq<(Seq<char>, JsonShape)> {
    opt_entry(seq!['t', 'i', 't', 'l', 'e'], opt_str_shape(l.title))
}

pub open spec fn title_i18n_shape(l: LinkView) -> Option<JsonShape> {
    match l.title_i18n {
        Some(i) => Some(JsonShape::I18ns(seq![i])),
        None => None,
    }
}

pub open spec fn f_title_i18n(l: LinkView) -> Seq<(Seq<char>, JsonShape)> {
    opt_entry(seq!['t', 'i', 't', 'l', 'e', '*'], title_i18n_shape(l))
}

pub open spec fn hreflang_shape(l: LinkView) -> Option<JsonShape> {
    if l.hreflang.len() > 0 {
        Some(JsonShape::Strs(l.hreflang))
    } else {
        None
    }
}

pub open spec fn f_hreflang(l: LinkView) -> Seq<(Seq<char>, JsonShape)> {
    opt_entry(seq!['h', 'r', 'e', 'f', 'l', 'a', 'n', 'g'], hreflang_shape(l))
}

pub open spec fn f_media(l: LinkView) -> Seq<(Seq<char>, JsonShape)> {
    opt_entry(seq!['m', 'e', 'd', 'i', 'a'], opt_str_shape(l.media))
}

proof fn lemma_fixed_pieces(l: LinkView)
    ensures
        fixed_entries(l) == f_href(l) + f_type(l) + f_title(l) + f_title_i18n(l) + f_hreflang(l) + f_media(l),
        keys_avoid(f_href(l), seq!['t', 'y', 'p', 'e']),
        keys_avoid(f_href(l), seq!['t', 'i', 't', 'l', 'e']),
        keys_avoid(f_href(l), seq!['t', 'i', 't', 'l', 'e', '*']),
        keys_avoid(f_href(l), seq!['h', 'r', 'e', 'f', 'l', 'a', 'n', 'g']),
        keys_avoid(f_href(l), seq!['m', 'e', 'd', 'i', 'a']),
        keys_avoid(f_type(l), seq!['h', 'r', 'e', 'f']),
        keys_avoid(f_type(l), seq!['t', 'i', 't', 'l', 'e']),
        keys_avoid(f_type(l), seq!['t', 'i', 't', 'l', 'e', '*']),
        keys_avoid(f_type(l), seq!['h', 'r', 'e', 'f', 'l', 'a', 'n', 'g']),
        keys_avoid(f_type(l), seq!['m', 'e', 'd', 'i', 'a']),
        keys_avoid(f_title(l), seq!['h', 'r', 'e', 'f']),
        keys_avoid(f_title(l), seq!['t', 'y', 'p', 'e']),
        keys_avoid(f_title(l), seq!['t', 'i', 't', 'l', 'e', '*']),
        keys_avoid(f_title(l), seq!['h', 'r', 'e', 'f', 'l', 'a', 'n', 'g']),
        keys_avoid(f_title(l), seq!['m', 'e', 'd', 'i', 'a']),
        keys_avoid(f_title_i18n(l), seq!['h', 'r', 'e', 'f']),
        keys_avoid(f_title_i18n(l), seq!['t', 'y', 'p', 'e']),
        keys_avoid(f_title_i18n(l), seq!['t', 'i', 't', 'l', 'e']),
        keys_avoid(f_title_i18n(l), seq!['h', 'r', 'e', 'f', 'l', 'a', 'n', 'g']),
        keys_avoid(f_title_i18n(l), seq!['m', 'e', 'd', 'i', 'a']),
        keys_avoid(f_hreflang(l), seq!['h', 'r', 'e', 'f']),
        keys_avoid(f_hreflang(l), seq!['t', 'y', 'p', 'e']),
        keys_avoid(f_hreflang(l), seq!['t', 'i', 't', 'l', 'e']),
        keys_avoid(f_hreflang(l), seq!['t', 'i', 't', 'l', 'e', '*']),
        keys_avoid(f_hreflang(l), seq!['m', 'e', 'd', 'i', 'a']),
        keys_avoid(f_media(l), seq!['h', 'r', 'e', 'f']),
        keys_avoid(f_media(l), seq!['t', 'y', 'p', 'e']),
        keys_avoid(f_media(l), seq!['t', 'i', 't', 'l', 'e']),
        keys_avoid(f_media(l), seq!['t', 'i', 't', 'l', 'e', '*']),
        keys_avoid(f_media(l), seq!['h', 'r', 'e', 'f', 'l', 'a', 'n', 'g']),
        forall|m: int| 0 <= m < fixed_entries(l).len() ==> is_target_key((#[trigger] fixed_entries(l)[m]).0)
            && is_token(fixed_entries(l)[m].0),
{
    let href = seq!['h', 'r', 'e', 'f'];
    let ty = seq!['t', 'y', 'p', 'e'];
    let ti = seq!['t', 'i', 't', 'l', 'e'];
    let tis = seq!['t', 'i', 't', 'l', 'e', '*'];
    let hl = seq!['h', 'r', 'e', 'f', 'l', 'a', 'n', 'g'];
    let me = seq!['m', 'e', 'd', 'i', 'a'];
    assert(href != ty) by {
        assert(href[0] != ty[0]);
    }
    assert(ti != me) by {
        assert(ti[0] != me[0]);
    }
    assert(href.len() == 4 && ty.len() == 4 && ti.len() == 5 && me.len() == 5);
    assert(tis.len() == 6 && hl.len() == 8);
    assert(is_target_key(href) && is_target_key(ty) && is_target_key(ti) && is_target_key(tis) && is_target_key(hl) && is_target_key(me));
    assert(is_token(href) && is_token(ty) && is_token(ti) && is_token(tis) && is_token(hl) && is_token(me));
}

/// The keys of a target object are distinct.
proof fn lemma_want_unique(l: LinkView)
    requires
        link_json_ok(l),
    ensures
        group_keys_unique(link_json_entries(l)),
{
    lemma_link_json_entries(l);
    lemma_ext_json_keys(l);
    lemma_fixed_pieces(l);
    let ti = seq!['t', 'i', 't', 'l', 'e'];
    let tis = seq!['t', 'i', 't', 'l', 'e', '*'];
    let hl = seq!['h', 'r', 'e', 'f', 'l', 'a', 'n', 'g'];
    let me = seq!['m', 'e', 'd', 'i', 'a'];
    let (f0, o1, o2, o3, o4, o5) = (f_href(l), f_type(l), f_title(l), f_title_i18n(l), f_hreflang(l), f_media(l));
    lemma_keys_avoid_add(f0, o1, ti);
    lemma_keys_avoid_add(f0, o1, tis);
    lemma_keys_avoid_add(f0, o1, hl);
    lemma_keys_avoid_add(f0, o1, me);
    lemma_keys_avoid_add(f0 + o1, o2, tis);
    lemma_keys_avoid_add(f0 + o1, o2, hl);
    lemma_keys_avoid_add(f0 + o1, o2, me);
    lemma_keys_avoid_add(f0 + o1 + o2, o3, hl);
    lemma_keys_avoid_add(f0 + o1 + o2, o3, me);
    lemma_keys_avoid_add(f0 + o1 + o2 + o3, o4, me);
    lemma_unique_add(f0, o1);
    lemma_unique_add(f0 + o1, o2);
    lemma_unique_add(f0 + o1 + o2, o3);
    lemma_unique_add(f0 + o1 + o2 + o3, o4);
    lemma_unique_add(f0 + o1 + o2 + o3 + o4, o5);
    let fixed = fixed_entries(l);
    let x = ext_json_entries(l);
    assert forall|m: int| 0 <= m < x.len() implies keys_avoid(fixed, (#[trigger] x[m]).0) by {
        assert(!is_target_key(x[m].0));
    }
    lemma_unique_add(fixed, x);
}

proof fn lemma_x_avoids(l: LinkView, k: Seq<char>)
    requires
        link_json_ok(l),
        is_target_key(k),
    ensures
        keys_avoid(ext_json_entries(l), k),
{
    lemma_ext_json_keys(l);
}

proof fn lemma_read_type(es: Seq<(String, JsonValue)>, l: LinkView)
    requires
        entries_have_shapes(es, link_json_entries(l)),
        link_json_ok(l),
    ensures
        type_field(es) == Some(l.type_),
{
    let ty = seq!['t', 'y', 'p', 'e'];
    lemma_link_json_entries(l);
    lemma_want_unique(l);
    lemma_fixed_pieces(l);
    lemma_x_avoids(l, ty);
    let x = ext_json_entries(l);
    let (f0, o1, o2, o3, o4, o5) = (f_href(l), f_type(l), f_title(l), f_title_i18n(l), f_hreflang(l), f_media(l));
    let t = o2 + o3 + o4 + o5 + x;
    lemma_keys_avoid_add(o2, o3, ty);
    lemma_keys_avoid_add(o2 + o3, o4, ty);
    lemma_keys_avoid_add(o2 + o3 + o4, o5, ty);
    lemma_keys_avoid_add(o2 + o3 + o4 + o5, x, ty);
    assert(link_json_entries(l) =~= f0 + o1 + t);
    lemma_field_read(es, link_json_entries(l), f0, ty, opt_str_shape(l.type_), t);
}

proof fn lemma_read_title(es: Seq<(String, JsonValue)>, l: LinkView)
    requires
        entries_have_shapes(es, link_json_entries(l)),
        link_json_ok(l),
    ensures
        str_field(es, seq!['t', 'i', 't', 'l', 'e']) == Some(l.title),
{
    let ti = seq!['t', 'i', 't', 'l', 'e'];
    lemma_link_json_entries(l);
    lemma_want_unique(l);
    lemma_fixed_pieces(l);
    lemma_x_avoids(l, ti);
    let x = ext_json_entries(l);
    let (f0, o1, o2, o3, o4, o5) = (f_href(l), f_type(l), f_title(l), f_title_i18n(l), f_hreflang(l), f_media(l));
    let a = f0 + o1;
    let t = o3 + o4 + o5 + x;
    lemma_keys_avoid_add(f0, o1, ti);
    lemma_keys_avoid_add(o3, o4, ti);
    lemma_keys_avoid_add(o3 + o4, o5, ti);
    lemma_keys_avoid_add(o3 + o4 + o5, x, ti);
    assert(link_json_entries(l) =~= a + o2 + t);
    lemma_field_read(es, link_json_entries(l), a, ti, opt_str_shape(l.title), t);
}

proof fn lemma_read_title_i18n(es: Seq<(String, JsonValue)>, l: LinkView)
    requires
        entries_have_shapes(es, link_json_entries(l)),
        link_json_ok(l),
    ensures
        title_i18n_field(es) == Some(l.title_i18n),
{
    let tis = seq!['t', 'i', 't', 'l', 'e', '*'];
    lemma_link_json_entries(l);
    lemma_want_unique(l);
    lemma_fixed_pieces(l);
    lemma_x_avoids(l, tis);
    let x = ext_json_entries(l);
    let (f0, o1, o2, o3, o4, o5) = (f_href(l), f_type(l), f_title(l), f_title_i18n(l), f_hreflang(l), f_media(l));
    let a = f0 + o1 + o2;
    let t = o4 + o5 + x;
    lemma_keys_avoid_add(f0, o1, tis);
    lemma_keys_avoid_add(f0 + o1, o2, tis);
    lemma_keys_avoid_add(o4, o5, tis);
    lemma_keys_avoid_add(o4 + o5, x, tis);
    assert(link_json_entries(l) =~= a + o3 + t);
    lemma_field_read(es, link_json_entries(l), a, tis, title_i18n_shape(l), t);
    if let Some(i) = l.title_i18n {
        let tv = obj_get(es, tis)->0;
        lemma_i18n_read(tv->Array_0@[0], i);
    }
}

proof fn lemma_read_hreflang(es: Seq<(String, JsonValue)>, l: LinkView)
    requires
        entries_have_shapes(es, link_json_entries(l)),
        link_json_ok(l),
    ensures
        hreflang_field(es) == Some(l.hreflang),
{
    let hl = seq!['h', 'r', 'e', 'f', 'l', 'a', 'n', 'g'];
    lemma_link_json_entries(l);
    lemma_want_unique(l);
    lemma_fixed_pieces(l);
    lemma_x_avoids(l, hl);
    let x = ext_json_entries(l);
    let (f0, o1, o2, o3, o4, o5) = (f_href(l), f_type(l), f_title(l), f_title_i18n(l), f_hreflang(l), f_media(l));
    let a = f0 + o1 + o2 + o3;
    let t = o5 + x;
    lemma_keys_avoid_add(f0, o1, hl);
    lemma_keys_avoid_add(f0 + o1, o2, hl);
    lemma_keys_avoid_add(f0 + o1 + o2, o3, hl);
    lemma_keys_avoid_add(o5, x, hl);
    assert(link_json_entries(l) =~= a + o4 + t);
    lemma_field_read(es, link_json_entries(l), a, hl, hreflang_shape(l), t);
    if l.hreflang.len() > 0 {
        let hv = obj_get(es, hl)->0;
        lemma_strs_read(hv, l.hreflang);
        assert(tags_of_json(hv->Array_0@) == Some(l.hreflang));
    } else {
        assert(l.hreflang =~= Seq::<Seq<char>>::empty());
    }
}

proof fn lemma_read_media(es: Seq<(String, JsonValue)>, l: LinkView)
    requires
        entries_have_shapes(es, link_json_entries(l)),
        link_json_ok(l),
    ensures
        str_field(es, seq!['m', 'e', 'd', 'i', 'a']) == Some(l.media),
{
    let me = seq!['m', 'e', 'd', 'i', 'a'];
    lemma_link_json_entries(l);
    lemma_want_unique(l);
    lemma_fixed_pieces(l);
    lemma_x_avoids(l, me);
    let x = ext_json_entries(l);
    let (f0, o1, o2, o3, o4, o5) = (f_href(l), f_type(l), f_title(l), f_title_i18n(l), f_hreflang(l), f_media(l));
    let a = f0 + o1 + o2 + o3 + o4;
    lemma_keys_avoid_add(f0, o1, me);
    lemma_keys_avoid_add(f0 + o1, o2, me);
    lemma_keys_avoid_add(f0 + o1 + o2, o3, me);
    lemma_keys_avoid_add(f0 + o1 + o2 + o3, o4, me);
    assert(link_json_entries(l) =~= a + o5 + x);
    lemma_field_read(es, link_json_entries(l), a, me, opt_str_shape(l.media), x);
}

proof fn lemma_read_exts(es: Seq<(String, JsonValue)>, l: LinkView)
    requires
        entries_have_shapes(es, link_json_entries(l)),
        link_json_ok(l),
    ensures
        ext_attrs(es, Seq::empty()) == Outcome::Done(plain_entries(plain_exts(l.exts)) + i18n_entries(i18n_exts(l.exts))),
{
    lemma_link_json_entries(l);
    lemma_ext_json_keys(l);
    lemma_fixed_pieces(l);
    let fixed = fixed_entries(l);
    let x = ext_json_entries(l);
    lemma_ext_attrs_skip(es, fixed + x, fixed.len() as int, Seq::empty());
    let rest = es.skip(fixed.len() as int);
    assert(entries_have_shapes(rest, x)) by {
        assert forall|i: int| 0 <= i < rest.len() implies (#[trigger] rest[i]).0@ == x[i].0 && has_shape(rest[i].1, x[i].1) by {
            assert(rest[i] == es[fixed.len() + i]);
            assert((fixed + x)[fixed.len() + i] == x[i]);
        }
    }
    lemma_ext_attrs_read(rest, x, Seq::empty());
    let conv = x.map_values(|e: (Seq<char>, JsonShape)| (e.0, ext_value_of(e.1)));
    assert(Seq::<(Seq<char>, ExtValuesView)>::empty() + conv =~= plain_entries(plain_exts(l.exts)) + i18n_entries(i18n_exts(l.exts)));
}

/// A target object reads back into its link, its extension attributes
/// ordered as the format writes them.
pub proof fn lemma_link_read(v: JsonValue, l: LinkView)
    requires
        is_link_json(v, l),
        link_json_ok(l),
    ensures
        link_of_json(v, l.rel, None) == Outcome::Done(norm_link(l)),
{
    let es = v->Object_0@;
    lemma_want_unique(l);
    lemma_link_json_entries(l);
    lemma_fixed_pieces(l);
    assert(link_json_entries(l)[0] == (seq!['h', 'r', 'e', 'f'], JsonShape::Str(l.target)));
    lemma_obj_get_at(es, link_json_entries(l), 0);
    assert(resolve_spec(None, l.target) == Some(l.target));
    lemma_read_type(es, l);
    lemma_read_title(es, l);
    lemma_read_title_i18n(es, l);
    lemma_read_hreflang(es, l);
    lemma_read_media(es, l);
    lemma_read_exts(es, l);
}

} // verus!
