//! The `application/linkset+json` format (RFC 9264 §4.2): link sets from and
//! to JSON values.
//!
//! A link set is an object with a `"linkset"` array of context objects; a
//! context object has an `"anchor"` and, for each relation type, an array of
//! target objects; a target object has an `"href"`, the link's attributes and
//! its extension attributes. The entries of an object are read in order.

pub mod round_trip;
pub mod round_trip_sets;

use vstd::prelude::*;

use crate::error::LinksetError;
use crate::external::{is_valid_language_tag, is_valid_uri};
use crate::model::ext_token::{ext_key_problem, is_token, is_valid_token, is_well_known_i18n_key, is_well_known_key};
use crate::model::ext_values::{ExtValuesView, entries_key_index, lemma_entries_key_index, i18ns_view, strings_view};
use crate::model::lang::{I18nString, I18nView, LanguageTag};
use crate::model::link::{Link, LinkView, bare_link, entries_insert, opt_i18n_view, opt_media_view, opt_str_view, tags_view};
use crate::model::ext_token::{is_well_known_i18n_key_exec, is_well_known_key_exec};
use crate::model::link_context::{ContextView, LinkContext, first_dup_from, links_view};
use crate::model::media_type::{MediaType, is_media_type};
use crate::model::rel_type::{RelType, RelTypeView, rel_of_str, rel_text};
use crate::model::link::{i18n_exts, plain_exts};
use crate::text::convert::append_group;
use crate::model::uri::{Uri, base_ok, base_view, check_base, resolve, resolve_spec};
use crate::model::{Linkset, contexts_view, from_contexts_ok};
use crate::strs::{ascii_lowercase, ends_with_char, str_ends_with_char, str_eq, to_ascii_lowercase};
use crate::external::push_char;
use crate::message::{cat, cat_debug, invalid_uri_msg, push_debug, push_decimal};
use crate::text::write::push_all;
use crate::model::ext_token::validate_ext_attribute;

verus! {

/// A JSON value. Numbers are held as their text; objects as their entries,
/// in order.
#[derive(Debug)]
pub enum JsonValue {
    Null,
    Bool(bool),
    Number(String),
    String(String),
    Array(Vec<JsonValue>),
    Object(Vec<(String, JsonValue)>),
}

/// The entries of an object with their keys as characters.
pub open spec fn json_entries(es: Seq<(String, JsonValue)>) -> Seq<(Seq<char>, JsonValue)> {
    es.map_values(|e: (String, JsonValue)| (e.0@, e.1))
}

/// The value of the first entry with key `k`, if any.
pub open spec fn obj_get(es: Seq<(String, JsonValue)>, k: Seq<char>) -> Option<JsonValue> {
    let i = entries_key_index(json_entries(es), k);
    if i >= 0 {
        Some(es[i].1)
    } else {
        None
    }
}

/// The characters of a string value.
pub open spec fn str_of(v: JsonValue) -> Option<Seq<char>> {
    match v {
        JsonValue::String(s) => Some(s@),
        _ => None,
    }
}

/// The characters of an optional string value.
pub open spec fn opt_str_of(v: Option<JsonValue>) -> Option<Seq<char>> {
    match v {
        Some(x) => str_of(x),
        None => None,
    }
}

/// What reading a JSON value gives: a result, an invalid value, the same link
/// twice in a context (its anchor and the link), or an extension key whose
/// lower-case form names a reserved attribute (such as `Title`), which is
/// refused.
pub enum Outcome<T> {
    Done(T),
    Invalid,
    Duplicate(Seq<char>, LinkView),
    ReservedExtKey,
}

// ── Internationalised values ────────────────────────────────────────────────

/// An object `{"value": ..., "language": ...}` as an internationalised string.
pub open spec fn i18n_of_json(v: JsonValue) -> Option<I18nView> {
    match v {
        JsonValue::Object(es) => match (opt_str_of(obj_get(es@, seq!['v', 'a', 'l', 'u', 'e'])),
            opt_str_of(obj_get(es@, seq!['l', 'a', 'n', 'g', 'u', 'a', 'g', 'e']))) {
            (Some(value), Some(language)) => if is_valid_language_tag(language) {
                Some(I18nView { value, language })
            } else {
                None
            },
            _ => None,
        },
        _ => None,
    }
}

/// Every value is an internationalised string.
pub open spec fn i18ns_of_json(vs: Seq<JsonValue>) -> Option<Seq<I18nView>> {
    if forall|i: int| 0 <= i < vs.len() ==> (#[trigger] i18n_of_json(vs[i])) is Some {
        Some(vs.map_values(|v: JsonValue| i18n_of_json(v)->0))
    } else {
        None
    }
}

/// Every value is a string.
pub open spec fn strs_of_json(vs: Seq<JsonValue>) -> Option<Seq<Seq<char>>> {
    if forall|i: int| 0 <= i < vs.len() ==> (#[trigger] str_of(vs[i])) is Some {
        Some(vs.map_values(|v: JsonValue| str_of(v)->0))
    } else {
        None
    }
}

/// Every value is a string holding a valid language tag.
pub open spec fn tags_of_json(vs: Seq<JsonValue>) -> Option<Seq<Seq<char>>> {
    match strs_of_json(vs) {
        Some(ts) => if forall|i: int| 0 <= i < ts.len() ==> is_valid_language_tag(#[trigger] ts[i]) {
            Some(ts)
        } else {
            None
        },
        None => None,
    }
}

// ── Target objects ───────────────────────────────────────────────────────────

/// The `type` of a target object: absent, or a string holding a media type.
pub open spec fn type_field(es: Seq<(String, JsonValue)>) -> Option<Option<Seq<char>>> {
    match obj_get(es, seq!['t', 'y', 'p', 'e']) {
        None => Some(None),
        Some(v) => match str_of(v) {
            Some(s) => if is_media_type(s) {
                Some(Some(s))
            } else {
                None
            },
            None => None,
        },
    }
}

/// An optional string field.
pub open spec fn str_field(es: Seq<(String, JsonValue)>, k: Seq<char>) -> Option<Option<Seq<char>>> {
    match obj_get(es, k) {
        None => Some(None),
        Some(v) => match str_of(v) {
            Some(s) => Some(Some(s)),
            None => None,
        },
    }
}

/// The `title*` of a target object: absent, or an array of exactly one
/// internationalised string.
pub open spec fn title_i18n_field(es: Seq<(String, JsonValue)>) -> Option<Option<I18nView>> {
    match obj_get(es, seq!['t', 'i', 't', 'l', 'e', '*']) {
        None => Some(None),
        Some(JsonValue::Array(a)) => if a@.len() == 1 {
            match i18n_of_json(a@[0]) {
                Some(i) => Some(Some(i)),
                None => None,
            }
        } else {
            None
        },
        Some(_) => None,
    }
}

/// The `hreflang` of a target object: absent, or an array of language tags.
pub open spec fn hreflang_field(es: Seq<(String, JsonValue)>) -> Option<Seq<Seq<char>>> {
    match obj_get(es, seq!['h', 'r', 'e', 'f', 'l', 'a', 'n', 'g']) {
        None => Some(Seq::empty()),
        Some(JsonValue::Array(a)) => tags_of_json(a@),
        Some(_) => None,
    }
}

/// Keys of a target object that are not extension attributes: `href` and
/// the well-known attribute names.
pub open spec fn is_target_key(k: Seq<char>) -> bool {
    k == seq!['h', 'r', 'e', 'f'] || is_well_known_key(k) || is_well_known_i18n_key(k)
}

/// The values of an extension attribute: the elements of an array, or a
/// single object or string.
pub open spec fn ext_items(v: JsonValue) -> Option<Seq<JsonValue>> {
    match v {
        JsonValue::Array(a) => Some(a@),
        JsonValue::Object(_) => Some(seq![v]),
        JsonValue::String(_) => Some(seq![v]),
        _ => None,
    }
}

/// The extension attributes of a target object, read in order into `exts`:
/// each key must be a token; keys ending with `*` hold internationalised
/// strings, others strings; an attribute without values is skipped.
pub open spec fn ext_attrs(es: Seq<(String, JsonValue)>, exts: Seq<(Seq<char>, ExtValuesView)>) -> Outcome<Seq<(Seq<char>, ExtValuesView)>>
    decreases es.len(),
{
    if es.len() == 0 {
        Outcome::Done(exts)
    } else {
        let k = es[0].0@;
        if !is_token(k) {
            Outcome::Invalid
        } else if is_target_key(k) {
            ext_attrs(es.drop_first(), exts)
        } else {
            match ext_items(es[0].1) {
                None => Outcome::Invalid,
                Some(items) => if ends_with_char(k, '*') {
                    match i18ns_of_json(items) {
                        None => Outcome::Invalid,
                        Some(vs) => if vs.len() == 0 {
                            ext_attrs(es.drop_first(), exts)
                        } else if ext_key_problem(ascii_lowercase(k), true) is Some {
                            Outcome::ReservedExtKey
                        } else {
                            ext_attrs(es.drop_first(), entries_insert(exts, ascii_lowercase(k), ExtValuesView::I18n(vs)))
                        },
                    }
                } else {
                    match strs_of_json(items) {
                        None => Outcome::Invalid,
                        Some(vs) => if vs.len() == 0 {
                            ext_attrs(es.drop_first(), exts)
                        } else if ext_key_problem(ascii_lowercase(k), false) is Some {
                            Outcome::ReservedExtKey
                        } else {
                            ext_attrs(es.drop_first(), entries_insert(exts, ascii_lowercase(k), ExtValuesView::Plain(vs)))
                        },
                    }
                },
            }
        }
    }
}

/// The link that a target object gives for a relation type.
pub open spec fn link_of_json(v: JsonValue, rel: RelTypeView, base: Option<Seq<char>>) -> Outcome<LinkView> {
    match v {
        JsonValue::Object(es) => match opt_str_of(obj_get(es@, seq!['h', 'r', 'e', 'f'])) {
            None => Outcome::Invalid,
            Some(h) => match resolve_spec(base, h) {
                None => Outcome::Invalid,
                Some(target) => match (type_field(es@), str_field(es@, seq!['t', 'i', 't', 'l', 'e']),
                    title_i18n_field(es@), hreflang_field(es@), str_field(es@, seq!['m', 'e', 'd', 'i', 'a'])) {
                    (Some(type_), Some(title), Some(title_i18n), Some(hreflang), Some(media)) => match ext_attrs(es@, Seq::empty()) {
                        Outcome::Done(exts) => Outcome::Done(LinkView {
                            target,
                            rel,
                            type_,
                            title,
                            title_i18n,
                            hreflang,
                            media,
                            exts,
                        }),
                        Outcome::ReservedExtKey => Outcome::ReservedExtKey,
                        _ => Outcome::Invalid,
                    },
                    _ => Outcome::Invalid,
                },
            },
        },
        _ => Outcome::Invalid,
    }
}

// ── Context objects and documents ───────────────────────────────────────────

/// The links of the target objects of one relation type, added in order to `acc`.
pub open spec fn targets_links(a: Seq<JsonValue>, rel: RelTypeView, base: Option<Seq<char>>, acc: Seq<LinkView>) -> Outcome<Seq<LinkView>>
    decreases a.len(),
{
    if a.len() == 0 {
        Outcome::Done(acc)
    } else {
        match link_of_json(a[0], rel, base) {
            Outcome::Done(l) => targets_links(a.drop_first(), rel, base, acc.push(l)),
            Outcome::Invalid => Outcome::Invalid,
            Outcome::ReservedExtKey => Outcome::ReservedExtKey,
            Outcome::Duplicate(x, y) => Outcome::Duplicate(x, y),
        }
    }
}

/// The links of a context object, added in order to `acc`: every entry but
/// `anchor` is a relation type with an array of target objects.
pub open spec fn context_links(es: Seq<(String, JsonValue)>, base: Option<Seq<char>>, acc: Seq<LinkView>) -> Outcome<Seq<LinkView>>
    decreases es.len(),
{
    if es.len() == 0 {
        Outcome::Done(acc)
    } else if es[0].0@ == seq!['a', 'n', 'c', 'h', 'o', 'r'] {
        context_links(es.drop_first(), base, acc)
    } else {
        match rel_of_str(es[0].0@) {
            None => Outcome::Invalid,
            Some(rel) => match es[0].1 {
                JsonValue::Array(a) => match targets_links(a@, rel, base, acc) {
                    Outcome::Done(acc2) => context_links(es.drop_first(), base, acc2),
                    Outcome::Invalid => Outcome::Invalid,
                    Outcome::ReservedExtKey => Outcome::ReservedExtKey,
                    Outcome::Duplicate(x, y) => Outcome::Duplicate(x, y),
                },
                _ => Outcome::Invalid,
            },
        }
    }
}

/// The anchor of a context object: its `anchor` resolved against the base, or
/// without one, the empty reference resolved against the base.
pub open spec fn json_anchor(es: Seq<(String, JsonValue)>, base: Option<Seq<char>>) -> Option<Seq<char>> {
    match obj_get(es, seq!['a', 'n', 'c', 'h', 'o', 'r']) {
        None => if base is None {
            None
        } else {
            resolve_spec(base, Seq::empty())
        },
        Some(x) => match str_of(x) {
            Some(a) => resolve_spec(base, a),
            None => None,
        },
    }
}

/// The context that a context object gives.
pub open spec fn context_of_json(v: JsonValue, base: Option<Seq<char>>) -> Outcome<ContextView> {
    match v {
        JsonValue::Object(es) => match json_anchor(es@, base) {
            None => Outcome::Invalid,
            Some(anchor) => match context_links(es@, base, Seq::empty()) {
                Outcome::Done(links) => {
                    let d = first_dup_from(links, 0);
                    if d < 0 {
                        Outcome::Done(ContextView { anchor, links })
                    } else {
                        Outcome::Duplicate(anchor, links[d])
                    }
                },
                Outcome::Invalid => Outcome::Invalid,
                Outcome::ReservedExtKey => Outcome::ReservedExtKey,
                Outcome::Duplicate(x, y) => Outcome::Duplicate(x, y),
            },
        },
        _ => Outcome::Invalid,
    }
}

/// The contexts of context objects, added in order to `acc`.
pub open spec fn contexts_of_json(a: Seq<JsonValue>, base: Option<Seq<char>>, acc: Seq<ContextView>) -> Outcome<Seq<ContextView>>
    decreases a.len(),
{
    if a.len() == 0 {
        Outcome::Done(acc)
    } else {
        match context_of_json(a[0], base) {
            Outcome::Done(c) => contexts_of_json(a.drop_first(), base, acc.push(c)),
            Outcome::Invalid => Outcome::Invalid,
            Outcome::ReservedExtKey => Outcome::ReservedExtKey,
            Outcome::Duplicate(x, y) => Outcome::Duplicate(x, y),
        }
    }
}

/// The contexts of a document `{"linkset": [...]}`.
pub open spec fn linkset_of_json(v: JsonValue, base: Option<Seq<char>>) -> Outcome<Seq<ContextView>> {
    match v {
        JsonValue::Object(es) => match obj_get(es@, seq!['l', 'i', 'n', 'k', 's', 'e', 't']) {
            Some(JsonValue::Array(a)) => contexts_of_json(a@, base, Seq::empty()),
            _ => Outcome::Invalid,
        },
        _ => Outcome::Invalid,
    }
}

/// What reading a JSON document gives: a JSON error for an invalid value or a
/// reserved extension key, the first link found twice in a context, else the
/// link set that the contexts build (contexts with the same anchor merged;
/// `Empty` without contexts).
pub open spec fn json_result_ok(r: Result<Linkset, LinksetError>, v: JsonValue, base: Option<Seq<char>>) -> bool {
    match linkset_of_json(v, base) {
        Outcome::Done(cs) => from_contexts_ok(r, cs),
        Outcome::Duplicate(a, l) => r matches Err(LinksetError::DuplicateLink(x, rel, t)) && x@ == a
            && rel@ == l.rel && t@ == l.target,
        _ => r matches Err(LinksetError::Json(_)),
    }
}

// ── Writing JSON values ─────────────────────────────────────────────────────

/// The shape of the value of an entry that the writer produces.
pub enum JsonShape {
    /// A string.
    Str(Seq<char>),
    /// An array of strings.
    Strs(Seq<Seq<char>>),
    /// An array of internationalised strings.
    I18ns(Seq<I18nView>),
}

/// `v` is the object `{"language": ..., "value": ...}` of an internationalised string.
pub open spec fn is_i18n_json(v: JsonValue, i: I18nView) -> bool {
    &&& v matches JsonValue::Object(es)
    &&& es@.len() == 2
    &&& es@[0].0@ == seq!['l', 'a', 'n', 'g', 'u', 'a', 'g', 'e'] && str_of(es@[0].1) == Some(i.language)
    &&& es@[1].0@ == seq!['v', 'a', 'l', 'u', 'e'] && str_of(es@[1].1) == Some(i.value)
}

/// `v` has the shape `sh`.
pub open spec fn has_shape(v: JsonValue, sh: JsonShape) -> bool {
    match sh {
        JsonShape::Str(s) => str_of(v) == Some(s),
        JsonShape::Strs(ss) => v matches JsonValue::Array(a) && a@.len() == ss.len()
            && forall|i: int| 0 <= i < ss.len() ==> str_of(#[trigger] a@[i]) == Some(ss[i]),
        JsonShape::I18ns(is) => v matches JsonValue::Array(a) && a@.len() == is.len()
            && forall|i: int| 0 <= i < is.len() ==> is_i18n_json(#[trigger] a@[i], is[i]),
    }
}

/// Entries with these keys and values of these shapes, in this order.
pub open spec fn entries_have_shapes(es: Seq<(String, JsonValue)>, want: Seq<(Seq<char>, JsonShape)>) -> bool {
    &&& es.len() == want.len()
    &&& forall|i: int| 0 <= i < es.len() ==> (#[trigger] es[i]).0@ == want[i].0 && has_shape(es[i].1, want[i].1)
}

/// Inserting into an object: an existing key keeps its place and gets the new
/// value, a new key is appended.
pub open spec fn map_insert<V>(e: Seq<(Seq<char>, V)>, k: Seq<char>, v: V) -> Seq<(Seq<char>, V)> {
    let i = entries_key_index(e, k);
    if i >= 0 {
        e.update(i, (k, v))
    } else {
        e.push((k, v))
    }
}

/// Insert entries in order.
pub open spec fn map_insert_all<V>(e: Seq<(Seq<char>, V)>, more: Seq<(Seq<char>, V)>) -> Seq<(Seq<char>, V)>
    decreases more.len(),
{
    if more.len() == 0 {
        e
    } else {
        map_insert(map_insert_all(e, more.drop_last()), more.last().0, more.last().1)
    }
}

/// An optional entry.
pub open spec fn opt_entry(k: Seq<char>, v: Option<JsonShape>) -> Seq<(Seq<char>, JsonShape)> {
    match v {
        Some(x) => seq![(k, x)],
        None => Seq::empty(),
    }
}

pub open spec fn opt_str_shape(v: Option<Seq<char>>) -> Option<JsonShape> {
    match v {
        Some(s) => Some(JsonShape::Str(s)),
        None => None,
    }
}

/// The entries of a target object, in the order of insertion: `href`,
/// `type`, `title`, `title*`, `hreflang` (when there are tags), `media`,
/// the plain extension attributes, then the internationalised ones.
pub open spec fn link_json_entries(l: LinkView) -> Seq<(Seq<char>, JsonShape)> {
    let fixed = seq![(seq!['h', 'r', 'e', 'f'], JsonShape::Str(l.target))]
        + opt_entry(seq!['t', 'y', 'p', 'e'], opt_str_shape(l.type_))
        + opt_entry(seq!['t', 'i', 't', 'l', 'e'], opt_str_shape(l.title))
        + opt_entry(seq!['t', 'i', 't', 'l', 'e', '*'], match l.title_i18n {
            Some(i) => Some(JsonShape::I18ns(seq![i])),
            None => None,
        })
        + opt_entry(seq!['h', 'r', 'e', 'f', 'l', 'a', 'n', 'g'], if l.hreflang.len() > 0 {
            Some(JsonShape::Strs(l.hreflang))
        } else {
            None
        })
        + opt_entry(seq!['m', 'e', 'd', 'i', 'a'], opt_str_shape(l.media));
    let exts = plain_exts(l.exts).map_values(|g: (Seq<char>, Seq<Seq<char>>)| (g.0, JsonShape::Strs(g.1)))
        + i18n_exts(l.exts).map_values(|g: (Seq<char>, Seq<I18nView>)| (g.0, JsonShape::I18ns(g.1)));
    map_insert_all(fixed, exts)
}

/// `v` is the target object of link `l`.
pub open spec fn is_link_json(v: JsonValue, l: LinkView) -> bool {
    v matches JsonValue::Object(es) && entries_have_shapes(es@, link_json_entries(l))
}

/// The links grouped by the text of their relation type, groups in the order
/// of their first link.
pub open spec fn rel_groups(links: Seq<LinkView>) -> Seq<(Seq<char>, Seq<LinkView>)>
    decreases links.len(),
{
    if links.len() == 0 {
        Seq::empty()
    } else {
        append_group(rel_groups(links.drop_last()), rel_text(links.last().rel), links.last())
    }
}

/// `v` is the array of the target objects of `links`.
pub open spec fn is_links_json(v: JsonValue, links: Seq<LinkView>) -> bool {
    v matches JsonValue::Array(a) && a@.len() == links.len()
        && forall|i: int| 0 <= i < links.len() ==> is_link_json(#[trigger] a@[i], links[i])
}

/// `v` is the context object of `c`: its `anchor`, then one entry per
/// relation type with the target objects of its links.
pub open spec fn is_context_json(v: JsonValue, c: ContextView) -> bool {
    let g = rel_groups(c.links);
    &&& v matches JsonValue::Object(es)
    &&& es@.len() == g.len() + 1
    &&& es@[0].0@ == seq!['a', 'n', 'c', 'h', 'o', 'r'] && str_of(es@[0].1) == Some(c.anchor)
    &&& forall|i: int| 0 <= i < g.len() ==> (#[trigger] es@[i + 1]).0@ == g[i].0 && is_links_json(es@[i + 1].1, g[i].1)
}

/// `v` is the document `{"linkset": [...]}` of the contexts `cs`.
pub open spec fn is_linkset_json(v: JsonValue, cs: Seq<ContextView>) -> bool {
    &&& v matches JsonValue::Object(es)
    &&& es@.len() == 1
    &&& es@[0].0@ == seq!['l', 'i', 'n', 'k', 's', 'e', 't']
    &&& es@[0].1 matches JsonValue::Array(a) && a@.len() == cs.len()
        && forall|i: int| 0 <= i < cs.len() ==> is_context_json(#[trigger] a@[i], cs[i])
}

/// No link has the relation type `anchor`, whose array would take the place
/// of the context's anchor.
pub open spec fn no_anchor_rel(cs: Seq<ContextView>) -> bool {
    forall|i: int, j: int| 0 <= i < cs.len() && 0 <= j < cs[i].links.len()
        ==> rel_text(#[trigger] cs[i].links[j].rel) != seq!['a', 'n', 'c', 'h', 'o', 'r']
}

// ── Reading JSON values ─────────────────────────────────────────────────────

/// The names that the JSON format uses.
proof fn lemma_json_names()
    ensures
        "value"@ == seq!['v', 'a', 'l', 'u', 'e'],
        "language"@ == seq!['l', 'a', 'n', 'g', 'u', 'a', 'g', 'e'],
        "type"@ == seq!['t', 'y', 'p', 'e'],
        "title"@ == seq!['t', 'i', 't', 'l', 'e'],
        "title*"@ == seq!['t', 'i', 't', 'l', 'e', '*'],
        "hreflang"@ == seq!['h', 'r', 'e', 'f', 'l', 'a', 'n', 'g'],
        "media"@ == seq!['m', 'e', 'd', 'i', 'a'],
        "href"@ == seq!['h', 'r', 'e', 'f'],
        "anchor"@ == seq!['a', 'n', 'c', 'h', 'o', 'r'],
        "linkset"@ == seq!['l', 'i', 'n', 'k', 's', 'e', 't'],
{
    reveal_strlit("value");
    reveal_strlit("language");
    reveal_strlit("type");
    reveal_strlit("title");
    reveal_strlit("title*");
    reveal_strlit("hreflang");
    reveal_strlit("media");
    reveal_strlit("href");
    reveal_strlit("anchor");
    reveal_strlit("linkset");
    assert("value"@ =~= seq!['v', 'a', 'l', 'u', 'e']);
    assert("language"@ =~= seq!['l', 'a', 'n', 'g', 'u', 'a', 'g', 'e']);
    assert("type"@ =~= seq!['t', 'y', 'p', 'e']);
    assert("title"@ =~= seq!['t', 'i', 't', 'l', 'e']);
    assert("title*"@ =~= seq!['t', 'i', 't', 'l', 'e', '*']);
    assert("hreflang"@ =~= seq!['h', 'r', 'e', 'f', 'l', 'a', 'n', 'g']);
    assert("media"@ =~= seq!['m', 'e', 'd', 'i', 'a']);
    assert("href"@ =~= seq!['h', 'r', 'e', 'f']);
    assert("anchor"@ =~= seq!['a', 'n', 'c', 'h', 'o', 'r']);
    assert("linkset"@ =~= seq!['l', 'i', 'n', 'k', 's', 'e', 't']);
}

/// The value of the first entry with key `k`, if any.
fn obj_get_exec<'a>(es: &'a Vec<(String, JsonValue)>, k: &str) -> (r: Option<&'a JsonValue>)
    ensures
        match r {
            Some(v) => obj_get(es@, k@) == Some(*v),
            None => obj_get(es@, k@) is None,
        },
{
    let ghost e = json_entries(es@);
    let mut i: usize = 0;
    while i < es.len()
        invariant
            i <= es.len(),
            e == json_entries(es@),
            forall|j: int| 0 <= j < i ==> (#[trigger] e[j]).0 != k@,
        decreases es.len() - i,
    {
        if str_eq(es[i].0.as_str(), k) {
            proof {
                lemma_entries_key_index(e, k@);
                let r = entries_key_index(e, k@);
                assert(e[i as int].0 == k@);
                if r == -1 {
                    assert(e[i as int].0 != k@);
                }
                if 0 <= r < i {
                    assert(e[r].0 != k@);
                }
                assert(r == i);
            }
            return Some(&es[i].1);
        }
        assert(e[i as int].0 == es@[i as int].0@);
        i = i + 1;
    }
    proof {
        lemma_entries_key_index(e, k@);
    }
    None
}

/// Read an internationalised string `{"value": ..., "language": ...}`.
/// On failure, the message says what is wrong, from the value's place on.
pub fn parse_i18n_value(v: &JsonValue) -> (r: Result<I18nString, &'static str>)
    ensures
        match r {
            Ok(x) => i18n_of_json(*v) == Some(x@),
            Err(_) => i18n_of_json(*v) is None,
        },
{
    proof {
        lemma_json_names();
    }
    match v {
        JsonValue::Object(es) => {
            let value = match obj_get_exec(es, "value") {
                Some(JsonValue::String(s)) => s,
                Some(_) => {
                    return Err(".value: must be a string");
                },
                None => {
                    return Err(": i18n value missing \"value\" field");
                },
            };
            let language = match obj_get_exec(es, "language") {
                Some(JsonValue::String(s)) => s,
                Some(_) => {
                    return Err(".language: must be a string");
                },
                None => {
                    return Err(": i18n value missing \"language\" field");
                },
            };
            match LanguageTag::new(language.clone()) {
                Ok(t) => Ok(I18nString::new(value.clone(), t)),
                Err(_) => Err(".language: must be a valid BCP47 language tag"),
            }
        },
        _ => Err(": i18n value must be an object"),
    }
}

/// `[j]` followed by `rest`.
fn index_msg(j: usize, rest: &str) -> String {
    let mut out = String::new();
    push_char(&mut out, '[');
    push_decimal(&mut out, j);
    push_char(&mut out, ']');
    push_all(&mut out, rest);
    out
}

/// Read the values of an extension attribute holding strings. On failure,
/// the message says what is wrong, from the attribute's place on.
fn read_ext_strings(v: &JsonValue) -> (r: Result<Vec<String>, String>)
    ensures
        match ext_items(*v) {
            Some(items) => match strs_of_json(items) {
                Some(vs) => r matches Ok(x) && strings_view(x@) == vs,
                None => r is Err,
            },
            None => r is Err,
        },
{
    match v {
        JsonValue::Array(a) => {
            let mut out: Vec<String> = Vec::new();
            let mut j: usize = 0;
            while j < a.len()
                invariant
                    j <= a.len(),
                    out@.len() == j,
                    forall|m: int| 0 <= m < j ==> str_of(#[trigger] a@[m]) == Some(out@[m]@),
                    ext_items(*v) == Some(a@),
                decreases a.len() - j,
            {
                match &a[j] {
                    JsonValue::String(s) => {
                        out.push(s.clone());
                    },
                    _ => {
                        assert(str_of(a@[j as int]) is None);
                        return Err(index_msg(j, ": must be a string"));
                    },
                }
                j = j + 1;
            }
            assert(strings_view(out@) =~= a@.map_values(|x: JsonValue| str_of(x)->0));
            Ok(out)
        },
        JsonValue::String(s) => {
            let out = vec![s.clone()];
            assert(str_of(seq![*v][0]) is Some);
            assert(strings_view(out@) =~= seq![*v].map_values(|x: JsonValue| str_of(x)->0));
            Ok(out)
        },
        JsonValue::Object(_) => {
            assert(str_of(seq![*v][0]) is None);
            Err(index_msg(0, ": must be a string"))
        },
        _ => Err(" (extension attribute): must be an array".to_owned()),
    }
}

/// Read the values of an extension attribute holding internationalised
/// strings. On failure, the message says what is wrong, from the attribute's
/// place on.
fn read_ext_i18ns(v: &JsonValue) -> (r: Result<Vec<I18nString>, String>)
    ensures
        match ext_items(*v) {
            Some(items) => match i18ns_of_json(items) {
                Some(vs) => r matches Ok(x) && i18ns_view(x@) == vs,
                None => r is Err,
            },
            None => r is Err,
        },
{
    match v {
        JsonValue::Array(a) => {
            let mut out: Vec<I18nString> = Vec::new();
            let mut j: usize = 0;
            while j < a.len()
                invariant
                    j <= a.len(),
                    out@.len() == j,
                    forall|m: int| 0 <= m < j ==> i18n_of_json(#[trigger] a@[m]) == Some(out@[m]@),
                    ext_items(*v) == Some(a@),
                decreases a.len() - j,
            {
                match parse_i18n_value(&a[j]) {
                    Ok(x) => {
                        out.push(x);
                    },
                    Err(m) => {
                        assert(i18n_of_json(a@[j as int]) is None);
                        return Err(index_msg(j, m));
                    },
                }
                j = j + 1;
            }
            assert(i18ns_view(out@) =~= a@.map_values(|x: JsonValue| i18n_of_json(x)->0));
            Ok(out)
        },
        JsonValue::Object(_) => {
            match parse_i18n_value(v) {
                Ok(x) => {
                    let out = vec![x];
                    assert(i18n_of_json(seq![*v][0]) is Some);
                    assert(i18ns_view(out@) =~= seq![*v].map_values(|y: JsonValue| i18n_of_json(y)->0));
                    Ok(out)
                },
                Err(m) => {
                    assert(i18n_of_json(seq![*v][0]) is None);
                    Err(index_msg(0, m))
                },
            }
        },
        JsonValue::String(_) => {
            assert(i18n_of_json(seq![*v][0]) is None);
            Err(index_msg(0, ": i18n value must be an object"))
        },
        _ => Err(" (extension attribute): must be an array".to_owned()),
    }
}

/// Read the `type` of a target object. On failure, the message says what is
/// wrong, from the object's place on.
fn read_type(es: &Vec<(String, JsonValue)>) -> (r: Result<Option<MediaType>, String>)
    ensures
        match type_field(es@) {
            Some(t) => r matches Ok(x) && opt_media_view(x) == t,
            None => r is Err,
        },
{
    proof {
        lemma_json_names();
    }
    match obj_get_exec(es, "type") {
        None => Ok(None),
        Some(JsonValue::String(s)) => match MediaType::new(s.clone()) {
            Ok(m) => Ok(Some(m)),
            Err(e) => Err(cat(".type: invalid media-type ", e.message().as_str())),
        },
        Some(_) => Err(".type: must be a string".to_owned()),
    }
}

/// Read an optional string field of an object. On failure, the message says
/// what is wrong, from the object's place on.
fn read_str_field(es: &Vec<(String, JsonValue)>, k: &str) -> (r: Result<Option<String>, String>)
    ensures
        match str_field(es@, k@) {
            Some(t) => r matches Ok(x) && opt_str_view(x) == t,
            None => r is Err,
        },
{
    match obj_get_exec(es, k) {
        None => Ok(None),
        Some(JsonValue::String(s)) => Ok(Some(s.clone())),
        Some(_) => {
            let mut m = cat(".", k);
            push_all(&mut m, ": must be a string");
            Err(m)
        },
    }
}

/// Read the `title*` of a target object. On failure, the message says what
/// is wrong, from the object's place on.
fn read_title_i18n(es: &Vec<(String, JsonValue)>) -> (r: Result<Option<I18nString>, String>)
    ensures
        match title_i18n_field(es@) {
            Some(t) => r matches Ok(x) && opt_i18n_view(x) == t,
            None => r is Err,
        },
{
    proof {
        lemma_json_names();
    }
    match obj_get_exec(es, "title*") {
        None => Ok(None),
        Some(JsonValue::Array(a)) => {
            if a.len() != 1 {
                return Err("[\"title*\"]: must contain exactly one value".to_owned());
            }
            match parse_i18n_value(&a[0]) {
                Ok(i) => Ok(Some(i)),
                Err(m) => Err(cat("[\"title*\"][0]", m)),
            }
        },
        Some(_) => Err("[\"title*\"]: must be an array".to_owned()),
    }
}

/// Read the `hreflang` of a target object. On failure, the message says what
/// is wrong, from the object's place on.
fn read_hreflang(es: &Vec<(String, JsonValue)>) -> (r: Result<Vec<LanguageTag>, String>)
    ensures
        match hreflang_field(es@) {
            Some(t) => r matches Ok(x) && tags_view(x@) == t,
            None => r is Err,
        },
{
    proof {
        lemma_json_names();
    }
    match obj_get_exec(es, "hreflang") {
        None => {
            let out: Vec<LanguageTag> = Vec::new();
            assert(tags_view(out@) =~= Seq::<Seq<char>>::empty());
            Ok(out)
        },
        Some(JsonValue::Array(a)) => {
            let mut out: Vec<LanguageTag> = Vec::new();
            let mut j: usize = 0;
            while j < a.len()
                invariant
                    j <= a.len(),
                    out@.len() == j,
                    forall|m: int| 0 <= m < j ==> str_of(#[trigger] a@[m]) == Some(out@[m]@)
                        && is_valid_language_tag(out@[m]@),
                    hreflang_field(es@) == tags_of_json(a@),
                decreases a.len() - j,
            {
                match &a[j] {
                    JsonValue::String(s) => match LanguageTag::new(s.clone()) {
                        Ok(t) => {
                            out.push(t);
                        },
                        Err(_) => {
                            proof {
                                let ts = a@.map_values(|x: JsonValue| str_of(x)->0);
                                if strs_of_json(a@) is Some {
                                    assert(ts[j as int] == s@);
                                }
                            }
                            return Err(hreflang_msg(j));
                        },
                    },
                    _ => {
                        assert(str_of(a@[j as int]) is None);
                        return Err(hreflang_msg(j));
                    },
                }
                j = j + 1;
            }
            proof {
                let ts = a@.map_values(|x: JsonValue| str_of(x)->0);
                assert(strs_of_json(a@) == Some(ts));
                assert(tags_view(out@) =~= ts);
            }
            Ok(out)
        },
        Some(_) => Err(".hreflang: must be an array".to_owned()),
    }
}

/// `.hreflang[j]: must be a string`.
fn hreflang_msg(j: usize) -> String {
    let mut out = String::new();
    push_all(&mut out, ".hreflang");
    let rest = index_msg(j, ": must be a string");
    push_all(&mut out, rest.as_str());
    out
}

/// Whether a key of a target object is `href` or a well-known attribute name.
fn is_target_key_exec(k: &str) -> (r: bool)
    ensures
        r == is_target_key(k@),
{
    proof {
        lemma_json_names();
    }
    str_eq(k, "href") || is_well_known_key_exec(k) || is_well_known_i18n_key_exec(k)
}

/// The place of a target object: `linkset[ctx][key][j]`, the key as `{:?}`
/// writes it.
fn target_path(ctx: usize, key: &str, j: usize) -> String {
    let mut out = String::new();
    push_all(&mut out, "linkset[");
    push_decimal(&mut out, ctx);
    push_all(&mut out, "][");
    push_debug(&mut out, key);
    push_all(&mut out, "][");
    push_decimal(&mut out, j);
    push_char(&mut out, ']');
    out
}

/// A JSON error at a place: the place, then what is wrong there.
fn err_at(place: &String, what: &str) -> (r: LinksetError)
    ensures
        r is Json,
{
    LinksetError::Json(cat(place.as_str(), what))
}

/// A JSON error about a key of an object: the place, the key as `{:?}` writes
/// it in brackets, then what is wrong there.
fn key_err(place: &String, key: &str, what: &str) -> (r: LinksetError)
    ensures
        r is Json,
{
    let mut m = cat(place.as_str(), "[");
    push_debug(&mut m, key);
    push_char(&mut m, ']');
    push_all(&mut m, what);
    LinksetError::Json(m)
}

/// Read one target object into a link of relation type `rel`; `ctx`, `key`
/// and `j` give its place in the document, for error messages.
pub(crate) fn parse_link_target(
    v: &JsonValue,
    rel: &RelType,
    base: Option<&Uri>,
    ctx: usize,
    key: &str,
    j: usize,
) -> (r: Result<Link, LinksetError>)
    requires
        base matches Some(b) ==> is_valid_uri(b@),
    ensures
        match link_of_json(*v, rel@, base_view(base)) {
            Outcome::Done(l) => r matches Ok(x) && x@ == l,
            _ => r matches Err(LinksetError::Json(_)),
        },
{
    broadcast use crate::model::link::lemma_link_view;

    proof {
        lemma_json_names();
    }
    let place = target_path(ctx, key, j);
    let es = match v {
        JsonValue::Object(es) => es,
        _ => {
            return Err(err_at(&place, ": must be an object"));
        },
    };
    let href = match obj_get_exec(es, "href") {
        Some(JsonValue::String(h)) => h,
        Some(_) => {
            return Err(err_at(&place, ".href: must be a string"));
        },
        None => {
            return Err(err_at(&place, ": missing \"href\""));
        },
    };
    let target = match resolve(base, href.as_str()) {
        Ok(t) => t,
        Err(_) => {
            return Err(LinksetError::Json(invalid_uri_msg(cat(place.as_str(), ".href: invalid URI ").as_str(), href.as_str())));
        },
    };
    let type_ = match read_type(es) {
        Ok(t) => t,
        Err(m) => {
            return Err(err_at(&place, m.as_str()));
        },
    };
    let title = match read_str_field(es, "title") {
        Ok(t) => t,
        Err(m) => {
            return Err(err_at(&place, m.as_str()));
        },
    };
    let title_i18n = match read_title_i18n(es) {
        Ok(t) => t,
        Err(m) => {
            return Err(err_at(&place, m.as_str()));
        },
    };
    let hreflang = match read_hreflang(es) {
        Ok(t) => t,
        Err(m) => {
            return Err(err_at(&place, m.as_str()));
        },
    };
    let media = match read_str_field(es, "media") {
        Ok(t) => t,
        Err(m) => {
            return Err(err_at(&place, m.as_str()));
        },
    };
    let mut link = Link::new(target, rel.copied());
    link.type_ = type_;
    link.title = title;
    link.title_i18n = title_i18n;
    link.hreflang = hreflang;
    link.media = media;
    let ghost fixed = link@;
    assert(fixed.exts == Seq::<(Seq<char>, ExtValuesView)>::empty());
    assert(es@.skip(0) =~= es@);
    let mut i: usize = 0;
    while i < es.len()
        invariant
            i <= es.len(),
            *v == JsonValue::Object(*es),
            link@ == (LinkView { exts: link@.exts, ..fixed }),
            ext_attrs(es@, Seq::empty()) == ext_attrs(es@.skip(i as int), link@.exts),
        decreases es.len() - i,
    {
        let ghost tail = es@.skip(i as int);
        assert(tail[0] == es@[i as int]);
        assert(tail.drop_first() =~= es@.skip(i + 1));
        let k = &es[i].0;
        let val = &es[i].1;
        if !is_valid_token(k.as_str()) {
            return Err(LinksetError::Json(cat_debug(cat(place.as_str(), ": invalid extension attribute key ").as_str(), k.as_str(), "")));
        }
        if !is_target_key_exec(k.as_str()) {
            if str_ends_with_char(k.as_str(), '*') {
                match read_ext_i18ns(val) {
                    Err(m) => {
                        return Err(key_err(&place, k.as_str(), m.as_str()));
                    },
                    Ok(vs) => {
                        if vs.len() > 0 {
                            let lk = to_ascii_lowercase(k.as_str());
                            if validate_ext_attribute(lk.as_str(), true).is_err() {
                                return Err(key_err(&place, k.as_str(), ": reserved extension attribute key"));
                            }
                            link.set_ext_i18n(k.as_str(), vs);
                        }
                    },
                }
            } else {
                match read_ext_strings(val) {
                    Err(m) => {
                        return Err(key_err(&place, k.as_str(), m.as_str()));
                    },
                    Ok(vs) => {
                        if vs.len() > 0 {
                            let lk = to_ascii_lowercase(k.as_str());
                            if validate_ext_attribute(lk.as_str(), false).is_err() {
                                return Err(key_err(&place, k.as_str(), ": reserved extension attribute key"));
                            }
                            link.set_ext(k.as_str(), vs);
                        }
                    },
                }
            }
        }
        i = i + 1;
    }
    assert(es@.skip(i as int) =~= Seq::<(String, JsonValue)>::empty());
    Ok(link)
}

proof fn lemma_targets_links_no_dup(a: Seq<JsonValue>, rel: RelTypeView, base: Option<Seq<char>>, acc: Seq<LinkView>)
    ensures
        !(targets_links(a, rel, base, acc) is Duplicate),
    decreases a.len(),
{
    if a.len() > 0 {
        if let Outcome::Done(l) = link_of_json(a[0], rel, base) {
            lemma_targets_links_no_dup(a.drop_first(), rel, base, acc.push(l));
        }
    }
}

/// Read the target objects of one relation type, under `key` in the context
/// object at `ctx`, into links.
fn read_targets(
    a: &Vec<JsonValue>,
    rel: &RelType,
    base: Option<&Uri>,
    links: &mut Vec<Link>,
    ctx: usize,
    key: &str,
) -> (r: Result<(), LinksetError>)
    requires
        base matches Some(b) ==> is_valid_uri(b@),
    ensures
        match targets_links(a@, rel@, base_view(base), links_view(old(links)@)) {
            Outcome::Done(ls) => r is Ok && links_view(final(links)@) == ls,
            _ => r matches Err(LinksetError::Json(_)),
        },
{
    let ghost bv = base_view(base);
    let ghost all = targets_links(a@, rel@, bv, links_view(links@));
    assert(a@.skip(0) =~= a@);
    let mut j: usize = 0;
    while j < a.len()
        invariant
            j <= a.len(),
            bv == base_view(base),
            base matches Some(b) ==> is_valid_uri(b@),
            all == targets_links(a@.skip(j as int), rel@, bv, links_view(links@)),
            all == targets_links(a@, rel@, bv, links_view(old(links)@)),
        decreases a.len() - j,
    {
        let ghost tail = a@.skip(j as int);
        assert(tail[0] == a@[j as int]);
        assert(tail.drop_first() =~= a@.skip(j + 1));
        let l = match parse_link_target(&a[j], rel, base, ctx, key, j) {
            Ok(l) => l,
            Err(e) => {
                return Err(e);
            },
        };
        let ghost before = links_view(links@);
        links.push(l);
        assert(links_view(links@) =~= before.push(l@));
        j = j + 1;
    }
    assert(a@.skip(j as int) =~= Seq::<JsonValue>::empty());
    Ok(())
}

/// The place of a context object: `linkset[ctx]`.
fn context_path(ctx: usize) -> String {
    let mut out = String::new();
    push_all(&mut out, "linkset[");
    push_decimal(&mut out, ctx);
    push_char(&mut out, ']');
    out
}

/// Read the context object at `ctx` into a link context.
pub(crate) fn parse_context(v: &JsonValue, base: Option<&Uri>, ctx: usize) -> (r: Result<LinkContext, LinksetError>)
    requires
        base matches Some(b) ==> is_valid_uri(b@),
    ensures
        match context_of_json(*v, base_view(base)) {
            Outcome::Done(c) => r matches Ok(x) && x@ == c,
            Outcome::Duplicate(a, l) => r matches Err(LinksetError::DuplicateLink(x, rel, t)) && x@ == a
                && rel@ == l.rel && t@ == l.target,
            _ => r matches Err(LinksetError::Json(_)),
        },
{
    proof {
        lemma_json_names();
        reveal_strlit("");
        assert(""@ =~= Seq::<char>::empty());
    }
    let ghost bv = base_view(base);
    let place = context_path(ctx);
    let es = match v {
        JsonValue::Object(es) => es,
        _ => {
            return Err(err_at(&place, ": must be an object"));
        },
    };
    let anchor = match obj_get_exec(es, "anchor") {
        None => match base {
            None => {
                return Err(err_at(&place, ": missing \"anchor\""));
            },
            Some(_) => match resolve(base, "") {
                Ok(u) => u,
                Err(_) => {
                    return Err(LinksetError::Json(invalid_uri_msg(cat(place.as_str(), ".anchor: invalid URI ").as_str(), "")));
                },
            },
        },
        Some(JsonValue::String(a)) => match resolve(base, a.as_str()) {
            Ok(u) => u,
            Err(_) => {
                return Err(LinksetError::Json(invalid_uri_msg(cat(place.as_str(), ".anchor: invalid URI ").as_str(), a.as_str())));
            },
        },
        Some(_) => {
            return Err(err_at(&place, ".anchor: must be a string"));
        },
    };
    assert(anchor@ == json_anchor(es@, bv)->0);
    let ghost all = context_links(es@, bv, Seq::empty());
    let mut links: Vec<Link> = Vec::new();
    assert(links_view(links@) =~= Seq::<LinkView>::empty());
    assert(es@.skip(0) =~= es@);
    let mut i: usize = 0;
    while i < es.len()
        invariant
            i <= es.len(),
            bv == base_view(base),
            base matches Some(b) ==> is_valid_uri(b@),
            all == context_links(es@.skip(i as int), bv, links_view(links@)),
            all == context_links(es@, bv, Seq::empty()),
            *v == JsonValue::Object(*es),
            json_anchor(es@, bv) == Some(anchor@),
        decreases es.len() - i,
    {
        proof {
            lemma_json_names();
        }
        let ghost tail = es@.skip(i as int);
        assert(tail[0] == es@[i as int]);
        assert(tail.drop_first() =~= es@.skip(i + 1));
        let key = &es[i].0;
        if !str_eq(key.as_str(), "anchor") {
            let rel = match RelType::new(key.clone()) {
                Some(r) => r,
                None => {
                    return Err(LinksetError::Json(cat_debug(cat(place.as_str(), ": invalid relation type ").as_str(), key.as_str(), "")));
                },
            };
            match &es[i].1 {
                JsonValue::Array(a) => {
                    proof {
                        lemma_targets_links_no_dup(a@, rel@, bv, links_view(links@));
                    }
                    match read_targets(a, &rel, base, &mut links, ctx, key.as_str()) {
                        Ok(()) => {},
                        Err(e) => {
                            return Err(e);
                        },
                    }
                },
                _ => {
                    return Err(key_err(&place, key.as_str(), ": must be an array"));
                },
            }
        }
        i = i + 1;
    }
    assert(es@.skip(i as int) =~= Seq::<(String, JsonValue)>::empty());
    LinkContext::new_with(anchor, links)
}

// ── Writing ─────────────────────────────────────────────────────────────────

/// Entries with the same keys in the same order have the key at the same position.
pub proof fn lemma_key_index_same_keys<A, B>(e1: Seq<(Seq<char>, A)>, e2: Seq<(Seq<char>, B)>, k: Seq<char>)
    requires
        e1.len() == e2.len(),
        forall|i: int| 0 <= i < e1.len() ==> (#[trigger] e1[i]).0 == e2[i].0,
    ensures
        entries_key_index(e1, k) == entries_key_index(e2, k),
    decreases e1.len(),
{
    if e1.len() > 0 {
        assert(e1[0].0 == e2[0].0);
        assert forall|i: int| 0 <= i < e1.drop_first().len() implies (#[trigger] e1.drop_first()[i]).0 == e2.drop_first()[i].0 by {
            assert(e1[i + 1].0 == e2[i + 1].0);
        }
        lemma_key_index_same_keys(e1.drop_first(), e2.drop_first(), k);
    }
}

/// The position of the first entry with key `k`, if any.
fn find_key(es: &Vec<(String, JsonValue)>, k: &str) -> (r: Option<usize>)
    ensures
        match r {
            Some(i) => entries_key_index(json_entries(es@), k@) == i,
            None => entries_key_index(json_entries(es@), k@) == -1,
        },
{
    let ghost e = json_entries(es@);
    let mut i: usize = 0;
    while i < es.len()
        invariant
            i <= es.len(),
            e == json_entries(es@),
            forall|j: int| 0 <= j < i ==> (#[trigger] e[j]).0 != k@,
        decreases es.len() - i,
    {
        if str_eq(es[i].0.as_str(), k) {
            proof {
                lemma_entries_key_index(e, k@);
                let r = entries_key_index(e, k@);
                assert(e[i as int].0 == k@);
                if r == -1 {
                    assert(e[i as int].0 != k@);
                }
                if 0 <= r < i {
                    assert(e[r].0 != k@);
                }
            }
            return Some(i);
        }
        assert(e[i as int].0 == es@[i as int].0@);
        i = i + 1;
    }
    proof {
        lemma_entries_key_index(e, k@);
    }
    None
}

/// Insert an entry into an object, as a JSON map does.
fn obj_insert(es: &mut Vec<(String, JsonValue)>, k: String, v: JsonValue, Ghost(want): Ghost<Seq<(Seq<char>, JsonShape)>>, Ghost(sh): Ghost<JsonShape>)
    requires
        entries_have_shapes(old(es)@, want),
        has_shape(v, sh),
    ensures
        entries_have_shapes(final(es)@, map_insert(want, k@, sh)),
{
    let ghost kk = k@;
    proof {
        assert forall|i: int| 0 <= i < json_entries(es@).len() implies (#[trigger] json_entries(es@)[i]).0 == want[i].0 by {
            assert(es@[i].0@ == want[i].0);
        }
        lemma_key_index_same_keys(json_entries(es@), want, kk);
        lemma_entries_key_index(want, kk);
    }
    match find_key(es, k.as_str()) {
        Some(i) => {
            es.set(i, (k, v));
        },
        None => {
            es.push((k, v));
        },
    }
}

/// The object of an internationalised string.
fn i18n_to_value(v: &I18nString) -> (r: JsonValue)
    ensures
        is_i18n_json(r, v@),
{
    proof {
        lemma_json_names();
    }
    let mut es: Vec<(String, JsonValue)> = Vec::new();
    es.push(("language".to_owned(), JsonValue::String(v.language.as_str().to_owned())));
    es.push(("value".to_owned(), JsonValue::String(v.value.clone())));
    JsonValue::Object(es)
}

/// The array of strings.
fn strings_to_value(vs: &Vec<String>) -> (r: JsonValue)
    ensures
        has_shape(r, JsonShape::Strs(strings_view(vs@))),
{
    let mut a: Vec<JsonValue> = Vec::new();
    let mut i: usize = 0;
    while i < vs.len()
        invariant
            i <= vs.len(),
            a@.len() == i,
            forall|j: int| 0 <= j < i ==> str_of(#[trigger] a@[j]) == Some(vs@[j]@),
        decreases vs.len() - i,
    {
        a.push(JsonValue::String(vs[i].clone()));
        i = i + 1;
    }
    JsonValue::Array(a)
}

/// The array of internationalised strings.
fn i18ns_to_value(vs: &Vec<I18nString>) -> (r: JsonValue)
    ensures
        has_shape(r, JsonShape::I18ns(i18ns_view(vs@))),
{
    let mut a: Vec<JsonValue> = Vec::new();
    let mut i: usize = 0;
    while i < vs.len()
        invariant
            i <= vs.len(),
            a@.len() == i,
            forall|j: int| 0 <= j < i ==> is_i18n_json(#[trigger] a@[j], vs@[j]@),
        decreases vs.len() - i,
    {
        a.push(i18n_to_value(&vs[i]));
        i = i + 1;
    }
    JsonValue::Array(a)
}

/// The target object of a link.
fn link_to_value(l: &Link) -> (r: JsonValue)
    ensures
        is_link_json(r, l@),
{
    broadcast use crate::model::link::lemma_link_view;

    proof {
        lemma_json_names();
    }
    let ghost lv = l@;
    proof {
        crate::model::link::lemma_link_view(*l);
    }
    let mut es: Vec<(String, JsonValue)> = Vec::new();
    es.push(("href".to_owned(), JsonValue::String(l.target().as_str().to_owned())));
    let ghost mut want: Seq<(Seq<char>, JsonShape)> = seq![(seq!['h', 'r', 'e', 'f'], JsonShape::Str(lv.target))];
    match &l.type_ {
        Some(t) => {
            es.push(("type".to_owned(), JsonValue::String(t.as_str().to_owned())));
        },
        None => {},
    }
    proof {
        want = want + opt_entry(seq!['t', 'y', 'p', 'e'], opt_str_shape(lv.type_));
    }
    assert(entries_have_shapes(es@, want));
    match &l.title {
        Some(t) => {
            es.push(("title".to_owned(), JsonValue::String(t.clone())));
        },
        None => {},
    }
    proof {
        want = want + opt_entry(seq!['t', 'i', 't', 'l', 'e'], opt_str_shape(lv.title));
    }
    assert(entries_have_shapes(es@, want));
    match &l.title_i18n {
        Some(i) => {
            let one = vec![i18n_to_value(i)];
            es.push(("title*".to_owned(), JsonValue::Array(one)));
        },
        None => {},
    }
    proof {
        want = want + opt_entry(seq!['t', 'i', 't', 'l', 'e', '*'], match lv.title_i18n {
            Some(i) => Some(JsonShape::I18ns(seq![i])),
            None => None,
        });
    }
    assert(entries_have_shapes(es@, want));
    if l.hreflang.len() > 0 {
        let mut a: Vec<JsonValue> = Vec::new();
        let mut i: usize = 0;
        while i < l.hreflang.len()
            invariant
                i <= l.hreflang.len(),
                a@.len() == i,
                lv == l@,
                lv.hreflang == tags_view(l.hreflang@),
                forall|j: int| 0 <= j < i ==> str_of(#[trigger] a@[j]) == Some(lv.hreflang[j]),
            decreases l.hreflang.len() - i,
        {
            a.push(JsonValue::String(l.hreflang[i].as_str().to_owned()));
            i = i + 1;
        }
        es.push(("hreflang".to_owned(), JsonValue::Array(a)));
    }
    proof {
        want = want + opt_entry(seq!['h', 'r', 'e', 'f', 'l', 'a', 'n', 'g'], if lv.hreflang.len() > 0 {
            Some(JsonShape::Strs(lv.hreflang))
        } else {
            None
        });
    }
    assert(entries_have_shapes(es@, want));
    match &l.media {
        Some(t) => {
            es.push(("media".to_owned(), JsonValue::String(t.clone())));
        },
        None => {},
    }
    proof {
        want = want + opt_entry(seq!['m', 'e', 'd', 'i', 'a'], opt_str_shape(lv.media));
    }
    assert(entries_have_shapes(es@, want));
    let ghost fixed = want;
    let ghost plain = plain_exts(lv.exts).map_values(|g: (Seq<char>, Seq<Seq<char>>)| (g.0, JsonShape::Strs(g.1)));
    let ghost i18n = i18n_exts(lv.exts).map_values(|g: (Seq<char>, Seq<I18nView>)| (g.0, JsonShape::I18ns(g.1)));
    let ghost more = plain + i18n;
    assert(fixed == map_insert_all(fixed, more.subrange(0, 0)));
    let groups = l.iter_ext();
    let mut k: usize = 0;
    while k < groups.len()
        invariant
            k <= groups.len(),
            groups@.map_values(|p: (&String, &Vec<String>)| (p.0@, strings_view(p.1@))) == plain_exts(lv.exts),
            plain.len() == groups.len(),
            more == plain + i18n,
            plain == plain_exts(lv.exts).map_values(|g: (Seq<char>, Seq<Seq<char>>)| (g.0, JsonShape::Strs(g.1))),
            entries_have_shapes(es@, map_insert_all(fixed, more.subrange(0, k as int))),
        decreases groups.len() - k,
    {
        let (key, vals) = groups[k];
        let ghost sh = JsonShape::Strs(strings_view(vals@));
        assert(more[k as int] == (key@, sh));
        assert(more.subrange(0, k + 1).drop_last() =~= more.subrange(0, k as int));
        obj_insert(&mut es, key.clone(), strings_to_value(vals), Ghost(map_insert_all(fixed, more.subrange(0, k as int))), Ghost(sh));
        k = k + 1;
    }
    let groups = l.iter_ext_i18n();
    let mut m: usize = 0;
    while m < groups.len()
        invariant
            m <= groups.len(),
            groups@.map_values(|p: (&String, &Vec<I18nString>)| (p.0@, i18ns_view(p.1@))) == i18n_exts(lv.exts),
            i18n.len() == groups.len(),
            more == plain + i18n,
            i18n == i18n_exts(lv.exts).map_values(|g: (Seq<char>, Seq<I18nView>)| (g.0, JsonShape::I18ns(g.1))),
            entries_have_shapes(es@, map_insert_all(fixed, more.subrange(0, plain.len() + m))),
        decreases groups.len() - m,
    {
        let (key, vals) = groups[m];
        let ghost sh = JsonShape::I18ns(i18ns_view(vals@));
        assert(more[plain.len() + m] == (key@, sh));
        assert(more.subrange(0, plain.len() + m + 1).drop_last() =~= more.subrange(0, plain.len() + m));
        obj_insert(&mut es, key.clone(), i18ns_to_value(vals), Ghost(map_insert_all(fixed, more.subrange(0, plain.len() + m))), Ghost(sh));
        m = m + 1;
    }
    assert(more.subrange(0, plain.len() + m) =~= more);
    JsonValue::Object(es)
}

/// The context object of a context.
fn context_to_value(c: &LinkContext) -> (r: JsonValue)
    requires
        forall|j: int| 0 <= j < c@.links.len() ==> rel_text(#[trigger] c@.links[j].rel) != seq!['a', 'n', 'c', 'h', 'o', 'r'],
    ensures
        is_context_json(r, c@),
{
    proof {
        lemma_json_names();
        crate::model::link_context::lemma_context_view(*c);
    }
    let ghost cv = c@;
    let mut es: Vec<(String, JsonValue)> = Vec::new();
    es.push(("anchor".to_owned(), JsonValue::String(c.anchor().as_str().to_owned())));
    let links = c.links();
    assert(rel_groups(cv.links.subrange(0, 0)) =~= Seq::<(Seq<char>, Seq<LinkView>)>::empty());
    let mut j: usize = 0;
    while j < links.len()
        invariant
            j <= links.len(),
            links_view(links@) == cv.links,
            forall|m: int| 0 <= m < cv.links.len() ==> rel_text(#[trigger] cv.links[m].rel) != seq!['a', 'n', 'c', 'h', 'o', 'r'],
            ({
                let g = rel_groups(cv.links.subrange(0, j as int));
                &&& es@.len() == g.len() + 1
                &&& es@[0].0@ == seq!['a', 'n', 'c', 'h', 'o', 'r'] && str_of(es@[0].1) == Some(cv.anchor)
                &&& forall|i: int| 0 <= i < g.len() ==> (#[trigger] es@[i + 1]).0@ == g[i].0 && is_links_json(es@[i + 1].1, g[i].1)
            }),
        decreases links.len() - j,
    {
        let ghost g = rel_groups(cv.links.subrange(0, j as int));
        let ghost lj = cv.links[j as int];
        assert(links@[j as int]@ == lj);
        assert(cv.links.subrange(0, j + 1).drop_last() =~= cv.links.subrange(0, j as int));
        let rel = links[j].rel().as_str().to_owned();
        let lv = link_to_value(&links[j]);
        proof {
            let e = json_entries(es@);
            assert forall|i: int| 0 <= i < e.drop_first().len() implies (#[trigger] e.drop_first()[i]).0 == g[i].0 by {
                assert(e.drop_first()[i] == e[i + 1]);
                assert(es@[i + 1].0@ == g[i].0);
            }
            lemma_key_index_same_keys(e.drop_first(), g, rel@);
            lemma_entries_key_index(g, rel@);
            assert(e[0].0 != rel@);
        }
        match find_key(&es, rel.as_str()) {
            Some(i) => {
                let ghost gi = (i - 1) as int;
                assert(entries_key_index(g, rel@) == gi);
                let ghost es_before = es@;
                assert(is_links_json(es_before[gi + 1].1, g[gi].1));
                let (k, val) = es.remove(i);
                let newval = match val {
                    JsonValue::Array(mut a) => {
                        a.push(lv);
                        JsonValue::Array(a)
                    },
                    other => other,
                };
                es.insert(i, (k, newval));
                proof {
                    let g2 = rel_groups(cv.links.subrange(0, j + 1));
                    assert(g2 == g.update(gi, (rel@, g[gi].1.push(lj))));
                    assert forall|m: int| 0 <= m < g2.len() implies (#[trigger] es@[m + 1]).0@ == g2[m].0 && is_links_json(es@[m + 1].1, g2[m].1) by {
                        if m != gi {
                            assert(es@[m + 1] == es_before[m + 1]);
                        } else {
                            let a2 = es@[m + 1].1->Array_0@;
                            assert(a2.len() == g2[m].1.len());
                            assert forall|t: int| 0 <= t < a2.len() implies is_link_json(#[trigger] a2[t], g2[m].1[t]) by {
                                if t < a2.len() - 1 {
                                    assert(a2[t] == es_before[m + 1].1->Array_0@[t]);
                                }
                            }
                        }
                    }
                }
            },
            None => {
                es.push((rel, JsonValue::Array(vec![lv])));
            },
        }
        j = j + 1;
    }
    assert(cv.links.subrange(0, j as int) =~= cv.links);
    JsonValue::Object(es)
}

impl Linkset {
    /// Create a link set from a JSON value in the `application/linkset+json`
    /// format of RFC 9264 §4.2. Contexts without an `anchor` are anchored at
    /// `base`; relative references are resolved against it.
    pub fn from_json_value(value: &JsonValue, base: Option<&Uri>) -> (r: Result<Linkset, LinksetError>)
        ensures
            !base_ok(base_view(base)) ==> r matches Err(LinksetError::Json(_)),
            base_ok(base_view(base)) ==> json_result_ok(r, *value, base_view(base)),
    {
        proof {
            lemma_json_names();
        }
        if !check_base(base) {
            return Err(LinksetError::Json("the base is not a valid URI".to_owned()));
        }
        let es = match value {
            JsonValue::Object(es) => es,
            _ => {
                return Err(LinksetError::Json("top-level value must be an object".to_owned()));
            },
        };
        let a = match obj_get_exec(es, "linkset") {
            Some(JsonValue::Array(a)) => a,
            Some(_) => {
                return Err(LinksetError::Json("\"linkset\" must be an array".to_owned()));
            },
            None => {
                return Err(LinksetError::Json("missing \"linkset\" key".to_owned()));
            },
        };
        let ghost bv = base_view(base);
        let ghost all = contexts_of_json(a@, bv, Seq::empty());
        let mut contexts: Vec<LinkContext> = Vec::new();
        assert(contexts_view(contexts@) =~= Seq::<ContextView>::empty());
        assert(a@.skip(0) =~= a@);
        let mut i: usize = 0;
        while i < a.len()
            invariant
                i <= a.len(),
                bv == base_view(base),
                base matches Some(b) ==> is_valid_uri(b@),
                all == contexts_of_json(a@.skip(i as int), bv, contexts_view(contexts@)),
                all == linkset_of_json(*value, bv),
            decreases a.len() - i,
        {
            let ghost tail = a@.skip(i as int);
            assert(tail[0] == a@[i as int]);
            assert(tail.drop_first() =~= a@.skip(i + 1));
            let c = match parse_context(&a[i], base, i) {
                Ok(c) => c,
                Err(e) => {
                    return Err(e);
                },
            };
            let ghost before = contexts_view(contexts@);
            contexts.push(c);
            assert(contexts_view(contexts@) =~= before.push(c@));
            i = i + 1;
        }
        assert(a@.skip(i as int) =~= Seq::<JsonValue>::empty());
        Linkset::from_contexts(contexts)
    }

    /// The `application/linkset+json` value of this link set (RFC 9264 §4.2).
    /// A link with the relation type `anchor` cannot be written: its array
    /// would take the place of the context's anchor.
    pub fn to_json_value(&self) -> (r: JsonValue)
        requires
            no_anchor_rel(self@),
        ensures
            is_linkset_json(r, self@),
    {
        proof {
            lemma_json_names();
            crate::model::lemma_linkset_view(*self);
        }
        let ghost cs = self@;
        let mut a: Vec<JsonValue> = Vec::new();
        let mut i: usize = 0;
        while i < self.contexts.len()
            invariant
                i <= self.contexts.len(),
                cs == contexts_view(self.contexts@),
                no_anchor_rel(cs),
                a@.len() == i,
                forall|j: int| 0 <= j < i ==> is_context_json(#[trigger] a@[j], cs[j]),
            decreases self.contexts.len() - i,
        {
            assert(cs[i as int] == self.contexts@[i as int]@);
            assert forall|m: int| 0 <= m < cs[i as int].links.len() implies rel_text(#[trigger] cs[i as int].links[m].rel)
                != seq!['a', 'n', 'c', 'h', 'o', 'r'] by {}
            a.push(context_to_value(&self.contexts[i]));
            i = i + 1;
        }
        let mut es: Vec<(String, JsonValue)> = Vec::new();
        es.push(("linkset".to_owned(), JsonValue::Array(a)));
        JsonValue::Object(es)
    }
}

} // verus!
