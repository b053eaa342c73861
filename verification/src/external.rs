//! Calls into outside crates and into the parts of std that vstd does not
//! specify. Every item here is trusted: its contract is believed, not proved.

use vstd::prelude::*;
use vstd::utf8::*;
use indexmap::IndexMap;

use crate::model::ext_values::{ExtValues, ExtValuesView, entries_key_index};

verus! {

// ── sophia_iri ───────────────────────────────────────────────────────────────

/// An ASCII character that the URI grammar of `sophia_iri` accepts anywhere
/// in a URI: letters, digits and `-._~!$&'()*+,;=:@/?#%[]`.
pub open spec fn is_uri_char(c: char) -> bool {
    ('a' <= c && c <= 'z') || ('A' <= c && c <= 'Z') || ('0' <= c && c <= '9')
        || c == '-' || c == '.' || c == '_' || c == '~' || c == '!' || c == '$'
        || c == '&' || c == '\'' || c == '(' || c == ')' || c == '*' || c == '+'
        || c == ',' || c == ';' || c == '=' || c == ':' || c == '@' || c == '/'
        || c == '?' || c == '#' || c == '%' || c == '[' || c == ']'
}

/// Whether `sophia_iri::uri::Uri::new` accepts the string (RFC 3986 `URI`).
pub uninterp spec fn is_valid_uri(s: Seq<char>) -> bool;

/// Whether `sophia_iri::uri::UriRef::new` accepts the string (RFC 3986 `URI-reference`).
pub uninterp spec fn is_valid_uri_ref(s: Seq<char>) -> bool;

/// What resolving a reference against a base with `sophia_iri::resolve::BaseIri`
/// gives: `None` when the base cannot be taken as a base or the result is no IRI.
pub uninterp spec fn resolved_uri(base: Seq<char>, reference: Seq<char>) -> Option<Seq<char>>;

/// What `sophia_iri::relativize::Relativizer::relativize` (built from a
/// `BaseIri` of the base, with one `../` at most) computes for a base and a
/// target; `None` also when the base cannot be taken as a base.
pub uninterp spec fn relativized_uri(base: Seq<char>, target: Seq<char>) -> Option<Seq<char>>;

/// Calls `sophia_iri::uri::Uri::new`.
/// Claims that the result is the named validity of the string, and, as the
/// source shows (an ASCII test and a regular expression whose character classes
/// hold no space, quote, angle bracket or backslash), that an accepted string
/// is non-empty and made of URI characters only.
#[verifier::external_body]
pub(crate) fn check_uri(s: &str) -> (r: bool)
    ensures
        r == is_valid_uri(s@),
        r ==> s@.len() > 0 && forall|i: int| 0 <= i < s@.len() ==> is_uri_char(#[trigger] s@[i]),
{
    sophia_iri::uri::Uri::new(s).is_ok()
}

/// Calls `sophia_iri::uri::UriRef::new`; claims only that the result is the named validity.
#[verifier::external_body]
pub(crate) fn check_uri_ref(s: &str) -> (r: bool)
    ensures
        r == is_valid_uri_ref(s@),
{
    sophia_iri::uri::UriRef::new(s).is_ok()
}

/// Builds a `sophia_iri::resolve::BaseIri` from a valid base URI (`BaseIri::new`)
/// and resolves a valid reference against it (`BaseIri::resolve`), both of which
/// report failure as an error. Claims that the result is the named resolution
/// of the two arguments, `None` on either error; nothing more about its shape
/// is stated.
#[verifier::external_body]
pub(crate) fn resolve_uri(base: &str, reference: &str) -> (r: Option<String>)
    requires
        is_valid_uri(base@),
        is_valid_uri_ref(reference@),
    ensures
        match r {
            Some(x) => resolved_uri(base@, reference@) == Some(x@),
            None => resolved_uri(base@, reference@) is None,
        },
{
    match sophia_iri::resolve::BaseIri::new(base) {
        Ok(b) => b.resolve(reference).ok().map(|i| i.unwrap()),
        Err(_) => None,
    }
}

/// Builds a `sophia_iri::resolve::BaseIri` from `base` (`BaseIri::new`, `None` on
/// its error), then a `sophia_iri::relativize::Relativizer` allowing at most one
/// `../`, and relativizes `target` with it. Claims that the result is the named
/// relativization of the two arguments and, as the source shows (each result is
/// a piece of the target, possibly after `./` or `../` pieces joined by `/`),
/// that every character of it is `.`, `/` or a character of the target.
#[verifier::external_body]
pub(crate) fn relativize_uri(base: &str, target: &str) -> (r: Option<String>)
    requires
        is_valid_uri(base@),
        is_valid_uri(target@),
    ensures
        match r {
            Some(x) => relativized_uri(base@, target@) == Some(x@),
            None => relativized_uri(base@, target@) is None,
        },
        r matches Some(x) ==> forall|i: int| 0 <= i < x@.len() ==> {
            let c = #[trigger] x@[i];
            c == '.' || c == '/' || exists|j: int| 0 <= j < target@.len() && target@[j] == c
        },
{
    match sophia_iri::resolve::BaseIri::new(base) {
        Ok(b) => sophia_iri::relativize::Relativizer::new(b, 1)
            .relativize(sophia_iri::Iri::new_unchecked(target))
            .map(|r| r.unwrap().into_owned()),
        Err(_) => None,
    }
}

// ── sophia_bcp47 ─────────────────────────────────────────────────────────────

/// Whether `sophia_bcp47::LanguageTag::new` accepts the string (a BCP 47 tag).
pub uninterp spec fn is_valid_language_tag(s: Seq<char>) -> bool;

/// Calls `sophia_bcp47::LanguageTag::new`.
/// Claims that the result is the named validity, and, as the source's regular
/// expression shows, that an accepted tag is non-empty and made of ASCII letters,
/// digits and `-` only.
#[verifier::external_body]
pub(crate) fn check_language_tag(s: &str) -> (r: bool)
    ensures
        r == is_valid_language_tag(s@),
        r ==> s@.len() > 0 && forall|i: int|
            0 <= i < s@.len() ==> {
                let c = #[trigger] s@[i];
                ('a' <= c && c <= 'z') || ('A' <= c && c <= 'Z') || ('0' <= c && c <= '9') || c == '-'
            },
{
    sophia_bcp47::LanguageTag::new(s).is_ok()
}

// ── std ──────────────────────────────────────────────────────────────────────

/// Calls `String::push`: the character is appended.
#[verifier::external_body]
pub(crate) fn push_char(s: &mut String, c: char)
    ensures
        final(s)@ == old(s)@.push(c),
{
    s.push(c)
}

/// Calls `String::from_utf8`: succeeds exactly on valid UTF-8, giving the
/// decoded characters.
#[verifier::external_body]
pub(crate) fn string_from_utf8(bytes: Vec<u8>) -> (r: Option<String>)
    ensures
        r is Some <==> valid_utf8(bytes@),
        r matches Some(s) ==> s@ == decode_utf8(bytes@),
{
    String::from_utf8(bytes).ok()
}

/// The message of `sophia_iri::uri::InvalidUri` for a text.
pub uninterp spec fn invalid_uri_message(s: Seq<char>) -> Seq<char>;

/// Calls `Display` of `sophia_iri::uri::InvalidUri`, the error that
/// `Uri::new` and `UriRef::new` give for a text: the message that `sophia_iri`
/// writes for it. The contract names the result; its wording is left unsaid.
#[verifier::external_body]
pub(crate) fn invalid_uri_text(s: &str) -> (r: String)
    ensures
        r@ == invalid_uri_message(s@),
{
    sophia_iri::uri::InvalidUri(s.to_owned()).to_string()
}

/// What `{:?}` writes for a string: std's `Debug` for `str`.
pub uninterp spec fn debug_text(s: Seq<char>) -> Seq<char>;

/// Calls std's `Debug` for `str` (as `format!("{:?}")` does): the string in
/// double quotes, with quotes, backslashes and control characters escaped.
/// The contract names the result; what the escapes are is left unsaid.
#[verifier::external_body]
pub(crate) fn debug_quoted(s: &str) -> (r: String)
    ensures
        r@ == debug_text(s@),
{
    format!("{s:?}")
}

// ── indexmap ─────────────────────────────────────────────────────────────────

#[verifier::external_type_specification]
#[verifier::external_body]
#[verifier::reject_recursive_types(K)]
#[verifier::reject_recursive_types(V)]
#[verifier::reject_recursive_types(S)]
pub struct ExIndexMap<K, V, S>(IndexMap<K, V, S>);

/// The entries of an extension-attribute map, in the map's order.
pub uninterp spec fn ext_entries(m: IndexMap<String, ExtValues>) -> Seq<(Seq<char>, ExtValuesView)>;

/// No key occurs twice.
pub open spec fn keys_unique(e: Seq<(Seq<char>, ExtValuesView)>) -> bool {
    forall|i: int, j: int| 0 <= i < e.len() && 0 <= j < e.len() && i != j ==> #[trigger] e[i].0 != #[trigger] e[j].0
}

/// Calls `IndexMap::new`: the map is empty.
#[verifier::external_body]
pub(crate) fn ext_map_new() -> (m: IndexMap<String, ExtValues>)
    ensures
        ext_entries(m) == Seq::<(Seq<char>, ExtValuesView)>::empty(),
{
    IndexMap::new()
}

/// Calls `IndexMap::clone`: the copy has the same entries in the same order.
#[verifier::external_body]
pub(crate) fn ext_map_clone(m: &IndexMap<String, ExtValues>) -> (r: IndexMap<String, ExtValues>)
    ensures
        ext_entries(r) == ext_entries(*m),
{
    m.clone()
}

/// Calls `IndexMap::len`: the number of entries.
#[verifier::external_body]
pub(crate) fn ext_map_len(m: &IndexMap<String, ExtValues>) -> (n: usize)
    ensures
        n == ext_entries(*m).len(),
{
    m.len()
}

/// Calls `IndexMap::get`: the value stored under the key, if any.
#[verifier::external_body]
pub(crate) fn ext_map_get<'a>(m: &'a IndexMap<String, ExtValues>, key: &str) -> (r: Option<&'a ExtValues>)
    ensures
        match r {
            None => entries_key_index(ext_entries(*m), key@) == -1,
            Some(v) => {
                let i = entries_key_index(ext_entries(*m), key@);
                0 <= i && ext_entries(*m)[i].1 == v@
            },
        },
{
    m.get(key)
}

/// Calls `IndexMap::get_mut`: the value stored under the key, if any, to be
/// changed in place; the key and the other entries stay as they are.
#[verifier::external_body]
pub(crate) fn ext_map_get_mut<'a>(m: &'a mut IndexMap<String, ExtValues>, key: &str) -> (r: Option<&'a mut ExtValues>)
    ensures
        ({
            let i = entries_key_index(ext_entries(*old(m)), key@);
            match r {
                None => i == -1 && ext_entries(*final(m)) == ext_entries(*old(m)),
                Some(v) => {
                    &&& 0 <= i
                    &&& ext_entries(*old(m))[i].1 == v@
                    &&& ext_entries(*final(m)) == ext_entries(*old(m)).update(i, (key@, final(v)@))
                },
            }
        }),
{
    m.get_mut(key)
}

/// Calls `IndexMap::get_index`: the entry at a position, if the position is in range.
#[verifier::external_body]
pub(crate) fn ext_map_get_index<'a>(m: &'a IndexMap<String, ExtValues>, i: usize) -> (r: Option<(&'a String, &'a ExtValues)>)
    ensures
        match r {
            None => i >= ext_entries(*m).len(),
            Some(kv) => i < ext_entries(*m).len() && ext_entries(*m)[i as int] == (kv.0@, kv.1@),
        },
{
    m.get_index(i)
}

/// Calls `IndexMap::insert`: an existing key keeps its place and gets the new
/// value, the old one being returned; a new key is appended.
#[verifier::external_body]
pub(crate) fn ext_map_insert(m: &mut IndexMap<String, ExtValues>, key: String, value: ExtValues) -> (r: Option<ExtValues>)
    ensures
        keys_unique(ext_entries(*final(m))),
        ({
            let i = entries_key_index(ext_entries(*old(m)), key@);
            if i >= 0 {
                &&& ext_entries(*final(m)) == ext_entries(*old(m)).update(i, (key@, value@))
                &&& r matches Some(v) && v@ == ext_entries(*old(m))[i].1
            } else {
                &&& ext_entries(*final(m)) == ext_entries(*old(m)).push((key@, value@))
                &&& r is None
            }
        }),
{
    m.insert(key, value)
}

/// Calls `IndexMap::shift_remove`: the entry under the key, if any, is removed,
/// the others keeping their order, and its value is returned.
#[verifier::external_body]
pub(crate) fn ext_map_shift_remove(m: &mut IndexMap<String, ExtValues>, key: &str) -> (r: Option<ExtValues>)
    ensures
        keys_unique(ext_entries(*final(m))),
        ({
            let i = entries_key_index(ext_entries(*old(m)), key@);
            if i >= 0 {
                &&& ext_entries(*final(m)) == ext_entries(*old(m)).remove(i)
                &&& r matches Some(v) && v@ == ext_entries(*old(m))[i].1
            } else {
                &&& ext_entries(*final(m)) == ext_entries(*old(m))
                &&& r is None
            }
        }),
{
    m.shift_remove(key)
}

} // verus!
