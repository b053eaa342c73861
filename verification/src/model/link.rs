//! A single typed link.

use vstd::prelude::*;
use indexmap::IndexMap;

use crate::external::{
    ext_entries, ext_map_get, ext_map_get_index, ext_map_insert, ext_map_len, ext_map_new,
    ext_map_shift_remove, ext_map_clone, ext_map_get_mut, keys_unique,
};
use crate::strs::{str_eq, ascii_lowercase, eq_ignore_ascii_case, str_eq_ignore_ascii_case, to_ascii_lowercase};
use super::ext_token::ext_key_problem;
use super::ext_values::{
    ExtValues, ExtValuesView, entries_key_index, i18ns_view, lemma_entries_key_index, strings_view,
};
use super::lang::{I18nString, I18nView, LanguageTag, i18n_eq};
use super::media_type::MediaType;
use super::rel_type::{RelType, RelTypeView};
use super::uri::Uri;

verus! {

/// The abstract value of a [`Link`].
pub struct LinkView {
    pub target: Seq<char>,
    pub rel: RelTypeView,
    pub type_: Option<Seq<char>>,
    pub title: Option<Seq<char>>,
    pub title_i18n: Option<I18nView>,
    pub hreflang: Seq<Seq<char>>,
    pub media: Option<Seq<char>>,
    /// Extension attributes in their order; plain ones under keys without a
    /// trailing `*`, internationalised ones under keys with one.
    pub exts: Seq<(Seq<char>, ExtValuesView)>,
}

pub open spec fn opt_str_view(o: Option<String>) -> Option<Seq<char>> {
    match o {
        Some(s) => Some(s@),
        None => None,
    }
}

pub open spec fn opt_media_view(o: Option<MediaType>) -> Option<Seq<char>> {
    match o {
        Some(m) => Some(m@),
        None => None,
    }
}

pub open spec fn opt_i18n_view(o: Option<I18nString>) -> Option<I18nView> {
    match o {
        Some(s) => Some(s@),
        None => None,
    }
}

pub open spec fn tags_view(v: Seq<LanguageTag>) -> Seq<Seq<char>> {
    v.map_values(|t: LanguageTag| t@)
}

/// A link without attributes.
pub open spec fn bare_link(target: Seq<char>, rel: RelTypeView) -> LinkView {
    LinkView {
        target,
        rel,
        type_: None,
        title: None,
        title_i18n: None,
        hreflang: Seq::empty(),
        media: None,
        exts: Seq::empty(),
    }
}

/// Two lists of language tags are equal element by element, up to ASCII case.
pub open spec fn tags_eq(a: Seq<Seq<char>>, b: Seq<Seq<char>>) -> bool {
    a.len() == b.len() && forall|i: int| 0 <= i < a.len() ==> eq_ignore_ascii_case(#[trigger] a[i], b[i])
}

/// Two lists of internationalised strings are equal element by element.
pub open spec fn i18ns_eq(a: Seq<I18nView>, b: Seq<I18nView>) -> bool {
    a.len() == b.len() && forall|i: int| 0 <= i < a.len() ==> i18n_eq(#[trigger] a[i], b[i])
}

pub open spec fn ext_values_eq(a: ExtValuesView, b: ExtValuesView) -> bool {
    match (a, b) {
        (ExtValuesView::Plain(x), ExtValuesView::Plain(y)) => x == y,
        (ExtValuesView::I18n(x), ExtValuesView::I18n(y)) => i18ns_eq(x, y),
        _ => false,
    }
}

/// Map equality of extension attributes: as many entries, and each entry of
/// `a` has an entry of `b` under the same key with an equal value (the order
/// of the entries does not matter).
pub open spec fn exts_eq(a: Seq<(Seq<char>, ExtValuesView)>, b: Seq<(Seq<char>, ExtValuesView)>) -> bool {
    &&& a.len() == b.len()
    &&& forall|i: int| 0 <= i < a.len() ==> {
        let j = entries_key_index(b, (#[trigger] a[i]).0);
        0 <= j && ext_values_eq(a[i].1, b[j].1)
    }
}

/// Equality of links: every attribute equal, language tags up to ASCII case,
/// extension attributes as maps.
pub open spec fn link_eq(a: LinkView, b: LinkView) -> bool {
    &&& a.target == b.target
    &&& a.rel == b.rel
    &&& a.type_ == b.type_
    &&& a.title == b.title
    &&& match (a.title_i18n, b.title_i18n) {
        (None, None) => true,
        (Some(x), Some(y)) => i18n_eq(x, y),
        _ => false,
    }
    &&& tags_eq(a.hreflang, b.hreflang)
    &&& a.media == b.media
    &&& exts_eq(a.exts, b.exts)
}

/// An extension entry as the link's methods keep it: a lower-case key valid
/// for its kind, with at least one value.
pub open spec fn ext_entry_ok(e: (Seq<char>, ExtValuesView)) -> bool {
    &&& ascii_lowercase(e.0) == e.0
    &&& match e.1 {
        ExtValuesView::Plain(v) => ext_key_problem(e.0, false) is None && v.len() > 0,
        ExtValuesView::I18n(v) => ext_key_problem(e.0, true) is None && v.len() > 0,
    }
}

/// The well-formedness of a link that its methods keep.
pub open spec fn link_wf(l: LinkView) -> bool {
    &&& keys_unique(l.exts)
    &&& forall|i: int| 0 <= i < l.exts.len() ==> ext_entry_ok(#[trigger] l.exts[i])
}

/// The plain extension attributes, in order.
pub open spec fn plain_exts(e: Seq<(Seq<char>, ExtValuesView)>) -> Seq<(Seq<char>, Seq<Seq<char>>)>
    decreases e.len(),
{
    if e.len() == 0 {
        Seq::empty()
    } else {
        let rest = plain_exts(e.drop_last());
        match e.last().1 {
            ExtValuesView::Plain(v) => rest.push((e.last().0, v)),
            ExtValuesView::I18n(_) => rest,
        }
    }
}

/// The internationalised extension attributes, in order.
pub open spec fn i18n_exts(e: Seq<(Seq<char>, ExtValuesView)>) -> Seq<(Seq<char>, Seq<I18nView>)>
    decreases e.len(),
{
    if e.len() == 0 {
        Seq::empty()
    } else {
        let rest = i18n_exts(e.drop_last());
        match e.last().1 {
            ExtValuesView::I18n(v) => rest.push((e.last().0, v)),
            ExtValuesView::Plain(_) => rest,
        }
    }
}

/// The plain values stored under `key` (matched without regard to ASCII case), if any.
pub open spec fn plain_ext_lookup(e: Seq<(Seq<char>, ExtValuesView)>, key: Seq<char>) -> Option<Seq<Seq<char>>> {
    let i = entries_key_index(e, ascii_lowercase(key));
    if i >= 0 {
        match e[i].1 {
            ExtValuesView::Plain(v) => Some(v),
            ExtValuesView::I18n(_) => None,
        }
    } else {
        None
    }
}

/// The internationalised values stored under `key` (matched without regard to ASCII case), if any.
pub open spec fn i18n_ext_lookup(e: Seq<(Seq<char>, ExtValuesView)>, key: Seq<char>) -> Option<Seq<I18nView>> {
    let i = entries_key_index(e, ascii_lowercase(key));
    if i >= 0 {
        match e[i].1 {
            ExtValuesView::I18n(v) => Some(v),
            ExtValuesView::Plain(_) => None,
        }
    } else {
        None
    }
}

/// The entries after storing `v` under `k`: in place if `k` is present, else at the end.
pub open spec fn entries_insert(e: Seq<(Seq<char>, ExtValuesView)>, k: Seq<char>, v: ExtValuesView) -> Seq<(Seq<char>, ExtValuesView)> {
    let i = entries_key_index(e, k);
    if i >= 0 {
        e.update(i, (k, v))
    } else {
        e.push((k, v))
    }
}

/// The entries after removing the plain entry under `key` (matched without
/// regard to ASCII case), if there is one.
pub open spec fn entries_remove_plain(e: Seq<(Seq<char>, ExtValuesView)>, key: Seq<char>) -> Seq<(Seq<char>, ExtValuesView)> {
    let i = entries_key_index(e, ascii_lowercase(key));
    if plain_ext_lookup(e, key) is Some {
        e.remove(i)
    } else {
        e
    }
}

/// The entries after removing the internationalised entry under `key`, if there is one.
pub open spec fn entries_remove_i18n(e: Seq<(Seq<char>, ExtValuesView)>, key: Seq<char>) -> Seq<(Seq<char>, ExtValuesView)> {
    let i = entries_key_index(e, ascii_lowercase(key));
    if i18n_ext_lookup(e, key) is Some {
        e.remove(i)
    } else {
        e
    }
}

/// A single typed link from an anchor context to a target
/// (one link-value of RFC 8288 §3).
#[derive(Debug)]
pub struct Link {
    /// The link target URI.
    pub(crate) target: Uri,
    /// The relation type of this link.
    pub(crate) rel: RelType,
    /// Optional hint for the media type of the target (`type`).
    pub type_: Option<MediaType>,
    /// Optional human-readable label (`title`).
    pub title: Option<String>,
    /// Optional internationalised label (`title*`, RFC 8187).
    pub title_i18n: Option<I18nString>,
    /// Zero or more language hints for the target (`hreflang`).
    pub hreflang: Vec<LanguageTag>,
    /// Optional media query hint (`media`).
    pub media: Option<String>,
    /// Extension attributes, plain and internationalised.
    pub(crate) exts: IndexMap<String, ExtValues>,
}

/// The abstract value of a link, from its fields.
pub(crate) open spec fn link_view(l: Link) -> LinkView {
    LinkView {
        target: l.target@,
        rel: l.rel@,
        type_: opt_media_view(l.type_),
        title: opt_str_view(l.title),
        title_i18n: opt_i18n_view(l.title_i18n),
        hreflang: tags_view(l.hreflang@),
        media: opt_str_view(l.media),
        exts: ext_entries(l.exts),
    }
}

impl View for Link {
    type V = LinkView;

    closed spec fn view(&self) -> LinkView {
        link_view(*self)
    }
}

/// How the fields of a link appear in its abstract value.
pub(crate) broadcast proof fn lemma_link_view(l: Link)
    ensures
        #[trigger] l@ == link_view(l),
{
}

impl Link {
    /// Create a new link with the required fields and no attribute.
    pub fn new(target: Uri, rel: RelType) -> (r: Link)
        ensures
            r@ == bare_link(target@, rel@),
            link_wf(r@),
    {
        let l = Link {
            target,
            rel,
            type_: None,
            title: None,
            title_i18n: None,
            hreflang: Vec::new(),
            media: None,
            exts: ext_map_new(),
        };
        assert(l@.hreflang =~= Seq::<Seq<char>>::empty());
        l
    }

    /// This link's target.
    pub fn target(&self) -> (r: &Uri)
        ensures
            r@ == self@.target,
    {
        &self.target
    }

    /// This link's relation type.
    pub fn rel(&self) -> (r: &RelType)
        ensures
            r@ == self@.rel,
    {
        &self.rel
    }

    /// The values of a plain extension attribute, or `None` if absent.
    /// `key` is matched case-insensitively (RFC 7230 §3.2).
    pub fn get_ext(&self, key: &str) -> (r: Option<&Vec<String>>)
        ensures
            match r {
                Some(v) => plain_ext_lookup(self@.exts, key@) == Some(strings_view(v@)),
                None => plain_ext_lookup(self@.exts, key@) is None,
            },
    {
        let k = to_ascii_lowercase(key);
        proof {
            lemma_entries_key_index(ext_entries(self.exts), k@);
        }
        match ext_map_get(&self.exts, k.as_str()) {
            Some(ExtValues::Plain(v)) => Some(v),
            _ => None,
        }
    }

    /// The values of a plain extension attribute, to be changed in place, or
    /// `None` if absent. `key` is matched case-insensitively.
    /// The values should not be made empty; [`Link::del_ext`] removes an attribute.
    pub fn get_ext_mut(&mut self, key: &str) -> (r: Option<&mut Vec<String>>)
        ensures
            ({
                let i = entries_key_index(old(self)@.exts, ascii_lowercase(key@));
                match r {
                    Some(v) => {
                        &&& plain_ext_lookup(old(self)@.exts, key@) == Some(strings_view(v@))
                        &&& final(self)@ == (LinkView {
                            exts: old(self)@.exts.update(i, (ascii_lowercase(key@), ExtValuesView::Plain(strings_view(final(v)@)))),
                            ..old(self)@
                        })
                    },
                    None => plain_ext_lookup(old(self)@.exts, key@) is None && final(self)@ == old(self)@,
                }
            }),
    {
        let k = to_ascii_lowercase(key);
        proof {
            lemma_entries_key_index(ext_entries(self.exts), k@);
        }
        let is_plain = match ext_map_get(&self.exts, k.as_str()) {
            Some(ExtValues::Plain(_)) => true,
            _ => false,
        };
        if !is_plain {
            return None;
        }
        match ext_map_get_mut(&mut self.exts, k.as_str()) {
            Some(ExtValues::Plain(v)) => Some(v),
            _ => None,
        }
    }

    /// The values of an internationalised extension attribute (`param*`), or
    /// `None` if absent. `key` includes the trailing `*` and is matched
    /// case-insensitively.
    pub fn get_ext_i18n(&self, key: &str) -> (r: Option<&Vec<I18nString>>)
        ensures
            match r {
                Some(v) => i18n_ext_lookup(self@.exts, key@) == Some(i18ns_view(v@)),
                None => i18n_ext_lookup(self@.exts, key@) is None,
            },
    {
        let k = to_ascii_lowercase(key);
        proof {
            lemma_entries_key_index(ext_entries(self.exts), k@);
        }
        match ext_map_get(&self.exts, k.as_str()) {
            Some(ExtValues::I18n(v)) => Some(v),
            _ => None,
        }
    }

    /// The values of an internationalised extension attribute, to be changed in
    /// place, or `None` if absent. `key` includes the trailing `*` and is matched
    /// case-insensitively. The values should not be made empty; [`Link::del_ext_i18n`]
    /// removes an attribute.
    pub fn get_ext_i18n_mut(&mut self, key: &str) -> (r: Option<&mut Vec<I18nString>>)
        ensures
            ({
                let i = entries_key_index(old(self)@.exts, ascii_lowercase(key@));
                match r {
                    Some(v) => {
                        &&& i18n_ext_lookup(old(self)@.exts, key@) == Some(i18ns_view(v@))
                        &&& final(self)@ == (LinkView {
                            exts: old(self)@.exts.update(i, (ascii_lowercase(key@), ExtValuesView::I18n(i18ns_view(final(v)@)))),
                            ..old(self)@
                        })
                    },
                    None => i18n_ext_lookup(old(self)@.exts, key@) is None && final(self)@ == old(self)@,
                }
            }),
    {
        let k = to_ascii_lowercase(key);
        proof {
            lemma_entries_key_index(ext_entries(self.exts), k@);
        }
        let is_i18n = match ext_map_get(&self.exts, k.as_str()) {
            Some(ExtValues::I18n(_)) => true,
            _ => false,
        };
        if !is_i18n {
            return None;
        }
        match ext_map_get_mut(&mut self.exts, k.as_str()) {
            Some(ExtValues::I18n(v)) => Some(v),
            _ => None,
        }
    }

    /// Remove a plain extension attribute, returning its values if it was present.
    /// `key` is matched case-insensitively.
    pub fn del_ext(&mut self, key: &str) -> (r: Option<Vec<String>>)
        ensures
            final(self)@ == (LinkView { exts: entries_remove_plain(old(self)@.exts, key@), ..old(self)@ }),
            link_wf(old(self)@) ==> link_wf(final(self)@),
            match r {
                Some(v) => plain_ext_lookup(old(self)@.exts, key@) == Some(strings_view(v@)),
                None => plain_ext_lookup(old(self)@.exts, key@) is None,
            },
    {
        let k = to_ascii_lowercase(key);
        proof {
            lemma_entries_key_index(ext_entries(self.exts), k@);
        }
        proof {
            if link_wf(self@) {
                super::laws::del_ext_keeps_link_wf(self@, key@);
            }
        }
        let is_plain = match ext_map_get(&self.exts, k.as_str()) {
            Some(ExtValues::Plain(_)) => true,
            _ => false,
        };
        if is_plain {
            match ext_map_shift_remove(&mut self.exts, k.as_str()) {
                Some(ExtValues::Plain(v)) => Some(v),
                _ => None,
            }
        } else {
            None
        }
    }

    /// Remove an internationalised extension attribute, returning its values if
    /// it was present. `key` includes the trailing `*` and is matched case-insensitively.
    pub fn del_ext_i18n(&mut self, key: &str) -> (r: Option<Vec<I18nString>>)
        ensures
            final(self)@ == (LinkView { exts: entries_remove_i18n(old(self)@.exts, key@), ..old(self)@ }),
            link_wf(old(self)@) ==> link_wf(final(self)@),
            match r {
                Some(v) => i18n_ext_lookup(old(self)@.exts, key@) == Some(i18ns_view(v@)),
                None => i18n_ext_lookup(old(self)@.exts, key@) is None,
            },
    {
        let k = to_ascii_lowercase(key);
        proof {
            lemma_entries_key_index(ext_entries(self.exts), k@);
        }
        proof {
            if link_wf(self@) {
                super::laws::del_ext_keeps_link_wf(self@, key@);
            }
        }
        let is_i18n = match ext_map_get(&self.exts, k.as_str()) {
            Some(ExtValues::I18n(_)) => true,
            _ => false,
        };
        if is_i18n {
            match ext_map_shift_remove(&mut self.exts, k.as_str()) {
                Some(ExtValues::I18n(v)) => Some(v),
                _ => None,
            }
        } else {
            None
        }
    }

    /// Set a plain extension attribute, returning the previous values if the
    /// attribute was present. The key is lower-cased; it must be a valid token,
    /// must not end with `*` and must not name a well-known attribute.
    /// With no values, this removes the attribute as [`Link::del_ext`] does.
    pub fn set_ext(&mut self, key: &str, values: Vec<String>) -> (r: Option<Vec<String>>)
        requires
            values.len() > 0 ==> ext_key_problem(ascii_lowercase(key@), false) is None,
        ensures
            values.len() == 0 ==> final(self)@ == (LinkView { exts: entries_remove_plain(old(self)@.exts, key@), ..old(self)@ }),
            values.len() > 0 ==> final(self)@ == (LinkView {
                exts: entries_insert(old(self)@.exts, ascii_lowercase(key@), ExtValuesView::Plain(strings_view(values@))),
                ..old(self)@
            }),
            link_wf(old(self)@) ==> link_wf(final(self)@),
            match r {
                Some(v) => plain_ext_lookup(old(self)@.exts, key@) == Some(strings_view(v@)),
                None => plain_ext_lookup(old(self)@.exts, key@) is None,
            },
    {
        if values.len() == 0 {
            return self.del_ext(key);
        }
        let ghost before = self@;
        let ghost vals = strings_view(values@);
        let k = to_ascii_lowercase(key);
        proof {
            lemma_entries_key_index(ext_entries(self.exts), k@);
            if link_wf(before) {
                super::laws::set_ext_keeps_link_wf(before, key@, vals);
            }
        }
        match ext_map_insert(&mut self.exts, k, ExtValues::Plain(values)) {
            Some(ExtValues::Plain(v)) => Some(v),
            _ => None,
        }
    }

    /// Set an internationalised extension attribute, returning the previous
    /// values if the attribute was present. The key is lower-cased; it must be a
    /// valid token ending with `*` and must not be `title*`.
    /// With no values, this removes the attribute as [`Link::del_ext_i18n`] does.
    pub fn set_ext_i18n(&mut self, key: &str, values: Vec<I18nString>) -> (r: Option<Vec<I18nString>>)
        requires
            values.len() > 0 ==> ext_key_problem(ascii_lowercase(key@), true) is None,
        ensures
            values.len() == 0 ==> final(self)@ == (LinkView { exts: entries_remove_i18n(old(self)@.exts, key@), ..old(self)@ }),
            values.len() > 0 ==> final(self)@ == (LinkView {
                exts: entries_insert(old(self)@.exts, ascii_lowercase(key@), ExtValuesView::I18n(i18ns_view(values@))),
                ..old(self)@
            }),
            link_wf(old(self)@) ==> link_wf(final(self)@),
            match r {
                Some(v) => i18n_ext_lookup(old(self)@.exts, key@) == Some(i18ns_view(v@)),
                None => i18n_ext_lookup(old(self)@.exts, key@) is None,
            },
    {
        if values.len() == 0 {
            return self.del_ext_i18n(key);
        }
        let ghost before = self@;
        let ghost vals = i18ns_view(values@);
        let k = to_ascii_lowercase(key);
        proof {
            lemma_entries_key_index(ext_entries(self.exts), k@);
            if link_wf(before) {
                super::laws::set_ext_i18n_keeps_link_wf(before, key@, vals);
            }
        }
        match ext_map_insert(&mut self.exts, k, ExtValues::I18n(values)) {
            Some(ExtValues::I18n(v)) => Some(v),
            _ => None,
        }
    }

    /// All plain extension attributes as `(key, values)` pairs, in order.
    pub fn iter_ext(&self) -> (r: Vec<(&String, &Vec<String>)>)
        ensures
            r@.map_values(|p: (&String, &Vec<String>)| (p.0@, strings_view(p.1@))) == plain_exts(self@.exts),
    {
        let n = ext_map_len(&self.exts);
        let mut r: Vec<(&String, &Vec<String>)> = Vec::new();
        let mut i: usize = 0;
        while i < n
            invariant
                i <= n,
                n == ext_entries(self.exts).len(),
                r@.map_values(|p: (&String, &Vec<String>)| (p.0@, strings_view(p.1@)))
                    == plain_exts(ext_entries(self.exts).subrange(0, i as int)),
            decreases n - i,
        {
            let ghost e = ext_entries(self.exts);
            assert(e.subrange(0, i + 1).drop_last() =~= e.subrange(0, i as int));
            match ext_map_get_index(&self.exts, i) {
                Some((k, v)) => {
                    match v {
                        ExtValues::Plain(vs) => {
                            let ghost before = r@;
                            r.push((k, vs));
                            assert(r@.map_values(|p: (&String, &Vec<String>)| (p.0@, strings_view(p.1@)))
                                =~= before.map_values(|p: (&String, &Vec<String>)| (p.0@, strings_view(p.1@))).push((k@, strings_view(vs@))));
                        },
                        ExtValues::I18n(_) => {},
                    }
                },
                None => {},
            }
            i = i + 1;
        }
        assert(ext_entries(self.exts).subrange(0, n as int) =~= ext_entries(self.exts));
        r
    }

    /// All internationalised extension attributes as `(key, values)` pairs, in order.
    pub fn iter_ext_i18n(&self) -> (r: Vec<(&String, &Vec<I18nString>)>)
        ensures
            r@.map_values(|p: (&String, &Vec<I18nString>)| (p.0@, i18ns_view(p.1@))) == i18n_exts(self@.exts),
    {
        let n = ext_map_len(&self.exts);
        let mut r: Vec<(&String, &Vec<I18nString>)> = Vec::new();
        let mut i: usize = 0;
        while i < n
            invariant
                i <= n,
                n == ext_entries(self.exts).len(),
                r@.map_values(|p: (&String, &Vec<I18nString>)| (p.0@, i18ns_view(p.1@)))
                    == i18n_exts(ext_entries(self.exts).subrange(0, i as int)),
            decreases n - i,
        {
            let ghost e = ext_entries(self.exts);
            assert(e.subrange(0, i + 1).drop_last() =~= e.subrange(0, i as int));
            match ext_map_get_index(&self.exts, i) {
                Some((k, v)) => {
                    match v {
                        ExtValues::I18n(vs) => {
                            let ghost before = r@;
                            r.push((k, vs));
                            assert(r@.map_values(|p: (&String, &Vec<I18nString>)| (p.0@, i18ns_view(p.1@)))
                                =~= before.map_values(|p: (&String, &Vec<I18nString>)| (p.0@, i18ns_view(p.1@))).push((k@, i18ns_view(vs@))));
                        },
                        ExtValues::Plain(_) => {},
                    }
                },
                None => {},
            }
            i = i + 1;
        }
        assert(ext_entries(self.exts).subrange(0, n as int) =~= ext_entries(self.exts));
        r
    }
}

pub(crate) fn copy_tags(v: &Vec<LanguageTag>) -> (r: Vec<LanguageTag>)
    ensures
        tags_view(r@) == tags_view(v@),
{
    let mut r: Vec<LanguageTag> = Vec::new();
    let mut i: usize = 0;
    while i < v.len()
        invariant
            i <= v.len(),
            r@.len() == i,
            forall|j: int| 0 <= j < i ==> (#[trigger] r@[j])@ == v@[j]@,
        decreases v.len() - i,
    {
        r.push(v[i].copied());
        i = i + 1;
    }
    assert(tags_view(r@) =~= tags_view(v@));
    r
}

impl Clone for Link {
    fn clone(&self) -> (r: Self)
        ensures
            r@ == self@,
    {
        Link {
            target: self.target.copied(),
            rel: self.rel.copied(),
            type_: match &self.type_ {
                Some(m) => Some(m.copied()),
                None => None,
            },
            title: match &self.title {
                Some(t) => Some(t.clone()),
                None => None,
            },
            title_i18n: match &self.title_i18n {
                Some(t) => Some(t.copied()),
                None => None,
            },
            hreflang: copy_tags(&self.hreflang),
            media: match &self.media {
                Some(t) => Some(t.clone()),
                None => None,
            },
            exts: ext_map_clone(&self.exts),
        }
    }
}

fn strings_eq(a: &Vec<String>, b: &Vec<String>) -> (r: bool)
    ensures
        r == (strings_view(a@) == strings_view(b@)),
{
    if a.len() != b.len() {
        assert(strings_view(a@).len() != strings_view(b@).len());
        return false;
    }
    let mut i: usize = 0;
    while i < a.len()
        invariant
            i <= a.len(),
            a.len() == b.len(),
            forall|j: int| 0 <= j < i ==> (#[trigger] a@[j])@ == b@[j]@,
        decreases a.len() - i,
    {
        if a[i] != b[i] {
            assert(strings_view(a@)[i as int] != strings_view(b@)[i as int]);
            return false;
        }
        i = i + 1;
    }
    assert(strings_view(a@) =~= strings_view(b@));
    true
}

fn i18n_eq_exec(a: &I18nString, b: &I18nString) -> (r: bool)
    ensures
        r == i18n_eq(a@, b@),
{
    a.value == b.value && str_eq_ignore_ascii_case(a.language.as_str(), b.language.as_str())
}

fn i18n_vec_eq(a: &Vec<I18nString>, b: &Vec<I18nString>) -> (r: bool)
    ensures
        r == i18ns_eq(i18ns_view(a@), i18ns_view(b@)),
{
    if a.len() != b.len() {
        return false;
    }
    let mut i: usize = 0;
    while i < a.len()
        invariant
            i <= a.len(),
            a.len() == b.len(),
            forall|j: int| 0 <= j < i ==> i18n_eq((#[trigger] a@[j])@, b@[j]@),
        decreases a.len() - i,
    {
        if !i18n_eq_exec(&a[i], &b[i]) {
            assert(!i18n_eq(i18ns_view(a@)[i as int], i18ns_view(b@)[i as int]));
            return false;
        }
        i = i + 1;
    }
    true
}

fn ext_values_eq_exec(a: &ExtValues, b: &ExtValues) -> (r: bool)
    ensures
        r == ext_values_eq(a@, b@),
{
    match a {
        ExtValues::Plain(x) => match b {
            ExtValues::Plain(y) => strings_eq(x, y),
            ExtValues::I18n(_) => false,
        },
        ExtValues::I18n(x) => match b {
            ExtValues::Plain(_) => false,
            ExtValues::I18n(y) => i18n_vec_eq(x, y),
        },
    }
}

fn exts_eq_exec(a: &IndexMap<String, ExtValues>, b: &IndexMap<String, ExtValues>) -> (r: bool)
    ensures
        r == exts_eq(ext_entries(*a), ext_entries(*b)),
{
    let n = ext_map_len(a);
    if n != ext_map_len(b) {
        return false;
    }
    let ghost ea = ext_entries(*a);
    let ghost eb = ext_entries(*b);
    let mut i: usize = 0;
    while i < n
        invariant
            i <= n,
            n == ea.len(),
            ea.len() == eb.len(),
            ea == ext_entries(*a),
            eb == ext_entries(*b),
            forall|j: int| 0 <= j < i ==> {
                let k = entries_key_index(eb, (#[trigger] ea[j]).0);
                0 <= k && ext_values_eq(ea[j].1, eb[k].1)
            },
        decreases n - i,
    {
        match ext_map_get_index(a, i) {
            Some((k, v)) => {
                match ext_map_get(b, k.as_str()) {
                    Some(w) => {
                        if !ext_values_eq_exec(v, w) {
                            return false;
                        }
                    },
                    None => {
                        return false;
                    },
                }
            },
            None => {
                return false;
            },
        }
        i = i + 1;
    }
    true
}

fn opt_string_eq(a: &Option<String>, b: &Option<String>) -> (r: bool)
    ensures
        r == (opt_str_view(*a) == opt_str_view(*b)),
{
    match a {
        Some(x) => match b {
            Some(y) => str_eq(x.as_str(), y.as_str()),
            None => false,
        },
        None => b.is_none(),
    }
}

fn tags_eq_exec(a: &Vec<LanguageTag>, b: &Vec<LanguageTag>) -> (r: bool)
    ensures
        r == tags_eq(tags_view(a@), tags_view(b@)),
{
    if a.len() != b.len() {
        return false;
    }
    let mut i: usize = 0;
    while i < a.len()
        invariant
            i <= a.len(),
            a.len() == b.len(),
            forall|j: int| 0 <= j < i ==> eq_ignore_ascii_case((#[trigger] a@[j])@, b@[j]@),
        decreases a.len() - i,
    {
        if !str_eq_ignore_ascii_case(a[i].as_str(), b[i].as_str()) {
            assert(!eq_ignore_ascii_case(tags_view(a@)[i as int], tags_view(b@)[i as int]));
            return false;
        }
        i = i + 1;
    }
    true
}

impl PartialEq for Link {
    fn eq(&self, other: &Self) -> (r: bool) {
        let same_type = match &self.type_ {
            Some(x) => match &other.type_ {
                Some(y) => x.as_str().to_owned() == y.as_str().to_owned(),
                None => false,
            },
            None => other.type_.is_none(),
        };
        let same_i18n = match &self.title_i18n {
            Some(x) => match &other.title_i18n {
                Some(y) => i18n_eq_exec(x, y),
                None => false,
            },
            None => other.title_i18n.is_none(),
        };
        self.target.as_str().to_owned() == other.target.as_str().to_owned()
            && self.rel == other.rel
            && same_type
            && opt_string_eq(&self.title, &other.title)
            && same_i18n
            && tags_eq_exec(&self.hreflang, &other.hreflang)
            && opt_string_eq(&self.media, &other.media)
            && exts_eq_exec(&self.exts, &other.exts)
    }
}

impl vstd::std_specs::cmp::PartialEqSpecImpl for Link {
    open spec fn obeys_eq_spec() -> bool {
        true
    }

    open spec fn eq_spec(&self, other: &Self) -> bool {
        link_eq(self@, other@)
    }
}

} // verus!
