//! From parsed link-values to link contexts (RFC 9264 §4.1, RFC 8288 §3).
//!
//! The parameters of a link-value are read in order: `rel` may hold several
//! relation types separated by white space, each giving a link; `anchor`,
//! `type`, `title`, `title*` and `media` keep their last value; `hreflang`
//! and the extension attributes gather all their values; `rev` is ignored.

use vstd::prelude::*;
use vstd::utf8::encode_utf8;

use crate::external::{check_language_tag, is_valid_language_tag};
use crate::model::ext_token::is_valid_token;
use crate::model::lang::{I18nString, LanguageTag};
use crate::model::link::{opt_i18n_view, opt_media_view, opt_str_view, tags_view};
use crate::model::media_type::MediaType;
use crate::model::rel_type::RelType;
use crate::message::{cat, cat_debug, invalid_uri_msg};
use crate::strs::{str_eq, str_ends_with_char, to_ascii_lowercase};
use super::decode::{decode_ext_value, split_ascii_whitespace};
use super::parser::{Entry, ParamValue, params_view};
use super::grammar::{EntryView, parse_document};
use super::parser::{entries_view, parse_all_entries};
use crate::model::{Linkset, contexts_view, from_contexts_ok};
use crate::error::LinksetError;
use crate::external::{ext_map_new, is_valid_uri};
use crate::model::ext_values::{ExtValuesView, i18ns_view, strings_view};
use crate::model::link::{Link, LinkView, copy_tags, ext_entry_ok};
use crate::model::link_context::{ContextView, LinkContext, first_dup_from, links_view};
use crate::model::uri::{Uri, base_ok, base_view, check_base, resolve, resolve_spec};
use crate::model::ext_token::{ext_key_problem, is_token};
use crate::model::lang::I18nView;
use crate::model::media_type::is_media_type;
use crate::model::rel_type::{RelTypeView, rel_of_str};
use crate::model::ext_values::{entries_key_index, lemma_entries_key_index};
use crate::strs::{ascii_lower, ascii_lowercase, ends_with_char};
use super::decode::{decoded_ext_value, words_from};
use super::grammar::ParamView;

verus! {

/// The attributes gathered from the parameters of one link-value.
pub struct ParamsView {
    pub rels: Seq<RelTypeView>,
    pub anchor: Option<Seq<char>>,
    pub type_: Option<Seq<char>>,
    pub title: Option<Seq<char>>,
    pub title_i18n: Option<I18nView>,
    pub hreflang: Seq<Seq<char>>,
    pub media: Option<Seq<char>>,
    /// Plain extension attributes: each key once, in the order of first
    /// occurrence, with all its values in order.
    pub exts: Seq<(Seq<char>, Seq<Seq<char>>)>,
    /// Internationalised extension attributes, gathered in the same way.
    pub exts_i18n: Seq<(Seq<char>, Seq<I18nView>)>,
}

/// Nothing gathered yet.
pub open spec fn no_params() -> ParamsView {
    ParamsView {
        rels: Seq::empty(),
        anchor: None,
        type_: None,
        title: None,
        title_i18n: None,
        hreflang: Seq::empty(),
        media: None,
        exts: Seq::empty(),
        exts_i18n: Seq::empty(),
    }
}

/// The string of a plain parameter value.
pub open spec fn plain_of(v: ParamView) -> Option<Seq<char>> {
    match v {
        ParamView::Plain(s) => Some(s),
        ParamView::Ext { .. } => None,
    }
}

/// The relation types named by the words, if every word names one.
pub open spec fn rels_of(words: Seq<Seq<char>>) -> Option<Seq<RelTypeView>> {
    if forall|i: int| 0 <= i < words.len() ==> (#[trigger] rel_of_str(words[i])) is Some {
        Some(words.map_values(|w: Seq<char>| rel_of_str(w)->0))
    } else {
        None
    }
}

/// Add a value to the group of key `k`: at the end of its values if the key
/// is there, else as a new group at the end.
pub open spec fn append_group<V>(g: Seq<(Seq<char>, Seq<V>)>, k: Seq<char>, v: V) -> Seq<(Seq<char>, Seq<V>)> {
    let i = entries_key_index(g, k);
    if i >= 0 {
        g.update(i, (k, g[i].1.push(v)))
    } else {
        g.push((k, seq![v]))
    }
}

/// One parameter read into the gathered attributes, or `None` when it is
/// refused. The name is matched without regard to ASCII case.
pub open spec fn apply_param(st: ParamsView, name: Seq<char>, v: ParamView) -> Option<ParamsView> {
    let n = ascii_lowercase(name);
    if n == seq!['r', 'e', 'l'] {
        match plain_of(v) {
            Some(s) => match rels_of(words_from(s, 0)) {
                Some(rs) => Some(ParamsView { rels: st.rels + rs, ..st }),
                None => None,
            },
            None => None,
        }
    } else if n == seq!['a', 'n', 'c', 'h', 'o', 'r'] {
        match plain_of(v) {
            Some(s) => Some(ParamsView { anchor: Some(s), ..st }),
            None => None,
        }
    } else if n == seq!['t', 'y', 'p', 'e'] {
        match plain_of(v) {
            Some(s) => if is_media_type(s) {
                Some(ParamsView { type_: Some(s), ..st })
            } else {
                None
            },
            None => None,
        }
    } else if n == seq!['t', 'i', 't', 'l', 'e'] {
        match plain_of(v) {
            Some(s) => Some(ParamsView { title: Some(s), ..st }),
            None => None,
        }
    } else if n == seq!['t', 'i', 't', 'l', 'e', '*'] {
        match decoded_ext_value(v) {
            Some(i) => Some(ParamsView { title_i18n: Some(i), ..st }),
            None => None,
        }
    } else if n == seq!['h', 'r', 'e', 'f', 'l', 'a', 'n', 'g'] {
        match plain_of(v) {
            Some(s) => if is_valid_language_tag(s) {
                Some(ParamsView { hreflang: st.hreflang.push(s), ..st })
            } else {
                None
            },
            None => None,
        }
    } else if n == seq!['m', 'e', 'd', 'i', 'a'] {
        match plain_of(v) {
            Some(s) => Some(ParamsView { media: Some(s), ..st }),
            None => None,
        }
    } else if n == seq!['r', 'e', 'v'] {
        Some(st)
    } else if !is_token(n) {
        None
    } else if ends_with_char(n, '*') {
        match decoded_ext_value(v) {
            Some(i) => Some(ParamsView { exts_i18n: append_group(st.exts_i18n, n, i), ..st }),
            None => None,
        }
    } else {
        match plain_of(v) {
            Some(s) => Some(ParamsView { exts: append_group(st.exts, n, s), ..st }),
            None => None,
        }
    }
}

/// The parameters read in order, stopping at the first one refused.
pub open spec fn apply_params(st: ParamsView, ps: Seq<(Seq<char>, ParamView)>) -> Option<ParamsView>
    decreases ps.len(),
{
    if ps.len() == 0 {
        Some(st)
    } else {
        match apply_param(st, ps[0].0, ps[0].1) {
            Some(s) => apply_params(s, ps.drop_first()),
            None => None,
        }
    }
}

/// No key occurs in two groups.
pub open spec fn group_keys_unique<V>(g: Seq<(Seq<char>, V)>) -> bool {
    forall|i: int, j: int| 0 <= i < g.len() && 0 <= j < g.len() && i != j ==> #[trigger] g[i].0 != #[trigger] g[j].0
}

/// A group as a link keeps it: a lower-case key valid for its kind, and values.
pub open spec fn group_ok<V>(g: (Seq<char>, Seq<V>), i18n: bool) -> bool {
    ascii_lowercase(g.0) == g.0 && ext_key_problem(g.0, i18n) is None && g.1.len() > 0
}

/// What reading parameters keeps of the extension groups.
pub open spec fn params_wf(st: ParamsView) -> bool {
    &&& group_keys_unique(st.exts)
    &&& group_keys_unique(st.exts_i18n)
    &&& forall|i: int| 0 <= i < st.exts.len() ==> group_ok(#[trigger] st.exts[i], false)
    &&& forall|i: int| 0 <= i < st.exts_i18n.len() ==> group_ok(#[trigger] st.exts_i18n[i], true)
}

pub proof fn lemma_ascii_lowercase_idem(s: Seq<char>)
    ensures
        ascii_lowercase(ascii_lowercase(s)) == ascii_lowercase(s),
{
    assert forall|i: int| 0 <= i < s.len() implies ascii_lower(ascii_lower(#[trigger] s[i])) == ascii_lower(s[i]) by {
        let c = s[i];
        if 'A' <= c && c <= 'Z' {
            assert((((c as u32) + 32) as char) as u32 == (c as u32) + 32);
        }
    }
    assert(ascii_lowercase(ascii_lowercase(s)) =~= ascii_lowercase(s));
}

proof fn lemma_append_group<V>(g: Seq<(Seq<char>, Seq<V>)>, k: Seq<char>, v: V)
    requires
        group_keys_unique(g),
    ensures
        group_keys_unique(append_group(g, k, v)),
        forall|i: int| 0 <= i < append_group(g, k, v).len() ==> {
            ||| (#[trigger] append_group(g, k, v)[i]).0 == k && append_group(g, k, v)[i].1.len() > 0
            ||| i < g.len() && append_group(g, k, v)[i] == g[i]
        },
{
    lemma_entries_key_index(g, k);
    let r = append_group(g, k, v);
    let i = entries_key_index(g, k);
    if i >= 0 {
        assert forall|a: int, b: int| 0 <= a < r.len() && 0 <= b < r.len() && a != b implies #[trigger] r[a].0 != #[trigger] r[b].0 by {
            assert(r[a].0 == g[a].0);
            assert(r[b].0 == g[b].0);
        }
    } else {
        assert forall|a: int, b: int| 0 <= a < r.len() && 0 <= b < r.len() && a != b implies #[trigger] r[a].0 != #[trigger] r[b].0 by {
            if a < g.len() && b < g.len() {
                assert(r[a].0 == g[a].0);
                assert(r[b].0 == g[b].0);
            } else if a < g.len() {
                assert(g[a].0 != k);
            } else {
                assert(g[b].0 != k);
            }
        }
    }
}

/// A key that passes the checks of [`apply_param`] for an extension attribute
/// is a valid one.
proof fn lemma_ext_key(n: Seq<char>)
    requires
        is_token(n),
        n != seq!['r', 'e', 'l'],
        n != seq!['a', 'n', 'c', 'h', 'o', 'r'],
        n != seq!['t', 'y', 'p', 'e'],
        n != seq!['t', 'i', 't', 'l', 'e'],
        n != seq!['t', 'i', 't', 'l', 'e', '*'],
        n != seq!['h', 'r', 'e', 'f', 'l', 'a', 'n', 'g'],
        n != seq!['m', 'e', 'd', 'i', 'a'],
        n != seq!['r', 'e', 'v'],
    ensures
        ends_with_char(n, '*') ==> ext_key_problem(n, true) is None,
        !ends_with_char(n, '*') ==> ext_key_problem(n, false) is None,
{
}

pub proof fn lemma_apply_param_wf(st: ParamsView, name: Seq<char>, v: ParamView)
    requires
        params_wf(st),
    ensures
        apply_param(st, name, v) matches Some(s) ==> params_wf(s),
{
    let n = ascii_lowercase(name);
    lemma_ascii_lowercase_idem(name);
    if apply_param(st, name, v) is Some && n != seq!['r', 'e', 'l'] && n != seq!['a', 'n', 'c', 'h', 'o', 'r']
        && n != seq!['t', 'y', 'p', 'e'] && n != seq!['t', 'i', 't', 'l', 'e']
        && n != seq!['t', 'i', 't', 'l', 'e', '*'] && n != seq!['h', 'r', 'e', 'f', 'l', 'a', 'n', 'g']
        && n != seq!['m', 'e', 'd', 'i', 'a'] && n != seq!['r', 'e', 'v'] {
        lemma_ext_key(n);
        let s = apply_param(st, name, v)->0;
        if ends_with_char(n, '*') {
            let i18n = decoded_ext_value(v)->0;
            lemma_append_group(st.exts_i18n, n, i18n);
            assert(s.exts_i18n == append_group(st.exts_i18n, n, i18n));
            assert forall|i: int| 0 <= i < s.exts_i18n.len() implies group_ok(#[trigger] s.exts_i18n[i], true) by {
                if s.exts_i18n[i].0 == n && s.exts_i18n[i].1.len() > 0 {
                } else {
                    assert(s.exts_i18n[i] == st.exts_i18n[i]);
                }
            }
        } else {
            let p = plain_of(v)->0;
            lemma_append_group(st.exts, n, p);
            assert(s.exts == append_group(st.exts, n, p));
            assert forall|i: int| 0 <= i < s.exts.len() implies group_ok(#[trigger] s.exts[i], false) by {
                if s.exts[i].0 == n && s.exts[i].1.len() > 0 {
                } else {
                    assert(s.exts[i] == st.exts[i]);
                }
            }
        }
    }
}

pub proof fn lemma_apply_params_wf(st: ParamsView, ps: Seq<(Seq<char>, ParamView)>)
    requires
        params_wf(st),
    ensures
        apply_params(st, ps) matches Some(s) ==> params_wf(s),
    decreases ps.len(),
{
    if ps.len() > 0 {
        lemma_apply_param_wf(st, ps[0].0, ps[0].1);
        if let Some(s) = apply_param(st, ps[0].0, ps[0].1) {
            lemma_apply_params_wf(s, ps.drop_first());
        }
    }
}

/// The attributes gathered so far.
struct ParamState {
    rels: Vec<RelType>,
    anchor: Option<String>,
    type_: Option<MediaType>,
    title: Option<String>,
    title_i18n: Option<I18nString>,
    hreflang: Vec<LanguageTag>,
    media: Option<String>,
    exts: Vec<(String, Vec<String>)>,
    exts_i18n: Vec<(String, Vec<I18nString>)>,
}

/// The abstract value of groups of values.
pub open spec fn groups_view<V: View>(g: Seq<(String, Vec<V>)>) -> Seq<(Seq<char>, Seq<V::V>)> {
    g.map_values(|p: (String, Vec<V>)| (p.0@, p.1@.map_values(|x: V| x@)))
}

pub open spec fn rels_view(v: Seq<RelType>) -> Seq<RelTypeView> {
    v.map_values(|r: RelType| r@)
}

impl View for ParamState {
    type V = ParamsView;

    closed spec fn view(&self) -> ParamsView {
        ParamsView {
            rels: rels_view(self.rels@),
            anchor: opt_str_view(self.anchor),
            type_: opt_media_view(self.type_),
            title: opt_str_view(self.title),
            title_i18n: opt_i18n_view(self.title_i18n),
            hreflang: tags_view(self.hreflang@),
            media: opt_str_view(self.media),
            exts: groups_view(self.exts@),
            exts_i18n: groups_view(self.exts_i18n@),
        }
    }
}

/// Add a value to the group of key `k`.
fn add_to_group<V: View>(g: &mut Vec<(String, Vec<V>)>, k: String, v: V)
    ensures
        groups_view(final(g)@) == append_group(groups_view(old(g)@), k@, v@),
{
    let ghost old_g = groups_view(g@);
    proof {
        lemma_entries_key_index(old_g, k@);
    }
    let mut i: usize = 0;
    while i < g.len()
        invariant
            i <= g.len(),
            old_g == groups_view(g@),
            old_g == groups_view(old(g)@),
            forall|j: int| 0 <= j < i ==> (#[trigger] g@[j]).0@ != k@,
        decreases g.len() - i,
    {
        if str_eq(g[i].0.as_str(), k.as_str()) {
            assert(old_g[i as int].0 == k@);
            assert forall|j: int| 0 <= j < i implies #[trigger] old_g[j].0 != k@ by {
                assert(old_g[j].0 == g@[j].0@);
            }
            proof {
                lemma_entries_key_index(old_g, k@);
                let r = entries_key_index(old_g, k@);
                if r == -1 {
                    assert(old_g[i as int].0 != k@);
                }
                if 0 <= r < i {
                    assert(old_g[r].0 == g@[r].0@);
                }
                assert(r == i);
            }
            let ghost gi = g@[i as int];
            g[i].1.push(v);
            assert(g@[i as int].1@ == gi.1@.push(v));
            assert(g@[i as int].1@.map_values(|x: V| x@) =~= gi.1@.map_values(|x: V| x@).push(v@));
            assert(groups_view(g@) =~= old_g.update(i as int, (k@, old_g[i as int].1.push(v@))));
            assert(old_g == groups_view(old(g)@));
            assert(groups_view(g@) == append_group(old_g, k@, v@));
            return;
        }
        i = i + 1;
    }
    assert forall|j: int| 0 <= j < old_g.len() implies #[trigger] old_g[j].0 != k@ by {
        assert(old_g[j].0 == g@[j].0@);
    }
    let ghost vv = v@;
    let one = vec![v];
    assert(one@.map_values(|x: V| x@) =~= seq![vv]);
    g.push((k, one));
    assert(groups_view(g@) =~= old_g.push((k@, seq![vv])));
}

/// The names of the parameters that [`apply_param`] knows.
proof fn lemma_param_names()
    ensures
        "rel"@ == seq!['r', 'e', 'l'],
        "anchor"@ == seq!['a', 'n', 'c', 'h', 'o', 'r'],
        "type"@ == seq!['t', 'y', 'p', 'e'],
        "title"@ == seq!['t', 'i', 't', 'l', 'e'],
        "title*"@ == seq!['t', 'i', 't', 'l', 'e', '*'],
        "hreflang"@ == seq!['h', 'r', 'e', 'f', 'l', 'a', 'n', 'g'],
        "media"@ == seq!['m', 'e', 'd', 'i', 'a'],
        "rev"@ == seq!['r', 'e', 'v'],
{
    reveal_strlit("rel");
    reveal_strlit("anchor");
    reveal_strlit("type");
    reveal_strlit("title");
    reveal_strlit("title*");
    reveal_strlit("hreflang");
    reveal_strlit("media");
    reveal_strlit("rev");
    assert("rel"@ =~= seq!['r', 'e', 'l']);
    assert("anchor"@ =~= seq!['a', 'n', 'c', 'h', 'o', 'r']);
    assert("type"@ =~= seq!['t', 'y', 'p', 'e']);
    assert("title"@ =~= seq!['t', 'i', 't', 'l', 'e']);
    assert("title*"@ =~= seq!['t', 'i', 't', 'l', 'e', '*']);
    assert("hreflang"@ =~= seq!['h', 'r', 'e', 'f', 'l', 'a', 'n', 'g']);
    assert("media"@ =~= seq!['m', 'e', 'd', 'i', 'a']);
    assert("rev"@ =~= seq!['r', 'e', 'v']);
}

/// A text error with the given message.
fn text_err(m: String) -> (r: LinksetError)
    ensures
        r is Text,
{
    LinksetError::Text(m)
}

/// The error for an ext-value where a plain value is expected.
fn plain_expected() -> (r: LinksetError)
    ensures
        r is Text,
{
    text_err("unexpected ext-value for plain attribute".to_owned())
}

/// The relation types named by the words of a `rel` value, appended to those gathered.
fn add_rels(st: &mut ParamState, s: &str) -> (r: Result<(), LinksetError>)
    ensures
        match rels_of(words_from(s@, 0)) {
            Some(rs) => r is Ok && final(st)@ == (ParamsView { rels: old(st)@.rels + rs, ..old(st)@ }),
            None => r matches Err(e) && e is Text,
        },
{
    let words = split_ascii_whitespace(s);
    let ghost ws = words_from(s@, 0);
    let ghost before = st@;
    let mut i: usize = 0;
    while i < words.len()
        invariant
            i <= words.len(),
            words@.map_values(|w: String| w@) == ws,
            ws == words_from(s@, 0),
            before == old(st)@,
            forall|j: int| 0 <= j < i ==> (#[trigger] rel_of_str(ws[j])) is Some,
            st@ == (ParamsView {
                rels: before.rels + ws.subrange(0, i as int).map_values(|w: Seq<char>| rel_of_str(w)->0),
                ..before
            }),
        decreases words.len() - i,
    {
        assert(words@[i as int]@ == ws[i as int]);
        match RelType::new(words[i].clone()) {
            Some(r) => {
                let ghost rs = rels_view(st.rels@);
                st.rels.push(r);
                assert(rels_view(st.rels@) =~= rs.push(r@));
                assert(ws.subrange(0, i + 1).map_values(|w: Seq<char>| rel_of_str(w)->0)
                    =~= ws.subrange(0, i as int).map_values(|w: Seq<char>| rel_of_str(w)->0).push(r@));
            },
            None => {
                return Err(text_err(cat_debug("invalid rel type: ", words[i].as_str(), "")));
            },
        }
        i = i + 1;
    }
    assert(ws.subrange(0, ws.len() as int) =~= ws);
    Ok(())
}

/// Read one parameter into the gathered attributes; a text error when it is
/// refused.
fn apply_param_exec(st: &mut ParamState, name: &str, value: &ParamValue) -> (r: Result<(), LinksetError>)
    ensures
        match apply_param(old(st)@, name@, value@) {
            Some(s) => r is Ok && final(st)@ == s,
            None => r matches Err(e) && e is Text,
        },
{
    let n = to_ascii_lowercase(name);
    proof {
        lemma_param_names();
    }
    if str_eq(n.as_str(), "rel") {
        match value {
            ParamValue::Plain(s) => add_rels(st, s.as_str()),
            ParamValue::Ext { .. } => Err(plain_expected()),
        }
    } else if str_eq(n.as_str(), "anchor") {
        match value {
            ParamValue::Plain(s) => {
                st.anchor = Some(s.clone());
                Ok(())
            },
            ParamValue::Ext { .. } => Err(plain_expected()),
        }
    } else if str_eq(n.as_str(), "type") {
        match value {
            ParamValue::Plain(s) => match MediaType::new(s.clone()) {
                Ok(m) => {
                    st.type_ = Some(m);
                    Ok(())
                },
                Err(e) => Err(text_err(cat_debug("invalid media type ", s.as_str(), cat(": ", e.message().as_str()).as_str()))),
            },
            ParamValue::Ext { .. } => Err(plain_expected()),
        }
    } else if str_eq(n.as_str(), "title") {
        match value {
            ParamValue::Plain(s) => {
                st.title = Some(s.clone());
                Ok(())
            },
            ParamValue::Ext { .. } => Err(plain_expected()),
        }
    } else if str_eq(n.as_str(), "title*") {
        match decode_ext_value(value) {
            Ok(i) => {
                st.title_i18n = Some(i);
                Ok(())
            },
            Err(e) => Err(e),
        }
    } else if str_eq(n.as_str(), "hreflang") {
        match value {
            ParamValue::Plain(s) => match LanguageTag::new(s.clone()) {
                Ok(t) => {
                    let ghost tv = tags_view(st.hreflang@);
                    st.hreflang.push(t);
                    assert(tags_view(st.hreflang@) =~= tv.push(s@));
                    Ok(())
                },
                Err(_) => Err(text_err(cat_debug("invalid hreflang tag: ", s.as_str(), ""))),
            },
            ParamValue::Ext { .. } => Err(plain_expected()),
        }
    } else if str_eq(n.as_str(), "media") {
        match value {
            ParamValue::Plain(s) => {
                st.media = Some(s.clone());
                Ok(())
            },
            ParamValue::Ext { .. } => Err(plain_expected()),
        }
    } else if str_eq(n.as_str(), "rev") {
        Ok(())
    } else if !is_valid_token(n.as_str()) {
        Err(text_err(cat_debug("invalid extension attribute key ", name, "")))
    } else if str_ends_with_char(n.as_str(), '*') {
        match decode_ext_value(value) {
            Ok(i) => {
                add_to_group(&mut st.exts_i18n, n, i);
                Ok(())
            },
            Err(e) => Err(e),
        }
    } else {
        match value {
            ParamValue::Plain(s) => {
                add_to_group(&mut st.exts, n, s.clone());
                Ok(())
            },
            ParamValue::Ext { .. } => Err(plain_expected()),
        }
    }
}

/// The parameters of a link-value read in order.
fn read_params(params: &Vec<(String, ParamValue)>) -> (r: Result<ParamState, LinksetError>)
    ensures
        match apply_params(no_params(), params_view(params@)) {
            Some(s) => r matches Ok(x) && x@ == s,
            None => r matches Err(e) && e is Text,
        },
{
    let mut st = ParamState {
        rels: Vec::new(),
        anchor: None,
        type_: None,
        title: None,
        title_i18n: None,
        hreflang: Vec::new(),
        media: None,
        exts: Vec::new(),
        exts_i18n: Vec::new(),
    };
    assert(st@.rels =~= Seq::<RelTypeView>::empty());
    assert(st@.hreflang =~= Seq::<Seq<char>>::empty());
    assert(st@.exts =~= Seq::<(Seq<char>, Seq<Seq<char>>)>::empty());
    assert(st@.exts_i18n =~= Seq::<(Seq<char>, Seq<I18nView>)>::empty());
    assert(st@ == no_params());
    let ghost ps = params_view(params@);
    assert(ps.skip(0) =~= ps);
    let mut i: usize = 0;
    while i < params.len()
        invariant
            i <= params.len(),
            ps == params_view(params@),
            apply_params(no_params(), ps) == apply_params(st@, ps.skip(i as int)),
        decreases params.len() - i,
    {
        let ghost tail = ps.skip(i as int);
        assert(tail[0] == (params@[i as int].0@, params@[i as int].1@));
        assert(tail.drop_first() =~= ps.skip(i + 1));
        match apply_param_exec(&mut st, params[i].0.as_str(), &params[i].1) {
            Ok(()) => {},
            Err(e) => {
                return Err(e);
            },
        }
        i = i + 1;
    }
    assert(ps.skip(i as int) =~= Seq::<(Seq<char>, ParamView)>::empty());
    Ok(st)
}

/// The plain groups as extension entries.
pub open spec fn plain_entries(g: Seq<(Seq<char>, Seq<Seq<char>>)>) -> Seq<(Seq<char>, ExtValuesView)> {
    g.map_values(|p: (Seq<char>, Seq<Seq<char>>)| (p.0, ExtValuesView::Plain(p.1)))
}

/// The internationalised groups as extension entries.
pub open spec fn i18n_entries(g: Seq<(Seq<char>, Seq<I18nView>)>) -> Seq<(Seq<char>, ExtValuesView)> {
    g.map_values(|p: (Seq<char>, Seq<I18nView>)| (p.0, ExtValuesView::I18n(p.1)))
}

/// The link that the gathered attributes give for one relation type: the
/// plain extension attributes first, then the internationalised ones.
pub open spec fn link_of_params(target: Seq<char>, rel: RelTypeView, st: ParamsView) -> LinkView {
    LinkView {
        target,
        rel,
        type_: st.type_,
        title: st.title,
        title_i18n: st.title_i18n,
        hreflang: st.hreflang,
        media: st.media,
        exts: plain_entries(st.exts) + i18n_entries(st.exts_i18n),
    }
}

fn copy_strings(v: &Vec<String>) -> (r: Vec<String>)
    ensures
        strings_view(r@) == strings_view(v@),
{
    let mut r: Vec<String> = Vec::new();
    let mut i: usize = 0;
    while i < v.len()
        invariant
            i <= v.len(),
            r@.len() == i,
            forall|j: int| 0 <= j < i ==> (#[trigger] r@[j])@ == v@[j]@,
        decreases v.len() - i,
    {
        r.push(v[i].clone());
        i = i + 1;
    }
    assert(strings_view(r@) =~= strings_view(v@));
    r
}

fn copy_i18ns(v: &Vec<I18nString>) -> (r: Vec<I18nString>)
    ensures
        i18ns_view(r@) == i18ns_view(v@),
{
    let mut r: Vec<I18nString> = Vec::new();
    let mut i: usize = 0;
    while i < v.len()
        invariant
            i <= v.len(),
            r@.len() == i,
            forall|j: int| 0 <= j < i ==> (#[trigger] r@[j])@ == v@[j]@,
        decreases v.len() - i,
    {
        r.push(v[i].copied());
        i = i + 1;
    }
    assert(i18ns_view(r@) =~= i18ns_view(v@));
    r
}

/// The link of the gathered attributes for one relation type.
fn link_from_params(target: &Uri, rel: &RelType, st: &ParamState) -> (r: Link)
    requires
        params_wf(st@),
    ensures
        r@ == link_of_params(target@, rel@, st@),
{
    broadcast use crate::model::link::lemma_link_view;

    let mut l = Link {
        target: target.copied(),
        rel: rel.copied(),
        type_: match &st.type_ {
            Some(m) => Some(m.copied()),
            None => None,
        },
        title: match &st.title {
            Some(t) => Some(t.clone()),
            None => None,
        },
        title_i18n: match &st.title_i18n {
            Some(t) => Some(t.copied()),
            None => None,
        },
        hreflang: copy_tags(&st.hreflang),
        media: match &st.media {
            Some(t) => Some(t.clone()),
            None => None,
        },
        exts: ext_map_new(),
    };
    let ghost sv = st@;
    let ghost full = link_of_params(target@, rel@, sv);
    let ghost bare = LinkView { exts: Seq::empty(), ..full };
    assert(l@ == bare);
    assert(plain_entries(sv.exts.subrange(0, 0)) =~= Seq::<(Seq<char>, ExtValuesView)>::empty());
    let mut i: usize = 0;
    while i < st.exts.len()
        invariant
            i <= st.exts.len(),
            sv == st@,
            params_wf(sv),
            l@ == (LinkView { exts: plain_entries(sv.exts.subrange(0, i as int)), ..bare }),
        decreases st.exts.len() - i,
    {
        let ghost k = sv.exts[i as int].0;
        let ghost done = plain_entries(sv.exts.subrange(0, i as int));
        assert(group_ok(sv.exts[i as int], false));
        assert(st.exts@[i as int].0@ == k);
        proof {
            lemma_entries_key_index(done, k);
            assert forall|j: int| 0 <= j < done.len() implies #[trigger] done[j].0 != k by {
                assert(done[j].0 == sv.exts[j].0);
            }
        }
        let vs = copy_strings(&st.exts[i].1);
        assert(strings_view(vs@) =~= sv.exts[i as int].1);
        l.set_ext(st.exts[i].0.as_str(), vs);
        assert(plain_entries(sv.exts.subrange(0, i + 1)) =~= done.push((k, ExtValuesView::Plain(sv.exts[i as int].1))));
        i = i + 1;
    }
    assert(sv.exts.subrange(0, i as int) =~= sv.exts);
    let ghost plain = plain_entries(sv.exts);
    assert(plain + i18n_entries(sv.exts_i18n.subrange(0, 0)) =~= plain);
    let mut j: usize = 0;
    while j < st.exts_i18n.len()
        invariant
            j <= st.exts_i18n.len(),
            sv == st@,
            params_wf(sv),
            plain == plain_entries(sv.exts),
            l@ == (LinkView { exts: plain + i18n_entries(sv.exts_i18n.subrange(0, j as int)), ..bare }),
        decreases st.exts_i18n.len() - j,
    {
        let ghost k = sv.exts_i18n[j as int].0;
        let ghost done = plain + i18n_entries(sv.exts_i18n.subrange(0, j as int));
        assert(group_ok(sv.exts_i18n[j as int], true));
        assert(st.exts_i18n@[j as int].0@ == k);
        proof {
            lemma_entries_key_index(done, k);
            assert forall|m: int| 0 <= m < done.len() implies #[trigger] done[m].0 != k by {
                if m < plain.len() {
                    assert(done[m].0 == sv.exts[m].0);
                    assert(group_ok(sv.exts[m], false));
                } else {
                    assert(done[m].0 == sv.exts_i18n[m - plain.len()].0);
                }
            }
        }
        let vs = copy_i18ns(&st.exts_i18n[j].1);
        assert(i18ns_view(vs@) =~= sv.exts_i18n[j as int].1);
        l.set_ext_i18n(st.exts_i18n[j].0.as_str(), vs);
        assert(i18n_entries(sv.exts_i18n.subrange(0, j + 1))
            =~= i18n_entries(sv.exts_i18n.subrange(0, j as int)).push((k, ExtValuesView::I18n(sv.exts_i18n[j as int].1))));
        assert(plain + i18n_entries(sv.exts_i18n.subrange(0, j + 1)) =~= done.push((k, ExtValuesView::I18n(sv.exts_i18n[j as int].1))));
        j = j + 1;
    }
    assert(sv.exts_i18n.subrange(0, j as int) =~= sv.exts_i18n);
    l
}

/// The links of the gathered attributes, one per relation type, in order.
fn links_from_params(target: &Uri, st: &ParamState) -> (r: Vec<Link>)
    requires
        params_wf(st@),
    ensures
        links_view(r@) == st@.rels.map_values(|rel: RelTypeView| link_of_params(target@, rel, st@)),
{
    let ghost sv = st@;
    let ghost want = sv.rels.map_values(|rel: RelTypeView| link_of_params(target@, rel, sv));
    let mut r: Vec<Link> = Vec::new();
    let mut i: usize = 0;
    while i < st.rels.len()
        invariant
            i <= st.rels.len(),
            sv == st@,
            params_wf(sv),
            sv.rels.len() == st.rels.len(),
            want == sv.rels.map_values(|rel: RelTypeView| link_of_params(target@, rel, sv)),
            links_view(r@) == want.subrange(0, i as int),
        decreases st.rels.len() - i,
    {
        assert(sv.rels[i as int] == st.rels@[i as int]@);
        let l = link_from_params(target, &st.rels[i], st);
        let ghost before = links_view(r@);
        r.push(l);
        assert(links_view(r@) =~= before.push(l@));
        assert(want.subrange(0, i + 1) =~= want.subrange(0, i as int).push(want[i as int]));
        i = i + 1;
    }
    assert(want.subrange(0, i as int) =~= want);
    r
}

/// The anchor of a context: the `anchor` parameter resolved against the base,
/// or else the base itself.
pub open spec fn context_anchor(anchor: Option<Seq<char>>, base: Option<Seq<char>>) -> Option<Seq<char>> {
    match anchor {
        Some(a) => resolve_spec(base, a),
        None => base,
    }
}

/// Why a link-value gives no context.
pub enum ConvError {
    /// The link-value is invalid: a URI, a parameter, the anchor or the relation types.
    Text,
    /// The link-value gives the same link twice; the anchor and that link.
    Duplicate(Seq<char>, LinkView),
}

/// The context that a link-value gives: its target and anchor resolved, its
/// parameters read, one link per relation type (at least one).
pub open spec fn entry_context(e: EntryView, base: Option<Seq<char>>) -> Result<ContextView, ConvError> {
    match resolve_spec(base, e.target) {
        None => Err(ConvError::Text),
        Some(target) => match apply_params(no_params(), e.params) {
            None => Err(ConvError::Text),
            Some(st) => match context_anchor(st.anchor, base) {
                None => Err(ConvError::Text),
                Some(anchor) => if st.rels.len() == 0 {
                    Err(ConvError::Text)
                } else {
                    let links = st.rels.map_values(|rel: RelTypeView| link_of_params(target, rel, st));
                    let d = first_dup_from(links, 0);
                    if d < 0 {
                        Ok(ContextView { anchor, links })
                    } else {
                        Err(ConvError::Duplicate(anchor, links[d]))
                    }
                },
            },
        },
    }
}

/// A result matches what the specification gives: the context, a text
/// error, or the duplicate link with its anchor.
pub open spec fn context_result_ok(r: Result<LinkContext, LinksetError>, c: Result<ContextView, ConvError>) -> bool {
    match c {
        Ok(cv) => r matches Ok(x) && x@ == cv,
        Err(ConvError::Text) => r matches Err(LinksetError::Text(_)),
        Err(ConvError::Duplicate(a, l)) => r matches Err(LinksetError::DuplicateLink(x, rel, t)) && x@ == a
            && rel@ == l.rel && t@ == l.target,
    }
}

/// Convert one parsed link-value into a link context.
pub(crate) fn entry_to_link_context(entry: &Entry, base: Option<&Uri>) -> (r: Result<LinkContext, LinksetError>)
    requires
        base matches Some(b) ==> is_valid_uri(b@),
    ensures
        context_result_ok(r, entry_context(entry@, base_view(base))),
{
    let target = match resolve(base, entry.target.as_str()) {
        Ok(t) => t,
        Err(_) => {
            return Err(text_err(invalid_uri_msg("invalid target URI ", entry.target.as_str())));
        },
    };
    let st = match read_params(&entry.params) {
        Ok(s) => s,
        Err(e) => {
            return Err(e);
        },
    };
    proof {
        lemma_apply_params_wf(no_params(), params_view(entry.params@));
    }
    let anchor = match &st.anchor {
        Some(a) => match resolve(base, a.as_str()) {
            Ok(u) => u,
            Err(_) => {
                return Err(text_err(invalid_uri_msg("invalid anchor URI ", a.as_str())));
            },
        },
        None => match base {
            Some(b) => b.copied(),
            None => {
                return Err(LinksetError::Text("missing 'anchor' parameter and no base URI provided".to_owned()));
            },
        },
    };
    if st.rels.len() == 0 {
        return Err(LinksetError::Text("missing 'rel' parameter".to_owned()));
    }
    let links = links_from_params(&target, &st);
    LinkContext::new_with(anchor, links)
}

/// The contexts that the link-values give, in order, stopping at the first
/// link-value that gives none.
pub open spec fn entries_contexts(es: Seq<EntryView>, base: Option<Seq<char>>) -> Result<Seq<ContextView>, ConvError>
    decreases es.len(),
{
    if es.len() == 0 {
        Ok(Seq::empty())
    } else {
        match entry_context(es[0], base) {
            Err(e) => Err(e),
            Ok(c) => match entries_contexts(es.drop_first(), base) {
                Ok(cs) => Ok(seq![c] + cs),
                Err(e) => Err(e),
            },
        }
    }
}

/// `done` put before the contexts of a result.
pub open spec fn prepend_contexts(done: Seq<ContextView>, r: Result<Seq<ContextView>, ConvError>) -> Result<Seq<ContextView>, ConvError> {
    match r {
        Ok(cs) => Ok(done + cs),
        Err(e) => Err(e),
    }
}

/// What reading an `application/linkset` document gives: a text error when
/// the grammar refuses it or a link-value is invalid, the first link found
/// twice in a link-value, else the link set that its contexts build (contexts
/// with the same anchor merged; `Empty` for a document without link-values).
pub open spec fn text_result_ok(r: Result<Linkset, LinksetError>, bytes: Seq<u8>, base: Option<Seq<char>>) -> bool {
    match parse_document(bytes) {
        None => r matches Err(LinksetError::Text(_)),
        Some(es) => match entries_contexts(es, base) {
            Err(ConvError::Text) => r matches Err(LinksetError::Text(_)),
            Err(ConvError::Duplicate(a, l)) => r matches Err(LinksetError::DuplicateLink(x, rel, t)) && x@ == a
                && rel@ == l.rel && t@ == l.target,
            Ok(cs) => from_contexts_ok(r, cs),
        },
    }
}

/// Convert parsed link-values into a link set.
fn entries_to_linkset(entries: &Vec<Entry>, base: Option<&Uri>) -> (r: Result<Linkset, LinksetError>)
    requires
        base matches Some(b) ==> is_valid_uri(b@),
    ensures
        match entries_contexts(entries_view(entries@), base_view(base)) {
            Err(ConvError::Text) => r matches Err(LinksetError::Text(_)),
            Err(ConvError::Duplicate(a, l)) => r matches Err(LinksetError::DuplicateLink(x, rel, t)) && x@ == a
                && rel@ == l.rel && t@ == l.target,
            Ok(cs) => from_contexts_ok(r, cs),
        },
{
    let ghost es = entries_view(entries@);
    let ghost bv = base_view(base);
    let mut contexts: Vec<LinkContext> = Vec::new();
    assert(es.skip(0) =~= es);
    assert(contexts_view(contexts@) + Seq::<ContextView>::empty() =~= Seq::<ContextView>::empty());
    let mut i: usize = 0;
    while i < entries.len()
        invariant
            i <= entries.len(),
            es == entries_view(entries@),
            bv == base_view(base),
            base matches Some(b) ==> is_valid_uri(b@),
            entries_contexts(es, bv) == prepend_contexts(contexts_view(contexts@), entries_contexts(es.skip(i as int), bv)),
        decreases entries.len() - i,
    {
        let ghost tail = es.skip(i as int);
        assert(tail[0] == entries@[i as int]@);
        assert(tail.drop_first() =~= es.skip(i + 1));
        match entry_to_link_context(&entries[i], base) {
            Ok(c) => {
                let ghost before = contexts_view(contexts@);
                contexts.push(c);
                assert(contexts_view(contexts@) =~= before.push(c@));
                proof {
                    match entries_contexts(es.skip(i + 1), bv) {
                        Ok(cs) => {
                            assert(before + (seq![c@] + cs) =~= contexts_view(contexts@) + cs);
                        },
                        Err(_) => {},
                    }
                }
            },
            Err(e) => {
                return Err(e);
            },
        }
        i = i + 1;
    }
    assert(es.skip(i as int) =~= Seq::<EntryView>::empty());
    assert(contexts_view(contexts@) + Seq::<ContextView>::empty() =~= contexts_view(contexts@));
    Linkset::from_contexts(contexts)
}

impl Linkset {
    /// Create a link set from bytes in the `application/linkset` format of
    /// RFC 9264 §4.1. Link-values without an `anchor` parameter are anchored
    /// at `base`; relative references are resolved against it. A base that is
    /// not a valid URI is refused.
    pub fn from_text_slice(slice: &[u8], base: Option<&Uri>) -> (r: Result<Linkset, LinksetError>)
        ensures
            !base_ok(base_view(base)) ==> r matches Err(LinksetError::Text(_)),
            base_ok(base_view(base)) ==> text_result_ok(r, slice@, base_view(base)),
    {
        if !check_base(base) {
            return Err(LinksetError::Text("the base is not a valid URI".to_owned()));
        }
        match parse_all_entries(slice) {
            Some(entries) => entries_to_linkset(&entries, base),
            None => Err(LinksetError::Text("invalid application/linkset syntax".to_owned())),
        }
    }

    /// Create a link set from a string in the `application/linkset` format of
    /// RFC 9264 §4.1; see [`Linkset::from_text_slice`].
    pub fn from_text_str(s: &str, base: Option<&Uri>) -> (r: Result<Linkset, LinksetError>)
        ensures
            !base_ok(base_view(base)) ==> r matches Err(LinksetError::Text(_)),
            base_ok(base_view(base)) ==> text_result_ok(r, encode_utf8(s@), base_view(base)),
    {
        Linkset::from_text_slice(s.as_bytes(), base)
    }
}

} // verus!
