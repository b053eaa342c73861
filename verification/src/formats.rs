//! The two formats of a link set agree: its `application/linkset` text and its
//! `application/linkset+json` value read back into equal link sets.

use vstd::prelude::*;
use vstd::utf8::encode_utf8;

use crate::error::LinksetError;
use crate::json::round_trip::linkset_json_ok;
use crate::json::round_trip_sets::{group_links, json_context, lemma_json_reads, lemma_rel_groups, lemma_rel_groups_cover};
use crate::json::{JsonValue, is_linkset_json, json_result_ok, rel_groups};
use crate::model::ext_values::{ExtValuesView, entries_key_index, lemma_entries_key_index};
use crate::model::lang::i18n_eq;
use crate::model::link::{LinkView, ext_values_eq, link_eq, link_wf, tags_eq};
use crate::model::link_context::{ContextView, context_eq, context_wf, has_equal_link};
use crate::model::{Linkset, anchor_index, lemma_anchor_index, linkset_eq};
use crate::text::convert::text_result_ok;
use crate::text::round_trip::{context_text_ok, lemma_uris_read_back_without_base, linkset_quoted_one_line, linkset_text_ok};
use crate::text::round_trip_links::norm_link;
use crate::text::round_trip_sets::{lemma_norm_exts_eq, lemma_text_reads, norm_context};
use crate::text::write::linkset_text;

verus! {

/// A link as it reads back equals itself.
proof fn lemma_norm_link_reflexive(l: LinkView)
    requires
        link_wf(l),
    ensures
        link_eq(norm_link(l), norm_link(l)),
{
    let e = l.exts;
    let x = norm_link(l);
    let n = x.exts;
    lemma_norm_exts_eq(e);
    assert(tags_eq(x.hreflang, x.hreflang));
    if let Some(i) = x.title_i18n {
        assert(i18n_eq(i, i));
    }
    assert forall|i: int| 0 <= i < n.len() implies ({
        let j = entries_key_index(n, (#[trigger] n[i]).0);
        0 <= j && ext_values_eq(n[i].1, n[j].1)
    }) by {
        let key = n[i].0;
        lemma_entries_key_index(n, key);
        let j = entries_key_index(n, key);
        let m = entries_key_index(e, key);
        assert(n[j].0 == key);
        assert(0 <= m && ext_values_eq(n[i].1, e[m].1));
        assert(ext_values_eq(n[j].1, e[m].1));
        if let ExtValuesView::I18n(z) = e[m].1 {
            if let (ExtValuesView::I18n(a), ExtValuesView::I18n(b)) = (n[i].1, n[j].1) {
                assert forall|k: int| 0 <= k < a.len() implies i18n_eq(#[trigger] a[k], b[k]) by {
                    assert(i18n_eq(a[k], z[k]));
                    assert(i18n_eq(b[k], z[k]));
                }
            }
        }
    }
}

/// A context as the text reader gives it back and as the JSON reader gives it
/// back are equal, both ways.
proof fn lemma_context_agree(c: ContextView)
    requires
        context_wf(c),
    ensures
        context_eq(norm_context(c), json_context(c)),
        context_eq(json_context(c), norm_context(c)),
{
    let a = norm_context(c);
    let b = json_context(c);
    let f = group_links(rel_groups(c.links));
    lemma_rel_groups(c.links);
    lemma_rel_groups_cover(c.links);
    assert forall|k: int| 0 <= k < a.links.len() implies has_equal_link(b.links, #[trigger] a.links[k]) by {
        let l = c.links[k];
        let i = choose|i: int| 0 <= i < f.len() && #[trigger] c.links[k] == f[i];
        assert(a.links[k] == norm_link(l));
        assert(b.links[i] == norm_link(f[i]));
        assert(link_wf(l));
        lemma_norm_link_reflexive(l);
        assert(link_eq(a.links[k], b.links[i]));
    }
    assert forall|k: int| 0 <= k < b.links.len() implies has_equal_link(a.links, #[trigger] b.links[k]) by {
        let j = choose|j: int| 0 <= j < c.links.len() && #[trigger] c.links[j] == #[trigger] f[k];
        assert(b.links[k] == norm_link(f[k]));
        assert(a.links[j] == norm_link(c.links[j]));
        assert(link_wf(c.links[j]));
        lemma_norm_link_reflexive(c.links[j]);
        assert(link_eq(b.links[k], a.links[j]));
    }
}

/// The text and the JSON value that the writers give for a link set that both
/// formats can carry read back, without a base, into equal link sets, compared
/// either way. The text may be pretty, or compact where its quoted values hold
/// no line break.
pub proof fn text_and_json_agree(
    cs: Seq<ContextView>,
    pretty: bool,
    v: JsonValue,
    rt: Result<Linkset, LinksetError>,
    rj: Result<Linkset, LinksetError>,
)
    requires
        linkset_text_ok(cs),
        linkset_json_ok(cs),
        !pretty ==> linkset_quoted_one_line(cs),
        is_linkset_json(v, cs),
        text_result_ok(rt, encode_utf8(linkset_text(cs, None, pretty)), None),
        json_result_ok(rj, v, None),
    ensures
        rt matches Ok(t) && rj matches Ok(j) && linkset_eq(t@, j@) && linkset_eq(j@, t@),
{
    lemma_uris_read_back_without_base(cs);
    lemma_text_reads(cs, None, None, pretty, rt);
    lemma_json_reads(cs, v, rj);
    let a = cs.map_values(|c: ContextView| norm_context(c));
    let b = cs.map_values(|c: ContextView| json_context(c));
    assert forall|i: int| 0 <= i < a.len() implies ({
        let j = anchor_index(b, (#[trigger] a[i]).anchor);
        0 <= j && context_eq(a[i], b[j])
    }) by {
        lemma_anchor_index(b, a[i].anchor);
        let j = anchor_index(b, a[i].anchor);
        assert(b[i].anchor == a[i].anchor);
        if j != i {
            assert(b[j].anchor == cs[j].anchor);
            assert(cs[j].anchor != cs[i].anchor);
        }
        assert(context_text_ok(cs[i]));
        lemma_context_agree(cs[i]);
    }
    assert forall|i: int| 0 <= i < b.len() implies ({
        let j = anchor_index(a, (#[trigger] b[i]).anchor);
        0 <= j && context_eq(b[i], a[j])
    }) by {
        lemma_anchor_index(a, b[i].anchor);
        let j = anchor_index(a, b[i].anchor);
        assert(a[i].anchor == b[i].anchor);
        if j != i {
            assert(a[j].anchor == cs[j].anchor);
            assert(cs[j].anchor != cs[i].anchor);
        }
        assert(context_text_ok(cs[i]));
        lemma_context_agree(cs[i]);
    }
}

} // verus!
