//! Reading back what the writer writes, continued: the link-values read back
//! give the links they were written from, and the link set that they build
//! equals the one written.

use vstd::prelude::*;
use vstd::utf8::{decode_utf8, encode_utf8, valid_utf8};

use crate::external::is_valid_uri;
use crate::model::ext_token::{ext_key_problem, is_token, is_well_known_i18n_key, is_well_known_key};
use crate::model::ext_values::{ExtValuesView, entries_key_index, lemma_entries_key_index};
use crate::model::lang::I18nView;
use crate::model::link::{LinkView, i18n_exts, plain_exts};
use crate::model::rel_type::{RelTypeView, rel_of_str, rel_text};
use crate::strs::{ascii_lower, ascii_lowercase, ends_with_char, eq_ignore_ascii_case};
use super::convert::{
    ParamsView, append_group, apply_param, apply_params, lemma_ascii_lowercase_idem, no_params, plain_of, rels_of,
};
use super::decode::{
    decoded_ext_value, hex_digit_value, hex_pair_value, is_ascii_ws_char, percent_bytes, percent_decoded,
    word_chars_end, words_from, ws_chars_end,
};
use super::grammar::ParamView;
use super::round_trip::{
    Item, ext_item, item_param, params_of, quoted_item, tag_item, tag_ok, uri_ok, plain_group_items, i18n_group_items,
    opt_items, title_i18n_items, attr_items, link_items, link_text_ok, lemma_plain_exts_member, lemma_i18n_exts_member,
};
use crate::model::link::{ext_entry_ok, link_wf};
use crate::model::media_type::is_media_type;
use crate::external::{is_uri_char, is_valid_language_tag, keys_unique};
use crate::strs::all_ascii;
use super::convert::group_keys_unique;
use super::write::{byte_pct, hex_upper, is_attr_byte, pct_encoded};
use super::convert::{ConvError, context_anchor, entry_context, i18n_entries, link_of_params, plain_entries};
use super::round_trip::entry_of;
use crate::model::link_context::{ContextView, first_dup_from};
use crate::model::uri::resolve_spec;

verus! {

// ── Reading parameters in order ──────────────────────────────────────────────

pub proof fn lemma_apply_params_add(st: ParamsView, a: Seq<(Seq<char>, ParamView)>, b: Seq<(Seq<char>, ParamView)>)
    ensures
        apply_params(st, a + b) == match apply_params(st, a) {
            Some(s) => apply_params(s, b),
            None => None,
        },
    decreases a.len(),
{
    if a.len() == 0 {
        assert(a + b =~= b);
    } else {
        assert((a + b)[0] == a[0]);
        assert((a + b).drop_first() =~= a.drop_first() + b);
        if let Some(s) = apply_param(st, a[0].0, a[0].1) {
            lemma_apply_params_add(s, a.drop_first(), b);
        }
    }
}

proof fn lemma_apply_params_one(st: ParamsView, p: (Seq<char>, ParamView))
    ensures
        apply_params(st, seq![p]) == apply_param(st, p.0, p.1),
{
    assert(seq![p].drop_first() =~= Seq::<(Seq<char>, ParamView)>::empty());
    assert(seq![p][0] == p);
    if let Some(s) = apply_param(st, p.0, p.1) {
        assert(apply_params(s, Seq::<(Seq<char>, ParamView)>::empty()) == Some(s));
    }
}

// ── Words and names ──────────────────────────────────────────────────────────

proof fn lemma_word_end(t: Seq<char>, i: int)
    requires
        0 <= i <= t.len(),
        forall|k: int| 0 <= k < t.len() ==> !is_ascii_ws_char(#[trigger] t[k]),
    ensures
        word_chars_end(t, i) == t.len(),
    decreases t.len() - i,
{
    if i < t.len() {
        lemma_word_end(t, i + 1);
    }
}

/// A non-empty text without white space is one word.
proof fn lemma_one_word(t: Seq<char>)
    requires
        t.len() > 0,
        forall|k: int| 0 <= k < t.len() ==> !is_ascii_ws_char(#[trigger] t[k]),
    ensures
        words_from(t, 0) == seq![t],
{
    assert(!is_ascii_ws_char(t[0]));
    assert(ws_chars_end(t, 0) == 0);
    lemma_word_end(t, 0);
    assert(ws_chars_end(t, t.len() as int) == t.len());
    assert(words_from(t, t.len() as int) =~= Seq::<Seq<char>>::empty());
    assert(t.subrange(0, t.len() as int) =~= t);
    assert(seq![t] + Seq::<Seq<char>>::empty() =~= seq![t]);
}

/// A name without upper-case letters is its own lower-case form.
proof fn lemma_lower_name(n: Seq<char>)
    requires
        forall|k: int| 0 <= k < n.len() ==> !('A' <= #[trigger] n[k] && n[k] <= 'Z'),
    ensures
        ascii_lowercase(n) == n,
{
    assert(ascii_lowercase(n) =~= n);
}

// ── Decoding what the writer encodes ─────────────────────────────────────────

proof fn lemma_hex_digit(d: u8)
    requires
        d < 16,
    ensures
        hex_digit_value(hex_upper(d)) == Some(d),
        hex_upper(d) != '+',
{
    if d < 10 {
        assert(hex_upper(d) as u32 == 48 + d);
    } else {
        assert(hex_upper(d) as u32 == 55 + d);
    }
}

pub proof fn lemma_pct_encoded_front(b: u8, rest: Seq<u8>)
    ensures
        pct_encoded(seq![b] + rest) == byte_pct(b) + pct_encoded(rest),
    decreases rest.len(),
{
    if rest.len() == 0 {
        assert(seq![b] + rest =~= seq![b]);
        assert(seq![b].drop_last() =~= Seq::<u8>::empty());
        assert(pct_encoded(Seq::<u8>::empty()) == Seq::<char>::empty());
        assert(pct_encoded(seq![b]) =~= byte_pct(b) + pct_encoded(rest));
    } else {
        assert((seq![b] + rest).drop_last() =~= seq![b] + rest.drop_last());
        lemma_pct_encoded_front(b, rest.drop_last());
        assert(pct_encoded(seq![b] + rest) =~= byte_pct(b) + pct_encoded(rest));
    }
}

/// Percent-decoding undoes the writer's encoding, byte for byte.
pub proof fn lemma_percent_bytes_encoded(b: Seq<u8>)
    ensures
        percent_bytes(pct_encoded(b), false) == Some(b),
    decreases b.len(),
{
    if b.len() > 0 {
        let x = b[0];
        let rest = b.drop_first();
        assert(b =~= seq![x] + rest);
        lemma_pct_encoded_front(x, rest);
        lemma_percent_bytes_encoded(rest);
        let p = byte_pct(x);
        let enc = p + pct_encoded(rest);
        if is_attr_byte(x) {
            let c = x as char;
            assert(p == seq![c]);
            assert(enc[0] == c);
            assert(c != '%');
            assert(enc.skip(1) =~= pct_encoded(rest));
            assert(vstd::utf8::is_ascii_chars(seq![c]));
            vstd::utf8::is_ascii_chars_encode_utf8(seq![c]);
            assert(encode_utf8(seq![c]) =~= seq![x]);
            assert(seq![x] + rest =~= b);
        } else {
            let h = x / 16;
            let l = x % 16;
            lemma_hex_digit(h);
            lemma_hex_digit(l);
            assert(enc[0] == '%');
            assert(enc[1] == hex_upper(h));
            assert(enc[2] == hex_upper(l));
            assert(hex_pair_value(enc[1], enc[2]) == Some(x));
            assert(enc.skip(3) =~= pct_encoded(rest));
            assert(seq![x] + rest =~= b);
        }
    }
}

/// An ext-value written in UTF-8 decodes to the string it was written from.
pub proof fn lemma_decode_ext_item(i: I18nView)
    requires
        tag_ok(i.language),
    ensures
        decoded_ext_value(ParamView::Ext {
            charset: seq!['U', 'T', 'F', '-', '8'],
            language: Some(i.language),
            encoded: pct_encoded(encode_utf8(i.value)),
        }) == Some(i),
{
    let us = seq!['U', 'S', '-', 'A', 'S', 'C', 'I', 'I'];
    let utf = seq!['U', 'T', 'F', '-', '8'];
    assert(ascii_lowercase(utf).len() != ascii_lowercase(us).len());
    assert(!eq_ignore_ascii_case(utf, us));
    assert(eq_ignore_ascii_case(utf, utf));
    lemma_percent_bytes_encoded(encode_utf8(i.value));
    vstd::utf8::encode_utf8_valid_utf8(i.value);
    vstd::utf8::encode_utf8_decode_utf8(i.value);
}

// ── What each parameter does ─────────────────────────────────────────────────

/// A plain extension attribute's value is added to its group.
proof fn lemma_apply_plain_ext(st: ParamsView, k: Seq<char>, v: Seq<char>)
    requires
        ascii_lowercase(k) == k,
        ext_key_problem(k, false) is None,
    ensures
        apply_param(st, k, ParamView::Plain(v)) == Some(ParamsView { exts: append_group(st.exts, k, v), ..st }),
{
    assert(!is_well_known_key(k));
    assert(k != seq!['t', 'i', 't', 'l', 'e', '*']) by {
        if k == seq!['t', 'i', 't', 'l', 'e', '*'] {
            assert(k.last() == '*');
        }
    }
}

/// An internationalised extension attribute's value is added to its group.
proof fn lemma_apply_i18n_ext(st: ParamsView, k: Seq<char>, i: I18nView)
    requires
        ascii_lowercase(k) == k,
        ext_key_problem(k, true) is None,
        tag_ok(i.language),
    ensures
        apply_param(st, k, ext_item(k, i).value) == Some(ParamsView { exts_i18n: append_group(st.exts_i18n, k, i), ..st }),
{
    assert(!is_well_known_i18n_key(k));
    assert(k.last() == '*');
    assert(k != seq!['r', 'e', 'l']);
    assert(k != seq!['a', 'n', 'c', 'h', 'o', 'r']);
    assert(k != seq!['t', 'y', 'p', 'e']);
    assert(k != seq!['t', 'i', 't', 'l', 'e']);
    assert(k != seq!['h', 'r', 'e', 'f', 'l', 'a', 'n', 'g']);
    assert(k != seq!['m', 'e', 'd', 'i', 'a']);
    assert(k != seq!['r', 'e', 'v']);
    lemma_decode_ext_item(i);
}

pub proof fn lemma_key_index_push<V>(x: Seq<(Seq<char>, V)>, k: Seq<char>, w: V)
    requires
        forall|j: int| 0 <= j < x.len() ==> (#[trigger] x[j]).0 != k,
    ensures
        entries_key_index(x.push((k, w)), k) == x.len(),
{
    let y = x.push((k, w));
    lemma_entries_key_index(y, k);
    lemma_entries_key_index(x, k);
    let r = entries_key_index(y, k);
    assert(y[x.len() as int].0 == k);
    if 0 <= r < x.len() {
        assert(y[r] == x[r]);
    }
}

/// The values of one plain attribute, read in order, make one new group.
proof fn lemma_apply_plain_values(st: ParamsView, k: Seq<char>, vals: Seq<Seq<char>>)
    requires
        vals.len() > 0,
        forall|j: int| 0 <= j < st.exts.len() ==> (#[trigger] st.exts[j]).0 != k,
        ascii_lowercase(k) == k,
        ext_key_problem(k, false) is None,
    ensures
        apply_params(st, params_of(vals.map_values(|v: Seq<char>| quoted_item(k, v))))
            == Some(ParamsView { exts: st.exts.push((k, vals)), ..st }),
    decreases vals.len(),
{
    let its = vals.map_values(|v: Seq<char>| quoted_item(k, v));
    if vals.len() == 1 {
        assert(params_of(its) =~= seq![(k, ParamView::Plain(vals[0]))]);
        lemma_apply_params_one(st, (k, ParamView::Plain(vals[0])));
        lemma_apply_plain_ext(st, k, vals[0]);
        lemma_entries_key_index(st.exts, k);
        assert(seq![vals[0]] =~= vals);
    } else {
        let w = vals.drop_last();
        let v = vals.last();
        let its_w = w.map_values(|v: Seq<char>| quoted_item(k, v));
        assert(params_of(its) =~= params_of(its_w) + seq![(k, ParamView::Plain(v))]);
        lemma_apply_params_add(st, params_of(its_w), seq![(k, ParamView::Plain(v))]);
        lemma_apply_plain_values(st, k, w);
        let st1 = ParamsView { exts: st.exts.push((k, w)), ..st };
        lemma_apply_params_one(st1, (k, ParamView::Plain(v)));
        lemma_apply_plain_ext(st1, k, v);
        lemma_key_index_push(st.exts, k, w);
        assert(w.push(v) =~= vals);
        assert(st.exts.push((k, w)).update(st.exts.len() as int, (k, w.push(v))) =~= st.exts.push((k, vals)));
    }
}

/// The values of one internationalised attribute, read in order, make one new group.
proof fn lemma_apply_i18n_values(st: ParamsView, k: Seq<char>, vals: Seq<I18nView>)
    requires
        vals.len() > 0,
        forall|j: int| 0 <= j < st.exts_i18n.len() ==> (#[trigger] st.exts_i18n[j]).0 != k,
        ascii_lowercase(k) == k,
        ext_key_problem(k, true) is None,
        forall|m: int| 0 <= m < vals.len() ==> tag_ok((#[trigger] vals[m]).language),
    ensures
        apply_params(st, params_of(vals.map_values(|v: I18nView| ext_item(k, v))))
            == Some(ParamsView { exts_i18n: st.exts_i18n.push((k, vals)), ..st }),
    decreases vals.len(),
{
    let its = vals.map_values(|v: I18nView| ext_item(k, v));
    if vals.len() == 1 {
        assert(tag_ok(vals[0].language));
        assert(params_of(its) =~= seq![(k, ext_item(k, vals[0]).value)]);
        lemma_apply_params_one(st, (k, ext_item(k, vals[0]).value));
        lemma_apply_i18n_ext(st, k, vals[0]);
        lemma_entries_key_index(st.exts_i18n, k);
        assert(seq![vals[0]] =~= vals);
    } else {
        let w = vals.drop_last();
        let v = vals.last();
        assert(tag_ok(vals[vals.len() - 1].language));
        assert forall|m: int| 0 <= m < w.len() implies tag_ok((#[trigger] w[m]).language) by {
            assert(w[m] == vals[m]);
        }
        let its_w = w.map_values(|v: I18nView| ext_item(k, v));
        assert(params_of(its) =~= params_of(its_w) + seq![(k, ext_item(k, v).value)]);
        lemma_apply_params_add(st, params_of(its_w), seq![(k, ext_item(k, v).value)]);
        lemma_apply_i18n_values(st, k, w);
        let st1 = ParamsView { exts_i18n: st.exts_i18n.push((k, w)), ..st };
        lemma_apply_params_one(st1, (k, ext_item(k, v).value));
        lemma_apply_i18n_ext(st1, k, v);
        lemma_key_index_push(st.exts_i18n, k, w);
        assert(w.push(v) =~= vals);
        assert(st.exts_i18n.push((k, w)).update(st.exts_i18n.len() as int, (k, w.push(v))) =~= st.exts_i18n.push((k, vals)));
    }
}

// ── Groups of extension attributes ───────────────────────────────────────────

proof fn lemma_params_of_add(a: Seq<Item>, b: Seq<Item>)
    ensures
        params_of(a + b) == params_of(a) + params_of(b),
{
    assert(params_of(a + b) =~= params_of(a) + params_of(b));
}

/// Plain groups read in order are added as they are.
proof fn lemma_apply_plain_groups(st: ParamsView, g: Seq<(Seq<char>, Seq<Seq<char>>)>)
    requires
        group_keys_unique(g),
        forall|i: int, j: int| 0 <= i < g.len() && 0 <= j < st.exts.len() ==> #[trigger] st.exts[j].0 != #[trigger] g[i].0,
        forall|i: int| 0 <= i < g.len() ==> ascii_lowercase((#[trigger] g[i]).0) == g[i].0
            && ext_key_problem(g[i].0, false) is None && g[i].1.len() > 0,
    ensures
        apply_params(st, params_of(plain_group_items(g))) == Some(ParamsView { exts: st.exts + g, ..st }),
    decreases g.len(),
{
    if g.len() == 0 {
        assert(params_of(plain_group_items(g)) =~= Seq::<(Seq<char>, ParamView)>::empty());
        assert(st.exts + g =~= st.exts);
    } else {
        let g1 = g.drop_last();
        let k = g.last().0;
        let vals = g.last().1;
        assert(g[g.len() - 1] == g.last());
        let b = vals.map_values(|v: Seq<char>| quoted_item(k, v));
        lemma_params_of_add(plain_group_items(g1), b);
        lemma_apply_params_add(st, params_of(plain_group_items(g1)), params_of(b));
        assert forall|i: int, j: int| 0 <= i < g1.len() && i != j && 0 <= j < g1.len() implies #[trigger] g1[i].0 != #[trigger] g1[j].0 by {
            assert(g1[i] == g[i] && g1[j] == g[j]);
        }
        assert forall|i: int, j: int| 0 <= i < g1.len() && 0 <= j < st.exts.len() implies #[trigger] st.exts[j].0 != #[trigger] g1[i].0 by {
            assert(g1[i] == g[i]);
        }
        assert forall|i: int| 0 <= i < g1.len() implies ascii_lowercase((#[trigger] g1[i]).0) == g1[i].0
            && ext_key_problem(g1[i].0, false) is None && g1[i].1.len() > 0 by {
            assert(g1[i] == g[i]);
        }
        lemma_apply_plain_groups(st, g1);
        let st1 = ParamsView { exts: st.exts + g1, ..st };
        assert forall|j: int| 0 <= j < st1.exts.len() implies (#[trigger] st1.exts[j]).0 != k by {
            if j < st.exts.len() {
                assert(st1.exts[j] == st.exts[j]);
            } else {
                assert(st1.exts[j] == g[j - st.exts.len()]);
            }
        }
        lemma_apply_plain_values(st1, k, vals);
        assert(st1.exts.push((k, vals)) =~= st.exts + g);
    }
}

/// Internationalised groups read in order are added as they are.
proof fn lemma_apply_i18n_groups(st: ParamsView, g: Seq<(Seq<char>, Seq<I18nView>)>)
    requires
        group_keys_unique(g),
        forall|i: int, j: int| 0 <= i < g.len() && 0 <= j < st.exts_i18n.len() ==> #[trigger] st.exts_i18n[j].0 != #[trigger] g[i].0,
        forall|i: int| 0 <= i < g.len() ==> ascii_lowercase((#[trigger] g[i]).0) == g[i].0
            && ext_key_problem(g[i].0, true) is None && g[i].1.len() > 0
            && forall|m: int| 0 <= m < g[i].1.len() ==> tag_ok((#[trigger] g[i].1[m]).language),
    ensures
        apply_params(st, params_of(i18n_group_items(g))) == Some(ParamsView { exts_i18n: st.exts_i18n + g, ..st }),
    decreases g.len(),
{
    if g.len() == 0 {
        assert(params_of(i18n_group_items(g)) =~= Seq::<(Seq<char>, ParamView)>::empty());
        assert(st.exts_i18n + g =~= st.exts_i18n);
    } else {
        let g1 = g.drop_last();
        let k = g.last().0;
        let vals = g.last().1;
        assert(g[g.len() - 1] == g.last());
        let b = vals.map_values(|v: I18nView| ext_item(k, v));
        lemma_params_of_add(i18n_group_items(g1), b);
        lemma_apply_params_add(st, params_of(i18n_group_items(g1)), params_of(b));
        assert forall|i: int, j: int| 0 <= i < g1.len() && i != j && 0 <= j < g1.len() implies #[trigger] g1[i].0 != #[trigger] g1[j].0 by {
            assert(g1[i] == g[i] && g1[j] == g[j]);
        }
        assert forall|i: int, j: int| 0 <= i < g1.len() && 0 <= j < st.exts_i18n.len() implies #[trigger] st.exts_i18n[j].0 != #[trigger] g1[i].0 by {
            assert(g1[i] == g[i]);
        }
        assert forall|i: int| 0 <= i < g1.len() implies ascii_lowercase((#[trigger] g1[i]).0) == g1[i].0
            && ext_key_problem(g1[i].0, true) is None && g1[i].1.len() > 0
            && forall|m: int| 0 <= m < g1[i].1.len() ==> tag_ok((#[trigger] g1[i].1[m]).language) by {
            assert(g1[i] == g[i]);
        }
        lemma_apply_i18n_groups(st, g1);
        let st1 = ParamsView { exts_i18n: st.exts_i18n + g1, ..st };
        assert forall|j: int| 0 <= j < st1.exts_i18n.len() implies (#[trigger] st1.exts_i18n[j]).0 != k by {
            if j < st.exts_i18n.len() {
                assert(st1.exts_i18n[j] == st.exts_i18n[j]);
            } else {
                assert(st1.exts_i18n[j] == g[j - st.exts_i18n.len()]);
            }
        }
        lemma_apply_i18n_values(st1, k, vals);
        assert(st1.exts_i18n.push((k, vals)) =~= st.exts_i18n + g);
    }
}

/// The plain groups of well-formed entries have distinct keys.
pub proof fn lemma_plain_exts_unique(e: Seq<(Seq<char>, ExtValuesView)>)
    requires
        keys_unique(e),
    ensures
        group_keys_unique(plain_exts(e)),
    decreases e.len(),
{
    if e.len() > 0 {
        let e1 = e.drop_last();
        assert(keys_unique(e1)) by {
            assert forall|i: int, j: int| 0 <= i < e1.len() && 0 <= j < e1.len() && i != j implies #[trigger] e1[i].0 != #[trigger] e1[j].0 by {
                assert(e1[i] == e[i] && e1[j] == e[j]);
            }
        }
        lemma_plain_exts_unique(e1);
        lemma_plain_exts_member(e1);
        let p = plain_exts(e1);
        let q = plain_exts(e);
        assert(e[e.len() - 1] == e.last());
        assert(q.len() > p.len() ==> e.last().1 is Plain && q == p.push((e.last().0, e.last().1->Plain_0)));
        assert(q.len() <= p.len() ==> q == p);
        assert forall|i: int, j: int| 0 <= i < q.len() && 0 <= j < q.len() && i != j implies #[trigger] q[i].0 != #[trigger] q[j].0 by {
            if i < p.len() && j < p.len() {
                assert(q[i] == p[i] && q[j] == p[j]);
                assert(p[i].0 != p[j].0);
            } else if i < p.len() {
                let m = choose|m: int| 0 <= m < e1.len() && e1[m] == (p[i].0, ExtValuesView::Plain(p[i].1));
                assert(e[m] == e1[m]);
                assert(e[m].0 != e[e.len() - 1].0);
                assert(q[j].0 == e[e.len() - 1].0);
                assert(q[i] == p[i]);
            } else {
                let m = choose|m: int| 0 <= m < e1.len() && e1[m] == (p[j].0, ExtValuesView::Plain(p[j].1));
                assert(e[m] == e1[m]);
                assert(e[m].0 != e[e.len() - 1].0);
                assert(q[i].0 == e[e.len() - 1].0);
                assert(q[j] == p[j]);
            }
        }
    }
}

/// The internationalised groups of well-formed entries have distinct keys.
pub proof fn lemma_i18n_exts_unique(e: Seq<(Seq<char>, ExtValuesView)>)
    requires
        keys_unique(e),
    ensures
        group_keys_unique(i18n_exts(e)),
    decreases e.len(),
{
    if e.len() > 0 {
        let e1 = e.drop_last();
        assert(keys_unique(e1)) by {
            assert forall|i: int, j: int| 0 <= i < e1.len() && 0 <= j < e1.len() && i != j implies #[trigger] e1[i].0 != #[trigger] e1[j].0 by {
                assert(e1[i] == e[i] && e1[j] == e[j]);
            }
        }
        lemma_i18n_exts_unique(e1);
        lemma_i18n_exts_member(e1);
        let p = i18n_exts(e1);
        let q = i18n_exts(e);
        assert(e[e.len() - 1] == e.last());
        assert(q.len() > p.len() ==> e.last().1 is I18n && q == p.push((e.last().0, e.last().1->I18n_0)));
        assert(q.len() <= p.len() ==> q == p);
        assert forall|i: int, j: int| 0 <= i < q.len() && 0 <= j < q.len() && i != j implies #[trigger] q[i].0 != #[trigger] q[j].0 by {
            if i < p.len() && j < p.len() {
                assert(q[i] == p[i] && q[j] == p[j]);
                assert(p[i].0 != p[j].0);
            } else if i < p.len() {
                let m = choose|m: int| 0 <= m < e1.len() && e1[m] == (p[i].0, ExtValuesView::I18n(p[i].1));
                assert(e[m] == e1[m]);
                assert(e[m].0 != e[e.len() - 1].0);
                assert(q[j].0 == e[e.len() - 1].0);
                assert(q[i] == p[i]);
            } else {
                let m = choose|m: int| 0 <= m < e1.len() && e1[m] == (p[j].0, ExtValuesView::I18n(p[j].1));
                assert(e[m] == e1[m]);
                assert(e[m].0 != e[e.len() - 1].0);
                assert(q[i].0 == e[e.len() - 1].0);
                assert(q[j] == p[j]);
            }
        }
    }
}

// ── The attributes of a link read back ──────────────────────────────────────

proof fn lemma_apply_tags(st: ParamsView, tags: Seq<Seq<char>>)
    requires
        forall|k: int| 0 <= k < tags.len() ==> tag_ok(#[trigger] tags[k]),
    ensures
        apply_params(st, params_of(tags.map_values(|t: Seq<char>| tag_item(t))))
            == Some(ParamsView { hreflang: st.hreflang + tags, ..st }),
    decreases tags.len(),
{
    let hl = seq!['h', 'r', 'e', 'f', 'l', 'a', 'n', 'g'];
    lemma_lower_name(hl);
    if tags.len() == 0 {
        assert(params_of(tags.map_values(|t: Seq<char>| tag_item(t))) =~= Seq::<(Seq<char>, ParamView)>::empty());
        assert(st.hreflang + tags =~= st.hreflang);
    } else {
        let t0 = tags.drop_last();
        let t = tags.last();
        assert(tag_ok(tags[tags.len() - 1]));
        assert forall|k: int| 0 <= k < t0.len() implies tag_ok(#[trigger] t0[k]) by {
            assert(t0[k] == tags[k]);
        }
        let its = tags.map_values(|t: Seq<char>| tag_item(t));
        let its0 = t0.map_values(|t: Seq<char>| tag_item(t));
        assert(params_of(its) =~= params_of(its0) + seq![(hl, ParamView::Plain(t))]);
        lemma_apply_params_add(st, params_of(its0), seq![(hl, ParamView::Plain(t))]);
        lemma_apply_tags(st, t0);
        let st1 = ParamsView { hreflang: st.hreflang + t0, ..st };
        lemma_apply_params_one(st1, (hl, ParamView::Plain(t)));
        assert((st.hreflang + t0).push(t) =~= st.hreflang + tags);
    }
}

/// The fields of a link after `rel` and `anchor`: type, languages, title, title*, media.
pub open spec fn field_items(l: LinkView) -> Seq<Item> {
    opt_items(seq!['t', 'y', 'p', 'e'], l.type_)
        + l.hreflang.map_values(|t: Seq<char>| tag_item(t))
        + opt_items(seq!['t', 'i', 't', 'l', 'e'], l.title)
        + title_i18n_items(l.title_i18n)
        + opt_items(seq!['m', 'e', 'd', 'i', 'a'], l.media)
}

proof fn lemma_apply_type(st: ParamsView, o: Option<Seq<char>>)
    requires
        o matches Some(t) ==> is_media_type(t),
    ensures
        apply_params(st, params_of(opt_items(seq!['t', 'y', 'p', 'e'], o))) == Some(ParamsView {
            type_: match o {
                Some(t) => Some(t),
                None => st.type_,
            },
            ..st
        }),
{
    let ty = seq!['t', 'y', 'p', 'e'];
    lemma_lower_name(ty);
    match o {
        Some(t) => {
            assert(params_of(opt_items(ty, o)) =~= seq![(ty, ParamView::Plain(t))]);
            lemma_apply_params_one(st, (ty, ParamView::Plain(t)));
        },
        None => {
            assert(params_of(opt_items(ty, o)) =~= Seq::<(Seq<char>, ParamView)>::empty());
        },
    }
}

proof fn lemma_apply_title(st: ParamsView, o: Option<Seq<char>>)
    ensures
        apply_params(st, params_of(opt_items(seq!['t', 'i', 't', 'l', 'e'], o))) == Some(ParamsView {
            title: match o {
                Some(t) => Some(t),
                None => st.title,
            },
            ..st
        }),
{
    let ti = seq!['t', 'i', 't', 'l', 'e'];
    lemma_lower_name(ti);
    match o {
        Some(t) => {
            assert(params_of(opt_items(ti, o)) =~= seq![(ti, ParamView::Plain(t))]);
            lemma_apply_params_one(st, (ti, ParamView::Plain(t)));
        },
        None => {
            assert(params_of(opt_items(ti, o)) =~= Seq::<(Seq<char>, ParamView)>::empty());
        },
    }
}

proof fn lemma_apply_media(st: ParamsView, o: Option<Seq<char>>)
    ensures
        apply_params(st, params_of(opt_items(seq!['m', 'e', 'd', 'i', 'a'], o))) == Some(ParamsView {
            media: match o {
                Some(t) => Some(t),
                None => st.media,
            },
            ..st
        }),
{
    let me = seq!['m', 'e', 'd', 'i', 'a'];
    lemma_lower_name(me);
    match o {
        Some(t) => {
            assert(params_of(opt_items(me, o)) =~= seq![(me, ParamView::Plain(t))]);
            lemma_apply_params_one(st, (me, ParamView::Plain(t)));
        },
        None => {
            assert(params_of(opt_items(me, o)) =~= Seq::<(Seq<char>, ParamView)>::empty());
        },
    }
}

proof fn lemma_apply_title_i18n(st: ParamsView, o: Option<I18nView>)
    requires
        o matches Some(i) ==> tag_ok(i.language),
    ensures
        apply_params(st, params_of(title_i18n_items(o))) == Some(ParamsView {
            title_i18n: match o {
                Some(i) => Some(i),
                None => st.title_i18n,
            },
            ..st
        }),
{
    let tis = seq!['t', 'i', 't', 'l', 'e', '*'];
    lemma_lower_name(tis);
    match o {
        Some(i) => {
            assert(params_of(title_i18n_items(o)) =~= seq![(tis, ext_item(tis, i).value)]);
            lemma_apply_params_one(st, (tis, ext_item(tis, i).value));
            lemma_decode_ext_item(i);
        },
        None => {
            assert(params_of(title_i18n_items(o)) =~= Seq::<(Seq<char>, ParamView)>::empty());
        },
    }
}

/// The fields of a link read back.
proof fn lemma_apply_fields(st: ParamsView, l: LinkView)
    requires
        link_text_ok(l),
        st.type_ is None,
        st.title is None,
        st.title_i18n is None,
        st.hreflang == Seq::<Seq<char>>::empty(),
        st.media is None,
    ensures
        apply_params(st, params_of(field_items(l))) == Some(ParamsView {
            type_: l.type_,
            title: l.title,
            title_i18n: l.title_i18n,
            hreflang: l.hreflang,
            media: l.media,
            ..st
        }),
{
    let a1 = opt_items(seq!['t', 'y', 'p', 'e'], l.type_);
    let a2 = l.hreflang.map_values(|t: Seq<char>| tag_item(t));
    let a3 = opt_items(seq!['t', 'i', 't', 'l', 'e'], l.title);
    let a4 = title_i18n_items(l.title_i18n);
    let a5 = opt_items(seq!['m', 'e', 'd', 'i', 'a'], l.media);
    lemma_params_of_add(a1, a2);
    lemma_params_of_add(a1 + a2, a3);
    lemma_params_of_add(a1 + a2 + a3, a4);
    lemma_params_of_add(a1 + a2 + a3 + a4, a5);
    let s1 = ParamsView { type_: l.type_, ..st };
    assert(apply_params(st, params_of(a1)) == Some(s1)) by {
        lemma_apply_type(st, l.type_);
    }
    let s2 = ParamsView { hreflang: l.hreflang, ..s1 };
    assert(apply_params(s1, params_of(a2)) == Some(s2)) by {
        lemma_apply_tags(s1, l.hreflang);
        assert(Seq::<Seq<char>>::empty() + l.hreflang =~= l.hreflang);
    }
    lemma_apply_params_add(st, params_of(a1), params_of(a2));
    let s3 = ParamsView { title: l.title, ..s2 };
    assert(apply_params(s2, params_of(a3)) == Some(s3)) by {
        lemma_apply_title(s2, l.title);
    }
    lemma_apply_params_add(st, params_of(a1 + a2), params_of(a3));
    let s4 = ParamsView { title_i18n: l.title_i18n, ..s3 };
    assert(apply_params(s3, params_of(a4)) == Some(s4)) by {
        lemma_apply_title_i18n(s3, l.title_i18n);
    }
    lemma_apply_params_add(st, params_of(a1 + a2 + a3), params_of(a4));
    let s5 = ParamsView { media: l.media, ..s4 };
    assert(apply_params(s4, params_of(a5)) == Some(s5)) by {
        lemma_apply_media(s4, l.media);
    }
    lemma_apply_params_add(st, params_of(a1 + a2 + a3 + a4), params_of(a5));
}

/// The plain groups of a link meet what reading them back needs.
proof fn lemma_plain_groups_fit(l: LinkView)
    requires
        link_text_ok(l),
    ensures
        group_keys_unique(plain_exts(l.exts)),
        forall|i: int| 0 <= i < plain_exts(l.exts).len() ==> ascii_lowercase((#[trigger] plain_exts(l.exts)[i]).0)
            == plain_exts(l.exts)[i].0 && ext_key_problem(plain_exts(l.exts)[i].0, false) is None
            && plain_exts(l.exts)[i].1.len() > 0,
{
    let e = l.exts;
    lemma_plain_exts_unique(e);
    lemma_plain_exts_member(e);
    let g = plain_exts(e);
    assert forall|i: int| 0 <= i < g.len() implies ascii_lowercase((#[trigger] g[i]).0) == g[i].0
        && ext_key_problem(g[i].0, false) is None && g[i].1.len() > 0 by {
        let j = choose|j: int| 0 <= j < e.len() && e[j] == (g[i].0, ExtValuesView::Plain(g[i].1));
        assert(ext_entry_ok(e[j]));
    }
}

/// The internationalised groups of a link meet what reading them back needs.
proof fn lemma_i18n_groups_fit(l: LinkView)
    requires
        link_text_ok(l),
    ensures
        group_keys_unique(i18n_exts(l.exts)),
        forall|i: int| 0 <= i < i18n_exts(l.exts).len() ==> ascii_lowercase((#[trigger] i18n_exts(l.exts)[i]).0)
            == i18n_exts(l.exts)[i].0 && ext_key_problem(i18n_exts(l.exts)[i].0, true) is None
            && i18n_exts(l.exts)[i].1.len() > 0
            && forall|m: int| 0 <= m < i18n_exts(l.exts)[i].1.len() ==> tag_ok((#[trigger] i18n_exts(l.exts)[i].1[m]).language),
{
    let e = l.exts;
    lemma_i18n_exts_unique(e);
    lemma_i18n_exts_member(e);
    let h = i18n_exts(e);
    assert forall|i: int| 0 <= i < h.len() implies ascii_lowercase((#[trigger] h[i]).0) == h[i].0
        && ext_key_problem(h[i].0, true) is None && h[i].1.len() > 0
        && forall|m: int| 0 <= m < h[i].1.len() ==> tag_ok((#[trigger] h[i].1[m]).language) by {
        let j = choose|j: int| 0 <= j < e.len() && e[j] == (h[i].0, ExtValuesView::I18n(h[i].1));
        assert(ext_entry_ok(e[j]));
        assert forall|m: int| 0 <= m < h[i].1.len() implies tag_ok((#[trigger] h[i].1[m]).language) by {
            assert(match e[j].1 {
                ExtValuesView::Plain(vs) => forall|m: int| 0 <= m < vs.len() ==> all_ascii(#[trigger] vs[m]),
                ExtValuesView::I18n(vs) => forall|m: int| 0 <= m < vs.len() ==> tag_ok((#[trigger] vs[m]).language),
            });
        }
    }
}

/// The parameters after `rel` and `anchor` give back the attributes of the link.
proof fn lemma_apply_attrs(st: ParamsView, l: LinkView)
    requires
        link_text_ok(l),
        st.type_ is None,
        st.title is None,
        st.title_i18n is None,
        st.hreflang == Seq::<Seq<char>>::empty(),
        st.media is None,
        st.exts == Seq::<(Seq<char>, Seq<Seq<char>>)>::empty(),
        st.exts_i18n == Seq::<(Seq<char>, Seq<I18nView>)>::empty(),
    ensures
        apply_params(st, params_of(attr_items(l))) == Some(ParamsView {
            type_: l.type_,
            title: l.title,
            title_i18n: l.title_i18n,
            hreflang: l.hreflang,
            media: l.media,
            exts: plain_exts(l.exts),
            exts_i18n: i18n_exts(l.exts),
            ..st
        }),
{
    let f = field_items(l);
    let a6 = plain_group_items(plain_exts(l.exts));
    let a7 = i18n_group_items(i18n_exts(l.exts));
    assert(attr_items(l) == f + a6 + a7);
    lemma_params_of_add(f, a6);
    lemma_params_of_add(f + a6, a7);
    lemma_apply_fields(st, l);
    let s5 = ParamsView { type_: l.type_, title: l.title, title_i18n: l.title_i18n, hreflang: l.hreflang, media: l.media, ..st };
    let g = plain_exts(l.exts);
    let s6 = ParamsView { exts: g, ..s5 };
    assert(apply_params(s5, params_of(a6)) == Some(s6)) by {
        lemma_plain_groups_fit(l);
        lemma_apply_plain_groups(s5, g);
        assert(Seq::<(Seq<char>, Seq<Seq<char>>)>::empty() + g =~= g);
    }
    lemma_apply_params_add(st, params_of(f), params_of(a6));
    let h = i18n_exts(l.exts);
    assert(apply_params(s6, params_of(a7)) == Some(ParamsView { exts_i18n: h, ..s6 })) by {
        lemma_i18n_groups_fit(l);
        lemma_apply_i18n_groups(s6, h);
        assert(Seq::<(Seq<char>, Seq<I18nView>)>::empty() + h =~= h);
    }
    lemma_apply_params_add(st, params_of(f + a6), params_of(a7));
}

// ── One link-value, one context ──────────────────────────────────────────────

/// A link as it reads back: its plain extension attributes first, then the
/// internationalised ones.
pub open spec fn norm_link(l: LinkView) -> LinkView {
    LinkView { exts: plain_entries(plain_exts(l.exts)) + i18n_entries(i18n_exts(l.exts)), ..l }
}

proof fn lemma_apply_rel(st: ParamsView, rel: RelTypeView)
    requires
        rel_of_str(rel_text(rel)) == Some(rel),
        rel_text(rel).len() > 0,
        forall|k: int| 0 <= k < rel_text(rel).len() ==> is_uri_char(#[trigger] rel_text(rel)[k]),
    ensures
        apply_param(st, seq!['r', 'e', 'l'], ParamView::Plain(rel_text(rel)))
            == Some(ParamsView { rels: st.rels + seq![rel], ..st }),
{
    let t = rel_text(rel);
    lemma_lower_name(seq!['r', 'e', 'l']);
    assert forall|k: int| 0 <= k < t.len() implies !is_ascii_ws_char(#[trigger] t[k]) by {
        assert(is_uri_char(t[k]));
    }
    lemma_one_word(t);
    let ws = seq![t];
    assert(rel_of_str(ws[0]) is Some);
    assert(ws.map_values(|w: Seq<char>| rel_of_str(w)->0) =~= seq![rel]);
}

/// A link-value written for a link, with target and anchor texts that read
/// back against `base`, reads back into a context holding that link.
pub proof fn lemma_entry_context_of_link(
    l: LinkView,
    target: Seq<char>,
    anchor_text: Seq<char>,
    base: Option<Seq<char>>,
    anchor: Seq<char>,
)
    requires
        link_text_ok(l),
        resolve_spec(base, target) == Some(l.target),
        context_anchor(if anchor_text.len() > 0 { Some(anchor_text) } else { None }, base) == Some(anchor),
    ensures
        entry_context(entry_of((target, link_items(l, anchor_text))), base)
            == Ok::<ContextView, ConvError>(ContextView { anchor, links: seq![norm_link(l)] }),
{
    let rel = seq!['r', 'e', 'l'];
    let anc = seq!['a', 'n', 'c', 'h', 'o', 'r'];
    let r = seq![quoted_item(rel, rel_text(l.rel))];
    let an = if anchor_text.len() > 0 { seq![quoted_item(anc, anchor_text)] } else { Seq::<Item>::empty() };
    assert(link_items(l, anchor_text) == r + an + attr_items(l));
    lemma_params_of_add(r, an);
    lemma_params_of_add(r + an, attr_items(l));
    let pr = params_of(r);
    let pa = params_of(an);
    assert(pr =~= seq![(rel, ParamView::Plain(rel_text(l.rel)))]);
    let s0 = no_params();
    let s1 = ParamsView { rels: seq![l.rel], ..s0 };
    assert(apply_params(s0, pr) == Some(s1)) by {
        lemma_apply_params_one(s0, (rel, ParamView::Plain(rel_text(l.rel))));
        lemma_apply_rel(s0, l.rel);
        assert(Seq::<RelTypeView>::empty() + seq![l.rel] =~= seq![l.rel]);
    }
    let s2 = if anchor_text.len() > 0 { ParamsView { anchor: Some(anchor_text), ..s1 } } else { s1 };
    if anchor_text.len() > 0 {
        assert(pa =~= seq![(anc, ParamView::Plain(anchor_text))]);
        assert(apply_params(s1, pa) == Some(s2)) by {
            lemma_apply_params_one(s1, (anc, ParamView::Plain(anchor_text)));
            lemma_lower_name(anc);
        }
    } else {
        assert(pa =~= Seq::<(Seq<char>, ParamView)>::empty());
        assert(apply_params(s1, pa) == Some(s2));
    }
    lemma_apply_params_add(s0, pr, pa);
    lemma_apply_attrs(s2, l);
    lemma_apply_params_add(s0, pr + pa, params_of(attr_items(l)));
    let st = ParamsView {
        type_: l.type_,
        title: l.title,
        title_i18n: l.title_i18n,
        hreflang: l.hreflang,
        media: l.media,
        exts: plain_exts(l.exts),
        exts_i18n: i18n_exts(l.exts),
        ..s2
    };
    assert(apply_params(no_params(), entry_of((target, link_items(l, anchor_text))).params) == Some(st));
    assert(st.anchor == if anchor_text.len() > 0 { Some(anchor_text) } else { None });
    assert(context_anchor(st.anchor, base) == Some(anchor));
    let links = st.rels.map_values(|rv: RelTypeView| link_of_params(l.target, rv, st));
    assert(links =~= seq![norm_link(l)]);
    assert(first_dup_from(links, 0) == -1) by {
        assert(first_dup_from(links, 1) == -1);
    }
}

} // verus!
