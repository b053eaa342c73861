//! Values of extension link attributes.

use vstd::prelude::*;

use super::lang::{I18nString, I18nView};

verus! {

/// The values of one extension attribute: plain strings (for a key without
/// a trailing `*`) or internationalised strings (for a key with one).
#[derive(Debug, Clone)]
pub enum ExtValues {
    Plain(Vec<String>),
    I18n(Vec<I18nString>),
}

/// The abstract value of [`ExtValues`].
pub enum ExtValuesView {
    Plain(Seq<Seq<char>>),
    I18n(Seq<I18nView>),
}

/// The characters of each string.
pub open spec fn strings_view(v: Seq<String>) -> Seq<Seq<char>> {
    v.map_values(|s: String| s@)
}

/// The abstract value of each internationalised string.
pub open spec fn i18ns_view(v: Seq<I18nString>) -> Seq<I18nView> {
    v.map_values(|s: I18nString| s@)
}

impl View for ExtValues {
    type V = ExtValuesView;

    open spec fn view(&self) -> ExtValuesView {
        match self {
            ExtValues::Plain(v) => ExtValuesView::Plain(strings_view(v@)),
            ExtValues::I18n(v) => ExtValuesView::I18n(i18ns_view(v@)),
        }
    }
}

/// The position of the first entry with key `k`, or -1 if there is none.
pub open spec fn entries_key_index<V>(e: Seq<(Seq<char>, V)>, k: Seq<char>) -> int
    decreases e.len(),
{
    if e.len() == 0 {
        -1
    } else if e[0].0 == k {
        0
    } else {
        let r = entries_key_index(e.drop_first(), k);
        if r == -1 {
            -1
        } else {
            r + 1
        }
    }
}

/// What [`entries_key_index`] gives: the first position holding the key, or -1.
pub proof fn lemma_entries_key_index<V>(e: Seq<(Seq<char>, V)>, k: Seq<char>)
    ensures
        ({
            let r = entries_key_index(e, k);
            &&& -1 <= r < e.len()
            &&& r == -1 <==> (forall|j: int| 0 <= j < e.len() ==> #[trigger] e[j].0 != k)
            &&& r >= 0 ==> e[r].0 == k && (forall|j: int| 0 <= j < r ==> #[trigger] e[j].0 != k)
        }),
    decreases e.len(),
{
    if e.len() > 0 && e[0].0 != k {
        lemma_entries_key_index(e.drop_first(), k);
        let r = entries_key_index(e.drop_first(), k);
        assert forall|j: int| 1 <= j < e.len() implies #[trigger] e[j].0 == e.drop_first()[j - 1].0 by {}
        if r == -1 {
            assert forall|j: int| 0 <= j < e.len() implies #[trigger] e[j].0 != k by {
                if j > 0 {
                    assert(e[j].0 == e.drop_first()[j - 1].0);
                }
            }
        } else {
            assert forall|j: int| 0 <= j < r + 1 implies #[trigger] e[j].0 != k by {
                if j > 0 {
                    assert(e[j].0 == e.drop_first()[j - 1].0);
                }
            }
        }
    }
}

} // verus!
