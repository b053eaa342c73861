//! The data model: link sets, link contexts, links and their attributes.

pub mod ext_token;
pub mod ext_values;
pub mod lang;
pub mod laws;
pub mod link;
pub use link::Link;
pub mod link_context;
pub use link_context::LinkContext;

pub mod media_type;
pub mod rel_type;
pub mod uri;

pub use lang::{I18nString, LanguageTag, InvalidLanguageTag};



pub use media_type::MediaType;
pub use rel_type::RelType;
pub use uri::{InvalidUri, Uri};

use vstd::prelude::*;

use crate::error::LinksetError;
use crate::strs::str_eq;
use link::LinkView;
use link_context::{ContextView, context_eq, merge_links};

verus! {

/// The abstract values of contexts.
pub open spec fn contexts_view(v: Seq<LinkContext>) -> Seq<ContextView> {
    v.map_values(|c: LinkContext| c@)
}

/// No two contexts have the same anchor.
pub open spec fn anchors_unique(cs: Seq<ContextView>) -> bool {
    forall|i: int, j: int| 0 <= i < cs.len() && 0 <= j < cs.len() && i != j ==> #[trigger] cs[i].anchor != #[trigger] cs[j].anchor
}

/// The well-formedness that building and changing a link set keeps: at
/// least one context, distinct anchors, and well-formed contexts.
pub open spec fn linkset_wf(cs: Seq<ContextView>) -> bool {
    &&& cs.len() > 0
    &&& anchors_unique(cs)
    &&& forall|i: int| 0 <= i < cs.len() ==> link_context::context_wf(#[trigger] cs[i])
}

/// The position of the first context with anchor `a`, or -1.
pub open spec fn anchor_index(s: Seq<ContextView>, a: Seq<char>) -> int
    decreases s.len(),
{
    if s.len() == 0 {
        -1
    } else if s[0].anchor == a {
        0
    } else {
        let r = anchor_index(s.drop_first(), a);
        if r == -1 {
            -1
        } else {
            r + 1
        }
    }
}

/// What [`anchor_index`] gives: the first position with the anchor, or -1.
pub proof fn lemma_anchor_index(s: Seq<ContextView>, a: Seq<char>)
    ensures
        ({
            let r = anchor_index(s, a);
            &&& -1 <= r < s.len()
            &&& r == -1 <==> (forall|j: int| 0 <= j < s.len() ==> #[trigger] s[j].anchor != a)
            &&& r >= 0 ==> s[r].anchor == a && (forall|j: int| 0 <= j < r ==> #[trigger] s[j].anchor != a)
        }),
    decreases s.len(),
{
    if s.len() > 0 && s[0].anchor != a {
        lemma_anchor_index(s.drop_first(), a);
        let r = anchor_index(s.drop_first(), a);
        assert forall|j: int| 1 <= j < s.len() implies #[trigger] s[j].anchor == s.drop_first()[j - 1].anchor by {}
        if r == -1 {
            assert forall|j: int| 0 <= j < s.len() implies #[trigger] s[j].anchor != a by {
                if j > 0 {
                    assert(s[j].anchor == s.drop_first()[j - 1].anchor);
                }
            }
        } else {
            assert forall|j: int| 0 <= j < r + 1 implies #[trigger] s[j].anchor != a by {
                if j > 0 {
                    assert(s[j].anchor == s.drop_first()[j - 1].anchor);
                }
            }
        }
    }
}

/// Equality of link sets: as many contexts, and each context of `a` equal to
/// the context of `b` with the same anchor (the order does not matter).
pub open spec fn linkset_eq(a: Seq<ContextView>, b: Seq<ContextView>) -> bool {
    &&& a.len() == b.len()
    &&& forall|i: int| 0 <= i < a.len() ==> {
        let j = anchor_index(b, (#[trigger] a[i]).anchor);
        0 <= j && context_eq(a[i], b[j])
    }
}

/// Collecting contexts into a link set, as `FromIterator` does: a context
/// whose anchor is already there is merged into the existing one; the first
/// link found twice stops it, with that link and its anchor.
pub open spec fn collect_contexts(acc: Seq<ContextView>, rest: Seq<ContextView>) -> Result<Seq<ContextView>, (Seq<char>, LinkView)>
    decreases rest.len(),
{
    if rest.len() == 0 {
        Ok(acc)
    } else {
        let c = rest[0];
        let i = anchor_index(acc, c.anchor);
        if i >= 0 {
            let m = merge_links(acc[i].links, c.links);
            match m.1 {
                Some(l) => Err((c.anchor, l)),
                None => collect_contexts(
                    acc.update(i, ContextView { anchor: acc[i].anchor, links: m.0 }),
                    rest.drop_first(),
                ),
            }
        } else {
            collect_contexts(acc.push(c), rest.drop_first())
        }
    }
}

/// The result of building a link set from contexts: the merged contexts, an
/// error for a link found twice, or `Empty` when there is no context.
pub open spec fn from_contexts_ok(r: Result<Linkset, LinksetError>, cs: Seq<ContextView>) -> bool {
    match collect_contexts(Seq::empty(), cs) {
        Ok(s) => if s.len() == 0 {
            r matches Err(LinksetError::Empty)
        } else {
            r matches Ok(ls) && ls@ == s
        },
        Err((a, l)) => r matches Err(LinksetError::DuplicateLink(x, rel, t)) && x@ == a && rel@ == l.rel
            && t@ == l.target,
    }
}

/// A set of typed links organised by context (RFC 9264).
#[derive(Debug, Clone)]
pub struct Linkset {
    pub(crate) contexts: Vec<LinkContext>,
}

impl View for Linkset {
    type V = Seq<ContextView>;

    closed spec fn view(&self) -> Seq<ContextView> {
        contexts_view(self.contexts@)
    }
}

/// How the field of a link set appears in its abstract value.
pub(crate) broadcast proof fn lemma_linkset_view(l: Linkset)
    ensures
        #[trigger] l@ == contexts_view(l.contexts@),
{
}

impl Linkset {
    /// Create a new link set holding one context, without links, for `anchor`.
    pub fn new(anchor: Uri) -> (r: Linkset)
        ensures
            r@ == seq![ContextView { anchor: anchor@, links: Seq::empty() }],
            linkset_wf(r@),
    {
        let mut contexts = Vec::new();
        contexts.push(LinkContext::new(anchor));
        let r = Linkset { contexts };
        assert(r@ =~= seq![ContextView { anchor: anchor@, links: Seq::empty() }]);
        r
    }

    /// A link set holding the one given context.
    pub fn from_context(context: LinkContext) -> (r: Linkset)
        ensures
            r@ == seq![context@],
            link_context::context_wf(context@) ==> linkset_wf(r@),
    {
        let ghost c = context@;
        let mut contexts = Vec::new();
        contexts.push(context);
        let r = Linkset { contexts };
        assert(r@ =~= seq![c]);
        r
    }

    /// The number of contexts.
    pub fn len(&self) -> (r: usize)
        ensures
            r == self@.len(),
    {
        self.contexts.len()
    }

    /// The contexts, in order.
    pub fn contexts(&self) -> (r: &Vec<LinkContext>)
        ensures
            contexts_view(r@) == self@,
    {
        &self.contexts
    }

    /// The context at position `i`.
    pub fn get(&self, i: usize) -> (r: &LinkContext)
        requires
            i < self@.len(),
        ensures
            r@ == self@[i as int],
    {
        &self.contexts[i]
    }

    /// The context at position `i`, to be changed in place.
    pub fn get_mut(&mut self, i: usize) -> (r: &mut LinkContext)
        requires
            i < old(self)@.len(),
        ensures
            r@ == old(self)@[i as int],
            final(self)@ == old(self)@.update(i as int, final(r)@),
    {
        &mut self.contexts[i]
    }

    /// The first context with the given anchor, to be changed in place.
    pub fn context_mut(&mut self, anchor: &str) -> (r: Option<&mut LinkContext>)
        ensures
            ({
                let i = anchor_index(old(self)@, anchor@);
                match r {
                    Some(c) => 0 <= i && c@ == old(self)@[i] && final(self)@ == old(self)@.update(i, final(c)@),
                    None => i == -1 && final(self)@ == old(self)@,
                }
            }),
    {
        match self.position(anchor) {
            Some(i) => Some(&mut self.contexts[i]),
            None => None,
        }
    }

    /// The context with the given anchor, added without links if there is none.
    pub fn add_context(&mut self, anchor: Uri) -> (r: &mut LinkContext)
        ensures
            ({
                let i = anchor_index(old(self)@, anchor@);
                if i >= 0 {
                    r@ == old(self)@[i] && final(self)@ == old(self)@.update(i, final(r)@)
                } else {
                    &&& r@ == (ContextView { anchor: anchor@, links: Seq::empty() })
                    &&& final(self)@ == old(self)@.push(final(r)@)
                }
            }),
    {
        let i = match self.position(anchor.as_str()) {
            Some(i) => i,
            None => {
                self.contexts.push(LinkContext::new(anchor));
                self.contexts.len() - 1
            },
        };
        &mut self.contexts[i]
    }

    /// The contexts, taken out of the link set.
    pub fn into_contexts(self) -> (r: Vec<LinkContext>)
        ensures
            contexts_view(r@) == self@,
    {
        self.contexts
    }

    /// The position of the first context with the given anchor.
    fn position(&self, anchor: &str) -> (r: Option<usize>)
        ensures
            match r {
                Some(i) => anchor_index(self@, anchor@) == i && i < self@.len() && self@[i as int].anchor == anchor@,
                None => anchor_index(self@, anchor@) == -1,
            },
    {
        proof {
            lemma_anchor_index(self@, anchor@);
        }
        let ghost s = self@;
        let mut i: usize = 0;
        while i < self.contexts.len()
            invariant
                i <= self.contexts.len(),
                s == self@,
                forall|j: int| 0 <= j < i ==> #[trigger] self@[j].anchor != anchor@,
            decreases self.contexts.len() - i,
        {
            if str_eq(self.contexts[i].anchor().as_str(), anchor) {
                proof {
                    assert(self@[i as int] == self.contexts@[i as int]@);
                    lemma_anchor_index(s, anchor@);
                }
                return Some(i);
            }
            i = i + 1;
        }
        proof {
            lemma_anchor_index(s, anchor@);
        }
        None
    }

    /// The first context with the given anchor, if any.
    pub fn context(&self, anchor: &str) -> (r: Option<&LinkContext>)
        ensures
            match r {
                Some(c) => {
                    let i = anchor_index(self@, anchor@);
                    0 <= i && c@ == self@[i]
                },
                None => anchor_index(self@, anchor@) == -1,
            },
    {
        match self.position(anchor) {
            Some(i) => Some(&self.contexts[i]),
            None => None,
        }
    }

    /// Remove the first context with the given anchor, the last context taking
    /// its place. Refuses to remove the only context.
    pub fn remove_context(&mut self, anchor: Uri) -> (r: Result<Option<LinkContext>, LinksetError>)
        ensures
            ({
                let i = anchor_index(old(self)@, anchor@);
                if i < 0 {
                    r matches Ok(None) && final(self)@ == old(self)@
                } else if old(self)@.len() == 1 {
                    r matches Err(LinksetError::Empty) && final(self)@ == old(self)@
                } else {
                    &&& r matches Ok(Some(c)) && c@ == old(self)@[i]
                    &&& final(self)@ == old(self)@.update(i, old(self)@.last()).drop_last()
                }
            }),
            linkset_wf(old(self)@) ==> linkset_wf(final(self)@),
    {
        proof {
            lemma_anchor_index(self@, anchor@);
            let i = anchor_index(self@, anchor@);
            if linkset_wf(self@) && i >= 0 && self@.len() > 1 {
                laws::remove_context_keeps_anchors_unique(self@, i);
                let x = self@.update(i, self@.last()).drop_last();
                assert forall|k: int| 0 <= k < x.len() implies link_context::context_wf(#[trigger] x[k]) by {
                    if k == i {
                        assert(x[k] == self@[self@.len() - 1]);
                    } else {
                        assert(x[k] == self@[k]);
                    }
                }
            }
        }
        match self.position(anchor.as_str()) {
            None => Ok(None),
            Some(i) => {
                if self.contexts.len() == 1 {
                    Err(LinksetError::Empty)
                } else {
                    let ghost s = self@;
                    let c = self.contexts.swap_remove(i);
                    assert(self@ =~= s.update(i as int, s.last()).drop_last());
                    Ok(Some(c))
                }
            },
        }
    }

    /// Build a link set from contexts, merging contexts that share an anchor.
    /// Fails on a link found twice in a context, or when there is no context.
    pub fn from_contexts(contexts: Vec<LinkContext>) -> (r: Result<Linkset, LinksetError>)
        ensures
            from_contexts_ok(r, contexts_view(contexts@)),
            (forall|k: int| 0 <= k < contexts@.len() ==> link_context::context_wf(#[trigger] contexts_view(contexts@)[k]))
                ==> (r matches Ok(ls) ==> linkset_wf(ls@)),
    {
        proof {
            if forall|k: int| 0 <= k < contexts@.len() ==> link_context::context_wf(#[trigger] contexts_view(contexts@)[k]) {
                laws::from_contexts_keeps_wf(Seq::empty(), contexts_view(contexts@));
            }
        }
        let ghost all = contexts_view(contexts@);
        let mut ret = Linkset { contexts: Vec::new() };
        let mut rest = contexts;
        assert(ret@ =~= Seq::<ContextView>::empty());
        loop
            invariant
                all == contexts_view(contexts@),
                collect_contexts(Seq::empty(), all) == collect_contexts(ret@, contexts_view(rest@)),
                (forall|k: int| 0 <= k < all.len() ==> link_context::context_wf(#[trigger] all[k])) ==> (
                    collect_contexts(Seq::empty(), all) matches Ok(x) ==> anchors_unique(x)
                        && forall|i: int| 0 <= i < x.len() ==> link_context::context_wf(#[trigger] x[i])),
            decreases rest.len(),
        {
            if rest.len() == 0 {
                assert(contexts_view(rest@) =~= Seq::<ContextView>::empty());
                assert(collect_contexts(ret@, Seq::<ContextView>::empty()) == Ok::<Seq<ContextView>, (Seq<char>, LinkView)>(ret@));
                if ret.contexts.len() == 0 {
                    return Err(LinksetError::Empty);
                }
                return Ok(ret);
            }
            let ghost before = contexts_view(rest@);
            let c = rest.remove(0);
            assert(before[0] == c@);
            assert(before.drop_first() =~= contexts_view(rest@));
            match ret.position(c.anchor().as_str()) {
                Some(i) => {
                    let ghost s = ret@;
                    let mut prev = ret.contexts.remove(i);
                    let res = prev.merge(c);
                    match res {
                        Ok(()) => {},
                        Err(e) => {
                            return Err(e);
                        },
                    }
                    ret.contexts.insert(i, prev);
                    assert(ret@ =~= s.update(i as int, ContextView { anchor: s[i as int].anchor, links: prev@.links }));
                },
                None => {
                    let ghost s = ret@;
                    ret.contexts.push(c);
                    assert(ret@ =~= s.push(c@));
                },
            }
        }
    }
}

impl PartialEq for Linkset {
    fn eq(&self, other: &Self) -> (r: bool) {
        if self.contexts.len() != other.contexts.len() {
            assert(self@.len() != other@.len());
            return false;
        }
        let mut i: usize = 0;
        while i < self.contexts.len()
            invariant
                i <= self.contexts.len(),
                self@.len() == other@.len(),
                forall|k: int| 0 <= k < i ==> {
                    let j = anchor_index(other@, (#[trigger] self@[k]).anchor);
                    0 <= j && context_eq(self@[k], other@[j])
                },
            decreases self.contexts.len() - i,
        {
            let c = &self.contexts[i];
            match other.context(c.anchor().as_str()) {
                Some(o) => {
                    if !(*c == *o) {
                        assert(!context_eq(self@[i as int], other@[anchor_index(other@, self@[i as int].anchor)]));
                        return false;
                    }
                },
                None => {
                    assert(anchor_index(other@, self@[i as int].anchor) == -1);
                    return false;
                },
            }
            i = i + 1;
        }
        true
    }
}

impl vstd::std_specs::cmp::PartialEqSpecImpl for Linkset {
    open spec fn obeys_eq_spec() -> bool {
        true
    }

    open spec fn eq_spec(&self, other: &Self) -> bool {
        linkset_eq(self@, other@)
    }
}

} // verus!
