//! A context URI together with the links it anchors.

use vstd::prelude::*;

use crate::error::LinksetError;
use crate::strs::str_eq;
use super::link::{Link, LinkView, link_eq, link_wf};
use super::uri::Uri;

verus! {

/// The abstract value of a [`LinkContext`].
pub struct ContextView {
    pub anchor: Seq<char>,
    pub links: Seq<LinkView>,
}

/// Two links are the same link when they have the same target and relation type.
pub open spec fn same_link(a: LinkView, b: LinkView) -> bool {
    a.target == b.target && a.rel == b.rel
}

/// Some link of `s` is the same link as `l`.
pub open spec fn has_same_link(s: Seq<LinkView>, l: LinkView) -> bool {
    exists|i: int| 0 <= i < s.len() && same_link(#[trigger] s[i], l)
}

/// No two links of `s` are the same link.
pub open spec fn no_duplicate_links(s: Seq<LinkView>) -> bool {
    forall|i: int, j: int| 0 <= i < j < s.len() ==> !same_link(#[trigger] s[i], #[trigger] s[j])
}

/// The first position at or after `i` whose link occurs again later, or -1.
pub open spec fn first_dup_from(s: Seq<LinkView>, i: int) -> int
    decreases s.len() - i,
{
    if i < 0 || i >= s.len() {
        -1
    } else if exists|j: int| i < j < s.len() && same_link(s[i], #[trigger] s[j]) {
        i
    } else {
        first_dup_from(s, i + 1)
    }
}

/// Adding the links of `rest` one by one to `acc`, stopping at the first one
/// that is already there: the links then held, and the link that stopped it.
pub open spec fn merge_links(acc: Seq<LinkView>, rest: Seq<LinkView>) -> (Seq<LinkView>, Option<LinkView>)
    decreases rest.len(),
{
    if rest.len() == 0 {
        (acc, None)
    } else if has_same_link(acc, rest[0]) {
        (acc, Some(rest[0]))
    } else {
        merge_links(acc.push(rest[0]), rest.drop_first())
    }
}

/// Equality of contexts: same anchor, as many links, and each link of `a`
/// equal to some link of `b` (the order of the links does not matter).
pub open spec fn context_eq(a: ContextView, b: ContextView) -> bool {
    &&& a.anchor == b.anchor
    &&& a.links.len() == b.links.len()
    &&& forall|i: int| 0 <= i < a.links.len() ==> has_equal_link(b.links, #[trigger] a.links[i])
}

/// Some link of `s` equals `l`.
pub open spec fn has_equal_link(s: Seq<LinkView>, l: LinkView) -> bool {
    exists|j: int| 0 <= j < s.len() && link_eq(l, #[trigger] s[j])
}

/// The well-formedness that the methods of a context keep: no link twice,
/// and every link well-formed.
pub open spec fn context_wf(c: ContextView) -> bool {
    &&& no_duplicate_links(c.links)
    &&& forall|i: int| 0 <= i < c.links.len() ==> link_wf(#[trigger] c.links[i])
}

/// The links' abstract values.
pub open spec fn links_view(v: Seq<Link>) -> Seq<LinkView> {
    v.map_values(|l: Link| l@)
}

/// The links that `del_link(idx)` leaves: the link at `idx` removed, or the
/// last link if `idx` is out of range.
pub open spec fn links_after_del(s: Seq<LinkView>, idx: int) -> Seq<LinkView> {
    if idx < s.len() {
        s.remove(idx)
    } else if s.len() > 0 {
        s.drop_last()
    } else {
        s
    }
}

/// A context URI together with the links it anchors
/// (one entry of the `"linkset"` array of RFC 9264 §4.2).
#[derive(Debug, Clone)]
pub struct LinkContext {
    /// The context URI (`anchor`).
    pub(crate) anchor: Uri,
    /// The links anchored at this context.
    pub(crate) links: Vec<Link>,
}

pub(crate) open spec fn context_view(c: LinkContext) -> ContextView {
    ContextView { anchor: c.anchor@, links: links_view(c.links@) }
}

impl View for LinkContext {
    type V = ContextView;

    closed spec fn view(&self) -> ContextView {
        context_view(*self)
    }
}

/// How the fields of a context appear in its abstract value.
pub(crate) broadcast proof fn lemma_context_view(c: LinkContext)
    ensures
        #[trigger] c@ == context_view(c),
{
}

/// No first duplicate from `i`: no two links from `i` on are the same link.
proof fn lemma_first_dup_none(s: Seq<LinkView>, i: int)
    requires
        0 <= i,
        first_dup_from(s, i) == -1,
    ensures
        forall|a: int, b: int| i <= a < b < s.len() ==> !same_link(#[trigger] s[a], #[trigger] s[b]),
    decreases s.len() - i,
{
    if i < s.len() {
        lemma_first_dup_none(s, i + 1);
        assert forall|a: int, b: int| i <= a < b < s.len() implies !same_link(#[trigger] s[a], #[trigger] s[b]) by {
            if a == i {
                assert(!(i < b < s.len() && same_link(s[i], s[b])));
            }
        }
    }
}

/// Whether two links are the same link.
fn same_link_exec(a: &Link, b: &Link) -> (r: bool)
    ensures
        r == same_link(a@, b@),
{
    str_eq(a.target().as_str(), b.target().as_str()) && *a.rel() == *b.rel()
}

impl LinkContext {
    /// Create a new context without links.
    pub fn new(anchor: Uri) -> (r: LinkContext)
        ensures
            r@ == (ContextView { anchor: anchor@, links: Seq::empty() }),
            context_wf(r@),
    {
        let c = LinkContext { anchor, links: Vec::new() };
        assert(c@.links =~= Seq::<LinkView>::empty());
        c
    }

    /// Create a new context with the provided links, refusing the same link twice.
    pub fn new_with(anchor: Uri, links: Vec<Link>) -> (r: Result<LinkContext, LinksetError>)
        ensures
            ({
                let d = first_dup_from(links_view(links@), 0);
                if d < 0 {
                    r matches Ok(c) && c@ == (ContextView { anchor: anchor@, links: links_view(links@) })
                } else {
                    r matches Err(LinksetError::DuplicateLink(a, rel, t)) && a@ == anchor@
                        && rel@ == links_view(links@)[d].rel && t@ == links_view(links@)[d].target
                }
            }),
            (forall|k: int| 0 <= k < links@.len() ==> link_wf(#[trigger] links_view(links@)[k]))
                ==> (r matches Ok(c) ==> context_wf(c@)),
    {
        let ghost s = links_view(links@);
        let n = links.len();
        let mut i: usize = 0;
        while i < n
            invariant
                i <= n,
                n == links.len(),
                s == links_view(links@),
                first_dup_from(s, 0) == first_dup_from(s, i as int),
            decreases n - i,
        {
            let mut j: usize = i + 1;
            while j < n
                invariant
                    i < n,
                    i + 1 <= j <= n,
                    n == links.len(),
                    s == links_view(links@),
                    first_dup_from(s, 0) == first_dup_from(s, i as int),
                    forall|k: int| i < k < j ==> !same_link(s[i as int], #[trigger] s[k]),
                decreases n - j,
            {
                if same_link_exec(&links[i], &links[j]) {
                    assert(i < j < s.len() && same_link(s[i as int], s[j as int]));
                    assert(first_dup_from(s, i as int) == i);
                    return Err(LinksetError::DuplicateLink(anchor, links[j].rel().copied(), links[j].target().copied()));
                }
                j = j + 1;
            }
            i = i + 1;
        }
        proof {
            lemma_first_dup_none(s, 0);
        }
        Ok(LinkContext { anchor, links })
    }

    /// This context's anchor.
    pub fn anchor(&self) -> (r: &Uri)
        ensures
            r@ == self@.anchor,
    {
        &self.anchor
    }

    /// The number of links.
    pub fn len(&self) -> (r: usize)
        ensures
            r == self@.links.len(),
    {
        self.links.len()
    }

    /// The links, in order.
    pub fn links(&self) -> (r: &Vec<Link>)
        ensures
            links_view(r@) == self@.links,
    {
        &self.links
    }

    /// The link at position `i`.
    pub fn get(&self, i: usize) -> (r: &Link)
        requires
            i < self@.links.len(),
        ensures
            r@ == self@.links[i as int],
    {
        &self.links[i]
    }

    /// The link at position `i`, to be changed in place.
    pub fn get_mut(&mut self, i: usize) -> (r: &mut Link)
        requires
            i < old(self)@.links.len(),
        ensures
            r@ == old(self)@.links[i as int],
            final(self)@.anchor == old(self)@.anchor,
            final(self)@.links == old(self)@.links.update(i as int, final(r)@),
    {
        &mut self.links[i]
    }

    /// The links, taken out of the context.
    pub fn into_links(self) -> (r: Vec<Link>)
        ensures
            links_view(r@) == self@.links,
    {
        self.links
    }

    /// Add a link to this context, refusing a link that is already present
    /// (same target and relation type).
    pub fn add_link(&mut self, link: Link) -> (r: Result<(), LinksetError>)
        ensures
            final(self)@.anchor == old(self)@.anchor,
            has_same_link(old(self)@.links, link@) ==> {
                &&& r matches Err(LinksetError::DuplicateLink(a, rel, t))
                &&& a@ == old(self)@.anchor && rel@ == link@.rel && t@ == link@.target
                &&& final(self)@ == old(self)@
            },
            !has_same_link(old(self)@.links, link@) ==> {
                &&& r is Ok
                &&& final(self)@.links == old(self)@.links.push(link@)
            },
            context_wf(old(self)@) && link_wf(link@) ==> context_wf(final(self)@),
    {
        let ghost s = links_view(self.links@);
        let mut i: usize = 0;
        while i < self.links.len()
            invariant
                i <= self.links.len(),
                s == links_view(self.links@),
                forall|k: int| 0 <= k < i ==> !same_link(#[trigger] s[k], link@),
            decreases self.links.len() - i,
        {
            if same_link_exec(&self.links[i], &link) {
                assert(same_link(s[i as int], link@));
                return Err(LinksetError::DuplicateLink(self.anchor.copied(), link.rel().copied(), link.target().copied()));
            }
            i = i + 1;
        }
        let ghost before = self@;
        let ghost l = link@;
        self.links.push(link);
        assert(links_view(self.links@) =~= s.push(l));
        proof {
            if context_wf(before) && link_wf(l) {
                assert(!has_same_link(before.links, l));
                super::laws::add_link_keeps_context_wf(before, l);
                assert(self@ == (ContextView { links: before.links.push(l), ..before }));
            }
        }
        Ok(())
    }

    /// Remove the link at position `idx`, keeping the order of the others.
    /// When `idx` is out of range, the last link is removed.
    pub fn del_link(&mut self, idx: usize)
        requires
            idx < usize::MAX,
        ensures
            final(self)@.anchor == old(self)@.anchor,
            final(self)@.links == links_after_del(old(self)@.links, idx as int),
            context_wf(old(self)@) ==> context_wf(final(self)@),
    {
        proof {
            if context_wf(self@) {
                super::laws::del_link_keeps_context_wf(self@, idx as int);
            }
        }
        let ghost s = links_view(self.links@);
        if idx < self.links.len() {
            self.links.remove(idx);
            assert(links_view(self.links@) =~= s.remove(idx as int));
        } else if self.links.len() > 0 {
            self.links.pop();
            assert(links_view(self.links@) =~= s.drop_last());
        }
    }

    /// Merge another context with the same anchor into this one, adding its
    /// links in order; stops with an error at the first link already present.
    pub fn merge(&mut self, other: LinkContext) -> (r: Result<(), LinksetError>)
        requires
            old(self)@.anchor == other@.anchor,
        ensures
            final(self)@.anchor == old(self)@.anchor,
            final(self)@.links == merge_links(old(self)@.links, other@.links).0,
            match merge_links(old(self)@.links, other@.links).1 {
                None => r is Ok,
                Some(l) => r matches Err(LinksetError::DuplicateLink(a, rel, t))
                    && a@ == old(self)@.anchor && rel@ == l.rel && t@ == l.target,
            },
            context_wf(old(self)@) && (forall|k: int| 0 <= k < other@.links.len() ==> link_wf(#[trigger] other@.links[k]))
                ==> context_wf(final(self)@),
    {
        proof {
            if context_wf(self@) && (forall|k: int| 0 <= k < other@.links.len() ==> link_wf(#[trigger] other@.links[k])) {
                super::laws::merge_keeps_context_wf(self@, other@.links);
            }
        }
        let ghost total = links_view(other.links@);
        let mut rest = other.links;
        let ghost start = links_view(self.links@);
        loop
            invariant
                self@.anchor == old(self)@.anchor,
                old(self)@.anchor == other@.anchor,
                merge_links(start, total) == merge_links(self@.links, links_view(rest@)),
                start == old(self)@.links,
                total == other@.links,
                context_wf(old(self)@) && (forall|k: int| 0 <= k < other@.links.len() ==> link_wf(#[trigger] other@.links[k]))
                    ==> context_wf(ContextView { links: merge_links(start, total).0, ..old(self)@ }),
            decreases rest.len(),
        {
            if rest.len() == 0 {
                assert(links_view(rest@) =~= Seq::<LinkView>::empty());
                return Ok(());
            }
            let ghost before = links_view(rest@);
            let link = rest.remove(0);
            assert(before[0] == link@);
            assert(before.drop_first() =~= links_view(rest@));
            let res = self.add_link(link);
            if res.is_err() {
                return res;
            }
        }
    }
}

impl PartialEq for LinkContext {
    fn eq(&self, other: &Self) -> (r: bool) {
        if !str_eq(self.anchor.as_str(), other.anchor.as_str()) || self.links.len() != other.links.len() {
            return false;
        }
        let ghost a = self@;
        let ghost b = other@;
        let mut i: usize = 0;
        while i < self.links.len()
            invariant
                i <= self.links.len(),
                a == self@,
                b == other@,
                a.anchor == b.anchor,
                a.links.len() == b.links.len(),
                forall|k: int| 0 <= k < i ==> has_equal_link(b.links, #[trigger] a.links[k]),
            decreases self.links.len() - i,
        {
            let mut found = false;
            let mut j: usize = 0;
            while j < other.links.len()
                invariant
                    i < self.links.len(),
                    j <= other.links.len(),
                    a == self@,
                    b == other@,
                    !found ==> forall|m: int| 0 <= m < j ==> !link_eq(a.links[i as int], #[trigger] b.links[m]),
                    found ==> has_equal_link(b.links, a.links[i as int]),
                decreases other.links.len() - j,
            {
                if !found && self.links[i] == other.links[j] {
                    assert(link_eq(a.links[i as int], b.links[j as int]));
                    found = true;
                }
                j = j + 1;
            }
            if !found {
                assert(!has_equal_link(b.links, a.links[i as int]));
                return false;
            }
            i = i + 1;
        }
        assert(context_eq(a, b));
        true
    }
}

impl vstd::std_specs::cmp::PartialEqSpecImpl for LinkContext {
    open spec fn obeys_eq_spec() -> bool {
        true
    }

    open spec fn eq_spec(&self, other: &Self) -> bool {
        context_eq(self@, other@)
    }
}

} // verus!
