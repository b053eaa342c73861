//! Link relation types (RFC 8288 §2.1).

use vstd::prelude::*;

use crate::error::RelTypeError;
use crate::external::{check_uri, is_valid_uri};
use crate::strs::str_eq;
use super::ext_token::{is_token, is_valid_token};
use super::uri::Uri;

verus! {

/// The shape of a registered relation type name: an RFC 7230 token.
pub open spec fn is_reg_rel_name(s: Seq<char>) -> bool {
    is_token(s)
}

/// The abstract value of a [`RelType`].
pub enum RelTypeView {
    Reg(Seq<char>),
    Ext(Seq<char>),
}

/// The text of a relation type.
pub open spec fn rel_text(r: RelTypeView) -> Seq<char> {
    match r {
        RelTypeView::Reg(s) => s,
        RelTypeView::Ext(s) => s,
    }
}

/// The relation type that [`RelType::new`] makes of `s`, if any.
pub open spec fn rel_of_str(s: Seq<char>) -> Option<RelTypeView> {
    if is_reg_rel_name(s) {
        Some(RelTypeView::Reg(s))
    } else if is_valid_uri(s) {
        Some(RelTypeView::Ext(s))
    } else {
        None
    }
}

/// A link relation type: either a registered name (a short token such as
/// `item` or `describedby`) or an extension relation type (an absolute URI).
///
/// No check is made that a registered name is listed in the IANA registry.
#[derive(Debug, Clone)]
pub enum RelType {
    /// A registered relation type name.
    Reg(String),
    /// An extension relation type expressed as an absolute URI.
    Ext(Uri),
}

impl View for RelType {
    type V = RelTypeView;

    open spec fn view(&self) -> RelTypeView {
        match self {
            RelType::Reg(s) => RelTypeView::Reg(s@),
            RelType::Ext(u) => RelTypeView::Ext(u@),
        }
    }
}

impl RelType {
    /// Construct a relation type, choosing the variant from the form of `s`:
    /// a registered name if `s` has that shape, else an extension if `s` is a
    /// URI, else nothing.
    pub fn new(s: String) -> (r: Option<RelType>)
        ensures
            match r {
                Some(rt) => rel_of_str(s@) == Some(rt@),
                None => rel_of_str(s@) is None,
            },
    {
        if is_valid_token(s.as_str()) {
            Some(RelType::Reg(s))
        } else if check_uri(s.as_str()) {
            Some(RelType::Ext(Uri::new_unchecked(s)))
        } else {
            None
        }
    }

    /// Construct a registered relation type, checking that the name is an
    /// RFC 7230 token.
    pub fn new_reg(s: String) -> (r: Result<RelType, RelTypeError>)
        ensures
            r is Ok <==> is_reg_rel_name(s@),
            r matches Ok(rt) ==> rt@ == RelTypeView::Reg(s@),
            r matches Err(e) ==> e.0@ == s@,
    {
        if is_valid_token(s.as_str()) {
            Ok(RelType::Reg(s))
        } else {
            Err(RelTypeError(s))
        }
    }

    /// Construct a registered relation type without checking the name.
    pub fn new_reg_unchecked(s: String) -> (r: RelType)
        ensures
            r@ == RelTypeView::Reg(s@),
    {
        RelType::Reg(s)
    }

    /// Construct an extension relation type from a URI.
    pub fn new_ext(uri: Uri) -> (r: RelType)
        ensures
            r@ == RelTypeView::Ext(uri@),
    {
        RelType::Ext(uri)
    }

    /// The relation type as a string slice.
    pub fn as_str(&self) -> (r: &str)
        ensures
            r@ == rel_text(self@),
    {
        match self {
            RelType::Reg(s) => s.as_str(),
            RelType::Ext(uri) => uri.as_str(),
        }
    }

    /// A copy of this relation type.
    pub fn copied(&self) -> (r: RelType)
        ensures
            r@ == self@,
    {
        match self {
            RelType::Reg(s) => RelType::Reg(s.clone()),
            RelType::Ext(uri) => RelType::Ext(uri.copied()),
        }
    }
}

impl PartialEq for RelType {
    fn eq(&self, other: &Self) -> (r: bool) {
        match self {
            RelType::Reg(a) => match other {
                RelType::Reg(b) => str_eq(a.as_str(), b.as_str()),
                RelType::Ext(_) => false,
            },
            RelType::Ext(a) => match other {
                RelType::Reg(_) => false,
                RelType::Ext(b) => str_eq(a.as_str(), b.as_str()),
            },
        }
    }
}

impl vstd::std_specs::cmp::PartialEqSpecImpl for RelType {
    open spec fn obeys_eq_spec() -> bool {
        true
    }

    open spec fn eq_spec(&self, other: &Self) -> bool {
        self@ == other@
    }
}

} // verus!
