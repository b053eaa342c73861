//! URIs, held as their text.

use vstd::prelude::*;

use crate::external::{check_uri, check_uri_ref, is_valid_uri, is_valid_uri_ref, resolve_uri, resolved_uri};

verus! {

/// A URI (RFC 3986 `URI`: absolute, with an optional fragment).
///
/// [`Uri::new`] checks the syntax; [`Uri::new_unchecked`] trusts the caller.
#[derive(Debug, Clone)]
pub struct Uri {
    text: String,
}

/// Error returned when a string is not a valid URI.
#[derive(Debug, PartialEq, Clone)]
pub struct InvalidUri(pub String);

impl View for Uri {
    type V = Seq<char>;

    closed spec fn view(&self) -> Seq<char> {
        self.text@
    }
}

impl Uri {
    /// Validate `text` as a URI.
    pub fn new(text: String) -> (r: Result<Uri, InvalidUri>)
        ensures
            r is Ok <==> is_valid_uri(text@),
            r matches Ok(u) ==> u@ == text@,
            r matches Err(e) ==> e.0@ == text@,
    {
        if check_uri(text.as_str()) {
            Ok(Uri { text })
        } else {
            Err(InvalidUri(text))
        }
    }

    /// Wrap `text` without checking it.
    pub fn new_unchecked(text: String) -> (r: Uri)
        ensures
            r@ == text@,
    {
        Uri { text }
    }

    /// The URI's text.
    pub fn as_str(&self) -> (r: &str)
        ensures
            r@ == self@,
    {
        self.text.as_str()
    }

    /// A copy of this URI.
    pub fn copied(&self) -> (r: Uri)
        ensures
            r@ == self@,
    {
        Uri { text: self.text.clone() }
    }
}

impl PartialEq for Uri {
    fn eq(&self, other: &Self) -> (r: bool) {
        self.text == other.text
    }
}

impl vstd::std_specs::cmp::PartialEqSpecImpl for Uri {
    open spec fn obeys_eq_spec() -> bool {
        true
    }

    open spec fn eq_spec(&self, other: &Self) -> bool {
        self@ == other@
    }
}

/// Resolving a URI reference against an optional base: with a base, any valid
/// URI reference is resolved against it (which may fail); without, the text
/// must be a URI.
pub open spec fn resolve_spec(base: Option<Seq<char>>, text: Seq<char>) -> Option<Seq<char>> {
    match base {
        Some(b) => if is_valid_uri_ref(text) {
            resolved_uri(b, text)
        } else {
            None
        },
        None => if is_valid_uri(text) {
            Some(text)
        } else {
            None
        },
    }
}

/// The view of an optional base URI.
pub open spec fn base_view(base: Option<&Uri>) -> Option<Seq<char>> {
    match base {
        Some(b) => Some(b@),
        None => None,
    }
}

/// An optional base that is a valid URI.
pub open spec fn base_ok(base: Option<Seq<char>>) -> bool {
    base matches Some(b) ==> is_valid_uri(b)
}

/// Whether an optional base is a valid URI.
pub fn check_base(base: Option<&Uri>) -> (r: bool)
    ensures
        r == base_ok(base_view(base)),
{
    match base {
        Some(b) => check_uri(b.as_str()),
        None => true,
    }
}

/// Resolve a URI-reference string against an optional base, which must be a URI.
pub(crate) fn resolve(base: Option<&Uri>, text: &str) -> (r: Result<Uri, InvalidUri>)
    requires
        base matches Some(b) ==> is_valid_uri(b@),
    ensures
        match r {
            Ok(u) => resolve_spec(base_view(base), text@) == Some(u@),
            Err(_) => resolve_spec(base_view(base), text@) is None,
        },
{
    match base {
        Some(b) => {
            if check_uri_ref(text) {
                match resolve_uri(b.as_str(), text) {
                    Some(u) => Ok(Uri::new_unchecked(u)),
                    None => Err(InvalidUri(text.to_owned())),
                }
            } else {
                Err(InvalidUri(text.to_owned()))
            }
        },
        None => Uri::new(text.to_owned()),
    }
}

} // verus!
