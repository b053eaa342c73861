//! Error types for linkset processing.

use vstd::prelude::*;

use crate::model::rel_type::{RelType, rel_text};
use crate::model::uri::Uri;
use crate::text::write::push_all;

verus! {

/// Error that can occur when handling link sets.
#[derive(Debug, PartialEq, Clone)]
pub enum LinksetError {
    /// A link set must contain at least one context.
    Empty,
    /// The same link (anchor, relation type, target) occurs twice.
    DuplicateLink(Uri, RelType, Uri),
    /// A JSON document is structurally invalid or contains an invalid value.
    Json(String),
    /// A text (`application/linkset`) document is syntactically or semantically invalid.
    Text(String),
}

/// The message of an error, as it is shown to a reader: `empty linkset`,
/// `duplicate link: <target>; rel="rel"; anchor="anchor"`, `JSON: ...` or
/// `text: ...`.
pub open spec fn error_message(e: LinksetError) -> Seq<char> {
    match e {
        LinksetError::Empty => "empty linkset"@,
        LinksetError::DuplicateLink(a, r, t) => "duplicate link: <"@ + t@ + ">; rel=\""@ + rel_text(r@)
            + "\"; anchor=\""@ + a@ + "\""@,
        LinksetError::Json(m) => "JSON: "@ + m@,
        LinksetError::Text(m) => "text: "@ + m@,
    }
}

impl LinksetError {
    /// The message of this error.
    pub fn message(&self) -> (r: String)
        ensures
            r@ == error_message(*self),
    {
        let mut out = String::new();
        match self {
            LinksetError::Empty => push_all(&mut out, "empty linkset"),
            LinksetError::DuplicateLink(a, r, t) => {
                push_all(&mut out, "duplicate link: <");
                push_all(&mut out, t.as_str());
                push_all(&mut out, ">; rel=\"");
                push_all(&mut out, r.as_str());
                push_all(&mut out, "\"; anchor=\"");
                push_all(&mut out, a.as_str());
                push_all(&mut out, "\"");
            },
            LinksetError::Json(m) => {
                push_all(&mut out, "JSON: ");
                push_all(&mut out, m.as_str());
            },
            LinksetError::Text(m) => {
                push_all(&mut out, "text: ");
                push_all(&mut out, m.as_str());
            },
        }
        out
    }
}

/// Error returned when a string is not a plausible media type.
#[derive(Debug, PartialEq, Clone)]
pub struct MediaTypeError(pub String);

impl MediaTypeError {
    /// The message of this error: `not a plausible media type: ` and the
    /// string as `{:?}` writes it.
    pub fn message(&self) -> String {
        crate::message::cat_debug("not a plausible media type: ", self.0.as_str(), "")
    }
}

/// Error returned when a string is not a valid registered relation type.
#[derive(Debug, PartialEq, Clone)]
pub struct RelTypeError(pub String);

/// Errors that can occur when accessing extension link attributes.
#[derive(Debug, PartialEq, Clone)]
pub enum ExtensionError {
    /// The key is not a valid RFC 7230 token.
    InvalidKey(String),
    /// The key names a well-known link attribute that has a dedicated field on a link.
    ReservedKey(String),
    /// A key for internationalised extension attributes must end with `'*'`.
    StarSuffixRequired,
    /// A key for plain extension attributes must not end with `'*'`.
    StarSuffixForbidden,
}

} // verus!
