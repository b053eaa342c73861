//! Writing URIs relative to an optional base.

use vstd::prelude::*;

use crate::external::{check_uri, is_valid_uri, relativize_uri, relativized_uri};
use crate::model::uri::{Uri, base_view};
use crate::text::write::one_line;

verus! {

/// The text written for `uri`: relative to the base when there is one, both
/// are valid URIs and `sophia_iri` can relativize against it; else the URI itself.
pub open spec fn relative_text(base: Option<Seq<char>>, uri: Seq<char>) -> Seq<char> {
    match base {
        Some(b) => if is_valid_uri(b) && is_valid_uri(uri) {
            match relativized_uri(b, uri) {
                Some(r) => r,
                None => uri,
            }
        } else {
            uri
        },
        None => uri,
    }
}

/// Relativizes URIs against an optional base (allowing one `../` at most).
pub struct UriRelativizer {
    base: Option<Uri>,
}

impl View for UriRelativizer {
    type V = Option<Seq<char>>;

    closed spec fn view(&self) -> Option<Seq<char>> {
        match self.base {
            Some(b) => Some(b@),
            None => None,
        }
    }
}

impl UriRelativizer {
    /// A relativizer for the given base; without a base, URIs are left as they are.
    pub fn new(base: Option<&Uri>) -> (r: UriRelativizer)
        ensures
            r@ == base_view(base),
    {
        UriRelativizer {
            base: match base {
                Some(b) => Some(b.copied()),
                None => None,
            },
        }
    }

    /// The text of `uri` relative to the base, if it can be relativized. It
    /// holds no line break when `uri` holds none.
    pub fn relativize(&self, uri: &Uri) -> (r: String)
        ensures
            r@ == relative_text(self@, uri@),
            one_line(uri@) ==> one_line(r@),
    {
        match &self.base {
            Some(b) => if check_uri(b.as_str()) && check_uri(uri.as_str()) {
                match relativize_uri(b.as_str(), uri.as_str()) {
                    Some(r) => {
                        proof {
                            if one_line(uri@) {
                                assert forall|i: int| 0 <= i < r@.len() implies #[trigger] r@[i] != '\n' && r@[i] != '\r' by {
                                    let c = r@[i];
                                    if c != '.' && c != '/' {
                                        let j = choose|j: int| 0 <= j < uri@.len() && uri@[j] == c;
                                        assert(uri@[j] != '\n' && uri@[j] != '\r');
                                    }
                                }
                            }
                        }
                        r
                    },
                    None => uri.as_str().to_owned(),
                }
            } else {
                uri.as_str().to_owned()
            },
            None => uri.as_str().to_owned(),
        }
    }
}

} // verus!
