//! RFC 7230 tokens and the validation of extension attribute keys.

use vstd::prelude::*;

use crate::error::ExtensionError;
use crate::strs::{chars_of, str_eq, str_ends_with_char, ends_with_char, is_ascii_alphanumeric};

verus! {

/// An RFC 7230 §3.2.6 `tchar`.
pub open spec fn is_tchar(c: char) -> bool {
    c == '!' || c == '#' || c == '$' || c == '%' || c == '&' || c == '\'' || c == '*'
        || c == '+' || c == '-' || c == '.' || c == '^' || c == '_' || c == '`' || c == '|'
        || c == '~' || is_ascii_alphanumeric(c)
}

/// A non-empty RFC 7230 §3.2.6 `token`.
pub open spec fn is_token(s: Seq<char>) -> bool {
    s.len() > 0 && forall|i: int| 0 <= i < s.len() ==> is_tchar(#[trigger] s[i])
}

/// The well-known plain link parameter names of RFC 8288 §3:
/// `rel`, `rev`, `anchor`, `type`, `title`, `hreflang`, `media`.
pub open spec fn is_well_known_key(s: Seq<char>) -> bool {
    s == seq!['r', 'e', 'l'] || s == seq!['r', 'e', 'v'] || s == seq!['a', 'n', 'c', 'h', 'o', 'r']
        || s == seq!['t', 'y', 'p', 'e'] || s == seq!['t', 'i', 't', 'l', 'e']
        || s == seq!['h', 'r', 'e', 'f', 'l', 'a', 'n', 'g'] || s == seq!['m', 'e', 'd', 'i', 'a']
}

/// The well-known `*`-suffixed link parameter name of RFC 8187: `title*`.
pub open spec fn is_well_known_i18n_key(s: Seq<char>) -> bool {
    s == seq!['t', 'i', 't', 'l', 'e', '*']
}

/// The outcome of validating an extension attribute key: `None` when valid.
pub enum KeyProblem {
    InvalidKey,
    ReservedKey,
    StarSuffixRequired,
    StarSuffixForbidden,
}

/// What is wrong with `key` as a plain (`i18n == false`) or internationalised
/// extension attribute key, the checks being made in this order: token syntax,
/// `*` suffix, reserved names.
pub open spec fn ext_key_problem(key: Seq<char>, i18n: bool) -> Option<KeyProblem> {
    if !is_token(key) {
        Some(KeyProblem::InvalidKey)
    } else if i18n {
        if !ends_with_char(key, '*') {
            Some(KeyProblem::StarSuffixRequired)
        } else if is_well_known_i18n_key(key) {
            Some(KeyProblem::ReservedKey)
        } else {
            None
        }
    } else {
        if ends_with_char(key, '*') {
            Some(KeyProblem::StarSuffixForbidden)
        } else if is_well_known_key(key) {
            Some(KeyProblem::ReservedKey)
        } else {
            None
        }
    }
}

/// Return `true` if `c` is an RFC 7230 §3.2.6 `tchar`.
pub fn is_tchar_exec(c: char) -> (r: bool)
    ensures
        r == is_tchar(c),
{
    c == '!' || c == '#' || c == '$' || c == '%' || c == '&' || c == '\'' || c == '*'
        || c == '+' || c == '-' || c == '.' || c == '^' || c == '_' || c == '`' || c == '|'
        || c == '~' || ('a' <= c && c <= 'z') || ('A' <= c && c <= 'Z') || ('0' <= c && c <= '9')
}

/// Return `true` if `s` is a non-empty RFC 7230 §3.2.6 token.
pub fn is_valid_token(s: &str) -> (r: bool)
    ensures
        r == is_token(s@),
{
    let cs = chars_of(s);
    if cs.len() == 0 {
        return false;
    }
    let mut i: usize = 0;
    while i < cs.len()
        invariant
            i <= cs.len(),
            cs@ == s@,
            forall|j: int| 0 <= j < i ==> is_tchar(#[trigger] s@[j]),
        decreases cs.len() - i,
    {
        if !is_tchar_exec(cs[i]) {
            return false;
        }
        i = i + 1;
    }
    true
}

/// Whether `s` is one of the well-known plain link parameter names.
pub fn is_well_known_key_exec(s: &str) -> (r: bool)
    ensures
        r == is_well_known_key(s@),
{
    proof {
        reveal_strlit("rel");
        assert("rel"@ =~= seq!['r', 'e', 'l']);
        reveal_strlit("rev");
        assert("rev"@ =~= seq!['r', 'e', 'v']);
        reveal_strlit("anchor");
        assert("anchor"@ =~= seq!['a', 'n', 'c', 'h', 'o', 'r']);
        reveal_strlit("type");
        assert("type"@ =~= seq!['t', 'y', 'p', 'e']);
        reveal_strlit("title");
        assert("title"@ =~= seq!['t', 'i', 't', 'l', 'e']);
        reveal_strlit("hreflang");
        assert("hreflang"@ =~= seq!['h', 'r', 'e', 'f', 'l', 'a', 'n', 'g']);
        reveal_strlit("media");
        assert("media"@ =~= seq!['m', 'e', 'd', 'i', 'a']);
    }
    str_eq(s, "rel") || str_eq(s, "rev") || str_eq(s, "anchor") || str_eq(s, "type")
        || str_eq(s, "title") || str_eq(s, "hreflang") || str_eq(s, "media")
}

/// Whether `s` is the well-known `*`-suffixed link parameter name.
pub fn is_well_known_i18n_key_exec(s: &str) -> (r: bool)
    ensures
        r == is_well_known_i18n_key(s@),
{
    proof {
        reveal_strlit("title*");
        assert("title*"@ =~= seq!['t', 'i', 't', 'l', 'e', '*']);
    }
    str_eq(s, "title*")
}

/// Validate an extension attribute key, distinguishing plain (`i18n == false`)
/// from internationalised keys.
pub fn validate_ext_attribute(key: &str, i18n: bool) -> (r: Result<(), ExtensionError>)
    ensures
        match ext_key_problem(key@, i18n) {
            None => r is Ok,
            Some(KeyProblem::InvalidKey) => r matches Err(ExtensionError::InvalidKey(k)) && k@ == key@,
            Some(KeyProblem::ReservedKey) => r matches Err(ExtensionError::ReservedKey(k)) && k@ == key@,
            Some(KeyProblem::StarSuffixRequired) => r matches Err(ExtensionError::StarSuffixRequired),
            Some(KeyProblem::StarSuffixForbidden) => r matches Err(ExtensionError::StarSuffixForbidden),
        },
{
    if !is_valid_token(key) {
        return Err(ExtensionError::InvalidKey(key.to_owned()));
    }
    if i18n {
        if !str_ends_with_char(key, '*') {
            return Err(ExtensionError::StarSuffixRequired);
        }
        if is_well_known_i18n_key_exec(key) {
            return Err(ExtensionError::ReservedKey(key.to_owned()));
        }
    } else {
        if str_ends_with_char(key, '*') {
            return Err(ExtensionError::StarSuffixForbidden);
        }
        if is_well_known_key_exec(key) {
            return Err(ExtensionError::ReservedKey(key.to_owned()));
        }
    }
    Ok(())
}

} // verus!
