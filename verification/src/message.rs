//! Error messages: where in a document reading stopped, and why.

use vstd::prelude::*;

use crate::external::{debug_quoted, invalid_uri_text, push_char};
use crate::text::write::push_all;

verus! {

/// The decimal digit `d`.
fn digit_char(d: usize) -> (c: char)
    requires
        d < 10,
{
    match d {
        0 => '0',
        1 => '1',
        2 => '2',
        3 => '3',
        4 => '4',
        5 => '5',
        6 => '6',
        7 => '7',
        8 => '8',
        _ => '9',
    }
}

/// Append `n` in decimal.
pub(crate) fn push_decimal(out: &mut String, n: usize) {
    let mut digits: Vec<char> = Vec::new();
    let mut m: usize = n;
    loop
        decreases m,
    {
        digits.push(digit_char(m % 10));
        m = m / 10;
        if m == 0 {
            break;
        }
    }
    let mut i: usize = digits.len();
    while i > 0
        invariant
            i <= digits.len(),
        decreases i,
    {
        i = i - 1;
        push_char(out, digits[i]);
    }
}

/// Append `s` as `{:?}` writes it.
pub(crate) fn push_debug(out: &mut String, s: &str) {
    let q = debug_quoted(s);
    push_all(out, q.as_str());
}

/// `a` followed by `b`.
pub(crate) fn cat(a: &str, b: &str) -> (r: String)
    ensures
        r@ == a@ + b@,
{
    let mut out = String::new();
    push_all(&mut out, a);
    push_all(&mut out, b);
    assert(out@ =~= a@ + b@);
    out
}

/// `prefix`, then `text` as `{:?}` writes it, then `": "` and the message
/// that `sophia_iri` gives for an invalid URI.
pub(crate) fn invalid_uri_msg(prefix: &str, text: &str) -> String {
    let mut out = String::new();
    push_all(&mut out, prefix);
    push_debug(&mut out, text);
    push_all(&mut out, ": ");
    let e = invalid_uri_text(text);
    push_all(&mut out, e.as_str());
    out
}

/// `a`, then `s` as `{:?}` writes it, then `b`.
pub(crate) fn cat_debug(a: &str, s: &str, b: &str) -> String {
    let mut out = String::new();
    push_all(&mut out, a);
    push_debug(&mut out, s);
    push_all(&mut out, b);
    out
}

} // verus!
