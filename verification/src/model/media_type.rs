//! Media types (RFC 7231 §3.1.1.1).

use vstd::prelude::*;

use crate::error::MediaTypeError;
use crate::strs::chars_of;
use super::ext_token::{is_tchar, is_tchar_exec, is_token};

verus! {

/// A character of Unicode's `White_Space` property (what `\s` matches in a
/// Unicode regular expression).
pub open spec fn is_unicode_white_space(c: char) -> bool {
    ('\u{9}' <= c && c <= '\u{d}') || c == ' ' || c == '\u{85}' || c == '\u{a0}'
        || c == '\u{1680}' || ('\u{2000}' <= c && c <= '\u{200a}') || c == '\u{2028}'
        || c == '\u{2029}' || c == '\u{202f}' || c == '\u{205f}' || c == '\u{3000}'
}

/// The end of the longest run of `tchar`s starting at `i`.
pub open spec fn tchars_end(s: Seq<char>, i: int) -> int
    decreases s.len() - i,
{
    if 0 <= i < s.len() && is_tchar(s[i]) {
        tchars_end(s, i + 1)
    } else {
        i
    }
}

/// The end of the longest run of white space starting at `i`.
pub open spec fn white_end(s: Seq<char>, i: int) -> int
    decreases s.len() - i,
{
    if 0 <= i < s.len() && is_unicode_white_space(s[i]) {
        white_end(s, i + 1)
    } else {
        i
    }
}

/// A plausible media type: `token "/" token`, then nothing, or white space
/// and a `;` after which the parameters are taken as they are.
pub open spec fn is_media_type(s: Seq<char>) -> bool {
    let t1 = tchars_end(s, 0);
    let t2 = tchars_end(s, t1 + 1);
    &&& t1 > 0
    &&& t1 < s.len()
    &&& s[t1] == '/'
    &&& t2 > t1 + 1
    &&& (t2 == s.len() || (white_end(s, t2) < s.len() && s[white_end(s, t2)] == ';'))
}

fn is_unicode_white_space_exec(c: char) -> (r: bool)
    ensures
        r == is_unicode_white_space(c),
{
    ('\u{9}' <= c && c <= '\u{d}') || c == ' ' || c == '\u{85}' || c == '\u{a0}'
        || c == '\u{1680}' || ('\u{2000}' <= c && c <= '\u{200a}') || c == '\u{2028}'
        || c == '\u{2029}' || c == '\u{202f}' || c == '\u{205f}' || c == '\u{3000}'
}

fn tchars_end_exec(s: &Vec<char>, i: usize) -> (r: usize)
    requires
        i <= s.len(),
    ensures
        r as int == tchars_end(s@, i as int),
        i <= r <= s.len(),
{
    let mut j = i;
    while j < s.len() && is_tchar_exec(s[j])
        invariant
            i <= j <= s.len(),
            tchars_end(s@, i as int) == tchars_end(s@, j as int),
        decreases s.len() - j,
    {
        j = j + 1;
    }
    j
}

fn white_end_exec(s: &Vec<char>, i: usize) -> (r: usize)
    requires
        i <= s.len(),
    ensures
        r as int == white_end(s@, i as int),
        i <= r <= s.len(),
{
    let mut j = i;
    while j < s.len() && is_unicode_white_space_exec(s[j])
        invariant
            i <= j <= s.len(),
            white_end(s@, i as int) == white_end(s@, j as int),
        decreases s.len() - j,
    {
        j = j + 1;
    }
    j
}

/// Whether `s` is a plausible media type.
pub fn is_media_type_exec(s: &str) -> (r: bool)
    ensures
        r == is_media_type(s@),
{
    let cs = chars_of(s);
    let t1 = tchars_end_exec(&cs, 0);
    if !(t1 > 0 && t1 < cs.len() && cs[t1] == '/') {
        return false;
    }
    let t2 = tchars_end_exec(&cs, t1 + 1);
    if t2 == t1 + 1 {
        return false;
    }
    if t2 == cs.len() {
        return true;
    }
    let j = white_end_exec(&cs, t2);
    j < cs.len() && cs[j] == ';'
}

/// A plausible media type string, e.g. `text/html` or `application/linkset+json`.
///
/// The `type` and `subtype` must be non-empty RFC 7230 tokens; parameters
/// (after `;`) are accepted without further validation. No check is made that the type is
/// registered with IANA.
#[derive(Debug, Clone)]
pub struct MediaType {
    text: String,
}

impl View for MediaType {
    type V = Seq<char>;

    closed spec fn view(&self) -> Seq<char> {
        self.text@
    }
}

impl MediaType {
    /// Parse and validate `s` as a plausible media type.
    pub fn new(s: String) -> (r: Result<MediaType, MediaTypeError>)
        ensures
            r is Ok <==> is_media_type(s@),
            r matches Ok(m) ==> m@ == s@,
            r matches Err(e) ==> e.0@ == s@,
    {
        if is_media_type_exec(s.as_str()) {
            Ok(MediaType { text: s })
        } else {
            Err(MediaTypeError(s))
        }
    }

    /// Wrap a media-type string without checking it.
    pub fn new_unchecked(s: String) -> (r: MediaType)
        ensures
            r@ == s@,
    {
        MediaType { text: s }
    }

    /// The media type as a string slice.
    pub fn as_str(&self) -> (r: &str)
        ensures
            r@ == self@,
    {
        self.text.as_str()
    }

    /// A copy of this media type.
    pub fn copied(&self) -> (r: MediaType)
        ensures
            r@ == self@,
    {
        MediaType { text: self.text.clone() }
    }
}

impl PartialEq for MediaType {
    fn eq(&self, other: &Self) -> (r: bool) {
        self.text == other.text
    }
}

impl vstd::std_specs::cmp::PartialEqSpecImpl for MediaType {
    open spec fn obeys_eq_spec() -> bool {
        true
    }

    open spec fn eq_spec(&self, other: &Self) -> bool {
        self@ == other@
    }
}


// ── What a media type is ─────────────────────────────────────────────────────

/// A run of `tchar`s from `i` that ends at `e` (the end of the string or a
/// character that is no `tchar`) is the longest such run.
proof fn lemma_tchars_end_at(s: Seq<char>, i: int, e: int)
    requires
        0 <= i <= e <= s.len(),
        forall|k: int| i <= k < e ==> is_tchar(#[trigger] s[k]),
        e == s.len() || !is_tchar(s[e]),
    ensures
        tchars_end(s, i) == e,
    decreases e - i,
{
    if i < e {
        lemma_tchars_end_at(s, i + 1, e);
    }
}

/// The longest run of `tchar`s from `i` is made of `tchar`s.
proof fn lemma_tchars_end_run(s: Seq<char>, i: int)
    requires
        0 <= i <= s.len(),
    ensures
        i <= tchars_end(s, i) <= s.len(),
        forall|k: int| i <= k < tchars_end(s, i) ==> is_tchar(#[trigger] s[k]),
    decreases s.len() - i,
{
    if i < s.len() && is_tchar(s[i]) {
        lemma_tchars_end_run(s, i + 1);
    }
}

/// Every `token "/" token` is a media type, and so is every such string
/// followed by `;` and any parameters.
pub proof fn token_slash_token_is_media_type(t1: Seq<char>, t2: Seq<char>, params: Seq<char>)
    requires
        is_token(t1),
        is_token(t2),
    ensures
        is_media_type(t1 + seq!['/'] + t2),
        is_media_type(t1 + seq!['/'] + t2 + seq![';'] + params),
{
    let a = t1 + seq!['/'] + t2;
    let b = a + seq![';'] + params;
    let n = t1.len() as int;
    let m = a.len() as int;
    assert(!is_tchar('/'));
    assert(!is_tchar(';'));
    assert forall|k: int| 0 <= k < n implies is_tchar(#[trigger] a[k]) by {
        assert(a[k] == t1[k]);
    }
    assert forall|k: int| n + 1 <= k < m implies is_tchar(#[trigger] a[k]) by {
        assert(a[k] == t2[k - n - 1]);
    }
    assert(a[n] == '/');
    lemma_tchars_end_at(a, 0, n);
    lemma_tchars_end_at(a, n + 1, m);
    assert forall|k: int| 0 <= k < n implies is_tchar(#[trigger] b[k]) by {
        assert(b[k] == t1[k]);
    }
    assert forall|k: int| n + 1 <= k < m implies is_tchar(#[trigger] b[k]) by {
        assert(b[k] == t2[k - n - 1]);
    }
    assert(b[n] == '/');
    assert(b[m] == ';');
    lemma_tchars_end_at(b, 0, n);
    lemma_tchars_end_at(b, n + 1, m);
    assert(!is_unicode_white_space(';'));
    assert(white_end(b, m) == m);
}

/// A media type starts with a token followed by `/`, and that slash is
/// followed by a token.
pub proof fn media_type_starts_with_token_slash_token(s: Seq<char>)
    requires
        is_media_type(s),
    ensures
        exists|k: int, e: int| 0 < k < e <= s.len() && #[trigger] s[k] == '/' && is_token(s.subrange(0, k))
            && #[trigger] is_token(s.subrange(k + 1, e)),
{
    let k = tchars_end(s, 0);
    lemma_tchars_end_run(s, 0);
    lemma_tchars_end_run(s, k + 1);
    let e = tchars_end(s, k + 1);
    assert forall|x: int| 0 <= x < s.subrange(0, k).len() implies is_tchar(#[trigger] s.subrange(0, k)[x]) by {
        assert(s.subrange(0, k)[x] == s[x]);
    }
    assert forall|x: int| 0 <= x < s.subrange(k + 1, e).len() implies is_tchar(#[trigger] s.subrange(k + 1, e)[x]) by {
        assert(s.subrange(k + 1, e)[x] == s[k + 1 + x]);
    }
    assert(is_token(s.subrange(k + 1, e)));
}

/// A type or subtype made of ASCII letters, digits, `+`, `-` and `.`.
pub open spec fn plain_type_name(t: Seq<char>) -> bool {
    t.len() > 0 && forall|k: int| 0 <= k < t.len() ==> crate::strs::is_ascii_alphanumeric(#[trigger] t[k])
        || t[k] == '+' || t[k] == '-' || t[k] == '.'
}

/// Types and subtypes of letters, digits, `+`, `-` and `.` (such as
/// `video/mp4` or `application/linkset+json`) make media types.
pub proof fn plain_names_make_media_types(t1: Seq<char>, t2: Seq<char>)
    requires
        plain_type_name(t1),
        plain_type_name(t2),
    ensures
        is_media_type(t1 + seq!['/'] + t2),
{
    assert forall|k: int| 0 <= k < t1.len() implies is_tchar(#[trigger] t1[k]) by {}
    assert forall|k: int| 0 <= k < t2.len() implies is_tchar(#[trigger] t2[k]) by {}
    token_slash_token_is_media_type(t1, t2, Seq::empty());
}

} // verus!
