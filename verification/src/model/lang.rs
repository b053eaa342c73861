//! Language tags and internationalised strings.

use vstd::prelude::*;

use crate::external::{check_language_tag, is_valid_language_tag};
use crate::strs::{eq_ignore_ascii_case, str_eq_ignore_ascii_case};

verus! {

/// A BCP 47 language tag, compared case-insensitively.
///
/// [`LanguageTag::new`] checks the syntax; [`LanguageTag::new_unchecked`] trusts the caller.
#[derive(Debug, Clone)]
pub struct LanguageTag {
    tag: String,
}

/// Error returned when a string is not a valid language tag.
#[derive(Debug, PartialEq, Clone)]
pub struct InvalidLanguageTag(pub String);

impl View for LanguageTag {
    type V = Seq<char>;

    closed spec fn view(&self) -> Seq<char> {
        self.tag@
    }
}

impl LanguageTag {
    /// Validate `tag` as a BCP 47 language tag.
    pub fn new(tag: String) -> (r: Result<LanguageTag, InvalidLanguageTag>)
        ensures
            r is Ok <==> is_valid_language_tag(tag@),
            r matches Ok(t) ==> t@ == tag@,
            r matches Err(e) ==> e.0@ == tag@,
    {
        if check_language_tag(tag.as_str()) {
            Ok(LanguageTag { tag })
        } else {
            Err(InvalidLanguageTag(tag))
        }
    }

    /// Wrap `tag` without checking it.
    pub fn new_unchecked(tag: String) -> (r: LanguageTag)
        ensures
            r@ == tag@,
    {
        LanguageTag { tag }
    }

    /// The tag's text.
    pub fn as_str(&self) -> (r: &str)
        ensures
            r@ == self@,
    {
        self.tag.as_str()
    }

    /// A copy of this tag.
    pub fn copied(&self) -> (r: LanguageTag)
        ensures
            r@ == self@,
    {
        LanguageTag { tag: self.tag.clone() }
    }
}

impl PartialEq for LanguageTag {
    fn eq(&self, other: &Self) -> (r: bool) {
        str_eq_ignore_ascii_case(self.tag.as_str(), other.tag.as_str())
    }
}

impl vstd::std_specs::cmp::PartialEqSpecImpl for LanguageTag {
    open spec fn obeys_eq_spec() -> bool {
        true
    }

    open spec fn eq_spec(&self, other: &Self) -> bool {
        eq_ignore_ascii_case(self@, other@)
    }
}

/// The abstract value of an [`I18nString`].
pub struct I18nView {
    pub value: Seq<char>,
    pub language: Seq<char>,
}

/// Equality of internationalised strings: same text, same language up to ASCII case.
pub open spec fn i18n_eq(a: I18nView, b: I18nView) -> bool {
    a.value == b.value && eq_ignore_ascii_case(a.language, b.language)
}

/// A text associated with a language.
#[derive(Debug, Clone)]
pub struct I18nString {
    /// The text.
    pub value: String,
    /// The language of the text.
    pub language: LanguageTag,
}

impl View for I18nString {
    type V = I18nView;

    open spec fn view(&self) -> I18nView {
        I18nView { value: self.value@, language: self.language@ }
    }
}

impl I18nString {
    /// Constructor.
    pub fn new(value: String, language: LanguageTag) -> (r: I18nString)
        ensures
            r@ == (I18nView { value: value@, language: language@ }),
    {
        I18nString { value, language }
    }

    /// A copy of this string.
    pub fn copied(&self) -> (r: I18nString)
        ensures
            r@ == self@,
    {
        I18nString { value: self.value.clone(), language: self.language.copied() }
    }
}

impl PartialEq for I18nString {
    fn eq(&self, other: &Self) -> (r: bool) {
        self.value == other.value && str_eq_ignore_ascii_case(self.language.as_str(), other.language.as_str())
    }
}

impl vstd::std_specs::cmp::PartialEqSpecImpl for I18nString {
    open spec fn obeys_eq_spec() -> bool {
        true
    }

    open spec fn eq_spec(&self, other: &Self) -> bool {
        i18n_eq(self@, other@)
    }
}

} // verus!
