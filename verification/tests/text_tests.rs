use linkset::error::LinksetError;
use linkset::model::{I18nString, LanguageTag, Link, LinkContext, Linkset, RelType, Uri};
use linkset::relativizer::UriRelativizer;
use linkset::text::decode::{decode_ext_value, percent_decode, split_ascii_whitespace};
use linkset::text::parser::{parse_all_entries, ParamValue};

fn uri(s: &str) -> Uri {
    Uri::new_unchecked(s.to_string())
}

#[test]
fn quoted_string_() {
    let input = "<https://ex.org/>; a=\"\\\"\\\\\\a\"";
    let entries = parse_all_entries(input.as_bytes()).unwrap();
    assert_eq!(entries.len(), 1);
    match &entries[0].params[0].1 {
        ParamValue::Plain(v) => assert_eq!(v, "\"\\a"),
        other => panic!("unexpected {other:?}"),
    }
}

#[test]
fn missing_rel_is_error() {
    let input = r#"<https://example.com/foo>; anchor="https://example.com/""#;
    assert!(matches!(Linkset::from_text_str(input, None), Err(LinksetError::Text(_))));
}

#[test]
fn missing_anchor_without_base_is_error() {
    let input = r#"<https://example.com/foo>; rel="item""#;
    assert!(matches!(Linkset::from_text_str(input, None), Err(LinksetError::Text(_))));
}

#[test]
fn missing_anchor_with_base_ok() {
    let base = uri("https://example.com/");
    let input = r#"<https://example.com/foo>; rel="item""#;
    let ls = Linkset::from_text_str(input, Some(&base)).unwrap();
    assert_eq!(ls.get(0).anchor().as_str(), "https://example.com/");
    assert_eq!(ls.get(0).get(0).target().as_str(), "https://example.com/foo");
    assert_eq!(ls.get(0).get(0).rel().as_str(), "item");
}

#[test]
fn multiple_rels_produce_multiple_links() {
    let input = r#"<https://example.com/foo>; rel="item next"; anchor="https://example.com/""#;
    let ls = Linkset::from_text_str(input, None).unwrap();
    assert_eq!(ls.get(0).len(), 2);
    assert_eq!(ls.get(0).get(0).rel().as_str(), "item");
    assert_eq!(ls.get(0).get(1).rel().as_str(), "next");
}

#[test]
fn extension_uri_rel() {
    let input = r#"<https://example.com/foo>; rel="https://example.com/rel/owns"; anchor="https://example.com/""#;
    let ls = Linkset::from_text_str(input, None).unwrap();
    assert_eq!(ls.get(0).get(0).rel().as_str(), "https://example.com/rel/owns");
}

#[test]
fn hreflang_multi_params() {
    let input = r#"<https://ex.org/foo>; rel="next"; anchor="https://ex.org/"; hreflang=en; hreflang=de"#;
    let ls = Linkset::from_text_str(input, None).unwrap();
    assert_eq!(ls.get(0).get(0).hreflang.len(), 2);
    assert_eq!(ls.get(0).get(0).hreflang[0].as_str(), "en");
    assert_eq!(ls.get(0).get(0).hreflang[1].as_str(), "de");
}

#[test]
fn ext_i18n_title_star() {
    // title*=UTF-8'de'n%c3%a4chstes%20Kapitel  →  "nächstes Kapitel"
    let input = r#"<https://ex.org/foo>; rel="next"; anchor="https://ex.org/"; title*=UTF-8'de'n%c3%a4chstes%20Kapitel"#;
    let ls = Linkset::from_text_str(input, None).unwrap();
    let t = ls.get(0).get(0).title_i18n.as_ref().unwrap();
    assert_eq!(t.language.as_str(), "de");
    assert_eq!(t.value, "nächstes Kapitel");
}

#[test]
fn ext_attribute_multi_value() {
    let input = r#"<https://ex.org/foo>; rel="item"; anchor="https://ex.org/"; bar="barone"; bar="bartwo""#;
    let ls = Linkset::from_text_str(input, None).unwrap();
    assert_eq!(ls.get(0).get(0).get_ext("bar").unwrap(), &["barone", "bartwo"]);
}

#[test]
fn ext_i18n_attribute() {
    let input = r#"<https://ex.org/foo>; rel="item"; anchor="https://ex.org/"; baz*=US-ASCII'en'bazvalue"#;
    let ls = Linkset::from_text_str(input, None).unwrap();
    let vals = ls.get(0).get(0).get_ext_i18n("baz*").unwrap();
    assert_eq!(vals[0].language.as_str(), "en");
    assert_eq!(vals[0].value, "bazvalue");
}

#[test]
fn non_ascii() {
    // 'é' (U+00E9) encodes as 0xC3 0xA9 in UTF-8 — not valid in application/linkset
    let input = r#"<https://ex.org/foo>; rel="item"; anchor="https://ex.org/"; title="erroné""#;
    assert!(Linkset::from_text_str(input, None).is_err());
}

#[test]
fn serialize_with_base() {
    let base = uri("https://ex.org/");
    let input = r#"<foo>; rel="item""#;
    let ls = Linkset::from_text_str(input, Some(&base)).unwrap();
    let output = ls.to_text_string(false, Some(&base));
    assert_eq!(input, output);
}

// ── ext-values (RFC 8187) ───────────────────────────────────────────────────

fn ext_value_of(input: &str) -> Result<I18nString, LinksetError> {
    let text = format!("<https://ex.org/>; a*={input}");
    let entries = parse_all_entries(text.as_bytes()).unwrap();
    decode_ext_value(&entries[0].params[0].1)
}

#[test]
fn ext_value_valid_utf8() {
    let got = ext_value_of("UTF-8'fr'accentu%c3%a9").unwrap();
    assert_eq!(got, I18nString::new("accentué".into(), LanguageTag::new_unchecked("fr".into())));
}

#[test]
fn ext_value_valid_us_ascii() {
    let got = ext_value_of("US-ASCII'fr'accent").unwrap();
    assert_eq!(got, I18nString::new("accent".into(), LanguageTag::new_unchecked("fr".into())));
}

#[test]
fn ext_value_valid_us_ascii_percent_encoded() {
    let got = ext_value_of("US-ASCII'fr'%61ccent").unwrap();
    assert_eq!(got, I18nString::new("accent".into(), LanguageTag::new_unchecked("fr".into())));
}

#[test]
fn ext_value_invalid() {
    assert!(ext_value_of("UTF-8'fr'accentu%c3").is_err());
    assert!(ext_value_of("UTF-8'fr'accentu%ff").is_err());
    assert!(ext_value_of("UTF-8'fr'accentu%c3%a").is_err());
    assert!(ext_value_of("UTF-8'fr'accentu%c3%az").is_err());
    assert!(ext_value_of("US-ASCII'fr'accentu%c3%a9").is_err());
    assert!(ext_value_of("ISO-8859-1'fr'accent").is_err());
}

#[test]
fn percent_decoding() {
    assert_eq!(percent_decode("a%20b", true).as_deref(), Ok("a b"));
    assert_eq!(percent_decode("%C3%A9", false).as_deref(), Ok("é"));
    assert_eq!(percent_decode("%C3%A9", true), Err("invalid US-ASCII after decoding".to_string()));
    assert_eq!(percent_decode("%4", true), Err("incomplete percent-encoding".to_string()));
    assert_eq!(percent_decode("%+a", true), Err("invalid hex in percent-encoding: \"+a\"".to_string()));
    assert!(percent_decode("%a+", true).is_err());
    assert_eq!(percent_decode("%ff", false), Err("invalid UTF-8 after decoding".to_string()));
}

#[test]
fn whitespace_splitting() {
    assert_eq!(split_ascii_whitespace("  item \t next\n"), vec!["item".to_string(), "next".to_string()]);
    assert!(split_ascii_whitespace("   ").is_empty());
}

// ── Documents ───────────────────────────────────────────────────────────────

#[test]
fn several_link_values_and_contexts() {
    let input = "<https://example.com/foo1>\n   ; rel=\"item\"\n   ; anchor=\"https://example.net/bar\",\n<https://example.com/foo2>\n   ; rel=\"item\"\n   ; anchor=\"https://example.net/bar\",\n<https://example.com/foo3>; rel=next; anchor=\"https://example.net/boo\"";
    let ls = Linkset::from_text_str(input, None).unwrap();
    assert_eq!(ls.len(), 2);
    assert_eq!(ls.get(0).len(), 2);
    assert_eq!(ls.get(1).anchor().as_str(), "https://example.net/boo");
}

#[test]
fn syntax_errors_are_text_errors() {
    for input in [
        "https://example.com/foo; rel=item; anchor=\"https://example.com/\"",
        "<https://example.com/foo>; rel=\"item\"; anchor=\"https://example.com/\",",
        "<https://example.com/foo>; rel=\"item; anchor=\"https://example.com/\"",
        "<https://example.com/foo>; rel=\"a/b\"; anchor=\"https://example.com/\"",
        "<https://example.com/foo>; rel=item; anchor=\"not a uri\"",
        "<relative>; rel=item; anchor=\"https://example.com/\"",
        "<https://example.com/foo>; rel=item; anchor=\"https://example.com/\"; type=html",
    ] {
        assert!(matches!(Linkset::from_text_str(input, None), Err(LinksetError::Text(_))), "{input:?}");
    }
}

#[test]
fn repeated_parameters() {
    let input = "<https://example.com/foo>; rel=item; rel=next; anchor=\"https://example.com/\"; title=a; title=b; title*=UTF-8'de'x; title*=UTF-8'de'y";
    let ls = Linkset::from_text_str(input, None).unwrap();
    assert_eq!(ls.get(0).len(), 2);
    assert_eq!(ls.get(0).get(1).rel().as_str(), "next");
    assert_eq!(ls.get(0).get(0).title.as_deref(), Some("b"));
    assert_eq!(ls.get(0).get(0).title_i18n.as_ref().unwrap().value, "y");
}

#[test]
fn empty_document_is_empty_error() {
    assert_eq!(Linkset::from_text_str("", None).unwrap_err(), LinksetError::Empty);
    assert_eq!(Linkset::from_text_str("  \n ", None).unwrap_err(), LinksetError::Empty);
}

#[test]
fn duplicate_link_is_reported() {
    let input = "<https://example.com/foo>; rel=\"item item\"; anchor=\"https://example.com/\"";
    assert_eq!(
        Linkset::from_text_str(input, None).unwrap_err(),
        LinksetError::DuplicateLink(uri("https://example.com/"), RelType::new_reg_unchecked("item".into()), uri("https://example.com/foo"))
    );
}

#[test]
fn from_text_slice_refuses_invalid_utf8_and_non_ascii() {
    assert!(Linkset::from_text_slice(b"<https://ex.org/>; rel=item; anchor=\"https://ex.org/\"", None).is_ok());
    assert!(Linkset::from_text_slice(b"<https://ex.org/>; rel=item; anchor=\"https://ex.org/\"; title=\"\xff\"", None).is_err());
}

#[test]
fn invalid_base_is_a_text_error() {
    let base = uri("not a base");
    assert!(matches!(Linkset::from_text_str("<a>; rel=item", Some(&base)), Err(LinksetError::Text(_))));
}

#[test]
fn writing_exact_text() {
    let mut link = Link::new(uri("https://example.com/foo"), RelType::new_reg_unchecked("next".into()));
    link.title = Some("Say \"hi\"".into());
    link.hreflang = vec![LanguageTag::new_unchecked("en".into())];
    link.title_i18n = Some(I18nString::new("nächstes Kapitel".into(), LanguageTag::new_unchecked("de".into())));
    link.set_ext("foo", vec!["a".into(), "b".into()]);
    let ls: Linkset = Linkset::from_context(LinkContext::new_with(uri("https://example.net/bar"), vec![link]).unwrap());
    assert_eq!(
        ls.to_text_string(false, None),
        "<https://example.com/foo>; rel=\"next\"; anchor=\"https://example.net/bar\"; hreflang=en; title=\"Say \\\"hi\\\"\"; title*=UTF-8'de'n%C3%A4chstes%20Kapitel; foo=\"a\"; foo=\"b\""
    );
    let pretty = ls.to_text_string(true, None);
    assert!(pretty.contains("\n   ; rel=\"next\""));
    assert_eq!(ls.to_text_vec(false, None), ls.to_text_string(false, None).into_bytes());
}

#[test]
fn text_round_trip_of_written_text() {
    let input = "<https://example.com/foo>; rel=\"next item\"; anchor=\"https://example.net/bar\"; type=\"text/html\"; hreflang=en; hreflang=de; title=\"Next\"; title*=UTF-8'de'n%c3%a4chstes; media=\"screen\"; x=\"1\"; y*=UTF-8'en'z";
    let ls = Linkset::from_text_str(input, None).unwrap();
    for pretty in [false, true] {
        let text = ls.to_text_string(pretty, None);
        let back = Linkset::from_text_str(&text, None).unwrap();
        assert_eq!(ls, back);
    }
}

#[test]
fn relativizer_makes_uris_relative_to_the_base() {
    let r = UriRelativizer::new(Some(&uri("https://ex.org/a/b")));
    assert_eq!(r.relativize(&uri("https://ex.org/a/c")), "c");
    assert_eq!(r.relativize(&uri("https://other.org/x")), "https://other.org/x");
    let none = UriRelativizer::new(None);
    assert_eq!(none.relativize(&uri("https://ex.org/a/c")), "https://ex.org/a/c");
}

#[test]
fn compact_text_is_one_line() {
    let mut link = Link::new(uri("https://example.com/foo"), RelType::new_reg_unchecked("next".into()));
    link.title = Some("two\nlines\r".into());
    link.media = Some("a\nb".into());
    link.set_ext("foo", vec!["x\ny".into()]);
    link.title_i18n = Some(I18nString::new("l\nm".into(), LanguageTag::new_unchecked("en".into())));
    let ls = Linkset::from_context(LinkContext::new_with(uri("https://example.net/bar"), vec![link]).unwrap());
    let text = ls.to_text_string(false, None);
    assert!(!text.contains('\n') && !text.contains('\r'));
    assert!(text.contains("title=\"two lines \""));
    assert!(text.contains("title*=UTF-8'en'l%0Am"));
    let back = Linkset::from_text_str(&text, None).unwrap();
    assert_eq!(back.get(0).get(0).title.as_deref(), Some("two lines "));
    assert_eq!(back.get(0).get(0).title_i18n.as_ref().unwrap().value, "l\nm");
}

#[test]
fn pretty_text_keeps_line_breaks_in_quoted_values() {
    let ls = Linkset::from_text_str("<https://ex.org/a>; rel=item; anchor=\"https://ex.org/\"; title=\"a\nb\"; media=\"x\r\ny\"", None).unwrap();
    assert_eq!(ls.get(0).get(0).title.as_deref(), Some("a\nb"));
    let text = ls.to_text_string(true, None);
    assert!(text.contains("title=\"a\nb\""));
    assert!(text.contains("media=\"x\r\ny\""));
    let back = Linkset::from_text_str(&text, None).unwrap();
    assert_eq!(back, ls);
    let compact = ls.to_text_string(false, None);
    assert!(compact.contains("title=\"a b\""));
    assert!(compact.contains("media=\"x  y\""));
    let back = Linkset::from_text_str(&compact, None).unwrap();
    assert_eq!(back.get(0).get(0).title.as_deref(), Some("a b"));
}

#[test]
fn references_that_do_not_resolve_are_text_errors() {
    let base = uri("a:b");
    assert!(matches!(Linkset::from_text_str("</.//x>; rel=item", Some(&base)), Err(LinksetError::Text(_))));
    let odd = uri("http://[:2::3:4:5:6:7]/");
    assert!(Linkset::from_text_str("<x>; rel=item", Some(&odd)).is_err());
}

#[test]
fn writing_against_a_base_that_cannot_be_a_base() {
    let odd = uri("http://[:2::3:4:5:6:7]/");
    let ls = Linkset::from_text_str("<https://ex.org/a>; rel=item; anchor=\"https://ex.org/\"", None).unwrap();
    let text = ls.to_text_string(false, Some(&odd));
    assert_eq!(text, "<https://ex.org/a>; rel=\"item\"; anchor=\"https://ex.org/\"");
}

fn text_error(text: &str) -> String {
    match Linkset::from_text_str(text, None) {
        Err(LinksetError::Text(m)) => m,
        other => panic!("expected a text error, got {other:?}"),
    }
}

#[test]
fn text_errors_say_what_is_wrong() {
    assert_eq!(text_error("<x>; rel=item"), "invalid target URI \"x\": The given URI 'x' is not valid according to RFC3986");
    assert_eq!(text_error("<https://ex.org/>; rel=item; anchor=\"x y\""), "invalid anchor URI \"x y\": The given URI 'x y' is not valid according to RFC3986");
    assert_eq!(text_error("<https://ex.org/>; rel=item"), "missing 'anchor' parameter and no base URI provided");
    assert_eq!(text_error("<https://ex.org/>; anchor=\"https://ex.org/\""), "missing 'rel' parameter");
    let a = "<https://ex.org/>; anchor=\"https://ex.org/\"; ";
    assert_eq!(text_error(&format!("{a}rel=\"item a/b\"")), "invalid rel type: \"a/b\"");
    assert_eq!(
        text_error(&format!("{a}rel=item; type=text")),
        "invalid media type \"text\": not a plausible media type: \"text\""
    );
    assert_eq!(text_error(&format!("{a}rel=item; hreflang=\"e n\"")), "invalid hreflang tag: \"e n\"");
    assert_eq!(
        text_error(&format!("{a}rel=item; title*=latin1'en'x")),
        "charset \"latin1\" unrecognized (only UTF-8 and US-ASCII supported)"
    );
    assert_eq!(text_error(&format!("{a}rel=item; title*=UTF-8''x")), "missing language tag in ext-value");
    assert_eq!(text_error(&format!("{a}rel=item; title*=UTF-8'abcdefghi'x")), "invalid language tag in ext-value");
}

#[test]
fn ext_values_are_written_in_ascii() {
    let mut link = Link::new(uri("https://example.com/foo"), RelType::new_reg_unchecked("next".into()));
    link.title_i18n = Some(I18nString::new("accentué € 😀".into(), LanguageTag::new_unchecked("fr".into())));
    let ls = Linkset::from_context(LinkContext::new_with(uri("https://example.net/bar"), vec![link]).unwrap());
    let text = ls.to_text_string(false, None);
    assert!(text.is_ascii());
    assert!(text.contains("title*=UTF-8'fr'accentu%C3%A9%20%E2%82%AC%20%F0%9F%98%80"));
    assert_eq!(Linkset::from_text_str(&text, None).unwrap(), ls);
}
