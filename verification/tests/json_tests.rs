use linkset::error::LinksetError;
use linkset::json::{parse_i18n_value, JsonValue};
use linkset::model::{Linkset, Uri};

/// The value that a JSON text denotes, with the keys of each object in the
/// order that `serde_json` gives them.
fn to_value(v: &serde_json::Value) -> JsonValue {
    match v {
        serde_json::Value::Null => JsonValue::Null,
        serde_json::Value::Bool(b) => JsonValue::Bool(*b),
        serde_json::Value::Number(n) => JsonValue::Number(n.to_string()),
        serde_json::Value::String(s) => JsonValue::String(s.clone()),
        serde_json::Value::Array(a) => JsonValue::Array(a.iter().map(to_value).collect()),
        serde_json::Value::Object(m) => {
            JsonValue::Object(m.iter().map(|(k, v)| (k.clone(), to_value(v))).collect())
        }
    }
}

fn json(text: &str) -> JsonValue {
    to_value(&serde_json::from_str::<serde_json::Value>(text).unwrap())
}

fn get<'a>(v: &'a JsonValue, key: &str) -> &'a JsonValue {
    match v {
        JsonValue::Object(es) => &es.iter().find(|(k, _)| k == key).unwrap().1,
        _ => panic!("not an object"),
    }
}

fn at(v: &JsonValue, i: usize) -> &JsonValue {
    match v {
        JsonValue::Array(a) => &a[i],
        _ => panic!("not an array"),
    }
}

fn array_len(v: &JsonValue) -> usize {
    match v {
        JsonValue::Array(a) => a.len(),
        _ => panic!("not an array"),
    }
}

#[test]
fn empty_linkset_array_is_error() {
    let val = json(r#"{"linkset": []}"#);
    assert_eq!(Linkset::from_json_value(&val, None), Err(LinksetError::Empty));
}

#[test]
fn missing_anchor_is_error() {
    let val = json(r#"{"linkset": [{"item": [{"href": "https://example.com/"}]}]}"#);
    assert!(matches!(Linkset::from_json_value(&val, None), Err(LinksetError::Json(_))));
}

#[test]
fn missing_href_is_error() {
    let val = json(r#"{"linkset": [{"anchor": "https://example.com/", "item": [{}]}]}"#);
    assert!(matches!(Linkset::from_json_value(&val, None), Err(LinksetError::Json(_))));
}

#[test]
fn extension_attributes_round_trip() {
    let val = json(
        r#"{
            "linkset": [{
                "anchor": "https://example.com/",
                "item": [{
                    "href": "https://example.com/items/1",
                    "foo": ["bar", "baz"],
                    "label*": [{"language": "fr", "value": "Bonjour"}]
                }]
            }]
        }"#,
    );
    let ls = Linkset::from_json_value(&val, None).unwrap();
    let link = ls.get(0).get(0);
    assert_eq!(link.get_ext("foo").unwrap(), &["bar", "baz"]);
    assert_eq!(link.get_ext_i18n("label*").unwrap()[0].value, "Bonjour");
    let ls2 = Linkset::from_json_value(&ls.to_json_value(), None).unwrap();
    assert_eq!(ls, ls2);
}

#[test]
fn multiple_links_same_rel_grouped() {
    let val = json(
        r#"{
            "linkset": [{
                "anchor": "https://example.com/",
                "item": [
                    {"href": "https://example.com/items/1"},
                    {"href": "https://example.com/items/2"}
                ]
            }]
        }"#,
    );
    let ls = Linkset::from_json_value(&val, None).unwrap();
    assert_eq!(ls.get(0).len(), 2);
    let serialized = ls.to_json_value();
    // Both items should be in the same array
    let items = get(at(get(&serialized, "linkset"), 0), "item");
    assert_eq!(array_len(items), 2);
}

#[test]
fn extension_rel_type() {
    let val = json(
        r#"{
            "linkset": [{
                "anchor": "https://example.com/",
                "https://example.com/rel/owns": [{"href": "https://example.com/items/1"}]
            }]
        }"#,
    );
    let ls = Linkset::from_json_value(&val, None).unwrap();
    assert_eq!(ls.get(0).get(0).rel().as_str(), "https://example.com/rel/owns");
}

#[test]
fn relative_uri() {
    let json_abs = json(
        r#"{
            "linkset": [
                {
                    "anchor": "https://example.com/",
                    "item": [
                        { "href": "https://example.com/items/1" },
                        { "href": "https://example.com/items/2" }
                    ]
                },
                {
                    "anchor": "https://example.com/items/1",
                    "next": [
                        { "href": "https://example.com/items/2" }
                    ]
                }
            ]
        }"#,
    );
    let json_rel = json(
        r#"{
            "linkset": [
                {
                    "item": [
                        { "href": "items/1" },
                        { "href": "items/2" }
                    ]
                },
                {
                    "anchor": "items/1",
                    "next": [
                        { "href": "items/2" }
                    ]
                }
            ]
        }"#,
    );
    let base = Uri::new_unchecked("https://example.com/".to_string());
    let base_other = Uri::new_unchecked("https://example.org/".to_string());

    let ls_abs = Linkset::from_json_value(&json_abs, Some(&base_other));
    let ls_rel = Linkset::from_json_value(&json_rel, Some(&base));
    assert_eq!(ls_abs, ls_rel);
}

// ── Equality of what is read ────────────────────────────────────────────────

fn read(text: &str) -> Linkset {
    Linkset::from_json_value(&json(text), None).unwrap()
}

#[test]
fn eq_is_order_independent() {
    let a = read(
        r#"{"linkset": [
            {"anchor": "https://example.com/", "item": [
                {"href": "https://example.com/items/1"}, {"href": "https://example.com/items/2"}]},
            {"anchor": "https://example.com/items/1", "next": [{"href": "https://example.com/items/2"}]}
        ]}"#,
    );
    let b = read(
        r#"{"linkset": [
            {"anchor": "https://example.com/items/1", "next": [{"href": "https://example.com/items/2"}]},
            {"anchor": "https://example.com/", "item": [
                {"href": "https://example.com/items/2"}, {"href": "https://example.com/items/1"}]}
        ]}"#,
    );
    assert_eq!(a, b);
}

#[test]
fn eq_is_anchor_dependant() {
    let a = read(r#"{"linkset": [{"anchor": "https://example.com/", "item": [{"href": "https://example.com/items/1"}]}]}"#);
    let b = read(r#"{"linkset": [{"anchor": "https://example.com/other", "item": [{"href": "https://example.com/items/1"}]}]}"#);
    assert!(a != b);
}

#[test]
fn eq_is_rel_dependant() {
    let a = read(r#"{"linkset": [{"anchor": "https://example.com/", "item": [{"href": "https://example.com/items/1"}]}]}"#);
    let b = read(r#"{"linkset": [{"anchor": "https://example.com/", "next": [{"href": "https://example.com/items/1", "title": "Item #1"}]}]}"#);
    assert!(a != b);
}

#[test]
fn eq_is_target_dependant() {
    let a = read(r#"{"linkset": [{"anchor": "https://example.com/", "item": [{"href": "https://example.com/items/1"}]}]}"#);
    let b = read(r#"{"linkset": [{"anchor": "https://example.com/", "item": [{"href": "https://example.com/items/2"}]}]}"#);
    assert!(a != b);
}

#[test]
fn eq_is_attribute_dependant() {
    let a = read(r#"{"linkset": [{"anchor": "https://example.com/", "item": [{"href": "https://example.com/items/1"}]}]}"#);
    let b = read(r#"{"linkset": [{"anchor": "https://example.com/", "item": [{"href": "https://example.com/items/1", "title": "Item #1"}]}]}"#);
    assert!(a != b);
}

// ── What is read, field by field, and the errors ────────────────────────────

#[test]
fn all_target_attributes_are_read() {
    let ls = read(
        r#"{"linkset": [{"anchor": "https://example.net/bar", "next": [{
            "href": "https://example.com/foo",
            "type": "text/html",
            "hreflang": ["en", "de"],
            "title": "Next chapter",
            "title*": [{"value": "nächstes Kapitel", "language": "de"}],
            "media": "screen"
        }]}]}"#,
    );
    let l = ls.get(0).get(0);
    assert_eq!(l.target().as_str(), "https://example.com/foo");
    assert_eq!(l.type_.as_ref().unwrap().as_str(), "text/html");
    assert_eq!(l.hreflang.len(), 2);
    assert_eq!(l.hreflang[1].as_str(), "de");
    assert_eq!(l.title.as_deref(), Some("Next chapter"));
    assert_eq!(l.title_i18n.as_ref().unwrap().value, "nächstes Kapitel");
    assert_eq!(l.title_i18n.as_ref().unwrap().language.as_str(), "de");
    assert_eq!(l.media.as_deref(), Some("screen"));
}

#[test]
fn anchor_defaults_to_base() {
    let base = Uri::new_unchecked("https://example.com/".to_string());
    let v = json(r#"{"linkset": [{"item": [{"href": "a"}]}]}"#);
    let ls = Linkset::from_json_value(&v, Some(&base)).unwrap();
    assert_eq!(ls.get(0).anchor().as_str(), "https://example.com/");
    assert_eq!(ls.get(0).get(0).target().as_str(), "https://example.com/a");
}

#[test]
fn invalid_base_is_a_json_error() {
    let base = Uri::new_unchecked("not a base".to_string());
    let v = json(r#"{"linkset": [{"anchor": "https://example.com/", "item": [{"href": "https://example.com/a"}]}]}"#);
    assert!(matches!(Linkset::from_json_value(&v, Some(&base)), Err(LinksetError::Json(_))));
}

#[test]
fn structural_errors_are_json_errors() {
    for text in [
        r#"[]"#,
        r#"{"other": []}"#,
        r#"{"linkset": {}}"#,
        r#"{"linkset": [1]}"#,
        r#"{"linkset": [{"anchor": 1, "item": []}]}"#,
        r#"{"linkset": [{"anchor": "https://example.com/", "item": {}}]}"#,
        r#"{"linkset": [{"anchor": "https://example.com/", "Not A Rel": []}]}"#,
        r#"{"linkset": [{"anchor": "https://example.com/", "item": [{"href": "relative"}]}]}"#,
        r#"{"linkset": [{"anchor": "https://example.com/", "item": [{"href": "https://example.com/a", "type": "html"}]}]}"#,
        r#"{"linkset": [{"anchor": "https://example.com/", "item": [{"href": "https://example.com/a", "hreflang": "en"}]}]}"#,
        r#"{"linkset": [{"anchor": "https://example.com/", "item": [{"href": "https://example.com/a", "title*": [{"value": "x"}]}]}]}"#,
        r#"{"linkset": [{"anchor": "https://example.com/", "item": [{"href": "https://example.com/a", "foo": 1}]}]}"#,
        r#"{"linkset": [{"anchor": "https://example.com/", "item": [{"href": "https://example.com/a", "foo*": ["bar"]}]}]}"#,
    ] {
        assert!(matches!(Linkset::from_json_value(&json(text), None), Err(LinksetError::Json(_))), "{text}");
    }
}

#[test]
fn duplicate_link_in_a_context_is_reported() {
    let v = json(
        r#"{"linkset": [{"anchor": "https://example.com/", "item": [
            {"href": "https://example.com/a"}, {"href": "https://example.com/a", "title": "again"}]}]}"#,
    );
    match Linkset::from_json_value(&v, None) {
        Err(LinksetError::DuplicateLink(a, r, t)) => {
            assert_eq!(a.as_str(), "https://example.com/");
            assert_eq!(r.as_str(), "item");
            assert_eq!(t.as_str(), "https://example.com/a");
        }
        other => panic!("unexpected {other:?}"),
    }
}

#[test]
fn contexts_with_the_same_anchor_are_merged() {
    let ls = read(
        r#"{"linkset": [
            {"anchor": "https://example.com/", "item": [{"href": "https://example.com/a"}]},
            {"anchor": "https://example.com/", "next": [{"href": "https://example.com/b"}]}
        ]}"#,
    );
    assert_eq!(ls.len(), 1);
    assert_eq!(ls.get(0).len(), 2);
}

#[test]
fn reserved_extension_key_in_upper_case_is_a_json_error() {
    let v = json(r#"{"linkset": [{"anchor": "https://example.com/", "item": [{"href": "https://example.com/a", "TITLE": ["x"]}]}]}"#);
    assert!(matches!(Linkset::from_json_value(&v, None), Err(LinksetError::Json(_))));
}

#[test]
fn i18n_value_reads_language_and_value() {
    let i = parse_i18n_value(&json(r#"{"value": "Bonjour", "language": "fr"}"#)).unwrap();
    assert_eq!(i.value, "Bonjour");
    assert_eq!(i.language.as_str(), "fr");
    assert!(parse_i18n_value(&json(r#"{"value": "Bonjour"}"#)).is_err());
    assert!(parse_i18n_value(&json(r#"{"value": "Bonjour", "language": "not a tag"}"#)).is_err());
    assert!(parse_i18n_value(&json(r#""Bonjour""#)).is_err());
}

#[test]
fn written_value_has_the_documented_shape() {
    let ls = read(
        r#"{"linkset": [{"anchor": "https://example.com/", "item": [{
            "href": "https://example.com/a", "title": "T", "foo": ["1", "2"]}]}]}"#,
    );
    let v = ls.to_json_value();
    let ctx = at(get(&v, "linkset"), 0);
    match get(ctx, "anchor") {
        JsonValue::String(s) => assert_eq!(s, "https://example.com/"),
        other => panic!("unexpected {other:?}"),
    }
    let target = at(get(ctx, "item"), 0);
    match target {
        JsonValue::Object(es) => {
            let keys: Vec<&str> = es.iter().map(|(k, _)| k.as_str()).collect();
            assert_eq!(keys, vec!["href", "title", "foo"]);
        }
        other => panic!("unexpected {other:?}"),
    }
    assert_eq!(array_len(get(target, "foo")), 2);
}

#[test]
fn spec_figure_5_round_trips() {
    let ls = read(
        r#"{ "linkset": [ { "anchor": "https://example.net/bar", "next": [
            { "href": "https://example.com/foo", "type": "text/html", "hreflang": [ "en" , "de" ],
              "title": "Next chapter", "title*": [ { "value": "nächstes Kapitel", "language" : "de" } ] } ] } ] }"#,
    );
    let again = Linkset::from_json_value(&ls.to_json_value(), None).unwrap();
    assert_eq!(ls, again);
}

#[test]
fn single_extension_value_is_accepted() {
    let ls = read(r#"{"linkset": [{"anchor": "https://example.com/", "item": [{"href": "https://example.com/a", "foo": "bar"}]}]}"#);
    assert_eq!(ls.get(0).get(0).get_ext("foo").unwrap(), &["bar"]);
}

#[test]
fn references_that_do_not_resolve_are_json_errors() {
    let base = Uri::new_unchecked("a:b".to_string());
    let v = json(r#"{"linkset": [{"anchor": "a:c", "item": [{"href": "/.//x"}]}]}"#);
    assert!(matches!(Linkset::from_json_value(&v, Some(&base)), Err(LinksetError::Json(_))));
}

fn json_error(text: &str) -> String {
    match Linkset::from_json_value(&json(text), None) {
        Err(LinksetError::Json(m)) => m,
        other => panic!("expected a JSON error, got {other:?}"),
    }
}

#[test]
fn json_errors_name_the_place() {
    assert_eq!(json_error(r#"[]"#), "top-level value must be an object");
    assert_eq!(json_error(r#"{}"#), "missing \"linkset\" key");
    assert_eq!(json_error(r#"{"linkset": 1}"#), "\"linkset\" must be an array");
    assert_eq!(json_error(r#"{"linkset": [1]}"#), "linkset[0]: must be an object");
    assert_eq!(json_error(r#"{"linkset": [{"item": []}]}"#), "linkset[0]: missing \"anchor\"");
    assert_eq!(json_error(r#"{"linkset": [{"anchor": 1}]}"#), "linkset[0].anchor: must be a string");
    assert_eq!(json_error(r#"{"linkset": [{"anchor": "no uri"}]}"#), "linkset[0].anchor: invalid URI \"no uri\": The given URI 'no uri' is not valid according to RFC3986");
    let a = r#"{"linkset": [{"anchor": "https://ex.org/", "#;
    assert_eq!(json_error(&format!("{a}\"a b\": []}}]}}")), "linkset[0]: invalid relation type \"a b\"");
    assert_eq!(json_error(&format!("{a}\"item\": 1}}]}}")), "linkset[0][\"item\"]: must be an array");
    assert_eq!(json_error(&format!("{a}\"item\": [{{}}, 1]}}]}}")), "linkset[0][\"item\"][0]: missing \"href\"");
    assert_eq!(json_error(&format!("{a}\"item\": [{{\"href\": \"https://ex.org/a\"}}, 1]}}]}}")), "linkset[0][\"item\"][1]: must be an object");
    let t = |rest: &str| json_error(&format!("{a}\"item\": [{{\"href\": \"https://ex.org/a\", {rest}}}]}}]}}"));
    assert_eq!(json_error(&format!("{a}\"item\": [{{\"href\": \"x y\"}}]}}]}}")), "linkset[0][\"item\"][0].href: invalid URI \"x y\": The given URI 'x y' is not valid according to RFC3986");
    assert_eq!(t("\"type\": 1"), "linkset[0][\"item\"][0].type: must be a string");
    assert_eq!(t("\"type\": \"text\""), "linkset[0][\"item\"][0].type: invalid media-type not a plausible media type: \"text\"");
    assert_eq!(t("\"title\": 1"), "linkset[0][\"item\"][0].title: must be a string");
    assert_eq!(t("\"title*\": 1"), "linkset[0][\"item\"][0][\"title*\"]: must be an array");
    assert_eq!(t("\"title*\": []"), "linkset[0][\"item\"][0][\"title*\"]: must contain exactly one value");
    assert_eq!(t("\"title*\": [{\"value\": \"v\"}]"), "linkset[0][\"item\"][0][\"title*\"][0]: i18n value missing \"language\" field");
    assert_eq!(t("\"hreflang\": [\"en\", 1]"), "linkset[0][\"item\"][0].hreflang[1]: must be a string");
    assert_eq!(t("\"media\": 1"), "linkset[0][\"item\"][0].media: must be a string");
    assert_eq!(t("\"a b\": [\"x\"]"), "linkset[0][\"item\"][0]: invalid extension attribute key \"a b\"");
    assert_eq!(t("\"foo\": 1"), "linkset[0][\"item\"][0][\"foo\"] (extension attribute): must be an array");
    assert_eq!(t("\"foo\": [\"x\", 2]"), "linkset[0][\"item\"][0][\"foo\"][1]: must be a string");
    assert_eq!(t("\"foo*\": [{\"value\": \"v\", \"language\": 1}]"), "linkset[0][\"item\"][0][\"foo*\"][0].language: must be a string");
}
