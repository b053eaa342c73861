use linkset::json::JsonValue;
use linkset::model::{Linkset, Uri};

/// The value that a JSON text denotes, with the keys of each object in the
/// order that `serde_json` gives them.
fn to_value(v: &serde_json::Value) -> JsonValue {
    match v {
        serde_json::Value::Null => JsonValue::Null,
        serde_json::Value::Bool(b) => JsonValue::Bool(*b),
        serde_json::Value::Number(n) => JsonValue::Number(n.to_string()),
        serde_json::Value::String(s) => JsonValue::String(s.clone()),
        serde_json::Value::Array(a) => JsonValue::Array(a.iter().map(to_value).collect()),
        serde_json::Value::Object(m) => {
            JsonValue::Object(m.iter().map(|(k, v)| (k.clone(), to_value(v))).collect())
        }
    }
}

fn base() -> Uri {
    Uri::new_unchecked("https://example.org/resource1".to_string())
}

fn from_json(text: &str) -> Linkset {
    let v = to_value(&serde_json::from_str::<serde_json::Value>(text).unwrap());
    Linkset::from_json_value(&v, Some(&base())).unwrap()
}

fn from_text(text: &str) -> Linkset {
    Linkset::from_text_str(text, Some(&base())).unwrap()
}

/// The JSON and the text form of an example of RFC 9264 read into equal link
/// sets, and each reads back from what it is written as.
fn check_example(json: &str, text: &str) {
    let ls_json = from_json(json);
    let ls_text = from_text(text);
    assert_eq!(ls_json, ls_text);
    let written = ls_json.to_text_string(false, None);
    assert_eq!(from_text(&written), ls_json);
    for pretty in [false, true] {
        let written = ls_json.to_text_string(pretty, Some(&base()));
        assert_eq!(from_text(&written), ls_json);
    }
    let value = ls_text.to_json_value();
    assert_eq!(Linkset::from_json_value(&value, Some(&base())).unwrap(), ls_text);
}

#[test]
fn rfc_example_figure_1() {
    check_example(
        r#"
{ "linkset":
  [
    { "anchor": "https://example.net/bar",
      "next": [
        {"href": "https://example.com/foo"}
      ]
    }
  ]
}
    "#,
        r#"
<https://example.com/foo>
   ; rel="next"
   ; anchor="https://example.net/bar"
    "#,
    );
}

#[test]
fn rfc_example_figure_2() {
    check_example(
        r#"
{ "linkset":
  [
    { "anchor": "https://example.net/bar",
      "item": [
        {"href": "https://example.com/foo1"},
        {"href": "https://example.com/foo2"}
      ]
    }
  ]
}
    "#,
        r#"
<https://example.com/foo1>
   ; rel="item"
   ; anchor="https://example.net/bar",
<https://example.com/foo2>
   ; rel="item"
   ; anchor="https://example.net/bar"
    "#,
    );
}

#[test]
fn rfc_example_figure_3() {
    check_example(
        r#"
{ "linkset":
  [
    { "anchor": "https://example.net/bar",
      "next": [
        {"href": "https://example.com/foo1"}
      ]
    },
    { "anchor": "https://example.net/boo",
      "https://example.com/relations/baz" : [
        {"href": "https://example.com/foo2"}
      ]
    }
  ]
}
    "#,
        r#"
<https://example.com/foo1>
   ; rel="next"
   ; anchor="https://example.net/bar",
<https://example.com/foo2>
   ; rel="https://example.com/relations/baz"
   ; anchor="https://example.net/boo"
    "#,
    );
}

#[test]
fn rfc_example_figure_4() {
    check_example(
        r#"
{ "linkset":
  [
    { "anchor": "https://example.net/bar",
      "next": [
        { "href":     "https://example.com/foo",
          "type":     "text/html",
          "hreflang": [ "en" , "de" ]
        }
      ]
    }
  ]
}
    "#,
        r#"
<https://example.com/foo>
   ; rel="next"
   ; anchor="https://example.net/bar"
   ; type="text/html"
   ; hreflang=en
   ; hreflang=de
    "#,
    );
}

#[test]
fn rfc_example_figure_5() {
    check_example(
        r#"
{ "linkset":
  [
    { "anchor": "https://example.net/bar",
      "next": [
        { "href":     "https://example.com/foo",
          "type":     "text/html",
          "hreflang": [ "en" , "de" ],
          "title":    "Next chapter",
          "title*":   [ { "value": "nächstes Kapitel" ,
                          "language" : "de" } ]
        }
      ]
    }
  ]
}
    "#,
        r#"
<https://example.com/foo>
   ; rel="next"
   ; anchor="https://example.net/bar"
   ; type="text/html"
   ; hreflang=en
   ; hreflang=de
   ; title="Next chapter"
   ; title*=UTF-8'de'n%c3%a4chstes%20Kapitel
    "#,
    );
}

#[test]
fn rfc_example_figure_6() {
    check_example(
        r#"
{ "linkset":
  [
    { "anchor": "https://example.net/bar",
      "next": [
        { "href": "https://example.com/foo",
          "type": "text/html",
          "foo":  [ "foovalue" ],
          "bar":  [ "barone", "bartwo" ],
          "baz*": [ { "value": "bazvalue" ,
                      "language" : "en" } ]
        }
      ]
    }
  ]
}
    "#,
        r#"
<https://example.com/foo>
   ; rel="next"
   ; anchor="https://example.net/bar"
   ; type="text/html"
   ; foo="foovalue"
   ; bar="barone"
   ; bar="bartwo"
   ; baz*=US-ASCII'en'bazvalue
    "#,
    );
}

#[test]
fn rfc_example_figure_8() {
    check_example(
        r#"
{
    "linkset":[
        {
           "anchor": "https://example.org/resource1",
           "author": [
               { "href": "https://authors.example.net/johndoe",
                 "type": "application/rdf+xml"
               }
           ],
           "latest-version": [
               { "href": "https://example.org/resource1?version=3",
                 "type": "text/html"
               }
           ],
           "memento": [
               { "href": "https://example.org/resource1?version=1",
                 "type": "text/html",
                 "datetime": ["Thu, 13 Jun 2019 09:34:33 GMT"]
               },
               { "href": "https://example.org/resource1?version=2",
                 "type": "text/html",
                 "datetime": ["Sun, 21 Jul 2019 12:22:04 GMT"]
               }
           ]
        },
        {
           "anchor": "https://example.org/resource1?version=3",
           "predecessor-version": [
               { "href": "https://example.org/resource1?version=2",
                 "type": "text/html"
               }
           ]
        },
        {
           "anchor": "https://example.org/resource1?version=2",
           "predecessor-version": [
               { "href": "https://example.org/resource1?version=1",
                 "type": "text/html"
               }
           ]
        },
        {
           "anchor": "https://example.org/resource1#comment=1",
           "author": [
               { "href": "https://authors.example.net/alice" }
           ]
        }
    ]
}
    "#,
        r#"
<https://authors.example.net/johndoe>
   ; rel="author"
   ; type="application/rdf+xml"
   ; anchor="https://example.org/resource1",
<https://example.org/resource1?version=3>
   ; rel="latest-version"
   ; type="text/html"
   ; anchor="https://example.org/resource1",
<https://example.org/resource1?version=2>
   ; rel="predecessor-version"
   ; type="text/html"
   ; anchor="https://example.org/resource1?version=3",
<https://example.org/resource1?version=1>
   ; rel="predecessor-version"
   ; type="text/html"
   ; anchor="https://example.org/resource1?version=2",
<https://example.org/resource1?version=1>
   ; rel="memento"
   ; type="text/html"
   ; datetime="Thu, 13 Jun 2019 09:34:33 GMT"
   ; anchor="https://example.org/resource1",
<https://example.org/resource1?version=2>
   ; rel="memento"
   ; type="text/html"
   ; datetime="Sun, 21 Jul 2019 12:22:04 GMT"
   ; anchor="https://example.org/resource1",
<https://authors.example.net/alice>
   ; rel="author"
   ; anchor="https://example.org/resource1#comment=1"
    "#,
    );
}

#[test]
fn rfc_example_figure_10() {
    check_example(
        r#"
{ "linkset":
  [
    { "anchor": "https://example.org/resource1",
      "author": [
        { "href": "https://authors.example.net/johndoe",
          "type": "application/rdf+xml"
        }
      ],
      "memento": [
        { "href": "https://example.org/resource1?version=1",
          "type": "text/html",
          "datetime": "Thu, 13 Jun 2019 09:34:33 GMT"
        },
        { "href": "https://example.org/resource1?version=2",
          "type": "text/html",
          "datetime": "Sun, 21 Jul 2019 12:22:04 GMT"
        }
      ],
      "latest-version": [
        { "href": "https://example.org/resource1?version=3",
          "type": "text/html"
        }
      ]
    },
    { "anchor": "https://example.org/resource1?version=3",
      "predecessor-version": [
        { "href": "https://example.org/resource1?version=2",
          "type": "text/html"
        }
      ]
    },
    { "anchor": "https://example.org/resource1?version=2",
      "predecessor-version": [
        { "href": "https://example.org/resource1?version=1",
          "type": "text/html"
        }
      ]
    },
    { "anchor": "https://example.org/resource1#comment=1",
      "author": [
        { "href": "https://authors.example.net/alice"}
      ]
    }
  ]
}
    "#,
        r#"
<https://authors.example.net/johndoe>
   ; rel="author"
   ; type="application/rdf+xml"
   ; anchor="https://example.org/resource1",
<https://example.org/resource1?version=1>
   ; rel="memento"
   ; type="text/html"
   ; datetime="Thu, 13 Jun 2019 09:34:33 GMT"
   ; anchor="https://example.org/resource1",
<https://example.org/resource1?version=2>
   ; rel="memento"
   ; type="text/html"
   ; datetime="Sun, 21 Jul 2019 12:22:04 GMT"
   ; anchor="https://example.org/resource1",
<https://example.org/resource1?version=3>
   ; rel="latest-version"
   ; type="text/html"
   ; anchor="https://example.org/resource1",
<https://example.org/resource1?version=2>
   ; rel="predecessor-version"
   ; type="text/html"
   ; anchor="https://example.org/resource1?version=3",
<https://example.org/resource1?version=1>
   ; rel="predecessor-version"
   ; type="text/html"
   ; anchor="https://example.org/resource1?version=2",
<https://authors.example.net/alice>
   ; rel="author"
   ; anchor="https://example.org/resource1#comment=1"
    "#,
    );
}

#[test]
fn rfc_example_figure_12() {
    check_example(
        r#"{
  "linkset": [{
    "linkset": [{
      "href": "https://example.org/links/resource1",
      "type": "application/linkset+json"
    }]
  }]
}
     "#,
        r#"
<https://example.org/links/resource1>
      ; rel="linkset"
      ; type="application/linkset+json"
    "#,
    );
}

#[test]
fn rfc_example_figure_14() {
    check_example(
        r#"{
  "linkset": [{
    "linkset": [{
      "href": "https://id.gs1.org/01/9506000134352?linkType=all",
      "type": "application/linkset+json",
      "profile": ["https://www.gs1.org/voc/?show=linktypes"]
    }]
  }]
}
     "#,
        r#"
<https://id.gs1.org/01/9506000134352?linkType=all>
      ; rel="linkset"
      ; type="application/linkset+json"
      ; profile="https://www.gs1.org/voc/?show=linktypes"
        "#,
    );
}

#[test]
fn rfc_example_figure_17() {
    check_example(
        r#"{
  "linkset": [{
    "profile": [{
      "href": "https://www.gs1.org/voc/?show=linktypes"
    }]
  }]
}
     "#,
        r#"
<https://www.gs1.org/voc/?show=linktypes>; rel="profile"
        "#,
    );
}

#[test]
fn rfc_example_figure_18() {
    check_example(
        r#"
{ "linkset":
  [
    { "anchor": "https://id.gs1.org/01/9506000134352?linkType=all",
      "profile": [
            {"href": "https://www.gs1.org/voc/?show=linktypes"}
      ]
    },
     { "anchor": "https://id.gs1.org/01/9506000134352",
       "https://gs1.org/voc/whatsInTheBox": [
         {"href": "https://example.com/en/packContents/GB"}
       ]
    }
  ]
}
    "#,
        r#"
<https://www.gs1.org/voc/?show=linktypes>
      ; rel="profile"
      ; anchor="https://id.gs1.org/01/9506000134352?linkType=all",
<https://example.com/en/packContents/GB>
      ; rel="https://gs1.org/voc/whatsInTheBox"
      ; anchor="https://id.gs1.org/01/9506000134352"
    "#,
    );
}

#[test]
fn relative_references_that_do_not_resolve_back() {
    // The relativizer of sophia_iri writes `x:y` and `/c` for these targets,
    // which resolve against the base into other URIs: the round trip with a
    // base holds only where the written references resolve back.
    let b = Uri::new_unchecked("http://a/b/c".to_string());
    for (target, written) in [("http://a/b/x:y", "x:y"), ("http://a/b//c", "/c")] {
        let text = format!("<{target}>; rel=item; anchor=\"http://a/b/c\"");
        let ls = Linkset::from_text_str(&text, None).unwrap();
        let out = ls.to_text_string(false, Some(&b));
        assert!(out.starts_with(&format!("<{written}>")), "{out}");
        let back = Linkset::from_text_str(&out, Some(&b)).unwrap();
        assert!(back != ls);
    }
}
