use linkset::model::{I18nString, LanguageTag, Link, LinkContext, Linkset, RelType, Uri};

fn uri(s: &str) -> Uri {
    Uri::new_unchecked(s.to_string())
}

fn rel(s: &str) -> RelType {
    RelType::new_reg_unchecked(s.to_string())
}

#[test]
fn set_ext_keeps_other_keys_on_values() {
    let mut link = Link::new(uri("https://ex.org/"), rel("item"));
    link.set_ext("a", vec!["1".into()]);
    link.set_ext_i18n("b*", vec![I18nString::new("x".into(), LanguageTag::new_unchecked("en".into()))]);
    link.set_ext("C", vec!["2".into()]);
    assert_eq!(link.get_ext("a").unwrap(), &["1"]);
    assert_eq!(link.get_ext_i18n("B*").unwrap()[0].value, "x");
    assert_eq!(link.get_ext("c").unwrap(), &["2"]);
    assert!(link.get_ext("b*").is_none());
}

#[test]
fn del_ext_then_get_ext_on_values() {
    let mut link = Link::new(uri("https://ex.org/"), rel("item"));
    link.set_ext("a", vec!["1".into()]);
    assert!(link.del_ext("A").is_some());
    assert!(link.get_ext("a").is_none());
    assert!(link.del_ext("a").is_none());
}

#[test]
fn add_context_reuses_an_anchor() {
    let mut ls = Linkset::new(uri("https://ex.org/"));
    ls.add_context(uri("https://ex.org/"));
    ls.add_context(uri("https://ex.org/b"));
    ls.add_context(uri("https://ex.org/b"));
    assert_eq!(ls.len(), 2);
}

#[test]
fn linkset_equals_itself() {
    let c = LinkContext::new_with(uri("https://ex.org/"), vec![Link::new(uri("https://ex.org/a"), rel("item"))]).unwrap();
    let ls = Linkset::from_context(c);
    assert!(ls == ls.clone());
}

#[test]
fn json_round_trip_on_values() {
    let mut link = Link::new(uri("https://ex.org/a"), rel("item"));
    link.title = Some("T".into());
    link.hreflang = vec![LanguageTag::new_unchecked("en".into()), LanguageTag::new_unchecked("de".into())];
    link.set_ext("foo", vec!["1".into(), "2".into()]);
    link.set_ext_i18n("bar*", vec![I18nString::new("x".into(), LanguageTag::new_unchecked("fr".into()))]);
    let other = Link::new(uri("https://ex.org/b"), rel("next"));
    let third = Link::new(uri("https://ex.org/c"), rel("item"));
    let c1 = LinkContext::new_with(uri("https://ex.org/"), vec![link, other, third]).unwrap();
    let c2 = LinkContext::new_with(uri("https://ex.org/a"), vec![Link::new(uri("https://ex.org/b"), rel("next"))]).unwrap();
    let ls = Linkset::from_contexts(vec![c1, c2]).unwrap();
    let back = Linkset::from_json_value(&ls.to_json_value(), None).unwrap();
    assert_eq!(ls, back);
}

#[test]
fn text_round_trip_on_values() {
    let mut link = Link::new(uri("https://ex.org/a"), rel("item"));
    link.title = Some("quote \" and \\ backslash".into());
    link.title_i18n = Some(I18nString::new("é à".into(), LanguageTag::new_unchecked("fr".into())));
    link.set_ext("foo", vec!["1".into(), "2".into()]);
    let c = LinkContext::new_with(uri("https://ex.org/"), vec![link, Link::new(uri("https://ex.org/b"), rel("next"))]).unwrap();
    let ls = Linkset::from_context(c);
    for pretty in [false, true] {
        let back = Linkset::from_text_str(&ls.to_text_string(pretty, None), None).unwrap();
        assert_eq!(ls, back);
    }
}

#[test]
fn set_new_ext_then_del_ext_gives_the_link_back() {
    let mut link = Link::new(uri("https://ex.org/"), rel("item"));
    link.set_ext("a", vec!["1".into()]);
    let before = link.clone();
    link.set_ext("New", vec!["2".into()]);
    assert!(link != before);
    link.del_ext("new");
    assert!(link == before);
    link.set_ext_i18n("n*", vec![I18nString::new("x".into(), LanguageTag::new_unchecked("en".into()))]);
    link.del_ext_i18n("N*");
    assert!(link == before);
}

#[test]
fn add_link_then_del_link_gives_the_context_back() {
    let mut c = LinkContext::new_with(uri("https://ex.org/"), vec![Link::new(uri("https://ex.org/a"), rel("item"))]).unwrap();
    let before = LinkContext::new_with(uri("https://ex.org/"), vec![Link::new(uri("https://ex.org/a"), rel("item"))]).unwrap();
    c.add_link(Link::new(uri("https://ex.org/b"), rel("item"))).unwrap();
    assert!(c != before);
    c.del_link(1);
    assert!(c == before);
}
