use linkset::error::{ExtensionError, LinksetError, RelTypeError};
use linkset::model::ext_token::validate_ext_attribute;
use linkset::model::{I18nString, LanguageTag, Link, LinkContext, Linkset, MediaType, RelType, Uri};

static ROOT: &str = "https://example.com/";
static ITEM1: &str = "https://example.com/items/1";
static ITEM2: &str = "https://example.com/items/2";
static ITEM3: &str = "https://example.com/items/3";

fn uri(s: &str) -> Uri {
    Uri::new_unchecked(s.to_string())
}

fn rel(s: &str) -> RelType {
    RelType::new_reg_unchecked(s.to_string())
}

#[test]
fn construct_and_mutate() {
    let mut linkset = Linkset::new(uri(ROOT));

    linkset.get_mut(0).add_link(Link::new(uri(ITEM1), rel("item"))).unwrap();
    linkset.get_mut(0).add_link(Link::new(uri(ITEM2), rel("item"))).unwrap();

    let item2 = linkset.get(0).get(1).target().clone();
    let first = linkset.get(0).get(0).target().clone();
    let context = linkset.add_context(first);
    context.add_link(Link::new(item2, rel("next"))).unwrap();

    assert_eq!(linkset.len(), 2);
    assert_eq!(linkset.get(0).anchor().as_str(), ROOT);
    assert_eq!(linkset.get(0).len(), 2);
    assert_eq!(linkset.get(0).get(0).target().as_str(), ITEM1);
    assert_eq!(linkset.get(0).get(0).rel().as_str(), "item");
    assert_eq!(linkset.get(0).get(1).target().as_str(), ITEM2);
    assert_eq!(linkset.get(0).get(1).rel().as_str(), "item");
    assert_eq!(linkset.get(1).anchor().as_str(), ITEM1);
    assert_eq!(linkset.get(1).len(), 1);
    assert_eq!(linkset.get(1).get(0).target().as_str(), ITEM2);
    assert_eq!(linkset.get(1).get(0).rel().as_str(), "next");

    let anchor = linkset.get(0).anchor().clone();
    linkset.add_context(anchor);
    assert_eq!(linkset.len(), 2); // existing context was reused

    linkset.get_mut(0).del_link(0);
    assert_eq!(linkset.get(0).len(), 1);
    assert_eq!(linkset.get(0).get(0).target().as_str(), ITEM2);
    assert_eq!(linkset.get(0).get(0).rel().as_str(), "item");

    let mut similar_link = linkset.get(0).get(0).clone();
    similar_link.title = Some("This is item #2".into());
    assert!(linkset.get_mut(0).add_link(similar_link).is_err());
}

#[test]
fn construct_bottom_up() {
    let link1 = Link::new(uri(ITEM1), rel("item"));
    let link2 = Link::new(uri(ITEM2), rel("item"));
    let context1 = LinkContext::new_with(uri(ROOT), vec![link1, link2]).unwrap();

    let anchor = context1.get(0).target().clone();
    let link1 = Link::new(context1.get(1).target().clone(), rel("next"));
    let context2 = LinkContext::new_with(anchor, vec![link1]).unwrap();

    let linkset = Linkset::from_contexts(vec![context1, context2]).unwrap();

    assert_eq!(linkset.len(), 2);
    assert_eq!(linkset.get(0).anchor().as_str(), ROOT);
    assert_eq!(linkset.get(0).len(), 2);
    assert_eq!(linkset.get(0).get(0).target().as_str(), ITEM1);
    assert_eq!(linkset.get(0).get(0).rel().as_str(), "item");
    assert_eq!(linkset.get(0).get(1).target().as_str(), ITEM2);
    assert_eq!(linkset.get(0).get(1).rel().as_str(), "item");
    assert_eq!(linkset.get(1).anchor().as_str(), ITEM1);
    assert_eq!(linkset.get(1).len(), 1);
    assert_eq!(linkset.get(1).get(0).target().as_str(), ITEM2);
    assert_eq!(linkset.get(1).get(0).rel().as_str(), "next");
}

#[test]
fn construct_merging_similar_contexts() {
    let contexts: Vec<LinkContext> = [ITEM1, ITEM2, ITEM3]
        .iter()
        .map(|u| LinkContext::new_with(uri(ROOT), vec![Link::new(uri(u), rel("item"))]).unwrap())
        .collect();
    let linkset = Linkset::from_contexts(contexts).unwrap();

    assert_eq!(linkset.len(), 1);
    assert_eq!(linkset.get(0).anchor().as_str(), ROOT);
    assert_eq!(linkset.get(0).len(), 3);
    assert_eq!(linkset.get(0).get(0).target().as_str(), ITEM1);
    assert_eq!(linkset.get(0).get(0).rel().as_str(), "item");
    assert_eq!(linkset.get(0).get(1).target().as_str(), ITEM2);
    assert_eq!(linkset.get(0).get(1).rel().as_str(), "item");
    assert_eq!(linkset.get(0).get(2).target().as_str(), ITEM3);
    assert_eq!(linkset.get(0).get(2).rel().as_str(), "item");
}

#[test]
fn link_with_all_fields() {
    let mut link = Link::new(uri("https://example.com/resource"), rel("describedby"));
    link.type_ = Some(MediaType::new_unchecked("text/html".to_string()));
    link.title = Some("Example".to_string());
    link.hreflang = vec![
        LanguageTag::new_unchecked("en".to_string()),
        LanguageTag::new_unchecked("fr".to_string()),
    ];
    link.title_i18n = Some(I18nString {
        language: LanguageTag::new_unchecked("en".to_string()),
        value: "Example resource".to_string(),
    });
    assert_eq!(link.hreflang.len(), 2);
    assert!(link.title_i18n.is_some());
}

#[test]
fn ext_set_get_del() {
    let mut link = Link::new(uri("https://example.com/"), rel("item"));
    assert!(link.set_ext("foo", vec!["bar".to_string()]).is_none());
    assert_eq!(link.get_ext("FOO").unwrap(), &["bar"]);
    let prev = link.set_ext("foo", vec!["baz".to_string()]);
    assert_eq!(prev.unwrap(), ["bar"]);
    assert_eq!(link.del_ext("foo").unwrap(), ["baz"]);
    assert!(link.get_ext("foo").is_none());
}

#[test]
fn ext_i18n_set_get_del() {
    let mut link = Link::new(uri("https://example.com/"), rel("item"));
    let v = I18nString {
        language: LanguageTag::new_unchecked("fr".to_string()),
        value: "Bonjour".to_string(),
    };
    assert!(link.set_ext_i18n("label*", vec![v.clone()]).is_none());
    assert_eq!(link.get_ext_i18n("LABEL*").unwrap(), std::slice::from_ref(&v));
    assert_eq!(link.del_ext_i18n("label*").unwrap(), [v]);
    assert!(link.get_ext_i18n("label*").is_none());
}

#[test]
fn ext_set_get_set_empty() {
    let mut link = Link::new(uri("https://example.com/"), rel("item"));
    assert!(link.set_ext("foo", vec!["bar".to_string()]).is_none());
    assert_eq!(link.get_ext("FOO").unwrap(), &["bar"]);
    let prev = link.set_ext("foo", vec!["baz".to_string()]);
    assert_eq!(prev.unwrap(), ["bar"]);
    assert_eq!(link.set_ext("foo", vec![]).unwrap(), ["baz"]);
    assert!(link.get_ext("foo").is_none());
}

#[test]
fn ext_i18n_set_get_set_empty() {
    let mut link = Link::new(uri("https://example.com/"), rel("item"));
    let v = I18nString {
        language: LanguageTag::new_unchecked("fr".to_string()),
        value: "Bonjour".to_string(),
    };
    assert!(link.set_ext_i18n("label*", vec![v.clone()]).is_none());
    assert_eq!(link.get_ext_i18n("LABEL*").unwrap(), std::slice::from_ref(&v));
    assert_eq!(link.set_ext_i18n("label*", vec![]).unwrap(), [v]);
    assert!(link.get_ext_i18n("label*").is_none());
}

#[test]
fn new_reg_valid() {
    let r = RelType::new_reg("item".to_string()).unwrap();
    assert_eq!(r.as_str(), "item");
    assert!(matches!(r, RelType::Reg(_)));
}

#[test]
fn new_reg_invalid() {
    assert!(RelType::new_reg("not valid".to_string()).is_err());
    assert!(RelType::new_reg("".to_string()).is_err());
}

#[test]
fn new_ext() {
    let u = Uri::new("https://example.com/rel/owns".into()).unwrap();
    let r = RelType::new_ext(u);
    assert_eq!(r.as_str(), "https://example.com/rel/owns");
    assert!(matches!(r, RelType::Ext(_)));
}

// ── Beyond the scenarios above ──────────────────────────────────────────────

#[test]
fn new_reg_error_carries_the_text() {
    assert_eq!(RelType::new_reg("a b".to_string()).unwrap_err(), RelTypeError("a b".to_string()));
}

#[test]
fn rel_type_new_chooses_the_variant() {
    assert!(matches!(RelType::new("next".to_string()), Some(RelType::Reg(_))));
    assert!(matches!(RelType::new("https://example.com/rel".to_string()), Some(RelType::Ext(_))));
    assert!(RelType::new("not valid".to_string()).is_none());
}

#[test]
fn uri_and_language_tag_checks() {
    assert!(Uri::new("https://example.com/a?b#c".to_string()).is_ok());
    assert!(Uri::new("not a uri".to_string()).is_err());
    assert!(Uri::new("relative/path".to_string()).is_err());
    assert!(LanguageTag::new("en-GB".to_string()).is_ok());
    assert!(LanguageTag::new("not a tag".to_string()).is_err());
}

#[test]
fn language_tags_compare_without_case() {
    assert!(LanguageTag::new_unchecked("EN".to_string()) == LanguageTag::new_unchecked("en".to_string()));
    assert!(LanguageTag::new_unchecked("en".to_string()) != LanguageTag::new_unchecked("fr".to_string()));
}

#[test]
fn new_with_refuses_a_duplicate() {
    let r = LinkContext::new_with(
        uri(ROOT),
        vec![Link::new(uri(ITEM1), rel("item")), Link::new(uri(ITEM2), rel("item")), Link::new(uri(ITEM1), rel("item"))],
    );
    assert_eq!(r.unwrap_err(), LinksetError::DuplicateLink(uri(ROOT), rel("item"), uri(ITEM1)));
}

#[test]
fn same_target_other_rel_is_another_link() {
    let c = LinkContext::new_with(uri(ROOT), vec![Link::new(uri(ITEM1), rel("item")), Link::new(uri(ITEM1), rel("next"))]);
    assert_eq!(c.unwrap().len(), 2);
}

#[test]
fn del_link_out_of_range_removes_the_last() {
    let mut c = LinkContext::new_with(uri(ROOT), vec![Link::new(uri(ITEM1), rel("item")), Link::new(uri(ITEM2), rel("item"))]).unwrap();
    c.del_link(7);
    assert_eq!(c.len(), 1);
    assert_eq!(c.get(0).target().as_str(), ITEM1);
    c.del_link(5);
    c.del_link(5);
    assert_eq!(c.len(), 0);
}

#[test]
fn merge_stops_at_a_duplicate() {
    let mut a = LinkContext::new_with(uri(ROOT), vec![Link::new(uri(ITEM1), rel("item"))]).unwrap();
    let b = LinkContext::new_with(
        uri(ROOT),
        vec![Link::new(uri(ITEM2), rel("item")), Link::new(uri(ITEM1), rel("item")), Link::new(uri(ITEM3), rel("item"))],
    )
    .unwrap();
    let r = a.merge(b);
    assert_eq!(r.unwrap_err(), LinksetError::DuplicateLink(uri(ROOT), rel("item"), uri(ITEM1)));
    assert_eq!(a.len(), 2);
}

#[test]
fn from_contexts_without_context_is_empty_error() {
    assert_eq!(Linkset::from_contexts(vec![]).unwrap_err(), LinksetError::Empty);
}

#[test]
fn from_contexts_reports_a_duplicate_across_merged_contexts() {
    let a = LinkContext::new_with(uri(ROOT), vec![Link::new(uri(ITEM1), rel("item"))]).unwrap();
    let b = LinkContext::new_with(uri(ROOT), vec![Link::new(uri(ITEM1), rel("item"))]).unwrap();
    assert_eq!(
        Linkset::from_contexts(vec![a, b]).unwrap_err(),
        LinksetError::DuplicateLink(uri(ROOT), rel("item"), uri(ITEM1))
    );
}

#[test]
fn context_lookup_and_removal() {
    let mut ls = Linkset::new(uri(ROOT));
    ls.add_context(uri(ITEM1));
    assert!(ls.context(ITEM1).is_some());
    assert!(ls.context(ITEM2).is_none());
    assert!(ls.context_mut(ITEM2).is_none());
    let removed = ls.remove_context(uri(ROOT)).unwrap().unwrap();
    assert_eq!(removed.anchor().as_str(), ROOT);
    assert_eq!(ls.len(), 1);
    assert_eq!(ls.get(0).anchor().as_str(), ITEM1);
    assert!(ls.remove_context(uri(ITEM2)).unwrap().is_none());
    assert_eq!(ls.remove_context(uri(ITEM1)).unwrap_err(), LinksetError::Empty);
}

#[test]
fn equality_ignores_order_of_contexts_and_links() {
    let a = Linkset::from_contexts(vec![
        LinkContext::new_with(uri(ROOT), vec![Link::new(uri(ITEM1), rel("item")), Link::new(uri(ITEM2), rel("item"))]).unwrap(),
        LinkContext::new_with(uri(ITEM1), vec![Link::new(uri(ITEM2), rel("next"))]).unwrap(),
    ])
    .unwrap();
    let b = Linkset::from_contexts(vec![
        LinkContext::new_with(uri(ITEM1), vec![Link::new(uri(ITEM2), rel("next"))]).unwrap(),
        LinkContext::new_with(uri(ROOT), vec![Link::new(uri(ITEM2), rel("item")), Link::new(uri(ITEM1), rel("item"))]).unwrap(),
    ])
    .unwrap();
    assert_eq!(a, b);
    let mut c = b.clone();
    c.get_mut(0).get_mut(0).title = Some("x".to_string());
    assert!(a != c);
}

#[test]
fn ext_keys_are_checked() {
    assert_eq!(validate_ext_attribute("foo", false), Ok(()));
    assert_eq!(validate_ext_attribute("title", false), Err(ExtensionError::ReservedKey("title".to_string())));
    assert_eq!(validate_ext_attribute("foo*", false), Err(ExtensionError::StarSuffixForbidden));
    assert_eq!(validate_ext_attribute("foo", true), Err(ExtensionError::StarSuffixRequired));
    assert_eq!(validate_ext_attribute("title*", true), Err(ExtensionError::ReservedKey("title*".to_string())));
    assert_eq!(validate_ext_attribute("a b", false), Err(ExtensionError::InvalidKey("a b".to_string())));
}

#[test]
fn iter_ext_lists_attributes_in_order() {
    let mut link = Link::new(uri(ROOT), rel("item"));
    link.set_ext("b", vec!["1".to_string()]);
    link.set_ext("A", vec!["2".to_string(), "3".to_string()]);
    link.set_ext_i18n("c*", vec![I18nString::new("x".to_string(), LanguageTag::new_unchecked("en".to_string()))]);
    let plain: Vec<(String, Vec<String>)> = link.iter_ext().into_iter().map(|(k, v)| (k.clone(), v.clone())).collect();
    assert_eq!(plain, vec![("b".to_string(), vec!["1".to_string()]), ("a".to_string(), vec!["2".to_string(), "3".to_string()])]);
    let i18n = link.iter_ext_i18n();
    assert_eq!(i18n.len(), 1);
    assert_eq!(i18n[0].0, "c*");
}

#[test]
fn error_messages() {
    assert_eq!(LinksetError::Empty.message(), "empty linkset");
    assert_eq!(
        LinksetError::DuplicateLink(uri(ROOT), rel("item"), uri(ITEM1)).message(),
        "duplicate link: <https://example.com/items/1>; rel=\"item\"; anchor=\"https://example.com/\""
    );
    assert_eq!(LinksetError::Json("x".into()).message(), "JSON: x");
    assert_eq!(LinksetError::Text("y".into()).message(), "text: y");
}

#[test]
fn values_changed_in_place() {
    let mut link = Link::new(uri(ROOT), rel("item"));
    link.set_ext("foo", vec!["a".to_string()]);
    link.get_ext_mut("FOO").unwrap().push("b".to_string());
    assert_eq!(link.get_ext("foo").unwrap(), &["a", "b"]);
    assert!(link.get_ext_mut("bar").is_none());
    link.set_ext_i18n("t*", vec![I18nString::new("x".into(), LanguageTag::new_unchecked("en".into()))]);
    link.get_ext_i18n_mut("T*").unwrap()[0].value = "y".to_string();
    assert_eq!(link.get_ext_i18n("t*").unwrap()[0].value, "y");
    assert!(link.get_ext_i18n_mut("foo").is_none());
}

#[test]
fn contexts_and_links_taken_out() {
    let mut ls = Linkset::new(uri(ROOT));
    ls.context_mut(ROOT).unwrap().add_link(Link::new(uri(ITEM1), rel("item"))).unwrap();
    let contexts = ls.into_contexts();
    assert_eq!(contexts.len(), 1);
    let links = contexts.into_iter().next().unwrap().into_links();
    assert_eq!(links.len(), 1);
    assert_eq!(links[0].target().as_str(), ITEM1);
}

#[test]
fn any_token_is_a_registered_name() {
    assert!(matches!(RelType::new_reg("Item".to_string()), Ok(RelType::Reg(_))));
    assert!(matches!(RelType::new_reg("x-my_rel!".to_string()), Ok(RelType::Reg(_))));
    assert!(RelType::new_reg("a/b".to_string()).is_err());
    assert!(matches!(RelType::new("Next".to_string()), Some(RelType::Reg(_))));
}
