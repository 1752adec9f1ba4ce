use ironpress::parser::dom::{ElementNode, HtmlTag};

#[test]
fn tag_names_ignore_case() {
    assert_eq!(HtmlTag::from_tag_name("div"), HtmlTag::Div);
    assert_eq!(HtmlTag::from_tag_name("DIV"), HtmlTag::Div);
    assert_eq!(HtmlTag::from_tag_name("H1"), HtmlTag::H1);
    assert_eq!(HtmlTag::from_tag_name("iMg"), HtmlTag::Img);
    assert_eq!(HtmlTag::from_tag_name("thead"), HtmlTag::Thead);
    assert_eq!(HtmlTag::from_tag_name("TFoot"), HtmlTag::Tfoot);
    assert_eq!(HtmlTag::from_tag_name("tbodyx"), HtmlTag::Unknown);
    assert_eq!(HtmlTag::from_tag_name(""), HtmlTag::Unknown);
    assert_eq!(HtmlTag::from_tag_name("strongly"), HtmlTag::Unknown);
}

#[test]
fn every_known_name_maps_to_its_tag() {
    let names = [
        ("html", HtmlTag::Html), ("head", HtmlTag::Head), ("body", HtmlTag::Body),
        ("h1", HtmlTag::H1), ("h2", HtmlTag::H2), ("h3", HtmlTag::H3), ("h4", HtmlTag::H4),
        ("h5", HtmlTag::H5), ("h6", HtmlTag::H6), ("p", HtmlTag::P), ("div", HtmlTag::Div),
        ("span", HtmlTag::Span), ("strong", HtmlTag::Strong), ("b", HtmlTag::B),
        ("em", HtmlTag::Em), ("i", HtmlTag::I), ("u", HtmlTag::U), ("a", HtmlTag::A),
        ("br", HtmlTag::Br), ("hr", HtmlTag::Hr), ("table", HtmlTag::Table), ("tr", HtmlTag::Tr),
        ("td", HtmlTag::Td), ("th", HtmlTag::Th), ("ul", HtmlTag::Ul), ("ol", HtmlTag::Ol),
        ("li", HtmlTag::Li), ("img", HtmlTag::Img), ("thead", HtmlTag::Thead),
        ("tbody", HtmlTag::Tbody), ("tfoot", HtmlTag::Tfoot),
    ];
    for (name, tag) in names {
        assert_eq!(HtmlTag::from_tag_name(name), tag);
        assert_eq!(HtmlTag::from_tag_name(&name.to_uppercase()), tag);
        assert!(!(tag.is_block() && tag.is_inline()));
    }
}

#[test]
fn block_and_inline_tags() {
    assert!(HtmlTag::P.is_block());
    assert!(HtmlTag::Html.is_block());
    assert!(!HtmlTag::Span.is_block());
    assert!(!HtmlTag::Br.is_block());
    assert!(HtmlTag::A.is_inline());
    assert!(HtmlTag::U.is_inline());
    assert!(!HtmlTag::Br.is_inline());
    assert!(!HtmlTag::Img.is_inline());
    assert!(!HtmlTag::Unknown.is_block() && !HtmlTag::Unknown.is_inline());
}

#[test]
fn new_element_is_empty() {
    let el = ElementNode::new(HtmlTag::Td);
    assert_eq!(el.tag, HtmlTag::Td);
    assert!(el.attributes.is_empty());
    assert!(el.children.is_empty());
    assert_eq!(el.style_attr(), None);
}

#[test]
fn style_attribute_lookup() {
    let mut el = ElementNode::new(HtmlTag::P);
    el.attributes.push(("class".to_string(), "x".to_string()));
    el.attributes.push(("style".to_string(), "color: red".to_string()));
    el.attributes.push(("style".to_string(), "ignored".to_string()));
    assert_eq!(el.style_attr(), Some("color: red"));
    assert_eq!(el.attribute("class"), Some("x"));
    assert_eq!(el.attribute("Style"), None);
}

#[test]
fn set_attribute_behaves_like_a_map() {
    let mut e = ElementNode::new(HtmlTag::Td);
    e.set_attribute("colspan", "2");
    e.set_attribute("style", "color: red");
    e.set_attribute("colspan", "3");
    assert_eq!(e.attributes.len(), 2);
    assert_eq!(e.attribute("colspan"), Some("3"));
    assert_eq!(e.attribute("style"), Some("color: red"));
    assert_eq!(e.attribute("rowspan"), None);
}
