use xmpp_core::element::{Element, Node};
use xmpp_core::tree::parse_document;

#[test]
fn attribute_order_does_not_matter() {
    let a = parse_document("<a xmlns='urn:x' p='1' q='2'><b/>t</a>").unwrap();
    let b = parse_document("<a q='2' p='1' xmlns='urn:x'><b/>t</a>").unwrap();
    assert_eq!(a, b);
    let c = parse_document("<a xmlns='urn:x' p='1' q='3'><b/>t</a>").unwrap();
    assert_ne!(a, c);
    let d = parse_document("<a xmlns='urn:x' p='1' q='2'>t<b/></a>").unwrap();
    assert_ne!(a, d);
}

#[test]
fn children_inherit_the_default_namespace() {
    let a = parse_document("<a xmlns='urn:x' xmlns:y='urn:y'><b/><y:c/></a>").unwrap();
    let mut expected = Element::new("a", "urn:x");
    expected.append_child(Element::new("b", "urn:x"));
    expected.append_child(Element::new("c", "urn:y"));
    assert_eq!(a, expected);
    assert!(matches!(&a.children[1], Node::Element(c) if c.is("c", "urn:y")));
}

#[test]
fn undeclared_prefix_is_an_error() {
    assert_eq!(parse_document("<p:a/>"), Err(xmpp_core::Error::Unbalanced));
    let a = parse_document("<a xml:lang='en'/>").unwrap();
    assert_eq!(a.attr("xml:lang"), Some("en".to_owned()));
}
