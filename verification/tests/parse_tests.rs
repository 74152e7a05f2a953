use xmltree::Element;
use xmltree::ParseError;

#[test]
fn parse_reads_names_attributes_and_text() {
    let data = br#"<?xml version="1.0" encoding="utf-8"?>
<names kind="short">
    <name first="bob" last="jones">hi</name>
    <name first="elizabeth" last="smith" />
</names>"#;
    let root = Element::parse(data).unwrap();
    assert_eq!(root.name, "names");
    assert_eq!(root.get_attribute("kind"), Some(&"short".to_owned()));
    assert_eq!(root.children.len(), 2);
    let first = &root.children[0];
    assert_eq!(first.name, "name");
    assert_eq!(first.get_attribute("first"), Some(&"bob".to_owned()));
    assert_eq!(first.get_attribute("last"), Some(&"jones".to_owned()));
    assert_eq!(first.text, Some("hi".to_owned()));
    let second = &root.children[1];
    assert_eq!(second.get_attribute("first"), Some(&"elizabeth".to_owned()));
    assert!(second.text.is_none());
}

#[test]
fn parse_self_closing_root() {
    let root = Element::parse(b"<r/>").unwrap();
    assert_eq!(root.name, "r");
    assert!(root.children.is_empty());
    assert!(root.attributes.is_empty());
    assert!(root.text.is_none());
    assert!(root.namespaces.is_none());
}

#[test]
fn parse_records_namespaces() {
    let root = Element::parse(br#"<r xmlns:a="urn:x"><a:c/></r>"#).unwrap();
    let ns = root.namespaces.as_ref().expect("declared bindings are kept");
    assert!(ns.iter().any(|p| p.0 == "a" && p.1 == "urn:x"));
    let child = &root.children[0];
    assert_eq!(child.name, "c");
    assert_eq!(child.prefix, Some("a".to_owned()));
    assert_eq!(child.namespace, Some("urn:x".to_owned()));
}

#[test]
fn parse_rejects_instruction_only_document() {
    let r = Element::parse(b"<?pi data?>");
    assert_eq!(r, Err(ParseError::CannotParse));
}

#[test]
fn parse_reports_lexical_errors() {
    match Element::parse(b"<a>") {
        Err(ParseError::MalformedXml(_)) => {},
        other => panic!("unterminated input must be malformed, got {:?}", other),
    }
}

#[test]
fn parse_stops_at_the_root_end_tag() {
    // Junk after the root's end tag is never pulled.
    let root = Element::parse(b"<r>ok</r> garbage <<<").unwrap();
    assert_eq!(root.name, "r");
    assert_eq!(root.text, Some("ok".to_owned()));
}

#[test]
fn parse_and_serialize_agree() {
    let root = Element::parse(b"<r a=\"1\"><c>t</c></r>").unwrap();
    let events = root.serialize_events();
    let again = xmltree::builder::build_from_events(&events).unwrap();
    assert_eq!(root, again);
}
