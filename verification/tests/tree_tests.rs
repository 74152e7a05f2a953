use xmltree::builder::build_from_events;
use xmltree::Element;
use xmltree::Event;
use xmltree::ParseError;

fn start(name: &str, attributes: Vec<(String, String)>) -> Event {
    Event::StartElement {
        name: name.to_owned(),
        prefix: None,
        namespace: None,
        attributes,
        namespace_scope: Vec::new(),
    }
}

fn end(name: &str) -> Event {
    Event::EndElement { name: name.to_owned() }
}

fn pair(k: &str, v: &str) -> (String, String) {
    (k.to_owned(), v.to_owned())
}

#[test]
fn new_element_is_empty() {
    let e = Element::new("r");
    assert_eq!(e.name, "r");
    assert!(e.prefix.is_none());
    assert!(e.namespace.is_none());
    assert!(e.namespaces.is_none());
    assert!(e.attributes.is_empty());
    assert!(e.children.is_empty());
    assert!(e.text.is_none());
}

#[test]
fn empty_element_round_trip() {
    // Parsing a self-closing element yields a bare root.
    let root = build_from_events(&vec![Event::StartDocument, start("r", Vec::new()), end("r")])
        .unwrap();
    assert_eq!(root.name, "r");
    assert!(root.children.is_empty());
    assert!(root.attributes.is_empty());
    assert!(root.text.is_none());
    assert!(root.namespaces.is_none());
    // Serializing it back gives exactly one start/end pair.
    let events = root.serialize_events();
    assert_eq!(events.len(), 2);
    assert_eq!(events[0], start("r", Vec::new()));
    assert_eq!(events[1], end("r"));
}

#[test]
fn last_text_run_wins() {
    let root = build_from_events(&vec![
        start("r", Vec::new()),
        Event::Characters("a".to_owned()),
        Event::Characters("b".to_owned()),
        end("r"),
    ])
    .unwrap();
    assert_eq!(root.text, Some("b".to_owned()));
}

#[test]
fn cdata_sets_text_like_characters() {
    let root = build_from_events(&vec![
        start("r", Vec::new()),
        Event::Characters("a".to_owned()),
        Event::CData("c".to_owned()),
        end("r"),
    ])
    .unwrap();
    assert_eq!(root.text, Some("c".to_owned()));
}

#[test]
fn duplicate_attribute_last_wins() {
    let root = build_from_events(&vec![
        start("r", vec![pair("x", "1"), pair("x", "2")]),
        end("r"),
    ])
    .unwrap();
    assert_eq!(root.attributes, vec![pair("x", "2")]);
    assert_eq!(root.get_attribute("x"), Some(&"2".to_owned()));
}

#[test]
fn take_child_removes_first_match_only() {
    let mut parent = build_from_events(&vec![
        start("p", Vec::new()),
        start("a", vec![pair("n", "1")]),
        start("g", Vec::new()),
        end("g"),
        end("a"),
        start("b", Vec::new()),
        end("b"),
        start("a", vec![pair("n", "2")]),
        end("a"),
        end("p"),
    ])
    .unwrap();
    let taken = parent.take_child("a").unwrap();
    // The first `a` comes out with its subtree intact.
    assert_eq!(taken.get_attribute("n"), Some(&"1".to_owned()));
    assert_eq!(taken.children.len(), 1);
    assert_eq!(taken.children[0].name, "g");
    // `[b, a]` is left behind.
    assert_eq!(parent.children.len(), 2);
    assert_eq!(parent.children[0].name, "b");
    assert_eq!(parent.children[1].name, "a");
    assert_eq!(parent.children[1].get_attribute("n"), Some(&"2".to_owned()));
    // No third `a`-named child: nothing else is removed.
    let again = parent.take_child("a").unwrap();
    assert_eq!(again.get_attribute("n"), Some(&"2".to_owned()));
    assert!(parent.take_child("a").is_none());
}

#[test]
fn get_child_finds_first_match() {
    let root = build_from_events(&vec![
        start("p", Vec::new()),
        start("a", vec![pair("n", "1")]),
        end("a"),
        start("a", vec![pair("n", "2")]),
        end("a"),
        end("p"),
    ])
    .unwrap();
    let c = root.get_child("a").unwrap();
    assert_eq!(c.get_attribute("n"), Some(&"1".to_owned()));
    assert!(root.get_child("missing").is_none());
}

#[test]
fn get_mut_child_edits_in_place() {
    let mut root = build_from_events(&vec![
        start("p", Vec::new()),
        start("a", Vec::new()),
        end("a"),
        end("p"),
    ])
    .unwrap();
    {
        let c = root.get_mut_child("a").unwrap();
        c.set_attribute("suffix".to_owned(), "mr".to_owned());
    }
    assert_eq!(
        root.children[0].get_attribute("suffix"),
        Some(&"mr".to_owned())
    );
}

#[test]
fn set_attribute_overwrites_in_place() {
    let mut e = Element::new("r");
    e.set_attribute("x".to_owned(), "1".to_owned());
    e.set_attribute("y".to_owned(), "2".to_owned());
    e.set_attribute("x".to_owned(), "3".to_owned());
    assert_eq!(e.attributes, vec![pair("x", "3"), pair("y", "2")]);
    assert_eq!(e.get_attribute("x"), Some(&"3".to_owned()));
    assert_eq!(e.get_attribute("y"), Some(&"2".to_owned()));
    assert!(e.get_attribute("z").is_none());
}

#[test]
fn top_level_comment_and_instruction_rejected() {
    let r = build_from_events(&vec![
        Event::StartDocument,
        Event::Comment("c".to_owned()),
        Event::ProcessingInstruction,
    ]);
    assert_eq!(r, Err(ParseError::CannotParse));
}

#[test]
fn mismatched_end_tag_rejected() {
    let r = build_from_events(&vec![
        start("a", Vec::new()),
        start("b", Vec::new()),
        end("a"),
    ]);
    assert_eq!(r, Err(ParseError::CannotParse));
}

#[test]
fn document_without_root_rejected() {
    let r = build_from_events(&vec![Event::StartDocument, Event::EndDocument]);
    assert_eq!(r, Err(ParseError::CannotParse));
}

#[test]
fn lexical_error_event_becomes_malformed_xml() {
    let r = build_from_events(&vec![
        start("a", Vec::new()),
        Event::TokenError("boom".to_owned()),
    ]);
    assert_eq!(r, Err(ParseError::MalformedXml("boom".to_owned())));
}

#[test]
fn events_after_root_close_are_ignored() {
    let root = build_from_events(&vec![
        start("r", Vec::new()),
        end("r"),
        Event::TokenError("late".to_owned()),
    ])
    .unwrap();
    assert_eq!(root.name, "r");
}

#[test]
fn nested_round_trip_preserves_structure() {
    let events = vec![
        Event::StartDocument,
        start("root", vec![pair("k", "v")]),
        Event::Characters("hello".to_owned()),
        start("a", Vec::new()),
        Event::Characters("inner".to_owned()),
        end("a"),
        start("b", vec![pair("x", "1")]),
        end("b"),
        end("root"),
    ];
    let tree = build_from_events(&events).unwrap();
    let replayed = tree.serialize_events();
    let tree2 = build_from_events(&replayed).unwrap();
    assert_eq!(tree, tree2);
}

#[test]
fn serialized_boundaries_carry_the_node_name() {
    let tree = build_from_events(&vec![
        start("outer", Vec::new()),
        start("inner", Vec::new()),
        end("inner"),
        end("outer"),
    ])
    .unwrap();
    let events = tree.serialize_events();
    assert_eq!(
        events.first(),
        Some(&start("outer", Vec::new()))
    );
    assert_eq!(events.last(), Some(&end("outer")));
    // The inner node's pair matches as well.
    assert_eq!(events[1], start("inner", Vec::new()));
    assert_eq!(events[2], end("inner"));
}

#[test]
fn whitespace_comment_and_doctype_leave_no_trace() {
    let root = build_from_events(&vec![
        Event::StartDocument,
        Event::Doctype,
        Event::Whitespace(" ".to_owned()),
        Event::Comment("before".to_owned()),
        start("r", Vec::new()),
        Event::Whitespace("\n".to_owned()),
        Event::Comment("inside".to_owned()),
        Event::Doctype,
        end("r"),
    ])
    .unwrap();
    assert_eq!(root.name, "r");
    assert!(root.children.is_empty());
    assert!(root.text.is_none());
}

#[test]
fn instruction_inside_body_rejected() {
    let r = build_from_events(&vec![
        start("r", Vec::new()),
        Event::ProcessingInstruction,
        end("r"),
    ]);
    assert_eq!(r, Err(ParseError::CannotParse));
}

#[test]
fn document_boundary_inside_body_rejected() {
    let r = build_from_events(&vec![
        start("r", Vec::new()),
        Event::EndDocument,
    ]);
    assert_eq!(r, Err(ParseError::CannotParse));
    let r2 = build_from_events(&vec![
        start("r", Vec::new()),
        Event::StartDocument,
        end("r"),
    ]);
    assert_eq!(r2, Err(ParseError::CannotParse));
}

#[test]
fn exhausted_stream_rejected() {
    let r = build_from_events(&vec![start("r", Vec::new())]);
    assert_eq!(r, Err(ParseError::CannotParse));
    let r2 = build_from_events(&Vec::new());
    assert_eq!(r2, Err(ParseError::CannotParse));
}

#[test]
fn clone_copies_the_whole_subtree() {
    let original = build_from_events(&vec![
        start("p", vec![pair("k", "v")]),
        Event::Characters("t".to_owned()),
        start("a", Vec::new()),
        start("g", Vec::new()),
        end("g"),
        end("a"),
        end("p"),
    ])
    .unwrap();
    let mut copy = original.clone();
    assert_eq!(copy, original);
    copy.set_attribute("k".to_owned(), "w".to_owned());
    assert_eq!(original.get_attribute("k"), Some(&"v".to_owned()));
    assert_eq!(copy.get_attribute("k"), Some(&"w".to_owned()));
}

#[test]
fn describe_names_the_failure() {
    assert_eq!(ParseError::CannotParse.describe(), "Cannot parse");
    assert_eq!(
        ParseError::MalformedXml("x".to_owned()).describe(),
        "Malformed XML"
    );
}
