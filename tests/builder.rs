use xml_tree::{BuildError, FlatTree, MismatchPolicy, TagEvent, TreeBuilder, XEvent, XNode};

fn tag(local: &str, prefix: Option<&str>, attrs: &[(&str, &str)]) -> TagEvent {
    TagEvent {
        local_name: local.to_string(),
        prefix: prefix.map(|p| p.to_string()),
        attributes: attrs.iter().map(|(k, v)| (k.to_string(), v.to_string())).collect(),
    }
}

fn end(local: &str, prefix: Option<&str>) -> XEvent {
    XEvent::End { local_name: local.to_string(), prefix: prefix.map(|p| p.to_string()) }
}

fn run(events: Vec<XEvent>, policy: MismatchPolicy) -> TreeBuilder {
    let mut b = TreeBuilder::new(policy);
    for e in events {
        b.handle(e).unwrap();
    }
    b
}

fn build(events: Vec<XEvent>) -> FlatTree {
    run(events, MismatchPolicy::Ignore).finish()
}

#[test]
fn read_simple_xml() {
    let tree = build(vec![
        XEvent::Start(tag("root", None, &[])),
        XEvent::Start(tag("child", None, &[("attr", "val")])),
        XEvent::Text("text".into()),
        end("child", None),
        XEvent::Comment(" comment ".into()),
        end("root", None),
        XEvent::Eof,
    ]);
    assert_eq!(tree.len(), 4);
    assert_eq!(tree.depth_vector(), [1, 2, 3, 2]);

    let root = tree.node(0).unwrap();
    assert!(matches!(root.value(&tree), Some(XNode::Tag { name, .. }) if name == "root"));

    let child = tree.node(1).unwrap();
    if let Some(XNode::Tag { name, attributes, .. }) = child.value(&tree) {
        assert_eq!(name, "child");
        assert!(attributes.is_some());
        let attributes = attributes.as_ref().unwrap();
        assert_eq!(attributes.get("attr").unwrap().value, "val");
    } else {
        panic!("expected Tag");
    }

    assert!(matches!(tree.value(2), Some(XNode::Text(t)) if t == "text"));
    assert!(matches!(tree.value(3), Some(XNode::Comment(c)) if c == " comment "));
}

#[test]
fn read_with_namespaces() {
    let tree = build(vec![
        XEvent::Start(tag(
            "Envelope",
            Some("soap"),
            &[("xmlns:soap", "http://schemas.xmlsoap.org/soap/envelope/")],
        )),
        XEvent::Empty(tag("Body", Some("soap"), &[])),
        end("Envelope", Some("soap")),
        XEvent::Eof,
    ]);
    assert_eq!(tree.len(), 2);
    assert_eq!(tree.depth_vector(), [1, 2]);

    let ns_id = tree.find_namespace(Some("soap"));
    assert_eq!(
        tree.get_namespace(ns_id),
        Some(("soap", "http://schemas.xmlsoap.org/soap/envelope/"))
    );
    if let Some(XNode::Tag { namespace, name, .. }) = tree.value(0) {
        assert_eq!(name, "Envelope");
        assert_eq!(*namespace, ns_id);
    }
    if let Some(XNode::Tag { namespace, name, .. }) = tree.value(1) {
        assert_eq!(name, "Body");
        assert_eq!(*namespace, ns_id);
    }
}

#[test]
fn read_empty_elements() {
    let b = run(
        vec![
            XEvent::Start(tag("root", None, &[])),
            XEvent::Empty(tag("a", None, &[])),
            XEvent::Empty(tag("b", None, &[])),
            XEvent::Empty(tag("c", None, &[])),
        ],
        MismatchPolicy::Ignore,
    );
    assert_eq!(b.current().index(), 0);
    let mut b = b;
    b.handle(end("root", None)).unwrap();
    let tree = b.finish();
    assert_eq!(tree.len(), 4);
    assert_eq!(tree.depth_vector(), [1, 2, 2, 2]);
}

#[test]
fn read_processing_instruction() {
    let tree = build(vec![
        XEvent::ProcessingInstruction {
            target: "xml-stylesheet".into(),
            data: Some("href=\"style.css\"".into()),
        },
        XEvent::Empty(tag("root", None, &[])),
        XEvent::Eof,
    ]);
    assert!(!tree.is_empty());
    let has_pi = (0..tree.len())
        .any(|i| matches!(tree.value(i), Some(XNode::ProcessingInstruction { .. })));
    assert!(has_pi);
    assert_eq!(tree.depth_vector(), [1, 1]);
}

#[test]
fn read_attribute_namespace() {
    let tree = build(vec![
        XEvent::Start(tag("root", None, &[("xmlns:ns", "example")])),
        XEvent::Empty(tag("a", Some("ns"), &[("ns:attr", "spoon")])),
        XEvent::Empty(tag("b", None, &[])),
        XEvent::Empty(tag("c", None, &[])),
        end("root", None),
        XEvent::Eof,
    ]);
    assert_eq!(tree.len(), 4);
    assert_eq!(tree.depth_vector(), [1, 2, 2, 2]);
    match tree.value(1).unwrap() {
        XNode::Tag { namespace, attributes, .. } => {
            assert_eq!(*namespace, Some(0));
            assert_eq!(*namespace, tree.find_namespace(Some("ns")));
            let attr = attributes.as_ref().unwrap().get("attr").unwrap();
            assert_eq!(attr.namespace, Some(0));
            assert_eq!(attr.value, "spoon");
        }
        _ => unreachable!(),
    }
}

#[test]
fn mismatched_close_is_ignored() {
    let mut b = run(
        vec![XEvent::Start(tag("root", None, &[])), XEvent::Start(tag("e1", None, &[]))],
        MismatchPolicy::Ignore,
    );
    b.handle(end("root", None)).unwrap();
    assert_eq!(b.current().index(), 1);
    assert_eq!(b.open_depth(), 2);
    b.handle(XEvent::Eof).unwrap();
    let tree = b.finish();
    assert_eq!(tree.depth_vector(), [1, 2]);
}

#[test]
fn mismatched_close_rematches_enclosing_tag() {
    let mut b = run(
        vec![
            XEvent::Start(tag("root", None, &[])),
            XEvent::Start(tag("e1", None, &[])),
            XEvent::Start(tag("e2", None, &[])),
        ],
        MismatchPolicy::Rematch,
    );
    b.handle(end("e1", None)).unwrap();
    assert_eq!(b.current().index(), 0);
    assert_eq!(b.open_depth(), 1);
    b.handle(XEvent::Text("t".into())).unwrap();
    b.handle(end("nothing", None)).unwrap();
    assert_eq!(b.current().index(), 0);
    b.handle(end("root", None)).unwrap();
    assert!(b.current().is_sentinel());
    let tree = b.finish();
    assert_eq!(tree.depth_vector(), [1, 2, 3, 2]);
}

#[test]
fn default_namespace_declaration_sets_tag_namespace() {
    let tree = build(vec![
        XEvent::Start(tag("root", None, &[("xmlns", "urn:a"), ("x", "1")])),
        XEvent::Empty(tag("inner", None, &[("xmlns", "urn:other")])),
        end("root", None),
    ]);
    match tree.value(0).unwrap() {
        XNode::Tag { namespace, attributes, .. } => {
            assert_eq!(*namespace, Some(0));
            assert_eq!(attributes.as_ref().unwrap().get("x").unwrap().namespace, None);
        }
        _ => unreachable!(),
    }
    match tree.value(1).unwrap() {
        XNode::Tag { namespace, attributes, .. } => {
            assert_eq!(*namespace, Some(0));
            assert!(attributes.is_none());
        }
        _ => unreachable!(),
    }
    assert_eq!(tree.get_namespace(Some(0)), Some(("", "urn:a")));
}

#[test]
fn later_attribute_with_same_local_name_wins() {
    let tree = build(vec![XEvent::Empty(tag(
        "e",
        None,
        &[("xmlns:p", "urn:p"), ("p:k", "first"), ("k", "second")],
    ))]);
    match tree.value(0).unwrap() {
        XNode::Tag { attributes, .. } => {
            let attrs = attributes.as_ref().unwrap();
            assert_eq!(attrs.len(), 1);
            let k = attrs.get("k").unwrap();
            assert_eq!(k.value, "second");
            assert_eq!(k.namespace, None);
        }
        _ => unreachable!(),
    }
}

#[test]
fn sibling_roots_after_close() {
    let tree = build(vec![
        XEvent::Start(tag("r1", None, &[])),
        end("r1", None),
        XEvent::Start(tag("r2", None, &[])),
        XEvent::Text("x".into()),
        end("r2", None),
    ]);
    assert_eq!(tree.depth_vector(), [1, 1, 2]);
}

#[test]
fn nesting_past_the_deepest_level_fails() {
    let mut b = TreeBuilder::new(MismatchPolicy::Ignore);
    for _ in 0..255 {
        b.handle(XEvent::Start(tag("e", None, &[]))).unwrap();
    }
    assert_eq!(b.open_depth(), 255);
    assert_eq!(b.handle(XEvent::Text("x".into())), Err(BuildError::TooDeep));
    assert_eq!(b.handle(XEvent::Start(tag("e", None, &[]))), Err(BuildError::TooDeep));
    assert_eq!(b.tree().len(), 255);
    b.handle(end("e", None)).unwrap();
    assert_eq!(b.handle(XEvent::Text("x".into())), Ok(()));
    let tree = b.finish();
    assert_eq!(tree.depth_vector()[255], 255);
}
