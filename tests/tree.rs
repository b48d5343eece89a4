use xml_tree::{Attributes, FlatTree, Node, XAttribute, XNode};

/// <root><child attr="val">text</child><!-- comment --></root>
fn sample_tree() -> FlatTree {
    let mut root = FlatTree::new();
    let root_node = root.as_node();
    let node = root_node.push(
        &mut root,
        XNode::Tag { namespace: None, name: "root".into(), attributes: None },
    );
    let mut attrs = Attributes::new();
    attrs.insert("attr".into(), XAttribute { namespace: None, value: "val".into() });
    let child_node = node.push(
        &mut root,
        XNode::Tag { namespace: None, name: "child".into(), attributes: Some(attrs) },
    );
    child_node.push(&mut root, XNode::Text("text".into()));
    node.push(&mut root, XNode::Comment(" comment ".into()));
    root
}

/// <root1></root1><root2></root2>
fn empty_tree() -> FlatTree {
    let mut root = FlatTree::new();
    let root_node = root.as_node();
    let _ = root_node.push(
        &mut root,
        XNode::Tag { namespace: None, name: "root1".into(), attributes: None },
    );
    let _ = root_node.push(
        &mut root,
        XNode::Tag { namespace: None, name: "root2".into(), attributes: None },
    );
    root
}

fn idx(nodes: Vec<Node>) -> Vec<usize> {
    nodes.iter().map(|n| n.index()).collect()
}

#[test]
fn depth_alignment() {
    let tree = sample_tree();
    assert_eq!(tree.len(), 4);
    assert_eq!(tree.depth_vector(), [1, 2, 3, 2]);
}

#[test]
fn depth_alignment_empty() {
    let tree = empty_tree();
    assert_eq!(tree.len(), 2);
    assert_eq!(tree.depth_vector(), [1, 1]);
}

#[test]
fn parent_navigation() {
    let tree = sample_tree();
    assert!(tree.node(0).unwrap().parent(&tree).is_none());
    assert_eq!(tree.node(1).unwrap().parent(&tree).unwrap().index(), 0);
    assert_eq!(tree.node(2).unwrap().parent(&tree).unwrap().index(), 1);
    assert_eq!(tree.node(3).unwrap().parent(&tree).unwrap().index(), 0);
}

#[test]
fn children_navigation() {
    let tree = sample_tree();
    let root = tree.node(0).unwrap();
    assert_eq!(idx(root.children(&tree)), vec![1, 3]);
    let child = tree.node(1).unwrap();
    assert_eq!(idx(child.children(&tree)), vec![2]);
}

#[test]
fn sibling_navigation() {
    let tree = sample_tree();
    assert_eq!(tree.node(1).unwrap().next_sibling(&tree).unwrap().index(), 3);
    assert!(tree.node(3).unwrap().next_sibling(&tree).is_none());
    assert_eq!(tree.node(3).unwrap().prev_sibling(&tree).unwrap().index(), 1);
    assert!(tree.node(1).unwrap().prev_sibling(&tree).is_none());
}

#[test]
fn ancestors_and_descendants() {
    let tree = sample_tree();
    let text = tree.node(2).unwrap();
    assert_eq!(idx(text.ancestors(&tree)), vec![1, 0]);
    let root = tree.node(0).unwrap();
    assert_eq!(idx(root.descendants(&tree)), vec![1, 2, 3]);
}

#[test]
fn subtree_end() {
    let tree = sample_tree();
    assert_eq!(tree.node(0).unwrap().subtree_end(&tree), 4);
    assert_eq!(tree.node(1).unwrap().subtree_end(&tree), 3);
    assert_eq!(tree.node(2).unwrap().subtree_end(&tree), 3);
    assert_eq!(tree.node(3).unwrap().subtree_end(&tree), 4);
}

#[test]
fn sentinel_node_push() {
    let mut tree = FlatTree::new();
    let sentinel = tree.as_node();
    assert_eq!(sentinel.index(), usize::MAX);
    assert_eq!(sentinel.depth(&tree), 0);
    let root = sentinel.push(&mut tree, XNode::Text("hi".into()));
    assert_eq!(root.index(), 0);
    assert_eq!(root.depth(&tree), 1);
}

#[test]
fn namespace_registry() {
    let mut tree = FlatTree::new();
    let id = tree.add_namespace("".into(), "http://example.com".into());
    assert_eq!(id, Some(0));
    let id2 = tree.add_namespace("ns".into(), "http://ns.example.com".into());
    assert_eq!(id2, Some(1));
    assert_eq!(tree.get_namespace(Some(0)), Some(("", "http://example.com")));
    assert_eq!(tree.find_namespace(Some("ns")), Some(1));
    assert_eq!(tree.find_namespace(Some("missing")), None);
}

#[test]
fn sentinel_navigation_does_not_panic() {
    let tree = sample_tree();
    let sentinel = Node::sentinel();
    assert!(sentinel.is_sentinel());
    assert!(!sentinel.is_valid(&tree));
    assert_eq!(sentinel.depth(&tree), 0);
    assert!(sentinel.value(&tree).is_none());
    assert!(sentinel.parent(&tree).is_none());
    assert!(sentinel.children(&tree).is_empty());
    assert!(sentinel.next_sibling(&tree).is_none());
    assert!(sentinel.prev_sibling(&tree).is_none());
    assert!(sentinel.ancestors(&tree).is_empty());
    assert!(sentinel.descendants(&tree).is_empty());
    assert_eq!(sentinel.subtree_end(&tree), 0);
}

#[test]
fn stale_node_does_not_panic() {
    let mut tree = FlatTree::new();
    let sentinel = tree.as_node();
    let node = sentinel.push(&mut tree, XNode::Text("a".into()));
    assert!(node.is_valid(&tree));

    // Discard the tree: `node` is now stale.
    tree = FlatTree::new();

    assert!(!node.is_valid(&tree));
    assert_eq!(node.depth(&tree), 0);
    assert!(node.value(&tree).is_none());
    assert!(node.parent(&tree).is_none());
    assert!(node.children(&tree).is_empty());
    assert!(node.next_sibling(&tree).is_none());
    assert!(node.prev_sibling(&tree).is_none());
    assert!(node.descendants(&tree).is_empty());
    assert_eq!(node.subtree_end(&tree), 0);
}

#[test]
fn subtree_end_counts_descendants_on_every_node() {
    let tree = sample_tree();
    for i in 0..tree.len() {
        let n = tree.node(i).unwrap();
        assert_eq!(n.subtree_end(&tree) - n.index() - 1, n.descendants(&tree).len());
    }
}

#[test]
fn parent_is_one_level_up_on_every_node() {
    let tree = sample_tree();
    for i in 0..tree.len() {
        let n = tree.node(i).unwrap();
        if let Some(p) = n.parent(&tree) {
            assert!(p.index() < n.index());
            assert_eq!(p.depth(&tree), n.depth(&tree) - 1);
        }
    }
}

#[test]
fn children_are_descendants_one_level_down() {
    let tree = sample_tree();
    for i in 0..tree.len() {
        let n = tree.node(i).unwrap();
        let expected: Vec<usize> = n
            .descendants(&tree)
            .iter()
            .filter(|d| d.depth(&tree) == n.depth(&tree) + 1)
            .map(|d| d.index())
            .collect();
        assert_eq!(idx(n.children(&tree)), expected);
    }
}

#[test]
fn siblings_undo_each_other() {
    let tree = sample_tree();
    let child = tree.node(1).unwrap();
    let next = child.next_sibling(&tree).unwrap();
    assert_eq!(next.prev_sibling(&tree).unwrap().index(), child.index());
}

#[test]
fn find_node_plain_and_prefixed() {
    let mut tree = FlatTree::new();
    let ns = tree.add_namespace("p".into(), "urn:p".into());
    let root = tree.push(XNode::Tag { namespace: None, name: "a".into(), attributes: None });
    root.push(&mut tree, XNode::Tag { namespace: ns, name: "a".into(), attributes: None });
    assert_eq!(tree.find_node("a").unwrap().index(), 0);
    assert_eq!(tree.find_node("p:a").unwrap().index(), 1);
    assert!(tree.find_node("q:a").is_none());
    assert!(tree.find_node("b").is_none());
    assert_eq!(tree.find_node_by_name("a").unwrap().index(), 0);
    assert_eq!(tree.find_namespaced_node_by_name(ns, "a").unwrap().index(), 1);
    assert!(tree.node(1).unwrap().compare_name(&tree, ns, "a"));
    assert!(!tree.node(0).unwrap().compare_name(&tree, ns, "a"));
}

#[test]
fn register_is_first_write_wins() {
    let mut tree = FlatTree::new();
    assert_eq!(tree.add_namespace("".into(), "uriA".into()), Some(0));
    assert_eq!(tree.add_namespace("ns".into(), "uriB".into()), Some(1));
    assert_eq!(tree.add_namespace("".into(), "uriC".into()), Some(0));
    assert_eq!(tree.get_namespace(Some(0)), Some(("", "uriA")));
    assert_eq!(tree.get_namespace(Some(2)), None);
    assert_eq!(tree.get_namespace(None), None);
}

#[test]
fn unprefixed_lookup_is_absent() {
    let mut tree = FlatTree::new();
    tree.add_namespace("".into(), "uriA".into());
    assert_eq!(tree.find_namespace(None), None);
    assert_eq!(tree.find_namespace(Some("")), Some(0));
}

#[test]
fn format_tag_name_splits_on_colons() {
    assert_eq!(xml_tree::format_tag_name("a"), (None, "a"));
    assert_eq!(xml_tree::format_tag_name("p:a"), (Some("p"), "a"));
    assert_eq!(xml_tree::format_tag_name("p:a:b"), (Some("p"), "a"));
    assert_eq!(xml_tree::format_tag_name(":a"), (Some(""), "a"));
}

#[test]
fn attributes_replace_by_local_name() {
    let mut attrs = Attributes::new();
    attrs.insert("x".into(), XAttribute { namespace: None, value: "1".into() });
    attrs.insert("x".into(), XAttribute { namespace: Some(3), value: "2".into() });
    assert_eq!(attrs.len(), 1);
    let a = attrs.get("x").unwrap();
    assert_eq!(a.value, "2");
    assert_eq!(a.namespace, Some(3));
    assert!(attrs.get("y").is_none());
}

#[test]
fn attributes_come_out_in_name_order() {
    let mut attrs = Attributes::new();
    for (k, v) in [("b", "2"), ("a", "1"), ("c", "3"), ("ab", "4")] {
        attrs.insert(k.into(), XAttribute { namespace: None, value: v.into() });
    }
    let names: Vec<&str> = (0..attrs.len()).map(|i| attrs.entry(i).unwrap().0).collect();
    assert_eq!(names, vec!["a", "ab", "b", "c"]);
    assert_eq!(attrs.entry(1).unwrap().1.value, "4");
    assert!(attrs.entry(4).is_none());
}
