use obscura::node_order::{
    compare_node_order, node_ancestors_root_first, node_child_index, node_is_script,
};
use obscura::tree::{DomTree, NodeData, NodeId, QualName};

fn element(tree: &mut DomTree, local: &str) -> NodeId {
    tree.new_node(NodeData::Element {
        name: QualName {
            prefix: None,
            ns: "http://www.w3.org/1999/xhtml".to_string(),
            local: local.to_string(),
        },
        attrs: vec![],
        template_contents: None,
        mathml_annotation_xml_integration_point: false,
    })
}

#[test]
fn child_index_counts_previous_siblings() {
    let mut tree = DomTree::new();
    let doc = tree.document();
    let a = element(&mut tree, "a");
    let b = element(&mut tree, "b");
    let c = element(&mut tree, "c");
    tree.append_child(doc, a);
    tree.append_child(doc, b);
    tree.append_child(doc, c);
    let loose = element(&mut tree, "d");
    assert_eq!(node_child_index(&tree, a), 0);
    assert_eq!(node_child_index(&tree, b), 1);
    assert_eq!(node_child_index(&tree, c), 2);
    assert_eq!(node_child_index(&tree, loose), 0);
    assert_eq!(node_child_index(&tree, doc), 0);
    assert_eq!(node_child_index(&tree, NodeId::new(400)), 0);
}

#[test]
fn ancestors_come_root_first() {
    let mut tree = DomTree::new();
    let doc = tree.document();
    let a = element(&mut tree, "a");
    let b = element(&mut tree, "b");
    tree.append_child(doc, a);
    tree.append_child(a, b);
    assert_eq!(node_ancestors_root_first(&tree, b), vec![doc, a, b]);
    assert_eq!(node_ancestors_root_first(&tree, doc), vec![doc]);
    assert_eq!(node_ancestors_root_first(&tree, NodeId::new(400)), vec![NodeId::new(400)]);
}

#[test]
fn compare_node_order_follows_document_order() {
    let mut tree = DomTree::new();
    let doc = tree.document();
    let a = element(&mut tree, "a");
    let a1 = element(&mut tree, "a1");
    let b = element(&mut tree, "b");
    tree.append_child(doc, a);
    tree.append_child(a, a1);
    tree.append_child(doc, b);
    let other_root = element(&mut tree, "x");

    assert_eq!(compare_node_order(&tree, a, a), 0);
    assert_eq!(compare_node_order(&tree, doc, a1), -1);
    assert_eq!(compare_node_order(&tree, a1, doc), 1);
    assert_eq!(compare_node_order(&tree, a1, b), -1);
    assert_eq!(compare_node_order(&tree, b, a1), 1);
    assert_eq!(compare_node_order(&tree, a, b), -1);
    // Different trees: ordered by slot index.
    assert_eq!(compare_node_order(&tree, b, other_root), -1);
    assert_eq!(compare_node_order(&tree, other_root, b), 1);
}

#[test]
fn compare_node_order_is_antisymmetric_on_a_small_tree() {
    let mut tree = DomTree::new();
    let doc = tree.document();
    let mut all = vec![doc];
    for name in ["p", "q", "r"] {
        let n = element(&mut tree, name);
        tree.append_child(doc, n);
        all.push(n);
        let k = element(&mut tree, "span");
        tree.append_child(n, k);
        all.push(k);
    }
    for &x in &all {
        for &y in &all {
            assert_eq!(compare_node_order(&tree, x, y), -compare_node_order(&tree, y, x));
            assert_eq!(compare_node_order(&tree, x, y) == 0, x == y);
        }
    }
}

#[test]
fn script_elements_match_in_any_ascii_case() {
    let mut tree = DomTree::new();
    let s1 = element(&mut tree, "script");
    let s2 = element(&mut tree, "SCRIPT");
    let s3 = element(&mut tree, "ScRiPt");
    let not = element(&mut tree, "scripts");
    let t = tree.new_node(NodeData::Text { contents: "script".to_string() });
    assert!(node_is_script(&tree, s1));
    assert!(node_is_script(&tree, s2));
    assert!(node_is_script(&tree, s3));
    assert!(!node_is_script(&tree, not));
    assert!(!node_is_script(&tree, t));
    assert!(!node_is_script(&tree, NodeId::new(77)));
}
