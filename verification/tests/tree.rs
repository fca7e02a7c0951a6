use obscura::tree::{
    AttachShadowError, Attribute, DomTree, NodeData, NodeId, QualName, ShadowRoot, ShadowRootMode,
};

fn html_name(local: &str) -> QualName {
    QualName {
        prefix: None,
        ns: "http://www.w3.org/1999/xhtml".to_string(),
        local: local.to_string(),
    }
}

fn element(tree: &mut DomTree, local: &str) -> NodeId {
    tree.new_node(NodeData::Element {
        name: html_name(local),
        attrs: vec![],
        template_contents: None,
        mathml_annotation_xml_integration_point: false,
    })
}

fn text(tree: &mut DomTree, s: &str) -> NodeId {
    tree.new_node(NodeData::Text { contents: s.to_string() })
}

#[test]
fn test_new_tree_has_document() {
    let tree = DomTree::new();
    assert_eq!(tree.len(), 1);
    let node = tree.get_node(tree.document()).unwrap();
    assert!(node.is_document());
}

#[test]
fn test_append_child() {
    let mut tree = DomTree::new();
    let child = text(&mut tree, "hello");
    let doc = tree.document();
    assert!(!tree.is_connected(child));
    tree.append_child(doc, child);

    assert_eq!(tree.len(), 2);
    let doc_node = tree.get_node(doc).unwrap();
    assert_eq!(doc_node.first_child, Some(child));
    assert_eq!(doc_node.last_child, Some(child));

    let child_node = tree.get_node(child).unwrap();
    assert_eq!(child_node.parent, Some(doc));
    assert!(tree.is_connected(child));
}

#[test]
fn test_multiple_children() {
    let mut tree = DomTree::new();
    let doc = tree.document();
    let c1 = text(&mut tree, "a");
    let c2 = text(&mut tree, "b");
    let c3 = text(&mut tree, "c");
    tree.append_child(doc, c1);
    tree.append_child(doc, c2);
    tree.append_child(doc, c3);

    assert_eq!(tree.children(doc), vec![c1, c2, c3]);
}

#[test]
fn test_detach() {
    let mut tree = DomTree::new();
    let doc = tree.document();
    let c1 = text(&mut tree, "a");
    let c2 = text(&mut tree, "b");
    tree.append_child(doc, c1);
    tree.append_child(doc, c2);

    tree.detach(c1);
    assert_eq!(tree.children(doc), vec![c2]);
    assert!(!tree.is_connected(c1));
    assert!(tree.is_connected(c2));
}

#[test]
fn test_insert_before() {
    let mut tree = DomTree::new();
    let doc = tree.document();
    let c1 = text(&mut tree, "a");
    let c2 = text(&mut tree, "b");
    let c3 = text(&mut tree, "c");
    tree.append_child(doc, c1);
    tree.append_child(doc, c3);
    tree.insert_before(c3, c2);

    assert_eq!(tree.children(doc), vec![c1, c2, c3]);
}

#[test]
fn test_text_content() {
    let mut tree = DomTree::new();
    let doc = tree.document();
    let div = element(&mut tree, "div");
    tree.append_child(doc, div);

    let t1 = text(&mut tree, "Hello ");
    let t2 = text(&mut tree, "World");
    tree.append_child(div, t1);
    tree.append_child(div, t2);

    assert_eq!(tree.text_content(div), "Hello World");
}

#[test]
fn text_content_of_character_data_is_its_data() {
    let mut tree = DomTree::new();
    let c = tree.new_node(NodeData::Comment { contents: "note".to_string() });
    let div = element(&mut tree, "div");
    let t = text(&mut tree, "x");
    tree.append_child(div, c);
    tree.append_child(div, t);
    assert_eq!(tree.text_content(c), "note");
    assert_eq!(tree.text_content(div), "x");
    assert_eq!(tree.text_content(NodeId::new(999)), "");
}

#[test]
fn test_reparent_cycle_is_rejected() {
    let mut tree = DomTree::new();
    let doc = tree.document();
    let html = element(&mut tree, "html");
    let body = element(&mut tree, "body");
    let div = element(&mut tree, "div");
    tree.append_child(doc, html);
    tree.append_child(html, body);
    tree.append_child(body, div);

    let before = tree.descendants(doc).len();
    assert_eq!(before, 3);

    tree.append_child(div, html);
    assert_eq!(tree.descendants(doc).len(), before, "cyclic append must be a no-op");
    assert_eq!(tree.descendants(div).len(), 0, "div must stay a leaf");

    tree.insert_before(div, html);
    assert_eq!(tree.descendants(doc).len(), before, "cyclic insert_before must be a no-op");

    tree.append_child(div, div);
    tree.insert_before(div, div);
    assert_eq!(tree.descendants(doc).len(), before);
}

#[test]
fn test_insert_before_previous_sibling_no_cycle() {
    let mut tree = DomTree::new();
    let doc = tree.document();
    let parent = element(&mut tree, "div");
    let a = element(&mut tree, "a");
    let b = element(&mut tree, "b");
    tree.append_child(doc, parent);
    tree.append_child(parent, a);
    tree.append_child(parent, b);

    tree.insert_before(b, a);

    let kids = tree.descendants(parent);
    assert_eq!(kids, vec![a, b], "order preserved, no cycle");
}

#[test]
fn descendants_are_in_document_order() {
    let mut tree = DomTree::new();
    let doc = tree.document();
    let a = element(&mut tree, "a");
    let b = element(&mut tree, "b");
    let c = element(&mut tree, "c");
    let d = element(&mut tree, "d");
    tree.append_child(doc, a);
    tree.append_child(a, b);
    tree.append_child(b, c);
    tree.append_child(doc, d);
    assert_eq!(tree.descendants(doc), vec![a, b, c, d]);
    assert_eq!(tree.descendants(a), vec![b, c]);
    assert!(tree.descendants(NodeId::new(77)).is_empty());
}

#[test]
fn native_shadow_root_keeps_light_and_shadow_tree_scopes_separate() {
    let mut tree = DomTree::new();
    let document = tree.document();
    let host = element(&mut tree, "x-card");
    let light = element(&mut tree, "span");
    tree.append_child(document, host);
    tree.append_child(host, light);

    let root = tree
        .attach_shadow_root(host, ShadowRootMode::Closed)
        .expect("element can host one shadow root");
    let shadow = element(&mut tree, "button");
    tree.append_child(root, shadow);

    assert_eq!(
        tree.shadow_root_info(root),
        Some(ShadowRoot { id: root, host, mode: ShadowRootMode::Closed })
    );
    assert!(tree.is_shadow_root(root));
    assert_eq!(tree.shadow_root(host), Some(root));
    assert_eq!(tree.get_node(root).unwrap().parent, None);
    assert_eq!(tree.children(host), vec![light]);
    assert_eq!(tree.shadow_children(host), Some(vec![shadow]));
    assert_eq!(tree.shadow_descendants(host), Some(vec![shadow]));

    let document_nodes = tree.descendants(document);
    assert!(!document_nodes.contains(&root));
    assert!(!document_nodes.contains(&shadow));
    assert_eq!(tree.tree_scope_root(light), Some(document));
    assert_eq!(tree.tree_scope_root(root), Some(root));
    assert_eq!(tree.tree_scope_root(shadow), Some(root));
    assert_eq!(tree.containing_shadow_root(light), None);
    assert_eq!(tree.containing_shadow_root(shadow), Some(root));
    assert_eq!(tree.shadow_including_root(shadow), Some(document));
    assert_eq!(
        tree.attach_shadow_root(host, ShadowRootMode::Open),
        Err(AttachShadowError::HostAlreadyHasShadowRoot)
    );
}

#[test]
fn attach_shadow_root_needs_an_element_host() {
    let mut tree = DomTree::new();
    let t = text(&mut tree, "x");
    assert_eq!(
        tree.attach_shadow_root(t, ShadowRootMode::Open),
        Err(AttachShadowError::HostIsNotElement)
    );
    assert_eq!(
        tree.attach_shadow_root(NodeId::new(500), ShadowRootMode::Open),
        Err(AttachShadowError::HostIsNotElement)
    );
    assert_eq!(tree.len(), 2);
    assert_eq!(
        AttachShadowError::HostIsNotElement.message(),
        "shadow host is not an element"
    );
}

#[test]
fn shadow_host_edges_participate_in_cycle_rejection() {
    let mut tree = DomTree::new();
    let document = tree.document();
    let host = element(&mut tree, "x-card");
    tree.append_child(document, host);
    let root = tree.attach_shadow_root(host, ShadowRootMode::Open).unwrap();
    let shadow_child = element(&mut tree, "span");
    tree.append_child(root, shadow_child);

    tree.append_child(host, root);
    assert_eq!(tree.get_node(root).unwrap().parent, None);
    assert!(tree.children(host).is_empty());

    tree.append_child(root, host);
    tree.insert_before(shadow_child, host);
    assert_eq!(tree.get_node(host).unwrap().parent, Some(document));
    assert_eq!(tree.children(root), vec![shadow_child]);
}

#[test]
fn connectivity_propagates_across_light_and_shadow_subtrees() {
    let mut tree = DomTree::new();
    let host = element(&mut tree, "x-card");
    let light = element(&mut tree, "span");
    tree.append_child(host, light);
    let root = tree.attach_shadow_root(host, ShadowRootMode::Open).unwrap();
    let shadow = element(&mut tree, "button");
    tree.append_child(root, shadow);
    for node in [host, light, root, shadow] {
        assert!(!tree.is_connected(node));
    }

    let doc = tree.document();
    tree.append_child(doc, host);
    for node in [host, light, root, shadow] {
        assert!(tree.is_connected(node));
    }

    tree.detach(host);
    for node in [host, light, root, shadow] {
        assert!(!tree.is_connected(node));
    }
}

#[test]
fn connectivity_survives_connected_moves_and_root_detach_attempts() {
    let mut tree = DomTree::new();
    let document = tree.document();
    let left = element(&mut tree, "section");
    let right = element(&mut tree, "section");
    let host = element(&mut tree, "x-card");
    let light = element(&mut tree, "span");
    tree.append_child(document, left);
    tree.append_child(document, right);
    tree.append_child(host, light);
    let root = tree.attach_shadow_root(host, ShadowRootMode::Open).unwrap();
    let shadow = element(&mut tree, "button");
    tree.append_child(root, shadow);
    tree.append_child(left, host);

    tree.append_child(right, host);
    assert!(tree.children(left).is_empty());
    assert_eq!(tree.children(right), vec![host]);
    for node in [document, left, right, host, light, root, shadow] {
        assert!(tree.is_connected(node));
    }

    tree.detach(document);
    tree.detach(root);
    for node in [document, left, right, host, light, root, shadow] {
        assert!(tree.is_connected(node));
    }
}

#[test]
fn document_cannot_be_moved_under_a_detached_node() {
    let mut tree = DomTree::new();
    let doc = tree.document();
    let frag = element(&mut tree, "div");
    tree.append_child(frag, doc);
    assert_eq!(tree.get_node(doc).unwrap().parent, None);
    assert!(tree.children(frag).is_empty());
    assert!(tree.is_connected(doc));
}

#[test]
fn remove_out_of_range_id_is_a_noop() {
    let mut tree = DomTree::new();
    tree.remove(NodeId::new(9999));
    assert_eq!(tree.len(), 1);
}

#[test]
fn remove_twice_does_not_alias_slots() {
    let mut tree = DomTree::new();
    let doc = tree.document();
    let a = text(&mut tree, "a");
    tree.append_child(doc, a);
    tree.remove(a);
    tree.remove(a);
    let x = text(&mut tree, "x");
    let y = text(&mut tree, "y");
    assert_ne!(x, y, "double-free aliased two live nodes onto the same slot");
}

#[test]
fn freeing_a_host_reclaims_shadow_nodes_and_registry_entries() {
    let mut tree = DomTree::new();
    let host = element(&mut tree, "x-card");
    let doc = tree.document();
    tree.append_child(doc, host);
    let root = tree.attach_shadow_root(host, ShadowRootMode::Open).unwrap();
    let shadow_host = element(&mut tree, "nested-card");
    tree.append_child(root, shadow_host);
    let nested_root = tree.attach_shadow_root(shadow_host, ShadowRootMode::Closed).unwrap();
    let nested_child = element(&mut tree, "span");
    tree.append_child(nested_root, nested_child);

    assert_eq!(tree.len(), 6);
    tree.remove(host);
    assert_eq!(tree.len(), 1);
    for removed in [host, root, shadow_host, nested_root, nested_child] {
        assert!(tree.get_node(removed).is_none());
        assert!(!tree.is_shadow_root(removed));
    }

    let replacement = element(&mut tree, "div");
    assert_eq!(tree.shadow_root(replacement), None);
    assert_eq!(tree.shadow_root_info(replacement), None);
}

#[test]
fn test_remove_subtree() {
    let mut tree = DomTree::new();
    let doc = tree.document();
    let div = element(&mut tree, "div");
    tree.append_child(doc, div);
    let t = text(&mut tree, "hi");
    tree.append_child(div, t);

    assert_eq!(tree.len(), 3);
    tree.remove(div);
    assert_eq!(tree.len(), 1);
    assert!(tree.children(doc).is_empty());
}

#[test]
fn removing_the_document_or_a_shadow_root() {
    let mut tree = DomTree::new();
    let doc = tree.document();
    let host = element(&mut tree, "x-card");
    tree.append_child(doc, host);
    tree.remove(doc);
    assert_eq!(tree.len(), 2);
    let root = tree.attach_shadow_root(host, ShadowRootMode::Open).unwrap();
    let inner = element(&mut tree, "b");
    tree.append_child(root, inner);
    tree.remove(root);
    assert_eq!(tree.len(), 2);
    assert_eq!(tree.shadow_root(host), None);
    assert!(tree.get_node(inner).is_none());
    assert!(tree.attach_shadow_root(host, ShadowRootMode::Open).is_ok());
}

fn set_attr(tree: &mut DomTree, node: NodeId, name: &str, value: &str) {
    tree.set_node_attribute(node, name, value.to_string());
}

fn element_with_id(tree: &mut DomTree, local: &str, id: &str) -> NodeId {
    tree.new_node(NodeData::Element {
        name: html_name(local),
        attrs: vec![Attribute {
            name: QualName { prefix: None, ns: String::new(), local: "id".to_string() },
            value: id.to_string(),
        }],
        template_contents: None,
        mathml_annotation_xml_integration_point: false,
    })
}

#[test]
fn slot_assignment_uses_exact_names_first_slot_and_fallback_children() {
    let mut tree = DomTree::new();
    let host = element(&mut tree, "x-card");
    let doc = tree.document();
    tree.append_child(doc, host);
    let named = element(&mut tree, "span");
    set_attr(&mut tree, named, "slot", "title");
    let default_text = text(&mut tree, "default");
    tree.append_child(host, named);
    tree.append_child(host, default_text);

    let root = tree.attach_shadow_root(host, ShadowRootMode::Open).unwrap();
    let first_named = element(&mut tree, "slot");
    set_attr(&mut tree, first_named, "name", "title");
    let duplicate_named = element(&mut tree, "slot");
    set_attr(&mut tree, duplicate_named, "name", "title");
    let fallback = element(&mut tree, "b");
    tree.append_child(duplicate_named, fallback);
    let default_slot = element(&mut tree, "slot");
    tree.append_child(root, first_named);
    tree.append_child(root, duplicate_named);
    tree.append_child(root, default_slot);

    assert_eq!(tree.assigned_slot(named), Some(first_named));
    assert_eq!(tree.assigned_slot(default_text), Some(default_slot));
    assert_eq!(tree.slot_rendered_children(first_named), Some(vec![named]));
    assert_eq!(tree.slot_rendered_children(duplicate_named), Some(vec![fallback]));
    assert_eq!(tree.slot_rendered_children(default_slot), Some(vec![default_text]));
}

#[test]
fn slot_lookups_outside_a_shadow_tree() {
    let mut tree = DomTree::new();
    let doc = tree.document();
    let slot = element(&mut tree, "slot");
    tree.append_child(doc, slot);
    let loose = element(&mut tree, "span");
    tree.append_child(doc, loose);
    assert!(tree.is_html_slot_element(slot));
    assert!(!tree.is_html_slot_element(loose));
    assert_eq!(tree.assigned_nodes(slot), None);
    assert_eq!(tree.slot_rendered_children(slot), None);
    assert_eq!(tree.assigned_nodes(loose), None);
    assert_eq!(tree.assigned_slot(loose), None);

    let foreign = tree.new_node(NodeData::Element {
        name: QualName {
            prefix: None,
            ns: "http://www.w3.org/2000/svg".to_string(),
            local: "slot".to_string(),
        },
        attrs: vec![],
        template_contents: None,
        mathml_annotation_xml_integration_point: false,
    });
    assert!(!tree.is_html_slot_element(foreign));

    let host = element(&mut tree, "x-card");
    tree.append_child(doc, host);
    let root = tree.attach_shadow_root(host, ShadowRootMode::Open).unwrap();
    let s = element(&mut tree, "slot");
    tree.append_child(root, s);
    let comment = tree.new_node(NodeData::Comment { contents: "c".to_string() });
    tree.append_child(host, comment);
    assert_eq!(tree.assigned_slot(comment), None);
    assert_eq!(tree.assigned_nodes(s), Some(vec![]));
    assert_eq!(tree.slot_rendered_children(s), Some(vec![]));
}

#[test]
fn document_id_lookup_never_exposes_a_shadow_descendant() {
    let mut tree = DomTree::new();
    let document = tree.document();
    let host = element(&mut tree, "x-card");
    tree.append_child(document, host);
    let root = tree.attach_shadow_root(host, ShadowRootMode::Open).unwrap();

    let shadow_match = element_with_id(&mut tree, "span", "shared");
    tree.append_child(root, shadow_match);
    let light_match = element_with_id(&mut tree, "span", "shared");
    tree.append_child(host, light_match);

    assert_eq!(tree.get_element_by_id("shared"), Some(light_match));
}

#[test]
fn test_get_element_by_id() {
    let mut tree = DomTree::new();
    let doc = tree.document();
    let div = element_with_id(&mut tree, "div", "main");
    tree.append_child(doc, div);

    assert_eq!(tree.get_element_by_id("main"), Some(div));
    assert_eq!(tree.get_element_by_id("nonexistent"), None);
}

#[test]
fn test_append_text_merges() {
    let mut tree = DomTree::new();
    let doc = tree.document();
    tree.append_text(doc, "Hello ");
    tree.append_text(doc, "World");

    assert_eq!(tree.children(doc).len(), 1);
    assert_eq!(tree.text_content(doc), "Hello World");
}

fn four_node_walk(tree: &mut DomTree) -> (NodeId, NodeId, NodeId, NodeId) {
    let root = text(tree, "root");
    let first = text(tree, "first");
    let nested = text(tree, "nested");
    let second = text(tree, "second");
    let doc = tree.document();
    tree.append_child(doc, root);
    tree.append_child(root, first);
    tree.append_child(first, nested);
    tree.append_child(root, second);
    (root, first, nested, second)
}

#[test]
fn test_next_in_subtree_follows_document_order_and_stays_within_root() {
    let mut tree = DomTree::new();
    let (root, first, nested, second) = four_node_walk(&mut tree);

    assert_eq!(tree.next_in_subtree(root, root), Some(first));
    assert_eq!(tree.next_in_subtree(root, first), Some(nested));
    assert_eq!(tree.next_in_subtree(root, nested), Some(second));
    assert_eq!(tree.next_in_subtree(root, second), None);
}

#[test]
fn test_next_after_subtree_skips_descendants() {
    let mut tree = DomTree::new();
    let (root, first, nested, second) = four_node_walk(&mut tree);

    assert_eq!(tree.next_after_subtree(root, first), Some(second));
    assert_eq!(tree.next_after_subtree(root, nested), Some(second));
    assert_eq!(tree.next_after_subtree(root, second), None);
    assert_eq!(tree.next_after_subtree(root, root), None);
}

#[test]
fn test_prev_in_subtree_reverses_document_order() {
    let mut tree = DomTree::new();
    let (root, first, nested, second) = four_node_walk(&mut tree);

    assert_eq!(tree.prev_in_subtree(root, second), Some(nested));
    assert_eq!(tree.prev_in_subtree(root, nested), Some(first));
    assert_eq!(tree.prev_in_subtree(root, first), Some(root));
    assert_eq!(tree.prev_in_subtree(root, root), None);
}

#[test]
fn walking_forward_from_the_document_leaves_no_subtree() {
    let mut tree = DomTree::new();
    let (_root, _first, _nested, second) = four_node_walk(&mut tree);
    let doc = tree.document();
    assert_eq!(tree.next_in_subtree(doc, second), None);
    assert_eq!(tree.next_in_subtree(doc, NodeId::new(500)), None);
    assert_eq!(tree.prev_in_subtree(doc, NodeId::new(500)), None);
}

fn build_deep_chain(tree: &mut DomTree, depth: usize) -> (NodeId, NodeId) {
    let root = element(tree, "div");
    let doc = tree.document();
    tree.append_child(doc, root);
    let mut cur = root;
    for _ in 1..depth {
        let next = element(tree, "div");
        tree.append_child(cur, next);
        cur = next;
    }
    (root, cur)
}

#[test]
fn test_text_content_deeply_nested_does_not_overflow() {
    let mut tree = DomTree::new();
    let (root, leaf) = build_deep_chain(&mut tree, 100_000);
    let marker = text(&mut tree, "deep");
    tree.append_child(leaf, marker);

    assert_eq!(tree.text_content(root), "deep");
}

#[test]
fn cloning_a_host_omits_its_shadow_tree_and_a_root_is_not_clonable() {
    let mut tree = DomTree::new();
    let host = element(&mut tree, "x-card");
    let light = element(&mut tree, "span");
    tree.append_child(host, light);
    let root = tree.attach_shadow_root(host, ShadowRootMode::Open).unwrap();
    let button = element(&mut tree, "button");
    tree.append_child(root, button);

    assert_eq!(tree.clone_node(root, true), None);
    let clone = tree.clone_node(host, true).expect("host itself is clonable");
    assert_eq!(tree.shadow_root(clone), None);
    assert_eq!(tree.children(clone).len(), 1);
}

#[test]
fn test_import_deeply_nested_does_not_overflow() {
    let mut source = DomTree::new();
    build_deep_chain(&mut source, 100_000);

    let mut dest = DomTree::new();
    let dest_doc = dest.document();
    let source_doc = source.document();
    dest.import_children_from(dest_doc, &source, source_doc);

    assert!(dest.len() >= 100_000);
}

#[test]
fn shallow_and_deep_clones() {
    let mut tree = DomTree::new();
    let doc = tree.document();
    let div = element(&mut tree, "div");
    tree.append_child(doc, div);
    let a = text(&mut tree, "a");
    let b = element(&mut tree, "b");
    let c = text(&mut tree, "c");
    tree.append_child(div, a);
    tree.append_child(div, b);
    tree.append_child(b, c);

    let shallow = tree.clone_node(div, false).unwrap();
    assert!(tree.children(shallow).is_empty());
    assert_eq!(tree.get_node(shallow).unwrap().parent, None);

    let deep = tree.clone_node(div, true).unwrap();
    assert_eq!(tree.get_node(deep).unwrap().parent, None);
    assert_eq!(tree.text_content(deep), "ac");
    let kids = tree.children(deep);
    assert_eq!(kids.len(), 2);
    assert_ne!(kids[1], b);
    assert_eq!(tree.children(kids[1]).len(), 1);
    assert_eq!(tree.children(div), vec![a, b]);
    assert_eq!(tree.clone_node(NodeId::new(999), true), None);
}

#[test]
fn cloned_and_imported_templates_get_their_own_contents() {
    let mut tree = DomTree::new();
    let doc = tree.document();
    let template = element(&mut tree, "template");
    tree.append_child(doc, template);
    let contents = tree.template_contents(template).unwrap();
    let inner = text(&mut tree, "inside");
    tree.append_child(contents, inner);

    let copy = tree.clone_node(template, true).unwrap();
    let copy_contents = tree.template_contents(copy).unwrap();
    assert_ne!(copy_contents, contents);
    assert_eq!(tree.text_content(copy_contents), "inside");

    let shallow = tree.clone_node(template, false).unwrap();
    let shallow_contents = tree.template_contents(shallow).unwrap();
    assert_ne!(shallow_contents, contents);
    assert!(tree.children(shallow_contents).is_empty());

    let mut dest = DomTree::new();
    let dest_doc = dest.document();
    let imported = dest.import_node_from(dest_doc, &tree, template).unwrap();
    assert_eq!(dest.children(dest_doc), vec![imported]);
    let imported_contents = dest.template_contents(imported).unwrap();
    assert_eq!(dest.text_content(imported_contents), "inside");
    assert_eq!(dest.import_node_from(dest_doc, &tree, NodeId::new(999)), None);
}
