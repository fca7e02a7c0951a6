use obscura::scripts::{script_nodes_including_template_contents, StartedScripts};
use obscura::tree::{DomTree, NodeData, NodeId, QualName};

fn element(tree: &mut DomTree, local: &str) -> NodeId {
    tree.new_node(NodeData::Element {
        name: QualName {
            prefix: None,
            ns: "http://www.w3.org/1999/xhtml".to_string(),
            local: local.to_string(),
        },
        attrs: vec![],
        template_contents: None,
        mathml_annotation_xml_integration_point: false,
    })
}

struct Page {
    tree: DomTree,
    s1: NodeId,
    s2: NodeId,
    s3: NodeId,
    div: NodeId,
}

fn page() -> Page {
    let mut tree = DomTree::new();
    let doc = tree.document();
    let s1 = element(&mut tree, "script");
    let template = element(&mut tree, "template");
    let div = element(&mut tree, "div");
    tree.append_child(doc, s1);
    tree.append_child(doc, template);
    tree.append_child(doc, div);
    let contents = tree.template_contents(template).unwrap();
    let s2 = element(&mut tree, "SCRIPT");
    tree.append_child(contents, s2);
    let s3 = element(&mut tree, "script");
    tree.append_child(div, s3);
    Page { tree, s1, s2, s3, div }
}

#[test]
fn scripts_are_listed_in_document_order_with_template_contents() {
    let p = page();
    let doc = p.tree.document();
    assert_eq!(script_nodes_including_template_contents(&p.tree, doc), vec![p.s1, p.s2, p.s3]);
    assert_eq!(script_nodes_including_template_contents(&p.tree, p.div), vec![p.s3]);
    assert_eq!(script_nodes_including_template_contents(&p.tree, p.s3), vec![p.s3]);
    assert!(script_nodes_including_template_contents(&p.tree, NodeId::new(999)).is_empty());
}

#[test]
fn a_script_starts_at_most_once() {
    let p = page();
    let mut started = StartedScripts::new();
    assert!(started.try_start(&p.tree, p.s1));
    assert!(!started.try_start(&p.tree, p.s1));
    assert!(!started.try_start(&p.tree, p.div));
    assert!(!started.contains(p.div));
    assert!(started.mark_started(&p.tree, p.s2));
    assert!(!started.try_start(&p.tree, p.s2));
    assert!(!started.mark_started(&p.tree, p.div));
}

#[test]
fn marking_a_subtree_marks_every_script_in_it() {
    let p = page();
    let mut started = StartedScripts::new();
    started.mark_script_subtree_started(&p.tree, p.tree.document());
    assert!(started.contains(p.s1));
    assert!(started.contains(p.s2));
    assert!(started.contains(p.s3));
    assert!(!started.contains(p.div));
}

#[test]
fn clones_of_started_scripts_are_started() {
    let mut p = page();
    let mut started = StartedScripts::new();
    assert!(started.try_start(&p.tree, p.s3));
    let copy = p.tree.clone_node(p.div, true).unwrap();
    let copy_script = p.tree.children(copy)[0];
    assert!(!started.contains(copy_script));
    started.propagate_script_start_state(&p.tree, p.div, copy);
    assert!(started.contains(copy_script));
    assert!(!started.try_start(&p.tree, copy_script));
    assert!(!started.contains(copy));
}
