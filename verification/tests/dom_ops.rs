use obscura::dom_ops::dispatch::op_dom_inner;
use obscura::dom_ops::read::collapse_ws;
use obscura::dom_ops::{DocumentInfo, DomReply};
use obscura::mutation_impact::RenderMutationImpact;
use obscura::scripts::StartedScripts;
use obscura::tree::{DomTree, NodeData, NodeId, QualName};

fn element(tree: &mut DomTree, local: &str) -> NodeId {
    tree.new_node(NodeData::Element {
        name: QualName {
            prefix: None,
            ns: "http://www.w3.org/1999/xhtml".to_string(),
            local: local.to_string(),
        },
        attrs: vec![],
        template_contents: None,
        mathml_annotation_xml_integration_point: false,
    })
}

struct Page {
    tree: DomTree,
    started: StartedScripts,
    info: DocumentInfo,
    html: NodeId,
    body: NodeId,
    div: NodeId,
    text: NodeId,
}

/// document > (doctype, html > body > (div > "hello", span))
fn page() -> Page {
    let mut tree = DomTree::new();
    let doc = tree.document();
    let doctype = tree.new_node(NodeData::Doctype {
        name: "html".to_string(),
        public_id: String::new(),
        system_id: String::new(),
    });
    let html = element(&mut tree, "html");
    let body = element(&mut tree, "body");
    let div = element(&mut tree, "div");
    let span = element(&mut tree, "span");
    let text = tree.new_node(NodeData::Text { contents: "hello".to_string() });
    tree.append_child(doc, doctype);
    tree.append_child(doc, html);
    tree.append_child(html, body);
    tree.append_child(body, div);
    tree.append_child(body, span);
    tree.append_child(div, text);
    Page {
        tree,
        started: StartedScripts::new(),
        info: DocumentInfo {
            url: "https://example.com/".to_string(),
            referrer: String::new(),
            encoding: "UTF-8".to_string(),
        },
        html,
        body,
        div,
        text,
    }
}

fn run(p: &mut Page, cmd: &str, a1: &str, a2: &str) -> DomReply {
    op_dom_inner(&mut p.tree, &mut p.started, &p.info, cmd, a1, a2).1
}

fn int_of(r: DomReply) -> i64 {
    match r {
        DomReply::Int(v) => v,
        other => panic!("expected an integer reply, got {:?}", other),
    }
}

fn boolean(r: DomReply) -> bool {
    match r {
        DomReply::Bool(v) => v,
        other => panic!("expected a boolean reply, got {:?}", other),
    }
}

fn text(r: DomReply) -> String {
    match r {
        DomReply::Text(v) => v,
        other => panic!("expected a text reply, got {:?}", other),
    }
}

fn ids(r: DomReply) -> Vec<u32> {
    match r {
        DomReply::Ids(v) => v,
        other => panic!("expected an id list, got {:?}", other),
    }
}

fn id(n: NodeId) -> String {
    n.0.to_string()
}

#[test]
fn document_readings_come_from_the_tree_and_the_page() {
    let mut p = page();
    assert_eq!(int_of(run(&mut p, "document_node_id", "", "")), 0);
    assert_eq!(int_of(run(&mut p, "document_element", "", "")), p.html.0 as i64);
    assert_eq!(text(run(&mut p, "document_url", "", "")), "https://example.com/");
    assert_eq!(text(run(&mut p, "document_encoding", "", "")), "UTF-8");
    match run(&mut p, "document_doctype", "", "") {
        DomReply::Doctype { name, node_id, .. } => {
            assert_eq!(name, "html");
            assert_eq!(node_id, 1);
        }
        other => panic!("expected a doctype, got {:?}", other),
    }
}

#[test]
fn node_type_and_names() {
    let mut p = page();
    let div = id(p.div);
    let t = id(p.text);
    assert_eq!(int_of(run(&mut p, "node_type", &div, "")), 1);
    assert_eq!(int_of(run(&mut p, "node_type", &t, "")), 3);
    assert_eq!(int_of(run(&mut p, "node_type", "0", "")), 9);
    assert_eq!(int_of(run(&mut p, "node_type", "999", "")), 0);
    assert_eq!(text(run(&mut p, "node_name", &div, "")), "DIV");
    assert_eq!(text(run(&mut p, "node_name", &t, "")), "#text");
    assert_eq!(text(run(&mut p, "tag_name", &div, "")), "DIV");
    assert_eq!(text(run(&mut p, "local_name", &div, "")), "div");
    assert_eq!(
        text(run(&mut p, "namespace_uri", &div, "")),
        "http://www.w3.org/1999/xhtml"
    );
}

#[test]
fn links_and_walks() {
    let mut p = page();
    let body = id(p.body);
    let div = id(p.div);
    assert_eq!(int_of(run(&mut p, "parent_node", &div, "")), p.body.0 as i64);
    assert_eq!(int_of(run(&mut p, "first_child", &body, "")), p.div.0 as i64);
    assert_eq!(int_of(run(&mut p, "prev_sibling", &div, "")), -1);
    assert_eq!(ids(run(&mut p, "child_nodes", &div, "")), vec![p.text.0]);
    assert_eq!(ids(run(&mut p, "element_children", &div, "")).len(), 0);
    assert_eq!(ids(run(&mut p, "element_children", &body, "")).len(), 2);
    assert_eq!(int_of(run(&mut p, "next_in_subtree", &body, &div)), p.text.0 as i64);
    assert_eq!(int_of(run(&mut p, "node_index", &div, "")), 0);
    assert!(boolean(run(&mut p, "has_child_nodes", &div, "")));
    let t = id(p.text);
    assert!(boolean(run(&mut p, "contains", &body, &t)));
    assert!(!boolean(run(&mut p, "contains", &div, &body)));
    assert!(boolean(run(&mut p, "is_connected", &div, "")));
    assert_eq!(int_of(run(&mut p, "compare_order", &div, &body)), 1);
    assert_eq!(int_of(run(&mut p, "node_root", &div, "")), 0);
    assert_eq!(text(run(&mut p, "text_content", &body, "")), "hello");
}

#[test]
fn attributes_and_the_id_index() {
    let mut p = page();
    let div = id(p.div);
    assert!(boolean(run(&mut p, "set_attribute", &div, "id\0main")));
    assert_eq!(int_of(run(&mut p, "get_element_by_id", "main", "")), p.div.0 as i64);
    match run(&mut p, "get_attribute", &div, "id") {
        DomReply::OptText(Some(v)) => assert_eq!(v, "main"),
        other => panic!("expected the id value, got {:?}", other),
    }
    match run(&mut p, "attribute_names", &div, "") {
        DomReply::Names(v) => assert_eq!(v, vec!["id".to_string()]),
        other => panic!("expected attribute names, got {:?}", other),
    }
    assert!(boolean(run(&mut p, "remove_attribute_ns", &div, "\0id")));
    assert_eq!(int_of(run(&mut p, "get_element_by_id", "main", "")), -1);
    assert!(boolean(run(&mut p, "set_attribute_ns", &div, "urn:x\0x:lang\0en")));
    match run(&mut p, "get_attribute_ns", &div, "urn:x\0lang") {
        DomReply::OptText(Some(v)) => assert_eq!(v, "en"),
        other => panic!("expected the namespaced value, got {:?}", other),
    }
    assert!(boolean(run(&mut p, "remove_attribute", &div, "x:lang")));
    assert!(matches!(run(&mut p, "get_attribute_ns", &div, "urn:x\0lang"), DomReply::OptText(None)));
}

#[test]
fn structural_commands_refuse_unparsed_ids() {
    let mut p = page();
    let div = id(p.div);
    let before = p.tree.children(p.body);
    assert!(!boolean(run(&mut p, "append_child", "undefined", &div)));
    assert!(!boolean(run(&mut p, "remove_child", "", "")));
    assert!(!boolean(run(&mut p, "insert_before", &div, "x")));
    assert_eq!(p.tree.children(p.body), before);
}

#[test]
fn structural_commands_report_the_new_parent() {
    let mut p = page();
    let html = id(p.html);
    let div = id(p.div);
    let body = id(p.body);
    assert!(boolean(run(&mut p, "append_child", &html, &div)));
    assert_eq!(p.tree.children(p.html), vec![p.body, p.div]);
    assert!(boolean(run(&mut p, "insert_before", &div, &body)));
    assert_eq!(p.tree.children(p.html), vec![p.div, p.body]);
    // A node cannot become its own child.
    assert!(!boolean(run(&mut p, "append_child", &div, &div)));
    assert!(boolean(run(&mut p, "remove_child", &div, "")));
    assert!(!boolean(run(&mut p, "remove_child", &div, "")));
    assert_eq!(p.tree.children(p.html), vec![p.body]);
}

#[test]
fn creation_commands_make_detached_nodes() {
    let mut p = page();
    let e = int_of(run(&mut p, "create_element", "section", ""));
    assert!(e > 0);
    let e = e.to_string();
    assert_eq!(text(run(&mut p, "tag_name", &e, "")), "SECTION");
    assert_eq!(int_of(run(&mut p, "parent_node", &e, "")), -1);
    let svg = int_of(run(&mut p, "create_element_ns", "http://www.w3.org/2000/svg\0svg:rect", ""));
    assert_eq!(text(run(&mut p, "tag_name", &svg.to_string(), "")), "svg:rect");
    assert_eq!(int_of(run(&mut p, "create_element_ns", "urn:x\0:rect", "")), -1);
    assert_eq!(int_of(run(&mut p, "create_element_ns", "urn:x\0", "")), -1);
    let t = int_of(run(&mut p, "create_text_node", "abc", "")).to_string();
    assert_eq!(text(run(&mut p, "text_content", &t, "")), "abc");
    assert!(boolean(run(&mut p, "set_text_content", &t, "xyz")));
    assert_eq!(text(run(&mut p, "text_content", &t, "")), "xyz");
    let pi = int_of(run(&mut p, "create_processing_instruction", "target", "data")).to_string();
    assert_eq!(text(run(&mut p, "pi_target", &pi, "")), "target");
    let dt = int_of(run(&mut p, "create_doctype", "html", "pub")).to_string();
    assert_eq!(text(run(&mut p, "doctype_public_id", &dt, "")), "pub");
    let frag = int_of(run(&mut p, "create_document_fragment", "", "")).to_string();
    assert_eq!(int_of(run(&mut p, "node_type", &frag, "")), 9);
}

#[test]
fn template_contents_are_made_once() {
    let mut p = page();
    let t = int_of(run(&mut p, "create_element", "template", "")).to_string();
    let c1 = int_of(run(&mut p, "template_contents", &t, ""));
    let c2 = int_of(run(&mut p, "template_contents", &t, ""));
    assert!(c1 > 0);
    assert_eq!(c1, c2);
    let div = id(p.text);
    assert_eq!(int_of(run(&mut p, "template_contents", &div, "")), -1);
}

#[test]
fn clone_node_copies_started_scripts() {
    let mut p = page();
    let script = element(&mut p.tree, "script");
    p.tree.append_child(p.div, script);
    p.started.insert(script);
    let div = id(p.div);
    let copy = int_of(run(&mut p, "clone_node", &div, "true"));
    assert!(copy > 0);
    let kids = ids(run(&mut p, "child_nodes", &copy.to_string(), ""));
    assert_eq!(kids.len(), 2);
    assert!(p.started.contains(NodeId(kids[1])));
    let shallow = int_of(run(&mut p, "clone_node", &div, "false"));
    assert_eq!(ids(run(&mut p, "child_nodes", &shallow.to_string(), "")).len(), 0);
    assert_eq!(int_of(run(&mut p, "clone_node", "nope", "true")), -1);
}

#[test]
fn document_title_collapses_whitespace() {
    let mut p = page();
    assert_eq!(text(run(&mut p, "document_title", "", "")), "");
    let head = element(&mut p.tree, "head");
    let title = element(&mut p.tree, "title");
    let t = p.tree.new_node(NodeData::Text { contents: "  Hello \n\t World  ".to_string() });
    p.tree.append_child(title, t);
    p.tree.append_child(head, title);
    p.tree.insert_before(p.body, head);
    assert_eq!(text(run(&mut p, "document_title", "", "")), "Hello World");
    assert_eq!(collapse_ws(" a  b\x0Cc "), "a b c");
    assert_eq!(collapse_ws("\r\n"), "");
}

#[test]
fn selector_and_markup_commands_are_not_handled_here() {
    let mut p = page();
    assert!(matches!(run(&mut p, "query_selector", "div", ""), DomReply::NotHandled));
    assert!(matches!(run(&mut p, "outer_html", "1", ""), DomReply::NotHandled));
    assert!(matches!(run(&mut p, "no_such_command", "1", ""), DomReply::Null));
}

#[test]
fn impact_is_judged_before_the_command() {
    let mut p = page();
    let div = id(p.div);
    let (impact, _) = op_dom_inner(&mut p.tree, &mut p.started, &p.info, "set_attribute", &div, "title\0x");
    assert_eq!(impact, RenderMutationImpact { connected: true, actual_change: true });
    let (impact, _) = op_dom_inner(&mut p.tree, &mut p.started, &p.info, "set_attribute", &div, "title\0x");
    assert_eq!(impact, RenderMutationImpact { connected: true, actual_change: false });
    let (impact, _) = op_dom_inner(&mut p.tree, &mut p.started, &p.info, "node_type", &div, "");
    assert_eq!(impact, RenderMutationImpact { connected: false, actual_change: false });
}
