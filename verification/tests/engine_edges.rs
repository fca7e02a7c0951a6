use obscura::cli::exit_ip_text;
use obscura::dom_ops::dispatch::op_dom;
use obscura::dom_ops::{DocumentInfo, DomReply};
use obscura::image_load::{image_request_profile, ImageRequestProfile};
use obscura::mutation_impact::RenderMutationImpact;
use obscura::realm::{check_timezone_name, is_same_origin_as, TimezoneNameError};
use obscura::scripts::StartedScripts;
use obscura::tree::{DomTree, NodeData, NodeId, QualName};

fn element(tree: &mut DomTree, local: &str) -> NodeId {
    tree.new_node(NodeData::Element {
        name: QualName {
            prefix: None,
            ns: "http://www.w3.org/1999/xhtml".to_string(),
            local: local.to_string(),
        },
        attrs: vec![],
        template_contents: None,
        mathml_annotation_xml_integration_point: false,
    })
}

fn info() -> DocumentInfo {
    DocumentInfo {
        url: "https://example.com/".to_string(),
        referrer: String::new(),
        encoding: "UTF-8".to_string(),
    }
}

#[test]
fn dom_commands_without_a_document_answer_null() {
    let mut dom: Option<DomTree> = None;
    let mut started = StartedScripts::new();
    for cmd in ["document_node_id", "append_child", "create_element", "no_such_command"] {
        let (impact, reply) = op_dom(&mut dom, &mut started, &info(), cmd, "1", "2");
        assert_eq!(impact, RenderMutationImpact { connected: false, actual_change: false });
        assert!(matches!(reply, DomReply::Null));
        assert!(dom.is_none());
    }
    let mut dom = Some(DomTree::new());
    let (_, reply) = op_dom(&mut dom, &mut started, &info(), "document_node_id", "", "");
    assert!(matches!(reply, DomReply::Int(0)));
}

#[test]
fn new_nodes_reuse_the_slot_freed_last() {
    let mut tree = DomTree::new();
    let doc = tree.document();
    let a = element(&mut tree, "a");
    let b = element(&mut tree, "b");
    tree.append_child(doc, a);
    tree.append_child(doc, b);
    tree.remove(a);
    tree.remove(b);
    let c = element(&mut tree, "c");
    assert_eq!(c, b);
    let d = element(&mut tree, "d");
    assert_eq!(d, a);
    let e = element(&mut tree, "e");
    assert_eq!(e.0, b.0 + 1);
}

#[test]
fn append_text_merges_and_keeps_the_rest() {
    let mut tree = DomTree::new();
    let doc = tree.document();
    let p = element(&mut tree, "p");
    tree.append_child(doc, p);
    tree.append_text(p, "Hello ");
    tree.append_text(p, "World");
    assert_eq!(tree.children(p).len(), 1);
    assert_eq!(tree.text_content(p), "Hello World");
    let b = element(&mut tree, "b");
    tree.append_child(p, b);
    tree.append_text(p, "!");
    assert_eq!(tree.children(p).len(), 3);
    assert_eq!(tree.text_content(p), "Hello World!");
}

#[test]
fn frame_origins_and_timezone_names() {
    assert!(is_same_origin_as("https://a.test", "https://a.test"));
    assert!(!is_same_origin_as("https://a.test", "https://b.test"));
    assert!(!is_same_origin_as("null", "null"));
    assert_eq!(check_timezone_name("Europe/Paris"), Ok(()));
    assert_eq!(check_timezone_name(""), Err(TimezoneNameError::EmptyOrNul));
    assert_eq!(check_timezone_name("UTC\0x"), Err(TimezoneNameError::EmptyOrNul));
    assert_eq!(TimezoneNameError::EmptyOrNul.message(), "timezone must be a non-empty IANA name");
}

#[test]
fn exit_ip_answer_is_trimmed_and_bounded() {
    assert_eq!(exit_ip_text(" 203.0.113.7\n").as_deref(), Some("203.0.113.7"));
    assert_eq!(exit_ip_text(&"1".repeat(128)).map(|s| s.len()), Some(128));
    assert_eq!(exit_ip_text(&"1".repeat(129)), None);
}

#[test]
fn image_profiles_follow_crossorigin() {
    let mut tree = DomTree::new();
    let doc = tree.document();
    let plain = element(&mut tree, "img");
    tree.append_child(doc, plain);
    let cred = element(&mut tree, "img");
    tree.append_child(doc, cred);
    tree.set_node_attribute(cred, "crossorigin", " Use-Credentials ".to_string());
    let anon = element(&mut tree, "img");
    tree.append_child(doc, anon);
    tree.set_node_attribute(anon, "crossorigin", "".to_string());
    assert_eq!(image_request_profile(&tree, plain), ImageRequestProfile::NoCorsInclude);
    assert_eq!(image_request_profile(&tree, cred), ImageRequestProfile::CorsInclude);
    assert_eq!(image_request_profile(&tree, anon), ImageRequestProfile::CorsSameOrigin);
}
