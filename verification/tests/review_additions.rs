use obscura::cli::{contains_bytes, route_connection, ServeRoute};
use obscura::fetch_policy::{fetch_target, UrlHost};
use obscura::image_load::{image_load_step, image_response_outcome, ImageLoadStep, ImageOutcome};
use obscura::module_activity::ModuleLoadActivity;
use obscura::origin_storage::OriginStorage;
use obscura::tree::{DomTree, NodeData, NodeId, QualName};
use obscura::watchdog::{arm, disarm, watchdog_loop, WatchdogState};

fn element(tree: &mut DomTree, local: &str) -> NodeId {
    tree.new_node(NodeData::Element {
        name: QualName {
            prefix: None,
            ns: "http://www.w3.org/1999/xhtml".to_string(),
            local: local.to_string(),
        },
        attrs: vec![],
        template_contents: None,
        mathml_annotation_xml_integration_point: false,
    })
}

#[test]
fn balancer_rotates_over_worker_ports() {
    let (p, n, r) = route_connection(9222, 3, 0, b"GET /json/version HTTP/1.1\r\n");
    assert_eq!((p, n, r), (9223, 1, ServeRoute::Json));
    let (p, n, r) = route_connection(9222, 3, 4, b"GET /devtools/page/1 HTTP/1.1\r\n");
    assert_eq!((p, n, r), (9224, 5, ServeRoute::Proxy));
    let (p, n, _) = route_connection(9222, 3, u16::MAX, b"");
    assert_eq!((p, n), (9222 + 1 + (u16::MAX % 3), 0));
    assert_eq!(route_connection(9222, 1, 0, b"POST /json HTTP/1.1").2, ServeRoute::Proxy);
    assert_eq!(route_connection(9222, 1, 0, b"GET /js").2, ServeRoute::Proxy);
    assert!(contains_bytes(b"abc/json", b"/json"));
    assert!(!contains_bytes(b"/jso", b"/json"));
    assert!(contains_bytes(b"", b""));
}

#[test]
fn image_steps_follow_cache_and_in_flight_state() {
    let mut tree = DomTree::new();
    let doc = tree.document();
    let img = element(&mut tree, "img");
    tree.append_child(doc, img);
    let div = element(&mut tree, "div");
    tree.append_child(doc, div);
    let blocked = vec!["*.png".to_string()];
    let url = "https://a.test/x.png".to_string();
    assert!(matches!(image_load_step(&tree, div, &blocked, Some((url.clone(), false)), false), ImageLoadStep::Stale));
    assert!(matches!(image_load_step(&tree, NodeId(999), &blocked, None, false), ImageLoadStep::Stale));
    assert!(matches!(image_load_step(&tree, img, &blocked, None, false), ImageLoadStep::Error));
    assert!(matches!(image_load_step(&tree, img, &blocked, Some((url.clone(), true)), false), ImageLoadStep::Cached));
    match image_load_step(&tree, img, &blocked, Some((url.clone(), false)), true) {
        ImageLoadStep::Follow { url: u } => assert_eq!(u, url),
        _ => panic!("expected follow"),
    }
    match image_load_step(&tree, img, &blocked, Some((url.clone(), false)), false) {
        ImageLoadStep::Lead { url: u, blocked } => {
            assert_eq!(u, url);
            assert!(blocked);
        }
        _ => panic!("expected lead"),
    }
    match image_load_step(&tree, img, &vec![], Some((url.clone(), false)), false) {
        ImageLoadStep::Lead { blocked, .. } => assert!(!blocked),
        _ => panic!("expected lead"),
    }
    assert_eq!(image_response_outcome(Some(200), true, true), ImageOutcome::Seed);
    assert_eq!(image_response_outcome(Some(299), false, true), ImageOutcome::Missing);
    assert_eq!(image_response_outcome(Some(404), true, true), ImageOutcome::Missing);
    assert_eq!(image_response_outcome(None, true, true), ImageOutcome::Missing);
    assert_eq!(image_response_outcome(Some(200), true, false), ImageOutcome::Ignore);
}

#[test]
fn fetch_target_reads_scheme_and_host_kind() {
    let t = fetch_target("https://Example.COM/path").unwrap();
    assert_eq!(t.scheme, "https");
    assert!(matches!(t.host, Some(UrlHost::Domain(ref d)) if d == "example.com"));
    let t = fetch_target("http://10.0.0.1:8080/").unwrap();
    assert!(matches!(t.host, Some(UrlHost::Ipv4(ref a)) if a == "10.0.0.1"));
    let t = fetch_target("http://[::1]/").unwrap();
    assert!(matches!(t.host, Some(UrlHost::Ipv6(ref a)) if a == "::1"));
    let t = fetch_target("file:///etc/hosts").unwrap();
    assert_eq!(t.scheme, "file");
    assert!(t.host.is_none());
    assert!(fetch_target("not a url").is_none());
}

#[test]
fn watchdog_forgets_fired_slots_and_keeps_the_flag_for_disarm() {
    let mut w = WatchdogState::new();
    let a = arm(&mut w, 0, 10);
    let b = arm(&mut w, 0, 100);
    let tick = watchdog_loop(&mut w, 10);
    assert_eq!(tick.expired, vec![a.gen]);
    assert_eq!(tick.wait, Some(90));
    let c = arm(&mut w, 10, 5);
    assert_eq!(c.gen, 3);
    let tick = watchdog_loop(&mut w, 50);
    assert_eq!(tick.expired, vec![3]);
    assert_eq!(tick.wait, Some(50));
    assert!(disarm(&mut w, a));
    assert!(!disarm(&mut w, b));
    let tick = watchdog_loop(&mut w, 1000);
    assert!(tick.expired.is_empty());
    assert_eq!(tick.wait, None);
    assert!(disarm(&mut w, c));
}

#[test]
fn storage_reads_survive_calls_on_other_items() {
    let mut s = OriginStorage::new();
    assert!(s.set("o", "k".to_string(), "v".to_string()));
    assert!(s.set("o", "other".to_string(), "1".to_string()));
    assert!(s.set("p", "k".to_string(), "2".to_string()));
    s.remove("o", "other");
    s.clear("p");
    s.remove("o", "missing");
    assert_eq!(s.get("o", "k").as_deref(), Some("v"));
}

#[test]
fn storage_remove_and_clear_free_bytes_and_origin_slots() {
    let mut s = OriginStorage::new();
    let big = "x".repeat(5_000_000);
    for i in 0..6 {
        assert!(s.set(&format!("o{i}"), "k".to_string(), big.clone()));
    }
    assert!(!s.set("o6", "k".to_string(), big.clone()));
    s.remove("o0", "k");
    assert!(s.set("o6", "k".to_string(), big.clone()));
    assert!(!s.set("o7", "k".to_string(), big.clone()));
    s.clear("o1");
    assert!(s.set("o7", "k".to_string(), big.clone()));

    let mut t = OriginStorage::new();
    for i in 0..256 {
        assert!(t.set(&format!("o{i}"), "k".to_string(), "v".to_string()));
    }
    assert!(!t.set("new", "k".to_string(), "v".to_string()));
    t.clear("o3");
    assert!(t.set("new", "k".to_string(), "v".to_string()));
    t.remove("o4", "k");
    assert!(t.set("new2", "k".to_string(), "v".to_string()));
}

#[test]
fn module_loads_in_flight_track_held_guards() {
    let mut m = ModuleLoadActivity::new();
    let g1 = m.begin(10);
    let g2 = m.begin(20);
    m.end(g1, 30);
    assert!(m.is_pending_or_recent(1_000_000, 0));
    m.end(g2, 40);
    assert!(!m.is_pending_or_recent(1_000, 100));
    assert!(m.is_pending_or_recent(140, 100));
}

#[test]
fn prev_and_next_retrace_each_other() {
    let mut tree = DomTree::new();
    let doc = tree.document();
    let root = element(&mut tree, "div");
    tree.append_child(doc, root);
    let a = element(&mut tree, "p");
    tree.append_child(root, a);
    let a1 = element(&mut tree, "b");
    tree.append_child(a, a1);
    let a2 = element(&mut tree, "i");
    tree.append_child(a, a2);
    let b = element(&mut tree, "p");
    tree.append_child(root, b);
    let order = [root, a, a1, a2, b];
    for w in order.windows(2) {
        assert_eq!(tree.next_in_subtree(root, w[0]), Some(w[1]));
        assert_eq!(tree.prev_in_subtree(root, w[1]), Some(w[0]));
    }
    assert_eq!(tree.next_in_subtree(root, b), None);
    assert_eq!(tree.prev_in_subtree(root, root), None);
}

use obscura::style_queue::{
    queue_retained_style_mutation, retained_style_mutation, AttributeStyleMutation,
    StyleMutation, TreeStyleMutation, MAX_PENDING_STYLE_MUTATIONS,
};

fn attr(node: u32, name: &str, old: Option<&str>, new: Option<&str>) -> StyleMutation {
    StyleMutation::Attribute(AttributeStyleMutation {
        node: NodeId(node),
        name: name.to_string(),
        old_value: old.map(str::to_string),
        new_value: new.map(str::to_string),
    })
}

#[test]
fn style_queue_coalesces_repeated_writes() {
    let mut q = Vec::new();
    assert!(queue_retained_style_mutation(&mut q, attr(1, "class", Some("a"), Some("b"))));
    assert!(queue_retained_style_mutation(&mut q, attr(1, "CLASS", Some("b"), Some("c"))));
    assert_eq!(q.len(), 1);
    match &q[0] {
        StyleMutation::Attribute(m) => {
            assert_eq!(m.name, "class");
            assert_eq!(m.old_value.as_deref(), Some("a"));
            assert_eq!(m.new_value.as_deref(), Some("c"));
        }
        _ => panic!("expected attribute"),
    }
    assert!(queue_retained_style_mutation(&mut q, StyleMutation::Resource));
    assert!(queue_retained_style_mutation(&mut q, StyleMutation::Resource));
    assert!(queue_retained_style_mutation(&mut q, StyleMutation::Animation { node: NodeId(2) }));
    assert!(queue_retained_style_mutation(&mut q, StyleMutation::Animation { node: NodeId(2) }));
    assert!(queue_retained_style_mutation(&mut q, StyleMutation::WaapiAnimation { node: NodeId(2) }));
    assert_eq!(q.len(), 4);
}

#[test]
fn style_queue_refuses_beyond_the_cap_except_resource() {
    let mut q = Vec::new();
    for i in 0..MAX_PENDING_STYLE_MUTATIONS as u32 {
        assert!(queue_retained_style_mutation(
            &mut q,
            StyleMutation::Tree(TreeStyleMutation::Remove { node: NodeId(i), old_parent: NodeId(0) })
        ));
    }
    assert!(!queue_retained_style_mutation(&mut q, attr(1, "id", None, Some("x"))));
    assert_eq!(q.len(), MAX_PENDING_STYLE_MUTATIONS);
    assert!(queue_retained_style_mutation(&mut q, StyleMutation::Resource));
    assert_eq!(q.len(), MAX_PENDING_STYLE_MUTATIONS + 1);
    assert!(!queue_retained_style_mutation(&mut q, StyleMutation::Animation { node: NodeId(9) }));
}

#[test]
fn retained_style_mutation_describes_commands() {
    let mut tree = DomTree::new();
    let doc = tree.document();
    let div = element(&mut tree, "div");
    tree.append_child(doc, div);
    tree.set_node_attribute(div, "class", "a".to_string());
    let p = element(&mut tree, "p");
    let t = tree.new_node(NodeData::Text { contents: "x".to_string() });
    tree.append_child(div, t);
    let d = div.0.to_string();
    match retained_style_mutation(&tree, "set_attribute", &d, "class\0b", false) {
        Some(StyleMutation::Attribute(m)) => {
            assert_eq!(m.old_value.as_deref(), Some("a"));
            assert_eq!(m.new_value.as_deref(), Some("b"));
        }
        _ => panic!("expected attribute"),
    }
    match retained_style_mutation(&tree, "set_attribute", &d, "Style\0color:red", false) {
        Some(StyleMutation::Attribute(m)) => {
            assert!(m.old_value.is_none() && m.new_value.is_none());
        }
        _ => panic!("expected attribute"),
    }
    assert!(retained_style_mutation(&tree, "set_attribute", &d, "class\0b", true).is_none());
    assert!(retained_style_mutation(&tree, "set_attribute", &d, "noval", false).is_none());
    match retained_style_mutation(&tree, "remove_attribute", &d, "class", false) {
        Some(StyleMutation::Attribute(m)) => {
            assert_eq!(m.old_value.as_deref(), Some("a"));
            assert!(m.new_value.is_none());
        }
        _ => panic!("expected attribute"),
    }
    match retained_style_mutation(&tree, "append_child", &d, &p.0.to_string(), false) {
        Some(StyleMutation::Tree(TreeStyleMutation::Insert { node, old_parent, new_parent })) => {
            assert_eq!((node, old_parent, new_parent), (p, None, div));
        }
        _ => panic!("expected insert"),
    }
    match retained_style_mutation(&tree, "remove_child", &d, "", false) {
        Some(StyleMutation::Tree(TreeStyleMutation::Remove { node, old_parent })) => {
            assert_eq!((node, old_parent), (div, doc));
        }
        _ => panic!("expected remove"),
    }
    match retained_style_mutation(&tree, "set_text_content", &t.0.to_string(), "y", false) {
        Some(StyleMutation::Tree(TreeStyleMutation::Text { node, parent })) => {
            assert_eq!((node, parent), (t, Some(div)));
        }
        _ => panic!("expected text"),
    }
    assert!(retained_style_mutation(&tree, "set_text_content", &d, "y", false).is_none());
    assert!(retained_style_mutation(&tree, "unknown", &d, "", false).is_none());
    assert!(retained_style_mutation(&tree, "remove_child", "nope", "", false).is_none());
}

use obscura::assets::asset_records;

#[test]
fn asset_records_follow_selector_order_and_kinds() {
    let mut tree = DomTree::new();
    let doc = tree.document();
    let html = element(&mut tree, "html");
    tree.append_child(doc, html);
    let link = element(&mut tree, "link");
    tree.append_child(html, link);
    tree.set_node_attribute(link, "rel", "Stylesheet".to_string());
    tree.set_node_attribute(link, "href", "/site.css".to_string());
    let img = element(&mut tree, "img");
    tree.append_child(html, img);
    tree.set_node_attribute(img, "src", "/logo.png".to_string());
    let bare = element(&mut tree, "img");
    tree.append_child(html, bare);
    let script = element(&mut tree, "script");
    tree.append_child(html, script);
    tree.set_node_attribute(script, "src", "app.js".to_string());
    let object = element(&mut tree, "object");
    tree.append_child(html, object);
    tree.set_node_attribute(object, "data", "/doc.pdf".to_string());
    let records = asset_records(&tree, Some("https://example.test/page"));
    let expected: Vec<(String, String)> = vec![
        ("https://example.test/app.js", "script"),
        ("https://example.test/site.css", "stylesheet"),
        ("https://example.test/logo.png", "image"),
        ("https://example.test/doc.pdf", "object"),
    ]
    .into_iter()
    .map(|(a, b)| (a.to_string(), b.to_string()))
    .collect();
    assert_eq!(records, expected);
}
