use obscura::readable::extract_readable_text;
use obscura::tree::{DomTree, NodeData, NodeId, QualName};

fn element(tree: &mut DomTree, local: &str) -> NodeId {
    tree.new_node(NodeData::Element {
        name: QualName {
            prefix: None,
            ns: "http://www.w3.org/1999/xhtml".to_string(),
            local: local.to_string(),
        },
        attrs: vec![],
        template_contents: None,
        mathml_annotation_xml_integration_point: false,
    })
}

fn add(tree: &mut DomTree, parent: NodeId, local: &str) -> NodeId {
    let e = element(tree, local);
    tree.append_child(parent, e);
    e
}

fn add_text(tree: &mut DomTree, parent: NodeId, s: &str) {
    let t = tree.new_node(NodeData::Text { contents: s.to_string() });
    tree.append_child(parent, t);
}

fn words(s: &str) -> String {
    s.split_whitespace().collect::<Vec<_>>().join(" ")
}

// <html><body><header>SITE HEADER</header><nav>NAV LINKS</nav>
// <aside>SIDEBAR</aside><main><p>Article body.</p></main><footer>FOOTER</footer>
// </body></html>
#[test]
fn skips_nav_header_footer_aside() {
    let mut tree = DomTree::new();
    let doc = tree.document();
    let html = add(&mut tree, doc, "html");
    let body = add(&mut tree, html, "body");
    let header = add(&mut tree, body, "header");
    add_text(&mut tree, header, "SITE HEADER");
    let nav = add(&mut tree, body, "nav");
    add_text(&mut tree, nav, "NAV LINKS");
    let aside = add(&mut tree, body, "aside");
    add_text(&mut tree, aside, "SIDEBAR");
    let main = add(&mut tree, body, "main");
    let p = add(&mut tree, main, "p");
    add_text(&mut tree, p, "Article body.");
    let footer = add(&mut tree, body, "footer");
    add_text(&mut tree, footer, "FOOTER");

    let text = words(&extract_readable_text(&tree, body));
    assert!(text.contains("Article body."), "main content kept: {text}");
    for boilerplate in ["SITE HEADER", "NAV LINKS", "SIDEBAR", "FOOTER"] {
        assert!(
            !text.contains(boilerplate),
            "boilerplate '{boilerplate}' leaked through: {text}"
        );
    }
}

// <html><body><p>Hello.</p><script>console.log("nope")</script>
// <style>.x { color: red }</style></body></html>
#[test]
fn still_skips_script_and_style() {
    let mut tree = DomTree::new();
    let doc = tree.document();
    let html = add(&mut tree, doc, "html");
    let body = add(&mut tree, html, "body");
    let p = add(&mut tree, body, "p");
    add_text(&mut tree, p, "Hello.");
    let script = add(&mut tree, body, "script");
    add_text(&mut tree, script, "console.log(\"nope\")");
    let style = add(&mut tree, body, "style");
    add_text(&mut tree, style, ".x { color: red }");

    let text = words(&extract_readable_text(&tree, body));
    assert!(text.contains("Hello."));
    assert!(!text.contains("console.log"));
    assert!(!text.contains("color: red"));
}

#[test]
fn block_elements_get_their_own_lines_and_text_is_trimmed() {
    let mut tree = DomTree::new();
    let doc = tree.document();
    let body = add(&mut tree, doc, "body");
    let div = add(&mut tree, body, "div");
    add_text(&mut tree, div, "  one  ");
    let span = add(&mut tree, body, "span");
    add_text(&mut tree, span, "two");
    add_text(&mut tree, body, "   ");
    let li = add(&mut tree, body, "LI");
    add_text(&mut tree, li, "three");
    assert_eq!(extract_readable_text(&tree, body), "\none\ntwothree");
    assert_eq!(extract_readable_text(&tree, NodeId::new(4242)), "");
}
