use obscura::mutation_impact::{parse_u32, RenderMutationImpact};
use obscura::tree::{DomTree, NodeData, NodeId, QualName};

fn element(tree: &mut DomTree, local: &str) -> NodeId {
    tree.new_node(NodeData::Element {
        name: QualName {
            prefix: None,
            ns: "http://www.w3.org/1999/xhtml".to_string(),
            local: local.to_string(),
        },
        attrs: vec![],
        template_contents: None,
        mathml_annotation_xml_integration_point: false,
    })
}

fn id(n: NodeId) -> String {
    format!("{}", n.0)
}

fn impact(connected: bool, actual_change: bool) -> RenderMutationImpact {
    RenderMutationImpact { connected, actual_change }
}

fn chars(s: &str) -> Vec<char> {
    s.chars().collect()
}

#[test]
fn parse_u32_follows_str_parse() {
    assert_eq!(parse_u32(&chars("0")), Some(0));
    assert_eq!(parse_u32(&chars("+17")), Some(17));
    assert_eq!(parse_u32(&chars("4294967295")), Some(4294967295));
    assert_eq!(parse_u32(&chars("4294967296")), None);
    assert_eq!(parse_u32(&chars("99999999999999999999")), None);
    assert_eq!(parse_u32(&chars("")), None);
    assert_eq!(parse_u32(&chars("+")), None);
    assert_eq!(parse_u32(&chars("-1")), None);
    assert_eq!(parse_u32(&chars("12a")), None);
    assert_eq!(parse_u32(&chars(" 1")), None);
}

#[test]
fn attribute_writes_count_only_real_changes_on_connected_nodes() {
    let mut tree = DomTree::new();
    let doc = tree.document();
    let div = element(&mut tree, "div");
    tree.append_child(doc, div);
    tree.set_node_attribute(div, "class", "a".to_string());
    let loose = element(&mut tree, "p");

    assert_eq!(tree.render_mutation_impact("set_attribute", &id(div), "class\0a"), impact(true, false));
    assert_eq!(tree.render_mutation_impact("set_attribute", &id(div), "class\0b"), impact(true, true));
    assert_eq!(tree.render_mutation_impact("set_attribute", &id(div), "title\0"), impact(true, true));
    assert_eq!(tree.render_mutation_impact("set_attribute", &id(loose), "class\0b"), impact(false, true));
    assert_eq!(tree.render_mutation_impact("set_attribute", &id(div), "class"), impact(false, false));
    assert_eq!(tree.render_mutation_impact("set_attribute", "x", "class\0b"), impact(false, false));

    assert_eq!(tree.render_mutation_impact("remove_attribute", &id(div), "class"), impact(true, true));
    assert_eq!(tree.render_mutation_impact("remove_attribute", &id(div), "title"), impact(true, false));
    assert_eq!(tree.render_mutation_impact("remove_attribute", "999", "title"), impact(false, false));
}

#[test]
fn namespaced_attribute_writes() {
    let mut tree = DomTree::new();
    let doc = tree.document();
    let svg = element(&mut tree, "svg");
    tree.append_child(doc, svg);
    tree.set_node_attribute_ns(svg, "http://www.w3.org/1999/xlink", "xlink:href", "#a".to_string());

    let target = id(svg);
    assert_eq!(
        tree.render_mutation_impact("set_attribute_ns", &target, "http://www.w3.org/1999/xlink\0xlink:href\0#a"),
        impact(true, false)
    );
    assert_eq!(
        tree.render_mutation_impact("set_attribute_ns", &target, "http://www.w3.org/1999/xlink\0xlink:href\0#b"),
        impact(true, true)
    );
    assert_eq!(
        tree.render_mutation_impact("set_attribute_ns", &target, "http://www.w3.org/1999/xlink\0href\0#a"),
        impact(true, false)
    );
    assert_eq!(
        tree.render_mutation_impact("remove_attribute_ns", &target, "http://www.w3.org/1999/xlink\0href"),
        impact(true, true)
    );
    assert_eq!(tree.render_mutation_impact("remove_attribute_ns", &target, "href"), impact(true, false));
}

#[test]
fn tree_moves_that_change_nothing_are_not_changes() {
    let mut tree = DomTree::new();
    let doc = tree.document();
    let list = element(&mut tree, "ul");
    tree.append_child(doc, list);
    let a = element(&mut tree, "li");
    let b = element(&mut tree, "li");
    tree.append_child(list, a);
    tree.append_child(list, b);
    let detached = element(&mut tree, "li");

    assert_eq!(tree.render_mutation_impact("append_child", &id(list), &id(b)), impact(true, false));
    assert_eq!(tree.render_mutation_impact("append_child", &id(list), &id(a)), impact(true, true));
    assert_eq!(tree.render_mutation_impact("append_child", &id(detached), &id(a)), impact(true, true));
    assert_eq!(tree.render_mutation_impact("append_child", &id(list), "999"), impact(false, false));

    assert_eq!(tree.render_mutation_impact("insert_before", &id(a), &id(b)), impact(true, false));
    assert_eq!(tree.render_mutation_impact("insert_before", &id(b), &id(a)), impact(true, true));
    assert_eq!(tree.render_mutation_impact("insert_before", &id(b), &id(b)), impact(true, false));
    assert_eq!(tree.render_mutation_impact("insert_before", &id(a), &id(detached)), impact(false, false));

    assert_eq!(tree.render_mutation_impact("remove_child", &id(a), ""), impact(true, true));
    assert_eq!(tree.render_mutation_impact("remove_child", &id(detached), ""), impact(false, false));
}

#[test]
fn text_and_markup_replacement() {
    let mut tree = DomTree::new();
    let doc = tree.document();
    let p = element(&mut tree, "p");
    tree.append_child(doc, p);
    let t = tree.new_node(NodeData::Text { contents: "hi".to_string() });
    tree.append_child(p, t);
    let empty = element(&mut tree, "div");
    tree.append_child(doc, empty);

    assert_eq!(tree.render_mutation_impact("set_text_content", &id(t), "hi"), impact(true, false));
    assert_eq!(tree.render_mutation_impact("set_text_content", &id(t), "ho"), impact(true, true));
    assert_eq!(tree.render_mutation_impact("set_text_content", &id(p), "hi"), impact(true, false));
    assert_eq!(tree.render_mutation_impact("set_text_content", &id(p), "ho"), impact(true, true));
    assert_eq!(tree.render_mutation_impact("set_text_content", &id(empty), ""), impact(true, false));
    assert_eq!(tree.render_mutation_impact("set_text_content", &id(empty), "x"), impact(true, true));
    assert_eq!(tree.render_mutation_impact("set_text_content", "999", "x"), impact(false, false));

    assert_eq!(tree.render_mutation_impact("set_inner_html", &id(p), "<b>x</b>"), impact(true, true));
    assert_eq!(tree.render_mutation_impact("set_inner_html_context", "999", "x"), impact(false, false));
    assert_eq!(tree.render_mutation_impact("click", &id(p), ""), impact(false, false));
}
