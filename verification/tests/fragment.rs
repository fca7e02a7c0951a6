use obscura::fragment::fragment_context_and_html;

#[test]
fn namespace_aware_arguments() {
    let (name, html) = fragment_context_and_html("http://www.w3.org/2000/svg\0svg:g\0<rect/>");
    assert_eq!(name.ns, "http://www.w3.org/2000/svg");
    assert_eq!(name.prefix.as_deref(), Some("svg"));
    assert_eq!(name.local, "g");
    assert_eq!(html, "<rect/>");

    let (name, html) = fragment_context_and_html("http://www.w3.org/1999/xhtml\0td\0a\0b");
    assert_eq!(name.prefix, None);
    assert_eq!(name.local, "td");
    assert_eq!(html, "a\0b");
}

#[test]
fn older_and_bare_arguments() {
    let (name, html) = fragment_context_and_html("tr\0<td>x</td>");
    assert_eq!(name.ns, "http://www.w3.org/1999/xhtml");
    assert_eq!(name.local, "tr");
    assert_eq!(html, "<td>x</td>");

    let (name, html) = fragment_context_and_html("<p>hi</p>");
    assert_eq!(name.ns, "http://www.w3.org/1999/xhtml");
    assert_eq!(name.local, "body");
    assert_eq!(html, "<p>hi</p>");

    let (name, html) = fragment_context_and_html("");
    assert_eq!(name.local, "body");
    assert_eq!(html, "");
}

#[test]
fn degenerate_qualified_names() {
    let (name, _) = fragment_context_and_html("ns\0\0x");
    assert_eq!(name.local, "body");
    assert_eq!(name.prefix, None);
    let (name, _) = fragment_context_and_html("ns\0:g\0x");
    assert_eq!(name.local, ":g");
    assert_eq!(name.prefix, None);
    let (name, _) = fragment_context_and_html("ns\0a:\0x");
    assert_eq!(name.local, "a:");
    let (name, _) = fragment_context_and_html("ns\0a:b:c\0x");
    assert_eq!(name.prefix.as_deref(), Some("a"));
    assert_eq!(name.local, "b:c");
}
