use obscura::module_activity::{
    module_resolution_base, module_status_ok, note_final_specifier, ModuleBase,
};

fn against(b: ModuleBase) -> Option<String> {
    match b {
        ModuleBase::Root => None,
        ModuleBase::Against(s) => Some(s),
    }
}

#[test]
fn module_specifiers_resolve_against_the_right_base() {
    let doc = "https://example.com/app/index.html";
    assert!(matches!(module_resolution_base(".", doc), ModuleBase::Root));
    assert_eq!(against(module_resolution_base("", doc)), Some(doc.to_string()));
    assert_eq!(against(module_resolution_base("<anon>", doc)), Some(doc.to_string()));
    assert_eq!(against(module_resolution_base("about:blank", doc)), Some(doc.to_string()));
    assert_eq!(
        against(module_resolution_base("https://cdn.example/lib.js", doc)),
        Some("https://cdn.example/lib.js".to_string())
    );
}

#[test]
fn module_responses_and_redirected_specifiers() {
    assert!(module_status_ok(200));
    assert!(module_status_ok(299));
    assert!(!module_status_ok(304));
    assert!(!module_status_ok(404));
    let mut loaded = vec!["https://a.example/m.js".to_string()];
    note_final_specifier(&mut loaded, "https://a.example/m.js", "https://a.example/m.js");
    assert_eq!(loaded.len(), 1);
    note_final_specifier(&mut loaded, "https://a.example/m.js", "https://b.example/m.js");
    assert_eq!(loaded, vec!["https://a.example/m.js".to_string(), "https://b.example/m.js".to_string()]);
}
