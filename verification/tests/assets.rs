use obscura::assets::{resolve_asset_url, urls_from_text};

#[test]
fn resolve_asset_url_keeps_absolute_unchanged() {
    let base = "https://page.test/a/b";
    let abs = "https://cdn.test/x.js";
    assert_eq!(resolve_asset_url(abs, Some(base)).as_deref(), Some(abs));
}

#[test]
fn resolve_asset_url_joins_relative_against_base() {
    let base = "https://page.test/a/b";
    let rel = "/static/x.js";
    assert_eq!(
        resolve_asset_url(rel, Some(base)).as_deref(),
        Some("https://page.test/static/x.js"),
    );
}

#[test]
fn resolve_asset_url_drops_empty() {
    let base = "https://page.test/";
    assert!(resolve_asset_url("", Some(base)).is_none());
    assert!(resolve_asset_url("   ", Some(base)).is_none());
}

#[test]
fn resolve_asset_url_without_a_usable_base_keeps_the_trimmed_value() {
    assert_eq!(resolve_asset_url("  img/a.png ", None).as_deref(), Some("img/a.png"));
    assert_eq!(resolve_asset_url("img/a.png", Some("not a url")).as_deref(), Some("img/a.png"));
    assert_eq!(
        resolve_asset_url("img/a.png", Some("https://page.test/dir/index.html")).as_deref(),
        Some("https://page.test/dir/img/a.png")
    );
    assert_eq!(resolve_asset_url(" http://x.test/y ", None).as_deref(), Some("http://x.test/y"));
}

#[test]
fn url_list_skips_blanks_and_comments() {
    let urls = urls_from_text(
        "https://a.example/one.js\n\n  # a comment\n   https://b.example/two.css  \nhttps://c.example/three.json\n",
    );
    assert_eq!(
        urls,
        vec![
            "https://a.example/one.js".to_string(),
            "https://b.example/two.css".to_string(),
            "https://c.example/three.json".to_string(),
        ]
    );
}

#[test]
fn url_list_handles_crlf_and_a_missing_final_newline() {
    assert_eq!(urls_from_text("a\r\n#b\r\n c"), vec!["a".to_string(), "c".to_string()]);
    assert!(urls_from_text("").is_empty());
    assert!(urls_from_text("\n\n   \n#only\n").is_empty());
}
