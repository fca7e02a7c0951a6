use obscura::glob::glob_match;

#[test]
fn glob_match_handles_cdp_blocked_url_patterns() {
    assert!(glob_match(
        "*://*.google.com/maps/vt/*",
        "https://www.google.com/maps/vt/pb=!1m4!1m3",
    ));
    assert!(glob_match(
        "*://*.gstatic.com/*.woff2",
        "https://fonts.gstatic.com/s/inter/v18/font.woff2",
    ));
    assert!(glob_match(
        "https://example.com/assets/*",
        "https://example.com/assets/app.js",
    ));
    assert!(!glob_match(
        "https://example.com/assets/*",
        "https://cdn.example.com/assets/app.js",
    ));
    assert!(!glob_match(
        "*://*.gstatic.com/*.woff2",
        "https://fonts.gstatic.com/s/inter/v18/font.woff",
    ));
}

#[test]
fn lone_star_matches_everything() {
    assert!(glob_match("*", ""));
    assert!(glob_match("*", "https://anything.example/"));
    assert!(glob_match("**", "x"));
}

#[test]
fn pattern_without_stars_is_exact() {
    assert!(glob_match("https://a.example/", "https://a.example/"));
    assert!(!glob_match("https://a.example/", "https://a.example/x"));
    assert!(!glob_match("https://a.example/", "xhttps://a.example/"));
    assert!(glob_match("", ""));
    assert!(!glob_match("", "a"));
}

#[test]
fn pieces_are_found_leftmost() {
    // The trailing piece is looked up at its leftmost occurrence, so the
    // remainder after it must then be empty.
    assert!(!glob_match("a*b", "abxb"));
    assert!(glob_match("a*b", "axb"));
    assert!(glob_match("a*b*", "abxb"));
    assert!(glob_match("*b", "xxb"));
}
