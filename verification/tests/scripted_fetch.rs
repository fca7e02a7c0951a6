use obscura::fetch_policy::{FetchCredentials, FetchUrlError};
use obscura::scripted_fetch::{
    cors_block_error, fetch_credentials, hop_headers, needs_cors_preflight, page_origin_for,
    preflight_error, record_fetched_url, stealth_hop_headers, take_frame_marker, url_blocked,
    FetchHop, HopAction,
    HopStep, FETCH_REDIRECT_LIMIT, MAX_FETCHED_URLS,
};

fn strings(v: &[&str]) -> Vec<String> {
    v.iter().map(|s| s.to_string()).collect()
}

fn pairs(v: &[(&str, &str)]) -> Vec<(String, String)> {
    v.iter().map(|(a, b)| (a.to_string(), b.to_string())).collect()
}

#[test]
fn blocked_url_patterns() {
    assert!(url_blocked(&strings(&["*"]), "https://example.com/"));
    assert!(url_blocked(&strings(&["ads."]), "https://ads.example.com/x.js"));
    assert!(url_blocked(&strings(&["https://*.png"]), "https://cdn.example.com/a.png"));
    assert!(!url_blocked(&strings(&["tracker", "*.gif"]), "https://example.com/a.png"));
    assert!(!url_blocked(&Vec::new(), "https://example.com/"));
}

#[test]
fn fetched_urls_are_capped() {
    let mut urls = Vec::new();
    for i in 0..MAX_FETCHED_URLS {
        record_fetched_url(&mut urls, &format!("https://example.com/{}", i));
    }
    assert_eq!(urls.len(), MAX_FETCHED_URLS);
    record_fetched_url(&mut urls, "https://example.com/extra");
    assert_eq!(urls.len(), MAX_FETCHED_URLS);
    assert_eq!(urls.last().unwrap(), &format!("https://example.com/{}", MAX_FETCHED_URLS - 1));
}

#[test]
fn page_origin_defaults_to_the_request_origin() {
    assert_eq!(
        page_origin_for("", "https://a.example/x"),
        ("https://a.example".to_string(), false)
    );
    assert_eq!(
        page_origin_for("https://b.example", "https://a.example/x"),
        ("https://b.example".to_string(), true)
    );
    assert_eq!(
        page_origin_for("https://a.example", "https://a.example/y"),
        ("https://a.example".to_string(), false)
    );
    assert_eq!(page_origin_for("", "not a url"), (String::new(), false));
}

#[test]
fn frame_marker_is_taken_out_and_forces_credentials() {
    let mut headers = pairs(&[("X-A", "1"), ("__obscura-frame-navigation", "1"), ("X-B", "2")]);
    assert!(take_frame_marker(&mut headers));
    assert_eq!(headers, pairs(&[("X-A", "1"), ("X-B", "2")]));
    let mut plain = pairs(&[("__obscura-frame-navigation", "0")]);
    assert!(!take_frame_marker(&mut plain));
    assert!(plain.is_empty());
    assert_eq!(fetch_credentials(true, "omit"), FetchCredentials::Include);
    assert_eq!(fetch_credentials(false, "omit"), FetchCredentials::Omit);
    assert_eq!(fetch_credentials(false, "whatever"), FetchCredentials::SameOrigin);
}

#[test]
fn preflight_is_due_for_unsafe_methods_and_headers() {
    assert!(needs_cors_preflight(true, "cors", "PUT", &Vec::new()));
    assert!(!needs_cors_preflight(true, "cors", "POST", &pairs(&[("Content-Type", "text/plain")])));
    assert!(needs_cors_preflight(true, "cors", "GET", &pairs(&[("X-Custom", "1")])));
    assert!(!needs_cors_preflight(false, "cors", "PUT", &pairs(&[("X-Custom", "1")])));
    assert!(!needs_cors_preflight(true, "no-cors", "DELETE", &Vec::new()));
    assert_eq!(
        preflight_error("https://a.example", "https://c.example"),
        "CORS preflight: Origin 'https://a.example' not allowed by Access-Control-Allow-Origin 'https://c.example'"
    );
}

#[test]
fn cross_origin_responses_need_cors_headers() {
    let page = "https://a.example";
    let target = "https://b.example/data";
    assert_eq!(
        cors_block_error(FetchCredentials::SameOrigin, page, target, "cors", "*", ""),
        None
    );
    assert_eq!(
        cors_block_error(FetchCredentials::SameOrigin, page, target, "cors", "https://c.example", ""),
        Some("CORS error: Origin 'https://a.example' not in Access-Control-Allow-Origin 'https://c.example'".to_string())
    );
    assert_eq!(
        cors_block_error(FetchCredentials::Include, page, target, "cors", "*", "true"),
        Some("CORS error: credentialed request requires Access-Control-Allow-Origin 'https://a.example' and Access-Control-Allow-Credentials 'true'".to_string())
    );
    assert_eq!(
        cors_block_error(FetchCredentials::Include, page, target, "cors", page, "true"),
        None
    );
    assert_eq!(
        cors_block_error(FetchCredentials::SameOrigin, page, "https://a.example/x", "cors", "", ""),
        None
    );
    assert_eq!(
        cors_block_error(FetchCredentials::SameOrigin, page, target, "no-cors", "", ""),
        None
    );
}

#[test]
fn hop_headers_add_identity_the_page_did_not_set() {
    let custom = pairs(&[("user-agent", "Custom/1.0")]);
    let h = hop_headers(
        "https://a.example",
        "https://b.example/api",
        false,
        FetchCredentials::SameOrigin,
        "k=v",
        &custom,
        "Default/2.0",
        "\"Chromium\";v=\"137\"",
        "\"Linux\"",
    );
    assert_eq!(
        h,
        pairs(&[
            ("Origin", "https://a.example"),
            ("Sec-Fetch-Storage-Access", "active"),
            ("Sec-CH-UA", "\"Chromium\";v=\"137\""),
            ("Sec-CH-UA-Mobile", "?0"),
            ("Sec-CH-UA-Platform", "\"Linux\""),
            ("user-agent", "Custom/1.0"),
        ])
    );
    let same = hop_headers(
        "https://a.example",
        "https://a.example/api",
        false,
        FetchCredentials::SameOrigin,
        "k=v",
        &Vec::new(),
        "Default/2.0",
        "",
        "",
    );
    assert_eq!(
        same,
        pairs(&[
            ("Sec-Fetch-Storage-Access", "active"),
            ("Cookie", "k=v"),
            ("User-Agent", "Default/2.0"),
            ("Sec-CH-UA-Mobile", "?0"),
        ])
    );
    let nav = hop_headers(
        "https://a.example",
        "https://b.example/frame",
        true,
        FetchCredentials::Include,
        "",
        &Vec::new(),
        "",
        "",
        "",
    );
    assert_eq!(nav.len(), 6);
    assert_eq!(nav[0], ("Sec-CH-UA-Mobile".to_string(), "?0".to_string()));
    assert_eq!(nav[4], ("Sec-Fetch-Site".to_string(), "cross-site".to_string()));
}

#[test]
fn redirects_are_checked_and_counted() {
    let mut hop = FetchHop::new("https://a.example/start", "POST", "payload");
    let next = match hop.on_response(302, Some("/next")) {
        HopStep::Check(n) => n,
        HopStep::Finish => panic!("a 302 with a Location should be followed"),
    };
    assert_eq!(next, "https://a.example/next");
    assert!(matches!(hop.on_checked(302, &next, &Ok(())), HopAction::Send));
    assert_eq!(hop.url, "https://a.example/next");
    assert_eq!(hop.method, "GET");
    assert_eq!(hop.body, "");
    assert!(matches!(hop.on_response(200, Some("/x")), HopStep::Finish));
    assert!(matches!(hop.on_response(301, None), HopStep::Finish));

    let mut keep = FetchHop::new("https://a.example/", "PUT", "data");
    assert!(matches!(keep.on_checked(307, "https://a.example/b", &Ok(())), HopAction::Send));
    assert_eq!(keep.method, "PUT");
    assert_eq!(keep.body, "data");

    let refused = Err(FetchUrlError::ForbiddenScheme("ftp".to_string()));
    match keep.on_checked(302, "ftp://a.example/", &refused) {
        HopAction::Block { url, error } => {
            assert_eq!(url, "ftp://a.example/");
            assert_eq!(
                error,
                "Redirect to forbidden URL blocked: Forbidden URL scheme 'ftp' - only http, https, and file are allowed"
            );
        }
        HopAction::Send => panic!("a refused target must block"),
    }
}

#[test]
fn too_many_redirects_block_the_fetch() {
    let mut hop = FetchHop::new("https://a.example/0", "GET", "");
    for i in 0..FETCH_REDIRECT_LIMIT {
        let next = format!("https://a.example/{}", i + 1);
        assert!(matches!(hop.on_checked(302, &next, &Ok(())), HopAction::Send));
    }
    match hop.on_checked(302, "https://a.example/11", &Ok(())) {
        HopAction::Block { url, error } => {
            assert_eq!(url, "https://a.example/11");
            assert_eq!(error, "Too many redirects (>10)");
        }
        HopAction::Send => panic!("the eleventh redirect must block"),
    }
}

#[test]
fn stealth_hops_carry_fetch_metadata_and_referer() {
    let custom = pairs(&[("Accept", "application/json"), ("X-Token", "t")]);
    let cross = stealth_hop_headers(
        "https://a.example",
        "https://b.example/x",
        "",
        "POST",
        false,
        &custom,
        "https://a.example/page#frag",
    )
    .unwrap();
    assert_eq!(
        cross,
        pairs(&[
            ("accept", "application/json"),
            ("sec-fetch-dest", "empty"),
            ("sec-fetch-mode", "cors"),
            ("sec-fetch-site", "cross-site"),
            ("sec-fetch-storage-access", "active"),
            ("origin", "https://a.example"),
            ("x-token", "t"),
            ("referer", "https://a.example"),
        ])
    );
    let same = stealth_hop_headers(
        "https://a.example",
        "https://a.example/api",
        "no-cors",
        "GET",
        false,
        &Vec::new(),
        "https://a.example/page#frag",
    )
    .unwrap();
    assert_eq!(
        same,
        pairs(&[
            ("accept", "*/*"),
            ("sec-fetch-dest", "script"),
            ("sec-fetch-mode", "no-cors"),
            ("sec-fetch-site", "same-origin"),
            ("sec-fetch-storage-access", "active"),
            ("referer", "https://a.example/page"),
        ])
    );
    let frame = stealth_hop_headers(
        "https://a.example",
        "https://a.example/frame",
        "cors",
        "GET",
        true,
        &Vec::new(),
        "not a url",
    )
    .unwrap();
    assert_eq!(frame.len(), 5);
    assert_eq!(frame[2], ("sec-fetch-mode".to_string(), "navigate".to_string()));
    assert_eq!(frame[4], ("upgrade-insecure-requests".to_string(), "1".to_string()));
    assert_eq!(
        stealth_hop_headers("https://a.example", "::bad", "", "GET", false, &Vec::new(), ""),
        None
    );
}
