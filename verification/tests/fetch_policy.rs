use obscura::fetch_policy::{
    cors_response_allows, is_render_mutation_command, local_storage_origin, origin_of,
    op_document_domain_candidate, request_origin, validate_fetch_url, DocumentScript,
    FetchCredentials, FetchHost,
};

#[test]
fn fetch_credentials_gate_cookie_send_and_storage_per_request_origin() {
    let page_origin = "https://www.example.com";
    let same_origin_url = "https://www.example.com/api";
    let explicit_default_port = "https://www.example.com:443/api";
    let cross_origin_url = "https://api.example.com/data";

    assert!(!FetchCredentials::Omit.allows(page_origin, same_origin_url));
    assert!(!FetchCredentials::Omit.allows(page_origin, cross_origin_url));

    assert!(FetchCredentials::SameOrigin.allows(page_origin, same_origin_url));
    assert!(FetchCredentials::SameOrigin.allows(page_origin, explicit_default_port));
    assert!(!FetchCredentials::SameOrigin.allows(page_origin, cross_origin_url));

    assert!(FetchCredentials::Include.allows(page_origin, same_origin_url));
    assert!(FetchCredentials::Include.allows(page_origin, cross_origin_url));
}

#[test]
fn credentialed_cors_requires_exact_origin_and_allow_credentials() {
    let page_origin = "https://www.example.com";

    assert!(cors_response_allows(FetchCredentials::SameOrigin, page_origin, "*", ""));
    assert!(!cors_response_allows(FetchCredentials::Include, page_origin, "*", "true"));
    assert!(!cors_response_allows(FetchCredentials::Include, page_origin, page_origin, ""));
    assert!(cors_response_allows(FetchCredentials::Include, page_origin, page_origin, "true"));
}

#[test]
fn uncredentialed_cors_needs_wildcard_or_exact_origin() {
    let page_origin = "https://www.example.com";
    assert!(cors_response_allows(FetchCredentials::Omit, page_origin, page_origin, ""));
    assert!(!cors_response_allows(FetchCredentials::Omit, page_origin, "https://other.example", ""));
}

#[test]
fn credentials_mode_parses_known_values() {
    assert_eq!(FetchCredentials::parse("omit"), FetchCredentials::Omit);
    assert_eq!(FetchCredentials::parse("include"), FetchCredentials::Include);
    assert_eq!(FetchCredentials::parse("same-origin"), FetchCredentials::SameOrigin);
    assert_eq!(FetchCredentials::parse("INCLUDE"), FetchCredentials::SameOrigin);
}

#[test]
fn origins_of_urls() {
    assert_eq!(
        request_origin("https://www.example.com:443/api").as_deref(),
        Some("https://www.example.com")
    );
    assert_eq!(request_origin("not a url"), None);
    assert_eq!(local_storage_origin("http://a.test:8080/x?y"), "http://a.test:8080");
    assert_eq!(local_storage_origin("::nope"), "null");
    assert_eq!(origin_of("data:text/plain,hi"), "null");
    assert_eq!(origin_of("https://b.test/p"), "https://b.test");
}

#[test]
fn render_mutation_commands() {
    for cmd in [
        "set_attribute",
        "remove_attribute",
        "set_attribute_ns",
        "remove_attribute_ns",
        "append_child",
        "remove_child",
        "insert_before",
        "set_inner_html",
        "set_inner_html_context",
        "set_text_content",
    ] {
        assert!(is_render_mutation_command(cmd), "{cmd}");
    }
    assert!(!is_render_mutation_command("get_attribute"));
    assert!(!is_render_mutation_command(""));
}

#[test]
fn classic_script_types() {
    let script = |t: &str| DocumentScript {
        src: String::new(),
        type_attribute: t.to_string(),
        text: String::new(),
    };
    assert!(script("").is_classic());
    assert!(script("text/javascript").is_classic());
    assert!(script("application/javascript").is_classic());
    assert!(script("text/ecmascript").is_classic());
    assert!(script("application/x-javascript").is_classic());
    assert!(script("text/jscript").is_classic());
    assert!(script("text/javascript1.5").is_classic());
    assert!(!script("text/javascript2").is_classic());
    assert!(!script("module").is_classic());
    assert!(!script("application/json").is_classic());
}

fn ipv4(address: &str, forbidden: bool) -> FetchHost {
    FetchHost::Ipv4 { address: address.to_string(), forbidden }
}

#[test]
fn fetch_url_validation_honors_per_context_private_network_opt_in() {
    let loopback = ipv4("127.0.0.1", true);
    assert!(validate_fetch_url("http", Some(&loopback), true, false).is_ok());
}

#[test]
fn fetch_url_validation_refuses_private_targets_without_opt_in() {
    let loopback = ipv4("127.0.0.1", true);
    let err = validate_fetch_url("http", Some(&loopback), false, false).unwrap_err();
    assert_eq!(err.message(), "Access to private/internal IP address 127.0.0.1 is not allowed");
    assert!(validate_fetch_url("http", Some(&loopback), false, true).is_ok());
    let v6 = FetchHost::Ipv6 { address: "::1".to_string(), forbidden: true };
    assert_eq!(
        validate_fetch_url("https", Some(&v6), false, false).unwrap_err().message(),
        "Access to private/internal IPv6 address ::1 is not allowed"
    );
    let public = ipv4("93.184.216.34", false);
    assert!(validate_fetch_url("https", Some(&public), false, false).is_ok());
    for name in ["localhost", "LOCALHOST", "app.localhost", "Api.LocalHost"] {
        let host = FetchHost::Domain(name.to_string());
        let err = validate_fetch_url("http", Some(&host), false, false).unwrap_err();
        assert_eq!(err.message(), format!("Access to localhost domain '{}' is not allowed", name));
    }
    let fine = FetchHost::Domain("example.com".to_string());
    assert!(validate_fetch_url("http", Some(&fine), false, false).is_ok());
    let tricky = FetchHost::Domain("localhost.example.com".to_string());
    assert!(validate_fetch_url("http", Some(&tricky), false, false).is_ok());
    assert!(validate_fetch_url("http", None, false, false).is_ok());
}

#[test]
fn only_http_https_and_file_urls_are_fetched() {
    let host = ipv4("127.0.0.1", true);
    assert!(validate_fetch_url("file", Some(&host), false, false).is_ok());
    let err = validate_fetch_url("ftp", None, true, true).unwrap_err();
    assert_eq!(
        err.message(),
        "Forbidden URL scheme 'ftp' - only http, https, and file are allowed"
    );
    assert!(validate_fetch_url("data", None, false, false).is_err());
}

#[test]
fn document_domain_may_only_relax_to_a_registrable_parent() {
    let current = "www.example.co.uk";
    assert_eq!(op_document_domain_candidate(current, false, "example.co.uk"), "example.co.uk");
    assert_eq!(op_document_domain_candidate(current, false, "WWW.Example.CO.UK"), "www.example.co.uk");
    assert_eq!(op_document_domain_candidate(current, false, "co.uk"), "");
    assert_eq!(op_document_domain_candidate(current, false, "uk"), "");
    assert_eq!(op_document_domain_candidate(current, false, "ample.co.uk"), "");
    assert_eq!(op_document_domain_candidate(current, false, "other.co.uk"), "");
    assert_eq!(op_document_domain_candidate(current, false, "exa mple.co.uk"), "");
}

#[test]
fn document_domain_keeps_ip_hosts_exact() {
    assert_eq!(op_document_domain_candidate("127.0.0.1", true, "127.0.0.1"), "127.0.0.1");
    assert_eq!(op_document_domain_candidate("127.0.0.1", true, "0.0.1"), "");
    assert_eq!(op_document_domain_candidate("a.1.2.3.4", false, "1.2.3.4"), "");
    assert_eq!(op_document_domain_candidate("localhost", false, "localhost"), "localhost");
}
