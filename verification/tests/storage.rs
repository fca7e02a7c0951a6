use obscura::origin_storage::OriginStorage;

fn pairs(v: &[(String, String)]) -> Vec<(&str, &str)> {
    v.iter().map(|(k, x)| (k.as_str(), x.as_str())).collect()
}

#[test]
fn set_then_get_reads_back_in_insertion_order() {
    let mut s = OriginStorage::new();
    assert!(s.set("https://a.test", "k1".to_string(), "v1".to_string()));
    assert!(s.set("https://a.test", "k2".to_string(), "v2".to_string()));
    assert!(s.set("https://a.test", "k1".to_string(), "v3".to_string()));
    assert_eq!(s.get("https://a.test", "k1").as_deref(), Some("v3"));
    assert_eq!(s.get("https://a.test", "k2").as_deref(), Some("v2"));
    assert_eq!(s.get("https://b.test", "k1"), None);
    assert_eq!(pairs(&s.snapshot("https://a.test")), vec![("k1", "v3"), ("k2", "v2")]);
    assert!(s.snapshot("https://b.test").is_empty());
}

#[test]
fn remove_and_clear_drop_items() {
    let mut s = OriginStorage::new();
    assert!(s.set("o", "a".to_string(), "1".to_string()));
    assert!(s.set("o", "b".to_string(), "2".to_string()));
    s.remove("o", "a");
    assert_eq!(s.get("o", "a"), None);
    assert_eq!(pairs(&s.snapshot("o")), vec![("b", "2")]);
    s.remove("o", "missing");
    s.remove("other", "b");
    assert_eq!(pairs(&s.snapshot("o")), vec![("b", "2")]);
    s.clear("o");
    assert!(s.snapshot("o").is_empty());
    assert_eq!(s.get("o", "b"), None);
}

#[test]
fn per_origin_byte_limit_refuses_writes() {
    let mut s = OriginStorage::new();
    let big = "x".repeat(5 * 1024 * 1024 - 1);
    assert!(s.set("o", "k".to_string(), big.clone()));
    assert!(!s.set("o", "k2".to_string(), "y".to_string()));
    // Replacing the value accounts for the bytes it frees.
    assert!(s.set("o", "k".to_string(), "small".to_string()));
    assert!(s.set("o", "k2".to_string(), "y".to_string()));
    let over = "z".repeat(5 * 1024 * 1024);
    assert!(!s.set("p", "k".to_string(), over));
    assert_eq!(s.get("p", "k"), None);
}

#[test]
fn total_byte_limit_spans_origins() {
    let mut s = OriginStorage::new();
    // Key plus value is exactly 4 MiB per origin: eight fill the store.
    let chunk = "c".repeat(4 * 1024 * 1024 - 1);
    for i in 0..8 {
        assert!(s.set(&format!("o{i}"), "k".to_string(), chunk.clone()), "origin {i}");
    }
    assert!(!s.set("o8", "k".to_string(), chunk.clone()));
    s.clear("o0");
    assert!(s.set("o8", "k".to_string(), chunk));
}

#[test]
fn origin_count_is_bounded() {
    let mut s = OriginStorage::new();
    for i in 0..256 {
        assert!(s.set(&format!("o{i}"), "k".to_string(), "v".to_string()));
    }
    assert!(!s.set("one-more", "k".to_string(), "v".to_string()));
    assert!(s.set("o3", "k2".to_string(), "v".to_string()));
    s.remove("o3", "k");
    s.remove("o3", "k2");
    assert!(s.set("one-more", "k".to_string(), "v".to_string()));
}

#[test]
fn byte_cost_counts_utf8() {
    let mut s = OriginStorage::new();
    // Each 'é' is two bytes in UTF-8.
    let v = "é".repeat(5 * 1024 * 1024 / 2);
    assert!(!s.set("o", "k".to_string(), v));
}
