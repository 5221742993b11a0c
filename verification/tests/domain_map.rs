use nexa_proxy::domain_map::DomainMap;

#[test]
fn new_map_is_empty() {
    let m: DomainMap<u32> = DomainMap::new();
    assert!(m.is_empty());
    assert_eq!(m.len(), 0);
    assert_eq!(m.get("a"), None);
    assert!(!m.contains_key("a"));
}

#[test]
fn insert_then_get() {
    let mut m = DomainMap::new();
    assert_eq!(m.insert("a.example".to_string(), 1), None);
    assert_eq!(m.insert("b.example".to_string(), 2), None);
    assert_eq!(m.get("a.example"), Some(&1));
    assert_eq!(m.get("b.example"), Some(&2));
    assert_eq!(m.get("c.example"), None);
    assert!(m.contains_key("b.example"));
    assert_eq!(m.len(), 2);
    assert!(!m.is_empty());
}

#[test]
fn insert_replaces_and_returns_previous() {
    let mut m = DomainMap::new();
    m.insert("a".to_string(), "first");
    m.insert("b".to_string(), "other");
    assert_eq!(m.insert("a".to_string(), "second"), Some("first"));
    assert_eq!(m.get("a"), Some(&"second"));
    assert_eq!(m.get("b"), Some(&"other"));
    assert_eq!(m.len(), 2);
}

#[test]
fn keys_are_case_sensitive() {
    let mut m = DomainMap::new();
    m.insert("Example.com".to_string(), 1);
    assert_eq!(m.get("example.com"), None);
    assert_eq!(m.get("Example.com"), Some(&1));
}

#[test]
fn entries_hold_each_domain_once() {
    let mut m = DomainMap::new();
    m.insert("a".to_string(), 1);
    m.insert("b".to_string(), 2);
    m.insert("a".to_string(), 3);
    let mut entries: Vec<(String, i32)> = m.entries().iter().cloned().collect();
    entries.sort();
    assert_eq!(entries, vec![("a".to_string(), 3), ("b".to_string(), 2)]);
}

#[test]
fn clone_keeps_domains_and_values() {
    let mut m = DomainMap::new();
    m.insert("a".to_string(), vec![1, 2]);
    let c = m.clone();
    assert_eq!(c.get("a"), Some(&vec![1, 2]));
    assert_eq!(c.len(), 1);
}
