use velox::map::StringMap;

#[test]
fn insert_then_get() {
    let mut m = StringMap::new();
    assert_eq!(m.get("a"), None);
    m.insert("a".to_string(), "1".to_string());
    m.insert("b".to_string(), "2".to_string());
    assert_eq!(m.get("a"), Some("1"));
    assert_eq!(m.get("b"), Some("2"));
    assert_eq!(m.get("c"), None);
    assert_eq!(m.len(), 2);
}

#[test]
fn insert_replaces_in_place() {
    let mut m = StringMap::new();
    m.insert("a".to_string(), "1".to_string());
    m.insert("b".to_string(), "2".to_string());
    m.insert("a".to_string(), "3".to_string());
    assert_eq!(m.len(), 2);
    assert_eq!(m.key_at(0), "a");
    assert_eq!(m.value_at(0), "3");
    assert_eq!(m.key_at(1), "b");
    assert_eq!(m.value_at(1), "2");
}

#[test]
fn keys_are_case_sensitive() {
    let mut m = StringMap::new();
    m.insert("Key".to_string(), "1".to_string());
    assert_eq!(m.get("key"), None);
    assert_eq!(m.get("Key"), Some("1"));
}
