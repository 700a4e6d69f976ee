use gossip::maps::StringMap;

#[test]
fn get_after_insert_gives_value() {
    let mut m: StringMap<String> = StringMap::new();
    m.insert("a".to_string(), "1".to_string());
    m.insert("b".to_string(), "2".to_string());
    assert_eq!(m.get("a"), Some(&"1".to_string()));
    assert_eq!(m.get("b"), Some(&"2".to_string()));
    assert_eq!(m.get("c"), None);
}

#[test]
fn insert_replaces_value_in_place() {
    let mut m: StringMap<String> = StringMap::new();
    m.insert("a".to_string(), "1".to_string());
    m.insert("b".to_string(), "2".to_string());
    m.insert("a".to_string(), "3".to_string());
    assert_eq!(m.len(), 2);
    assert_eq!(m.entries()[0], ("a".to_string(), "3".to_string()));
    assert_eq!(m.entries()[1], ("b".to_string(), "2".to_string()));
    assert_eq!(m.get("b"), Some(&"2".to_string()));
}

#[test]
fn find_and_contains_key() {
    let mut m: StringMap<String> = StringMap::new();
    assert!(!m.contains_key("x"));
    m.insert("x".to_string(), String::new());
    m.insert("y".to_string(), String::new());
    assert!(m.contains_key("x"));
    assert_eq!(m.find("y"), Some(1));
    assert_eq!(m.find("z"), None);
}
