use neoutl::strmap::StrMap;

#[test]
fn strmap_insert_get_remove() {
    let mut m: StrMap<u32> = StrMap::new();
    assert!(m.insert_if_absent("a", 1));
    assert!(!m.insert_if_absent("a", 2));
    assert_eq!(m.get("a"), Some(&1));
    m.insert("a".to_string(), 3);
    m.insert("b".to_string(), 4);
    assert_eq!(m.get("a"), Some(&3));
    assert_eq!(m.len(), 2);
    assert!(m.contains_key("b"));
    assert_eq!(m.remove("b"), Some(4));
    assert_eq!(m.remove("b"), None);
    assert!(!m.contains_key("b"));
}
