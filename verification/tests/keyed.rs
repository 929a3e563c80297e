use orf::keyed::{compare_keys, KeyedMap};

#[test]
fn keyed_map_inserts_finds_and_removes() {
    let mut m: KeyedMap<u32> = KeyedMap::new();
    assert!(m.is_empty());
    assert_eq!(m.insert("b".to_string(), 2), None);
    assert_eq!(m.insert("a".to_string(), 1), None);
    assert_eq!(m.insert("b".to_string(), 3), Some(2));
    assert_eq!(m.len(), 2);
    assert_eq!(m.get("b"), Some(&3));
    assert!(m.contains_key("a"));
    assert_eq!(m.keys(), vec!["a".to_string(), "b".to_string()]);
    assert_eq!(m.remove("a"), Some(1));
    assert_eq!(m.get("a"), None);
    assert_eq!(m.len(), 1);
}

#[test]
fn keys_order_puts_separator_first() {
    assert!(compare_keys("a/b", "a.b") < 0);
    assert!(compare_keys("a", "a/b") < 0);
    assert_eq!(compare_keys("x", "x"), 0);
    assert!(compare_keys("b", "a") > 0);
}
