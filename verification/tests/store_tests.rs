use flatdb::store::{Entry, Store};

fn keys<T>(store: &Store<T>) -> Vec<String> {
    store.entries().iter().map(|e| e.key.clone()).collect()
}

#[test]
fn new_store_is_empty() {
    let store: Store<u32> = Store::new();
    assert!(store.is_empty());
    assert_eq!(store.len(), 0);
    assert_eq!(store.get("a"), None);
    assert!(!store.contains_key("a"));
}

#[test]
fn insert_returns_what_was_there() {
    let mut store: Store<u32> = Store::new();
    assert_eq!(store.insert("a".to_string(), 1), None);
    assert_eq!(store.insert("b".to_string(), 2), None);
    assert_eq!(store.insert("a".to_string(), 3), Some(1));
    assert_eq!(store.len(), 2);
    assert_eq!(store.get("a"), Some(&3));
    assert_eq!(store.get("b"), Some(&2));
    assert!(store.contains_key("b"));
    assert!(!store.is_empty());
}

#[test]
fn key_keeps_its_place_when_its_value_changes() {
    let mut store: Store<u32> = Store::new();
    store.insert("a".to_string(), 1);
    store.insert("b".to_string(), 2);
    store.insert("c".to_string(), 3);
    store.insert("b".to_string(), 20);
    assert_eq!(keys(&store), vec!["a", "b", "c"]);
    let entries: Vec<Entry<u32>> = store.into_entries();
    let values: Vec<u32> = entries.iter().map(|e| e.value).collect();
    assert_eq!(values, vec![1, 20, 3]);
}

#[test]
fn keys_differ_by_any_character() {
    let mut store: Store<u32> = Store::new();
    store.insert("".to_string(), 0);
    store.insert("a".to_string(), 1);
    store.insert("a ".to_string(), 2);
    store.insert("A".to_string(), 3);
    assert_eq!(store.len(), 4);
    assert_eq!(store.get(""), Some(&0));
    assert_eq!(store.get("a "), Some(&2));
    assert_eq!(store.get("A"), Some(&3));
}
