use flatdb::store::Store;
use flatdb::{load_db, save_db, ErrorKind};
use serde_json::Value;

fn text(s: &str) -> Value {
    Value::String(s.to_string())
}

#[test]
fn save_and_load_round_trip_strings() {
    let mut store: Store<Value> = Store::new();
    store.insert("key1".to_string(), text("value1"));
    store.insert("key2".to_string(), text("value2"));

    let body = save_db(&store).expect("saving db should succeed");
    let loaded = load_db(Some(body.as_str())).expect("loading db should succeed");

    assert_eq!(loaded.len(), 2);
    assert_eq!(loaded.get("key1"), Some(&text("value1")));
    assert_eq!(loaded.get("key2"), Some(&text("value2")));
}

#[test]
fn save_and_load_empty_db() {
    let store: Store<Value> = Store::new();

    let body = save_db(&store).expect("saving empty db should succeed");
    let loaded = load_db(Some(body.as_str())).expect("loading empty db should succeed");

    assert!(loaded.is_empty());
    assert_eq!(body, "");
}

#[test]
fn saved_text_has_one_line_per_entry() {
    let mut store: Store<Value> = Store::new();
    store.insert("a".to_string(), text("1"));
    store.insert("b".to_string(), text("2"));
    let body = save_db(&store).unwrap();
    assert_eq!(body, "a=\"1\"\nb=\"2\"\n");
}

#[test]
fn missing_file_loads_as_empty_store() {
    let loaded = load_db(None).unwrap();
    assert!(loaded.is_empty());
    assert_eq!(loaded.len(), 0);
}

#[test]
fn load_twice_gives_equal_stores() {
    let body = "a=1\nb=[true,null]\n";
    let first = load_db(Some(body)).unwrap();
    let second = load_db(Some(body)).unwrap();
    assert_eq!(first.len(), second.len());
    assert_eq!(first.get("a"), second.get("a"));
    assert_eq!(first.get("b"), second.get("b"));
    assert_eq!(first.get("a"), Some(&Value::from(1)));
}

#[test]
fn line_without_separator_is_passed_over() {
    let loaded = load_db(Some("a=1\nthis line has no separator\n\nb=2\n")).unwrap();
    assert_eq!(loaded.len(), 2);
    assert_eq!(loaded.get("a"), Some(&Value::from(1)));
    assert_eq!(loaded.get("b"), Some(&Value::from(2)));
}

#[test]
fn later_record_wins() {
    let loaded = load_db(Some("a=1\na=2\n")).unwrap();
    assert_eq!(loaded.len(), 1);
    assert_eq!(loaded.get("a"), Some(&Value::from(2)));
}

#[test]
fn keys_and_values_are_trimmed() {
    let loaded = load_db(Some("  a \t=  \"x\"  \r\n")).unwrap();
    assert_eq!(loaded.get("a"), Some(&text("x")));
    assert_eq!(loaded.get("  a \t"), None);
}

#[test]
fn split_is_at_the_first_separator() {
    let loaded = load_db(Some("a=\"b=c\"\n")).unwrap();
    assert_eq!(loaded.get("a"), Some(&text("b=c")));
}

#[test]
fn invalid_value_is_a_decode_error() {
    let err = load_db(Some("a=1\nb=not json\n")).unwrap_err();
    assert_eq!(err.kind(), ErrorKind::Decode);
    assert!(err.to_text().starts_with("Serde error: "));
}

#[test]
fn last_line_needs_no_line_feed() {
    let loaded = load_db(Some("a=1\nb=2")).unwrap();
    assert_eq!(loaded.len(), 2);
    assert_eq!(loaded.get("b"), Some(&Value::from(2)));
}
