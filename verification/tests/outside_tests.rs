use flatdb::format::{parse_records, Record};
use flatdb::retention::parse_stamps;
use flatdb::store::Store;
use flatdb::{load_db, save_db, ErrorKind};
use serde_json::{Number, Value};

fn listed_as_white_space(c: char) -> bool {
    let n = c as u32;
    (0x0009..=0x000D).contains(&n)
        || n == 0x0020
        || n == 0x0085
        || n == 0x00A0
        || n == 0x1680
        || (0x2000..=0x200A).contains(&n)
        || n == 0x2028
        || n == 0x2029
        || n == 0x202F
        || n == 0x205F
        || n == 0x3000
}

#[test]
fn white_space_is_the_twenty_five_listed_characters() {
    let mut count = 0;
    for n in 0..=0x10FFFFu32 {
        if let Some(c) = char::from_u32(n) {
            assert_eq!(c.is_whitespace(), listed_as_white_space(c), "U+{:04X}", n);
            if c.is_whitespace() {
                count += 1;
            }
        }
    }
    assert_eq!(count, 25);
}

#[test]
fn every_white_space_character_is_trimmed_and_no_other() {
    for n in 0..=0x3100u32 {
        let c = match char::from_u32(n) {
            Some(c) => c,
            None => continue,
        };
        if c == '\n' || c == '=' {
            continue;
        }
        let line = format!("{}k{}={}v{}", c, c, c, c);
        let expected = if listed_as_white_space(c) {
            Record { key: "k".to_string(), value: "v".to_string() }
        } else {
            Record { key: format!("{}k{}", c, c), value: format!("{}v{}", c, c) }
        };
        assert_eq!(parse_records(&line), vec![expected], "U+{:04X}", n);
    }
}

fn samples() -> Vec<Value> {
    let mut object = serde_json::Map::new();
    object.insert(" spaced key ".to_string(), Value::String("line one\nline two\r\n".to_string()));
    object.insert("n".to_string(), Value::Null);
    let mut values = vec![
        Value::Null,
        Value::Bool(true),
        Value::Bool(false),
        Value::from(0),
        Value::from(-17),
        Value::from(u64::MAX),
        Value::from(i64::MIN),
        Value::String(String::new()),
        Value::String(" ".to_string()),
        Value::String("\n".to_string()),
        Value::String("\u{85}\u{2028}\u{2029}\t\u{0}".to_string()),
        Value::String("a=b".to_string()),
        Value::String("\"quoted\" \\ back".to_string()),
        Value::Array(vec![]),
        Value::Array(vec![Value::from(1), Value::String("\n x \n".to_string())]),
        Value::Object(serde_json::Map::new()),
        Value::Object(object),
    ];
    for f in [0.5, -0.0, 1e300, 1.0e-7, 123456789.125, f64::MIN_POSITIVE, f64::MAX] {
        values.push(Value::Number(Number::from_f64(f).unwrap()));
    }
    values
}

#[test]
fn encoded_values_are_compact() {
    for value in samples() {
        let mut store: Store<Value> = Store::new();
        store.insert("k".to_string(), value.clone());
        let body = save_db(&store).unwrap();
        assert!(body.starts_with("k="));
        assert!(body.ends_with('\n'));
        let text = &body[2..body.len() - 1];
        assert_eq!(text, serde_json::to_string(&value).unwrap());
        assert!(!text.contains('\n'), "{:?}", text);
        let first = text.chars().next().unwrap();
        let last = text.chars().last().unwrap();
        assert!(('!'..='~').contains(&first), "{:?}", text);
        assert!(('!'..='~').contains(&last), "{:?}", text);
    }
}

#[test]
fn sample_values_come_back_from_a_save_and_a_load() {
    let mut store: Store<Value> = Store::new();
    for (i, value) in samples().into_iter().enumerate() {
        store.insert(format!("key {}", i), value);
    }
    let body = save_db(&store).unwrap();
    let loaded = load_db(Some(body.as_str())).unwrap();
    assert_eq!(loaded.len(), store.len());
    for entry in store.entries() {
        assert_eq!(loaded.get(&entry.key), Some(&entry.value), "{}", entry.key);
    }
    let keys: Vec<&String> = loaded.entries().iter().map(|e| &e.key).collect();
    let expected: Vec<&String> = store.entries().iter().map(|e| &e.key).collect();
    assert_eq!(keys, expected);
}

#[test]
fn name_of_a_stamp_parses_to_the_stamp() {
    let texts = [
        "2024-03-01T10:00:00Z",
        "2024-03-01t10:00:00z",
        "2024-03-01 10:00:00+00:00",
        "2024-03-01T10:00:00-00:00",
        "2024-03-01T10:00:00.5+05:30",
        "2024-03-01T10:00:00.123456-08:00",
        "2024-03-01T10:00:00.123456789123+23:59",
        "2024-03-01T10:00:00.000000001-23:59",
        "2016-12-31T23:59:60Z",
        "2016-12-31T23:59:60.75+01:00",
        "2016-12-31T10:20:60-03:30",
        "0000-01-01T00:00:00+23:59",
        "0000-01-01T00:00:00Z",
        "9999-12-31T23:59:59.999999999-23:59",
        "9999-12-31T23:59:59Z",
        "1969-12-31T23:59:59.999Z",
        "2024-02-29T12:00:00+14:00",
    ];
    for text in texts {
        let first = parse_stamps(&vec![text.to_string()]);
        assert_eq!(first.len(), 1, "{}", text);
        let second = parse_stamps(&vec![first[0].name.clone()]);
        assert_eq!(second, first, "{}", text);
    }
}

#[test]
fn decode_error_says_what_the_decoder_said_of_the_first_bad_value() {
    let error = load_db(Some("a=1\nb=[1,\nc=nope\n")).unwrap_err();
    let cause = serde_json::from_str::<Value>("[1,").unwrap_err();
    assert_eq!(error.kind(), ErrorKind::Decode);
    assert_eq!(error.to_text(), format!("Serde error: {}", cause));
    let other = serde_json::from_str::<Value>("nope").unwrap_err();
    assert_ne!(cause.to_string(), other.to_string());
}

#[test]
fn members_of_an_object_are_written_in_the_order_they_came() {
    let mut object = serde_json::Map::new();
    object.insert("zeta".to_string(), Value::from(1));
    object.insert("alpha".to_string(), Value::from(2));
    let mut store: Store<Value> = Store::new();
    store.insert("k".to_string(), Value::Object(object));
    let body = save_db(&store).unwrap();
    assert_eq!(body, "k={\"zeta\":1,\"alpha\":2}\n");
    let loaded = load_db(Some(body.as_str())).unwrap();
    assert_eq!(save_db(&loaded).unwrap(), body);
}
