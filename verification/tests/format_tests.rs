use flatdb::format::{parse_records, render_record, render_records, Record};
use flatdb::text::chars_of;

fn record(key: &str, value: &str) -> Record {
    Record { key: key.to_string(), value: value.to_string() }
}

#[test]
fn characters_come_out_in_order() {
    assert_eq!(chars_of("a=é\n"), vec!['a', '=', 'é', '\n']);
    assert_eq!(chars_of(""), Vec::<char>::new());
}

#[test]
fn empty_text_holds_no_record() {
    assert_eq!(parse_records(""), vec![]);
    assert_eq!(parse_records("\n\n\n"), vec![]);
}

#[test]
fn records_come_in_the_order_of_the_lines() {
    let parsed = parse_records("b=2\na=1\nb=3\n");
    assert_eq!(parsed, vec![record("b", "2"), record("a", "1"), record("b", "3")]);
}

#[test]
fn key_ends_at_the_first_separator() {
    assert_eq!(parse_records("a=b=c"), vec![record("a", "b=c")]);
    assert_eq!(parse_records("=x"), vec![record("", "x")]);
    assert_eq!(parse_records("x="), vec![record("x", "")]);
    assert_eq!(parse_records("="), vec![record("", "")]);
}

#[test]
fn white_space_at_the_ends_is_left_out() {
    assert_eq!(parse_records(" \tkey one \u{a0}=\u{2003} v w \r\n"), vec![record("key one", "v w")]);
    assert_eq!(parse_records("   =   "), vec![record("", "")]);
}

#[test]
fn lines_without_separator_hold_no_record() {
    assert_eq!(parse_records("hello\na=1\n  \nworld"), vec![record("a", "1")]);
}

#[test]
fn record_is_written_as_one_line() {
    let mut out = String::from("x=0\n");
    render_record(&mut out, "key", "[1,2]");
    assert_eq!(out, "x=0\nkey=[1,2]\n");
}

#[test]
fn written_records_read_back() {
    let records = vec![record("a", "\"1\""), record("long key", "{\"x\":null}"), record("", "0")];
    let text = render_records(&records);
    assert_eq!(text, "a=\"1\"\nlong key={\"x\":null}\n=0\n");
    assert_eq!(parse_records(&text), records);
}

#[test]
fn no_records_are_written_as_the_empty_text() {
    assert_eq!(render_records(&vec![]), "");
}
