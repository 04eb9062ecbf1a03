use flatdb::retention::{expired_backups, parse_stamps, select_expired, sort_stamps, Stamp, MAX_BACKUPS};

fn stamp(seconds: i64, nanos: u32, name: &str) -> Stamp {
    Stamp { seconds, nanos, name: name.to_string() }
}

#[test]
fn default_cap_is_ten() {
    assert_eq!(MAX_BACKUPS, 10);
}

#[test]
fn names_that_are_no_timestamps_are_passed_over() {
    let names = vec![
        "notes.txt".to_string(),
        "2024-03-01T10:00:00+00:00".to_string(),
        "".to_string(),
    ];
    let stamps = parse_stamps(&names);
    assert_eq!(stamps, vec![stamp(1709287200, 0, "2024-03-01T10:00:00+00:00")]);
}

#[test]
fn parsed_name_is_written_out_canonically() {
    let stamps = parse_stamps(&vec!["2024-03-01T10:00:00.5Z".to_string()]);
    assert_eq!(stamps, vec![stamp(1709287200, 500_000_000, "2024-03-01T10:00:00.500+00:00")]);
}

#[test]
fn stamps_sort_by_instant_and_keep_ties_in_order() {
    let sorted = sort_stamps(vec![
        stamp(5, 0, "e"),
        stamp(1, 7, "b"),
        stamp(1, 2, "a"),
        stamp(5, 0, "f"),
        stamp(-3, 0, "z"),
    ]);
    let names: Vec<&str> = sorted.iter().map(|s| s.name.as_str()).collect();
    assert_eq!(names, vec!["z", "a", "b", "e", "f"]);
}

#[test]
fn oldest_are_selected() {
    let stamps = vec![stamp(30, 0, "c"), stamp(10, 0, "a"), stamp(20, 0, "b"), stamp(40, 0, "d")];
    assert_eq!(select_expired(stamps, 2), vec!["a".to_string(), "b".to_string()]);
}

#[test]
fn nothing_expires_under_the_cap() {
    let stamps = vec![stamp(30, 0, "c"), stamp(10, 0, "a")];
    assert_eq!(select_expired(stamps, 2), Vec::<String>::new());
    assert_eq!(select_expired(vec![], 0), Vec::<String>::new());
}

#[test]
fn eleven_backups_lose_the_oldest() {
    let mut names: Vec<String> = Vec::new();
    for day in 1..=11 {
        names.push(format!("2024-01-{:02}T00:00:00+00:00", 12 - day));
    }
    names.push("README".to_string());
    let gone = expired_backups(&names, MAX_BACKUPS);
    assert_eq!(gone, vec!["2024-01-01T00:00:00+00:00".to_string()]);
}

#[test]
fn order_is_by_instant_not_by_text() {
    let names = vec![
        "2024-01-01T00:30:00+00:00".to_string(),
        "2024-01-01T01:00:00+01:00".to_string(),
    ];
    let gone = expired_backups(&names, 1);
    assert_eq!(gone, vec!["2024-01-01T01:00:00+01:00".to_string()]);
}
