use std::collections::{BTreeMap, BTreeSet};

use flatdb::retention::{parse_stamps, MAX_BACKUPS};
use flatdb::saving::{
    backup_file, backups_dir, begin_save, join, store_file, temp_file, Action, Event, Phase,
    SaveJob, Step,
};
use flatdb::store::Store;
use flatdb::{load_db, ErrorKind};
use serde_json::Value;

/// A filesystem in memory: files by path, and the directories that exist.
struct Disk {
    files: BTreeMap<String, String>,
    dirs: BTreeSet<String>,
    log: Vec<String>,
}

impl Disk {
    fn new() -> Disk {
        Disk { files: BTreeMap::new(), dirs: BTreeSet::new(), log: Vec::new() }
    }

    fn names_in(&self, dir: &str) -> Vec<String> {
        let prefix = format!("{}/", dir);
        self.files.keys().filter(|p| p.starts_with(&prefix)).map(|p| p[prefix.len()..].to_string()).collect()
    }

    fn perform(&mut self, action: Action) -> Event {
        match action {
            Action::ListDir { path } => {
                self.log.push(format!("list {}", path));
                if self.dirs.contains(&path) {
                    Event::Listing(self.names_in(&path))
                } else {
                    Event::Absent
                }
            }
            Action::RemoveFile { path } => {
                self.log.push(format!("remove {}", path));
                match self.files.remove(&path) {
                    Some(_) => Event::Done,
                    None => Event::Failed(format!("no such file: {}", path)),
                }
            }
            Action::CreateDirAll { path } => {
                self.log.push(format!("mkdirs {}", path));
                self.dirs.insert(path);
                Event::Done
            }
            Action::CreateFile { path } => {
                self.log.push(format!("create {}", path));
                self.files.insert(path, String::new());
                Event::Done
            }
            Action::Probe { path } => {
                self.log.push(format!("probe {}", path));
                Event::Exists(self.files.contains_key(&path) || self.dirs.contains(&path))
            }
            Action::CreateDir { path } => {
                self.log.push(format!("mkdir {}", path));
                self.dirs.insert(path);
                Event::Done
            }
            Action::CopyFile { from, to } => {
                self.log.push(format!("copy {} {}", from, to));
                match self.files.get(&from).cloned() {
                    Some(text) => {
                        self.files.insert(to, text);
                        Event::Done
                    }
                    None => Event::Failed(format!("no such file: {}", from)),
                }
            }
            Action::Append { path, text } => {
                self.log.push(format!("append {}", path));
                match self.files.get_mut(&path) {
                    Some(file) => {
                        file.push_str(&text);
                        Event::Done
                    }
                    None => Event::Failed(format!("no such file: {}", path)),
                }
            }
        }
    }

    fn run(&mut self, begun: (SaveJob, Action)) -> Result<(), flatdb::DBError> {
        let (mut job, mut action) = begun;
        loop {
            let event = self.perform(action);
            match job.advance(event) {
                Step::Continue(next, asked) => {
                    job = next;
                    action = asked;
                }
                Step::Finished => return Ok(()),
                Step::Failed(error) => return Err(error),
            }
        }
    }
}

fn text(s: &str) -> Value {
    Value::String(s.to_string())
}

fn two_entries() -> Store<Value> {
    let mut store: Store<Value> = Store::new();
    store.insert("a".to_string(), text("1"));
    store.insert("b".to_string(), text("2"));
    store
}

#[test]
fn paths_of_a_store() {
    assert_eq!(store_file("data"), "data/memory.db");
    assert_eq!(temp_file("data"), "data/memory.db.tmp");
    assert_eq!(backups_dir("data"), "data/backups");
    assert_eq!(backup_file("data", "x"), "data/backups/x");
    assert_eq!(join("", "memory.db"), "memory.db");
    assert_eq!(store_file(""), "memory.db");
    assert_eq!(backup_file("", "x"), "backups/x");
}

#[test]
fn first_save_runs_every_step_in_order() {
    let mut disk = Disk::new();
    let begun = SaveJob::begin("data", two_entries(), "2024-05-01T08:00:00+00:00", 10).unwrap();
    disk.run(begun).unwrap();
    assert_eq!(
        disk.log,
        vec![
            "list data/backups",
            "mkdirs data",
            "create data/memory.db.tmp",
            "probe data/memory.db",
            "create data/memory.db",
            "probe data/backups",
            "mkdir data/backups",
            "copy data/memory.db data/backups/2024-05-01T08:00:00+00:00",
            "append data/memory.db.tmp",
            "copy data/memory.db.tmp data/memory.db",
            "remove data/memory.db.tmp",
        ]
    );
    assert_eq!(disk.files.get("data/memory.db").unwrap(), "a=\"1\"\nb=\"2\"\n");
    assert_eq!(disk.files.get("data/backups/2024-05-01T08:00:00+00:00").unwrap(), "");
    assert!(!disk.files.contains_key("data/memory.db.tmp"));
}

#[test]
fn second_save_backs_up_what_was_there() {
    let mut disk = Disk::new();
    disk.run(SaveJob::begin("data", two_entries(), "2024-05-01T08:00:00+00:00", 10).unwrap()).unwrap();
    disk.log.clear();
    let mut store: Store<Value> = Store::new();
    store.insert("c".to_string(), Value::from(3));
    disk.run(SaveJob::begin("data", store, "2024-05-02T08:00:00+00:00", 10).unwrap()).unwrap();
    assert_eq!(
        disk.log,
        vec![
            "list data/backups",
            "mkdirs data",
            "create data/memory.db.tmp",
            "probe data/memory.db",
            "probe data/backups",
            "copy data/memory.db data/backups/2024-05-02T08:00:00+00:00",
            "append data/memory.db.tmp",
            "copy data/memory.db.tmp data/memory.db",
            "remove data/memory.db.tmp",
        ]
    );
    assert_eq!(disk.files.get("data/memory.db").unwrap(), "c=3\n");
    assert_eq!(
        disk.files.get("data/backups/2024-05-02T08:00:00+00:00").unwrap(),
        "a=\"1\"\nb=\"2\"\n"
    );
}

#[test]
fn save_two_entries_to_a_fresh_location() {
    let mut disk = Disk::new();
    disk.run(begin_save("fresh", two_entries(), MAX_BACKUPS).unwrap()).unwrap();

    let live = disk.files.get("fresh/memory.db").unwrap().clone();
    let loaded = load_db(Some(live.as_str())).unwrap();
    assert_eq!(loaded.len(), 2);
    assert_eq!(loaded.get("a"), Some(&text("1")));
    assert_eq!(loaded.get("b"), Some(&text("2")));

    let mut lines: Vec<&str> = live.lines().collect();
    lines.sort();
    assert_eq!(lines, vec!["a=\"1\"", "b=\"2\""]);

    let backups = disk.names_in("fresh/backups");
    assert_eq!(backups.len(), 1);
    assert_eq!(parse_stamps(&backups).len(), 1);
}

#[test]
fn save_an_empty_store_to_a_fresh_location() {
    let mut disk = Disk::new();
    disk.run(begin_save("fresh", Store::new(), MAX_BACKUPS).unwrap()).unwrap();
    let live = disk.files.get("fresh/memory.db").unwrap().clone();
    assert_eq!(live, "");
    assert!(load_db(Some(live.as_str())).unwrap().is_empty());
}

#[test]
fn old_backups_go_before_the_save() {
    let mut disk = Disk::new();
    for day in 1..=13 {
        let stamp = format!("2024-05-{:02}T08:00:00+00:00", day);
        let mut store: Store<Value> = Store::new();
        store.insert("day".to_string(), Value::from(day));
        disk.run(SaveJob::begin("data", store, &stamp, MAX_BACKUPS).unwrap()).unwrap();
        let backups = disk.names_in("data/backups");
        let expected = if day <= 11 { day } else { 11 };
        assert_eq!(backups.len(), expected);
    }
    let backups = disk.names_in("data/backups");
    let expected: Vec<String> =
        (3..=13).map(|day| format!("2024-05-{:02}T08:00:00+00:00", day)).collect();
    assert_eq!(backups, expected);
    assert_eq!(disk.files.get("data/memory.db").unwrap(), "day=13\n");
}

#[test]
fn removals_come_first_and_oldest_first() {
    let mut disk = Disk::new();
    disk.dirs.insert("data/backups".to_string());
    for day in [3, 1, 2] {
        disk.files.insert(format!("data/backups/2024-05-{:02}T08:00:00+00:00", day), String::new());
    }
    disk.files.insert("data/backups/notes.txt".to_string(), String::new());
    disk.run(SaveJob::begin("data", Store::new(), "2024-05-04T08:00:00+00:00", 1).unwrap()).unwrap();
    assert_eq!(
        &disk.log[..4],
        &[
            "list data/backups",
            "remove data/backups/2024-05-01T08:00:00+00:00",
            "remove data/backups/2024-05-02T08:00:00+00:00",
            "mkdirs data",
        ]
    );
    assert!(disk.files.contains_key("data/backups/notes.txt"));
    assert!(disk.files.contains_key("data/backups/2024-05-03T08:00:00+00:00"));
}

#[test]
fn failed_operation_gives_the_save_up() {
    let (job, _) = SaveJob::begin("data", Store::new(), "2024-05-01T08:00:00+00:00", 10).unwrap();
    match job.advance(Event::Failed("permission denied".to_string())) {
        Step::Failed(error) => {
            assert_eq!(error.kind(), ErrorKind::Io);
            assert_eq!(error.to_text(), "IO error: permission denied");
        }
        other => panic!("{:?}", other),
    }
}

#[test]
fn failed_removal_stops_before_the_store_file_is_touched() {
    let mut disk = Disk::new();
    disk.dirs.insert("data/backups".to_string());
    disk.files.insert("data/memory.db".to_string(), "a=1\n".to_string());
    disk.files.insert("data/backups/2024-05-01T08:00:00Z".to_string(), String::new());
    disk.files.insert("data/backups/2024-05-02T08:00:00+00:00".to_string(), String::new());
    let error = disk
        .run(SaveJob::begin("data", two_entries(), "2024-05-03T08:00:00+00:00", 1).unwrap())
        .unwrap_err();
    assert_eq!(error.kind(), ErrorKind::Io);
    assert_eq!(disk.log, vec!["list data/backups", "remove data/backups/2024-05-01T08:00:00+00:00"]);
    assert_eq!(disk.files.get("data/memory.db").unwrap(), "a=1\n");
}

#[test]
fn answer_that_does_not_fit_gives_the_save_up() {
    let (job, _) = SaveJob::begin("data", Store::new(), "2024-05-01T08:00:00+00:00", 10).unwrap();
    match job.advance(Event::Exists(true)) {
        Step::Failed(error) => {
            assert_eq!(error.kind(), ErrorKind::Io);
            assert_eq!(error.to_text(), "IO error: unexpected answer");
        }
        other => panic!("{:?}", other),
    }
}

#[test]
fn begin_asks_for_the_backups_listing() {
    let (job, action) = SaveJob::begin("data", Store::new(), "2024-05-01T08:00:00+00:00", 3).unwrap();
    assert_eq!(job.phase, Phase::Listing);
    assert_eq!(job.keep, 3);
    assert_eq!(job.stamp, "2024-05-01T08:00:00+00:00");
    match action {
        Action::ListDir { path } => assert_eq!(path, "data/backups"),
        other => panic!("{:?}", other),
    }
}

#[test]
fn no_save_begins_under_a_name_that_is_no_timestamp() {
    assert!(SaveJob::begin("data", Store::new(), "s", 10).is_none());
    assert!(SaveJob::begin("data", Store::new(), "", 10).is_none());
    assert!(SaveJob::begin("data", Store::new(), "2024-05-01", 10).is_none());
}

#[test]
fn backup_is_named_by_the_timestamp_written_out() {
    let (job, _) = SaveJob::begin("data", Store::new(), "2024-05-01t08:00:00.250Z", 10).unwrap();
    assert_eq!(job.stamp, "2024-05-01T08:00:00.250+00:00");
    let mut disk = Disk::new();
    disk.run(SaveJob::begin("data", Store::new(), "2024-05-01 08:00:00z", 10).unwrap()).unwrap();
    assert_eq!(disk.names_in("data/backups"), vec!["2024-05-01T08:00:00+00:00"]);
}

#[test]
fn save_begun_now_is_named_by_a_timestamp_that_reads_back() {
    let (job, _) = begin_save("data", Store::new(), MAX_BACKUPS).unwrap();
    let stamps = parse_stamps(&vec![job.stamp.clone()]);
    assert_eq!(stamps.len(), 1);
    assert_eq!(stamps[0].name, job.stamp);
}
