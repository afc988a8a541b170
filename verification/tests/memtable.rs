use rsstable::sst::error::Error;
use rsstable::sst::memtable::sorted_map::SortedMap;
use rsstable::sst::memtable::{BTreeMemtable, GetResult, MemtableEntries, MemtableOnFlush};
use rsstable::sst::rich_file::{FileOp, FileOption, RichFile};

fn log_file(bytes: &[u8]) -> Vec<RichFile> {
    vec![RichFile::open_file("dir", "wal.log", FileOption::Append, Some(bytes.to_vec()))]
}

fn table(max: usize) -> BTreeMemtable {
    BTreeMemtable::new(&Vec::new(), "dir", max).unwrap()
}

fn get(table: &BTreeMemtable, key: &str) -> GetResult<String> {
    match table.get(&key.to_string()) {
        GetResult::Found(v) => GetResult::Found(v.clone()),
        GetResult::Deleted => GetResult::Deleted,
        GetResult::NotFound => GetResult::NotFound,
    }
}

fn found(value: &str) -> GetResult<String> {
    GetResult::Found(value.to_string())
}

fn set(table: &mut BTreeMemtable, key: &str, value: &str) -> Option<MemtableEntries> {
    let mut journal = Vec::new();
    table.set(key.to_string(), value.to_string(), &mut journal).into_snapshot()
}

fn pairs(snapshot: &MemtableEntries) -> Vec<(String, String)> {
    (0..snapshot.entries.len())
        .map(|i| (snapshot.entries.key_at(i).clone(), snapshot.entries.value_at(i).clone()))
        .collect()
}

fn tombstones(snapshot: &MemtableEntries) -> Vec<String> {
    (0..snapshot.tombstones.len()).map(|i| snapshot.tombstones.key_at(i).clone()).collect()
}

#[test]
fn a_snapshot_finds_live_entries_and_tombstones() {
    let mut entries = SortedMap::new();
    entries.insert("a".to_string(), "1".to_string());
    let mut deleted = SortedMap::new();
    deleted.insert("b".to_string(), ());
    let snapshot = MemtableEntries { entries, tombstones: deleted };
    assert_eq!(snapshot.get(&"a".to_string()), GetResult::Found(&"1".to_string()));
    assert_eq!(snapshot.get(&"b".to_string()), GetResult::Deleted);
    assert_eq!(snapshot.get(&"c".to_string()), GetResult::NotFound);
}

#[test]
fn a_tombstone_hides_a_live_entry() {
    let mut entries = SortedMap::new();
    entries.insert("a".to_string(), "1".to_string());
    let mut deleted = SortedMap::new();
    deleted.insert("a".to_string(), ());
    let snapshot = MemtableEntries { entries, tombstones: deleted };
    assert_eq!(snapshot.get(&"a".to_string()), GetResult::Deleted);
}

#[test]
fn a_snapshot_is_handed_to_the_flush() {
    let mut entries = SortedMap::new();
    entries.insert("a".to_string(), "1".to_string());
    let snapshot = MemtableEntries { entries, tombstones: SortedMap::new() };
    let result = MemtableOnFlush::new(Some(snapshot)).on_flush(|m: MemtableEntries| {
        if m.entries.len() == 1 && m.entries.key_at(0) == "a" {
            Err(Error::CapacityExceeded)
        } else {
            Ok(())
        }
    });
    assert_eq!(result, Err(Error::CapacityExceeded));
    let mut entries = SortedMap::new();
    entries.insert("b".to_string(), "2".to_string());
    let snapshot = MemtableEntries { entries, tombstones: SortedMap::new() };
    assert_eq!(MemtableOnFlush::new(Some(snapshot)).on_flush(|_| Ok(())), Ok(()));
}

#[test]
fn without_a_snapshot_there_is_nothing_to_flush() {
    let result = MemtableOnFlush::new(None).on_flush(|_| Err(Error::IoError));
    assert_eq!(result, Ok(()));
    assert!(MemtableOnFlush::new(None).into_snapshot().is_none());
}

#[test]
fn a_new_table_is_empty() {
    let t = table(3);
    assert_eq!(get(&t, "a"), GetResult::NotFound);
}

#[test]
fn a_set_is_found() {
    let mut t = table(3);
    assert!(set(&mut t, "a", "1").is_none());
    assert_eq!(get(&t, "a"), found("1"));
    assert_eq!(get(&t, "b"), GetResult::NotFound);
}

#[test]
fn a_set_replaces_the_value() {
    let mut t = table(3);
    assert!(set(&mut t, "x", "1").is_none());
    assert!(set(&mut t, "x", "2").is_none());
    assert!(set(&mut t, "x", "3").is_none());
    assert!(set(&mut t, "x", "4").is_none());
    assert_eq!(get(&t, "x"), found("4"));
}

#[test]
fn a_delete_leaves_a_tombstone() {
    let mut t = table(3);
    let mut journal = Vec::new();
    set(&mut t, "a", "1");
    t.delete("a".to_string(), &mut journal);
    t.delete("never set".to_string(), &mut journal);
    assert_eq!(get(&t, "a"), GetResult::Deleted);
    assert_eq!(get(&t, "never set"), GetResult::Deleted);
    assert_eq!(get(&t, "b"), GetResult::NotFound);
}

#[test]
fn a_set_drops_the_tombstone() {
    let mut t = table(3);
    let mut journal = Vec::new();
    t.delete("a".to_string(), &mut journal);
    set(&mut t, "a", "2");
    assert_eq!(get(&t, "a"), found("2"));
}

#[test]
fn every_mutation_is_logged_before_it_is_applied() {
    let mut t = table(10);
    let mut journal = Vec::new();
    t.set("a".to_string(), "1".to_string(), &mut journal);
    t.delete("a".to_string(), &mut journal);
    t.set("b".to_string(), "2".to_string(), &mut journal);
    let line = |bytes: &[u8]| FileOp::Write {
        name: "wal.log".to_string(),
        option: FileOption::Append,
        bytes: bytes.to_vec(),
    };
    assert_eq!(journal, vec![line(b"I\0a\x001\n"), line(b"D\0a\n"), line(b"I\0b\x002\n")]);
}

#[test]
fn a_full_table_hands_over_all_it_holds() {
    let mut t = table(3);
    let mut journal = Vec::new();
    assert!(set(&mut t, "b", "2").is_none());
    t.delete("z".to_string(), &mut journal);
    assert!(set(&mut t, "a", "1").is_none());
    let snapshot = set(&mut t, "c", "3").expect("the third entry fills the table");
    assert_eq!(
        pairs(&snapshot),
        vec![
            ("a".to_string(), "1".to_string()),
            ("b".to_string(), "2".to_string()),
            ("c".to_string(), "3".to_string()),
        ]
    );
    assert_eq!(tombstones(&snapshot), vec!["z".to_string()]);
    assert_eq!(get(&t, "a"), GetResult::NotFound);
    assert_eq!(get(&t, "z"), GetResult::NotFound);
    assert!(set(&mut t, "d", "4").is_none());
    assert_eq!(get(&t, "d"), found("4"));
}

#[test]
fn overwrites_do_not_fill_the_table() {
    let mut t = table(2);
    assert!(set(&mut t, "x", "1").is_none());
    assert!(set(&mut t, "x", "2").is_none());
    assert!(set(&mut t, "x", "3").is_none());
    let snapshot = set(&mut t, "y", "1").expect("the second key fills the table");
    assert_eq!(
        pairs(&snapshot),
        vec![("x".to_string(), "3".to_string()), ("y".to_string(), "1".to_string())]
    );
}

#[test]
fn a_bound_of_one_flushes_every_set() {
    let mut t = table(1);
    assert_eq!(pairs(&set(&mut t, "a", "1").unwrap()).len(), 1);
    assert_eq!(pairs(&set(&mut t, "b", "2").unwrap()).len(), 1);
    let mut zero = table(0);
    assert_eq!(pairs(&set(&mut zero, "a", "1").unwrap()).len(), 1);
}

#[test]
fn a_snapshot_keeps_no_key_live_and_deleted() {
    let mut t = table(2);
    let mut journal = Vec::new();
    t.delete("a".to_string(), &mut journal);
    t.delete("b".to_string(), &mut journal);
    assert!(set(&mut t, "a", "1").is_none());
    let snapshot = set(&mut t, "c", "3").unwrap();
    assert_eq!(
        pairs(&snapshot),
        vec![("a".to_string(), "1".to_string()), ("c".to_string(), "3".to_string())]
    );
    assert_eq!(tombstones(&snapshot), vec!["b".to_string()]);
}

#[test]
fn the_log_is_replayed_into_a_new_table() {
    let log = b"I\0k1\0v1\nI\0k2\0v2\nD\0k1\nI\0k3\0v3\nD\0k3\nI\0k3\0again\n";
    let t = BTreeMemtable::new(&log_file(log), "dir", 3).unwrap();
    assert_eq!(get(&t, "k1"), GetResult::Deleted);
    assert_eq!(get(&t, "k2"), found("v2"));
    assert_eq!(get(&t, "k3"), found("again"));
    assert_eq!(get(&t, "k4"), GetResult::NotFound);
}

#[test]
fn a_replay_does_not_flush() {
    let log = b"I\0a\x001\nI\0b\x002\nI\0c\x003\nI\0d\x004\n";
    let mut t = BTreeMemtable::new(&log_file(log), "dir", 2).unwrap();
    assert_eq!(get(&t, "a"), found("1"));
    assert_eq!(get(&t, "d"), found("4"));
    let snapshot = set(&mut t, "e", "5").expect("the table is beyond its bound");
    assert_eq!(pairs(&snapshot).len(), 5);
}

#[test]
fn a_replay_ends_at_the_first_line_that_cannot_be_read() {
    let log = b"I\0k1\0v1\nX\0k2\0v2\nD\0k1\n";
    assert_eq!(BTreeMemtable::new(&log_file(log), "dir", 3).err(), Some(Error::CorruptData));
    let cut = b"I\0k1\0v1\nI\0k2";
    assert_eq!(BTreeMemtable::new(&log_file(cut), "dir", 3).err(), Some(Error::CorruptData));
}

#[test]
fn a_new_table_keeps_its_log() {
    let mut t = BTreeMemtable::new(&log_file(b"I\0a\x001\n"), "dir", 3).unwrap();
    let mut journal = Vec::new();
    t.delete("a".to_string(), &mut journal);
    assert_eq!(
        journal,
        vec![FileOp::Write {
            name: "wal.log".to_string(),
            option: FileOption::Append,
            bytes: b"D\0a\n".to_vec(),
        }]
    );
}

#[test]
fn a_clear_forgets_entries_tombstones_and_log() {
    let mut t = table(5);
    let mut journal = Vec::new();
    set(&mut t, "a", "1");
    t.delete("b".to_string(), &mut journal);
    journal.clear();
    t.clear(&mut journal);
    assert_eq!(get(&t, "a"), GetResult::NotFound);
    assert_eq!(get(&t, "b"), GetResult::NotFound);
    assert_eq!(
        journal,
        vec![FileOp::Write { name: "wal.log".to_string(), option: FileOption::New, bytes: vec![] }]
    );
}

#[test]
fn emptying_the_log_keeps_the_table() {
    let mut t = table(5);
    let mut journal = Vec::new();
    set(&mut t, "a", "1");
    t.clear_wal(&mut journal);
    assert_eq!(get(&t, "a"), found("1"));
    assert_eq!(
        journal,
        vec![FileOp::Write { name: "wal.log".to_string(), option: FileOption::New, bytes: vec![] }]
    );
}

#[test]
fn the_log_that_was_emptied_can_be_put_back() {
    let mut t = table(5);
    let mut journal = Vec::new();
    set(&mut t, "a", "1");
    t.delete("b".to_string(), &mut journal);
    let held = t.clear_wal(&mut journal);
    assert_eq!(held, b"I\0a\x001\nD\0b\n".to_vec());
    let before = journal.len();
    t.restore_wal(held);
    assert_eq!(journal.len(), before);
    assert_eq!(get(&t, "a"), found("1"));
    assert_eq!(get(&t, "b"), GetResult::Deleted);
    // The next line goes behind what was put back.
    let mut journal = Vec::new();
    t.delete("c".to_string(), &mut journal);
    let held = t.clear_wal(&mut journal);
    assert_eq!(held, b"I\0a\x001\nD\0b\nD\0c\n".to_vec());
}

#[test]
fn a_snapshot_merges_live_entries_and_tombstones_by_key() {
    let mut entries = SortedMap::new();
    entries.insert("b".to_string(), "2".to_string());
    entries.insert("d".to_string(), "4".to_string());
    entries.insert("c".to_string(), "3".to_string());
    let mut deleted = SortedMap::new();
    deleted.insert("e".to_string(), ());
    deleted.insert("a".to_string(), ());
    deleted.insert("c".to_string(), ());
    let snapshot = MemtableEntries { entries, tombstones: deleted };
    let merged = snapshot.merged();
    let mut got: Vec<(String, Option<String>)> = Vec::new();
    for i in 0..merged.len() {
        got.push((merged.key_at(i).clone(), merged.value_at(i).clone()));
    }
    assert_eq!(
        got,
        vec![
            ("a".to_string(), None),
            ("b".to_string(), Some("2".to_string())),
            ("c".to_string(), None),
            ("d".to_string(), Some("4".to_string())),
            ("e".to_string(), None),
        ]
    );
}
