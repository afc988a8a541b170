use rsstable::sst::error::Error;
use rsstable::sst::directory::Directory;
use rsstable::sst::rich_file::{FileOp, FileOption, RichFile};
use rsstable::sst::SSTable;

/// An engine together with its directory, in which every queued file
/// operation is carried out after every call.
struct Store {
    sst: SSTable,
    dir: Directory,
}

impl Store {
    fn open(dir_name: &str, mem_max_entry: usize, files: Vec<RichFile>) -> Store {
        let sst = SSTable::new(dir_name, mem_max_entry, &files).expect("the engine opens");
        Store { sst, dir: Directory::new(dir_name, files) }
    }

    fn new(dir_name: &str, mem_max_entry: usize) -> Store {
        Store::open(dir_name, mem_max_entry, Vec::new())
    }

    fn sync(&mut self) {
        let ops = self.sst.take_pending();
        self.dir.perform_all(ops);
    }

    fn get(&self, key: impl Into<String>) -> Option<String> {
        let key: String = key.into();
        self.sst.get(&key).expect("the read succeeds")
    }

    fn insert(&mut self, key: impl Into<String>, value: impl Into<String>) -> Result<(), Error> {
        let result = self.sst.insert(key.into(), value.into());
        self.sync();
        result
    }

    fn delete(&mut self, key: impl Into<String>) {
        self.sst.delete(key.into()).expect("the delete succeeds");
        self.sync();
    }

    fn clear(&mut self) -> Result<(), Error> {
        let result = self.sst.clear();
        self.sync();
        result
    }

    fn into_files(self) -> Vec<RichFile> {
        self.dir.files().clone()
    }

    fn restart(self, mem_max_entry: usize) -> Store {
        Store::open("./test_tmp", mem_max_entry, self.into_files())
    }

    fn names(&self) -> Vec<String> {
        let mut names: Vec<String> = self.dir.files().iter().map(|f| f.name.clone()).collect();
        names.sort();
        names
    }

    fn bytes(&self, name: &str) -> Vec<u8> {
        assert!(self.dir.lists(name));
        self.dir.files().iter().find(|f| f.name == name).expect("the file").underlying.clone()
    }
}

#[test]
fn test_sstable() {
    let key = |i| format!("key-{}", i);
    let value = |i| format!("value-{}", i);

    let mut sst = Store::new("./test_tmp", 200);
    assert!(sst.clear().is_ok());
    // get -> set -> get
    (1..300).for_each(|i| {
        assert_eq!(sst.get(key(i)), None);
        sst.insert(key(i), value(i)).expect("success");
        assert_eq!(sst.get(key(i)), Some(value(i)));
    });
    // get -> delete -> get
    (1..300).for_each(|i| {
        assert_eq!(sst.get(key(i)), Some(value(i)));
        sst.delete(key(i));
        assert_eq!(sst.get(key(i)), None);
    });
    // get
    (1..300).for_each(|i| {
        assert_eq!(sst.get(key(i)), None);
    });
}

#[test]
fn test_sstabl_tombstones() {
    let key = |i| format!("key-{}", i);
    let value = |i| format!("value-{}", i);
    let mut sst = Store::new("./test_tmp", 3);
    assert!(sst.clear().is_ok());
    (1..=5).for_each(|i| {
        sst.insert(key(i), value(i)).expect("success");
    });
    sst.delete(key(2));
    // restore WAL
    // memtable: [4, 5], tombstone: [2], disktable: [1, 2, 3]
    let sst = sst.restart(3);
    assert_eq!(sst.get(key(1)), Some(value(1)));
    assert_eq!(sst.get(key(2)), None);
    assert_eq!(sst.get(key(3)), Some(value(3)));
    assert_eq!(sst.get(key(4)), Some(value(4)));
    assert_eq!(sst.get(key(5)), Some(value(5)));
}

#[test]
fn the_third_insert_flushes_a_table_of_three() {
    let mut sst = Store::new("D", 3);
    sst.insert("a", "1").unwrap();
    sst.insert("b", "2").unwrap();
    assert_eq!(sst.names(), vec!["wal.log"]);
    assert_eq!(sst.bytes("wal.log"), b"I\0a\x001\nI\0b\x002\n".to_vec());
    sst.insert("c", "3").unwrap();
    assert_eq!(sst.names(), vec!["data_1", "index_1", "index_1_skip", "wal.log"]);
    assert_eq!(sst.bytes("wal.log"), b"".to_vec());
    assert_eq!(
        sst.bytes("data_1"),
        vec![
            1u8, 0, 0, 0, 1, 0, 0, 0, b'a', b'1', 0, 1, 0, 0, 0, 1, 0, 0, 0, b'b', b'2', 0, 1, 0,
            0, 0, 1, 0, 0, 0, b'c', b'3', 0,
        ]
    );
    sst.insert("d", "4").unwrap();
    assert_eq!(sst.get("a"), Some("1".to_string()));
    assert_eq!(sst.get("d"), Some("4".to_string()));
    assert_eq!(sst.get("z"), None);
    assert_eq!(sst.names(), vec!["data_1", "index_1", "index_1_skip", "wal.log"]);
    assert_eq!(sst.bytes("wal.log"), b"I\0d\x004\n".to_vec());
}

#[test]
fn the_queue_of_a_flushing_insert_ends_with_the_emptying_of_the_log() {
    let mut sst = SSTable::new("D", 2, &Vec::new()).unwrap();
    sst.insert("a".to_string(), "1".to_string()).unwrap();
    assert_eq!(
        sst.take_pending(),
        vec![FileOp::Write {
            name: "wal.log".to_string(),
            option: FileOption::Append,
            bytes: b"I\0a\x001\n".to_vec(),
        }]
    );
    assert_eq!(sst.take_pending(), vec![]);
    sst.insert("b".to_string(), "2".to_string()).unwrap();
    let ops = sst.take_pending();
    assert_eq!(ops.len(), 8);
    assert_eq!(
        ops[0],
        FileOp::Write {
            name: "wal.log".to_string(),
            option: FileOption::Append,
            bytes: b"I\0b\x002\n".to_vec(),
        }
    );
    assert_eq!(ops[2], FileOp::Rename { from: "tmp_data".to_string(), to: "data_1".to_string() });
    assert_eq!(
        ops[7],
        FileOp::Write { name: "wal.log".to_string(), option: FileOption::New, bytes: vec![] }
    );
}

#[test]
fn a_delete_hides_what_a_generation_holds() {
    let mut sst = Store::new("D", 3);
    for (k, v) in [("a", "1"), ("b", "2"), ("c", "3"), ("d", "4")] {
        sst.insert(k, v).unwrap();
    }
    sst.delete("a");
    assert_eq!(sst.get("a"), None);
    assert_eq!(sst.get("b"), Some("2".to_string()));
    assert_eq!(sst.bytes("wal.log"), b"I\0d\x004\nD\0a\n".to_vec());
    sst.insert("e", "5").unwrap();
    assert_eq!(sst.names(), vec!["data_1", "index_1", "index_1_skip", "wal.log"]);
    assert_eq!(sst.get("a"), None);
}

#[test]
fn a_delete_outlives_the_flushes_that_follow() {
    let mut sst = Store::new("D", 3);
    for (k, v) in [("a", "1"), ("b", "2"), ("c", "3"), ("d", "4")] {
        sst.insert(k, v).unwrap();
    }
    sst.delete("a");
    sst.delete("never written");
    assert_eq!(sst.get("a"), None);
    sst.insert("e", "5").unwrap();
    sst.insert("f", "6").unwrap();
    assert!(sst.names().contains(&"data_2".to_string()));
    assert_eq!(sst.bytes("wal.log"), b"".to_vec());
    assert_eq!(sst.bytes("data_2").len(), 33 + 11 + 23);
    assert_eq!(sst.get("never written"), None);
    assert_eq!(sst.get("a"), None);
    for i in 0..7 {
        sst.insert(format!("more-{}", i), "x").unwrap();
        assert_eq!(sst.get("a"), None);
    }
    assert!(sst.names().contains(&"data_4".to_string()));
    assert_eq!(sst.get("b"), Some("2".to_string()));
    let mut sst = sst.restart(3);
    assert_eq!(sst.get("a"), None);
    sst.insert("a", "again").unwrap();
    assert_eq!(sst.get("a"), Some("again".to_string()));
    for i in 0..3 {
        sst.insert(format!("last-{}", i), "y").unwrap();
    }
    assert_eq!(sst.get("a"), Some("again".to_string()));
}

#[test]
fn a_restart_replays_the_log() {
    let mut sst = Store::new("./test_tmp", 3);
    sst.insert("k1", "v1").unwrap();
    sst.insert("k2", "v2").unwrap();
    sst.delete("k1");
    assert_eq!(sst.names(), vec!["wal.log"]);
    let sst = sst.restart(3);
    assert_eq!(sst.get("k1"), None);
    assert_eq!(sst.get("k2"), Some("v2".to_string()));
}

#[test]
fn a_restart_keeps_the_log() {
    let mut sst = Store::new("./test_tmp", 10);
    sst.insert("k1", "v1").unwrap();
    let sst = sst.restart(10);
    let mut sst = sst.restart(10);
    assert_eq!(sst.get("k1"), Some("v1".to_string()));
    sst.insert("k2", "v2").unwrap();
    let sst = sst.restart(10);
    assert_eq!(sst.get("k1"), Some("v1".to_string()));
    assert_eq!(sst.get("k2"), Some("v2".to_string()));
    assert_eq!(sst.bytes("wal.log"), b"I\0k1\0v1\nI\0k2\0v2\n".to_vec());
}

#[test]
fn an_overwrite_in_the_table_is_one_entry() {
    let mut sst = Store::new("D", 2);
    sst.insert("x", "1").unwrap();
    sst.insert("x", "2").unwrap();
    assert_eq!(sst.get("x"), Some("2".to_string()));
    assert_eq!(sst.names(), vec!["wal.log"]);
    sst.insert("y", "3").unwrap();
    assert_eq!(sst.names(), vec!["data_1", "index_1", "index_1_skip", "wal.log"]);
    assert_eq!(sst.get("x"), Some("2".to_string()));
}

#[test]
fn an_overwrite_in_a_newer_generation_wins() {
    let mut sst = Store::new("D", 2);
    sst.insert("x", "1").unwrap();
    sst.insert("y", "1").unwrap();
    assert_eq!(sst.names(), vec!["data_1", "index_1", "index_1_skip", "wal.log"]);
    sst.insert("x", "2").unwrap();
    sst.insert("z", "1").unwrap();
    assert_eq!(
        sst.names(),
        vec![
            "data_1",
            "data_2",
            "index_1",
            "index_1_skip",
            "index_2",
            "index_2_skip",
            "wal.log"
        ]
    );
    assert_eq!(sst.get("x"), Some("2".to_string()));
    assert_eq!(sst.get("y"), Some("1".to_string()));
    assert_eq!(sst.get("z"), Some("1".to_string()));
    let sst = sst.restart(2);
    assert_eq!(sst.get("x"), Some("2".to_string()));
    assert_eq!(sst.get("y"), Some("1".to_string()));
    assert_eq!(sst.get("z"), Some("1".to_string()));
}

#[test]
fn a_clear_forgets_everything() {
    let mut sst = Store::new("D", 3);
    for i in 0..10 {
        sst.insert(format!("k{}", i), format!("v{}", i)).unwrap();
    }
    sst.delete("k3");
    assert_eq!(sst.names().len(), 10);
    assert_eq!(sst.clear(), Ok(()));
    for i in 0..10 {
        assert_eq!(sst.get(format!("k{}", i)), None);
    }
    assert_eq!(sst.names(), vec!["wal.log"]);
    assert_eq!(sst.bytes("wal.log"), b"".to_vec());
    sst.insert("k1", "again").unwrap();
    assert_eq!(sst.get("k1"), Some("again".to_string()));
    let sst = sst.restart(3);
    assert_eq!(sst.get("k1"), Some("again".to_string()));
    assert_eq!(sst.get("k2"), None);
}

#[test]
fn a_read_returns_the_last_write() {
    let mut sst = Store::new("D", 4);
    let mut expected: Vec<(String, Option<String>)> = Vec::new();
    let mut seed: u32 = 7;
    for step in 0..600 {
        seed = seed.wrapping_mul(1_103_515_245).wrapping_add(12_345);
        let key = format!("key-{}", (seed >> 16) % 25);
        seed = seed.wrapping_mul(1_103_515_245).wrapping_add(12_345);
        let delete = (seed >> 16) % 4 == 0;
        expected.retain(|(k, _)| *k != key);
        if delete {
            sst.delete(key.clone());
            expected.push((key.clone(), None));
        } else {
            let value = format!("value-{}", step);
            sst.insert(key.clone(), value.clone()).unwrap();
            expected.push((key.clone(), Some(value)));
        }
        assert_eq!(sst.get(key.clone()), expected.last().unwrap().1);
    }
    for (key, value) in &expected {
        assert_eq!(&sst.get(key.clone()), value);
    }
    let sst = sst.restart(4);
    for (key, value) in &expected {
        assert_eq!(&sst.get(key.clone()), value);
    }
}

#[test]
fn a_restart_changes_no_read() {
    let mut sst = Store::new("./test_tmp", 7);
    for i in 0..100 {
        sst.insert(format!("key-{}", i % 40), format!("value-{}", i)).unwrap();
        if i % 9 == 0 {
            sst.delete(format!("key-{}", (i + 3) % 40));
        }
    }
    let before: Vec<Option<String>> = (0..45).map(|i| sst.get(format!("key-{}", i))).collect();
    let files = sst.names();
    let sst = sst.restart(7);
    let after: Vec<Option<String>> = (0..45).map(|i| sst.get(format!("key-{}", i))).collect();
    assert_eq!(before, after);
    assert_eq!(sst.names(), files);
    assert!(before.iter().any(|v| v.is_some()));
    assert!(before.iter().any(|v| v.is_none()));
}

#[test]
fn as_many_inserts_as_the_bound_make_one_generation() {
    for bound in [1usize, 2, 5, 31, 64] {
        let mut sst = Store::new("D", bound);
        for i in 0..bound {
            assert_eq!(sst.names().iter().filter(|n| n.starts_with("data_")).count(), 0);
            sst.insert(format!("key-{:03}", i), format!("value-{}", i)).unwrap();
        }
        assert_eq!(sst.names(), vec!["data_1", "index_1", "index_1_skip", "wal.log"]);
        assert_eq!(sst.bytes("wal.log"), b"".to_vec());
        let record = |i: usize| 8 + 7 + format!("value-{}", i).len() + 1;
        assert_eq!(sst.bytes("data_1").len(), (0..bound).map(record).sum::<usize>());
        for i in 0..bound {
            assert_eq!(sst.get(format!("key-{:03}", i)), Some(format!("value-{}", i)));
        }
        assert_eq!(sst.get(format!("key-{:03}", bound)), None);
    }
}

#[test]
fn a_corrupt_log_fails_the_opening() {
    let files = vec![RichFile::open_file(
        "D",
        "wal.log",
        FileOption::Append,
        Some(b"I\0a\x001\nbogus\n".to_vec()),
    )];
    assert_eq!(SSTable::new("D", 3, &files).err(), Some(Error::CorruptData));
}

#[test]
fn missing_generations_are_empty() {
    let files = vec![RichFile::open_file("D", "data_5", FileOption::Append, None)];
    let mut sst = Store::open("D", 1, files);
    assert_eq!(sst.get("a"), None);
    sst.insert("a", "1").unwrap();
    assert!(sst.names().contains(&"data_6".to_string()));
    assert_eq!(sst.get("a"), Some("1".to_string()));
    let sst = SSTable::open("D", 3, &Vec::new(), 2).unwrap();
    assert_eq!(sst.get("a"), Ok(None));
}

#[test]
fn a_corrupt_generation_fails_the_read() {
    let mut sst = Store::new("D", 1);
    sst.insert("a", "1").unwrap();
    let mut files = sst.into_files();
    let data = files.iter_mut().find(|f| f.name == "data_1").unwrap();
    data.underlying.truncate(9);
    let sst = SSTable::new("D", 1, &files).unwrap();
    assert_eq!(sst.get("a"), Err(Error::CorruptData));
    assert_eq!(sst.get("b"), Ok(None));
    let data = files.iter_mut().find(|f| f.name == "data_1").unwrap();
    data.underlying = vec![1, 0, 0, 0, 1, 0, 0, 0, b'z', b'1', 0];
    let sst = SSTable::new("D", 1, &files).unwrap();
    assert_eq!(sst.get("a"), Ok(None));
}

#[test]
fn the_table_is_asked_before_the_generations() {
    let mut sst = Store::new("D", 2);
    sst.insert("a", "old").unwrap();
    sst.insert("b", "old").unwrap();
    sst.insert("a", "new").unwrap();
    assert_eq!(sst.get("a"), Some("new".to_string()));
    assert_eq!(sst.get("b"), Some("old".to_string()));
    sst.delete("b");
    assert_eq!(sst.get("b"), None);
    let mut files = sst.into_files();
    let data = files.iter_mut().find(|f| f.name == "data_1").unwrap();
    data.underlying.clear();
    let sst = SSTable::new("D", 2, &files).unwrap();
    assert_eq!(sst.get("a"), Ok(Some("new".to_string())));
    assert_eq!(sst.get("b"), Ok(None));
}

#[test]
fn text_that_the_files_can_carry_reads_back_from_a_generation() {
    let mut sst = Store::new("D", 4);
    let values = ["tab\there", "\u{3042}\u{1f600}", " ", "carriage\rreturn"];
    for (i, value) in values.iter().enumerate() {
        sst.insert(format!("key\t{}", i), *value).unwrap();
    }
    assert!(sst.names().contains(&"data_1".to_string()));
    for (i, value) in values.iter().enumerate() {
        assert_eq!(sst.get(format!("key\t{}", i)), Some(value.to_string()));
    }
    let sst = sst.restart(4);
    for (i, value) in values.iter().enumerate() {
        assert_eq!(sst.get(format!("key\t{}", i)), Some(value.to_string()));
    }
}

#[test]
fn text_that_the_files_cannot_carry_is_refused() {
    let mut sst = SSTable::new("D", 10, &Vec::new()).unwrap();
    sst.insert("k".to_string(), "v".to_string()).unwrap();
    sst.take_pending();
    for (key, value) in [
        ("", "v"),
        ("k", ""),
        ("a\nb", "v"),
        ("a\0b", "v"),
        ("k", "line\nfeed"),
        ("k", "nul\0byte"),
    ] {
        assert_eq!(sst.insert(key.to_string(), value.to_string()), Err(Error::CorruptData));
        assert_eq!(sst.take_pending(), vec![]);
    }
    for key in ["", "a\nb", "a\0b"] {
        assert_eq!(sst.delete(key.to_string()), Err(Error::CorruptData));
        assert_eq!(sst.take_pending(), vec![]);
        assert_eq!(sst.get(key), Ok(None));
    }
    assert_eq!(sst.get("k"), Ok(Some("v".to_string())));
    assert_eq!(sst.delete("k".to_string()), Ok(()));
    assert_eq!(sst.get("k"), Ok(None));
}

#[test]
fn a_flush_whose_files_could_not_be_written_is_taken_back() {
    let mut sst = Store::new("D", 3);
    for (k, v) in [("a", "1"), ("b", "2"), ("c", "3"), ("d", "4")] {
        sst.insert(k, v).unwrap();
    }
    sst.delete("a");
    sst.insert("e", "5").unwrap();
    let before = sst.names();
    let log = sst.bytes("wal.log");
    // The insert that flushes: the application writes the line of the log
    // and then fails on the first file of the new generation.
    assert_eq!(sst.sst.insert("f".to_string(), "6".to_string()), Ok(()));
    let mut ops = sst.sst.take_pending();
    assert_eq!(ops.len(), 8);
    sst.dir.perform(ops.remove(0));
    assert_eq!(sst.sst.flush_failed(Error::IoError), Err(Error::IoError));
    assert_eq!(sst.sst.take_pending(), vec![]);
    assert_eq!(sst.names(), before);
    let mut batch = log.clone();
    batch.extend_from_slice(b"I\0f\x006\n");
    assert_eq!(sst.bytes("wal.log"), batch);
    for (k, v) in [("b", "2"), ("c", "3"), ("d", "4"), ("e", "5"), ("f", "6")] {
        assert_eq!(sst.get(k), Some(v.to_string()));
    }
    assert_eq!(sst.get("a"), None);
    // A reopen recovers every acknowledged write from the log.
    let mut sst = sst.restart(3);
    for (k, v) in [("b", "2"), ("c", "3"), ("d", "4"), ("e", "5"), ("f", "6")] {
        assert_eq!(sst.get(k), Some(v.to_string()));
    }
    assert_eq!(sst.get("a"), None);
    sst.insert("g", "7").unwrap();
    assert!(sst.names().contains(&"data_2".to_string()));
    assert!(!sst.names().contains(&"data_3".to_string()));
    assert_eq!(sst.get("f"), Some("6".to_string()));
    assert_eq!(sst.get("a"), None);
}

#[test]
fn a_failure_that_follows_no_flush_changes_nothing() {
    let mut sst = SSTable::new("D", 3, &Vec::new()).unwrap();
    sst.insert("a".to_string(), "1".to_string()).unwrap();
    assert_eq!(sst.flush_failed(Error::IoError), Err(Error::IoError));
    assert_eq!(sst.take_pending(), vec![]);
    assert_eq!(sst.get("a"), Ok(Some("1".to_string())));
}
