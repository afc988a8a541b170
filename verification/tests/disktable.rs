use rsstable::sst::directory::Directory;
use rsstable::sst::disktable::{generation_from_capture, FileDisktable};
use rsstable::sst::error::Error;
use rsstable::sst::memtable::sorted_map::SortedMap;
use rsstable::sst::memtable::MemtableEntries;
use rsstable::sst::rich_file::{FileOp, FileOption, RichFile};

fn named(names: &[&str]) -> Vec<RichFile> {
    names
        .iter()
        .map(|n| RichFile::open_file("dir", n, FileOption::Append, None))
        .collect()
}

fn snapshot(pairs: &[(&str, &str)], deleted: &[&str]) -> MemtableEntries {
    let mut entries = SortedMap::new();
    for (k, v) in pairs {
        entries.insert(k.to_string(), v.to_string());
    }
    let mut tombstones = SortedMap::new();
    for k in deleted {
        tombstones.insert(k.to_string(), ());
    }
    MemtableEntries { entries, tombstones }
}

fn perform(files: &mut Vec<RichFile>, ops: Vec<FileOp>) {
    let mut dir = Directory::new("dir", files.clone());
    dir.perform_all(ops);
    *files = dir.files().clone();
}

fn flushed(generations: &[&[(&str, &str)]]) -> (FileDisktable, Vec<RichFile>) {
    let mut files = Vec::new();
    let mut table = FileDisktable::new(&files, "dir");
    for pairs in generations {
        let mut journal = Vec::new();
        table.flush(snapshot(pairs, &[]), &mut journal).unwrap();
        perform(&mut files, journal);
    }
    (table, files)
}

fn names(files: &Vec<RichFile>) -> Vec<String> {
    let mut names: Vec<String> = files.iter().map(|f| f.name.clone()).collect();
    names.sort();
    names
}

fn replace(files: &mut Vec<RichFile>, name: &str, bytes: &[u8]) {
    let file = files.iter_mut().find(|f| f.name == name).expect("the file to replace");
    file.underlying = bytes.to_vec();
}

#[test]
fn generations_are_read_from_the_names_of_data_files() {
    let files = named(&["wal.log", "data_1", "index_1", "index_1_skip", "data_12", "data_3"]);
    assert_eq!(FileDisktable::get_data_gens(&files), vec![1, 3, 12]);
    assert_eq!(FileDisktable::get_latest_data_gen(&files), 12);
}

#[test]
fn generations_are_listed_in_ascending_order() {
    let files = named(&["data_9", "data_2", "data_30", "data_2", "data_1", "data_10"]);
    assert_eq!(FileDisktable::get_data_gens(&files), vec![1, 2, 2, 9, 10, 30]);
    assert_eq!(FileDisktable::get_latest_data_gen(&files), 30);
    assert_eq!(FileDisktable::get_latest_data_gen(&named(&["data_0"])), 0);
    assert_eq!(FileDisktable::get_data_gens(&named(&["data_0"])), vec![0]);
}

#[test]
fn names_of_other_files_are_passed_over() {
    let files = named(&["wal.log", "index_7", "index_7_skip", "tmp_data", "data_", "data", "7"]);
    assert_eq!(FileDisktable::get_data_gens(&files), Vec::<i32>::new());
    assert_eq!(FileDisktable::get_latest_data_gen(&files), 0);
    assert_eq!(FileDisktable::get_latest_data_gen(&Vec::new()), 0);
}

#[test]
fn a_data_file_name_is_found_anywhere_in_a_name() {
    let files = named(&["old_data_4.bak", "data_007", "data_5x", "tmp_index_9"]);
    assert_eq!(FileDisktable::get_data_gens(&files), vec![4, 5, 7]);
}

#[test]
fn numbers_that_are_no_generation_are_passed_over() {
    let files = named(&["data_2147483648", "data_99999999999999999999", "data_\u{663}", "data_2"]);
    assert_eq!(FileDisktable::get_data_gens(&files), vec![2]);
    assert_eq!(FileDisktable::get_data_gens(&named(&["data_2147483647"])), vec![i32::MAX]);
}

#[test]
fn captured_digits_spell_a_generation() {
    assert_eq!(generation_from_capture("0"), Some(0));
    assert_eq!(generation_from_capture("12"), Some(12));
    assert_eq!(generation_from_capture("0012"), Some(12));
    assert_eq!(generation_from_capture("2147483647"), Some(i32::MAX));
    assert_eq!(generation_from_capture("2147483648"), None);
    assert_eq!(generation_from_capture(""), None);
    assert_eq!(generation_from_capture("data_1"), None);
    assert_eq!(generation_from_capture("\u{663}"), None);
}

#[test]
fn an_empty_directory_has_no_generation() {
    let table = FileDisktable::new(&Vec::new(), "dir");
    assert_eq!(table.find("a"), Ok(None));
}

#[test]
fn missing_files_are_empty_generations() {
    let files = named(&["data_3"]);
    let table = FileDisktable::new(&files, "dir");
    assert_eq!(table.find("a"), Ok(None));
    assert_eq!(table.data_file(3).unwrap().file.name, "data_3");
    assert_eq!(table.data_file(1).unwrap().file.underlying, Vec::<u8>::new());
    assert_eq!(table.index_file(2).unwrap().file.underlying, Vec::<u8>::new());
    let table = FileDisktable::with_generations(&Vec::new(), "dir", 2);
    assert_eq!(table.find("a"), Ok(None));
    assert_eq!(table.index_file(2).unwrap().skip_index_file.name, "index_2_skip");
}

#[test]
fn the_files_of_a_generation_are_bound_by_name() {
    let (_, files) = flushed(&[&[("a", "1")], &[("b", "2")]]);
    assert_eq!(
        names(&files),
        vec!["data_1", "data_2", "index_1", "index_1_skip", "index_2", "index_2_skip"]
    );
    let table = FileDisktable::new(&files, "dir");
    assert_eq!(table.data_file(1).unwrap().file.name, "data_1");
    assert_eq!(table.data_file(2).unwrap().file.name, "data_2");
    assert_eq!(
        table.data_file(2).unwrap().file.underlying,
        vec![1u8, 0, 0, 0, 1, 0, 0, 0, b'b', b'2', 0]
    );
    assert_eq!(table.index_file(1).unwrap().file.name, "index_1");
    assert_eq!(table.index_file(1).unwrap().skip_index_file.name, "index_1_skip");
    assert_eq!(
        table.index_file(1).unwrap().file.underlying,
        vec![1u8, 0, 0, 0, b'a', 0, 0, 0, 0, 0, 0, 0, 0, 0]
    );
}

#[test]
fn a_generation_that_there_is_not_has_no_files() {
    let (table, _) = flushed(&[&[("a", "1")], &[("b", "2")]]);
    assert!(table.data_file(0).is_none());
    assert!(table.data_file(3).is_none());
    assert!(table.data_file(-1).is_none());
    assert!(table.index_file(0).is_none());
    assert!(table.index_file(3).is_none());
    assert_eq!(table.fetch(0, 0), Ok(None));
    assert_eq!(table.fetch(3, 0), Ok(None));
    assert_eq!(table.fetch(i32::MIN, 0), Ok(None));
    let none = FileDisktable::with_generations(&Vec::new(), "dir", -4);
    assert!(none.data_file(1).is_none());
    assert_eq!(none.find("a"), Ok(None));
}

#[test]
fn a_record_is_fetched_by_generation_and_offset() {
    let (table, _) = flushed(&[&[("a", "1"), ("b", "2")], &[("c", "3")]]);
    assert_eq!(table.fetch(1, 0), Ok(Some(("a".to_string(), Some("1".to_string())))));
    assert_eq!(table.fetch(1, 11), Ok(Some(("b".to_string(), Some("2".to_string())))));
    assert_eq!(table.fetch(2, 0), Ok(Some(("c".to_string(), Some("3".to_string())))));
    assert_eq!(table.fetch(2, 11), Ok(None));
    assert_eq!(table.fetch(1, 3), Err(Error::CorruptData));
}

#[test]
fn a_flush_writes_the_next_generation() {
    let mut table = FileDisktable::new(&Vec::new(), "dir");
    let mut journal = Vec::new();
    table.flush(snapshot(&[("b", "2"), ("a", "1")], &["z"]), &mut journal).unwrap();
    let data = vec![
        1u8, 0, 0, 0, 1, 0, 0, 0, b'a', b'1', 0, 1, 0, 0, 0, 1, 0, 0, 0, b'b', b'2', 0, 1, 0, 0,
        0, 1, 0, 0, 0, b'z', 0xff, 0,
    ];
    let index = vec![
        1u8, 0, 0, 0, b'a', 0, 0, 0, 0, 0, 0, 0, 0, 0, 1, 0, 0, 0, b'b', 11, 0, 0, 0, 0, 0, 0,
        0, 0, 1, 0, 0, 0, b'z', 22, 0, 0, 0, 0, 0, 0, 0, 0,
    ];
    let write = |name: &str, bytes: Vec<u8>| FileOp::Write {
        name: name.to_string(),
        option: FileOption::New,
        bytes,
    };
    let rename =
        |from: &str, to: &str| FileOp::Rename { from: from.to_string(), to: to.to_string() };
    assert_eq!(
        journal,
        vec![
            write("tmp_data", data),
            rename("tmp_data", "data_1"),
            write("tmp_index_1", index),
            write("tmp_skip_index", vec![]),
            rename("tmp_index_1", "index_1"),
            rename("tmp_skip_index", "index_1_skip"),
        ]
    );
    assert_eq!(table.find("a"), Ok(Some("1".to_string())));
    assert_eq!(table.find("b"), Ok(Some("2".to_string())));
    assert_eq!(table.find("z"), Ok(None));
    let mut journal = Vec::new();
    table.flush(snapshot(&[("c", "3")], &[]), &mut journal).unwrap();
    assert_eq!(journal[1], rename("tmp_data", "data_2"));
    assert_eq!(journal[2], write("tmp_index_2", vec![1, 0, 0, 0, b'c', 0, 0, 0, 0, 0, 0, 0, 0, 0]));
    assert_eq!(journal[5], rename("tmp_skip_index", "index_2_skip"));
}

#[test]
fn the_newest_generation_wins() {
    let (table, files) = flushed(&[
        &[("x", "1"), ("y", "1")],
        &[("x", "2"), ("z", "1")],
        &[("w", "0"), ("x", "3")],
        &[("v", "9")],
    ]);
    for table in [table, FileDisktable::new(&files, "dir")] {
        assert_eq!(table.find("x"), Ok(Some("3".to_string())));
        assert_eq!(table.find("y"), Ok(Some("1".to_string())));
        assert_eq!(table.find("z"), Ok(Some("1".to_string())));
        assert_eq!(table.find("w"), Ok(Some("0".to_string())));
        assert_eq!(table.find("v"), Ok(Some("9".to_string())));
        assert_eq!(table.find("u"), Ok(None));
    }
}

#[test]
fn large_generations_are_found_through_their_skip_index() {
    let old: Vec<(String, String)> =
        (0..150).map(|i| (format!("key-{}", i), format!("old-{}", i))).collect();
    let new: Vec<(String, String)> =
        (100..400).map(|i| (format!("key-{}", i), format!("new-{}", i))).collect();
    let old: Vec<(&str, &str)> = old.iter().map(|(k, v)| (k.as_str(), v.as_str())).collect();
    let new: Vec<(&str, &str)> = new.iter().map(|(k, v)| (k.as_str(), v.as_str())).collect();
    let (table, _) = flushed(&[&old, &new]);
    assert!(!table.index_file(2).unwrap().skip_index_file.underlying.is_empty());
    for i in 0..100 {
        assert_eq!(table.find(&format!("key-{}", i)), Ok(Some(format!("old-{}", i))));
    }
    for i in 100..400 {
        assert_eq!(table.find(&format!("key-{}", i)), Ok(Some(format!("new-{}", i))));
    }
    assert_eq!(table.find("key-400"), Ok(None));
    assert_eq!(table.find("key"), Ok(None));
}

#[test]
fn a_corrupt_record_fails_the_lookup() {
    let (_, mut files) = flushed(&[&[("a", "1")], &[("b", "2")]]);
    replace(&mut files, "data_2", &[1, 0, 0, 0, 1, 0, 0, 0, b'b']);
    let table = FileDisktable::new(&files, "dir");
    assert_eq!(table.find("b"), Err(Error::CorruptData));
    assert_eq!(table.find("a"), Ok(Some("1".to_string())));
    replace(&mut files, "data_2", &[1, 0, 0, 0, 1, 0, 0, 0, b'b', 0xfe, 0]);
    let table = FileDisktable::new(&files, "dir");
    assert_eq!(table.find("b"), Err(Error::CorruptData));
    replace(&mut files, "data_2", &[1, 0, 0, 0, 1, 0, 0, 0, b'b', 0xff, 0]);
    let table = FileDisktable::new(&files, "dir");
    assert_eq!(table.find("b"), Ok(None));
}

#[test]
fn a_generation_whose_index_and_data_disagree_is_passed_over() {
    let (_, mut files) = flushed(&[&[("a", "1"), ("b", "old")], &[("b", "2")]]);
    replace(&mut files, "data_2", &[1, 0, 0, 0, 1, 0, 0, 0, b'c', b'2', 0]);
    let table = FileDisktable::new(&files, "dir");
    assert_eq!(table.find("b"), Ok(Some("old".to_string())));
    assert_eq!(table.find("c"), Ok(None));
    assert_eq!(table.find("a"), Ok(Some("1".to_string())));
    replace(&mut files, "data_2", &[]);
    let table = FileDisktable::new(&files, "dir");
    assert_eq!(table.find("b"), Ok(Some("old".to_string())));
    replace(&mut files, "data_2", &[0, 0, 0, 0, 1, 0, 0, 0, b'2', 0]);
    let table = FileDisktable::new(&files, "dir");
    assert_eq!(table.find("b"), Ok(Some("old".to_string())));
}

#[test]
fn a_generation_without_its_index_holds_nothing() {
    let (_, mut files) = flushed(&[&[("a", "1")], &[("a", "2"), ("b", "2")]]);
    files.retain(|f| f.name != "index_2");
    files.push(RichFile::open_file("dir", "index_2", FileOption::Append, None));
    let table = FileDisktable::new(&files, "dir");
    assert_eq!(table.find("a"), Ok(Some("1".to_string())));
    assert_eq!(table.find("b"), Ok(None));
}

#[test]
fn a_clear_removes_every_generation() {
    let (mut table, mut files) = flushed(&[&[("a", "1")], &[("b", "2")]]);
    let mut journal = Vec::new();
    assert_eq!(table.clear(&mut journal), Ok(()));
    let remove = |name: &str| FileOp::Remove { name: name.to_string() };
    assert_eq!(
        journal,
        vec![
            remove("data_1"),
            remove("index_1"),
            remove("index_1_skip"),
            remove("data_2"),
            remove("index_2"),
            remove("index_2_skip"),
        ]
    );
    perform(&mut files, journal);
    assert_eq!(files.len(), 0);
    assert_eq!(table.find("a"), Ok(None));
    assert_eq!(table.find("b"), Ok(None));
    let mut journal = Vec::new();
    table.flush(snapshot(&[("c", "3")], &[]), &mut journal).unwrap();
    assert_eq!(
        journal[1],
        FileOp::Rename { from: "tmp_data".to_string(), to: "data_1".to_string() }
    );
}

fn flushed_with_tombstones(
    generations: &[(&[(&str, &str)], &[&str])],
) -> (FileDisktable, Vec<RichFile>) {
    let mut files = Vec::new();
    let mut table = FileDisktable::new(&files, "dir");
    for (pairs, deleted) in generations {
        let mut journal = Vec::new();
        table.flush(snapshot(pairs, deleted), &mut journal).unwrap();
        perform(&mut files, journal);
    }
    (table, files)
}

#[test]
fn a_tombstone_in_a_newer_generation_hides_older_values() {
    let (table, files) = flushed_with_tombstones(&[
        (&[("a", "1"), ("b", "1")], &[]),
        (&[("c", "2")], &["a"]),
        (&[("d", "3")], &[]),
    ]);
    for table in [table, FileDisktable::new(&files, "dir")] {
        assert_eq!(table.find("a"), Ok(None));
        assert_eq!(table.find("b"), Ok(Some("1".to_string())));
        assert_eq!(table.find("c"), Ok(Some("2".to_string())));
        assert_eq!(table.find("d"), Ok(Some("3".to_string())));
        assert_eq!(table.fetch(2, 0), Ok(Some(("a".to_string(), None))));
    }
}

#[test]
fn a_value_in_a_newer_generation_wins_over_an_older_tombstone() {
    let (table, _) = flushed_with_tombstones(&[
        (&[("a", "1")], &[]),
        (&[("b", "2")], &["a"]),
        (&[("a", "3")], &[]),
    ]);
    assert_eq!(table.find("a"), Ok(Some("3".to_string())));
}

#[test]
fn a_failed_flush_is_taken_back() {
    let (mut table, _) = flushed_with_tombstones(&[(&[("a", "1"), ("b", "1")], &[])]);
    let mut journal = Vec::new();
    table.flush(snapshot(&[("c", "2")], &["a"]), &mut journal).unwrap();
    assert!(table.data_file(2).is_some());
    table.flush_failed();
    assert!(table.data_file(2).is_none());
    assert!(table.data_file(1).is_some());
    assert_eq!(table.find("a"), Ok(None));
    assert_eq!(table.find("b"), Ok(Some("1".to_string())));
    assert_eq!(table.find("c"), Ok(Some("2".to_string())));
    let mut journal = Vec::new();
    table.flush(snapshot(&[("d", "3")], &[]), &mut journal).unwrap();
    assert_eq!(
        journal[1],
        FileOp::Rename { from: "tmp_data".to_string(), to: "data_2".to_string() }
    );
}

#[test]
fn a_confirmed_flush_is_not_taken_back() {
    let (mut table, _) = flushed_with_tombstones(&[(&[("a", "1")], &[])]);
    table.confirm();
    table.flush_failed();
    assert!(table.data_file(1).is_some());
    assert_eq!(table.find("a"), Ok(Some("1".to_string())));
}
