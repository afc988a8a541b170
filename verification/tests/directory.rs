use rsstable::sst::directory::Directory;
use rsstable::sst::rich_file::{FileOp, FileOption, RichFile};

fn file(name: &str, bytes: &[u8]) -> RichFile {
    RichFile::open_file("dir", name, FileOption::Append, Some(bytes.to_vec()))
}

fn write(name: &str, option: FileOption, bytes: &[u8]) -> FileOp {
    FileOp::Write { name: name.to_string(), option, bytes: bytes.to_vec() }
}

fn rename(from: &str, to: &str) -> FileOp {
    FileOp::Rename { from: from.to_string(), to: to.to_string() }
}

fn remove(name: &str) -> FileOp {
    FileOp::Remove { name: name.to_string() }
}

fn contents(dir: &Directory) -> Vec<(String, Vec<u8>)> {
    let mut all: Vec<(String, Vec<u8>)> =
        dir.files().iter().map(|f| (f.name.clone(), f.underlying.clone())).collect();
    all.sort();
    all
}

fn pair(name: &str, bytes: &[u8]) -> (String, Vec<u8>) {
    (name.to_string(), bytes.to_vec())
}

#[test]
fn a_write_in_append_mode_adds_to_the_end() {
    let mut dir = Directory::new("dir", vec![file("wal.log", b"ab")]);
    dir.perform(write("wal.log", FileOption::Append, b"cd"));
    dir.perform(write("other", FileOption::Append, b"x"));
    assert_eq!(contents(&dir), vec![pair("other", b"x"), pair("wal.log", b"abcd")]);
}

#[test]
fn a_write_in_truncate_mode_replaces_the_bytes() {
    let mut dir = Directory::new("dir", vec![file("wal.log", b"ab")]);
    dir.perform(write("wal.log", FileOption::New, b""));
    assert_eq!(contents(&dir), vec![pair("wal.log", b"")]);
    dir.perform(write("wal.log", FileOption::New, b"xyz"));
    dir.perform(write("tmp_data", FileOption::New, b"d"));
    assert_eq!(contents(&dir), vec![pair("tmp_data", b"d"), pair("wal.log", b"xyz")]);
}

#[test]
fn a_rename_replaces_the_target() {
    let mut dir = Directory::new("dir", vec![file("tmp_data", b"new"), file("data_1", b"old")]);
    dir.perform(rename("tmp_data", "data_1"));
    assert_eq!(contents(&dir), vec![pair("data_1", b"new")]);
    assert!(dir.lists("data_1"));
    assert!(!dir.lists("tmp_data"));
    dir.perform(rename("data_1", "data_2"));
    assert_eq!(contents(&dir), vec![pair("data_2", b"new")]);
    dir.perform(rename("data_2", "data_2"));
    assert_eq!(contents(&dir), vec![pair("data_2", b"new")]);
}

#[test]
fn a_rename_of_a_missing_file_does_nothing() {
    let mut dir = Directory::new("dir", vec![file("data_1", b"old")]);
    dir.perform(rename("tmp_data", "data_1"));
    assert_eq!(contents(&dir), vec![pair("data_1", b"old")]);
}

#[test]
fn a_removal_takes_the_file_away() {
    let mut dir = Directory::new("dir", vec![file("a", b"1"), file("b", b"2"), file("a", b"3")]);
    dir.perform(remove("a"));
    assert_eq!(contents(&dir), vec![pair("b", b"2")]);
    dir.perform(remove("a"));
    dir.perform(remove("zz"));
    assert_eq!(contents(&dir), vec![pair("b", b"2")]);
}

#[test]
fn operations_are_carried_out_in_order() {
    let mut dir = Directory::new("dir", Vec::new());
    dir.perform_all(vec![
        write("wal.log", FileOption::Append, b"I\0a\x001\n"),
        write("tmp_data", FileOption::New, b"data"),
        rename("tmp_data", "data_1"),
        write("tmp_index_1", FileOption::New, b"index"),
        write("tmp_skip_index", FileOption::New, b""),
        rename("tmp_index_1", "index_1"),
        rename("tmp_skip_index", "index_1_skip"),
        write("wal.log", FileOption::New, b""),
    ]);
    assert_eq!(
        contents(&dir),
        vec![
            pair("data_1", b"data"),
            pair("index_1", b"index"),
            pair("index_1_skip", b""),
            pair("wal.log", b""),
        ]
    );
    assert_eq!(dir.files()[0].dir, "dir");
}
