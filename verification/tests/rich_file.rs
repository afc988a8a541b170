use rsstable::sst::rich_file::{read_file, FileOption, RichFile};

fn file(name: &str, bytes: &[u8]) -> RichFile {
    RichFile::open_file("dir", name, FileOption::Append, Some(bytes.to_vec()))
}

#[test]
fn truncate_create_starts_empty() {
    assert_eq!(FileOption::New.opened(Some(vec![1, 2, 3])), Vec::<u8>::new());
    assert_eq!(FileOption::New.opened(None), Vec::<u8>::new());
}

#[test]
fn append_create_keeps_the_bytes() {
    assert_eq!(FileOption::Append.opened(Some(vec![1, 2, 3])), vec![1u8, 2, 3]);
    assert_eq!(FileOption::Append.opened(None), Vec::<u8>::new());
}

#[test]
fn read_only_creates_a_missing_file_empty() {
    assert_eq!(FileOption::ReadOnly.opened(Some(vec![9])), vec![9u8]);
    assert_eq!(FileOption::ReadOnly.opened(None), Vec::<u8>::new());
}

#[test]
fn a_handle_carries_directory_name_and_bytes() {
    let f = RichFile::open_file("./tmp", "data_1", FileOption::Append, Some(vec![7, 8]));
    assert_eq!(f.dir, "./tmp");
    assert_eq!(f.name, "data_1");
    assert_eq!(f.underlying, vec![7u8, 8]);
    let g = RichFile::open_file("./tmp", "tmp_data", FileOption::New, Some(vec![7, 8]));
    assert_eq!(g.name, "tmp_data");
    assert_eq!(g.underlying, Vec::<u8>::new());
}

#[test]
fn a_file_is_read_by_its_name() {
    let files = vec![file("wal.log", b"w"), file("data_1", b"d"), file("index_1", b"i")];
    assert_eq!(read_file(&files, "data_1"), b"d".to_vec());
    assert_eq!(read_file(&files, "wal.log"), b"w".to_vec());
    assert_eq!(read_file(&files, "index_1"), b"i".to_vec());
}

#[test]
fn a_missing_file_reads_as_empty() {
    let files = vec![file("data_1", b"d")];
    assert_eq!(read_file(&files, "data_2"), Vec::<u8>::new());
    assert_eq!(read_file(&files, "data_"), Vec::<u8>::new());
    assert_eq!(read_file(&Vec::new(), "data_1"), Vec::<u8>::new());
}

#[test]
fn the_first_of_two_files_of_one_name_is_read() {
    let files = vec![file("a", b"first"), file("a", b"second")];
    assert_eq!(read_file(&files, "a"), b"first".to_vec());
}
