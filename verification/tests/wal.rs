use rsstable::sst::error::Error;
use rsstable::sst::memtable::wal::{can_carry, Entry, WriteAheadLog};
use rsstable::sst::rich_file::{FileOp, FileOption, RichFile};

fn log_file(bytes: &[u8]) -> Vec<RichFile> {
    vec![
        RichFile::open_file("dir", "data_1", FileOption::Append, Some(b"I\0x\0y\n".to_vec())),
        RichFile::open_file("dir", "wal.log", FileOption::Append, Some(bytes.to_vec())),
    ]
}

fn inserted(key: &str, value: &str) -> Result<Entry, Error> {
    Ok(Entry::Inserted { key: key.to_string(), value: value.to_string() })
}

fn deleted(key: &str) -> Result<Entry, Error> {
    Ok(Entry::Deleted { key: key.to_string() })
}

#[test]
fn an_insertion_is_one_line() {
    let mut wal = WriteAheadLog::create(&Vec::new(), "dir");
    let mut journal = Vec::new();
    wal.insert(("k1", "v1"), &mut journal);
    assert_eq!(wal.as_bytes(), b"I\0k1\0v1\n");
    assert_eq!(
        journal,
        vec![FileOp::Write {
            name: "wal.log".to_string(),
            option: FileOption::Append,
            bytes: b"I\0k1\0v1\n".to_vec(),
        }]
    );
}

#[test]
fn a_deletion_is_one_line() {
    let mut wal = WriteAheadLog::create(&Vec::new(), "dir");
    let mut journal = Vec::new();
    wal.delete("k1", &mut journal);
    assert_eq!(wal.as_bytes(), b"D\0k1\n");
    assert_eq!(
        journal,
        vec![FileOp::Write {
            name: "wal.log".to_string(),
            option: FileOption::Append,
            bytes: b"D\0k1\n".to_vec(),
        }]
    );
}

#[test]
fn lines_are_appended_to_what_the_log_holds() {
    let mut wal = WriteAheadLog::create(&log_file(b"I\0a\0b\n"), "dir");
    let mut journal = Vec::new();
    wal.delete("a", &mut journal);
    wal.insert(("c", "d"), &mut journal);
    assert_eq!(wal.as_bytes(), b"I\0a\0b\nD\0a\nI\0c\0d\n");
    assert_eq!(journal.len(), 2);
}

#[test]
fn a_clear_empties_the_log() {
    let mut wal = WriteAheadLog::create(&log_file(b"I\0a\0b\n"), "dir");
    let mut journal = Vec::new();
    wal.clear(&mut journal);
    assert_eq!(wal.as_bytes(), b"");
    assert_eq!(
        journal,
        vec![FileOp::Write {
            name: "wal.log".to_string(),
            option: FileOption::New,
            bytes: vec![],
        }]
    );
}

#[test]
fn a_line_is_read_by_its_tag() {
    assert_eq!(WriteAheadLog::parse_line(b"I\0key\0value"), inserted("key", "value"));
    assert_eq!(WriteAheadLog::parse_line(b"D\0key"), deleted("key"));
    assert_eq!(WriteAheadLog::parse_line(b"I\0\0"), inserted("", ""));
    assert_eq!(WriteAheadLog::parse_line(b"D\0"), deleted(""));
    assert_eq!(
        WriteAheadLog::parse_line("I\0\u{3042}\0a\tb c".as_bytes()),
        inserted("\u{3042}", "a\tb c")
    );
}

#[test]
fn fields_beyond_the_value_are_not_read() {
    assert_eq!(WriteAheadLog::parse_line(b"I\0k\0v\0more"), inserted("k", "v"));
    assert_eq!(WriteAheadLog::parse_line(b"D\0k\0more\0fields"), deleted("k"));
}

#[test]
fn an_unknown_tag_is_corrupt() {
    for line in [&b"X\0k\0v"[..], b"\0k\0v", b"i\0k\0v", b"II\0k\0v", b"DI\0k", b"d\0k"] {
        assert_eq!(WriteAheadLog::parse_line(line), Err(Error::CorruptData));
    }
}

#[test]
fn a_line_with_too_few_fields_is_corrupt() {
    for line in [&b""[..], b"I", b"D", b"I\0k", b"I\0", b"Ik\0v"] {
        assert_eq!(WriteAheadLog::parse_line(line), Err(Error::CorruptData));
    }
}

#[test]
fn a_field_with_invalid_utf8_is_corrupt() {
    assert_eq!(WriteAheadLog::parse_line(b"I\0\xff\0v"), Err(Error::CorruptData));
    assert_eq!(WriteAheadLog::parse_line(b"I\0k\0\xc3"), Err(Error::CorruptData));
    assert_eq!(WriteAheadLog::parse_line(b"D\0\x80"), Err(Error::CorruptData));
}

#[test]
fn the_log_is_read_line_by_line() {
    let items = WriteAheadLog::restore(&log_file(b"I\0k1\0v1\nI\0k2\0v2\nD\0k1\n"));
    assert_eq!(items, vec![inserted("k1", "v1"), inserted("k2", "v2"), deleted("k1")]);
}

#[test]
fn a_missing_or_empty_log_has_no_items() {
    assert_eq!(WriteAheadLog::restore(&Vec::new()), vec![]);
    assert_eq!(WriteAheadLog::restore(&log_file(b"")), vec![]);
}

#[test]
fn a_malformed_line_is_an_error_item() {
    let items = WriteAheadLog::restore(&log_file(b"I\0k1\0v1\nbogus\n\nD\0k1\n"));
    assert_eq!(
        items,
        vec![
            inserted("k1", "v1"),
            Err(Error::CorruptData),
            Err(Error::CorruptData),
            deleted("k1"),
        ]
    );
}

#[test]
fn a_last_line_without_its_terminator_was_cut_short() {
    let items = WriteAheadLog::restore(&log_file(b"I\0k1\0v1\nI\0k2\0v"));
    assert_eq!(items, vec![inserted("k1", "v1"), Err(Error::CorruptData)]);
    assert_eq!(WriteAheadLog::restore(&log_file(b"D\0k")), vec![Err(Error::CorruptData)]);
}

#[test]
fn a_carriage_return_belongs_to_the_value() {
    let items = WriteAheadLog::restore(&log_file(b"I\0k\0v\r\n"));
    assert_eq!(items, vec![inserted("k", "v\r")]);
}

#[test]
fn what_was_logged_reads_back() {
    let mut wal = WriteAheadLog::create(&Vec::new(), "dir");
    let mut journal = Vec::new();
    wal.insert(("k1", "v1"), &mut journal);
    wal.insert(("key two", "value\ttwo"), &mut journal);
    wal.delete("k1", &mut journal);
    wal.insert(("\u{3042}", "\u{e9}"), &mut journal);
    let items = WriteAheadLog::restore(&log_file(wal.as_bytes()));
    assert_eq!(
        items,
        vec![
            inserted("k1", "v1"),
            inserted("key two", "value\ttwo"),
            deleted("k1"),
            inserted("\u{3042}", "\u{e9}"),
        ]
    );
}

#[test]
fn a_cleared_log_hands_out_what_it_held_and_takes_it_back() {
    let mut wal = WriteAheadLog::create(&log_file(b"I\0a\0b\n"), "dir");
    let mut journal = Vec::new();
    let held = wal.clear(&mut journal);
    assert_eq!(held, b"I\0a\0b\n".to_vec());
    assert_eq!(wal.as_bytes(), b"");
    wal.put_back(held);
    assert_eq!(wal.as_bytes(), b"I\0a\0b\n");
    assert_eq!(journal.len(), 1);
}

#[test]
fn text_with_a_separator_or_a_line_end_cannot_be_carried() {
    assert!(can_carry("k"));
    assert!(can_carry("key two"));
    assert!(can_carry("tab\tand\rreturn"));
    assert!(can_carry("\u{3042}\u{1f600}"));
    assert!(!can_carry(""));
    assert!(!can_carry("\0"));
    assert!(!can_carry("\n"));
    assert!(!can_carry("a\0"));
    assert!(!can_carry("a\nb"));
    assert!(!can_carry("ab\n"));
}
