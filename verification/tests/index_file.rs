use rsstable::sst::disktable::index_file::{IndexEntry, IndexFile, SKIP};
use rsstable::sst::rich_file::{FileOp, FileOption, RichFile};

fn entries(n: usize) -> Vec<(String, u64)> {
    (0..n).map(|i| (format!("k{:03}", i), (i * 7) as u64)).collect()
}

fn written(entries: &Vec<(String, u64)>) -> IndexFile {
    let mut file = IndexFile::of(&Vec::new(), 2, "dir");
    let mut journal = Vec::new();
    file.create_index(entries, &mut journal).unwrap();
    file
}

fn index_file(index: &[u8], skip: &[u8]) -> IndexFile {
    let files = vec![
        RichFile::open_file("dir", "index_5", FileOption::Append, Some(index.to_vec())),
        RichFile::open_file("dir", "index_5_skip", FileOption::Append, Some(skip.to_vec())),
    ];
    IndexFile::of(&files, 5, "dir")
}

fn skip_with(file: &IndexFile, entries: &Vec<(String, u64)>, chosen: &[usize]) -> Vec<u8> {
    let mut skip = Vec::new();
    let mut offset = 0;
    for (i, (key, _)) in entries.iter().enumerate() {
        if chosen.contains(&i) {
            skip.extend_from_slice(format!("{}\t{}\n", key, offset).as_bytes());
        }
        offset += 4 + key.len() + 8 + 1;
    }
    assert_eq!(offset, file.file.underlying.len());
    skip
}

#[test]
fn index_files_are_named_by_their_generation() {
    assert_eq!(IndexFile::name(1), "index_1");
    assert_eq!(IndexFile::skip_name(1), "index_1_skip");
    assert_eq!(IndexFile::tmp_name(1), "tmp_index_1");
    assert_eq!(IndexFile::name(305), "index_305");
    assert_eq!(IndexFile::skip_name(305), "index_305_skip");
    assert_eq!(IndexFile::tmp_name(305), "tmp_index_305");
    assert_eq!(IndexFile::name(-3), "index_-3");
    assert_eq!(IndexFile::skip_name(-3), "index_-3_skip");
}

#[test]
fn handles_are_bound_to_the_files_of_their_generation() {
    let f = index_file(b"index", b"skip");
    assert_eq!(f.data_gen, 5);
    assert_eq!(f.file.name, "index_5");
    assert_eq!(f.file.underlying, b"index".to_vec());
    assert_eq!(f.skip_index_file.name, "index_5_skip");
    assert_eq!(f.skip_index_file.underlying, b"skip".to_vec());
    let missing = IndexFile::of(&Vec::new(), 6, "dir");
    assert_eq!(missing.file.underlying, Vec::<u8>::new());
    assert_eq!(missing.skip_index_file.underlying, Vec::<u8>::new());
}

#[test]
fn index_records_are_laid_out_with_a_length_prefix_and_a_sentinel() {
    let file = written(&vec![("a".to_string(), 0), ("bc".to_string(), 0x0102)]);
    let expected: Vec<u8> = vec![
        1, 0, 0, 0, b'a', 0, 0, 0, 0, 0, 0, 0, 0, 0, // "a" -> 0
        2, 0, 0, 0, b'b', b'c', 2, 1, 0, 0, 0, 0, 0, 0, 0, // "bc" -> 0x0102
    ];
    assert_eq!(file.file.underlying, expected);
    assert_eq!(file.skip_index_file.underlying, Vec::<u8>::new());
}

#[test]
fn every_thirtieth_key_gets_a_line_in_the_skip_index() {
    assert_eq!(SKIP, 30);
    assert_eq!(written(&entries(29)).skip_index_file.underlying, b"".to_vec());
    assert_eq!(
        written(&entries(30)).skip_index_file.underlying,
        b"k029\t493\n".to_vec()
    );
    assert_eq!(
        written(&entries(59)).skip_index_file.underlying,
        b"k029\t493\n".to_vec()
    );
    assert_eq!(
        written(&entries(95)).skip_index_file.underlying,
        b"k029\t493\nk059\t1003\nk089\t1513\n".to_vec()
    );
}

#[test]
fn the_files_are_published_by_renames() {
    let mut file = IndexFile::of(&Vec::new(), 2, "dir");
    let mut journal = Vec::new();
    file.create_index(&vec![("a".to_string(), 9)], &mut journal).unwrap();
    assert_eq!(
        journal,
        vec![
            FileOp::Write {
                name: "tmp_index_2".to_string(),
                option: FileOption::New,
                bytes: vec![1, 0, 0, 0, b'a', 9, 0, 0, 0, 0, 0, 0, 0, 0],
            },
            FileOp::Write {
                name: "tmp_skip_index".to_string(),
                option: FileOption::New,
                bytes: vec![],
            },
            FileOp::Rename { from: "tmp_index_2".to_string(), to: "index_2".to_string() },
            FileOp::Rename {
                from: "tmp_skip_index".to_string(),
                to: "index_2_skip".to_string()
            },
        ]
    );
}

#[test]
fn every_key_is_found_with_its_offset() {
    let all = entries(200);
    let file = written(&all);
    for (key, offset) in &all {
        assert_eq!(
            file.find_index(key),
            Some(IndexEntry { key: key.clone(), data_gen: 2, offset: *offset })
        );
    }
}

#[test]
fn a_key_that_was_not_written_is_not_found() {
    let file = written(&entries(200));
    for key in ["", "a", "k", "k0", "k0000", "k029x", "k100 ", "k200", "zzz", "k03"] {
        assert_eq!(file.find_index(key), None);
    }
}

#[test]
fn an_empty_index_finds_nothing() {
    assert_eq!(index_file(b"", b"").find_index("a"), None);
    assert_eq!(index_file(b"", b"a\t0\n").find_index("b"), None);
    assert_eq!(written(&Vec::new()).find_index("a"), None);
}

#[test]
fn a_truncated_tail_finds_nothing() {
    let mut file = written(&vec![("a".to_string(), 1), ("b".to_string(), 2)]);
    let whole = file.file.underlying.clone();
    assert_eq!(whole.len(), 28);
    for len in 14..28 {
        file.file.underlying = whole[..len].to_vec();
        assert_eq!(file.find_index("a").map(|e| e.offset), Some(1));
        assert_eq!(file.find_index("b"), None);
        assert_eq!(file.find_index("c"), None);
    }
    for len in 0..14 {
        file.file.underlying = whole[..len].to_vec();
        assert_eq!(file.find_index("a"), None);
    }
}

#[test]
fn a_key_length_of_zero_ends_the_scan() {
    let mut index = vec![0u8, 0, 0, 0, 0, 0, 0, 0, 0, 0, 0, 0, 0];
    index.extend_from_slice(&[1, 0, 0, 0, b'a', 5, 0, 0, 0, 0, 0, 0, 0, 0]);
    assert_eq!(index_file(&index, b"").find_index("a"), None);
    assert_eq!(index_file(&index, b"").find_index(""), None);
}

#[test]
fn the_scan_begins_at_the_greatest_skip_key_before_the_key() {
    let all = entries(100);
    let file = written(&all);
    assert_eq!(file.find_index_seek_from("a"), 0);
    assert_eq!(file.find_index_seek_from("k000"), 0);
    assert_eq!(file.find_index_seek_from("k028"), 0);
    assert_eq!(file.find_index_seek_from("k029"), 0);
    assert_eq!(file.find_index_seek_from("k0290"), 493);
    assert_eq!(file.find_index_seek_from("k030"), 493);
    assert_eq!(file.find_index_seek_from("k059"), 493);
    assert_eq!(file.find_index_seek_from("k060"), 1003);
    assert_eq!(file.find_index_seek_from("k089"), 1003);
    assert_eq!(file.find_index_seek_from("k090"), 1513);
    assert_eq!(file.find_index_seek_from("zzz"), 1513);
}

#[test]
fn a_skip_line_that_cannot_be_read_ends_the_reading() {
    let seek = |skip: &[u8], key: &str| index_file(b"", skip).find_index_seek_from(key);
    assert_eq!(seek(b"", "m"), 0);
    assert_eq!(seek(b"a\t10\nb\t20\n", "m"), 20);
    assert_eq!(seek(b"a\t10\nb\t20", "m"), 20);
    assert_eq!(seek(b"a\t10\nb 20\nc\t30\n", "m"), 10);
    assert_eq!(seek(b"a\t10\nb\t\nc\t30\n", "m"), 10);
    assert_eq!(seek(b"a\t10\nb\t2x\nc\t30\n", "m"), 10);
    assert_eq!(seek(b"a\t10\n\nc\t30\n", "m"), 10);
    assert_eq!(seek(b"a\tb\t10\nc\t30\n", "m"), 0);
    assert_eq!(seek(b"a\t99999999999999999999\nc\t30\n", "m"), 0);
    assert_eq!(seek(b"a\t10\nz\t20\nb\t30\n", "m"), 10);
}

#[test]
fn the_skip_index_is_only_a_shortcut() {
    let all = entries(100);
    let mut file = written(&all);
    let every_thirtieth = file.skip_index_file.underlying.clone();
    assert_eq!(every_thirtieth, skip_with(&file, &all, &[29, 59, 89]));
    let everywhere: Vec<usize> = (0..100).collect();
    let skips = vec![
        every_thirtieth,
        Vec::new(),
        skip_with(&file, &all, &everywhere),
        skip_with(&file, &all, &[0]),
        skip_with(&file, &all, &[99]),
        skip_with(&file, &all, &[3, 4, 50, 98]),
    ];
    let mut asked: Vec<String> = all.iter().map(|(k, _)| k.clone()).collect();
    for extra in ["", "a", "k0500", "k029 ", "k1", "zzz"] {
        asked.push(extra.to_string());
    }
    for skip in skips {
        file.skip_index_file.underlying = skip;
        for key in &asked {
            let expected = all.iter().find(|(k, _)| k == key).map(|(_, o)| *o);
            assert_eq!(file.find_index(key).map(|e| e.offset), expected);
        }
    }
}

#[test]
fn a_key_with_a_tab_is_found_whatever_the_skip_index_holds() {
    let mut all: Vec<(String, u64)> =
        (0..70).map(|i| (format!("k\t{:03}", i), i as u64)).collect();
    all.sort();
    let file = written(&all);
    assert_eq!(
        file.skip_index_file.underlying,
        b"k\t029\t522\nk\t059\t1062\n".to_vec()
    );
    for (key, offset) in &all {
        assert_eq!(file.find_index(key).map(|e| e.offset), Some(*offset));
    }
    assert_eq!(file.find_index("k"), None);
}

#[test]
fn a_scan_that_starts_beyond_the_file_finds_nothing() {
    let file = index_file(&[1, 0, 0, 0, b'b', 5, 0, 0, 0, 0, 0, 0, 0, 0], b"a\t15\n");
    assert_eq!(file.find_index("b"), None);
    let at_end = index_file(&[1, 0, 0, 0, b'b', 5, 0, 0, 0, 0, 0, 0, 0, 0], b"a\t14\n");
    assert_eq!(at_end.find_index("b"), None);
    let far = index_file(
        &[1, 0, 0, 0, b'b', 5, 0, 0, 0, 0, 0, 0, 0, 0],
        b"a\t18446744073709551615\n",
    );
    assert_eq!(far.find_index("b"), None);
}

#[test]
fn removals_are_queued_by_name() {
    let mut journal = Vec::new();
    IndexFile::clear(7, "dir", &mut journal);
    assert_eq!(
        journal,
        vec![
            FileOp::Remove { name: "index_7".to_string() },
            FileOp::Remove { name: "index_7_skip".to_string() },
        ]
    );
}
