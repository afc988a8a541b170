//! The index file of a generation and its sparse skip index.
//!
//! The index file holds one record per key, ascending by key:
//!
//! ```text
//! [key_len : u32 LE][key bytes][offset : u64 LE][0x00]
//! ```
//!
//! where `offset` is where the record of the key begins in the data file.
//! The skip index is a text file with one line `KEY<TAB>OFFSET<LF>` for
//! every `SKIP`-th key, `OFFSET` being where the index record of `KEY`
//! begins in the index file. It only narrows the scan of the index file.

use vstd::prelude::*;
use vstd::utf8::*;
use vstd::string::*;
use vstd::slice::{slice_subrange, slice_to_vec};
use crate::sst::error::Error;
use crate::sst::decimal::{
    decimal_bytes, decimal_digits, parse_u64, signed_chars, signed_string, spec_parse_u64,
};
use crate::sst::key_order::{bytes_lt, compare_keys, KeyOrder};
use crate::sst::split::{find_byte, index_of_byte, lines, LF};
use crate::sst::rich_file::{
    FileOp, FileOpView, FileOption, RichFile, content_of, ops_view, read_file,
};
use crate::sst::disktable::{DataGen, Offset};
use crate::sst::disktable::byte_utils::{
    ByteUtils, append_bytes, le_bytes, le_value, lemma_le_value_unfold,
};
use crate::sst::disktable::data_file::index_view;

verus! {

/// One key in `SKIP` gets a line in the skip index.
pub const SKIP: usize = 30;

/// The byte between the key and the offset of a skip line.
pub const TAB: u8 = 9;

/// The bytes of the index record of `key`, whose data record begins at
/// `offset`.
pub open spec fn index_record_bytes(key: Seq<char>, offset: Offset) -> Seq<u8> {
    let k = encode_utf8(key);
    le_bytes(k.len(), 4) + k + le_bytes(offset as nat, 8) + seq![0u8]
}

/// The bytes of an index file that holds `entries` in this order.
pub open spec fn index_bytes(entries: Seq<(Seq<char>, Offset)>) -> Seq<u8>
    decreases entries.len(),
{
    if entries.len() == 0 {
        Seq::empty()
    } else {
        index_bytes(entries.drop_last()) + index_record_bytes(entries.last().0, entries.last().1)
    }
}

/// The offset at which the index record `i` of `entries` begins.
pub open spec fn index_offset(entries: Seq<(Seq<char>, Offset)>, i: int) -> nat {
    index_bytes(entries.take(i)).len()
}

/// The length of every key of `entries` can be written in 4 bytes.
pub open spec fn keys_fit(entries: Seq<(Seq<char>, Offset)>) -> bool {
    forall|i: int| 0 <= i < entries.len() ==> encode_utf8(#[trigger] entries[i].0).len() <= u32::MAX
}

/// The line of the skip index that sends `key` to `offset`.
pub open spec fn skip_line(key: Seq<char>, offset: nat) -> Seq<u8> {
    encode_utf8(key) + seq![TAB] + decimal_bytes(offset) + seq![LF]
}

/// The bytes of a skip index over the first `n` of `entries` that has a
/// line for each place that `chosen` picks.
pub open spec fn skip_bytes(
    entries: Seq<(Seq<char>, Offset)>,
    n: int,
    chosen: spec_fn(int) -> bool,
) -> Seq<u8>
    decreases n,
{
    if n <= 0 {
        Seq::empty()
    } else if chosen(n - 1) {
        skip_bytes(entries, n - 1, chosen) + skip_line(
            entries[n - 1].0,
            index_offset(entries, n - 1),
        )
    } else {
        skip_bytes(entries, n - 1, chosen)
    }
}

/// The places that get a line when an index is written: every `SKIP`-th.
pub open spec fn every_skip() -> spec_fn(int) -> bool {
    |i: int| i % (SKIP as int) == SKIP - 1
}

/// The key and the offset that a line of the skip index holds: the key
/// ends at the first tab, and the rest is the offset in decimal.
pub open spec fn parse_skip_line(line: Seq<u8>) -> Option<(Seq<u8>, Offset)> {
    let tab = index_of_byte(line, TAB);
    if 0 <= tab < line.len() {
        match spec_parse_u64(line.skip(tab + 1)) {
            Some(offset) => Some((line.take(tab), offset)),
            None => None,
        }
    } else {
        None
    }
}

/// Where to begin the scan for `key`, given the lines of a skip index and
/// the offset `last` of the line read before: the lines are read as long
/// as their keys come before `key`, and the offset of the last such line
/// is where the scan begins. A line that cannot be read ends the reading.
pub open spec fn seek_in_lines(skip_lines: Seq<Seq<u8>>, key: Seq<u8>, last: Offset) -> Offset
    decreases skip_lines.len(),
{
    if skip_lines.len() == 0 {
        last
    } else {
        match parse_skip_line(skip_lines[0]) {
            Some((k, offset)) => if bytes_lt(k, key) {
                seek_in_lines(skip_lines.drop_first(), key, offset)
            } else {
                last
            },
            None => last,
        }
    }
}

/// Where the scan of the index file for `key` begins, given the bytes of
/// the skip index: at the record of the greatest key of the skip index
/// that comes before `key`, or at 0 if there is none.
pub open spec fn spec_seek_from(skip: Seq<u8>, key: Seq<char>) -> Offset {
    seek_in_lines(lines(skip), encode_utf8(key), 0)
}

/// What a scan of the index file `index` for `key` finds, begun at the
/// record at `pos`: the offset stored with the first record whose key is
/// `key`. The scan ends without a find at the end of the file, at a key of
/// length 0 and at a record that is cut short.
pub open spec fn spec_scan_index(index: Seq<u8>, pos: int, key: Seq<u8>) -> Option<Offset>
    decreases index.len() - pos,
{
    if pos < 0 || pos + 4 > index.len() {
        None
    } else {
        let key_len = le_value(index.subrange(pos, pos + 4)) as int;
        let key_end = pos + 4 + key_len;
        if key_len == 0 || key_end + 9 > index.len() {
            None
        } else if index.subrange(pos + 4, key_end) == key {
            Some(le_value(index.subrange(key_end, key_end + 8)) as Offset)
        } else {
            spec_scan_index(index, key_end + 9, key)
        }
    }
}

/// What a lookup of `key` finds in a generation with the index file
/// `index` and the skip index `skip`.
pub open spec fn spec_find_index(index: Seq<u8>, skip: Seq<u8>, key: Seq<char>) -> Option<Offset> {
    spec_scan_index(index, spec_seek_from(skip, key) as int, encode_utf8(key))
}

/// The name of the temporary file that an index of generation `data_gen`
/// is written to.
pub open spec fn spec_tmp_index_name(data_gen: DataGen) -> Seq<char> {
    "tmp_index_"@ + signed_chars(data_gen as int)
}

/// The file operations that publish an index file and its skip index:
/// both go to temporary files, which are then renamed into place.
pub open spec fn create_index_ops(
    data_gen: DataGen,
    index_name: Seq<char>,
    skip_name: Seq<char>,
    index: Seq<u8>,
    skip: Seq<u8>,
) -> Seq<FileOpView> {
    seq![
        FileOpView::Write {
            name: spec_tmp_index_name(data_gen),
            option: FileOption::New,
            bytes: index,
        },
        FileOpView::Write { name: "tmp_skip_index"@, option: FileOption::New, bytes: skip },
        FileOpView::Rename { from: spec_tmp_index_name(data_gen), to: index_name },
        FileOpView::Rename { from: "tmp_skip_index"@, to: skip_name },
    ]
}

/// The index file of one generation, with its skip index.
#[derive(Debug, Clone, PartialEq, Eq)]
pub struct IndexFile {
    /// The generation that the files belong to.
    pub data_gen: DataGen,
    /// The index file.
    pub file: RichFile,
    /// The skip index.
    pub skip_index_file: RichFile,
}

/// Where the record of a key is found.
#[derive(Debug, Clone, PartialEq, Eq)]
pub struct IndexEntry {
    /// The key.
    pub key: String,
    /// The generation whose data file holds the record.
    pub data_gen: DataGen,
    /// The offset at which the record begins in the data file.
    pub offset: Offset,
}

impl IndexFile {
    /// The name of the index file of generation `data_gen`.
    pub open spec fn spec_name(data_gen: DataGen) -> Seq<char> {
        "index_"@ + signed_chars(data_gen as int)
    }

    /// The name of the skip index of generation `data_gen`.
    pub open spec fn spec_skip_name(data_gen: DataGen) -> Seq<char> {
        "index_"@ + signed_chars(data_gen as int) + "_skip"@
    }

    /// The name of the index file of generation `data_gen`.
    pub fn name(data_gen: DataGen) -> (s: String)
        ensures
            s@ == Self::spec_name(data_gen),
    {
        let mut s = String::from_str("index_");
        s.append(signed_string(data_gen as i64).as_str());
        s
    }

    /// The name of the skip index of generation `data_gen`.
    pub fn skip_name(data_gen: DataGen) -> (s: String)
        ensures
            s@ == Self::spec_skip_name(data_gen),
    {
        let mut s = Self::name(data_gen);
        s.append("_skip");
        s
    }

    /// The name of the temporary file that the index of generation
    /// `data_gen` is written to.
    pub fn tmp_name(data_gen: DataGen) -> (s: String)
        ensures
            s@ == spec_tmp_index_name(data_gen),
    {
        let mut s = String::from_str("tmp_index_");
        s.append(signed_string(data_gen as i64).as_str());
        s
    }

    /// Binds handles to the index file and the skip index of generation
    /// `data_gen` among the files of the directory `dir`; a missing file is
    /// empty.
    pub fn of(files: &Vec<RichFile>, data_gen: DataGen, dir: &str) -> (f: IndexFile)
        ensures
            f.data_gen == data_gen,
            f.file.dir@ == dir@,
            f.file.name@ == Self::spec_name(data_gen),
            f.file.underlying@ == content_of(files@, Self::spec_name(data_gen)),
            f.skip_index_file.dir@ == dir@,
            f.skip_index_file.name@ == Self::spec_skip_name(data_gen),
            f.skip_index_file.underlying@ == content_of(files@, Self::spec_skip_name(data_gen)),
    {
        IndexFile {
            data_gen,
            file: Self::index_file(files, dir, data_gen),
            skip_index_file: Self::skip_index_file(files, dir, data_gen),
        }
    }

    fn index_file(files: &Vec<RichFile>, dir_name: &str, data_gen: DataGen) -> (f: RichFile)
        ensures
            f.dir@ == dir_name@,
            f.name@ == Self::spec_name(data_gen),
            f.underlying@ == content_of(files@, Self::spec_name(data_gen)),
    {
        let name = Self::name(data_gen);
        let bytes = read_file(files, name.as_str());
        RichFile::open_file(dir_name, name.as_str(), FileOption::Append, Some(bytes))
    }

    fn skip_index_file(files: &Vec<RichFile>, dir_name: &str, data_gen: DataGen) -> (f: RichFile)
        ensures
            f.dir@ == dir_name@,
            f.name@ == Self::spec_skip_name(data_gen),
            f.underlying@ == content_of(files@, Self::spec_skip_name(data_gen)),
    {
        let name = Self::skip_name(data_gen);
        let bytes = read_file(files, name.as_str());
        RichFile::open_file(dir_name, name.as_str(), FileOption::Append, Some(bytes))
    }

    /// Looks `key` up: narrows the scan with the skip index, then reads
    /// the index file record by record until the key is found.
    pub fn find_index(&self, key: &str) -> (r: Option<IndexEntry>)
        ensures
            match r {
                Some(e) => {
                    &&& spec_find_index(
                        self.file.underlying@,
                        self.skip_index_file.underlying@,
                        key@,
                    ) == Some(e.offset)
                    &&& e.key@ == key@
                    &&& e.data_gen == self.data_gen
                },
                None => spec_find_index(
                    self.file.underlying@,
                    self.skip_index_file.underlying@,
                    key@,
                ) is None,
            },
    {
        let start_offset = self.find_index_seek_from(key);
        let index = self.file.underlying.as_slice();
        let wanted = key.as_bytes();
        if start_offset > index.len() as u64 {
            return None;
        }
        let mut pos: usize = start_offset as usize;
        loop
            invariant
                pos <= index@.len(),
                index@ == self.file.underlying@,
                wanted@ == encode_utf8(key@),
                spec_find_index(self.file.underlying@, self.skip_index_file.underlying@, key@)
                    == spec_scan_index(index@, pos as int, wanted@),
            decreases index@.len() - pos,
        {
            let left = index.len() - pos;
            if left < 4 {
                return None;
            }
            proof {
                lemma_le_value_unfold(index@.subrange(pos as int, pos + 4));
            }
            let key_len = match ByteUtils::as_usize(slice_subrange(index, pos, pos + 4)) {
                Ok(n) => n,
                Err(_) => {
                    return None;
                },
            };
            let left = left - 4;
            if key_len == 0 || key_len > left || left - key_len < 9 {
                return None;
            }
            let key_end = pos + 4 + key_len;
            let stored = slice_subrange(index, pos + 4, key_end);
            if compare_keys(stored, wanted) == KeyOrder::Same {
                let offset = match ByteUtils::as_u64(slice_subrange(index, key_end, key_end + 8)) {
                    Ok(n) => n,
                    Err(_) => {
                        return None;
                    },
                };
                return Some(IndexEntry { key: key.to_owned(), data_gen: self.data_gen, offset });
            }
            pos = key_end + 9;
        }
    }

    /// Reads the skip index line by line and returns where the scan of the
    /// index file for `key` begins.
    pub fn find_index_seek_from(&self, key: &str) -> (r: Offset)
        ensures
            r == spec_seek_from(self.skip_index_file.underlying@, key@),
    {
        let skip = self.skip_index_file.underlying.as_slice();
        let wanted = key.as_bytes();
        let mut pos: usize = 0;
        let mut last_offset: Offset = 0;
        assert(skip@.skip(0) =~= skip@);
        while pos < skip.len()
            invariant
                pos <= skip@.len(),
                skip@ == self.skip_index_file.underlying@,
                wanted@ == encode_utf8(key@),
                spec_seek_from(skip@, key@) == seek_in_lines(
                    lines(skip@.skip(pos as int)),
                    wanted@,
                    last_offset,
                ),
            decreases skip@.len() - pos,
        {
            let end = find_byte(skip, pos, LF);
            let line = slice_subrange(skip, pos, end);
            proof {
                let tail = skip@.skip(pos as int);
                let n = end - pos;
                assert(tail.take(n) =~= line@);
                if end < skip.len() {
                    assert(tail.skip(n + 1) =~= skip@.skip(end + 1));
                    assert((seq![line@] + lines(skip@.skip(end + 1))).drop_first() =~= lines(
                        skip@.skip(end + 1),
                    ));
                } else {
                    assert(tail =~= line@);
                    assert(seq![line@].drop_first() =~= Seq::<Seq<u8>>::empty());
                }
                assert(lines(tail)[0] == line@);
                assert(line@.skip(0) =~= line@);
            }
            let tab = find_byte(line, 0, TAB);
            if tab >= line.len() {
                return last_offset;
            }
            let offset = match parse_u64(slice_subrange(line, tab + 1, line.len())) {
                Some(n) => n,
                None => {
                    assert(line@.skip(tab + 1) =~= line@.subrange(tab + 1, line@.len() as int));
                    return last_offset;
                },
            };
            assert(line@.skip(tab + 1) =~= line@.subrange(tab + 1, line@.len() as int));
            assert(line@.take(tab as int) =~= line@.subrange(0, tab as int));
            if compare_keys(slice_subrange(line, 0, tab), wanted) != KeyOrder::Before {
                return last_offset;
            }
            last_offset = offset;
            if end >= skip.len() {
                assert(seek_in_lines(
                    lines(skip@.skip(pos as int)).drop_first(),
                    wanted@,
                    offset,
                ) == offset);
                return last_offset;
            }
            pos = end + 1;
        }
        assert(skip@.skip(pos as int) =~= Seq::<u8>::empty());
        last_offset
    }

    /// Writes `index_entries`, which ascend by key, as the records of this
    /// index file, writes a line of the skip index for every `SKIP`-th of
    /// them, and queues the file operations that publish both files.
    ///
    /// Fails with `CorruptData`, changing nothing, if the length of a key
    /// cannot be written in 4 bytes.
    pub fn create_index(&mut self, index_entries: &Vec<(String, Offset)>, journal: &mut Vec<FileOp>) -> (r:
        Result<(), Error>)
        ensures
            match r {
                Ok(()) => {
                    &&& keys_fit(index_view(index_entries@))
                    &&& index_bytes(index_view(index_entries@)).len() <= usize::MAX
                    &&& final(self).file.underlying@ == index_bytes(index_view(index_entries@))
                    &&& final(self).skip_index_file.underlying@ == skip_bytes(
                        index_view(index_entries@),
                        index_entries@.len() as int,
                        every_skip(),
                    )
                    &&& final(self).data_gen == old(self).data_gen
                    &&& final(self).file.dir == old(self).file.dir
                    &&& final(self).file.name == old(self).file.name
                    &&& final(self).skip_index_file.dir == old(self).skip_index_file.dir
                    &&& final(self).skip_index_file.name == old(self).skip_index_file.name
                    &&& ops_view(final(journal)@) == ops_view(old(journal)@) + create_index_ops(
                        old(self).data_gen,
                        old(self).file.name@,
                        old(self).skip_index_file.name@,
                        final(self).file.underlying@,
                        final(self).skip_index_file.underlying@,
                    )
                },
                Err(e) => {
                    &&& e == Error::CorruptData
                    &&& !keys_fit(index_view(index_entries@))
                    &&& *final(self) == *old(self)
                    &&& *final(journal) == *old(journal)
                },
            },
    {
        let ghost entries = index_view(index_entries@);
        let n = index_entries.len();
        let mut index: Vec<u8> = Vec::new();
        let mut skip: Vec<u8> = Vec::new();
        let mut idx: usize = 0;
        assert(entries.take(0) =~= Seq::<(Seq<char>, Offset)>::empty());
        while idx < n
            invariant
                idx <= n,
                n == index_entries@.len(),
                entries == index_view(index_entries@),
                index@ == index_bytes(entries.take(idx as int)),
                skip@ == skip_bytes(entries, idx as int, every_skip()),
                forall|j: int|
                    0 <= j < idx ==> encode_utf8(#[trigger] entries[j].0).len() <= u32::MAX,
            decreases n - idx,
        {
            let key_bytes = index_entries[idx].0.as_str().as_bytes();
            let offset = index_entries[idx].1;
            assert(entries[idx as int] == (index_entries@[idx as int].0@, offset));
            let key_len = match ByteUtils::from_usize(key_bytes.len()) {
                Ok(b) => b,
                Err(_) => {
                    assert(encode_utf8(entries[idx as int].0).len() > u32::MAX);
                    return Err(Error::CorruptData);
                },
            };
            let record_start = index.len() as u64;
            if idx % SKIP == SKIP - 1 {
                append_bytes(&mut skip, key_bytes);
                skip.push(TAB);
                append_bytes(&mut skip, decimal_digits(record_start).as_slice());
                skip.push(LF);
            }
            append_bytes(&mut index, key_len.as_slice());
            append_bytes(&mut index, key_bytes);
            append_bytes(&mut index, ByteUtils::from_u64(offset).as_slice());
            index.push(0u8);
            proof {
                let next = entries.take(idx + 1);
                assert(next.drop_last() =~= entries.take(idx as int));
                assert(next.last() == entries[idx as int]);
                assert(index@ =~= index_bytes(entries.take(idx as int)) + index_record_bytes(
                    entries[idx as int].0,
                    offset,
                ));
                assert(every_skip()(idx as int) == (idx % SKIP == SKIP - 1));
                if idx % SKIP == SKIP - 1 {
                    assert(skip@ =~= skip_bytes(entries, idx as int, every_skip()) + skip_line(
                        entries[idx as int].0,
                        index_offset(entries, idx as int),
                    ));
                }
            }
            idx += 1;
        }
        proof {
            assert(entries.take(n as int) =~= entries);
        }
        let size = index.len();
        assert(index_bytes(entries).len() == size);
        let tmp_index = Self::tmp_name(self.data_gen);
        let tmp_skip = String::from_str("tmp_skip_index");
        let ghost before = journal@;
        journal.push(
            FileOp::Write {
                name: tmp_index.clone(),
                option: FileOption::New,
                bytes: slice_to_vec(index.as_slice()),
            },
        );
        journal.push(
            FileOp::Write {
                name: tmp_skip.clone(),
                option: FileOption::New,
                bytes: slice_to_vec(skip.as_slice()),
            },
        );
        journal.push(FileOp::Rename { from: tmp_index, to: self.file.name.clone() });
        journal.push(FileOp::Rename { from: tmp_skip, to: self.skip_index_file.name.clone() });
        self.file.underlying = index;
        self.skip_index_file.underlying = skip;
        proof {
            assert(ops_view(journal@) =~= ops_view(before) + create_index_ops(
                self.data_gen,
                self.file.name@,
                self.skip_index_file.name@,
                self.file.underlying@,
                self.skip_index_file.underlying@,
            ));
        }
        Ok(())
    }

    /// Queues the removal of the index file and the skip index of
    /// generation `data_gen`.
    pub fn clear(data_gen: DataGen, dir: &str, journal: &mut Vec<FileOp>)
        ensures
            ops_view(final(journal)@) == ops_view(old(journal)@) + seq![
                FileOpView::Remove { name: Self::spec_name(data_gen) },
                FileOpView::Remove { name: Self::spec_skip_name(data_gen) },
            ],
    {
        let ghost before = journal@;
        journal.push(FileOp::Remove { name: Self::name(data_gen) });
        journal.push(FileOp::Remove { name: Self::skip_name(data_gen) });
        assert(ops_view(journal@) =~= ops_view(before) + seq![
            FileOpView::Remove { name: Self::spec_name(data_gen) },
            FileOpView::Remove { name: Self::spec_skip_name(data_gen) },
        ]);
    }
}

} // verus!
