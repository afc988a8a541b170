//! The data file of a generation: its records, one after the other.
//!
//! A record is laid out as
//!
//! ```text
//! [key_len : u32 LE][val_len : u32 LE][key bytes][value bytes][0x00]
//! ```
//!
//! and is addressed by the offset of the first byte of `key_len`. The
//! record of a deleted key, its tombstone, has the one byte `0xFF` for a
//! value, which no text has.

use vstd::prelude::*;
use vstd::utf8::*;
use vstd::string::*;
use vstd::slice::{slice_subrange, slice_to_vec};
use crate::sst::error::Error;
use crate::sst::decimal::{signed_chars, signed_string};
use crate::sst::rich_file::{
    FileOp, FileOpView, FileOption, RichFile, content_of, ops_view, read_file,
};
use crate::sst::memtable::MemtableEntries;
use crate::sst::memtable::sorted_map::{opt_text, with_opt_text};
use crate::sst::disktable::{DataGen, Offset};
use crate::sst::disktable::byte_utils::{
    ByteUtils, append_bytes, le_bytes, le_value, lemma_le_bytes_len, lemma_le_value_of_bytes,
    lemma_le_value_unfold,
};

verus! {

/// The byte that stands for the value of a deleted key.
pub const TOMBSTONE: u8 = 0xff;

/// A key with its value, or with none if the key is deleted.
pub type Record = (Seq<char>, Option<Seq<char>>);

/// The bytes that a record holds for its value: the UTF-8 bytes of the
/// value, or the tombstone byte.
pub open spec fn value_bytes(value: Option<Seq<char>>) -> Seq<u8> {
    match value {
        Some(text) => encode_utf8(text),
        None => seq![TOMBSTONE],
    }
}

/// The bytes of the record that holds `key` and `value`.
pub open spec fn record_bytes(key: Seq<char>, value: Option<Seq<char>>) -> Seq<u8> {
    let k = encode_utf8(key);
    let v = value_bytes(value);
    le_bytes(k.len(), 4) + le_bytes(v.len(), 4) + k + v + seq![0u8]
}

/// The lengths of `key` and `value` can be written in 4 bytes each.
pub open spec fn record_fits(key: Seq<char>, value: Option<Seq<char>>) -> bool {
    encode_utf8(key).len() <= u32::MAX && value_bytes(value).len() <= u32::MAX
}

/// Every record of `records` fits.
pub open spec fn all_fit(records: Seq<Record>) -> bool {
    forall|i: int| 0 <= i < records.len() ==> record_fits(#[trigger] records[i].0, records[i].1)
}

/// The bytes of a data file that holds `records` in this order.
pub open spec fn data_bytes(records: Seq<Record>) -> Seq<u8>
    decreases records.len(),
{
    if records.len() == 0 {
        Seq::empty()
    } else {
        data_bytes(records.drop_last()) + record_bytes(records.last().0, records.last().1)
    }
}

/// The offset at which record `i` of `records` begins in their data file.
pub open spec fn record_offset(records: Seq<Record>, i: int) -> nat {
    data_bytes(records.take(i)).len()
}

/// The key of each record with the offset at which the record begins.
pub open spec fn data_index(records: Seq<Record>) -> Seq<(Seq<char>, Offset)> {
    Seq::new(records.len(), |i: int| (records[i].0, record_offset(records, i) as Offset))
}

/// Keys with offsets as mathematical values.
pub open spec fn index_view(index: Seq<(String, Offset)>) -> Seq<(Seq<char>, Offset)> {
    index.map_values(|p: (String, Offset)| (p.0@, p.1))
}

/// What a read at `offset` of a data file with the bytes `data` yields.
///
/// Past the end of the file there is no record, and a record with a key
/// or value of length 0 ends the file. A record whose value is the
/// tombstone byte is the record of a deleted key. A record that is cut
/// short, that does not end in the sentinel or that holds invalid UTF-8
/// is corrupt.
pub open spec fn spec_read_entry(data: Seq<u8>, offset: Offset) -> Result<Option<Record>, Error> {
    let at = offset as int;
    if at >= data.len() {
        Ok(None)
    } else if at + 8 > data.len() {
        Err(Error::CorruptData)
    } else {
        let key_len = le_value(data.subrange(at, at + 4)) as int;
        let value_len = le_value(data.subrange(at + 4, at + 8)) as int;
        let key_end = at + 8 + key_len;
        let value_end = key_end + value_len;
        if key_len == 0 || value_len == 0 {
            Ok(None)
        } else if value_end + 1 > data.len() {
            Err(Error::CorruptData)
        } else if data[value_end] != 0 {
            Err(Error::CorruptData)
        } else if !valid_utf8(data.subrange(at + 8, key_end)) {
            Err(Error::CorruptData)
        } else if data.subrange(key_end, value_end) == seq![TOMBSTONE] {
            Ok(Some((decode_utf8(data.subrange(at + 8, key_end)), None)))
        } else if !valid_utf8(data.subrange(key_end, value_end)) {
            Err(Error::CorruptData)
        } else {
            Ok(
                Some(
                    (
                        decode_utf8(data.subrange(at + 8, key_end)),
                        Some(decode_utf8(data.subrange(key_end, value_end))),
                    ),
                ),
            )
        }
    }
}

/// Text that is not empty has UTF-8 bytes.
pub proof fn lemma_utf8_nonempty(chars: Seq<char>)
    requires
        chars.len() > 0,
    ensures
        encode_utf8(chars).len() > 0,
{
    assert(encode_scalar(chars[0] as u32).len() > 0);
}

/// The records of two lists written one after the other are the records
/// of the joined list.
pub proof fn lemma_data_bytes_concat(a: Seq<Record>, b: Seq<Record>)
    ensures
        data_bytes(a + b) == data_bytes(a) + data_bytes(b),
    decreases b.len(),
{
    if b.len() == 0 {
        assert(a + b =~= a);
        assert(data_bytes(a) + data_bytes(b) =~= data_bytes(a));
    } else {
        lemma_data_bytes_concat(a, b.drop_last());
        assert((a + b).drop_last() =~= a + b.drop_last());
        assert((a + b).last() == b.last());
        assert(data_bytes(a + b) =~= data_bytes(a) + data_bytes(b));
    }
}

/// A record begins where the records before it end, within the file.
pub proof fn lemma_record_offset_bound(records: Seq<Record>, i: int)
    requires
        0 <= i < records.len(),
    ensures
        record_offset(records, i) + record_bytes(records[i].0, records[i].1).len() <= data_bytes(
            records,
        ).len(),
        data_bytes(records) == data_bytes(records.take(i)) + record_bytes(
            records[i].0,
            records[i].1,
        ) + data_bytes(records.skip(i + 1)),
{
    let head = records.take(i);
    let one = seq![records[i]];
    let tail = records.skip(i + 1);
    assert(records =~= head + one + tail);
    lemma_data_bytes_concat(head + one, tail);
    lemma_data_bytes_concat(head, one);
    assert(one.drop_last() =~= Seq::<Record>::empty());
    assert(data_bytes(one.drop_last()) =~= Seq::<u8>::empty());
    assert(data_bytes(one) =~= record_bytes(records[i].0, records[i].1));
}

/// No text has the tombstone byte for its UTF-8 bytes.
pub proof fn lemma_text_is_no_tombstone(text: Seq<char>)
    ensures
        encode_utf8(text) != seq![TOMBSTONE],
{
    encode_utf8_valid_utf8(text);
    let t = seq![TOMBSTONE];
    assert(t[0] == 0xffu8);
    assert(!valid_first_scalar(t));
    assert(!valid_utf8(t));
}

/// Reading at the offset of a record gives the record back: its key and
/// its value, as they were written, or that the key is deleted.
pub proof fn lemma_read_record(records: Seq<Record>, i: int)
    requires
        0 <= i < records.len(),
        record_fits(records[i].0, records[i].1),
        records[i].0.len() > 0,
        records[i].1 matches Some(value) ==> value.len() > 0,
        data_bytes(records).len() <= u64::MAX,
    ensures
        spec_read_entry(data_bytes(records), record_offset(records, i) as Offset) == Ok::<
            Option<Record>,
            Error,
        >(Some(records[i])),
{
    let key = records[i].0;
    let value = records[i].1;
    let k = encode_utf8(key);
    let v = value_bytes(value);
    let data = data_bytes(records);
    let head = data_bytes(records.take(i));
    let rec = record_bytes(key, value);
    lemma_record_offset_bound(records, i);
    lemma_le_bytes_len(k.len(), 4);
    lemma_le_bytes_len(v.len(), 4);
    lemma_le_value_of_bytes(k.len(), 4);
    lemma_le_value_of_bytes(v.len(), 4);
    lemma_utf8_nonempty(key);
    encode_utf8_valid_utf8(key);
    encode_utf8_decode_utf8(key);
    match value {
        Some(text) => {
            lemma_utf8_nonempty(text);
            encode_utf8_valid_utf8(text);
            encode_utf8_decode_utf8(text);
            lemma_text_is_no_tombstone(text);
        },
        None => {},
    }
    let kl = le_bytes(k.len(), 4);
    let vl = le_bytes(v.len(), 4);
    let at = head.len() as int;
    assert(rec.len() == 8 + k.len() + v.len() + 1);
    assert(data.subrange(at, at + 4) =~= kl);
    assert(data.subrange(at + 4, at + 8) =~= vl);
    assert(data.subrange(at + 8, at + 8 + k.len()) =~= k);
    assert(data.subrange(at + 8 + k.len(), at + 8 + k.len() + v.len()) =~= v);
    assert(data[at + 8 + k.len() + v.len()] == 0u8);
}

/// A data file written with one record reads back that record: its key
/// and its value are the ones that were written.
pub proof fn lemma_single_record_round_trip(key: Seq<char>, value: Seq<char>)
    requires
        key.len() > 0,
        value.len() > 0,
        record_fits(key, Some(value)),
    ensures
        spec_read_entry(data_bytes(seq![(key, Some(value))]), 0) == Ok::<Option<Record>, Error>(
            Some((key, Some(value))),
        ),
        data_index(seq![(key, Some(value))]) == seq![(key, 0 as Offset)],
{
    let records = seq![(key, Some(value))];
    lemma_record_offset_bound(records, 0);
    lemma_le_bytes_len(encode_utf8(key).len(), 4);
    lemma_le_bytes_len(encode_utf8(value).len(), 4);
    assert(records.take(0) =~= Seq::<Record>::empty());
    assert(records.skip(1) =~= Seq::<Record>::empty());
    assert(data_bytes(records).len() == record_bytes(key, Some(value)).len());
    lemma_read_record(records, 0);
    assert(data_index(records) =~= seq![(key, 0 as Offset)]);
}

/// The file operations that publish `bytes` as the data file `name`: the
/// bytes go to a temporary file, which is then renamed into place.
pub open spec fn create_data_ops(name: Seq<char>, bytes: Seq<u8>) -> Seq<FileOpView> {
    seq![
        FileOpView::Write { name: "tmp_data"@, option: FileOption::New, bytes },
        FileOpView::Rename { from: "tmp_data"@, to: name },
    ]
}

/// The data file of one generation.
#[derive(Debug, Clone, PartialEq, Eq)]
pub struct DataFile {
    /// The generation that the file belongs to.
    pub data_gen: DataGen,
    /// The file itself.
    pub file: RichFile,
}

/// A record read from a data file.
#[derive(Debug, Clone, PartialEq, Eq)]
pub struct DataEntry {
    /// The generation of the file that the record was read from.
    pub data_gen: DataGen,
    /// The offset at which the record begins.
    pub offset: Offset,
    /// The number of bytes that the record takes in the file, its
    /// sentinel included.
    pub size: usize,
    /// The number of bytes of the key.
    pub key_len: usize,
    /// The number of bytes of the value.
    pub value_len: usize,
    /// The key.
    pub key: String,
    /// The value; empty for a deleted key.
    pub value: String,
    /// The record is a tombstone: the key is deleted.
    pub deleted: bool,
}

impl DataEntry {
    /// The value of the record, or none if the record is a tombstone.
    pub open spec fn record_value(&self) -> Option<Seq<char>> {
        if self.deleted {
            None
        } else {
            Some(self.value@)
        }
    }
}

impl DataFile {
    /// The name of the data file of generation `data_gen`.
    pub open spec fn spec_name(data_gen: DataGen) -> Seq<char> {
        "data_"@ + signed_chars(data_gen as int)
    }

    /// The name of the data file of generation `data_gen`.
    pub fn name(data_gen: DataGen) -> (s: String)
        ensures
            s@ == Self::spec_name(data_gen),
    {
        let mut s = String::from_str("data_");
        s.append(signed_string(data_gen as i64).as_str());
        s
    }

    /// Binds a handle to the data file of generation `data_gen` among the
    /// files of the directory `dir_name`; a missing file is empty.
    pub fn of(files: &Vec<RichFile>, dir_name: &str, data_gen: DataGen) -> (f: DataFile)
        ensures
            f.data_gen == data_gen,
            f.file.dir@ == dir_name@,
            f.file.name@ == Self::spec_name(data_gen),
            f.file.underlying@ == content_of(files@, Self::spec_name(data_gen)),
    {
        let name = Self::name(data_gen);
        let bytes = read_file(files, name.as_str());
        let file = RichFile::open_file(dir_name, name.as_str(), FileOption::Append, Some(bytes));
        DataFile { data_gen, file }
    }

    /// Reads the record that begins at `offset`.
    pub fn read_entry(&self, offset: Offset) -> (r: Result<Option<DataEntry>, Error>)
        ensures
            match r {
                Ok(Some(e)) => {
                    &&& spec_read_entry(self.file.underlying@, offset) == Ok::<
                        Option<Record>,
                        Error,
                    >(Some((e.key@, e.record_value())))
                    &&& e.data_gen == self.data_gen
                    &&& e.offset == offset
                    &&& e.key_len == encode_utf8(e.key@).len()
                    &&& e.value_len == value_bytes(e.record_value()).len()
                    &&& e.size == 8 + e.key_len + e.value_len + 1
                    &&& e.deleted ==> e.value@ == Seq::<char>::empty()
                },
                Ok(None) => spec_read_entry(self.file.underlying@, offset) == Ok::<
                    Option<Record>,
                    Error,
                >(None),
                Err(e) => spec_read_entry(self.file.underlying@, offset) == Err::<
                    Option<Record>,
                    Error,
                >(e),
            },
    {
        let data = self.file.underlying.as_slice();
        if offset >= data.len() as u64 {
            return Ok(None);
        }
        let at = offset as usize;
        let left = data.len() - at;
        if left < 8 {
            return Err(Error::CorruptData);
        }
        proof {
            lemma_le_value_unfold(data@.subrange(at as int, at + 4));
            lemma_le_value_unfold(data@.subrange(at + 4, at + 8));
        }
        let key_len = match ByteUtils::as_usize(slice_subrange(data, at, at + 4)) {
            Ok(n) => n,
            Err(e) => {
                return Err(e);
            },
        };
        let value_len = match ByteUtils::as_usize(slice_subrange(data, at + 4, at + 8)) {
            Ok(n) => n,
            Err(e) => {
                return Err(e);
            },
        };
        if key_len == 0 || value_len == 0 {
            return Ok(None);
        }
        let left = left - 8;
        if key_len > left || value_len > left - key_len || left - key_len - value_len < 1 {
            return Err(Error::CorruptData);
        }
        let key_end = at + 8 + key_len;
        let value_end = key_end + value_len;
        if data[value_end] != 0 {
            return Err(Error::CorruptData);
        }
        let key_bytes = slice_subrange(data, at + 8, key_end);
        let held = slice_subrange(data, key_end, value_end);
        let key = match ByteUtils::as_string(key_bytes) {
            Ok(s) => s,
            Err(e) => {
                return Err(e);
            },
        };
        proof {
            decode_utf8_encode_utf8(key_bytes@);
        }
        let deleted = value_len == 1 && held[0] == TOMBSTONE;
        assert(deleted == (held@ == seq![TOMBSTONE])) by {
            if deleted {
                assert(held@ =~= seq![TOMBSTONE]);
            }
        }
        let value = if deleted {
            String::new()
        } else {
            match ByteUtils::as_string(held) {
                Ok(s) => s,
                Err(e) => {
                    return Err(e);
                },
            }
        };
        proof {
            if !deleted {
                decode_utf8_encode_utf8(held@);
            }
        }
        Ok(
            Some(
                DataEntry {
                    data_gen: self.data_gen,
                    offset,
                    size: 8 + key_len + value_len + 1,
                    key_len,
                    value_len,
                    key,
                    value,
                    deleted,
                },
            ),
        )
    }

    /// Writes the entries of a snapshot as the records of this file, in
    /// ascending key order, a tombstone for every deleted key among them,
    /// and queues the file operations that publish the file. Returns each
    /// key with the offset of its record.
    ///
    /// Fails with `CorruptData`, changing nothing, if the length of a key
    /// or of a value cannot be written in 4 bytes.
    pub fn create(&mut self, memtable_entries: &MemtableEntries, journal: &mut Vec<FileOp>) -> (r:
        Result<Vec<(String, Offset)>, Error>)
        requires
            memtable_entries.entries.wf(),
            memtable_entries.tombstones.wf(),
        ensures
            match r {
                Ok(index) => {
                    &&& all_fit(memtable_entries.records())
                    &&& data_bytes(memtable_entries.records()).len() <= usize::MAX
                    &&& index_view(index@) == data_index(memtable_entries.records())
                    &&& final(self).file.underlying@ == data_bytes(memtable_entries.records())
                    &&& final(self).file.dir == old(self).file.dir
                    &&& final(self).file.name == old(self).file.name
                    &&& final(self).data_gen == old(self).data_gen
                    &&& ops_view(final(journal)@) == ops_view(old(journal)@) + create_data_ops(
                        old(self).file.name@,
                        data_bytes(memtable_entries.records()),
                    )
                },
                Err(e) => {
                    &&& e == Error::CorruptData
                    &&& !all_fit(memtable_entries.records())
                    &&& *final(self) == *old(self)
                    &&& *final(journal) == *old(journal)
                },
            },
    {
        let merged = memtable_entries.merged();
        let ghost records = memtable_entries.records();
        let n = merged.len();
        let tombstone: [u8; 1] = [TOMBSTONE];
        let mut data: Vec<u8> = Vec::new();
        let mut index: Vec<(String, Offset)> = Vec::new();
        let mut i: usize = 0;
        assert(records.take(0) =~= Seq::<Record>::empty());
        while i < n
            invariant
                i <= n,
                n == records.len(),
                records == with_opt_text(merged.entries()),
                records == memtable_entries.records(),
                tombstone@ == seq![TOMBSTONE],
                data@ == data_bytes(records.take(i as int)),
                index@.len() == i,
                forall|j: int|
                    0 <= j < i ==> (#[trigger] index@[j]).0@ == records[j].0 && index@[j].1
                        == record_offset(records, j),
                forall|j: int| 0 <= j < i ==> record_fits(#[trigger] records[j].0, records[j].1),
            decreases n - i,
        {
            let key = merged.key_at(i);
            let value = merged.value_at(i);
            let key_bytes = key.as_str().as_bytes();
            let held: &[u8] = match value {
                Some(text) => text.as_str().as_bytes(),
                None => tombstone.as_slice(),
            };
            assert(records[i as int] == (key@, opt_text(*value)));
            assert(held@ == value_bytes(records[i as int].1));
            let key_len = match ByteUtils::from_usize(key_bytes.len()) {
                Ok(b) => b,
                Err(e) => {
                    assert(!record_fits(records[i as int].0, records[i as int].1));
                    return Err(Error::CorruptData);
                },
            };
            let value_len = match ByteUtils::from_usize(held.len()) {
                Ok(b) => b,
                Err(e) => {
                    assert(!record_fits(records[i as int].0, records[i as int].1));
                    return Err(Error::CorruptData);
                },
            };
            let offset = data.len() as u64;
            append_bytes(&mut data, key_len.as_slice());
            append_bytes(&mut data, value_len.as_slice());
            append_bytes(&mut data, key_bytes);
            append_bytes(&mut data, held);
            data.push(0u8);
            index.push((key.clone(), offset));
            proof {
                let next = records.take(i + 1);
                assert(next.drop_last() =~= records.take(i as int));
                assert(next.last() == records[i as int]);
                assert(data@ =~= data_bytes(records.take(i as int)) + record_bytes(
                    records[i as int].0,
                    records[i as int].1,
                ));
            }
            i += 1;
        }
        proof {
            assert(records.take(n as int) =~= records);
            assert(index_view(index@) =~= data_index(records));
        }
        let tmp = String::from_str("tmp_data");
        let ghost before = journal@;
        let size = data.len();
        assert(data_bytes(records).len() == size);
        journal.push(
            FileOp::Write {
                name: tmp.clone(),
                option: FileOption::New,
                bytes: slice_to_vec(data.as_slice()),
            },
        );
        journal.push(FileOp::Rename { from: tmp, to: self.file.name.clone() });
        self.file.underlying = data;
        proof {
            assert(ops_view(journal@) =~= ops_view(before) + create_data_ops(
                self.file.name@,
                data_bytes(records),
            ));
        }
        Ok(index)
    }

    /// Queues the removal of the data file of generation `data_gen`.
    pub fn clear(dir: &str, data_gen: DataGen, journal: &mut Vec<FileOp>)
        ensures
            ops_view(final(journal)@) == ops_view(old(journal)@).push(
                FileOpView::Remove { name: Self::spec_name(data_gen) },
            ),
    {
        let ghost before = journal@;
        journal.push(FileOp::Remove { name: Self::name(data_gen) });
        assert(ops_view(journal@) =~= ops_view(before).push(
            FileOpView::Remove { name: Self::spec_name(data_gen) },
        ));
    }
}

} // verus!
