//! The write-ahead log: one line for every mutation of the table.
//!
//! ```text
//! I<NUL>key<NUL>value<LF>        an insertion
//! D<NUL>key<LF>                  a deletion
//! ```

use vstd::prelude::*;
use vstd::utf8::*;
use vstd::string::*;
use vstd::slice::slice_subrange;
use crate::sst::error::Error;
use crate::sst::split::{find_byte, index_of_byte, LF};
use crate::sst::rich_file::{
    FileOp, FileOpView, FileOption, RichFile, content_of, ops_view, read_file,
};
use crate::sst::disktable::byte_utils::{ByteUtils, append_bytes, spec_as_string};

verus! {

/// The byte between the fields of a line.
pub const NUL: u8 = 0;

/// The tag of an insertion, `I`.
pub const TAG_INSERTED: u8 = 73;

/// The tag of a deletion, `D`.
pub const TAG_DELETED: u8 = 68;

/// One mutation read from the log.
#[derive(Debug, Clone, PartialEq, Eq)]
pub enum Entry {
    /// `key` was set to `value`.
    Inserted { key: String, value: String },
    /// `key` was deleted.
    Deleted { key: String },
}

/// A mutation as a mathematical value.
pub enum EntryView {
    Inserted { key: Seq<char>, value: Seq<char> },
    Deleted { key: Seq<char> },
}

impl View for Entry {
    type V = EntryView;

    open spec fn view(&self) -> EntryView {
        match *self {
            Entry::Inserted { key, value } => EntryView::Inserted { key: key@, value: value@ },
            Entry::Deleted { key } => EntryView::Deleted { key: key@ },
        }
    }
}

/// The UTF-8 bytes of `text` hold neither the separator of the fields of
/// the log nor a line terminator.
pub open spec fn log_safe(text: Seq<char>) -> bool {
    forall|j: int|
        0 <= j < encode_utf8(text).len() ==> #[trigger] encode_utf8(text)[j] != NUL && encode_utf8(
            text,
        )[j] != LF
}

/// The log and the files of a generation can carry `text` as a key or as
/// a value: it is not empty and holds neither the separator of the fields
/// of the log nor a line terminator.
pub open spec fn carriable(text: Seq<char>) -> bool {
    encode_utf8(text).len() > 0 && log_safe(text)
}

/// Whether the log and the files of a generation can carry `text`.
pub fn can_carry(text: &str) -> (r: bool)
    ensures
        r == carriable(text@),
{
    let bytes = text.as_bytes();
    let mut i: usize = 0;
    while i < bytes.len()
        invariant
            i <= bytes@.len(),
            bytes@ == encode_utf8(text@),
            forall|j: int| 0 <= j < i ==> bytes@[j] != NUL && bytes@[j] != LF,
        decreases bytes@.len() - i,
    {
        if bytes[i] == NUL || bytes[i] == LF {
            assert(!log_safe(text@)) by {
                assert(encode_utf8(text@)[i as int] == NUL || encode_utf8(text@)[i as int] == LF);
            }
            return false;
        }
        i += 1;
    }
    bytes.len() > 0
}

/// The line that records the insertion of `value` under `key`.
pub open spec fn insert_line(key: Seq<char>, value: Seq<char>) -> Seq<u8> {
    seq![TAG_INSERTED, NUL] + encode_utf8(key) + seq![NUL] + encode_utf8(value) + seq![LF]
}

/// The line that records the deletion of `key`.
pub open spec fn delete_line(key: Seq<char>) -> Seq<u8> {
    seq![TAG_DELETED, NUL] + encode_utf8(key) + seq![LF]
}

/// The field that begins `bytes`: what comes before the first `NUL`.
pub open spec fn first_field(bytes: Seq<u8>) -> Seq<u8> {
    bytes.take(index_of_byte(bytes, NUL))
}

/// What follows the first field of `bytes` and its `NUL`, if there is one.
pub open spec fn after_first_field(bytes: Seq<u8>) -> Option<Seq<u8>> {
    let n = index_of_byte(bytes, NUL);
    if 0 <= n < bytes.len() {
        Some(bytes.skip(n + 1))
    } else {
        None
    }
}

/// What a line of the log, without its terminator, says.
///
/// The fields of a line are separated by `NUL`. The first is the tag; an
/// insertion has a key and a value after it, a deletion a key. Fields
/// beyond these are not read. A line with another tag, with too few
/// fields or with a field that is not UTF-8 is corrupt.
pub open spec fn spec_parse_line(line: Seq<u8>) -> Result<EntryView, Error> {
    let tag = first_field(line);
    match after_first_field(line) {
        None => Err(Error::CorruptData),
        Some(fields) => if tag == seq![TAG_INSERTED] {
            match (after_first_field(fields), spec_as_string(first_field(fields))) {
                (Some(rest), Ok(key)) => match spec_as_string(first_field(rest)) {
                    Ok(value) => Ok(EntryView::Inserted { key, value }),
                    Err(e) => Err(e),
                },
                _ => Err(Error::CorruptData),
            }
        } else if tag == seq![TAG_DELETED] {
            match spec_as_string(first_field(fields)) {
                Ok(key) => Ok(EntryView::Deleted { key }),
                Err(e) => Err(e),
            }
        } else {
            Err(Error::CorruptData)
        },
    }
}

/// A parsed line as a mathematical value.
pub open spec fn parsed_view(r: Result<Entry, Error>) -> Result<EntryView, Error> {
    match r {
        Ok(e) => Ok(e@),
        Err(e) => Err(e),
    }
}

/// What the lines of the log `log` say, line by line. Bytes after the
/// last line terminator are a line that was cut short, which is corrupt.
pub open spec fn spec_restore(log: Seq<u8>) -> Seq<Result<EntryView, Error>>
    decreases log.len(),
{
    if log.len() == 0 {
        Seq::empty()
    } else {
        let n = index_of_byte(log, LF);
        if 0 <= n < log.len() {
            seq![spec_parse_line(log.take(n))] + spec_restore(log.skip(n + 1))
        } else {
            seq![Err(Error::CorruptData)]
        }
    }
}

/// The file operation that appends `line` to the log.
pub open spec fn append_op(line: Seq<u8>) -> FileOpView {
    FileOpView::Write { name: "wal.log"@, option: FileOption::Append, bytes: line }
}

/// The file operation that empties the log.
pub open spec fn truncate_op() -> FileOpView {
    FileOpView::Write { name: "wal.log"@, option: FileOption::New, bytes: Seq::empty() }
}

/// The write-ahead log of a table.
#[derive(Debug)]
pub struct WriteAheadLog {
    dir_name: String,
    log: Vec<u8>,
}

impl WriteAheadLog {
    /// The directory that the log lives in.
    pub closed spec fn dir(&self) -> Seq<char> {
        self.dir_name@
    }

    /// The bytes of the log.
    pub closed spec fn bytes(&self) -> Seq<u8> {
        self.log@
    }

    /// Binds the log among the files of the directory `dir_name`; the log
    /// keeps what it holds, and a missing log is empty.
    pub fn create(files: &Vec<RichFile>, dir_name: &str) -> (wal: WriteAheadLog)
        ensures
            wal.dir() == dir_name@,
            wal.bytes() == content_of(files@, "wal.log"@),
    {
        WriteAheadLog { dir_name: dir_name.to_owned(), log: read_file(files, "wal.log") }
    }

    /// The bytes of the log.
    pub fn as_bytes(&self) -> (b: &[u8])
        ensures
            b@ == self.bytes(),
    {
        self.log.as_slice()
    }

    fn append(&mut self, line: Vec<u8>, journal: &mut Vec<FileOp>)
        ensures
            final(self).dir() == old(self).dir(),
            final(self).bytes() == old(self).bytes() + line@,
            ops_view(final(journal)@) == ops_view(old(journal)@).push(append_op(line@)),
    {
        let ghost before = journal@;
        append_bytes(&mut self.log, line.as_slice());
        journal.push(
            FileOp::Write {
                name: String::from_str("wal.log"),
                option: FileOption::Append,
                bytes: line,
            },
        );
        assert(ops_view(journal@) =~= ops_view(before).push(append_op(line@)));
    }

    /// Records the insertion of the value `entry.1` under the key
    /// `entry.0`.
    pub fn insert(&mut self, entry: (&str, &str), journal: &mut Vec<FileOp>)
        ensures
            final(self).dir() == old(self).dir(),
            final(self).bytes() == old(self).bytes() + insert_line(entry.0@, entry.1@),
            ops_view(final(journal)@) == ops_view(old(journal)@).push(
                append_op(insert_line(entry.0@, entry.1@)),
            ),
    {
        let (key, value) = entry;
        let mut line: Vec<u8> = Vec::new();
        line.push(TAG_INSERTED);
        line.push(NUL);
        append_bytes(&mut line, key.as_bytes());
        line.push(NUL);
        append_bytes(&mut line, value.as_bytes());
        line.push(LF);
        assert(line@ =~= insert_line(key@, value@));
        self.append(line, journal);
    }

    /// Records the deletion of `key`.
    pub fn delete(&mut self, key: &str, journal: &mut Vec<FileOp>)
        ensures
            final(self).dir() == old(self).dir(),
            final(self).bytes() == old(self).bytes() + delete_line(key@),
            ops_view(final(journal)@) == ops_view(old(journal)@).push(
                append_op(delete_line(key@)),
            ),
    {
        let mut line: Vec<u8> = Vec::new();
        line.push(TAG_DELETED);
        line.push(NUL);
        append_bytes(&mut line, key.as_bytes());
        line.push(LF);
        assert(line@ =~= delete_line(key@));
        self.append(line, journal);
    }

    /// Empties the log and hands out what it held.
    pub fn clear(&mut self, journal: &mut Vec<FileOp>) -> (held: Vec<u8>)
        ensures
            held@ == old(self).bytes(),
            final(self).dir() == old(self).dir(),
            final(self).bytes() == Seq::<u8>::empty(),
            ops_view(final(journal)@) == ops_view(old(journal)@).push(truncate_op()),
    {
        let ghost before = journal@;
        let mut held: Vec<u8> = Vec::new();
        std::mem::swap(&mut held, &mut self.log);
        journal.push(
            FileOp::Write {
                name: String::from_str("wal.log"),
                option: FileOption::New,
                bytes: Vec::new(),
            },
        );
        assert(ops_view(journal@) =~= ops_view(before).push(truncate_op()));
        held
    }

    /// Takes `bytes` for what the log holds, where the file was left as
    /// it was although the log had been emptied or written to. Nothing is
    /// queued.
    pub fn put_back(&mut self, bytes: Vec<u8>)
        ensures
            final(self).dir() == old(self).dir(),
            final(self).bytes() == bytes@,
    {
        self.log = bytes;
    }

    /// Reads the log among the files of a directory: one item per line, in
    /// the order of the lines, and an error for a last line that lacks its
    /// terminator. A reader stops at the first item that is an error.
    pub fn restore(files: &Vec<RichFile>) -> (r: Vec<Result<Entry, Error>>)
        ensures
            r@.map_values(|e: Result<Entry, Error>| parsed_view(e)) == spec_restore(
                content_of(files@, "wal.log"@),
            ),
    {
        let log = read_file(files, "wal.log");
        let bytes = log.as_slice();
        let mut items: Vec<Result<Entry, Error>> = Vec::new();
        let mut pos: usize = 0;
        assert(bytes@.skip(0) =~= bytes@);
        while pos < bytes.len()
            invariant
                pos <= bytes@.len(),
                items@.map_values(|e: Result<Entry, Error>| parsed_view(e)) + spec_restore(
                    bytes@.skip(pos as int),
                ) == spec_restore(bytes@),
            decreases bytes@.len() - pos,
        {
            let end = find_byte(bytes, pos, LF);
            let item = if end < bytes.len() {
                Self::parse_line(slice_subrange(bytes, pos, end))
            } else {
                Err(Error::CorruptData)
            };
            let ghost done = items@.map_values(|e: Result<Entry, Error>| parsed_view(e));
            let ghost tail = bytes@.skip(pos as int);
            let ghost next = if end < bytes.len() {
                bytes@.skip(end + 1)
            } else {
                Seq::<u8>::empty()
            };
            items.push(item);
            proof {
                if end < bytes.len() {
                    assert(tail.take(end - pos) =~= bytes@.subrange(pos as int, end as int));
                    assert(tail.skip(end - pos + 1) =~= next);
                }
                assert(spec_restore(tail) =~= seq![parsed_view(item)] + spec_restore(next));
                assert(items@.map_values(|e: Result<Entry, Error>| parsed_view(e)) =~= done.push(
                    parsed_view(item),
                ));
                assert(done.push(parsed_view(item)) + spec_restore(next) =~= done + spec_restore(
                    tail,
                ));
            }
            pos = if end < bytes.len() {
                end + 1
            } else {
                end
            };
            assert(bytes@.skip(pos as int) =~= next);
        }
        proof {
            assert(bytes@.skip(pos as int) =~= Seq::<u8>::empty());
            assert(items@.map_values(|e: Result<Entry, Error>| parsed_view(e)) + Seq::<
                Result<EntryView, Error>,
            >::empty() =~= items@.map_values(|e: Result<Entry, Error>| parsed_view(e)));
        }
        items
    }

    /// Reads one line of the log, given without its terminator.
    pub fn parse_line(line: &[u8]) -> (r: Result<Entry, Error>)
        ensures
            parsed_view(r) == spec_parse_line(line@),
    {
        assert(line@.skip(0) =~= line@);
        let tag_end = find_byte(line, 0, NUL);
        if tag_end >= line.len() {
            return Err(Error::CorruptData);
        }
        let tag = slice_subrange(line, 0, tag_end);
        let fields = slice_subrange(line, tag_end + 1, line.len());
        assert(tag@ =~= first_field(line@));
        assert(fields@ =~= line@.skip(tag_end + 1));
        assert(fields@.skip(0) =~= fields@);
        let key_end = find_byte(fields, 0, NUL);
        let key_field = slice_subrange(fields, 0, key_end);
        assert(key_field@ =~= first_field(fields@));
        if tag.len() == 1 && tag[0] == TAG_INSERTED {
            assert(tag@ =~= seq![TAG_INSERTED]);
            if key_end >= fields.len() {
                return Err(Error::CorruptData);
            }
            let rest = slice_subrange(fields, key_end + 1, fields.len());
            assert(rest@ =~= fields@.skip(key_end + 1));
            assert(rest@.skip(0) =~= rest@);
            let value_end = find_byte(rest, 0, NUL);
            let value_field = slice_subrange(rest, 0, value_end);
            assert(value_field@ =~= first_field(rest@));
            let key = match ByteUtils::as_string(key_field) {
                Ok(s) => s,
                Err(e) => {
                    return Err(e);
                },
            };
            let value = match ByteUtils::as_string(value_field) {
                Ok(s) => s,
                Err(e) => {
                    return Err(e);
                },
            };
            Ok(Entry::Inserted { key, value })
        } else if tag.len() == 1 && tag[0] == TAG_DELETED {
            assert(tag@ =~= seq![TAG_DELETED]);
            let key = match ByteUtils::as_string(key_field) {
                Ok(s) => s,
                Err(e) => {
                    return Err(e);
                },
            };
            Ok(Entry::Deleted { key })
        } else {
            assert(tag@ != seq![TAG_INSERTED]) by {
                if tag@ == seq![TAG_INSERTED] {
                    assert(tag@.len() == 1 && tag@[0] == TAG_INSERTED);
                }
            }
            assert(tag@ != seq![TAG_DELETED]) by {
                if tag@ == seq![TAG_DELETED] {
                    assert(tag@.len() == 1 && tag@[0] == TAG_DELETED);
                }
            }
            Err(Error::CorruptData)
        }
    }
}

} // verus!
