//! The storage engine and its components.
//!
//! The engine layers a bounded in-memory table over immutable on-disk
//! generations. A write is logged, then applied to the table; a table
//! that reached its bound is flushed as the next generation, after which
//! the log is emptied. A read asks the table first and then the
//! generations, newest first.
//!
//! The engine works on the bytes of its files and never touches a file
//! itself: it is opened from the files of its directory and queues, as
//! `FileOp`s, what has to be done to them. The application carries the
//! queued operations out, in order, after every call.

use vstd::prelude::*;
use crate::sst::error::Error;
use crate::sst::rich_file::{FileOp, FileOpView, RichFile, content_of, ops_view};
use crate::sst::memtable::{BTreeMemtable, GetResult, TableState, lookup, merge, replay};
use crate::sst::memtable::sorted_map::{representable, sorted_form};
use crate::sst::memtable::wal::{
    append_op, can_carry, carriable, delete_line, insert_line, spec_restore, truncate_op,
};
use crate::sst::disktable::data_file::Record;
use crate::sst::disktable::{
    DataGen, FileDisktable, GenerationView, bound_generations, clear_ops, flush_ops,
    flushed_generation, spec_data_gens, spec_find, spec_flush_error, spec_latest,
};

pub mod error;
pub mod key_order;
pub mod decimal;
pub mod split;
pub mod rich_file;
pub mod memtable;
pub mod disktable;
pub mod laws;
pub mod restart;
pub mod directory;

verus! {

/// The state of an engine as a mathematical value.
pub struct EngineState {
    /// The number of live entries from which on the table is flushed.
    pub max_entries: usize,
    /// The live entries of the table.
    pub live: Map<Seq<char>, Seq<char>>,
    /// The tombstones of the table.
    pub dead: Set<Seq<char>>,
    /// The bytes of the write-ahead log.
    pub wal: Seq<u8>,
    /// The generations on disk, oldest first.
    pub generations: Seq<GenerationView>,
    /// The snapshot that a flush did not get to disk, if a flush failed.
    pub flushing: Option<TableState>,
}

impl EngineState {
    /// What a read of `key` returns: the table decides if it knows the
    /// key, live or deleted, and else the disk does.
    pub open spec fn lookup(self, key: Seq<char>) -> Result<Option<Seq<char>>, Error> {
        match lookup(self.live, self.dead, key) {
            GetResult::Found(v) => Ok(Some(v)),
            GetResult::Deleted => Ok(None),
            GetResult::NotFound => spec_find(self.flushing, self.generations, key),
        }
    }

    /// Setting `key` brings the number of live entries to the bound, so
    /// that the table is flushed.
    pub open spec fn fills(self, key: Seq<char>) -> bool {
        self.live.dom().insert(key).len() >= self.max_entries
    }

    /// The records that a flush writes once `key` is set to `value`: the
    /// live entries with their values and the deleted keys without one,
    /// ascending by key.
    pub open spec fn records_with(self, key: Seq<char>, value: Seq<char>) -> Seq<Record> {
        sorted_form(merge(self.live.insert(key, value), self.dead.remove(key)))
    }

    /// Why setting `key` to `value` fails, if it does: the key or the
    /// value is text that the files cannot carry, or the table is to be
    /// flushed and the flush fails.
    pub open spec fn insert_error(self, key: Seq<char>, value: Seq<char>) -> Option<Error> {
        if !carriable(key) || !carriable(value) {
            Some(Error::CorruptData)
        } else if self.fills(key) {
            spec_flush_error(self.generations.len() as int, self.records_with(key, value))
        } else {
            None
        }
    }

    /// The state after `key` was set to `value`. Text that the files
    /// cannot carry is refused and changes nothing.
    pub open spec fn insert(self, key: Seq<char>, value: Seq<char>) -> EngineState {
        let live = self.live.insert(key, value);
        let dead = self.dead.remove(key);
        let wal = self.wal + insert_line(key, value);
        if !carriable(key) || !carriable(value) {
            self
        } else if !self.fills(key) {
            EngineState { live, dead, wal, ..self }
        } else if self.insert_error(key, value) is Some {
            EngineState {
                live: Map::empty(),
                dead: Set::empty(),
                wal,
                flushing: Some((live, dead)),
                ..self
            }
        } else {
            EngineState {
                live: Map::empty(),
                dead: Set::empty(),
                wal: Seq::empty(),
                generations: self.generations.push(
                    flushed_generation(self.records_with(key, value)),
                ),
                flushing: None,
                ..self
            }
        }
    }

    /// The file operations that setting `key` to `value` queues: the line
    /// of the log and, where the table is flushed, the files of the new
    /// generation and the emptying of the log; none where the text is
    /// refused.
    pub open spec fn insert_ops(self, key: Seq<char>, value: Seq<char>) -> Seq<FileOpView> {
        if !carriable(key) || !carriable(value) {
            Seq::empty()
        } else if self.fills(key) && self.insert_error(key, value) is None {
            seq![append_op(insert_line(key, value))] + flush_ops(
                (self.generations.len() + 1) as DataGen,
                self.records_with(key, value),
            ) + seq![truncate_op()]
        } else {
            seq![append_op(insert_line(key, value))]
        }
    }

    /// The flush that setting `key` to `value` leaves unconfirmed, if the
    /// write flushes the table.
    pub open spec fn insert_unconfirmed(self, key: Seq<char>, value: Seq<char>) -> Unconfirmed {
        if self.insert_error(key, value) is None && self.fills(key) {
            Some(
                (
                    (self.live.insert(key, value), self.dead.remove(key)),
                    self.wal + insert_line(key, value),
                ),
            )
        } else {
            None
        }
    }

    /// The state after the files of an unconfirmed flush could not be
    /// written: the generation is taken back, the snapshot that was
    /// flushed stays readable, and the log holds again what it held.
    pub open spec fn flush_failed(self, unconfirmed: Unconfirmed) -> EngineState {
        match unconfirmed {
            Some((snapshot, log)) => EngineState {
                generations: self.generations.drop_last(),
                flushing: Some(snapshot),
                wal: log,
                ..self
            },
            None => self,
        }
    }

    /// Why deleting `key` fails, if it does: the key is text that the
    /// files cannot carry.
    pub open spec fn delete_error(self, key: Seq<char>) -> Option<Error> {
        if !carriable(key) {
            Some(Error::CorruptData)
        } else {
            None
        }
    }

    /// The state after `key` was deleted. A key that the files cannot
    /// carry is refused and changes nothing.
    pub open spec fn delete(self, key: Seq<char>) -> EngineState {
        if !carriable(key) {
            self
        } else {
            EngineState {
                live: self.live.remove(key),
                dead: self.dead.insert(key),
                wal: self.wal + delete_line(key),
                ..self
            }
        }
    }

    /// The file operations that deleting `key` queues: the line of the
    /// log; none where the key is refused.
    pub open spec fn delete_ops(self, key: Seq<char>) -> Seq<FileOpView> {
        if !carriable(key) {
            Seq::empty()
        } else {
            seq![append_op(delete_line(key))]
        }
    }

    /// The state after everything was cleared.
    pub open spec fn clear(self) -> EngineState {
        EngineState {
            live: Map::empty(),
            dead: Set::empty(),
            wal: Seq::empty(),
            generations: Seq::empty(),
            flushing: None,
            ..self
        }
    }
}

/// The state of an engine opened with the bound `max_entries` on the
/// generations `1..=latest` of a directory with the files `files`: the
/// table is what the write-ahead log replays to, and a file that is
/// missing is empty.
pub open spec fn spec_open(files: Seq<RichFile>, max_entries: usize, latest: int) -> Result<
    EngineState,
    Error,
> {
    match replay(spec_restore(content_of(files, "wal.log"@))) {
        Err(e) => Err(e),
        Ok(state) => Ok(
            EngineState {
                max_entries,
                live: state.0,
                dead: state.1,
                wal: content_of(files, "wal.log"@),
                generations: bound_generations(files, latest),
                flushing: None,
            },
        ),
    }
}

/// A read as a mathematical value.
pub open spec fn read_view(r: Result<Option<String>, Error>) -> Result<Option<Seq<char>>, Error> {
    match r {
        Ok(Some(v)) => Ok(Some(v@)),
        Ok(None) => Ok(None),
        Err(e) => Err(e),
    }
}

/// A key-value store of strings over sorted string tables.
#[derive(Debug)]
pub struct SSTable {
    memtable: BTreeMemtable,
    disktable: FileDisktable,
    pending: Vec<FileOp>,
    undo: Option<Vec<u8>>,
}

/// A flush that is not confirmed: the snapshot that was flushed and what
/// the write-ahead log held before it was emptied.
pub type Unconfirmed = Option<(TableState, Seq<u8>)>;

impl View for SSTable {
    type V = EngineState;

    closed spec fn view(&self) -> EngineState {
        EngineState {
            max_entries: self.memtable.max_entries(),
            live: self.memtable.live(),
            dead: self.memtable.dead(),
            wal: self.memtable.wal_bytes(),
            generations: self.disktable.generations(),
            flushing: self.disktable.flushing(),
        }
    }
}

impl SSTable {
    /// The table and the generations are well-formed.
    pub closed spec fn wf(&self) -> bool {
        &&& self.memtable.wf()
        &&& self.disktable.wf()
        &&& self.undo is Some == self.disktable.unconfirmed() is Some
    }

    /// The flush of the last write, as long as the files of its
    /// generation may still fail to be written: the snapshot that was
    /// flushed and what the write-ahead log held before it was emptied.
    pub closed spec fn unconfirmed(&self) -> Unconfirmed {
        match (self.disktable.unconfirmed(), self.undo) {
            (Some(snapshot), Some(log)) => Some((snapshot, log@)),
            _ => None,
        }
    }

    /// The file operations that are queued.
    pub closed spec fn pending(&self) -> Seq<FileOpView> {
        ops_view(self.pending@)
    }

    /// The directory of the engine.
    pub closed spec fn dir(&self) -> Seq<char> {
        self.disktable.dir()
    }

    /// A well-formed engine has no key that is live and deleted at once,
    /// finitely many live entries, and no more generations than can be
    /// numbered.
    pub proof fn lemma_wf(&self)
        requires
            self.wf(),
        ensures
            forall|k: Seq<char>| !(#[trigger] self@.live.contains_key(k) && self@.dead.contains(k)),
            self@.live.dom().finite(),
            representable(self@.live),
            self@.generations.len() <= i32::MAX,
    {
        self.memtable.lemma_disjoint();
        self.memtable.lemma_count();
        self.disktable.lemma_latest();
    }

    /// Opens the engine of the directory `dir_name`, whose files are
    /// `files`, with a table that is flushed at `mem_max_entry` live
    /// entries: the newest generation is the greatest number that a data
    /// file is named with, and the table is what the write-ahead log
    /// replays to. Nothing is queued.
    ///
    /// Fails with `CorruptData` if a line of the log cannot be read.
    pub fn new(dir_name: &str, mem_max_entry: usize, files: &Vec<RichFile>) -> (r: Result<
        SSTable,
        Error,
    >)
        ensures
            match r {
                Ok(table) => {
                    &&& table.wf()
                    &&& table.dir() == dir_name@
                    &&& table.pending() == Seq::<FileOpView>::empty()
                    &&& table.unconfirmed() is None
                    &&& spec_open(
                        files@,
                        mem_max_entry,
                        spec_latest(spec_data_gens(files@)) as int,
                    ) == Ok::<EngineState, Error>(table@)
                },
                Err(e) => spec_open(
                    files@,
                    mem_max_entry,
                    spec_latest(spec_data_gens(files@)) as int,
                ) == Err::<EngineState, Error>(e),
            },
    {
        let data_gen = FileDisktable::get_latest_data_gen(files);
        Self::open(dir_name, mem_max_entry, files, data_gen)
    }

    /// Opens the engine of the directory `dir_name`, whose files are
    /// `files`, on the generations `1..=data_gen`, with a table that is
    /// flushed at `mem_max_entry` live entries and that is what the
    /// write-ahead log replays to. Nothing is queued.
    ///
    /// Fails with `CorruptData` if a line of the log cannot be read.
    pub fn open(dir_name: &str, mem_max_entry: usize, files: &Vec<RichFile>, data_gen: DataGen) -> (r:
        Result<SSTable, Error>)
        ensures
            match r {
                Ok(table) => {
                    &&& table.wf()
                    &&& table.dir() == dir_name@
                    &&& table.pending() == Seq::<FileOpView>::empty()
                    &&& table.unconfirmed() is None
                    &&& spec_open(files@, mem_max_entry, data_gen as int) == Ok::<
                        EngineState,
                        Error,
                    >(table@)
                },
                Err(e) => spec_open(files@, mem_max_entry, data_gen as int) == Err::<
                    EngineState,
                    Error,
                >(e),
            },
    {
        let disktable = FileDisktable::with_generations(files, dir_name, data_gen);
        let memtable = match BTreeMemtable::new(files, dir_name, mem_max_entry) {
            Ok(t) => t,
            Err(e) => {
                return Err(e);
            },
        };
        let table = SSTable { memtable, disktable, pending: Vec::new(), undo: None };
        assert(table.pending() =~= Seq::<FileOpView>::empty());
        Ok(table)
    }

    /// Reads the value of `key`: from the table if the table knows the
    /// key, a deleted key having none, and else from the generations,
    /// newest first.
    pub fn get(&self, key: &str) -> (r: Result<Option<String>, Error>)
        requires
            self.wf(),
        ensures
            read_view(r) == self@.lookup(key@),
    {
        let key = key.to_owned();
        match self.memtable.get(&key) {
            GetResult::Found(value) => Ok(Some(value.clone())),
            GetResult::Deleted => Ok(None),
            GetResult::NotFound => self.disktable.find(key.as_str()),
        }
    }

    /// Sets `key` to `value`. A table that reached its bound is flushed as
    /// the next generation, after which the write-ahead log is emptied.
    ///
    /// Fails with `CorruptData`, changing nothing, if the key or the value
    /// is empty or holds a NUL or a line feed: the files cannot carry such
    /// text. Fails if the flush fails; the entries of the table then stay
    /// readable and logged.
    ///
    /// A flush counts its generation at once. Should the application fail
    /// to write the files, `flush_failed` takes the generation back.
    pub fn insert(&mut self, key: String, value: String) -> (r: Result<(), Error>)
        requires
            old(self).wf(),
        ensures
            final(self).wf(),
            final(self).dir() == old(self).dir(),
            final(self)@ == old(self)@.insert(key@, value@),
            match r {
                Ok(()) => old(self)@.insert_error(key@, value@) is None,
                Err(e) => old(self)@.insert_error(key@, value@) == Some(e),
            },
            final(self).pending() == old(self).pending() + old(self)@.insert_ops(key@, value@),
            final(self).unconfirmed() == old(self)@.insert_unconfirmed(key@, value@),
    {
        let ghost before = self.pending();
        self.undo = None;
        self.disktable.confirm();
        if !can_carry(key.as_str()) || !can_carry(value.as_str()) {
            assert(before + Seq::<FileOpView>::empty() =~= before);
            return Err(Error::CorruptData);
        }
        proof {
            self.disktable.lemma_latest();
        }
        let on_flush = self.memtable.set(key, value, &mut self.pending);
        match on_flush.into_snapshot() {
            Some(snapshot) => {
                match self.disktable.flush(snapshot, &mut self.pending) {
                    Ok(()) => {},
                    Err(e) => {
                        assert(self.pending() =~= before + old(self)@.insert_ops(key@, value@));
                        return Err(e);
                    },
                }
                let held = self.memtable.clear_wal(&mut self.pending);
                self.undo = Some(held);
                assert(self.pending() =~= before + old(self)@.insert_ops(key@, value@));
                Ok(())
            },
            None => {
                assert(self.pending() =~= before + old(self)@.insert_ops(key@, value@));
                Ok(())
            },
        }
    }

    /// Deletes `key`: the table hides what the generations hold of it, and
    /// the next flush writes a tombstone for it.
    ///
    /// Fails with `CorruptData`, changing nothing, if the key is empty or
    /// holds a NUL or a line feed.
    pub fn delete(&mut self, key: String) -> (r: Result<(), Error>)
        requires
            old(self).wf(),
        ensures
            final(self).wf(),
            final(self).dir() == old(self).dir(),
            final(self)@ == old(self)@.delete(key@),
            match r {
                Ok(()) => old(self)@.delete_error(key@) is None,
                Err(e) => old(self)@.delete_error(key@) == Some(e),
            },
            final(self).pending() == old(self).pending() + old(self)@.delete_ops(key@),
            final(self).unconfirmed() is None,
    {
        let ghost before = self.pending();
        self.undo = None;
        self.disktable.confirm();
        if !can_carry(key.as_str()) {
            assert(before + Seq::<FileOpView>::empty() =~= before);
            return Err(Error::CorruptData);
        }
        self.memtable.delete(key, &mut self.pending);
        assert(self.pending() =~= before + old(self)@.delete_ops(key@));
        Ok(())
    }

    /// Forgets every entry: the generations first, then the table and its
    /// log.
    pub fn clear(&mut self) -> (r: Result<(), Error>)
        requires
            old(self).wf(),
        ensures
            r == Ok::<(), Error>(()),
            final(self).wf(),
            final(self).dir() == old(self).dir(),
            final(self)@ == old(self)@.clear(),
            final(self).pending() == old(self).pending() + clear_ops(
                old(self)@.generations.len() as int,
            ).push(truncate_op()),
            forall|key: Seq<char>| final(self)@.lookup(key) == Ok::<Option<Seq<char>>, Error>(None),
            final(self).unconfirmed() is None,
    {
        let ghost before = self.pending();
        self.undo = None;
        proof {
            self.disktable.lemma_latest();
        }
        match self.disktable.clear(&mut self.pending) {
            Ok(()) => {},
            Err(e) => {
                return Err(e);
            },
        }
        self.memtable.clear(&mut self.pending);
        assert(self.pending() =~= before + clear_ops(old(self)@.generations.len() as int).push(
            truncate_op(),
        ));
        Ok(())
    }

    /// Hands out the file operations that are queued, in the order in
    /// which they are to be carried out, and empties the queue.
    pub fn take_pending(&mut self) -> (ops: Vec<FileOp>)
        ensures
            ops_view(ops@) == old(self).pending(),
            final(self).pending() == Seq::<FileOpView>::empty(),
            final(self)@ == old(self)@,
            final(self).dir() == old(self).dir(),
            final(self).wf() == old(self).wf(),
            final(self).unconfirmed() == old(self).unconfirmed(),
    {
        let mut ops: Vec<FileOp> = Vec::new();
        std::mem::swap(&mut ops, &mut self.pending);
        assert(self.pending() =~= Seq::<FileOpView>::empty());
        ops
    }

    /// Takes note that a queued file operation failed with `error`, and
    /// hands the error back. Where the last write flushed the table, the
    /// flush is undone: the number of the newest generation is what it was
    /// before, the snapshot that was flushed stays readable, and the
    /// write-ahead log holds the lines of the whole batch again. What is
    /// still queued is dropped.
    pub fn flush_failed(&mut self, error: Error) -> (r: Result<(), Error>)
        requires
            old(self).wf(),
        ensures
            r == Err::<(), Error>(error),
            final(self).wf(),
            final(self).dir() == old(self).dir(),
            final(self)@ == old(self)@.flush_failed(old(self).unconfirmed()),
            final(self).unconfirmed() is None,
            final(self).pending() == Seq::<FileOpView>::empty(),
    {
        let mut held: Option<Vec<u8>> = None;
        std::mem::swap(&mut held, &mut self.undo);
        match held {
            Some(log) => {
                self.disktable.flush_failed();
                self.memtable.restore_wal(log);
            },
            None => {},
        }
        self.pending = Vec::new();
        assert(self.pending() =~= Seq::<FileOpView>::empty());
        Err(error)
    }
}

} // verus!
