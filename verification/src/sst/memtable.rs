//! The in-memory table that buffers writes until they are flushed.

use vstd::prelude::*;
use crate::sst::error::Error;
use crate::sst::rich_file::{FileOp, RichFile, content_of, ops_view};
use crate::sst::memtable::sorted_map::{
    SortedMap, is_sorted_form, lemma_sorted_form, lemma_to_map_take, lemma_with_opt_text,
    lemma_with_text, opt_text, representable, sorted_form, to_map, with_opt_text, with_text,
};
use crate::sst::memtable::wal::{
    Entry, EntryView, WriteAheadLog, append_op, delete_line, insert_line, parsed_view, spec_restore,
    truncate_op,
};

pub mod sorted_map;
pub mod wal;

verus! {

/// What a table knows of a key.
#[derive(Debug, Clone, Copy, PartialEq, Eq)]
pub enum GetResult<T> {
    /// The key is live with this value.
    Found(T),
    /// The key was deleted.
    Deleted,
    /// The table says nothing of the key.
    NotFound,
}

/// What live entries and tombstones know of `key`: a tombstone wins.
pub open spec fn lookup(
    live: Map<Seq<char>, Seq<char>>,
    dead: Set<Seq<char>>,
    key: Seq<char>,
) -> GetResult<Seq<char>> {
    if dead.contains(key) {
        GetResult::Deleted
    } else if live.contains_key(key) {
        GetResult::Found(live[key])
    } else {
        GetResult::NotFound
    }
}

/// Live entries and tombstones in one map: a key that is deleted has no
/// value, whatever the live entries hold for it.
pub open spec fn merge(live: Map<Seq<char>, Seq<char>>, dead: Set<Seq<char>>) -> Map<
    Seq<char>,
    Option<Seq<char>>,
> {
    Map::new(
        |k: Seq<char>| live.contains_key(k) || dead.contains(k),
        |k: Seq<char>|
            if dead.contains(k) {
                None
            } else {
                Some(live[k])
            },
    )
}

/// Live entries and deleted keys in one map, the values as they are kept.
pub open spec fn both(live: Map<Seq<char>, String>, dead: Set<Seq<char>>) -> Map<
    Seq<char>,
    Option<String>,
> {
    Map::new(
        |k: Seq<char>| live.contains_key(k) || dead.contains(k),
        |k: Seq<char>|
            if dead.contains(k) {
                None
            } else {
                Some(live[k])
            },
    )
}

/// A snapshot of a table: its live entries and its tombstones.
#[derive(Debug, Clone, PartialEq, Eq)]
pub struct MemtableEntries {
    /// The live entries, ascending by key.
    pub entries: SortedMap<String>,
    /// The deleted keys, ascending.
    pub tombstones: SortedMap<()>,
}

impl MemtableEntries {
    /// Both parts are sorted and no key is live and deleted at once.
    pub open spec fn wf(&self) -> bool {
        &&& self.entries.wf()
        &&& self.tombstones.wf()
        &&& forall|k: Seq<char>|
            !(#[trigger] self.entries@.contains_key(k) && self.tombstones@.contains_key(k))
    }

    /// The live entries as a map from key to value.
    pub open spec fn live(&self) -> Map<Seq<char>, Seq<char>> {
        self.entries@.map_values(|v: String| v@)
    }

    /// The deleted keys.
    pub open spec fn dead(&self) -> Set<Seq<char>> {
        self.tombstones@.dom()
    }

    /// The entries of the snapshot as records, ascending by key: a live
    /// entry with its value, a tombstone without one.
    pub open spec fn records(&self) -> Seq<(Seq<char>, Option<Seq<char>>)> {
        sorted_form(merge(self.live(), self.dead()))
    }

    /// The live entries and the tombstones in one map, ascending by key: a
    /// live entry has its value, a tombstone has none.
    pub fn merged(&self) -> (m: SortedMap<Option<String>>)
        requires
            self.entries.wf(),
            self.tombstones.wf(),
        ensures
            m.wf(),
            with_opt_text(m.entries()) == self.records(),
            is_sorted_form(self.records(), merge(self.live(), self.dead())),
    {
        let mut m: SortedMap<Option<String>> = SortedMap::new();
        let ghost live = self.entries.entries();
        let ghost dead = self.tombstones.entries();
        let n = self.entries.len();
        let mut i: usize = 0;
        proof {
            assert(live.take(0) =~= Seq::<(Seq<char>, String)>::empty());
            assert(to_map(live.take(0)) =~= Map::<Seq<char>, String>::empty());
            assert(m@ =~= to_map(live.take(0)).map_values(|v: String| Some(v)));
        }
        while i < n
            invariant
                i <= n,
                n == live.len(),
                live == self.entries.entries(),
                self.entries.wf(),
                m.wf(),
                m@ == to_map(live.take(i as int)).map_values(|v: String| Some(v)),
            decreases n - i,
        {
            let key = self.entries.key_at(i);
            let value = self.entries.value_at(i);
            let ghost before = m@;
            proof {
                lemma_to_map_take(live, i as int);
            }
            m.insert(key.clone(), Some(value.clone()));
            proof {
                assert(m@ =~= to_map(live.take(i + 1)).map_values(|v: String| Some(v)));
            }
            i += 1;
        }
        let ghost alive = self.entries@;
        let k = self.tombstones.len();
        let mut j: usize = 0;
        proof {
            assert(live.take(n as int) =~= live);
            assert(dead.take(0) =~= Seq::<(Seq<char>, ())>::empty());
            assert(to_map(dead.take(0)) =~= Map::<Seq<char>, ()>::empty());
            assert(m@ =~= both(alive, to_map(dead.take(0)).dom()));
        }
        while j < k
            invariant
                j <= k,
                k == dead.len(),
                dead == self.tombstones.entries(),
                self.tombstones.wf(),
                m.wf(),
                m@ == both(alive, to_map(dead.take(j as int)).dom()),
            decreases k - j,
        {
            let key = self.tombstones.key_at(j);
            proof {
                lemma_to_map_take(dead, j as int);
                assert(to_map(dead.take(j + 1)).dom() =~= to_map(dead.take(j as int)).dom().insert(
                    key@,
                ));
            }
            m.insert(key.clone(), None);
            proof {
                assert(m@ =~= both(alive, to_map(dead.take(j + 1)).dom()));
            }
            j += 1;
        }
        proof {
            assert(dead.take(k as int) =~= dead);
            lemma_with_opt_text(m.entries());
            assert(m@.map_values(|v: Option<String>| opt_text(v)) =~= merge(
                self.live(),
                self.dead(),
            ));
            lemma_sorted_form(with_opt_text(m.entries()));
        }
        m
    }

    /// What the snapshot knows of `key`.
    pub open spec fn spec_get(&self, key: Seq<char>) -> GetResult<Seq<char>> {
        lookup(self.live(), self.dead(), key)
    }

    /// Looks `key` up: a tombstone hides a live entry.
    pub fn get(&self, key: &String) -> (r: GetResult<&String>)
        requires
            self.entries.wf(),
            self.tombstones.wf(),
        ensures
            match r {
                GetResult::Found(v) => self.spec_get(key@) == GetResult::Found(v@),
                GetResult::Deleted => self.spec_get(key@) == GetResult::<Seq<char>>::Deleted,
                GetResult::NotFound => self.spec_get(key@) == GetResult::<Seq<char>>::NotFound,
            },
    {
        if self.tombstones.get(key.as_str()).is_none() {
            match self.entries.get(key.as_str()) {
                Some(v) => GetResult::Found(v),
                None => GetResult::NotFound,
            }
        } else {
            GetResult::Deleted
        }
    }
}

/// What a write left to do: a full table hands its snapshot over to be
/// flushed.
#[derive(Debug)]
pub struct MemtableOnFlush {
    flushed: Option<MemtableEntries>,
}

impl MemtableOnFlush {
    /// The snapshot that is to be flushed, if the write filled the table.
    pub closed spec fn snapshot(&self) -> Option<MemtableEntries> {
        self.flushed
    }

    /// A write that filled the table and left `snapshot` to be flushed, or
    /// one that left nothing to do.
    pub fn new(flushed: Option<MemtableEntries>) -> (r: Self)
        ensures
            r.snapshot() == flushed,
    {
        MemtableOnFlush { flushed }
    }

    /// The snapshot that is to be flushed, if there is one.
    pub fn into_snapshot(self) -> (r: Option<MemtableEntries>)
        ensures
            r == self.snapshot(),
    {
        self.flushed
    }

    /// Hands the snapshot to `f` if there is one, and reports how `f` fared;
    /// with nothing to flush there is nothing to fail.
    pub fn on_flush<F: FnOnce(MemtableEntries) -> Result<(), Error>>(self, f: F) -> (r: Result<
        (),
        Error,
    >)
        requires
            self.snapshot() matches Some(m) ==> f.requires((m,)),
        ensures
            match self.snapshot() {
                Some(m) => f.ensures((m,), r),
                None => r == Ok::<(), Error>(()),
            },
    {
        match self.flushed {
            Some(flushed) => f(flushed),
            None => Ok(()),
        }
    }
}

/// The live entries and tombstones of a table.
pub type TableState = (Map<Seq<char>, Seq<char>>, Set<Seq<char>>);

/// The state of a table after one more mutation.
pub open spec fn apply(state: TableState, entry: EntryView) -> TableState {
    match entry {
        EntryView::Inserted { key, value } => (state.0.insert(key, value), state.1.remove(key)),
        EntryView::Deleted { key } => (state.0.remove(key), state.1.insert(key)),
    }
}

/// The state that replaying the items of a log leads to, from an empty
/// table: the items are applied in order, and the first item that is an
/// error ends the replay with that error.
pub open spec fn replay(items: Seq<Result<EntryView, Error>>) -> Result<TableState, Error>
    decreases items.len(),
{
    if items.len() == 0 {
        Ok((Map::empty(), Set::empty()))
    } else {
        match replay(items.drop_last()) {
            Ok(state) => match items.last() {
                Ok(entry) => Ok(apply(state, entry)),
                Err(e) => Err(e),
            },
            Err(e) => Err(e),
        }
    }
}

/// A table of live entries and tombstones, bounded by a number of
/// entries, that logs every mutation before it applies it.
#[derive(Debug)]
pub struct BTreeMemtable {
    max_entry: usize,
    underlying: SortedMap<String>,
    tombstone: SortedMap<()>,
    wal: WriteAheadLog,
}

impl BTreeMemtable {
    /// The number of live entries from which on the table is flushed.
    pub closed spec fn max_entries(&self) -> usize {
        self.max_entry
    }

    /// The live entries as a map from key to value.
    pub closed spec fn live(&self) -> Map<Seq<char>, Seq<char>> {
        self.underlying@.map_values(|v: String| v@)
    }

    /// The deleted keys.
    pub closed spec fn dead(&self) -> Set<Seq<char>> {
        self.tombstone@.dom()
    }

    /// The number of live entries.
    pub closed spec fn count(&self) -> nat {
        self.underlying.entries().len()
    }

    /// The bytes of the write-ahead log.
    pub closed spec fn wal_bytes(&self) -> Seq<u8> {
        self.wal.bytes()
    }

    /// The directory that the write-ahead log lives in.
    pub closed spec fn dir(&self) -> Seq<char> {
        self.wal.dir()
    }

    /// Live entries and tombstones are sorted and share no key.
    pub closed spec fn wf(&self) -> bool {
        &&& self.underlying.wf()
        &&& self.tombstone.wf()
        &&& forall|k: Seq<char>|
            !(#[trigger] self.underlying@.contains_key(k) && self.tombstone@.contains_key(k))
    }

    /// What the table knows of `key`.
    pub open spec fn spec_get(&self, key: Seq<char>) -> GetResult<Seq<char>> {
        lookup(self.live(), self.dead(), key)
    }

    /// Setting `key` brings the number of live entries to the bound.
    pub open spec fn fills(&self, key: Seq<char>) -> bool {
        self.live().dom().insert(key).len() >= self.max_entries()
    }

    /// The table counts its live entries, which some ascending sequence
    /// makes up.
    pub proof fn lemma_count(&self)
        requires
            self.wf(),
        ensures
            self.live().dom().finite(),
            self.count() == self.live().dom().len(),
            representable(self.live()),
    {
        self.underlying.lemma_len();
        assert(self.live().dom() =~= self.underlying@.dom());
        lemma_with_text(self.underlying.entries());
        lemma_sorted_form(with_text(self.underlying.entries()));
    }

    /// No key is live and deleted at once.
    pub proof fn lemma_disjoint(&self)
        requires
            self.wf(),
        ensures
            forall|k: Seq<char>| !(#[trigger] self.live().contains_key(k) && self.dead().contains(k)),
    {
        assert forall|k: Seq<char>| !(#[trigger] self.live().contains_key(k) && self.dead().contains(
            k,
        )) by {
            if self.live().contains_key(k) {
                assert(self.underlying@.contains_key(k));
            }
        }
    }

    /// Opens the table of the directory `dir_name`: replays the
    /// write-ahead log found among `files` into an empty table and keeps
    /// the log as it is.
    ///
    /// Fails with `CorruptData` if a line of the log cannot be read.
    pub fn new(files: &Vec<RichFile>, dir_name: &str, max_entry: usize) -> (r: Result<
        BTreeMemtable,
        Error,
    >)
        ensures
            match r {
                Ok(m) => {
                    &&& m.wf()
                    &&& replay(spec_restore(content_of(files@, "wal.log"@))) == Ok::<
                        TableState,
                        Error,
                    >((m.live(), m.dead()))
                    &&& m.wal_bytes() == content_of(files@, "wal.log"@)
                    &&& m.dir() == dir_name@
                    &&& m.max_entries() == max_entry
                },
                Err(e) => replay(spec_restore(content_of(files@, "wal.log"@))) == Err::<
                    TableState,
                    Error,
                >(e),
            },
    {
        let mut underlying: SortedMap<String> = SortedMap::new();
        let mut tombstone: SortedMap<()> = SortedMap::new();
        let items = WriteAheadLog::restore(files);
        let ghost views = spec_restore(content_of(files@, "wal.log"@));
        let mut i: usize = 0;
        proof {
            assert(views.take(0) =~= Seq::<Result<EntryView, Error>>::empty());
            assert(underlying@.map_values(|v: String| v@) =~= Map::<Seq<char>, Seq<char>>::empty());
            assert(tombstone@.dom() =~= Set::<Seq<char>>::empty());
        }
        while i < items.len()
            invariant
                i <= items@.len(),
                views == items@.map_values(|e: Result<Entry, Error>| parsed_view(e)),
                views == spec_restore(content_of(files@, "wal.log"@)),
                underlying.wf(),
                tombstone.wf(),
                forall|k: Seq<char>|
                    !(#[trigger] underlying@.contains_key(k) && tombstone@.contains_key(k)),
                replay(views.take(i as int)) == Ok::<TableState, Error>(
                    (underlying@.map_values(|v: String| v@), tombstone@.dom()),
                ),
            decreases items@.len() - i,
        {
            let ghost live = underlying@.map_values(|v: String| v@);
            let ghost dead = tombstone@.dom();
            proof {
                assert(views.take(i + 1).drop_last() =~= views.take(i as int));
                assert(views.take(i + 1).last() == parsed_view(items@[i as int]));
            }
            match &items[i] {
                Ok(Entry::Inserted { key, value }) => {
                    underlying.insert(key.clone(), value.clone());
                    tombstone.remove(key.as_str());
                    proof {
                        assert(underlying@.map_values(|v: String| v@) =~= live.insert(key@, value@));
                        assert(tombstone@.dom() =~= dead.remove(key@));
                    }
                },
                Ok(Entry::Deleted { key }) => {
                    underlying.remove(key.as_str());
                    tombstone.insert(key.clone(), ());
                    proof {
                        assert(underlying@.map_values(|v: String| v@) =~= live.remove(key@));
                        assert(tombstone@.dom() =~= dead.insert(key@));
                    }
                },
                Err(e) => {
                    proof {
                        assert(views[i as int] == parsed_view(items@[i as int]));
                        lemma_replay_fails(views, i as int);
                    }
                    return Err(*e);
                },
            }
            i += 1;
        }
        proof {
            assert(views.take(i as int) =~= views);
        }
        let wal = WriteAheadLog::create(files, dir_name);
        Ok(BTreeMemtable { max_entry, wal, underlying, tombstone })
    }

    fn is_deleted(&self, key: &str) -> (r: bool)
        requires
            self.wf(),
        ensures
            r == self.dead().contains(key@),
    {
        self.tombstone.get(key).is_some()
    }

    /// Takes the live entries and the tombstones out of the table, which
    /// is left empty.
    fn flush(&mut self) -> (m: MemtableEntries)
        requires
            old(self).wf(),
        ensures
            final(self).wf(),
            final(self).live() == Map::<Seq<char>, Seq<char>>::empty(),
            final(self).dead() == Set::<Seq<char>>::empty(),
            final(self).max_entries() == old(self).max_entries(),
            final(self).wal_bytes() == old(self).wal_bytes(),
            final(self).dir() == old(self).dir(),
            m.wf(),
            m.live() == old(self).live(),
            m.dead() == old(self).dead(),
    {
        let mut contents: SortedMap<String> = SortedMap::new();
        let mut deleted: SortedMap<()> = SortedMap::new();
        std::mem::swap(&mut contents, &mut self.underlying);
        std::mem::swap(&mut deleted, &mut self.tombstone);
        proof {
            assert(self.live() =~= Map::<Seq<char>, Seq<char>>::empty());
            assert(self.dead() =~= Set::<Seq<char>>::empty());
        }
        MemtableEntries { entries: contents, tombstones: deleted }
    }

    /// Looks `key` up: a tombstone hides a live entry.
    pub fn get(&self, key: &String) -> (r: GetResult<&String>)
        requires
            self.wf(),
        ensures
            match r {
                GetResult::Found(v) => self.spec_get(key@) == GetResult::Found(v@),
                GetResult::Deleted => self.spec_get(key@) == GetResult::<Seq<char>>::Deleted,
                GetResult::NotFound => self.spec_get(key@) == GetResult::<Seq<char>>::NotFound,
            },
    {
        if self.is_deleted(key.as_str()) {
            GetResult::Deleted
        } else {
            match self.underlying.get(key.as_str()) {
                Some(v) => GetResult::Found(v),
                None => GetResult::NotFound,
            }
        }
    }

    /// Sets `key` to `value`: drops the tombstone of `key`, logs the
    /// insertion and then applies it. A table that holds as many live
    /// entries as its bound, or more, hands all it holds over as a
    /// snapshot and is left empty; its log is left as it is.
    pub fn set(&mut self, key: String, value: String, journal: &mut Vec<FileOp>) -> (r:
        MemtableOnFlush)
        requires
            old(self).wf(),
        ensures
            final(self).wf(),
            final(self).max_entries() == old(self).max_entries(),
            final(self).dir() == old(self).dir(),
            final(self).wal_bytes() == old(self).wal_bytes() + insert_line(key@, value@),
            ops_view(final(journal)@) == ops_view(old(journal)@).push(
                append_op(insert_line(key@, value@)),
            ),
            match r.snapshot() {
                Some(m) => {
                    &&& old(self).fills(key@)
                    &&& m.wf()
                    &&& m.live() == old(self).live().insert(key@, value@)
                    &&& m.dead() == old(self).dead().remove(key@)
                    &&& final(self).live() == Map::<Seq<char>, Seq<char>>::empty()
                    &&& final(self).dead() == Set::<Seq<char>>::empty()
                },
                None => {
                    &&& !old(self).fills(key@)
                    &&& final(self).live() == old(self).live().insert(key@, value@)
                    &&& final(self).dead() == old(self).dead().remove(key@)
                },
            },
    {
        let ghost live = self.live();
        let ghost dead = self.dead();
        self.tombstone.remove(key.as_str());
        self.wal.insert((key.as_str(), value.as_str()), journal);
        self.underlying.insert(key, value);
        proof {
            assert(self.live() =~= live.insert(key@, value@));
            assert(self.dead() =~= dead.remove(key@));
            self.lemma_count();
            assert(self.live().dom() =~= live.dom().insert(key@));
        }
        if self.underlying.len() >= self.max_entry {
            MemtableOnFlush::new(Some(self.flush()))
        } else {
            MemtableOnFlush::new(None)
        }
    }

    /// Deletes `key`: logs the deletion, drops the live entry of `key` and
    /// leaves a tombstone.
    pub fn delete(&mut self, key: String, journal: &mut Vec<FileOp>)
        requires
            old(self).wf(),
        ensures
            final(self).wf(),
            final(self).max_entries() == old(self).max_entries(),
            final(self).dir() == old(self).dir(),
            final(self).wal_bytes() == old(self).wal_bytes() + delete_line(key@),
            ops_view(final(journal)@) == ops_view(old(journal)@).push(
                append_op(delete_line(key@)),
            ),
            final(self).live() == old(self).live().remove(key@),
            final(self).dead() == old(self).dead().insert(key@),
    {
        let ghost live = self.live();
        let ghost dead = self.dead();
        self.wal.delete(key.as_str(), journal);
        self.underlying.remove(key.as_str());
        self.tombstone.insert(key, ());
        proof {
            assert(self.live() =~= live.remove(key@));
            assert(self.dead() =~= dead.insert(key@));
        }
    }

    /// Empties the table and its log.
    pub fn clear(&mut self, journal: &mut Vec<FileOp>)
        ensures
            final(self).wf(),
            final(self).max_entries() == old(self).max_entries(),
            final(self).dir() == old(self).dir(),
            final(self).wal_bytes() == Seq::<u8>::empty(),
            ops_view(final(journal)@) == ops_view(old(journal)@).push(truncate_op()),
            final(self).live() == Map::<Seq<char>, Seq<char>>::empty(),
            final(self).dead() == Set::<Seq<char>>::empty(),
    {
        let _ = self.wal.clear(journal);
        self.underlying.clear();
        self.tombstone.clear();
        proof {
            assert(self.live() =~= Map::<Seq<char>, Seq<char>>::empty());
            assert(self.dead() =~= Set::<Seq<char>>::empty());
        }
    }

    /// Empties the log once the snapshot that it covers is on disk, and
    /// hands out what the log held; the table keeps what it holds.
    pub fn clear_wal(&mut self, journal: &mut Vec<FileOp>) -> (held: Vec<u8>)
        requires
            old(self).wf(),
        ensures
            held@ == old(self).wal_bytes(),
            final(self).wf(),
            final(self).max_entries() == old(self).max_entries(),
            final(self).dir() == old(self).dir(),
            final(self).wal_bytes() == Seq::<u8>::empty(),
            ops_view(final(journal)@) == ops_view(old(journal)@).push(truncate_op()),
            final(self).live() == old(self).live(),
            final(self).dead() == old(self).dead(),
    {
        self.wal.clear(journal)
    }

    /// Takes `bytes` for what the log holds, where the file was left as
    /// it was; the table keeps what it holds, and nothing is queued.
    pub fn restore_wal(&mut self, bytes: Vec<u8>)
        requires
            old(self).wf(),
        ensures
            final(self).wf(),
            final(self).max_entries() == old(self).max_entries(),
            final(self).dir() == old(self).dir(),
            final(self).wal_bytes() == bytes@,
            final(self).live() == old(self).live(),
            final(self).dead() == old(self).dead(),
    {
        self.wal.put_back(bytes);
    }
}

/// A replay fails with the first item that is an error.
pub proof fn lemma_replay_fails(items: Seq<Result<EntryView, Error>>, i: int)
    requires
        0 <= i < items.len(),
        items[i] is Err,
        replay(items.take(i)) is Ok,
    ensures
        replay(items) == Err::<TableState, Error>(items[i]->Err_0),
    decreases items.len() - i,
{
    assert(items.take(i + 1).drop_last() =~= items.take(i));
    lemma_replay_stays_failed(items, i + 1);
}

/// A replay that failed on some items fails the same way on more.
pub proof fn lemma_replay_stays_failed(items: Seq<Result<EntryView, Error>>, n: int)
    requires
        0 <= n <= items.len(),
        replay(items.take(n)) is Err,
    ensures
        replay(items) == replay(items.take(n)),
    decreases items.len() - n,
{
    if n < items.len() {
        assert(items.take(n + 1).drop_last() =~= items.take(n));
        lemma_replay_stays_failed(items, n + 1);
    } else {
        assert(items.take(n) =~= items);
    }
}

} // verus!
