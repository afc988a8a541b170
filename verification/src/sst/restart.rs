//! Why a restart changes nothing: the write-ahead log replays to the
//! table that it was written for, and the generations are read as they
//! were written.

use vstd::prelude::*;
use vstd::utf8::*;
use crate::sst::error::Error;
use crate::sst::split::{index_of_byte, lemma_index_of_byte, lemma_index_of_byte_is, LF};
use crate::sst::rich_file::{RichFile, content_of};
use crate::sst::memtable::{TableState, apply, merge, replay};
use crate::sst::memtable::wal::{
    EntryView, NUL, TAG_DELETED, TAG_INSERTED, delete_line, first_field, insert_line, log_safe,
    spec_parse_line, spec_restore,
};
use crate::sst::disktable::{
    DataGen, GenerationView, bound_generations, spec_data_gens, spec_flush_error, spec_latest,
};
use crate::sst::disktable::data_file::{DataFile, Record};
use crate::sst::memtable::sorted_map::lemma_representable_empty;
use crate::sst::laws::{
    Op, carriable_pairs, distinct_keys, flushed_records, lemma_flush_threshold, run,
    run_succeeds, sound, writes,
};
use crate::sst::directory::{
    Files, complete, files_of, held, in_step, lemma_content_of_listing,
    lemma_delete_keeps_in_step, lemma_insert_keeps_in_step, perform_all,
};
use crate::sst::disktable::index_file::IndexFile;
use crate::sst::{EngineState, spec_open};

verus! {

/// The log `log` ends with a whole line.
pub open spec fn terminated(log: Seq<u8>) -> bool {
    log.len() == 0 || log.last() == LF
}

/// The write-ahead log of the engine replays to its table, and no flush
/// is left unfinished.
pub open spec fn logged(s: EngineState) -> bool {
    &&& terminated(s.wal)
    &&& replay(spec_restore(s.wal)) == Ok::<TableState, Error>((s.live, s.dead))
    &&& s.flushing is None
}

/// The files `files` hold the log and the generations of `s`.
pub open spec fn holds(files: Seq<RichFile>, s: EngineState) -> bool {
    &&& content_of(files, "wal.log"@) == s.wal
    &&& bound_generations(files, s.generations.len() as int) == s.generations
}

/// A log of whole lines followed by more is read as the one and then the
/// other.
pub proof fn lemma_restore_concat(a: Seq<u8>, b: Seq<u8>)
    requires
        terminated(a),
    ensures
        spec_restore(a + b) == spec_restore(a) + spec_restore(b),
    decreases a.len(),
{
    if a.len() == 0 {
        assert(a + b =~= b);
        assert(spec_restore(a) + spec_restore(b) =~= spec_restore(b));
    } else {
        let n = index_of_byte(a, LF);
        lemma_index_of_byte(a, LF);
        assert(n < a.len()) by {
            if n >= a.len() {
                assert(a[a.len() - 1] != LF);
            }
        }
        lemma_index_of_byte_is(a + b, LF, n);
        let rest = a.skip(n + 1);
        assert((a + b).take(n) =~= a.take(n));
        assert((a + b).skip(n + 1) =~= rest + b);
        if rest.len() > 0 {
            assert(rest.last() == a.last());
        }
        lemma_restore_concat(rest, b);
        assert(spec_restore(a + b) =~= spec_restore(a) + spec_restore(b));
    }
}

/// A log of one whole line is read as that line.
pub proof fn lemma_restore_line(line: Seq<u8>)
    requires
        forall|i: int| 0 <= i < line.len() ==> line[i] != LF,
    ensures
        spec_restore(line + seq![LF]) == seq![spec_parse_line(line)],
{
    let log = line + seq![LF];
    lemma_index_of_byte_is(log, LF, line.len() as int);
    assert(log.take(line.len() as int) =~= line);
    assert(log.skip(line.len() as int + 1) =~= Seq::<u8>::empty());
    assert(spec_restore(Seq::<u8>::empty()) =~= Seq::<Result<EntryView, Error>>::empty());
    assert(spec_restore(log) =~= seq![spec_parse_line(line)] + spec_restore(
        log.skip(line.len() as int + 1),
    ));
}

/// The line of an insertion is read back as the insertion.
pub proof fn lemma_parse_insert_line(key: Seq<char>, value: Seq<char>)
    requires
        log_safe(key),
        log_safe(value),
    ensures
        spec_restore(insert_line(key, value)) == seq![
            Ok::<EntryView, Error>(EntryView::Inserted { key, value }),
        ],
{
    let k = encode_utf8(key);
    let v = encode_utf8(value);
    let line = seq![TAG_INSERTED, NUL] + k + seq![NUL] + v;
    assert(insert_line(key, value) =~= line + seq![LF]);
    assert forall|i: int| 0 <= i < line.len() implies line[i] != LF by {
        if 2 <= i < 2 + k.len() {
            assert(line[i] == k[i - 2]);
        } else if i > 2 + k.len() {
            assert(line[i] == v[i - 3 - k.len()]);
        }
    }
    lemma_restore_line(line);
    lemma_index_of_byte_is(line, NUL, 1);
    assert(first_field(line) =~= seq![TAG_INSERTED]);
    let fields = line.skip(2);
    assert(fields =~= k + seq![NUL] + v);
    assert forall|i: int| 0 <= i < k.len() implies fields[i] != NUL by {
        assert(fields[i] == k[i]);
    }
    lemma_index_of_byte_is(fields, NUL, k.len() as int);
    assert(first_field(fields) =~= k);
    let rest = fields.skip(k.len() as int + 1);
    assert(rest =~= v);
    lemma_index_of_byte_is(rest, NUL, v.len() as int);
    assert(first_field(rest) =~= v);
    encode_utf8_valid_utf8(key);
    encode_utf8_valid_utf8(value);
    encode_utf8_decode_utf8(key);
    encode_utf8_decode_utf8(value);
    assert(spec_parse_line(line) == Ok::<EntryView, Error>(EntryView::Inserted { key, value }));
}

/// The line of a deletion is read back as the deletion.
pub proof fn lemma_parse_delete_line(key: Seq<char>)
    requires
        log_safe(key),
    ensures
        spec_restore(delete_line(key)) == seq![Ok::<EntryView, Error>(EntryView::Deleted { key })],
{
    let k = encode_utf8(key);
    let line = seq![TAG_DELETED, NUL] + k;
    assert(delete_line(key) =~= line + seq![LF]);
    assert forall|i: int| 0 <= i < line.len() implies line[i] != LF by {
        if 2 <= i {
            assert(line[i] == k[i - 2]);
        }
    }
    lemma_restore_line(line);
    lemma_index_of_byte_is(line, NUL, 1);
    assert(first_field(line) =~= seq![TAG_DELETED]);
    let fields = line.skip(2);
    assert(fields =~= k);
    lemma_index_of_byte_is(fields, NUL, k.len() as int);
    assert(first_field(fields) =~= k);
    encode_utf8_valid_utf8(key);
    encode_utf8_decode_utf8(key);
    assert(seq![TAG_DELETED] != seq![TAG_INSERTED]) by {
        assert(seq![TAG_DELETED][0] != seq![TAG_INSERTED][0]);
    }
    assert(spec_parse_line(line) == Ok::<EntryView, Error>(EntryView::Deleted { key }));
}

/// A log with one more line replays to the table with one more mutation.
pub proof fn lemma_replay_line(log: Seq<u8>, line: Seq<u8>, entry: EntryView, state: TableState)
    requires
        terminated(log),
        replay(spec_restore(log)) == Ok::<TableState, Error>(state),
        spec_restore(line) == seq![Ok::<EntryView, Error>(entry)],
    ensures
        replay(spec_restore(log + line)) == Ok::<TableState, Error>(apply(state, entry)),
{
    lemma_restore_concat(log, line);
    let items = spec_restore(log) + spec_restore(line);
    assert(items.drop_last() =~= spec_restore(log));
    assert(items.last() == Ok::<EntryView, Error>(entry));
}

/// A successful write keeps the log in step with the table.
pub proof fn lemma_insert_keeps_logged(s: EngineState, key: Seq<char>, value: Seq<char>)
    requires
        logged(s),
        s.insert_error(key, value) is None,
    ensures
        logged(s.insert(key, value)),
{
    if !s.fills(key) {
        lemma_parse_insert_line(key, value);
        lemma_replay_line(
            s.wal,
            insert_line(key, value),
            EntryView::Inserted { key, value },
            (s.live, s.dead),
        );
    }
}

/// A successful delete keeps the log in step with the table.
pub proof fn lemma_delete_keeps_logged(s: EngineState, key: Seq<char>)
    requires
        logged(s),
        s.delete_error(key) is None,
    ensures
        logged(s.delete(key)),
{
    lemma_parse_delete_line(key);
    lemma_replay_line(s.wal, delete_line(key), EntryView::Deleted { key }, (s.live, s.dead));
}

/// After a clear the log is in step with the table.
pub proof fn lemma_clear_is_logged(s: EngineState)
    ensures
        logged(s.clear()),
{
}

/// Successful mutations keep the log in step with the table.
pub proof fn lemma_run_keeps_logged(s: EngineState, ops: Seq<Op>)
    requires
        logged(s),
        run_succeeds(s, ops),
    ensures
        logged(run(s, ops)),
    decreases ops.len(),
{
    if ops.len() > 0 {
        let rest = ops.drop_last();
        lemma_run_keeps_logged(s, rest);
        let last = ops[ops.len() - 1];
        match last {
            Op::Insert { key, value } => {
                lemma_insert_keeps_logged(run(s, rest), key, value);
            },
            Op::Delete { key } => {
                lemma_delete_keeps_logged(run(s, rest), key);
            },
        }
    }
}

/// An engine whose log is in step with its table is opened from the files
/// that hold its log and its generations as it was.
pub proof fn lemma_reopen(files: Seq<RichFile>, s: EngineState)
    requires
        logged(s),
        holds(files, s),
    ensures
        spec_open(files, s.max_entries, s.generations.len() as int) == Ok::<EngineState, Error>(s),
{
}

/// The files of a directory after the mutations `ops` of an engine in the
/// state `s`, where the file operations that each mutation queues are
/// carried out before the next.
pub open spec fn run_files(files: Files, s: EngineState, ops: Seq<Op>) -> Files
    decreases ops.len(),
{
    if ops.len() == 0 {
        files
    } else {
        perform_all(
            run_files(files, s, ops.drop_last()),
            ops.last().queued(run(s, ops.drop_last())),
        )
    }
}

/// Carrying out what the mutations of an engine queue keeps the directory
/// in step with the engine.
pub proof fn lemma_run_keeps_in_step(files: Files, s: EngineState, ops: Seq<Op>)
    requires
        in_step(files, s),
    ensures
        in_step(run_files(files, s, ops), run(s, ops)),
    decreases ops.len(),
{
    if ops.len() > 0 {
        let rest = ops.drop_last();
        lemma_run_keeps_in_step(files, s, rest);
        match ops.last() {
            Op::Insert { key, value } => {
                lemma_insert_keeps_in_step(run_files(files, s, rest), run(s, rest), key, value);
            },
            Op::Delete { key } => {
                lemma_delete_keeps_in_step(run_files(files, s, rest), run(s, rest), key);
            },
        }
    }
}

/// The listing of a directory that is in step with the engine holds the
/// log and the generations of the engine.
pub proof fn lemma_in_step_holds(listing: Seq<RichFile>, s: EngineState)
    requires
        in_step(files_of(listing), s),
    ensures
        holds(listing, s),
{
    let n = s.generations.len() as int;
    lemma_content_of_listing(listing, "wal.log"@);
    assert forall|i: int| 0 <= i < n implies bound_generations(listing, n)[i]
        == s.generations[i] by {
        let g = (i + 1) as DataGen;
        lemma_content_of_listing(listing, DataFile::spec_name(g));
        lemma_content_of_listing(listing, IndexFile::spec_name(g));
        lemma_content_of_listing(listing, IndexFile::spec_skip_name(g));
        assert(held(files_of(listing), s.generations, i + 1));
    }
    assert(bound_generations(listing, n) =~= s.generations);
}

/// A restart changes nothing. Take an engine whose log is in step with
/// its table and whose directory is in step with it. After any successful
/// mutations, each followed by the file operations that it queued, an
/// engine that is opened from the listing of the directory is in the
/// state that the mutations led to, so that every read returns what it
/// returned before.
pub proof fn lemma_restart_changes_nothing(
    s: EngineState,
    files: Files,
    ops: Seq<Op>,
    listing: Seq<RichFile>,
    key: Seq<char>,
)
    requires
        logged(s),
        in_step(files, s),
        run_succeeds(s, ops),
        files_of(listing) == run_files(files, s, ops),
    ensures
        spec_open(listing, s.max_entries, run(s, ops).generations.len() as int) == Ok::<
            EngineState,
            Error,
        >(run(s, ops)),
        spec_open(listing, s.max_entries, run(s, ops).generations.len() as int)->Ok_0.lookup(key)
            == run(s, ops).lookup(key),
{
    lemma_run_keeps_logged(s, ops);
    lemma_run_keeps_bound(s, ops);
    lemma_run_keeps_in_step(files, s, ops);
    lemma_in_step_holds(listing, run(s, ops));
    lemma_reopen(listing, run(s, ops));
}

/// Mutations do not change the bound of the table.
pub proof fn lemma_run_keeps_bound(s: EngineState, ops: Seq<Op>)
    ensures
        run(s, ops).max_entries == s.max_entries,
    decreases ops.len(),
{
    if ops.len() > 0 {
        lemma_run_keeps_bound(s, ops.drop_last());
    }
}

/// As many writes of distinct keys as the bound of an empty table, each
/// followed by the file operations that it queued, leave one more
/// generation in the directory, with its data file, its index file and
/// its skip index, and an empty table. Every write succeeds if the engine
/// accepts the text and the new generation is within the limits of the
/// formats.
pub proof fn lemma_flush_threshold_files(
    s: EngineState,
    records: Seq<Seq<Record>>,
    files: Files,
    pairs: Seq<(Seq<char>, Seq<char>)>,
)
    requires
        sound(s, records),
        in_step(files, s),
        s.live == Map::<Seq<char>, Seq<char>>::empty(),
        s.max_entries >= 1,
        pairs.len() == s.max_entries,
        distinct_keys(pairs),
        carriable_pairs(pairs),
        spec_flush_error(s.generations.len() as int, flushed_records(s, pairs)) is None,
    ensures
        run_succeeds(s, writes(pairs)),
        run(s, writes(pairs)).generations.len() == s.generations.len() + 1,
        run(s, writes(pairs)).live == Map::<Seq<char>, Seq<char>>::empty(),
        in_step(run_files(files, s, writes(pairs)), run(s, writes(pairs))),
        complete(run_files(files, s, writes(pairs)), s.generations.len() as int + 1),
{
    lemma_flush_threshold(s, records, pairs, Seq::empty());
    lemma_run_keeps_in_step(files, s, writes(pairs));
    assert(held(
        run_files(files, s, writes(pairs)),
        run(s, writes(pairs)).generations,
        s.generations.len() as int + 1,
    ));
}

/// A flush whose files could not be written loses nothing. The log
/// holds the lines of the whole batch again and replays to the snapshot
/// that was flushed: an engine that is opened from files that hold this
/// log and the generations of before has the snapshot for its table, and
/// reads what the engine reads after the failure.
pub proof fn lemma_failed_flush_is_replayed(
    s: EngineState,
    listing: Seq<RichFile>,
    key: Seq<char>,
    value: Seq<char>,
    other: Seq<char>,
)
    requires
        logged(s),
        s.insert_error(key, value) is None,
        s.fills(key),
        holds(listing, s.insert(key, value).flush_failed(s.insert_unconfirmed(key, value))),
    ensures
        spec_open(listing, s.max_entries, s.generations.len() as int) == Ok::<EngineState, Error>(
            EngineState {
                live: s.live.insert(key, value),
                dead: s.dead.remove(key),
                wal: s.wal + insert_line(key, value),
                ..s
            },
        ),
        spec_open(listing, s.max_entries, s.generations.len() as int)->Ok_0.lookup(other)
            == s.insert(key, value).flush_failed(s.insert_unconfirmed(key, value)).lookup(other),
{
    let failed = s.insert(key, value).flush_failed(s.insert_unconfirmed(key, value));
    let reopened = EngineState {
        live: s.live.insert(key, value),
        dead: s.dead.remove(key),
        wal: s.wal + insert_line(key, value),
        ..s
    };
    assert(failed.generations =~= s.generations);
    lemma_parse_insert_line(key, value);
    lemma_replay_line(
        s.wal,
        insert_line(key, value),
        EntryView::Inserted { key, value },
        (s.live, s.dead),
    );
    lemma_reopen(listing, reopened);
}

/// The state of an engine that holds nothing.
pub open spec fn fresh(max_entries: usize) -> EngineState {
    EngineState {
        max_entries,
        live: Map::empty(),
        dead: Set::empty(),
        wal: Seq::empty(),
        generations: Seq::empty(),
        flushing: None,
    }
}

/// An engine that is opened on an empty directory holds nothing; it is
/// sound, and its log is in step with its table.
pub proof fn lemma_fresh(max_entries: usize)
    ensures
        spec_open(
            Seq::<RichFile>::empty(),
            max_entries,
            spec_latest(spec_data_gens(Seq::<RichFile>::empty())) as int,
        ) == Ok::<EngineState, Error>(fresh(max_entries)),
        sound(fresh(max_entries), Seq::empty()),
        logged(fresh(max_entries)),
        in_step(Map::empty(), fresh(max_entries)),
{
    lemma_representable_empty::<Seq<char>>();
    lemma_representable_empty::<Option<Seq<char>>>();
    assert(merge(Map::empty(), Set::empty()) =~= Map::<Seq<char>, Option<Seq<char>>>::empty());
    let files = Seq::<RichFile>::empty();
    assert(bound_generations(files, 0) =~= Seq::<GenerationView>::empty());
}

} // verus!
