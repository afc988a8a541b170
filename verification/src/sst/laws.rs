//! What holds of the engine whatever is written to it: a read returns the
//! last write, a delete hides what was written before, newer generations
//! win over older ones, and a restart changes nothing.
//!
//! The engine refuses text that its files cannot carry: an empty key or
//! value, and text with a NUL or a line feed. The laws speak of mutations
//! that succeed, and of engines whose files were written by flushes.

use vstd::prelude::*;
use vstd::utf8::*;
use crate::sst::error::Error;
use crate::sst::split::LF;
use crate::sst::rich_file::FileOpView;
use crate::sst::key_order::key_lt;
use crate::sst::memtable::{GetResult, lookup, merge};
use crate::sst::memtable::wal::{carriable, insert_line};
use crate::sst::memtable::sorted_map::{
    has_key, index_of_key, is_sorted_form, keys_ascending, lemma_index_of_key,
    lemma_representable_empty, lemma_representable_insert, lemma_representable_remove,
    lemma_sorted_form_pairs, representable, sorted_form, to_map,
};
use crate::sst::disktable::{
    GenerationView, addressable, flushed_generation, lemma_data_index_fits, spec_find_in_generation,
    spec_find_on_disk, spec_flush_error,
};
use crate::sst::disktable::data_file::{
    Record, all_fit, data_index, lemma_read_record, lemma_record_offset_bound, record_fits,
};
use crate::sst::disktable::index_file::every_skip;
use crate::sst::disktable::index_proofs::lemma_skip_index_is_a_shortcut;
use crate::sst::EngineState;

verus! {

/// The UTF-8 bytes of `text` hold no line terminator.
pub open spec fn one_line(text: Seq<char>) -> bool {
    forall|j: int| 0 <= j < encode_utf8(text).len() ==> #[trigger] encode_utf8(text)[j] != LF
}

/// A key that the files of a generation can carry.
pub open spec fn clean_key(key: Seq<char>) -> bool {
    key.len() > 0 && one_line(key)
}

/// A value that the files of a generation can carry.
pub open spec fn clean_value(value: Seq<char>) -> bool {
    value.len() > 0
}

/// Records that the files of a generation can carry.
pub open spec fn clean_records(records: Seq<Record>) -> bool {
    forall|i: int|
        0 <= i < records.len() ==> clean_key((#[trigger] records[i]).0) && (records[i].1 matches Some(
            value,
        ) ==> clean_value(value))
}

/// Live entries and tombstones that the files of a generation can carry.
pub open spec fn clean_table(live: Map<Seq<char>, Seq<char>>, dead: Set<Seq<char>>) -> bool {
    &&& forall|k: Seq<char>| #[trigger] live.contains_key(k) ==> clean_key(k) && clean_value(live[k])
    &&& forall|k: Seq<char>| #[trigger] dead.contains(k) ==> clean_key(k)
}

/// Text that the engine accepts is such as the files of a generation can
/// carry, as a key and as a value.
pub proof fn lemma_carriable(text: Seq<char>)
    requires
        carriable(text),
    ensures
        clean_key(text),
        clean_value(text),
{
    if text.len() == 0 {
        assert(encode_utf8(text).len() == 0);
    }
}

/// What `records` know of `key`: its value, that it is deleted, or
/// nothing.
pub open spec fn value_in(records: Seq<Record>, key: Seq<char>) -> GetResult<Seq<char>> {
    if to_map(records).contains_key(key) {
        match to_map(records)[key] {
            Some(value) => GetResult::Found(value),
            None => GetResult::Deleted,
        }
    } else {
        GetResult::NotFound
    }
}

/// `generation` is what a flush of `records` writes, and `records` are
/// such as a flush can write.
pub open spec fn written(generation: GenerationView, records: Seq<Record>) -> bool {
    &&& keys_ascending(records)
    &&& clean_records(records)
    &&& all_fit(records)
    &&& addressable(records)
    &&& generation == flushed_generation(records)
}

/// A generation holds what was flushed into it and nothing else: a lookup
/// finds the value of each of its live records, finds each of its
/// tombstones as deleted, and finds nothing for a key that is not among
/// its records.
pub proof fn lemma_generation_holds_its_records(records: Seq<Record>, key: Seq<char>)
    requires
        keys_ascending(records),
        clean_records(records),
        all_fit(records),
        addressable(records),
    ensures
        spec_find_in_generation(flushed_generation(records), key) == Ok::<
            GetResult<Seq<char>>,
            Error,
        >(value_in(records, key)),
{
    let entries = data_index(records);
    assert forall|i: int, j: int| 0 <= i < j < entries.len() implies key_lt(
        #[trigger] entries[i].0,
        #[trigger] entries[j].0,
    ) by {
        assert(key_lt(records[i].0, records[j].0));
    }
    assert forall|i: int| 0 <= i < entries.len() implies (#[trigger] entries[i]).0.len() > 0 by {
        assert(clean_key(records[i].0));
    }
    lemma_data_index_fits(records);
    assert forall|i: int, j: int|
        0 <= i < entries.len() && every_skip()(i) && 0 <= j < encode_utf8(
            entries[i].0,
        ).len() implies #[trigger] encode_utf8(#[trigger] entries[i].0)[j] != LF by {
        assert(clean_key(records[i].0));
    }
    lemma_skip_index_is_a_shortcut(entries, every_skip(), key);
    if has_key(entries, key) {
        let i = index_of_key(entries, key);
        assert(records[i].0 == key);
        assert(clean_key(records[i].0));
        assert(record_fits(records[i].0, records[i].1));
        lemma_record_offset_bound(records, i);
        lemma_read_record(records, i);
        lemma_index_of_key(records, i);
    } else {
        if has_key(records, key) {
            let j = index_of_key(records, key);
            assert(entries[j].0 == key);
        }
    }
}

/// Every generation is what a flush of its records writes.
pub open spec fn disk_sound(generations: Seq<GenerationView>, records: Seq<Seq<Record>>) -> bool {
    &&& records.len() == generations.len()
    &&& forall|g: int|
        0 <= g < generations.len() ==> written(#[trigger] generations[g], records[g])
}

/// What the newest of the generations `1..=n` that holds `key` has for
/// it: its value, or none if it holds the key as deleted.
pub open spec fn newest_value(records: Seq<Seq<Record>>, n: int, key: Seq<char>) -> Option<
    Seq<char>,
>
    decreases n,
{
    if n <= 0 {
        None
    } else if to_map(records[n - 1]).contains_key(key) {
        to_map(records[n - 1])[key]
    } else {
        newest_value(records, n - 1, key)
    }
}

/// A read from disk returns what the newest generation that holds the key
/// has for it.
pub proof fn lemma_disk_read(
    generations: Seq<GenerationView>,
    records: Seq<Seq<Record>>,
    n: int,
    key: Seq<char>,
)
    requires
        disk_sound(generations, records),
        0 <= n <= generations.len(),
    ensures
        spec_find_on_disk(generations, n, key) == Ok::<Option<Seq<char>>, Error>(
            newest_value(records, n, key),
        ),
    decreases n,
{
    if n > 0 {
        assert(written(generations[n - 1], records[n - 1]));
        lemma_generation_holds_its_records(records[n - 1], key);
        lemma_disk_read(generations, records, n - 1, key);
    }
}

/// Where several generations hold a key, the newest of them wins: a read
/// from disk returns the value that was flushed last, and nothing if the
/// key was flushed last as deleted.
pub proof fn lemma_newest_generation_wins(
    generations: Seq<GenerationView>,
    records: Seq<Seq<Record>>,
    g: int,
    key: Seq<char>,
)
    requires
        disk_sound(generations, records),
        0 <= g < generations.len(),
        to_map(records[g]).contains_key(key),
        forall|h: int| g < h < generations.len() ==> !to_map(#[trigger] records[h]).contains_key(key),
    ensures
        spec_find_on_disk(generations, generations.len() as int, key) == Ok::<
            Option<Seq<char>>,
            Error,
        >(to_map(records[g])[key]),
{
    lemma_disk_read(generations, records, generations.len() as int, key);
    lemma_newest_value_above(records, g, generations.len() as int, key);
}

/// Generations that do not hold a key do not count for it.
pub proof fn lemma_newest_value_above(records: Seq<Seq<Record>>, g: int, n: int, key: Seq<char>)
    requires
        0 <= g < n <= records.len(),
        to_map(records[g]).contains_key(key),
        forall|h: int| g < h < n ==> !to_map(#[trigger] records[h]).contains_key(key),
    ensures
        newest_value(records, n, key) == to_map(records[g])[key],
    decreases n,
{
    if n > g + 1 {
        assert(!to_map(records[n - 1]).contains_key(key));
        lemma_newest_value_above(records, g, n - 1, key);
    }
}

/// The state of an engine that nothing has damaged: no flush is left
/// unfinished, no key is live and deleted at once, the live entries and
/// the tombstones are finitely many and such as a flush can write, and
/// every generation is what a flush of its records writes.
pub open spec fn sound(s: EngineState, records: Seq<Seq<Record>>) -> bool {
    &&& s.flushing is None
    &&& forall|k: Seq<char>| !(#[trigger] s.live.contains_key(k) && s.dead.contains(k))
    &&& representable(s.live)
    &&& representable(merge(s.live, s.dead))
    &&& clean_table(s.live, s.dead)
    &&& disk_sound(s.generations, records)
}

/// The records of the generations after `key` was set to `value`.
pub open spec fn records_after_insert(
    s: EngineState,
    records: Seq<Seq<Record>>,
    key: Seq<char>,
    value: Seq<char>,
) -> Seq<Seq<Record>> {
    if s.insert_error(key, value) is None && s.fills(key) {
        records.push(s.records_with(key, value))
    } else {
        records
    }
}

/// Setting a key puts it into the map of live entries and tombstones with
/// its value; deleting it puts it there without one.
pub proof fn lemma_merge_changes(
    live: Map<Seq<char>, Seq<char>>,
    dead: Set<Seq<char>>,
    key: Seq<char>,
    value: Seq<char>,
)
    ensures
        merge(live.insert(key, value), dead.remove(key)) == merge(live, dead).insert(
            key,
            Some(value),
        ),
        merge(live.remove(key), dead.insert(key)) == merge(live, dead).insert(key, None),
        merge(Map::empty(), Set::empty()) == Map::<Seq<char>, Option<Seq<char>>>::empty(),
{
    assert(merge(live.insert(key, value), dead.remove(key)) =~= merge(live, dead).insert(
        key,
        Some(value),
    ));
    assert(merge(live.remove(key), dead.insert(key)) =~= merge(live, dead).insert(key, None));
    assert(merge(Map::empty(), Set::empty()) =~= Map::<Seq<char>, Option<Seq<char>>>::empty());
}

/// What a flush writes once `key` is set to `value` are the live entries
/// with that entry and the tombstones, in ascending order, and a flush
/// can write them.
pub proof fn lemma_records_with(s: EngineState, key: Seq<char>, value: Seq<char>)
    requires
        representable(merge(s.live, s.dead)),
        clean_table(s.live, s.dead),
        carriable(key),
        carriable(value),
    ensures
        is_sorted_form(
            s.records_with(key, value),
            merge(s.live.insert(key, value), s.dead.remove(key)),
        ),
        clean_records(s.records_with(key, value)),
        forall|other: Seq<char>|
            value_in(s.records_with(key, value), other) == lookup(
                s.live.insert(key, value),
                s.dead.remove(key),
                other,
            ),
{
    let live = s.live.insert(key, value);
    let dead = s.dead.remove(key);
    lemma_carriable(key);
    lemma_carriable(value);
    lemma_merge_changes(s.live, s.dead, key, value);
    lemma_representable_insert(merge(s.live, s.dead), key, Some(value));
    lemma_sorted_form_pairs(merge(live, dead));
    let records = s.records_with(key, value);
    assert forall|i: int| 0 <= i < records.len() implies clean_key((#[trigger] records[i]).0) && (
    records[i].1 matches Some(v) ==> clean_value(v)) by {
        let k = records[i].0;
        assert(merge(live, dead).contains_key(k));
        if k != key {
            if dead.contains(k) {
                assert(s.dead.contains(k));
            } else {
                assert(s.live.contains_key(k));
            }
        }
    }
}

/// A successful write leaves a sound engine sound.
pub proof fn lemma_insert_keeps_sound(
    s: EngineState,
    records: Seq<Seq<Record>>,
    key: Seq<char>,
    value: Seq<char>,
)
    requires
        sound(s, records),
        s.insert_error(key, value) is None,
    ensures
        sound(s.insert(key, value), records_after_insert(s, records, key, value)),
{
    let after = s.insert(key, value);
    lemma_records_with(s, key, value);
    lemma_merge_changes(s.live, s.dead, key, value);
    lemma_carriable(key);
    lemma_carriable(value);
    if s.fills(key) {
        lemma_representable_empty::<Seq<char>>();
        lemma_representable_empty::<Option<Seq<char>>>();
        let all = records.push(s.records_with(key, value));
        assert forall|g: int| 0 <= g < after.generations.len() implies written(
            #[trigger] after.generations[g],
            all[g],
        ) by {
            if g < s.generations.len() {
                assert(written(s.generations[g], records[g]));
            }
        }
    } else {
        lemma_representable_insert(s.live, key, value);
        lemma_representable_insert(merge(s.live, s.dead), key, Some(value));
    }
}

/// After a successful write of `value` under `key`, a read of `key`
/// returns `value`, whether the write stayed in the table or was flushed
/// with it.
pub proof fn lemma_read_your_write(
    s: EngineState,
    records: Seq<Seq<Record>>,
    key: Seq<char>,
    value: Seq<char>,
)
    requires
        sound(s, records),
        s.insert_error(key, value) is None,
    ensures
        s.insert(key, value).lookup(key) == Ok::<Option<Seq<char>>, Error>(Some(value)),
{
    if s.fills(key) {
        lemma_records_with(s, key, value);
        lemma_generation_holds_its_records(s.records_with(key, value), key);
    }
}

/// A successful write under one key does not change what a read of
/// another key returns, whether it flushes the table or not: a flush
/// writes the tombstones with the live entries.
pub proof fn lemma_insert_keeps_other_keys(
    s: EngineState,
    records: Seq<Seq<Record>>,
    key: Seq<char>,
    value: Seq<char>,
    other: Seq<char>,
)
    requires
        sound(s, records),
        s.insert_error(key, value) is None,
        other != key,
    ensures
        s.insert(key, value).lookup(other) == s.lookup(other),
{
    let after = s.insert(key, value);
    if s.fills(key) {
        lemma_records_with(s, key, value);
        lemma_generation_holds_its_records(s.records_with(key, value), other);
        assert(after.generations.drop_last() =~= s.generations);
        lemma_find_on_disk_prefix(after.generations, s.generations, s.generations.len() as int, other);
    }
}

/// A read from the generations `1..=n` asks no generation above `n`.
pub proof fn lemma_find_on_disk_prefix(
    a: Seq<GenerationView>,
    b: Seq<GenerationView>,
    n: int,
    key: Seq<char>,
)
    requires
        0 <= n <= a.len(),
        n <= b.len(),
        forall|g: int| 0 <= g < n ==> a[g] == b[g],
    ensures
        spec_find_on_disk(a, n, key) == spec_find_on_disk(b, n, key),
    decreases n,
{
    if n > 0 {
        lemma_find_on_disk_prefix(a, b, n - 1, key);
    }
}

/// A flush whose files could not be written leaves every read as it was:
/// the snapshot that stays with the engine answers as the generation
/// would have.
pub proof fn lemma_failed_flush_keeps_reads(
    s: EngineState,
    records: Seq<Seq<Record>>,
    key: Seq<char>,
    value: Seq<char>,
    other: Seq<char>,
)
    requires
        sound(s, records),
        s.insert_error(key, value) is None,
        s.fills(key),
    ensures
        s.insert(key, value).flush_failed(s.insert_unconfirmed(key, value)).lookup(other)
            == s.insert(key, value).lookup(other),
        s.insert(key, value).flush_failed(s.insert_unconfirmed(key, value)).generations
            == s.generations,
        s.insert(key, value).flush_failed(s.insert_unconfirmed(key, value)).wal == s.wal
            + insert_line(key, value),
{
    let after = s.insert(key, value);
    lemma_records_with(s, key, value);
    lemma_generation_holds_its_records(s.records_with(key, value), other);
    assert(after.generations.drop_last() =~= s.generations);
    lemma_find_on_disk_prefix(after.generations, s.generations, s.generations.len() as int, other);
}

/// A successful delete leaves a sound engine sound.
pub proof fn lemma_delete_keeps_sound(s: EngineState, records: Seq<Seq<Record>>, key: Seq<char>)
    requires
        sound(s, records),
        s.delete_error(key) is None,
    ensures
        sound(s.delete(key), records),
{
    lemma_carriable(key);
    lemma_representable_remove(s.live, key);
    lemma_merge_changes(s.live, s.dead, key, key);
    lemma_representable_insert(merge(s.live, s.dead), key, None);
}

/// After a successful delete of `key`, a read of `key` returns nothing,
/// whatever the generations hold of it.
pub proof fn lemma_delete_hides(s: EngineState, key: Seq<char>)
    requires
        s.delete_error(key) is None,
    ensures
        s.delete(key).lookup(key) == Ok::<Option<Seq<char>>, Error>(None),
{
}

/// A delete of one key does not change what a read of another key
/// returns.
pub proof fn lemma_delete_keeps_other_keys(s: EngineState, key: Seq<char>, other: Seq<char>)
    requires
        other != key,
    ensures
        s.delete(key).lookup(other) == s.lookup(other),
{
}

/// After a clear, a read returns nothing, whatever the key.
pub proof fn lemma_clear_forgets(s: EngineState, key: Seq<char>)
    ensures
        s.clear().lookup(key) == Ok::<Option<Seq<char>>, Error>(None),
{
}

/// A mutation of the engine.
pub enum Op {
    /// `key` is set to `value`.
    Insert { key: Seq<char>, value: Seq<char> },
    /// `key` is deleted.
    Delete { key: Seq<char> },
}

impl Op {
    /// The key that the mutation is about.
    pub open spec fn key(self) -> Seq<char> {
        match self {
            Op::Insert { key, .. } => key,
            Op::Delete { key } => key,
        }
    }

    /// The state after the mutation.
    pub open spec fn apply(self, s: EngineState) -> EngineState {
        match self {
            Op::Insert { key, value } => s.insert(key, value),
            Op::Delete { key } => s.delete(key),
        }
    }

    /// The mutation succeeds.
    pub open spec fn succeeds(self, s: EngineState) -> bool {
        match self {
            Op::Insert { key, value } => s.insert_error(key, value) is None,
            Op::Delete { key } => s.delete_error(key) is None,
        }
    }

    /// The mutation makes the table flush.
    pub open spec fn flushes(self, s: EngineState) -> bool {
        match self {
            Op::Insert { key, value } => s.insert_error(key, value) is None && s.fills(key),
            Op::Delete { .. } => false,
        }
    }

    /// The file operations that the mutation queues.
    pub open spec fn queued(self, s: EngineState) -> Seq<FileOpView> {
        match self {
            Op::Insert { key, value } => s.insert_ops(key, value),
            Op::Delete { key } => s.delete_ops(key),
        }
    }

    /// The records of the generations after the mutation.
    pub open spec fn records(self, s: EngineState, records: Seq<Seq<Record>>) -> Seq<Seq<Record>> {
        match self {
            Op::Insert { key, value } => records_after_insert(s, records, key, value),
            Op::Delete { .. } => records,
        }
    }
}

/// The state after the mutations `ops`, in this order.
pub open spec fn run(s: EngineState, ops: Seq<Op>) -> EngineState
    decreases ops.len(),
{
    if ops.len() == 0 {
        s
    } else {
        ops.last().apply(run(s, ops.drop_last()))
    }
}

/// Every one of the mutations `ops` succeeds.
pub open spec fn run_succeeds(s: EngineState, ops: Seq<Op>) -> bool
    decreases ops.len(),
{
    ops.len() == 0 || (run_succeeds(s, ops.drop_last()) && ops.last().succeeds(
        run(s, ops.drop_last()),
    ))
}

/// The records of the generations after the mutations `ops`.
pub open spec fn run_records(s: EngineState, records: Seq<Seq<Record>>, ops: Seq<Op>) -> Seq<
    Seq<Record>,
>
    decreases ops.len(),
{
    if ops.len() == 0 {
        records
    } else {
        ops.last().records(run(s, ops.drop_last()), run_records(s, records, ops.drop_last()))
    }
}

/// None of the mutations `ops` is about `key`.
pub open spec fn untouched(ops: Seq<Op>, key: Seq<char>) -> bool {
    forall|i: int| 0 <= i < ops.len() ==> (#[trigger] ops[i]).key() != key
}

/// None of the mutations `ops` sets `key`.
pub open spec fn not_set(ops: Seq<Op>, key: Seq<char>) -> bool {
    forall|i: int|
        0 <= i < ops.len() ==> !(#[trigger] ops[i] matches Op::Insert { key: k, .. } && k == key)
}

/// Mutations that succeed leave a sound engine sound.
pub proof fn lemma_run_keeps_sound(s: EngineState, records: Seq<Seq<Record>>, ops: Seq<Op>)
    requires
        sound(s, records),
        run_succeeds(s, ops),
    ensures
        sound(run(s, ops), run_records(s, records, ops)),
    decreases ops.len(),
{
    if ops.len() > 0 {
        lemma_run_keeps_sound(s, records, ops.drop_last());
        let before = run(s, ops.drop_last());
        let recs = run_records(s, records, ops.drop_last());
        match ops.last() {
            Op::Insert { key, value } => {
                lemma_insert_keeps_sound(before, recs, key, value);
            },
            Op::Delete { key } => {
                lemma_delete_keeps_sound(before, recs, key);
            },
        }
    }
}

/// Running mutations one after the other is running them all.
pub proof fn lemma_run_concat(s: EngineState, records: Seq<Seq<Record>>, a: Seq<Op>, b: Seq<Op>)
    ensures
        run(s, a + b) == run(run(s, a), b),
        run_succeeds(s, a + b) == (run_succeeds(s, a) && run_succeeds(run(s, a), b)),
        run_records(s, records, a + b) == run_records(run(s, a), run_records(s, records, a), b),
    decreases b.len(),
{
    if b.len() == 0 {
        assert(a + b =~= a);
    } else {
        lemma_run_concat(s, records, a, b.drop_last());
        assert((a + b).drop_last() =~= a + b.drop_last());
        assert((a + b).last() == b.last());
    }
}

/// A value that a read returns is still returned after successful
/// mutations of other keys.
pub proof fn lemma_untouched_key_keeps_value(
    s: EngineState,
    records: Seq<Seq<Record>>,
    ops: Seq<Op>,
    key: Seq<char>,
    value: Seq<char>,
)
    requires
        sound(s, records),
        run_succeeds(s, ops),
        untouched(ops, key),
        s.lookup(key) == Ok::<Option<Seq<char>>, Error>(Some(value)),
    ensures
        run(s, ops).lookup(key) == Ok::<Option<Seq<char>>, Error>(Some(value)),
    decreases ops.len(),
{
    if ops.len() > 0 {
        let rest = ops.drop_last();
        assert forall|i: int| 0 <= i < rest.len() implies (#[trigger] rest[i]).key() != key by {
            assert(rest[i] == ops[i]);
        }
        lemma_untouched_key_keeps_value(s, records, rest, key, value);
        lemma_run_keeps_sound(s, records, rest);
        let before = run(s, rest);
        let recs = run_records(s, records, rest);
        assert(ops[ops.len() - 1].key() != key);
        match ops.last() {
            Op::Insert { key: k, value: v } => {
                lemma_insert_keeps_other_keys(before, recs, k, v, key);
            },
            Op::Delete { key: k } => {
                lemma_delete_keeps_other_keys(before, k, key);
            },
        }
    }
}

/// A read returns the last write: after any mutations that end in a write
/// of `value` under `key`, followed by mutations of other keys, a read of
/// `key` returns `value`.
pub proof fn lemma_read_your_writes(
    s: EngineState,
    records: Seq<Seq<Record>>,
    before: Seq<Op>,
    key: Seq<char>,
    value: Seq<char>,
    after: Seq<Op>,
)
    requires
        sound(s, records),
        run_succeeds(s, before.push(Op::Insert { key, value }) + after),
        untouched(after, key),
    ensures
        run(s, before.push(Op::Insert { key, value }) + after).lookup(key) == Ok::<
            Option<Seq<char>>,
            Error,
        >(Some(value)),
{
    let write = Op::Insert { key, value };
    let first = before.push(write);
    lemma_run_concat(s, records, first, after);
    assert(first.drop_last() =~= before);
    lemma_run_keeps_sound(s, records, before);
    lemma_run_keeps_sound(s, records, first);
    lemma_read_your_write(run(s, before), run_records(s, records, before), key, value);
    lemma_untouched_key_keeps_value(
        run(s, first),
        run_records(s, records, first),
        after,
        key,
        value,
    );
}

/// A key that a read does not find is not found after successful
/// mutations that do not set it, whether they flush the table or not.
pub proof fn lemma_unset_key_stays_hidden(
    s: EngineState,
    records: Seq<Seq<Record>>,
    ops: Seq<Op>,
    key: Seq<char>,
)
    requires
        sound(s, records),
        run_succeeds(s, ops),
        not_set(ops, key),
        s.lookup(key) == Ok::<Option<Seq<char>>, Error>(None),
    ensures
        run(s, ops).lookup(key) == Ok::<Option<Seq<char>>, Error>(None),
    decreases ops.len(),
{
    if ops.len() > 0 {
        let rest = ops.drop_last();
        assert forall|i: int| 0 <= i < rest.len() implies !(#[trigger] rest[i] matches Op::Insert {
            key: k,
            ..
        } && k == key) by {
            assert(rest[i] == ops[i]);
        }
        lemma_unset_key_stays_hidden(s, records, rest, key);
        lemma_run_keeps_sound(s, records, rest);
        let before = run(s, rest);
        let recs = run_records(s, records, rest);
        assert(!(ops[ops.len() - 1] matches Op::Insert { key: k, .. } && k == key));
        match ops.last() {
            Op::Insert { key: k, value: v } => {
                lemma_insert_keeps_other_keys(before, recs, k, v, key);
            },
            Op::Delete { key: k } => {
                if k != key {
                    lemma_delete_keeps_other_keys(before, k, key);
                }
            },
        }
    }
}

/// A delete hides what was written before: after any mutations that end
/// in a delete of `key`, followed by mutations that do not set `key`, a
/// read of `key` returns nothing, in however many generations the key is
/// and however often the table was flushed since.
pub proof fn lemma_delete_hides_older_writes(
    s: EngineState,
    records: Seq<Seq<Record>>,
    before: Seq<Op>,
    key: Seq<char>,
    after: Seq<Op>,
)
    requires
        sound(s, records),
        run_succeeds(s, before.push(Op::Delete { key }) + after),
        not_set(after, key),
    ensures
        run(s, before.push(Op::Delete { key }) + after).lookup(key) == Ok::<
            Option<Seq<char>>,
            Error,
        >(None),
{
    let delete = Op::Delete { key };
    let first = before.push(delete);
    lemma_run_concat(s, records, first, after);
    assert(first.drop_last() =~= before);
    lemma_run_keeps_sound(s, records, first);
    lemma_delete_hides(run(s, before), key);
    lemma_unset_key_stays_hidden(run(s, first), run_records(s, records, first), after, key);
}

/// The writes of `pairs`, in this order.
pub open spec fn writes(pairs: Seq<(Seq<char>, Seq<char>)>) -> Seq<Op> {
    pairs.map_values(|p: (Seq<char>, Seq<char>)| Op::Insert { key: p.0, value: p.1 })
}

/// No two of `pairs` have the same key.
pub open spec fn distinct_keys(pairs: Seq<(Seq<char>, Seq<char>)>) -> bool {
    forall|i: int, j: int|
        0 <= i < pairs.len() && 0 <= j < pairs.len() && i != j ==> (#[trigger] pairs[i]).0
            != (#[trigger] pairs[j]).0
}

/// The engine accepts every key and every value of `pairs`.
pub open spec fn carriable_pairs(pairs: Seq<(Seq<char>, Seq<char>)>) -> bool {
    forall|i: int|
        0 <= i < pairs.len() ==> carriable((#[trigger] pairs[i]).0) && carriable(pairs[i].1)
}

/// The map that writing `pairs` in this order makes up.
pub open spec fn map_of(pairs: Seq<(Seq<char>, Seq<char>)>) -> Map<Seq<char>, Seq<char>>
    decreases pairs.len(),
{
    if pairs.len() == 0 {
        Map::empty()
    } else {
        map_of(pairs.drop_last()).insert(pairs.last().0, pairs.last().1)
    }
}

/// The keys of the map of `pairs` are the keys of `pairs`.
pub proof fn lemma_map_of_keys(pairs: Seq<(Seq<char>, Seq<char>)>, key: Seq<char>)
    ensures
        map_of(pairs).contains_key(key) <==> exists|i: int|
            0 <= i < pairs.len() && (#[trigger] pairs[i]).0 == key,
    decreases pairs.len(),
{
    if pairs.len() > 0 {
        let rest = pairs.drop_last();
        lemma_map_of_keys(rest, key);
        if map_of(pairs).contains_key(key) {
            if pairs.last().0 == key {
                assert(pairs[pairs.len() - 1].0 == key);
            } else {
                let i = choose|i: int| 0 <= i < rest.len() && (#[trigger] rest[i]).0 == key;
                assert(pairs[i].0 == key);
            }
        }
        if exists|i: int| 0 <= i < pairs.len() && (#[trigger] pairs[i]).0 == key {
            let i = choose|i: int| 0 <= i < pairs.len() && (#[trigger] pairs[i]).0 == key;
            if i < rest.len() {
                assert(rest[i].0 == key);
            }
        }
    }
}

/// The tombstones that are left of `dead` once the keys of `live` are
/// set.
pub open spec fn still_dead(dead: Set<Seq<char>>, live: Map<Seq<char>, Seq<char>>) -> Set<
    Seq<char>,
> {
    Set::new(|k: Seq<char>| dead.contains(k) && !live.contains_key(k))
}

/// Fewer writes of distinct keys than the bound of an empty table stay in
/// the table: every one of them succeeds, and nothing is flushed.
pub proof fn lemma_writes_below_bound(
    s: EngineState,
    records: Seq<Seq<Record>>,
    pairs: Seq<(Seq<char>, Seq<char>)>,
    n: int,
)
    requires
        sound(s, records),
        s.live == Map::<Seq<char>, Seq<char>>::empty(),
        distinct_keys(pairs),
        carriable_pairs(pairs),
        0 <= n <= pairs.len(),
        n < s.max_entries,
    ensures
        run_succeeds(s, writes(pairs.take(n))),
        sound(run(s, writes(pairs.take(n))), records),
        run(s, writes(pairs.take(n))).live == map_of(pairs.take(n)),
        run(s, writes(pairs.take(n))).dead == still_dead(s.dead, map_of(pairs.take(n))),
        run(s, writes(pairs.take(n))).live.dom().len() == n,
        run(s, writes(pairs.take(n))).generations == s.generations,
        run(s, writes(pairs.take(n))).max_entries == s.max_entries,
    decreases n,
{
    let ops = writes(pairs.take(n));
    if n == 0 {
        assert(pairs.take(0) =~= Seq::<(Seq<char>, Seq<char>)>::empty());
        assert(ops =~= Seq::<Op>::empty());
        assert(s.dead =~= still_dead(s.dead, map_of(pairs.take(0))));
    } else {
        lemma_writes_below_bound(s, records, pairs, n - 1);
        let rest = writes(pairs.take(n - 1));
        assert(ops.drop_last() =~= rest);
        assert(pairs.take(n).drop_last() =~= pairs.take(n - 1));
        let key = pairs[n - 1].0;
        let value = pairs[n - 1].1;
        assert(ops.last() == Op::Insert { key, value });
        let before = run(s, rest);
        lemma_sorted_form_pairs(before.live);
        lemma_map_of_keys(pairs.take(n - 1), key);
        assert(!before.live.contains_key(key)) by {
            if before.live.contains_key(key) {
                let i = choose|i: int|
                    0 <= i < pairs.take(n - 1).len() && (#[trigger] pairs.take(n - 1)[i]).0 == key;
                assert(pairs[i].0 == pairs[n - 1].0);
            }
        }
        assert(before.live.insert(key, value).dom() =~= before.live.dom().insert(key));
        assert(carriable(pairs[n - 1].0) && carriable(pairs[n - 1].1));
        lemma_insert_keeps_sound(before, records, key, value);
        assert(before.dead.remove(key) =~= still_dead(s.dead, map_of(pairs.take(n))));
    }
}

/// A write that fills the table flushes it: there is one more
/// generation, which holds exactly the entries and the tombstones of the
/// table with the entry that was written, and the table is empty again.
pub proof fn lemma_filling_write(
    s: EngineState,
    records: Seq<Seq<Record>>,
    key: Seq<char>,
    value: Seq<char>,
    other: Seq<char>,
)
    requires
        sound(s, records),
        s.fills(key),
        s.insert_error(key, value) is None,
    ensures
        s.insert(key, value).generations == s.generations.push(
            flushed_generation(s.records_with(key, value)),
        ),
        s.insert(key, value).live == Map::<Seq<char>, Seq<char>>::empty(),
        s.insert(key, value).dead == Set::<Seq<char>>::empty(),
        spec_find_in_generation(s.insert(key, value).generations.last(), other) == Ok::<
            GetResult<Seq<char>>,
            Error,
        >(lookup(s.live.insert(key, value), s.dead.remove(key), other)),
{
    lemma_records_with(s, key, value);
    lemma_generation_holds_its_records(s.records_with(key, value), other);
}

/// The last of as many writes of distinct keys as the bound of an empty
/// table finds the table one short of full, holding the writes before.
pub proof fn lemma_last_write_fills(
    s: EngineState,
    records: Seq<Seq<Record>>,
    pairs: Seq<(Seq<char>, Seq<char>)>,
)
    requires
        sound(s, records),
        s.live == Map::<Seq<char>, Seq<char>>::empty(),
        s.max_entries >= 1,
        pairs.len() == s.max_entries,
        distinct_keys(pairs),
        carriable_pairs(pairs),
    ensures
        run_succeeds(s, writes(pairs.drop_last())),
        sound(run(s, writes(pairs.drop_last())), records),
        run(s, writes(pairs.drop_last())).generations == s.generations,
        run(s, writes(pairs.drop_last())).live.insert(pairs.last().0, pairs.last().1) == map_of(
            pairs,
        ),
        run(s, writes(pairs.drop_last())).dead.remove(pairs.last().0) == still_dead(
            s.dead,
            map_of(pairs),
        ),
        run(s, writes(pairs.drop_last())).fills(pairs.last().0),
{
    let n = pairs.len() as int;
    lemma_writes_below_bound(s, records, pairs, n - 1);
    assert(pairs.drop_last() =~= pairs.take(n - 1));
    let k = pairs[n - 1].0;
    let before = run(s, writes(pairs.drop_last()));
    lemma_sorted_form_pairs(before.live);
    lemma_map_of_keys(pairs.take(n - 1), k);
    assert(!before.live.contains_key(k)) by {
        if before.live.contains_key(k) {
            let i = choose|i: int|
                0 <= i < pairs.take(n - 1).len() && (#[trigger] pairs.take(n - 1)[i]).0 == k;
            assert(pairs[i].0 == pairs[n - 1].0);
        }
    }
    assert(before.live.dom().insert(k).len() == n);
    assert(before.dead.remove(k) =~= still_dead(s.dead, map_of(pairs)));
}

/// The records that as many writes as the bound of an empty table flush:
/// what was written, and the tombstones that the table held of other
/// keys, in ascending order.
pub open spec fn flushed_records(s: EngineState, pairs: Seq<(Seq<char>, Seq<char>)>) -> Seq<Record> {
    sorted_form(merge(map_of(pairs), still_dead(s.dead, map_of(pairs))))
}

/// As many writes of distinct keys as the bound of an empty table fill
/// the table, so that the last of them flushes it. Every one of them
/// succeeds if the engine accepts the text and the new generation is
/// within the limits of the formats. There is then one more generation,
/// which holds exactly the entries that were written, and the table is
/// empty again.
pub proof fn lemma_flush_threshold(
    s: EngineState,
    records: Seq<Seq<Record>>,
    pairs: Seq<(Seq<char>, Seq<char>)>,
    key: Seq<char>,
)
    requires
        sound(s, records),
        s.live == Map::<Seq<char>, Seq<char>>::empty(),
        s.max_entries >= 1,
        pairs.len() == s.max_entries,
        distinct_keys(pairs),
        carriable_pairs(pairs),
        spec_flush_error(s.generations.len() as int, flushed_records(s, pairs)) is None,
    ensures
        run_succeeds(s, writes(pairs)),
        run(s, writes(pairs)).generations == s.generations.push(
            flushed_generation(flushed_records(s, pairs)),
        ),
        run(s, writes(pairs)).live == Map::<Seq<char>, Seq<char>>::empty(),
        run(s, writes(pairs)).dead == Set::<Seq<char>>::empty(),
        spec_find_in_generation(run(s, writes(pairs)).generations.last(), key) == Ok::<
            GetResult<Seq<char>>,
            Error,
        >(
            if map_of(pairs).contains_key(key) {
                GetResult::Found(map_of(pairs)[key])
            } else if s.dead.contains(key) {
                GetResult::Deleted
            } else {
                GetResult::NotFound
            },
        ),
{
    lemma_last_write_fills(s, records, pairs);
    let k = pairs.last().0;
    let v = pairs.last().1;
    let before = run(s, writes(pairs.drop_last()));
    assert(writes(pairs).drop_last() =~= writes(pairs.drop_last()));
    assert(writes(pairs).last() == Op::Insert { key: k, value: v });
    assert(run(s, writes(pairs)) == before.insert(k, v));
    assert(carriable(pairs[pairs.len() - 1].0) && carriable(pairs[pairs.len() - 1].1));
    assert(before.records_with(k, v) == flushed_records(s, pairs));
    assert(before.insert_error(k, v) is None);
    lemma_filling_write(before, records, k, v, key);
}

} // verus!
