//! Why a lookup in an index file finds what was written, whatever the skip
//! index holds.

use vstd::prelude::*;
use vstd::utf8::*;
use crate::sst::decimal::{
    all_digits, decimal_bytes, is_digit, lemma_decimal_bytes_digits, lemma_parse_decimal_bytes,
};
use crate::sst::key_order::{
    bytes_lt, key_lt, lemma_lt_irreflexive, lemma_lt_transitive, lemma_utf8_injective,
};
use crate::sst::split::{
    LF, index_of_byte, lemma_index_of_byte, lemma_lines_concat, lemma_lines_first, lines,
};
use crate::sst::memtable::sorted_map::{has_key, index_of_key, keys_ascending, lemma_index_of_key};
use crate::sst::disktable::Offset;
use crate::sst::disktable::data_file::lemma_utf8_nonempty;
use crate::sst::disktable::byte_utils::{le_bytes, lemma_le_bytes_len, lemma_le_value_of_bytes};
use crate::sst::disktable::index_file::{
    TAB, index_bytes, index_offset, index_record_bytes, keys_fit, parse_skip_line, seek_in_lines,
    skip_bytes, skip_line, spec_find_index, spec_scan_index, spec_seek_from,
};

verus! {

/// The offset that `entries` keep for `key`, if they hold it.
pub open spec fn entry_offset(entries: Seq<(Seq<char>, Offset)>, key: Seq<char>) -> Option<Offset> {
    if has_key(entries, key) {
        Some(entries[index_of_key(entries, key)].1)
    } else {
        None
    }
}

/// The offset of the first of `entries` from place `from` on whose key is
/// `key`.
pub open spec fn first_match(entries: Seq<(Seq<char>, Offset)>, from: int, key: Seq<char>) -> Option<
    Offset,
>
    decreases entries.len() - from,
{
    if from < 0 || from >= entries.len() {
        None
    } else if entries[from].0 == key {
        Some(entries[from].1)
    } else {
        first_match(entries, from + 1, key)
    }
}

/// No key of `entries` is empty.
pub open spec fn keys_not_empty(entries: Seq<(Seq<char>, Offset)>) -> bool {
    forall|i: int| 0 <= i < entries.len() ==> (#[trigger] entries[i]).0.len() > 0
}

/// The key of every place that `chosen` picks is free of line terminators.
pub open spec fn chosen_keys_on_one_line(
    entries: Seq<(Seq<char>, Offset)>,
    chosen: spec_fn(int) -> bool,
) -> bool {
    forall|i: int, j: int|
        0 <= i < entries.len() && chosen(i) && 0 <= j < encode_utf8(entries[i].0).len()
            ==> #[trigger] encode_utf8(#[trigger] entries[i].0)[j] != LF
}

/// The records of two lists written one after the other are the records
/// of the joined list.
pub proof fn lemma_index_bytes_concat(a: Seq<(Seq<char>, Offset)>, b: Seq<(Seq<char>, Offset)>)
    ensures
        index_bytes(a + b) == index_bytes(a) + index_bytes(b),
    decreases b.len(),
{
    if b.len() == 0 {
        assert(a + b =~= a);
        assert(index_bytes(a) + index_bytes(b) =~= index_bytes(a));
    } else {
        lemma_index_bytes_concat(a, b.drop_last());
        assert((a + b).drop_last() =~= a + b.drop_last());
        assert((a + b).last() == b.last());
        assert(index_bytes(a + b) =~= index_bytes(a) + index_bytes(b));
    }
}

/// An index file is the records before place `i`, the record at `i` and
/// the records after it.
pub proof fn lemma_index_layout(entries: Seq<(Seq<char>, Offset)>, i: int)
    requires
        0 <= i < entries.len(),
    ensures
        index_bytes(entries) == index_bytes(entries.take(i)) + index_record_bytes(
            entries[i].0,
            entries[i].1,
        ) + index_bytes(entries.skip(i + 1)),
        index_offset(entries, i + 1) == index_offset(entries, i) + index_record_bytes(
            entries[i].0,
            entries[i].1,
        ).len(),
        index_offset(entries, i + 1) <= index_bytes(entries).len(),
{
    let head = entries.take(i);
    let one = seq![entries[i]];
    let tail = entries.skip(i + 1);
    assert(entries =~= head + one + tail);
    assert(entries.take(i + 1) =~= head + one);
    lemma_index_bytes_concat(head + one, tail);
    lemma_index_bytes_concat(head, one);
    assert(one.drop_last() =~= Seq::<(Seq<char>, Offset)>::empty());
    assert(index_bytes(one.drop_last()) =~= Seq::<u8>::empty());
    assert(index_bytes(one) =~= index_record_bytes(entries[i].0, entries[i].1));
}

/// A scan that begins at the record of place `from` finds the first of the
/// entries from there on that has the key.
pub proof fn lemma_scan_from(entries: Seq<(Seq<char>, Offset)>, from: int, key: Seq<char>)
    requires
        0 <= from <= entries.len(),
        keys_not_empty(entries),
        keys_fit(entries),
    ensures
        spec_scan_index(index_bytes(entries), index_offset(entries, from) as int, encode_utf8(key))
            == first_match(entries, from, key),
    decreases entries.len() - from,
{
    let index = index_bytes(entries);
    let pos = index_offset(entries, from) as int;
    if from == entries.len() {
        assert(entries.take(from) =~= entries);
    } else {
        let k = encode_utf8(entries[from].0);
        let rec = index_record_bytes(entries[from].0, entries[from].1);
        lemma_index_layout(entries, from);
        lemma_le_bytes_len(k.len(), 4);
        lemma_le_bytes_len(entries[from].1 as nat, 8);
        lemma_le_value_of_bytes(k.len(), 4);
        lemma_le_value_of_bytes(entries[from].1 as nat, 8);
        assert(entries[from].0.len() > 0);
        lemma_utf8_nonempty(entries[from].0);
        assert(k.len() <= u32::MAX);
        assert(rec.len() == 4 + k.len() + 9);
        assert(index.subrange(pos, pos + 4) =~= le_bytes(k.len(), 4));
        assert(index.subrange(pos + 4, pos + 4 + k.len()) =~= k);
        assert(index.subrange(pos + 4 + k.len(), pos + 4 + k.len() + 8) =~= le_bytes(
            entries[from].1 as nat,
            8,
        ));
        if k == encode_utf8(key) {
            lemma_utf8_injective(entries[from].0, key);
        }
        lemma_scan_from(entries, from + 1, key);
    }
}

/// Where no earlier entry has the key, the first match from a place on is
/// the first match of all.
pub proof fn lemma_first_match_skips(entries: Seq<(Seq<char>, Offset)>, from: int, key: Seq<char>)
    requires
        0 <= from <= entries.len(),
        forall|i: int| 0 <= i < from ==> (#[trigger] entries[i]).0 != key,
    ensures
        first_match(entries, 0, key) == first_match(entries, from, key),
    decreases from,
{
    if from > 0 {
        lemma_first_match_skips(entries, from - 1, key);
    }
}

/// Among ascending entries the first match from a place on is the offset
/// kept for the key at or after that place.
pub proof fn lemma_first_match_found(entries: Seq<(Seq<char>, Offset)>, from: int, key: Seq<char>)
    requires
        0 <= from <= entries.len(),
        keys_ascending(entries),
    ensures
        match first_match(entries, from, key) {
            Some(offset) => exists|i: int|
                from <= i < entries.len() && (#[trigger] entries[i]).0 == key && entries[i].1
                    == offset,
            None => forall|i: int| from <= i < entries.len() ==> (#[trigger] entries[i]).0 != key,
        },
    decreases entries.len() - from,
{
    if from < entries.len() && entries[from].0 != key {
        lemma_first_match_found(entries, from + 1, key);
    }
}

/// Among ascending entries the first match is the offset kept for the key.
pub proof fn lemma_first_match_is_entry(entries: Seq<(Seq<char>, Offset)>, key: Seq<char>)
    requires
        keys_ascending(entries),
    ensures
        first_match(entries, 0, key) == entry_offset(entries, key),
{
    lemma_first_match_found(entries, 0, key);
    match first_match(entries, 0, key) {
        Some(offset) => {
            let i = choose|i: int|
                0 <= i < entries.len() && (#[trigger] entries[i]).0 == key && entries[i].1
                    == offset;
            lemma_index_of_key(entries, i);
        },
        None => {
            if has_key(entries, key) {
                let i = index_of_key(entries, key);
                assert(entries[i].0 == key);
            }
        },
    }
}

/// A line that was written for a key either cannot be read or gives back
/// the key and the offset.
pub proof fn lemma_parse_written_line(key: Seq<char>, offset: nat)
    requires
        offset <= u64::MAX,
    ensures
        parse_skip_line(encode_utf8(key) + seq![TAB] + decimal_bytes(offset)) is None
            || parse_skip_line(encode_utf8(key) + seq![TAB] + decimal_bytes(offset)) == Some(
            (encode_utf8(key), offset as Offset),
        ),
{
    let k = encode_utf8(key);
    let digits = decimal_bytes(offset);
    let line = k + seq![TAB] + digits;
    let tab = index_of_byte(line, TAB);
    lemma_index_of_byte(line, TAB);
    lemma_decimal_bytes_digits(offset);
    lemma_parse_decimal_bytes(offset);
    assert(line[k.len() as int] == TAB);
    if tab == k.len() {
        assert(line.take(tab) =~= k);
        assert(line.skip(tab + 1) =~= digits);
    } else {
        assert(tab < k.len());
        let rest = line.skip(tab + 1);
        assert(rest[k.len() - tab - 1] == TAB);
        assert(!is_digit(rest[k.len() - tab - 1]));
        assert(!all_digits(rest));
    }
}

/// The lines of a skip index over the first `n` of `entries`, one for each
/// place that `chosen` picks.
pub open spec fn skip_lines(
    entries: Seq<(Seq<char>, Offset)>,
    n: int,
    chosen: spec_fn(int) -> bool,
) -> Seq<Seq<u8>>
    decreases n,
{
    if n <= 0 {
        Seq::empty()
    } else if chosen(n - 1) {
        skip_lines(entries, n - 1, chosen).push(
            encode_utf8(entries[n - 1].0) + seq![TAB] + decimal_bytes(
                index_offset(entries, n - 1),
            ),
        )
    } else {
        skip_lines(entries, n - 1, chosen)
    }
}

/// A skip index is read back as the lines that were written.
pub proof fn lemma_lines_of_skip_bytes(
    entries: Seq<(Seq<char>, Offset)>,
    n: int,
    chosen: spec_fn(int) -> bool,
)
    requires
        0 <= n <= entries.len(),
        chosen_keys_on_one_line(entries, chosen),
    ensures
        lines(skip_bytes(entries, n, chosen)) == skip_lines(entries, n, chosen),
        skip_bytes(entries, n, chosen).len() > 0 ==> skip_bytes(entries, n, chosen).last() == LF,
    decreases n,
{
    if n > 0 {
        lemma_lines_of_skip_bytes(entries, n - 1, chosen);
        if chosen(n - 1) {
            let before = skip_bytes(entries, n - 1, chosen);
            let k = encode_utf8(entries[n - 1].0);
            let digits = decimal_bytes(index_offset(entries, n - 1));
            let line = k + seq![TAB] + digits;
            lemma_decimal_bytes_digits(index_offset(entries, n - 1));
            assert forall|i: int| 0 <= i < line.len() implies line[i] != LF by {
                if i < k.len() {
                    assert(line[i] == k[i]);
                } else if i > k.len() {
                    assert(is_digit(digits[i - k.len() - 1]));
                }
            }
            lemma_lines_first(line, Seq::<u8>::empty());
            assert(line + seq![LF] + Seq::<u8>::empty() =~= skip_line(
                entries[n - 1].0,
                index_offset(entries, n - 1),
            ));
            lemma_lines_concat(before, skip_line(entries[n - 1].0, index_offset(entries, n - 1)));
            assert(seq![line] + lines(Seq::<u8>::empty()) =~= seq![line]);
            assert(skip_lines(entries, n - 1, chosen) + seq![line] =~= skip_lines(
                entries,
                n - 1,
                chosen,
            ).push(line));
        }
    }
}

/// `offset` is where the record of some key before `key` begins, or 0.
pub open spec fn sound_start(entries: Seq<(Seq<char>, Offset)>, key: Seq<char>, offset: Offset) -> bool {
    offset == 0 || exists|j: int|
        0 <= j < entries.len() && offset == index_offset(entries, j) && key_lt(
            (#[trigger] entries[j]).0,
            key,
        )
}

/// Every line of `skip_lines` was written for a place of `entries`.
pub open spec fn written_lines(entries: Seq<(Seq<char>, Offset)>, skip_lines: Seq<Seq<u8>>) -> bool {
    forall|i: int|
        0 <= i < skip_lines.len() ==> exists|j: int|
            0 <= j < entries.len() && #[trigger] skip_lines[i] == encode_utf8(
                (#[trigger] entries[j]).0,
            ) + seq![TAB] + decimal_bytes(index_offset(entries, j))
}

/// Reading written lines leads to a sound start.
pub proof fn lemma_seek_is_sound(
    entries: Seq<(Seq<char>, Offset)>,
    skip_lines: Seq<Seq<u8>>,
    key: Seq<char>,
    last: Offset,
)
    requires
        written_lines(entries, skip_lines),
        sound_start(entries, key, last),
        index_bytes(entries).len() <= u64::MAX,
    ensures
        sound_start(entries, key, seek_in_lines(skip_lines, encode_utf8(key), last)),
    decreases skip_lines.len(),
{
    if skip_lines.len() > 0 {
        let j = choose|j: int|
            0 <= j < entries.len() && skip_lines[0] == encode_utf8((#[trigger] entries[j]).0)
                + seq![TAB] + decimal_bytes(index_offset(entries, j));
        lemma_index_layout(entries, j);
        lemma_parse_written_line(entries[j].0, index_offset(entries, j));
        let rest = skip_lines.drop_first();
        assert forall|i: int| 0 <= i < rest.len() implies exists|j: int|
            0 <= j < entries.len() && #[trigger] rest[i] == encode_utf8((#[trigger] entries[j]).0)
                + seq![TAB] + decimal_bytes(index_offset(entries, j)) by {
            assert(rest[i] == skip_lines[i + 1]);
        }
        match parse_skip_line(skip_lines[0]) {
            Some((k, offset)) => {
                if bytes_lt(k, encode_utf8(key)) {
                    assert(key_lt(entries[j].0, key));
                    assert(sound_start(entries, key, offset));
                    lemma_seek_is_sound(entries, rest, key, offset);
                }
            },
            None => {},
        }
    }
}

/// The lines written for `entries` are written lines.
pub proof fn lemma_skip_lines_written(
    entries: Seq<(Seq<char>, Offset)>,
    n: int,
    chosen: spec_fn(int) -> bool,
)
    requires
        0 <= n <= entries.len(),
    ensures
        written_lines(entries, skip_lines(entries, n, chosen)),
    decreases n,
{
    if n > 0 {
        lemma_skip_lines_written(entries, n - 1, chosen);
        if chosen(n - 1) {
            let before = skip_lines(entries, n - 1, chosen);
            let all = skip_lines(entries, n, chosen);
            assert forall|i: int| 0 <= i < all.len() implies exists|j: int|
                0 <= j < entries.len() && #[trigger] all[i] == encode_utf8(
                    (#[trigger] entries[j]).0,
                ) + seq![TAB] + decimal_bytes(index_offset(entries, j)) by {
                if i < before.len() {
                    assert(all[i] == before[i]);
                } else {
                    assert(all[i] == encode_utf8(entries[n - 1].0) + seq![TAB] + decimal_bytes(
                        index_offset(entries, n - 1),
                    ));
                }
            }
        }
    }
}

/// The skip index is a shortcut and nothing more: a lookup in the files
/// written for ascending `entries` finds the offset kept for the key, and
/// finds nothing for a key that is not kept, whichever places have a line
/// in the skip index: all, every thirtieth or none.
pub proof fn lemma_skip_index_is_a_shortcut(
    entries: Seq<(Seq<char>, Offset)>,
    chosen: spec_fn(int) -> bool,
    key: Seq<char>,
)
    requires
        keys_ascending(entries),
        keys_not_empty(entries),
        keys_fit(entries),
        index_bytes(entries).len() <= u64::MAX,
        chosen_keys_on_one_line(entries, chosen),
    ensures
        spec_find_index(
            index_bytes(entries),
            skip_bytes(entries, entries.len() as int, chosen),
            key,
        ) == entry_offset(entries, key),
{
    let n = entries.len() as int;
    let skip = skip_bytes(entries, n, chosen);
    lemma_lines_of_skip_bytes(entries, n, chosen);
    lemma_skip_lines_written(entries, n, chosen);
    lemma_seek_is_sound(entries, skip_lines(entries, n, chosen), key, 0);
    let start = spec_seek_from(skip, key);
    let from = if start == 0 {
        0
    } else {
        choose|j: int|
            0 <= j < entries.len() && start == index_offset(entries, j) && key_lt(
                (#[trigger] entries[j]).0,
                key,
            )
    };
    if start == 0 {
        assert(entries.take(0) =~= Seq::<(Seq<char>, Offset)>::empty());
    } else {
        assert forall|i: int| 0 <= i < from implies (#[trigger] entries[i]).0 != key by {
            assert(key_lt(entries[i].0, entries[from].0));
            lemma_lt_transitive(
                encode_utf8(entries[i].0),
                encode_utf8(entries[from].0),
                encode_utf8(key),
            );
            lemma_lt_irreflexive(encode_utf8(key));
        }
    }
    lemma_index_layout_bound(entries, from);
    lemma_scan_from(entries, from, key);
    lemma_first_match_skips(entries, from, key);
    lemma_first_match_is_entry(entries, key);
}

/// A record begins within the file.
pub proof fn lemma_index_layout_bound(entries: Seq<(Seq<char>, Offset)>, i: int)
    requires
        0 <= i <= entries.len(),
    ensures
        index_offset(entries, i) <= index_bytes(entries).len(),
{
    if i < entries.len() {
        lemma_index_layout(entries, i);
    } else {
        assert(entries.take(i) =~= entries);
    }
}

} // verus!
