//! The directory of an engine as a value: what the queued file operations
//! do to its files, and why carrying them out keeps the files in step
//! with the engine.

use vstd::prelude::*;
use vstd::utf8::*;
use crate::sst::decimal::{
    decimal_bytes, decimal_chars, is_digit, lemma_decimal_bytes_digits, lemma_decimal_chars_utf8,
    lemma_parse_decimal_bytes, signed_chars,
};
use crate::sst::rich_file::{
    FileOp, FileOpView, FileOption, RichFile, content_of, ops_view, read_file,
};
use crate::sst::key_order::{compare_strs, KeyOrder};
use crate::sst::disktable::byte_utils::append_bytes;
use crate::sst::memtable::wal::{append_op, carriable, delete_line, insert_line, truncate_op};
use crate::sst::disktable::{GenerationView, clear_ops, flushed_generation};
use crate::sst::disktable::data_file::create_data_ops;
use crate::sst::disktable::index_file::create_index_ops;
use crate::sst::EngineState;
use crate::sst::disktable::DataGen;
use crate::sst::disktable::data_file::DataFile;
use crate::sst::disktable::index_file::{IndexFile, spec_tmp_index_name};

verus! {

/// The files of a directory: their bytes by their names.
pub type Files = Map<Seq<char>, Seq<u8>>;

/// The bytes of the file `name`; a missing file is empty.
pub open spec fn content(files: Files, name: Seq<char>) -> Seq<u8> {
    if files.contains_key(name) {
        files[name]
    } else {
        Seq::empty()
    }
}

/// The files after one file operation was carried out: a write opens the
/// file in its mode and puts the bytes at its end, a rename replaces the
/// target, and a removal takes the file away. Renaming a missing file
/// does nothing.
pub open spec fn perform(files: Files, op: FileOpView) -> Files {
    match op {
        FileOpView::Write { name, option, bytes } => files.insert(
            name,
            option.spec_opened(
                if files.contains_key(name) {
                    Some(files[name])
                } else {
                    None
                },
            ) + bytes,
        ),
        FileOpView::Rename { from, to } => if files.contains_key(from) {
            files.remove(from).insert(to, files[from])
        } else {
            files
        },
        FileOpView::Remove { name } => files.remove(name),
    }
}

/// The files after the file operations `ops` were carried out in order.
pub open spec fn perform_all(files: Files, ops: Seq<FileOpView>) -> Files
    decreases ops.len(),
{
    if ops.len() == 0 {
        files
    } else {
        perform(perform_all(files, ops.drop_last()), ops.last())
    }
}

/// Different numbers are spelled differently.
pub proof fn lemma_decimal_chars_injective(a: nat, b: nat)
    requires
        decimal_chars(a) == decimal_chars(b),
    ensures
        a == b,
{
    lemma_decimal_chars_utf8(a);
    lemma_decimal_chars_utf8(b);
    lemma_parse_decimal_bytes(a);
    lemma_parse_decimal_bytes(b);
}

/// A spelled number is not empty and holds digits only.
pub proof fn lemma_decimal_chars_digits(n: nat)
    ensures
        decimal_chars(n).len() > 0,
        forall|i: int|
            0 <= i < decimal_chars(n).len() ==> '0' <= #[trigger] decimal_chars(n)[i] <= '9',
{
    lemma_decimal_bytes_digits(n);
    assert forall|i: int| 0 <= i < decimal_chars(n).len() implies '0' <= #[trigger] decimal_chars(
        n,
    )[i] <= '9' by {
        assert(is_digit(decimal_bytes(n)[i]));
    }
}

/// The kinds of names that the files of an engine have.
pub enum FileKind {
    /// The write-ahead log.
    Log,
    /// The data file of a generation.
    Data,
    /// The index file of a generation.
    Index,
    /// The skip index of a generation.
    Skip,
    /// The temporary file of a data file.
    TmpData,
    /// The temporary file of an index file.
    TmpIndex,
    /// The temporary file of a skip index.
    TmpSkip,
}

/// The name of the file of the kind `kind` for the generation `g`.
pub open spec fn file_name(kind: FileKind, g: DataGen) -> Seq<char> {
    match kind {
        FileKind::Log => "wal.log"@,
        FileKind::Data => DataFile::spec_name(g),
        FileKind::Index => IndexFile::spec_name(g),
        FileKind::Skip => IndexFile::spec_skip_name(g),
        FileKind::TmpData => "tmp_data"@,
        FileKind::TmpIndex => spec_tmp_index_name(g),
        FileKind::TmpSkip => "tmp_skip_index"@,
    }
}

/// The kind `kind` has one file per generation.
pub open spec fn per_generation(kind: FileKind) -> bool {
    kind is Data || kind is Index || kind is Skip || kind is TmpIndex
}

/// Files of different kinds, and files of one kind for different
/// generations, have different names.
pub proof fn lemma_names_differ(a: FileKind, g: DataGen, b: FileKind, h: DataGen)
    requires
        g >= 0,
        h >= 0,
        a != b || (per_generation(a) && g != h),
    ensures
        file_name(a, g) != file_name(b, h),
{
    reveal_strlit("wal.log");
    reveal_strlit("data_");
    reveal_strlit("index_");
    reveal_strlit("_skip");
    reveal_strlit("tmp_data");
    reveal_strlit("tmp_index_");
    reveal_strlit("tmp_skip_index");
    let x = file_name(a, g);
    let y = file_name(b, h);
    let dg = decimal_chars(g as nat);
    let dh = decimal_chars(h as nat);
    assert(dg == signed_chars(g as int));
    assert(dh == signed_chars(h as int));
    lemma_decimal_chars_digits(g as nat);
    lemma_decimal_chars_digits(h as nat);
    if x == y {
        assert(x.len() == y.len());
        assert(x[0] == y[0]);
        if a == b {
            if a is Data {
                assert(dg =~= x.subrange(5, x.len() as int));
                assert(dh =~= y.subrange(5, y.len() as int));
            } else if a is Index {
                assert(dg =~= x.subrange(6, x.len() as int));
                assert(dh =~= y.subrange(6, y.len() as int));
            } else if a is Skip {
                assert(dg =~= x.subrange(6, x.len() - 5));
                assert(dh =~= y.subrange(6, y.len() - 5));
            } else {
                assert(dg =~= x.subrange(10, x.len() as int));
                assert(dh =~= y.subrange(10, y.len() as int));
            }
            lemma_decimal_chars_injective(g as nat, h as nat);
        } else if (a is Index && b is Skip) || (a is Skip && b is Index) {
            let last = x.len() - 1;
            if a is Index {
                assert(x[last] == dg[dg.len() - 1]);
                assert(y[last] == 'p');
            } else {
                assert(y[last] == dh[dh.len() - 1]);
                assert(x[last] == 'p');
            }
        } else if (a is TmpData || a is TmpIndex || a is TmpSkip) && (b is TmpData || b is TmpIndex
            || b is TmpSkip) {
            assert(x[4] == y[4]);
            if a is TmpIndex {
                assert(x[10] == dg[0]);
                if b is TmpSkip {
                    assert(y[4] == 's');
                }
            } else if b is TmpIndex {
                assert(y[10] == dh[0]);
                if a is TmpSkip {
                    assert(x[4] == 's');
                }
            }
        }
    }
}

/// Carrying out file operations one after the other is carrying them all
/// out.
pub proof fn lemma_perform_concat(files: Files, a: Seq<FileOpView>, b: Seq<FileOpView>)
    ensures
        perform_all(files, a + b) == perform_all(perform_all(files, a), b),
    decreases b.len(),
{
    if b.len() == 0 {
        assert(a + b =~= a);
    } else {
        lemma_perform_concat(files, a, b.drop_last());
        assert((a + b).drop_last() =~= a + b.drop_last());
        assert((a + b).last() == b.last());
    }
}

/// Carrying out one file operation.
pub proof fn lemma_perform_one(files: Files, op: FileOpView)
    ensures
        perform_all(files, seq![op]) == perform(files, op),
{
    assert(seq![op].drop_last() =~= Seq::<FileOpView>::empty());
    assert(perform_all(files, seq![op].drop_last()) == files);
}

/// Carrying out one more file operation.
pub proof fn lemma_perform_push(files: Files, ops: Seq<FileOpView>, op: FileOpView)
    ensures
        perform_all(files, ops.push(op)) == perform(perform_all(files, ops), op),
{
    assert(ops.push(op).drop_last() =~= ops);
}

/// Publishing a data file leaves the file under its name, with the bytes
/// that were written, and no temporary file.
pub proof fn lemma_perform_data_ops(files: Files, name: Seq<char>, bytes: Seq<u8>)
    requires
        name != "tmp_data"@,
    ensures
        perform_all(files, create_data_ops(name, bytes)) == files.remove("tmp_data"@).insert(
            name,
            bytes,
        ),
{
    let write = FileOpView::Write { name: "tmp_data"@, option: FileOption::New, bytes };
    let rename = FileOpView::Rename { from: "tmp_data"@, to: name };
    assert(create_data_ops(name, bytes) =~= seq![write].push(rename));
    lemma_perform_push(files, seq![write], rename);
    lemma_perform_one(files, write);
    assert(Seq::<u8>::empty() + bytes =~= bytes);
    assert(perform(perform(files, write), rename) =~= files.remove("tmp_data"@).insert(name, bytes));
}

/// Publishing an index file and its skip index leaves both files under
/// their names, with the bytes that were written, and no temporary file.
pub proof fn lemma_perform_index_ops(
    files: Files,
    data_gen: DataGen,
    index_name: Seq<char>,
    skip_name: Seq<char>,
    index: Seq<u8>,
    skip: Seq<u8>,
)
    requires
        index_name != skip_name,
        index_name != spec_tmp_index_name(data_gen),
        index_name != "tmp_skip_index"@,
        skip_name != spec_tmp_index_name(data_gen),
        skip_name != "tmp_skip_index"@,
        spec_tmp_index_name(data_gen) != "tmp_skip_index"@,
    ensures
        perform_all(files, create_index_ops(data_gen, index_name, skip_name, index, skip))
            == files.remove(spec_tmp_index_name(data_gen)).remove("tmp_skip_index"@).insert(
            index_name,
            index,
        ).insert(skip_name, skip),
{
    let tmp_index = spec_tmp_index_name(data_gen);
    let tmp_skip = "tmp_skip_index"@;
    let w1 = FileOpView::Write { name: tmp_index, option: FileOption::New, bytes: index };
    let w2 = FileOpView::Write { name: tmp_skip, option: FileOption::New, bytes: skip };
    let r1 = FileOpView::Rename { from: tmp_index, to: index_name };
    let r2 = FileOpView::Rename { from: tmp_skip, to: skip_name };
    assert(create_index_ops(data_gen, index_name, skip_name, index, skip) =~= seq![w1].push(
        w2,
    ).push(r1).push(r2));
    lemma_perform_one(files, w1);
    lemma_perform_push(files, seq![w1], w2);
    lemma_perform_push(files, seq![w1].push(w2), r1);
    lemma_perform_push(files, seq![w1].push(w2).push(r1), r2);
    assert(Seq::<u8>::empty() + index =~= index);
    assert(Seq::<u8>::empty() + skip =~= skip);
    let f1 = perform(files, w1);
    let f2 = perform(f1, w2);
    let f3 = perform(f2, r1);
    let f4 = perform(f3, r2);
    assert(f1 == files.insert(tmp_index, index));
    assert(f2 == f1.insert(tmp_skip, skip));
    assert(f3 == f2.remove(tmp_index).insert(index_name, index));
    assert(f4 == f3.remove(tmp_skip).insert(skip_name, skip));
    assert(f4 =~= files.remove(tmp_index).remove(tmp_skip).insert(index_name, index).insert(
        skip_name,
        skip,
    ));
}

/// The files of the generation `g` as the directory holds them.
pub open spec fn generation_in(files: Files, g: int) -> GenerationView {
    GenerationView {
        data: content(files, DataFile::spec_name(g as DataGen)),
        index: content(files, IndexFile::spec_name(g as DataGen)),
        skip: content(files, IndexFile::spec_skip_name(g as DataGen)),
    }
}

/// The directory has all three files of the generation `g`.
pub open spec fn complete(files: Files, g: int) -> bool {
    &&& files.contains_key(DataFile::spec_name(g as DataGen))
    &&& files.contains_key(IndexFile::spec_name(g as DataGen))
    &&& files.contains_key(IndexFile::spec_skip_name(g as DataGen))
}

/// The directory is in step with the engine: it holds the write-ahead log
/// as the engine has it, and for every generation from 1 to the newest it
/// has the data file, the index file and the skip index, all three as
/// the engine has them.
pub open spec fn in_step(files: Files, s: EngineState) -> bool {
    &&& content(files, "wal.log"@) == s.wal
    &&& s.generations.len() <= i32::MAX
    &&& forall|g: int| 1 <= g <= s.generations.len() ==> held(files, s.generations, g)
}

/// The directory has the three files of the generation `g`, as they are
/// in `generations`.
pub open spec fn held(files: Files, generations: Seq<GenerationView>, g: int) -> bool {
    generation_in(files, g) == generations[g - 1] && complete(files, g)
}

/// Carrying out what a delete queues keeps the directory in step with
/// the engine.
pub proof fn lemma_delete_keeps_in_step(files: Files, s: EngineState, key: Seq<char>)
    requires
        in_step(files, s),
    ensures
        in_step(perform_all(files, s.delete_ops(key)), s.delete(key)),
{
    if carriable(key) {
        lemma_perform_one(files, append_op(delete_line(key)));
        lemma_log_write_keeps_generations(files, s, FileOption::Append, delete_line(key));
    }
}

/// A write to the log leaves the generations as they are.
pub proof fn lemma_log_write_keeps_generations(
    files: Files,
    s: EngineState,
    option: FileOption,
    bytes: Seq<u8>,
)
    requires
        forall|g: int| 1 <= g <= s.generations.len() ==> held(files, s.generations, g),
        s.generations.len() <= i32::MAX,
    ensures
        forall|g: int|
            1 <= g <= s.generations.len() ==> held(
                perform(files, FileOpView::Write { name: "wal.log"@, option, bytes }),
                s.generations,
                g,
            ),
{
    let after = perform(files, FileOpView::Write { name: "wal.log"@, option, bytes });
    assert forall|g: int| 1 <= g <= s.generations.len() implies held(after, s.generations, g) by {
        lemma_names_differ(FileKind::Log, 0, FileKind::Data, g as DataGen);
        lemma_names_differ(FileKind::Log, 0, FileKind::Index, g as DataGen);
        lemma_names_differ(FileKind::Log, 0, FileKind::Skip, g as DataGen);
        assert(held(files, s.generations, g));
    }
}

/// Carrying out what a write queues keeps the directory in step with the
/// engine, whether the write succeeds or fails.
pub proof fn lemma_insert_keeps_in_step(
    files: Files,
    s: EngineState,
    key: Seq<char>,
    value: Seq<char>,
)
    requires
        in_step(files, s),
    ensures
        in_step(perform_all(files, s.insert_ops(key, value)), s.insert(key, value)),
{
    let line = insert_line(key, value);
    let logged = perform(files, append_op(line));
    lemma_perform_one(files, append_op(line));
    lemma_log_write_keeps_generations(files, s, FileOption::Append, line);
    if !carriable(key) || !carriable(value) {
    } else if s.fills(key) && s.insert_error(key, value) is None {
        let n = s.generations.len() as int;
        let next = (n + 1) as DataGen;
        let records = s.records_with(key, value);
        let written = flushed_generation(records);
        let data_ops = create_data_ops(DataFile::spec_name(next), written.data);
        let index_ops = create_index_ops(
            next,
            IndexFile::spec_name(next),
            IndexFile::spec_skip_name(next),
            written.index,
            written.skip,
        );
        assert(s.insert_ops(key, value) =~= (seq![append_op(line)] + data_ops + index_ops).push(
            truncate_op(),
        ));
        lemma_perform_push(files, seq![append_op(line)] + data_ops + index_ops, truncate_op());
        lemma_perform_concat(files, seq![append_op(line)] + data_ops, index_ops);
        lemma_perform_concat(files, seq![append_op(line)], data_ops);
        lemma_names_differ(FileKind::Data, next, FileKind::TmpData, 0);
        lemma_perform_data_ops(logged, DataFile::spec_name(next), written.data);
        let with_data = logged.remove("tmp_data"@).insert(DataFile::spec_name(next), written.data);
        lemma_names_differ(FileKind::Index, next, FileKind::Skip, next);
        lemma_names_differ(FileKind::Index, next, FileKind::TmpIndex, next);
        lemma_names_differ(FileKind::Index, next, FileKind::TmpSkip, 0);
        lemma_names_differ(FileKind::Skip, next, FileKind::TmpIndex, next);
        lemma_names_differ(FileKind::Skip, next, FileKind::TmpSkip, 0);
        lemma_names_differ(FileKind::TmpIndex, next, FileKind::TmpSkip, 0);
        lemma_perform_index_ops(
            with_data,
            next,
            IndexFile::spec_name(next),
            IndexFile::spec_skip_name(next),
            written.index,
            written.skip,
        );
        let with_index = with_data.remove(spec_tmp_index_name(next)).remove(
            "tmp_skip_index"@,
        ).insert(IndexFile::spec_name(next), written.index).insert(
            IndexFile::spec_skip_name(next),
            written.skip,
        );
        let after = perform(with_index, truncate_op());
        assert(perform_all(files, s.insert_ops(key, value)) == after);
        assert(Seq::<u8>::empty() + Seq::<u8>::empty() =~= Seq::<u8>::empty());
        assert(content(after, "wal.log"@) =~= Seq::<u8>::empty());
        let grown = s.insert(key, value);
        assert forall|g: int| 1 <= g <= grown.generations.len() implies held(
            after,
            grown.generations,
            g,
        ) by {
            lemma_stays_or_arrives(logged, after, next, written, g as DataGen);
            if g <= n {
                assert(held(logged, s.generations, g));
            }
        }
    }
}

/// What publishing the generation `next` does to the files of the
/// generation `g`: they are the files that were written if `g` is `next`,
/// all three of them, and are left alone if it is not.
pub proof fn lemma_stays_or_arrives(
    files: Files,
    after: Files,
    next: DataGen,
    written: GenerationView,
    g: DataGen,
)
    requires
        next >= 1,
        g >= 1,
        after == perform(
            files.remove("tmp_data"@).insert(DataFile::spec_name(next), written.data).remove(
                spec_tmp_index_name(next),
            ).remove("tmp_skip_index"@).insert(IndexFile::spec_name(next), written.index).insert(
                IndexFile::spec_skip_name(next),
                written.skip,
            ),
            truncate_op(),
        ),
    ensures
        generation_in(after, g as int) == if g == next {
            written
        } else {
            generation_in(files, g as int)
        },
        complete(after, g as int) == (g == next || complete(files, g as int)),
{
    lemma_names_differ(FileKind::Data, g, FileKind::Log, 0);
    lemma_names_differ(FileKind::Data, g, FileKind::TmpData, 0);
    lemma_names_differ(FileKind::Data, g, FileKind::TmpIndex, next);
    lemma_names_differ(FileKind::Data, g, FileKind::TmpSkip, 0);
    lemma_names_differ(FileKind::Data, g, FileKind::Index, next);
    lemma_names_differ(FileKind::Data, g, FileKind::Skip, next);
    lemma_names_differ(FileKind::Index, g, FileKind::Log, 0);
    lemma_names_differ(FileKind::Index, g, FileKind::TmpData, 0);
    lemma_names_differ(FileKind::Index, g, FileKind::TmpIndex, next);
    lemma_names_differ(FileKind::Index, g, FileKind::TmpSkip, 0);
    lemma_names_differ(FileKind::Index, g, FileKind::Data, next);
    lemma_names_differ(FileKind::Index, g, FileKind::Skip, next);
    lemma_names_differ(FileKind::Skip, g, FileKind::Log, 0);
    lemma_names_differ(FileKind::Skip, g, FileKind::TmpData, 0);
    lemma_names_differ(FileKind::Skip, g, FileKind::TmpIndex, next);
    lemma_names_differ(FileKind::Skip, g, FileKind::TmpSkip, 0);
    lemma_names_differ(FileKind::Skip, g, FileKind::Data, next);
    lemma_names_differ(FileKind::Skip, g, FileKind::Index, next);
    if g != next {
        lemma_names_differ(FileKind::Data, g, FileKind::Data, next);
        lemma_names_differ(FileKind::Index, g, FileKind::Index, next);
        lemma_names_differ(FileKind::Skip, g, FileKind::Skip, next);
    }
}

/// Carrying out what a clear queues leaves no file of a generation and
/// an empty log, which is what the engine has after the clear.
pub proof fn lemma_clear_keeps_in_step(files: Files, s: EngineState)
    requires
        in_step(files, s),
    ensures
        in_step(
            perform_all(files, clear_ops(s.generations.len() as int).push(truncate_op())),
            s.clear(),
        ),
        forall|g: int|
            1 <= g <= s.generations.len() ==> {
                let after = perform_all(
                    files,
                    clear_ops(s.generations.len() as int).push(truncate_op()),
                );
                &&& !after.contains_key(#[trigger] DataFile::spec_name(g as DataGen))
                &&& !after.contains_key(IndexFile::spec_name(g as DataGen))
                &&& !after.contains_key(IndexFile::spec_skip_name(g as DataGen))
            },
{
    let n = s.generations.len() as int;
    lemma_perform_push(files, clear_ops(n), truncate_op());
    lemma_cleared(files, n);
    let cleared = perform_all(files, clear_ops(n));
    let after = perform(cleared, truncate_op());
    assert(Seq::<u8>::empty() + Seq::<u8>::empty() =~= Seq::<u8>::empty());
    assert(content(after, "wal.log"@) =~= Seq::<u8>::empty());
    assert forall|g: int| 1 <= g <= n implies {
        &&& !after.contains_key(#[trigger] DataFile::spec_name(g as DataGen))
        &&& !after.contains_key(IndexFile::spec_name(g as DataGen))
        &&& !after.contains_key(IndexFile::spec_skip_name(g as DataGen))
    } by {
        lemma_names_differ(FileKind::Log, 0, FileKind::Data, g as DataGen);
        lemma_names_differ(FileKind::Log, 0, FileKind::Index, g as DataGen);
        lemma_names_differ(FileKind::Log, 0, FileKind::Skip, g as DataGen);
        assert(!cleared.contains_key(DataFile::spec_name(g as DataGen)));
    }
}

/// Removing the generations `1..=n` leaves none of their files.
pub proof fn lemma_cleared(files: Files, n: int)
    requires
        0 <= n <= i32::MAX,
    ensures
        forall|g: int|
            1 <= g <= n ==> {
                &&& !perform_all(files, clear_ops(n)).contains_key(
                    #[trigger] DataFile::spec_name(g as DataGen),
                )
                &&& !perform_all(files, clear_ops(n)).contains_key(
                    IndexFile::spec_name(g as DataGen),
                )
                &&& !perform_all(files, clear_ops(n)).contains_key(
                    IndexFile::spec_skip_name(g as DataGen),
                )
            },
    decreases n,
{
    if n > 0 {
        lemma_cleared(files, n - 1);
        let before = perform_all(files, clear_ops(n - 1));
        let last = seq![
            FileOpView::Remove { name: DataFile::spec_name(n as DataGen) },
            FileOpView::Remove { name: IndexFile::spec_name(n as DataGen) },
            FileOpView::Remove { name: IndexFile::spec_skip_name(n as DataGen) },
        ];
        lemma_perform_concat(files, clear_ops(n - 1), last);
        let r1 = FileOpView::Remove { name: DataFile::spec_name(n as DataGen) };
        let r2 = FileOpView::Remove { name: IndexFile::spec_name(n as DataGen) };
        let r3 = FileOpView::Remove { name: IndexFile::spec_skip_name(n as DataGen) };
        assert(last =~= seq![r1].push(r2).push(r3));
        lemma_perform_one(before, r1);
        lemma_perform_push(before, seq![r1], r2);
        lemma_perform_push(before, seq![r1].push(r2), r3);
        let after = perform_all(files, clear_ops(n));
        assert(after == before.remove(DataFile::spec_name(n as DataGen)).remove(
            IndexFile::spec_name(n as DataGen),
        ).remove(IndexFile::spec_skip_name(n as DataGen)));
        assert forall|g: int| 1 <= g <= n implies {
            &&& !after.contains_key(#[trigger] DataFile::spec_name(g as DataGen))
            &&& !after.contains_key(IndexFile::spec_name(g as DataGen))
            &&& !after.contains_key(IndexFile::spec_skip_name(g as DataGen))
        } by {
            if g < n {
                assert(!before.contains_key(DataFile::spec_name(g as DataGen)));
            }
        }
    }
}

/// The files of `listing` but those named `name`.
pub open spec fn without(listing: Seq<RichFile>, name: Seq<char>) -> Seq<RichFile>
    decreases listing.len(),
{
    if listing.len() == 0 {
        Seq::empty()
    } else if listing.last().name@ == name {
        without(listing.drop_last(), name)
    } else {
        without(listing.drop_last(), name).push(listing.last())
    }
}

/// Some file of `listing` is named `name`.
pub open spec fn lists(listing: Seq<RichFile>, name: Seq<char>) -> bool {
    exists|i: int| 0 <= i < listing.len() && (#[trigger] listing[i]).name@ == name
}

/// The files that the listing of a directory shows: of two files with one
/// name the first counts.
pub open spec fn files_of(listing: Seq<RichFile>) -> Files {
    Map::new(|name: Seq<char>| lists(listing, name), |name: Seq<char>| content_of(listing, name))
}

/// A file that is not listed reads as empty.
pub proof fn lemma_content_of_unlisted(listing: Seq<RichFile>, name: Seq<char>)
    requires
        !lists(listing, name),
    ensures
        content_of(listing, name) == Seq::<u8>::empty(),
    decreases listing.len(),
{
    if listing.len() > 0 {
        assert(listing[0].name@ != name);
        let rest = listing.drop_first();
        assert forall|i: int| 0 <= i < rest.len() implies (#[trigger] rest[i]).name@ != name by {
            assert(rest[i] == listing[i + 1]);
        }
        lemma_content_of_unlisted(rest, name);
    }
}

/// The bytes that a listing shows for a name are the bytes of the file of
/// that name in the directory.
pub proof fn lemma_content_of_listing(listing: Seq<RichFile>, name: Seq<char>)
    ensures
        content_of(listing, name) == content(files_of(listing), name),
{
    if !lists(listing, name) {
        lemma_content_of_unlisted(listing, name);
    }
}

/// Reading a listing that has one more file at its end.
pub proof fn lemma_content_of_push(listing: Seq<RichFile>, file: RichFile, name: Seq<char>)
    ensures
        content_of(listing.push(file), name) == if lists(listing, name) {
            content_of(listing, name)
        } else if file.name@ == name {
            file.underlying@
        } else {
            Seq::<u8>::empty()
        },
        lists(listing.push(file), name) == (lists(listing, name) || file.name@ == name),
    decreases listing.len(),
{
    let longer = listing.push(file);
    if lists(listing, name) {
        let i = choose|i: int| 0 <= i < listing.len() && (#[trigger] listing[i]).name@ == name;
        assert(longer[i].name@ == name);
    }
    if lists(longer, name) {
        let i = choose|i: int| 0 <= i < longer.len() && (#[trigger] longer[i]).name@ == name;
        if i < listing.len() {
            assert(listing[i].name@ == name);
        }
    } else {
        assert(longer[listing.len() as int].name@ != name);
    }
    if listing.len() == 0 {
        assert(longer.drop_first() =~= Seq::<RichFile>::empty());
        assert(content_of(longer.drop_first(), name) == Seq::<u8>::empty());
    } else {
        assert(longer[0] == listing[0]);
        assert(longer.drop_first() =~= listing.drop_first().push(file));
        if listing[0].name@ != name {
            lemma_content_of_push(listing.drop_first(), file, name);
            let rest = listing.drop_first();
            if lists(rest, name) {
                let i = choose|i: int| 0 <= i < rest.len() && (#[trigger] rest[i]).name@ == name;
                assert(listing[i + 1].name@ == name);
            }
            if lists(listing, name) {
                let i = choose|i: int|
                    0 <= i < listing.len() && (#[trigger] listing[i]).name@ == name;
                assert(rest[i - 1].name@ == name);
            }
        } else {
            assert(lists(listing, name));
        }
    }
}

/// Reading a listing from which the files of one name were taken.
pub proof fn lemma_content_of_without(listing: Seq<RichFile>, gone: Seq<char>, name: Seq<char>)
    ensures
        lists(without(listing, gone), name) == (lists(listing, name) && name != gone),
        content_of(without(listing, gone), name) == if name == gone {
            Seq::<u8>::empty()
        } else {
            content_of(listing, name)
        },
    decreases listing.len(),
{
    if listing.len() == 0 {
    } else {
        let rest = listing.drop_last();
        let last = listing.last();
        lemma_content_of_without(rest, gone, name);
        assert(listing =~= rest.push(last));
        lemma_content_of_push(rest, last, name);
        if last.name@ != gone {
            lemma_content_of_push(without(rest, gone), last, name);
        }
        if !lists(rest, name) {
            lemma_content_of_unlisted(rest, name);
        }
    }
}

/// The files of a directory, held in memory.
#[derive(Debug, Clone)]
pub struct Directory {
    dir_name: String,
    files: Vec<RichFile>,
}

impl View for Directory {
    type V = Files;

    open spec fn view(&self) -> Files {
        files_of(self.listing())
    }
}

impl Directory {
    /// The listing of the directory.
    pub closed spec fn listing(&self) -> Seq<RichFile> {
        self.files@
    }

    /// The directory `dir_name` with the files `files`; of two files with
    /// one name the first counts.
    pub fn new(dir_name: &str, files: Vec<RichFile>) -> (dir: Directory)
        ensures
            dir.listing() == files@,
            dir@ == files_of(files@),
    {
        Directory { dir_name: dir_name.to_owned(), files }
    }

    /// The listing of the directory.
    pub fn files(&self) -> (files: &Vec<RichFile>)
        ensures
            files@ == self.listing(),
    {
        &self.files
    }

    /// Takes the files named `name` out of the directory.
    fn take(&mut self, name: &str)
        ensures
            final(self).files@ == without(old(self).files@, name@),
    {
        let mut kept: Vec<RichFile> = Vec::new();
        let mut rest: Vec<RichFile> = Vec::new();
        std::mem::swap(&mut rest, &mut self.files);
        let ghost all = rest@;
        assert(all.take(0) =~= Seq::<RichFile>::empty());
        assert(all.skip(0) =~= all);
        while rest.len() > 0
            invariant
                rest@.len() <= all.len(),
                rest@ == all.skip(all.len() - rest@.len()),
                kept@ == without(all.take(all.len() - rest@.len()), name@),
            decreases rest@.len(),
        {
            let ghost done = all.len() - rest@.len();
            let file = rest.remove(0);
            proof {
                assert(file == all[done]);
                assert(rest@ =~= all.skip(done + 1));
                assert(all.take(done + 1).drop_last() =~= all.take(done));
                assert(all.take(done + 1).last() == file);
            }
            if compare_strs(file.name.as_str(), name) != KeyOrder::Same {
                kept.push(file);
            }
        }
        assert(all.take(all.len() as int) =~= all);
        self.files = kept;
    }

    /// Carries out one file operation.
    pub fn perform(&mut self, op: FileOp)
        ensures
            final(self)@ == perform(old(self)@, op@),
    {
        let ghost before = self.files@;
        match op {
            FileOp::Write { name, option, bytes } => {
                let held = read_file(&self.files, name.as_str());
                let existing = if self.lists(name.as_str()) {
                    Some(held)
                } else {
                    None
                };
                self.take(name.as_str());
                let mut underlying = option.opened(existing);
                append_bytes(&mut underlying, bytes.as_slice());
                let file = RichFile { underlying, dir: self.dir_name.clone(), name };
                self.files.push(file);
                proof {
                    assert forall|x: Seq<char>| #[trigger] self@.contains_key(x) == perform(
                        files_of(before),
                        op@,
                    ).contains_key(x) by {
                        lemma_content_of_without(before, name@, x);
                        lemma_content_of_push(without(before, name@), file, x);
                    }
                    assert forall|x: Seq<char>| self@.contains_key(x) implies #[trigger] self@[x]
                        == perform(files_of(before), op@)[x] by {
                        lemma_content_of_without(before, name@, x);
                        lemma_content_of_push(without(before, name@), file, x);
                    }
                    assert(self@ =~= perform(files_of(before), op@));
                }
            },
            FileOp::Rename { from, to } => {
                if self.lists(from.as_str()) {
                    let underlying = read_file(&self.files, from.as_str());
                    self.take(from.as_str());
                    self.take(to.as_str());
                    let file = RichFile { underlying, dir: self.dir_name.clone(), name: to };
                    self.files.push(file);
                    proof {
                        let thinner = without(without(before, from@), to@);
                        assert forall|x: Seq<char>| #[trigger] self@.contains_key(x) == perform(
                            files_of(before),
                            op@,
                        ).contains_key(x) by {
                            lemma_content_of_without(before, from@, x);
                            lemma_content_of_without(without(before, from@), to@, x);
                            lemma_content_of_push(thinner, file, x);
                        }
                        assert forall|x: Seq<char>| self@.contains_key(x) implies #[trigger] self@[x]
                            == perform(files_of(before), op@)[x] by {
                            lemma_content_of_without(before, from@, x);
                            lemma_content_of_without(without(before, from@), to@, x);
                            lemma_content_of_push(thinner, file, x);
                        }
                        assert(self@ =~= perform(files_of(before), op@));
                    }
                }
            },
            FileOp::Remove { name } => {
                self.take(name.as_str());
                proof {
                    assert forall|x: Seq<char>| #[trigger] self@.contains_key(x) == perform(
                        files_of(before),
                        op@,
                    ).contains_key(x) by {
                        lemma_content_of_without(before, name@, x);
                    }
                    assert forall|x: Seq<char>| self@.contains_key(x) implies #[trigger] self@[x]
                        == perform(files_of(before), op@)[x] by {
                        lemma_content_of_without(before, name@, x);
                    }
                    assert(self@ =~= perform(files_of(before), op@));
                }
            },
        }
    }

    /// Whether the directory has a file named `name`.
    pub fn lists(&self, name: &str) -> (r: bool)
        ensures
            r == self@.contains_key(name@),
    {
        let mut i: usize = 0;
        while i < self.files.len()
            invariant
                i <= self.files@.len(),
                forall|j: int| 0 <= j < i ==> (#[trigger] self.files@[j]).name@ != name@,
            decreases self.files@.len() - i,
        {
            if compare_strs(self.files[i].name.as_str(), name) == KeyOrder::Same {
                return true;
            }
            i += 1;
        }
        false
    }

    /// Carries out the file operations `ops`, in order.
    pub fn perform_all(&mut self, ops: Vec<FileOp>)
        ensures
            final(self)@ == perform_all(old(self)@, ops_view(ops@)),
    {
        let mut ops = ops;
        let ghost all = ops_view(ops@);
        assert(all.take(0) =~= Seq::<FileOpView>::empty());
        assert(all.skip(0) =~= all);
        while ops.len() > 0
            invariant
                ops@.len() <= all.len(),
                ops_view(ops@) == all.skip(all.len() - ops@.len()),
                self@ == perform_all(old(self)@, all.take(all.len() - ops@.len())),
            decreases ops@.len(),
        {
            let ghost done = all.len() - ops@.len();
            let ghost left = ops_view(ops@);
            let op = ops.remove(0);
            proof {
                assert(op@ == left[0]);
                assert(op@ == all[done]);
                assert(ops_view(ops@) =~= left.remove(0));
                assert(left.remove(0) =~= all.skip(done + 1));
                assert(all.take(done + 1).drop_last() =~= all.take(done));
                assert(all.take(done + 1).last() == op@);
            }
            self.perform(op);
        }
        assert(all.take(all.len() as int) =~= all);
    }
}

} // verus!
