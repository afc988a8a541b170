//! Immutable on-disk generations.
//!
//! A generation is a data file, an index file and a skip index, all three
//! written by one flush. Generations are numbered from 1; a higher number
//! is newer data, and a read takes the first hit from the newest
//! generation down.

use vstd::prelude::*;
use vstd::utf8::*;
use vstd::seq_lib::*;
use crate::sst::error::Error;
use crate::sst::decimal::{parse_u64, spec_parse_u64};
use crate::sst::key_order::{compare_strs, KeyOrder};
use crate::sst::rich_file::{FileOp, FileOpView, RichFile, content_of, ops_view};
use crate::sst::memtable::{GetResult, MemtableEntries, TableState, lookup};
use crate::sst::memtable::sorted_map::opt_text;
use crate::sst::disktable::data_file::{
    DataFile, Record, all_fit, create_data_ops, data_bytes, data_index, spec_read_entry,
};
use crate::sst::disktable::index_file::{
    IndexFile, create_index_ops, every_skip, index_bytes, skip_bytes, spec_find_index,
};

pub mod byte_utils;
pub mod data_file;
pub mod index_file;
pub mod index_proofs;

verus! {

/// Number of a generation; 0 means that nothing was flushed yet.
pub type DataGen = i32;

/// Byte offset into a file.
pub type Offset = u64;

/// The text of the group `group` in the leftmost match of the regular
/// expression `pattern` in `text`; `None` where `pattern` is no regular
/// expression, where it matches nowhere in `text`, or where the group
/// took no part in the match.
pub uninterp spec fn named_capture(
    pattern: Seq<char>,
    group: Seq<char>,
    text: Seq<char>,
) -> Option<Seq<char>>;

/// Compiles `pattern` with `regex::Regex::new`, searches `text` with
/// `Regex::captures` and hands out what `Captures::name` holds for
/// `group`. The result depends on the three texts alone; nothing else is
/// claimed of it.
#[verifier::external_body]
fn regex_named_capture(pattern: &str, group: &str, text: &str) -> (r: Option<String>)
    ensures
        (match r {
            Some(s) => Some(s@),
            None => None,
        }) == named_capture(pattern@, group@, text@),
{
    match regex::Regex::new(pattern) {
        Ok(re) => match re.captures(text) {
            Some(caps) => match caps.name(group) {
                Some(m) => Some(m.as_str().to_string()),
                None => None,
            },
            None => None,
        },
        Err(_) => None,
    }
}

/// The generation that the digits captured from a file name spell;
/// `None` where they are no ASCII digits or spell too large a number.
pub open spec fn spec_generation_from_capture(capture: Seq<char>) -> Option<DataGen> {
    match spec_parse_u64(encode_utf8(capture)) {
        Some(n) => if n <= i32::MAX {
            Some(n as DataGen)
        } else {
            None
        },
        None => None,
    }
}

/// The generation that a file name stands for, if it is the name of a
/// data file.
pub open spec fn name_generation(name: Seq<char>) -> Option<DataGen> {
    match named_capture("data_(?P<gen>\\d+)"@, "gen"@, name) {
        Some(capture) => spec_generation_from_capture(capture),
        None => None,
    }
}

/// The generations of the data files among `files`, in the order of the
/// files.
pub open spec fn spec_data_gens(files: Seq<RichFile>) -> Seq<DataGen>
    decreases files.len(),
{
    if files.len() == 0 {
        Seq::empty()
    } else {
        match name_generation(files.last().name@) {
            Some(g) => spec_data_gens(files.drop_last()).push(g),
            None => spec_data_gens(files.drop_last()),
        }
    }
}

/// The greatest of `gens`, or 0 if there is none above 0.
pub open spec fn spec_latest(gens: Seq<DataGen>) -> DataGen
    decreases gens.len(),
{
    if gens.len() == 0 {
        0
    } else if gens.last() > spec_latest(gens.drop_last()) {
        gens.last()
    } else {
        spec_latest(gens.drop_last())
    }
}

/// No number of `gens` is followed by a smaller one.
pub open spec fn ascending(gens: Seq<DataGen>) -> bool {
    forall|i: int, j: int| 0 <= i <= j < gens.len() ==> gens[i] <= gens[j]
}

/// A sequence with one more item holds that item once more, wherever it
/// was put.
pub proof fn lemma_insert_to_multiset(s: Seq<DataGen>, at: int, g: DataGen)
    requires
        0 <= at <= s.len(),
    ensures
        s.insert(at, g).to_multiset() == s.to_multiset().insert(g),
{
    let t = s.insert(at, g);
    assert(t.remove(at) =~= s);
    assert(t[at] == g);
    to_multiset_remove(t, at);
    assert(t.contains(g));
    t.to_multiset_ensures();
    assert(t.to_multiset() =~= t.to_multiset().remove(g).insert(g));
}

/// The greatest of `gens` is no number below 0, is below none of them,
/// and is one of them unless it is 0.
pub proof fn lemma_latest_is_greatest(gens: Seq<DataGen>)
    ensures
        spec_latest(gens) >= 0,
        forall|i: int| 0 <= i < gens.len() ==> gens[i] <= spec_latest(gens),
        spec_latest(gens) == 0 || gens.contains(spec_latest(gens)),
    decreases gens.len(),
{
    if gens.len() > 0 {
        let front = gens.drop_last();
        lemma_latest_is_greatest(front);
        assert forall|i: int| 0 <= i < gens.len() implies gens[i] <= spec_latest(gens) by {
            if i < gens.len() - 1 {
                assert(gens[i] == front[i]);
            }
        }
        if gens.last() > spec_latest(front) {
            assert(gens[gens.len() - 1] == spec_latest(gens));
        } else if spec_latest(front) != 0 {
            let i = choose|i: int| 0 <= i < front.len() && front[i] == spec_latest(front);
            assert(gens[i] == spec_latest(gens));
        }
    }
}

/// The greatest of numbers that are not below 0 is the last of them once
/// they are put in ascending order.
pub proof fn lemma_latest_of_ascending(sorted: Seq<DataGen>, gens: Seq<DataGen>)
    requires
        sorted.to_multiset() == gens.to_multiset(),
        ascending(sorted),
        forall|i: int| 0 <= i < sorted.len() ==> sorted[i] >= 0,
    ensures
        sorted.len() == 0 ==> spec_latest(gens) == 0,
        sorted.len() > 0 ==> spec_latest(gens) == sorted.last(),
{
    lemma_latest_is_greatest(gens);
    sorted.to_multiset_ensures();
    gens.to_multiset_ensures();
    let latest = spec_latest(gens);
    if sorted.len() == 0 {
        if latest != 0 {
            assert(gens.contains(latest));
            assert(gens.to_multiset().count(latest) > 0);
        }
    } else {
        let last = sorted.last();
        assert(sorted.contains(last));
        assert(sorted.to_multiset().count(last) > 0);
        assert(gens.contains(last));
        let i = choose|i: int| 0 <= i < gens.len() && gens[i] == last;
        assert(last <= latest);
        if latest != 0 {
            assert(gens.contains(latest));
            assert(gens.to_multiset().count(latest) > 0);
            assert(sorted.contains(latest));
            let j = choose|j: int| 0 <= j < sorted.len() && sorted[j] == latest;
            assert(sorted[j] <= sorted[sorted.len() - 1]);
        }
    }
}

/// The files of a generation as mathematical values.
pub struct GenerationView {
    /// The bytes of the data file.
    pub data: Seq<u8>,
    /// The bytes of the index file.
    pub index: Seq<u8>,
    /// The bytes of the skip index.
    pub skip: Seq<u8>,
}

/// The generation `g` as the files `files` hold it; a missing file is
/// empty.
pub open spec fn bound_generation(files: Seq<RichFile>, g: int) -> GenerationView {
    GenerationView {
        data: content_of(files, DataFile::spec_name(g as DataGen)),
        index: content_of(files, IndexFile::spec_name(g as DataGen)),
        skip: content_of(files, IndexFile::spec_skip_name(g as DataGen)),
    }
}

/// The generations `1..=n` as the files `files` hold them; none if `n` is
/// below 1.
pub open spec fn bound_generations(files: Seq<RichFile>, n: int) -> Seq<GenerationView> {
    Seq::new(
        if n > 0 {
            n as nat
        } else {
            0
        },
        |i: int| bound_generation(files, i + 1),
    )
}

/// The generation that a flush of `records` writes.
pub open spec fn flushed_generation(records: Seq<Record>) -> GenerationView {
    GenerationView {
        data: data_bytes(records),
        index: index_bytes(data_index(records)),
        skip: skip_bytes(data_index(records), records.len() as int, every_skip()),
    }
}

/// The files that a flush of `records` writes can be addressed with
/// 8-byte offsets.
pub open spec fn addressable(records: Seq<Record>) -> bool {
    data_bytes(records).len() <= u64::MAX && index_bytes(data_index(records)).len() <= u64::MAX
}

/// Why a flush of `records` fails when `latest` is the number of the
/// newest generation, if it does: the number of the next generation
/// cannot be held, a length of a key or of a value cannot be written in
/// 4 bytes, or the files grow beyond what offsets can address.
pub open spec fn spec_flush_error(latest: int, records: Seq<Record>) -> Option<
    Error,
> {
    if latest >= i32::MAX {
        Some(Error::CapacityExceeded)
    } else if !all_fit(records) {
        Some(Error::CorruptData)
    } else if !addressable(records) {
        Some(Error::CapacityExceeded)
    } else {
        None
    }
}

/// What a lookup of `key` finds in one generation: the value of the
/// record that the index sends to, or that the key is deleted, if that
/// record has the key. A generation whose index does not hold the key, or
/// sends to no record or to the record of another key, does not know the
/// key. A record that cannot be read fails the lookup.
pub open spec fn spec_find_in_generation(generation: GenerationView, key: Seq<char>) -> Result<
    GetResult<Seq<char>>,
    Error,
> {
    match spec_find_index(generation.index, generation.skip, key) {
        None => Ok(GetResult::NotFound),
        Some(offset) => match spec_read_entry(generation.data, offset) {
            Ok(Some((k, v))) => if k == key {
                match v {
                    Some(value) => Ok(GetResult::Found(value)),
                    None => Ok(GetResult::Deleted),
                }
            } else {
                Ok(GetResult::NotFound)
            },
            Ok(None) => Ok(GetResult::NotFound),
            Err(e) => Err(e),
        },
    }
}

/// What a lookup of `key` finds in the generations `1..=n`: the newest
/// generation that knows the key decides, with its value or with nothing
/// if it holds the key as deleted, unless a newer one fails the lookup.
pub open spec fn spec_find_on_disk(generations: Seq<GenerationView>, n: int, key: Seq<char>) -> Result<
    Option<Seq<char>>,
    Error,
>
    decreases n,
{
    if n <= 0 {
        Ok(None)
    } else {
        match spec_find_in_generation(generations[n - 1], key) {
            Ok(GetResult::Found(value)) => Ok(Some(value)),
            Ok(GetResult::Deleted) => Ok(None),
            Ok(GetResult::NotFound) => spec_find_on_disk(generations, n - 1, key),
            Err(e) => Err(e),
        }
    }
}

/// What a lookup of `key` finds: a snapshot that is being flushed is
/// asked first, then the generations.
pub open spec fn spec_find(
    flushing: Option<TableState>,
    generations: Seq<GenerationView>,
    key: Seq<char>,
) -> Result<Option<Seq<char>>, Error> {
    let on_disk = spec_find_on_disk(generations, generations.len() as int, key);
    match flushing {
        Some(state) => match lookup(state.0, state.1, key) {
            GetResult::Found(v) => Ok(Some(v)),
            GetResult::Deleted => Ok(None),
            GetResult::NotFound => on_disk,
        },
        None => on_disk,
    }
}

/// The file operations that remove the generations `1..=n`.
pub open spec fn clear_ops(n: int) -> Seq<FileOpView>
    decreases n,
{
    if n <= 0 {
        Seq::empty()
    } else {
        clear_ops(n - 1) + seq![
            FileOpView::Remove { name: DataFile::spec_name(n as DataGen) },
            FileOpView::Remove { name: IndexFile::spec_name(n as DataGen) },
            FileOpView::Remove { name: IndexFile::spec_skip_name(n as DataGen) },
        ]
    }
}

/// The file operations that publish the generation `data_gen` with the
/// records `records`.
pub open spec fn flush_ops(data_gen: DataGen, records: Seq<Record>) -> Seq<FileOpView> {
    create_data_ops(DataFile::spec_name(data_gen), data_bytes(records)) + create_index_ops(
        data_gen,
        IndexFile::spec_name(data_gen),
        IndexFile::spec_skip_name(data_gen),
        flushed_generation(records).index,
        flushed_generation(records).skip,
    )
}

/// The generation that captured digits spell.
pub fn generation_from_capture(capture: &str) -> (r: Option<DataGen>)
    ensures
        r == spec_generation_from_capture(capture@),
{
    match parse_u64(capture.as_bytes()) {
        Some(n) => if n <= 0x7fff_ffff {
            Some(n as DataGen)
        } else {
            None
        },
        None => None,
    }
}

/// The files of one generation.
#[derive(Debug, Clone, PartialEq, Eq)]
pub struct Generation {
    /// The data file.
    pub data: DataFile,
    /// The index file with its skip index.
    pub index: IndexFile,
}

impl Generation {
    /// The handles are bound to the files of generation `data_gen` in the
    /// directory `dir`.
    pub open spec fn bound_to(&self, dir: Seq<char>, data_gen: DataGen) -> bool {
        &&& self.data.data_gen == data_gen
        &&& self.data.file.dir@ == dir
        &&& self.data.file.name@ == DataFile::spec_name(data_gen)
        &&& self.index.data_gen == data_gen
        &&& self.index.file.dir@ == dir
        &&& self.index.file.name@ == IndexFile::spec_name(data_gen)
        &&& self.index.skip_index_file.dir@ == dir
        &&& self.index.skip_index_file.name@ == IndexFile::spec_skip_name(data_gen)
    }
}

impl View for Generation {
    type V = GenerationView;

    open spec fn view(&self) -> GenerationView {
        GenerationView {
            data: self.data.file.underlying@,
            index: self.index.file.underlying@,
            skip: self.index.skip_index_file.underlying@,
        }
    }
}

/// The generations of an engine directory.
#[derive(Debug)]
pub struct FileDisktable {
    dir_name: String,
    data_gen: DataGen,
    flushing: Option<MemtableEntries>,
    unconfirmed: Option<MemtableEntries>,
    generations: Vec<Generation>,
}

impl FileDisktable {
    /// The directory of the generations.
    pub closed spec fn dir(&self) -> Seq<char> {
        self.dir_name@
    }

    /// The number of the newest generation.
    pub closed spec fn latest(&self) -> DataGen {
        self.data_gen
    }

    /// The generations from 1 to the newest, oldest first.
    pub closed spec fn generations(&self) -> Seq<GenerationView> {
        self.generations@.map_values(|g: Generation| g@)
    }

    /// The snapshot that a flush did not get to disk, if a flush failed.
    pub closed spec fn flushing(&self) -> Option<TableState> {
        match self.flushing {
            Some(m) => Some((m.live(), m.dead())),
            None => None,
        }
    }

    /// The snapshot that the newest generation was flushed from, kept as
    /// long as the files of that generation may still fail to be written.
    pub closed spec fn unconfirmed(&self) -> Option<TableState> {
        match self.unconfirmed {
            Some(m) => Some((m.live(), m.dead())),
            None => None,
        }
    }

    /// There are as many generations as the number of the newest says,
    /// each under its number.
    pub closed spec fn wf(&self) -> bool {
        &&& 0 <= self.data_gen
        &&& self.generations@.len() == self.data_gen
        &&& forall|i: int|
            0 <= i < self.generations@.len() ==> (#[trigger] self.generations@[i]).bound_to(
                self.dir_name@,
                (i + 1) as DataGen,
            )
        &&& self.flushing matches Some(m) ==> m.wf()
        &&& self.unconfirmed matches Some(m) ==> m.wf() && self.data_gen >= 1
    }

    /// What a lookup of `key` finds.
    pub open spec fn spec_find(&self, key: Seq<char>) -> Result<Option<Seq<char>>, Error> {
        spec_find(self.flushing(), self.generations(), key)
    }

    /// A well-formed table counts its generations.
    pub proof fn lemma_latest(&self)
        requires
            self.wf(),
        ensures
            self.latest() == self.generations().len(),
    {
    }

    /// The generations of the data files among `files`, ascending, each
    /// as often as a file names it. Names that stand for no generation
    /// are passed over.
    pub fn get_data_gens(files: &Vec<RichFile>) -> (gens: Vec<DataGen>)
        ensures
            gens@.to_multiset() == spec_data_gens(files@).to_multiset(),
            ascending(gens@),
            forall|i: int| 0 <= i < gens@.len() ==> gens@[i] >= 0,
    {
        let mut gens: Vec<DataGen> = Vec::new();
        let mut i: usize = 0;
        assert(files@.take(0) =~= Seq::<RichFile>::empty());
        while i < files.len()
            invariant
                i <= files@.len(),
                gens@.to_multiset() == spec_data_gens(files@.take(i as int)).to_multiset(),
                ascending(gens@),
                forall|j: int| 0 <= j < gens@.len() ==> gens@[j] >= 0,
            decreases files@.len() - i,
        {
            proof {
                assert(files@.take(i + 1).drop_last() =~= files@.take(i as int));
                assert(files@.take(i + 1).last() == files@[i as int]);
            }
            match regex_named_capture("data_(?P<gen>\\d+)", "gen", files[i].name.as_str()) {
                Some(capture) => match generation_from_capture(capture.as_str()) {
                    Some(g) => {
                        let ghost before = gens@;
                        let mut at: usize = 0;
                        while at < gens.len() && gens[at] <= g
                            invariant
                                at <= gens@.len(),
                                forall|j: int| 0 <= j < at ==> gens@[j] <= g,
                            decreases gens@.len() - at,
                        {
                            at += 1;
                        }
                        gens.insert(at, g);
                        proof {
                            lemma_insert_to_multiset(before, at as int, g);
                            to_multiset_build(spec_data_gens(files@.take(i as int)), g);
                            assert forall|a: int, b: int| 0 <= a <= b < gens@.len() implies gens@[a]
                                <= gens@[b] by {
                                if a < at && b > at {
                                    assert(gens@[b] == before[b - 1]);
                                    assert(before[at as int] <= before[b - 1]);
                                } else if a > at {
                                    assert(gens@[a] == before[a - 1]);
                                    assert(gens@[b] == before[b - 1]);
                                } else if a == at && b > at {
                                    assert(gens@[b] == before[b - 1]);
                                    assert(before[at as int] <= before[b - 1]);
                                }
                            }
                        }
                    },
                    None => {},
                },
                None => {},
            }
            i += 1;
        }
        assert(files@.take(i as int) =~= files@);
        gens
    }

    /// The number of the newest generation among `files`; 0 if there is
    /// no data file.
    pub fn get_latest_data_gen(files: &Vec<RichFile>) -> (latest: DataGen)
        ensures
            latest == spec_latest(spec_data_gens(files@)),
            latest >= 0,
    {
        let gens = Self::get_data_gens(files);
        proof {
            lemma_latest_of_ascending(gens@, spec_data_gens(files@));
        }
        if gens.len() == 0 {
            0
        } else {
            gens[gens.len() - 1]
        }
    }

    /// Opens the generations of the directory `dir_name`, whose files are
    /// `files`: the newest generation is the greatest number that a data
    /// file is named with, and the files of each generation up to it are
    /// bound, a missing file being empty.
    pub fn new(files: &Vec<RichFile>, dir_name: &str) -> (table: FileDisktable)
        ensures
            table.wf(),
            table.dir() == dir_name@,
            table.flushing() is None,
            table.unconfirmed() is None,
            table.generations() == bound_generations(
                files@,
                spec_latest(spec_data_gens(files@)) as int,
            ),
    {
        Self::with_generations(files, dir_name, Self::get_latest_data_gen(files))
    }

    /// Opens the generations `1..=data_gen` of the directory `dir_name`,
    /// whose files are `files`; a missing file is empty.
    pub fn with_generations(files: &Vec<RichFile>, dir_name: &str, data_gen: DataGen) -> (table:
        FileDisktable)
        ensures
            table.wf(),
            table.dir() == dir_name@,
            table.flushing() is None,
            table.unconfirmed() is None,
            table.generations() == bound_generations(files@, data_gen as int),
    {
        let data_gen = if data_gen < 0 {
            0
        } else {
            data_gen
        };
        let mut generations: Vec<Generation> = Vec::new();
        let mut g: DataGen = 0;
        while g < data_gen
            invariant
                0 <= g <= data_gen,
                generations@.len() == g,
                forall|i: int|
                    0 <= i < g ==> {
                        &&& (#[trigger] generations@[i]).bound_to(dir_name@, (i + 1) as DataGen)
                        &&& generations@[i]@ == bound_generation(files@, i + 1)
                    },
            decreases data_gen - g,
        {
            g += 1;
            generations.push(
                Generation {
                    data: DataFile::of(files, dir_name, g),
                    index: IndexFile::of(files, g, dir_name),
                },
            );
        }
        let table = FileDisktable {
            dir_name: dir_name.to_owned(),
            data_gen,
            flushing: None,
            unconfirmed: None,
            generations,
        };
        proof {
            assert(table.generations() =~= bound_generations(files@, data_gen as int));
        }
        table
    }

    /// The data file of generation `gen`, if there is such a generation.
    pub fn data_file(&self, gen: DataGen) -> (r: Option<&DataFile>)
        requires
            self.wf(),
        ensures
            r is Some <==> 1 <= gen <= self.latest(),
            r matches Some(f) ==> {
                &&& f.file.underlying@ == self.generations()[gen - 1].data
                &&& f.file.dir@ == self.dir()
                &&& f.file.name@ == DataFile::spec_name(gen)
                &&& f.data_gen == gen
            },
    {
        if 1 <= gen && gen <= self.data_gen {
            Some(&self.generations[(gen - 1) as usize].data)
        } else {
            None
        }
    }

    /// The index file of generation `data_gen`, if there is such a
    /// generation.
    pub fn index_file(&self, data_gen: DataGen) -> (r: Option<&IndexFile>)
        requires
            self.wf(),
        ensures
            r is Some <==> 1 <= data_gen <= self.latest(),
            r matches Some(f) ==> {
                &&& f.file.underlying@ == self.generations()[data_gen - 1].index
                &&& f.file.dir@ == self.dir()
                &&& f.file.name@ == IndexFile::spec_name(data_gen)
                &&& f.skip_index_file.underlying@ == self.generations()[data_gen - 1].skip
                &&& f.skip_index_file.dir@ == self.dir()
                &&& f.skip_index_file.name@ == IndexFile::spec_skip_name(data_gen)
                &&& f.data_gen == data_gen
            },
    {
        if 1 <= data_gen && data_gen <= self.data_gen {
            Some(&self.generations[(data_gen - 1) as usize].index)
        } else {
            None
        }
    }

    /// What a read at `offset` of the data file of generation `data_gen`
    /// yields; a generation that there is not holds no record.
    pub open spec fn spec_fetch(&self, data_gen: DataGen, offset: Offset) -> Result<
        Option<Record>,
        Error,
    > {
        if 1 <= data_gen <= self.latest() {
            spec_read_entry(self.generations()[data_gen - 1].data, offset)
        } else {
            Ok(None)
        }
    }

    /// Reads the record at `offset` of the data file of generation
    /// `data_gen`: its key with its value, or with none if the record is a
    /// tombstone.
    pub fn fetch(&self, data_gen: DataGen, offset: Offset) -> (r: Result<
        Option<(String, Option<String>)>,
        Error,
    >)
        requires
            self.wf(),
        ensures
            (match r {
                Ok(Some(pair)) => Ok(Some((pair.0@, opt_text(pair.1)))),
                Ok(None) => Ok(None),
                Err(e) => Err(e),
            }) == self.spec_fetch(data_gen, offset),
    {
        match self.data_file(data_gen) {
            Some(file) => match file.read_entry(offset) {
                Ok(Some(entry)) => {
                    if entry.deleted {
                        Ok(Some((entry.key, None)))
                    } else {
                        Ok(Some((entry.key, Some(entry.value))))
                    }
                },
                Ok(None) => Ok(None),
                Err(e) => Err(e),
            },
            None => Ok(None),
        }
    }

    /// Looks `key` up in one generation.
    fn find_in_generation(&self, data_gen: DataGen, key: &str) -> (r: Result<
        GetResult<String>,
        Error,
    >)
        requires
            self.wf(),
            1 <= data_gen <= self.latest(),
        ensures
            (match r {
                Ok(GetResult::Found(v)) => Ok(GetResult::Found(v@)),
                Ok(GetResult::Deleted) => Ok(GetResult::Deleted),
                Ok(GetResult::NotFound) => Ok(GetResult::NotFound),
                Err(e) => Err(e),
            }) == spec_find_in_generation(self.generations()[data_gen - 1], key@),
    {
        let found = match self.index_file(data_gen) {
            Some(index) => index.find_index(key),
            None => None,
        };
        match found {
            None => Ok(GetResult::NotFound),
            Some(index_entry) => match self.fetch(index_entry.data_gen, index_entry.offset) {
                Ok(Some((found, value))) => {
                    if compare_strs(found.as_str(), key) == KeyOrder::Same {
                        match value {
                            Some(v) => Ok(GetResult::Found(v)),
                            None => Ok(GetResult::Deleted),
                        }
                    } else {
                        Ok(GetResult::NotFound)
                    }
                },
                Ok(None) => Ok(GetResult::NotFound),
                Err(e) => Err(e),
            },
        }
    }

    /// Looks `key` up: first in a snapshot that a failed flush left
    /// behind, then in the generations from the newest to the oldest. The
    /// first of them that knows the key decides: a key that it holds as
    /// deleted has no value, whatever older generations hold for it.
    pub fn find(&self, key: &str) -> (r: Result<Option<String>, Error>)
        requires
            self.wf(),
        ensures
            (match r {
                Ok(Some(v)) => Ok(Some(v@)),
                Ok(None) => Ok(None),
                Err(e) => Err(e),
            }) == self.spec_find(key@),
    {
        match &self.flushing {
            Some(mem_entries) => match mem_entries.get(&key.to_owned()) {
                GetResult::Found(value) => {
                    return Ok(Some(value.clone()));
                },
                GetResult::Deleted => {
                    return Ok(None);
                },
                GetResult::NotFound => {},
            },
            None => {},
        }
        let mut data_gen = self.data_gen;
        while data_gen > 0
            invariant
                self.wf(),
                0 <= data_gen <= self.latest(),
                self.spec_find(key@) == spec_find_on_disk(
                    self.generations(),
                    data_gen as int,
                    key@,
                ),
            decreases data_gen,
        {
            match self.find_in_generation(data_gen, key) {
                Ok(GetResult::Found(value)) => {
                    return Ok(Some(value));
                },
                Ok(GetResult::Deleted) => {
                    return Ok(None);
                },
                Ok(GetResult::NotFound) => {},
                Err(e) => {
                    return Err(e);
                },
            }
            data_gen -= 1;
        }
        Ok(None)
    }

    /// Writes a snapshot as the next generation, tombstones included, and
    /// queues the file operations that publish it.
    ///
    /// Fails with `CapacityExceeded` if the number of the next generation
    /// cannot be held, else with `CorruptData` if the length of a key or
    /// of a value cannot be written in 4 bytes. After a failure the
    /// generations are as before, nothing is queued, and the snapshot
    /// stays with the table, where lookups find it until the next flush.
    /// After a success the snapshot is kept until `confirm`, so that
    /// `flush_failed` can take the generation back.
    pub fn flush(&mut self, memtable_entries: MemtableEntries, journal: &mut Vec<FileOp>) -> (r:
        Result<(), Error>)
        requires
            old(self).wf(),
            memtable_entries.wf(),
        ensures
            final(self).wf(),
            final(self).dir() == old(self).dir(),
            match r {
                Ok(()) => {
                    &&& spec_flush_error(old(self).latest() as int, memtable_entries.records())
                        is None
                    &&& final(self).latest() == old(self).latest() + 1
                    &&& final(self).generations() == old(self).generations().push(
                        flushed_generation(memtable_entries.records()),
                    )
                    &&& final(self).flushing() is None
                    &&& final(self).unconfirmed() == Some(
                        (memtable_entries.live(), memtable_entries.dead()),
                    )
                    &&& ops_view(final(journal)@) == ops_view(old(journal)@) + flush_ops(
                        final(self).latest(),
                        memtable_entries.records(),
                    )
                },
                Err(e) => {
                    &&& spec_flush_error(old(self).latest() as int, memtable_entries.records())
                        == Some(e)
                    &&& final(self).latest() == old(self).latest()
                    &&& final(self).generations() == old(self).generations()
                    &&& final(self).flushing() == Some(
                        (memtable_entries.live(), memtable_entries.dead()),
                    )
                    &&& final(self).unconfirmed() is None
                    &&& *final(journal) == *old(journal)
                },
            },
    {
        if self.data_gen == 0x7fff_ffff {
            self.flushing = Some(memtable_entries);
            self.unconfirmed = None;
            return Err(Error::CapacityExceeded);
        }
        let next_data_gen = self.data_gen + 1;
        let no_files: Vec<RichFile> = Vec::new();
        let mut new_data_file = DataFile::of(&no_files, self.dir_name.as_str(), next_data_gen);
        let ghost before = journal@;
        let ghost records = memtable_entries.records();
        let new_index = match new_data_file.create(&memtable_entries, journal) {
            Ok(index) => index,
            Err(e) => {
                self.flushing = Some(memtable_entries);
                self.unconfirmed = None;
                return Err(e);
            },
        };
        let mut new_index_file = IndexFile::of(&no_files, next_data_gen, self.dir_name.as_str());
        proof {
            lemma_data_index_fits(records);
        }
        match new_index_file.create_index(&new_index, journal) {
            Ok(()) => {},
            Err(e) => {
                self.flushing = Some(memtable_entries);
                self.unconfirmed = None;
                return Err(e);
            },
        }
        let ghost old_generations = self.generations();
        self.generations.push(Generation { data: new_data_file, index: new_index_file });
        self.data_gen = next_data_gen;
        self.flushing = None;
        self.unconfirmed = Some(memtable_entries);
        proof {
            assert(self.generations() =~= old_generations.push(flushed_generation(records)));
            assert(ops_view(journal@) =~= ops_view(before) + flush_ops(next_data_gen, records));
        }
        Ok(())
    }

    /// Takes note that the files of the newest generation are written:
    /// the snapshot that it was flushed from is let go.
    pub fn confirm(&mut self)
        requires
            old(self).wf(),
        ensures
            final(self).wf(),
            final(self).dir() == old(self).dir(),
            final(self).latest() == old(self).latest(),
            final(self).generations() == old(self).generations(),
            final(self).flushing() == old(self).flushing(),
            final(self).unconfirmed() is None,
    {
        self.unconfirmed = None;
    }

    /// Takes note that the files of the newest generation could not be
    /// written: the generation is taken back, so that the number of the
    /// newest generation is what it was before the flush, and the
    /// snapshot that it was flushed from stays with the table, where
    /// lookups find it. Nothing changes if no flush is unconfirmed.
    pub fn flush_failed(&mut self)
        requires
            old(self).wf(),
        ensures
            final(self).wf(),
            final(self).dir() == old(self).dir(),
            final(self).unconfirmed() is None,
            match old(self).unconfirmed() {
                Some(snapshot) => {
                    &&& final(self).latest() == old(self).latest() - 1
                    &&& final(self).generations() == old(self).generations().drop_last()
                    &&& final(self).flushing() == Some(snapshot)
                },
                None => {
                    &&& final(self).latest() == old(self).latest()
                    &&& final(self).generations() == old(self).generations()
                    &&& final(self).flushing() == old(self).flushing()
                },
            },
    {
        let mut snapshot: Option<MemtableEntries> = None;
        std::mem::swap(&mut snapshot, &mut self.unconfirmed);
        match snapshot {
            Some(snapshot) => {
                let ghost before = self.generations();
                self.generations.pop();
                self.data_gen = self.data_gen - 1;
                self.flushing = Some(snapshot);
                assert(self.generations() =~= before.drop_last());
            },
            None => {},
        }
    }

    /// Forgets every generation, and a snapshot that a failed flush left
    /// behind, and queues the removal of the files of the generations.
    pub fn clear(&mut self, journal: &mut Vec<FileOp>) -> (r: Result<(), Error>)
        requires
            old(self).wf(),
        ensures
            r == Ok::<(), Error>(()),
            final(self).wf(),
            final(self).dir() == old(self).dir(),
            final(self).latest() == 0,
            final(self).generations() == Seq::<GenerationView>::empty(),
            final(self).flushing() is None,
            final(self).unconfirmed() is None,
            ops_view(final(journal)@) == ops_view(old(journal)@) + clear_ops(
                old(self).latest() as int,
            ),
    {
        let ghost before = journal@;
        let mut gen: DataGen = 0;
        while gen < self.data_gen
            invariant
                0 <= gen <= self.data_gen,
                ops_view(journal@) == ops_view(before) + clear_ops(gen as int),
            decreases self.data_gen - gen,
        {
            gen += 1;
            let ghost queued = ops_view(journal@);
            DataFile::clear(self.dir_name.as_str(), gen, journal);
            IndexFile::clear(gen, self.dir_name.as_str(), journal);
            proof {
                assert(ops_view(journal@) =~= queued + seq![
                    FileOpView::Remove { name: DataFile::spec_name(gen) },
                    FileOpView::Remove { name: IndexFile::spec_name(gen) },
                    FileOpView::Remove { name: IndexFile::spec_skip_name(gen) },
                ]);
                assert(ops_view(journal@) =~= ops_view(before) + clear_ops(gen as int));
            }
        }
        self.generations = Vec::new();
        self.data_gen = 0;
        self.flushing = None;
        self.unconfirmed = None;
        proof {
            assert(ops_view(before) + clear_ops(0) =~= ops_view(before));
            assert(self.generations() =~= Seq::<GenerationView>::empty());
        }
        Ok(())
    }
}

/// The keys of records that fit can be written into an index.
pub proof fn lemma_data_index_fits(records: Seq<Record>)
    requires
        all_fit(records),
    ensures
        crate::sst::disktable::index_file::keys_fit(data_index(records)),
{
    assert forall|i: int| 0 <= i < data_index(records).len() implies encode_utf8(
        #[trigger] data_index(records)[i].0,
    ).len() <= u32::MAX by {
        assert(crate::sst::disktable::data_file::record_fits(records[i].0, records[i].1));
    }
}

} // verus!
