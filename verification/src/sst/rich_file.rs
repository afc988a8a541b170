//! Files of the engine directory as plain values, and the operations that
//! the engine queues for the application to carry out on the real files.

use vstd::prelude::*;
use vstd::slice::slice_to_vec;
use crate::sst::key_order::{compare_strs, KeyOrder};

verus! {

/// How a file is opened.
#[derive(Debug, Clone, Copy, PartialEq, Eq, Structural)]
pub enum FileOption {
    /// Read and write; the file is created if missing and cut to length 0.
    New,
    /// Read and append; the file is created if missing and keeps its bytes.
    Append,
    /// Read only; a missing file is first created empty.
    ReadOnly,
}

impl FileOption {
    /// What a file holds right after it was opened in this mode, given
    /// what it held before (`None` for a missing file).
    pub open spec fn spec_opened(self, existing: Option<Seq<u8>>) -> Seq<u8> {
        match (self, existing) {
            (FileOption::New, _) => Seq::empty(),
            (_, Some(bytes)) => bytes,
            (_, None) => Seq::empty(),
        }
    }

    /// The bytes of a file right after it was opened in this mode.
    pub fn opened(self, existing: Option<Vec<u8>>) -> (bytes: Vec<u8>)
        ensures
            bytes@ == self.spec_opened(
                match existing {
                    Some(b) => Some(b@),
                    None => None,
                },
            ),
    {
        match self {
            FileOption::New => Vec::new(),
            _ => match existing {
                Some(bytes) => bytes,
                None => Vec::new(),
            },
        }
    }
}

/// A file of the engine directory: where it lives and what it holds.
#[derive(Debug, Clone, PartialEq, Eq)]
pub struct RichFile {
    /// The bytes of the file.
    pub underlying: Vec<u8>,
    /// The directory that the file lives in.
    pub dir: String,
    /// The name of the file within its directory.
    pub name: String,
}

impl RichFile {
    /// Opens `file_name` under `dir_name` in the mode `option`, given what
    /// the file held before (`None` for a missing file).
    pub fn open_file(dir_name: &str, file_name: &str, option: FileOption, existing: Option<Vec<u8>>) -> (file: RichFile)
        ensures
            file.dir@ == dir_name@,
            file.name@ == file_name@,
            file.underlying@ == option.spec_opened(
                match existing {
                    Some(b) => Some(b@),
                    None => None,
                },
            ),
    {
        RichFile {
            underlying: option.opened(existing),
            dir: dir_name.to_owned(),
            name: file_name.to_owned(),
        }
    }
}

/// The bytes of the first file of `files` that is named `name`; a missing
/// file reads as empty.
pub open spec fn content_of(files: Seq<RichFile>, name: Seq<char>) -> Seq<u8>
    decreases files.len(),
{
    if files.len() == 0 {
        Seq::empty()
    } else if files[0].name@ == name {
        files[0].underlying@
    } else {
        content_of(files.drop_first(), name)
    }
}

/// Reads the file named `name` out of a directory listing.
pub fn read_file(files: &Vec<RichFile>, name: &str) -> (bytes: Vec<u8>)
    ensures
        bytes@ == content_of(files@, name@),
{
    let mut i: usize = 0;
    assert(files@.skip(0) =~= files@);
    while i < files.len()
        invariant
            i <= files.len(),
            content_of(files@, name@) == content_of(files@.skip(i as int), name@),
        decreases files.len() - i,
    {
        let ghost rest = files@.skip(i as int);
        assert(rest[0] == files@[i as int]);
        assert(rest.drop_first() =~= files@.skip(i + 1));
        if compare_strs(files[i].name.as_str(), name) == KeyOrder::Same {
            return slice_to_vec(files[i].underlying.as_slice());
        }
        i += 1;
    }
    Vec::new()
}

/// One operation on the files of the engine directory.
#[derive(Debug, Clone, PartialEq, Eq)]
pub enum FileOp {
    /// Open `name` in the mode `option`, write `bytes` at its end and flush.
    Write { name: String, option: FileOption, bytes: Vec<u8> },
    /// Rename the file `from` to `to`, replacing `to`.
    Rename { from: String, to: String },
    /// Remove the file `name`.
    Remove { name: String },
}

/// A file operation as a mathematical value.
pub enum FileOpView {
    Write { name: Seq<char>, option: FileOption, bytes: Seq<u8> },
    Rename { from: Seq<char>, to: Seq<char> },
    Remove { name: Seq<char> },
}

impl View for FileOp {
    type V = FileOpView;

    open spec fn view(&self) -> FileOpView {
        match *self {
            FileOp::Write { name, option, bytes } => FileOpView::Write {
                name: name@,
                option,
                bytes: bytes@,
            },
            FileOp::Rename { from, to } => FileOpView::Rename { from: from@, to: to@ },
            FileOp::Remove { name } => FileOpView::Remove { name: name@ },
        }
    }
}

/// A queue of file operations as a sequence of mathematical values.
pub open spec fn ops_view(ops: Seq<FileOp>) -> Seq<FileOpView> {
    ops.map_values(|op: FileOp| op@)
}

} // verus!
