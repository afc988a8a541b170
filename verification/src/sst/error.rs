//! Error kinds reported by the storage engine.

use vstd::prelude::*;

verus! {

/// Why an operation of the engine failed.
#[derive(Debug, Clone, Copy, PartialEq, Eq, Structural)]
pub enum Error {
    /// A file or directory operation failed. The library itself never
    /// produces this kind; the application that performs the queued file
    /// operations reports its failures with it.
    IoError,
    /// Bytes did not match the documented layout: a bad length, invalid
    /// UTF-8, an unknown log tag or a record cut short.
    CorruptData,
    /// A counter or a length left the range that the formats can hold.
    CapacityExceeded,
    /// Files that belong together contradict each other. No operation of
    /// the library reports this kind: a lookup passes over a generation
    /// whose index and data file disagree.
    InvariantViolation,
}

} // verus!
