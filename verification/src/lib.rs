//! An embedded, single-writer key-value store over sorted string tables.
//!
//! Every mutation is buffered in a bounded in-memory table and recorded in a
//! write-ahead log; a full table is promoted to an immutable on-disk
//! generation made of a data file, an index file and a sparse skip index.
//! The library works on the bytes of those files and queues the file
//! operations that make its state durable; the embedding application carries
//! them out.

pub mod sst;
