//! An MVCC-aware block storage directory layer.
//!
//! A segmented full-text index keeps its files inside a page-oriented
//! storage object instead of a filesystem.  Byte streams and typed record
//! chains are persisted as linked sequences of fixed-size pages; a
//! directory maps logical segment-file paths to the block chains that back
//! them; segment and deletion metadata are kept as append-only records
//! versioned by transaction id and commit counter; and a snapshot
//! assembler merges everything into one consistent view for a reader's
//! MVCC snapshot.  Records are never rewritten except for the one
//! permitted in-place mutation: setting `xmax` to tombstone an entry,
//! which never changes the record's encoded size.

pub mod block;
pub mod bytes;
pub mod chain;
pub mod directory;
pub mod laws;
pub mod list;
pub mod metas;
pub mod path;
pub mod store;
pub mod tombstone;
