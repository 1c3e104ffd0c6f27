//! Record types stored in the metadata chains, and the MVCC visibility
//! rules that govern them.
//!
//! Three kinds of typed records exist: directory entries (one per physical
//! segment component file), segment metadata entries (one per live
//! segment) and delete metadata entries (one per commit that changed a
//! segment's deleted-document count).  Every record carries transaction
//! ids: `xmin` is the transaction that created it and `xmax` tombstones
//! it; an `xmax` equal to [`INVALID_TRANSACTION_ID`] means the record is
//! still live.

use vstd::prelude::*;

verus! {

/// Transaction id that is never assigned to a real transaction; an entry
/// whose `xmax` holds it has not been tombstoned.
pub const INVALID_TRANSACTION_ID: u64 = 0;

/// Block number that no page ever has; it terminates a chain.
pub const INVALID_BLOCK_NUMBER: u32 = 0xFFFF_FFFF;

/// Well-known start block of the directory chain.
pub const DIRECTORY_START: u32 = 0;

/// Well-known start block of the segment metadata chain.
pub const SEGMENT_METAS_START: u32 = 1;

/// Well-known start block of the delete metadata chain.
pub const DELETE_METAS_START: u32 = 2;

/// Well-known start block of the schema byte stream.
pub const SCHEMA_START: u32 = 3;

/// Well-known start block of the index-settings byte stream.
pub const SETTINGS_START: u32 = 4;

/// Number of well-known blocks pre-allocated when a storage object is
/// created, so every chain is openable on a brand-new index.
pub const FIRST_FREE_BLOCK: u32 = 5;

/// A segment's 128-bit identifier, consumed from the search engine as a
/// plain value.
#[derive(Clone, Copy, PartialEq, Eq, Structural, Hash, Debug)]
pub struct SegmentId {
    pub bits: u128,
}

/// Deleted-document count for one segment, as of the commit numbered
/// `opstamp`.
#[derive(Clone, Copy, PartialEq, Eq, Structural, Debug)]
pub struct DeleteMeta {
    pub num_deleted_docs: u32,
    pub opstamp: u64,
}

/// One directory entry: a logical segment-file path mapped to the block
/// chain that stores the file's bytes.
pub struct DirectoryEntry {
    pub path: String,
    /// Start block of the byte-stream chain backing this file.
    pub start: u32,
    /// Transaction that created the entry.
    pub xmin: u64,
    /// Transaction that tombstoned the entry, or `INVALID_TRANSACTION_ID`.
    pub xmax: u64,
}

/// One segment metadata entry, appended when a commit makes the segment
/// live and tombstoned when a later merge supersedes it.
#[derive(Clone, Copy, PartialEq, Eq, Structural, Debug)]
pub struct SegmentMetaEntry {
    pub segment_id: SegmentId,
    pub max_doc: u32,
    pub opstamp: u64,
    pub xmin: u64,
    pub xmax: u64,
}

/// One delete metadata entry; a segment may have several across commits,
/// and the one with the highest opstamp wins.
#[derive(Clone, Copy, PartialEq, Eq, Structural, Debug)]
pub struct DeleteMetaEntry {
    pub segment_id: SegmentId,
    pub num_deleted_docs: u32,
    pub opstamp: u64,
    pub xmax: u64,
}

/// A reader's point-in-time view of the transaction state.
///
/// `txn` is the highest committed transaction id the snapshot can
/// observe.  `oldest_active_txn` is the highest transaction id observable
/// by every snapshot still active anywhere; the garbage collector uses it
/// to decide whether a tombstoned entry might still be needed.
#[derive(Clone, Copy, PartialEq, Eq, Structural, Debug)]
pub struct Snapshot {
    pub txn: u64,
    pub oldest_active_txn: u64,
}

/// A committed transaction id is visible at horizon `at` when it is a
/// real id no later than the horizon.
pub open spec fn spec_xid_visible(xid: u64, at: u64) -> bool {
    xid != INVALID_TRANSACTION_ID && xid <= at
}

/// Runtime check of [`spec_xid_visible`].
pub fn xid_visible(xid: u64, at: u64) -> (r: bool)
    ensures
        r == spec_xid_visible(xid, at),
{
    xid != INVALID_TRANSACTION_ID && xid <= at
}

impl SegmentMetaEntry {
    /// The entry has been tombstoned by some transaction.
    pub open spec fn spec_deleted(self) -> bool {
        self.xmax != INVALID_TRANSACTION_ID
    }

    /// Standard MVCC rule: the creating transaction is visible to the
    /// snapshot and the tombstoning transaction, if any, is not.
    pub open spec fn spec_visible(self, snapshot: Snapshot) -> bool {
        spec_xid_visible(self.xmin, snapshot.txn) && !spec_xid_visible(self.xmax, snapshot.txn)
    }

    /// The entry's tombstone is already visible to every snapshot still
    /// active, so no reader can depend on the pre-tombstone state and the
    /// entry may be physically reclaimed.
    pub open spec fn spec_recyclable(self, snapshot: Snapshot) -> bool {
        spec_xid_visible(self.xmax, snapshot.oldest_active_txn)
    }

    /// Runtime check of [`Self::spec_deleted`].
    pub fn deleted(&self) -> (r: bool)
        ensures
            r == self.spec_deleted(),
    {
        self.xmax != INVALID_TRANSACTION_ID
    }

    /// Runtime check of [`Self::spec_visible`].
    pub fn visible(&self, snapshot: Snapshot) -> (r: bool)
        ensures
            r == self.spec_visible(snapshot),
    {
        xid_visible(self.xmin, snapshot.txn) && !xid_visible(self.xmax, snapshot.txn)
    }

    /// Runtime check of [`Self::spec_recyclable`].
    pub fn recyclable(&self, snapshot: Snapshot) -> (r: bool)
        ensures
            r == self.spec_recyclable(snapshot),
    {
        xid_visible(self.xmax, snapshot.oldest_active_txn)
    }
}

impl DirectoryEntry {
    /// The entry has been tombstoned by some transaction.
    pub open spec fn spec_deleted(self) -> bool {
        self.xmax != INVALID_TRANSACTION_ID
    }

    /// Standard MVCC rule, as for segment metadata entries.
    pub open spec fn spec_visible(self, snapshot: Snapshot) -> bool {
        spec_xid_visible(self.xmin, snapshot.txn) && !spec_xid_visible(self.xmax, snapshot.txn)
    }

    /// Runtime check of [`Self::spec_deleted`].
    pub fn deleted(&self) -> (r: bool)
        ensures
            r == self.spec_deleted(),
    {
        self.xmax != INVALID_TRANSACTION_ID
    }

    /// Runtime check of [`Self::spec_visible`].
    pub fn visible(&self, snapshot: Snapshot) -> (r: bool)
        ensures
            r == self.spec_visible(snapshot),
    {
        xid_visible(self.xmin, snapshot.txn) && !xid_visible(self.xmax, snapshot.txn)
    }

    /// Copy of the entry; directory entries own their path string, so
    /// they are not `Copy`.
    pub fn duplicate(&self) -> (r: DirectoryEntry)
        ensures
            r == *self,
    {
        DirectoryEntry { path: self.path.clone(), start: self.start, xmin: self.xmin, xmax: self.xmax }
    }
}

impl DeleteMetaEntry {
    /// The entry has been tombstoned by some transaction.
    pub open spec fn spec_deleted(self) -> bool {
        self.xmax != INVALID_TRANSACTION_ID
    }

    /// Runtime check of [`Self::spec_deleted`].
    pub fn deleted(&self) -> (r: bool)
        ensures
            r == self.spec_deleted(),
    {
        self.xmax != INVALID_TRANSACTION_ID
    }
}

/// Errors surfaced by the storage layer.  Nothing here is retried:
/// a malformed path is a caller-side bug and a failed schema or settings
/// read means the index cannot be opened.
#[derive(Clone, Copy, PartialEq, Eq, Structural, Debug)]
pub enum StoreError {
    /// A segment-file path without a `.` or with an unparsable prefix.
    InvalidPath,
    /// A directory lookup found no entry for the path.
    NotFound,
    /// The schema or settings byte stream cannot be decoded; with either
    /// stream still empty the index is unreadable.
    Serialization,
}

} // verus!
