//! The paged block store: fixed-size slotted pages inside one storage
//! object, linked into chains by next-block pointers.
//!
//! Every cross-page "pointer" is an integer block number into the store's
//! page arena; no other component touches page internals.  A chain starts
//! at a head block and follows next pointers until
//! [`INVALID_BLOCK_NUMBER`].  The store's well-formedness keeps next
//! pointers strictly increasing, never aimed at a chain head and never
//! shared, which makes chains from distinct heads disjoint: mutating one
//! chain can be shown to leave every other chain untouched.

use vstd::prelude::*;

use vstd::string::StrSliceExecFns;
use crate::block::DeleteMetaEntry;
use crate::block::DirectoryEntry;
use crate::block::SegmentMetaEntry;
use crate::block::DELETE_METAS_START;
use crate::block::DIRECTORY_START;
use crate::block::FIRST_FREE_BLOCK;
use crate::block::INVALID_BLOCK_NUMBER;
use crate::block::SCHEMA_START;
use crate::block::SEGMENT_METAS_START;
use crate::block::SETTINGS_START;

verus! {

/// Bytes of record payload a single page can hold.
pub const PAGE_CAPACITY: u64 = 8168;

/// One slotted record.  The typed entries have a fixed encoded width, so
/// an in-place `xmax` update never changes a record's size; a byte-stream
/// chunk's width is its length.
pub enum Record {
    Dir(DirectoryEntry),
    SegMeta(SegmentMetaEntry),
    DelMeta(DeleteMetaEntry),
    Bytes(Vec<u8>),
}

/// The kind of a record, used to state that a chain is uniformly typed.
#[derive(PartialEq, Eq, Structural)]
pub enum RecordKind {
    Dir,
    SegMeta,
    DelMeta,
    Bytes,
}

/// Encoded width of a record: a constant per typed entry, plus one unit
/// per path character for a directory entry — an `xmax` update never
/// touches the path, so tombstoning never changes a record's width.
pub open spec fn spec_record_size(r: Record) -> nat {
    match r {
        Record::Dir(e) => 22 + e.path@.len(),
        Record::SegMeta(_) => 44,
        Record::DelMeta(_) => 36,
        Record::Bytes(b) => b@.len(),
    }
}

/// The kind of a record.
pub open spec fn spec_record_kind(r: Record) -> RecordKind {
    match r {
        Record::Dir(_) => RecordKind::Dir,
        Record::SegMeta(_) => RecordKind::SegMeta,
        Record::DelMeta(_) => RecordKind::DelMeta,
        Record::Bytes(_) => RecordKind::Bytes,
    }
}

/// Total encoded width of a sequence of records.
pub open spec fn spec_records_size(items: Seq<Record>) -> nat
    decreases items.len(),
{
    if items.len() == 0 {
        0
    } else {
        spec_records_size(items.drop_last()) + spec_record_size(items.last())
    }
}

/// One fixed-size page: a header holding the next block number of its
/// chain, whether the block heads a chain, whether it has been marked for
/// reclamation, and a slotted area of records.
pub struct Page {
    /// Next block of the chain, or `INVALID_BLOCK_NUMBER` at the tail.
    pub next: u32,
    /// Whether some chain starts at this block.
    pub head: bool,
    /// Whether the block awaits physical reclamation.
    pub deleted: bool,
    pub items: Vec<Record>,
}

/// The storage object: an arena of pages addressed by block number.
/// Blocks `0` to `4` are pre-allocated heads of the five well-known
/// chains, so each is openable even on a brand-new index.
pub struct BlockStore {
    pub pages: Vec<Page>,
    /// Whether mutations of this object are logged for crash recovery and
    /// replication; chosen once by the owner of the storage object.
    pub need_wal: bool,
}

/// Block numbers of the chain starting at block `b`: `b` itself followed
/// by the blocks of the chain starting at `b`'s next pointer.
pub open spec fn spec_chain_blocks(pages: Seq<Page>, b: int) -> Seq<int>
    decreases pages.len() - b,
{
    if 0 <= b < pages.len() {
        let nxt = pages[b].next as int;
        if pages[b].next != INVALID_BLOCK_NUMBER && b < nxt < pages.len() {
            seq![b] + spec_chain_blocks(pages, nxt)
        } else {
            seq![b]
        }
    } else {
        Seq::empty()
    }
}

/// Records of the chain starting at block `b`, page by page in chain
/// order.
pub open spec fn spec_chain_items(pages: Seq<Page>, b: int) -> Seq<Record>
    decreases pages.len() - b,
{
    if 0 <= b < pages.len() {
        let nxt = pages[b].next as int;
        if pages[b].next != INVALID_BLOCK_NUMBER && b < nxt < pages.len() {
            pages[b].items@ + spec_chain_items(pages, nxt)
        } else {
            pages[b].items@
        }
    } else {
        Seq::empty()
    }
}

/// Records of the chain starting at block `b`, stopping just before block
/// `stop` (meaningful when `stop` lies on the chain).
pub open spec fn spec_chain_items_upto(pages: Seq<Page>, b: int, stop: int) -> Seq<Record>
    decreases pages.len() - b,
{
    if b == stop {
        Seq::empty()
    } else if 0 <= b < pages.len() {
        let nxt = pages[b].next as int;
        if pages[b].next != INVALID_BLOCK_NUMBER && b < nxt < pages.len() {
            pages[b].items@ + spec_chain_items_upto(pages, nxt, stop)
        } else {
            pages[b].items@
        }
    } else {
        Seq::empty()
    }
}

/// Every record of the chain starting at `b` has kind `k`.
pub open spec fn spec_chain_kinded(pages: Seq<Page>, b: int, k: RecordKind) -> bool {
    forall|i: int|
        0 <= i < spec_chain_items(pages, b).len() ==> spec_record_kind(
            #[trigger] spec_chain_items(pages, b)[i],
        ) == k
}

impl BlockStore {
    /// The page header of block `b` is sound: its records fit the page
    /// and its next pointer, if any, aims strictly forward at an existing
    /// block that heads no chain.
    pub open spec fn block_wf(self, b: int) -> bool {
        &&& spec_records_size(self.pages[b].items@) <= PAGE_CAPACITY
        &&& self.pages[b].next != INVALID_BLOCK_NUMBER ==> {
            &&& b < self.pages[b].next < self.pages@.len()
            &&& !self.pages[self.pages[b].next as int].head
        }
    }

    /// No two blocks share a next pointer, so no two chains merge.
    pub open spec fn links_injective(self) -> bool {
        forall|b1: int, b2: int|
            0 <= b1 < self.pages@.len() && 0 <= b2 < self.pages@.len() && self.pages@[b1].next
                != INVALID_BLOCK_NUMBER && #[trigger] self.pages@[b1].next == #[trigger] self.pages@[b2].next
                ==> b1 == b2
    }

    /// A directory entry is sound for this store: its start block heads a
    /// byte-stream chain beyond the well-known blocks.
    pub open spec fn dir_entry_wf(self, e: DirectoryEntry) -> bool {
        &&& FIRST_FREE_BLOCK <= e.start
        &&& (e.start as int) < self.pages@.len()
        &&& self.pages@[e.start as int].head
        &&& spec_chain_kinded(self.pages@, e.start as int, RecordKind::Bytes)
    }

    /// Records of the directory chain.
    pub open spec fn dir_items(self) -> Seq<Record> {
        spec_chain_items(self.pages@, DIRECTORY_START as int)
    }

    /// Directory entries, in chain order.
    pub open spec fn dir_entries(self) -> Seq<DirectoryEntry> {
        self.dir_items().map_values(|r: Record| spec_dir_record(r))
    }

    /// Segment metadata entries, in chain order.
    pub open spec fn segment_meta_entries(self) -> Seq<SegmentMetaEntry> {
        spec_chain_items(self.pages@, SEGMENT_METAS_START as int).map_values(
            |r: Record| spec_seg_record(r),
        )
    }

    /// Delete metadata entries, in chain order.
    pub open spec fn delete_meta_entries(self) -> Seq<DeleteMetaEntry> {
        spec_chain_items(self.pages@, DELETE_METAS_START as int).map_values(
            |r: Record| spec_del_record(r),
        )
    }

    /// Bytes of the byte-stream chain starting at block `start`.
    pub open spec fn chain_bytes(self, start: int) -> Seq<u8> {
        spec_chain_items(self.pages@, start).map_values(|r: Record| spec_bytes_record(r)).flatten()
    }

    /// Structural soundness of the page arena alone: every page header is
    /// sound and no two chains merge.
    pub open spec fn links_wf(self) -> bool {
        &&& FIRST_FREE_BLOCK <= self.pages@.len() <= INVALID_BLOCK_NUMBER
        &&& forall|b: int| 0 <= b < self.pages@.len() ==> self.block_wf(b)
        &&& self.links_injective()
    }

    /// Well-formedness of the whole storage object.
    pub open spec fn wf(self) -> bool {
        &&& self.links_wf()
        &&& self.pages@[DIRECTORY_START as int].head
        &&& self.pages@[SEGMENT_METAS_START as int].head
        &&& self.pages@[DELETE_METAS_START as int].head
        &&& self.pages@[SCHEMA_START as int].head
        &&& self.pages@[SETTINGS_START as int].head
        &&& spec_chain_kinded(self.pages@, DIRECTORY_START as int, RecordKind::Dir)
        &&& spec_chain_kinded(self.pages@, SEGMENT_METAS_START as int, RecordKind::SegMeta)
        &&& spec_chain_kinded(self.pages@, DELETE_METAS_START as int, RecordKind::DelMeta)
        &&& spec_chain_kinded(self.pages@, SCHEMA_START as int, RecordKind::Bytes)
        &&& spec_chain_kinded(self.pages@, SETTINGS_START as int, RecordKind::Bytes)
        &&& forall|i: int|
            0 <= i < self.dir_items().len() ==> self.dir_entry_wf(
                spec_dir_record(#[trigger] self.dir_items()[i]),
            )
    }

    /// A brand-new storage object: the five well-known chain heads, each
    /// a single empty page.
    pub fn new(need_wal: bool) -> (r: BlockStore)
        ensures
            r.wf(),
            r.need_wal == need_wal,
            r.pages@.len() == FIRST_FREE_BLOCK,
            r.dir_items() =~= Seq::<Record>::empty(),
            spec_chain_items(r.pages@, SEGMENT_METAS_START as int) =~= Seq::<Record>::empty(),
            spec_chain_items(r.pages@, DELETE_METAS_START as int) =~= Seq::<Record>::empty(),
            spec_chain_items(r.pages@, SCHEMA_START as int) =~= Seq::<Record>::empty(),
            spec_chain_items(r.pages@, SETTINGS_START as int) =~= Seq::<Record>::empty(),
    {
        let mut pages: Vec<Page> = Vec::new();
        let mut b: u32 = 0;
        while b < FIRST_FREE_BLOCK
            invariant
                b <= FIRST_FREE_BLOCK,
                pages@.len() == b,
                forall|i: int|
                    0 <= i < b ==> (#[trigger] pages@[i]) == (Page {
                        next: INVALID_BLOCK_NUMBER,
                        head: true,
                        deleted: false,
                        items: pages@[i].items,
                    }) && pages@[i].items@.len() == 0,
            decreases FIRST_FREE_BLOCK - b,
        {
            pages.push(Page { next: INVALID_BLOCK_NUMBER, head: true, deleted: false, items: Vec::new() });
            b = b + 1;
        }
        let r = BlockStore { pages, need_wal };
        proof {
            assert forall|bb: int| 0 <= bb < r.pages@.len() implies r.block_wf(bb) by {
                assert(r.pages@[bb].items@.len() == 0);
                assert(spec_records_size(r.pages@[bb].items@) == 0);
            }
            assert forall|bb: int| 0 <= bb < r.pages@.len() implies spec_chain_items(r.pages@, bb)
                =~= Seq::<Record>::empty() by {
                assert(r.pages@[bb].next == INVALID_BLOCK_NUMBER);
                assert(spec_chain_items(r.pages@, bb) == r.pages@[bb].items@);
            }
        }
        r
    }
}

/// The directory entry inside a record (meaningful for `Record::Dir`).
pub open spec fn spec_dir_record(r: Record) -> DirectoryEntry {
    match r {
        Record::Dir(e) => e,
        _ => vstd::pervasive::arbitrary(),
    }
}

/// The segment metadata entry inside a record.
pub open spec fn spec_seg_record(r: Record) -> SegmentMetaEntry {
    match r {
        Record::SegMeta(e) => e,
        _ => vstd::pervasive::arbitrary(),
    }
}

/// The delete metadata entry inside a record.
pub open spec fn spec_del_record(r: Record) -> DeleteMetaEntry {
    match r {
        Record::DelMeta(e) => e,
        _ => vstd::pervasive::arbitrary(),
    }
}

/// The byte chunk inside a record.
pub open spec fn spec_bytes_record(r: Record) -> Seq<u8> {
    match r {
        Record::Bytes(b) => b@,
        _ => vstd::pervasive::arbitrary(),
    }
}

/// Block `start` is the backing chain of some directory entry.
pub open spec fn spec_is_component_start(st: BlockStore, start: int) -> bool {
    exists|i: int|
        0 <= i < st.dir_items().len() && spec_dir_record(#[trigger] st.dir_items()[i]).start as int
            == start
}

/// Appending record `r` to the chain at `start` keeps the store well
/// formed: each typed chain only ever receives records of its own kind,
/// and a directory entry must already point at a sound byte-stream chain.
pub open spec fn spec_record_allowed(st: BlockStore, start: int, r: Record) -> bool {
    &&& start == DIRECTORY_START as int ==> (r is Dir) && st.dir_entry_wf(spec_dir_record(r))
    &&& start == SEGMENT_METAS_START as int ==> r is SegMeta
    &&& start == DELETE_METAS_START as int ==> r is DelMeta
    &&& (start == SCHEMA_START as int || start == SETTINGS_START as int) ==> r is Bytes
    &&& spec_is_component_start(st, start) ==> r is Bytes
}

/// The chain headed at block `h` is bit-for-bit the same in both stores.
pub open spec fn spec_chain_preserved(pre: BlockStore, post: BlockStore, h: int) -> bool {
    &&& spec_chain_blocks(post.pages@, h) == spec_chain_blocks(pre.pages@, h)
    &&& spec_chain_items(post.pages@, h) == spec_chain_items(pre.pages@, h)
}

/// Every chain headed anywhere but `start` is untouched.
pub open spec fn spec_preserves_other_chains(pre: BlockStore, post: BlockStore, start: int) -> bool {
    forall|h: int|
        0 <= h < pre.pages@.len() && pre.pages@[h].head && h != start
            ==> #[trigger] spec_chain_preserved(pre, post, h)
}

/// Head flags survive the operation: old blocks keep theirs, new blocks
/// head nothing, and a page once marked for reclamation stays marked.
pub open spec fn spec_preserves_headers(pre: BlockStore, post: BlockStore) -> bool {
    &&& pre.pages@.len() <= post.pages@.len()
    &&& forall|b: int|
        0 <= b < pre.pages@.len() ==> #[trigger] post.pages@[b].head == pre.pages@[b].head
    &&& forall|b: int|
        0 <= b < pre.pages@.len() && pre.pages@[b].deleted ==> #[trigger] post.pages@[b].deleted
    &&& forall|b: int|
        pre.pages@.len() <= b < post.pages@.len() ==> !(#[trigger] post.pages@[b].head)
}

/// Two records that read the same: equal entries, or byte chunks with
/// the same contents.  A duplicated store is record-for-record equivalent
/// to its original even though duplicated byte vectors are fresh values.
pub open spec fn spec_record_equiv(r1: Record, r2: Record) -> bool {
    match (r1, r2) {
        (Record::Dir(e1), Record::Dir(e2)) => e1 == e2,
        (Record::SegMeta(e1), Record::SegMeta(e2)) => e1 == e2,
        (Record::DelMeta(e1), Record::DelMeta(e2)) => e1 == e2,
        (Record::Bytes(b1), Record::Bytes(b2)) => b1@ == b2@,
        _ => false,
    }
}

/// Two stores that read the same, page for page and record for record.
pub open spec fn spec_store_equiv(s1: BlockStore, s2: BlockStore) -> bool {
    &&& s2.need_wal == s1.need_wal
    &&& s2.pages@.len() == s1.pages@.len()
    &&& forall|b: int|
        0 <= b < s1.pages@.len() ==> (#[trigger] s2.pages@[b].next) == s1.pages@[b].next
            && s2.pages@[b].head == s1.pages@[b].head && s2.pages@[b].deleted
            == s1.pages@[b].deleted && s2.pages@[b].items@.len() == s1.pages@[b].items@.len()
            && (forall|j: int|
            0 <= j < s1.pages@[b].items@.len() ==> spec_record_equiv(
                s1.pages@[b].items@[j],
                #[trigger] s2.pages@[b].items@[j],
            ))
}

/// Encoded width of a record, computed at runtime; matches
/// [`spec_record_size`] and caps a directory path at the page capacity.
pub fn record_size(r: &Record) -> (s: u64)
    requires
        spec_record_size(*r) <= u64::MAX,
    ensures
        s == spec_record_size(*r),
{
    match r {
        Record::Dir(e) => 22 + e.path.as_str().unicode_len() as u64,
        Record::SegMeta(_) => 44,
        Record::DelMeta(_) => 36,
        Record::Bytes(b) => b.len() as u64,
    }
}

} // verus!
