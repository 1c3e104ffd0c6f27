//! Tombstoning: the one permitted in-place mutation.
//!
//! A scan walks a metadata chain page by page; every entry whose segment
//! id lies in the obsolete set and that is not already tombstoned is
//! replaced in place by an identical record carrying the supplied `xmax`.
//! The replacement never changes a record's encoded width, so no slot
//! moves and concurrent shared-lock readers never see a torn record.
//! Tombstoning a directory entry also flags the entry's backing
//! byte-stream chain for the deferred reclamation pass.

use vstd::prelude::*;

use crate::block::DeleteMetaEntry;
use crate::block::DirectoryEntry;
use crate::block::DELETE_METAS_START;
use crate::block::SegmentId;
use crate::block::SegmentMetaEntry;
use crate::block::INVALID_BLOCK_NUMBER;
use crate::block::INVALID_TRANSACTION_ID;
use crate::block::SEGMENT_METAS_START;
use crate::chain::lemma_chain_blocks_bounds;
use crate::chain::lemma_chain_decompose;
use crate::chain::lemma_chain_frame;
use crate::chain::lemma_chain_frame_fields;
use crate::chain::lemma_chain_items_mapped;
use crate::chain::lemma_chain_member_next;
use crate::chain::lemma_chains_disjoint;
use crate::chain::lemma_records_size_compatible;
use crate::chain::lemma_wf_items_replaced;
use crate::chain::spec_items_compatible;
use crate::metas::contains_id;
use crate::metas::spec_contains_id;
use crate::path::spec_path_parses;
use crate::path::spec_path_segment_id;
use crate::path::SegmentComponentId;
use crate::path::SegmentComponentPath;
use crate::store::spec_dir_record;
use crate::store::spec_chain_blocks;
use crate::store::spec_chain_items;
use crate::store::spec_chain_preserved;
use crate::store::spec_preserves_headers;
use crate::store::spec_preserves_other_chains;
use crate::store::spec_record_kind;
use crate::store::spec_record_size;
use crate::store::spec_del_record;
use crate::store::spec_seg_record;
use crate::store::BlockStore;
use crate::store::Record;
use crate::store::RecordKind;

verus! {

/// A segment metadata entry after a tombstone pass for `ids` at `xmax`:
/// tombstoned exactly when its segment is obsolete and it was still live.
pub open spec fn spec_tombstone_seg_entry(
    e: SegmentMetaEntry,
    ids: Seq<SegmentId>,
    xmax: u64,
) -> SegmentMetaEntry {
    if spec_contains_id(ids, e.segment_id) && e.xmax == INVALID_TRANSACTION_ID {
        SegmentMetaEntry { xmax, ..e }
    } else {
        e
    }
}

/// The whole segment metadata view after a tombstone pass.
pub open spec fn spec_tombstone_seg(
    entries: Seq<SegmentMetaEntry>,
    ids: Seq<SegmentId>,
    xmax: u64,
) -> Seq<SegmentMetaEntry> {
    entries.map_values(|e: SegmentMetaEntry| spec_tombstone_seg_entry(e, ids, xmax))
}

/// The tombstone pass on one slotted record; records of other chains are
/// untouched.
pub open spec fn spec_tombstone_seg_record(r: Record, ids: Seq<SegmentId>, xmax: u64) -> Record {
    match r {
        Record::SegMeta(e) => Record::SegMeta(spec_tombstone_seg_entry(e, ids, xmax)),
        _ => r,
    }
}

/// The tombstone rewrite keeps every record's shape.
proof fn lemma_tombstone_seg_compatible(items: Seq<Record>, ids: Seq<SegmentId>, xmax: u64)
    ensures
        spec_items_compatible(
            items,
            items.map_values(|r: Record| spec_tombstone_seg_record(r, ids, xmax)),
        ),
{
    let mapped = items.map_values(|r: Record| spec_tombstone_seg_record(r, ids, xmax));
    assert forall|j: int|
        0 <= j < items.len() implies spec_record_size(#[trigger] mapped[j]) == spec_record_size(
        items[j],
    ) && spec_record_kind(mapped[j]) == spec_record_kind(items[j]) && (spec_record_kind(items[j])
        == RecordKind::Dir ==> crate::store::spec_dir_record(mapped[j]).start
        == crate::store::spec_dir_record(items[j]).start && crate::store::spec_dir_record(
        mapped[j],
    ).path == crate::store::spec_dir_record(items[j]).path) by {
        assert(mapped[j] == spec_tombstone_seg_record(items[j], ids, xmax));
    }
}

impl BlockStore {
    /// Tombstone every matching live segment entry slotted in block `b`,
    /// in place; nothing else in the store moves.
    fn tombstone_seg_block(&mut self, b: u32, deleted_ids: &Vec<SegmentId>, xmax: u64)
        requires
            (b as int) < old(self).pages@.len(),
        ensures
            final(self).pages@.len() == old(self).pages@.len(),
            final(self).need_wal == old(self).need_wal,
            forall|x: int|
                0 <= x < old(self).pages@.len() && x != b as int ==> final(self).pages@[x] == old(self).pages@[x],
            final(self).pages@[b as int].next == old(self).pages@[b as int].next,
            final(self).pages@[b as int].head == old(self).pages@[b as int].head,
            final(self).pages@[b as int].deleted == old(self).pages@[b as int].deleted,
            final(self).pages@[b as int].items@ == old(self).pages@[b as int].items@.map_values(
                |r: Record| spec_tombstone_seg_record(r, deleted_ids@, xmax),
            ),
    {
        let ghost orig = *self;
        let ghost t = |r: Record| spec_tombstone_seg_record(r, deleted_ids@, xmax);
        let n_items = self.pages[b as usize].items.len();
        let mut j: usize = 0;
        proof {
            assert(self.pages@[b as int].items@.map_values(t).take(0) =~= Seq::<Record>::empty());
        }
        while j < n_items
            invariant
                (b as int) < orig.pages@.len(),
                self.pages@.len() == orig.pages@.len(),
                self.need_wal == orig.need_wal,
                t == (|r: Record| spec_tombstone_seg_record(r, deleted_ids@, xmax)),
                forall|x: int|
                    0 <= x < orig.pages@.len() && x != b as int ==> (#[trigger] self.pages@[x])
                        == orig.pages@[x],
                self.pages@[b as int].next == orig.pages@[b as int].next,
                self.pages@[b as int].head == orig.pages@[b as int].head,
                self.pages@[b as int].deleted == orig.pages@[b as int].deleted,
                n_items == orig.pages@[b as int].items@.len(),
                self.pages@[b as int].items@.len() == n_items,
                j <= n_items,
                forall|jj: int|
                    0 <= jj < j ==> (#[trigger] self.pages@[b as int].items@[jj]) == t(
                        orig.pages@[b as int].items@[jj],
                    ),
                forall|jj: int|
                    j <= jj < n_items ==> (#[trigger] self.pages@[b as int].items@[jj])
                        == orig.pages@[b as int].items@[jj],
            decreases n_items - j,
        {
            let ghost iter0 = *self;
            let mut replacement: Option<Record> = None;
            match &self.pages[b as usize].items[j] {
                Record::SegMeta(e) => {
                    let ent = *e;
                    if contains_id(deleted_ids, ent.segment_id) && !ent.deleted() {
                        replacement = Some(Record::SegMeta(SegmentMetaEntry { xmax, ..ent }));
                    }
                },
                _ => {},
            }
            match replacement {
                Some(rec) => {
                    proof {
                        assert(rec == t(orig.pages@[b as int].items@[j as int]));
                    }
                    self.pages[b as usize].items[j] = rec;
                    proof {
                        assert(self.pages@ =~= iter0.pages@.update(b as int, self.pages@[b as int]));
                        assert(self.pages@[b as int].items@ =~= iter0.pages@[b as int].items@.update(
                            j as int,
                            t(orig.pages@[b as int].items@[j as int]),
                        ));
                    }
                },
                None => {
                    proof {
                        assert(self.pages@[b as int].items@[j as int] == t(
                            orig.pages@[b as int].items@[j as int],
                        ));
                    }
                },
            }
            j = j + 1;
        }
        proof {
            assert(self.pages@[b as int].items@ =~= orig.pages@[b as int].items@.map_values(t));
        }
    }

    /// Tombstone the segment metadata of every obsolete segment: scan the
    /// segment chain and stamp `xmax` onto each matching entry not yet
    /// tombstoned, in place.  No other chain, flag or link moves.
    pub fn delete_unused_metas(&mut self, deleted_ids: &Vec<SegmentId>, xmax: u64)
        requires
            old(self).wf(),
        ensures
            final(self).wf(),
            final(self).need_wal == old(self).need_wal,
            final(self).pages@.len() == old(self).pages@.len(),
            final(self).segment_meta_entries() == spec_tombstone_seg(
                old(self).segment_meta_entries(),
                deleted_ids@,
                xmax,
            ),
            spec_preserves_other_chains(*old(self), *final(self), SEGMENT_METAS_START as int),
            spec_preserves_headers(*old(self), *final(self)),
            forall|x: int|
                0 <= x < old(self).pages@.len() ==> (#[trigger] final(self).pages@[x].deleted)
                    == old(self).pages@[x].deleted,
    {
        let ghost orig = *self;
        let ghost s = SEGMENT_METAS_START as int;
        let ghost t = |r: Record| spec_tombstone_seg_record(r, deleted_ids@, xmax);
        let mut b: u32 = SEGMENT_METAS_START;
        proof {
            lemma_chain_blocks_bounds(orig.pages@, s);
            assert(spec_chain_blocks(orig.pages@, s)[0] == s);
            assert(spec_chain_blocks(orig.pages@, s).contains(s));
        }
        while self.pages[b as usize].next != INVALID_BLOCK_NUMBER
            invariant
                orig.wf(),
                self.need_wal == orig.need_wal,
                self.pages@.len() == orig.pages@.len(),
                s == SEGMENT_METAS_START as int,
                t == (|r: Record| spec_tombstone_seg_record(r, deleted_ids@, xmax)),
                (b as int) < orig.pages@.len(),
                spec_chain_blocks(orig.pages@, s).contains(b as int),
                forall|x: int|
                    0 <= x < orig.pages@.len() ==> (#[trigger] self.pages@[x].next)
                        == orig.pages@[x].next && self.pages@[x].head == orig.pages@[x].head
                        && self.pages@[x].deleted == orig.pages@[x].deleted,
                forall|x: int|
                    0 <= x < orig.pages@.len() && !spec_chain_blocks(orig.pages@, s).contains(x)
                        ==> (#[trigger] self.pages@[x]) == orig.pages@[x],
                forall|x: int|
                    #[trigger] spec_chain_blocks(orig.pages@, s).contains(x)
                        && spec_chain_blocks(orig.pages@, b as int).contains(x)
                        ==> self.pages@[x].items == orig.pages@[x].items,
                forall|x: int|
                    #[trigger] spec_chain_blocks(orig.pages@, s).contains(x)
                        && !spec_chain_blocks(orig.pages@, b as int).contains(x)
                        ==> self.pages@[x].items@ == orig.pages@[x].items@.map_values(t),
            decreases orig.pages@.len() - b,
        {
            let ghost iter0 = *self;
            self.tombstone_seg_block(b, deleted_ids, xmax);
            let nxt = self.pages[b as usize].next;
            proof {
                assert(orig.block_wf(b as int));
                lemma_chain_blocks_bounds(orig.pages@, s);
                let cb = spec_chain_blocks(orig.pages@, b as int);
                assert(cb[0] == b as int);
                assert(cb.contains(b as int));
                assert(nxt == orig.pages@[b as int].next);
                assert(nxt != INVALID_BLOCK_NUMBER);
                let ct = spec_chain_blocks(orig.pages@, nxt as int);
                assert(cb == seq![b as int] + ct);
                lemma_chain_blocks_bounds(orig.pages@, nxt as int);
                assert(iter0.pages@[b as int].items == orig.pages@[b as int].items);
                assert(self.pages@[b as int].items@ == orig.pages@[b as int].items@.map_values(t));
                assert forall|x: int| #[trigger]
                    spec_chain_blocks(orig.pages@, s).contains(x) && ct.contains(x) implies
                    self.pages@[x].items == orig.pages@[x].items by {
                    let i = choose|i: int| 0 <= i < ct.len() && ct[i] == x;
                    assert(x >= nxt);
                    assert(x != b as int);
                    assert(cb[i + 1] == x);
                    assert(cb.contains(x));
                    assert(self.pages@[x] == iter0.pages@[x]);
                }
                assert forall|x: int| #[trigger]
                    spec_chain_blocks(orig.pages@, s).contains(x) && !ct.contains(x) implies
                    self.pages@[x].items@ == orig.pages@[x].items@.map_values(t) by {
                    if x == b as int {
                    } else {
                        assert(!cb.contains(x)) by {
                            if cb.contains(x) {
                                let i = choose|i: int| 0 <= i < cb.len() && cb[i] == x;
                                assert(i != 0);
                                assert(ct[i - 1] == x);
                            }
                        }
                        assert(iter0.pages@[x].items@ == orig.pages@[x].items@.map_values(t));
                        assert(self.pages@[x] == iter0.pages@[x]);
                    }
                }
                lemma_chain_member_next(orig.pages@, s, b as int);
            }
            b = nxt;
        }
        let ghost last0 = *self;
        self.tombstone_seg_block(b, deleted_ids, xmax);
        proof {
            assert(last0.pages@[b as int].next == orig.pages@[b as int].next);
            let cb = spec_chain_blocks(orig.pages@, b as int);
            assert(cb == seq![b as int]);
            assert(cb[0] == b as int);
            assert(cb.contains(b as int));
            assert(spec_chain_blocks(orig.pages@, s).contains(b as int));
            assert(last0.pages@[b as int].items == orig.pages@[b as int].items);
            assert(self.pages@[b as int].items@ == orig.pages@[b as int].items@.map_values(t));
            // every block of the chain is rewritten now, everything else
            // stands still
            assert forall|x: int|
                0 <= x < orig.pages@.len() implies (#[trigger] self.pages@[x].next)
                == orig.pages@[x].next && self.pages@[x].head == orig.pages@[x].head
                && self.pages@[x].deleted == orig.pages@[x].deleted by {
                if x != b as int {
                    assert(self.pages@[x] == last0.pages@[x]);
                }
            }
            assert forall|x: int| #[trigger]
                spec_chain_blocks(orig.pages@, s).contains(x) implies self.pages@[x].items@
                == orig.pages@[x].items@.map_values(t) by {
                if x != b as int {
                    assert(!cb.contains(x));
                    assert(last0.pages@[x].items@ == orig.pages@[x].items@.map_values(t));
                    assert(self.pages@[x] == last0.pages@[x]);
                }
            }
            assert forall|x: int|
                0 <= x < orig.pages@.len() && !spec_chain_blocks(orig.pages@, s).contains(x) implies
                (#[trigger] self.pages@[x]) == orig.pages@[x] by {
                assert(x != b as int);
                assert(self.pages@[x] == last0.pages@[x]);
            }
            // well-formedness and framing
            assert forall|x: int| 0 <= x < orig.pages@.len() implies spec_items_compatible(
                orig.pages@[x].items@,
                (#[trigger] self.pages@[x]).items@,
            ) by {
                if spec_chain_blocks(orig.pages@, s).contains(x) {
                    lemma_tombstone_seg_compatible(orig.pages@[x].items@, deleted_ids@, xmax);
                } else {
                    assert(self.pages@[x] == orig.pages@[x]);
                }
            }
            lemma_wf_items_replaced(orig, *self);
            assert forall|x: int| #[trigger]
                spec_chain_blocks(orig.pages@, s).contains(x) implies (orig.pages@[x].next
                != INVALID_BLOCK_NUMBER ==> x < orig.pages@[x].next < orig.pages@.len())
                && self.pages@[x].next == orig.pages@[x].next && self.pages@[x].items@
                == orig.pages@[x].items@.map_values(t) by {
                lemma_chain_blocks_bounds(orig.pages@, s);
                assert(orig.block_wf(x));
            }
            lemma_chain_items_mapped(orig.pages@, self.pages@, s, t);
            // the typed view is the entry-level rewrite
            assert(self.segment_meta_entries() =~= spec_tombstone_seg(
                orig.segment_meta_entries(),
                deleted_ids@,
                xmax,
            )) by {
                let pre_items = spec_chain_items(orig.pages@, s);
                assert forall|j: int|
                    0 <= j < pre_items.len() implies spec_seg_record(
                    #[trigger] pre_items.map_values(t)[j],
                ) == spec_tombstone_seg_entry(
                    spec_seg_record(pre_items[j]),
                    deleted_ids@,
                    xmax,
                ) by {
                    assert(spec_record_kind(pre_items[j]) == RecordKind::SegMeta);
                }
            }
            // chains other than the segment chain are untouched
            assert forall|h: int|
                0 <= h < orig.pages@.len() && orig.pages@[h].head && h != s implies #[trigger] spec_chain_preserved(
                orig,
                *self,
                h,
            ) by {
                lemma_chains_disjoint(orig, h, s);
                lemma_chain_blocks_bounds(orig.pages@, h);
                assert forall|x: int| #[trigger]
                    spec_chain_blocks(orig.pages@, h).contains(x) implies (orig.pages@[x].next
                    != INVALID_BLOCK_NUMBER ==> x < orig.pages@[x].next < orig.pages@.len())
                    && self.pages@[x] == orig.pages@[x] by {
                    assert(orig.block_wf(x));
                    assert(!spec_chain_blocks(orig.pages@, s).contains(x));
                }
                lemma_chain_frame(orig.pages@, self.pages@, h);
            }
            assert(spec_preserves_headers(orig, *self));
        }
    }
}

/// A delete metadata entry after a tombstone pass for `ids` at `xmax`:
/// tombstoned exactly when its segment is obsolete and it was still live.
pub open spec fn spec_tombstone_del_entry(
    e: DeleteMetaEntry,
    ids: Seq<SegmentId>,
    xmax: u64,
) -> DeleteMetaEntry {
    if spec_contains_id(ids, e.segment_id) && e.xmax == INVALID_TRANSACTION_ID {
        DeleteMetaEntry { xmax, ..e }
    } else {
        e
    }
}

/// The whole delete metadata view after a tombstone pass.
pub open spec fn spec_tombstone_del(
    entries: Seq<DeleteMetaEntry>,
    ids: Seq<SegmentId>,
    xmax: u64,
) -> Seq<DeleteMetaEntry> {
    entries.map_values(|e: DeleteMetaEntry| spec_tombstone_del_entry(e, ids, xmax))
}

/// The tombstone pass on one slotted record; records of other chains are
/// untouched.
pub open spec fn spec_tombstone_del_record(r: Record, ids: Seq<SegmentId>, xmax: u64) -> Record {
    match r {
        Record::DelMeta(e) => Record::DelMeta(spec_tombstone_del_entry(e, ids, xmax)),
        _ => r,
    }
}

/// The tombstone rewrite keeps every record's shape.
proof fn lemma_tombstone_del_compatible(items: Seq<Record>, ids: Seq<SegmentId>, xmax: u64)
    ensures
        spec_items_compatible(
            items,
            items.map_values(|r: Record| spec_tombstone_del_record(r, ids, xmax)),
        ),
{
    let mapped = items.map_values(|r: Record| spec_tombstone_del_record(r, ids, xmax));
    assert forall|j: int|
        0 <= j < items.len() implies spec_record_size(#[trigger] mapped[j]) == spec_record_size(
        items[j],
    ) && spec_record_kind(mapped[j]) == spec_record_kind(items[j]) && (spec_record_kind(items[j])
        == RecordKind::Dir ==> crate::store::spec_dir_record(mapped[j]).start
        == crate::store::spec_dir_record(items[j]).start && crate::store::spec_dir_record(
        mapped[j],
    ).path == crate::store::spec_dir_record(items[j]).path) by {
        assert(mapped[j] == spec_tombstone_del_record(items[j], ids, xmax));
    }
}

impl BlockStore {
    /// Tombstone every matching live delete entry slotted in block `b`,
    /// in place; nothing else in the store moves.
    fn tombstone_del_block(&mut self, b: u32, deleted_ids: &Vec<SegmentId>, xmax: u64)
        requires
            (b as int) < old(self).pages@.len(),
        ensures
            final(self).pages@.len() == old(self).pages@.len(),
            final(self).need_wal == old(self).need_wal,
            forall|x: int|
                0 <= x < old(self).pages@.len() && x != b as int ==> final(self).pages@[x] == old(self).pages@[x],
            final(self).pages@[b as int].next == old(self).pages@[b as int].next,
            final(self).pages@[b as int].head == old(self).pages@[b as int].head,
            final(self).pages@[b as int].deleted == old(self).pages@[b as int].deleted,
            final(self).pages@[b as int].items@ == old(self).pages@[b as int].items@.map_values(
                |r: Record| spec_tombstone_del_record(r, deleted_ids@, xmax),
            ),
    {
        let ghost orig = *self;
        let ghost t = |r: Record| spec_tombstone_del_record(r, deleted_ids@, xmax);
        let n_items = self.pages[b as usize].items.len();
        let mut j: usize = 0;
        proof {
            assert(self.pages@[b as int].items@.map_values(t).take(0) =~= Seq::<Record>::empty());
        }
        while j < n_items
            invariant
                (b as int) < orig.pages@.len(),
                self.pages@.len() == orig.pages@.len(),
                self.need_wal == orig.need_wal,
                t == (|r: Record| spec_tombstone_del_record(r, deleted_ids@, xmax)),
                forall|x: int|
                    0 <= x < orig.pages@.len() && x != b as int ==> (#[trigger] self.pages@[x])
                        == orig.pages@[x],
                self.pages@[b as int].next == orig.pages@[b as int].next,
                self.pages@[b as int].head == orig.pages@[b as int].head,
                self.pages@[b as int].deleted == orig.pages@[b as int].deleted,
                n_items == orig.pages@[b as int].items@.len(),
                self.pages@[b as int].items@.len() == n_items,
                j <= n_items,
                forall|jj: int|
                    0 <= jj < j ==> (#[trigger] self.pages@[b as int].items@[jj]) == t(
                        orig.pages@[b as int].items@[jj],
                    ),
                forall|jj: int|
                    j <= jj < n_items ==> (#[trigger] self.pages@[b as int].items@[jj])
                        == orig.pages@[b as int].items@[jj],
            decreases n_items - j,
        {
            let ghost iter0 = *self;
            let mut replacement: Option<Record> = None;
            match &self.pages[b as usize].items[j] {
                Record::DelMeta(e) => {
                    let ent = *e;
                    if contains_id(deleted_ids, ent.segment_id) && !ent.deleted() {
                        replacement = Some(Record::DelMeta(DeleteMetaEntry { xmax, ..ent }));
                    }
                },
                _ => {},
            }
            match replacement {
                Some(rec) => {
                    proof {
                        assert(rec == t(orig.pages@[b as int].items@[j as int]));
                    }
                    self.pages[b as usize].items[j] = rec;
                    proof {
                        assert(self.pages@ =~= iter0.pages@.update(b as int, self.pages@[b as int]));
                        assert(self.pages@[b as int].items@ =~= iter0.pages@[b as int].items@.update(
                            j as int,
                            t(orig.pages@[b as int].items@[j as int]),
                        ));
                    }
                },
                None => {
                    proof {
                        assert(self.pages@[b as int].items@[j as int] == t(
                            orig.pages@[b as int].items@[j as int],
                        ));
                    }
                },
            }
            j = j + 1;
        }
        proof {
            assert(self.pages@[b as int].items@ =~= orig.pages@[b as int].items@.map_values(t));
        }
    }

    /// Tombstone the delete metadata of every obsolete segment: scan the
    /// delete chain and stamp `xmax` onto each matching entry not yet
    /// tombstoned, in place.  No other chain, flag or link moves.
    pub fn delete_unused_delete_metas(&mut self, deleted_ids: &Vec<SegmentId>, xmax: u64)
        requires
            old(self).wf(),
        ensures
            final(self).wf(),
            final(self).need_wal == old(self).need_wal,
            final(self).pages@.len() == old(self).pages@.len(),
            final(self).delete_meta_entries() == spec_tombstone_del(
                old(self).delete_meta_entries(),
                deleted_ids@,
                xmax,
            ),
            spec_preserves_other_chains(*old(self), *final(self), DELETE_METAS_START as int),
            spec_preserves_headers(*old(self), *final(self)),
            forall|x: int|
                0 <= x < old(self).pages@.len() ==> (#[trigger] final(self).pages@[x].deleted)
                    == old(self).pages@[x].deleted,
    {
        let ghost orig = *self;
        let ghost s = DELETE_METAS_START as int;
        let ghost t = |r: Record| spec_tombstone_del_record(r, deleted_ids@, xmax);
        let mut b: u32 = DELETE_METAS_START;
        proof {
            lemma_chain_blocks_bounds(orig.pages@, s);
            assert(spec_chain_blocks(orig.pages@, s)[0] == s);
            assert(spec_chain_blocks(orig.pages@, s).contains(s));
        }
        while self.pages[b as usize].next != INVALID_BLOCK_NUMBER
            invariant
                orig.wf(),
                self.need_wal == orig.need_wal,
                self.pages@.len() == orig.pages@.len(),
                s == DELETE_METAS_START as int,
                t == (|r: Record| spec_tombstone_del_record(r, deleted_ids@, xmax)),
                (b as int) < orig.pages@.len(),
                spec_chain_blocks(orig.pages@, s).contains(b as int),
                forall|x: int|
                    0 <= x < orig.pages@.len() ==> (#[trigger] self.pages@[x].next)
                        == orig.pages@[x].next && self.pages@[x].head == orig.pages@[x].head
                        && self.pages@[x].deleted == orig.pages@[x].deleted,
                forall|x: int|
                    0 <= x < orig.pages@.len() && !spec_chain_blocks(orig.pages@, s).contains(x)
                        ==> (#[trigger] self.pages@[x]) == orig.pages@[x],
                forall|x: int|
                    #[trigger] spec_chain_blocks(orig.pages@, s).contains(x)
                        && spec_chain_blocks(orig.pages@, b as int).contains(x)
                        ==> self.pages@[x].items == orig.pages@[x].items,
                forall|x: int|
                    #[trigger] spec_chain_blocks(orig.pages@, s).contains(x)
                        && !spec_chain_blocks(orig.pages@, b as int).contains(x)
                        ==> self.pages@[x].items@ == orig.pages@[x].items@.map_values(t),
            decreases orig.pages@.len() - b,
        {
            let ghost iter0 = *self;
            self.tombstone_del_block(b, deleted_ids, xmax);
            let nxt = self.pages[b as usize].next;
            proof {
                assert(orig.block_wf(b as int));
                lemma_chain_blocks_bounds(orig.pages@, s);
                let cb = spec_chain_blocks(orig.pages@, b as int);
                assert(cb[0] == b as int);
                assert(cb.contains(b as int));
                assert(nxt == orig.pages@[b as int].next);
                assert(nxt != INVALID_BLOCK_NUMBER);
                let ct = spec_chain_blocks(orig.pages@, nxt as int);
                assert(cb == seq![b as int] + ct);
                lemma_chain_blocks_bounds(orig.pages@, nxt as int);
                assert(iter0.pages@[b as int].items == orig.pages@[b as int].items);
                assert(self.pages@[b as int].items@ == orig.pages@[b as int].items@.map_values(t));
                assert forall|x: int| #[trigger]
                    spec_chain_blocks(orig.pages@, s).contains(x) && ct.contains(x) implies
                    self.pages@[x].items == orig.pages@[x].items by {
                    let i = choose|i: int| 0 <= i < ct.len() && ct[i] == x;
                    assert(x >= nxt);
                    assert(x != b as int);
                    assert(cb[i + 1] == x);
                    assert(cb.contains(x));
                    assert(self.pages@[x] == iter0.pages@[x]);
                }
                assert forall|x: int| #[trigger]
                    spec_chain_blocks(orig.pages@, s).contains(x) && !ct.contains(x) implies
                    self.pages@[x].items@ == orig.pages@[x].items@.map_values(t) by {
                    if x == b as int {
                    } else {
                        assert(!cb.contains(x)) by {
                            if cb.contains(x) {
                                let i = choose|i: int| 0 <= i < cb.len() && cb[i] == x;
                                assert(i != 0);
                                assert(ct[i - 1] == x);
                            }
                        }
                        assert(iter0.pages@[x].items@ == orig.pages@[x].items@.map_values(t));
                        assert(self.pages@[x] == iter0.pages@[x]);
                    }
                }
                lemma_chain_member_next(orig.pages@, s, b as int);
            }
            b = nxt;
        }
        let ghost last0 = *self;
        self.tombstone_del_block(b, deleted_ids, xmax);
        proof {
            assert(last0.pages@[b as int].next == orig.pages@[b as int].next);
            let cb = spec_chain_blocks(orig.pages@, b as int);
            assert(cb == seq![b as int]);
            assert(cb[0] == b as int);
            assert(cb.contains(b as int));
            assert(spec_chain_blocks(orig.pages@, s).contains(b as int));
            assert(last0.pages@[b as int].items == orig.pages@[b as int].items);
            assert(self.pages@[b as int].items@ == orig.pages@[b as int].items@.map_values(t));
            // every block of the chain is rewritten now, everything else
            // stands still
            assert forall|x: int|
                0 <= x < orig.pages@.len() implies (#[trigger] self.pages@[x].next)
                == orig.pages@[x].next && self.pages@[x].head == orig.pages@[x].head
                && self.pages@[x].deleted == orig.pages@[x].deleted by {
                if x != b as int {
                    assert(self.pages@[x] == last0.pages@[x]);
                }
            }
            assert forall|x: int| #[trigger]
                spec_chain_blocks(orig.pages@, s).contains(x) implies self.pages@[x].items@
                == orig.pages@[x].items@.map_values(t) by {
                if x != b as int {
                    assert(!cb.contains(x));
                    assert(last0.pages@[x].items@ == orig.pages@[x].items@.map_values(t));
                    assert(self.pages@[x] == last0.pages@[x]);
                }
            }
            assert forall|x: int|
                0 <= x < orig.pages@.len() && !spec_chain_blocks(orig.pages@, s).contains(x) implies
                (#[trigger] self.pages@[x]) == orig.pages@[x] by {
                assert(x != b as int);
                assert(self.pages@[x] == last0.pages@[x]);
            }
            // well-formedness and framing
            assert forall|x: int| 0 <= x < orig.pages@.len() implies spec_items_compatible(
                orig.pages@[x].items@,
                (#[trigger] self.pages@[x]).items@,
            ) by {
                if spec_chain_blocks(orig.pages@, s).contains(x) {
                    lemma_tombstone_del_compatible(orig.pages@[x].items@, deleted_ids@, xmax);
                } else {
                    assert(self.pages@[x] == orig.pages@[x]);
                }
            }
            lemma_wf_items_replaced(orig, *self);
            assert forall|x: int| #[trigger]
                spec_chain_blocks(orig.pages@, s).contains(x) implies (orig.pages@[x].next
                != INVALID_BLOCK_NUMBER ==> x < orig.pages@[x].next < orig.pages@.len())
                && self.pages@[x].next == orig.pages@[x].next && self.pages@[x].items@
                == orig.pages@[x].items@.map_values(t) by {
                lemma_chain_blocks_bounds(orig.pages@, s);
                assert(orig.block_wf(x));
            }
            lemma_chain_items_mapped(orig.pages@, self.pages@, s, t);
            // the typed view is the entry-level rewrite
            assert(self.delete_meta_entries() =~= spec_tombstone_del(
                orig.delete_meta_entries(),
                deleted_ids@,
                xmax,
            )) by {
                let pre_items = spec_chain_items(orig.pages@, s);
                assert forall|j: int|
                    0 <= j < pre_items.len() implies spec_del_record(
                    #[trigger] pre_items.map_values(t)[j],
                ) == spec_tombstone_del_entry(
                    spec_del_record(pre_items[j]),
                    deleted_ids@,
                    xmax,
                ) by {
                    assert(spec_record_kind(pre_items[j]) == RecordKind::DelMeta);
                }
            }
            // chains other than the delete chain are untouched
            assert forall|h: int|
                0 <= h < orig.pages@.len() && orig.pages@[h].head && h != s implies #[trigger] spec_chain_preserved(
                orig,
                *self,
                h,
            ) by {
                lemma_chains_disjoint(orig, h, s);
                lemma_chain_blocks_bounds(orig.pages@, h);
                assert forall|x: int| #[trigger]
                    spec_chain_blocks(orig.pages@, h).contains(x) implies (orig.pages@[x].next
                    != INVALID_BLOCK_NUMBER ==> x < orig.pages@[x].next < orig.pages@.len())
                    && self.pages@[x] == orig.pages@[x] by {
                    assert(orig.block_wf(x));
                    assert(!spec_chain_blocks(orig.pages@, s).contains(x));
                }
                lemma_chain_frame(orig.pages@, self.pages@, h);
            }
            assert(spec_preserves_headers(orig, *self));
        }
    }
}


/// A directory entry after a tombstone pass: tombstoned exactly when the
/// segment its path names is obsolete and the entry was still live.
pub open spec fn spec_dir_matches(e: DirectoryEntry, ids: Seq<SegmentId>) -> bool {
    spec_contains_id(ids, spec_path_segment_id(e.path@)) && e.xmax == INVALID_TRANSACTION_ID
}

/// The directory entry the tombstone pass leaves behind.
pub open spec fn spec_tombstone_dir_entry(
    e: DirectoryEntry,
    ids: Seq<SegmentId>,
    xmax: u64,
) -> DirectoryEntry {
    if spec_dir_matches(e, ids) {
        DirectoryEntry { xmax, ..e }
    } else {
        e
    }
}

/// The whole directory view after a tombstone pass.
pub open spec fn spec_tombstone_dir(
    entries: Seq<DirectoryEntry>,
    ids: Seq<SegmentId>,
    xmax: u64,
) -> Seq<DirectoryEntry> {
    entries.map_values(|e: DirectoryEntry| spec_tombstone_dir_entry(e, ids, xmax))
}

/// The tombstone pass on one slotted record; records of other chains are
/// untouched.
pub open spec fn spec_tombstone_dir_record(r: Record, ids: Seq<SegmentId>, xmax: u64) -> Record {
    match r {
        Record::Dir(e) => Record::Dir(spec_tombstone_dir_entry(e, ids, xmax)),
        _ => r,
    }
}

/// The tombstone rewrite keeps every record's shape, path and backing
/// chain.
proof fn lemma_tombstone_dir_compatible(items: Seq<Record>, ids: Seq<SegmentId>, xmax: u64)
    ensures
        spec_items_compatible(
            items,
            items.map_values(|r: Record| spec_tombstone_dir_record(r, ids, xmax)),
        ),
{
    let mapped = items.map_values(|r: Record| spec_tombstone_dir_record(r, ids, xmax));
    assert forall|j: int|
        0 <= j < items.len() implies spec_record_size(#[trigger] mapped[j]) == spec_record_size(
        items[j],
    ) && spec_record_kind(mapped[j]) == spec_record_kind(items[j]) && (spec_record_kind(items[j])
        == RecordKind::Dir ==> crate::store::spec_dir_record(mapped[j]).start
        == crate::store::spec_dir_record(items[j]).start && crate::store::spec_dir_record(
        mapped[j],
    ).path == crate::store::spec_dir_record(items[j]).path) by {
        assert(mapped[j] == spec_tombstone_dir_record(items[j], ids, xmax));
    }
}

/// Every page of the chain starting at `start` is flagged for
/// reclamation in `st`, the chain read in `orig`.
pub open spec fn spec_chain_flagged(st: BlockStore, orig: BlockStore, start: int) -> bool {
    forall|x: int|
        #[trigger] spec_chain_blocks(orig.pages@, start).contains(x) ==> st.pages@[x].deleted
}

/// Every page of the byte-stream chain backing `e` is flagged for
/// reclamation in `st`, the chain read in `orig`.
pub open spec fn spec_component_flagged(st: BlockStore, orig: BlockStore, e: DirectoryEntry) -> bool {
    spec_chain_flagged(st, orig, e.start as int)
}

/// Block `x` lies on the byte-stream chain backing some matching live
/// directory record of `items`, the chain read in `st`.
pub open spec fn spec_on_matched_chain(
    st: BlockStore,
    items: Seq<Record>,
    ids: Seq<SegmentId>,
    x: int,
) -> bool {
    exists|j: int|
        0 <= j < items.len() && ((#[trigger] items[j]) is Dir) && spec_dir_matches(
            spec_dir_record(items[j]),
            ids,
        ) && spec_chain_blocks(st.pages@, spec_dir_record(items[j]).start as int).contains(x)
}

/// Block `x` lies on the byte-stream chain backing some matching live
/// directory entry, the chain read in `st`.
pub open spec fn spec_on_obsolete_component(
    st: BlockStore,
    entries: Seq<DirectoryEntry>,
    ids: Seq<SegmentId>,
    x: int,
) -> bool {
    exists|i: int|
        0 <= i < entries.len() && spec_dir_matches(#[trigger] entries[i], ids)
            && spec_chain_blocks(st.pages@, entries[i].start as int).contains(x)
}

/// Some matching live directory entry among the first `bound` records of
/// `items` backs its file at block `st`.
pub open spec fn spec_mark_witness(items: Seq<Record>, ids: Seq<SegmentId>, st: u32, bound: int) -> bool {
    exists|jj: int|
        0 <= jj < bound && ((#[trigger] items[jj]) is Dir) && spec_dir_matches(
            spec_dir_record(items[jj]),
            ids,
        ) && spec_dir_record(items[jj]).start == st
}

impl BlockStore {
    /// Tombstone every matching live directory entry slotted in block
    /// `b`, in place, and flag each such entry's backing byte-stream
    /// chain for the deferred reclamation pass.
    fn tombstone_dir_block(&mut self, b: u32, deleted_ids: &Vec<SegmentId>, xmax: u64)
        requires
            old(self).links_wf(),
            (b as int) < old(self).pages@.len(),
            forall|j: int|
                0 <= j < old(self).pages@[b as int].items@.len() ==> ((
                #[trigger] old(self).pages@[b as int].items@[j]) is Dir ==> spec_path_parses(
                    spec_dir_record(old(self).pages@[b as int].items@[j]).path@,
                ) && (spec_dir_record(old(self).pages@[b as int].items@[j]).start as int) < old(self).pages@.len()),
        ensures
            final(self).links_wf(),
            final(self).pages@.len() == old(self).pages@.len(),
            final(self).need_wal == old(self).need_wal,
            forall|x: int|
                0 <= x < old(self).pages@.len() ==> (#[trigger] final(self).pages@[x].next)
                    == old(self).pages@[x].next && final(self).pages@[x].head == old(self).pages@[x].head,
            forall|x: int|
                0 <= x < old(self).pages@.len() && x != b as int ==> (#[trigger] final(self).pages@[x].items) == old(self).pages@[x].items,
            final(self).pages@[b as int].items@ == old(self).pages@[b as int].items@.map_values(
                |r: Record| spec_tombstone_dir_record(r, deleted_ids@, xmax),
            ),
            forall|x: int|
                0 <= x < old(self).pages@.len() && old(self).pages@[x].deleted ==> (#[trigger] final(self).pages@[x].deleted),
            forall|x: int|
                0 <= x < old(self).pages@.len() && (#[trigger] final(self).pages@[x].deleted)
                    && !old(self).pages@[x].deleted ==> spec_on_matched_chain(
                    *old(self),
                    old(self).pages@[b as int].items@,
                    deleted_ids@,
                    x,
                ),
            forall|j: int|
                0 <= j < old(self).pages@[b as int].items@.len() && ((
                #[trigger] old(self).pages@[b as int].items@[j]) is Dir) && spec_dir_matches(
                    spec_dir_record(old(self).pages@[b as int].items@[j]),
                    deleted_ids@,
                ) ==> spec_chain_flagged(
                    *final(self),
                    *old(self),
                    spec_dir_record(old(self).pages@[b as int].items@[j]).start as int,
                ),
    {
        let ghost orig = *self;
        let ghost t = |r: Record| spec_tombstone_dir_record(r, deleted_ids@, xmax);
        let ghost items0 = orig.pages@[b as int].items@;
        let n_items = self.pages[b as usize].items.len();
        let mut j: usize = 0;
        while j < n_items
            invariant
                orig.links_wf(),
                (b as int) < orig.pages@.len(),
                self.pages@.len() == orig.pages@.len(),
                self.need_wal == orig.need_wal,
                t == (|r: Record| spec_tombstone_dir_record(r, deleted_ids@, xmax)),
                items0 == orig.pages@[b as int].items@,
                forall|jj: int|
                    0 <= jj < items0.len() ==> ((#[trigger] items0[jj]) is Dir ==> spec_path_parses(
                        spec_dir_record(items0[jj]).path@,
                    ) && (spec_dir_record(items0[jj]).start as int) < orig.pages@.len()),
                forall|x: int|
                    0 <= x < orig.pages@.len() ==> (#[trigger] self.pages@[x].next)
                        == orig.pages@[x].next && self.pages@[x].head == orig.pages@[x].head,
                forall|x: int|
                    0 <= x < orig.pages@.len() && x != b as int ==> (#[trigger] self.pages@[x].items)
                        == orig.pages@[x].items,
                forall|x: int|
                    0 <= x < orig.pages@.len() && orig.pages@[x].deleted
                        ==> (#[trigger] self.pages@[x].deleted),
                forall|x: int|
                    0 <= x < orig.pages@.len() && (#[trigger] self.pages@[x].deleted)
                        && !orig.pages@[x].deleted ==> spec_on_matched_chain(
                        orig,
                        items0,
                        deleted_ids@,
                        x,
                    ),
                n_items == items0.len(),
                self.pages@[b as int].items@.len() == n_items,
                j <= n_items,
                forall|jj: int|
                    0 <= jj < j ==> (#[trigger] self.pages@[b as int].items@[jj]) == t(items0[jj]),
                forall|jj: int|
                    j <= jj < n_items ==> (#[trigger] self.pages@[b as int].items@[jj])
                        == items0[jj],
                forall|jj: int|
                    0 <= jj < j && ((#[trigger] items0[jj]) is Dir) && spec_dir_matches(
                        spec_dir_record(items0[jj]),
                        deleted_ids@,
                    ) ==> spec_chain_flagged(*self, orig, spec_dir_record(items0[jj]).start as int),
                self.links_wf(),
            decreases n_items - j,
        {
            let ghost iter0 = *self;
            let mut replacement: Option<Record> = None;
            let mut mark: Option<u32> = None;
            match &self.pages[b as usize].items[j] {
                Record::Dir(e) => {
                    let ent = e.duplicate();
                    proof {
                        assert(items0[j as int] is Dir);
                        assert(spec_path_parses(ent.path@));
                    }
                    let scp = SegmentComponentPath(ent.path.clone());
                    match SegmentComponentId::try_from(&scp) {
                        Ok(cid) => {
                            proof {
                                assert(cid.0 == spec_path_segment_id(ent.path@));
                            }
                            if contains_id(deleted_ids, cid.0) && !ent.deleted() {
                                mark = Some(ent.start);
                                replacement = Some(
                                    Record::Dir(
                                        DirectoryEntry {
                                            path: ent.path,
                                            start: ent.start,
                                            xmin: ent.xmin,
                                            xmax,
                                        },
                                    ),
                                );
                            }
                        },
                        Err(_) => {
                            proof {
                                assert(false);
                            }
                        },
                    }
                },
                _ => {},
            }
            match replacement {
                Some(rec) => {
                    proof {
                        assert(spec_dir_matches(spec_dir_record(items0[j as int]), deleted_ids@));
                        assert(rec == t(items0[j as int]));
                    }
                    self.pages[b as usize].items[j] = rec;
                    let ghost mid = *self;
                    proof {
                        assert(self.pages@ =~= iter0.pages@.update(b as int, self.pages@[b as int]));
                        assert(self.pages@[b as int].items@ =~= iter0.pages@[b as int].items@.update(
                            j as int,
                            t(items0[j as int]),
                        ));
                        // the record keeps its width, so the page and the
                        // whole store stay sound
                        assert forall|x: int| 0 <= x < self.pages@.len() implies self.block_wf(
                            x,
                        ) by {
                            assert(iter0.block_wf(x));
                            assert(self.pages@[x].next == iter0.pages@[x].next);
                            if x == b as int {
                                assert(spec_record_size(t(items0[j as int])) == spec_record_size(
                                    items0[j as int],
                                ));
                                assert(spec_record_size(self.pages@[b as int].items@[j as int])
                                    == spec_record_size(iter0.pages@[b as int].items@[j as int]));
                                assert(spec_items_compatible(
                                    iter0.pages@[b as int].items@,
                                    self.pages@[b as int].items@,
                                )) by {
                                    assert forall|jj: int|
                                        0 <= jj < iter0.pages@[b as int].items@.len() implies
                                        spec_record_size(
                                        #[trigger] self.pages@[b as int].items@[jj],
                                    ) == spec_record_size(iter0.pages@[b as int].items@[jj])
                                        && spec_record_kind(self.pages@[b as int].items@[jj])
                                        == spec_record_kind(iter0.pages@[b as int].items@[jj]) && (
                                    spec_record_kind(iter0.pages@[b as int].items@[jj])
                                        == RecordKind::Dir ==> spec_dir_record(
                                        self.pages@[b as int].items@[jj],
                                    ).start == spec_dir_record(
                                        iter0.pages@[b as int].items@[jj],
                                    ).start && spec_dir_record(
                                        self.pages@[b as int].items@[jj],
                                    ).path == spec_dir_record(
                                        iter0.pages@[b as int].items@[jj],
                                    ).path) by {
                                        if jj != j {
                                            assert(self.pages@[b as int].items@[jj]
                                                == iter0.pages@[b as int].items@[jj]);
                                        }
                                    }
                                }
                                lemma_records_size_compatible(
                                    iter0.pages@[b as int].items@,
                                    self.pages@[b as int].items@,
                                );
                            } else {
                                assert(self.pages@[x] == iter0.pages@[x]);
                            }
                            let nx = iter0.pages@[x].next as int;
                            if iter0.pages@[x].next != INVALID_BLOCK_NUMBER {
                                assert(self.pages@[nx].next == iter0.pages@[nx].next);
                                assert(self.pages@[nx].head == iter0.pages@[nx].head);
                            }
                        }
                        assert(self.links_injective()) by {
                            assert(iter0.links_injective());
                            assert forall|x: int| 0 <= x < self.pages@.len() implies (
                            #[trigger] self.pages@[x].next) == iter0.pages@[x].next by {
                                if x != b as int {
                                    assert(self.pages@[x] == iter0.pages@[x]);
                                }
                            }
                        }
                        assert(self.links_wf());
                    }
                    // flag the tombstoned entry's backing chain
                    match mark {
                        Some(st) => {
                            let ghost mark0 = *self;
                            self.mark_deleted(st);
                            proof {
                                assert(mark0 == mid);
                                assert forall|x: int| 0 <= x < orig.pages@.len() implies (
                                #[trigger] self.pages@[x].next) == mark0.pages@[x].next
                                    && self.pages@[x].items == mark0.pages@[x].items
                                    && self.pages@[x].head == mark0.pages@[x].head by {
                                    assert(self.pages@[x].next == mark0.pages@[x].next);
                                }
                                assert forall|x: int|
                                    0 <= x < orig.pages@.len() && x != b as int implies (
                                #[trigger] self.pages@[x].items) == orig.pages@[x].items by {
                                    assert(self.pages@[x].next == mark0.pages@[x].next);
                                    assert(self.pages@[x].items == mark0.pages@[x].items);
                                    assert(mid.pages@[x] == iter0.pages@[x]);
                                }
                                assert(self.pages@[b as int].items == mark0.pages@[b as int].items)
                                    by {
                                    assert(self.pages@[b as int].next == mark0.pages@[b as int].next);
                                }
                                assert forall|x: int| 0 <= x < orig.pages@.len() implies (
                                #[trigger] self.pages@[x].next) == orig.pages@[x].next
                                    && self.pages@[x].head == orig.pages@[x].head by {
                                    assert(self.pages@[x].next == mark0.pages@[x].next);
                                    assert(self.pages@[x].head == mark0.pages@[x].head);
                                    if x != b as int {
                                        assert(mid.pages@[x] == iter0.pages@[x]);
                                    } else {
                                        assert(mid.pages@[b as int].next == iter0.pages@[b as int].next);
                                        assert(mid.pages@[b as int].head == iter0.pages@[b as int].head);
                                    }
                                }
                                assert(st == spec_dir_record(items0[j as int]).start);
                                assert(spec_chain_flagged(*self, orig, st as int)) by {
                                    assert forall|x: int| #[trigger]
                                        spec_chain_blocks(orig.pages@, st as int).contains(
                                        x,
                                    ) implies self.pages@[x].deleted by {
                                        crate::chain::lemma_chain_member_in_range(
                                            orig.pages@,
                                            st as int,
                                            x,
                                        );
                                        assert forall|y: int| #[trigger]
                                            spec_chain_blocks(orig.pages@, st as int).contains(
                                            y,
                                        ) implies (orig.pages@[y].next != INVALID_BLOCK_NUMBER
                                            ==> y < orig.pages@[y].next < orig.pages@.len())
                                            && mark0.pages@[y].next == orig.pages@[y].next by {
                                            crate::chain::lemma_chain_member_in_range(
                                                orig.pages@,
                                                st as int,
                                                y,
                                            );
                                            assert(orig.block_wf(y));
                                        }
                                        lemma_chain_frame_next_only(
                                            orig.pages@,
                                            mark0.pages@,
                                            st as int,
                                        );
                                        assert(spec_chain_blocks(mark0.pages@, st as int).contains(
                                            x,
                                        ));
                                    }
                                }
                                // earlier flags survive
                                assert forall|jj: int|
                                    0 <= jj < j + 1 && ((#[trigger] items0[jj]) is Dir)
                                        && spec_dir_matches(
                                        spec_dir_record(items0[jj]),
                                        deleted_ids@,
                                    ) implies spec_chain_flagged(
                                    *self,
                                    orig,
                                    spec_dir_record(items0[jj]).start as int,
                                ) by {
                                    if jj < j {
                                        let stj = spec_dir_record(items0[jj]).start as int;
                                        assert(spec_chain_flagged(iter0, orig, stj));
                                        assert forall|x: int| #[trigger]
                                            spec_chain_blocks(orig.pages@, stj).contains(
                                            x,
                                        ) implies self.pages@[x].deleted by {
                                            crate::chain::lemma_chain_member_in_range(
                                                orig.pages@,
                                                stj,
                                                x,
                                            );
                                            assert(iter0.pages@[x].deleted);
                                            assert(mid.pages@[x].deleted) by {
                                                if x != b as int {
                                                    assert(mid.pages@[x] == iter0.pages@[x]);
                                                }
                                            }
                                            assert(mark0.pages@[x].deleted);
                                        }
                                    }
                                }
                                // a flag raised this iteration lies on the
                                // matched entry's backing chain
                                assert forall|x: int|
                                    0 <= x < orig.pages@.len() && (#[trigger] self.pages@[x].deleted)
                                        && !orig.pages@[x].deleted implies spec_on_matched_chain(
                                    orig,
                                    items0,
                                    deleted_ids@,
                                    x,
                                ) by {
                                    assert forall|y: int| #[trigger]
                                        spec_chain_blocks(orig.pages@, st as int).contains(
                                        y,
                                    ) implies (orig.pages@[y].next != INVALID_BLOCK_NUMBER ==> y
                                        < orig.pages@[y].next < orig.pages@.len())
                                        && mark0.pages@[y].next == orig.pages@[y].next by {
                                        crate::chain::lemma_chain_member_in_range(
                                            orig.pages@,
                                            st as int,
                                            y,
                                        );
                                        assert(orig.block_wf(y));
                                    }
                                    lemma_chain_frame_next_only(
                                        orig.pages@,
                                        mark0.pages@,
                                        st as int,
                                    );
                                    if spec_chain_blocks(mark0.pages@, st as int).contains(x) {
                                        assert(spec_chain_blocks(orig.pages@, st as int).contains(
                                            x,
                                        ));
                                        assert(0 <= j < items0.len() && (items0[j as int] is Dir)
                                            && spec_dir_matches(
                                            spec_dir_record(items0[j as int]),
                                            deleted_ids@,
                                        ) && spec_chain_blocks(
                                            orig.pages@,
                                            spec_dir_record(items0[j as int]).start as int,
                                        ).contains(x));
                                    } else {
                                        assert(self.pages@[x].deleted == mark0.pages@[x].deleted);
                                        assert(mid.pages@[x].deleted);
                                        assert(iter0.pages@[x].deleted) by {
                                            if x != b as int {
                                                assert(mid.pages@[x] == iter0.pages@[x]);
                                            }
                                        }
                                        assert(spec_on_matched_chain(
                                            orig,
                                            items0,
                                            deleted_ids@,
                                            x,
                                        ));
                                    }
                                }
                            }
                        },
                        None => {
                            proof {
                                assert(false);
                            }
                        },
                    }
                },
                None => {
                    proof {
                        assert(self.pages@[b as int].items@[j as int] == t(items0[j as int]));
                        assert forall|jj: int|
                            0 <= jj < j + 1 && ((#[trigger] items0[jj]) is Dir)
                                && spec_dir_matches(
                                spec_dir_record(items0[jj]),
                                deleted_ids@,
                            ) implies spec_chain_flagged(
                            *self,
                            orig,
                            spec_dir_record(items0[jj]).start as int,
                        ) by {
                            assert(jj < j);
                        }
                    }
                },
            }
            j = j + 1;
        }
        proof {
            assert(self.pages@[b as int].items@ =~= items0.map_values(t));
        }
    }

    /// Tombstone the directory entry of every obsolete segment's
    /// component files: scan the directory chain, stamp `xmax` onto each
    /// matching entry not yet tombstoned, in place, and flag the entry's
    /// backing byte-stream chain for the deferred reclamation pass.
    /// Paths in the directory were written by the indexing collaborator;
    /// one that does not parse is a caller-side bug, so every stored path
    /// is required to parse.
    pub fn delete_unused_directory_entries(&mut self, deleted_ids: &Vec<SegmentId>, xmax: u64)
        requires
            old(self).wf(),
            forall|i: int|
                0 <= i < old(self).dir_entries().len() ==> spec_path_parses(
                    (#[trigger] old(self).dir_entries()[i]).path@,
                ),
        ensures
            final(self).wf(),
            final(self).need_wal == old(self).need_wal,
            final(self).pages@.len() == old(self).pages@.len(),
            final(self).dir_entries() == spec_tombstone_dir(
                old(self).dir_entries(),
                deleted_ids@,
                xmax,
            ),
            spec_preserves_other_chains(
                *old(self),
                *final(self),
                crate::block::DIRECTORY_START as int,
            ),
            spec_preserves_headers(*old(self), *final(self)),
            forall|i: int|
                0 <= i < old(self).dir_entries().len() && spec_dir_matches(
                    #[trigger] old(self).dir_entries()[i],
                    deleted_ids@,
                ) ==> spec_component_flagged(*final(self), *old(self), old(self).dir_entries()[i]),
            forall|x: int|
                0 <= x < old(self).pages@.len() && (#[trigger] final(self).pages@[x].deleted)
                    && !old(self).pages@[x].deleted ==> spec_on_obsolete_component(
                    *old(self),
                    old(self).dir_entries(),
                    deleted_ids@,
                    x,
                ),
    {
        let ghost orig = *self;
        let ghost s = crate::block::DIRECTORY_START as int;
        let ghost t = |r: Record| spec_tombstone_dir_record(r, deleted_ids@, xmax);
        let ghost entries = orig.dir_entries();
        let mut b: u32 = crate::block::DIRECTORY_START;
        proof {
            lemma_chain_blocks_bounds(orig.pages@, s);
            assert(spec_chain_blocks(orig.pages@, s)[0] == s);
            assert(spec_chain_blocks(orig.pages@, s).contains(s));
            assert(crate::store::spec_chain_items_upto(orig.pages@, s, s) =~= Seq::<
                Record,
            >::empty());
        }
        while self.pages[b as usize].next != INVALID_BLOCK_NUMBER
            invariant
                orig.wf(),
                self.links_wf(),
                self.need_wal == orig.need_wal,
                self.pages@.len() == orig.pages@.len(),
                s == crate::block::DIRECTORY_START as int,
                t == (|r: Record| spec_tombstone_dir_record(r, deleted_ids@, xmax)),
                entries == orig.dir_entries(),
                forall|i: int|
                    0 <= i < entries.len() ==> spec_path_parses((#[trigger] entries[i]).path@),
                (b as int) < orig.pages@.len(),
                spec_chain_blocks(orig.pages@, s).contains(b as int),
                forall|x: int|
                    0 <= x < orig.pages@.len() ==> (#[trigger] self.pages@[x].next)
                        == orig.pages@[x].next && self.pages@[x].head == orig.pages@[x].head,
                forall|x: int|
                    0 <= x < orig.pages@.len() && orig.pages@[x].deleted
                        ==> (#[trigger] self.pages@[x].deleted),
                forall|x: int|
                    0 <= x < orig.pages@.len() && !spec_chain_blocks(orig.pages@, s).contains(x)
                        ==> (#[trigger] self.pages@[x].items) == orig.pages@[x].items,
                forall|x: int|
                    #[trigger] spec_chain_blocks(orig.pages@, s).contains(x)
                        && spec_chain_blocks(orig.pages@, b as int).contains(x)
                        ==> self.pages@[x].items == orig.pages@[x].items,
                forall|x: int|
                    #[trigger] spec_chain_blocks(orig.pages@, s).contains(x)
                        && !spec_chain_blocks(orig.pages@, b as int).contains(x)
                        ==> self.pages@[x].items@ == orig.pages@[x].items@.map_values(t),
                forall|i: int|
                    0 <= i < crate::store::spec_chain_items_upto(orig.pages@, s, b as int).len()
                        && spec_dir_matches(#[trigger] entries[i], deleted_ids@)
                        ==> spec_component_flagged(*self, orig, entries[i]),
                forall|x: int|
                    0 <= x < orig.pages@.len() && (#[trigger] self.pages@[x].deleted)
                        && !orig.pages@[x].deleted ==> spec_on_obsolete_component(
                        orig,
                        entries,
                        deleted_ids@,
                        x,
                    ),
                crate::store::spec_chain_items_upto(orig.pages@, s, b as int).len()
                    <= entries.len(),
            decreases orig.pages@.len() - b,
        {
            let ghost upto = crate::store::spec_chain_items_upto(orig.pages@, s, b as int);
            let ghost iter0 = *self;
            proof {
                let cb = spec_chain_blocks(orig.pages@, b as int);
                lemma_chain_blocks_bounds(orig.pages@, b as int);
                assert(cb[0] == b as int);
                assert(cb.contains(b as int));
                assert(iter0.pages@[b as int].items == orig.pages@[b as int].items);
                lemma_dir_block_ready(orig, iter0, s, b as int, deleted_ids@);
            }
            self.tombstone_dir_block(b, deleted_ids, xmax);
            let nxt = self.pages[b as usize].next;
            proof {
                lemma_flags_covered_step(orig, iter0, *self, s, b as int, deleted_ids@);
                assert(orig.block_wf(b as int));
                lemma_chain_decompose(orig.pages@, s, b as int);
                let cb = spec_chain_blocks(orig.pages@, b as int);
                lemma_chain_blocks_bounds(orig.pages@, b as int);
                assert(cb[0] == b as int);
                assert(cb.contains(b as int));
                assert(nxt == orig.pages@[b as int].next);
                assert(nxt != INVALID_BLOCK_NUMBER);
                let ct = spec_chain_blocks(orig.pages@, nxt as int);
                assert(cb == seq![b as int] + ct);
                lemma_chain_blocks_bounds(orig.pages@, nxt as int);
                assert(iter0.pages@[b as int].items == orig.pages@[b as int].items);
                assert(self.pages@[b as int].items@ == orig.pages@[b as int].items@.map_values(t));
                assert forall|x: int| #[trigger]
                    spec_chain_blocks(orig.pages@, s).contains(x) && ct.contains(x) implies
                    self.pages@[x].items == orig.pages@[x].items by {
                    crate::chain::lemma_chain_member_in_range(orig.pages@, s, x);
                    let i = choose|i: int| 0 <= i < ct.len() && ct[i] == x;
                    assert(x >= nxt);
                    assert(x != b as int);
                    assert(cb[i + 1] == x);
                    assert(cb.contains(x));
                    assert(self.pages@[x].items == iter0.pages@[x].items);
                }
                assert forall|x: int| #[trigger]
                    spec_chain_blocks(orig.pages@, s).contains(x) && !ct.contains(x) implies
                    self.pages@[x].items@ == orig.pages@[x].items@.map_values(t) by {
                    crate::chain::lemma_chain_member_in_range(orig.pages@, s, x);
                    if x != b as int {
                        assert(!cb.contains(x)) by {
                            if cb.contains(x) {
                                let i = choose|i: int| 0 <= i < cb.len() && cb[i] == x;
                                assert(i != 0);
                                assert(ct[i - 1] == x);
                            }
                        }
                        assert(iter0.pages@[x].items@ == orig.pages@[x].items@.map_values(t));
                        assert(self.pages@[x].items == iter0.pages@[x].items);
                    }
                }
                lemma_chain_member_next(orig.pages@, s, b as int);
                // tombstoned entries of this page have their chains flagged
                lemma_chain_upto_extend_local(orig, s, b as int);
                assert forall|i: int|
                    0 <= i < crate::store::spec_chain_items_upto(orig.pages@, s, nxt as int).len()
                        && spec_dir_matches(#[trigger] entries[i], deleted_ids@) implies
                    spec_component_flagged(*self, orig, entries[i]) by {
                    if i < upto.len() {
                        assert(spec_component_flagged(iter0, orig, entries[i]));
                        assert forall|x: int|
                            #[trigger] spec_chain_blocks(
                                orig.pages@,
                                entries[i].start as int,
                            ).contains(x) implies self.pages@[x].deleted by {
                            crate::chain::lemma_chain_member_in_range(
                                orig.pages@,
                                entries[i].start as int,
                                x,
                            );
                            assert(iter0.pages@[x].deleted);
                        }
                    } else {
                        let j = i - upto.len();
                        assert(spec_chain_items(orig.pages@, b as int)[j]
                            == orig.pages@[b as int].items@[j]);
                        assert(spec_chain_items(orig.pages@, s)[i]
                            == orig.pages@[b as int].items@[j]);
                        assert(entries[i] == spec_dir_record(orig.pages@[b as int].items@[j]));
                        assert(spec_record_kind(spec_chain_items(orig.pages@, s)[i])
                            == RecordKind::Dir);
                        assert(spec_chain_flagged(
                            *self,
                            iter0,
                            spec_dir_record(iter0.pages@[b as int].items@[j]).start as int,
                        ));
                        assert forall|x: int|
                            #[trigger] spec_chain_blocks(
                                orig.pages@,
                                entries[i].start as int,
                            ).contains(x) implies self.pages@[x].deleted by {
                            crate::chain::lemma_chain_member_in_range(
                                orig.pages@,
                                entries[i].start as int,
                                x,
                            );
                            assert forall|y: int| #[trigger]
                                spec_chain_blocks(orig.pages@, entries[i].start as int).contains(
                                y,
                            ) implies (orig.pages@[y].next != INVALID_BLOCK_NUMBER ==> y
                                < orig.pages@[y].next < orig.pages@.len()) && iter0.pages@[y].next
                                == orig.pages@[y].next by {
                                crate::chain::lemma_chain_member_in_range(
                                    orig.pages@,
                                    entries[i].start as int,
                                    y,
                                );
                                assert(orig.block_wf(y));
                            }
                            lemma_chain_frame_next_only(
                                orig.pages@,
                                iter0.pages@,
                                entries[i].start as int,
                            );
                            assert(spec_chain_blocks(iter0.pages@, entries[i].start as int).contains(
                                x,
                            ));
                        }
                    }
                }
                assert(crate::store::spec_chain_items_upto(orig.pages@, s, nxt as int).len()
                    <= entries.len()) by {
                    lemma_chain_decompose(orig.pages@, s, nxt as int);
                }
            }
            b = nxt;
        }
        let ghost upto = crate::store::spec_chain_items_upto(orig.pages@, s, b as int);
        let ghost last0 = *self;
        proof {
            let cb = spec_chain_blocks(orig.pages@, b as int);
            lemma_chain_blocks_bounds(orig.pages@, b as int);
            assert(cb[0] == b as int);
            assert(cb.contains(b as int));
            assert(last0.pages@[b as int].items == orig.pages@[b as int].items);
            lemma_dir_block_ready(orig, last0, s, b as int, deleted_ids@);
        }
        self.tombstone_dir_block(b, deleted_ids, xmax);
        proof {
            lemma_flags_covered_step(orig, last0, *self, s, b as int, deleted_ids@);
            assert(last0.pages@[b as int].next == orig.pages@[b as int].next);
            assert(orig.block_wf(b as int));
            lemma_chain_decompose(orig.pages@, s, b as int);
            let cb = spec_chain_blocks(orig.pages@, b as int);
            assert(cb == seq![b as int]);
            assert(cb[0] == b as int);
            assert(cb.contains(b as int));
            assert(last0.pages@[b as int].items == orig.pages@[b as int].items);
            assert(self.pages@[b as int].items@ == orig.pages@[b as int].items@.map_values(t));
            assert forall|x: int| #[trigger]
                spec_chain_blocks(orig.pages@, s).contains(x) implies self.pages@[x].items@
                == orig.pages@[x].items@.map_values(t) by {
                crate::chain::lemma_chain_member_in_range(orig.pages@, s, x);
                if x != b as int {
                    assert(!cb.contains(x));
                    assert(last0.pages@[x].items@ == orig.pages@[x].items@.map_values(t));
                    assert(self.pages@[x].items == last0.pages@[x].items);
                }
            }
            assert forall|x: int|
                0 <= x < orig.pages@.len() && !spec_chain_blocks(orig.pages@, s).contains(
                    x,
                ) implies (#[trigger] self.pages@[x].items) == orig.pages@[x].items by {
                assert(x != b as int);
                assert(self.pages@[x].items == last0.pages@[x].items);
            }
            // flags for the whole directory
            assert(spec_chain_items(orig.pages@, b as int) == orig.pages@[b as int].items@);
            assert(entries.len() == upto.len() + orig.pages@[b as int].items@.len());
            assert forall|i: int|
                0 <= i < entries.len() && spec_dir_matches(
                    #[trigger] entries[i],
                    deleted_ids@,
                ) implies spec_component_flagged(*self, orig, entries[i]) by {
                if i < upto.len() {
                    assert(spec_component_flagged(last0, orig, entries[i]));
                    assert forall|x: int|
                        #[trigger] spec_chain_blocks(
                            orig.pages@,
                            entries[i].start as int,
                        ).contains(x) implies self.pages@[x].deleted by {
                        crate::chain::lemma_chain_member_in_range(
                            orig.pages@,
                            entries[i].start as int,
                            x,
                        );
                        assert(last0.pages@[x].deleted);
                    }
                } else {
                    let j = i - upto.len();
                    assert(spec_chain_items(orig.pages@, b as int)[j]
                        == orig.pages@[b as int].items@[j]);
                    assert(spec_chain_items(orig.pages@, s)[i]
                        == orig.pages@[b as int].items@[j]);
                    assert(entries[i] == spec_dir_record(orig.pages@[b as int].items@[j]));
                    assert(spec_record_kind(spec_chain_items(orig.pages@, s)[i])
                        == RecordKind::Dir);
                    assert(spec_chain_flagged(
                        *self,
                        last0,
                        spec_dir_record(last0.pages@[b as int].items@[j]).start as int,
                    ));
                    assert forall|x: int|
                        #[trigger] spec_chain_blocks(
                            orig.pages@,
                            entries[i].start as int,
                        ).contains(x) implies self.pages@[x].deleted by {
                        crate::chain::lemma_chain_member_in_range(
                            orig.pages@,
                            entries[i].start as int,
                            x,
                        );
                        assert forall|y: int| #[trigger]
                            spec_chain_blocks(orig.pages@, entries[i].start as int).contains(
                            y,
                        ) implies (orig.pages@[y].next != INVALID_BLOCK_NUMBER ==> y
                            < orig.pages@[y].next < orig.pages@.len()) && last0.pages@[y].next
                            == orig.pages@[y].next by {
                            crate::chain::lemma_chain_member_in_range(
                                orig.pages@,
                                entries[i].start as int,
                                y,
                            );
                            assert(orig.block_wf(y));
                        }
                        lemma_chain_frame_next_only(
                            orig.pages@,
                            last0.pages@,
                            entries[i].start as int,
                        );
                        assert(spec_chain_blocks(last0.pages@, entries[i].start as int).contains(x));
                    }
                }
            }
            // well-formedness, the rewritten view, and framing
            assert forall|x: int| 0 <= x < orig.pages@.len() implies spec_items_compatible(
                orig.pages@[x].items@,
                (#[trigger] self.pages@[x]).items@,
            ) by {
                if spec_chain_blocks(orig.pages@, s).contains(x) {
                    lemma_tombstone_dir_compatible(orig.pages@[x].items@, deleted_ids@, xmax);
                } else {
                    assert(self.pages@[x].items == orig.pages@[x].items);
                }
            }
            lemma_wf_items_replaced(orig, *self);
            assert forall|x: int| #[trigger]
                spec_chain_blocks(orig.pages@, s).contains(x) implies (orig.pages@[x].next
                != INVALID_BLOCK_NUMBER ==> x < orig.pages@[x].next < orig.pages@.len())
                && self.pages@[x].next == orig.pages@[x].next && self.pages@[x].items@
                == orig.pages@[x].items@.map_values(t) by {
                crate::chain::lemma_chain_member_in_range(orig.pages@, s, x);
                assert(orig.block_wf(x));
            }
            lemma_chain_items_mapped(orig.pages@, self.pages@, s, t);
            assert(self.dir_entries() =~= spec_tombstone_dir(
                orig.dir_entries(),
                deleted_ids@,
                xmax,
            )) by {
                let pre_items = spec_chain_items(orig.pages@, s);
                assert forall|j: int|
                    0 <= j < pre_items.len() implies spec_dir_record(
                    #[trigger] pre_items.map_values(t)[j],
                ) == spec_tombstone_dir_entry(
                    spec_dir_record(pre_items[j]),
                    deleted_ids@,
                    xmax,
                ) by {
                    assert(spec_record_kind(pre_items[j]) == RecordKind::Dir);
                }
            }
            assert forall|h: int|
                0 <= h < orig.pages@.len() && orig.pages@[h].head && h != s implies #[trigger] spec_chain_preserved(
                orig,
                *self,
                h,
            ) by {
                lemma_chains_disjoint(orig, h, s);
                lemma_chain_blocks_bounds(orig.pages@, h);
                assert forall|x: int| #[trigger]
                    spec_chain_blocks(orig.pages@, h).contains(x) implies (orig.pages@[x].next
                    != INVALID_BLOCK_NUMBER ==> x < orig.pages@[x].next < orig.pages@.len())
                    && self.pages@[x].next == orig.pages@[x].next && self.pages@[x].items
                    == orig.pages@[x].items by {
                    assert(orig.block_wf(x));
                    assert(!spec_chain_blocks(orig.pages@, s).contains(x));
                }
                lemma_chain_frame_fields(orig.pages@, self.pages@, h);
            }
            assert(spec_preserves_headers(orig, *self));
        }
    }
}

/// One block's tombstoning keeps the reclamation-flag frame: a flag the
/// pass raised lies on the backing chain of some matching live directory
/// entry, and no other flag moved.
proof fn lemma_flags_covered_step(
    orig: BlockStore,
    iter0: BlockStore,
    cur: BlockStore,
    s: int,
    b: int,
    ids: Seq<SegmentId>,
)
    requires
        orig.wf(),
        s == crate::block::DIRECTORY_START as int,
        0 <= b < orig.pages@.len(),
        spec_chain_blocks(orig.pages@, s).contains(b),
        iter0.pages@.len() == orig.pages@.len(),
        cur.pages@.len() == orig.pages@.len(),
        forall|x: int|
            0 <= x < orig.pages@.len() ==> (#[trigger] iter0.pages@[x].next)
                == orig.pages@[x].next,
        iter0.pages@[b].items == orig.pages@[b].items,
        forall|x: int|
            0 <= x < orig.pages@.len() && (#[trigger] iter0.pages@[x].deleted)
                && !orig.pages@[x].deleted ==> spec_on_obsolete_component(
                orig,
                orig.dir_entries(),
                ids,
                x,
            ),
        forall|x: int|
            0 <= x < orig.pages@.len() && (#[trigger] cur.pages@[x].deleted)
                && !iter0.pages@[x].deleted ==> spec_on_matched_chain(
                iter0,
                iter0.pages@[b].items@,
                ids,
                x,
            ),
    ensures
        forall|x: int|
            0 <= x < orig.pages@.len() && (#[trigger] cur.pages@[x].deleted)
                && !orig.pages@[x].deleted ==> spec_on_obsolete_component(
                orig,
                orig.dir_entries(),
                ids,
                x,
            ),
{
    let entries = orig.dir_entries();
    lemma_chain_decompose(orig.pages@, s, b);
    let upto = crate::store::spec_chain_items_upto(orig.pages@, s, b);
    assert forall|x: int|
        0 <= x < orig.pages@.len() && (#[trigger] cur.pages@[x].deleted)
            && !orig.pages@[x].deleted implies spec_on_obsolete_component(
        orig,
        entries,
        ids,
        x,
    ) by {
        if !iter0.pages@[x].deleted {
            assert(spec_on_matched_chain(iter0, iter0.pages@[b].items@, ids, x));
            let j = choose|j: int|
                0 <= j < iter0.pages@[b].items@.len() && ((
                #[trigger] iter0.pages@[b].items@[j]) is Dir) && spec_dir_matches(
                    spec_dir_record(iter0.pages@[b].items@[j]),
                    ids,
                ) && spec_chain_blocks(
                    iter0.pages@,
                    spec_dir_record(iter0.pages@[b].items@[j]).start as int,
                ).contains(x);
            assert(iter0.pages@[b].items@[j] == orig.pages@[b].items@[j]);
            let i = upto.len() + j;
            assert(spec_chain_items(orig.pages@, b)[j] == orig.pages@[b].items@[j]);
            assert(spec_chain_items(orig.pages@, s)[i] == orig.pages@[b].items@[j]);
            assert(crate::store::spec_record_kind(spec_chain_items(orig.pages@, s)[i])
                == RecordKind::Dir);
            assert(entries[i] == spec_dir_record(orig.pages@[b].items@[j]));
            assert(orig.dir_entry_wf(entries[i]));
            let st = entries[i].start as int;
            assert forall|y: int| #[trigger]
                spec_chain_blocks(orig.pages@, st).contains(y) implies (orig.pages@[y].next
                != INVALID_BLOCK_NUMBER ==> y < orig.pages@[y].next < orig.pages@.len())
                && iter0.pages@[y].next == orig.pages@[y].next by {
                crate::chain::lemma_chain_member_in_range(orig.pages@, st, y);
                assert(orig.block_wf(y));
            }
            lemma_chain_frame_next_only(orig.pages@, iter0.pages@, st);
            assert(spec_chain_blocks(orig.pages@, st).contains(x));
            assert(0 <= i < entries.len() && spec_dir_matches(entries[i], ids)
                && spec_chain_blocks(orig.pages@, entries[i].start as int).contains(x));
        }
    }
}

/// At a block of the directory chain not yet rewritten, every slotted
/// record is a directory entry whose path parses and whose backing chain
/// exists.
proof fn lemma_dir_block_ready(
    orig: BlockStore,
    cur: BlockStore,
    s: int,
    b: int,
    ids: Seq<SegmentId>,
)
    requires
        orig.wf(),
        s == crate::block::DIRECTORY_START as int,
        0 <= b < orig.pages@.len(),
        spec_chain_blocks(orig.pages@, s).contains(b),
        forall|i: int|
            0 <= i < orig.dir_entries().len() ==> spec_path_parses(
                (#[trigger] orig.dir_entries()[i]).path@,
            ),
        cur.pages@.len() == orig.pages@.len(),
        cur.pages@[b].items == orig.pages@[b].items,
    ensures
        forall|j: int|
            0 <= j < cur.pages@[b].items@.len() ==> ((#[trigger] cur.pages@[b].items@[j]) is Dir
                && spec_path_parses(spec_dir_record(cur.pages@[b].items@[j]).path@) && (
            spec_dir_record(cur.pages@[b].items@[j]).start as int) < cur.pages@.len()),
{
    lemma_chain_decompose(orig.pages@, s, b);
    let upto = crate::store::spec_chain_items_upto(orig.pages@, s, b);
    let entries = orig.dir_entries();
    assert forall|j: int|
        0 <= j < cur.pages@[b].items@.len() implies ((#[trigger] cur.pages@[b].items@[j]) is Dir
        && spec_path_parses(spec_dir_record(cur.pages@[b].items@[j]).path@) && (spec_dir_record(
        cur.pages@[b].items@[j],
    ).start as int) < cur.pages@.len()) by {
        let n = upto.len() + j;
        assert(spec_chain_items(orig.pages@, b)[j] == orig.pages@[b].items@[j]);
        assert(spec_chain_items(orig.pages@, s)[n] == orig.pages@[b].items@[j]);
        assert(spec_record_kind(spec_chain_items(orig.pages@, s)[n]) == RecordKind::Dir);
        assert(entries[n] == spec_dir_record(spec_chain_items(orig.pages@, s)[n]));
        assert(spec_path_parses(entries[n].path@));
        assert(orig.dir_entry_wf(entries[n]));
    }
}

/// Links alone determine a chain's block list.
proof fn lemma_chain_frame_next_only(p1: Seq<crate::store::Page>, p2: Seq<crate::store::Page>, b: int)
    requires
        0 <= b < p1.len(),
        p1.len() == p2.len(),
        forall|x: int|
            #[trigger] spec_chain_blocks(p1, b).contains(x) ==> (p1[x].next
                != INVALID_BLOCK_NUMBER ==> x < p1[x].next < p1.len()),
        forall|x: int| #[trigger] spec_chain_blocks(p1, b).contains(x) ==> p2[x].next == p1[x].next,
    ensures
        spec_chain_blocks(p2, b) == spec_chain_blocks(p1, b),
    decreases p1.len() - b,
{
    let c = spec_chain_blocks(p1, b);
    assert(c[0] == b);
    assert(c.contains(b));
    let nxt = p1[b].next as int;
    if p1[b].next != INVALID_BLOCK_NUMBER {
        assert(b < nxt < p1.len());
        let ctail = spec_chain_blocks(p1, nxt);
        assert(c == seq![b] + ctail);
        assert forall|x: int| #[trigger] ctail.contains(x) implies c.contains(x) by {
            let j = choose|j: int| 0 <= j < ctail.len() && ctail[j] == x;
            assert(c[j + 1] == x);
        }
        lemma_chain_frame_next_only(p1, p2, nxt);
        assert(spec_chain_blocks(p2, b) == seq![b] + spec_chain_blocks(p2, nxt));
    } else {
        assert(spec_chain_blocks(p2, b) == seq![b]);
    }
}

/// The records before a chain's last block, plus that block's records,
/// are the whole chain.
proof fn lemma_chain_upto_extend_local(orig: BlockStore, s: int, b: int)
    requires
        orig.links_wf(),
        0 <= s < orig.pages@.len(),
        spec_chain_blocks(orig.pages@, s).contains(b),
        orig.pages@[b].next != INVALID_BLOCK_NUMBER,
    ensures
        crate::store::spec_chain_items_upto(orig.pages@, s, orig.pages@[b].next as int)
            == crate::store::spec_chain_items_upto(orig.pages@, s, b) + orig.pages@[b].items@,
{
    lemma_chain_blocks_bounds(orig.pages@, s);
    assert(orig.block_wf(b));
    assert forall|x: int| #[trigger]
        spec_chain_blocks(orig.pages@, s).contains(x) implies (orig.pages@[x].next
        != INVALID_BLOCK_NUMBER ==> x < orig.pages@[x].next < orig.pages@.len()) by {
        assert(orig.block_wf(x));
    }
    crate::chain::lemma_chain_upto_extend(orig.pages@, s, b);
}

} // verus!
