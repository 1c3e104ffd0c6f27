//! Segment and delete metadata: append-only records versioned by
//! transaction id and opstamp, and the snapshot assembler that folds them
//! into one consistent index view.
//!
//! A commit appends segment entries for the segments it created and
//! delete entries for the deleted-document counts it changed.  A reader
//! walks the delete chain keeping the highest-opstamp count per segment,
//! then walks the segment chain keeping every entry its snapshot may
//! observe, and reads the schema and settings byte streams; the assembled
//! opstamp is the highest opstamp among everything included.

use vstd::prelude::*;

use crate::block::DeleteMeta;
use crate::block::DeleteMetaEntry;
use crate::block::SegmentId;
use crate::block::SegmentMetaEntry;
use crate::block::Snapshot;
use crate::block::StoreError;
use crate::block::DELETE_METAS_START;
use crate::block::INVALID_BLOCK_NUMBER;
use crate::block::INVALID_TRANSACTION_ID;
use crate::block::SCHEMA_START;
use crate::block::SEGMENT_METAS_START;
use crate::block::SETTINGS_START;
use crate::chain::lemma_chain_blocks_bounds;
use crate::chain::lemma_chain_decompose;
use crate::chain::lemma_chain_member_next;
use crate::chain::lemma_chain_upto_extend;
use crate::store::spec_chain_blocks;
use crate::store::spec_chain_items;
use crate::store::spec_chain_items_upto;
use crate::store::spec_chain_preserved;
use crate::store::spec_del_record;
use crate::store::spec_preserves_headers;
use crate::store::spec_preserves_other_chains;
use crate::store::spec_record_kind;
use crate::store::spec_seg_record;
use crate::store::BlockStore;
use crate::store::Record;
use crate::store::RecordKind;

verus! {

/// A segment handle with its folded delete metadata attached, as handed
/// to a reader or produced by a writer's commit.
#[derive(Clone, Copy, PartialEq, Eq, Structural, Debug)]
pub struct SegmentMeta {
    pub segment_id: SegmentId,
    pub max_doc: u32,
    pub deletes: Option<DeleteMeta>,
}

/// The assembled, ephemeral view of a whole index: schema and settings as
/// opaque serialized blobs, the visible segments, and the highest opstamp
/// among everything included.  Never persisted as such.
pub struct IndexMeta {
    pub schema: Vec<u8>,
    pub settings: Vec<u8>,
    pub segments: Vec<SegmentMeta>,
    pub opstamp: u64,
}

impl SegmentMeta {
    /// A sound handle never counts more deleted documents than it has.
    pub open spec fn spec_wf(self) -> bool {
        match self.deletes {
            Some(d) => d.num_deleted_docs <= self.max_doc,
            None => true,
        }
    }

    /// Number of deleted documents, zero when no delete metadata exists.
    pub open spec fn spec_num_deleted_docs(self) -> u32 {
        match self.deletes {
            Some(d) => d.num_deleted_docs,
            None => 0,
        }
    }

    /// Number of live documents.
    pub open spec fn spec_num_docs(self) -> int {
        self.max_doc - self.spec_num_deleted_docs()
    }

    /// Opstamp of the latest delete operation, if any.
    pub open spec fn spec_delete_opstamp(self) -> Option<u64> {
        match self.deletes {
            Some(d) => Some(d.opstamp),
            None => None,
        }
    }

    /// Runtime count of deleted documents.
    pub fn num_deleted_docs(&self) -> (r: u32)
        ensures
            r == self.spec_num_deleted_docs(),
    {
        match self.deletes {
            Some(d) => d.num_deleted_docs,
            None => 0,
        }
    }

    /// Runtime count of live documents.
    pub fn num_docs(&self) -> (r: u32)
        requires
            self.spec_wf(),
        ensures
            r == self.spec_num_docs(),
    {
        self.max_doc - self.num_deleted_docs()
    }

    /// Runtime opstamp of the latest delete operation.
    pub fn delete_opstamp(&self) -> (r: Option<u64>)
        ensures
            r == self.spec_delete_opstamp(),
    {
        match self.deletes {
            Some(d) => Some(d.opstamp),
            None => None,
        }
    }
}

impl IndexMeta {
    /// Every segment handle of the view is sound.
    pub open spec fn spec_wf(self) -> bool {
        forall|i: int| 0 <= i < self.segments@.len() ==> (#[trigger] self.segments@[i]).spec_wf()
    }
}

/// Some id of `ids` equals `id`.
pub open spec fn spec_contains_id(ids: Seq<SegmentId>, id: SegmentId) -> bool {
    exists|i: int| 0 <= i < ids.len() && ids[i] == id
}

/// Some segment of `segs` carries `id`.
pub open spec fn spec_has_segment(segs: Seq<SegmentMeta>, id: SegmentId) -> bool {
    exists|i: int| 0 <= i < segs.len() && (#[trigger] segs[i]).segment_id == id
}

/// A segment id is obsolete after a commit when the new view holds it
/// with zero live documents (emptied by the merge) or the previous view
/// holds it and the new one does not (consumed as merge input).
pub open spec fn spec_obsolete(new: Seq<SegmentMeta>, previous: Seq<SegmentMeta>, id: SegmentId) -> bool {
    ||| exists|i: int|
        0 <= i < new.len() && (#[trigger] new[i]).segment_id == id && new[i].spec_num_docs() == 0
    ||| (spec_has_segment(previous, id) && !spec_has_segment(new, id))
}

/// Whether some id of `ids` equals `id`, at runtime.
pub fn contains_id(ids: &Vec<SegmentId>, id: SegmentId) -> (r: bool)
    ensures
        r == spec_contains_id(ids@, id),
{
    let mut i: usize = 0;
    while i < ids.len()
        invariant
            i <= ids@.len(),
            forall|k: int| 0 <= k < i ==> ids@[k] != id,
        decreases ids@.len() - i,
    {
        if ids[i] == id {
            return true;
        }
        i = i + 1;
    }
    false
}

/// Whether some segment of `segs` carries `id`, at runtime.
pub fn has_segment(segs: &Vec<SegmentMeta>, id: SegmentId) -> (r: bool)
    ensures
        r == spec_has_segment(segs@, id),
{
    let mut i: usize = 0;
    while i < segs.len()
        invariant
            i <= segs@.len(),
            forall|k: int| 0 <= k < i ==> (#[trigger] segs@[k]).segment_id != id,
        decreases segs@.len() - i,
    {
        if segs[i].segment_id == id {
            return true;
        }
        i = i + 1;
    }
    false
}

/// The segment ids made obsolete by a commit: exactly those that
/// [`spec_obsolete`] names, each once.
pub fn get_deleted_ids(meta: &IndexMeta, previous_meta: &IndexMeta) -> (r: Vec<SegmentId>)
    requires
        meta.spec_wf(),
    ensures
        forall|id: SegmentId|
            #[trigger] spec_contains_id(r@, id) == spec_obsolete(
                meta.segments@,
                previous_meta.segments@,
                id,
            ),
        forall|i: int, j: int| 0 <= i < j < r@.len() ==> r@[i] != r@[j],
{
    let mut r: Vec<SegmentId> = Vec::new();
    let mut i: usize = 0;
    while i < meta.segments.len()
        invariant
            meta.spec_wf(),
            i <= meta.segments@.len(),
            forall|id: SegmentId|
                #[trigger] spec_contains_id(r@, id) == exists|k: int|
                    0 <= k < i && (#[trigger] meta.segments@[k]).segment_id == id
                        && meta.segments@[k].spec_num_docs() == 0,
            forall|k1: int, k2: int| 0 <= k1 < k2 < r@.len() ==> r@[k1] != r@[k2],
        decreases meta.segments@.len() - i,
    {
        let s = &meta.segments[i];
        proof {
            assert(meta.segments@[i as int].spec_wf());
        }
        if s.num_docs() == 0 && !contains_id(&r, s.segment_id) {
            let ghost r0 = r@;
            r.push(s.segment_id);
            proof {
                assert forall|id: SegmentId| #[trigger]
                    spec_contains_id(r@, id) == (exists|k: int|
                        0 <= k < i + 1 && (#[trigger] meta.segments@[k]).segment_id == id
                            && meta.segments@[k].spec_num_docs() == 0) by {
                    if spec_contains_id(r@, id) {
                        let j = choose|j: int| 0 <= j < r@.len() && r@[j] == id;
                        if j < r0.len() {
                            assert(spec_contains_id(r0, id));
                        } else {
                            assert(id == meta.segments@[i as int].segment_id);
                        }
                    }
                    if exists|k: int|
                        0 <= k < i + 1 && (#[trigger] meta.segments@[k]).segment_id == id
                            && meta.segments@[k].spec_num_docs() == 0 {
                        let k = choose|k: int|
                            0 <= k < i + 1 && (#[trigger] meta.segments@[k]).segment_id == id
                                && meta.segments@[k].spec_num_docs() == 0;
                        if k < i {
                            assert(spec_contains_id(r0, id));
                            let j = choose|j: int| 0 <= j < r0.len() && r0[j] == id;
                            assert(r@[j] == id);
                        } else {
                            assert(r@[r0.len() as int] == id);
                        }
                    }
                }
            }
        } else {
            proof {
                assert forall|id: SegmentId| #[trigger]
                    spec_contains_id(r@, id) == (exists|k: int|
                        0 <= k < i + 1 && (#[trigger] meta.segments@[k]).segment_id == id
                            && meta.segments@[k].spec_num_docs() == 0) by {
                    if exists|k: int|
                        0 <= k < i + 1 && (#[trigger] meta.segments@[k]).segment_id == id
                            && meta.segments@[k].spec_num_docs() == 0 {
                        let k = choose|k: int|
                            0 <= k < i + 1 && (#[trigger] meta.segments@[k]).segment_id == id
                                && meta.segments@[k].spec_num_docs() == 0;
                        if k == i {
                            assert(meta.segments@[i as int].spec_num_docs() == 0);
                            assert(spec_contains_id(r@, id));
                        }
                    }
                }
            }
        }
        i = i + 1;
    }
    let ghost empties = r@;
    let mut p: usize = 0;
    while p < previous_meta.segments.len()
        invariant
            i == meta.segments@.len(),
            p <= previous_meta.segments@.len(),
            forall|id: SegmentId|
                #[trigger] spec_contains_id(empties, id) == (exists|k: int|
                    0 <= k < meta.segments@.len() && (#[trigger] meta.segments@[k]).segment_id == id
                        && meta.segments@[k].spec_num_docs() == 0),
            forall|id: SegmentId|
                #[trigger] spec_contains_id(r@, id) == (spec_contains_id(empties, id) || exists|
                    k: int,
                |
                    0 <= k < p && (#[trigger] previous_meta.segments@[k]).segment_id == id
                        && !spec_has_segment(meta.segments@, id)),
            forall|k1: int, k2: int| 0 <= k1 < k2 < r@.len() ==> r@[k1] != r@[k2],
        decreases previous_meta.segments@.len() - p,
    {
        let s = &previous_meta.segments[p];
        if !has_segment(&meta.segments, s.segment_id) && !contains_id(&r, s.segment_id) {
            let ghost r0 = r@;
            r.push(s.segment_id);
            proof {
                assert forall|id: SegmentId| #[trigger]
                    spec_contains_id(r@, id) == (spec_contains_id(empties, id) || exists|k: int|
                        0 <= k < p + 1 && (#[trigger] previous_meta.segments@[k]).segment_id == id
                            && !spec_has_segment(meta.segments@, id)) by {
                    if spec_contains_id(r@, id) {
                        let j = choose|j: int| 0 <= j < r@.len() && r@[j] == id;
                        if j < r0.len() {
                            assert(spec_contains_id(r0, id));
                        } else {
                            assert(id == previous_meta.segments@[p as int].segment_id);
                        }
                    } else {
                        assert(!spec_contains_id(r0, id)) by {
                            if spec_contains_id(r0, id) {
                                let j = choose|j: int| 0 <= j < r0.len() && r0[j] == id;
                                assert(r@[j] == id);
                            }
                        }
                    }
                    if spec_contains_id(empties, id) || (exists|k: int|
                        0 <= k < p + 1 && (#[trigger] previous_meta.segments@[k]).segment_id == id
                            && !spec_has_segment(meta.segments@, id)) {
                        if spec_contains_id(empties, id) || (exists|k: int|
                            0 <= k < p && (#[trigger] previous_meta.segments@[k]).segment_id == id
                                && !spec_has_segment(meta.segments@, id)) {
                            assert(spec_contains_id(r0, id));
                            let j = choose|j: int| 0 <= j < r0.len() && r0[j] == id;
                            assert(r@[j] == id);
                        } else {
                            let k = choose|k: int|
                                0 <= k < p + 1 && (#[trigger] previous_meta.segments@[k]).segment_id
                                    == id && !spec_has_segment(meta.segments@, id);
                            assert(k == p);
                            assert(r@[r0.len() as int] == id);
                        }
                    }
                }
            }
        } else {
            proof {
                assert forall|id: SegmentId| #[trigger]
                    spec_contains_id(r@, id) == (spec_contains_id(empties, id) || exists|k: int|
                        0 <= k < p + 1 && (#[trigger] previous_meta.segments@[k]).segment_id == id
                            && !spec_has_segment(meta.segments@, id)) by {
                    if spec_contains_id(empties, id) || (exists|k: int|
                        0 <= k < p + 1 && (#[trigger] previous_meta.segments@[k]).segment_id == id
                            && !spec_has_segment(meta.segments@, id)) {
                        if !(spec_contains_id(empties, id) || (exists|k: int|
                            0 <= k < p && (#[trigger] previous_meta.segments@[k]).segment_id == id
                                && !spec_has_segment(meta.segments@, id))) {
                            let k = choose|k: int|
                                0 <= k < p + 1 && (#[trigger] previous_meta.segments@[k]).segment_id
                                    == id && !spec_has_segment(meta.segments@, id);
                            assert(k == p);
                            assert(id == previous_meta.segments@[p as int].segment_id);
                            assert(spec_contains_id(r@, id));
                        }
                    }
                }
            }
        }
        p = p + 1;
    }
    proof {
        assert forall|id: SegmentId| #[trigger]
            spec_contains_id(r@, id) == spec_obsolete(
            meta.segments@,
            previous_meta.segments@,
            id,
        ) by {
            if spec_obsolete(meta.segments@, previous_meta.segments@, id) {
                if spec_has_segment(previous_meta.segments@, id) && !spec_has_segment(
                    meta.segments@,
                    id,
                ) {
                    let k = choose|k: int|
                        0 <= k < previous_meta.segments@.len() && (
                        #[trigger] previous_meta.segments@[k]).segment_id == id;
                    assert(spec_contains_id(r@, id));
                }
            }
        }
    }
    r
}

/// The segment metadata entries a commit appends: one per segment of the
/// new view that the previous view lacks and that still holds documents.
pub open spec fn spec_new_segment_entries(
    segs: Seq<SegmentMeta>,
    previous: Seq<SegmentMeta>,
    xmin: u64,
    opstamp: u64,
) -> Seq<SegmentMetaEntry> {
    segs.filter(
        |s: SegmentMeta| !spec_has_segment(previous, s.segment_id) && s.spec_num_docs() > 0,
    ).map_values(
        |s: SegmentMeta| SegmentMetaEntry {
            segment_id: s.segment_id,
            max_doc: s.max_doc,
            opstamp,
            xmin,
            xmax: INVALID_TRANSACTION_ID,
        },
    )
}

/// The delete metadata entries a commit appends: one per segment whose
/// deleted-document count changed in this very commit.
pub open spec fn spec_new_delete_entries(segs: Seq<SegmentMeta>, opstamp: u64) -> Seq<
    DeleteMetaEntry,
> {
    segs.filter(|s: SegmentMeta| s.spec_delete_opstamp() == Some(opstamp)).map_values(
        |s: SegmentMeta| DeleteMetaEntry {
            segment_id: s.segment_id,
            num_deleted_docs: s.spec_num_deleted_docs(),
            opstamp,
            xmax: INVALID_TRANSACTION_ID,
        },
    )
}

/// Append one segment metadata entry per newly committed segment:
/// a segment of `meta` absent from `previous_meta` and not emptied, with
/// `xmin` the committing transaction and no tombstone.
pub fn save_new_metas(
    store: &mut BlockStore,
    meta: &IndexMeta,
    previous_meta: &IndexMeta,
    xmin: u64,
    opstamp: u64,
)
    requires
        old(store).wf(),
        meta.spec_wf(),
        old(store).pages@.len() + meta.segments@.len() <= INVALID_BLOCK_NUMBER,
    ensures
        final(store).wf(),
        final(store).need_wal == old(store).need_wal,
        final(store).pages@.len() <= old(store).pages@.len() + meta.segments@.len(),
        final(store).segment_meta_entries() == old(store).segment_meta_entries()
            + spec_new_segment_entries(meta.segments@, previous_meta.segments@, xmin, opstamp),
        spec_preserves_other_chains(*old(store), *final(store), SEGMENT_METAS_START as int),
        spec_preserves_headers(*old(store), *final(store)),
        forall|b: int|
            0 <= b < old(store).pages@.len() ==> (#[trigger] final(store).pages@[b].deleted)
                == old(store).pages@[b].deleted,
        forall|b: int|
            old(store).pages@.len() <= b < final(store).pages@.len()
                ==> !(#[trigger] final(store).pages@[b].deleted),
{
    let ghost orig = *store;
    let ghost pred = |s: SegmentMeta|
        !spec_has_segment(previous_meta.segments@, s.segment_id) && s.spec_num_docs() > 0;
    let ghost mk = |s: SegmentMeta|
        SegmentMetaEntry {
            segment_id: s.segment_id,
            max_doc: s.max_doc,
            opstamp,
            xmin,
            xmax: INVALID_TRANSACTION_ID,
        };
    let mut i: usize = 0;
    proof {
        assert(meta.segments@.take(0) =~= Seq::<SegmentMeta>::empty());
        assert(meta.segments@.take(0).filter(pred).map_values(mk) =~= Seq::<
            SegmentMetaEntry,
        >::empty());
        assert(store.segment_meta_entries() =~= orig.segment_meta_entries()
            + meta.segments@.take(0).filter(pred).map_values(mk));
    }
    while i < meta.segments.len()
        invariant
            store.wf(),
            store.need_wal == orig.need_wal,
            meta.spec_wf(),
            i <= meta.segments@.len(),
            store.pages@.len() + (meta.segments@.len() - i) <= INVALID_BLOCK_NUMBER,
            store.pages@.len() <= orig.pages@.len() + i,
            forall|b: int|
                0 <= b < orig.pages@.len() ==> (#[trigger] store.pages@[b].deleted)
                    == orig.pages@[b].deleted,
            forall|b: int|
                orig.pages@.len() <= b < store.pages@.len()
                    ==> !(#[trigger] store.pages@[b].deleted),
            pred == (|s: SegmentMeta|
                !spec_has_segment(previous_meta.segments@, s.segment_id) && s.spec_num_docs() > 0),
            mk == (|s: SegmentMeta|
                SegmentMetaEntry {
                    segment_id: s.segment_id,
                    max_doc: s.max_doc,
                    opstamp,
                    xmin,
                    xmax: INVALID_TRANSACTION_ID,
                }),
            store.segment_meta_entries() == orig.segment_meta_entries() + meta.segments@.take(
                i as int,
            ).filter(pred).map_values(mk),
            spec_preserves_other_chains(orig, *store, SEGMENT_METAS_START as int),
            spec_preserves_headers(orig, *store),
        decreases meta.segments@.len() - i,
    {
        let ghost pre = *store;
        let s = &meta.segments[i];
        proof {
            assert(meta.segments@[i as int].spec_wf());
            assert(meta.segments@.take(i as int + 1).drop_last() =~= meta.segments@.take(i as int));
            assert(meta.segments@.take(i as int + 1).last() == meta.segments@[i as int]);
            reveal_with_fuel(Seq::filter, 2);
        }
        if !has_segment(&previous_meta.segments, s.segment_id) && s.num_docs() > 0 {
            let entry = SegmentMetaEntry {
                segment_id: s.segment_id,
                max_doc: s.max_doc,
                opstamp,
                xmin,
                xmax: INVALID_TRANSACTION_ID,
            };
            store.append_record(SEGMENT_METAS_START, Record::SegMeta(entry));
            proof {
                lemma_typed_chain_push_seg(pre, *store, entry);
                assert(entry == mk(meta.segments@[i as int]));
                assert(meta.segments@.take(i as int + 1).filter(pred) =~= meta.segments@.take(
                    i as int,
                ).filter(pred).push(meta.segments@[i as int]));
                assert(store.segment_meta_entries() =~= orig.segment_meta_entries()
                    + meta.segments@.take(i as int + 1).filter(pred).map_values(mk));
                lemma_compose_frames(orig, pre, *store, SEGMENT_METAS_START as int);
            }
        } else {
            proof {
                assert(meta.segments@.take(i as int + 1).filter(pred) =~= meta.segments@.take(
                    i as int,
                ).filter(pred));
                assert(store.segment_meta_entries() =~= orig.segment_meta_entries()
                    + meta.segments@.take(i as int + 1).filter(pred).map_values(mk));
            }
        }
        i = i + 1;
    }
    proof {
        assert(meta.segments@.take(meta.segments@.len() as int) =~= meta.segments@);
    }
}

/// Append one delete metadata entry per segment whose deleted-document
/// count was produced by the commit stamped `opstamp`.
pub fn save_delete_metas(store: &mut BlockStore, meta: &IndexMeta, opstamp: u64)
    requires
        old(store).wf(),
        old(store).pages@.len() + meta.segments@.len() <= INVALID_BLOCK_NUMBER,
    ensures
        final(store).wf(),
        final(store).need_wal == old(store).need_wal,
        final(store).pages@.len() <= old(store).pages@.len() + meta.segments@.len(),
        final(store).delete_meta_entries() == old(store).delete_meta_entries()
            + spec_new_delete_entries(meta.segments@, opstamp),
        spec_preserves_other_chains(*old(store), *final(store), DELETE_METAS_START as int),
        spec_preserves_headers(*old(store), *final(store)),
        forall|b: int|
            0 <= b < old(store).pages@.len() ==> (#[trigger] final(store).pages@[b].deleted)
                == old(store).pages@[b].deleted,
        forall|b: int|
            old(store).pages@.len() <= b < final(store).pages@.len()
                ==> !(#[trigger] final(store).pages@[b].deleted),
{
    let ghost orig = *store;
    let ghost pred = |s: SegmentMeta| s.spec_delete_opstamp() == Some(opstamp);
    let ghost mk = |s: SegmentMeta|
        DeleteMetaEntry {
            segment_id: s.segment_id,
            num_deleted_docs: s.spec_num_deleted_docs(),
            opstamp,
            xmax: INVALID_TRANSACTION_ID,
        };
    let mut i: usize = 0;
    proof {
        assert(meta.segments@.take(0) =~= Seq::<SegmentMeta>::empty());
        assert(meta.segments@.take(0).filter(pred).map_values(mk) =~= Seq::<
            DeleteMetaEntry,
        >::empty());
        assert(store.delete_meta_entries() =~= orig.delete_meta_entries() + meta.segments@.take(
            0,
        ).filter(pred).map_values(mk));
    }
    while i < meta.segments.len()
        invariant
            store.wf(),
            store.need_wal == orig.need_wal,
            i <= meta.segments@.len(),
            store.pages@.len() + (meta.segments@.len() - i) <= INVALID_BLOCK_NUMBER,
            store.pages@.len() <= orig.pages@.len() + i,
            forall|b: int|
                0 <= b < orig.pages@.len() ==> (#[trigger] store.pages@[b].deleted)
                    == orig.pages@[b].deleted,
            forall|b: int|
                orig.pages@.len() <= b < store.pages@.len()
                    ==> !(#[trigger] store.pages@[b].deleted),
            pred == (|s: SegmentMeta| s.spec_delete_opstamp() == Some(opstamp)),
            mk == (|s: SegmentMeta|
                DeleteMetaEntry {
                    segment_id: s.segment_id,
                    num_deleted_docs: s.spec_num_deleted_docs(),
                    opstamp,
                    xmax: INVALID_TRANSACTION_ID,
                }),
            store.delete_meta_entries() == orig.delete_meta_entries() + meta.segments@.take(
                i as int,
            ).filter(pred).map_values(mk),
            spec_preserves_other_chains(orig, *store, DELETE_METAS_START as int),
            spec_preserves_headers(orig, *store),
        decreases meta.segments@.len() - i,
    {
        let ghost pre = *store;
        let s = &meta.segments[i];
        proof {
            assert(meta.segments@.take(i as int + 1).drop_last() =~= meta.segments@.take(i as int));
            assert(meta.segments@.take(i as int + 1).last() == meta.segments@[i as int]);
            reveal_with_fuel(Seq::filter, 2);
        }
        let matches_opstamp = match s.delete_opstamp() {
            Some(d) => d == opstamp,
            None => false,
        };
        if matches_opstamp {
            let entry = DeleteMetaEntry {
                segment_id: s.segment_id,
                num_deleted_docs: s.num_deleted_docs(),
                opstamp,
                xmax: INVALID_TRANSACTION_ID,
            };
            store.append_record(DELETE_METAS_START, Record::DelMeta(entry));
            proof {
                lemma_typed_chain_push_del(pre, *store, entry);
                assert(entry == mk(meta.segments@[i as int]));
                assert(meta.segments@.take(i as int + 1).filter(pred) =~= meta.segments@.take(
                    i as int,
                ).filter(pred).push(meta.segments@[i as int]));
                assert(store.delete_meta_entries() =~= orig.delete_meta_entries()
                    + meta.segments@.take(i as int + 1).filter(pred).map_values(mk));
                lemma_compose_frames(orig, pre, *store, DELETE_METAS_START as int);
            }
        } else {
            proof {
                assert(meta.segments@.take(i as int + 1).filter(pred) =~= meta.segments@.take(
                    i as int,
                ).filter(pred));
                assert(store.delete_meta_entries() =~= orig.delete_meta_entries()
                    + meta.segments@.take(i as int + 1).filter(pred).map_values(mk));
            }
        }
        i = i + 1;
    }
    proof {
        assert(meta.segments@.take(meta.segments@.len() as int) =~= meta.segments@);
    }
}

/// The winning delete metadata for a segment: the entry with the highest
/// opstamp among all delete entries for that segment, the earliest such
/// entry winning ties.
pub open spec fn spec_latest_delete(dels: Seq<DeleteMetaEntry>, id: SegmentId) -> Option<DeleteMeta>
    decreases dels.len(),
{
    if dels.len() == 0 {
        None
    } else {
        let prev = spec_latest_delete(dels.drop_last(), id);
        let e = dels.last();
        if e.segment_id == id {
            match prev {
                None => Some(DeleteMeta { num_deleted_docs: e.num_deleted_docs, opstamp: e.opstamp }),
                Some(d) => if e.opstamp > d.opstamp {
                    Some(DeleteMeta { num_deleted_docs: e.num_deleted_docs, opstamp: e.opstamp })
                } else {
                    Some(d)
                },
            }
        } else {
            prev
        }
    }
}

/// A snapshot includes a segment entry when the entry is visible to it,
/// or — in the garbage collector's relaxed mode — whenever the entry is
/// not yet safely reclaimable, so that no concurrent reader loses a
/// segment it still needs.
pub open spec fn spec_included(e: SegmentMetaEntry, snapshot: Snapshot, solve_mvcc: bool) -> bool {
    e.spec_visible(snapshot) || (!solve_mvcc && !e.spec_recyclable(snapshot))
}

/// A segment entry with its folded delete metadata attached.
pub open spec fn spec_attach_deletes(e: SegmentMetaEntry, dels: Seq<DeleteMetaEntry>) -> SegmentMeta {
    SegmentMeta {
        segment_id: e.segment_id,
        max_doc: e.max_doc,
        deletes: spec_latest_delete(dels, e.segment_id),
    }
}

/// The segments an assembly returns: exactly the included entries, in
/// chain order, with their delete metadata.
pub open spec fn spec_assembled_segments(
    segs: Seq<SegmentMetaEntry>,
    dels: Seq<DeleteMetaEntry>,
    snapshot: Snapshot,
    solve_mvcc: bool,
) -> Seq<SegmentMeta> {
    segs.filter(|e: SegmentMetaEntry| spec_included(e, snapshot, solve_mvcc)).map_values(
        |e: SegmentMetaEntry| spec_attach_deletes(e, dels),
    )
}

/// Opstamp of the winning delete metadata for a segment, zero without
/// one.
pub open spec fn spec_delete_opstamp_of(dels: Seq<DeleteMetaEntry>, id: SegmentId) -> u64 {
    match spec_latest_delete(dels, id) {
        Some(d) => d.opstamp,
        None => 0,
    }
}

/// The assembled opstamp: the highest opstamp among the included segment
/// entries and their winning delete entries.
pub open spec fn spec_assembled_opstamp(
    included: Seq<SegmentMetaEntry>,
    dels: Seq<DeleteMetaEntry>,
) -> u64
    decreases included.len(),
{
    if included.len() == 0 {
        0
    } else {
        let prev = spec_assembled_opstamp(included.drop_last(), dels);
        let e = included.last();
        let with_seg = if e.opstamp > prev {
            e.opstamp
        } else {
            prev
        };
        let dop = spec_delete_opstamp_of(dels, e.segment_id);
        if dop > with_seg {
            dop
        } else {
            with_seg
        }
    }
}

impl BlockStore {
    /// All segment metadata entries, in chain order.
    pub fn collect_segment_entries(&self) -> (r: Vec<SegmentMetaEntry>)
        requires
            self.wf(),
        ensures
            r@ == self.segment_meta_entries(),
    {
        let ghost pages = self.pages@;
        let ghost s = SEGMENT_METAS_START as int;
        let ghost entries = self.segment_meta_entries();
        let mut r: Vec<SegmentMetaEntry> = Vec::new();
        let mut b: u32 = SEGMENT_METAS_START;
        proof {
            lemma_chain_blocks_bounds(pages, s);
            assert(spec_chain_blocks(pages, s)[0] == s);
            assert(spec_chain_blocks(pages, s).contains(s));
            assert(spec_chain_items_upto(pages, s, s) =~= Seq::<Record>::empty());
            assert(r@ =~= spec_chain_items_upto(pages, s, s).map_values(
                |rec: Record| spec_seg_record(rec),
            ));
        }
        loop
            invariant
                self.wf(),
                pages == self.pages@,
                s == SEGMENT_METAS_START as int,
                entries == self.segment_meta_entries(),
                (b as int) < pages.len(),
                spec_chain_blocks(pages, s).contains(b as int),
                r@ == spec_chain_items_upto(pages, s, b as int).map_values(
                    |rec: Record| spec_seg_record(rec),
                ),
            decreases pages.len() - b,
        {
            let ghost before = spec_chain_items_upto(pages, s, b as int);
            let ghost f = |rec: Record| spec_seg_record(rec);
            proof {
                lemma_chain_decompose(pages, s, b as int);
            }
            let n_items = self.pages[b as usize].items.len();
            let mut j: usize = 0;
            while j < n_items
                invariant
                    self.wf(),
                    pages == self.pages@,
                    s == SEGMENT_METAS_START as int,
                    (b as int) < pages.len(),
                    spec_chain_blocks(pages, s).contains(b as int),
                    before == spec_chain_items_upto(pages, s, b as int),
                    spec_chain_items(pages, s) == before + spec_chain_items(pages, b as int),
                    n_items == pages[b as int].items@.len(),
                    j <= n_items,
                    f == (|rec: Record| spec_seg_record(rec)),
                    r@ == (before + pages[b as int].items@.take(j as int)).map_values(f),
                decreases n_items - j,
            {
                let ghost n = before.len() + j;
                proof {
                    assert(spec_chain_items(pages, b as int)[j as int] == pages[b as int].items@[j as int]);
                    assert(spec_chain_items(pages, s)[n as int] == pages[b as int].items@[j as int]);
                    assert(spec_record_kind(spec_chain_items(pages, s)[n as int])
                        == RecordKind::SegMeta);
                }
                match &self.pages[b as usize].items[j] {
                    Record::SegMeta(e) => {
                        r.push(*e);
                        proof {
                            let pre_items = before + pages[b as int].items@.take(j as int);
                            let post_items = before + pages[b as int].items@.take(j as int + 1);
                            assert(post_items =~= pre_items.push(pages[b as int].items@[j as int]));
                            assert(r@ =~= post_items.map_values(f));
                        }
                    },
                    _ => {
                        proof {
                            assert(false);
                        }
                    },
                }
                j = j + 1;
            }
            proof {
                assert(pages[b as int].items@.take(n_items as int) =~= pages[b as int].items@);
            }
            if self.pages[b as usize].next == INVALID_BLOCK_NUMBER {
                proof {
                    assert(spec_chain_items(pages, b as int) == pages[b as int].items@);
                    assert(r@ =~= spec_chain_items(pages, s).map_values(
                        |rec: Record| spec_seg_record(rec),
                    ));
                }
                return r;
            }
            proof {
                assert(self.block_wf(b as int));
                assert forall|x: int| #[trigger]
                    spec_chain_blocks(pages, s).contains(x) implies (pages[x].next
                    != INVALID_BLOCK_NUMBER ==> x < pages[x].next < pages.len()) by {
                    lemma_chain_blocks_bounds(pages, s);
                    assert(self.block_wf(x));
                }
                lemma_chain_upto_extend(pages, s, b as int);
                lemma_chain_member_next(pages, s, b as int);
            }
            b = self.pages[b as usize].next;
        }
    }

    /// All delete metadata entries, in chain order.
    pub fn collect_delete_entries(&self) -> (r: Vec<DeleteMetaEntry>)
        requires
            self.wf(),
        ensures
            r@ == self.delete_meta_entries(),
    {
        let ghost pages = self.pages@;
        let ghost s = DELETE_METAS_START as int;
        let mut r: Vec<DeleteMetaEntry> = Vec::new();
        let mut b: u32 = DELETE_METAS_START;
        proof {
            lemma_chain_blocks_bounds(pages, s);
            assert(spec_chain_blocks(pages, s)[0] == s);
            assert(spec_chain_blocks(pages, s).contains(s));
            assert(spec_chain_items_upto(pages, s, s) =~= Seq::<Record>::empty());
            assert(r@ =~= spec_chain_items_upto(pages, s, s).map_values(
                |rec: Record| spec_del_record(rec),
            ));
        }
        loop
            invariant
                self.wf(),
                pages == self.pages@,
                s == DELETE_METAS_START as int,
                (b as int) < pages.len(),
                spec_chain_blocks(pages, s).contains(b as int),
                r@ == spec_chain_items_upto(pages, s, b as int).map_values(
                    |rec: Record| spec_del_record(rec),
                ),
            decreases pages.len() - b,
        {
            let ghost before = spec_chain_items_upto(pages, s, b as int);
            let ghost f = |rec: Record| spec_del_record(rec);
            proof {
                lemma_chain_decompose(pages, s, b as int);
            }
            let n_items = self.pages[b as usize].items.len();
            let mut j: usize = 0;
            while j < n_items
                invariant
                    self.wf(),
                    pages == self.pages@,
                    s == DELETE_METAS_START as int,
                    (b as int) < pages.len(),
                    spec_chain_blocks(pages, s).contains(b as int),
                    before == spec_chain_items_upto(pages, s, b as int),
                    spec_chain_items(pages, s) == before + spec_chain_items(pages, b as int),
                    n_items == pages[b as int].items@.len(),
                    j <= n_items,
                    f == (|rec: Record| spec_del_record(rec)),
                    r@ == (before + pages[b as int].items@.take(j as int)).map_values(f),
                decreases n_items - j,
            {
                let ghost n = before.len() + j;
                proof {
                    assert(spec_chain_items(pages, b as int)[j as int] == pages[b as int].items@[j as int]);
                    assert(spec_chain_items(pages, s)[n as int] == pages[b as int].items@[j as int]);
                    assert(spec_record_kind(spec_chain_items(pages, s)[n as int])
                        == RecordKind::DelMeta);
                }
                match &self.pages[b as usize].items[j] {
                    Record::DelMeta(e) => {
                        r.push(*e);
                        proof {
                            let pre_items = before + pages[b as int].items@.take(j as int);
                            let post_items = before + pages[b as int].items@.take(j as int + 1);
                            assert(post_items =~= pre_items.push(pages[b as int].items@[j as int]));
                            assert(r@ =~= post_items.map_values(f));
                        }
                    },
                    _ => {
                        proof {
                            assert(false);
                        }
                    },
                }
                j = j + 1;
            }
            proof {
                assert(pages[b as int].items@.take(n_items as int) =~= pages[b as int].items@);
            }
            if self.pages[b as usize].next == INVALID_BLOCK_NUMBER {
                proof {
                    assert(spec_chain_items(pages, b as int) == pages[b as int].items@);
                    assert(r@ =~= spec_chain_items(pages, s).map_values(
                        |rec: Record| spec_del_record(rec),
                    ));
                }
                return r;
            }
            proof {
                assert(self.block_wf(b as int));
                assert forall|x: int| #[trigger]
                    spec_chain_blocks(pages, s).contains(x) implies (pages[x].next
                    != INVALID_BLOCK_NUMBER ==> x < pages[x].next < pages.len()) by {
                    lemma_chain_blocks_bounds(pages, s);
                    assert(self.block_wf(x));
                }
                lemma_chain_upto_extend(pages, s, b as int);
                lemma_chain_member_next(pages, s, b as int);
            }
            b = self.pages[b as usize].next;
        }
    }
}

/// The winning delete metadata for one segment, folded left to right as
/// the chain is walked.
pub fn latest_delete_for(dels: &Vec<DeleteMetaEntry>, id: SegmentId) -> (r: Option<DeleteMeta>)
    ensures
        r == spec_latest_delete(dels@, id),
{
    let mut acc: Option<DeleteMeta> = None;
    let mut i: usize = 0;
    proof {
        assert(dels@.take(0) =~= Seq::<DeleteMetaEntry>::empty());
    }
    while i < dels.len()
        invariant
            i <= dels@.len(),
            acc == spec_latest_delete(dels@.take(i as int), id),
        decreases dels@.len() - i,
    {
        let e = dels[i];
        proof {
            assert(dels@.take(i as int + 1).drop_last() =~= dels@.take(i as int));
            assert(dels@.take(i as int + 1).last() == dels@[i as int]);
        }
        if e.segment_id == id {
            let replace = match acc {
                None => true,
                Some(d) => e.opstamp > d.opstamp,
            };
            if replace {
                acc = Some(DeleteMeta { num_deleted_docs: e.num_deleted_docs, opstamp: e.opstamp });
            }
        }
        i = i + 1;
    }
    proof {
        assert(dels@.take(dels@.len() as int) =~= dels@);
    }
    acc
}

/// Assemble the consistent index view a snapshot may observe: the delete
/// chain folded per segment, the segment chain filtered by the MVCC rule
/// (or, for the garbage collector with `solve_mvcc` off, keeping every
/// entry not yet safely reclaimable), and the schema and settings byte
/// streams read whole.  An index whose schema or settings stream is still
/// empty cannot be decoded and is reported, never guessed at.
pub fn load_metas(store: &BlockStore, snapshot: Snapshot, solve_mvcc: bool) -> (r: Result<
    IndexMeta,
    StoreError,
>)
    requires
        store.wf(),
    ensures
        (r is Ok) == (store.chain_bytes(SCHEMA_START as int).len() > 0 && store.chain_bytes(
            SETTINGS_START as int,
        ).len() > 0),
        r is Err ==> r == Err::<IndexMeta, StoreError>(StoreError::Serialization),
        r matches Ok(m) ==> {
            &&& m.schema@ == store.chain_bytes(SCHEMA_START as int)
            &&& m.settings@ == store.chain_bytes(SETTINGS_START as int)
            &&& m.segments@ == spec_assembled_segments(
                store.segment_meta_entries(),
                store.delete_meta_entries(),
                snapshot,
                solve_mvcc,
            )
            &&& m.opstamp == spec_assembled_opstamp(
                store.segment_meta_entries().filter(
                    |e: SegmentMetaEntry| spec_included(e, snapshot, solve_mvcc),
                ),
                store.delete_meta_entries(),
            )
        },
{
    let schema = store.read_all(SCHEMA_START);
    let settings = store.read_all(SETTINGS_START);
    if schema.len() == 0 || settings.len() == 0 {
        return Err(StoreError::Serialization);
    }
    let dels = store.collect_delete_entries();
    let segs = store.collect_segment_entries();
    let ghost pred = |e: SegmentMetaEntry| spec_included(e, snapshot, solve_mvcc);
    let mut alive: Vec<SegmentMeta> = Vec::new();
    let mut opstamp: u64 = 0;
    let mut i: usize = 0;
    proof {
        assert(segs@.take(0) =~= Seq::<SegmentMetaEntry>::empty());
        assert(segs@.take(0).filter(pred) =~= Seq::<SegmentMetaEntry>::empty());
        assert(alive@ =~= segs@.take(0).filter(pred).map_values(
            |e: SegmentMetaEntry| spec_attach_deletes(e, dels@),
        ));
    }
    while i < segs.len()
        invariant
            i <= segs@.len(),
            dels@ == store.delete_meta_entries(),
            segs@ == store.segment_meta_entries(),
            pred == (|e: SegmentMetaEntry| spec_included(e, snapshot, solve_mvcc)),
            alive@ == segs@.take(i as int).filter(pred).map_values(
                |e: SegmentMetaEntry| spec_attach_deletes(e, dels@),
            ),
            opstamp == spec_assembled_opstamp(segs@.take(i as int).filter(pred), dels@),
        decreases segs@.len() - i,
    {
        let e = segs[i];
        proof {
            assert(segs@.take(i as int + 1).drop_last() =~= segs@.take(i as int));
            assert(segs@.take(i as int + 1).last() == segs@[i as int]);
            reveal_with_fuel(Seq::filter, 2);
        }
        let keep = e.visible(snapshot) || (!solve_mvcc && !e.recyclable(snapshot));
        if keep {
            let deletes = latest_delete_for(&dels, e.segment_id);
            alive.push(SegmentMeta { segment_id: e.segment_id, max_doc: e.max_doc, deletes });
            if e.opstamp > opstamp {
                opstamp = e.opstamp;
            }
            let delete_opstamp = match deletes {
                Some(d) => d.opstamp,
                None => 0,
            };
            if delete_opstamp > opstamp {
                opstamp = delete_opstamp;
            }
            proof {
                let fpre = segs@.take(i as int).filter(pred);
                let fpost = segs@.take(i as int + 1).filter(pred);
                assert(fpost =~= fpre.push(segs@[i as int]));
                assert(fpost.drop_last() =~= fpre);
                assert(alive@ =~= fpost.map_values(
                    |e2: SegmentMetaEntry| spec_attach_deletes(e2, dels@),
                ));
                assert(opstamp == spec_assembled_opstamp(fpost, dels@));
            }
        } else {
            proof {
                assert(segs@.take(i as int + 1).filter(pred) =~= segs@.take(i as int).filter(pred));
            }
        }
        i = i + 1;
    }
    proof {
        assert(segs@.take(segs@.len() as int) =~= segs@);
    }
    Ok(IndexMeta { schema, settings, segments: alive, opstamp })
}

/// Persist the index schema, an opaque serialized blob, onto its
/// well-known chain — once: an already-written schema is never replaced.
pub fn save_schema(store: &mut BlockStore, schema: &Vec<u8>)
    requires
        old(store).wf(),
        old(store).pages@.len() + schema@.len() <= INVALID_BLOCK_NUMBER,
    ensures
        final(store).wf(),
        final(store).need_wal == old(store).need_wal,
        final(store).chain_bytes(SCHEMA_START as int) == crate::bytes::spec_write_once(
            spec_chain_items(old(store).pages@, SCHEMA_START as int).map_values(
                |r: Record| crate::store::spec_bytes_record(r),
            ),
            schema@,
        ).flatten(),
        spec_chain_items(old(store).pages@, SCHEMA_START as int).len() == 0 ==> final(store).chain_bytes(SCHEMA_START as int) == schema@,
        spec_chain_items(old(store).pages@, SCHEMA_START as int).len() != 0 ==> *final(store)
            == *old(store),
        final(store).pages@.len() <= old(store).pages@.len() + schema@.len(),
        spec_preserves_other_chains(*old(store), *final(store), SCHEMA_START as int),
        spec_preserves_headers(*old(store), *final(store)),
        forall|b: int|
            0 <= b < old(store).pages@.len() ==> (#[trigger] final(store).pages@[b].deleted)
                == old(store).pages@[b].deleted,
        forall|b: int|
            old(store).pages@.len() <= b < final(store).pages@.len()
                ==> !(#[trigger] final(store).pages@[b].deleted),
{
    let ghost pre = *store;
    store.write_bytes(SCHEMA_START, schema);
    proof {
        if spec_chain_items(pre.pages@, SCHEMA_START as int).len() == 0 {
            crate::bytes::lemma_chunks_flatten(schema@);
        }
    }
}

/// Persist the index settings, an opaque serialized blob, onto their
/// well-known chain — once, exactly as for the schema.
pub fn save_settings(store: &mut BlockStore, settings: &Vec<u8>)
    requires
        old(store).wf(),
        old(store).pages@.len() + settings@.len() <= INVALID_BLOCK_NUMBER,
    ensures
        final(store).wf(),
        final(store).need_wal == old(store).need_wal,
        final(store).chain_bytes(SETTINGS_START as int) == crate::bytes::spec_write_once(
            spec_chain_items(old(store).pages@, SETTINGS_START as int).map_values(
                |r: Record| crate::store::spec_bytes_record(r),
            ),
            settings@,
        ).flatten(),
        spec_chain_items(old(store).pages@, SETTINGS_START as int).len() == 0 ==> final(store).chain_bytes(SETTINGS_START as int) == settings@,
        spec_chain_items(old(store).pages@, SETTINGS_START as int).len() != 0 ==> *final(store)
            == *old(store),
        final(store).pages@.len() <= old(store).pages@.len() + settings@.len(),
        spec_preserves_other_chains(*old(store), *final(store), SETTINGS_START as int),
        spec_preserves_headers(*old(store), *final(store)),
        forall|b: int|
            0 <= b < old(store).pages@.len() ==> (#[trigger] final(store).pages@[b].deleted)
                == old(store).pages@[b].deleted,
        forall|b: int|
            old(store).pages@.len() <= b < final(store).pages@.len()
                ==> !(#[trigger] final(store).pages@[b].deleted),
{
    let ghost pre = *store;
    store.write_bytes(SETTINGS_START, settings);
    proof {
        if spec_chain_items(pre.pages@, SETTINGS_START as int).len() == 0 {
            crate::bytes::lemma_chunks_flatten(settings@);
        }
    }
}

/// One writer commit's garbage collection, around the metadata chains:
/// compute the segments made obsolete by the commit, durably append the
/// new segment and delete entries first, and only then tombstone every
/// chain for the obsolete set — so a crash in between never leaves live
/// data without a valid segment.  Physical reclamation stays a separate,
/// deferred pass.
pub fn garbage_collect(
    store: &mut BlockStore,
    meta: &IndexMeta,
    previous_meta: &IndexMeta,
    opstamp: u64,
    committing_txn: u64,
) -> (deleted_ids: Vec<SegmentId>)
    requires
        old(store).wf(),
        meta.spec_wf(),
        old(store).pages@.len() + 2 * meta.segments@.len() <= INVALID_BLOCK_NUMBER,
        forall|i: int|
            0 <= i < old(store).dir_entries().len() ==> crate::path::spec_path_parses(
                (#[trigger] old(store).dir_entries()[i]).path@,
            ),
    ensures
        final(store).wf(),
        final(store).need_wal == old(store).need_wal,
        forall|id: SegmentId|
            #[trigger] spec_contains_id(deleted_ids@, id) == spec_obsolete(
                meta.segments@,
                previous_meta.segments@,
                id,
            ),
        final(store).segment_meta_entries() == crate::tombstone::spec_tombstone_seg(
            old(store).segment_meta_entries() + spec_new_segment_entries(
                meta.segments@,
                previous_meta.segments@,
                committing_txn,
                opstamp,
            ),
            deleted_ids@,
            committing_txn,
        ),
        final(store).delete_meta_entries() == crate::tombstone::spec_tombstone_del(
            old(store).delete_meta_entries() + spec_new_delete_entries(meta.segments@, opstamp),
            deleted_ids@,
            committing_txn,
        ),
        final(store).dir_entries() == crate::tombstone::spec_tombstone_dir(
            old(store).dir_entries(),
            deleted_ids@,
            committing_txn,
        ),
        spec_chain_preserved(*old(store), *final(store), SCHEMA_START as int),
        spec_chain_preserved(*old(store), *final(store), SETTINGS_START as int),
        spec_preserves_headers(*old(store), *final(store)),
        forall|i: int, j: int| 0 <= i < j < deleted_ids@.len() ==> deleted_ids@[i] != deleted_ids@[j],
        forall|x: int|
            0 <= x < old(store).pages@.len() && (#[trigger] final(store).pages@[x].deleted)
                && !old(store).pages@[x].deleted ==> crate::tombstone::spec_on_obsolete_component(
                *old(store),
                old(store).dir_entries(),
                deleted_ids@,
                x,
            ),
{
    let ghost st0 = *store;
    let deleted_ids = get_deleted_ids(meta, previous_meta);
    save_new_metas(store, meta, previous_meta, committing_txn, opstamp);
    let ghost st1 = *store;
    save_delete_metas(store, meta, opstamp);
    let ghost st2 = *store;
    store.delete_unused_metas(&deleted_ids, committing_txn);
    let ghost st3 = *store;
    store.delete_unused_delete_metas(&deleted_ids, committing_txn);
    let ghost st4 = *store;
    proof {
        // the directory chain and its paths are exactly as they were
        assert(spec_chain_preserved(st0, st1, crate::block::DIRECTORY_START as int));
        assert(spec_chain_preserved(st1, st2, crate::block::DIRECTORY_START as int));
        assert(spec_chain_preserved(st2, st3, crate::block::DIRECTORY_START as int));
        assert(spec_chain_preserved(st3, st4, crate::block::DIRECTORY_START as int));
        assert(st4.dir_entries() == st0.dir_entries());
    }
    store.delete_unused_directory_entries(&deleted_ids, committing_txn);
    proof {
        let s_seg = SEGMENT_METAS_START as int;
        let s_del = DELETE_METAS_START as int;
        let s_dir = crate::block::DIRECTORY_START as int;
        let s_sch = SCHEMA_START as int;
        let s_set = SETTINGS_START as int;
        // segment chain: appended by the first step, rewritten by the
        // third, untouched elsewhere
        assert(spec_chain_preserved(st1, st2, s_seg));
        assert(st2.segment_meta_entries() == st0.segment_meta_entries()
            + spec_new_segment_entries(
            meta.segments@,
            previous_meta.segments@,
            committing_txn,
            opstamp,
        ));
        assert(spec_chain_preserved(st3, st4, s_seg));
        assert(spec_chain_preserved(st4, *store, s_seg));
        // delete chain: appended by the second step, rewritten by the
        // fourth
        assert(spec_chain_preserved(st0, st1, s_del));
        assert(st2.delete_meta_entries() == st0.delete_meta_entries() + spec_new_delete_entries(
            meta.segments@,
            opstamp,
        ));
        assert(spec_chain_preserved(st2, st3, s_del));
        assert(spec_chain_preserved(st4, *store, s_del));
        // schema and settings: untouched throughout
        assert(spec_chain_preserved(st0, st1, s_sch));
        assert(spec_chain_preserved(st1, st2, s_sch));
        assert(spec_chain_preserved(st2, st3, s_sch));
        assert(spec_chain_preserved(st3, st4, s_sch));
        assert(spec_chain_preserved(st4, *store, s_sch));
        assert(spec_chain_preserved(st0, st1, s_set));
        assert(spec_chain_preserved(st1, st2, s_set));
        assert(spec_chain_preserved(st2, st3, s_set));
        assert(spec_chain_preserved(st3, st4, s_set));
        assert(spec_chain_preserved(st4, *store, s_set));
        // a reclamation flag raised by the commit lies on the backing
        // chain of some obsolete entry; the appends and the two metadata
        // passes never touch a flag
        assert forall|x: int|
            0 <= x < st0.pages@.len() && (#[trigger] store.pages@[x].deleted)
                && !st0.pages@[x].deleted implies crate::tombstone::spec_on_obsolete_component(
            st0,
            st0.dir_entries(),
            deleted_ids@,
            x,
        ) by {
            assert(st1.pages@[x].deleted == st0.pages@[x].deleted);
            assert(st2.pages@[x].deleted == st1.pages@[x].deleted);
            assert(st3.pages@[x].deleted == st2.pages@[x].deleted);
            assert(st4.pages@[x].deleted == st3.pages@[x].deleted);
            assert(crate::tombstone::spec_on_obsolete_component(
                st4,
                st4.dir_entries(),
                deleted_ids@,
                x,
            ));
            let i = choose|i: int|
                0 <= i < st4.dir_entries().len() && crate::tombstone::spec_dir_matches(
                    #[trigger] st4.dir_entries()[i],
                    deleted_ids@,
                ) && spec_chain_blocks(
                    st4.pages@,
                    st4.dir_entries()[i].start as int,
                ).contains(x);
            assert(st4.dir_entries() == st0.dir_entries());
            let e = st0.dir_entries()[i];
            assert(st0.dir_entry_wf(crate::store::spec_dir_record(st0.dir_items()[i])));
            let es = e.start as int;
            // the component chain's block list never moved across the
            // appends and metadata passes
            assert(st1.pages@[es].head == st0.pages@[es].head);
            assert(spec_chain_preserved(st0, st1, es));
            assert(st2.pages@[es].head == st1.pages@[es].head);
            assert(spec_chain_preserved(st1, st2, es));
            assert(st3.pages@[es].head == st2.pages@[es].head);
            assert(spec_chain_preserved(st2, st3, es));
            assert(st4.pages@[es].head == st3.pages@[es].head);
            assert(spec_chain_preserved(st3, st4, es));
            assert(spec_chain_blocks(st4.pages@, es) == spec_chain_blocks(st0.pages@, es));
            assert(0 <= i < st0.dir_entries().len() && crate::tombstone::spec_dir_matches(
                st0.dir_entries()[i],
                deleted_ids@,
            ) && spec_chain_blocks(st0.pages@, st0.dir_entries()[i].start as int).contains(x));
        }
    }
    deleted_ids
}

/// Pushing a segment record extends the typed entry view by that entry.
proof fn lemma_typed_chain_push_seg(pre: BlockStore, post: BlockStore, entry: SegmentMetaEntry)
    requires
        spec_chain_items(post.pages@, SEGMENT_METAS_START as int) == spec_chain_items(
            pre.pages@,
            SEGMENT_METAS_START as int,
        ).push(Record::SegMeta(entry)),
    ensures
        post.segment_meta_entries() == pre.segment_meta_entries().push(entry),
{
    assert(post.segment_meta_entries() =~= pre.segment_meta_entries().push(entry));
}

/// Pushing a delete record extends the typed entry view by that entry.
proof fn lemma_typed_chain_push_del(pre: BlockStore, post: BlockStore, entry: DeleteMetaEntry)
    requires
        spec_chain_items(post.pages@, DELETE_METAS_START as int) == spec_chain_items(
            pre.pages@,
            DELETE_METAS_START as int,
        ).push(Record::DelMeta(entry)),
    ensures
        post.delete_meta_entries() == pre.delete_meta_entries().push(entry),
{
    assert(post.delete_meta_entries() =~= pre.delete_meta_entries().push(entry));
}

/// Chain preservation composes across two steps around one chain.
pub proof fn lemma_compose_frames(a: BlockStore, b: BlockStore, c: BlockStore, start: int)
    requires
        spec_preserves_other_chains(a, b, start),
        spec_preserves_other_chains(b, c, start),
        spec_preserves_headers(a, b),
        spec_preserves_headers(b, c),
    ensures
        spec_preserves_other_chains(a, c, start),
        spec_preserves_headers(a, c),
{
    assert forall|h: int|
        0 <= h < a.pages@.len() && a.pages@[h].head && h != start implies #[trigger] spec_chain_preserved(
        a,
        c,
        h,
    ) by {
        assert(spec_chain_preserved(a, b, h));
        assert(b.pages@[h].head == a.pages@[h].head);
        assert(spec_chain_preserved(b, c, h));
    }
    assert forall|x: int|
        0 <= x < a.pages@.len() && a.pages@[x].deleted implies (#[trigger] c.pages@[x].deleted) by {
        assert(b.pages@[x].deleted);
    }
    assert forall|x: int| 0 <= x < a.pages@.len() implies (#[trigger] c.pages@[x].head)
        == a.pages@[x].head by {
        assert(b.pages@[x].head == a.pages@[x].head);
    }
    assert forall|x: int| a.pages@.len() <= x < c.pages@.len() implies !(
    #[trigger] c.pages@[x].head) by {
        if x < b.pages@.len() {
            assert(b.pages@[x].head == false);
        }
    }
}

} // verus!
