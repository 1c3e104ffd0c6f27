//! The linked chain store's write path: appending records to a typed
//! chain, allocating and linking a fresh page when the last one is full.
//!
//! Appending is the only way a chain ever grows, and it always grows at
//! the tail; every proof that a mutation leaves other chains alone goes
//! through the disjointness and framing lemmas of the chain module.

use vstd::prelude::*;

use crate::block::DIRECTORY_START;
use crate::block::INVALID_BLOCK_NUMBER;
use crate::chain::lemma_chain_blocks_bounds;
use crate::chain::lemma_chain_decompose;
use crate::chain::lemma_chain_extend;
use crate::chain::lemma_chain_frame;
use crate::chain::lemma_chain_member_next;
use crate::chain::lemma_chain_update_items;
use crate::chain::lemma_chains_disjoint;
use crate::store::record_size;
use crate::store::spec_chain_blocks;
use crate::store::spec_chain_items;
use crate::store::spec_chain_items_upto;
use crate::store::spec_chain_kinded;
use crate::store::spec_chain_preserved;
use crate::store::spec_dir_record;
use crate::store::spec_is_component_start;
use crate::store::spec_preserves_headers;
use crate::store::spec_preserves_other_chains;
use crate::store::spec_record_allowed;
use crate::store::spec_record_kind;
use crate::store::spec_record_size;
use crate::store::spec_records_size;
use crate::store::BlockStore;
use crate::store::Page;
use crate::store::Record;
use crate::store::RecordKind;
use crate::store::PAGE_CAPACITY;

verus! {

/// One more record extends a prefix sum by that record's width.
pub proof fn lemma_records_size_take_succ(items: Seq<Record>, i: int)
    requires
        0 <= i < items.len(),
    ensures
        spec_records_size(items.take(i + 1)) == spec_records_size(items.take(i))
            + spec_record_size(items[i]),
{
    assert(items.take(i + 1).drop_last() =~= items.take(i));
    assert(items.take(i + 1).last() == items[i]);
}

/// A prefix of a page's records never outweighs the whole page.
pub proof fn lemma_records_size_take_le(items: Seq<Record>, i: int)
    requires
        0 <= i <= items.len(),
    ensures
        spec_records_size(items.take(i)) <= spec_records_size(items),
    decreases items.len() - i,
{
    if i == items.len() {
        assert(items.take(i) =~= items);
    } else {
        lemma_records_size_take_succ(items, i);
        lemma_records_size_take_le(items, i + 1);
    }
}

/// Pushing a record adds exactly its width.
pub proof fn lemma_records_size_push(items: Seq<Record>, r: Record)
    ensures
        spec_records_size(items.push(r)) == spec_records_size(items) + spec_record_size(r),
{
    assert(items.push(r).drop_last() =~= items);
    assert(items.push(r).last() == r);
}

/// Bytes of page payload used by a slotted record area.
pub fn page_used(items: &Vec<Record>) -> (u: u64)
    requires
        spec_records_size(items@) <= PAGE_CAPACITY,
    ensures
        u == spec_records_size(items@),
{
    let mut u: u64 = 0;
    let mut i: usize = 0;
    proof {
        assert(items@.take(0) =~= Seq::<Record>::empty());
    }
    while i < items.len()
        invariant
            0 <= i <= items@.len(),
            u == spec_records_size(items@.take(i as int)),
            spec_records_size(items@) <= PAGE_CAPACITY,
        decreases items@.len() - i,
    {
        proof {
            lemma_records_size_take_succ(items@, i as int);
            lemma_records_size_take_le(items@, i as int + 1);
        }
        u = u + record_size(&items[i]);
        i = i + 1;
    }
    proof {
        assert(items@.take(items@.len() as int) =~= items@);
    }
    u
}

impl BlockStore {
    /// The last block of the chain starting at `start`.
    pub fn find_tail(&self, start: u32) -> (t: u32)
        requires
            self.links_wf(),
            (start as int) < self.pages@.len(),
        ensures
            spec_chain_blocks(self.pages@, start as int).contains(t as int),
            self.pages@[t as int].next == INVALID_BLOCK_NUMBER,
    {
        let mut b = start;
        proof {
            lemma_chain_blocks_bounds(self.pages@, start as int);
            assert(spec_chain_blocks(self.pages@, start as int)[0] == start as int);
            assert(spec_chain_blocks(self.pages@, start as int).contains(start as int));
        }
        while self.pages[b as usize].next != INVALID_BLOCK_NUMBER
            invariant
                self.links_wf(),
                (start as int) < self.pages@.len(),
                (b as int) < self.pages@.len(),
                spec_chain_blocks(self.pages@, start as int).contains(b as int),
            decreases self.pages@.len() - b,
        {
            proof {
                assert(self.block_wf(b as int));
                lemma_chain_member_next(self.pages@, start as int, b as int);
            }
            b = self.pages[b as usize].next;
        }
        b
    }

    /// Append one record at the tail of the chain starting at `start`,
    /// allocating and linking a fresh page if the tail page is full.
    /// Every other chain is left untouched.
    pub(crate) fn append_record(&mut self, start: u32, r: Record)
        requires
            old(self).wf(),
            (start as int) < old(self).pages@.len(),
            old(self).pages@.len() < INVALID_BLOCK_NUMBER,
            old(self).pages@[start as int].head,
            spec_record_size(r) <= PAGE_CAPACITY,
            spec_record_allowed(*old(self), start as int, r),
        ensures
            final(self).wf(),
            final(self).need_wal == old(self).need_wal,
            final(self).pages@.len() <= old(self).pages@.len() + 1,
            spec_chain_items(final(self).pages@, start as int) == spec_chain_items(
                old(self).pages@,
                start as int,
            ).push(r),
            spec_preserves_other_chains(*old(self), *final(self), start as int),
            spec_preserves_headers(*old(self), *final(self)),
            forall|b: int|
                0 <= b < old(self).pages@.len() ==> (#[trigger] final(self).pages@[b].deleted)
                    == old(self).pages@[b].deleted,
            forall|b: int|
                old(self).pages@.len() <= b < final(self).pages@.len() ==> !(#[trigger] final(self).pages@[b].deleted),
    {
        let ghost pre = *self;
        let t = self.find_tail(start);
        proof {
            lemma_chain_blocks_bounds(pre.pages@, start as int);
            let c = spec_chain_blocks(pre.pages@, start as int);
            let ci = choose|ci: int| 0 <= ci < c.len() && c[ci] == t as int;
            assert((t as int) < pre.pages@.len());
            assert(pre.block_wf(t as int));
        }
        let used = page_used(&self.pages[t as usize].items);
        let sz = record_size(&r);
        if used + sz <= PAGE_CAPACITY {
            self.pages[t as usize].items.push(r);
            proof {
                let p1 = pre.pages@;
                let p2 = self.pages@;
                assert(p2 =~= p1.update(t as int, p2[t as int]));
                assert(p2[t as int].items@ == p1[t as int].items@.push(r));
                lemma_records_size_push(p1[t as int].items@, r);
                // structural soundness
                assert forall|b: int| 0 <= b < p2.len() implies self.block_wf(b) by {
                    assert(pre.block_wf(b));
                }
                assert(self.links_wf());
                // the chain at `start` gains exactly `r`
                assert forall|x: int| #[trigger]
                    spec_chain_blocks(p1, start as int).contains(x) implies (p1[x].next
                    != INVALID_BLOCK_NUMBER ==> x < p1[x].next < p1.len()) by {
                    lemma_chain_blocks_bounds(p1, start as int);
                    assert(pre.block_wf(x));
                }
                lemma_chain_update_items(p1, p2, start as int, t as int);
                assert(spec_chain_items(p1, t as int) == p1[t as int].items@);
                lemma_chain_decompose(p1, start as int, t as int);
                let upto = spec_chain_items_upto(p1, start as int, t as int);
                assert(spec_chain_items(p1, start as int) == upto + p1[t as int].items@);
                assert(spec_chain_items(p1, start as int).skip(
                    upto.len() + p1[t as int].items@.len() as int,
                ) =~= Seq::<Record>::empty());
                assert(spec_chain_items(p2, start as int) =~= spec_chain_items(
                    p1,
                    start as int,
                ).push(r));
                // other chains untouched
                assert forall|h: int|
                    0 <= h < p1.len() && p1[h].head && h != start as int implies #[trigger]
                    spec_chain_preserved(pre, *self, h) by {
                    lemma_chains_disjoint(pre, h, start as int);
                    lemma_chain_blocks_bounds(p1, h);
                    assert forall|x: int| #[trigger]
                        spec_chain_blocks(p1, h).contains(x) implies (p1[x].next
                        != INVALID_BLOCK_NUMBER ==> x < p1[x].next < p1.len()) && p2[x] == p1[x] by {
                        assert(pre.block_wf(x));
                        assert(!spec_chain_blocks(p1, start as int).contains(x) ==> x != t as int);
                    }
                    lemma_chain_frame(p1, p2, h);
                }
                assert(spec_preserves_headers(pre, *self));
                lemma_wf_after_chain_push(pre, *self, start as int, r);
            }
        } else {
            let nb_usize = self.pages.len();
            let nb = nb_usize as u32;
            self.pages.push(
                Page { next: INVALID_BLOCK_NUMBER, head: false, deleted: false, items: Vec::new() },
            );
            self.pages[t as usize].next = nb;
            let ghost mid = *self;
            proof {
                let p1 = pre.pages@;
                let pm = mid.pages@;
                assert(pm.len() == p1.len() + 1);
                assert(pm[nb as int].items@.len() == 0);
                assert forall|x: int| #[trigger]
                    spec_chain_blocks(p1, start as int).contains(x) implies (p1[x].next
                    != INVALID_BLOCK_NUMBER ==> x < p1[x].next < p1.len()) by {
                    lemma_chain_blocks_bounds(p1, start as int);
                    assert(pre.block_wf(x));
                }
                lemma_chain_extend(p1, pm, start as int, t as int);
            }
            self.pages[nb as usize].items.push(r);
            proof {
                let p1 = pre.pages@;
                let pm = mid.pages@;
                let p2 = self.pages@;
                assert(p2 =~= pm.update(nb as int, p2[nb as int]));
                assert(p2[nb as int].items@ =~= seq![r]);
                // structural soundness of the final state
                assert forall|b: int| 0 <= b < p2.len() implies self.block_wf(b) by {
                    if b < p1.len() {
                        assert(pre.block_wf(b));
                        if b == t as int {
                            assert(p2[b].next == nb);
                            assert(!p2[nb as int].head);
                        }
                    } else {
                        assert(b == nb as int);
                        assert(spec_records_size(p2[b].items@) == spec_record_size(r)) by {
                            lemma_records_size_push(Seq::<Record>::empty(), r);
                            assert(Seq::<Record>::empty().push(r) =~= p2[b].items@);
                        }
                    }
                }
                assert(self.links_injective()) by {
                    assert forall|b1: int, b2: int|
                        0 <= b1 < p2.len() && 0 <= b2 < p2.len() && p2[b1].next
                            != INVALID_BLOCK_NUMBER && #[trigger] p2[b1].next == #[trigger] p2[b2].next
                        implies b1 == b2 by {
                        if p2[b1].next == nb {
                            if b1 < p1.len() && b1 != t as int {
                                assert(pre.block_wf(b1));
                            }
                            if b2 < p1.len() && b2 != t as int {
                                assert(pre.block_wf(b2));
                            }
                        } else {
                            if b1 < p1.len() && b2 < p1.len() {
                                assert(pre.links_injective());
                                assert(b1 != t as int && b2 != t as int);
                                assert(pre.pages@[b1].next == p2[b1].next);
                                assert(pre.pages@[b2].next == p2[b2].next);
                            }
                        }
                    }
                }
                assert(self.links_wf());
                // the chain at `start` gains exactly `r`
                assert(spec_chain_blocks(pm, start as int) == spec_chain_blocks(p1, start as int)
                    + seq![nb as int]);
                assert(spec_chain_blocks(pm, start as int).contains(nb as int)) by {
                    let c = spec_chain_blocks(pm, start as int);
                    assert(c[c.len() - 1] == nb as int);
                }
                assert forall|x: int| #[trigger]
                    spec_chain_blocks(pm, start as int).contains(x) implies (pm[x].next
                    != INVALID_BLOCK_NUMBER ==> x < pm[x].next < pm.len()) by {
                    lemma_chain_blocks_bounds(pm, start as int);
                    assert(mid.block_wf(x)) by {
                        if x < p1.len() {
                            if x != t as int {
                                assert(pre.block_wf(x));
                            }
                        }
                    }
                }
                lemma_chain_update_items(pm, p2, start as int, nb as int);
                assert(spec_chain_items(pm, nb as int) == pm[nb as int].items@);
                lemma_chain_decompose(pm, start as int, nb as int);
                let upto = spec_chain_items_upto(pm, start as int, nb as int);
                assert(spec_chain_items(pm, start as int) =~= upto);
                assert(spec_chain_items(pm, start as int).skip(
                    upto.len() + pm[nb as int].items@.len() as int,
                ) =~= Seq::<Record>::empty());
                assert(spec_chain_items(p2, start as int) =~= upto + seq![r]);
                assert(spec_chain_items(p2, start as int) =~= spec_chain_items(
                    p1,
                    start as int,
                ).push(r));
                // other chains untouched
                assert forall|h: int|
                    0 <= h < p1.len() && p1[h].head && h != start as int implies #[trigger]
                    spec_chain_preserved(pre, *self, h) by {
                    lemma_chains_disjoint(pre, h, start as int);
                    lemma_chain_blocks_bounds(p1, h);
                    assert forall|x: int| #[trigger]
                        spec_chain_blocks(p1, h).contains(x) implies (p1[x].next
                        != INVALID_BLOCK_NUMBER ==> x < p1[x].next < p1.len()) && p2[x] == p1[x] by {
                        assert(pre.block_wf(x));
                        assert(!spec_chain_blocks(p1, start as int).contains(x));
                        assert(x != t as int && x != nb as int);
                    }
                    lemma_chain_frame(p1, p2, h);
                }
                assert(spec_preserves_headers(pre, *self));
                lemma_wf_after_chain_push(pre, *self, start as int, r);
            }
        }
    }
}

impl BlockStore {
    /// Allocate a fresh page that heads a new, empty chain — the first
    /// step of persisting a new segment component file.  Every existing
    /// chain is untouched.
    pub fn allocate_chain(&mut self) -> (r: u32)
        requires
            old(self).wf(),
            old(self).pages@.len() < INVALID_BLOCK_NUMBER,
        ensures
            final(self).wf(),
            final(self).need_wal == old(self).need_wal,
            r as int == old(self).pages@.len(),
            final(self).pages@.len() == old(self).pages@.len() + 1,
            forall|b: int|
                0 <= b < old(self).pages@.len() ==> (#[trigger] final(self).pages@[b]) == old(
                    self,
                ).pages@[b],
            final(self).pages@[r as int].head,
            final(self).pages@[r as int].next == INVALID_BLOCK_NUMBER,
            final(self).pages@[r as int].items@.len() == 0,
            !final(self).pages@[r as int].deleted,
            crate::block::FIRST_FREE_BLOCK <= r,
            spec_chain_items(final(self).pages@, r as int) =~= Seq::<Record>::empty(),
            forall|h: int|
                0 <= h < old(self).pages@.len() && old(self).pages@[h].head
                    ==> #[trigger] spec_chain_preserved(*old(self), *final(self), h),
    {
        let ghost pre = *self;
        let r = self.pages.len() as u32;
        self.pages.push(
            Page { next: INVALID_BLOCK_NUMBER, head: true, deleted: false, items: Vec::new() },
        );
        proof {
            let p1 = pre.pages@;
            let p2 = self.pages@;
            assert forall|b: int| 0 <= b < p2.len() implies self.block_wf(b) by {
                if b < p1.len() {
                    assert(pre.block_wf(b));
                } else {
                    assert(spec_records_size(p2[b].items@) == 0);
                }
            }
            assert(self.links_injective()) by {
                assert(pre.links_injective());
                assert(forall|b: int|
                    0 <= b < p1.len() ==> (#[trigger] p2[b].next) == p1[b].next);
            }
            assert(self.links_wf());
            assert forall|h: int|
                0 <= h < p1.len() && p1[h].head implies #[trigger] spec_chain_preserved(
                pre,
                *self,
                h,
            ) by {
                lemma_chain_blocks_bounds(p1, h);
                assert forall|x: int| #[trigger]
                    spec_chain_blocks(p1, h).contains(x) implies (p1[x].next
                    != INVALID_BLOCK_NUMBER ==> x < p1[x].next < p1.len()) && p2[x] == p1[x] by {
                    assert(pre.block_wf(x));
                }
                lemma_chain_frame(p1, p2, h);
            }
            assert(spec_chain_preserved(pre, *self, DIRECTORY_START as int));
            assert(self.dir_items() == pre.dir_items());
            assert forall|i: int| 0 <= i < self.dir_items().len() implies self.dir_entry_wf(
                spec_dir_record(#[trigger] self.dir_items()[i]),
            ) by {
                let e = spec_dir_record(pre.dir_items()[i]);
                assert(pre.dir_entry_wf(e));
                assert(spec_chain_preserved(pre, *self, e.start as int));
            }
            assert(spec_chain_preserved(pre, *self, crate::block::SEGMENT_METAS_START as int));
            assert(spec_chain_preserved(pre, *self, crate::block::DELETE_METAS_START as int));
            assert(spec_chain_preserved(pre, *self, crate::block::SCHEMA_START as int));
            assert(spec_chain_preserved(pre, *self, crate::block::SETTINGS_START as int));
            assert(self.wf());
            assert(spec_chain_items(self.pages@, r as int) =~= Seq::<Record>::empty());
        }
        r
    }

    /// Append one directory entry: a new logical segment-file path mapped
    /// to the byte-stream chain that already stores the file.
    pub fn add_directory_entry(&mut self, entry: crate::block::DirectoryEntry)
        requires
            old(self).wf(),
            old(self).dir_entry_wf(entry),
            old(self).pages@.len() < INVALID_BLOCK_NUMBER,
            spec_record_size(Record::Dir(entry)) <= PAGE_CAPACITY,
        ensures
            final(self).wf(),
            final(self).need_wal == old(self).need_wal,
            final(self).dir_entries() == old(self).dir_entries().push(entry),
            spec_preserves_other_chains(*old(self), *final(self), DIRECTORY_START as int),
            spec_preserves_headers(*old(self), *final(self)),
            forall|b: int|
                0 <= b < old(self).pages@.len() ==> (#[trigger] final(self).pages@[b].deleted)
                    == old(self).pages@[b].deleted,
            forall|b: int|
                old(self).pages@.len() <= b < final(self).pages@.len() ==> !(#[trigger] final(self).pages@[b].deleted),
    {
        let ghost pre = *self;
        self.append_record(DIRECTORY_START, Record::Dir(entry));
        proof {
            assert(self.dir_entries() =~= pre.dir_entries().push(entry));
        }
    }
}

/// Once the structure is sound and the chain at `start` grew by one
/// permitted record while every other chain stood still, the whole store
/// is well formed again.
proof fn lemma_wf_after_chain_push(pre: BlockStore, post: BlockStore, start: int, r: Record)
    requires
        pre.wf(),
        0 <= start < pre.pages@.len(),
        pre.pages@[start].head,
        spec_record_allowed(pre, start, r),
        post.links_wf(),
        spec_preserves_headers(pre, post),
        spec_preserves_other_chains(pre, post, start),
        spec_chain_items(post.pages@, start) == spec_chain_items(pre.pages@, start).push(r),
    ensures
        post.wf(),
{
    let roots: Seq<int> = seq![
        crate::block::DIRECTORY_START as int,
        crate::block::SEGMENT_METAS_START as int,
        crate::block::DELETE_METAS_START as int,
        crate::block::SCHEMA_START as int,
        crate::block::SETTINGS_START as int,
    ];
    // each root chain stays typed
    assert forall|k: int| 0 <= k < 5 implies spec_chain_kinded(
        post.pages@,
        roots[k],
        spec_root_kind(roots[k]),
    ) by {
        let c = roots[k];
        if c == start {
            lemma_chain_kinded_push(pre, post, c, spec_root_kind(c), r);
        } else {
            assert(spec_chain_preserved(pre, post, c));
        }
    }
    assert(spec_chain_kinded(post.pages@, crate::block::DIRECTORY_START as int, RecordKind::Dir));
    assert(spec_chain_kinded(
        post.pages@,
        crate::block::SEGMENT_METAS_START as int,
        RecordKind::SegMeta,
    ));
    assert(spec_chain_kinded(
        post.pages@,
        crate::block::DELETE_METAS_START as int,
        RecordKind::DelMeta,
    ));
    assert(spec_chain_kinded(post.pages@, crate::block::SCHEMA_START as int, RecordKind::Bytes));
    assert(spec_chain_kinded(post.pages@, crate::block::SETTINGS_START as int, RecordKind::Bytes));
    // every directory entry still points at a sound byte-stream chain
    assert forall|i: int| 0 <= i < post.dir_items().len() implies post.dir_entry_wf(
        spec_dir_record(#[trigger] post.dir_items()[i]),
    ) by {
        let e = spec_dir_record(post.dir_items()[i]);
        if start == DIRECTORY_START as int {
            if i < pre.dir_items().len() {
                assert(post.dir_items()[i] == pre.dir_items()[i]);
                assert(pre.dir_entry_wf(e));
            } else {
                assert(post.dir_items()[i] == r);
                assert(pre.dir_entry_wf(e));
            }
            // the directory chain itself never backs a component file:
            // component starts lie at or past FIRST_FREE_BLOCK
            assert(e.start as int != start);
            lemma_dir_entry_wf_preserved(pre, post, start, r, e);
        } else {
            assert(spec_chain_preserved(pre, post, DIRECTORY_START as int));
            assert(post.dir_items() == pre.dir_items());
            assert(pre.dir_entry_wf(spec_dir_record(pre.dir_items()[i])));
            if e.start as int == start {
                assert(spec_is_component_start(pre, start)) by {
                    assert(0 <= i < pre.dir_items().len() && spec_dir_record(
                        pre.dir_items()[i],
                    ).start as int == start);
                }
            }
            lemma_dir_entry_wf_preserved(pre, post, start, r, e);
        }
    }
}

/// The record kind a well-known root chain holds.
pub open spec fn spec_root_kind(root: int) -> RecordKind {
    if root == crate::block::DIRECTORY_START as int {
        RecordKind::Dir
    } else if root == crate::block::SEGMENT_METAS_START as int {
        RecordKind::SegMeta
    } else if root == crate::block::DELETE_METAS_START as int {
        RecordKind::DelMeta
    } else {
        RecordKind::Bytes
    }
}

/// A typed chain that receives one record of its own kind stays typed.
proof fn lemma_chain_kinded_push(pre: BlockStore, post: BlockStore, c: int, k: RecordKind, r: Record)
    requires
        spec_chain_kinded(pre.pages@, c, k),
        spec_record_kind(r) == k,
        spec_chain_items(post.pages@, c) == spec_chain_items(pre.pages@, c).push(r),
    ensures
        spec_chain_kinded(post.pages@, c, k),
{
    let pres = spec_chain_items(pre.pages@, c);
    let posts = spec_chain_items(post.pages@, c);
    assert forall|i: int| 0 <= i < posts.len() implies spec_record_kind(#[trigger] posts[i]) == k by {
        if i < pres.len() {
            assert(posts[i] == pres[i]);
        } else {
            assert(posts[i] == r);
        }
    }
}

/// A directory entry stays sound across a push that only touched the
/// chain at `start`, because its component chain is either untouched or
/// the very chain that received a byte-stream record.
proof fn lemma_dir_entry_wf_preserved(
    pre: BlockStore,
    post: BlockStore,
    start: int,
    r: Record,
    e: crate::block::DirectoryEntry,
)
    requires
        pre.wf(),
        0 <= start < pre.pages@.len(),
        spec_record_allowed(pre, start, r),
        spec_preserves_headers(pre, post),
        spec_preserves_other_chains(pre, post, start),
        spec_chain_items(post.pages@, start) == spec_chain_items(pre.pages@, start).push(r),
        pre.dir_entry_wf(e),
        e.start as int == start ==> spec_is_component_start(pre, start),
    ensures
        post.dir_entry_wf(e),
{
    let es = e.start as int;
    assert(post.pages@[es].head);
    if es == start {
        assert(r is Bytes);
        lemma_chain_kinded_push(pre, post, es, RecordKind::Bytes, r);
    } else {
        assert(spec_chain_preserved(pre, post, es));
    }
}

} // verus!
