//! Byte-stream chains: an opaque byte sequence stored as chunks across a
//! linked chain of pages.
//!
//! Writing is write-once: a chain that already holds anything is left
//! exactly as it is, which is sound only because a single writer owns
//! index construction.  Reading concatenates every chunk in chain order.
//! Marking a chain deleted flags each of its pages for the deferred
//! reclamation pass without touching any record.

use vstd::prelude::*;

use crate::block::DELETE_METAS_START;
use crate::block::DIRECTORY_START;
use crate::block::INVALID_BLOCK_NUMBER;
use crate::block::SEGMENT_METAS_START;
use crate::chain::lemma_chain_blocks_bounds;
use crate::chain::lemma_chain_decompose;
use crate::chain::lemma_chain_member_next;
use crate::chain::lemma_chain_upto_extend;
use crate::chain::lemma_chain_frame_fields;
use crate::chain::lemma_wf_fields_preserved;
use crate::store::spec_bytes_record;
use crate::store::spec_chain_blocks;
use crate::store::spec_chain_items;
use crate::store::spec_chain_items_upto;
use crate::store::spec_chain_kinded;
use crate::store::spec_chain_preserved;
use crate::store::spec_preserves_headers;
use crate::store::spec_preserves_other_chains;
use crate::store::spec_record_kind;
use crate::store::BlockStore;
use crate::store::Record;
use crate::store::RecordKind;
use crate::store::PAGE_CAPACITY;

verus! {

/// A byte sequence cut into page-sized chunks, in order.
pub open spec fn spec_chunks(b: Seq<u8>) -> Seq<Seq<u8>>
    decreases b.len(),
{
    if b.len() == 0 {
        Seq::empty()
    } else if b.len() <= PAGE_CAPACITY {
        seq![b]
    } else {
        seq![b.take(PAGE_CAPACITY as int)] + spec_chunks(b.skip(PAGE_CAPACITY as int))
    }
}

/// Chunking then concatenating gives the bytes back.
pub proof fn lemma_chunks_flatten(b: Seq<u8>)
    ensures
        spec_chunks(b).flatten() == b,
    decreases b.len(),
{
    if b.len() == 0 {
        assert(spec_chunks(b).flatten() =~= b);
    } else if b.len() <= PAGE_CAPACITY {
        seq![b].lemma_flatten_one_element();
    } else {
        let head = b.take(PAGE_CAPACITY as int);
        let tail = b.skip(PAGE_CAPACITY as int);
        lemma_chunks_flatten(tail);
        vstd::seq_lib::lemma_flatten_concat(seq![head], spec_chunks(tail));
        seq![head].lemma_flatten_one_element();
        assert(head + tail =~= b);
    }
}

/// What the chunks of a write-once chain hold after a write: the chunks
/// of the bytes if the chain was empty, the old contents otherwise.
pub open spec fn spec_write_once(chain: Seq<Seq<u8>>, b: Seq<u8>) -> Seq<Seq<u8>> {
    if chain.len() == 0 {
        spec_chunks(b)
    } else {
        chain
    }
}

impl BlockStore {
    /// Whether the chain starting at `start` holds no record at all.
    pub fn chain_is_empty(&self, start: u32) -> (r: bool)
        requires
            self.links_wf(),
            (start as int) < self.pages@.len(),
        ensures
            r == (spec_chain_items(self.pages@, start as int).len() == 0),
    {
        let ghost pages = self.pages@;
        let ghost s = start as int;
        let mut b: u32 = start;
        proof {
            lemma_chain_blocks_bounds(pages, s);
            assert(spec_chain_blocks(pages, s)[0] == s);
            assert(spec_chain_blocks(pages, s).contains(s));
            assert(spec_chain_items_upto(pages, s, s) =~= Seq::<Record>::empty());
        }
        loop
            invariant
                self.links_wf(),
                pages == self.pages@,
                s == start as int,
                (b as int) < pages.len(),
                spec_chain_blocks(pages, s).contains(b as int),
                spec_chain_items_upto(pages, s, b as int).len() == 0,
            decreases pages.len() - b,
        {
            proof {
                lemma_chain_decompose(pages, s, b as int);
            }
            if self.pages[b as usize].items.len() > 0 {
                proof {
                    assert(spec_chain_items(pages, b as int).len() >= pages[b as int].items@.len());
                }
                return false;
            }
            if self.pages[b as usize].next == INVALID_BLOCK_NUMBER {
                proof {
                    assert(spec_chain_items(pages, b as int) == pages[b as int].items@);
                }
                return true;
            }
            proof {
                assert(self.block_wf(b as int));
                assert forall|x: int| #[trigger]
                    spec_chain_blocks(pages, s).contains(x) implies (pages[x].next
                    != INVALID_BLOCK_NUMBER ==> x < pages[x].next < pages.len()) by {
                    lemma_chain_blocks_bounds(pages, s);
                    assert(self.block_wf(x));
                }
                lemma_chain_upto_extend(pages, s, b as int);
                lemma_chain_member_next(pages, s, b as int);
            }
            b = self.pages[b as usize].next;
        }
    }

    /// Read a whole byte stream: every chunk of the chain starting at
    /// `start`, concatenated in chain order.
    pub fn read_all(&self, start: u32) -> (r: Vec<u8>)
        requires
            self.links_wf(),
            (start as int) < self.pages@.len(),
            spec_chain_kinded(self.pages@, start as int, RecordKind::Bytes),
        ensures
            r@ == self.chain_bytes(start as int),
    {
        let ghost pages = self.pages@;
        let ghost s = start as int;
        let ghost all = spec_chain_items(pages, s);
        let mut r: Vec<u8> = Vec::new();
        let mut b: u32 = start;
        proof {
            lemma_chain_blocks_bounds(pages, s);
            assert(spec_chain_blocks(pages, s)[0] == s);
            assert(spec_chain_blocks(pages, s).contains(s));
            assert(spec_chain_items_upto(pages, s, s) =~= Seq::<Record>::empty());
            assert(r@ =~= spec_chain_items_upto(pages, s, s).map_values(
                |rec: Record| spec_bytes_record(rec),
            ).flatten());
        }
        loop
            invariant
                self.links_wf(),
                pages == self.pages@,
                s == start as int,
                all == spec_chain_items(pages, s),
                spec_chain_kinded(pages, s, RecordKind::Bytes),
                (b as int) < pages.len(),
                spec_chain_blocks(pages, s).contains(b as int),
                r@ == spec_chain_items_upto(pages, s, b as int).map_values(
                    |rec: Record| spec_bytes_record(rec),
                ).flatten(),
            decreases pages.len() - b,
        {
            let ghost before = spec_chain_items_upto(pages, s, b as int);
            let ghost f = |rec: Record| spec_bytes_record(rec);
            proof {
                lemma_chain_decompose(pages, s, b as int);
            }
            let n_items = self.pages[b as usize].items.len();
            let mut j: usize = 0;
            while j < n_items
                invariant
                    self.links_wf(),
                    pages == self.pages@,
                    s == start as int,
                    all == spec_chain_items(pages, s),
                    spec_chain_kinded(pages, s, RecordKind::Bytes),
                    (b as int) < pages.len(),
                    spec_chain_blocks(pages, s).contains(b as int),
                    before == spec_chain_items_upto(pages, s, b as int),
                    spec_chain_items(pages, s) == before + spec_chain_items(pages, b as int),
                    n_items == pages[b as int].items@.len(),
                    j <= n_items,
                    f == (|rec: Record| spec_bytes_record(rec)),
                    r@ == (before + pages[b as int].items@.take(j as int)).map_values(f).flatten(),
                decreases n_items - j,
            {
                let ghost n = before.len() + j;
                proof {
                    assert(spec_chain_items(pages, b as int)[j as int] == pages[b as int].items@[j as int]);
                    assert(spec_chain_items(pages, s)[n as int] == pages[b as int].items@[j as int]);
                    assert(spec_record_kind(spec_chain_items(pages, s)[n as int])
                        == RecordKind::Bytes);
                }
                match &self.pages[b as usize].items[j] {
                    Record::Bytes(chunk) => {
                        let ghost r_before = r@;
                        let mut k: usize = 0;
                        while k < chunk.len()
                            invariant
                                k <= chunk@.len(),
                                r@ == r_before + chunk@.take(k as int),
                            decreases chunk@.len() - k,
                        {
                            r.push(chunk[k]);
                            proof {
                                assert(r@ =~= r_before + chunk@.take(k as int + 1));
                            }
                            k = k + 1;
                        }
                        proof {
                            assert(chunk@.take(chunk@.len() as int) =~= chunk@);
                            let pre_items = before + pages[b as int].items@.take(j as int);
                            let post_items = before + pages[b as int].items@.take(j as int + 1);
                            assert(post_items =~= pre_items.push(pages[b as int].items@[j as int]));
                            pre_items.map_values(f).lemma_flatten_push(chunk@);
                            assert(post_items.map_values(f) =~= pre_items.map_values(f).push(
                                chunk@,
                            ));
                            assert(r@ =~= post_items.map_values(f).flatten());
                        }
                    },
                    _ => {
                        proof {
                            assert(false);
                        }
                    },
                }
                j = j + 1;
            }
            proof {
                assert(pages[b as int].items@.take(n_items as int) =~= pages[b as int].items@);
            }
            if self.pages[b as usize].next == INVALID_BLOCK_NUMBER {
                proof {
                    assert(spec_chain_items(pages, b as int) == pages[b as int].items@);
                    assert(before + pages[b as int].items@ =~= all);
                }
                return r;
            }
            proof {
                assert(self.block_wf(b as int));
                assert forall|x: int| #[trigger]
                    spec_chain_blocks(pages, s).contains(x) implies (pages[x].next
                    != INVALID_BLOCK_NUMBER ==> x < pages[x].next < pages.len()) by {
                    lemma_chain_blocks_bounds(pages, s);
                    assert(self.block_wf(x));
                }
                lemma_chain_upto_extend(pages, s, b as int);
                lemma_chain_member_next(pages, s, b as int);
            }
            b = self.pages[b as usize].next;
        }
    }

    /// Write a byte stream onto the chain at `start`, cut into page-sized
    /// chunks — unless the chain already holds anything, in which case
    /// nothing at all happens (write-once semantics).
    pub fn write_bytes(&mut self, start: u32, bytes: &Vec<u8>)
        requires
            old(self).wf(),
            (start as int) < old(self).pages@.len(),
            old(self).pages@[start as int].head,
            start != DIRECTORY_START,
            start != SEGMENT_METAS_START,
            start != DELETE_METAS_START,
            old(self).pages@.len() + bytes@.len() <= INVALID_BLOCK_NUMBER,
        ensures
            final(self).wf(),
            final(self).need_wal == old(self).need_wal,
            spec_chain_items(final(self).pages@, start as int).map_values(
                |rec: Record| spec_bytes_record(rec),
            ) == spec_write_once(
                spec_chain_items(old(self).pages@, start as int).map_values(
                    |rec: Record| spec_bytes_record(rec),
                ),
                bytes@,
            ),
            spec_chain_items(old(self).pages@, start as int).len() != 0
                ==> *final(self) == *old(self),
            spec_chain_items(old(self).pages@, start as int).len() == 0 ==> final(self).chain_bytes(
                start as int,
            ) == bytes@,
            final(self).pages@.len() <= old(self).pages@.len() + bytes@.len(),
            spec_preserves_other_chains(*old(self), *final(self), start as int),
            spec_preserves_headers(*old(self), *final(self)),
            forall|b: int|
                0 <= b < old(self).pages@.len() ==> (#[trigger] final(self).pages@[b].deleted)
                    == old(self).pages@[b].deleted,
            forall|b: int|
                old(self).pages@.len() <= b < final(self).pages@.len()
                    ==> !(#[trigger] final(self).pages@[b].deleted),
    {
        let ghost orig = *self;
        let ghost f = |rec: Record| spec_bytes_record(rec);
        if !self.chain_is_empty(start) {
            return ;
        }
        let mut pos: usize = 0;
        proof {
            assert(spec_chain_items(orig.pages@, start as int).map_values(f) =~= Seq::<
                Seq<u8>,
            >::empty());
            assert(bytes@.skip(0) =~= bytes@);
            assert(spec_chain_items(self.pages@, start as int).map_values(f) + spec_chunks(
                bytes@.skip(pos as int),
            ) =~= spec_chunks(bytes@));
        }
        while pos < bytes.len()
            invariant
                self.wf(),
                self.need_wal == orig.need_wal,
                (start as int) < self.pages@.len(),
                self.pages@[start as int].head,
                start != DIRECTORY_START,
                start != SEGMENT_METAS_START,
                start != DELETE_METAS_START,
                pos <= bytes@.len(),
                self.pages@.len() + (bytes@.len() - pos) <= INVALID_BLOCK_NUMBER,
                self.pages@.len() <= orig.pages@.len() + pos,
                forall|b: int|
                    0 <= b < orig.pages@.len() ==> (#[trigger] self.pages@[b].deleted)
                        == orig.pages@[b].deleted,
                forall|b: int|
                    orig.pages@.len() <= b < self.pages@.len()
                        ==> !(#[trigger] self.pages@[b].deleted),
                f == (|rec: Record| spec_bytes_record(rec)),
                spec_chain_items(self.pages@, start as int).map_values(f) + spec_chunks(
                    bytes@.skip(pos as int),
                ) == spec_chunks(bytes@),
                spec_preserves_other_chains(orig, *self, start as int),
                spec_preserves_headers(orig, *self),
            decreases bytes@.len() - pos,
        {
            let ghost pre = *self;
            let remaining = bytes.len() - pos;
            let cap = PAGE_CAPACITY as usize;
            let clen = if remaining > cap {
                cap
            } else {
                remaining
            };
            let mut chunk: Vec<u8> = Vec::new();
            let mut k: usize = 0;
            while k < clen
                invariant
                    pos + clen <= bytes@.len(),
                    bytes@.len() <= usize::MAX,
                    k <= clen,
                    chunk@ == bytes@.subrange(pos as int, pos as int + k as int),
                decreases clen - k,
            {
                chunk.push(bytes[pos + k]);
                proof {
                    assert(chunk@ =~= bytes@.subrange(pos as int, pos as int + k as int + 1));
                }
                k = k + 1;
            }
            proof {
                assert(chunk@ == bytes@.subrange(pos as int, pos as int + clen as int));
                assert(chunk@.len() <= PAGE_CAPACITY);
            }
            self.append_record(start, Record::Bytes(chunk));
            proof {
                let old_map = spec_chain_items(pre.pages@, start as int).map_values(f);
                let new_items = spec_chain_items(self.pages@, start as int);
                let chunk_view = bytes@.subrange(pos as int, pos as int + clen as int);
                assert(new_items.map_values(f) =~= old_map.push(chunk_view));
                let rest = bytes@.skip(pos as int);
                if remaining > cap {
                    assert(rest.len() > PAGE_CAPACITY);
                    assert(rest.take(PAGE_CAPACITY as int) =~= chunk_view);
                    assert(rest.skip(PAGE_CAPACITY as int) =~= bytes@.skip(pos as int + clen as int));
                    assert(spec_chunks(rest) == seq![chunk_view] + spec_chunks(
                        bytes@.skip(pos as int + clen as int),
                    ));
                } else {
                    assert(rest.len() == clen && clen > 0);
                    assert(rest =~= chunk_view);
                    assert(spec_chunks(rest) == seq![rest]);
                    assert(bytes@.skip(pos as int + clen as int).len() == 0);
                    assert(spec_chunks(bytes@.skip(pos as int + clen as int)) =~= Seq::<
                        Seq<u8>,
                    >::empty());
                }
                assert(new_items.map_values(f) + spec_chunks(bytes@.skip(pos as int + clen as int))
                    =~= spec_chunks(bytes@));
                // the untouched chains stay untouched across this iteration
                assert forall|h: int|
                    0 <= h < orig.pages@.len() && orig.pages@[h].head && h != start as int implies
                    #[trigger] spec_chain_preserved(orig, *self, h) by {
                    assert(spec_chain_preserved(orig, pre, h));
                    assert(pre.pages@[h].head == orig.pages@[h].head);
                    assert(spec_chain_preserved(pre, *self, h));
                }
            }
            pos = pos + clen;
        }
        proof {
            assert(bytes@.skip(pos as int).len() == 0);
            assert(spec_chunks(bytes@.skip(pos as int)) =~= Seq::<Seq<u8>>::empty());
            let final_map = spec_chain_items(self.pages@, start as int).map_values(f);
            assert(final_map =~= spec_chunks(bytes@));
            lemma_chunks_flatten(bytes@);
        }
    }

    /// Flag every page of the chain at `start` for the deferred
    /// reclamation pass.  No link, record or head flag moves; every chain
    /// reads exactly as before.
    pub fn mark_deleted(&mut self, start: u32)
        requires
            old(self).links_wf(),
            (start as int) < old(self).pages@.len(),
        ensures
            final(self).links_wf(),
            old(self).wf() ==> final(self).wf(),
            final(self).need_wal == old(self).need_wal,
            final(self).pages@.len() == old(self).pages@.len(),
            forall|h: int|
                0 <= h < old(self).pages@.len() ==> #[trigger] spec_chain_preserved(
                    *old(self),
                    *final(self),
                    h,
                ),
            forall|b: int|
                0 <= b < old(self).pages@.len() ==> (#[trigger] final(self).pages@[b].next)
                    == old(self).pages@[b].next && final(self).pages@[b].items
                    == old(self).pages@[b].items && final(self).pages@[b].head
                    == old(self).pages@[b].head,
            forall|x: int|
                #[trigger] spec_chain_blocks(old(self).pages@, start as int).contains(x)
                    ==> final(self).pages@[x].deleted,
            forall|b: int|
                0 <= b < old(self).pages@.len() && !spec_chain_blocks(
                    old(self).pages@,
                    start as int,
                ).contains(b) ==> (#[trigger] final(self).pages@[b].deleted)
                    == old(self).pages@[b].deleted,
            spec_preserves_headers(*old(self), *final(self)),
    {
        let ghost orig = *self;
        let ghost s = start as int;
        let mut b: u32 = start;
        proof {
            lemma_chain_blocks_bounds(orig.pages@, s);
            assert(spec_chain_blocks(orig.pages@, s)[0] == s);
            assert(spec_chain_blocks(orig.pages@, s).contains(s));
        }
        while self.pages[b as usize].next != INVALID_BLOCK_NUMBER
            invariant
                orig.links_wf(),
                self.need_wal == orig.need_wal,
                self.pages@.len() == orig.pages@.len(),
                s == start as int,
                (b as int) < orig.pages@.len(),
                spec_chain_blocks(orig.pages@, s).contains(b as int),
                forall|x: int|
                    0 <= x < orig.pages@.len() ==> (#[trigger] self.pages@[x].next)
                        == orig.pages@[x].next && self.pages@[x].items == orig.pages@[x].items
                        && self.pages@[x].head == orig.pages@[x].head,
                forall|x: int|
                    0 <= x < orig.pages@.len() && orig.pages@[x].deleted
                        ==> (#[trigger] self.pages@[x].deleted),
                forall|x: int|
                    0 <= x < orig.pages@.len() && !spec_chain_blocks(orig.pages@, s).contains(x)
                        ==> (#[trigger] self.pages@[x].deleted) == orig.pages@[x].deleted,
                forall|x: int|
                    #[trigger] spec_chain_blocks(orig.pages@, s).contains(x)
                        ==> self.pages@[x].deleted || spec_chain_blocks(orig.pages@, b as int).contains(
                        x,
                    ),
            decreases orig.pages@.len() - b,
        {
            let ghost iter0 = *self;
            self.pages[b as usize].deleted = true;
            proof {
                assert(self.pages@ =~= iter0.pages@.update(b as int, self.pages@[b as int]));
                assert(self.pages@[b as int].next == iter0.pages@[b as int].next);
                assert(self.pages@[b as int].items == iter0.pages@[b as int].items);
                assert(self.pages@[b as int].head == iter0.pages@[b as int].head);
                assert(self.pages@[b as int].deleted);
                assert forall|x: int| 0 <= x < orig.pages@.len() implies (
                #[trigger] self.pages@[x].next) == orig.pages@[x].next && self.pages@[x].items
                    == orig.pages@[x].items && self.pages@[x].head == orig.pages@[x].head by {
                    assert(iter0.pages@[x].next == orig.pages@[x].next);
                    if x != b as int {
                        assert(self.pages@[x] == iter0.pages@[x]);
                    }
                }
                assert(orig.block_wf(b as int));
                lemma_chain_blocks_bounds(orig.pages@, s);
                let cb = spec_chain_blocks(orig.pages@, b as int);
                assert(cb[0] == b as int);
                assert(cb.contains(b as int));
                let nxt = orig.pages@[b as int].next;
                assert(nxt != INVALID_BLOCK_NUMBER);
                assert(cb == seq![b as int] + spec_chain_blocks(orig.pages@, nxt as int));
                assert forall|x: int| #[trigger]
                    spec_chain_blocks(orig.pages@, s).contains(x) implies self.pages@[x].deleted
                    || spec_chain_blocks(orig.pages@, nxt as int).contains(x) by {
                    if !self.pages@[x].deleted {
                        let ci = choose|ci: int|
                            0 <= ci < spec_chain_blocks(orig.pages@, s).len()
                                && spec_chain_blocks(orig.pages@, s)[ci] == x;
                        assert(0 <= x < orig.pages@.len());
                        assert(x != b as int);
                        assert(self.pages@[x].deleted == iter0.pages@[x].deleted);
                        assert(cb.contains(x));
                        let ct = spec_chain_blocks(orig.pages@, nxt as int);
                        let i = choose|i: int| 0 <= i < cb.len() && cb[i] == x;
                        assert(i != 0);
                        assert(ct[i - 1] == x);
                    }
                }
                lemma_chain_member_next(orig.pages@, s, b as int);
            }
            b = self.pages[b as usize].next;
        }
        let ghost last0 = *self;
        self.pages[b as usize].deleted = true;
        proof {
            assert(self.pages@ =~= last0.pages@.update(b as int, self.pages@[b as int]));
            assert(self.pages@[b as int].next == last0.pages@[b as int].next);
            assert(self.pages@[b as int].items == last0.pages@[b as int].items);
            assert(self.pages@[b as int].head == last0.pages@[b as int].head);
            assert(self.pages@[b as int].deleted);
            assert forall|x: int| 0 <= x < orig.pages@.len() implies (
            #[trigger] self.pages@[x].next) == orig.pages@[x].next && self.pages@[x].items
                == orig.pages@[x].items && self.pages@[x].head == orig.pages@[x].head by {
                assert(last0.pages@[x].next == orig.pages@[x].next);
                if x != b as int {
                    assert(self.pages@[x] == last0.pages@[x]);
                }
            }
            assert(orig.pages@[b as int].next == INVALID_BLOCK_NUMBER) by {
                assert(last0.pages@[b as int].next == orig.pages@[b as int].next);
            }
            lemma_chain_blocks_bounds(orig.pages@, s);
            let cb = spec_chain_blocks(orig.pages@, b as int);
            assert(cb == seq![b as int]);
            assert forall|x: int| #[trigger]
                spec_chain_blocks(orig.pages@, s).contains(x) implies self.pages@[x].deleted by {
                if !self.pages@[x].deleted {
                    let ci = choose|ci: int|
                        0 <= ci < spec_chain_blocks(orig.pages@, s).len()
                            && spec_chain_blocks(orig.pages@, s)[ci] == x;
                    assert(0 <= x < orig.pages@.len());
                    assert(x != b as int);
                    assert(self.pages@[x].deleted == last0.pages@[x].deleted);
                    assert(cb.contains(x));
                    assert(x == b as int);
                }
            }
            assert forall|x: int|
                0 <= x < orig.pages@.len() && !spec_chain_blocks(orig.pages@, s).contains(x) implies
                (#[trigger] self.pages@[x].deleted) == orig.pages@[x].deleted by {
                assert(!cb.contains(x) || x == b as int);
                assert(x != b as int);
                assert(self.pages@[x].deleted == last0.pages@[x].deleted);
            }
            assert forall|x: int|
                0 <= x < orig.pages@.len() && orig.pages@[x].deleted implies (
            #[trigger] self.pages@[x].deleted) by {
                if x != b as int {
                    assert(self.pages@[x].deleted == last0.pages@[x].deleted);
                }
            }
        }
        proof {
            assert forall|x: int| 0 <= x < orig.pages@.len() implies (#[trigger] self.pages@[x].head)
                == orig.pages@[x].head && self.pages@[x].next == orig.pages@[x].next
                && self.pages@[x].items == orig.pages@[x].items by {
                assert(self.pages@[x].next == orig.pages@[x].next);
            }
            assert forall|x: int|
                0 <= x < orig.pages@.len() && orig.pages@[x].deleted implies (
            #[trigger] self.pages@[x].deleted) by {
                assert(self.pages@[x].next == orig.pages@[x].next);
            }
            assert(spec_preserves_headers(orig, *self));
            assert forall|h: int|
                0 <= h < orig.pages@.len() implies #[trigger] spec_chain_preserved(
                orig,
                *self,
                h,
            ) by {
                lemma_chain_blocks_bounds(orig.pages@, h);
                assert forall|x: int| #[trigger]
                    spec_chain_blocks(orig.pages@, h).contains(x) implies (orig.pages@[x].next
                    != INVALID_BLOCK_NUMBER ==> x < orig.pages@[x].next < orig.pages@.len())
                    && self.pages@[x].next == orig.pages@[x].next && self.pages@[x].items
                    == orig.pages@[x].items by {
                    assert(orig.block_wf(x));
                }
                lemma_chain_frame_fields(orig.pages@, self.pages@, h);
            }
            assert forall|x: int| 0 <= x < self.pages@.len() implies self.block_wf(x) by {
                assert(orig.block_wf(x));
                assert(self.pages@[x].next == orig.pages@[x].next);
                assert(self.pages@[x].items == orig.pages@[x].items);
                assert(self.pages@[x].items@ == orig.pages@[x].items@);
                let nxt = orig.pages@[x].next as int;
                if orig.pages@[x].next != INVALID_BLOCK_NUMBER {
                    assert(self.pages@[nxt].next == orig.pages@[nxt].next);
                    assert(self.pages@[nxt].head == orig.pages@[nxt].head);
                }
            }
            assert(self.links_injective()) by {
                assert(orig.links_injective());
            }
            if orig.wf() {
                lemma_wf_fields_preserved(orig, *self);
            }
        }
    }
}

} // verus!
