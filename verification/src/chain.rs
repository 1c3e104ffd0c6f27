//! Reasoning principles for page chains.
//!
//! Everything here is proof machinery: the chain of a head block is never
//! entered by another chain (disjointness), a chain is insensitive to
//! changes outside its own blocks (framing), and a chain's record
//! sequence decomposes around any of its blocks.  The mutating operations
//! of the store lean on these lemmas to show that touching one chain
//! leaves every other chain exactly as it was.

use vstd::prelude::*;

use crate::block::INVALID_BLOCK_NUMBER;
use crate::store::spec_chain_blocks;
use crate::store::spec_chain_items;
use crate::store::spec_chain_items_upto;
use crate::store::BlockStore;
use crate::store::Page;

verus! {

/// Every block of a chain lies between the chain's start and the end of
/// the arena, and the start is the chain's first block.
pub proof fn lemma_chain_blocks_bounds(pages: Seq<Page>, b: int)
    requires
        0 <= b < pages.len(),
    ensures
        spec_chain_blocks(pages, b).len() >= 1,
        spec_chain_blocks(pages, b)[0] == b,
        forall|i: int|
            0 <= i < spec_chain_blocks(pages, b).len() ==> b <= #[trigger] spec_chain_blocks(
                pages,
                b,
            )[i] < pages.len(),
    decreases pages.len() - b,
{
    let nxt = pages[b].next as int;
    if pages[b].next != INVALID_BLOCK_NUMBER && b < nxt < pages.len() {
        lemma_chain_blocks_bounds(pages, nxt);
        assert(forall|i: int|
            1 <= i < spec_chain_blocks(pages, b).len() ==> #[trigger] spec_chain_blocks(pages, b)[i]
                == spec_chain_blocks(pages, nxt)[i - 1]);
    }
}

/// A block of a chain other than the start is the target of some next
/// pointer of a block of the same chain.
pub proof fn lemma_chain_member_pred(pages: Seq<Page>, s: int, x: int)
    requires
        0 <= s < pages.len(),
        spec_chain_blocks(pages, s).contains(x),
        x != s,
    ensures
        exists|p: int|
            (#[trigger] spec_chain_blocks(pages, s).contains(p)) && 0 <= p < pages.len()
                && pages[p].next != INVALID_BLOCK_NUMBER && pages[p].next as int == x,
    decreases pages.len() - s,
{
    let c = spec_chain_blocks(pages, s);
    let nxt = pages[s].next as int;
    if pages[s].next != INVALID_BLOCK_NUMBER && s < nxt < pages.len() {
        let ctail = spec_chain_blocks(pages, nxt);
        assert(c == seq![s] + ctail);
        let i = choose|i: int| 0 <= i < c.len() && c[i] == x;
        assert(ctail[i - 1] == x);
        assert(ctail.contains(x));
        if x == nxt {
            assert(c[0] == s);
            assert(c.contains(s));
            assert(pages[s].next as int == x);
        } else {
            lemma_chain_member_pred(pages, nxt, x);
            let p = choose|p: int|
                (#[trigger] spec_chain_blocks(pages, nxt).contains(p)) && 0 <= p < pages.len()
                    && pages[p].next != INVALID_BLOCK_NUMBER && pages[p].next as int == x;
            let j = choose|j: int| 0 <= j < ctail.len() && ctail[j] == p;
            assert(c[j + 1] == p);
            assert(c.contains(p));
        }
    } else {
        assert(c == seq![s]);
        assert(c[0] == s);
    }
}

/// No block is shared between the chains of two distinct head blocks;
/// shown by walking a supposed shared block's predecessors downward.
proof fn lemma_chains_no_common_block(st: BlockStore, s1: int, s2: int, x: int)
    requires
        st.links_wf(),
        0 <= s1 < st.pages@.len(),
        0 <= s2 < st.pages@.len(),
        s1 != s2,
        st.pages@[s1].head,
        st.pages@[s2].head,
        spec_chain_blocks(st.pages@, s1).contains(x),
    ensures
        !spec_chain_blocks(st.pages@, s2).contains(x),
    decreases x,
{
    let pages = st.pages@;
    lemma_chain_blocks_bounds(pages, s1);
    lemma_chain_blocks_bounds(pages, s2);
    let i1 = choose|i: int|
        0 <= i < spec_chain_blocks(pages, s1).len() && spec_chain_blocks(pages, s1)[i] == x;
    assert(0 <= x < pages.len());
    if spec_chain_blocks(pages, s2).contains(x) {
        if x == s1 {
            lemma_chain_member_pred(pages, s2, x);
            let p = choose|p: int|
                (#[trigger] spec_chain_blocks(pages, s2).contains(p)) && 0 <= p < pages.len()
                    && pages[p].next != INVALID_BLOCK_NUMBER && pages[p].next as int == x;
            assert(st.block_wf(p));
            assert(!pages[x].head);
        } else if x == s2 {
            lemma_chain_member_pred(pages, s1, x);
            let p = choose|p: int|
                (#[trigger] spec_chain_blocks(pages, s1).contains(p)) && 0 <= p < pages.len()
                    && pages[p].next != INVALID_BLOCK_NUMBER && pages[p].next as int == x;
            assert(st.block_wf(p));
            assert(!pages[x].head);
        } else {
            lemma_chain_member_pred(pages, s1, x);
            lemma_chain_member_pred(pages, s2, x);
            let p1 = choose|p: int|
                (#[trigger] spec_chain_blocks(pages, s1).contains(p)) && 0 <= p < pages.len()
                    && pages[p].next != INVALID_BLOCK_NUMBER && pages[p].next as int == x;
            let p2 = choose|p: int|
                (#[trigger] spec_chain_blocks(pages, s2).contains(p)) && 0 <= p < pages.len()
                    && pages[p].next != INVALID_BLOCK_NUMBER && pages[p].next as int == x;
            assert(p1 == p2);
            assert(st.block_wf(p1));
            assert(p1 < x);
            lemma_chains_no_common_block(st, s1, s2, p1);
        }
    }
}

/// The chains of two distinct head blocks are disjoint.
pub proof fn lemma_chains_disjoint(st: BlockStore, s1: int, s2: int)
    requires
        st.links_wf(),
        0 <= s1 < st.pages@.len(),
        0 <= s2 < st.pages@.len(),
        s1 != s2,
        st.pages@[s1].head,
        st.pages@[s2].head,
    ensures
        forall|x: int|
            #[trigger] spec_chain_blocks(st.pages@, s1).contains(x) ==> !spec_chain_blocks(
                st.pages@,
                s2,
            ).contains(x),
{
    assert forall|x: int| #[trigger]
        spec_chain_blocks(st.pages@, s1).contains(x) implies !spec_chain_blocks(
        st.pages@,
        s2,
    ).contains(x) by {
        if spec_chain_blocks(st.pages@, s2).contains(x) {
            lemma_chains_no_common_block(st, s1, s2, x);
        }
    }
}

/// A chain only reads its own blocks: two arenas that agree on them have
/// the same chain, whatever else differs.
pub proof fn lemma_chain_frame(p1: Seq<Page>, p2: Seq<Page>, b: int)
    requires
        0 <= b < p1.len(),
        p1.len() <= p2.len(),
        forall|x: int|
            #[trigger] spec_chain_blocks(p1, b).contains(x) ==> (p1[x].next
                != INVALID_BLOCK_NUMBER ==> x < p1[x].next < p1.len()),
        forall|x: int| #[trigger] spec_chain_blocks(p1, b).contains(x) ==> p2[x] == p1[x],
    ensures
        spec_chain_blocks(p2, b) == spec_chain_blocks(p1, b),
        spec_chain_items(p2, b) == spec_chain_items(p1, b),
    decreases p1.len() - b,
{
    let c = spec_chain_blocks(p1, b);
    assert(c[0] == b);
    assert(c.contains(b));
    let nxt = p1[b].next as int;
    if p1[b].next != INVALID_BLOCK_NUMBER {
        assert(b < nxt < p1.len());
        let ctail = spec_chain_blocks(p1, nxt);
        assert(c == seq![b] + ctail);
        assert forall|x: int| #[trigger] ctail.contains(x) implies c.contains(x) by {
            let j = choose|j: int| 0 <= j < ctail.len() && ctail[j] == x;
            assert(c[j + 1] == x);
        }
        lemma_chain_frame(p1, p2, nxt);
        assert(spec_chain_blocks(p2, b) == seq![b] + spec_chain_blocks(p2, nxt));
        assert(spec_chain_items(p2, b) == p2[b].items@ + spec_chain_items(p2, nxt));
    } else {
        assert(spec_chain_blocks(p2, b) == seq![b]);
        assert(spec_chain_items(p2, b) == p2[b].items@);
    }
}

/// The record sequence of a chain splits around any block of the chain.
pub proof fn lemma_chain_decompose(pages: Seq<Page>, s: int, stop: int)
    requires
        0 <= s < pages.len(),
        spec_chain_blocks(pages, s).contains(stop),
    ensures
        spec_chain_items(pages, s) == spec_chain_items_upto(pages, s, stop) + spec_chain_items(
            pages,
            stop,
        ),
    decreases pages.len() - s,
{
    let c = spec_chain_blocks(pages, s);
    let nxt = pages[s].next as int;
    if s == stop {
        assert(spec_chain_items_upto(pages, s, stop) == Seq::<crate::store::Record>::empty());
        assert(spec_chain_items(pages, s) =~= spec_chain_items_upto(pages, s, stop)
            + spec_chain_items(pages, stop));
    } else {
        if pages[s].next != INVALID_BLOCK_NUMBER && s < nxt < pages.len() {
            let ctail = spec_chain_blocks(pages, nxt);
            assert(c == seq![s] + ctail);
            let i = choose|i: int| 0 <= i < c.len() && c[i] == stop;
            assert(i != 0);
            assert(ctail[i - 1] == stop);
            assert(ctail.contains(stop));
            lemma_chain_decompose(pages, nxt, stop);
            assert(spec_chain_items(pages, s) =~= spec_chain_items_upto(pages, s, stop)
                + spec_chain_items(pages, stop));
        } else {
            assert(c == seq![s]);
        }
    }
}

/// Extending a chain: linking a fresh empty tail block onto the chain's
/// last block adds the block and no records.
pub proof fn lemma_chain_extend(p1: Seq<Page>, p2: Seq<Page>, s: int, t: int)
    requires
        0 <= s < p1.len(),
        p2.len() == p1.len() + 1,
        spec_chain_blocks(p1, s).contains(t),
        p1[t].next == INVALID_BLOCK_NUMBER,
        forall|x: int|
            #[trigger] spec_chain_blocks(p1, s).contains(x) ==> (p1[x].next
                != INVALID_BLOCK_NUMBER ==> x < p1[x].next < p1.len()),
        forall|x: int|
            #[trigger] spec_chain_blocks(p1, s).contains(x) && x != t ==> p2[x] == p1[x],
        p2[t].next == p1.len() as u32,
        p2[t].items == p1[t].items,
        p1.len() < INVALID_BLOCK_NUMBER,
        p2[p1.len() as int].next == INVALID_BLOCK_NUMBER,
        p2[p1.len() as int].items@.len() == 0,
    ensures
        spec_chain_blocks(p2, s) == spec_chain_blocks(p1, s) + seq![p1.len() as int],
        spec_chain_items(p2, s) == spec_chain_items(p1, s),
    decreases p1.len() - s,
{
    let c = spec_chain_blocks(p1, s);
    assert(c[0] == s);
    assert(c.contains(s));
    let nb = p1.len() as int;
    if s == t {
        assert(spec_chain_blocks(p2, s) == seq![s] + spec_chain_blocks(p2, nb));
        assert(spec_chain_blocks(p2, nb) == seq![nb]);
        assert(spec_chain_blocks(p2, s) =~= spec_chain_blocks(p1, s) + seq![nb]);
        assert(spec_chain_items(p2, s) == p2[s].items@ + spec_chain_items(p2, nb));
        assert(spec_chain_items(p2, nb) == p2[nb].items@);
        assert(spec_chain_items(p2, s) =~= spec_chain_items(p1, s));
    } else {
        let nxt = p1[s].next as int;
        if p1[s].next != INVALID_BLOCK_NUMBER {
            assert(s < nxt < p1.len());
            let ctail = spec_chain_blocks(p1, nxt);
            assert(c == seq![s] + ctail);
            assert forall|x: int| #[trigger] ctail.contains(x) implies c.contains(x) by {
                let j = choose|j: int| 0 <= j < ctail.len() && ctail[j] == x;
                assert(c[j + 1] == x);
            }
            let i = choose|i: int| 0 <= i < c.len() && c[i] == t;
            assert(i != 0);
            assert(ctail[i - 1] == t);
            assert(ctail.contains(t));
            lemma_chain_extend(p1, p2, nxt, t);
            assert(p2[s] == p1[s]);
            assert(spec_chain_blocks(p2, s) == seq![s] + spec_chain_blocks(p2, nxt));
            assert(spec_chain_blocks(p2, s) =~= spec_chain_blocks(p1, s) + seq![nb]);
            assert(spec_chain_items(p2, s) == p2[s].items@ + spec_chain_items(p2, nxt));
            assert(spec_chain_items(p2, s) =~= spec_chain_items(p1, s));
        } else {
            assert(c == seq![s]);
            assert(t == s);
        }
    }
}

/// Replacing the records of one block of a chain: the chain's record
/// sequence changes exactly in that block's span.
pub proof fn lemma_chain_update_items(p1: Seq<Page>, p2: Seq<Page>, s: int, t: int)
    requires
        0 <= s < p1.len(),
        p2.len() == p1.len(),
        spec_chain_blocks(p1, s).contains(t),
        forall|x: int|
            #[trigger] spec_chain_blocks(p1, s).contains(x) ==> (p1[x].next
                != INVALID_BLOCK_NUMBER ==> x < p1[x].next < p1.len()),
        forall|x: int|
            #[trigger] spec_chain_blocks(p1, s).contains(x) && x != t ==> p2[x] == p1[x],
        p2[t].next == p1[t].next,
    ensures
        spec_chain_blocks(p2, s) == spec_chain_blocks(p1, s),
        spec_chain_items(p2, s) == spec_chain_items_upto(p1, s, t) + p2[t].items@
            + spec_chain_items(p1, s).skip(
            spec_chain_items_upto(p1, s, t).len() + p1[t].items@.len() as int,
        ),
        spec_chain_items(p1, s) == spec_chain_items_upto(p1, s, t) + p1[t].items@
            + spec_chain_items(p1, s).skip(
            spec_chain_items_upto(p1, s, t).len() + p1[t].items@.len() as int,
        ),
        spec_chain_items(p2, s).len() == spec_chain_items_upto(p1, s, t).len() + p2[t].items@.len()
            + (spec_chain_items(p1, s).len() - spec_chain_items_upto(p1, s, t).len()
            - p1[t].items@.len()),
    decreases p1.len() - s,
{
    let c = spec_chain_blocks(p1, s);
    assert(c[0] == s);
    assert(c.contains(s));
    lemma_chain_blocks_bounds(p1, s);
    if s == t {
        assert(spec_chain_items_upto(p1, s, t) == Seq::<crate::store::Record>::empty());
        let nxt = p1[s].next as int;
        if p1[s].next != INVALID_BLOCK_NUMBER {
            assert(s < nxt < p1.len());
            let ctail = spec_chain_blocks(p1, nxt);
            assert(c == seq![s] + ctail);
            assert forall|x: int| #[trigger] ctail.contains(x) implies c.contains(x) by {
                let j = choose|j: int| 0 <= j < ctail.len() && ctail[j] == x;
                assert(c[j + 1] == x);
            }
            assert forall|x: int| #[trigger] ctail.contains(x) implies x != t by {
                lemma_chain_blocks_bounds(p1, nxt);
                let j = choose|j: int| 0 <= j < ctail.len() && ctail[j] == x;
                assert(x >= nxt);
            }
            lemma_chain_frame(p1, p2, nxt);
            assert(spec_chain_items(p2, s) == p2[t].items@ + spec_chain_items(p1, nxt));
            assert(spec_chain_items(p1, s) == p1[t].items@ + spec_chain_items(p1, nxt));
            assert(spec_chain_items(p1, s).skip(p1[t].items@.len() as int) =~= spec_chain_items(
                p1,
                nxt,
            ));
            assert(spec_chain_items(p2, s) =~= spec_chain_items_upto(p1, s, t) + p2[t].items@
                + spec_chain_items(p1, s).skip(
                spec_chain_items_upto(p1, s, t).len() + p1[t].items@.len() as int,
            ));
            assert(spec_chain_items(p1, s) =~= spec_chain_items_upto(p1, s, t) + p1[t].items@
                + spec_chain_items(p1, s).skip(
                spec_chain_items_upto(p1, s, t).len() + p1[t].items@.len() as int,
            ));
        } else {
            assert(spec_chain_items(p2, s) == p2[t].items@);
            assert(spec_chain_items(p1, s) == p1[t].items@);
            assert(spec_chain_items(p1, s).skip(p1[t].items@.len() as int) =~= Seq::<
                crate::store::Record,
            >::empty());
            assert(spec_chain_items(p2, s) =~= spec_chain_items_upto(p1, s, t) + p2[t].items@
                + spec_chain_items(p1, s).skip(
                spec_chain_items_upto(p1, s, t).len() + p1[t].items@.len() as int,
            ));
            assert(spec_chain_items(p1, s) =~= spec_chain_items_upto(p1, s, t) + p1[t].items@
                + spec_chain_items(p1, s).skip(
                spec_chain_items_upto(p1, s, t).len() + p1[t].items@.len() as int,
            ));
        }
    } else {
        let nxt = p1[s].next as int;
        assert(p1[s].next != INVALID_BLOCK_NUMBER) by {
            if p1[s].next == INVALID_BLOCK_NUMBER {
                assert(c == seq![s]);
            }
        }
        assert(s < nxt < p1.len());
        let ctail = spec_chain_blocks(p1, nxt);
        assert(c == seq![s] + ctail);
        assert forall|x: int| #[trigger] ctail.contains(x) implies c.contains(x) by {
            let j = choose|j: int| 0 <= j < ctail.len() && ctail[j] == x;
            assert(c[j + 1] == x);
        }
        let i = choose|i: int| 0 <= i < c.len() && c[i] == t;
        assert(i != 0);
        assert(ctail[i - 1] == t);
        assert(ctail.contains(t));
        lemma_chain_update_items(p1, p2, nxt, t);
        assert(p2[s] == p1[s]);
        assert(spec_chain_blocks(p2, s) == seq![s] + spec_chain_blocks(p2, nxt));
        assert(spec_chain_blocks(p2, s) =~= spec_chain_blocks(p1, s));
        assert(spec_chain_items(p2, s) == p1[s].items@ + spec_chain_items(p2, nxt));
        assert(spec_chain_items(p1, s) == p1[s].items@ + spec_chain_items(p1, nxt));
        assert(spec_chain_items_upto(p1, s, t) == p1[s].items@ + spec_chain_items_upto(
            p1,
            nxt,
            t,
        ));
        let pre: int = spec_chain_items_upto(p1, s, t).len() + p1[t].items@.len() as int;
        let pren: int = spec_chain_items_upto(p1, nxt, t).len() + p1[t].items@.len() as int;
        assert(spec_chain_items(p1, s).skip(pre) =~= spec_chain_items(p1, nxt).skip(pren));
        assert(spec_chain_items(p2, s) =~= spec_chain_items_upto(p1, s, t) + p2[t].items@
            + spec_chain_items(p1, s).skip(pre));
        assert(spec_chain_items(p1, s) =~= spec_chain_items_upto(p1, s, t) + p1[t].items@
            + spec_chain_items(p1, s).skip(pre));
    }
}

/// A chain reads only the links and records of its blocks: page flags may
/// differ without the chain noticing.
pub proof fn lemma_chain_frame_fields(p1: Seq<Page>, p2: Seq<Page>, b: int)
    requires
        0 <= b < p1.len(),
        p1.len() == p2.len(),
        forall|x: int|
            #[trigger] spec_chain_blocks(p1, b).contains(x) ==> (p1[x].next
                != INVALID_BLOCK_NUMBER ==> x < p1[x].next < p1.len()),
        forall|x: int|
            #[trigger] spec_chain_blocks(p1, b).contains(x) ==> p2[x].next == p1[x].next
                && p2[x].items == p1[x].items,
    ensures
        spec_chain_blocks(p2, b) == spec_chain_blocks(p1, b),
        spec_chain_items(p2, b) == spec_chain_items(p1, b),
    decreases p1.len() - b,
{
    let c = spec_chain_blocks(p1, b);
    assert(c[0] == b);
    assert(c.contains(b));
    let nxt = p1[b].next as int;
    if p1[b].next != INVALID_BLOCK_NUMBER {
        assert(b < nxt < p1.len());
        let ctail = spec_chain_blocks(p1, nxt);
        assert(c == seq![b] + ctail);
        assert forall|x: int| #[trigger] ctail.contains(x) implies c.contains(x) by {
            let j = choose|j: int| 0 <= j < ctail.len() && ctail[j] == x;
            assert(c[j + 1] == x);
        }
        lemma_chain_frame_fields(p1, p2, nxt);
        assert(spec_chain_blocks(p2, b) == seq![b] + spec_chain_blocks(p2, nxt));
        assert(spec_chain_items(p2, b) == p2[b].items@ + spec_chain_items(p2, nxt));
    } else {
        assert(spec_chain_blocks(p2, b) == seq![b]);
        assert(spec_chain_items(p2, b) == p2[b].items@);
    }
}

/// A store whose links, records and head flags all stand where they were
/// is still well formed, and every chain in it is untouched; only page
/// flags may have moved.
pub proof fn lemma_wf_fields_preserved(pre: BlockStore, post: BlockStore)
    requires
        pre.wf(),
        post.pages@.len() == pre.pages@.len(),
        forall|b: int|
            0 <= b < pre.pages@.len() ==> (#[trigger] post.pages@[b].next) == pre.pages@[b].next
                && post.pages@[b].items == pre.pages@[b].items && post.pages@[b].head
                == pre.pages@[b].head,
    ensures
        post.wf(),
        forall|h: int|
            0 <= h < pre.pages@.len() ==> #[trigger] crate::store::spec_chain_preserved(
                pre,
                post,
                h,
            ),
{
    assert forall|h: int| 0 <= h < pre.pages@.len() implies #[trigger] crate::store::spec_chain_preserved(
        pre,
        post,
        h,
    ) by {
        lemma_chain_blocks_bounds(pre.pages@, h);
        assert forall|x: int| #[trigger]
            spec_chain_blocks(pre.pages@, h).contains(x) implies (pre.pages@[x].next
            != INVALID_BLOCK_NUMBER ==> x < pre.pages@[x].next < pre.pages@.len()) && post.pages@[x].next
            == pre.pages@[x].next && post.pages@[x].items == pre.pages@[x].items by {
            assert(pre.block_wf(x));
        }
        lemma_chain_frame_fields(pre.pages@, post.pages@, h);
    }
    assert forall|b: int| 0 <= b < post.pages@.len() implies post.block_wf(b) by {
        assert(pre.block_wf(b));
        assert(post.pages@[b].next == pre.pages@[b].next);
        assert(post.pages@[b].items == pre.pages@[b].items);
        assert(post.pages@[b].items@ == pre.pages@[b].items@);
        let nxt = pre.pages@[b].next as int;
        if pre.pages@[b].next != INVALID_BLOCK_NUMBER {
            assert(post.pages@[nxt].next == pre.pages@[nxt].next);
            assert(post.pages@[nxt].head == pre.pages@[nxt].head);
        }
    }
    assert(post.links_injective()) by {
        assert(pre.links_injective());
    }
    assert forall|i: int| 0 <= i < post.dir_items().len() implies post.dir_entry_wf(
        crate::store::spec_dir_record(#[trigger] post.dir_items()[i]),
    ) by {
        assert(crate::store::spec_chain_preserved(pre, post, crate::block::DIRECTORY_START as int));
        assert(post.dir_items() == pre.dir_items());
        let e = crate::store::spec_dir_record(pre.dir_items()[i]);
        assert(pre.dir_entry_wf(e));
        assert(crate::store::spec_chain_preserved(pre, post, e.start as int));
    }
    assert(crate::store::spec_chain_preserved(pre, post, crate::block::DIRECTORY_START as int));
    assert(crate::store::spec_chain_preserved(pre, post, crate::block::SEGMENT_METAS_START as int));
    assert(crate::store::spec_chain_preserved(pre, post, crate::block::DELETE_METAS_START as int));
    assert(crate::store::spec_chain_preserved(pre, post, crate::block::SCHEMA_START as int));
    assert(crate::store::spec_chain_preserved(pre, post, crate::block::SETTINGS_START as int));
}

/// Walking one block further: the records seen before a block's successor
/// are those seen before the block plus the block's own.
pub proof fn lemma_chain_upto_extend(pages: Seq<Page>, s: int, b: int)
    requires
        0 <= s < pages.len(),
        spec_chain_blocks(pages, s).contains(b),
        pages[b].next != INVALID_BLOCK_NUMBER,
        b < pages[b].next < pages.len(),
        forall|x: int|
            #[trigger] spec_chain_blocks(pages, s).contains(x) ==> (pages[x].next
                != INVALID_BLOCK_NUMBER ==> x < pages[x].next < pages.len()),
    ensures
        spec_chain_items_upto(pages, s, pages[b].next as int) == spec_chain_items_upto(
            pages,
            s,
            b,
        ) + pages[b].items@,
    decreases pages.len() - s,
{
    let c = spec_chain_blocks(pages, s);
    assert(c[0] == s);
    assert(c.contains(s));
    let nb = pages[b].next as int;
    lemma_chain_blocks_bounds(pages, s);
    if s == b {
        assert(s != nb);
        assert(spec_chain_items_upto(pages, s, nb) == pages[s].items@ + spec_chain_items_upto(
            pages,
            nb,
            nb,
        ));
        assert(spec_chain_items_upto(pages, s, b) == Seq::<crate::store::Record>::empty());
        assert(spec_chain_items_upto(pages, s, nb) =~= spec_chain_items_upto(pages, s, b)
            + pages[b].items@);
    } else {
        let nxt = pages[s].next as int;
        assert(pages[s].next != INVALID_BLOCK_NUMBER && s < nxt < pages.len()) by {
            if !(pages[s].next != INVALID_BLOCK_NUMBER && s < nxt < pages.len()) {
                assert(c == seq![s]);
            }
        }
        let ctail = spec_chain_blocks(pages, nxt);
        assert(c == seq![s] + ctail);
        assert forall|x: int| #[trigger] ctail.contains(x) implies c.contains(x) by {
            let j = choose|j: int| 0 <= j < ctail.len() && ctail[j] == x;
            assert(c[j + 1] == x);
        }
        let i = choose|i: int| 0 <= i < c.len() && c[i] == b;
        assert(i != 0);
        assert(ctail[i - 1] == b);
        assert(ctail.contains(b));
        lemma_chain_upto_extend(pages, nxt, b);
        // `nb` differs from `s`: every block of the tail chain exceeds `s`
        lemma_chain_blocks_bounds(pages, nxt);
        assert(b >= nxt);
        assert(nb > s);
        assert(spec_chain_items_upto(pages, s, nb) == pages[s].items@ + spec_chain_items_upto(
            pages,
            nxt,
            nb,
        ));
        assert(spec_chain_items_upto(pages, s, b) == pages[s].items@ + spec_chain_items_upto(
            pages,
            nxt,
            b,
        ));
        assert(spec_chain_items_upto(pages, s, nb) =~= spec_chain_items_upto(pages, s, b)
            + pages[b].items@);
    }
}

/// Two record areas of equal shape: same count, and record for record
/// the same kind and encoded width; a directory record also keeps its
/// path and its backing chain.  In-place tombstoning produces exactly
/// this relation.
pub open spec fn spec_items_compatible(i1: Seq<crate::store::Record>, i2: Seq<crate::store::Record>) -> bool {
    &&& i1.len() == i2.len()
    &&& forall|j: int|
        0 <= j < i1.len() ==> crate::store::spec_record_size(#[trigger] i2[j])
            == crate::store::spec_record_size(i1[j]) && crate::store::spec_record_kind(i2[j])
            == crate::store::spec_record_kind(i1[j]) && (crate::store::spec_record_kind(i1[j])
            == crate::store::RecordKind::Dir ==> crate::store::spec_dir_record(i2[j]).start
            == crate::store::spec_dir_record(i1[j]).start && crate::store::spec_dir_record(
            i2[j],
        ).path == crate::store::spec_dir_record(i1[j]).path)
}

/// Records of equal shape weigh the same.
pub proof fn lemma_records_size_compatible(i1: Seq<crate::store::Record>, i2: Seq<crate::store::Record>)
    requires
        spec_items_compatible(i1, i2),
    ensures
        crate::store::spec_records_size(i2) == crate::store::spec_records_size(i1),
    decreases i1.len(),
{
    if i1.len() != 0 {
        assert(spec_items_compatible(i1.drop_last(), i2.drop_last()));
        lemma_records_size_compatible(i1.drop_last(), i2.drop_last());
        assert(crate::store::spec_record_size(i2.last()) == crate::store::spec_record_size(
            i1.last(),
        ));
    }
}

/// Mapping every record of one chain: with links untouched and each
/// block's records mapped pointwise, the whole chain's record sequence is
/// mapped pointwise.
pub proof fn lemma_chain_items_mapped(
    p1: Seq<Page>,
    p2: Seq<Page>,
    b: int,
    t: spec_fn(crate::store::Record) -> crate::store::Record,
)
    requires
        0 <= b < p1.len(),
        p1.len() == p2.len(),
        forall|x: int|
            #[trigger] spec_chain_blocks(p1, b).contains(x) ==> (p1[x].next
                != INVALID_BLOCK_NUMBER ==> x < p1[x].next < p1.len()),
        forall|x: int|
            #[trigger] spec_chain_blocks(p1, b).contains(x) ==> p2[x].next == p1[x].next
                && p2[x].items@ == p1[x].items@.map_values(t),
    ensures
        spec_chain_blocks(p2, b) == spec_chain_blocks(p1, b),
        spec_chain_items(p2, b) == spec_chain_items(p1, b).map_values(t),
    decreases p1.len() - b,
{
    let c = spec_chain_blocks(p1, b);
    assert(c[0] == b);
    assert(c.contains(b));
    let nxt = p1[b].next as int;
    if p1[b].next != INVALID_BLOCK_NUMBER {
        assert(b < nxt < p1.len());
        let ctail = spec_chain_blocks(p1, nxt);
        assert(c == seq![b] + ctail);
        assert forall|x: int| #[trigger] ctail.contains(x) implies c.contains(x) by {
            let j = choose|j: int| 0 <= j < ctail.len() && ctail[j] == x;
            assert(c[j + 1] == x);
        }
        lemma_chain_items_mapped(p1, p2, nxt, t);
        assert(spec_chain_blocks(p2, b) == seq![b] + spec_chain_blocks(p2, nxt));
        assert(spec_chain_items(p2, b) == p2[b].items@ + spec_chain_items(p2, nxt));
        assert(spec_chain_items(p2, b) =~= spec_chain_items(p1, b).map_values(t));
    } else {
        assert(spec_chain_blocks(p2, b) == seq![b]);
        assert(spec_chain_items(p2, b) == p2[b].items@);
        assert(spec_chain_items(p2, b) =~= spec_chain_items(p1, b).map_values(t));
    }
}

/// A store whose links and head flags stand where they were and whose
/// record areas kept their shape block for block is still well formed,
/// and every chain keeps its block list.
pub proof fn lemma_wf_items_replaced(pre: BlockStore, post: BlockStore)
    requires
        pre.wf(),
        post.pages@.len() == pre.pages@.len(),
        forall|b: int|
            0 <= b < pre.pages@.len() ==> (#[trigger] post.pages@[b].next) == pre.pages@[b].next
                && post.pages@[b].head == pre.pages@[b].head,
        forall|b: int|
            0 <= b < pre.pages@.len() ==> spec_items_compatible(
                pre.pages@[b].items@,
                (#[trigger] post.pages@[b]).items@,
            ),
    ensures
        post.wf(),
        forall|h: int|
            0 <= h < pre.pages@.len() ==> #[trigger] spec_chain_blocks(post.pages@, h)
                == spec_chain_blocks(pre.pages@, h),
        forall|h: int|
            0 <= h < pre.pages@.len() ==> spec_items_compatible(
                spec_chain_items(pre.pages@, h),
                #[trigger] spec_chain_items(post.pages@, h),
            ),
{
    assert forall|h: int|
        0 <= h < pre.pages@.len() implies #[trigger] spec_chain_blocks(post.pages@, h)
        == spec_chain_blocks(pre.pages@, h) && spec_items_compatible(
        spec_chain_items(pre.pages@, h),
        spec_chain_items(post.pages@, h),
    ) by {
        lemma_chain_compatible(pre.pages@, post.pages@, h, pre);
    }
    assert forall|h: int| 0 <= h < pre.pages@.len() implies spec_items_compatible(
        spec_chain_items(pre.pages@, h),
        #[trigger] spec_chain_items(post.pages@, h),
    ) by {
        assert(spec_chain_blocks(post.pages@, h) == spec_chain_blocks(pre.pages@, h));
    }
    assert forall|b: int| 0 <= b < post.pages@.len() implies post.block_wf(b) by {
        assert(pre.block_wf(b));
        assert(post.pages@[b].next == pre.pages@[b].next);
        lemma_records_size_compatible(pre.pages@[b].items@, post.pages@[b].items@);
        let nxt = pre.pages@[b].next as int;
        if pre.pages@[b].next != INVALID_BLOCK_NUMBER {
            assert(post.pages@[nxt].next == pre.pages@[nxt].next);
            assert(post.pages@[nxt].head == pre.pages@[nxt].head);
        }
    }
    assert(post.links_injective()) by {
        assert(pre.links_injective());
    }
    let roots: Seq<int> = seq![
        crate::block::DIRECTORY_START as int,
        crate::block::SEGMENT_METAS_START as int,
        crate::block::DELETE_METAS_START as int,
        crate::block::SCHEMA_START as int,
        crate::block::SETTINGS_START as int,
    ];
    assert forall|k: int| 0 <= k < 5 implies crate::store::spec_chain_kinded(
        post.pages@,
        roots[k],
        crate::list::spec_root_kind(roots[k]),
    ) by {
        let c = roots[k];
        assert(0 <= c < pre.pages@.len());
        assert(spec_chain_blocks(post.pages@, c) == spec_chain_blocks(pre.pages@, c));
        assert(spec_items_compatible(
            spec_chain_items(pre.pages@, c),
            spec_chain_items(post.pages@, c),
        ));
        assert(crate::store::spec_chain_kinded(
            pre.pages@,
            c,
            crate::list::spec_root_kind(c),
        ));
    }
    assert(crate::store::spec_chain_kinded(
        post.pages@,
        crate::block::DIRECTORY_START as int,
        crate::store::RecordKind::Dir,
    ));
    assert(crate::store::spec_chain_kinded(
        post.pages@,
        crate::block::SEGMENT_METAS_START as int,
        crate::store::RecordKind::SegMeta,
    ));
    assert(crate::store::spec_chain_kinded(
        post.pages@,
        crate::block::DELETE_METAS_START as int,
        crate::store::RecordKind::DelMeta,
    ));
    assert(crate::store::spec_chain_kinded(
        post.pages@,
        crate::block::SCHEMA_START as int,
        crate::store::RecordKind::Bytes,
    ));
    assert(crate::store::spec_chain_kinded(
        post.pages@,
        crate::block::SETTINGS_START as int,
        crate::store::RecordKind::Bytes,
    ));
    assert forall|i: int| 0 <= i < post.dir_items().len() implies post.dir_entry_wf(
        crate::store::spec_dir_record(#[trigger] post.dir_items()[i]),
    ) by {
        let pre_e = crate::store::spec_dir_record(pre.dir_items()[i]);
        let post_e = crate::store::spec_dir_record(post.dir_items()[i]);
        assert(spec_chain_blocks(post.pages@, crate::block::DIRECTORY_START as int)
            == spec_chain_blocks(pre.pages@, crate::block::DIRECTORY_START as int));
        assert(spec_items_compatible(pre.dir_items(), post.dir_items()));
        assert(pre.dir_entry_wf(pre_e));
        assert(crate::store::spec_record_kind(pre.dir_items()[i])
            == crate::store::RecordKind::Dir);
        assert(post_e.start == pre_e.start);
        assert(spec_chain_blocks(post.pages@, pre_e.start as int) == spec_chain_blocks(
            pre.pages@,
            pre_e.start as int,
        ));
        assert(spec_items_compatible(
            spec_chain_items(pre.pages@, pre_e.start as int),
            spec_chain_items(post.pages@, pre_e.start as int),
        ));
    }
}

/// One chain of a shape-preserving rewrite: block list kept, record area
/// compatible.
proof fn lemma_chain_compatible(p1: Seq<Page>, p2: Seq<Page>, b: int, st: BlockStore)
    requires
        st.links_wf(),
        st.pages@ == p1,
        0 <= b < p1.len(),
        p1.len() == p2.len(),
        forall|x: int|
            0 <= x < p1.len() ==> (#[trigger] p2[x].next) == p1[x].next && p2[x].head
                == p1[x].head,
        forall|x: int|
            0 <= x < p1.len() ==> spec_items_compatible(p1[x].items@, (#[trigger] p2[x]).items@),
    ensures
        spec_chain_blocks(p2, b) == spec_chain_blocks(p1, b),
        spec_items_compatible(spec_chain_items(p1, b), spec_chain_items(p2, b)),
    decreases p1.len() - b,
{
    let c = spec_chain_blocks(p1, b);
    assert(c[0] == b);
    assert(c.contains(b));
    assert(st.block_wf(b));
    let nxt = p1[b].next as int;
    if p1[b].next != INVALID_BLOCK_NUMBER {
        assert(b < nxt < p1.len());
        lemma_chain_compatible(p1, p2, nxt, st);
        assert(spec_chain_blocks(p2, b) == seq![b] + spec_chain_blocks(p2, nxt));
        assert(spec_chain_items(p2, b) == p2[b].items@ + spec_chain_items(p2, nxt));
        assert(spec_chain_items(p1, b) == p1[b].items@ + spec_chain_items(p1, nxt));
        assert forall|j: int|
            0 <= j < spec_chain_items(p1, b).len() implies crate::store::spec_record_size(
            #[trigger] spec_chain_items(p2, b)[j],
        ) == crate::store::spec_record_size(spec_chain_items(p1, b)[j])
            && crate::store::spec_record_kind(spec_chain_items(p2, b)[j])
            == crate::store::spec_record_kind(spec_chain_items(p1, b)[j]) && (
        crate::store::spec_record_kind(spec_chain_items(p1, b)[j])
            == crate::store::RecordKind::Dir ==> crate::store::spec_dir_record(
            spec_chain_items(p2, b)[j],
        ).start == crate::store::spec_dir_record(spec_chain_items(p1, b)[j]).start
            && crate::store::spec_dir_record(spec_chain_items(p2, b)[j]).path
            == crate::store::spec_dir_record(spec_chain_items(p1, b)[j]).path) by {
            if j < p1[b].items@.len() {
                assert(spec_chain_items(p1, b)[j] == p1[b].items@[j]);
                assert(spec_chain_items(p2, b)[j] == p2[b].items@[j]);
            } else {
                assert(spec_chain_items(p1, b)[j] == spec_chain_items(p1, nxt)[j
                    - p1[b].items@.len()]);
                assert(spec_chain_items(p2, b)[j] == spec_chain_items(p2, nxt)[j
                    - p1[b].items@.len()]);
            }
        }
    } else {
        assert(spec_chain_blocks(p2, b) == seq![b]);
        assert(spec_chain_items(p2, b) == p2[b].items@);
        assert(spec_chain_items(p1, b) == p1[b].items@);
    }
}

/// A chain member is a real block.
pub proof fn lemma_chain_member_in_range(pages: Seq<Page>, b: int, x: int)
    requires
        spec_chain_blocks(pages, b).contains(x),
    ensures
        0 <= x < pages.len(),
{
    if 0 <= b < pages.len() {
        lemma_chain_blocks_bounds(pages, b);
        let i = choose|i: int|
            0 <= i < spec_chain_blocks(pages, b).len() && spec_chain_blocks(pages, b)[i] == x;
    } else {
        assert(spec_chain_blocks(pages, b) =~= Seq::<int>::empty());
    }
}

/// A block of a chain whose next pointer is valid is followed in the
/// chain by that next block.
pub proof fn lemma_chain_member_next(pages: Seq<Page>, s: int, x: int)
    requires
        0 <= s < pages.len(),
        spec_chain_blocks(pages, s).contains(x),
        pages[x].next != INVALID_BLOCK_NUMBER,
        x < pages[x].next < pages.len(),
    ensures
        spec_chain_blocks(pages, s).contains(pages[x].next as int),
    decreases pages.len() - s,
{
    let c = spec_chain_blocks(pages, s);
    let nxt = pages[s].next as int;
    if x == s {
        assert(c == seq![s] + spec_chain_blocks(pages, nxt));
        lemma_chain_blocks_bounds(pages, nxt);
        assert(spec_chain_blocks(pages, nxt)[0] == nxt);
        assert(c[1] == nxt);
    } else {
        assert(pages[s].next != INVALID_BLOCK_NUMBER && s < nxt < pages.len()) by {
            if !(pages[s].next != INVALID_BLOCK_NUMBER && s < nxt < pages.len()) {
                assert(c == seq![s]);
            }
        }
        let ctail = spec_chain_blocks(pages, nxt);
        assert(c == seq![s] + ctail);
        let i = choose|i: int| 0 <= i < c.len() && c[i] == x;
        assert(i != 0);
        assert(ctail[i - 1] == x);
        assert(ctail.contains(x));
        lemma_chain_member_next(pages, nxt, x);
        let j = choose|j: int| 0 <= j < ctail.len() && ctail[j] == pages[x].next as int;
        assert(c[j + 1] == pages[x].next as int);
    }
}

} // verus!
