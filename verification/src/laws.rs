//! Laws of the directory layer, stated and proved once over the spec
//! functions the executable contracts speak of.

use vstd::prelude::*;

use crate::block::DirectoryEntry;
use crate::block::SegmentId;
use crate::block::SegmentMetaEntry;
use crate::block::Snapshot;
use crate::block::INVALID_TRANSACTION_ID;
use crate::bytes::spec_chunks;
use crate::bytes::spec_write_once;
use crate::directory::lemma_first_match_found;
use crate::directory::lemma_first_match_in_bounds;
use crate::directory::spec_first_match;
use crate::metas::spec_included;
use crate::tombstone::spec_dir_matches;
use crate::tombstone::spec_tombstone_dir;
use crate::tombstone::spec_tombstone_dir_entry;

verus! {

/// A freshly appended directory entry is found: after an entry whose path
/// occurs nowhere else is appended, looking its path up returns exactly
/// that entry, for every reader — the host's page-level locking shows a
/// committed append to every snapshot that can see its transaction.
pub proof fn lemma_lookup_after_append(entries: Seq<DirectoryEntry>, e: DirectoryEntry)
    requires
        forall|k: int| 0 <= k < entries.len() ==> (#[trigger] entries[k].path@) != e.path@,
    ensures
        spec_first_match(entries.push(e), e.path@) == Some(entries.len() as int),
        entries.push(e)[entries.len() as int] == e,
{
    let appended = entries.push(e);
    assert(appended[entries.len() as int] == e);
    assert(forall|k: int|
        0 <= k < entries.len() ==> (#[trigger] appended[k].path@) != e.path@);
    lemma_first_match_found(appended, e.path@, entries.len() as int);
}

/// Lookup survives tombstoning: the pass never moves, adds or removes an
/// entry and never touches a path, so a path found before is found at the
/// same place after, now carrying the pass's `xmax` exactly when it
/// matched.  An appended entry thus stays visible to lookup until — and
/// beyond — its tombstone; only its `xmax` tells the difference.
pub proof fn lemma_lookup_survives_tombstone(
    entries: Seq<DirectoryEntry>,
    ids: Seq<SegmentId>,
    xmax: u64,
    p: Seq<char>,
)
    ensures
        spec_first_match(spec_tombstone_dir(entries, ids, xmax), p) == spec_first_match(entries, p),
        spec_first_match(entries, p) matches Some(n) ==> spec_tombstone_dir(entries, ids, xmax)[n]
            == spec_tombstone_dir_entry(entries[n], ids, xmax),
    decreases entries.len(),
{
    let mapped = spec_tombstone_dir(entries, ids, xmax);
    if entries.len() == 0 {
        assert(mapped.len() == 0);
    } else {
        assert(mapped[0] == spec_tombstone_dir_entry(entries[0], ids, xmax));
        assert(mapped[0].path@ == entries[0].path@);
        lemma_lookup_survives_tombstone(entries.skip(1), ids, xmax, p);
        assert(mapped.skip(1) =~= spec_tombstone_dir(entries.skip(1), ids, xmax));
        if entries[0].path@ == p {
            assert(spec_first_match(entries, p) == Some(0int));
            assert(spec_first_match(mapped, p) == Some(0int));
        } else {
            match spec_first_match(entries.skip(1), p) {
                None => {
                    assert(spec_first_match(entries, p) is None);
                    assert(spec_first_match(mapped, p) is None);
                },
                Some(m) => {
                    assert(spec_first_match(entries, p) == Some(m + 1));
                    assert(spec_first_match(mapped, p) == Some(m + 1));
                    lemma_first_match_in_bounds(entries.skip(1), p);
                    assert(0 <= m < entries.skip(1).len());
                    assert(mapped[m + 1] == mapped.skip(1)[m]);
                    assert(entries[m + 1] == entries.skip(1)[m]);
                    assert(mapped.skip(1)[m] == spec_tombstone_dir_entry(
                        entries.skip(1)[m],
                        ids,
                        xmax,
                    ));
                },
            }
        }
    }
}

/// Write-once idempotence: writing the same bytes onto a write-once chain
/// twice leaves exactly what one write left — in particular the same
/// on-disk byte length.
pub proof fn lemma_write_once_idempotent(chain: Seq<Seq<u8>>, b: Seq<u8>)
    ensures
        spec_write_once(spec_write_once(chain, b), b) == spec_write_once(chain, b),
{
    if chain.len() == 0 {
        if spec_chunks(b).len() == 0 {
            assert(b.len() == 0);
        }
    }
}

/// Snapshot visibility: in strict mode an assembly returns a segment
/// entry exactly when its `xmin` is visible to the snapshot and its
/// `xmax` is invalid or not yet visible; it never returns an entry whose
/// tombstone committed at or before the snapshot's horizon.
pub proof fn lemma_snapshot_visibility(e: SegmentMetaEntry, snapshot: Snapshot)
    ensures
        spec_included(e, snapshot, true) == (crate::block::spec_xid_visible(e.xmin, snapshot.txn)
            && !crate::block::spec_xid_visible(e.xmax, snapshot.txn)),
        spec_included(e, snapshot, true) ==> !(e.xmax != INVALID_TRANSACTION_ID && e.xmax
            <= snapshot.txn),
{
}

} // verus!
