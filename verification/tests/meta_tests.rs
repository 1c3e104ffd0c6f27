use block_directory::block::xid_visible;
use block_directory::block::DeleteMeta;
use block_directory::block::SegmentMetaEntry;
use block_directory::block::DeleteMetaEntry;
use block_directory::block::DirectoryEntry;
use block_directory::block::SegmentId;
use block_directory::block::Snapshot;
use block_directory::block::StoreError;
use block_directory::block::INVALID_TRANSACTION_ID;
use block_directory::metas::garbage_collect;
use block_directory::metas::get_deleted_ids;
use block_directory::metas::latest_delete_for;
use block_directory::metas::load_metas;
use block_directory::metas::save_delete_metas;
use block_directory::metas::save_new_metas;
use block_directory::metas::save_schema;
use block_directory::metas::save_settings;
use block_directory::metas::IndexMeta;
use block_directory::metas::SegmentMeta;
use block_directory::store::BlockStore;

fn sid(n: u128) -> SegmentId {
    SegmentId { bits: n }
}

fn seg(id: u128, max_doc: u32, deletes: Option<DeleteMeta>) -> SegmentMeta {
    SegmentMeta { segment_id: sid(id), max_doc, deletes }
}

fn meta_of(segments: Vec<SegmentMeta>, opstamp: u64) -> IndexMeta {
    IndexMeta { schema: vec![1], settings: vec![2], segments, opstamp }
}

fn snapshot_at(txn: u64) -> Snapshot {
    Snapshot { txn, oldest_active_txn: txn }
}

#[test]
fn obsolete_set_of_a_merge() {
    // previous = {A: 10 docs, B: 5 docs}, new = {C: 15 docs}: the merge
    // consumed A and B, so exactly they are obsolete
    let previous = meta_of(vec![seg(0xa, 10, None), seg(0xb, 5, None)], 1);
    let new = meta_of(vec![seg(0xc, 15, None)], 2);
    let obsolete = get_deleted_ids(&new, &previous);
    assert_eq!(obsolete.len(), 2);
    assert!(obsolete.contains(&sid(0xa)));
    assert!(obsolete.contains(&sid(0xb)));
    assert!(!obsolete.contains(&sid(0xc)));
}

#[test]
fn emptied_segment_is_obsolete() {
    let previous = meta_of(vec![seg(0xa, 10, None)], 1);
    let emptied = seg(0xa, 10, Some(DeleteMeta { num_deleted_docs: 10, opstamp: 2 }));
    let new = meta_of(vec![emptied], 2);
    let obsolete = get_deleted_ids(&new, &previous);
    assert_eq!(obsolete.len(), 1);
    assert!(obsolete.contains(&sid(0xa)));
}

#[test]
fn surviving_segment_is_not_obsolete() {
    let previous = meta_of(vec![seg(0xa, 10, None)], 1);
    let new = meta_of(vec![seg(0xa, 10, None), seg(0xb, 4, None)], 2);
    let obsolete = get_deleted_ids(&new, &previous);
    assert!(obsolete.is_empty());
}

#[test]
fn latest_delete_picks_highest_opstamp() {
    let dels = vec![
        DeleteMetaEntry {
            segment_id: sid(1),
            num_deleted_docs: 2,
            opstamp: 5,
            xmax: INVALID_TRANSACTION_ID,
        },
        DeleteMetaEntry {
            segment_id: sid(1),
            num_deleted_docs: 7,
            opstamp: 9,
            xmax: INVALID_TRANSACTION_ID,
        },
        DeleteMetaEntry {
            segment_id: sid(2),
            num_deleted_docs: 1,
            opstamp: 6,
            xmax: INVALID_TRANSACTION_ID,
        },
    ];
    assert_eq!(
        latest_delete_for(&dels, sid(1)),
        Some(DeleteMeta { num_deleted_docs: 7, opstamp: 9 })
    );
    assert_eq!(
        latest_delete_for(&dels, sid(2)),
        Some(DeleteMeta { num_deleted_docs: 1, opstamp: 6 })
    );
    assert_eq!(latest_delete_for(&dels, sid(3)), None);
}

#[test]
fn load_metas_without_schema_is_serialization_error() {
    let store = BlockStore::new(true);
    let res = load_metas(&store, snapshot_at(10), true);
    assert_eq!(res.err(), Some(StoreError::Serialization));
}

#[test]
fn save_delete_metas_keeps_only_matching_opstamp() {
    let mut store = BlockStore::new(true);
    let changed = seg(1, 10, Some(DeleteMeta { num_deleted_docs: 3, opstamp: 8 }));
    let stale = seg(2, 10, Some(DeleteMeta { num_deleted_docs: 1, opstamp: 7 }));
    let untouched = seg(3, 10, None);
    let meta = meta_of(vec![changed, stale, untouched], 8);
    save_delete_metas(&mut store, &meta, 8);
    let empty = meta_of(vec![], 0);
    save_schema(&mut store, &vec![1]);
    save_settings(&mut store, &vec![2]);
    save_new_metas(&mut store, &meta, &empty, 50, 8);
    let assembled = load_metas(&store, snapshot_at(100), true).unwrap();
    let one = assembled.segments.iter().find(|s| s.segment_id == sid(1)).unwrap();
    assert_eq!(one.deletes, Some(DeleteMeta { num_deleted_docs: 3, opstamp: 8 }));
    let two = assembled.segments.iter().find(|s| s.segment_id == sid(2)).unwrap();
    assert_eq!(two.deletes, None);
}

#[test]
fn assembled_opstamp_is_maximum_seen() {
    let mut store = BlockStore::new(true);
    save_schema(&mut store, &vec![1]);
    save_settings(&mut store, &vec![2]);
    let empty = meta_of(vec![], 0);
    let first = meta_of(vec![seg(1, 10, None)], 3);
    save_new_metas(&mut store, &first, &empty, 10, 3);
    let second = meta_of(
        vec![seg(1, 10, Some(DeleteMeta { num_deleted_docs: 2, opstamp: 6 }))],
        6,
    );
    save_delete_metas(&mut store, &second, 6);
    let assembled = load_metas(&store, snapshot_at(100), true).unwrap();
    assert_eq!(assembled.opstamp, 6);
    assert_eq!(assembled.schema, vec![1]);
    assert_eq!(assembled.settings, vec![2]);
}

#[test]
fn snapshot_visibility_filters_by_xmin_and_xmax() {
    let mut store = BlockStore::new(true);
    save_schema(&mut store, &vec![1]);
    save_settings(&mut store, &vec![2]);
    let empty = meta_of(vec![], 0);
    let first = meta_of(vec![seg(0xa, 10, None)], 1);
    save_new_metas(&mut store, &first, &empty, 100, 1);
    // a reader older than the creating transaction sees nothing
    let before = load_metas(&store, snapshot_at(50), true).unwrap();
    assert!(before.segments.is_empty());
    // a reader after it sees the segment
    let after = load_metas(&store, snapshot_at(150), true).unwrap();
    assert_eq!(after.segments.len(), 1);
    assert_eq!(after.segments[0].segment_id, sid(0xa));
}

#[test]
fn merge_end_to_end() {
    // write segment A at transaction 100, merge it into B at 200, and
    // watch the two snapshots disagree exactly as MVCC demands
    let mut store = BlockStore::new(true);
    save_schema(&mut store, &vec![10, 20]);
    save_settings(&mut store, &vec![30]);

    let a_chain = store.allocate_chain();
    store.write_bytes(a_chain, &vec![1, 2, 3]);
    let a_path = String::from("00000000-0000-0000-0000-0000000000aa.store");
    store.add_directory_entry(DirectoryEntry {
        path: a_path.clone(),
        start: a_chain,
        xmin: 100,
        xmax: INVALID_TRANSACTION_ID,
    });
    let empty = meta_of(vec![], 0);
    let meta_a = meta_of(vec![seg(0xaa, 10, None)], 1);
    save_new_metas(&mut store, &meta_a, &empty, 100, 1);

    // the merge consumes A and produces B
    let b_chain = store.allocate_chain();
    store.write_bytes(b_chain, &vec![4, 5]);
    store.add_directory_entry(DirectoryEntry {
        path: String::from("00000000-0000-0000-0000-0000000000bb.store"),
        start: b_chain,
        xmin: 200,
        xmax: INVALID_TRANSACTION_ID,
    });
    let meta_b = meta_of(vec![seg(0xbb, 10, None)], 2);
    let obsolete = garbage_collect(&mut store, &meta_b, &meta_a, 2, 200);
    assert_eq!(obsolete, vec![sid(0xaa)]);

    // the tombstoned entry is still found, marked deleted
    let (found, _, _) = store.directory_lookup(&a_path).unwrap();
    assert!(found.deleted());
    assert_eq!(found.xmax, 200);
    // A's backing chain is flagged for reclamation
    assert!(store.pages[a_chain as usize].deleted);
    assert!(!store.pages[b_chain as usize].deleted);

    // a snapshot from before the merge still reads A and not B
    let old_view = load_metas(&store, snapshot_at(150), true).unwrap();
    assert_eq!(old_view.segments.len(), 1);
    assert_eq!(old_view.segments[0].segment_id, sid(0xaa));

    // a snapshot from after the merge reads B and not A
    let new_view = load_metas(&store, snapshot_at(250), true).unwrap();
    assert_eq!(new_view.segments.len(), 1);
    assert_eq!(new_view.segments[0].segment_id, sid(0xbb));
}

#[test]
fn relaxed_mode_keeps_segments_a_reader_may_need() {
    let mut store = BlockStore::new(true);
    save_schema(&mut store, &vec![1]);
    save_settings(&mut store, &vec![2]);
    let empty = meta_of(vec![], 0);
    let meta_a = meta_of(vec![seg(0xaa, 10, None)], 1);
    save_new_metas(&mut store, &meta_a, &empty, 100, 1);
    store.delete_unused_metas(&vec![sid(0xaa)], 200);
    // strictly, a snapshot at 250 no longer sees A
    let strict = load_metas(&store, Snapshot { txn: 250, oldest_active_txn: 150 }, true).unwrap();
    assert!(strict.segments.is_empty());
    // relaxed, the garbage collector keeps A while a snapshot at 150 may
    // still need it
    let relaxed = load_metas(&store, Snapshot { txn: 250, oldest_active_txn: 150 }, false).unwrap();
    assert_eq!(relaxed.segments.len(), 1);
    // once every active snapshot is past the tombstone, A is gone in
    // relaxed mode too
    let gone = load_metas(&store, Snapshot { txn: 250, oldest_active_txn: 220 }, false).unwrap();
    assert!(gone.segments.is_empty());
}

#[test]
fn xid_visibility_rules() {
    assert!(xid_visible(5, 10));
    assert!(xid_visible(10, 10));
    assert!(!xid_visible(11, 10));
    assert!(!xid_visible(INVALID_TRANSACTION_ID, 10));
    let live = SegmentMetaEntry {
        segment_id: sid(1),
        max_doc: 4,
        opstamp: 1,
        xmin: 5,
        xmax: INVALID_TRANSACTION_ID,
    };
    assert!(!live.deleted());
    assert!(live.visible(snapshot_at(7)));
    assert!(!live.visible(snapshot_at(3)));
    let dead = SegmentMetaEntry { xmax: 8, ..live };
    assert!(dead.deleted());
    assert!(dead.visible(snapshot_at(7)));
    assert!(!dead.visible(snapshot_at(9)));
    assert!(!dead.recyclable(Snapshot { txn: 9, oldest_active_txn: 7 }));
    assert!(dead.recyclable(Snapshot { txn: 9, oldest_active_txn: 8 }));
}

#[test]
fn merge_tombstones_delete_metadata_too() {
    let mut store = BlockStore::new(true);
    save_schema(&mut store, &vec![1]);
    save_settings(&mut store, &vec![2]);
    let empty = meta_of(vec![], 0);
    let a_with_deletes = seg(0xaa, 10, Some(DeleteMeta { num_deleted_docs: 3, opstamp: 2 }));
    let meta_a = meta_of(vec![a_with_deletes], 2);
    save_new_metas(&mut store, &meta_a, &empty, 100, 2);
    save_delete_metas(&mut store, &meta_a, 2);

    let meta_b = meta_of(vec![seg(0xbb, 7, None)], 3);
    let obsolete = garbage_collect(&mut store, &meta_b, &meta_a, 3, 200);
    assert_eq!(obsolete, vec![sid(0xaa)]);

    // a pre-merge snapshot still reads A together with its folded deletes
    let old_view = load_metas(&store, snapshot_at(150), true).unwrap();
    assert_eq!(old_view.segments.len(), 1);
    assert_eq!(old_view.segments[0].segment_id, sid(0xaa));
    assert_eq!(
        old_view.segments[0].deletes,
        Some(DeleteMeta { num_deleted_docs: 3, opstamp: 2 })
    );
    assert_eq!(old_view.opstamp, 2);
}
