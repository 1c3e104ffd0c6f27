use block_directory::block::DirectoryEntry;
use block_directory::block::StoreError;
use block_directory::block::INVALID_TRANSACTION_ID;
use block_directory::block::SCHEMA_START;
use block_directory::directory::BlockDirectory;
use block_directory::directory::DirectoryLookup;
use block_directory::directory::BlockingDirectory;
use block_directory::metas::save_schema;
use block_directory::store::BlockStore;
use block_directory::store::PAGE_CAPACITY;

fn entry(path: &str, start: u32, xmin: u64) -> DirectoryEntry {
    DirectoryEntry { path: String::from(path), start, xmin, xmax: INVALID_TRANSACTION_ID }
}

#[test]
fn new_store_has_empty_chains() {
    let store = BlockStore::new(true);
    assert!(store.chain_is_empty(SCHEMA_START));
    assert!(store.list_managed_files().is_empty());
    assert_eq!(store.read_all(SCHEMA_START), Vec::<u8>::new());
}

#[test]
fn bytes_round_trip_single_page() {
    let mut store = BlockStore::new(false);
    let chain = store.allocate_chain();
    let data: Vec<u8> = vec![1, 2, 3, 4, 5];
    store.write_bytes(chain, &data);
    assert_eq!(store.read_all(chain), data);
}

#[test]
fn bytes_round_trip_many_pages() {
    let mut store = BlockStore::new(false);
    let chain = store.allocate_chain();
    let mut data: Vec<u8> = Vec::new();
    let total = 3 * (PAGE_CAPACITY as usize) + 17;
    for i in 0..total {
        data.push((i % 251) as u8);
    }
    store.write_bytes(chain, &data);
    assert_eq!(store.read_all(chain), data);
}

#[test]
fn write_once_keeps_first_contents() {
    let mut store = BlockStore::new(false);
    let chain = store.allocate_chain();
    let first: Vec<u8> = vec![9, 9, 9];
    let second: Vec<u8> = vec![1];
    store.write_bytes(chain, &first);
    store.write_bytes(chain, &second);
    assert_eq!(store.read_all(chain), first);
}

#[test]
fn schema_write_twice_same_length() {
    let mut store = BlockStore::new(true);
    let blob: Vec<u8> = vec![123, 34, 102, 34, 125];
    save_schema(&mut store, &blob);
    let once = store.read_all(SCHEMA_START).len();
    save_schema(&mut store, &blob);
    let twice = store.read_all(SCHEMA_START).len();
    assert_eq!(once, twice);
    assert_eq!(once, blob.len());
}

#[test]
fn lookup_finds_appended_entry() {
    let mut store = BlockStore::new(true);
    let chain = store.allocate_chain();
    store.add_directory_entry(entry("00000000-0000-0000-0000-000000000001.store", chain, 7));
    let path = String::from("00000000-0000-0000-0000-000000000001.store");
    let (found, block, slot) = store.directory_lookup(&path).unwrap();
    assert_eq!(found.path, path);
    assert_eq!(found.start, chain);
    assert_eq!(found.xmin, 7);
    assert!(!found.deleted());
    assert_eq!(block, 0);
    assert_eq!(slot, 0);
}

#[test]
fn lookup_missing_path_reports_not_found() {
    let store = BlockStore::new(true);
    let path = String::from("missing.ext");
    assert!(matches!(store.directory_lookup(&path), Err(StoreError::NotFound)));
}

#[test]
fn lookup_returns_first_match() {
    let mut store = BlockStore::new(true);
    let c1 = store.allocate_chain();
    let c2 = store.allocate_chain();
    store.add_directory_entry(entry("00000000-0000-0000-0000-000000000001.pos", c1, 1));
    store.add_directory_entry(entry("00000000-0000-0000-0000-000000000001.pos", c2, 2));
    let path = String::from("00000000-0000-0000-0000-000000000001.pos");
    let (found, _, _) = store.directory_lookup(&path).unwrap();
    assert_eq!(found.start, c1);
}

#[test]
fn list_managed_files_deduplicates() {
    let mut store = BlockStore::new(true);
    let c1 = store.allocate_chain();
    let c2 = store.allocate_chain();
    store.add_directory_entry(entry("00000000-0000-0000-0000-000000000001.idx", c1, 1));
    store.add_directory_entry(entry("00000000-0000-0000-0000-000000000002.idx", c2, 1));
    store.add_directory_entry(entry("00000000-0000-0000-0000-000000000001.idx", c1, 2));
    let files = store.list_managed_files();
    assert_eq!(files.len(), 2);
    assert!(files.contains(&String::from("00000000-0000-0000-0000-000000000001.idx")));
    assert!(files.contains(&String::from("00000000-0000-0000-0000-000000000002.idx")));
}

#[test]
fn many_entries_overflow_onto_new_pages() {
    let mut store = BlockStore::new(true);
    let chain = store.allocate_chain();
    let mut paths: Vec<String> = Vec::new();
    for i in 0..300u32 {
        let path = format!("{:08x}0000-0000-0000-0000-000000000000.term", i);
        store.add_directory_entry(entry(&path, chain, 1));
        paths.push(path);
    }
    for path in &paths {
        let (found, _, _) = store.directory_lookup(path).unwrap();
        assert_eq!(&found.path, path);
    }
    assert_eq!(store.list_managed_files().len(), 300);
}

#[test]
fn mark_deleted_flags_chain_pages() {
    let mut store = BlockStore::new(false);
    let chain = store.allocate_chain();
    let data: Vec<u8> = vec![0; 2 * (PAGE_CAPACITY as usize)];
    store.write_bytes(chain, &data);
    store.mark_deleted(chain);
    assert!(store.pages[chain as usize].deleted);
    // the contents are still readable until physical reclamation
    assert_eq!(store.read_all(chain).len(), data.len());
}

#[test]
fn blocking_directory_resolves_and_clones() {
    let mut store = BlockStore::new(true);
    let chain = store.allocate_chain();
    store.add_directory_entry(entry("00000000-0000-0000-0000-00000000000a.fast", chain, 3));
    let dir = BlockingDirectory { store };
    assert!(dir.need_wal());
    let copy = dir.box_clone();
    let path = String::from("00000000-0000-0000-0000-00000000000a.fast");
    let (found, _, _) = dir.directory_lookup(&path).unwrap();
    let (found2, _, _) = copy.directory_lookup(&path).unwrap();
    assert_eq!(found.start, found2.start);
    assert_eq!(dir.store().pages.len(), copy.store().pages.len());
}

#[test]
fn open_segment_file_round_trip() {
    let mut store = BlockStore::new(true);
    let chain = store.allocate_chain();
    let contents: Vec<u8> = vec![42; 10_000];
    store.write_bytes(chain, &contents);
    store.add_directory_entry(entry("00000000-0000-0000-0000-0000000000cc.store", chain, 5));
    let path = String::from("00000000-0000-0000-0000-0000000000cc.store");
    assert_eq!(store.open_segment_file(&path).unwrap(), contents);
    let missing = String::from("00000000-0000-0000-0000-0000000000dd.store");
    assert!(matches!(store.open_segment_file(&missing), Err(StoreError::NotFound)));
}
