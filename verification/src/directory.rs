//! The directory index: a virtual filesystem mapping logical
//! segment-file paths to the block chains that back them.
//!
//! Lookup is a linear shared scan of the directory chain matching by
//! exact path equality, returning the first hit together with the block
//! and slot that hold it — the same coordinates a tombstoning pass would
//! target.  Listing every managed path serves the host's backup
//! machinery.

use vstd::prelude::*;

use crate::block::DirectoryEntry;
use crate::block::StoreError;
use crate::block::DIRECTORY_START;
use crate::block::INVALID_BLOCK_NUMBER;
use crate::chain::lemma_chain_blocks_bounds;
use crate::chain::lemma_chain_decompose;
use crate::chain::lemma_chain_member_next;
use crate::chain::lemma_chain_upto_extend;
use crate::store::spec_chain_blocks;
use crate::store::spec_chain_items;
use crate::store::spec_chain_items_upto;
use crate::chain::spec_items_compatible;
use crate::store::spec_dir_record;
use crate::store::spec_record_kind;
use crate::store::BlockStore;
use crate::store::Record;
use crate::store::RecordKind;

verus! {

/// Index of the first directory entry whose path equals `path`.
pub open spec fn spec_first_match(entries: Seq<DirectoryEntry>, path: Seq<char>) -> Option<int>
    decreases entries.len(),
{
    if entries.len() == 0 {
        None
    } else if entries[0].path@ == path {
        Some(0int)
    } else {
        match spec_first_match(entries.skip(1), path) {
            None => None,
            Some(i) => Some(i + 1),
        }
    }
}

/// A match at `n` behind nothing but misses is the first match.
pub proof fn lemma_first_match_found(entries: Seq<DirectoryEntry>, path: Seq<char>, n: int)
    requires
        0 <= n < entries.len(),
        entries[n].path@ == path,
        forall|k: int| 0 <= k < n ==> (#[trigger] entries[k].path@) != path,
    ensures
        spec_first_match(entries, path) == Some(n),
    decreases n,
{
    if n == 0 {
    } else {
        assert(entries[0].path@ != path);
        let tail = entries.skip(1);
        assert(tail[n - 1] == entries[n]);
        assert(forall|k: int| 0 <= k < n - 1 ==> (#[trigger] tail[k].path@) != path) by {
            assert(forall|k: int| 0 <= k < n - 1 ==> tail[k] == entries[k + 1]);
        }
        lemma_first_match_found(tail, path, n - 1);
    }
}

/// A first match indexes the entries it was found in.
pub proof fn lemma_first_match_in_bounds(entries: Seq<DirectoryEntry>, p: Seq<char>)
    ensures
        spec_first_match(entries, p) matches Some(n) ==> 0 <= n < entries.len(),
    decreases entries.len(),
{
    if entries.len() > 0 && entries[0].path@ != p {
        lemma_first_match_in_bounds(entries.skip(1), p);
    }
}

/// With no entry matching there is no first match.
pub proof fn lemma_first_match_none(entries: Seq<DirectoryEntry>, path: Seq<char>)
    requires
        forall|k: int| 0 <= k < entries.len() ==> (#[trigger] entries[k].path@) != path,
    ensures
        spec_first_match(entries, path) is None,
    decreases entries.len(),
{
    if entries.len() == 0 {
    } else {
        let tail = entries.skip(1);
        assert(forall|k: int| 0 <= k < tail.len() ==> tail[k] == entries[k + 1]);
        lemma_first_match_none(tail, path);
    }
}

/// Some string of `v` reads exactly as `p`.
pub open spec fn spec_has_string(v: Seq<String>, p: Seq<char>) -> bool {
    exists|j: int| 0 <= j < v.len() && (#[trigger] v[j]@) == p
}

/// Some directory entry of `entries` carries path `p`.
pub open spec fn spec_has_path(entries: Seq<DirectoryEntry>, p: Seq<char>) -> bool {
    exists|i: int| 0 <= i < entries.len() && (#[trigger] entries[i].path@) == p
}

impl BlockStore {
    /// Find the directory entry for `path` by a linear scan of the
    /// directory chain, along with the block and slot holding it.  The
    /// entry returned is the first whose path equals `path` exactly;
    /// a path nowhere in the directory is reported, never invented.
    pub fn directory_lookup(&self, path: &String) -> (res: Result<
        (DirectoryEntry, u32, usize),
        StoreError,
    >)
        requires
            self.wf(),
        ensures
            (spec_first_match(self.dir_entries(), path@) is None) <==> (res == Err::<
                (DirectoryEntry, u32, usize),
                StoreError,
            >(StoreError::NotFound)),
            res is Err ==> res == Err::<(DirectoryEntry, u32, usize), StoreError>(
                StoreError::NotFound,
            ),
            res matches Ok(hit) ==> {
                let n = spec_first_match(self.dir_entries(), path@)->Some_0;
                &&& spec_first_match(self.dir_entries(), path@) == Some(n)
                &&& hit.0 == self.dir_entries()[n]
                &&& hit.0.path@ == path@
                &&& spec_chain_blocks(self.pages@, DIRECTORY_START as int).contains(hit.1 as int)
                &&& (hit.2 as int) < self.pages@[hit.1 as int].items@.len()
                &&& self.pages@[hit.1 as int].items@[hit.2 as int] == Record::Dir(hit.0)
                &&& n == spec_chain_items_upto(
                    self.pages@,
                    DIRECTORY_START as int,
                    hit.1 as int,
                ).len() + hit.2
            },
    {
        let ghost pages = self.pages@;
        let ghost start = DIRECTORY_START as int;
        let ghost entries = self.dir_entries();
        let mut b: u32 = DIRECTORY_START;
        proof {
            lemma_chain_blocks_bounds(pages, start);
            assert(spec_chain_blocks(pages, start)[0] == start);
            assert(spec_chain_blocks(pages, start).contains(start));
            assert(spec_chain_items_upto(pages, start, start) =~= Seq::<Record>::empty());
            assert forall|x: int| #[trigger]
                spec_chain_blocks(pages, start).contains(x) implies (pages[x].next
                != INVALID_BLOCK_NUMBER ==> x < pages[x].next < pages.len()) by {
                assert(self.block_wf(x));
            }
        }
        loop
            invariant
                self.wf(),
                pages == self.pages@,
                start == DIRECTORY_START as int,
                entries == self.dir_entries(),
                (b as int) < pages.len(),
                spec_chain_blocks(pages, start).contains(b as int),
                forall|k: int|
                    0 <= k < spec_chain_items_upto(pages, start, b as int).len() ==> (
                    #[trigger] entries[k].path@) != path@,
                spec_chain_items_upto(pages, start, b as int).len() <= entries.len(),
            decreases pages.len() - b,
        {
            let ghost before = spec_chain_items_upto(pages, start, b as int);
            proof {
                lemma_chain_decompose(pages, start, b as int);
            }
            let n_items = self.pages[b as usize].items.len();
            let mut j: usize = 0;
            while j < n_items
                invariant
                    self.wf(),
                    pages == self.pages@,
                    start == DIRECTORY_START as int,
                    entries == self.dir_entries(),
                    (b as int) < pages.len(),
                    spec_chain_blocks(pages, start).contains(b as int),
                    before == spec_chain_items_upto(pages, start, b as int),
                    spec_chain_items(pages, start) == before + spec_chain_items(pages, b as int),
                    n_items == pages[b as int].items@.len(),
                    j <= n_items,
                    forall|k: int|
                        0 <= k < before.len() + j ==> (#[trigger] entries[k].path@) != path@,
                    before.len() + n_items <= entries.len(),
                decreases n_items - j,
            {
                let ghost n = before.len() + j;
                proof {
                    assert(spec_chain_items(pages, b as int)[j as int] == pages[b as int].items@[j as int]);
                    assert(spec_chain_items(pages, start)[n as int] == pages[b as int].items@[j as int]);
                    assert(spec_record_kind(spec_chain_items(pages, start)[n as int])
                        == RecordKind::Dir);
                }
                match &self.pages[b as usize].items[j] {
                    Record::Dir(e) => {
                        proof {
                            assert(entries[n as int] == spec_dir_record(
                                spec_chain_items(pages, start)[n as int],
                            ));
                            assert(entries[n as int] == *e);
                        }
                        if e.path == *path {
                            proof {
                                lemma_first_match_found(entries, path@, n as int);
                            }
                            return Ok((e.duplicate(), b, j));
                        }
                    },
                    _ => {
                        proof {
                            assert(false);
                        }
                    },
                }
                j = j + 1;
            }
            if self.pages[b as usize].next == INVALID_BLOCK_NUMBER {
                proof {
                    assert(spec_chain_items(pages, b as int) == pages[b as int].items@);
                    assert(entries.len() == before.len() + n_items);
                    lemma_first_match_none(entries, path@);
                }
                return Err(StoreError::NotFound);
            }
            proof {
                assert(self.block_wf(b as int));
                assert forall|x: int| #[trigger]
                    spec_chain_blocks(pages, start).contains(x) implies (pages[x].next
                    != INVALID_BLOCK_NUMBER ==> x < pages[x].next < pages.len()) by {
                    lemma_chain_blocks_bounds(pages, start);
                    assert(self.block_wf(x));
                }
                lemma_chain_upto_extend(pages, start, b as int);
                lemma_chain_member_next(pages, start, b as int);
                assert(spec_chain_items(pages, start).len() == entries.len());
            }
            b = self.pages[b as usize].next;
        }
    }

    /// Open a segment component file for reading: resolve its path
    /// through the directory, then read the backing byte-stream chain
    /// whole.
    pub fn open_segment_file(&self, path: &String) -> (res: Result<Vec<u8>, StoreError>)
        requires
            self.wf(),
        ensures
            (spec_first_match(self.dir_entries(), path@) is None) <==> (res == Err::<
                Vec<u8>,
                StoreError,
            >(StoreError::NotFound)),
            res is Err ==> res == Err::<Vec<u8>, StoreError>(StoreError::NotFound),
            res matches Ok(bytes) ==> {
                let n = spec_first_match(self.dir_entries(), path@)->Some_0;
                &&& spec_first_match(self.dir_entries(), path@) == Some(n)
                &&& bytes@ == self.chain_bytes(self.dir_entries()[n].start as int)
            },
    {
        match self.directory_lookup(path) {
            Ok((found, _, _)) => {
                proof {
                    let n = spec_first_match(self.dir_entries(), path@)->Some_0;
                    lemma_first_match_in_bounds(self.dir_entries(), path@);
                    assert(0 <= n < self.dir_items().len());
                    assert(self.dir_entry_wf(spec_dir_record(self.dir_items()[n])));
                    assert(found == self.dir_entries()[n]);
                    assert(found.start == spec_dir_record(self.dir_items()[n]).start);
                }
                Ok(self.read_all(found.start))
            },
            Err(e) => Err(e),
        }
    }

    /// Every path the directory maps, once each: the set of files the
    /// host's backup and checkpoint machinery must preserve.
    pub fn list_managed_files(&self) -> (files: Vec<String>)
        requires
            self.wf(),
        ensures
            forall|i: int|
                0 <= i < self.dir_entries().len() ==> spec_has_string(
                    files@,
                    #[trigger] self.dir_entries()[i].path@,
                ),
            forall|j: int|
                0 <= j < files@.len() ==> spec_has_path(self.dir_entries(), #[trigger] files@[j]@),
            forall|j1: int, j2: int|
                0 <= j1 < j2 < files@.len() ==> (#[trigger] files@[j1]@) != (#[trigger] files@[j2]@),
    {
        let ghost pages = self.pages@;
        let ghost start = DIRECTORY_START as int;
        let ghost entries = self.dir_entries();
        let mut files: Vec<String> = Vec::new();
        let mut b: u32 = DIRECTORY_START;
        proof {
            lemma_chain_blocks_bounds(pages, start);
            assert(spec_chain_blocks(pages, start)[0] == start);
            assert(spec_chain_blocks(pages, start).contains(start));
            assert(spec_chain_items_upto(pages, start, start) =~= Seq::<Record>::empty());
            assert forall|x: int| #[trigger]
                spec_chain_blocks(pages, start).contains(x) implies (pages[x].next
                != INVALID_BLOCK_NUMBER ==> x < pages[x].next < pages.len()) by {
                assert(self.block_wf(x));
            }
        }
        loop
            invariant
                self.wf(),
                pages == self.pages@,
                start == DIRECTORY_START as int,
                entries == self.dir_entries(),
                (b as int) < pages.len(),
                spec_chain_blocks(pages, start).contains(b as int),
                spec_chain_items_upto(pages, start, b as int).len() <= entries.len(),
                forall|i: int|
                    0 <= i < spec_chain_items_upto(pages, start, b as int).len()
                        ==> spec_has_string(files@, #[trigger] entries[i].path@),
                forall|j: int|
                    0 <= j < files@.len() ==> spec_has_path(entries, #[trigger] files@[j]@),
                forall|j1: int, j2: int|
                    0 <= j1 < j2 < files@.len() ==> (#[trigger] files@[j1]@) != (
                    #[trigger] files@[j2]@),
            decreases pages.len() - b,
        {
            let ghost before = spec_chain_items_upto(pages, start, b as int);
            proof {
                lemma_chain_decompose(pages, start, b as int);
            }
            let n_items = self.pages[b as usize].items.len();
            let mut j: usize = 0;
            while j < n_items
                invariant
                    self.wf(),
                    pages == self.pages@,
                    start == DIRECTORY_START as int,
                    entries == self.dir_entries(),
                    (b as int) < pages.len(),
                    spec_chain_blocks(pages, start).contains(b as int),
                    before == spec_chain_items_upto(pages, start, b as int),
                    spec_chain_items(pages, start) == before + spec_chain_items(pages, b as int),
                    n_items == pages[b as int].items@.len(),
                    j <= n_items,
                    before.len() + n_items <= entries.len(),
                    forall|i: int|
                        0 <= i < before.len() + j ==> spec_has_string(
                            files@,
                            #[trigger] entries[i].path@,
                        ),
                    forall|jj: int|
                        0 <= jj < files@.len() ==> spec_has_path(entries, #[trigger] files@[jj]@),
                    forall|j1: int, j2: int|
                        0 <= j1 < j2 < files@.len() ==> (#[trigger] files@[j1]@) != (
                        #[trigger] files@[j2]@),
                decreases n_items - j,
            {
                let ghost n = before.len() + j;
                proof {
                    assert(spec_chain_items(pages, b as int)[j as int] == pages[b as int].items@[j as int]);
                    assert(spec_chain_items(pages, start)[n as int] == pages[b as int].items@[j as int]);
                    assert(spec_record_kind(spec_chain_items(pages, start)[n as int])
                        == RecordKind::Dir);
                }
                match &self.pages[b as usize].items[j] {
                    Record::Dir(e) => {
                        proof {
                            assert(entries[n as int] == spec_dir_record(
                                spec_chain_items(pages, start)[n as int],
                            ));
                            assert(entries[n as int] == *e);
                        }
                        let ghost old_files = files@;
                        if !contains_string(&files, &e.path) {
                            files.push(e.path.clone());
                            proof {
                                assert(files@[old_files.len() as int]@ == e.path@);
                                assert forall|i: int| 0 <= i < n + 1 implies spec_has_string(
                                    files@,
                                    #[trigger] entries[i].path@,
                                ) by {
                                    if i < n {
                                        let jj = choose|jj: int|
                                            0 <= jj < old_files.len() && (#[trigger] old_files[jj]@)
                                                == entries[i].path@;
                                        assert(files@[jj]@ == entries[i].path@);
                                    } else {
                                        assert(files@[old_files.len() as int]@ == entries[i].path@);
                                    }
                                }
                                assert forall|jj: int| 0 <= jj < files@.len() implies spec_has_path(
                                    entries,
                                    #[trigger] files@[jj]@,
                                ) by {
                                    if jj < old_files.len() {
                                        assert(files@[jj] == old_files[jj]);
                                        assert(spec_has_path(entries, old_files[jj]@));
                                    } else {
                                        assert(files@[jj]@ == entries[n as int].path@);
                                    }
                                }
                                assert forall|j1: int, j2: int|
                                    0 <= j1 < j2 < files@.len() implies (#[trigger] files@[j1]@)
                                    != (#[trigger] files@[j2]@) by {
                                    if j2 == old_files.len() {
                                        assert(files@[j1] == old_files[j1]);
                                        assert(!spec_has_string(old_files, files@[j2]@));
                                    } else {
                                        assert(files@[j1] == old_files[j1]);
                                        assert(files@[j2] == old_files[j2]);
                                    }
                                }
                            }
                        } else {
                            proof {
                                assert forall|i: int| 0 <= i < n + 1 implies spec_has_string(
                                    files@,
                                    #[trigger] entries[i].path@,
                                ) by {
                                    if i == n {
                                        assert(spec_has_string(files@, e.path@));
                                    }
                                }
                            }
                        }
                    },
                    _ => {
                        proof {
                            assert(false);
                        }
                    },
                }
                j = j + 1;
            }
            if self.pages[b as usize].next == INVALID_BLOCK_NUMBER {
                proof {
                    assert(spec_chain_items(pages, b as int) == pages[b as int].items@);
                    assert(entries.len() == before.len() + n_items);
                }
                return files;
            }
            proof {
                assert(self.block_wf(b as int));
                assert forall|x: int| #[trigger]
                    spec_chain_blocks(pages, start).contains(x) implies (pages[x].next
                    != INVALID_BLOCK_NUMBER ==> x < pages[x].next < pages.len()) by {
                    lemma_chain_blocks_bounds(pages, start);
                    assert(self.block_wf(x));
                }
                lemma_chain_upto_extend(pages, start, b as int);
                lemma_chain_member_next(pages, start, b as int);
            }
            b = self.pages[b as usize].next;
        }
    }
}

/// Deep copy of one slotted record; a byte chunk is copied into a fresh
/// vector with the same contents.
pub fn duplicate_record(r: &Record) -> (c: Record)
    ensures
        crate::store::spec_record_equiv(*r, c),
{
    match r {
        Record::Dir(e) => Record::Dir(e.duplicate()),
        Record::SegMeta(e) => Record::SegMeta(*e),
        Record::DelMeta(e) => Record::DelMeta(*e),
        Record::Bytes(b) => {
            let mut copy: Vec<u8> = Vec::new();
            let mut k: usize = 0;
            while k < b.len()
                invariant
                    k <= b@.len(),
                    copy@ == b@.take(k as int),
                decreases b@.len() - k,
            {
                copy.push(b[k]);
                proof {
                    assert(copy@ =~= b@.take(k as int + 1));
                }
                k = k + 1;
            }
            proof {
                assert(b@.take(b@.len() as int) =~= b@);
                assert(copy@ == b@);
            }
            Record::Bytes(copy)
        },
    }
}

impl BlockStore {
    /// Deep copy of the whole storage object, for a reader that wants its
    /// own handle: record-for-record equivalent to the original, and well
    /// formed whenever the original is.
    pub fn duplicate(&self) -> (c: BlockStore)
        ensures
            crate::store::spec_store_equiv(*self, c),
            self.wf() ==> c.wf(),
    {
        let mut pages: Vec<crate::store::Page> = Vec::new();
        let mut b: usize = 0;
        while b < self.pages.len()
            invariant
                b <= self.pages@.len(),
                pages@.len() == b,
                forall|x: int|
                    0 <= x < b ==> (#[trigger] pages@[x].next) == self.pages@[x].next
                        && pages@[x].head == self.pages@[x].head && pages@[x].deleted
                        == self.pages@[x].deleted && pages@[x].items@.len()
                        == self.pages@[x].items@.len() && (forall|j: int|
                        0 <= j < self.pages@[x].items@.len() ==> crate::store::spec_record_equiv(
                            self.pages@[x].items@[j],
                            #[trigger] pages@[x].items@[j],
                        )),
            decreases self.pages@.len() - b,
        {
            let src_page = &self.pages[b];
            let mut items: Vec<Record> = Vec::new();
            let mut j: usize = 0;
            while j < src_page.items.len()
                invariant
                    j <= src_page.items@.len(),
                    items@.len() == j,
                    forall|k: int|
                        0 <= k < j ==> crate::store::spec_record_equiv(
                            src_page.items@[k],
                            #[trigger] items@[k],
                        ),
                decreases src_page.items@.len() - j,
            {
                items.push(duplicate_record(&src_page.items[j]));
                j = j + 1;
            }
            pages.push(
                crate::store::Page {
                    next: src_page.next,
                    head: src_page.head,
                    deleted: src_page.deleted,
                    items,
                },
            );
            b = b + 1;
        }
        let c = BlockStore { pages, need_wal: self.need_wal };
        proof {
            assert(crate::store::spec_store_equiv(*self, c));
            if self.wf() {
                assert forall|x: int| 0 <= x < self.pages@.len() implies spec_items_compatible(
                    self.pages@[x].items@,
                    (#[trigger] c.pages@[x]).items@,
                ) by {
                    assert(c.pages@[x].next == self.pages@[x].next);
                    assert(c.pages@[x].items@.len() == self.pages@[x].items@.len());
                    assert forall|k: int|
                        0 <= k < self.pages@[x].items@.len() implies crate::store::spec_record_size(
                        #[trigger] c.pages@[x].items@[k],
                    ) == crate::store::spec_record_size(self.pages@[x].items@[k])
                        && crate::store::spec_record_kind(c.pages@[x].items@[k])
                        == crate::store::spec_record_kind(self.pages@[x].items@[k]) && (
                    crate::store::spec_record_kind(self.pages@[x].items@[k])
                        == crate::store::RecordKind::Dir ==> crate::store::spec_dir_record(
                        c.pages@[x].items@[k],
                    ).start == crate::store::spec_dir_record(self.pages@[x].items@[k]).start
                        && crate::store::spec_dir_record(c.pages@[x].items@[k]).path
                        == crate::store::spec_dir_record(self.pages@[x].items@[k]).path) by {
                        assert(crate::store::spec_record_equiv(
                            self.pages@[x].items@[k],
                            c.pages@[x].items@[k],
                        ));
                    }
                }
                crate::chain::lemma_wf_items_replaced(*self, c);
            }
        }
        c
    }
}

/// Access to the storage object a directory lives in, and the lookup
/// every user of the directory performs: the path-to-chain resolution
/// that opens a segment file for reading or locates the slot a tombstone
/// pass would target.
pub trait DirectoryLookup {
    /// The storage object the directory reads.
    spec fn store_view(&self) -> BlockStore;

    /// Borrow the storage object.
    fn store(&self) -> (s: &BlockStore)
        ensures
            *s == self.store_view(),
    ;

    /// Whether mutations of the owning object are logged for crash
    /// recovery and replication.
    fn need_wal(&self) -> (w: bool)
        ensures
            w == self.store_view().need_wal,
    ;

    /// Resolve a logical path to its directory entry, block and slot.
    fn directory_lookup(&self, path: &String) -> (res: Result<
        (DirectoryEntry, u32, usize),
        StoreError,
    >)
        requires
            self.store_view().wf(),
        ensures
            (spec_first_match(self.store_view().dir_entries(), path@) is None) <==> (res == Err::<
                (DirectoryEntry, u32, usize),
                StoreError,
            >(StoreError::NotFound)),
            res is Err ==> res == Err::<(DirectoryEntry, u32, usize), StoreError>(
                StoreError::NotFound,
            ),
            res matches Ok(hit) ==> {
                let n = spec_first_match(self.store_view().dir_entries(), path@)->Some_0;
                &&& spec_first_match(self.store_view().dir_entries(), path@) == Some(n)
                &&& hit.0 == self.store_view().dir_entries()[n]
                &&& hit.0.path@ == path@
            },
    ;
}

/// A directory handle that can be duplicated, so several readers can each
/// hold their own.
pub trait BlockDirectory: DirectoryLookup + Sized {
    /// A boxed deep copy over the same storage contents.
    fn box_clone(&self) -> (r: Box<Self>)
        ensures
            crate::store::spec_store_equiv(self.store_view(), r.store_view()),
            self.store_view().wf() ==> r.store_view().wf(),
    ;
}

/// The one directory implementation: it owns its storage object and
/// resolves paths by the linear scan of the directory chain.
pub struct BlockingDirectory {
    pub store: BlockStore,
}

impl DirectoryLookup for BlockingDirectory {
    open spec fn store_view(&self) -> BlockStore {
        self.store
    }

    fn store(&self) -> (s: &BlockStore) {
        &self.store
    }

    fn need_wal(&self) -> (w: bool) {
        self.store.need_wal
    }

    fn directory_lookup(&self, path: &String) -> (res: Result<
        (DirectoryEntry, u32, usize),
        StoreError,
    >) {
        self.store.directory_lookup(path)
    }
}

impl BlockDirectory for BlockingDirectory {
    fn box_clone(&self) -> (r: Box<Self>) {
        Box::new(BlockingDirectory { store: self.store.duplicate() })
    }
}

/// Whether some string of `v` reads exactly as `s`.
pub fn contains_string(v: &Vec<String>, s: &String) -> (r: bool)
    ensures
        r == spec_has_string(v@, s@),
{
    let mut j: usize = 0;
    while j < v.len()
        invariant
            j <= v@.len(),
            forall|k: int| 0 <= k < j ==> (#[trigger] v@[k]@) != s@,
        decreases v@.len() - j,
    {
        if v[j] == *s {
            return true;
        }
        j = j + 1;
    }
    false
}

} // verus!
