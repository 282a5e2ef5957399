//! The file cache: a per-repository, content-addressed registry of file
//! hashes, kept in the relational store.
//!
//! `retrieve` loads the stored hashes as stale cells at the start of a pass;
//! the pass marks or inserts what it observes; the swept snapshot is written
//! back whole by `persist` — delete everything for the repository, then
//! insert one row per key, inside one transaction of the caller's store.

use vstd::prelude::*;
use crate::chunk::{cell_from_rows, has_cell, BucketV, ChunkCache, PendingV, PointV};
use crate::db::{Database, FileRowV};
use crate::fresh::FreshValue;
use crate::keys::{bytes_eq, clone_bytes};
use crate::seq_facts::{lemma_filter_membership, lemma_filter_take_step};

verus! {

/// One snapshot entry: a file hash and its freshness cell.
pub struct SnapshotEntry {
    pub hash: Vec<u8>,
    pub cell: FreshValue<()>,
}

/// Mathematical image of a snapshot entry.
#[verifier::ext_equal]
pub struct SnapEntryV {
    pub hash: Seq<u8>,
    pub fresh: bool,
}

impl View for SnapshotEntry {
    type V = SnapEntryV;

    open spec fn view(&self) -> SnapEntryV {
        SnapEntryV { hash: self.hash@, fresh: self.cell.fresh }
    }
}

/// Whether some entry carries this hash.
pub open spec fn snap_has(entries: Seq<SnapEntryV>, hash: Seq<u8>) -> bool {
    exists|i: int| 0 <= i < entries.len() && entries[i].hash == hash
}

/// The hashes of a snapshot, in entry order.
pub open spec fn snap_keys(entries: Seq<SnapEntryV>) -> Seq<Seq<u8>> {
    entries.map_values(|e: SnapEntryV| e.hash)
}

/// Whether this hash is stored for the repository.
pub open spec fn hash_from_rows(files: Seq<FileRowV>, repo: Seq<u8>, hash: Seq<u8>) -> bool {
    exists|j: int|
        0 <= j < files.len() && (#[trigger] files[j]).repo_ref == repo && files[j].cache_hash
            == hash
}

/// Marking a hash as observed: its entry becomes fresh, or a fresh entry is
/// appended if the hash is new.
pub open spec fn snap_observe(entries: Seq<SnapEntryV>, hash: Seq<u8>) -> Seq<SnapEntryV> {
    if snap_has(entries, hash) {
        entries.map_values(
            |e: SnapEntryV|
                if e.hash == hash {
                    SnapEntryV { hash: e.hash, fresh: true }
                } else {
                    e
                },
        )
    } else {
        entries.push(SnapEntryV { hash: hash, fresh: true })
    }
}

/// Observing a hash changes nothing about which hashes the snapshot holds
/// except adding the observed one, and it never turns a fresh entry stale.
pub proof fn lemma_snap_observe_effect(s: Seq<SnapEntryV>, h: Seq<u8>)
    ensures
        forall|x: Seq<u8>|
            #[trigger] snap_has(snap_observe(s, h), x) <==> (snap_has(s, x) || x == h),
        (forall|i: int| 0 <= i < s.len() ==> (#[trigger] s[i]).fresh) ==> (forall|i: int|
            0 <= i < snap_observe(s, h).len() ==> (#[trigger] snap_observe(s, h)[i]).fresh),
{
    let out = snap_observe(s, h);
    if snap_has(s, h) {
        assert(out.len() == s.len());
        assert forall|x: Seq<u8>| #[trigger] snap_has(out, x) implies (snap_has(s, x) || x
            == h) by {
            let i = choose|i: int| 0 <= i < out.len() && out[i].hash == x;
            assert(s[i].hash == x);
        }
        assert forall|x: Seq<u8>| snap_has(s, x) implies #[trigger] snap_has(out, x) by {
            let i = choose|i: int| 0 <= i < s.len() && s[i].hash == x;
            assert(out[i].hash == x);
        }
        let w = choose|w: int| 0 <= w < s.len() && s[w].hash == h;
        assert(out[w].hash == h);
        assert(snap_has(out, h));
    } else {
        assert(out == s.push(SnapEntryV { hash: h, fresh: true }));
        assert forall|x: Seq<u8>| #[trigger] snap_has(out, x) implies (snap_has(s, x) || x
            == h) by {
            let i = choose|i: int| 0 <= i < out.len() && out[i].hash == x;
            if i < s.len() {
                assert(s[i].hash == x);
            }
        }
        assert forall|x: Seq<u8>| snap_has(s, x) implies #[trigger] snap_has(out, x) by {
            let i = choose|i: int| 0 <= i < s.len() && s[i].hash == x;
            assert(out[i].hash == x);
        }
        assert(out[out.len() - 1].hash == h);
        assert(snap_has(out, h));
    }
}

/// An in-memory snapshot of the file cache, read atomically from the
/// relational store and representative of one point in time.
pub struct FileCacheSnapshot {
    pub entries: Vec<SnapshotEntry>,
}

impl View for FileCacheSnapshot {
    type V = Seq<SnapEntryV>;

    open spec fn view(&self) -> Seq<SnapEntryV> {
        self.entries@.map_values(|e: SnapshotEntry| e@)
    }
}

impl FileCacheSnapshot {
    /// No two entries carry the same hash.
    pub open spec fn wf(&self) -> bool {
        forall|i: int, j: int| 0 <= i < j < self@.len() ==> self@[i].hash != self@[j].hash
    }

    /// An empty snapshot.
    pub fn new() -> (snap: Self)
        ensures
            snap.wf(),
            snap@ == Seq::<SnapEntryV>::empty(),
    {
        let snap = FileCacheSnapshot { entries: Vec::new() };
        proof {
            assert(snap@ =~= Seq::<SnapEntryV>::empty());
        }
        snap
    }

    /// Whether the snapshot holds this hash.
    pub fn contains(&self, hash: &Vec<u8>) -> (r: bool)
        ensures
            r == snap_has(self@, hash@),
    {
        let r = self.find(hash);
        r.is_some()
    }

    /// Index of the first entry carrying this hash, if any.
    fn find(&self, hash: &Vec<u8>) -> (r: Option<usize>)
        ensures
            ({
                match r {
                    Some(i) => i < self@.len() && self@[i as int].hash == hash@ && (forall|j: int|
                        0 <= j < i ==> (#[trigger] self@[j]).hash != hash@),
                    None => !snap_has(self@, hash@),
                }
            }),
    {
        let mut i: usize = 0;
        while i < self.entries.len()
            invariant
                i <= self.entries@.len(),
                forall|j: int| 0 <= j < i ==> (#[trigger] self@[j]).hash != hash@,
            decreases self.entries@.len() - i,
        {
            proof {
                assert(self@[i as int] == self.entries@[i as int]@);
            }
            if bytes_eq(&self.entries[i].hash, hash) {
                return Some(i);
            }
            i += 1;
        }
        None
    }

    /// Record that a file with this hash was seen during the current pass:
    /// the entry is marked fresh, or inserted fresh when the hash is new.
    pub fn observe(&mut self, hash: &Vec<u8>)
        requires
            old(self).wf(),
        ensures
            final(self).wf(),
            final(self)@ == snap_observe(old(self)@, hash@),
    {
        let found = self.find(hash);
        match found {
            Some(i) => {
                let entry = SnapshotEntry {
                    hash: clone_bytes(&self.entries[i].hash),
                    cell: FreshValue::from(()),
                };
                self.entries[i] = entry;
                proof {
                    assert(final(self)@ =~= snap_observe(old(self)@, hash@)) by {
                        assert forall|j: int| 0 <= j < self@.len() implies self@[j]
                            == snap_observe(old(self)@, hash@)[j] by {
                            if j != i {
                                assert(old(self)@[j].hash != old(self)@[i as int].hash);
                            }
                        }
                    }
                    assert forall|a: int, b: int| 0 <= a < b < self@.len() implies self@[a].hash
                        != self@[b].hash by {
                        assert(old(self)@[a].hash != old(self)@[b].hash);
                    }
                }
            },
            None => {
                self.entries.push(
                    SnapshotEntry { hash: clone_bytes(hash), cell: FreshValue::from(()) },
                );
                proof {
                    assert(final(self)@ =~= old(self)@.push(
                        SnapEntryV { hash: hash@, fresh: true },
                    ));
                    assert forall|a: int, b: int| 0 <= a < b < self@.len() implies self@[a].hash
                        != self@[b].hash by {
                        if b < self@.len() - 1 {
                            assert(old(self)@[a].hash != old(self)@[b].hash);
                        } else {
                            assert(!snap_has(old(self)@, self@[b].hash));
                        }
                    }
                }
            },
        }
    }

    /// Sweep the snapshot: only the entries observed this pass remain.
    pub fn retain_fresh(&mut self)
        requires
            old(self).wf(),
        ensures
            final(self).wf(),
            final(self)@ == old(self)@.filter(|e: SnapEntryV| e.fresh),
    {
        let ghost pred = |e: SnapEntryV| e.fresh;
        let ghost orig = self@;
        let mut kept: Vec<SnapshotEntry> = Vec::new();
        let mut i: usize = 0;
        while i < self.entries.len()
            invariant
                i <= self.entries@.len(),
                self@ == orig,
                orig == old(self)@,
                pred == (|e: SnapEntryV| e.fresh),
                kept@.map_values(|e: SnapshotEntry| e@) == orig.take(i as int).filter(pred),
            decreases self.entries@.len() - i,
        {
            proof {
                assert(orig[i as int] == self.entries@[i as int]@);
            }
            let ghost pre = kept@;
            if self.entries[i].cell.fresh {
                let entry = SnapshotEntry {
                    hash: clone_bytes(&self.entries[i].hash),
                    cell: FreshValue::from(()),
                };
                proof {
                    assert(entry@ == orig[i as int]);
                }
                kept.push(entry);
            }
            proof {
                lemma_filter_take_step(orig, i as int, pred);
                assert(pre.map_values(|e: SnapshotEntry| e@).len() == pre.len());
                assert(kept@.map_values(|e: SnapshotEntry| e@) =~= orig.take(i + 1).filter(pred));
            }
            i += 1;
        }
        proof {
            assert(orig.take(orig.len() as int) =~= orig);
        }
        self.entries = kept;
        proof {
            lemma_retain_distinct(orig, pred);
        }
    }
}

/// Filtering a snapshot with pairwise-distinct hashes keeps them pairwise
/// distinct.
proof fn lemma_retain_distinct(s: Seq<SnapEntryV>, pred: spec_fn(SnapEntryV) -> bool)
    requires
        forall|i: int, j: int| 0 <= i < j < s.len() ==> s[i].hash != s[j].hash,
    ensures
        forall|a: int, b: int|
            0 <= a < b < s.filter(pred).len() ==> s.filter(pred)[a].hash != s.filter(
                pred,
            )[b].hash,
    decreases s.len(),
{
    reveal_with_fuel(Seq::filter, 2);
    if s.len() > 0 {
        let dl = s.drop_last();
        lemma_retain_distinct(dl, pred);
        lemma_filter_membership(dl, pred);
        let f = s.filter(pred);
        if pred(s.last()) {
            assert(f == dl.filter(pred).push(s.last()));
            assert forall|a: int, b: int| 0 <= a < b < f.len() implies f[a].hash != f[b].hash by {
                if b == f.len() - 1 {
                    assert(f[a] == dl.filter(pred)[a]);
                    assert(dl.filter(pred).contains(f[a]));
                    assert(dl.contains(f[a]));
                    let u = choose|u: int| 0 <= u < dl.len() && dl[u] == f[a];
                    assert(s[u] == f[a]);
                    assert(s[u].hash != s[s.len() - 1].hash);
                }
            }
        }
    }
}

/// Manages the relational file cache of one repository, establishing a
/// content-addressed space for the files in it.  The cache keys are
/// mirrored in the full-text index for each file entry, since that index
/// cannot update documents in place; consistency with the full-text state
/// is not ensured here.
pub struct FileCache {
    pub repo_ref: Vec<u8>,
}

impl FileCache {
    /// A cache handle for one repository.
    pub fn for_repo(repo_ref: Vec<u8>) -> (r: Self)
        ensures
            r.repo_ref@ == repo_ref@,
    {
        FileCache { repo_ref }
    }

    /// Read every file hash stored for this repository, as stale cells: a
    /// snapshot of the cache at one point in time, to be marked during the
    /// pass and persisted after the sweep.
    pub fn retrieve(&self, db: &Database) -> (snap: FileCacheSnapshot)
        ensures
            snap.wf(),
            forall|i: int| 0 <= i < snap@.len() ==> !(#[trigger] snap@[i]).fresh,
            forall|i: int|
                0 <= i < snap@.len() ==> hash_from_rows(
                    db.files(),
                    self.repo_ref@,
                    (#[trigger] snap@[i]).hash,
                ),
            forall|j: int|
                0 <= j < db.files().len() && (#[trigger] db.files()[j]).repo_ref == self.repo_ref@
                    ==> snap_has(snap@, db.files()[j].cache_hash),
    {
        let mut snap = FileCacheSnapshot { entries: Vec::new() };
        let mut i: usize = 0;
        while i < db.file_rows.len()
            invariant
                i <= db.file_rows@.len(),
                snap.wf(),
                forall|a: int| 0 <= a < snap@.len() ==> !(#[trigger] snap@[a]).fresh,
                forall|a: int|
                    0 <= a < snap@.len() ==> hash_from_rows(
                        db.files(),
                        self.repo_ref@,
                        (#[trigger] snap@[a]).hash,
                    ),
                forall|j: int|
                    0 <= j < i && (#[trigger] db.files()[j]).repo_ref == self.repo_ref@
                        ==> snap_has(snap@, db.files()[j].cache_hash),
            decreases db.file_rows@.len() - i,
        {
            let ghost pre = snap@;
            let row = &db.file_rows[i];
            proof {
                assert(db.files()[i as int] == db.file_rows@[i as int]@);
            }
            if bytes_eq(&row.repo_ref, &self.repo_ref) {
                let present = snap.contains(&row.cache_hash);
                if !present {
                    snap.entries.push(
                        SnapshotEntry {
                            hash: clone_bytes(&row.cache_hash),
                            cell: FreshValue::stale(()),
                        },
                    );
                }
                proof {
                    if present {
                        assert(snap@ =~= pre);
                        let w = choose|w: int| 0 <= w < pre.len() && pre[w].hash
                            == row.cache_hash@;
                        assert(snap@[w].hash == db.files()[i as int].cache_hash);
                        assert(snap_has(snap@, db.files()[i as int].cache_hash));
                    } else {
                        let last = snap@.len() - 1;
                        assert(snap@ =~= pre.push(snap@[last]));
                        assert(snap@[last].hash == db.files()[i as int].cache_hash);
                        assert(snap_has(snap@, db.files()[i as int].cache_hash));
                        assert forall|a: int| 0 <= a < last implies (#[trigger] snap@[a]).hash
                            != snap@[last].hash by {
                            assert(pre[a] == snap@[a]);
                            if snap@[a].hash == snap@[last].hash {
                                assert(snap_has(pre, row.cache_hash@));
                            }
                        }
                        assert(hash_from_rows(db.files(), self.repo_ref@, snap@[last].hash));
                    }
                }
            }
            proof {
                assert forall|j: int|
                    0 <= j < i + 1 && (#[trigger] db.files()[j]).repo_ref == self.repo_ref@
                        implies snap_has(snap@, db.files()[j].cache_hash) by {
                    if j < i {
                        assert(snap_has(pre, db.files()[j].cache_hash));
                        let w = choose|w: int|
                            0 <= w < pre.len() && pre[w].hash == db.files()[j].cache_hash;
                        assert(snap@[w] == pre[w]);
                    }
                }
            }
            i += 1;
        }
        snap
    }

    /// Write the snapshot back: one atomic replacement of every row of this
    /// repository by one row per snapshot key.  The snapshot already
    /// reflects exactly the set of files that should remain, so a full
    /// replace is safe and simpler than a diff.
    pub fn persist(&self, db: &mut Database, snap: &FileCacheSnapshot)
        ensures
            final(db).files() == old(db).files().filter(
                |r: FileRowV| r.repo_ref != self.repo_ref@,
            ) + snap_keys(snap@).map_values(
                |h: Seq<u8>| FileRowV { repo_ref: self.repo_ref@, cache_hash: h },
            ),
            final(db).chunks() == old(db).chunks(),
    {
        self.delete_files(db);
        let ghost base = db.files();
        let ghost target = snap_keys(snap@).map_values(
            |h: Seq<u8>| FileRowV { repo_ref: self.repo_ref@, cache_hash: h },
        );
        let mut i: usize = 0;
        while i < snap.entries.len()
            invariant
                i <= snap.entries@.len(),
                base == old(db).files().filter(|r: FileRowV| r.repo_ref != self.repo_ref@),
                target == snap_keys(snap@).map_values(
                    |h: Seq<u8>| FileRowV { repo_ref: self.repo_ref@, cache_hash: h },
                ),
                db.chunks() == old(db).chunks(),
                db.files() == base + target.take(i as int),
            decreases snap.entries@.len() - i,
        {
            proof {
                assert(snap@[i as int] == snap.entries@[i as int]@);
                assert(snap_keys(snap@)[i as int] == snap@[i as int].hash);
            }
            db.insert_file_row(&self.repo_ref, &snap.entries[i].hash);
            proof {
                assert(db.files() =~= base + target.take(i + 1));
            }
            i += 1;
        }
        proof {
            assert(target.take(target.len() as int) =~= target);
            assert(snap_keys(snap@).len() == snap@.len());
        }
    }

    /// Retire the repository: its file-cache and chunk-cache rows are
    /// removed in one transaction of the caller's store.
    pub fn delete(&self, db: &mut Database)
        ensures
            final(db).files() == old(db).files().filter(
                |r: FileRowV| r.repo_ref != self.repo_ref@,
            ),
            final(db).chunks() == old(db).chunks().filter(
                |c: crate::db::ChunkRowV| c.repo_ref != self.repo_ref@,
            ),
    {
        self.delete_files(db);
        self.delete_chunks(db);
    }

    /// `DELETE FROM file_cache WHERE repo_ref = ?`, as part of a
    /// transaction.
    fn delete_files(&self, db: &mut Database)
        ensures
            final(db).files() == old(db).files().filter(
                |r: FileRowV| r.repo_ref != self.repo_ref@,
            ),
            final(db).chunks() == old(db).chunks(),
    {
        db.delete_files_for(&self.repo_ref);
    }

    /// `DELETE FROM chunk_cache WHERE repo_ref = ?`, as part of a
    /// transaction.
    fn delete_chunks(&self, db: &mut Database)
        ensures
            final(db).chunks() == old(db).chunks().filter(
                |c: crate::db::ChunkRowV| c.repo_ref != self.repo_ref@,
            ),
            final(db).files() == old(db).files(),
    {
        db.delete_chunks_for(&self.repo_ref);
    }

    /// A chunk cache over the file with this hash key, loaded from the
    /// store's chunk rows.
    pub fn chunks_for_file(&self, db: &Database, key: &Vec<u8>) -> (cache: ChunkCache)
        ensures
            cache.wf(),
            cache@.repo_ref == self.repo_ref@,
            cache@.file_key == key@,
            cache@.updates == Seq::<BucketV>::empty(),
            cache@.pending == Seq::<PendingV>::empty(),
            cache@.points == Seq::<PointV>::empty(),
            forall|i: int| 0 <= i < cache@.cells.len() ==> !(#[trigger] cache@.cells[i]).fresh,
            forall|i: int|
                0 <= i < cache@.cells.len() ==> cell_from_rows(
                    db.chunks(),
                    key@,
                    #[trigger] cache@.cells[i],
                ),
            forall|j: int|
                0 <= j < db.chunks().len() && (#[trigger] db.chunks()[j]).file_hash == key@
                    ==> has_cell(cache@.cells, db.chunks()[j].chunk_hash),
    {
        ChunkCache::for_file(db, clone_bytes(&self.repo_ref), clone_bytes(key))
    }
}

/// The table that a persist leaves behind: every row of other repositories
/// in place, then one row per snapshot key.
pub open spec fn persisted_rows(
    files: Seq<FileRowV>,
    repo: Seq<u8>,
    keys: Seq<Seq<u8>>,
) -> Seq<FileRowV> {
    files.filter(|x: FileRowV| x.repo_ref != repo) + keys.map_values(
        |h: Seq<u8>| FileRowV { repo_ref: repo, cache_hash: h },
    )
}

/// Retrieving a repository's rows and immediately persisting the snapshot
/// unchanged leaves the table with exactly the same set of rows: rows of
/// other repositories are untouched, and the rows of this repository are
/// re-written one per stored hash.
pub proof fn lemma_retrieve_persist_identity(
    files: Seq<FileRowV>,
    repo: Seq<u8>,
    keys: Seq<Seq<u8>>,
)
    requires
        forall|i: int, j: int| 0 <= i < j < keys.len() ==> keys[i] != keys[j],
        forall|i: int| 0 <= i < keys.len() ==> hash_from_rows(files, repo, #[trigger] keys[i]),
        forall|j: int|
            0 <= j < files.len() && (#[trigger] files[j]).repo_ref == repo ==> keys.contains(
                files[j].cache_hash,
            ),
    ensures
        forall|r: FileRowV|
            #[trigger] persisted_rows(files, repo, keys).contains(r) <==> files.contains(r),
{
    let kept = files.filter(|x: FileRowV| x.repo_ref != repo);
    let fresh_rows = keys.map_values(|h: Seq<u8>| FileRowV { repo_ref: repo, cache_hash: h });
    let out = persisted_rows(files, repo, keys);
    lemma_filter_membership(files, |x: FileRowV| x.repo_ref != repo);
    assert forall|r: FileRowV| #[trigger] out.contains(r) implies files.contains(r) by {
        let w = choose|w: int| 0 <= w < out.len() && out[w] == r;
        if w < kept.len() {
            assert(kept[w] == r);
            assert(kept.contains(r));
        } else {
            assert(r == fresh_rows[w - kept.len()]);
            assert(r.repo_ref == repo && r.cache_hash == keys[w - kept.len()]);
            assert(hash_from_rows(files, repo, r.cache_hash));
            let j = choose|j: int|
                0 <= j < files.len() && (#[trigger] files[j]).repo_ref == repo
                    && files[j].cache_hash == r.cache_hash;
            assert(files[j] =~= r);
        }
    }
    assert forall|r: FileRowV| files.contains(r) implies #[trigger] out.contains(r) by {
        let w = choose|w: int| 0 <= w < files.len() && files[w] == r;
        if r.repo_ref != repo {
            assert(kept.contains(r));
            let u = choose|u: int| 0 <= u < kept.len() && kept[u] == r;
            assert(out[u] == r);
        } else {
            assert(keys.contains(r.cache_hash));
            let u = choose|u: int| 0 <= u < keys.len() && keys[u] == r.cache_hash;
            assert(fresh_rows[u] =~= r);
            assert(out[kept.len() + u] == fresh_rows[u]);
        }
    }
}

} // verus!
