//! The chunk cache: per-file incremental protocol between the relational
//! store and the vector store.
//!
//! One cache instance covers the chunks of a single file.  Construction
//! loads the existing rows for that file as stale cells.  `update_or_embed`
//! classifies each observed chunk as unchanged, branch-changed or new, and
//! buffers the required writes.  `commit` turns the buffers into relational
//! statements — branch updates, then deletions of everything left stale,
//! then inserts — applied only when the caller reports that the vector-store
//! calls of the same plan were accepted.

use vstd::prelude::*;
use crate::db::{ChunkRowV, Database};
use crate::fresh::FreshValue;
use crate::keys::{
    branches_hash, branches_hash_spec, bytes_eq, chunk_id, chunk_id_spec, clone_bytes,
};
use crate::seq_facts::{lemma_filter_take_step, lemma_map_take_push, lemma_nested_deep_view};

verus! {

/// One cell of the cache map: a chunk id and its freshness-tracked
/// branches hash.
pub struct ChunkCell {
    pub key: Vec<u8>,
    pub cell: FreshValue<Vec<u8>>,
}

/// Mathematical image of a cache cell.
#[verifier::ext_equal]
pub struct CellV {
    pub key: Seq<u8>,
    pub fresh: bool,
    pub branches_hash: Seq<u8>,
}

impl View for ChunkCell {
    type V = CellV;

    open spec fn view(&self) -> CellV {
        CellV { key: self.key@, fresh: self.cell.fresh, branches_hash: self.cell.value@ }
    }
}

/// The payload attached to a vector point: the ordered branch list the chunk
/// is visible on, and the remaining key/value pairs, carried opaquely.
pub struct Payload {
    pub branches: Vec<Vec<u8>>,
    pub meta: Vec<u8>,
}

/// Mathematical image of a payload.
#[verifier::ext_equal]
pub struct PayloadV {
    pub branches: Seq<Seq<u8>>,
    pub meta: Seq<u8>,
}

impl View for Payload {
    type V = PayloadV;

    open spec fn view(&self) -> PayloadV {
        PayloadV { branches: self.branches.deep_view(), meta: self.meta@ }
    }
}

/// A point pending upsert into the vector store.
pub struct Point {
    pub id: Vec<u8>,
    pub embedding: Vec<u8>,
    pub payload: Payload,
}

/// Mathematical image of a point.
#[verifier::ext_equal]
pub struct PointV {
    pub id: Seq<u8>,
    pub embedding: Seq<u8>,
    pub payload: PayloadV,
}

impl View for Point {
    type V = PointV;

    open spec fn view(&self) -> PointV {
        PointV { id: self.id@, embedding: self.embedding@, payload: self.payload@ }
    }
}

/// A buffered branch update: every listed chunk moves to this branch list,
/// and one payload-set call covers the whole bucket.
pub struct BranchBucket {
    pub branches: Vec<Vec<u8>>,
    pub branches_hash: Vec<u8>,
    pub ids: Vec<Vec<u8>>,
}

/// Mathematical image of a branch-update bucket.
#[verifier::ext_equal]
pub struct BucketV {
    pub branches: Seq<Seq<u8>>,
    pub bh: Seq<u8>,
    pub ids: Seq<Seq<u8>>,
}

impl View for BranchBucket {
    type V = BucketV;

    open spec fn view(&self) -> BucketV {
        BucketV {
            branches: self.branches.deep_view(),
            bh: self.branches_hash@,
            ids: self.ids.deep_view(),
        }
    }
}

/// A buffered relational insert: the new chunk's id and branches hash.
pub struct PendingInsert {
    pub id: Vec<u8>,
    pub branches_hash: Vec<u8>,
}

/// Mathematical image of a pending insert.
#[verifier::ext_equal]
pub struct PendingV {
    pub id: Seq<u8>,
    pub bh: Seq<u8>,
}

impl View for PendingInsert {
    type V = PendingV;

    open spec fn view(&self) -> PendingV {
        PendingV { id: self.id@, bh: self.branches_hash@ }
    }
}

/// Mathematical image of a whole chunk cache.
#[verifier::ext_equal]
pub struct ChunkCacheV {
    pub repo_ref: Seq<u8>,
    pub file_key: Seq<u8>,
    pub cells: Seq<CellV>,
    pub updates: Seq<BucketV>,
    pub pending: Seq<PendingV>,
    pub points: Seq<PointV>,
}

/// Manages both the relational rows and the vector points of one file's
/// chunks, so that the two stay consistent.
pub struct ChunkCache {
    repo_ref: Vec<u8>,
    file_cache_key: Vec<u8>,
    cache: Vec<ChunkCell>,
    update: Vec<BranchBucket>,
    new_points: Vec<Point>,
    new_sql: Vec<PendingInsert>,
}

impl View for ChunkCache {
    type V = ChunkCacheV;

    closed spec fn view(&self) -> ChunkCacheV {
        ChunkCacheV {
            repo_ref: self.repo_ref@,
            file_key: self.file_cache_key@,
            cells: self.cache@.map_values(|c: ChunkCell| c@),
            updates: self.update@.map_values(|b: BranchBucket| b@),
            pending: self.new_sql@.map_values(|p: PendingInsert| p@),
            points: self.new_points@.map_values(|p: Point| p@),
        }
    }
}

/// Whether this cell is the image of some stored chunk row of the file.
pub open spec fn cell_from_rows(rows: Seq<ChunkRowV>, file_key: Seq<u8>, c: CellV) -> bool {
    exists|j: int|
        0 <= j < rows.len() && (#[trigger] rows[j]).file_hash == file_key && rows[j].chunk_hash
            == c.key && rows[j].branches == c.branches_hash
}

/// Whether some cell carries this chunk id.
pub open spec fn has_cell(cells: Seq<CellV>, key: Seq<u8>) -> bool {
    exists|i: int| 0 <= i < cells.len() && cells[i].key == key
}

/// The first cell carrying this chunk id.
pub open spec fn cell_at(cells: Seq<CellV>, key: Seq<u8>) -> CellV
    decreases cells.len(),
{
    if cells.len() == 0 {
        arbitrary()
    } else if cells[0].key == key {
        cells[0]
    } else {
        cell_at(cells.drop_first(), key)
    }
}

/// A forward scan that stops at the first match finds `cell_at`.
proof fn lemma_cell_at_index(cells: Seq<CellV>, key: Seq<u8>, i: int)
    requires
        0 <= i < cells.len(),
        cells[i].key == key,
        forall|j: int| 0 <= j < i ==> cells[j].key != key,
    ensures
        cell_at(cells, key) == cells[i],
    decreases cells.len(),
{
    if i > 0 {
        lemma_cell_at_index(cells.drop_first(), key, i - 1);
    }
}

/// Marking a chunk as re-observed: its cell becomes fresh and takes the
/// observed branches hash; every other cell is untouched.
pub open spec fn cells_set(cells: Seq<CellV>, key: Seq<u8>, bh: Seq<u8>) -> Seq<CellV> {
    cells.map_values(
        |c: CellV|
            if c.key == key {
                CellV { key: c.key, fresh: true, branches_hash: bh }
            } else {
                c
            },
    )
}

/// Whether a bucket keyed by this exact branch list and hash exists.
pub open spec fn has_bucket(updates: Seq<BucketV>, branches: Seq<Seq<u8>>, bh: Seq<u8>) -> bool {
    exists|i: int| 0 <= i < updates.len() && updates[i].branches == branches && updates[i].bh == bh
}

/// Appending a chunk id to the bucket of this branch list: the bucket's id
/// list grows by one, or a new singleton bucket is added at the end.
pub open spec fn bucket_append(
    updates: Seq<BucketV>,
    branches: Seq<Seq<u8>>,
    bh: Seq<u8>,
    id: Seq<u8>,
) -> Seq<BucketV> {
    if has_bucket(updates, branches, bh) {
        updates.map_values(
            |b: BucketV|
                if b.branches == branches && b.bh == bh {
                    BucketV { branches: b.branches, bh: b.bh, ids: b.ids.push(id) }
                } else {
                    b
                },
        )
    } else {
        updates.push(BucketV { branches, bh, ids: seq![id] })
    }
}

/// Total number of chunk ids across all buffered branch updates: what commit
/// reports as its update count.
pub open spec fn sum_ids(updates: Seq<BucketV>) -> int
    decreases updates.len(),
{
    if updates.len() == 0 {
        0
    } else {
        sum_ids(updates.drop_last()) + updates.last().ids.len()
    }
}

/// The chunk ids slated for deletion: every cell left stale, in cache order.
pub open spec fn delete_ids(cells: Seq<CellV>) -> Seq<Seq<u8>> {
    cells.filter(|c: CellV| !c.fresh).map_values(|c: CellV| c.key)
}

impl ChunkCache {
    /// Internal consistency of a cache instance: chunk ids are unique; each
    /// bucket's hash is the hash of its branch list and covers at least one
    /// chunk; buckets are keyed uniquely; pending relational inserts mirror
    /// pending vector points one for one, with matching ids and with the
    /// stored branches hash derived from the point's own branch list.
    pub open spec fn wf(&self) -> bool {
        let m = self@;
        &&& forall|i: int, j: int|
            0 <= i < j < m.cells.len() ==> m.cells[i].key != m.cells[j].key
        &&& forall|i: int|
            0 <= i < m.updates.len() ==> (#[trigger] m.updates[i]).bh == branches_hash_spec(
                m.updates[i].branches,
            ) && m.updates[i].ids.len() > 0
        &&& forall|i: int, j: int|
            0 <= i < j < m.updates.len() ==> !(m.updates[i].branches == m.updates[j].branches
                && m.updates[i].bh == m.updates[j].bh)
        &&& m.pending.len() == m.points.len()
        &&& forall|i: int|
            0 <= i < m.pending.len() ==> (#[trigger] m.pending[i]).id == m.points[i].id
                && m.pending[i].bh == branches_hash_spec(m.points[i].payload.branches)
        &&& sum_ids(m.updates) <= usize::MAX
    }

    /// The hash key of the file whose chunks this cache covers.
    pub fn file_hash(&self) -> (r: Vec<u8>)
        ensures
            r@ == self@.file_key,
    {
        clone_bytes(&self.file_cache_key)
    }

    /// Loads the chunk rows stored for one file: every stored chunk id
    /// appears as a stale cell holding the row's branches hash, and nothing
    /// is buffered yet.
    pub fn for_file(db: &Database, repo_ref: Vec<u8>, file_cache_key: Vec<u8>) -> (cache: Self)
        ensures
            cache.wf(),
            cache@.repo_ref == repo_ref@,
            cache@.file_key == file_cache_key@,
            cache@.updates == Seq::<BucketV>::empty(),
            cache@.pending == Seq::<PendingV>::empty(),
            cache@.points == Seq::<PointV>::empty(),
            forall|i: int|
                0 <= i < cache@.cells.len() ==> !(#[trigger] cache@.cells[i]).fresh,
            forall|i: int|
                0 <= i < cache@.cells.len() ==> cell_from_rows(
                    db.chunks(),
                    file_cache_key@,
                    #[trigger] cache@.cells[i],
                ),
            forall|j: int|
                0 <= j < db.chunks().len() && (#[trigger] db.chunks()[j]).file_hash
                    == file_cache_key@ ==> has_cell(cache@.cells, db.chunks()[j].chunk_hash),
    {
        let mut cache: Vec<ChunkCell> = Vec::new();
        let mut i: usize = 0;
        while i < db.chunk_rows.len()
            invariant
                i <= db.chunk_rows.len(),
                forall|a: int, b: int|
                    0 <= a < b < cache@.len() ==> (#[trigger] cache@[a])@.key != (
                    #[trigger] cache@[b])@.key,
                forall|a: int|
                    0 <= a < cache@.len() ==> !(#[trigger] cache@[a])@.fresh,
                forall|a: int|
                    0 <= a < cache@.len() ==> cell_from_rows(
                        db.chunks(),
                        file_cache_key@,
                        (#[trigger] cache@[a])@,
                    ),
                forall|j: int|
                    0 <= j < i && (#[trigger] db.chunks()[j]).file_hash == file_cache_key@
                        ==> has_cell(
                        cache@.map_values(|c: ChunkCell| c@),
                        db.chunks()[j].chunk_hash,
                    ),
            decreases db.chunk_rows.len() - i,
        {
            let ghost pre_cs = cache@.map_values(|c: ChunkCell| c@);
            let row = &db.chunk_rows[i];
            proof {
                assert(db.chunks()[i as int] == db.chunk_rows@[i as int]@);
            }
            if bytes_eq(&row.file_hash, &file_cache_key) {
                let present = contains_key(&cache, &row.chunk_hash);
                if !present {
                    let cell = ChunkCell {
                        key: clone_bytes(&row.chunk_hash),
                        cell: FreshValue::stale(clone_bytes(&row.branches)),
                    };
                    cache.push(cell);
                }
                proof {
                    let cs = cache@.map_values(|c: ChunkCell| c@);
                    if present {
                        assert(cs =~= pre_cs);
                        let w = choose|w: int|
                            0 <= w < pre_cs.len() && pre_cs[w].key == row.chunk_hash@;
                        assert(cs[w].key == db.chunks()[i as int].chunk_hash);
                        assert(has_cell(cs, db.chunks()[i as int].chunk_hash));
                    } else {
                        let last = cache@.len() - 1;
                        assert(cs =~= pre_cs.push(cache@[last]@));
                        assert(cs[last].key == db.chunks()[i as int].chunk_hash);
                        assert(has_cell(cs, db.chunks()[i as int].chunk_hash));
                        assert forall|a: int| 0 <= a < last implies (#[trigger] cache@[a])@.key
                            != cache@[last]@.key by {
                            assert(pre_cs[a] == cache@[a]@);
                            if cache@[a]@.key == cache@[last]@.key {
                                assert(has_cell(pre_cs, row.chunk_hash@));
                            }
                        }
                        assert(0 <= i < db.chunks().len() && db.chunks()[
                            i as int
                        ].file_hash == file_cache_key@ && db.chunks()[i as int].chunk_hash
                            == cache@[last]@.key && db.chunks()[i as int].branches == cache@[
                            last
                        ]@.branches_hash);
                        assert(cell_from_rows(db.chunks(), file_cache_key@, cache@[last]@));
                    }
                }
            }
            proof {
                let cs = cache@.map_values(|c: ChunkCell| c@);
                assert forall|j: int|
                    0 <= j < i + 1 && (#[trigger] db.chunks()[j]).file_hash == file_cache_key@
                        implies has_cell(cs, db.chunks()[j].chunk_hash) by {
                    if j < i {
                        assert(has_cell(pre_cs, db.chunks()[j].chunk_hash));
                        let w = choose|w: int|
                            0 <= w < pre_cs.len() && pre_cs[w].key == db.chunks()[j].chunk_hash;
                        assert(cs[w] == pre_cs[w]);
                        assert(has_cell(cs, db.chunks()[j].chunk_hash));
                    }
                }
            }
            i += 1;
        }
        let r = ChunkCache {
            repo_ref,
            file_cache_key,
            cache,
            update: Vec::new(),
            new_points: Vec::new(),
            new_sql: Vec::new(),
        };
        proof {
            assert(r@.updates =~= Seq::<BucketV>::empty());
            assert(r@.pending =~= Seq::<PendingV>::empty());
            assert(r@.points =~= Seq::<PointV>::empty());
            assert(sum_ids(r@.updates) == 0);
        }
        r
    }

    /// Observe one chunk of the file during a pass.
    ///
    /// A known chunk with an unchanged branch set is only marked fresh.  A
    /// known chunk with a changed branch set joins the branch-update bucket
    /// of its new branch list; no embedding is recomputed.  An unknown chunk
    /// is embedded: on success its relational insert and vector point are
    /// buffered and a fresh cell is added; an embedder error is handed back
    /// with the cache left exactly as it was.
    pub fn update_or_embed<E, F: FnOnce(&Vec<u8>) -> Result<Vec<u8>, E>>(
        &mut self,
        data: &Vec<u8>,
        embedder: F,
        payload: Payload,
    ) -> (r: Result<(), E>)
        requires
            old(self).wf(),
            sum_ids(old(self)@.updates) < usize::MAX,
            call_requires(embedder, (data,)),
        ensures
            final(self).wf(),
            final(self)@.repo_ref == old(self)@.repo_ref,
            final(self)@.file_key == old(self)@.file_key,
            ({
                let id = chunk_id_spec(old(self)@.file_key, data@);
                let bh = branches_hash_spec(payload@.branches);
                if has_cell(old(self)@.cells, id) {
                    &&& r is Ok
                    &&& final(self)@.cells == cells_set(old(self)@.cells, id, bh)
                    &&& final(self)@.pending == old(self)@.pending
                    &&& final(self)@.points == old(self)@.points
                    &&& if cell_at(old(self)@.cells, id).branches_hash == bh {
                        final(self)@.updates == old(self)@.updates
                    } else {
                        final(self)@.updates == bucket_append(
                            old(self)@.updates,
                            payload@.branches,
                            bh,
                            id,
                        )
                    }
                } else {
                    &&& final(self)@.updates == old(self)@.updates
                    &&& match r {
                        Ok(_) => exists|emb: Vec<u8>|
                            call_ensures(embedder, (data,), Ok::<Vec<u8>, E>(emb))
                                && final(self)@.cells == old(self)@.cells.push(
                                CellV { key: id, fresh: true, branches_hash: bh },
                            ) && final(self)@.pending == old(self)@.pending.push(
                                PendingV { id: id, bh: bh },
                            ) && final(self)@.points == old(self)@.points.push(
                                PointV { id: id, embedding: emb@, payload: payload@ },
                            ),
                        Err(e) => call_ensures(embedder, (data,), Err::<Vec<u8>, E>(e))
                            && final(self)@ == old(self)@,
                    }
                }
            }),
    {
        let id = chunk_id(&self.file_cache_key, data);
        let bh = branches_hash(&payload.branches);
        let found = find_key(&self.cache, &id);
        match found {
            Some(i) => {
                proof {
                    let cells = self@.cells;
                    assert(cells[i as int] == self.cache@[i as int]@);
                    lemma_cell_at_index(cells, id@, i as int);
                }
                let same = bytes_eq(&self.cache[i].cell.value, &bh);
                if !same {
                    self.push_branch_update(&payload.branches, &bh, &id);
                }
                let ghost mid = self@;
                let new_cell = ChunkCell {
                    key: clone_bytes(&id),
                    cell: FreshValue::from(clone_bytes(&bh)),
                };
                self.cache[i] = new_cell;
                proof {
                    assert(self@.cells =~= cells_set(mid.cells, id@, bh@));
                    assert(self@.updates == mid.updates);
                    assert(cells_set(mid.cells, id@, bh@) == cells_set(
                        old(self)@.cells,
                        id@,
                        bh@,
                    ));
                    assert forall|a: int, b: int|
                        0 <= a < b < self@.cells.len() implies self@.cells[a].key
                        != self@.cells[b].key by {
                        assert(old(self)@.cells[a].key != old(self)@.cells[b].key);
                    }
                }
                Ok(())
            },
            None => {
                let emb = match embedder(data) {
                    Ok(e) => e,
                    Err(e) => {
                        return Err(e);
                    },
                };
                self.new_sql.push(
                    PendingInsert { id: clone_bytes(&id), branches_hash: clone_bytes(&bh) },
                );
                self.new_points.push(
                    Point { id: clone_bytes(&id), embedding: emb, payload },
                );
                self.cache.push(
                    ChunkCell { key: id, cell: FreshValue::from(bh) },
                );
                proof {
                    assert(self@.cells =~= old(self)@.cells.push(
                        self@.cells.last(),
                    ));
                    assert(self@.pending =~= old(self)@.pending.push(self@.pending.last()));
                    assert(self@.points =~= old(self)@.points.push(self@.points.last()));
                    assert(self@.updates =~= old(self)@.updates);
                    assert forall|a: int, b: int|
                        0 <= a < b < self@.cells.len() implies self@.cells[a].key
                        != self@.cells[b].key by {
                        if b < self@.cells.len() - 1 {
                            assert(old(self)@.cells[a].key != old(self)@.cells[b].key);
                        } else {
                            assert(!has_cell(old(self)@.cells, self@.cells[b].key));
                        }
                    }
                }
                Ok(())
            },
        }
    }

    /// Append a chunk id to the bucket of its new branch list, creating the
    /// bucket if this branch list has no bucket yet.
    fn push_branch_update(&mut self, branches: &Vec<Vec<u8>>, bh: &Vec<u8>, id: &Vec<u8>)
        requires
            old(self).wf(),
            sum_ids(old(self)@.updates) < usize::MAX,
            bh@ == branches_hash_spec(branches.deep_view()),
        ensures
            final(self).wf(),
            final(self)@ == (ChunkCacheV {
                updates: bucket_append(
                    old(self)@.updates,
                    branches.deep_view(),
                    bh@,
                    id@,
                ),
                ..old(self)@
            }),
    {
        let ghost orig = self@.updates;
        let mut i: usize = 0;
        let mut found: Option<usize> = None;
        while i < self.update.len() && found.is_none()
            invariant
                i <= self.update.len(),
                self@ == old(self)@,
                (match found {
                    Some(k) => k < self.update@.len() && i == k + 1
                        && self@.updates[k as int].branches == branches.deep_view()
                        && self@.updates[k as int].bh == bh@,
                    None => forall|j: int|
                        0 <= j < i ==> !((#[trigger] self@.updates[j]).branches
                            == branches.deep_view() && self@.updates[j].bh == bh@),
                }),
            decreases self.update.len() - i,
        {
            proof {
                assert(self@.updates[i as int] == self.update@[i as int]@);
            }
            if bytes_eq(&self.update[i].branches_hash, bh) && branch_lists_eq(
                &self.update[i].branches,
                branches,
            ) {
                found = Some(i);
            }
            i += 1;
        }
        match found {
            Some(k) => {
                let ghost pre = self@;
                let grown = BranchBucket {
                    branches: clone_branch_list(&self.update[k].branches),
                    branches_hash: clone_bytes(&self.update[k].branches_hash),
                    ids: push_cloned(&self.update[k].ids, id),
                };
                proof {
                    assert(grown@.branches == pre.updates[k as int].branches);
                    assert(grown@.bh == pre.updates[k as int].bh);
                    assert(grown@.ids == pre.updates[k as int].ids.push(id@));
                }
                self.update[k] = grown;
                proof {
                    let target = bucket_append(pre.updates, branches.deep_view(), bh@, id@);
                    assert(has_bucket(pre.updates, branches.deep_view(), bh@));
                    assert forall|j: int| 0 <= j < self@.updates.len() implies self@.updates[j]
                        == target[j] by {
                        assert(pre.updates[j] == self.update@[j]@ || j == k);
                        if j != k {
                            assert(!(pre.updates[j].branches == branches.deep_view()
                                && pre.updates[j].bh == bh@));
                            assert(self@.updates[j] == pre.updates[j]);
                        } else {
                            assert(target[j] == (BucketV {
                                branches: pre.updates[j].branches,
                                bh: pre.updates[j].bh,
                                ids: pre.updates[j].ids.push(id@),
                            }));
                        }
                    }
                    assert(self@.updates =~= target);
                    assert(self@ =~= ChunkCacheV { updates: target, ..pre });
                    lemma_sum_ids_update(pre.updates, k as int, self@.updates);
                }
            },
            None => {
                let bucket = BranchBucket {
                    branches: clone_branch_list(branches),
                    branches_hash: clone_bytes(bh),
                    ids: vec_of_one(clone_bytes(id)),
                };
                let ghost pre = self@;
                self.update.push(bucket);
                proof {
                    assert(!has_bucket(pre.updates, branches.deep_view(), bh@));
                    assert(self@.updates =~= pre.updates.push(
                        BucketV {
                            branches: branches.deep_view(),
                            bh: bh@,
                            ids: seq![id@],
                        },
                    ));
                    assert(self@ =~= ChunkCacheV {
                        updates: bucket_append(pre.updates, branches.deep_view(), bh@, id@),
                        ..pre
                    });
                    assert(sum_ids(self@.updates) == sum_ids(pre.updates) + 1) by {
                        assert(self@.updates.drop_last() =~= pre.updates);
                    }
                }
            },
        }
    }
}

/// Whether any cell in the cache vector carries this key.
fn contains_key(cache: &Vec<ChunkCell>, key: &Vec<u8>) -> (r: bool)
    ensures
        r == has_cell(cache@.map_values(|c: ChunkCell| c@), key@),
{
    let found = find_key(cache, key);
    found.is_some()
}

/// Index of the first cell carrying this key, if any.
fn find_key(cache: &Vec<ChunkCell>, key: &Vec<u8>) -> (r: Option<usize>)
    ensures
        ({
            let cells = cache@.map_values(|c: ChunkCell| c@);
            match r {
                Some(i) => i < cells.len() && cells[i as int].key == key@ && (forall|j: int|
                    0 <= j < i ==> (#[trigger] cells[j]).key != key@),
                None => !has_cell(cells, key@),
            }
        }),
{
    let ghost cells = cache@.map_values(|c: ChunkCell| c@);
    let mut i: usize = 0;
    while i < cache.len()
        invariant
            i <= cache.len(),
            cells == cache@.map_values(|c: ChunkCell| c@),
            forall|j: int| 0 <= j < i ==> (#[trigger] cells[j]).key != key@,
        decreases cache.len() - i,
    {
        proof {
            assert(cells[i as int] == cache@[i as int]@);
        }
        if bytes_eq(&cache[i].key, key) {
            return Some(i);
        }
        i += 1;
    }
    None
}

/// Whether two branch lists hold the same branches in the same order.
fn branch_lists_eq(a: &Vec<Vec<u8>>, b: &Vec<Vec<u8>>) -> (r: bool)
    ensures
        r == (a.deep_view() == b.deep_view()),
{
    if a.len() != b.len() {
        proof {
            assert(a.deep_view().len() != b.deep_view().len());
        }
        return false;
    }
    let mut i: usize = 0;
    while i < a.len()
        invariant
            i <= a.len(),
            a.len() == b.len(),
            forall|j: int| 0 <= j < i ==> a.deep_view()[j] == b.deep_view()[j],
        decreases a.len() - i,
    {
        if !bytes_eq(&a[i], &b[i]) {
            proof {
                assert(a.deep_view()[i as int] == a@[i as int]@);
                assert(b.deep_view()[i as int] == b@[i as int]@);
            }
            return false;
        }
        proof {
            assert(a.deep_view()[i as int] == a@[i as int]@);
            assert(b.deep_view()[i as int] == b@[i as int]@);
        }
        i += 1;
    }
    proof {
        assert(a.deep_view() =~= b.deep_view());
    }
    true
}

/// Copy of a branch list.
fn clone_branch_list(a: &Vec<Vec<u8>>) -> (r: Vec<Vec<u8>>)
    ensures
        r.deep_view() == a.deep_view(),
{
    let mut out: Vec<Vec<u8>> = Vec::new();
    let mut i: usize = 0;
    while i < a.len()
        invariant
            i <= a.len(),
            out@.len() == i,
            forall|j: int| 0 <= j < i ==> (#[trigger] out@[j])@ == a@[j]@,
        decreases a.len() - i,
    {
        out.push(clone_bytes(&a[i]));
        i += 1;
    }
    proof {
        lemma_nested_deep_view(*a);
        lemma_nested_deep_view(out);
        assert(out.deep_view() =~= a.deep_view());
    }
    out
}

/// A copy of a list of byte strings, with one more element at the end.
fn push_cloned(a: &Vec<Vec<u8>>, x: &Vec<u8>) -> (r: Vec<Vec<u8>>)
    ensures
        r.deep_view() == a.deep_view().push(x@),
{
    let mut out = clone_branch_list(a);
    let ghost mid = out;
    out.push(clone_bytes(x));
    proof {
        lemma_nested_deep_view(out);
        lemma_nested_deep_view(mid);
        lemma_nested_deep_view(*a);
        assert(out.deep_view() =~= a.deep_view().push(x@));
    }
    out
}

/// A vector holding a single element.
fn vec_of_one(x: Vec<u8>) -> (r: Vec<Vec<u8>>)
    ensures
        r.deep_view() == seq![x@],
{
    let mut out: Vec<Vec<u8>> = Vec::new();
    let ghost xv = x@;
    out.push(x);
    proof {
        lemma_nested_deep_view(out);
        assert(out.deep_view() =~= seq![xv]);
    }
    out
}

/// Growing one bucket's id list by one grows the total update count by one.
proof fn lemma_sum_ids_update(orig: Seq<BucketV>, k: int, upd: Seq<BucketV>)
    requires
        0 <= k < orig.len(),
        upd.len() == orig.len(),
        upd[k] == (BucketV {
            branches: orig[k].branches,
            bh: orig[k].bh,
            ids: orig[k].ids.push(upd[k].ids.last()),
        }),
        forall|j: int| 0 <= j < orig.len() && j != k ==> upd[j] == orig[j],
    ensures
        sum_ids(upd) == sum_ids(orig) + 1,
    decreases orig.len(),
{
    if orig.len() > 0 {
        if k == orig.len() - 1 {
            assert(upd.drop_last() =~= orig.drop_last());
        } else {
            lemma_sum_ids_update(orig.drop_last(), k, upd.drop_last());
            assert(upd.last() == orig.last());
        }
    }
}

/// The error a commit reports when the vector store did not accept the
/// plan's calls: the relational transaction is abandoned and nothing is
/// applied.
#[derive(Debug)]
pub enum CommitError {
    VectorStore,
}

/// One branch update applied to the chunk table: every row of this chunk id
/// takes the new branches hash.
pub open spec fn upd_one(chunks: Seq<ChunkRowV>, id: Seq<u8>, bh: Seq<u8>) -> Seq<ChunkRowV> {
    chunks.map_values(
        |c: ChunkRowV|
            if c.chunk_hash == id {
                ChunkRowV {
                    chunk_hash: c.chunk_hash,
                    file_hash: c.file_hash,
                    branches: bh,
                    repo_ref: c.repo_ref,
                }
            } else {
                c
            },
    )
}

/// Branch updates of one bucket, id by id, in order.
pub open spec fn apply_ids(chunks: Seq<ChunkRowV>, ids: Seq<Seq<u8>>, bh: Seq<u8>) -> Seq<
    ChunkRowV,
>
    decreases ids.len(),
{
    if ids.len() == 0 {
        chunks
    } else {
        upd_one(apply_ids(chunks, ids.drop_last(), bh), ids.last(), bh)
    }
}

/// All buffered branch updates, bucket by bucket, in order.
pub open spec fn apply_buckets(chunks: Seq<ChunkRowV>, buckets: Seq<BucketV>) -> Seq<ChunkRowV>
    decreases buckets.len(),
{
    if buckets.len() == 0 {
        chunks
    } else {
        apply_ids(
            apply_buckets(chunks, buckets.drop_last()),
            buckets.last().ids,
            buckets.last().bh,
        )
    }
}

/// One deletion applied to the chunk table: the rows of this chunk id under
/// this file are removed.
pub open spec fn del_one(chunks: Seq<ChunkRowV>, id: Seq<u8>, file_key: Seq<u8>) -> Seq<
    ChunkRowV,
> {
    chunks.filter(|c: ChunkRowV| !(c.chunk_hash == id && c.file_hash == file_key))
}

/// All deletions, id by id, in order.
pub open spec fn apply_deletes(
    chunks: Seq<ChunkRowV>,
    ids: Seq<Seq<u8>>,
    file_key: Seq<u8>,
) -> Seq<ChunkRowV>
    decreases ids.len(),
{
    if ids.len() == 0 {
        chunks
    } else {
        del_one(apply_deletes(chunks, ids.drop_last(), file_key), ids.last(), file_key)
    }
}

/// All buffered inserts appended as rows of this file and repository.
pub open spec fn apply_inserts(
    chunks: Seq<ChunkRowV>,
    pending: Seq<PendingV>,
    file_key: Seq<u8>,
    repo: Seq<u8>,
) -> Seq<ChunkRowV> {
    chunks + pending.map_values(
        |p: PendingV|
            ChunkRowV { chunk_hash: p.id, file_hash: file_key, branches: p.bh, repo_ref: repo },
    )
}

/// The full effect of a committed chunk cache on the chunk table: branch
/// updates first, then deletions of everything left stale, then inserts.
pub open spec fn apply_commit(chunks: Seq<ChunkRowV>, m: ChunkCacheV) -> Seq<ChunkRowV> {
    apply_inserts(
        apply_deletes(apply_buckets(chunks, m.updates), delete_ids(m.cells), m.file_key),
        m.pending,
        m.file_key,
        m.repo_ref,
    )
}

/// Extending the committed prefix of buckets by one adds that bucket's id
/// count to the running update count.
proof fn lemma_sum_ids_take_step(buckets: Seq<BucketV>, j: int)
    requires
        0 <= j < buckets.len(),
    ensures
        sum_ids(buckets.take(j + 1)) == sum_ids(buckets.take(j)) + buckets[j].ids.len(),
{
    assert(buckets.take(j + 1).drop_last() =~= buckets.take(j));
    assert(buckets.take(j + 1).last() == buckets[j]);
}

/// The update count of a prefix never exceeds the whole count.
proof fn lemma_sum_ids_take_le(buckets: Seq<BucketV>, j: int)
    requires
        0 <= j <= buckets.len(),
    ensures
        sum_ids(buckets.take(j)) <= sum_ids(buckets),
        sum_ids(buckets.take(j)) >= 0,
    decreases buckets.len() - j,
{
    if j == buckets.len() {
        assert(buckets.take(j) =~= buckets);
        lemma_sum_ids_nonneg(buckets);
    } else {
        lemma_sum_ids_take_step(buckets, j);
        lemma_sum_ids_take_le(buckets, j + 1);
        lemma_sum_ids_nonneg(buckets.take(j));
    }
}

/// The update count is never negative.
proof fn lemma_sum_ids_nonneg(buckets: Seq<BucketV>)
    ensures
        sum_ids(buckets) >= 0,
    decreases buckets.len(),
{
    if buckets.len() > 0 {
        lemma_sum_ids_nonneg(buckets.drop_last());
    }
}

impl ChunkCache {
    /// Commit the buffered work to the relational store.
    ///
    /// The caller first issues the vector-store calls of this cache's plan
    /// and reports whether every one of them was accepted.  Only then is the
    /// relational transaction applied: branch updates, then deletions of
    /// every chunk left stale, then inserts, and the reported counts are
    /// (inserts, updates, deletes).  If the vector store refused, nothing at
    /// all is applied: the store is left exactly as it was, and the next
    /// pass replays the work from the still-stale rows.
    pub fn commit(self, db: &mut Database, vector_accepted: bool) -> (r: Result<
        (usize, usize, usize),
        CommitError,
    >)
        requires
            self.wf(),
        ensures
            final(db).files() == old(db).files(),
            !vector_accepted ==> r == Err::<(usize, usize, usize), CommitError>(
                CommitError::VectorStore,
            ) && final(db).chunks() == old(db).chunks(),
            vector_accepted ==> final(db).chunks() == apply_commit(old(db).chunks(), self@) && (
            match r {
                Ok(counts) => counts.0 == self@.points.len() && counts.1 == sum_ids(self@.updates)
                    && counts.2 == delete_ids(self@.cells).len(),
                Err(_) => false,
            }),
    {
        if !vector_accepted {
            return Err(CommitError::VectorStore);
        }
        let ghost chunks0 = db.chunks();

        // Phase A: branch updates.
        let mut update_size: usize = 0;
        let mut b: usize = 0;
        while b < self.update.len()
            invariant
                self.wf(),
                b <= self.update@.len(),
                db.files() == old(db).files(),
                chunks0 == old(db).chunks(),
                db.chunks() == apply_buckets(chunks0, self@.updates.take(b as int)),
                update_size == sum_ids(self@.updates.take(b as int)),
            decreases self.update@.len() - b,
        {
            proof {
                assert(self@.updates[b as int] == self.update@[b as int]@);
            }
            let ghost chunks_b = db.chunks();
            let mut k: usize = 0;
            while k < self.update[b].ids.len()
                invariant
                    self.wf(),
                    b < self.update@.len(),
                    k <= self.update@[b as int].ids.len(),
                    db.files() == old(db).files(),
                    chunks0 == old(db).chunks(),
                    chunks_b == apply_buckets(chunks0, self@.updates.take(b as int)),
                    db.chunks() == apply_ids(
                        chunks_b,
                        self@.updates[b as int].ids.take(k as int),
                        self@.updates[b as int].bh,
                    ),
                decreases self.update@[b as int].ids.len() - k,
            {
                let ghost pre = db.chunks();
                let ghost ids = self@.updates[b as int].ids;
                let ghost bh = self@.updates[b as int].bh;
                proof {
                    lemma_nested_deep_view(self.update@[b as int].ids);
                    assert(ids[k as int] == self.update@[b as int].ids@[k as int]@);
                }
                db.update_chunk_branches(&self.update[b].ids[k], &self.update[b].branches_hash);
                proof {
                    assert(db.chunks() =~= upd_one(pre, ids[k as int], bh));
                    assert(ids.take(k + 1).drop_last() =~= ids.take(k as int));
                    assert(ids.take(k + 1).last() == ids[k as int]);
                    assert(db.chunks() == apply_ids(chunks_b, ids.take(k + 1), bh));
                }
                k += 1;
            }
            proof {
                let ghost ids = self@.updates[b as int].ids;
                assert(ids.take(ids.len() as int) =~= ids);
                assert(self@.updates.take(b + 1).drop_last() =~= self@.updates.take(b as int));
                assert(self@.updates.take(b + 1).last() == self@.updates[b as int]);
                assert(db.chunks() == apply_buckets(chunks0, self@.updates.take(b + 1)));
                lemma_sum_ids_take_step(self@.updates, b as int);
                lemma_sum_ids_take_le(self@.updates, b + 1);
                lemma_sum_ids_take_le(self@.updates, b as int);
            }
            update_size = update_size + self.update[b].ids.len();
            b += 1;
        }
        proof {
            assert(self@.updates.take(self@.updates.len() as int) =~= self@.updates);
        }
        let ghost chunks_a = db.chunks();

        // Phase B: deletions of everything left stale.
        let mut to_delete: Vec<Vec<u8>> = Vec::new();
        let mut i: usize = 0;
        while i < self.cache.len()
            invariant
                i <= self.cache@.len(),
                to_delete.deep_view() == delete_ids(self@.cells.take(i as int)),
            decreases self.cache@.len() - i,
        {
            let ghost pred = |c: CellV| !c.fresh;
            let ghost pre_vec = to_delete;
            proof {
                assert(self@.cells[i as int] == self.cache@[i as int]@);
            }
            if !self.cache[i].cell.fresh {
                to_delete.push(clone_bytes(&self.cache[i].key));
            }
            proof {
                lemma_filter_take_step(self@.cells, i as int, pred);
                lemma_nested_deep_view(pre_vec);
                lemma_nested_deep_view(to_delete);
                let cells = self@.cells;
                let f1 = cells.take(i + 1).filter(pred);
                let f0 = cells.take(i as int).filter(pred);
                assert(delete_ids(cells.take(i as int)) == f0.map_values(|c: CellV| c.key));
                assert(delete_ids(cells.take(i + 1)) == f1.map_values(|c: CellV| c.key));
                if !cells[i as int].fresh {
                    assert(f1 == f0.push(cells[i as int]));
                    assert(f1.map_values(|c: CellV| c.key) =~= f0.map_values(
                        |c: CellV| c.key,
                    ).push(cells[i as int].key));
                } else {
                    assert(f1 == f0);
                }
                assert(to_delete.deep_view() =~~= delete_ids(self@.cells.take(i + 1)));
            }
            i += 1;
        }
        proof {
            assert(self@.cells.take(self@.cells.len() as int) =~= self@.cells);
        }
        let delete_size = to_delete.len();
        let ghost dl = delete_ids(self@.cells);
        proof {
            lemma_nested_deep_view(to_delete);
            assert(dl.len() == to_delete@.len());
        }
        let mut d: usize = 0;
        while d < to_delete.len()
            invariant
                d <= to_delete@.len(),
                to_delete.deep_view() == dl,
                db.files() == old(db).files(),
                chunks_a == apply_buckets(old(db).chunks(), self@.updates),
                db.chunks() == apply_deletes(chunks_a, dl.take(d as int), self@.file_key),
            decreases to_delete@.len() - d,
        {
            let ghost pre = db.chunks();
            proof {
                lemma_nested_deep_view(to_delete);
                assert(dl[d as int] == to_delete@[d as int]@);
            }
            db.delete_chunk_row(&to_delete[d], &self.file_cache_key);
            proof {
                assert(db.chunks() =~= del_one(pre, dl[d as int], self@.file_key));
                assert(dl.take(d + 1).drop_last() =~= dl.take(d as int));
                assert(dl.take(d + 1).last() == dl[d as int]);
                assert(db.chunks() == apply_deletes(chunks_a, dl.take(d + 1), self@.file_key));
            }
            d += 1;
        }
        proof {
            assert(dl.take(dl.len() as int) =~= dl);
        }
        let ghost chunks_bb = db.chunks();

        // Phase C: inserts.
        let mut n: usize = 0;
        while n < self.new_sql.len()
            invariant
                n <= self.new_sql@.len(),
                db.files() == old(db).files(),
                chunks_bb == apply_deletes(
                    apply_buckets(old(db).chunks(), self@.updates),
                    delete_ids(self@.cells),
                    self@.file_key,
                ),
                db.chunks() == apply_inserts(
                    chunks_bb,
                    self@.pending.take(n as int),
                    self@.file_key,
                    self@.repo_ref,
                ),
            decreases self.new_sql@.len() - n,
        {
            proof {
                assert(self@.pending[n as int] == self.new_sql@[n as int]@);
            }
            let ghost pre = db.chunks();
            db.insert_chunk_row(
                &self.new_sql[n].id,
                &self.file_cache_key,
                &self.new_sql[n].branches_hash,
                &self.repo_ref,
            );
            proof {
                assert(db.chunks() =~= apply_inserts(
                    chunks_bb,
                    self@.pending.take(n + 1),
                    self@.file_key,
                    self@.repo_ref,
                ));
            }
            n += 1;
        }
        proof {
            assert(self@.pending.take(self@.pending.len() as int) =~= self@.pending);
        }
        let new_size = self.new_points.len();
        Ok((new_size, update_size, delete_size))
    }
}

/// The writes one commit will perform, in phase order: one payload-set call
/// per branch bucket, then one batched deletion, then one batched upsert.
pub struct CommitPlan {
    pub updates: Vec<BranchBucket>,
    pub deletes: Vec<Vec<u8>>,
    pub inserts: Vec<PendingInsert>,
    pub points: Vec<Point>,
}

/// One call to the vector store.  A successful call means the write was
/// accepted into the store's pipeline, not that it is already visible.
pub enum VectorRpc {
    SetPayload { ids: Vec<Vec<u8>>, branches: Vec<Vec<u8>> },
    DeletePoints { ids: Vec<Vec<u8>> },
    UpsertPoints { points: Vec<Point> },
}

/// Mathematical image of a vector-store call.
#[verifier::ext_equal]
pub enum VectorRpcV {
    SetPayload { ids: Seq<Seq<u8>>, branches: Seq<Seq<u8>> },
    DeletePoints { ids: Seq<Seq<u8>> },
    UpsertPoints { points: Seq<PointV> },
}

impl View for VectorRpc {
    type V = VectorRpcV;

    open spec fn view(&self) -> VectorRpcV {
        match self {
            VectorRpc::SetPayload { ids, branches } => VectorRpcV::SetPayload {
                ids: ids.deep_view(),
                branches: branches.deep_view(),
            },
            VectorRpc::DeletePoints { ids } => VectorRpcV::DeletePoints { ids: ids.deep_view() },
            VectorRpc::UpsertPoints { points } => VectorRpcV::UpsertPoints {
                points: points@.map_values(|p: Point| p@),
            },
        }
    }
}

/// The ordered vector-store calls of a plan: one payload-set per bucket, in
/// bucket order, then the batched deletion and the batched upsert — each of
/// the last two only if it has something to carry, because the store rejects
/// empty batches.
pub open spec fn rpcs_of(
    updates: Seq<BucketV>,
    deletes: Seq<Seq<u8>>,
    points: Seq<PointV>,
) -> Seq<VectorRpcV> {
    updates.map_values(
        |b: BucketV| VectorRpcV::SetPayload { ids: b.ids, branches: b.branches },
    ) + (if deletes.len() > 0 {
        seq![VectorRpcV::DeletePoints { ids: deletes }]
    } else {
        Seq::<VectorRpcV>::empty()
    }) + (if points.len() > 0 {
        seq![VectorRpcV::UpsertPoints { points }]
    } else {
        Seq::<VectorRpcV>::empty()
    })
}

impl ChunkCache {
    /// The writes a commit of this cache will perform, for the caller to
    /// issue to the vector store before reporting acceptance back to
    /// `commit`: the buffered branch updates in order, the ids of every
    /// stale cell in cache order, and the buffered inserts.
    pub fn commit_plan(&self) -> (p: CommitPlan)
        ensures
            p.updates@.map_values(|b: BranchBucket| b@) == self@.updates,
            p.deletes.deep_view() == delete_ids(self@.cells),
            p.inserts@.map_values(|q: PendingInsert| q@) == self@.pending,
            p.points@.map_values(|q: Point| q@) == self@.points,
    {
        let mut updates: Vec<BranchBucket> = Vec::new();
        let mut i: usize = 0;
        while i < self.update.len()
            invariant
                i <= self.update@.len(),
                updates@.map_values(|b: BranchBucket| b@) == self@.updates.take(i as int),
            decreases self.update@.len() - i,
        {
            proof {
                assert(self@.updates[i as int] == self.update@[i as int]@);
            }
            let b = BranchBucket {
                branches: clone_branch_list(&self.update[i].branches),
                branches_hash: clone_bytes(&self.update[i].branches_hash),
                ids: clone_branch_list(&self.update[i].ids),
            };
            let ghost gb = b;
            let ghost pre = updates@;
            updates.push(b);
            proof {
                assert(gb@ == self@.updates[i as int]);
                lemma_map_take_push(
                    pre,
                    updates@,
                    gb,
                    |b: BranchBucket| b@,
                    self@.updates,
                    i as int,
                );
            }
            i += 1;
        }
        proof {
            assert(self@.updates.take(self@.updates.len() as int) =~= self@.updates);
        }

        let mut deletes: Vec<Vec<u8>> = Vec::new();
        let mut j: usize = 0;
        while j < self.cache.len()
            invariant
                j <= self.cache@.len(),
                deletes.deep_view() == delete_ids(self@.cells.take(j as int)),
            decreases self.cache@.len() - j,
        {
            let ghost pred = |c: CellV| !c.fresh;
            let ghost pre_vec = deletes;
            proof {
                assert(self@.cells[j as int] == self.cache@[j as int]@);
            }
            if !self.cache[j].cell.fresh {
                deletes.push(clone_bytes(&self.cache[j].key));
            }
            proof {
                lemma_filter_take_step(self@.cells, j as int, pred);
                lemma_nested_deep_view(pre_vec);
                lemma_nested_deep_view(deletes);
                let cells = self@.cells;
                let f1 = cells.take(j + 1).filter(pred);
                let f0 = cells.take(j as int).filter(pred);
                if !cells[j as int].fresh {
                    assert(f1.map_values(|c: CellV| c.key) =~= f0.map_values(
                        |c: CellV| c.key,
                    ).push(cells[j as int].key));
                }
                assert(deletes.deep_view() =~~= delete_ids(self@.cells.take(j + 1)));
            }
            j += 1;
        }
        proof {
            assert(self@.cells.take(self@.cells.len() as int) =~= self@.cells);
        }

        let mut inserts: Vec<PendingInsert> = Vec::new();
        let mut k: usize = 0;
        while k < self.new_sql.len()
            invariant
                k <= self.new_sql@.len(),
                inserts@.map_values(|q: PendingInsert| q@) == self@.pending.take(k as int),
            decreases self.new_sql@.len() - k,
        {
            proof {
                assert(self@.pending[k as int] == self.new_sql@[k as int]@);
            }
            let q = PendingInsert {
                id: clone_bytes(&self.new_sql[k].id),
                branches_hash: clone_bytes(&self.new_sql[k].branches_hash),
            };
            let ghost gq = q;
            let ghost pre = inserts@;
            inserts.push(q);
            proof {
                assert(gq@ == self@.pending[k as int]);
                lemma_map_take_push(
                    pre,
                    inserts@,
                    gq,
                    |q: PendingInsert| q@,
                    self@.pending,
                    k as int,
                );
            }
            k += 1;
        }
        proof {
            assert(self@.pending.take(self@.pending.len() as int) =~= self@.pending);
        }

        let mut points: Vec<Point> = Vec::new();
        let mut m: usize = 0;
        while m < self.new_points.len()
            invariant
                m <= self.new_points@.len(),
                points@.map_values(|q: Point| q@) == self@.points.take(m as int),
            decreases self.new_points@.len() - m,
        {
            proof {
                assert(self@.points[m as int] == self.new_points@[m as int]@);
            }
            let q = clone_point(&self.new_points[m]);
            let ghost gq = q;
            let ghost pre = points@;
            points.push(q);
            proof {
                assert(gq@ == self@.points[m as int]);
                lemma_map_take_push(pre, points@, gq, |q: Point| q@, self@.points, m as int);
            }
            m += 1;
        }
        proof {
            assert(self@.points.take(self@.points.len() as int) =~= self@.points);
        }
        CommitPlan { updates, deletes, inserts, points }
    }
}

impl CommitPlan {
    /// The vector-store calls of this plan, in the order the caller must
    /// issue them: payload sets, then the deletion batch, then the upsert
    /// batch, with no empty batch ever sent.
    pub fn vector_rpcs(&self) -> (r: Vec<VectorRpc>)
        ensures
            r@.map_values(|x: VectorRpc| x@) == rpcs_of(
                self.updates@.map_values(|b: BranchBucket| b@),
                self.deletes.deep_view(),
                self.points@.map_values(|p: Point| p@),
            ),
    {
        let ghost target = rpcs_of(
            self.updates@.map_values(|b: BranchBucket| b@),
            self.deletes.deep_view(),
            self.points@.map_values(|p: Point| p@),
        );
        let mut r: Vec<VectorRpc> = Vec::new();
        let mut i: usize = 0;
        while i < self.updates.len()
            invariant
                i <= self.updates@.len(),
                r@.map_values(|x: VectorRpc| x@) == self.updates@.map_values(
                    |b: BranchBucket| b@,
                ).map_values(
                    |b: BucketV| VectorRpcV::SetPayload { ids: b.ids, branches: b.branches },
                ).take(i as int),
            decreases self.updates@.len() - i,
        {
            let x = VectorRpc::SetPayload {
                ids: clone_branch_list(&self.updates[i].ids),
                branches: clone_branch_list(&self.updates[i].branches),
            };
            let ghost gx = x;
            let ghost pre = r@;
            r.push(x);
            proof {
                let us = self.updates@.map_values(|b: BranchBucket| b@);
                let tgt = us.map_values(
                    |b: BucketV| VectorRpcV::SetPayload { ids: b.ids, branches: b.branches },
                );
                assert(us[i as int] == self.updates@[i as int]@);
                assert(gx@ == tgt[i as int]);
                assert(us.take(i as int).map_values(
                    |b: BucketV| VectorRpcV::SetPayload { ids: b.ids, branches: b.branches },
                ) =~= tgt.take(i as int));
                assert(us.take(i + 1).map_values(
                    |b: BucketV| VectorRpcV::SetPayload { ids: b.ids, branches: b.branches },
                ) =~= tgt.take(i + 1));
                lemma_map_take_push(pre, r@, gx, |x: VectorRpc| x@, tgt, i as int);
            }
            i += 1;
        }
        proof {
            let us = self.updates@.map_values(|b: BranchBucket| b@);
            assert(us.take(us.len() as int) =~= us);
        }
        if self.deletes.len() > 0 {
            let x = VectorRpc::DeletePoints { ids: clone_branch_list(&self.deletes) };
            let ghost gx = x;
            let ghost pre = r@;
            r.push(x);
            proof {
                let f = |x: VectorRpc| x@;
                assert(pre.map_values(f).len() == pre.len());
                assert(gx@ == VectorRpcV::DeletePoints { ids: self.deletes.deep_view() });
                assert(r@.map_values(f) =~= pre.map_values(f).push(gx@));
            }
        } else {
            proof {
                assert(self.deletes.deep_view().len() == self.deletes@.len());
            }
        }
        if self.points.len() > 0 {
            let mut points: Vec<Point> = Vec::new();
            let mut m: usize = 0;
            while m < self.points.len()
                invariant
                    m <= self.points@.len(),
                    points@.map_values(|q: Point| q@) == self.points@.map_values(
                        |q: Point| q@,
                    ).take(m as int),
                decreases self.points@.len() - m,
            {
                let q = clone_point(&self.points[m]);
                let ghost gq = q;
                let ghost pre = points@;
                points.push(q);
                proof {
                    assert(gq@ == self.points@[m as int]@);
                    lemma_map_take_push(
                        pre,
                        points@,
                        gq,
                        |q: Point| q@,
                        self.points@.map_values(|q: Point| q@),
                        m as int,
                    );
                }
                m += 1;
            }
            proof {
                let ps = self.points@.map_values(|q: Point| q@);
                assert(ps.take(ps.len() as int) =~= ps);
            }
            let x = VectorRpc::UpsertPoints { points };
            let ghost gx = x;
            let ghost pre = r@;
            r.push(x);
            proof {
                let f = |x: VectorRpc| x@;
                assert(pre.map_values(f).len() == pre.len());
                assert(gx@ == VectorRpcV::UpsertPoints {
                    points: self.points@.map_values(|q: Point| q@),
                });
                assert(r@.map_values(f) =~= pre.map_values(f).push(gx@));
            }
        } else {
            proof {
                assert(self.points@.map_values(|q: Point| q@).len() == self.points@.len());
            }
        }
        proof {
            assert(r@.map_values(|x: VectorRpc| x@) =~= target);
        }
        r
    }
}

/// Field-for-field copy of a pending vector point.
fn clone_point(p: &Point) -> (r: Point)
    ensures
        r@ == p@,
{
    let r = Point {
        id: clone_bytes(&p.id),
        embedding: clone_bytes(&p.embedding),
        payload: Payload {
            branches: clone_branch_list(&p.payload.branches),
            meta: clone_bytes(&p.payload.meta),
        },
    };
    proof {
        assert(r@ =~~= p@);
    }
    r
}

/// A single branch update leaves every row of a different chunk id exactly
/// as it was.
proof fn lemma_upd_one_other(chunks: Seq<ChunkRowV>, id2: Seq<u8>, bh: Seq<u8>, id: Seq<u8>)
    requires
        id2 != id,
    ensures
        upd_one(chunks, id2, bh).filter(|c: ChunkRowV| c.chunk_hash == id) == chunks.filter(
            |c: ChunkRowV| c.chunk_hash == id,
        ),
    decreases chunks.len(),
{
    reveal_with_fuel(Seq::filter, 2);
    let pid = |c: ChunkRowV| c.chunk_hash == id;
    let m = upd_one(chunks, id2, bh);
    if chunks.len() > 0 {
        lemma_upd_one_other(chunks.drop_last(), id2, bh, id);
        assert(m.drop_last() =~= upd_one(chunks.drop_last(), id2, bh));
        assert(pid(m.last()) == pid(chunks.last()));
        if pid(chunks.last()) {
            assert(m.last() == chunks.last());
        }
    } else {
        assert(m =~= chunks);
    }
}

/// A whole bucket of branch updates leaves every row of an unlisted chunk id
/// exactly as it was.
proof fn lemma_apply_ids_other(chunks: Seq<ChunkRowV>, ids: Seq<Seq<u8>>, bh: Seq<u8>, id: Seq<u8>)
    requires
        !ids.contains(id),
    ensures
        apply_ids(chunks, ids, bh).filter(|c: ChunkRowV| c.chunk_hash == id) == chunks.filter(
            |c: ChunkRowV| c.chunk_hash == id,
        ),
    decreases ids.len(),
{
    if ids.len() > 0 {
        assert(!ids.drop_last().contains(id)) by {
            if ids.drop_last().contains(id) {
                let w = choose|w: int| 0 <= w < ids.drop_last().len() && ids.drop_last()[w] == id;
                assert(ids[w] == id);
            }
        }
        lemma_apply_ids_other(chunks, ids.drop_last(), bh, id);
        assert(ids.last() != id) by {
            assert(ids[ids.len() - 1] == ids.last());
        }
        lemma_upd_one_other(apply_ids(chunks, ids.drop_last(), bh), ids.last(), bh, id);
    }
}

/// All buffered branch updates leave every row of an unlisted chunk id
/// exactly as it was.
proof fn lemma_apply_buckets_other(chunks: Seq<ChunkRowV>, buckets: Seq<BucketV>, id: Seq<u8>)
    requires
        forall|i: int| 0 <= i < buckets.len() ==> !(#[trigger] buckets[i]).ids.contains(id),
    ensures
        apply_buckets(chunks, buckets).filter(|c: ChunkRowV| c.chunk_hash == id) == chunks.filter(
            |c: ChunkRowV| c.chunk_hash == id,
        ),
    decreases buckets.len(),
{
    if buckets.len() > 0 {
        lemma_apply_buckets_other(chunks, buckets.drop_last(), id);
        assert(buckets[buckets.len() - 1] == buckets.last());
        lemma_apply_ids_other(
            apply_buckets(chunks, buckets.drop_last()),
            buckets.last().ids,
            buckets.last().bh,
            id,
        );
    }
}

/// Deletions keyed by other chunk ids leave every row of this chunk id
/// exactly as it was.
proof fn lemma_apply_deletes_other(
    chunks: Seq<ChunkRowV>,
    ids: Seq<Seq<u8>>,
    file_key: Seq<u8>,
    id: Seq<u8>,
)
    requires
        !ids.contains(id),
    ensures
        apply_deletes(chunks, ids, file_key).filter(|c: ChunkRowV| c.chunk_hash == id)
            == chunks.filter(|c: ChunkRowV| c.chunk_hash == id),
    decreases ids.len(),
{
    if ids.len() > 0 {
        assert(!ids.drop_last().contains(id)) by {
            if ids.drop_last().contains(id) {
                let w = choose|w: int| 0 <= w < ids.drop_last().len() && ids.drop_last()[w] == id;
                assert(ids[w] == id);
            }
        }
        lemma_apply_deletes_other(chunks, ids.drop_last(), file_key, id);
        assert(ids.last() != id) by {
            assert(ids[ids.len() - 1] == ids.last());
        }
        let prev = apply_deletes(chunks, ids.drop_last(), file_key);
        let keep = |c: ChunkRowV| !(c.chunk_hash == ids.last() && c.file_hash == file_key);
        let pid = |c: ChunkRowV| c.chunk_hash == id;
        crate::seq_facts::lemma_filter_subset_id(prev, keep, pid);
    }
}

/// Inserts of other chunk ids leave every row of this chunk id exactly as
/// it was.
proof fn lemma_apply_inserts_other(
    chunks: Seq<ChunkRowV>,
    pending: Seq<PendingV>,
    file_key: Seq<u8>,
    repo: Seq<u8>,
    id: Seq<u8>,
)
    requires
        forall|i: int| 0 <= i < pending.len() ==> (#[trigger] pending[i]).id != id,
    ensures
        apply_inserts(chunks, pending, file_key, repo).filter(|c: ChunkRowV| c.chunk_hash == id)
            == chunks.filter(|c: ChunkRowV| c.chunk_hash == id),
{
    let pid = |c: ChunkRowV| c.chunk_hash == id;
    let rows = pending.map_values(
        |p: PendingV|
            ChunkRowV { chunk_hash: p.id, file_hash: file_key, branches: p.bh, repo_ref: repo },
    );
    crate::seq_facts::lemma_filter_concat(chunks, rows, pid);
    crate::seq_facts::lemma_filter_empty(rows, pid);
    assert(chunks.filter(pid) + rows.filter(pid) =~= chunks.filter(pid));
}

/// For any chunk left fresh in the cache and listed in none of the buffers,
/// a commit performs no work at all on its id: it is not slated for
/// deletion, and the committed table holds exactly the rows of that id it
/// held before, unchanged and in order.
pub proof fn lemma_unchanged_chunk_untouched(chunks: Seq<ChunkRowV>, m: ChunkCacheV, id: Seq<u8>)
    requires
        forall|i: int, j: int| 0 <= i < j < m.cells.len() ==> m.cells[i].key != m.cells[j].key,
        has_cell(m.cells, id),
        cell_at(m.cells, id).fresh,
        forall|i: int| 0 <= i < m.updates.len() ==> !(#[trigger] m.updates[i]).ids.contains(id),
        forall|i: int| 0 <= i < m.pending.len() ==> (#[trigger] m.pending[i]).id != id,
    ensures
        !delete_ids(m.cells).contains(id),
        apply_commit(chunks, m).filter(|c: ChunkRowV| c.chunk_hash == id) == chunks.filter(
            |c: ChunkRowV| c.chunk_hash == id,
        ),
{
    lemma_fresh_not_deleted(m.cells, id);
    lemma_apply_buckets_other(chunks, m.updates, id);
    lemma_apply_deletes_other(
        apply_buckets(chunks, m.updates),
        delete_ids(m.cells),
        m.file_key,
        id,
    );
    lemma_apply_inserts_other(
        apply_deletes(apply_buckets(chunks, m.updates), delete_ids(m.cells), m.file_key),
        m.pending,
        m.file_key,
        m.repo_ref,
        id,
    );
}

/// Under unique keys, any index holding the key is the one `cell_at` finds.
proof fn lemma_cell_at_index_any(cells: Seq<CellV>, key: Seq<u8>, u: int)
    requires
        forall|i: int, j: int| 0 <= i < j < cells.len() ==> cells[i].key != cells[j].key,
        0 <= u < cells.len(),
        cells[u].key == key,
    ensures
        cell_at(cells, key) == cells[u],
{
    assert forall|j: int| 0 <= j < u implies cells[j].key != key by {}
    lemma_cell_at_index(cells, key, u);
}

/// A committed insert is stored: the committed table holds a row carrying
/// the inserted chunk id, the cache's file key, the branches hash the chunk
/// was observed with, and the repository.
pub proof fn lemma_commit_stores_insert(chunks: Seq<ChunkRowV>, m: ChunkCacheV, i: int)
    requires
        0 <= i < m.pending.len(),
    ensures
        apply_commit(chunks, m).contains(
            ChunkRowV {
                chunk_hash: m.pending[i].id,
                file_hash: m.file_key,
                branches: m.pending[i].bh,
                repo_ref: m.repo_ref,
            },
        ),
{
    let base = apply_deletes(apply_buckets(chunks, m.updates), delete_ids(m.cells), m.file_key);
    let rows = m.pending.map_values(
        |p: PendingV|
            ChunkRowV {
                chunk_hash: p.id,
                file_hash: m.file_key,
                branches: p.bh,
                repo_ref: m.repo_ref,
            },
    );
    assert(apply_commit(chunks, m)[base.len() + i] == rows[i]);
}

/// A cell left fresh is never slated for deletion.
pub proof fn lemma_fresh_not_deleted(cells: Seq<CellV>, id: Seq<u8>)
    requires
        forall|i: int, j: int| 0 <= i < j < cells.len() ==> cells[i].key != cells[j].key,
        has_cell(cells, id),
        cell_at(cells, id).fresh,
    ensures
        !delete_ids(cells).contains(id),
{
    let stale = |c: CellV| !c.fresh;
    if delete_ids(cells).contains(id) {
        let w = choose|w: int|
            0 <= w < cells.filter(stale).len() && cells.filter(stale)[w].key == id;
        crate::seq_facts::lemma_filter_membership(cells, stale);
        let cell = cells.filter(stale)[w];
        assert(cells.filter(stale).contains(cell));
        assert(cells.contains(cell) && !cell.fresh);
        let u = choose|u: int| 0 <= u < cells.len() && cells[u] == cell;
        lemma_cell_at_index_any(cells, id, u);
    }
}

/// No deletion introduces a row: a chunk id absent from the table stays
/// absent through any sequence of deletions.
proof fn lemma_apply_deletes_no_new(
    chunks: Seq<ChunkRowV>,
    ids: Seq<Seq<u8>>,
    file_key: Seq<u8>,
    id: Seq<u8>,
)
    requires
        chunks.filter(|c: ChunkRowV| c.chunk_hash == id) == Seq::<ChunkRowV>::empty(),
    ensures
        apply_deletes(chunks, ids, file_key).filter(|c: ChunkRowV| c.chunk_hash == id)
            == Seq::<ChunkRowV>::empty(),
    decreases ids.len(),
{
    let pid = |c: ChunkRowV| c.chunk_hash == id;
    if ids.len() > 0 {
        lemma_apply_deletes_no_new(chunks, ids.drop_last(), file_key, id);
        let prev = apply_deletes(chunks, ids.drop_last(), file_key);
        let keep = |c: ChunkRowV| !(c.chunk_hash == ids.last() && c.file_hash == file_key);
        crate::seq_facts::lemma_filter_membership(prev, keep);
        crate::seq_facts::lemma_filter_membership(prev.filter(keep), pid);
        crate::seq_facts::lemma_filter_membership(prev, pid);
        let out = prev.filter(keep).filter(pid);
        if out.len() > 0 {
            assert(out.contains(out[0]));
            assert(prev.filter(keep).contains(out[0]) && pid(out[0]));
            assert(prev.contains(out[0]));
            assert(prev.filter(pid).contains(out[0]));
        }
        assert(out =~= Seq::<ChunkRowV>::empty());
    }
}

/// Inserting a chunk with a branch list and committing, then loading a
/// fresh cache from the committed table, yields a cell for that chunk whose
/// stored hash is exactly the hash it was inserted with.  Observing the
/// chunk again with the same branch list is therefore a hit with an
/// unchanged branch set, and `update_or_embed` queues no branch update.
pub proof fn lemma_insert_commit_reobserve(
    chunks: Seq<ChunkRowV>,
    m: ChunkCacheV,
    i: int,
    cells2: Seq<CellV>,
    id: Seq<u8>,
)
    requires
        forall|a: int, b: int| 0 <= a < b < m.cells.len() ==> m.cells[a].key != m.cells[b].key,
        has_cell(m.cells, id),
        cell_at(m.cells, id).fresh,
        forall|a: int| 0 <= a < m.updates.len() ==> !(#[trigger] m.updates[a]).ids.contains(id),
        0 <= i < m.pending.len(),
        m.pending[i].id == id,
        forall|j: int| 0 <= j < m.pending.len() && j != i ==> (#[trigger] m.pending[j]).id != id,
        chunks.filter(|c: ChunkRowV| c.chunk_hash == id) == Seq::<ChunkRowV>::empty(),
        has_cell(cells2, id),
        cell_from_rows(apply_commit(chunks, m), m.file_key, cell_at(cells2, id)),
    ensures
        cell_at(cells2, id).branches_hash == m.pending[i].bh,
{
    let pid = |c: ChunkRowV| c.chunk_hash == id;
    lemma_fresh_not_deleted(m.cells, id);
    lemma_apply_buckets_other(chunks, m.updates, id);
    let a = apply_buckets(chunks, m.updates);
    lemma_apply_deletes_no_new(a, delete_ids(m.cells), m.file_key, id);
    let b = apply_deletes(a, delete_ids(m.cells), m.file_key);
    let rows = m.pending.map_values(
        |p: PendingV|
            ChunkRowV {
                chunk_hash: p.id,
                file_hash: m.file_key,
                branches: p.bh,
                repo_ref: m.repo_ref,
            },
    );
    let committed = apply_commit(chunks, m);
    assert(committed == b + rows);
    let cell = cell_at(cells2, id);
    let w = choose|w: int|
        0 <= w < committed.len() && (#[trigger] committed[w]).file_hash == m.file_key
            && committed[w].chunk_hash == cell.key && committed[w].branches == cell.branches_hash;
    assert(cell.key == id) by {
        let v = choose|v: int| 0 <= v < cells2.len() && cells2[v].key == id;
        lemma_cell_at_any_key(cells2, id);
    }
    crate::seq_facts::lemma_filter_membership(b, pid);
    if w < b.len() {
        assert(committed[w] == b[w]);
        assert(b.filter(pid).contains(b[w]));
    } else {
        assert(committed[w] == rows[w - b.len()]);
        assert(rows[w - b.len()].chunk_hash == m.pending[w - b.len()].id);
        assert(w - b.len() == i);
    }
}

/// Whatever index the lookup recursion settles on, the found cell carries
/// the key it was asked for.
proof fn lemma_cell_at_any_key(cells: Seq<CellV>, key: Seq<u8>)
    requires
        has_cell(cells, key),
    ensures
        cell_at(cells, key).key == key,
    decreases cells.len(),
{
    if cells.len() > 0 && cells[0].key != key {
        assert(has_cell(cells.drop_first(), key)) by {
            let v = choose|v: int| 0 <= v < cells.len() && cells[v].key == key;
            assert(cells.drop_first()[v - 1].key == key);
        }
        lemma_cell_at_any_key(cells.drop_first(), key);
    }
}

} // verus!
