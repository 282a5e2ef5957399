//! Model of the relational metadata store.
//!
//! Two tables back the caches: `file_cache (repo_ref, cache_hash)` and
//! `chunk_cache (chunk_hash, file_hash, branches, repo_ref)`.  The store is
//! held as plain rows so that every statement the caches issue has a proved
//! effect, and commits apply either completely or not at all: the caller
//! running the real store replays the same statements inside one
//! transaction.

use vstd::prelude::*;
use crate::keys::{bytes_eq, clone_bytes};
use crate::seq_facts::lemma_filter_take_step;

verus! {

/// One row of the file cache: a repository and a content hash seen in it.
pub struct FileRow {
    pub repo_ref: Vec<u8>,
    pub cache_hash: Vec<u8>,
}

/// Mathematical image of a file-cache row.
#[verifier::ext_equal]
pub struct FileRowV {
    pub repo_ref: Seq<u8>,
    pub cache_hash: Seq<u8>,
}

impl View for FileRow {
    type V = FileRowV;

    open spec fn view(&self) -> FileRowV {
        FileRowV { repo_ref: self.repo_ref@, cache_hash: self.cache_hash@ }
    }
}

/// One row of the chunk cache: a chunk id, its containing file's hash, the
/// hash of its branch list, and the owning repository.
pub struct ChunkRow {
    pub chunk_hash: Vec<u8>,
    pub file_hash: Vec<u8>,
    pub branches: Vec<u8>,
    pub repo_ref: Vec<u8>,
}

/// Mathematical image of a chunk-cache row.
#[verifier::ext_equal]
pub struct ChunkRowV {
    pub chunk_hash: Seq<u8>,
    pub file_hash: Seq<u8>,
    pub branches: Seq<u8>,
    pub repo_ref: Seq<u8>,
}

impl View for ChunkRow {
    type V = ChunkRowV;

    open spec fn view(&self) -> ChunkRowV {
        ChunkRowV {
            chunk_hash: self.chunk_hash@,
            file_hash: self.file_hash@,
            branches: self.branches@,
            repo_ref: self.repo_ref@,
        }
    }
}

/// The relational store: both tables, in row order.
pub struct Database {
    pub file_rows: Vec<FileRow>,
    pub chunk_rows: Vec<ChunkRow>,
}

impl Database {
    /// The file table as mathematics.
    pub open spec fn files(&self) -> Seq<FileRowV> {
        self.file_rows@.map_values(|r: FileRow| r@)
    }

    /// The chunk table as mathematics.
    pub open spec fn chunks(&self) -> Seq<ChunkRowV> {
        self.chunk_rows@.map_values(|r: ChunkRow| r@)
    }

    /// An empty store.
    pub fn new() -> (db: Self)
        ensures
            db.files() == Seq::<FileRowV>::empty(),
            db.chunks() == Seq::<ChunkRowV>::empty(),
    {
        let db = Database { file_rows: Vec::new(), chunk_rows: Vec::new() };
        proof {
            assert(db.files() =~= Seq::<FileRowV>::empty());
            assert(db.chunks() =~= Seq::<ChunkRowV>::empty());
        }
        db
    }

    /// `DELETE FROM file_cache WHERE repo_ref = ?`
    pub fn delete_files_for(&mut self, repo: &Vec<u8>)
        ensures
            final(self).files() == old(self).files().filter(
                |r: FileRowV| r.repo_ref != repo@,
            ),
            final(self).chunks() == old(self).chunks(),
    {
        let ghost pred = |r: FileRowV| r.repo_ref != repo@;
        let ghost orig = self.files();
        let mut kept: Vec<FileRow> = Vec::new();
        let mut i: usize = 0;
        while i < self.file_rows.len()
            invariant
                i <= self.file_rows.len(),
                self.file_rows@ == old(self).file_rows@,
                self.chunk_rows@ == old(self).chunk_rows@,
                orig == old(self).files(),
                pred == (|r: FileRowV| r.repo_ref != repo@),
                kept@.map_values(|r: FileRow| r@) == orig.take(i as int).filter(pred),
            decreases self.file_rows.len() - i,
        {
            proof {
                assert(orig[i as int] == self.file_rows@[i as int]@);
            }
            if !bytes_eq(&self.file_rows[i].repo_ref, repo) {
                let row = FileRow {
                    repo_ref: clone_bytes(&self.file_rows[i].repo_ref),
                    cache_hash: clone_bytes(&self.file_rows[i].cache_hash),
                };
                proof {
                    assert(row@ =~= orig[i as int]);
                }
                kept.push(row);
            }
            proof {
                lemma_filter_take_step(orig, i as int, pred);
                assert(kept@.map_values(|r: FileRow| r@) =~= orig.take(i + 1).filter(pred));
            }
            i += 1;
        }
        proof {
            assert(orig.take(orig.len() as int) =~= orig);
        }
        self.file_rows = kept;
    }

    /// `DELETE FROM chunk_cache WHERE repo_ref = ?`
    pub fn delete_chunks_for(&mut self, repo: &Vec<u8>)
        ensures
            final(self).chunks() == old(self).chunks().filter(
                |c: ChunkRowV| c.repo_ref != repo@,
            ),
            final(self).files() == old(self).files(),
    {
        let ghost pred = |c: ChunkRowV| c.repo_ref != repo@;
        let ghost orig = self.chunks();
        let mut kept: Vec<ChunkRow> = Vec::new();
        let mut i: usize = 0;
        while i < self.chunk_rows.len()
            invariant
                i <= self.chunk_rows.len(),
                self.file_rows@ == old(self).file_rows@,
                self.chunk_rows@ == old(self).chunk_rows@,
                orig == old(self).chunks(),
                pred == (|c: ChunkRowV| c.repo_ref != repo@),
                kept@.map_values(|r: ChunkRow| r@) == orig.take(i as int).filter(pred),
            decreases self.chunk_rows.len() - i,
        {
            proof {
                assert(orig[i as int] == self.chunk_rows@[i as int]@);
            }
            if !bytes_eq(&self.chunk_rows[i].repo_ref, repo) {
                let row = clone_chunk_row(&self.chunk_rows[i]);
                proof {
                    assert(row@ =~= orig[i as int]);
                }
                kept.push(row);
            }
            proof {
                lemma_filter_take_step(orig, i as int, pred);
                assert(kept@.map_values(|r: ChunkRow| r@) =~= orig.take(i + 1).filter(pred));
            }
            i += 1;
        }
        proof {
            assert(orig.take(orig.len() as int) =~= orig);
        }
        self.chunk_rows = kept;
    }

    /// `DELETE FROM chunk_cache WHERE chunk_hash = ? AND file_hash = ?`
    pub fn delete_chunk_row(&mut self, chunk_hash: &Vec<u8>, file_hash: &Vec<u8>)
        ensures
            final(self).chunks() == old(self).chunks().filter(
                |c: ChunkRowV| !(c.chunk_hash == chunk_hash@ && c.file_hash == file_hash@),
            ),
            final(self).files() == old(self).files(),
    {
        let ghost pred = |c: ChunkRowV|
            !(c.chunk_hash == chunk_hash@ && c.file_hash == file_hash@);
        let ghost orig = self.chunks();
        let mut kept: Vec<ChunkRow> = Vec::new();
        let mut i: usize = 0;
        while i < self.chunk_rows.len()
            invariant
                i <= self.chunk_rows.len(),
                self.file_rows@ == old(self).file_rows@,
                self.chunk_rows@ == old(self).chunk_rows@,
                orig == old(self).chunks(),
                pred == (|c: ChunkRowV|
                    !(c.chunk_hash == chunk_hash@ && c.file_hash == file_hash@)),
                kept@.map_values(|r: ChunkRow| r@) == orig.take(i as int).filter(pred),
            decreases self.chunk_rows.len() - i,
        {
            proof {
                assert(orig[i as int] == self.chunk_rows@[i as int]@);
            }
            let hit = bytes_eq(&self.chunk_rows[i].chunk_hash, chunk_hash) && bytes_eq(
                &self.chunk_rows[i].file_hash,
                file_hash,
            );
            if !hit {
                let row = clone_chunk_row(&self.chunk_rows[i]);
                proof {
                    assert(row@ =~= orig[i as int]);
                }
                kept.push(row);
            }
            proof {
                lemma_filter_take_step(orig, i as int, pred);
                assert(kept@.map_values(|r: ChunkRow| r@) =~= orig.take(i + 1).filter(pred));
            }
            i += 1;
        }
        proof {
            assert(orig.take(orig.len() as int) =~= orig);
        }
        self.chunk_rows = kept;
    }

    /// `INSERT INTO file_cache (repo_ref, cache_hash) VALUES (?, ?)`
    pub fn insert_file_row(&mut self, repo: &Vec<u8>, hash: &Vec<u8>)
        ensures
            final(self).files() == old(self).files().push(
                FileRowV { repo_ref: repo@, cache_hash: hash@ },
            ),
            final(self).chunks() == old(self).chunks(),
    {
        let row = FileRow { repo_ref: clone_bytes(repo), cache_hash: clone_bytes(hash) };
        self.file_rows.push(row);
        proof {
            assert(final(self).files() =~= old(self).files().push(
                FileRowV { repo_ref: repo@, cache_hash: hash@ },
            ));
        }
    }

    /// `INSERT INTO chunk_cache (chunk_hash, file_hash, branches, repo_ref)
    ///  VALUES (?, ?, ?, ?)`
    pub fn insert_chunk_row(
        &mut self,
        chunk_hash: &Vec<u8>,
        file_hash: &Vec<u8>,
        branches: &Vec<u8>,
        repo: &Vec<u8>,
    )
        ensures
            final(self).chunks() == old(self).chunks().push(
                ChunkRowV {
                    chunk_hash: chunk_hash@,
                    file_hash: file_hash@,
                    branches: branches@,
                    repo_ref: repo@,
                },
            ),
            final(self).files() == old(self).files(),
    {
        let row = ChunkRow {
            chunk_hash: clone_bytes(chunk_hash),
            file_hash: clone_bytes(file_hash),
            branches: clone_bytes(branches),
            repo_ref: clone_bytes(repo),
        };
        self.chunk_rows.push(row);
        proof {
            assert(final(self).chunks() =~= old(self).chunks().push(
                ChunkRowV {
                    chunk_hash: chunk_hash@,
                    file_hash: file_hash@,
                    branches: branches@,
                    repo_ref: repo@,
                },
            ));
        }
    }

    /// `UPDATE chunk_cache SET branches = ? WHERE chunk_hash = ?`
    pub fn update_chunk_branches(&mut self, chunk_hash: &Vec<u8>, branches: &Vec<u8>)
        ensures
            final(self).chunks() == old(self).chunks().map_values(
                |c: ChunkRowV|
                    if c.chunk_hash == chunk_hash@ {
                        ChunkRowV {
                            chunk_hash: c.chunk_hash,
                            file_hash: c.file_hash,
                            branches: branches@,
                            repo_ref: c.repo_ref,
                        }
                    } else {
                        c
                    },
            ),
            final(self).files() == old(self).files(),
    {
        let ghost upd = |c: ChunkRowV|
            if c.chunk_hash == chunk_hash@ {
                ChunkRowV {
                    chunk_hash: c.chunk_hash,
                    file_hash: c.file_hash,
                    branches: branches@,
                    repo_ref: c.repo_ref,
                }
            } else {
                c
            };
        let ghost orig = self.chunks();
        let mut i: usize = 0;
        while i < self.chunk_rows.len()
            invariant
                i <= self.chunk_rows.len(),
                self.file_rows@ == old(self).file_rows@,
                self.chunk_rows@.len() == old(self).chunk_rows@.len(),
                orig == old(self).chunks(),
                upd == (|c: ChunkRowV|
                    if c.chunk_hash == chunk_hash@ {
                        ChunkRowV {
                            chunk_hash: c.chunk_hash,
                            file_hash: c.file_hash,
                            branches: branches@,
                            repo_ref: c.repo_ref,
                        }
                    } else {
                        c
                    }),
                forall|j: int|
                    0 <= j < i ==> #[trigger] self.chunk_rows@[j]@ == upd(orig[j]),
                forall|j: int|
                    i <= j < orig.len() ==> #[trigger] self.chunk_rows@[j]@ == orig[j],
            decreases self.chunk_rows.len() - i,
        {
            proof {
                assert(self.chunk_rows@[i as int]@ == orig[i as int]);
            }
            if bytes_eq(&self.chunk_rows[i].chunk_hash, chunk_hash) {
                let row = ChunkRow {
                    chunk_hash: clone_bytes(&self.chunk_rows[i].chunk_hash),
                    file_hash: clone_bytes(&self.chunk_rows[i].file_hash),
                    branches: clone_bytes(branches),
                    repo_ref: clone_bytes(&self.chunk_rows[i].repo_ref),
                };
                proof {
                    assert(row@ =~= upd(orig[i as int]));
                }
                self.chunk_rows[i] = row;
            } else {
                proof {
                    assert(self.chunk_rows@[i as int]@ == upd(orig[i as int]));
                }
            }
            i += 1;
        }
        proof {
            assert(final(self).chunks() =~= orig.map_values(upd));
        }
    }
}

/// Field-for-field copy of a chunk row.
fn clone_chunk_row(row: &ChunkRow) -> (r: ChunkRow)
    ensures
        r@ == row@,
{
    let r = ChunkRow {
        chunk_hash: clone_bytes(&row.chunk_hash),
        file_hash: clone_bytes(&row.file_hash),
        branches: clone_bytes(&row.branches),
        repo_ref: clone_bytes(&row.repo_ref),
    };
    proof {
        assert(r@ =~= row@);
    }
    r
}

} // verus!
