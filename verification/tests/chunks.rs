use bleep_index::chunk::{ChunkCache, CommitError, Payload, VectorRpc};
use bleep_index::db::Database;
use bleep_index::fcache::FileCache;
use bleep_index::keys::{branches_hash, chunk_id, file_hash};

fn payload(branches: &[&str]) -> Payload {
    Payload {
        branches: branches.iter().map(|b| b.as_bytes().to_vec()).collect(),
        meta: Vec::new(),
    }
}

fn embed_ok(bytes: &Vec<u8>) -> Result<Vec<u8>, String> {
    let mut v = bytes.clone();
    v.push(0);
    Ok(v)
}

fn embed_fail(_bytes: &Vec<u8>) -> Result<Vec<u8>, String> {
    Err("embedder down".to_string())
}

fn file_key() -> Vec<u8> {
    file_hash(&b"v1".to_vec(), &b"fn main() {}\n".to_vec())
}

#[test]
fn new_chunk_is_inserted_and_committed() {
    let mut db = Database::new();
    let repo = b"local//repo".to_vec();
    let key = file_key();
    let data = b"fn main() {}".to_vec();

    let mut cache = ChunkCache::for_file(&db, repo.clone(), key.clone());
    cache.update_or_embed(&data, embed_ok, payload(&["main"])).unwrap();

    let plan = cache.commit_plan();
    assert_eq!(plan.inserts.len(), 1);
    assert_eq!(plan.deletes.len(), 0);
    assert_eq!(plan.updates.len(), 0);
    assert_eq!(plan.inserts[0].id, chunk_id(&key, &data));

    let rpcs = plan.vector_rpcs();
    assert_eq!(rpcs.len(), 1);
    match &rpcs[0] {
        VectorRpc::UpsertPoints { points } => {
            assert_eq!(points.len(), 1);
            assert_eq!(points[0].id, chunk_id(&key, &data));
            assert_eq!(points[0].embedding, embed_ok(&data).unwrap());
        }
        _ => panic!("expected one upsert"),
    }

    let counts = cache.commit(&mut db, true).unwrap();
    assert_eq!(counts, (1, 0, 0));
    assert_eq!(db.chunk_rows.len(), 1);
    assert_eq!(db.chunk_rows[0].chunk_hash, chunk_id(&key, &data));
    assert_eq!(db.chunk_rows[0].file_hash, key);
    assert_eq!(db.chunk_rows[0].branches, branches_hash(&payload(&["main"]).branches));
    assert_eq!(db.chunk_rows[0].repo_ref, repo);
}

#[test]
fn unchanged_chunk_commits_nothing() {
    let mut db = Database::new();
    let repo = b"local//repo".to_vec();
    let key = file_key();
    let data = b"fn main() {}".to_vec();

    let mut cache = ChunkCache::for_file(&db, repo.clone(), key.clone());
    cache.update_or_embed(&data, embed_ok, payload(&["main"])).unwrap();
    cache.commit(&mut db, true).unwrap();

    // Next pass: the same chunk with the same branches.
    let mut cache = ChunkCache::for_file(&db, repo.clone(), key.clone());
    cache.update_or_embed(&data, embed_ok, payload(&["main"])).unwrap();
    let plan = cache.commit_plan();
    assert_eq!(plan.updates.len(), 0);
    assert_eq!(plan.deletes.len(), 0);
    assert_eq!(plan.inserts.len(), 0);
    assert!(plan.vector_rpcs().is_empty());
    let counts = cache.commit(&mut db, true).unwrap();
    assert_eq!(counts, (0, 0, 0));
    assert_eq!(db.chunk_rows.len(), 1);
}

#[test]
fn branch_set_change_updates_in_place() {
    let mut db = Database::new();
    let repo = b"local//repo".to_vec();
    let key = file_key();
    let data = b"fn main() {}".to_vec();
    let id = chunk_id(&key, &data);

    let mut cache = ChunkCache::for_file(&db, repo.clone(), key.clone());
    cache.update_or_embed(&data, embed_ok, payload(&["main"])).unwrap();
    cache.commit(&mut db, true).unwrap();

    // Next pass: the same chunk, now visible on two branches.
    let mut cache = ChunkCache::for_file(&db, repo.clone(), key.clone());
    cache.update_or_embed(&data, embed_ok, payload(&["main", "dev"])).unwrap();

    let plan = cache.commit_plan();
    assert_eq!(plan.updates.len(), 1);
    assert_eq!(plan.updates[0].ids, vec![id.clone()]);
    assert_eq!(
        plan.updates[0].branches,
        vec![b"main".to_vec(), b"dev".to_vec()]
    );
    let rpcs = plan.vector_rpcs();
    assert_eq!(rpcs.len(), 1);
    match &rpcs[0] {
        VectorRpc::SetPayload { ids, branches } => {
            assert_eq!(ids, &vec![id.clone()]);
            assert_eq!(branches, &vec![b"main".to_vec(), b"dev".to_vec()]);
        }
        _ => panic!("expected one payload set"),
    }

    let counts = cache.commit(&mut db, true).unwrap();
    assert_eq!(counts, (0, 1, 0));
    assert_eq!(db.chunk_rows.len(), 1);
    assert_eq!(
        db.chunk_rows[0].branches,
        branches_hash(&payload(&["main", "dev"]).branches)
    );
}

#[test]
fn reobserving_committed_branches_triggers_no_update() {
    let mut db = Database::new();
    let repo = b"local//repo".to_vec();
    let key = file_key();
    let data = b"fn main() {}".to_vec();

    let mut cache = ChunkCache::for_file(&db, repo.clone(), key.clone());
    cache.update_or_embed(&data, embed_ok, payload(&["main", "dev"])).unwrap();
    cache.commit(&mut db, true).unwrap();

    let mut cache = ChunkCache::for_file(&db, repo.clone(), key.clone());
    cache.update_or_embed(&data, embed_ok, payload(&["main", "dev"])).unwrap();
    let plan = cache.commit_plan();
    assert_eq!(plan.updates.len(), 0);
    assert_eq!(cache.commit(&mut db, true).unwrap(), (0, 0, 0));
}

#[test]
fn stale_chunk_is_deleted_before_new_insert() {
    let mut db = Database::new();
    let repo = b"local//repo".to_vec();
    let key = file_key();
    let data_a = b"fn a() {}".to_vec();
    let data_b = b"fn b() {}".to_vec();
    let id_a = chunk_id(&key, &data_a);
    let id_b = chunk_id(&key, &data_b);

    let mut cache = ChunkCache::for_file(&db, repo.clone(), key.clone());
    cache.update_or_embed(&data_a, embed_ok, payload(&["main"])).unwrap();
    cache.commit(&mut db, true).unwrap();

    // Next pass: only the new chunk is observed; the old one expires.
    let mut cache = ChunkCache::for_file(&db, repo.clone(), key.clone());
    cache.update_or_embed(&data_b, embed_ok, payload(&["main"])).unwrap();

    let plan = cache.commit_plan();
    assert_eq!(plan.deletes, vec![id_a.clone()]);
    assert_eq!(plan.inserts.len(), 1);
    assert_eq!(plan.inserts[0].id, id_b);
    let rpcs = plan.vector_rpcs();
    assert_eq!(rpcs.len(), 2);
    // Phase order: the deletion precedes the insert.
    match &rpcs[0] {
        VectorRpc::DeletePoints { ids } => assert_eq!(ids, &vec![id_a.clone()]),
        _ => panic!("expected the deletion first"),
    }
    match &rpcs[1] {
        VectorRpc::UpsertPoints { points } => assert_eq!(points[0].id, id_b),
        _ => panic!("expected the upsert last"),
    }

    let counts = cache.commit(&mut db, true).unwrap();
    assert_eq!(counts, (1, 0, 1));
    assert_eq!(db.chunk_rows.len(), 1);
    assert_eq!(db.chunk_rows[0].chunk_hash, id_b);
}

#[test]
fn embedder_failure_leaves_cache_unchanged() {
    let db = Database::new();
    let repo = b"local//repo".to_vec();
    let key = file_key();
    let data = b"fn main() {}".to_vec();

    let mut cache = ChunkCache::for_file(&db, repo.clone(), key.clone());
    let err = cache.update_or_embed(&data, embed_fail, payload(&["main"]));
    assert_eq!(err, Err("embedder down".to_string()));

    let plan = cache.commit_plan();
    assert_eq!(plan.inserts.len(), 0);
    assert_eq!(plan.points.len(), 0);
    assert_eq!(plan.updates.len(), 0);

    // The chunk was not cached: a later observation embeds it again.
    let ok = cache.update_or_embed(&data, embed_ok, payload(&["main"]));
    assert!(ok.is_ok());
    assert_eq!(cache.commit_plan().inserts.len(), 1);
}

#[test]
fn failed_commit_leaves_the_store_unchanged() {
    let mut db = Database::new();
    let repo = b"local//repo".to_vec();
    let key = file_key();
    let data_a = b"fn a() {}".to_vec();
    let data_b = b"fn b() {}".to_vec();

    let mut cache = ChunkCache::for_file(&db, repo.clone(), key.clone());
    cache.update_or_embed(&data_a, embed_ok, payload(&["main"])).unwrap();
    cache.commit(&mut db, true).unwrap();
    let rows_before: Vec<_> = db
        .chunk_rows
        .iter()
        .map(|r| (r.chunk_hash.clone(), r.file_hash.clone(), r.branches.clone()))
        .collect();

    // The vector store refuses the next plan: nothing may be applied.
    let mut cache = ChunkCache::for_file(&db, repo.clone(), key.clone());
    cache.update_or_embed(&data_b, embed_ok, payload(&["main"])).unwrap();
    let r = cache.commit(&mut db, false);
    assert!(matches!(r, Err(CommitError::VectorStore)));
    let rows_after: Vec<_> = db
        .chunk_rows
        .iter()
        .map(|r| (r.chunk_hash.clone(), r.file_hash.clone(), r.branches.clone()))
        .collect();
    assert_eq!(rows_before, rows_after);
}

#[test]
fn retiring_a_repo_drops_both_tables() {
    let mut db = Database::new();
    let repo = b"local//repo".to_vec();
    let other = b"github.com/org/other".to_vec();
    let key = file_key();

    let mut cache = ChunkCache::for_file(&db, repo.clone(), key.clone());
    cache.update_or_embed(&b"fn a() {}".to_vec(), embed_ok, payload(&["main"])).unwrap();
    cache.commit(&mut db, true).unwrap();
    let mut cache = ChunkCache::for_file(&db, other.clone(), key.clone());
    cache.update_or_embed(&b"fn b() {}".to_vec(), embed_ok, payload(&["main"])).unwrap();
    cache.commit(&mut db, true).unwrap();

    let fc = FileCache::for_repo(repo.clone());
    fc.delete(&mut db);
    assert_eq!(db.chunk_rows.len(), 1);
    assert_eq!(db.chunk_rows[0].repo_ref, other);
    assert_eq!(db.file_rows.len(), 0);
}

#[test]
fn chunk_cache_reports_its_file_key() {
    let db = Database::new();
    let key = file_key();
    let cache = ChunkCache::for_file(&db, b"local//repo".to_vec(), key.clone());
    assert_eq!(cache.file_hash(), key);
}

#[test]
fn grouped_branch_updates_share_one_payload_call() {
    let mut db = Database::new();
    let repo = b"local//repo".to_vec();
    let key = file_key();
    let data_a = b"fn a() {}".to_vec();
    let data_b = b"fn b() {}".to_vec();

    let mut cache = ChunkCache::for_file(&db, repo.clone(), key.clone());
    cache.update_or_embed(&data_a, embed_ok, payload(&["main"])).unwrap();
    cache.update_or_embed(&data_b, embed_ok, payload(&["main"])).unwrap();
    cache.commit(&mut db, true).unwrap();

    // Both chunks move to the same new branch list: one bucket, one call.
    let mut cache = ChunkCache::for_file(&db, repo.clone(), key.clone());
    cache.update_or_embed(&data_a, embed_ok, payload(&["main", "dev"])).unwrap();
    cache.update_or_embed(&data_b, embed_ok, payload(&["main", "dev"])).unwrap();
    let plan = cache.commit_plan();
    assert_eq!(plan.updates.len(), 1);
    assert_eq!(plan.updates[0].ids.len(), 2);
    assert_eq!(plan.vector_rpcs().len(), 1);
    assert_eq!(cache.commit(&mut db, true).unwrap(), (0, 2, 0));
}
