use bleep_index::db::{Database, FileRow};
use bleep_index::fcache::FileCache;
use bleep_index::keys::file_hash;
use bleep_index::pipeline::{
    single_hit, DocField, File, PassCache, QueryError, Workload, WorkerError, WriterOp,
};
use bleep_index::symbols::{ExtractError, Symbol, SymbolData};

fn workload(path: &str, content: &[u8]) -> Workload {
    Workload {
        file_disk_path: path.as_bytes().to_vec(),
        repo_disk_path: b"/repo".to_vec(),
        repo_ref: b"local//repo".to_vec(),
        repo_name: b"repo".to_vec(),
        content: content.to_vec(),
        lang: b"Rust".to_vec(),
        last_commit_unix_seconds: 1_700_000_000,
        scope_graph: Err(ExtractError::Failed),
        ctags: None,
    }
}

fn tag() -> Vec<u8> {
    b"v1".to_vec()
}

#[test]
fn first_pass_indexes_a_single_file() {
    let index = File::new(tag());
    let mut cache = PassCache::new();
    let mut db = Database::new();

    let outcome = index.index_repository(vec![workload("/repo/a.txt", b"hi\n")], &mut cache);
    assert_eq!(outcome.ops.len(), 1);
    match &outcome.ops[0] {
        WriterOp::AddDocument(doc) => {
            assert_eq!(doc.file_disk_path, b"/repo/a.txt".to_vec());
            assert_eq!(doc.relative_path, b"a.txt".to_vec());
            assert_eq!(doc.content, b"hi\n".to_vec());
            assert_eq!(doc.line_end_indices, vec![2u8, 0, 0, 0]);
            assert_eq!(doc.line_count, 1);
            assert_eq!(doc.lang, b"rust".to_vec());
            assert_eq!(doc.symbols, b"".to_vec());
            assert_eq!(doc.last_commit_unix_seconds, 1_700_000_000);
        }
        _ => panic!("expected one document write"),
    }

    let fc = FileCache::for_repo(b"local//repo".to_vec());
    fc.persist(&mut db, &outcome.snapshot);
    assert_eq!(db.file_rows.len(), 1);
    assert_eq!(db.file_rows[0].cache_hash, file_hash(&tag(), &b"hi\n".to_vec()));
    assert_eq!(db.chunk_rows.len(), 0);
}

#[test]
fn unchanged_pass_writes_nothing() {
    let index = File::new(tag());
    let mut cache = PassCache::new();

    let first = index.index_repository(vec![workload("/repo/a.txt", b"hi\n")], &mut cache);
    assert_eq!(first.ops.len(), 1);

    cache.begin_pass();
    let second = index.index_repository(vec![workload("/repo/a.txt", b"hi\n")], &mut cache);
    assert_eq!(second.ops.len(), 0);
    assert_eq!(cache.entries.len(), 1);
}

#[test]
fn edited_file_is_rewritten_without_a_delete() {
    let index = File::new(tag());
    let mut cache = PassCache::new();

    index.index_repository(vec![workload("/repo/a.txt", b"hi\n")], &mut cache);
    cache.begin_pass();
    let second = index.index_repository(vec![workload("/repo/a.txt", b"hello\n")], &mut cache);

    // The path is unchanged: the new document supersedes the old one; the
    // sweep deletes nothing because the path was re-observed.
    assert_eq!(second.ops.len(), 1);
    match &second.ops[0] {
        WriterOp::AddDocument(doc) => assert_eq!(doc.content, b"hello\n".to_vec()),
        _ => panic!("expected a fresh document"),
    }
    assert_eq!(cache.entries.len(), 1);
    assert_eq!(
        cache.entries[0].cell.value,
        file_hash(&tag(), &b"hello\n".to_vec())
    );

    let mut db = Database::new();
    let fc = FileCache::for_repo(b"local//repo".to_vec());
    fc.persist(&mut db, &second.snapshot);
    assert_eq!(db.file_rows.len(), 1);
    assert_eq!(db.file_rows[0].cache_hash, file_hash(&tag(), &b"hello\n".to_vec()));
}

#[test]
fn deleted_file_is_swept() {
    let index = File::new(tag());
    let mut cache = PassCache::new();

    index.index_repository(vec![workload("/repo/a.txt", b"hi\n")], &mut cache);
    cache.begin_pass();
    let second = index.index_repository(Vec::new(), &mut cache);

    assert_eq!(second.ops.len(), 1);
    match &second.ops[0] {
        WriterOp::DeleteByTerm { field, text } => {
            assert!(matches!(field, DocField::FileDiskPath));
            assert_eq!(text, &b"/repo/a.txt".to_vec());
        }
        _ => panic!("expected one delete during sweep"),
    }
    assert_eq!(cache.entries.len(), 0);

    let mut db = Database::new();
    let fc = FileCache::for_repo(b"local//repo".to_vec());
    fc.persist(&mut db, &second.snapshot);
    assert_eq!(db.file_rows.len(), 0);
}

#[test]
fn snapshot_hashes_match_walked_files() {
    let index = File::new(tag());
    let mut cache = PassCache::new();
    let outcome = index.index_repository(
        vec![
            workload("/repo/a.txt", b"hi\n"),
            workload("/repo/b.txt", b"there\n"),
        ],
        &mut cache,
    );
    let mut db = Database::new();
    let fc = FileCache::for_repo(b"local//repo".to_vec());
    fc.persist(&mut db, &outcome.snapshot);
    let walked = vec![
        file_hash(&tag(), &b"hi\n".to_vec()),
        file_hash(&tag(), &b"there\n".to_vec()),
    ];
    assert_eq!(db.file_rows.len(), 2);
    for row in &db.file_rows {
        assert!(walked.contains(&row.cache_hash));
    }
}

#[test]
fn retrieve_then_persist_is_an_identity() {
    let mut db = Database::new();
    db.file_rows.push(FileRow {
        repo_ref: b"r1".to_vec(),
        cache_hash: b"h1".to_vec(),
    });
    db.file_rows.push(FileRow {
        repo_ref: b"r1".to_vec(),
        cache_hash: b"h2".to_vec(),
    });
    db.file_rows.push(FileRow {
        repo_ref: b"r2".to_vec(),
        cache_hash: b"h3".to_vec(),
    });

    let fc = FileCache::for_repo(b"r1".to_vec());
    let snap = fc.retrieve(&db);
    fc.persist(&mut db, &snap);

    let mut rows: Vec<(Vec<u8>, Vec<u8>)> = db
        .file_rows
        .iter()
        .map(|r| (r.repo_ref.clone(), r.cache_hash.clone()))
        .collect();
    rows.sort();
    assert_eq!(
        rows,
        vec![
            (b"r1".to_vec(), b"h1".to_vec()),
            (b"r1".to_vec(), b"h2".to_vec()),
            (b"r2".to_vec(), b"h3".to_vec()),
        ]
    );
}

#[test]
fn worker_rejects_paths_outside_the_repo() {
    let index = File::new(tag());
    let mut cache = PassCache::new();
    let mut w = workload("/elsewhere/a.txt", b"hi\n");
    w.repo_disk_path = b"/repo".to_vec();
    let r = bleep_index::pipeline::worker(&index.schema_version_tag, w, &mut cache);
    assert!(matches!(r, Err(WorkerError::PathOutsideRepo)));
    assert_eq!(cache.entries.len(), 0);
}

#[test]
fn file_without_trailing_newline_is_terminated() {
    let index = File::new(tag());
    let mut cache = PassCache::new();
    let outcome = index.index_repository(vec![workload("/repo/a.txt", b"one\ntwo")], &mut cache);
    match &outcome.ops[0] {
        WriterOp::AddDocument(doc) => {
            assert_eq!(doc.content, b"one\ntwo\n".to_vec());
            assert_eq!(doc.line_end_indices, vec![3u8, 0, 0, 0, 7, 0, 0, 0]);
            assert_eq!(doc.line_count, 2);
        }
        _ => panic!("expected one document"),
    }
}

#[test]
fn symbols_are_deduplicated_and_joined() {
    let content = b"hello hello world";
    let data = SymbolData {
        symbols: vec![
            Symbol { start: 0, end: 5 },
            Symbol { start: 6, end: 11 },
            Symbol { start: 12, end: 17 },
            Symbol { start: 100, end: 200 },
        ],
        serialized: vec![7u8, 7, 7],
    };
    let index = File::new(tag());
    let mut cache = PassCache::new();
    let mut w = workload("/repo/a.txt", content);
    w.scope_graph = Ok(data);
    let outcome = index.index_repository(vec![w], &mut cache);
    match &outcome.ops[0] {
        WriterOp::AddDocument(doc) => {
            assert_eq!(doc.symbols, b"hello\nworld".to_vec());
            assert_eq!(doc.symbol_locations, vec![7u8, 7, 7]);
        }
        _ => panic!("expected one document"),
    }
}

#[test]
fn ctags_fallback_supplies_symbols() {
    let index = File::new(tag());
    let mut cache = PassCache::new();
    let mut w = workload("/repo/a.txt", b"alpha beta");
    w.scope_graph = Err(ExtractError::Failed);
    w.ctags = Some(SymbolData {
        symbols: vec![Symbol { start: 0, end: 5 }],
        serialized: vec![9u8],
    });
    let outcome = index.index_repository(vec![w], &mut cache);
    match &outcome.ops[0] {
        WriterOp::AddDocument(doc) => {
            assert_eq!(doc.symbols, b"alpha".to_vec());
            assert_eq!(doc.symbol_locations, vec![9u8]);
        }
        _ => panic!("expected one document"),
    }
}

#[test]
fn schema_lists_every_field_once() {
    let index = File::new(tag());
    let schema = index.schema();
    assert_eq!(schema.len(), 12);
    let mut fields: Vec<DocField> = schema.iter().map(|d| d.field).collect();
    fields.dedup();
    assert_eq!(fields.len(), 12);
}

#[test]
fn delete_by_repo_targets_the_repo_path_field() {
    let index = File::new(tag());
    let op = index.delete_by_repo(&b"/repo".to_vec());
    match op {
        WriterOp::DeleteByTerm { field, text } => {
            assert!(matches!(field, DocField::RepoDiskPath));
            assert_eq!(text, b"/repo".to_vec());
        }
        _ => panic!("expected a delete by term"),
    }
}

#[test]
fn single_hit_accepts_exactly_one_result() {
    assert!(matches!(
        single_hit(Vec::<u32>::new()),
        Err(QueryError::NoPath)
    ));
    assert!(matches!(single_hit(vec![5u32]), Ok(5)));
    assert!(matches!(
        single_hit(vec![5u32, 6u32]),
        Err(QueryError::MultiplePaths)
    ));
}
