//! The indexing pipeline: one pass over a repository's files.
//!
//! Each file is hashed and checked against the pass cache; unchanged files
//! are only marked fresh, changed or new files produce one document for the
//! full-text writer.  After all files, the sweep deletes the document of
//! every path that was not re-observed and prunes the cache, and the pruned
//! hash set becomes the snapshot persisted through the file cache.  The
//! writer itself is the caller's: the pass returns the ordered operations
//! to apply to it.

use vstd::prelude::*;
use crate::db::FileRowV;
use crate::fcache::{persisted_rows, snap_has, snap_keys, FileCacheSnapshot, SnapEntryV};
use crate::fresh::FreshValue;
use crate::keys::{bytes_eq, clone_bytes, file_hash, file_hash_spec};
use crate::seq_facts::lemma_filter_take_step;
use crate::symbols::{
    ascii_lower, count_newlines, ensure_trailing_newline, flatten_symbols, flattened_symbols,
    line_end_indices, line_ends_spec, newline_count, padded, resolve_symbols, ExtractError,
    Symbol, SymbolData, SymbolLocations,
};

verus! {

/// Everything the per-file procedure needs for one file, gathered by the
/// caller: the paths and repository identity, the file bytes, the language
/// tag, the head-commit time, and the symbol extractor's output for this
/// file together with the tag-map fallback.
pub struct Workload {
    pub file_disk_path: Vec<u8>,
    pub repo_disk_path: Vec<u8>,
    pub repo_ref: Vec<u8>,
    pub repo_name: Vec<u8>,
    pub content: Vec<u8>,
    pub lang: Vec<u8>,
    pub last_commit_unix_seconds: u64,
    pub scope_graph: Result<SymbolData, ExtractError>,
    pub ctags: Option<SymbolData>,
}

/// Mathematical image of an extractor result.
#[verifier::ext_equal]
pub struct SymbolDataV {
    pub symbols: Seq<Symbol>,
    pub serialized: Seq<u8>,
}

impl View for SymbolData {
    type V = SymbolDataV;

    open spec fn view(&self) -> SymbolDataV {
        SymbolDataV { symbols: self.symbols@, serialized: self.serialized@ }
    }
}

/// Mathematical image of a workload.
#[verifier::ext_equal]
pub struct WorkloadV {
    pub file_disk_path: Seq<u8>,
    pub repo_disk_path: Seq<u8>,
    pub repo_ref: Seq<u8>,
    pub repo_name: Seq<u8>,
    pub content: Seq<u8>,
    pub lang: Seq<u8>,
    pub last_commit_unix_seconds: u64,
    pub scope_graph: Option<SymbolDataV>,
    pub ctags: Option<SymbolDataV>,
}

impl View for Workload {
    type V = WorkloadV;

    open spec fn view(&self) -> WorkloadV {
        WorkloadV {
            file_disk_path: self.file_disk_path@,
            repo_disk_path: self.repo_disk_path@,
            repo_ref: self.repo_ref@,
            repo_name: self.repo_name@,
            content: self.content@,
            lang: self.lang@,
            last_commit_unix_seconds: self.last_commit_unix_seconds,
            scope_graph: match &self.scope_graph {
                Ok(d) => Some(d@),
                Err(_) => None,
            },
            ctags: match &self.ctags {
                Some(d) => Some(d@),
                None => None,
            },
        }
    }
}

/// One document for the full-text writer, one per indexed file.  The
/// average line length is carried exactly, as content length and line
/// count, for the writer's floating-point field.
pub struct Document {
    pub repo_disk_path: Vec<u8>,
    pub file_disk_path: Vec<u8>,
    pub relative_path: Vec<u8>,
    pub repo_ref: Vec<u8>,
    pub repo_name: Vec<u8>,
    pub content: Vec<u8>,
    pub line_end_indices: Vec<u8>,
    pub symbols: Vec<u8>,
    pub symbol_locations: Vec<u8>,
    pub lang: Vec<u8>,
    pub line_count: usize,
    pub last_commit_unix_seconds: u64,
}

/// Mathematical image of a document.
#[verifier::ext_equal]
pub struct DocV {
    pub repo_disk_path: Seq<u8>,
    pub file_disk_path: Seq<u8>,
    pub relative_path: Seq<u8>,
    pub repo_ref: Seq<u8>,
    pub repo_name: Seq<u8>,
    pub content: Seq<u8>,
    pub line_end_indices: Seq<u8>,
    pub symbols: Seq<u8>,
    pub symbol_locations: Seq<u8>,
    pub lang: Seq<u8>,
    pub line_count: int,
    pub last_commit_unix_seconds: u64,
}

impl View for Document {
    type V = DocV;

    open spec fn view(&self) -> DocV {
        DocV {
            repo_disk_path: self.repo_disk_path@,
            file_disk_path: self.file_disk_path@,
            relative_path: self.relative_path@,
            repo_ref: self.repo_ref@,
            repo_name: self.repo_name@,
            content: self.content@,
            line_end_indices: self.line_end_indices@,
            symbols: self.symbols@,
            symbol_locations: self.symbol_locations@,
            lang: self.lang@,
            line_count: self.line_count as int,
            last_commit_unix_seconds: self.last_commit_unix_seconds,
        }
    }
}

/// A field of the full-text schema, by name.
#[derive(Clone, Copy, PartialEq, Eq, Structural)]
pub enum DocField {
    RepoDiskPath,
    FileDiskPath,
    RelativePath,
    RepoRef,
    RepoName,
    Content,
    LineEndIndices,
    Symbols,
    SymbolLocations,
    Lang,
    AvgLineLength,
    LastCommitUnixSeconds,
}

/// How a field is typed and indexed.
#[derive(Clone, Copy, PartialEq, Eq, Structural)]
pub enum FieldKind {
    Text,
    Bytes,
    U64,
    F64,
}

/// One field definition of the full-text schema.
#[derive(Clone, Copy, PartialEq, Eq, Structural)]
pub struct FieldDef {
    pub field: DocField,
    pub kind: FieldKind,
    pub stored: bool,
    pub indexed: bool,
    pub fast: bool,
    pub trigram: bool,
}

/// One operation on the full-text writer.  The writer is append-only: a
/// file is refreshed by writing a new document and deleting the old one by
/// term.
pub enum WriterOp {
    AddDocument(Document),
    DeleteByTerm { field: DocField, text: Vec<u8> },
}

/// Mathematical image of a writer operation.
#[verifier::ext_equal]
pub enum WriterOpV {
    AddDocument(DocV),
    DeleteByTerm { field: DocField, text: Seq<u8> },
}

impl View for WriterOp {
    type V = WriterOpV;

    open spec fn view(&self) -> WriterOpV {
        match self {
            WriterOp::AddDocument(d) => WriterOpV::AddDocument(d@),
            WriterOp::DeleteByTerm { field, text } => WriterOpV::DeleteByTerm {
                field: *field,
                text: text@,
            },
        }
    }
}

/// One entry of the pass cache: a file path and its freshness-tracked
/// content hash.
pub struct PassEntry {
    pub path: Vec<u8>,
    pub cell: FreshValue<Vec<u8>>,
}

/// Mathematical image of a pass-cache entry.
#[verifier::ext_equal]
pub struct PassEntryV {
    pub path: Seq<u8>,
    pub fresh: bool,
    pub hash: Seq<u8>,
}

impl View for PassEntry {
    type V = PassEntryV;

    open spec fn view(&self) -> PassEntryV {
        PassEntryV { path: self.path@, fresh: self.cell.fresh, hash: self.cell.value@ }
    }
}

/// The per-pass, path-keyed cache of file hashes.  It carries the previous
/// pass's knowledge into this one and is pruned by the sweep; the caller
/// keeps it between passes.
pub struct PassCache {
    pub entries: Vec<PassEntry>,
}

impl View for PassCache {
    type V = Seq<PassEntryV>;

    open spec fn view(&self) -> Seq<PassEntryV> {
        self.entries@.map_values(|e: PassEntry| e@)
    }
}

/// Whether some entry carries this path.
pub open spec fn pass_has(cells: Seq<PassEntryV>, path: Seq<u8>) -> bool {
    exists|i: int| 0 <= i < cells.len() && cells[i].path == path
}

/// The first entry carrying this path.
pub open spec fn pass_at(cells: Seq<PassEntryV>, path: Seq<u8>) -> PassEntryV
    decreases cells.len(),
{
    if cells.len() == 0 {
        arbitrary()
    } else if cells[0].path == path {
        cells[0]
    } else {
        pass_at(cells.drop_first(), path)
    }
}

/// A forward scan that stops at the first match finds `pass_at`.
proof fn lemma_pass_at_index(cells: Seq<PassEntryV>, path: Seq<u8>, i: int)
    requires
        0 <= i < cells.len(),
        cells[i].path == path,
        forall|j: int| 0 <= j < i ==> cells[j].path != path,
    ensures
        pass_at(cells, path) == cells[i],
    decreases cells.len(),
{
    if i > 0 {
        lemma_pass_at_index(cells.drop_first(), path, i - 1);
    }
}

/// Re-observing a path: its entry becomes fresh and takes the observed
/// hash; every other entry is untouched.
pub open spec fn pass_set(cells: Seq<PassEntryV>, path: Seq<u8>, hash: Seq<u8>) -> Seq<
    PassEntryV,
> {
    cells.map_values(
        |e: PassEntryV|
            if e.path == path {
                PassEntryV { path: e.path, fresh: true, hash: hash }
            } else {
                e
            },
    )
}

impl PassCache {
    /// No two entries carry the same path.
    pub open spec fn wf(&self) -> bool {
        forall|i: int, j: int| 0 <= i < j < self@.len() ==> self@[i].path != self@[j].path
    }

    /// An empty cache, for a repository's first pass.
    pub fn new() -> (r: Self)
        ensures
            r.wf(),
            r@ == Seq::<PassEntryV>::empty(),
    {
        let r = PassCache { entries: Vec::new() };
        proof {
            assert(r@ =~= Seq::<PassEntryV>::empty());
        }
        r
    }

    /// Start a pass: every entry reverts to stale, exactly as entries read
    /// back from storage do, so that only what this pass re-observes
    /// survives the sweep.
    pub fn begin_pass(&mut self)
        requires
            old(self).wf(),
        ensures
            final(self).wf(),
            final(self)@ == old(self)@.map_values(
                |e: PassEntryV| PassEntryV { path: e.path, fresh: false, hash: e.hash },
            ),
    {
        let ghost orig = self@;
        let mut i: usize = 0;
        while i < self.entries.len()
            invariant
                orig == old(self)@,
                i <= self.entries@.len(),
                self.entries@.len() == orig.len(),
                forall|j: int|
                    0 <= j < i ==> (#[trigger] self@[j]) == (PassEntryV {
                        path: orig[j].path,
                        fresh: false,
                        hash: orig[j].hash,
                    }),
                forall|j: int| i <= j < orig.len() ==> (#[trigger] self@[j]) == orig[j],
            decreases self.entries@.len() - i,
        {
            proof {
                assert(self@[i as int] == self.entries@[i as int]@);
            }
            let entry = PassEntry {
                path: clone_bytes(&self.entries[i].path),
                cell: FreshValue::stale(clone_bytes(&self.entries[i].cell.value)),
            };
            let ghost pre = self.entries@;
            self.entries[i] = entry;
            proof {
                assert(self.entries@ == pre.update(i as int, self.entries@[i as int]));
                assert(self@[i as int] == (PassEntryV {
                    path: orig[i as int].path,
                    fresh: false,
                    hash: orig[i as int].hash,
                }));
                assert forall|j: int| 0 <= j < orig.len() && j != i implies (
                #[trigger] self@[j]) == pre.map_values(|e: PassEntry| e@)[j] by {
                    assert(self.entries@[j] == pre[j]);
                }
            }
            i += 1;
        }
        proof {
            assert(self@ =~= orig.map_values(
                |e: PassEntryV| PassEntryV { path: e.path, fresh: false, hash: e.hash },
            ));
            assert forall|a: int, b: int| 0 <= a < b < self@.len() implies self@[a].path
                != self@[b].path by {
                assert(orig[a].path != orig[b].path);
            }
        }
    }

    /// Index of the first entry carrying this path, if any.
    fn find(&self, path: &Vec<u8>) -> (r: Option<usize>)
        ensures
            ({
                match r {
                    Some(i) => i < self@.len() && self@[i as int].path == path@ && (forall|
                        j: int,
                    |
                        0 <= j < i ==> (#[trigger] self@[j]).path != path@),
                    None => !pass_has(self@, path@),
                }
            }),
    {
        let mut i: usize = 0;
        while i < self.entries.len()
            invariant
                i <= self.entries@.len(),
                forall|j: int| 0 <= j < i ==> (#[trigger] self@[j]).path != path@,
            decreases self.entries@.len() - i,
        {
            proof {
                assert(self@[i as int] == self.entries@[i as int]@);
            }
            if bytes_eq(&self.entries[i].path, path) {
                return Some(i);
            }
            i += 1;
        }
        None
    }
}

/// The error of a file that cannot be indexed: its path does not lie under
/// the repository root.  Such files are logged and skipped by the pass;
/// they never abort it.
pub enum WorkerError {
    PathOutsideRepo,
}

/// Whether the file path lies under the repository root.
pub open spec fn w_ok(w: WorkloadV) -> bool {
    w.repo_disk_path.len() <= w.file_disk_path.len() && w.file_disk_path.subrange(
        0,
        w.repo_disk_path.len() as int,
    ) == w.repo_disk_path
}

/// The path of a file relative to the repository root: the root prefix
/// stripped, and one leading separator with it.
pub open spec fn rel_path_of(file: Seq<u8>, repo: Seq<u8>) -> Seq<u8> {
    let rest = file.subrange(repo.len() as int, file.len() as int);
    if rest.len() > 0 && rest[0] == 47u8 {
        rest.drop_first()
    } else {
        rest
    }
}

/// The content hash a workload's file gets in the cache.
pub open spec fn w_hash(tag: Seq<u8>, w: WorkloadV) -> Seq<u8> {
    file_hash_spec(tag, w.content)
}

/// The symbols the per-file procedure settles on: scope graph, else tag
/// map, else none.
pub open spec fn w_symbols(w: WorkloadV) -> Seq<Symbol> {
    match w.scope_graph {
        Some(d) => d.symbols,
        None => match w.ctags {
            Some(d) => d.symbols,
            None => Seq::<Symbol>::empty(),
        },
    }
}

/// The serialized symbol locations the per-file procedure settles on.
pub open spec fn w_serialized(w: WorkloadV) -> Seq<u8> {
    match w.scope_graph {
        Some(d) => d.serialized,
        None => match w.ctags {
            Some(d) => d.serialized,
            None => Seq::<u8>::empty(),
        },
    }
}

/// The document the per-file procedure writes for a changed or new file.
pub open spec fn doc_spec(tag: Seq<u8>, w: WorkloadV) -> DocV {
    DocV {
        repo_disk_path: w.repo_disk_path,
        file_disk_path: w.file_disk_path,
        relative_path: rel_path_of(w.file_disk_path, w.repo_disk_path),
        repo_ref: w.repo_ref,
        repo_name: w.repo_name,
        content: padded(w.content),
        line_end_indices: line_ends_spec(padded(w.content)),
        symbols: flattened_symbols(w.content, w_symbols(w)),
        symbol_locations: w_serialized(w),
        lang: ascii_lower(w.lang),
        line_count: newline_count(padded(w.content)),
        last_commit_unix_seconds: w.last_commit_unix_seconds,
    }
}

/// Whether a pass over this cache state skips the file: its path is known
/// with the same content hash.
pub open spec fn w_unchanged(tag: Seq<u8>, cells: Seq<PassEntryV>, w: WorkloadV) -> bool {
    pass_has(cells, w.file_disk_path) && pass_at(cells, w.file_disk_path).hash == w_hash(tag, w)
}

/// One file of one pass: hash the content, consult the cache, and either
/// mark the entry fresh (unchanged file: no work at all) or record the new
/// hash and produce the file's document.  A path outside the repository
/// root is reported as an error and the cache is left unchanged.
pub fn worker(tag: &Vec<u8>, workload: Workload, cache: &mut PassCache) -> (r: Result<
    Option<Document>,
    WorkerError,
>)
    requires
        old(cache).wf(),
        workload@.content.len() < 0xFFFF_FFFF,
    ensures
        final(cache).wf(),
        !w_ok(workload@) ==> r == Err::<Option<Document>, WorkerError>(
            WorkerError::PathOutsideRepo,
        ) && final(cache)@ == old(cache)@,
        w_ok(workload@) && w_unchanged(tag@, old(cache)@, workload@) ==> (r == Ok::<
            Option<Document>,
            WorkerError,
        >(None) && final(cache)@ == pass_set(
            old(cache)@,
            workload@.file_disk_path,
            w_hash(tag@, workload@),
        )),
        w_ok(workload@) && !w_unchanged(tag@, old(cache)@, workload@) ==> ({
            &&& (match r {
                Ok(Some(d)) => d@ == doc_spec(tag@, workload@),
                _ => false,
            })
            &&& if pass_has(old(cache)@, workload@.file_disk_path) {
                final(cache)@ == pass_set(
                    old(cache)@,
                    workload@.file_disk_path,
                    w_hash(tag@, workload@),
                )
            } else {
                final(cache)@ == old(cache)@.push(
                    PassEntryV {
                        path: workload@.file_disk_path,
                        fresh: true,
                        hash: w_hash(tag@, workload@),
                    },
                )
            }
        }),
{
    let Workload {
        file_disk_path,
        repo_disk_path,
        repo_ref,
        repo_name,
        content,
        lang,
        last_commit_unix_seconds,
        scope_graph,
        ctags,
    } = workload;

    // Relative path: the file must lie under the repository root.
    if repo_disk_path.len() > file_disk_path.len() {
        return Err(WorkerError::PathOutsideRepo);
    }
    let mut is_under: bool = true;
    let mut i: usize = 0;
    while i < repo_disk_path.len() && is_under
        invariant
            i <= repo_disk_path@.len(),
            repo_disk_path@.len() <= file_disk_path@.len(),
            is_under ==> forall|j: int|
                0 <= j < i ==> file_disk_path@[j] == (#[trigger] repo_disk_path@[j]),
            !is_under ==> !w_ok(workload@),
            workload@.repo_disk_path == repo_disk_path@,
            workload@.file_disk_path == file_disk_path@,
        decreases repo_disk_path@.len() - i,
    {
        if file_disk_path[i] != repo_disk_path[i] {
            is_under = false;
            proof {
                assert(file_disk_path@.subrange(0, repo_disk_path@.len() as int)[i as int]
                    != repo_disk_path@[i as int]);
            }
        }
        i += 1;
    }
    if !is_under {
        return Err(WorkerError::PathOutsideRepo);
    }
    proof {
        assert(file_disk_path@.subrange(0, repo_disk_path@.len() as int) =~= repo_disk_path@);
        assert(w_ok(workload@));
    }
    let mut relative_path = vstd::slice::slice_to_vec(
        vstd::slice::slice_subrange(
            file_disk_path.as_slice(),
            repo_disk_path.len(),
            file_disk_path.len(),
        ),
    );
    if relative_path.len() > 0 && relative_path[0] == 47u8 {
        relative_path.remove(0);
        proof {
            assert(relative_path@ =~= rel_path_of(
                workload@.file_disk_path,
                workload@.repo_disk_path,
            ));
        }
    } else {
        proof {
            assert(relative_path@ =~= rel_path_of(
                workload@.file_disk_path,
                workload@.repo_disk_path,
            ));
        }
    }

    let h = file_hash(tag, &content);

    // Transact on the cache entry for this path.
    let found = cache.find(&file_disk_path);
    let mut was_hit_same: bool = false;
    match found {
        Some(idx) => {
            proof {
                lemma_pass_at_index(cache@, file_disk_path@, idx as int);
            }
            if bytes_eq(&cache.entries[idx].cell.value, &h) {
                was_hit_same = true;
            }
            let entry = PassEntry {
                path: clone_bytes(&file_disk_path),
                cell: FreshValue::from(clone_bytes(&h)),
            };
            self_set(cache, idx, entry);
            proof {
                assert(final(cache)@ =~= pass_set(old(cache)@, file_disk_path@, h@));
                assert forall|a: int, b: int| 0 <= a < b < cache@.len() implies cache@[a].path
                    != cache@[b].path by {
                    assert(old(cache)@[a].path != old(cache)@[b].path);
                }
            }
        },
        None => {
            cache.entries.push(
                PassEntry { path: clone_bytes(&file_disk_path), cell: FreshValue::from(clone_bytes(&h)) },
            );
            proof {
                assert(cache@ =~= old(cache)@.push(
                    PassEntryV { path: file_disk_path@, fresh: true, hash: h@ },
                ));
                assert forall|a: int, b: int| 0 <= a < b < cache@.len() implies cache@[a].path
                    != cache@[b].path by {
                    if b < cache@.len() - 1 {
                        assert(old(cache)@[a].path != old(cache)@[b].path);
                    } else {
                        assert(!pass_has(old(cache)@, cache@[b].path));
                    }
                }
            }
        },
    }
    if was_hit_same {
        // Contents are up to date in the cache: no further work.
        return Ok(None);
    }

    // Symbols: scope graph, else tag map, else none.
    let resolved = resolve_symbols(scope_graph, ctags);
    let (symbol_list, symbol_locations): (Vec<Symbol>, Vec<u8>) = match resolved {
        SymbolLocations::TreeSitter(d) => (d.symbols, d.serialized),
        SymbolLocations::Ctags(d) => (d.symbols, d.serialized),
        SymbolLocations::Empty => (Vec::new(), Vec::new()),
    };
    proof {
        assert(symbol_list@ == w_symbols(workload@));
        assert(symbol_locations@ =~= w_serialized(workload@));
    }
    let symbols = flatten_symbols(&content, &symbol_list);

    // Newline-terminate, then offsets and line count.
    let mut content = content;
    ensure_trailing_newline(&mut content);
    let line_ends = line_end_indices(&content);
    let line_count = count_newlines(&content);

    let doc = Document {
        repo_disk_path,
        file_disk_path,
        relative_path,
        repo_ref,
        repo_name,
        content,
        line_end_indices: line_ends,
        symbols,
        symbol_locations,
        lang: to_ascii_lowercase_owned(lang),
        line_count,
        last_commit_unix_seconds,
    };
    proof {
        assert(doc@ =~= doc_spec(tag@, workload@));
    }
    Ok(Some(doc))
}

/// Replace one cache entry.
fn self_set(cache: &mut PassCache, idx: usize, entry: PassEntry)
    requires
        idx < old(cache).entries@.len(),
    ensures
        final(cache).entries@ == old(cache).entries@.update(idx as int, entry),
{
    cache.entries[idx] = entry;
}

/// Lowercase the ASCII letters of an owned byte string.
fn to_ascii_lowercase_owned(s: Vec<u8>) -> (r: Vec<u8>)
    ensures
        r@ == ascii_lower(s@),
{
    crate::symbols::to_ascii_lowercase(&s)
}

/// The views of a list of workloads.
pub open spec fn workload_views(ws: Seq<Workload>) -> Seq<WorkloadV> {
    ws.map_values(|w: Workload| w@)
}

/// Whether some workload of the pass observes this path (and lies under the
/// repository root, so it is actually processed).
pub open spec fn path_observed(ws: Seq<WorkloadV>, path: Seq<u8>) -> bool {
    exists|j: int|
        0 <= j < ws.len() && w_ok(#[trigger] ws[j]) && ws[j].file_disk_path == path
}

/// The first processed workload of the pass that observes this path.
pub open spec fn ws_lookup(ws: Seq<WorkloadV>, path: Seq<u8>) -> WorkloadV
    decreases ws.len(),
{
    if ws.len() == 0 {
        arbitrary()
    } else if w_ok(ws[0]) && ws[0].file_disk_path == path {
        ws[0]
    } else {
        ws_lookup(ws.drop_first(), path)
    }
}

/// A scan that stops at the first processed match finds `ws_lookup`.
proof fn lemma_ws_lookup_index(ws: Seq<WorkloadV>, path: Seq<u8>, i: int)
    requires
        0 <= i < ws.len(),
        w_ok(ws[i]),
        ws[i].file_disk_path == path,
        forall|j: int| 0 <= j < i ==> !(w_ok(ws[j]) && ws[j].file_disk_path == path),
    ensures
        ws_lookup(ws, path) == ws[i],
    decreases ws.len(),
{
    if i > 0 {
        lemma_ws_lookup_index(ws.drop_first(), path, i - 1);
    }
}

/// An observed path's lookup lands on one of the pass's processed files.
proof fn lemma_ws_lookup_observed(ws: Seq<WorkloadV>, path: Seq<u8>)
    requires
        path_observed(ws, path),
    ensures
        exists|i: int|
            0 <= i < ws.len() && w_ok(#[trigger] ws[i]) && ws[i] == ws_lookup(ws, path)
                && ws[i].file_disk_path == path,
    decreases ws.len(),
{
    if ws.len() > 0 {
        if w_ok(ws[0]) && ws[0].file_disk_path == path {
        } else {
            assert(path_observed(ws.drop_first(), path)) by {
                let j = choose|j: int|
                    0 <= j < ws.len() && w_ok(ws[j]) && ws[j].file_disk_path == path;
                assert(w_ok(ws.drop_first()[j - 1]));
            }
            lemma_ws_lookup_observed(ws.drop_first(), path);
            let i = choose|i: int|
                0 <= i < ws.drop_first().len() && w_ok(#[trigger] ws.drop_first()[i])
                    && ws.drop_first()[i] == ws_lookup(ws.drop_first(), path)
                    && ws.drop_first()[i].file_disk_path == path;
            assert(ws[i + 1] == ws.drop_first()[i]);
            assert(w_ok(ws[i + 1]));
        }
    }
}

/// Whether a file of the pass is processed and found changed against the
/// loaded cache: it produces a document.
pub open spec fn w_changed(tag: Seq<u8>, cells0: Seq<PassEntryV>, w: WorkloadV) -> bool {
    w_ok(w) && !w_unchanged(tag, cells0, w)
}

/// The documents a pass writes, in file order: one per changed file.
pub open spec fn add_ops_spec(
    tag: Seq<u8>,
    cells0: Seq<PassEntryV>,
    ws: Seq<WorkloadV>,
) -> Seq<WriterOpV> {
    ws.filter(|w: WorkloadV| w_changed(tag, cells0, w)).map_values(
        |w: WorkloadV| WriterOpV::AddDocument(doc_spec(tag, w)),
    )
}

/// The deletions a pass's sweep issues, in cache order: one per loaded path
/// that no file of the pass re-observed, keyed on the file's disk path.
pub open spec fn sweep_ops_spec(cells0: Seq<PassEntryV>, ws: Seq<WorkloadV>) -> Seq<WriterOpV> {
    cells0.filter(|e: PassEntryV| !path_observed(ws, e.path)).map_values(
        |e: PassEntryV| WriterOpV::DeleteByTerm { field: DocField::FileDiskPath, text: e.path },
    )
}

/// Every writer operation of a pass: the documents of the changed files,
/// then the sweep's deletions.
pub open spec fn pass_ops_spec(
    tag: Seq<u8>,
    cells0: Seq<PassEntryV>,
    ws: Seq<WorkloadV>,
) -> Seq<WriterOpV> {
    add_ops_spec(tag, cells0, ws) + sweep_ops_spec(cells0, ws)
}

/// What a loaded cache entry looks like after the first `k` files: marked
/// fresh with its file's hash if one of them observed its path, untouched
/// otherwise.
pub open spec fn entry_now(
    tag: Seq<u8>,
    cells0: Seq<PassEntryV>,
    ws: Seq<WorkloadV>,
    k: int,
    a: int,
) -> PassEntryV {
    if path_observed(ws.take(k), cells0[a].path) {
        PassEntryV {
            path: cells0[a].path,
            fresh: true,
            hash: w_hash(tag, ws_lookup(ws, cells0[a].path)),
        }
    } else {
        cells0[a]
    }
}

/// The entries a pass appends for files the loaded cache did not know, in
/// file order.
pub open spec fn appended_spec(
    tag: Seq<u8>,
    cells0: Seq<PassEntryV>,
    ws: Seq<WorkloadV>,
) -> Seq<PassEntryV> {
    ws.filter(|w: WorkloadV| w_ok(w) && !pass_has(cells0, w.file_disk_path)).map_values(
        |w: WorkloadV|
            PassEntryV { path: w.file_disk_path, fresh: true, hash: w_hash(tag, w) },
    )
}

/// The pass cache after the sweep: the re-observed entries with their new
/// hashes, then the appended entries, everything fresh.
pub open spec fn final_cells_spec(
    tag: Seq<u8>,
    cells0: Seq<PassEntryV>,
    ws: Seq<WorkloadV>,
) -> Seq<PassEntryV> {
    cells0.filter(|e: PassEntryV| path_observed(ws, e.path)).map_values(
        |e: PassEntryV|
            PassEntryV { path: e.path, fresh: true, hash: w_hash(tag, ws_lookup(ws, e.path)) },
    ) + appended_spec(tag, cells0, ws)
}

/// Whether some entry of a cache carries this hash.
pub open spec fn cells_hash_in(cells: Seq<PassEntryV>, hash: Seq<u8>) -> bool {
    exists|a: int| 0 <= a < cells.len() && (#[trigger] cells[a]).hash == hash
}

/// Whether this hash is the content hash of some processed file of the
/// pass.
pub open spec fn hash_from_pass(tag: Seq<u8>, ws: Seq<WorkloadV>, hash: Seq<u8>) -> bool {
    exists|j: int| 0 <= j < ws.len() && w_ok(#[trigger] ws[j]) && w_hash(tag, ws[j]) == hash
}

/// What one pass hands back besides the pruned cache: the ordered writer
/// operations, and the snapshot of file hashes to persist through the file
/// cache.
pub struct PassOutcome {
    pub ops: Vec<WriterOp>,
    pub snapshot: FileCacheSnapshot,
}

/// The full-text file index: its schema and the schema-version tag mixed
/// into every file hash, so that a layout change re-indexes everything
/// without an explicit invalidation step.
pub struct File {
    pub schema_version_tag: Vec<u8>,
    pub schema: Vec<FieldDef>,
}

/// The full-text schema: which fields exist, how they are typed, and how
/// they are indexed.
pub open spec fn schema_spec() -> Seq<FieldDef> {
    seq![
        FieldDef { field: DocField::FileDiskPath, kind: FieldKind::Text, stored: true, indexed: true, fast: false, trigram: false },
        FieldDef { field: DocField::RepoDiskPath, kind: FieldKind::Text, stored: true, indexed: true, fast: false, trigram: false },
        FieldDef { field: DocField::RepoRef, kind: FieldKind::Text, stored: true, indexed: true, fast: false, trigram: false },
        FieldDef { field: DocField::RepoName, kind: FieldKind::Text, stored: false, indexed: true, fast: false, trigram: true },
        FieldDef { field: DocField::RelativePath, kind: FieldKind::Text, stored: true, indexed: true, fast: false, trigram: true },
        FieldDef { field: DocField::Content, kind: FieldKind::Text, stored: true, indexed: true, fast: false, trigram: true },
        FieldDef { field: DocField::LineEndIndices, kind: FieldKind::Bytes, stored: true, indexed: false, fast: false, trigram: false },
        FieldDef { field: DocField::Symbols, kind: FieldKind::Text, stored: false, indexed: true, fast: false, trigram: true },
        FieldDef { field: DocField::SymbolLocations, kind: FieldKind::Bytes, stored: true, indexed: false, fast: false, trigram: false },
        FieldDef { field: DocField::Lang, kind: FieldKind::Bytes, stored: false, indexed: true, fast: true, trigram: false },
        FieldDef { field: DocField::AvgLineLength, kind: FieldKind::F64, stored: false, indexed: false, fast: true, trigram: false },
        FieldDef { field: DocField::LastCommitUnixSeconds, kind: FieldKind::U64, stored: false, indexed: false, fast: true, trigram: false },
    ]
}

impl File {
    /// Build the index handle: the schema of the full-text index, field by
    /// field, and the schema-version tag for the content hashes.
    pub fn new(schema_version_tag: Vec<u8>) -> (r: Self)
        ensures
            r.schema_version_tag@ == schema_version_tag@,
            r.schema@ == schema_spec(),
    {
        let mut schema: Vec<FieldDef> = Vec::new();
        schema.push(FieldDef { field: DocField::FileDiskPath, kind: FieldKind::Text, stored: true, indexed: true, fast: false, trigram: false });
        schema.push(FieldDef { field: DocField::RepoDiskPath, kind: FieldKind::Text, stored: true, indexed: true, fast: false, trigram: false });
        schema.push(FieldDef { field: DocField::RepoRef, kind: FieldKind::Text, stored: true, indexed: true, fast: false, trigram: false });
        schema.push(FieldDef { field: DocField::RepoName, kind: FieldKind::Text, stored: false, indexed: true, fast: false, trigram: true });
        schema.push(FieldDef { field: DocField::RelativePath, kind: FieldKind::Text, stored: true, indexed: true, fast: false, trigram: true });
        schema.push(FieldDef { field: DocField::Content, kind: FieldKind::Text, stored: true, indexed: true, fast: false, trigram: true });
        schema.push(FieldDef { field: DocField::LineEndIndices, kind: FieldKind::Bytes, stored: true, indexed: false, fast: false, trigram: false });
        schema.push(FieldDef { field: DocField::Symbols, kind: FieldKind::Text, stored: false, indexed: true, fast: false, trigram: true });
        schema.push(FieldDef { field: DocField::SymbolLocations, kind: FieldKind::Bytes, stored: true, indexed: false, fast: false, trigram: false });
        schema.push(FieldDef { field: DocField::Lang, kind: FieldKind::Bytes, stored: false, indexed: true, fast: true, trigram: false });
        schema.push(FieldDef { field: DocField::AvgLineLength, kind: FieldKind::F64, stored: false, indexed: false, fast: true, trigram: false });
        schema.push(FieldDef { field: DocField::LastCommitUnixSeconds, kind: FieldKind::U64, stored: false, indexed: false, fast: true, trigram: false });
        proof {
            assert(schema@ =~= schema_spec());
        }
        File { schema_version_tag, schema }
    }

    /// The schema of the full-text index.
    pub fn schema(&self) -> (r: Vec<FieldDef>)
        ensures
            r@ == self.schema@,
    {
        let mut r: Vec<FieldDef> = Vec::new();
        let mut i: usize = 0;
        while i < self.schema.len()
            invariant
                i <= self.schema@.len(),
                r@ == self.schema@.take(i as int),
            decreases self.schema@.len() - i,
        {
            r.push(self.schema[i]);
            proof {
                assert(r@ =~= self.schema@.take(i + 1));
            }
            i += 1;
        }
        proof {
            assert(self.schema@.take(self.schema@.len() as int) =~= self.schema@);
        }
        r
    }

    /// The writer operation that retires a repository from the full-text
    /// index: delete every document under its disk path.
    pub fn delete_by_repo(&self, repo_disk_path: &Vec<u8>) -> (r: WriterOp)
        ensures
            r@ == (WriterOpV::DeleteByTerm { field: DocField::RepoDiskPath, text: repo_disk_path@ }),
    {
        WriterOp::DeleteByTerm { field: DocField::RepoDiskPath, text: clone_bytes(repo_disk_path) }
    }
}

impl File {
    /// One indexing pass over a repository's files.
    ///
    /// Every file is run through the per-file procedure against the loaded
    /// cache; a file whose path cannot be processed is skipped and fails
    /// nothing.  The sweep then deletes the full-text document of every
    /// loaded path that was not re-observed and prunes the cache to the
    /// observed entries, all fresh.  The returned operations are the
    /// documents of the changed files, in file order, followed by the
    /// sweep's deletions, in cache order; the returned snapshot holds
    /// exactly the hashes that remain in the cache, for the file cache to
    /// persist.
    #[verifier::rlimit(100)]
    pub fn index_repository(&self, workloads: Vec<Workload>, cache: &mut PassCache) -> (r:
        PassOutcome)
        requires
            old(cache).wf(),
            forall|i: int| 0 <= i < old(cache)@.len() ==> !(#[trigger] old(cache)@[i]).fresh,
            forall|i: int, j: int|
                0 <= i < j < workload_views(workloads@).len() ==> (#[trigger] workload_views(
                    workloads@,
                )[i]).file_disk_path != (#[trigger] workload_views(workloads@)[j]).file_disk_path,
            forall|i: int|
                0 <= i < workload_views(workloads@).len() ==> (#[trigger] workload_views(
                    workloads@,
                )[i]).content.len() < 0xFFFF_FFFF,
        ensures
            final(cache).wf(),
            final(cache)@ == final_cells_spec(
                self.schema_version_tag@,
                old(cache)@,
                workload_views(workloads@),
            ),
            forall|i: int| 0 <= i < final(cache)@.len() ==> (#[trigger] final(cache)@[i]).fresh,
            r.ops@.map_values(|op: WriterOp| op@) == pass_ops_spec(
                self.schema_version_tag@,
                old(cache)@,
                workload_views(workloads@),
            ),
            r.snapshot.wf(),
            forall|i: int| 0 <= i < r.snapshot@.len() ==> (#[trigger] r.snapshot@[i]).fresh,
            forall|h: Seq<u8>|
                #[trigger] snap_has(r.snapshot@, h) <==> cells_hash_in(final(cache)@, h),
    {
        let ghost tag = self.schema_version_tag@;
        let ghost cells0 = cache@;
        let ghost wsx = workload_views(workloads@);
        let ghost total = wsx.len();

        let mut ops: Vec<WriterOp> = Vec::new();
        let mut rest = workloads;
        let total_count: usize = rest.len();
        proof {
            assert(total_count as int == total);
        }
        let mut k: usize = 0;
        while rest.len() > 0
            invariant
                self.schema_version_tag@ == tag,
                k as int + rest@.len() == total,
                total == total_count as int,
                total == wsx.len(),
                rest@.map_values(|w: Workload| w@) == wsx.subrange(k as int, total as int),
                cells0 == old(cache)@,
                forall|i: int| 0 <= i < cells0.len() ==> !(#[trigger] cells0[i]).fresh,
                forall|i: int, j: int|
                    0 <= i < j < cells0.len() ==> (#[trigger] cells0[i]).path != (
                    #[trigger] cells0[j]).path,
                forall|i: int, j: int|
                    0 <= i < j < wsx.len() ==> (#[trigger] wsx[i]).file_disk_path != (
                    #[trigger] wsx[j]).file_disk_path,
                forall|i: int| 0 <= i < wsx.len() ==> (#[trigger] wsx[i]).content.len()
                    < 0xFFFF_FFFF,
                cache.wf(),
                cache@.len() >= cells0.len(),
                forall|a: int|
                    0 <= a < cells0.len() ==> (#[trigger] cache@[a]) == entry_now(
                        tag,
                        cells0,
                        wsx,
                        k as int,
                        a,
                    ),
                cache@.skip(cells0.len() as int) == appended_spec(
                    tag,
                    cells0,
                    wsx.take(k as int),
                ),
                ops@.map_values(|op: WriterOp| op@) == add_ops_spec(
                    tag,
                    cells0,
                    wsx.take(k as int),
                ),
            decreases rest@.len(),
        {
            let ghost pre_rest = rest@;
            let w = rest.remove(0);
            proof {
                assert(pre_rest.map_values(|x: Workload| x@)[0] == wsx[k as int]);
                assert(w@ == wsx[k as int]);
                assert(rest@ =~= pre_rest.drop_first());
                assert(pre_rest.map_values(|x: Workload| x@).len() == pre_rest.len());
                let rmap = rest@.map_values(|x: Workload| x@);
                assert forall|i: int| 0 <= i < rest@.len() implies #[trigger] rmap[i]
                    == wsx.subrange(k + 1, total as int)[i] by {
                    assert(rmap[i] == rest@[i]@);
                    assert(rest@[i] == pre_rest[i + 1]);
                    assert(pre_rest.map_values(|x: Workload| x@)[i + 1] == wsx.subrange(
                        k as int,
                        total as int,
                    )[i + 1]);
                }
                assert(rest@.map_values(|x: Workload| x@) =~= wsx.subrange(
                    k + 1,
                    total as int,
                ));
            }
            let ghost wk = wsx[k as int];
            let ghost pk = wk.file_disk_path;
            let ghost cache_pre = cache@;
            proof {
                // No earlier file of the pass observes this path.
                assert(!path_observed(wsx.take(k as int), pk)) by {
                    if path_observed(wsx.take(k as int), pk) {
                        let j = choose|j: int|
                            0 <= j < wsx.take(k as int).len() && w_ok(
                                #[trigger] wsx.take(k as int)[j],
                            ) && wsx.take(k as int)[j].file_disk_path == pk;
                        assert(wsx[j].file_disk_path == wsx[k as int].file_disk_path);
                    }
                }
                // The appended entries carry only paths of earlier files.
                assert forall|b: int|
                    cells0.len() <= b < cache_pre.len() implies (#[trigger] cache_pre[b]).path
                    != pk by {
                    let app = appended_spec(tag, cells0, wsx.take(k as int));
                    let src = wsx.take(k as int).filter(
                        |w: WorkloadV| w_ok(w) && !pass_has(cells0, w.file_disk_path),
                    );
                    let m = b - cells0.len();
                    assert(app == cache_pre.skip(cells0.len() as int));
                    assert(app.len() == src.len());
                    assert(cache_pre.skip(cells0.len() as int).len() == cache_pre.len()
                        - cells0.len());
                    assert(cache_pre.skip(cells0.len() as int)[m] == cache_pre[b]);
                    assert(app[m] == src.map_values(
                        |w: WorkloadV|
                            PassEntryV {
                                path: w.file_disk_path,
                                fresh: true,
                                hash: w_hash(tag, w),
                            },
                    )[m]);
                    assert(cache_pre[b].path == src[m].file_disk_path);
                    crate::seq_facts::lemma_filter_membership(
                        wsx.take(k as int),
                        |w: WorkloadV| w_ok(w) && !pass_has(cells0, w.file_disk_path),
                    );
                    assert(src.contains(src[m]));
                    assert(wsx.take(k as int).contains(src[m]));
                    let j = choose|j: int|
                        0 <= j < wsx.take(k as int).len() && wsx.take(k as int)[j] == src[m];
                    assert(wsx[j] == src[m]);
                    if cache_pre[b].path == pk {
                        assert(wsx[j].file_disk_path == wsx[k as int].file_disk_path);
                    }
                }
                // Whether the path is known is decided by the loaded cache.
                assert(pass_has(cache_pre, pk) == pass_has(cells0, pk)) by {
                    if pass_has(cells0, pk) {
                        let a = choose|a: int|
                            0 <= a < cells0.len() && cells0[a].path == pk;
                        assert(cache_pre[a] == entry_now(tag, cells0, wsx, k as int, a));
                        assert(cache_pre[a].path == pk);
                    }
                    if pass_has(cache_pre, pk) {
                        let a = choose|a: int|
                            0 <= a < cache_pre.len() && cache_pre[a].path == pk;
                        if a >= cells0.len() {
                            assert(cache_pre[a].path != pk);
                        } else {
                            assert(cache_pre[a] == entry_now(tag, cells0, wsx, k as int, a));
                            assert(cells0[a].path == pk);
                        }
                    }
                }
                // And so is the stored hash for it.
                if pass_has(cells0, pk) {
                    let a = choose|a: int| 0 <= a < cells0.len() && cells0[a].path == pk;
                    assert forall|j: int| 0 <= j < a implies cells0[j].path != pk by {
                        assert(cells0[j].path != cells0[a].path);
                    }
                    assert(cache_pre[a] == entry_now(tag, cells0, wsx, k as int, a));
                    assert(cache_pre[a] == cells0[a]);
                    lemma_pass_at_index(cells0, pk, a);
                    assert forall|j: int| 0 <= j < a implies cache_pre[j].path != pk by {
                        assert(cache_pre[j] == entry_now(tag, cells0, wsx, k as int, j));
                        assert(cache_pre[j].path == cells0[j].path);
                    }
                    lemma_pass_at_index(cache_pre, pk, a);
                    assert(pass_at(cache_pre, pk) == pass_at(cells0, pk));
                }
                assert(w_unchanged(tag, cache_pre, wk) == w_unchanged(tag, cells0, wk));
            }
            let res = worker(&self.schema_version_tag, w, cache);
            let ghost had_doc = match res {
                Ok(Some(_)) => true,
                _ => false,
            };
            match res {
                Ok(Some(doc)) => {
                    let ghost gdoc = doc;
                    let ghost pre_ops = ops@;
                    ops.push(WriterOp::AddDocument(doc));
                    proof {
                        assert(gdoc@ == doc_spec(tag, wk));
                        assert(pre_ops.map_values(|op: WriterOp| op@).len() == pre_ops.len());
                        assert(ops@.map_values(|op: WriterOp| op@) =~= pre_ops.map_values(
                            |op: WriterOp| op@,
                        ).push(WriterOpV::AddDocument(doc_spec(tag, wk))));
                    }
                },
                Ok(None) => {
                },
                Err(_) => {
                },
            }
            proof {
                let kk = k as int;
                // Re-establish the ops account.
                lemma_filter_take_step(
                    wsx,
                    kk,
                    |w: WorkloadV| w_changed(tag, cells0, w),
                );
                if w_changed(tag, cells0, wk) {
                    assert(had_doc);
                    assert(ops@.map_values(|op: WriterOp| op@) =~= add_ops_spec(
                        tag,
                        cells0,
                        wsx.take(kk + 1),
                    ));
                } else {
                    assert(!had_doc);
                    assert(ops@.map_values(|op: WriterOp| op@) =~= add_ops_spec(
                        tag,
                        cells0,
                        wsx.take(kk + 1),
                    ));
                }
                // Re-establish the cache account, entry by entry.
                assert forall|a: int| 0 <= a < cells0.len() implies (#[trigger] cache@[a])
                    == entry_now(tag, cells0, wsx, kk + 1, a) by {
                    let pa = cells0[a].path;
                    assert(cache_pre[a] == entry_now(tag, cells0, wsx, kk, a));
                    if !w_ok(wk) {
                        assert(cache@[a] == cache_pre[a]);
                        assert(path_observed(wsx.take(kk + 1), pa) == path_observed(
                            wsx.take(kk),
                            pa,
                        )) by {
                            assert(wsx.take(kk + 1).drop_last() =~= wsx.take(kk));
                            if path_observed(wsx.take(kk + 1), pa) {
                                let j = choose|j: int|
                                    0 <= j < wsx.take(kk + 1).len() && w_ok(
                                        #[trigger] wsx.take(kk + 1)[j],
                                    ) && wsx.take(kk + 1)[j].file_disk_path == pa;
                                if j < kk {
                                    assert(w_ok(wsx.take(kk)[j]));
                                } else {
                                    assert(w_ok(wk));
                                }
                            }
                            if path_observed(wsx.take(kk), pa) {
                                let j = choose|j: int|
                                    0 <= j < wsx.take(kk).len() && w_ok(
                                        #[trigger] wsx.take(kk)[j],
                                    ) && wsx.take(kk)[j].file_disk_path == pa;
                                assert(w_ok(wsx.take(kk + 1)[j]));
                            }
                        }
                    } else {
                        if pa == pk {
                            // This entry was just observed.
                            assert(pass_has(cells0, pk));
                            assert(path_observed(wsx.take(kk + 1), pk)) by {
                                assert(w_ok(wsx.take(kk + 1)[kk]));
                            }
                            assert(ws_lookup(wsx, pk) == wk) by {
                                assert forall|j: int| 0 <= j < kk implies !(w_ok(wsx[j])
                                    && wsx[j].file_disk_path == pk) by {
                                    assert(wsx[j].file_disk_path != wsx[kk].file_disk_path);
                                }
                                lemma_ws_lookup_index(wsx, pk, kk);
                            }
                            assert(cache@ == pass_set(cache_pre, pk, w_hash(tag, wk)));
                            assert(cache@[a] == PassEntryV {
                                path: pa,
                                fresh: true,
                                hash: w_hash(tag, wk),
                            }) by {
                                assert(cache_pre[a].path == pa);
                            }
                        } else {
                            // Untouched by this file.
                            if pass_has(cells0, pk) || pass_has(cache_pre, pk) {
                                assert(cache@ == pass_set(cache_pre, pk, w_hash(tag, wk)));
                                assert(cache@[a] == cache_pre[a]) by {
                                    assert(cache_pre[a].path == pa);
                                }
                            } else {
                                assert(cache@ == cache_pre.push(
                                    PassEntryV { path: pk, fresh: true, hash: w_hash(tag, wk) },
                                ));
                                assert(cache@[a] == cache_pre[a]);
                            }
                            assert(path_observed(wsx.take(kk + 1), pa) == path_observed(
                                wsx.take(kk),
                                pa,
                            )) by {
                                if path_observed(wsx.take(kk + 1), pa) {
                                    let j = choose|j: int|
                                        0 <= j < wsx.take(kk + 1).len() && w_ok(
                                            #[trigger] wsx.take(kk + 1)[j],
                                        ) && wsx.take(kk + 1)[j].file_disk_path == pa;
                                    if j < kk {
                                        assert(w_ok(wsx.take(kk)[j]));
                                    } else {
                                        assert(wsx[j] == wk);
                                    }
                                }
                                if path_observed(wsx.take(kk), pa) {
                                    let j = choose|j: int|
                                        0 <= j < wsx.take(kk).len() && w_ok(
                                            #[trigger] wsx.take(kk)[j],
                                        ) && wsx.take(kk)[j].file_disk_path == pa;
                                    assert(w_ok(wsx.take(kk + 1)[j]));
                                }
                            }
                        }
                    }
                }
                // Re-establish the appended account.
                lemma_filter_take_step(
                    wsx,
                    kk,
                    |w: WorkloadV| w_ok(w) && !pass_has(cells0, w.file_disk_path),
                );
                if w_ok(wk) && !pass_has(cells0, pk) {
                    assert(cache@ == cache_pre.push(
                        PassEntryV { path: pk, fresh: true, hash: w_hash(tag, wk) },
                    )) by {
                        assert(!pass_has(cache_pre, pk));
                        assert(!w_unchanged(tag, cache_pre, wk));
                    }
                    let app0 = appended_spec(tag, cells0, wsx.take(kk));
                    let f0 = wsx.take(kk).filter(
                        |w: WorkloadV| w_ok(w) && !pass_has(cells0, w.file_disk_path),
                    );
                    let f1 = wsx.take(kk + 1).filter(
                        |w: WorkloadV| w_ok(w) && !pass_has(cells0, w.file_disk_path),
                    );
                    assert(app0.len() == f0.len());
                    assert(f1 == f0.push(wk)) by {
                        assert(wsx.take(kk + 1).drop_last() =~= wsx.take(kk));
                        assert(wsx.take(kk + 1).last() == wk);
                    }
                    assert(appended_spec(tag, cells0, wsx.take(kk + 1)) =~= app0.push(
                        PassEntryV { path: pk, fresh: true, hash: w_hash(tag, wk) },
                    ));
                    assert(cache@.skip(cells0.len() as int) =~= app0.push(
                        PassEntryV { path: pk, fresh: true, hash: w_hash(tag, wk) },
                    )) by {
                        assert(cache_pre.skip(cells0.len() as int) == app0);
                        assert(cache_pre.skip(cells0.len() as int).len() == cache_pre.len()
                            - cells0.len());
                    }
                    assert(cache@.skip(cells0.len() as int) =~= appended_spec(
                        tag,
                        cells0,
                        wsx.take(kk + 1),
                    ));
                } else {
                    if w_ok(wk) {
                        assert(cache@ == pass_set(cache_pre, pk, w_hash(tag, wk)));
                        assert forall|b: int|
                            cells0.len() <= b < cache@.len() implies #[trigger] cache@[b]
                            == cache_pre[b] by {
                            assert(cache_pre[b].path != pk);
                        }
                        assert(cache@.skip(cells0.len() as int) =~= appended_spec(
                            tag,
                            cells0,
                            wsx.take(kk + 1),
                        ));
                    } else {
                        assert(cache@ == cache_pre);
                        assert(cache@.skip(cells0.len() as int) =~= appended_spec(
                            tag,
                            cells0,
                            wsx.take(kk + 1),
                        ));
                    }
                }
            }
            k += 1;
        }
        proof {
            assert(wsx.take(total as int) =~= wsx);
        }

        // Sweep: delete the document of every path left stale, keep the rest.
        let ghost mid = cache@;
        let ghost adds = add_ops_spec(tag, cells0, wsx);
        proof {
            assert(ops@.map_values(|op: WriterOp| op@) == adds);
        }
        let mut dels = sweep(cache);
        let ghost pre_append = ops@;
        let ghost dels_snap = dels@;
        ops.append(&mut dels);
        proof {
            assert(ops@ == pre_append + dels_snap);
            assert(ops@.map_values(|op: WriterOp| op@) =~= adds + dels_snap.map_values(
                |op: WriterOp| op@,
            ));
        }

        proof {
            // The intermediate cache splits into the updated old entries and
            // the appended new ones.
            let upd = |e: PassEntryV|
                if path_observed(wsx, e.path) {
                    PassEntryV {
                        path: e.path,
                        fresh: true,
                        hash: w_hash(tag, ws_lookup(wsx, e.path)),
                    }
                } else {
                    e
                };
            let part1 = cells0.map_values(upd);
            let part2 = appended_spec(tag, cells0, wsx);
            assert(mid =~= part1 + part2) by {
                assert forall|a: int| 0 <= a < cells0.len() implies mid[a] == part1[a] by {
                    assert(mid[a] == entry_now(tag, cells0, wsx, wsx.len() as int, a));
                    assert(wsx.take(wsx.len() as int) =~= wsx);
                }
                assert(mid.skip(cells0.len() as int) == part2);
                assert forall|b: int|
                    cells0.len() <= b < mid.len() implies mid[b] == part2[b - cells0.len()] by {
                    assert(mid.skip(cells0.len() as int)[b - cells0.len()] == mid[b]);
                }
            }
            let fresh_pred = |e: PassEntryV| e.fresh;
            let stale_pred = |e: PassEntryV| !e.fresh;
            crate::seq_facts::lemma_filter_concat(part1, part2, fresh_pred);
            crate::seq_facts::lemma_filter_concat(part1, part2, stale_pred);
            crate::seq_facts::lemma_filter_empty(part2, stale_pred);
            crate::seq_facts::lemma_filter_map(
                cells0,
                upd,
                fresh_pred,
                |e: PassEntryV| path_observed(wsx, e.path),
            );
            crate::seq_facts::lemma_filter_map(
                cells0,
                upd,
                stale_pred,
                |e: PassEntryV| !path_observed(wsx, e.path),
            );
            assert forall|m: int| 0 <= m < part2.len() implies fresh_pred(
                #[trigger] part2[m],
            ) by {
                let src = wsx.filter(
                    |w: WorkloadV| w_ok(w) && !pass_has(cells0, w.file_disk_path),
                );
                assert(part2[m] == src.map_values(
                    |w: WorkloadV|
                        PassEntryV {
                            path: w.file_disk_path,
                            fresh: true,
                            hash: w_hash(tag, w),
                        },
                )[m]);
            }
            crate::seq_facts::lemma_filter_all(part2, fresh_pred);
            // The swept cache is exactly the specified final cache.
            assert(cache@ =~= final_cells_spec(tag, cells0, wsx)) by {
                assert(cache@ =~= mid.filter(fresh_pred));
                assert(mid.filter(fresh_pred) == part1.filter(fresh_pred) + part2);
                assert(part1.filter(fresh_pred) == cells0.filter(
                    |e: PassEntryV| path_observed(wsx, e.path),
                ).map_values(upd));
                assert(cells0.filter(|e: PassEntryV| path_observed(wsx, e.path)).map_values(upd)
                    =~= cells0.filter(|e: PassEntryV| path_observed(wsx, e.path)).map_values(
                    |e: PassEntryV|
                        PassEntryV {
                            path: e.path,
                            fresh: true,
                            hash: w_hash(tag, ws_lookup(wsx, e.path)),
                        },
                )) by {
                    crate::seq_facts::lemma_filter_membership(
                        cells0,
                        |e: PassEntryV| path_observed(wsx, e.path),
                    );
                }
            }
            // The emitted deletions are exactly the sweep operations.
            assert(ops@.map_values(|op: WriterOp| op@) =~= pass_ops_spec(tag, cells0, wsx)) by {
                assert(ops@.map_values(|op: WriterOp| op@) =~= adds + mid.filter(
                    stale_pred,
                ).map_values(
                    |e: PassEntryV| WriterOpV::DeleteByTerm {
                        field: DocField::FileDiskPath,
                        text: e.path,
                    },
                ));
                assert(mid.filter(stale_pred) == part1.filter(stale_pred) + part2.filter(
                    stale_pred,
                ));
                assert(part1.filter(stale_pred) == cells0.filter(
                    |e: PassEntryV| !path_observed(wsx, e.path),
                ).map_values(upd));
                assert(mid.filter(stale_pred) =~= cells0.filter(
                    |e: PassEntryV| !path_observed(wsx, e.path),
                )) by {
                    crate::seq_facts::lemma_filter_membership(
                        cells0,
                        |e: PassEntryV| !path_observed(wsx, e.path),
                    );
                    assert forall|a: int|
                        0 <= a < part1.filter(stale_pred).len() implies part1.filter(
                        stale_pred,
                    )[a] == cells0.filter(|e: PassEntryV| !path_observed(wsx, e.path))[a] by {
                        let src = cells0.filter(|e: PassEntryV| !path_observed(wsx, e.path));
                        assert(part1.filter(stale_pred)[a] == src.map_values(upd)[a]);
                        assert(src.contains(src[a]));
                    }
                }
                assert(mid.filter(stale_pred).map_values(
                    |e: PassEntryV| WriterOpV::DeleteByTerm {
                        field: DocField::FileDiskPath,
                        text: e.path,
                    },
                ) =~= sweep_ops_spec(cells0, wsx));
            }
            // Uniqueness of the swept entries' paths.
            lemma_sweep_distinct(mid, fresh_pred);
            assert forall|a: int, b: int|
                0 <= a < b < cache@.len() implies cache@[a].path != cache@[b].path by {
                assert(cache@ == mid.filter(fresh_pred));
            }
            // Everything that remains is fresh.
            crate::seq_facts::lemma_filter_membership(mid, fresh_pred);
            assert forall|a: int| 0 <= a < cache@.len() implies (
            #[trigger] cache@[a]).fresh by {
                assert(mid.filter(fresh_pred).contains(mid.filter(fresh_pred)[a]));
            }
        }

        // Build the snapshot of surviving hashes.
        let snapshot = snapshot_of(cache);
        PassOutcome { ops, snapshot }
    }
}

/// The sweep of one pass: drop every cache entry left stale, and hand back
/// one delete operation per dropped path, in cache order.
fn sweep(cache: &mut PassCache) -> (dels: Vec<WriterOp>)
    ensures
        final(cache)@ == old(cache)@.filter(|e: PassEntryV| e.fresh),
        dels@.map_values(|op: WriterOp| op@) == old(cache)@.filter(
            |e: PassEntryV| !e.fresh,
        ).map_values(
            |e: PassEntryV| WriterOpV::DeleteByTerm {
                field: DocField::FileDiskPath,
                text: e.path,
            },
        ),
{
    let ghost mid = cache@;
    let mut kept: Vec<PassEntry> = Vec::new();
    let mut dels: Vec<WriterOp> = Vec::new();
    let mut i: usize = 0;
    while i < cache.entries.len()
        invariant
            mid == cache@,
            i <= cache.entries@.len(),
            kept@.map_values(|e: PassEntry| e@) == mid.take(i as int).filter(
                |e: PassEntryV| e.fresh,
            ),
            dels@.map_values(|op: WriterOp| op@) == mid.take(i as int).filter(
                |e: PassEntryV| !e.fresh,
            ).map_values(
                |e: PassEntryV| WriterOpV::DeleteByTerm {
                    field: DocField::FileDiskPath,
                    text: e.path,
                },
            ),
        decreases cache.entries@.len() - i,
    {
        proof {
            assert(mid[i as int] == cache.entries@[i as int]@);
        }
        let ghost pre_kept = kept@;
        let ghost pre_dels = dels@;
        if cache.entries[i].cell.fresh {
            let entry = PassEntry {
                path: clone_bytes(&cache.entries[i].path),
                cell: FreshValue::from(clone_bytes(&cache.entries[i].cell.value)),
            };
            proof {
                assert(entry@ == mid[i as int]);
            }
            kept.push(entry);
        } else {
            let op = WriterOp::DeleteByTerm {
                field: DocField::FileDiskPath,
                text: clone_bytes(&cache.entries[i].path),
            };
            let ghost gop = op;
            dels.push(op);
            proof {
                assert(gop@ == (WriterOpV::DeleteByTerm {
                    field: DocField::FileDiskPath,
                    text: mid[i as int].path,
                }));
            }
        }
        proof {
            lemma_filter_take_step(mid, i as int, |e: PassEntryV| e.fresh);
            lemma_filter_take_step(mid, i as int, |e: PassEntryV| !e.fresh);
            assert(pre_kept.map_values(|e: PassEntry| e@).len() == pre_kept.len());
            assert(pre_dels.map_values(|op: WriterOp| op@).len() == pre_dels.len());
            assert(kept@.map_values(|e: PassEntry| e@) =~= mid.take(i + 1).filter(
                |e: PassEntryV| e.fresh,
            ));
            let lhs = dels@.map_values(|op: WriterOp| op@);
            let x0 = mid.take(i as int).filter(|e: PassEntryV| !e.fresh);
            let x1 = mid.take(i + 1).filter(|e: PassEntryV| !e.fresh);
            let delop = |e: PassEntryV| WriterOpV::DeleteByTerm {
                field: DocField::FileDiskPath,
                text: e.path,
            };
            if !mid[i as int].fresh {
                assert(x1 == x0.push(mid[i as int]));
                assert(dels@ == pre_dels.push(dels@.last()));
                assert forall|j: int| 0 <= j < lhs.len() implies lhs[j] == x1.map_values(
                    delop,
                )[j] by {
                    if j < pre_dels.len() {
                        assert(lhs[j] == dels@[j]@);
                        assert(dels@[j] == pre_dels[j]);
                        assert(pre_dels.map_values(|op: WriterOp| op@)[j] == x0.map_values(
                            delop,
                        )[j]);
                        assert(x1.map_values(delop)[j] == delop(x1[j]));
                        assert(x1[j] == x0[j]);
                    } else {
                        assert(lhs[j] == dels@[j]@);
                        assert(x1.map_values(delop)[j] == delop(mid[i as int]));
                    }
                }
                assert(lhs =~= x1.map_values(delop));
            } else {
                assert(x1 == x0);
                assert(lhs =~= x1.map_values(delop));
            }
        }
        i += 1;
    }
    proof {
        assert(mid.take(mid.len() as int) =~= mid);
    }
    cache.entries = kept;
    dels
}

/// The snapshot of a swept cache: one entry per distinct hash it holds,
/// each marked as observed this pass.
fn snapshot_of(cache: &PassCache) -> (snapshot: FileCacheSnapshot)
    ensures
        snapshot.wf(),
        forall|a: int| 0 <= a < snapshot@.len() ==> (#[trigger] snapshot@[a]).fresh,
        forall|h: Seq<u8>| #[trigger] snap_has(snapshot@, h) <==> cells_hash_in(cache@, h),
{
    let mut snapshot = FileCacheSnapshot::new();
    let mut j: usize = 0;
    while j < cache.entries.len()
        invariant
            j <= cache.entries@.len(),
            snapshot.wf(),
            forall|a: int| 0 <= a < snapshot@.len() ==> (#[trigger] snapshot@[a]).fresh,
            forall|h: Seq<u8>|
                #[trigger] snap_has(snapshot@, h) <==> cells_hash_in(cache@.take(j as int), h),
        decreases cache.entries@.len() - j,
    {
        proof {
            assert(cache@[j as int] == cache.entries@[j as int]@);
        }
        let ghost pre_snap = snapshot@;
        snapshot.observe(&cache.entries[j].cell.value);
        proof {
            let h = cache.entries@[j as int]@.hash;
            crate::fcache::lemma_snap_observe_effect(pre_snap, h);
            assert forall|x: Seq<u8>| #[trigger] snap_has(snapshot@, x) implies cells_hash_in(
                cache@.take(j + 1),
                x,
            ) by {
                if snap_has(pre_snap, x) {
                    let a = choose|a: int|
                        0 <= a < cache@.take(j as int).len() && (#[trigger] cache@.take(
                            j as int,
                        )[a]).hash == x;
                    assert(cache@.take(j + 1)[a].hash == x);
                } else {
                    assert(cache@.take(j + 1)[j as int].hash == x);
                }
            }
            assert forall|x: Seq<u8>| cells_hash_in(cache@.take(j + 1), x) implies
                #[trigger] snap_has(snapshot@, x) by {
                let a = choose|a: int|
                    0 <= a < cache@.take(j + 1).len() && (#[trigger] cache@.take(j + 1)[
                        a
                    ]).hash == x;
                if a < j {
                    assert(cache@.take(j as int)[a].hash == x);
                    assert(cells_hash_in(cache@.take(j as int), x));
                }
            }
        }
        j += 1;
    }
    proof {
        assert(cache@.take(cache@.len() as int) =~= cache@);
    }
    snapshot
}

/// Filtering to the fresh entries of a cache with pairwise-distinct paths
/// keeps the paths pairwise distinct.
proof fn lemma_sweep_distinct(s: Seq<PassEntryV>, pred: spec_fn(PassEntryV) -> bool)
    requires
        forall|i: int, j: int| 0 <= i < j < s.len() ==> s[i].path != s[j].path,
    ensures
        forall|a: int, b: int|
            0 <= a < b < s.filter(pred).len() ==> s.filter(pred)[a].path != s.filter(
                pred,
            )[b].path,
    decreases s.len(),
{
    reveal_with_fuel(Seq::filter, 2);
    if s.len() > 0 {
        let dl = s.drop_last();
        lemma_sweep_distinct(dl, pred);
        crate::seq_facts::lemma_filter_membership(dl, pred);
        let f = s.filter(pred);
        if pred(s.last()) {
            assert(f == dl.filter(pred).push(s.last()));
            assert forall|a: int, b: int| 0 <= a < b < f.len() implies f[a].path != f[b].path by {
                if b == f.len() - 1 {
                    assert(f[a] == dl.filter(pred)[a]);
                    assert(dl.filter(pred).contains(f[a]));
                    assert(dl.contains(f[a]));
                    let u = choose|u: int| 0 <= u < dl.len() && dl[u] == f[a];
                    assert(s[u] == f[a]);
                    assert(s[u].path != s[s.len() - 1].path);
                }
            }
        }
    }
}

/// The error of a query that found no document, or more than one where the
/// index should hold a single one per path.
pub enum QueryError {
    NoPath,
    MultiplePaths,
}

/// The single expected hit of a query limited to one result: no hit is a
/// missing path, several hits mean the index holds duplicates for the path
/// and the caller refuses to pick one.
pub fn single_hit<T>(mut hits: Vec<T>) -> (r: Result<T, QueryError>)
    ensures
        hits@.len() == 0 ==> r == Err::<T, QueryError>(QueryError::NoPath),
        hits@.len() == 1 ==> (match r {
            Ok(v) => v == hits@[0],
            Err(_) => false,
        }),
        hits@.len() > 1 ==> r == Err::<T, QueryError>(QueryError::MultiplePaths),
{
    if hits.len() == 0 {
        Err(QueryError::NoPath)
    } else if hits.len() == 1 {
        let v = hits.remove(0);
        Ok(v)
    } else {
        Err(QueryError::MultiplePaths)
    }
}

/// Whether a writer operation touches this file path: it adds a document
/// for the path or deletes by the path term.
pub open spec fn op_concerns(op: WriterOpV, path: Seq<u8>) -> bool {
    match op {
        WriterOpV::AddDocument(d) => d.file_disk_path == path,
        WriterOpV::DeleteByTerm { field, text } => text == path,
    }
}

/// For a file unchanged between two passes — its path stands in the loaded
/// cache with the same content hash — the second pass issues no writer
/// operation at all for that file: no document is written and nothing is
/// deleted under its path.  Since only changed files produce documents,
/// only changed files ever reach the chunk caches and the embedder.
pub proof fn lemma_unchanged_file_untouched(
    tag: Seq<u8>,
    cells0: Seq<PassEntryV>,
    ws: Seq<WorkloadV>,
    k: int,
)
    requires
        0 <= k < ws.len(),
        w_ok(ws[k]),
        w_unchanged(tag, cells0, ws[k]),
        forall|i: int, j: int|
            0 <= i < j < ws.len() ==> (#[trigger] ws[i]).file_disk_path != (
            #[trigger] ws[j]).file_disk_path,
    ensures
        forall|i: int|
            0 <= i < pass_ops_spec(tag, cells0, ws).len() ==> !op_concerns(
                #[trigger] pass_ops_spec(tag, cells0, ws)[i],
                ws[k].file_disk_path,
            ),
{
    let pk = ws[k].file_disk_path;
    let adds = add_ops_spec(tag, cells0, ws);
    let sweeps = sweep_ops_spec(cells0, ws);
    let changed = |w: WorkloadV| w_changed(tag, cells0, w);
    let unobserved = |e: PassEntryV| !path_observed(ws, e.path);
    crate::seq_facts::lemma_filter_membership(ws, changed);
    crate::seq_facts::lemma_filter_membership(cells0, unobserved);
    assert(path_observed(ws, pk)) by {
        assert(w_ok(ws[k]) && ws[k].file_disk_path == pk);
    }
    assert forall|i: int|
        0 <= i < pass_ops_spec(tag, cells0, ws).len() implies !op_concerns(
        #[trigger] pass_ops_spec(tag, cells0, ws)[i],
        pk,
    ) by {
        let ops = pass_ops_spec(tag, cells0, ws);
        if i < adds.len() {
            assert(ops[i] == adds[i]);
            let src = ws.filter(changed);
            assert(adds[i] == WriterOpV::AddDocument(doc_spec(tag, src[i])));
            assert(src.contains(src[i]));
            assert(ws.contains(src[i]) && changed(src[i]));
            let j = choose|j: int| 0 <= j < ws.len() && ws[j] == src[i];
            if doc_spec(tag, src[i]).file_disk_path == pk {
                assert(ws[j].file_disk_path == ws[k].file_disk_path);
                assert(j == k);
                assert(changed(ws[k]));
            }
        } else {
            assert(ops[i] == sweeps[i - adds.len()]);
            let src = cells0.filter(unobserved);
            assert(sweeps[i - adds.len()] == (WriterOpV::DeleteByTerm {
                field: DocField::FileDiskPath,
                text: src[i - adds.len()].path,
            }));
            assert(src.contains(src[i - adds.len()]));
            assert(unobserved(src[i - adds.len()]));
            if src[i - adds.len()].path == pk {
                assert(!path_observed(ws, pk));
            }
        }
    }
}

/// After a pass and its sweep, every hash that the pruned cache — and so
/// the persisted file-cache snapshot — holds is the content hash of a file
/// the pass actually processed from the working copy.
pub proof fn lemma_final_hashes_from_pass(
    tag: Seq<u8>,
    cells0: Seq<PassEntryV>,
    ws: Seq<WorkloadV>,
)
    ensures
        forall|a: int|
            0 <= a < final_cells_spec(tag, cells0, ws).len() ==> hash_from_pass(
                tag,
                ws,
                (#[trigger] final_cells_spec(tag, cells0, ws)[a]).hash,
            ),
{
    let observed = |e: PassEntryV| path_observed(ws, e.path);
    let newish = |w: WorkloadV| w_ok(w) && !pass_has(cells0, w.file_disk_path);
    let part1 = cells0.filter(observed).map_values(
        |e: PassEntryV|
            PassEntryV { path: e.path, fresh: true, hash: w_hash(tag, ws_lookup(ws, e.path)) },
    );
    let part2 = appended_spec(tag, cells0, ws);
    crate::seq_facts::lemma_filter_membership(cells0, observed);
    crate::seq_facts::lemma_filter_membership(ws, newish);
    assert forall|a: int|
        0 <= a < final_cells_spec(tag, cells0, ws).len() implies hash_from_pass(
        tag,
        ws,
        (#[trigger] final_cells_spec(tag, cells0, ws)[a]).hash,
    ) by {
        let out = final_cells_spec(tag, cells0, ws);
        if a < part1.len() {
            assert(out[a] == part1[a]);
            let src = cells0.filter(observed);
            assert(part1[a].hash == w_hash(tag, ws_lookup(ws, src[a].path)));
            assert(src.contains(src[a]));
            assert(observed(src[a]));
            lemma_ws_lookup_observed(ws, src[a].path);
            let i = choose|i: int|
                0 <= i < ws.len() && w_ok(#[trigger] ws[i]) && ws[i] == ws_lookup(
                    ws,
                    src[a].path,
                ) && ws[i].file_disk_path == src[a].path;
            assert(w_hash(tag, ws[i]) == part1[a].hash);
        } else {
            assert(out[a] == part2[a - part1.len()]);
            let src = ws.filter(newish);
            assert(part2[a - part1.len()].hash == w_hash(tag, src[a - part1.len()]));
            assert(src.contains(src[a - part1.len()]));
            assert(ws.contains(src[a - part1.len()]) && newish(src[a - part1.len()]));
            let i = choose|i: int| 0 <= i < ws.len() && ws[i] == src[a - part1.len()];
            assert(w_ok(ws[i]) && w_hash(tag, ws[i]) == part2[a - part1.len()].hash);
        }
    }
}

/// After a pass's sweep and the snapshot's persist, every file-cache row of
/// the repository corresponds to a file present in the working copy, with
/// matching hash: its stored hash is the content hash of a file the pass
/// processed.
pub proof fn lemma_persisted_rows_from_pass(
    tag: Seq<u8>,
    cells0: Seq<PassEntryV>,
    ws: Seq<WorkloadV>,
    snap: Seq<SnapEntryV>,
    files0: Seq<FileRowV>,
    repo: Seq<u8>,
)
    requires
        forall|h: Seq<u8>|
            #[trigger] snap_has(snap, h) <==> cells_hash_in(
                final_cells_spec(tag, cells0, ws),
                h,
            ),
    ensures
        forall|i: int|
            0 <= i < persisted_rows(files0, repo, snap_keys(snap)).len() && (
            #[trigger] persisted_rows(files0, repo, snap_keys(snap))[i]).repo_ref == repo
                ==> hash_from_pass(
                tag,
                ws,
                persisted_rows(files0, repo, snap_keys(snap))[i].cache_hash,
            ),
{
    lemma_final_hashes_from_pass(tag, cells0, ws);
    let keys = snap_keys(snap);
    let out = persisted_rows(files0, repo, keys);
    let kept = files0.filter(|x: FileRowV| x.repo_ref != repo);
    crate::seq_facts::lemma_filter_membership(files0, |x: FileRowV| x.repo_ref != repo);
    assert forall|i: int|
        0 <= i < out.len() && (#[trigger] out[i]).repo_ref == repo implies hash_from_pass(
        tag,
        ws,
        out[i].cache_hash,
    ) by {
        if i < kept.len() {
            assert(out[i] == kept[i]);
            assert(kept.contains(kept[i]));
        } else {
            let j = i - kept.len();
            assert(out[i].cache_hash == keys[j]);
            assert(keys[j] == snap[j].hash);
            assert(snap_has(snap, snap[j].hash));
            assert(cells_hash_in(final_cells_spec(tag, cells0, ws), out[i].cache_hash));
            let a = choose|a: int|
                0 <= a < final_cells_spec(tag, cells0, ws).len() && (
                #[trigger] final_cells_spec(tag, cells0, ws)[a]).hash == out[i].cache_hash;
            assert(hash_from_pass(tag, ws, final_cells_spec(tag, cells0, ws)[a].hash));
        }
    }
}

} // verus!
