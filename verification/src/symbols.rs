//! Per-file text processing for the indexing pipeline: symbol resolution
//! with its fallback chain, symbol flattening, newline offsets, lowercasing
//! and newline termination.

use vstd::prelude::*;
use crate::keys::{bytes_eq, newline_join};
use crate::seq_facts::{lemma_filter_take_step, lemma_nested_deep_view};

verus! {

/// A symbol occurrence: a byte range into the file it was extracted from.
#[derive(Clone, Copy, PartialEq, Eq, Structural)]
pub struct Symbol {
    pub start: usize,
    pub end: usize,
}

/// What a symbol extractor hands back: the symbols it found and their
/// serialized locations, carried opaquely into the document.
pub struct SymbolData {
    pub symbols: Vec<Symbol>,
    pub serialized: Vec<u8>,
}

/// The error of a failed extraction attempt.
pub enum ExtractError {
    Failed,
}

/// Where a file's symbols came from: the syntax-aware scope graph, the
/// precomputed tag map, or nowhere.
pub enum SymbolLocations {
    TreeSitter(SymbolData),
    Ctags(SymbolData),
    Empty,
}

/// The fallback chain as a value: scope graph if it was built, else the tag
/// map if the file has one, else nothing.
pub open spec fn resolved_symbols(
    scope_graph: Result<SymbolData, ExtractError>,
    ctags: Option<SymbolData>,
) -> SymbolLocations {
    match scope_graph {
        Ok(d) => SymbolLocations::TreeSitter(d),
        Err(_) => match ctags {
            Some(d) => SymbolLocations::Ctags(d),
            None => SymbolLocations::Empty,
        },
    }
}

/// Choose the symbol source for a file: a failed scope graph falls back to
/// the tag map, and a missing tag map to the empty symbol set.  The file is
/// indexed in every case.
pub fn resolve_symbols(
    scope_graph: Result<SymbolData, ExtractError>,
    ctags: Option<SymbolData>,
) -> (r: SymbolLocations)
    ensures
        r == resolved_symbols(scope_graph, ctags),
{
    match scope_graph {
        Ok(d) => SymbolLocations::TreeSitter(d),
        Err(_) => match ctags {
            Some(d) => SymbolLocations::Ctags(d),
            None => SymbolLocations::Empty,
        },
    }
}

/// The symbol ranges of a resolved source.
pub open spec fn symbols_of(sl: SymbolLocations) -> Seq<Symbol> {
    match sl {
        SymbolLocations::TreeSitter(d) => d.symbols@,
        SymbolLocations::Ctags(d) => d.symbols@,
        SymbolLocations::Empty => Seq::<Symbol>::empty(),
    }
}

/// The serialized locations of a resolved source; nothing for the empty
/// source, which readers treat as the absence of symbols.
pub open spec fn serialized_of(sl: SymbolLocations) -> Seq<u8> {
    match sl {
        SymbolLocations::TreeSitter(d) => d.serialized@,
        SymbolLocations::Ctags(d) => d.serialized@,
        SymbolLocations::Empty => Seq::<u8>::empty(),
    }
}

/// The texts of the symbols that lie within the file, in symbol order.
pub open spec fn symbol_texts(buffer: Seq<u8>, syms: Seq<Symbol>) -> Seq<Seq<u8>> {
    syms.filter(|s: Symbol| s.start <= s.end <= buffer.len()).map_values(
        |s: Symbol| buffer.subrange(s.start as int, s.end as int),
    )
}

/// First-occurrence de-duplication of a list of byte strings.
pub open spec fn dedup_first(texts: Seq<Seq<u8>>) -> Seq<Seq<u8>>
    decreases texts.len(),
{
    if texts.len() == 0 {
        Seq::<Seq<u8>>::empty()
    } else if texts.drop_last().contains(texts.last()) {
        dedup_first(texts.drop_last())
    } else {
        dedup_first(texts.drop_last()).push(texts.last())
    }
}

/// De-duplication keeps membership exactly.
pub proof fn lemma_dedup_membership(texts: Seq<Seq<u8>>)
    ensures
        forall|x: Seq<u8>| #[trigger] dedup_first(texts).contains(x) <==> texts.contains(x),
    decreases texts.len(),
{
    if texts.len() > 0 {
        let dl = texts.drop_last();
        lemma_dedup_membership(dl);
        assert forall|x: Seq<u8>| texts.contains(x) implies #[trigger] dedup_first(
            texts,
        ).contains(x) by {
            let w = choose|w: int| 0 <= w < texts.len() && texts[w] == x;
            if w < texts.len() - 1 {
                assert(dl[w] == x);
                assert(dl.contains(x));
                assert(dedup_first(dl).contains(x));
                if !dl.contains(texts.last()) {
                    let u = choose|u: int|
                        0 <= u < dedup_first(dl).len() && dedup_first(dl)[u] == x;
                    assert(dedup_first(texts)[u] == x);
                }
            } else {
                if dl.contains(texts.last()) {
                    assert(dedup_first(dl).contains(x));
                } else {
                    assert(dedup_first(texts).last() == x);
                }
            }
        }
        assert forall|x: Seq<u8>| #[trigger] dedup_first(texts).contains(x) implies texts.contains(
            x,
        ) by {
            let w = choose|w: int|
                0 <= w < dedup_first(texts).len() && dedup_first(texts)[w] == x;
            if dl.contains(texts.last()) {
                assert(dedup_first(dl)[w] == x);
                assert(dedup_first(dl).contains(x));
                assert(dl.contains(x));
                let u = choose|u: int| 0 <= u < dl.len() && dl[u] == x;
                assert(texts[u] == x);
            } else {
                if w < dedup_first(texts).len() - 1 {
                    assert(dedup_first(dl)[w] == x);
                    assert(dedup_first(dl).contains(x));
                    assert(dl.contains(x));
                    let u = choose|u: int| 0 <= u < dl.len() && dl[u] == x;
                    assert(texts[u] == x);
                } else {
                    assert(x == texts.last());
                    assert(texts[texts.len() - 1] == x);
                }
            }
        }
    }
}

/// The flattened symbol string of a file: the in-range symbol texts,
/// first-occurrence de-duplicated, joined by newlines.
pub open spec fn flattened_symbols(buffer: Seq<u8>, syms: Seq<Symbol>) -> Seq<u8> {
    newline_join(dedup_first(symbol_texts(buffer, syms)))
}

/// Flatten a file's symbols into one newline-joined, de-duplicated string.
/// A symbol whose range does not lie within the buffer is skipped.
pub fn flatten_symbols(buffer: &Vec<u8>, syms: &Vec<Symbol>) -> (r: Vec<u8>)
    ensures
        r@ == flattened_symbols(buffer@, syms@),
{
    let ghost valid = |s: Symbol| s.start <= s.end <= buffer@.len();
    let mut texts: Vec<Vec<u8>> = Vec::new();
    let mut i: usize = 0;
    while i < syms.len()
        invariant
            i <= syms@.len(),
            valid == (|s: Symbol| s.start <= s.end <= buffer@.len()),
            texts.deep_view() == dedup_first(symbol_texts(buffer@, syms@.take(i as int))),
        decreases syms@.len() - i,
    {
        let s = syms[i];
        let ghost pre = texts;
        if s.start <= s.end && s.end <= buffer.len() {
            let text = vstd::slice::slice_to_vec(
                vstd::slice::slice_subrange(buffer.as_slice(), s.start, s.end),
            );
            let mut seen = false;
            let mut j: usize = 0;
            while j < texts.len() && !seen
                invariant
                    j <= texts@.len(),
                    texts == pre,
                    seen ==> texts.deep_view().contains(text@),
                    !seen ==> forall|u: int|
                        0 <= u < j ==> (#[trigger] texts.deep_view()[u]) != text@,
                decreases texts@.len() - j,
            {
                proof {
                    lemma_nested_deep_view(texts);
                }
                if bytes_eq(&texts[j], &text) {
                    seen = true;
                    proof {
                        assert(texts.deep_view()[j as int] == text@);
                    }
                } else {
                    proof {
                        assert(texts.deep_view()[j as int] == texts@[j as int]@);
                    }
                }
                j += 1;
            }
            proof {
                lemma_nested_deep_view(texts);
            }
            if !seen {
                texts.push(text);
            }
            proof {
                lemma_nested_deep_view(pre);
                lemma_nested_deep_view(texts);
                lemma_filter_take_step(syms@, i as int, valid);
                let t0 = symbol_texts(buffer@, syms@.take(i as int));
                let t1 = symbol_texts(buffer@, syms@.take(i + 1));
                assert(t1 =~= t0.push(buffer@.subrange(s.start as int, s.end as int)));
                assert(t1.drop_last() =~= t0);
                lemma_dedup_membership(t0);
                if seen {
                    assert(pre.deep_view().contains(t1.last()));
                    assert(t0.contains(t1.last()));
                    assert(texts.deep_view() =~~= dedup_first(t1));
                } else {
                    assert(!t0.contains(t1.last())) by {
                        if t0.contains(t1.last()) {
                            assert(dedup_first(t0).contains(t1.last()));
                            let u = choose|u: int|
                                0 <= u < dedup_first(t0).len() && dedup_first(t0)[u]
                                    == t1.last();
                            assert(pre.deep_view()[u] == t1.last());
                        }
                    }
                    assert(texts.deep_view() =~~= dedup_first(t1));
                }
            }
        } else {
            proof {
                lemma_filter_take_step(syms@, i as int, valid);
                let t0 = symbol_texts(buffer@, syms@.take(i as int));
                let t1 = symbol_texts(buffer@, syms@.take(i + 1));
                assert(t1 =~= t0);
            }
        }
        i += 1;
    }
    proof {
        assert(syms@.take(syms@.len() as int) =~= syms@);
    }
    join_newlines(&texts)
}

/// Join a list of byte strings with newlines, in order.
fn join_newlines(texts: &Vec<Vec<u8>>) -> (r: Vec<u8>)
    ensures
        r@ == newline_join(texts.deep_view()),
{
    let mut joined: Vec<u8> = Vec::new();
    let mut i: usize = 0;
    while i < texts.len()
        invariant
            i <= texts@.len(),
            joined@ == newline_join(texts.deep_view().take(i as int)),
        decreases texts@.len() - i,
    {
        if i > 0 {
            joined.push(10u8);
        }
        joined.extend_from_slice(texts[i].as_slice());
        i += 1;
        proof {
            lemma_nested_deep_view(*texts);
            let dv = texts.deep_view();
            assert(dv.take(i as int).drop_last() =~= dv.take(i - 1));
            assert(dv.take(i as int).last() == dv[i - 1]);
            assert(joined@ =~= newline_join(dv.take(i as int)));
        }
    }
    proof {
        assert(texts.deep_view().take(texts@.len() as int) =~= texts.deep_view());
    }
    joined
}

/// A byte string, newline-terminated: unchanged if it already ends with a
/// newline, otherwise with one appended.  An empty file becomes a single
/// newline.
pub open spec fn padded(buffer: Seq<u8>) -> Seq<u8> {
    if buffer.len() > 0 && buffer.last() == 10u8 {
        buffer
    } else {
        buffer.push(10u8)
    }
}

/// Append a newline unless the buffer already ends with one.
pub fn ensure_trailing_newline(buffer: &mut Vec<u8>)
    ensures
        final(buffer)@ == padded(old(buffer)@),
{
    let len = buffer.len();
    if len == 0 || buffer[len - 1] != 10u8 {
        buffer.push(10u8);
    }
}

/// The little-endian bytes of a 32-bit value.
pub open spec fn le32(n: int) -> Seq<u8> {
    seq![
        (n % 256) as u8,
        (n / 256 % 256) as u8,
        (n / 65536 % 256) as u8,
        (n / 16777216 % 256) as u8,
    ]
}

/// The newline-offset array of a buffer prefix: the little-endian 32-bit
/// offset of every newline among the first `n` bytes, in order.
pub open spec fn line_ends_upto(buffer: Seq<u8>, n: int) -> Seq<u8>
    decreases n,
{
    if n <= 0 {
        Seq::<u8>::empty()
    } else {
        line_ends_upto(buffer, n - 1) + (if buffer[n - 1] == 10u8 {
            le32(n - 1)
        } else {
            Seq::<u8>::empty()
        })
    }
}

/// The newline-offset array of a whole buffer.
pub open spec fn line_ends_spec(buffer: Seq<u8>) -> Seq<u8> {
    line_ends_upto(buffer, buffer.len() as int)
}

/// The number of newlines in a buffer: its line count once it is
/// newline-terminated.
pub open spec fn newline_count(buffer: Seq<u8>) -> int {
    buffer.filter(|b: u8| b == 10u8).len() as int
}

/// Compute the little-endian 32-bit byte offsets of each newline.
pub fn line_end_indices(buffer: &Vec<u8>) -> (r: Vec<u8>)
    requires
        buffer@.len() < 0x1_0000_0000,
    ensures
        r@ == line_ends_spec(buffer@),
{
    let mut out: Vec<u8> = Vec::new();
    let mut i: usize = 0;
    while i < buffer.len()
        invariant
            i <= buffer@.len(),
            buffer@.len() < 0x1_0000_0000,
            out@ == line_ends_upto(buffer@, i as int),
        decreases buffer@.len() - i,
    {
        if buffer[i] == 10u8 {
            let n = i as u32;
            out.push((n % 256) as u8);
            out.push((n / 256 % 256) as u8);
            out.push((n / 65536 % 256) as u8);
            out.push((n / 16777216 % 256) as u8);
            proof {
                assert(out@ =~= line_ends_upto(buffer@, i + 1));
            }
        } else {
            proof {
                assert(out@ =~= line_ends_upto(buffer@, i + 1));
            }
        }
        i += 1;
    }
    out
}

/// Count the newlines of a buffer.
pub fn count_newlines(buffer: &Vec<u8>) -> (r: usize)
    ensures
        r == newline_count(buffer@),
{
    let ghost pred = |b: u8| b == 10u8;
    let mut count: usize = 0;
    let mut i: usize = 0;
    while i < buffer.len()
        invariant
            i <= buffer@.len(),
            pred == (|b: u8| b == 10u8),
            count == buffer@.take(i as int).filter(pred).len(),
            count <= i,
        decreases buffer@.len() - i,
    {
        proof {
            lemma_filter_take_step(buffer@, i as int, pred);
        }
        if buffer[i] == 10u8 {
            count += 1;
        }
        i += 1;
    }
    proof {
        assert(buffer@.take(buffer@.len() as int) =~= buffer@);
    }
    count
}

/// Lowercase mapping of one ASCII byte.
pub open spec fn lower_byte(b: u8) -> u8 {
    if 65 <= b <= 90 {
        (b + 32) as u8
    } else {
        b
    }
}

/// ASCII-lowercase mapping of a byte string, as the language tag is stored.
pub open spec fn ascii_lower(s: Seq<u8>) -> Seq<u8> {
    s.map_values(|b: u8| lower_byte(b))
}

/// Lowercase the ASCII letters of a byte string.
pub fn to_ascii_lowercase(s: &Vec<u8>) -> (r: Vec<u8>)
    ensures
        r@ == ascii_lower(s@),
{
    let mut out: Vec<u8> = Vec::new();
    let mut i: usize = 0;
    while i < s.len()
        invariant
            i <= s@.len(),
            out@.len() == i,
            forall|j: int| 0 <= j < i ==> out@[j] == lower_byte(#[trigger] s@[j]),
        decreases s@.len() - i,
    {
        let b = s[i];
        if 65 <= b && b <= 90 {
            out.push(b + 32);
        } else {
            out.push(b);
        }
        i += 1;
    }
    proof {
        assert(out@ =~= ascii_lower(s@));
    }
    out
}

} // verus!
