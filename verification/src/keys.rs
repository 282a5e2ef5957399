//! Content keys: deterministic identity derivation for files, chunks and
//! branch sets.
//!
//! All text handled here is kept as UTF-8 bytes (`Vec<u8>`), which is how the
//! surrounding stores consume it.  Three derived keys exist:
//! the file hash (hex digest of schema tag plus file bytes), the chunk id
//! (a UUID built from the low 16 digest bytes of file key plus chunk bytes),
//! and the branches hash (hex digest of the newline-joined branch list).

use vstd::prelude::*;
use vstd::std_specs::cmp::PartialEqSpec;

verus! {

/// Lowercase hexadecimal digit for a value below 16, as an ASCII byte.
pub open spec fn hex_digit(n: int) -> u8 {
    if n < 10 {
        (48 + n) as u8
    } else {
        (87 + n) as u8
    }
}

/// Lowercase hexadecimal rendering of a byte string: two digits per byte.
pub open spec fn hex_of(s: Seq<u8>) -> Seq<u8> {
    Seq::new(2 * s.len(), |i: int| if i % 2 == 0 {
        hex_digit(s[i / 2] as int / 16)
    } else {
        hex_digit(s[i / 2] as int % 16)
    })
}

/// The digest that `blake3::hash` computes for a byte string.  The digest is a
/// pure function of the input alone; nothing further is assumed about it here
/// beyond its documented 32-byte length (stated where the call is made).
pub uninterp spec fn blake3_digest(input: Seq<u8>) -> Seq<u8>;

/// Relies on `blake3::hash`: a pure function from the input bytes to a
/// 32-byte digest, the same in every process.
#[verifier::external_body]
fn blake3_hash(input: &Vec<u8>) -> (r: Vec<u8>)
    ensures
        r@ == blake3_digest(input@),
        r@.len() == 32,
{
    blake3::hash(input.as_slice()).as_bytes().to_vec()
}

/// Canonical hyphenated rendering of a 16-byte UUID: lowercase hex with
/// hyphens after the 4th, 6th, 8th and 10th byte.
pub open spec fn uuid_str_of(b: Seq<u8>) -> Seq<u8> {
    hex_of(b.subrange(0, 4)) + seq![45u8] + hex_of(b.subrange(4, 6)) + seq![45u8] + hex_of(
        b.subrange(6, 8),
    ) + seq![45u8] + hex_of(b.subrange(8, 10)) + seq![45u8] + hex_of(b.subrange(10, 16))
}

/// Relies on `uuid::Uuid::from_bytes` and its `Display` impl: the bytes are
/// kept as given and rendered in the canonical hyphenated lowercase form.
#[verifier::external_body]
fn uuid_hyphenated(bytes: &Vec<u8>) -> (r: Vec<u8>)
    requires
        bytes@.len() == 16,
    ensures
        r@ == uuid_str_of(bytes@),
{
    let mut b = [0u8; 16];
    b.copy_from_slice(bytes.as_slice());
    uuid::Uuid::from_bytes(b).to_string().into_bytes()
}

/// Render a byte string as lowercase hexadecimal.
pub fn to_hex(bytes: &Vec<u8>) -> (r: Vec<u8>)
    ensures
        r@ == hex_of(bytes@),
{
    let mut out: Vec<u8> = Vec::new();
    let mut i: usize = 0;
    while i < bytes.len()
        invariant
            i <= bytes.len(),
            out@ == hex_of(bytes@.take(i as int)),
        decreases bytes.len() - i,
    {
        let b = bytes[i];
        let hi = b / 16;
        let lo = b % 16;
        let hi_d: u8 = if hi < 10 {
            48 + hi
        } else {
            87 + hi
        };
        let lo_d: u8 = if lo < 10 {
            48 + lo
        } else {
            87 + lo
        };
        out.push(hi_d);
        out.push(lo_d);
        i += 1;
        proof {
            assert(out@ =~= hex_of(bytes@.take(i as int)));
        }
    }
    proof {
        assert(bytes@.take(bytes@.len() as int) =~= bytes@);
    }
    out
}

/// Concatenation of two byte strings.
pub fn concat_bytes(a: &Vec<u8>, b: &Vec<u8>) -> (r: Vec<u8>)
    ensures
        r@ == a@ + b@,
{
    let mut out: Vec<u8> = Vec::new();
    out.extend_from_slice(a.as_slice());
    proof {
        assert(out@ =~= a@);
    }
    out.extend_from_slice(b.as_slice());
    proof {
        assert(out@ =~= a@ + b@);
    }
    out
}

/// Copy of a byte string.
pub fn clone_bytes(a: &Vec<u8>) -> (r: Vec<u8>)
    ensures
        r@ == a@,
{
    let mut out: Vec<u8> = Vec::new();
    out.extend_from_slice(a.as_slice());
    proof {
        assert(out@ =~= a@);
    }
    out
}

/// Whether two byte strings hold the same bytes.
pub fn bytes_eq(a: &Vec<u8>, b: &Vec<u8>) -> (r: bool)
    ensures
        r == (a@ == b@),
{
    let r = a == b;
    proof {
        if r {
            assert(a@ =~= b@);
        } else {
            if a@ == b@ {
                assert(a.eq_spec(b));
            }
        }
    }
    r
}

/// The file hash: lowercase hex digest over the schema-version tag followed
/// by the file bytes.  Mixing the tag in forces a full re-index whenever the
/// document layout changes.
pub open spec fn file_hash_spec(tag: Seq<u8>, bytes: Seq<u8>) -> Seq<u8> {
    hex_of(blake3_digest(tag + bytes))
}

/// Content-addressed identifier of a whole file, mixed with the
/// schema-version tag.
pub fn file_hash(tag: &Vec<u8>, bytes: &Vec<u8>) -> (r: Vec<u8>)
    ensures
        r@ == file_hash_spec(tag@, bytes@),
{
    let input = concat_bytes(tag, bytes);
    let digest = blake3_hash(&input);
    to_hex(&digest)
}

/// The chunk id: a UUID whose bytes are the low 16 digest bytes of the
/// containing file's hash key followed by the chunk bytes.  It doubles as the
/// point id in the vector store.
pub open spec fn chunk_id_spec(file_hash_key: Seq<u8>, data: Seq<u8>) -> Seq<u8> {
    uuid_str_of(blake3_digest(file_hash_key + data).subrange(16, 32))
}

/// Content-derived chunk identity, pinned to the containing file's hash key.
pub fn chunk_id(file_hash_key: &Vec<u8>, data: &Vec<u8>) -> (r: Vec<u8>)
    ensures
        r@ == chunk_id_spec(file_hash_key@, data@),
{
    let input = concat_bytes(file_hash_key, data);
    let digest = blake3_hash(&input);
    let tail = vstd::slice::slice_to_vec(vstd::slice::slice_subrange(digest.as_slice(), 16, 32));
    uuid_hyphenated(&tail)
}

/// The newline-joined form of a list of byte strings.  Order matters: the
/// list is joined exactly as supplied.
pub open spec fn newline_join(bs: Seq<Seq<u8>>) -> Seq<u8>
    decreases bs.len(),
{
    if bs.len() == 0 {
        seq![]
    } else if bs.len() == 1 {
        bs[0]
    } else {
        newline_join(bs.drop_last()) + seq![10u8] + bs.last()
    }
}

/// The branches hash: lowercase hex digest of the newline-joined branch list.
pub open spec fn branches_hash_spec(branches: Seq<Seq<u8>>) -> Seq<u8> {
    hex_of(blake3_digest(newline_join(branches)))
}

/// Digest of the ordered list of branches a chunk is visible on.
pub fn branches_hash(branches: &Vec<Vec<u8>>) -> (r: Vec<u8>)
    ensures
        r@ == branches_hash_spec(branches.deep_view()),
{
    let mut joined: Vec<u8> = Vec::new();
    let mut i: usize = 0;
    while i < branches.len()
        invariant
            i <= branches.len(),
            joined@ == newline_join(branches.deep_view().take(i as int)),
        decreases branches.len() - i,
    {
        if i > 0 {
            joined.push(10u8);
        }
        joined.extend_from_slice(branches[i].as_slice());
        i += 1;
        proof {
            let dv = branches.deep_view();
            assert(dv[i - 1] == branches@[i - 1]@);
            assert(dv.take(i as int).drop_last() =~= dv.take(i - 1));
            assert(dv.take(i as int).last() == dv[i - 1]);
            if i == 1 {
                assert(joined@ =~= newline_join(dv.take(i as int)));
            } else {
                assert(joined@ =~= newline_join(dv.take(i as int)));
            }
        }
    }
    proof {
        assert(branches.deep_view().take(branches@.len() as int) =~= branches.deep_view());
    }
    let digest = blake3_hash(&joined);
    to_hex(&digest)
}

/// The chunk id depends on nothing besides the file hash key and the chunk
/// bytes: equal inputs give equal identifiers, in any pass and any process.
pub proof fn lemma_chunk_id_deterministic(
    key1: Seq<u8>,
    data1: Seq<u8>,
    key2: Seq<u8>,
    data2: Seq<u8>,
)
    requires
        key1 == key2,
        data1 == data2,
    ensures
        chunk_id_spec(key1, data1) == chunk_id_spec(key2, data2),
{
}

} // verus!
