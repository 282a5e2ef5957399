use bleep_index::fresh::FreshValue;
use bleep_index::keys::{branches_hash, bytes_eq, chunk_id, file_hash, to_hex};

#[test]
fn to_hex_renders_lowercase_pairs() {
    let bytes = vec![0x0fu8, 0xa0, 0x00, 0xff];
    assert_eq!(to_hex(&bytes), b"0fa000ff".to_vec());
}

#[test]
fn file_hash_matches_direct_digest() {
    let tag = b"v1".to_vec();
    let content = b"hi\n".to_vec();
    let got = file_hash(&tag, &content);

    let mut input = tag.clone();
    input.extend_from_slice(&content);
    let expect = blake3::hash(&input).to_hex().to_string().into_bytes();
    assert_eq!(got, expect);
}

#[test]
fn file_hash_mixes_in_the_schema_tag() {
    let content = b"hi\n".to_vec();
    let h1 = file_hash(&b"v1".to_vec(), &content);
    let h2 = file_hash(&b"v2".to_vec(), &content);
    assert_ne!(h1, h2);
}

#[test]
fn chunk_id_matches_direct_digest_and_uuid() {
    let key = file_hash(&b"v1".to_vec(), &b"fn main() {}\n".to_vec());
    let data = b"fn main() {}".to_vec();
    let got = chunk_id(&key, &data);

    let mut input = key.clone();
    input.extend_from_slice(&data);
    let digest = blake3::hash(&input);
    let mut low = [0u8; 16];
    low.copy_from_slice(&digest.as_bytes()[16..32]);
    let expect = uuid::Uuid::from_bytes(low).to_string().into_bytes();
    assert_eq!(got, expect);
}

#[test]
fn chunk_id_is_deterministic() {
    let key = b"abcd".to_vec();
    let data = b"some chunk".to_vec();
    assert_eq!(chunk_id(&key, &data), chunk_id(&key, &data));
}

#[test]
fn chunk_id_depends_on_file_key() {
    let data = b"some chunk".to_vec();
    assert_ne!(chunk_id(&b"k1".to_vec(), &data), chunk_id(&b"k2".to_vec(), &data));
}

#[test]
fn branches_hash_matches_newline_joined_digest() {
    let branches = vec![b"main".to_vec(), b"dev".to_vec()];
    let got = branches_hash(&branches);
    let expect = blake3::hash(b"main\ndev").to_hex().to_string().into_bytes();
    assert_eq!(got, expect);
}

#[test]
fn branches_hash_depends_on_order() {
    let ab = vec![b"a".to_vec(), b"b".to_vec()];
    let ba = vec![b"b".to_vec(), b"a".to_vec()];
    assert_ne!(branches_hash(&ab), branches_hash(&ba));
}

#[test]
fn bytes_eq_compares_contents() {
    assert!(bytes_eq(&b"abc".to_vec(), &b"abc".to_vec()));
    assert!(!bytes_eq(&b"abc".to_vec(), &b"abd".to_vec()));
    assert!(!bytes_eq(&b"abc".to_vec(), &b"ab".to_vec()));
}

#[test]
fn freshness_cells_compare_by_value_alone() {
    let loaded: FreshValue<Vec<u8>> = FreshValue::stale(b"h1".to_vec());
    let observed: FreshValue<Vec<u8>> = FreshValue::from(b"h1".to_vec());
    let other: FreshValue<Vec<u8>> = FreshValue::from(b"h2".to_vec());
    assert!(loaded == observed);
    assert!(!(loaded == other));
    assert!(!loaded.fresh);
    assert!(observed.fresh);
}
