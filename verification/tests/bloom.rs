//! The filter that never hides a key.

use cairn::error::Error;
use cairn::kv::bloom::Bloom;

#[test]
fn no_false_negatives() {
    let keys: Vec<&[u8]> = vec![b"apple", b"banana", b"cherry"];
    let b = Bloom::build(&keys, 10);
    for k in &keys {
        assert!(b.contains(k), "must contain inserted key");
    }
}

#[test]
fn absent_key_usually_rejected() {
    let keys: Vec<&[u8]> = vec![b"apple"];
    let b = Bloom::build(&keys, 10);
    assert!(!b.contains(b"zzzzzzzz-not-present"));
}

#[test]
fn roundtrips_through_bytes() {
    let keys: Vec<&[u8]> = vec![b"x", b"y"];
    let b = Bloom::build(&keys, 10);
    let restored = Bloom::from_bytes(&b.to_bytes()).unwrap();
    assert!(restored.contains(b"x"));
    assert!(restored.contains(b"y"));
}

#[test]
fn from_bytes_rejects_empty_bits() {
    let result = Bloom::from_bytes(&[0, 0, 0, 5]);
    assert!(matches!(result, Err(Error::Corruption(_))));
}

#[test]
fn from_bytes_rejects_out_of_range_k() {
    let mut buf = Vec::new();
    buf.extend_from_slice(&1000u32.to_le_bytes());
    buf.extend_from_slice(&[0u8; 8]);
    let result = Bloom::from_bytes(&buf);
    assert!(matches!(result, Err(Error::Corruption(_))));
}
