//! The order of versions.

use cairn::kv::types::InternalKey;

#[test]
fn newer_version_of_same_key_sorts_first() {
    let older = InternalKey {
        user_key: b"a".to_vec(),
        seqno: 1,
    };
    let newer = InternalKey {
        user_key: b"a".to_vec(),
        seqno: 2,
    };
    assert!(newer < older);
}

#[test]
fn different_keys_sort_by_user_key() {
    let a = InternalKey {
        user_key: b"a".to_vec(),
        seqno: 9,
    };
    let b = InternalKey {
        user_key: b"b".to_vec(),
        seqno: 1,
    };
    assert!(a < b);
}
