//! The log of writes.

use cairn::kv::wal::WalWriter;

#[test]
fn append_then_replay_roundtrips() {
    let mut w = WalWriter::create();
    let mut file = Vec::new();
    w.append(1, b"a", Some(b"1"));
    file.extend(w.take());
    w.append(2, b"b", None);
    file.extend(w.take());

    let records = WalWriter::read_all(&file);
    assert_eq!(
        records,
        vec![
            (1, b"a".to_vec(), Some(b"1".to_vec())),
            (2, b"b".to_vec(), None),
        ]
    );
}

#[test]
fn replay_stops_at_torn_tail_record() {
    let mut w = WalWriter::create();
    let mut file = Vec::new();
    w.append(1, b"a", Some(b"1"));
    file.extend(w.take());
    file.extend_from_slice(&[0xAB, 0xCD, 0xEF]);

    let records = WalWriter::read_all(&file);
    assert_eq!(records, vec![(1, b"a".to_vec(), Some(b"1".to_vec()))]);
}

#[test]
fn crc_mismatch_on_complete_body_drops_record_and_keeps_prefix() {
    let mut w = WalWriter::create();
    let mut file = Vec::new();
    w.append(1, b"a", Some(b"1"));
    file.extend(w.take());
    let len_after_first = file.len();
    w.append(100, b"second-key", Some(b"second-value"));
    file.extend(w.take());
    let len_after_second = file.len();

    let second_record_len = len_after_second - len_after_first;
    assert!(
        second_record_len > 10,
        "test record too short to corrupt safely"
    );
    let flip_offset = len_after_first + 4 + second_record_len / 2;

    file[flip_offset] ^= 0xFF;

    let records = WalWriter::read_all(&file);
    assert_eq!(records, vec![(1, b"a".to_vec(), Some(b"1".to_vec()))]);
}

#[test]
fn truncation_mid_record_keeps_prior_records() {
    let mut w = WalWriter::create();
    let mut file = Vec::new();
    w.append(1, b"a", Some(b"1"));
    file.extend(w.take());
    let len_after_first = file.len();
    w.append(2, b"second-key", Some(b"second-value"));
    file.extend(w.take());

    file.truncate(len_after_first + 6);

    let records = WalWriter::read_all(&file);
    assert_eq!(records, vec![(1, b"a".to_vec(), Some(b"1".to_vec()))]);
}

#[test]
fn oversized_key_length_stops_at_valid_prefix() {
    let mut w = WalWriter::create();
    let mut file = Vec::new();
    w.append(1, b"a", Some(b"1"));
    file.extend(w.take());

    file.extend_from_slice(&0u32.to_le_bytes());
    file.extend_from_slice(&2u64.to_le_bytes());
    file.extend_from_slice(&u32::MAX.to_le_bytes());

    assert_eq!(
        WalWriter::read_all(&file),
        vec![(1, b"a".to_vec(), Some(b"1".to_vec()))]
    );
}

#[test]
fn oversized_value_length_stops_at_valid_prefix() {
    let mut w = WalWriter::create();
    let mut file = Vec::new();
    w.append(1, b"a", Some(b"1"));
    file.extend(w.take());

    file.extend_from_slice(&0u32.to_le_bytes());
    file.extend_from_slice(&2u64.to_le_bytes());
    file.extend_from_slice(&1u32.to_le_bytes());
    file.extend_from_slice(b"k");
    file.extend_from_slice(&[1]);
    file.extend_from_slice(&u32::MAX.to_le_bytes());

    assert_eq!(
        WalWriter::read_all(&file),
        vec![(1, b"a".to_vec(), Some(b"1".to_vec()))]
    );
}
