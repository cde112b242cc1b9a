//! The file behind the log.

use cairn::raft::oplog::{decode, encode, read_all, read_all_with_len, Op, OpWriter};
use cairn::raft::types::{LogEntry, SnapshotMeta};

fn entry(term: u64, index: u64, cmd: &[u8]) -> LogEntry {
    LogEntry::normal(term, index, cmd.to_vec())
}

#[test]
fn append_then_replay_roundtrips_all_op_kinds() {
    let mut w = OpWriter::create();
    let mut file = Vec::new();
    let ops = vec![
        Op::Append(entry(1, 1, b"a")),
        Op::Append(entry(1, 2, b"b")),
        Op::TruncateSuffix(2),
        Op::Compact {
            up_to: 1,
            meta: SnapshotMeta {
                last_index: 1,
                last_term: 1,
            },
        },
    ];
    for op in &ops {
        w.append(op);
        file.extend(w.take());
    }
    assert_eq!(read_all(&file), ops);
}

#[test]
fn replay_stops_at_torn_tail() {
    let mut w = OpWriter::create();
    let mut file = Vec::new();
    w.append(&Op::Append(entry(1, 1, b"a")));
    file.extend(w.take());
    file.extend_from_slice(&[0xDE, 0xAD, 0xBE]);
    assert_eq!(
        read_all(&file),
        vec![Op::Append(entry(1, 1, b"a"))]
    );
}

#[test]
fn oversized_command_length_stops_at_valid_prefix() {
    let mut w = OpWriter::create();
    let mut file = Vec::new();
    w.append(&Op::Append(entry(1, 1, b"a")));
    file.extend(w.take());

    file.extend_from_slice(&0u32.to_le_bytes());
    file.extend_from_slice(&[0]);
    file.extend_from_slice(&1u64.to_le_bytes());
    file.extend_from_slice(&2u64.to_le_bytes());
    file.extend_from_slice(&u32::MAX.to_le_bytes());

    assert_eq!(
        read_all(&file),
        vec![Op::Append(entry(1, 1, b"a"))]
    );
}

#[test]
fn the_sound_part_is_measured() {
    let mut w = OpWriter::create();
    w.append(&Op::TruncateSuffix(7));
    let sound = w.take();
    let mut file = sound.clone();
    file.extend_from_slice(&[1, 2, 3, 4, 5]);
    let (ops, len) = read_all_with_len(&file);
    assert_eq!(ops, vec![Op::TruncateSuffix(7)]);
    assert_eq!(len, sound.len() as u64);
}

#[test]
fn a_record_is_its_checksum_and_its_body() {
    let mut w = OpWriter::create();
    w.append(&Op::TruncateSuffix(7));
    let body = [1, 7, 0, 0, 0, 0, 0, 0, 0];
    let mut expected = crc32fast::hash(&body).to_le_bytes().to_vec();
    expected.extend_from_slice(&body);
    assert_eq!(w.take(), expected);
}

#[test]
fn config_changes_replay_as_such() {
    let mut w = OpWriter::create();
    let op = Op::Append(LogEntry::config_change(3, 9, b"voters".to_vec()));
    w.append(&op);
    assert_eq!(read_all(&w.take()), vec![op]);
}

#[test]
fn what_is_encoded_decodes_to_itself() {
    let meta = SnapshotMeta {
        last_index: 4,
        last_term: u64::MAX,
    };
    let ops = vec![
        Op::Append(entry(1, 1, b"a")),
        Op::Append(entry(u64::MAX, 0, b"")),
        Op::Append(LogEntry::config_change(3, 9, b"voters".to_vec())),
        Op::TruncateSuffix(u64::MAX),
        Op::Compact { up_to: 4, meta },
    ];
    for op in ops {
        let body = encode(&op);
        assert_eq!(decode(&body), Some(op));
        assert_eq!(decode(&body[..body.len() - 1]), None);
    }
}

#[test]
fn a_body_that_is_none_decodes_to_nothing() {
    assert_eq!(decode(&[]), None);
    assert_eq!(decode(&[3, 0, 0, 0, 0, 0, 0, 0, 0]), None);

    let mut body = encode(&Op::Append(entry(1, 1, b"a")));
    *body.last_mut().unwrap() = 2;
    assert_eq!(decode(&body), None);

    let mut body = encode(&Op::TruncateSuffix(7));
    assert_eq!(body, [1, 7, 0, 0, 0, 0, 0, 0, 0]);
    body.push(9);
    assert_eq!(decode(&body), Some(Op::TruncateSuffix(7)));
}
