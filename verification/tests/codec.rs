//! Messages as bytes.

use cairn::error::{Error, IoKind};
use cairn::raft::rpc::{
    AppendEntriesReq, AppendEntriesResp, InstallSnapshotReq, InstallSnapshotResp, Message,
    RequestVoteReq, RequestVoteResp,
};
use cairn::raft::transport::codec::{
    add_log_entry_len, allocate_bytes, read_message, serialized_frame_len, write_frame,
    write_message,
};
use cairn::raft::transport::intake::Intake;
use cairn::raft::types::LogEntry;

fn all_messages() -> Vec<Message> {
    vec![
        Message::RequestVote(RequestVoteReq {
            term: 2,
            candidate_id: 7,
            last_log_index: 11,
            last_log_term: 1,
            pre_vote: true,
        }),
        Message::RequestVoteResp(RequestVoteResp {
            term: 2,
            vote_granted: true,
            pre_vote: false,
        }),
        Message::AppendEntries(AppendEntriesReq {
            term: 3,
            leader_id: 7,
            prev_log_index: 10,
            prev_log_term: 2,
            entries: vec![LogEntry::normal(3, 11, b"set x".to_vec())],
            leader_commit: 9,
        }),
        Message::AppendEntriesResp(AppendEntriesResp {
            term: 3,
            success: false,
            conflict_index: Some(8),
        }),
        Message::InstallSnapshot(InstallSnapshotReq {
            term: 4,
            leader_id: 7,
            last_index: 11,
            last_term: 3,
            data: b"snapshot".to_vec(),
            config: b"voters".to_vec(),
        }),
        Message::InstallSnapshotResp(InstallSnapshotResp { term: 4 }),
    ]
}

fn codec_messages() -> Vec<Message> {
    let mut messages = all_messages();
    messages.extend([
        Message::AppendEntries(AppendEntriesReq {
            term: 5,
            leader_id: 8,
            prev_log_index: 12,
            prev_log_term: 4,
            entries: Vec::new(),
            leader_commit: 12,
        }),
        Message::AppendEntries(AppendEntriesReq {
            term: 6,
            leader_id: 8,
            prev_log_index: 13,
            prev_log_term: 5,
            entries: vec![
                LogEntry::normal(6, 14, Vec::new()),
                LogEntry::config_change(6, 15, b"second command".to_vec()),
            ],
            leader_commit: 13,
        }),
        Message::AppendEntriesResp(AppendEntriesResp {
            term: 6,
            success: true,
            conflict_index: None,
        }),
        Message::InstallSnapshot(InstallSnapshotReq {
            term: 7,
            leader_id: 8,
            last_index: 15,
            last_term: 6,
            data: Vec::new(),
            config: Vec::new(),
        }),
    ]);
    messages
}

/// What bincode makes of the same fields.
fn with_bincode(message: &Message) -> Vec<u8> {
    match message {
        Message::RequestVote(m) => bincode::serialize(&(
            0u32,
            m.term,
            m.candidate_id,
            m.last_log_index,
            m.last_log_term,
            m.pre_vote,
        )),
        Message::RequestVoteResp(m) => {
            bincode::serialize(&(1u32, m.term, m.vote_granted, m.pre_vote))
        }
        Message::AppendEntries(m) => {
            let entries: Vec<(u64, u64, Vec<u8>, u8)> = m
                .entries
                .iter()
                .map(|e| (e.term, e.index, e.command.clone(), e.entry_type.to_byte()))
                .collect();
            bincode::serialize(&(
                2u32,
                m.term,
                m.leader_id,
                m.prev_log_index,
                m.prev_log_term,
                entries,
                m.leader_commit,
            ))
        }
        Message::AppendEntriesResp(m) => {
            bincode::serialize(&(3u32, m.term, m.success, m.conflict_index))
        }
        Message::InstallSnapshot(m) => bincode::serialize(&(
            4u32,
            m.term,
            m.leader_id,
            m.last_index,
            m.last_term,
            m.data.clone(),
            m.config.clone(),
        )),
        Message::InstallSnapshotResp(m) => bincode::serialize(&(5u32, m.term)),
    }
    .unwrap()
}

fn payload(message: &Message) -> Vec<u8> {
    let mut out = Vec::new();
    write_message(&mut out, message);
    out
}

fn refusal(payload: &[u8]) -> String {
    match read_message(payload) {
        Err(Error::Corruption(message)) => message,
        other => panic!("expected corruption, got {other:?}"),
    }
}

/// A payload handed over field by field: the message, or what was wrong and how
/// many bytes had come in by then.
fn taken_in(payload: &[u8]) -> Result<Message, (String, usize)> {
    let mut intake = Intake::new(payload.len());
    let mut at = 0;
    let refused = |e: Error, at: usize| match e {
        Error::Corruption(message) => (message, at),
        other => panic!("expected corruption, got {other:?}"),
    };
    while let Some(n) = intake.wanted().map_err(|e| refused(e, at))? {
        let field = &payload[at..at + n];
        at += n;
        intake.take(field).map_err(|e| refused(e, at))?;
    }
    intake.finish().map_err(|e| refused(e, at))
}

#[test]
fn all_message_variants_roundtrip_with_bincode() {
    for message in all_messages() {
        let encoded = with_bincode(&message);
        let decoded = read_message(&encoded).unwrap();
        assert_eq!(decoded, message);
    }
}

#[test]
fn incremental_codec_matches_bincode_for_every_message_variant() {
    for message in codec_messages() {
        let expected_payload = with_bincode(&message);
        let payload_len = serialized_frame_len(&message).unwrap();
        assert_eq!(payload_len as usize, expected_payload.len());

        let actual_frame = write_frame(&message).unwrap();
        let mut expected_frame = payload_len.to_le_bytes().to_vec();
        expected_frame.extend_from_slice(&expected_payload);
        assert_eq!(actual_frame, expected_frame);

        assert_eq!(read_message(&expected_payload).unwrap(), message);
        assert_eq!(taken_in(&expected_payload).unwrap(), message);
    }
}

#[test]
fn message_byte_allocation_failure_is_recoverable() {
    assert!(allocate_bytes(usize::MAX).is_err());
}

#[test]
fn a_failed_allocation_says_so() {
    match allocate_bytes(usize::MAX) {
        Err(Error::Io(fault)) => {
            assert_eq!(fault.kind, IoKind::OutOfMemory);
            assert!(fault
                .message
                .starts_with("cannot allocate incoming message bytes: "));
            assert!(fault.message.len() > "cannot allocate incoming message bytes: ".len());
        }
        other => panic!("expected an allocation failure, got {other:?}"),
    }
    assert!(allocate_bytes(0).unwrap().is_empty());
    let bytes = allocate_bytes(100).unwrap();
    assert!(bytes.is_empty());
    assert!(bytes.capacity() >= 100);
}

#[test]
fn every_prefix_of_a_payload_is_refused() {
    for message in codec_messages() {
        let payload = payload(&message);
        for n in 0..payload.len() {
            assert!(read_message(&payload[..n]).is_err());
        }
    }
}

#[test]
fn trailing_bytes_are_counted() {
    for message in codec_messages() {
        let mut payload = payload(&message);
        payload.extend_from_slice(&[9, 9, 9]);
        if matches!(&message, Message::AppendEntries(m) if !m.entries.is_empty()) {
            assert!(read_message(&payload).is_err());
        }
        assert_eq!(
            refusal(&payload),
            "message deserialization left 3 trailing payload bytes"
        );
    }
}

#[test]
fn each_defect_has_its_text() {
    assert_eq!(
        refusal(&[]),
        "message field requires 4 bytes but only 0 frame bytes remain"
    );
    assert_eq!(
        refusal(&[5, 0, 0, 0, 1, 2, 3]),
        "message field requires 8 bytes but only 3 frame bytes remain"
    );
    assert_eq!(refusal(&[6, 0, 0, 0]), "invalid bincode Message variant 6");

    let mut vote = payload(&all_messages()[1]);
    vote[12] = 7;
    assert_eq!(refusal(&vote), "invalid bincode boolean encoding 7");

    let mut append_resp = payload(&all_messages()[3]);
    append_resp[13] = 2;
    assert_eq!(refusal(&append_resp), "invalid bincode option encoding 2");

    let mut install = payload(&all_messages()[4]);
    install[36..44].copy_from_slice(&1000u64.to_le_bytes());
    assert_eq!(
        refusal(&install),
        "message byte sequence length 1000 exceeds 22 remaining frame bytes"
    );

    let append = payload(&all_messages()[2]);
    assert_eq!(
        refusal(&append[..48]),
        "append entries frame is missing leader_commit"
    );
    let mut counted = append.clone();
    counted[36..44].copy_from_slice(&2u64.to_le_bytes());
    assert_eq!(
        refusal(&counted),
        "append entries count 2 exceeds the remaining frame boundary"
    );
    let mut tagged = append.clone();
    let at = tagged.len() - 9;
    tagged[at] = 5;
    assert_eq!(refusal(&tagged), "invalid entry type encoding 5");
}

#[test]
fn sizes_are_counted_without_overflow() {
    let entry = LogEntry::normal(8, 16, vec![0x4d; 1000]);
    assert_eq!(add_log_entry_len(44, &entry).unwrap(), 44 + 25 + 1000);
    assert!(matches!(
        add_log_entry_len(usize::MAX - 1024, &entry),
        Err(Error::Corruption(_))
    ));
    let message = Message::AppendEntries(AppendEntriesReq {
        term: 8,
        leader_id: 9,
        prev_log_index: 15,
        prev_log_term: 7,
        entries: vec![entry],
        leader_commit: 15,
    });
    assert_eq!(serialized_frame_len(&message).unwrap(), 52 + 25 + 1000);
}

#[test]
fn field_by_field_the_same_is_refused() {
    for message in codec_messages() {
        let whole = payload(&message);
        assert_eq!(taken_in(&whole).unwrap(), message);
        for n in 0..whole.len() {
            assert_eq!(taken_in(&whole[..n]).unwrap_err().0, refusal(&whole[..n]));
        }
        for at in 0..whole.len() {
            for value in [0, 1, 2, 255] {
                let mut changed = whole.clone();
                changed[at] = value;
                match read_message(&changed) {
                    Ok(decoded) => assert_eq!(taken_in(&changed).unwrap(), decoded),
                    Err(_) => assert_eq!(taken_in(&changed).unwrap_err().0, refusal(&changed)),
                }
            }
        }
        let mut longer = whole.clone();
        longer.push(0);
        assert_eq!(taken_in(&longer).unwrap_err().0, refusal(&longer));
    }
}

#[test]
fn a_payload_is_refused_at_its_first_wrong_field() {
    let mut unknown = payload(&all_messages()[4]);
    unknown[0] = 9;
    assert_eq!(
        taken_in(&unknown).unwrap_err(),
        ("invalid bincode Message variant 9".to_string(), 4)
    );

    let mut vote = payload(&all_messages()[1]);
    vote[12] = 7;
    assert_eq!(
        taken_in(&vote).unwrap_err(),
        ("invalid bincode boolean encoding 7".to_string(), 13)
    );

    let mut install = payload(&all_messages()[4]);
    install[36..44].copy_from_slice(&1000u64.to_le_bytes());
    assert_eq!(
        taken_in(&install).unwrap_err(),
        (
            "message byte sequence length 1000 exceeds 22 remaining frame bytes".to_string(),
            44
        )
    );

    let mut counted = payload(&all_messages()[2]);
    counted[36..44].copy_from_slice(&2u64.to_le_bytes());
    assert_eq!(
        taken_in(&counted).unwrap_err(),
        (
            "append entries count 2 exceeds the remaining frame boundary".to_string(),
            44
        )
    );

    assert_eq!(
        taken_in(&[5, 0, 0, 0, 1, 2, 3]).unwrap_err(),
        (
            "message field requires 8 bytes but only 3 frame bytes remain".to_string(),
            4
        )
    );
}
