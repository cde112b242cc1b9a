//! The store in memory.

use cairn::raft::storage::{MemStorage, RaftStorage};
use cairn::raft::types::{HardState, LogEntry, LogIndex, SnapshotMeta, Term};

fn e(term: Term, index: LogIndex) -> LogEntry {
    LogEntry::normal(term, index, vec![])
}

#[test]
fn empty_storage_is_index0_term0() {
    let s = MemStorage::default();
    assert_eq!(s.last_index(), 0);
    assert_eq!(s.last_term(), 0);
    assert_eq!(s.term(0).unwrap(), None);
    assert_eq!(s.hard_state(), HardState::default());
}

#[test]
fn append_then_read_back() {
    let mut s = MemStorage::default();
    s.append(&[e(1, 1), e(1, 2), e(2, 3)]).unwrap();
    assert_eq!(s.last_index(), 3);
    assert_eq!(s.last_term(), 2);
    assert_eq!(s.term(2).unwrap(), Some(1));
    assert_eq!(s.term(3).unwrap(), Some(2));
    assert_eq!(s.term(4).unwrap(), None);
    assert_eq!(s.entries_from(2), vec![e(1, 2), e(2, 3)]);
}

#[test]
fn noncontiguous_append_is_corruption() {
    let mut s = MemStorage::default();
    assert!(s.append(&[e(1, 2)]).is_err());
}

#[test]
fn truncate_suffix_drops_from_index() {
    let mut s = MemStorage::default();
    s.append(&[e(1, 1), e(1, 2), e(1, 3)]).unwrap();
    s.truncate_suffix(2).unwrap();
    assert_eq!(s.last_index(), 1);
    assert_eq!(s.term(2).unwrap(), None);
    s.truncate_suffix(9).unwrap();
    assert_eq!(s.last_index(), 1);
}

#[test]
fn save_and_load_hard_state() {
    let mut s = MemStorage::default();
    let hs = HardState {
        current_term: 4,
        voted_for: Some(2),
    };
    s.save_hard_state(&hs).unwrap();
    assert_eq!(s.hard_state(), hs);
}

#[test]
fn save_and_read_snapshot_compacts_log() {
    let mut s = MemStorage::default();
    s.append(&[e(1, 1), e(1, 2), e(1, 3)]).unwrap();
    s.save_snapshot(
        SnapshotMeta {
            last_index: 2,
            last_term: 1,
        },
        b"snap",
        b"",
    )
    .unwrap();
    assert_eq!(
        s.snapshot_meta(),
        SnapshotMeta {
            last_index: 2,
            last_term: 1
        }
    );
    assert_eq!(
        s.read_snapshot().unwrap(),
        Some((
            SnapshotMeta {
                last_index: 2,
                last_term: 1
            },
            b"snap".to_vec(),
            b"".to_vec()
        ))
    );
    assert_eq!(s.last_index(), 3);
    assert_eq!(s.term(2).unwrap(), Some(1));
    assert_eq!(s.term(3).unwrap(), Some(1));
    assert_eq!(s.entries_from(3), vec![e(1, 3)]);
}

#[test]
fn snapshot_superseding_a_shorter_log_clears_it() {
    let mut s = MemStorage::default();
    s.append(&[e(1, 1)]).unwrap();
    s.save_snapshot(
        SnapshotMeta {
            last_index: 5,
            last_term: 2,
        },
        b"x",
        b"",
    )
    .unwrap();
    assert_eq!(s.last_index(), 5);
    assert_eq!(s.entries_from(1), vec![]);
    assert_eq!(s.term(5).unwrap(), Some(2));
}

#[test]
fn snapshot_cannot_move_backwards() {
    let mut s = MemStorage::default();
    s.save_snapshot(
        SnapshotMeta {
            last_index: 5,
            last_term: 1,
        },
        b"a",
        b"",
    )
    .unwrap();
    assert!(s
        .save_snapshot(
            SnapshotMeta {
                last_index: 3,
                last_term: 1
            },
            b"b",
            b""
        )
        .is_err());
}
