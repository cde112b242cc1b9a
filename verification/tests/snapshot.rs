//! Compacting the log, and catching up from a snapshot.

use cairn::raft::node::{ConfChange, Config, RaftCore, Role};
use cairn::raft::node::membership::encode_voters;
use cairn::raft::rpc::{
    AppendEntriesReq, AppendEntriesResp, InstallSnapshotReq, InstallSnapshotResp, Message,
    RequestVoteResp,
};
use cairn::raft::storage::{MemStorage, RaftStorage};
use cairn::raft::types::{HardState, LogEntry, NodeId, SnapshotMeta, Term};

fn voters_bytes(ids: &[NodeId]) -> Vec<u8> {
    encode_voters(&ids.iter().copied().collect())
}

fn cfg(id: NodeId, peers: &[NodeId]) -> Config {
    Config {
        id,
        peers: peers.to_vec(),
        election_timeout: 10,
        heartbeat_interval: 3,
        seed: 42,
    }
}

fn elect_leader(id: NodeId, peers: &[NodeId]) -> RaftCore<MemStorage> {
    let mut c = RaftCore::new(cfg(id, peers), MemStorage::default()).unwrap();
    for _ in 0..40 {
        c.tick().unwrap();
    }
    let _ = c.ready();
    let others: Vec<NodeId> = peers.iter().copied().filter(|&p| p != id).collect();
    c.step(
        others[0],
        Message::RequestVoteResp(RequestVoteResp {
            term: 0,
            vote_granted: true,
            pre_vote: true,
        }),
    )
    .unwrap();
    let _ = c.ready();
    c.step(
        others[0],
        Message::RequestVoteResp(RequestVoteResp {
            term: 1,
            vote_granted: true,
            pre_vote: false,
        }),
    )
    .unwrap();
    assert_eq!(c.role(), Role::Leader);
    let _ = c.ready();
    c
}

fn leader_with_committed_entries() -> RaftCore<MemStorage> {
    let mut c = elect_leader(1, &[1, 2, 3]);
    assert_eq!(c.propose(b"set x=1".to_vec()).unwrap(), Some(2));
    assert_eq!(c.propose(b"set y=2".to_vec()).unwrap(), Some(3));
    let _ = c.ready();

    let term = c.current_term();
    let success = || {
        Message::AppendEntriesResp(AppendEntriesResp {
            term,
            success: true,
            conflict_index: None,
        })
    };
    c.step(2, success()).unwrap();
    c.step(2, success()).unwrap();
    c.step(2, success()).unwrap();
    let _ = c.ready();

    assert_eq!(c.commit_index(), 3);
    assert_eq!(c.last_applied, 3);
    c
}

#[test]
fn compact_beyond_last_applied_is_rejected() {
    let mut c = leader_with_committed_entries();
    assert!(c.compact(4, b"snap".to_vec()).is_err());
    assert_eq!(c.storage.snapshot_meta(), SnapshotMeta::default());
}

#[test]
fn compact_at_or_below_current_snapshot_is_rejected() {
    let mut c = leader_with_committed_entries();
    assert!(c.compact(0, b"snap".to_vec()).is_err());
}

#[test]
fn second_compact_at_or_before_prior_snapshot_is_rejected() {
    let mut c = leader_with_committed_entries();
    c.compact(2, b"first".to_vec()).unwrap();
    assert!(c.compact(2, b"second".to_vec()).is_err());
    assert!(c.compact(1, b"second".to_vec()).is_err());
    assert_eq!(
        c.storage.read_snapshot().unwrap(),
        Some((
            SnapshotMeta {
                last_index: 2,
                last_term: 1
            },
            b"first".to_vec(),
            voters_bytes(&[1, 2, 3])
        ))
    );
}

#[test]
fn compact_at_exactly_last_applied_is_allowed() {
    let mut c = leader_with_committed_entries();
    assert_eq!(c.last_applied, 3);
    c.compact(3, b"state".to_vec()).unwrap();
    assert_eq!(c.storage.snapshot_meta().last_index, 3);
}

#[test]
fn leader_sends_install_snapshot_to_peer_behind_snapshot_base() {
    let mut c = leader_with_committed_entries();
    c.compact(2, b"state".to_vec()).unwrap();

    c.broadcast_append().unwrap();
    let r = c.ready();

    let to_3 = r
        .messages
        .iter()
        .find(|(to, _)| *to == 3)
        .map(|(_, m)| m.clone())
        .expect("peer 3 must receive something");
    match to_3 {
        Message::InstallSnapshot(req) => {
            assert_eq!(req.last_index, 2);
            assert_eq!(req.last_term, 1);
            assert_eq!(req.data, b"state".to_vec());
        }
        other => panic!("expected InstallSnapshot to peer 3, got {other:?}"),
    }

    let to_2 = r
        .messages
        .iter()
        .find(|(to, _)| *to == 2)
        .map(|(_, m)| m.clone())
        .expect("peer 2 must receive something");
    assert!(matches!(to_2, Message::AppendEntries(_)));
}

#[test]
fn follower_installs_fresh_snapshot_and_advances_state() {
    let mut c = RaftCore::new(cfg(2, &[1, 2, 3]), MemStorage::default()).unwrap();
    c.step(
        1,
        Message::InstallSnapshot(InstallSnapshotReq {
            term: 1,
            leader_id: 1,
            last_index: 5,
            last_term: 1,
            data: b"state".to_vec(),
            config: voters_bytes(&[1, 2, 3]),
        }),
    )
    .unwrap();
    let r = c.ready();

    assert_eq!(
        c.storage.snapshot_meta(),
        SnapshotMeta {
            last_index: 5,
            last_term: 1
        }
    );
    assert_eq!(c.commit_index(), 5);
    assert_eq!(c.last_applied, 5);
    assert_eq!(
        r.restore,
        Some((
            SnapshotMeta {
                last_index: 5,
                last_term: 1
            },
            b"state".to_vec()
        ))
    );
    assert!(r
        .messages
        .iter()
        .any(|(_, m)| matches!(m, Message::InstallSnapshotResp(resp) if resp.term == 1)));
    assert_eq!(c.leader_id(), Some(1));
}

#[test]
fn stale_install_snapshot_is_a_no_op_ack_and_does_not_regress_state() {
    let mut c = RaftCore::new(cfg(2, &[1, 2, 3]), MemStorage::default()).unwrap();
    c.step(
        1,
        Message::InstallSnapshot(InstallSnapshotReq {
            term: 1,
            leader_id: 1,
            last_index: 5,
            last_term: 1,
            data: b"state".to_vec(),
            config: voters_bytes(&[1, 2, 3]),
        }),
    )
    .unwrap();
    let _ = c.ready();
    assert_eq!(c.commit_index(), 5);

    c.step(
        1,
        Message::InstallSnapshot(InstallSnapshotReq {
            term: 1,
            leader_id: 1,
            last_index: 3,
            last_term: 1,
            data: b"stale-bogus".to_vec(),
            config: b"also-bogus".to_vec(),
        }),
    )
    .unwrap();
    let r2 = c.ready();

    assert_eq!(c.storage.snapshot_meta().last_index, 5);
    assert_eq!(c.commit_index(), 5);
    assert_eq!(c.last_applied, 5);
    assert!(r2.restore.is_none());
    assert!(r2
        .messages
        .iter()
        .any(|(_, m)| matches!(m, Message::InstallSnapshotResp(_))));
}

#[test]
fn follower_rejects_install_snapshot_from_stale_term() {
    let mut s = MemStorage::default();
    s.save_hard_state(&HardState {
        current_term: 5,
        voted_for: None,
    })
    .unwrap();
    let mut c = RaftCore::new(cfg(2, &[1, 2, 3]), s).unwrap();
    c.step(
        1,
        Message::InstallSnapshot(InstallSnapshotReq {
            term: 3,
            leader_id: 1,
            last_index: 9,
            last_term: 3,
            data: b"nope".to_vec(),
            config: b"nope-too".to_vec(),
        }),
    )
    .unwrap();
    let r = c.ready();
    assert!(r.messages.iter().any(|(_, m)| matches!(
        m, Message::InstallSnapshotResp(resp) if resp.term == 5
    )));
    assert_eq!(c.storage.snapshot_meta().last_index, 0);
    assert_eq!(c.commit_index(), 0);
    assert_eq!(c.leader_id(), None);
}

#[test]
fn install_snapshot_resp_advances_progress_and_resumes_append_entries() {
    let mut c = leader_with_committed_entries();
    c.compact(2, b"state".to_vec()).unwrap();
    c.broadcast_append().unwrap();
    let _ = c.ready();
    let term = c.current_term();

    c.step(
        3,
        Message::InstallSnapshotResp(InstallSnapshotResp { term }),
    )
    .unwrap();

    assert_eq!(c.match_index_of(3), 2);
    let r = c.ready();
    assert!(r.messages.iter().any(|(to, m)| *to == 3
        && matches!(m, Message::AppendEntries(req) if req.prev_log_index == 2)));
}

#[test]
fn install_snapshot_resp_with_higher_term_steps_leader_down() {
    let mut c = leader_with_committed_entries();
    let higher = c.current_term() + 5;

    c.step(
        3,
        Message::InstallSnapshotResp(InstallSnapshotResp { term: higher }),
    )
    .unwrap();

    assert_eq!(c.role(), Role::Follower);
    assert_eq!(c.current_term(), higher);
}

#[test]
fn install_snapshot_conveys_config() {
    let mut leader = elect_leader(1, &[1, 2, 3]);
    let term = leader.current_term();
    let ack = |t: Term| {
        Message::AppendEntriesResp(AppendEntriesResp {
            term: t,
            success: true,
            conflict_index: None,
        })
    };
    leader.step(2, ack(term)).unwrap();
    leader.step(3, ack(term)).unwrap();
    let _ = leader.ready();
    assert_eq!(leader.commit_index(), 1);

    assert!(leader
        .propose_conf_change(ConfChange::AddVoter(4))
        .unwrap()
        .is_some());
    let _ = leader.ready();
    leader.step(2, ack(term)).unwrap();
    leader.step(3, ack(term)).unwrap();
    let _ = leader.ready();
    assert_eq!(leader.commit_index(), 2);
    assert_eq!(leader.voters(), vec![1, 2, 3, 4]);

    assert!(leader
        .propose_conf_change(ConfChange::AddVoter(5))
        .unwrap()
        .is_some());
    let _ = leader.ready();
    leader.step(2, ack(term)).unwrap();
    leader.step(3, ack(term)).unwrap();
    let _ = leader.ready();
    assert_eq!(leader.commit_index(), 3);
    assert_eq!(leader.voters(), vec![1, 2, 3, 4, 5]);

    leader.compact(3, b"state".to_vec()).unwrap();

    leader.broadcast_append().unwrap();
    let r = leader.ready();
    let install = r
        .messages
        .iter()
        .find(|(to, _)| *to == 4)
        .map(|(_, m)| m.clone())
        .expect("peer 4 must receive something");
    let req = match install {
        Message::InstallSnapshot(req) => req,
        other => panic!("expected InstallSnapshot to peer 4, got {other:?}"),
    };

    let mut follower = RaftCore::new(cfg(4, &[1, 2, 3, 4]), MemStorage::default()).unwrap();
    follower.step(1, Message::InstallSnapshot(req)).unwrap();
    let _ = follower.ready();

    assert_eq!(follower.voters(), vec![1, 2, 3, 4, 5]);
}

#[test]
fn valid_compact_drops_prefix_and_preserves_committed_state() {
    let mut c = leader_with_committed_entries();
    let pre_last_index = c.storage.last_index();
    let pre_last_term = c.storage.last_term();
    let pre_commit = c.commit_index();

    c.compact(2, b"state".to_vec()).unwrap();

    assert_eq!(
        c.storage.snapshot_meta(),
        SnapshotMeta {
            last_index: 2,
            last_term: 1
        }
    );
    assert_eq!(
        c.storage.read_snapshot().unwrap(),
        Some((
            SnapshotMeta {
                last_index: 2,
                last_term: 1
            },
            b"state".to_vec(),
            voters_bytes(&[1, 2, 3])
        ))
    );
    assert_eq!(
        c.storage.entries_from(1),
        vec![LogEntry::normal(1, 3, b"set y=2".to_vec())]
    );
    assert_eq!(c.storage.last_index(), pre_last_index);
    assert_eq!(c.storage.last_term(), pre_last_term);
    assert_eq!(c.commit_index(), pre_commit);
    assert_eq!(c.last_applied, pre_commit);
    assert_eq!(c.storage.term(2).unwrap(), Some(1));
}

#[test]
fn entries_that_do_not_follow_from_a_snapshot_give_way_to_the_leader() {
    let mut storage = MemStorage::default();
    storage
        .append(
            &(1..=4)
                .map(|i| LogEntry::normal(1, i, b"stray".to_vec()))
                .collect::<Vec<_>>(),
        )
        .unwrap();
    let mut c = RaftCore::new(cfg(2, &[1, 2, 3]), storage).unwrap();
    c.step(
        1,
        Message::InstallSnapshot(InstallSnapshotReq {
            term: 3,
            leader_id: 1,
            last_index: 2,
            last_term: 3,
            data: b"state".to_vec(),
            config: voters_bytes(&[1, 2, 3]),
        }),
    )
    .unwrap();
    let _ = c.ready();
    assert_eq!(
        c.storage.snapshot_meta(),
        SnapshotMeta {
            last_index: 2,
            last_term: 3,
        }
    );
    assert_eq!(c.commit_index(), 2);
    let kept = c.storage.entries_from(3);
    assert_eq!(kept.len(), 2);
    assert!(kept.iter().all(|e| e.term == 1));

    c.step(
        1,
        Message::AppendEntries(AppendEntriesReq {
            term: 3,
            leader_id: 1,
            prev_log_index: 2,
            prev_log_term: 3,
            entries: vec![LogEntry::normal(3, 3, b"kept".to_vec())],
            leader_commit: 3,
        }),
    )
    .unwrap();
    assert_eq!(
        c.storage.entries_from(3),
        vec![LogEntry::normal(3, 3, b"kept".to_vec())]
    );
    assert_eq!(c.commit_index(), 3);
}
