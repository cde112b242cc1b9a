//! The life of a node: starting, ticking, restarting.

use cairn::raft::node::{Config, RaftCore, Role};
use cairn::raft::rpc::{AppendEntriesResp, InstallSnapshotReq, Message, RequestVoteResp};
use cairn::raft::storage::{MemStorage, RaftStorage};
use cairn::raft::types::NodeId;

fn cfg(id: NodeId, peers: &[NodeId]) -> Config {
    Config {
        id,
        peers: peers.to_vec(),
        election_timeout: 10,
        heartbeat_interval: 3,
        seed: 42,
    }
}

#[test]
fn new_starts_as_follower_term0() {
    let c = RaftCore::new(cfg(1, &[1, 2, 3]), MemStorage::default()).unwrap();
    assert_eq!(c.role(), Role::Follower);
    assert_eq!(c.current_term(), 0);
    assert_eq!(c.leader_id(), None);
}

#[test]
fn ready_drains_and_resets() {
    let mut c = RaftCore::new(cfg(1, &[1, 2, 3]), MemStorage::default()).unwrap();
    let r1 = c.ready();
    assert!(r1.messages.is_empty() && r1.apply.is_empty() && r1.reads.is_empty());
}

#[test]
fn follower_starts_prevote_after_election_timeout() {
    let mut c = RaftCore::new(cfg(1, &[1, 2, 3]), MemStorage::default()).unwrap();
    for _ in 0..40 {
        c.tick().unwrap();
    }
    assert_eq!(c.role(), Role::PreCandidate);
    let r = c.ready();
    assert!(r.messages.iter().any(|(_, m)| matches!(
        m, Message::RequestVote(rv) if rv.pre_vote && rv.term == 1)));
}

#[test]
fn restart_recovers_persisted_state_and_loses_no_committed_entry() {
    let config = cfg(1, &[1, 2, 3]);
    let mut core = RaftCore::new(config.clone(), MemStorage::default()).unwrap();

    for _ in 0..40 {
        core.tick().unwrap();
    }
    assert_eq!(core.role(), Role::PreCandidate);
    let _ = core.ready();
    core.step(
        2,
        Message::RequestVoteResp(RequestVoteResp {
            term: 0,
            vote_granted: true,
            pre_vote: true,
        }),
    )
    .unwrap();
    assert_eq!(core.role(), Role::Candidate);
    let _ = core.ready();
    core.step(
        2,
        Message::RequestVoteResp(RequestVoteResp {
            term: 1,
            vote_granted: true,
            pre_vote: false,
        }),
    )
    .unwrap();
    assert_eq!(core.role(), Role::Leader);
    let _ = core.ready();

    assert_eq!(core.propose(b"set x=1".to_vec()).unwrap(), Some(2));
    assert_eq!(core.propose(b"set y=2".to_vec()).unwrap(), Some(3));
    let _ = core.ready();

    let term = core.current_term();
    let success = || {
        Message::AppendEntriesResp(AppendEntriesResp {
            term,
            success: true,
            conflict_index: None,
        })
    };
    core.step(2, success()).unwrap();
    core.step(2, success()).unwrap();
    core.step(2, success()).unwrap();

    let pre_term = core.current_term();
    let pre_commit = core.commit_index();
    let pre_voted_for = core.stored_hard_state().voted_for;
    let pre_last_index = core.storage.last_index();
    let pre_last_term = core.storage.last_term();
    let pre_entries = core.storage.entries_from(1);
    assert_eq!(pre_term, 1);
    assert_eq!(pre_commit, 3);
    assert_eq!(pre_voted_for, Some(1));
    assert_eq!(pre_last_index, 3);
    assert_eq!(pre_last_term, 1);
    assert_eq!(pre_entries.len(), 3);
    let pre_ready = core.ready();
    assert_eq!(pre_ready.apply.len(), 3);

    let storage = core.into_storage();
    let restarted = RaftCore::new(config, storage).unwrap();

    assert_eq!(restarted.current_term(), pre_term);
    assert_eq!(restarted.stored_hard_state().voted_for, pre_voted_for);
    assert_eq!(restarted.storage.last_index(), pre_last_index);
    assert_eq!(restarted.storage.last_term(), pre_last_term);

    assert_eq!(restarted.storage.entries_from(1), pre_entries);

    assert_eq!(restarted.role(), Role::Follower);
    assert_eq!(restarted.commit_index(), 0);
    assert_ne!(restarted.commit_index(), pre_commit);
    assert_eq!(restarted.last_applied, 0);
}

#[test]
fn install_snapshot_is_ignored_not_panicked() {
    let mut c = RaftCore::new(cfg(1, &[1, 2, 3]), MemStorage::default()).unwrap();
    let msg = Message::InstallSnapshot(InstallSnapshotReq {
        term: 1,
        leader_id: 2,
        last_index: 0,
        last_term: 0,
        data: vec![],
        config: vec![],
    });
    assert!(c.step(2, msg).is_ok());
}
