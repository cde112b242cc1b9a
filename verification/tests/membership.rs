//! Adding and removing voters.

use std::collections::BTreeSet;

use cairn::raft::node::{ConfChange, Config, RaftCore, Role};
use cairn::raft::node::membership::{decode_voters, encode_voters};
use cairn::raft::rpc::{AppendEntriesReq, AppendEntriesResp, Message, RequestVoteResp};
use cairn::raft::storage::{MemStorage, RaftStorage};
use cairn::raft::types::{EntryType, LogEntry, NodeId, Term};

fn cfg(id: NodeId, peers: &[NodeId]) -> Config {
    Config {
        id,
        peers: peers.to_vec(),
        election_timeout: 10,
        heartbeat_interval: 3,
        seed: 42,
    }
}

fn success_resp(term: Term) -> Message {
    Message::AppendEntriesResp(AppendEntriesResp {
        term,
        success: true,
        conflict_index: None,
    })
}

fn elect_leader(id: NodeId, peers: &[NodeId]) -> RaftCore<MemStorage> {
    let mut c = RaftCore::new(cfg(id, peers), MemStorage::default()).unwrap();
    for _ in 0..40 {
        c.tick().unwrap();
    }
    let _ = c.ready();
    let others: Vec<NodeId> = peers.iter().copied().filter(|&p| p != id).collect();
    c.step(
        others[0],
        Message::RequestVoteResp(RequestVoteResp {
            term: 0,
            vote_granted: true,
            pre_vote: true,
        }),
    )
    .unwrap();
    let _ = c.ready();
    c.step(
        others[0],
        Message::RequestVoteResp(RequestVoteResp {
            term: 1,
            vote_granted: true,
            pre_vote: false,
        }),
    )
    .unwrap();
    assert_eq!(c.role(), Role::Leader);
    let _ = c.ready();
    c
}

fn elect_leader_with_committed_noop(id: NodeId, peers: &[NodeId]) -> RaftCore<MemStorage> {
    let mut c = elect_leader(id, peers);
    let term = c.current_term();
    let others: Vec<NodeId> = peers.iter().copied().filter(|&p| p != id).collect();
    for peer in others {
        c.step(peer, success_resp(term)).unwrap();
    }
    let _ = c.ready();
    assert_eq!(c.commit_index(), 1);
    c
}

#[test]
fn encode_decode_voters_round_trips() {
    let voters: BTreeSet<NodeId> = [1, 2, 3, 9999].into_iter().collect();
    let bytes = encode_voters(&voters);
    assert_eq!(decode_voters(&bytes).unwrap(), voters);
}

#[test]
fn encode_decode_empty_voters_round_trips() {
    let voters: BTreeSet<NodeId> = BTreeSet::new();
    let bytes = encode_voters(&voters);
    assert_eq!(decode_voters(&bytes).unwrap(), voters);
}

#[test]
fn decode_malformed_voters_is_corruption_not_panic() {
    assert!(decode_voters(&[]).is_err());
    assert!(decode_voters(&[1, 2, 3]).is_err());
    let mut bad = (2u32).to_le_bytes().to_vec();
    bad.extend_from_slice(&1u64.to_le_bytes());
    assert!(decode_voters(&bad).is_err());
}

#[test]
fn propose_conf_change_when_not_leader_returns_none() {
    let mut c = RaftCore::new(cfg(2, &[1, 2, 3]), MemStorage::default()).unwrap();
    assert_eq!(
        c.propose_conf_change(ConfChange::AddVoter(4)).unwrap(),
        None
    );
}

#[test]
fn add_voter_appends_config_change_and_voters_immediately_include_it() {
    let mut c = elect_leader(1, &[1, 2, 3]);
    let idx = c.propose_conf_change(ConfChange::AddVoter(4)).unwrap();
    assert_eq!(idx, Some(2));

    assert_eq!(c.voters(), vec![1, 2, 3, 4]);

    let entries = c.storage.entries_from(2);
    assert_eq!(entries.len(), 1);
    assert_eq!(entries[0].entry_type, EntryType::ConfigChange);
    assert_eq!(
        decode_voters(&entries[0].command).unwrap(),
        c.voters().into_iter().collect()
    );
}

#[test]
fn add_voter_grows_quorum_size() {
    let mut c = elect_leader(1, &[1, 2, 3]);
    assert_eq!(c.quorum(), 2);

    c.propose_conf_change(ConfChange::AddVoter(4)).unwrap();
    assert_eq!(c.quorum(), 3);
}

#[test]
fn add_voter_seeds_replication_state_for_the_new_node() {
    let mut c = elect_leader(1, &[1, 2, 3]);
    let last_index_before = c.storage.last_index();
    c.propose_conf_change(ConfChange::AddVoter(4)).unwrap();

    assert_eq!(c.match_index_of(4), 0);
    assert_eq!(c.next_index.get(&4).copied(), Some(last_index_before + 2));
}

#[test]
fn remove_voter_of_non_member_is_a_no_op_refusal() {
    let mut c = elect_leader(1, &[1, 2, 3]);
    assert_eq!(
        c.propose_conf_change(ConfChange::RemoveVoter(99)).unwrap(),
        None
    );
    assert_eq!(c.voters(), vec![1, 2, 3]);
}

#[test]
fn add_voter_of_existing_member_is_a_no_op_refusal() {
    let mut c = elect_leader(1, &[1, 2, 3]);
    assert_eq!(
        c.propose_conf_change(ConfChange::AddVoter(2)).unwrap(),
        None
    );
}

#[test]
fn second_propose_before_first_commits_is_refused() {
    let mut c = elect_leader(1, &[1, 2, 3]);
    assert!(c
        .propose_conf_change(ConfChange::AddVoter(4))
        .unwrap()
        .is_some());
    assert_eq!(
        c.propose_conf_change(ConfChange::AddVoter(5)).unwrap(),
        None
    );
    assert_eq!(c.voters(), vec![1, 2, 3, 4]);
}

#[test]
fn config_survives_compaction_and_restart() {
    let mut c = elect_leader_with_committed_noop(1, &[1, 2, 3]);
    let term = c.current_term();

    assert!(c
        .propose_conf_change(ConfChange::AddVoter(4))
        .unwrap()
        .is_some());
    let _ = c.ready();
    c.step(2, success_resp(term)).unwrap();
    c.step(3, success_resp(term)).unwrap();
    assert_eq!(c.commit_index(), 2);
    assert_eq!(c.last_applied, 2);
    assert_eq!(c.voters(), vec![1, 2, 3, 4]);

    c.compact(2, b"state".to_vec()).unwrap();
    assert_eq!(c.storage.entries_from(1).len(), 0);

    let storage = c.into_storage();
    let restarted = RaftCore::new(cfg(1, &[1, 2, 3]), storage).unwrap();

    assert_eq!(restarted.voters(), vec![1, 2, 3, 4]);
    assert_eq!(restarted.quorum(), 3);
}

#[test]
fn config_survives_compaction_with_empty_snapshot_payload() {
    let mut c = elect_leader_with_committed_noop(1, &[1, 2, 3]);
    let term = c.current_term();

    assert!(c
        .propose_conf_change(ConfChange::AddVoter(4))
        .unwrap()
        .is_some());
    let _ = c.ready();
    c.step(2, success_resp(term)).unwrap();
    c.step(3, success_resp(term)).unwrap();
    assert_eq!(c.commit_index(), 2);
    assert_eq!(c.last_applied, 2);
    assert_eq!(c.voters(), vec![1, 2, 3, 4]);

    c.compact(2, vec![]).unwrap();
    assert_eq!(c.storage.entries_from(1).len(), 0);

    let storage = c.into_storage();
    let restarted = RaftCore::new(cfg(1, &[1, 2, 3]), storage).unwrap();

    assert_eq!(restarted.voters(), vec![1, 2, 3, 4]);
    assert_eq!(restarted.quorum(), 3);
}

#[test]
fn propose_conf_change_allowed_again_once_prior_change_commits() {
    let mut c = elect_leader_with_committed_noop(1, &[1, 2, 3]);
    let term = c.current_term();
    c.propose_conf_change(ConfChange::AddVoter(4)).unwrap();
    let _ = c.ready();

    c.step(2, success_resp(term)).unwrap();
    c.step(3, success_resp(term)).unwrap();
    assert_eq!(c.commit_index(), 2);

    assert!(c
        .propose_conf_change(ConfChange::AddVoter(5))
        .unwrap()
        .is_some());
    assert_eq!(c.voters(), vec![1, 2, 3, 4, 5]);
}

#[test]
fn committing_remove_voter_self_steps_the_leader_down() {
    let mut c = elect_leader_with_committed_noop(1, &[1, 2, 3]);
    let term = c.current_term();

    c.propose_conf_change(ConfChange::RemoveVoter(1)).unwrap();
    let _ = c.ready();
    assert_eq!(c.role(), Role::Leader, "must not step down on append alone");
    assert_eq!(c.voters(), vec![2, 3]);

    c.step(2, success_resp(term)).unwrap();
    assert_eq!(
        c.role(),
        Role::Leader,
        "one ack is not yet a quorum of {{2,3}}"
    );
    c.step(3, success_resp(term)).unwrap();

    assert_eq!(c.commit_index(), 2);
    assert_eq!(
        c.role(),
        Role::Follower,
        "must step down once its own removal commits"
    );
    assert_eq!(c.leader_id(), None);
}

#[test]
fn committing_a_conf_change_that_keeps_self_does_not_step_down() {
    let mut c = elect_leader_with_committed_noop(1, &[1, 2, 3]);
    let term = c.current_term();
    c.propose_conf_change(ConfChange::AddVoter(4)).unwrap();
    let _ = c.ready();

    c.step(2, success_resp(term)).unwrap();
    c.step(3, success_resp(term)).unwrap();
    assert_eq!(c.commit_index(), 2);
    assert_eq!(c.role(), Role::Leader);
}

#[test]
fn truncation_that_removes_a_config_entry_reverts_voters() {
    let mut s = MemStorage::default();
    let voters: BTreeSet<NodeId> = [1, 2, 3, 4].into_iter().collect();
    s.append(&[
        LogEntry::normal(1, 1, vec![]),
        LogEntry::config_change(1, 2, encode_voters(&voters)),
    ])
    .unwrap();
    let mut c = RaftCore::new(cfg(2, &[1, 2, 3]), s).unwrap();
    assert_eq!(c.voters(), vec![1, 2, 3, 4]);

    c.step(
        1,
        Message::AppendEntries(AppendEntriesReq {
            term: 2,
            leader_id: 1,
            prev_log_index: 1,
            prev_log_term: 1,
            entries: vec![LogEntry::normal(2, 2, vec![7])],
            leader_commit: 0,
        }),
    )
    .unwrap();
    let r = c.ready();
    assert!(r
        .messages
        .iter()
        .any(|(_, m)| matches!(m, Message::AppendEntriesResp(a) if a.success)));

    assert_eq!(c.voters(), vec![1, 2, 3]);
}

#[test]
fn follower_adopts_conf_change_via_append_entries() {
    let mut c = RaftCore::new(cfg(2, &[1, 2, 3]), MemStorage::default()).unwrap();
    assert_eq!(c.voters(), vec![1, 2, 3]);

    let voters: BTreeSet<NodeId> = [1, 2, 3, 4].into_iter().collect();
    c.step(
        1,
        Message::AppendEntries(AppendEntriesReq {
            term: 1,
            leader_id: 1,
            prev_log_index: 0,
            prev_log_term: 0,
            entries: vec![LogEntry::config_change(1, 1, encode_voters(&voters))],
            leader_commit: 0,
        }),
    )
    .unwrap();
    let r = c.ready();
    assert!(r
        .messages
        .iter()
        .any(|(_, m)| matches!(m, Message::AppendEntriesResp(a) if a.success)));

    assert_eq!(c.voters(), vec![1, 2, 3, 4]);
    assert_eq!(c.quorum(), 3);
}
