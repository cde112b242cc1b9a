//! Reads that wait until a majority has vouched for the leader.

use cairn::raft::node::{Config, RaftCore, Role};
use cairn::raft::rpc::{AppendEntriesReq, AppendEntriesResp, Message, RequestVoteResp};
use cairn::raft::storage::{MemStorage, RaftStorage};
use cairn::raft::types::{HardState, NodeId, Term};

fn cfg(id: NodeId, peers: &[NodeId]) -> Config {
    Config {
        id,
        peers: peers.to_vec(),
        election_timeout: 10,
        heartbeat_interval: 3,
        seed: 42,
    }
}

fn success_resp(term: Term) -> Message {
    Message::AppendEntriesResp(AppendEntriesResp {
        term,
        success: true,
        conflict_index: None,
    })
}

fn elect_leader(id: NodeId, peers: &[NodeId]) -> RaftCore<MemStorage> {
    let mut c = RaftCore::new(cfg(id, peers), MemStorage::default()).unwrap();
    for _ in 0..40 {
        c.tick().unwrap();
    }
    let _ = c.ready();
    let others: Vec<NodeId> = peers.iter().copied().filter(|&p| p != id).collect();
    c.step(
        others[0],
        Message::RequestVoteResp(RequestVoteResp {
            term: 0,
            vote_granted: true,
            pre_vote: true,
        }),
    )
    .unwrap();
    let _ = c.ready();
    c.step(
        others[0],
        Message::RequestVoteResp(RequestVoteResp {
            term: 1,
            vote_granted: true,
            pre_vote: false,
        }),
    )
    .unwrap();
    assert_eq!(c.role(), Role::Leader);
    let _ = c.ready();
    c
}

#[test]
fn read_on_follower_is_never_released() {
    let mut c = RaftCore::new(cfg(2, &[1, 2, 3]), MemStorage::default()).unwrap();
    assert_eq!(c.role(), Role::Follower);
    c.read_index(7).unwrap();
    assert!(c.pending_reads.is_empty(), "follower must not queue reads");
    for _ in 0..60 {
        c.tick().unwrap();
        let r = c.ready();
        assert!(!r.reads.contains(&7));
    }
}

#[test]
fn read_waits_for_current_term_commit() {
    let mut c = RaftCore::new(cfg(1, &[1, 2, 3]), MemStorage::default()).unwrap();
    c.storage
        .save_hard_state(&HardState {
            current_term: 1,
            voted_for: Some(1),
        })
        .unwrap();
    c.role = Role::Leader;
    c.leader_id = Some(1);
    assert_eq!(c.readable_term, None);

    c.read_index(7).unwrap();
    assert_eq!(c.pending_reads.len(), 1);

    c.ack_count.insert(2, 1);
    c.tick().unwrap();
    assert!(
        c.ready().reads.is_empty(),
        "must not release before a current-term entry has applied"
    );
    assert_eq!(c.pending_reads.len(), 1, "read must remain pending");

    c.readable_term = Some(1);
    c.last_applied = 0;
    c.tick().unwrap();
    let r = c.ready();
    assert_eq!(r.reads, vec![7]);
}

#[test]
fn read_waits_for_quorum_contact_after_registration() {
    let mut c = elect_leader(1, &[1, 2, 3]);
    let term = c.current_term();

    c.step(2, success_resp(term)).unwrap();
    let _ = c.ready();
    assert_eq!(c.readable_term, Some(term));
    assert_eq!(c.commit_index(), 1);

    c.read_index(9).unwrap();
    assert_eq!(c.pending_reads.len(), 1);
    let barrier = c.pending_reads[0].barrier.get(&2).copied().unwrap_or(0);
    assert!(c.ack_count_of(2) <= barrier);

    c.tick().unwrap();
    assert!(
        c.ready().reads.is_empty(),
        "must not release without post-registration quorum contact"
    );

    c.tick().unwrap();
    c.step(2, success_resp(term)).unwrap();
    let r = c.ready();
    assert_eq!(r.reads, vec![9]);
}

#[test]
fn read_dropped_on_step_down() {
    let mut c = elect_leader(1, &[1, 2, 3]);
    let term = c.current_term();

    c.step(2, success_resp(term)).unwrap();
    let _ = c.ready();
    c.read_index(11).unwrap();
    assert_eq!(c.pending_reads.len(), 1);

    c.step(
        3,
        Message::AppendEntries(AppendEntriesReq {
            term: term + 1,
            leader_id: 3,
            prev_log_index: c.commit_index(),
            prev_log_term: term,
            entries: vec![],
            leader_commit: c.commit_index(),
        }),
    )
    .unwrap();
    assert_eq!(c.role(), Role::Follower);

    c.tick().unwrap();
    assert!(
        c.pending_reads.is_empty(),
        "stepped-down leader must drop pending reads"
    );

    for _ in 0..60 {
        c.tick().unwrap();
        let r = c.ready();
        assert!(!r.reads.contains(&11), "must never release a dropped read");
    }
}

#[test]
fn released_token_echoes_input() {
    let mut c = elect_leader(1, &[1, 2, 3]);
    let term = c.current_term();

    c.step(2, success_resp(term)).unwrap();
    let _ = c.ready();

    c.read_index(42).unwrap();
    c.tick().unwrap();
    c.step(2, success_resp(term)).unwrap();

    let r = c.ready();
    assert_eq!(r.reads, vec![42]);
}

fn leader_at_term(term: Term) -> RaftCore<MemStorage> {
    let mut s = MemStorage::default();
    s.save_hard_state(&HardState {
        current_term: term,
        voted_for: Some(1),
    })
    .unwrap();
    let mut c = RaftCore::new(cfg(1, &[1, 2, 3]), s).unwrap();
    c.role = Role::Leader;
    c.leader_id = Some(1);
    c.readable_term = Some(term);
    c
}

#[test]
fn stale_term_append_resp_does_not_release_read() {
    let term: Term = 5;
    let mut c = leader_at_term(term);

    c.read_index(99).unwrap();
    assert_eq!(c.pending_reads.len(), 1);

    c.tick().unwrap();
    c.step(
        2,
        Message::AppendEntriesResp(AppendEntriesResp {
            term: term - 1,
            success: true,
            conflict_index: None,
        }),
    )
    .unwrap();

    for _ in 0..10 {
        c.tick().unwrap();
        let r = c.ready();
        assert!(
            r.reads.is_empty(),
            "stale-term AppendEntriesResp must not release a pending read"
        );
    }
    assert_eq!(c.pending_reads.len(), 1, "read must remain pending");
}

#[test]
fn current_term_append_resp_still_releases_read() {
    let term: Term = 5;
    let mut c = leader_at_term(term);

    c.read_index(100).unwrap();
    assert_eq!(c.pending_reads.len(), 1);

    c.tick().unwrap();
    c.step(2, success_resp(term)).unwrap();

    let r = c.ready();
    assert_eq!(r.reads, vec![100]);
}

#[test]
fn read_not_released_when_readable_term_is_stale() {
    let term: Term = 5;
    let mut c = leader_at_term(term);
    c.readable_term = Some(term - 1);

    c.read_index(55).unwrap();
    assert_eq!(c.pending_reads.len(), 1);

    c.tick().unwrap();
    c.step(2, success_resp(term)).unwrap();

    let r = c.ready();
    assert!(
        r.reads.is_empty(),
        "a stale readable_term must not open the node for reads"
    );
    assert_eq!(c.pending_reads.len(), 1);
}

#[test]
fn only_an_answer_after_the_read_was_asked_for_counts() {
    let mut c = RaftCore::new(cfg(1, &[1, 2, 3, 4, 5]), MemStorage::default()).unwrap();
    for _ in 0..40 {
        c.tick().unwrap();
    }
    for (term, pre_vote) in [(0, true), (1, false)] {
        for peer in [2, 3] {
            let grant = RequestVoteResp {
                term,
                vote_granted: true,
                pre_vote,
            };
            c.step(peer, Message::RequestVoteResp(grant)).unwrap();
        }
    }
    assert_eq!(c.role(), Role::Leader);
    let term = c.current_term();
    c.step(2, success_resp(term)).unwrap();
    c.step(3, success_resp(term)).unwrap();
    assert_eq!(c.ready().apply.len(), 1);
    for _ in 0..3 {
        c.tick().unwrap();
    }
    let _ = c.ready();

    c.read_index(5).unwrap();
    // The heartbeat went out before the read: its answers do not count.
    c.step(2, success_resp(term)).unwrap();
    c.step(3, success_resp(term)).unwrap();
    assert!(c.ready().reads.is_empty());

    c.step(2, success_resp(term)).unwrap();
    c.step(2, success_resp(term)).unwrap();
    assert!(c.ready().reads.is_empty(), "one peer is no majority of five");
    c.step(3, success_resp(term)).unwrap();
    assert_eq!(c.ready().reads, vec![5]);
    assert!(c.ready().reads.is_empty());
}

#[test]
fn a_new_leadership_answers_no_read_of_the_old_one() {
    let mut c = elect_leader(1, &[1, 2, 3]);
    let term = c.current_term();
    c.step(2, success_resp(term)).unwrap();
    let _ = c.ready();
    c.read_index(11).unwrap();
    c.step(
        3,
        Message::AppendEntries(AppendEntriesReq {
            term: term + 1,
            leader_id: 3,
            prev_log_index: c.commit_index(),
            prev_log_term: term,
            entries: vec![],
            leader_commit: c.commit_index(),
        }),
    )
    .unwrap();
    let granted = |term: Term, pre_vote: bool| {
        Message::RequestVoteResp(RequestVoteResp {
            term,
            vote_granted: true,
            pre_vote,
        })
    };
    for _ in 0..40 {
        c.tick().unwrap();
    }
    c.step(2, granted(term + 1, true)).unwrap();
    c.step(2, granted(term + 2, false)).unwrap();
    assert_eq!(c.role(), Role::Leader);
    c.step(2, success_resp(term + 2)).unwrap();
    assert_eq!(c.readable_term, Some(term + 2));
    for _ in 0..9 {
        c.tick().unwrap();
        c.step(2, success_resp(term + 2)).unwrap();
    }
    assert!(c.ready().reads.is_empty());
}
