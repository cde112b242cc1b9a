//! Appending, acknowledging, committing.

use cairn::raft::node::{Config, PendingRead, RaftCore, Role};
use cairn::raft::rpc::{AppendEntriesReq, AppendEntriesResp, Message, RequestVoteResp};
use cairn::raft::storage::{MemStorage, RaftStorage};
use cairn::raft::types::{HardState, LogEntry, NodeId, Term};

fn cfg(id: NodeId, peers: &[NodeId]) -> Config {
    Config {
        id,
        peers: peers.to_vec(),
        election_timeout: 10,
        heartbeat_interval: 3,
        seed: 42,
    }
}

fn elect_leader(id: NodeId, peers: &[NodeId]) -> RaftCore<MemStorage> {
    let mut c = RaftCore::new(cfg(id, peers), MemStorage::default()).unwrap();
    for _ in 0..40 {
        c.tick().unwrap();
    }
    let _ = c.ready();
    let others: Vec<NodeId> = peers.iter().copied().filter(|&p| p != id).collect();
    c.step(
        others[0],
        Message::RequestVoteResp(RequestVoteResp {
            term: 0,
            vote_granted: true,
            pre_vote: true,
        }),
    )
    .unwrap();
    let _ = c.ready();
    c.step(
        others[0],
        Message::RequestVoteResp(RequestVoteResp {
            term: 1,
            vote_granted: true,
            pre_vote: false,
        }),
    )
    .unwrap();
    assert_eq!(c.role(), Role::Leader);
    let _ = c.ready();
    c
}

#[test]
fn leader_propose_appends_and_emits_append_entries() {
    let mut c = elect_leader(1, &[1, 2, 3]);
    let idx = c.propose(b"set x".to_vec()).unwrap();
    assert_eq!(idx, Some(2));

    let r = c.ready();
    assert!(r.messages.iter().any(|(_, m)| matches!(
        m, Message::AppendEntries(req) if req.entries.iter().any(|e| e.command == b"set x")
    )));
}

#[test]
fn propose_when_not_leader_returns_none() {
    let mut c = RaftCore::new(cfg(2, &[1, 2, 3]), MemStorage::default()).unwrap();
    assert_eq!(c.propose(b"x".to_vec()).unwrap(), None);
}

#[test]
fn follower_accepts_matching_append_entries_and_appends() {
    let mut c = RaftCore::new(cfg(2, &[1, 2, 3]), MemStorage::default()).unwrap();
    c.step(
        1,
        Message::AppendEntries(AppendEntriesReq {
            term: 1,
            leader_id: 1,
            prev_log_index: 0,
            prev_log_term: 0,
            entries: vec![LogEntry::normal(1, 1, b"a".to_vec())],
            leader_commit: 0,
        }),
    )
    .unwrap();
    let r = c.ready();
    assert!(r.messages.iter().any(|(_, m)| matches!(
        m, Message::AppendEntriesResp(a) if a.success && a.term == 1 && a.conflict_index.is_none()
    )));
    assert_eq!(c.current_term(), 1);
    assert_eq!(c.leader_id(), Some(1));

    c.step(
        1,
        Message::AppendEntries(AppendEntriesReq {
            term: 1,
            leader_id: 1,
            prev_log_index: 1,
            prev_log_term: 1,
            entries: vec![],
            leader_commit: 0,
        }),
    )
    .unwrap();
    let r2 = c.ready();
    assert!(r2
        .messages
        .iter()
        .any(|(_, m)| matches!(m, Message::AppendEntriesResp(a) if a.success)));
}

#[test]
fn follower_rejects_on_prev_term_mismatch_with_conflict_index() {
    let mut s = MemStorage::default();
    s.append(&[
        LogEntry::normal(1, 1, vec![]),
        LogEntry::normal(1, 2, vec![]),
        LogEntry::normal(2, 3, vec![]),
    ])
    .unwrap();
    let mut c = RaftCore::new(cfg(2, &[1, 2, 3]), s).unwrap();
    c.step(
        1,
        Message::AppendEntries(AppendEntriesReq {
            term: 3,
            leader_id: 1,
            prev_log_index: 3,
            prev_log_term: 3,
            entries: vec![],
            leader_commit: 0,
        }),
    )
    .unwrap();
    let r = c.ready();
    let resp = r
        .messages
        .iter()
        .find_map(|(_, m)| match m {
            Message::AppendEntriesResp(a) => Some(a.clone()),
            _ => None,
        })
        .expect("follower must reply");
    assert!(!resp.success);
    assert_eq!(resp.conflict_index, Some(3));
}

#[test]
fn follower_truncates_conflicting_suffix() {
    let mut s = MemStorage::default();
    s.append(&[
        LogEntry::normal(1, 1, vec![]),
        LogEntry::normal(1, 2, vec![9]),
    ])
    .unwrap();
    let mut c = RaftCore::new(cfg(2, &[1, 2, 3]), s).unwrap();
    c.step(
        1,
        Message::AppendEntries(AppendEntriesReq {
            term: 2,
            leader_id: 1,
            prev_log_index: 1,
            prev_log_term: 1,
            entries: vec![LogEntry::normal(2, 2, vec![7])],
            leader_commit: 0,
        }),
    )
    .unwrap();
    let r = c.ready();
    assert!(r.messages.iter().any(|(_, m)| matches!(
        m, Message::AppendEntriesResp(a) if a.success)));
    assert_eq!(c.stored_hard_state().current_term, 2);
}

#[test]
fn leader_backs_up_next_index_on_rejection_and_retries() {
    let mut c = elect_leader(1, &[1, 2, 3]);

    c.step(
        2,
        Message::AppendEntriesResp(AppendEntriesResp {
            term: 1,
            success: false,
            conflict_index: Some(1),
        }),
    )
    .unwrap();
    let r = c.ready();
    assert!(r.messages.iter().any(|(to, m)| *to == 2
        && matches!(m, Message::AppendEntries(req) if req.prev_log_index == 0)));
}

fn leader_with_two_overlapping_sends() -> RaftCore<MemStorage> {
    let mut s = MemStorage::default();
    s.append(
        &(1..=10)
            .map(|i| LogEntry::normal(1, i, vec![]))
            .collect::<Vec<_>>(),
    )
    .unwrap();
    let mut c = RaftCore::new(cfg(1, &[1, 2, 3]), s).unwrap();
    c.role = Role::Leader;
    c.leader_id = Some(1);
    c.next_index.insert(2, 5);
    c.match_index.insert(2, 0);

    c.send_append_to(2).unwrap();
    let _ = c.ready();

    c.storage
        .append(&[LogEntry::normal(1, 11, vec![])])
        .unwrap();
    c.send_append_to(2).unwrap();
    let _ = c.ready();
    c
}

fn success_resp(term: Term) -> Message {
    Message::AppendEntriesResp(AppendEntriesResp {
        term,
        success: true,
        conflict_index: None,
    })
}

#[test]
fn interleaved_sends_do_not_over_advance_match_index() {
    let mut c = leader_with_two_overlapping_sends();
    let term = c.current_term();

    c.step(2, success_resp(term)).unwrap();
    assert_eq!(c.match_index_of(2), 10);
}

#[test]
fn second_success_converges_match_index_to_the_larger_extent() {
    let mut c = leader_with_two_overlapping_sends();
    let term = c.current_term();

    c.step(2, success_resp(term)).unwrap();
    c.step(2, success_resp(term)).unwrap();
    assert_eq!(c.match_index_of(2), 11);
}

#[test]
fn failure_clears_inflight_so_only_the_resend_can_advance_match_index() {
    let mut c = leader_with_two_overlapping_sends();
    let term = c.current_term();

    c.step(
        2,
        Message::AppendEntriesResp(AppendEntriesResp {
            term,
            success: false,
            conflict_index: Some(1),
        }),
    )
    .unwrap();
    let r = c.ready();
    assert!(r.messages.iter().any(|(to, m)| *to == 2
        && matches!(m, Message::AppendEntries(req) if req.prev_log_index == 0)));

    c.step(2, success_resp(term)).unwrap();
    assert_eq!(c.match_index_of(2), 11);
}

#[test]
fn commit_advances_on_majority_current_term() {
    let mut c = elect_leader(1, &[1, 2, 3]);
    let term = c.current_term();
    assert_eq!(c.commit_index(), 0);

    c.step(2, success_resp(term)).unwrap();

    assert_eq!(c.commit_index(), 1);
    let r = c.ready();
    assert_eq!(r.apply.len(), 1);
    assert_eq!(r.apply[0].index, 1);
    assert_eq!(r.apply[0].term, term);
}

fn leader_term2_prior_and_current_entries() -> RaftCore<MemStorage> {
    let mut s = MemStorage::default();
    s.append(&[
        LogEntry::normal(1, 1, vec![]),
        LogEntry::normal(2, 2, vec![]),
    ])
    .unwrap();
    s.save_hard_state(&HardState {
        current_term: 2,
        voted_for: Some(1),
    })
    .unwrap();
    let mut c = RaftCore::new(cfg(1, &[1, 2, 3]), s).unwrap();
    c.role = Role::Leader;
    c.leader_id = Some(1);
    c.match_index.insert(1, 2);
    c.next_index.insert(1, 3);
    for peer in [2, 3] {
        c.next_index.insert(peer, 1);
        c.match_index.insert(peer, 0);
    }
    c
}

#[test]
fn no_commit_of_prior_term_by_count_alone() {
    let mut c = leader_term2_prior_and_current_entries();
    let term = c.current_term();
    assert_eq!(term, 2);

    c.inflight.entry(2).or_default().push_back(1);
    c.step(2, success_resp(term)).unwrap();
    assert_eq!(c.match_index_of(2), 1);

    assert_eq!(c.commit_index(), 0);
    assert!(c.ready().apply.is_empty());

    c.inflight.entry(2).or_default().push_back(2);
    c.step(2, success_resp(term)).unwrap();
    assert_eq!(c.commit_index(), 2);
    let r = c.ready();
    let indices: Vec<_> = r.apply.iter().map(|e| e.index).collect();
    assert_eq!(indices, vec![1, 2]);
}

#[test]
fn apply_is_in_order_and_once() {
    let mut c = elect_leader(1, &[1, 2, 3]);
    let term = c.current_term();
    c.propose(b"a".to_vec()).unwrap();
    c.propose(b"b".to_vec()).unwrap();
    let _ = c.ready();

    c.step(2, success_resp(term)).unwrap();
    c.step(2, success_resp(term)).unwrap();
    c.step(2, success_resp(term)).unwrap();

    assert_eq!(c.commit_index(), 3);
    let r = c.ready();
    let indices: Vec<_> = r.apply.iter().map(|e| e.index).collect();
    assert_eq!(indices, vec![1, 2, 3]);

    let r2 = c.ready();
    assert!(r2.apply.is_empty());
}

#[test]
fn follower_applies_up_to_min_leader_commit_last_index() {
    let mut c = RaftCore::new(cfg(2, &[1, 2, 3]), MemStorage::default()).unwrap();
    c.step(
        1,
        Message::AppendEntries(AppendEntriesReq {
            term: 1,
            leader_id: 1,
            prev_log_index: 0,
            prev_log_term: 0,
            entries: vec![
                LogEntry::normal(1, 1, b"a".to_vec()),
                LogEntry::normal(1, 2, b"b".to_vec()),
            ],
            leader_commit: 5,
        }),
    )
    .unwrap();

    assert_eq!(c.commit_index(), 2);
    let r = c.ready();
    let indices: Vec<_> = r.apply.iter().map(|e| e.index).collect();
    assert_eq!(indices, vec![1, 2]);
}

#[test]
fn stale_term_append_entries_rejected() {
    let mut s = MemStorage::default();
    s.save_hard_state(&HardState {
        current_term: 5,
        voted_for: None,
    })
    .unwrap();
    let mut c = RaftCore::new(cfg(2, &[1, 2, 3]), s).unwrap();
    c.step(
        1,
        Message::AppendEntries(AppendEntriesReq {
            term: 3,
            leader_id: 1,
            prev_log_index: 0,
            prev_log_term: 0,
            entries: vec![],
            leader_commit: 0,
        }),
    )
    .unwrap();
    let r = c.ready();
    assert!(r.messages.iter().any(|(_, m)| matches!(
        m, Message::AppendEntriesResp(a) if !a.success && a.term == 5 && a.conflict_index.is_none()
    )));
    assert_eq!(c.leader_id(), None);
}

#[test]
fn duplicate_success_does_not_inflate_ack_count_or_release_read() {
    let mut c = elect_leader(1, &[1, 2, 3]);
    let term = c.current_term();

    c.step(2, success_resp(term)).unwrap();
    let _ = c.ready();
    assert_eq!(c.readable_term, Some(term));
    assert_eq!(c.commit_index(), 1);
    assert_eq!(c.ack_count_of(2), 1);

    c.inflight.entry(2).or_default().push_back(2);
    *c.send_count.entry(2).or_default() += 1;
    let send_before = c.send_count.get(&2).copied().unwrap_or(0);
    assert!(
        send_before > c.ack_count_of(2),
        "must have an unacked outstanding send"
    );

    c.pending_reads.push(PendingRead {
        token: 7,
        floor: c.commit_index,
        barrier: c.send_count.clone(),
    });
    let barrier_for_2 = send_before;

    c.step(2, success_resp(term)).unwrap();
    assert_eq!(c.ack_count_of(2), barrier_for_2);
    let r = c.ready();
    assert!(
        r.reads.is_empty(),
        "ack_count == barrier must not release (needs strictly >)"
    );

    let ack_after_first = c.ack_count_of(2);
    c.step(2, success_resp(term)).unwrap();
    assert_eq!(
        c.ack_count_of(2),
        ack_after_first,
        "a duplicate success on an empty inflight queue must not increment ack_count"
    );
    let r2 = c.ready();
    assert!(
        r2.reads.is_empty(),
        "a duplicate ack must never release a read past its barrier"
    );

    c.inflight.entry(2).or_default().push_back(3);
    *c.send_count.entry(2).or_default() += 1;
    c.step(2, success_resp(term)).unwrap();
    assert!(c.ack_count_of(2) > barrier_for_2);
    let r3 = c.ready();
    assert_eq!(r3.reads, vec![7]);
}

#[test]
fn entries_are_handed_out_one_by_one_over_many_calls() {
    let mut c = elect_leader(1, &[1, 2, 3]);
    let term = c.current_term();
    let mut handed = Vec::new();
    for round in 0..6u8 {
        for n in 0..round {
            c.propose(vec![round, n]).unwrap();
        }
        for _ in 0..4 {
            c.step(
                2,
                Message::AppendEntriesResp(AppendEntriesResp {
                    term,
                    success: true,
                    conflict_index: None,
                }),
            )
            .unwrap();
            if round % 2 == 0 {
                let r = c.ready();
                handed.extend(r.apply.iter().map(|e| e.index));
                let again = c.ready();
                assert!(again.messages.is_empty() && again.apply.is_empty());
                assert!(again.reads.is_empty() && again.restore.is_none());
            }
        }
        c.tick().unwrap();
    }
    handed.extend(c.ready().apply.iter().map(|e| e.index));
    let expected: Vec<_> = (1..=c.commit_index()).collect();
    assert!(expected.len() > 5);
    assert_eq!(handed, expected);
    assert_eq!(c.last_applied, c.commit_index());
}

#[test]
fn a_follower_hands_out_what_its_leader_commits_once() {
    let mut c = RaftCore::new(cfg(2, &[1, 2, 3]), MemStorage::default()).unwrap();
    let append = |from: u64, to: u64, leader_commit: u64| {
        Message::AppendEntries(AppendEntriesReq {
            term: 1,
            leader_id: 1,
            prev_log_index: from - 1,
            prev_log_term: if from > 1 { 1 } else { 0 },
            entries: (from..=to)
                .map(|i| LogEntry::normal(1, i, vec![i as u8]))
                .collect(),
            leader_commit,
        })
    };
    let mut handed = Vec::new();
    for (from, to, commit) in [(1, 3, 1), (1, 3, 1), (2, 4, 9), (4, 4, 2), (5, 7, 6), (8, 7, 7)] {
        c.step(1, append(from, to, commit)).unwrap();
        handed.extend(c.ready().apply.iter().map(|e| e.index));
    }
    assert_eq!(handed, vec![1, 2, 3, 4, 5, 6, 7]);
}

#[test]
fn requests_in_flight_never_decrease() {
    let mut c = elect_leader(1, &[1, 2, 3]);
    let term = c.current_term();
    for k in 0..4u8 {
        c.propose(vec![k]).unwrap();
        let _ = c.ready();
    }
    let queue: Vec<u64> = c.inflight[&3].iter().copied().collect();
    assert_eq!(queue, vec![1, 2, 3, 4, 5]);
    assert_eq!(c.storage.last_index(), 5);

    c.step(3, success_resp(term)).unwrap();
    assert_eq!(c.match_index_of(3), 1);
    let _ = c.ready();
    c.step(3, success_resp(term)).unwrap();
    assert_eq!(c.match_index_of(3), 2);
    let left: Vec<u64> = c.inflight[&3].iter().copied().collect();
    assert!(left.windows(2).all(|w| w[0] <= w[1]));
    assert!(left.iter().all(|&i| i <= c.storage.last_index()));

    c.step(
        3,
        Message::AppendEntriesResp(AppendEntriesResp {
            term,
            success: false,
            conflict_index: Some(1),
        }),
    )
    .unwrap();
    let left: Vec<u64> = c.inflight[&3].iter().copied().collect();
    assert_eq!(left, vec![5]);
    assert_eq!(c.match_index_of(3), 2);
}
