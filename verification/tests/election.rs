//! How a node comes to lead.

use std::collections::BTreeMap;

use cairn::raft::node::{Config, RaftCore, Role};
use cairn::raft::rpc::{Message, RequestVoteReq, RequestVoteResp};
use cairn::raft::storage::{MemStorage, RaftStorage};
use cairn::raft::types::{LogEntry, NodeId};

fn cfg(id: NodeId, peers: &[NodeId]) -> Config {
    Config {
        id,
        peers: peers.to_vec(),
        election_timeout: 10,
        heartbeat_interval: 3,
        seed: 42,
    }
}

#[test]
fn grants_vote_to_up_to_date_candidate() {
    let mut c = RaftCore::new(cfg(2, &[1, 2, 3]), MemStorage::default()).unwrap();
    c.step(
        1,
        Message::RequestVote(RequestVoteReq {
            term: 1,
            candidate_id: 1,
            last_log_index: 0,
            last_log_term: 0,
            pre_vote: false,
        }),
    )
    .unwrap();
    let r = c.ready();
    assert!(r.messages.iter().any(|(to, m)| *to == 1
        && matches!(
            m, Message::RequestVoteResp(v) if v.vote_granted && v.term == 1)));
    assert_eq!(c.current_term(), 1);
    let hs = c.stored_hard_state();
    assert_eq!(hs.current_term, 1);
    assert_eq!(hs.voted_for, Some(1));
}

#[test]
fn rejects_behind_candidate() {
    let mut s = MemStorage::default();
    s.append(&[LogEntry::normal(2, 1, vec![])]).unwrap();
    let mut c = RaftCore::new(cfg(2, &[1, 2, 3]), s).unwrap();
    c.step(
        1,
        Message::RequestVote(RequestVoteReq {
            term: 3,
            candidate_id: 1,
            last_log_index: 0,
            last_log_term: 0,
            pre_vote: false,
        }),
    )
    .unwrap();
    let r = c.ready();
    assert!(r.messages.iter().any(|(_, m)| matches!(
        m, Message::RequestVoteResp(v) if !v.vote_granted)));
}

#[test]
fn no_double_vote_same_term() {
    let mut c = RaftCore::new(cfg(2, &[1, 2, 3]), MemStorage::default()).unwrap();
    let rv = |cid| {
        Message::RequestVote(RequestVoteReq {
            term: 1,
            candidate_id: cid,
            last_log_index: 0,
            last_log_term: 0,
            pre_vote: false,
        })
    };
    c.step(1, rv(1)).unwrap();
    let _ = c.ready();
    c.step(3, rv(3)).unwrap();
    let r = c.ready();
    assert!(r.messages.iter().any(|(to, m)| *to == 3
        && matches!(
            m, Message::RequestVoteResp(v) if !v.vote_granted)));
}

#[test]
fn prevote_does_not_persist() {
    let mut c = RaftCore::new(cfg(2, &[1, 2, 3]), MemStorage::default()).unwrap();
    c.step(
        1,
        Message::RequestVote(RequestVoteReq {
            term: 1,
            candidate_id: 1,
            last_log_index: 0,
            last_log_term: 0,
            pre_vote: true,
        }),
    )
    .unwrap();
    assert_eq!(c.current_term(), 0);
    let r = c.ready();
    assert!(r
        .messages
        .iter()
        .any(|(_, m)| matches!(m, Message::RequestVoteResp(v) if v.vote_granted)));
}

#[test]
fn wins_election_with_majority() {
    let mut c = RaftCore::new(cfg(1, &[1, 2, 3]), MemStorage::default()).unwrap();
    for _ in 0..40 {
        c.tick().unwrap();
    }
    let _ = c.ready();
    c.step(
        2,
        Message::RequestVoteResp(RequestVoteResp {
            term: 0,
            vote_granted: true,
            pre_vote: true,
        }),
    )
    .unwrap();
    assert_eq!(c.role(), Role::Candidate);
    assert_eq!(c.current_term(), 1);
    let _ = c.ready();
    c.step(
        2,
        Message::RequestVoteResp(RequestVoteResp {
            term: 1,
            vote_granted: true,
            pre_vote: false,
        }),
    )
    .unwrap();
    assert_eq!(c.role(), Role::Leader);
    assert!(c.commit_index() <= 1);
}

#[test]
fn prevote_reply_echoes_responders_own_term_and_wins_real_round_trip() {
    let mut a = RaftCore::new(cfg(1, &[1, 2, 3]), MemStorage::default()).unwrap();
    for _ in 0..40 {
        a.tick().unwrap();
    }
    assert_eq!(a.role(), Role::PreCandidate);
    let a_ready = a.ready();
    let (to, req) = a_ready
        .messages
        .iter()
        .find_map(|(to, m)| match m {
            Message::RequestVote(rv) if rv.pre_vote => Some((*to, rv.clone())),
            _ => None,
        })
        .expect("A must emit a pre-vote RequestVote");
    assert_eq!(req.term, 1);

    let mut b = RaftCore::new(cfg(to, &[1, 2, 3]), MemStorage::default()).unwrap();
    b.step(1, Message::RequestVote(req)).unwrap();
    let b_ready = b.ready();
    let resp = b_ready
        .messages
        .iter()
        .find_map(|(_, m)| match m {
            Message::RequestVoteResp(r) => Some(r.clone()),
            _ => None,
        })
        .expect("B must emit a RequestVoteResp");
    assert!(resp.vote_granted);
    assert_eq!(resp.term, 0);
    assert_eq!(b.current_term(), 0);

    a.step(to, Message::RequestVoteResp(resp)).unwrap();
    assert_eq!(a.role(), Role::Candidate);
}

#[test]
fn prevote_straggler_is_not_counted_as_real_vote() {
    let mut a = RaftCore::new(cfg(1, &[1, 2, 3]), MemStorage::default()).unwrap();
    for _ in 0..40 {
        a.tick().unwrap();
    }
    assert_eq!(a.role(), Role::PreCandidate);
    let a_ready = a.ready();
    let mut pre_vote_reqs: BTreeMap<NodeId, RequestVoteReq> = BTreeMap::new();
    for (to, m) in &a_ready.messages {
        if let Message::RequestVote(rv) = m {
            if rv.pre_vote {
                pre_vote_reqs.insert(*to, rv.clone());
            }
        }
    }
    assert_eq!(pre_vote_reqs.len(), 2, "A must pre-vote both peers");

    let mut b = RaftCore::new(cfg(2, &[1, 2, 3]), MemStorage::default()).unwrap();
    let mut c = RaftCore::new(cfg(3, &[1, 2, 3]), MemStorage::default()).unwrap();
    let req_to_b = pre_vote_reqs[&2].clone();
    let req_to_c = pre_vote_reqs[&3].clone();
    b.step(1, Message::RequestVote(req_to_b)).unwrap();
    c.step(1, Message::RequestVote(req_to_c)).unwrap();
    let b_resp = b
        .ready()
        .messages
        .iter()
        .find_map(|(_, m)| match m {
            Message::RequestVoteResp(r) => Some(r.clone()),
            _ => None,
        })
        .expect("B must reply");
    let c_resp = c
        .ready()
        .messages
        .iter()
        .find_map(|(_, m)| match m {
            Message::RequestVoteResp(r) => Some(r.clone()),
            _ => None,
        })
        .expect("C must reply");
    assert!(b_resp.vote_granted && c_resp.vote_granted);

    a.step(2, Message::RequestVoteResp(b_resp)).unwrap();
    assert_eq!(a.role(), Role::Candidate);
    assert_eq!(a.current_term(), 1);
    let _ = a.ready();

    a.step(3, Message::RequestVoteResp(c_resp)).unwrap();
    assert_eq!(
        a.role(),
        Role::Candidate,
        "a delayed pre-vote grant must not, by itself, promote a Candidate to Leader"
    );
}

#[test]
fn prevote_grant_from_peer_at_prospective_term_is_not_a_real_vote() {
    let mut a = RaftCore::new(cfg(1, &[1, 2, 3]), MemStorage::default()).unwrap();
    for _ in 0..40 {
        a.tick().unwrap();
    }
    assert_eq!(a.role(), Role::PreCandidate);
    let _ = a.ready();

    a.step(
        2,
        Message::RequestVoteResp(RequestVoteResp {
            term: 0,
            vote_granted: true,
            pre_vote: true,
        }),
    )
    .unwrap();
    assert_eq!(a.role(), Role::Candidate);
    assert_eq!(a.current_term(), 1);
    let _ = a.ready();

    a.step(
        3,
        Message::RequestVoteResp(RequestVoteResp {
            term: 1,
            vote_granted: true,
            pre_vote: true,
        }),
    )
    .unwrap();
    assert_eq!(
        a.role(),
        Role::Candidate,
        "a pre-vote grant carrying the candidate's own term must not be tallied as a real vote"
    );

    a.step(
        3,
        Message::RequestVoteResp(RequestVoteResp {
            term: 1,
            vote_granted: true,
            pre_vote: false,
        }),
    )
    .unwrap();
    assert_eq!(a.role(), Role::Leader);
}

#[test]
fn single_node_cluster_self_promotes_to_leader() {
    let mut c = RaftCore::new(cfg(1, &[1]), MemStorage::default()).unwrap();
    for _ in 0..40 {
        c.tick().unwrap();
    }
    assert_eq!(c.role(), Role::Leader);
    assert_eq!(c.current_term(), 1);
    assert_eq!(c.commit_index(), 1);
    let r = c.ready();
    assert_eq!(r.apply.len(), 1);
    assert_eq!(r.apply[0].index, 1);
    assert_eq!(r.apply[0].term, 1);
    c.read_index(1).unwrap();
    let r2 = c.ready();
    assert_eq!(
        r2.reads,
        vec![1],
        "solo leader must be able to release a read once its no-op has committed"
    );
}

#[test]
fn a_vote_outlives_a_restart() {
    let asked = |candidate_id: NodeId, term: u64| {
        Message::RequestVote(RequestVoteReq {
            term,
            candidate_id,
            last_log_index: 0,
            last_log_term: 0,
            pre_vote: false,
        })
    };
    let granted = |c: &mut RaftCore<MemStorage>| {
        c.ready()
            .messages
            .iter()
            .any(|(_, m)| matches!(m, Message::RequestVoteResp(v) if v.vote_granted))
    };
    let mut c = RaftCore::new(cfg(2, &[1, 2, 3]), MemStorage::default()).unwrap();
    c.step(1, asked(1, 4)).unwrap();
    assert!(granted(&mut c));

    let mut c = RaftCore::new(cfg(2, &[1, 2, 3]), c.storage).unwrap();
    assert_eq!(c.role(), Role::Follower);
    assert_eq!(c.leader_id(), None);
    c.step(3, asked(3, 4)).unwrap();
    assert!(!granted(&mut c), "the vote of term 4 is given away");
    c.step(1, asked(1, 4)).unwrap();
    assert!(granted(&mut c), "the same candidate may ask again");
    c.step(3, asked(3, 5)).unwrap();
    assert!(granted(&mut c), "a new term is a new vote");
}

#[test]
fn only_distinct_real_grants_of_the_term_are_counted() {
    let resp = |term: u64, pre_vote: bool| {
        Message::RequestVoteResp(RequestVoteResp {
            term,
            vote_granted: true,
            pre_vote,
        })
    };
    let mut c = RaftCore::new(cfg(1, &[1, 2, 3, 4, 5]), MemStorage::default()).unwrap();
    while c.role() != Role::PreCandidate {
        c.tick().unwrap();
    }
    c.step(2, resp(0, true)).unwrap();
    c.step(2, resp(0, true)).unwrap();
    assert_eq!(c.role(), Role::PreCandidate);
    c.step(3, resp(0, true)).unwrap();
    assert_eq!(c.role(), Role::Candidate);
    assert_eq!(c.current_term(), 1);

    c.step(2, resp(1, true)).unwrap();
    c.step(3, resp(1, true)).unwrap();
    c.step(4, resp(0, false)).unwrap();
    c.step(4, resp(1, false)).unwrap();
    c.step(4, resp(1, false)).unwrap();
    assert_eq!(c.role(), Role::Candidate, "itself and 4 are two of five");
    c.step(5, resp(1, false)).unwrap();
    assert_eq!(c.role(), Role::Leader);
}
