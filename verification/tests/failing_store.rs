//! A node over a store that fails.

use cairn::error::{corruption, Result};
use cairn::raft::node::{Config, RaftCore, Role};
use cairn::raft::rpc::{AppendEntriesReq, Message, RequestVoteReq};
use cairn::raft::storage::{Durable, MemStorage, RaftStorage};
use cairn::raft::types::{HardState, LogEntry, LogIndex, SnapshotMeta, Term};

/// A store that takes so many writes and no more.
struct Failing {
    inner: MemStorage,
    writes: usize,
}

impl Failing {
    fn write(&mut self) -> Result<()> {
        if self.writes == 0 {
            return Err(corruption("the disk is full"));
        }
        self.writes -= 1;
        Ok(())
    }
}

impl RaftStorage for Failing {
    fn durable(&self) -> Durable {
        unreachable!("what the store holds is only spoken of in contracts")
    }

    fn reliable() -> bool {
        false
    }

    fn hard_state(&self) -> HardState {
        self.inner.hard_state()
    }

    fn save_hard_state(&mut self, hs: &HardState) -> Result<()> {
        self.write()?;
        self.inner.save_hard_state(hs)
    }

    fn last_index(&self) -> LogIndex {
        self.inner.last_index()
    }

    fn last_term(&self) -> Term {
        self.inner.last_term()
    }

    fn term(&self, index: LogIndex) -> Result<Option<Term>> {
        self.inner.term(index)
    }

    fn entries_from(&self, index: LogIndex) -> Vec<LogEntry> {
        self.inner.entries_from(index)
    }

    fn snapshot_meta(&self) -> SnapshotMeta {
        self.inner.snapshot_meta()
    }

    fn append(&mut self, entries: &[LogEntry]) -> Result<()> {
        self.write()?;
        self.inner.append(entries)
    }

    fn truncate_suffix(&mut self, index: LogIndex) -> Result<()> {
        self.write()?;
        self.inner.truncate_suffix(index)
    }

    fn save_snapshot(&mut self, meta: SnapshotMeta, data: &[u8], config: &[u8]) -> Result<()> {
        self.write()?;
        self.inner.save_snapshot(meta, data, config)
    }

    fn read_snapshot(&self) -> Result<Option<(SnapshotMeta, Vec<u8>, Vec<u8>)>> {
        self.inner.read_snapshot()
    }
}

fn node(peers: &[u64], writes: usize) -> RaftCore<Failing> {
    let config = Config {
        id: 1,
        peers: peers.to_vec(),
        election_timeout: 10,
        heartbeat_interval: 3,
        seed: 42,
    };
    let store = Failing {
        inner: MemStorage::default(),
        writes,
    };
    RaftCore::new(config, store).unwrap()
}

fn asked(term: Term, pre_vote: bool) -> Message {
    Message::RequestVote(RequestVoteReq {
        term,
        candidate_id: 2,
        last_log_index: 0,
        last_log_term: 0,
        pre_vote,
    })
}

fn append(term: Term) -> Message {
    Message::AppendEntries(AppendEntriesReq {
        term,
        leader_id: 2,
        prev_log_index: 0,
        prev_log_term: 0,
        entries: vec![LogEntry::normal(term, 1, vec![])],
        leader_commit: 1,
    })
}

#[test]
fn what_cannot_be_stored_is_not_granted() {
    for writes in 0..2 {
        let mut c = node(&[1, 2, 3], writes);
        assert!(c.step(2, asked(1, false)).is_err());
        assert!(c.ready().messages.is_empty());
    }
    let mut c = node(&[1, 2, 3], 2);
    c.step(2, asked(1, false)).unwrap();
    assert_eq!(c.ready().messages.len(), 1);
}

#[test]
fn what_cannot_be_stored_is_not_acknowledged() {
    for writes in 0..2 {
        let mut c = node(&[1, 2, 3], writes);
        assert!(c.step(2, append(1)).is_err());
        let r = c.ready();
        assert!(r.messages.is_empty() && r.apply.is_empty());
        assert_eq!(c.commit_index(), 0);
    }
}

#[test]
fn a_candidate_that_cannot_store_its_vote_asks_nobody() {
    let mut c = node(&[1], 0);
    let mut failed = false;
    for _ in 0..40 {
        failed = failed || c.tick().is_err();
    }
    assert!(failed);
    assert_ne!(c.role(), Role::Leader);
    assert_eq!(c.current_term(), 0);
    assert!(c.ready().messages.is_empty());
}

#[test]
fn what_stores_nothing_does_not_fail() {
    let mut c = node(&[1, 2, 3], 0);
    c.step(2, asked(9, true)).unwrap();
    assert_eq!(c.ready().messages.len(), 1);
    assert_eq!(c.propose(b"x".to_vec()).unwrap(), None);
    c.read_index(1).unwrap();

    let mut c = node(&[1, 2, 3], 1);
    c.storage
        .save_hard_state(&HardState {
            current_term: 5,
            voted_for: None,
        })
        .unwrap();
    c.step(2, append(4)).unwrap();
    assert_eq!(c.ready().messages.len(), 1);
}
