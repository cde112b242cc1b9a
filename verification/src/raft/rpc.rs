//! The messages that nodes exchange.

use vstd::prelude::*;

use crate::bytes::copy_bytes;
use crate::raft::types::{self, copy_entries, EntryView, LogEntry, LogIndex, NodeId, Term};

verus! {

#[derive(Clone, Copy, Debug, PartialEq, Eq)]
pub struct RequestVoteReq {
    pub term: Term,
    pub candidate_id: NodeId,
    pub last_log_index: LogIndex,
    pub last_log_term: Term,
    pub pre_vote: bool,
}

#[derive(Clone, Copy, Debug, PartialEq, Eq)]
pub struct RequestVoteResp {
    pub term: Term,
    pub vote_granted: bool,
    /// Tells a pre-vote grant from a real one. The term cannot: a pre-vote
    /// responder answers with its own term, which may be the term of a real
    /// election that the candidate runs by then.
    pub pre_vote: bool,
}

#[derive(Debug, PartialEq, Eq)]
pub struct AppendEntriesReq {
    pub term: Term,
    pub leader_id: NodeId,
    pub prev_log_index: LogIndex,
    pub prev_log_term: Term,
    pub entries: Vec<LogEntry>,
    pub leader_commit: LogIndex,
}

#[derive(Clone, Copy, Debug, PartialEq, Eq)]
pub struct AppendEntriesResp {
    pub term: Term,
    pub success: bool,
    pub conflict_index: Option<LogIndex>,
}

#[derive(Debug, PartialEq, Eq)]
pub struct InstallSnapshotReq {
    pub term: Term,
    pub leader_id: NodeId,
    pub last_index: LogIndex,
    pub last_term: Term,
    pub data: Vec<u8>,
    /// The membership as of the snapshot, as `encode_voters` writes it.
    pub config: Vec<u8>,
}

#[derive(Clone, Copy, Debug, PartialEq, Eq)]
pub struct InstallSnapshotResp {
    pub term: Term,
}

#[derive(Debug, PartialEq, Eq)]
pub enum Message {
    RequestVote(RequestVoteReq),
    RequestVoteResp(RequestVoteResp),
    AppendEntries(AppendEntriesReq),
    AppendEntriesResp(AppendEntriesResp),
    InstallSnapshot(InstallSnapshotReq),
    InstallSnapshotResp(InstallSnapshotResp),
}

/// An `AppendEntriesReq` over sequences.
#[verifier::ext_equal]
pub struct AppendView {
    pub term: Term,
    pub leader_id: NodeId,
    pub prev_log_index: LogIndex,
    pub prev_log_term: Term,
    pub entries: Seq<EntryView>,
    pub leader_commit: LogIndex,
}

/// An `InstallSnapshotReq` over sequences.
#[verifier::ext_equal]
pub struct InstallView {
    pub term: Term,
    pub leader_id: NodeId,
    pub last_index: LogIndex,
    pub last_term: Term,
    pub data: Seq<u8>,
    pub config: Seq<u8>,
}

/// A message over sequences.
#[verifier::ext_equal]
pub enum MessageView {
    RequestVote(RequestVoteReq),
    RequestVoteResp(RequestVoteResp),
    AppendEntries(AppendView),
    AppendEntriesResp(AppendEntriesResp),
    InstallSnapshot(InstallView),
    InstallSnapshotResp(InstallSnapshotResp),
}

impl View for AppendEntriesReq {
    type V = AppendView;

    open spec fn view(&self) -> AppendView {
        AppendView {
            term: self.term,
            leader_id: self.leader_id,
            prev_log_index: self.prev_log_index,
            prev_log_term: self.prev_log_term,
            entries: types::entries_view(self.entries@),
            leader_commit: self.leader_commit,
        }
    }
}

impl View for InstallSnapshotReq {
    type V = InstallView;

    open spec fn view(&self) -> InstallView {
        InstallView {
            term: self.term,
            leader_id: self.leader_id,
            last_index: self.last_index,
            last_term: self.last_term,
            data: self.data@,
            config: self.config@,
        }
    }
}

impl View for Message {
    type V = MessageView;

    open spec fn view(&self) -> MessageView {
        match self {
            Message::RequestVote(m) => MessageView::RequestVote(*m),
            Message::RequestVoteResp(m) => MessageView::RequestVoteResp(*m),
            Message::AppendEntries(m) => MessageView::AppendEntries(m@),
            Message::AppendEntriesResp(m) => MessageView::AppendEntriesResp(*m),
            Message::InstallSnapshot(m) => MessageView::InstallSnapshot(m@),
            Message::InstallSnapshotResp(m) => MessageView::InstallSnapshotResp(*m),
        }
    }
}

impl Clone for AppendEntriesReq {
    fn clone(&self) -> (r: Self)
        ensures
            r@ == self@,
    {
        let r = AppendEntriesReq {
            term: self.term,
            leader_id: self.leader_id,
            prev_log_index: self.prev_log_index,
            prev_log_term: self.prev_log_term,
            entries: copy_entries(self.entries.as_slice(), 0),
            leader_commit: self.leader_commit,
        };
        assert(r@ =~= self@);
        r
    }
}

impl Clone for InstallSnapshotReq {
    fn clone(&self) -> (r: Self)
        ensures
            r@ == self@,
    {
        InstallSnapshotReq {
            term: self.term,
            leader_id: self.leader_id,
            last_index: self.last_index,
            last_term: self.last_term,
            data: copy_bytes(self.data.as_slice()),
            config: copy_bytes(self.config.as_slice()),
        }
    }
}

impl Clone for Message {
    fn clone(&self) -> (r: Self)
        ensures
            r@ == self@,
    {
        match self {
            Message::RequestVote(m) => Message::RequestVote(*m),
            Message::RequestVoteResp(m) => Message::RequestVoteResp(*m),
            Message::AppendEntries(m) => Message::AppendEntries(m.clone()),
            Message::AppendEntriesResp(m) => Message::AppendEntriesResp(*m),
            Message::InstallSnapshot(m) => Message::InstallSnapshot(m.clone()),
            Message::InstallSnapshotResp(m) => Message::InstallSnapshotResp(*m),
        }
    }
}

} // verus!
