//! Where a store that fails on its own account leaves a node.
//!
//! Each function says of one operation which states it may end in when a call
//! to the store fails: nothing that was to follow the call has happened. Where
//! none fits, the operation makes no call that could fail.

use vstd::prelude::*;

use crate::raft::ids;
use crate::raft::node::state::{self, ConfChange, NodeState, ReadToken, ReadView, Role};
use crate::raft::rpc::{
    AppendEntriesResp, AppendView, InstallSnapshotResp, InstallView, MessageView, RequestVoteReq,
    RequestVoteResp,
};
use crate::raft::types::{EntryType, EntryView, HardState, LogIndex, NodeId, SnapshotMeta, Term};

verus! {

impl NodeState {
    /// Nothing but what is stored may be different.
    pub open spec fn but_for_store(self, after: NodeState) -> bool {
        after == NodeState { store: after.store, ..self }
    }

    // ---- election ----

    /// Asking for pre-votes, before they are counted.
    pub open spec fn asking(self) -> NodeState {
        NodeState {
            role: Role::PreCandidate,
            leader: None,
            votes: self.own_vote(),
            ..self
        }.send_each(
            self.others(),
            self.vote_request((self.term() + 1) as u64, true),
        ).reset_election_timer()
    }

    /// Standing for the next term, before the votes are counted.
    pub open spec fn standing(self) -> NodeState {
        let term = (self.term() + 1) as u64;
        NodeState { role: Role::Candidate, votes: self.own_vote(), ..self }.with_hard_state(
            HardState { current_term: term, voted_for: Some(self.config.id) },
        ).reset_election_timer().send_each(self.others(), self.vote_request(term, false))
    }

    /// Leading, before the first entry of the term is stored.
    pub open spec fn mounting(self) -> NodeState {
        let next = (self.store.last_index() + 1) as u64;
        NodeState {
            role: Role::Leader,
            leader: Some(self.config.id),
            heartbeat_elapsed: 0,
            inflight: Map::empty(),
            pending_reads: Seq::empty(),
            send_count: Map::empty(),
            ack_count: Map::empty(),
            next_index: self.next_index.union_prefer_right(self.for_others(next)),
            match_index: self.match_index.union_prefer_right(self.for_others(0)),
            ..self
        }
    }

    pub open spec fn prevote_stops(self, after: NodeState) -> bool {
        let node = self.asking();
        node.votes.len() >= node.quorum() && node.candidate_stops(after)
    }

    /// The term and the vote are stored before anyone is asked.
    pub open spec fn candidate_stops(self, after: NodeState) -> bool {
        let node = self.standing();
        ||| self.but_for_store(after)
        ||| node.votes.len() >= node.quorum() && node.leader_stops(after)
    }

    pub open spec fn leader_stops(self, after: NodeState) -> bool {
        let sent = self.crowned().broadcast_append();
        ||| self.mounting().but_for_store(after)
        ||| self.crowned().broadcast_stops(after)
        ||| sent.fault is None && sent.node.commit_stops(after)
    }

    /// In the same term nothing is stored.
    pub open spec fn follower_stops(self, term: Term, after: NodeState) -> bool {
        term > self.term() && self.but_for_store(after)
    }

    /// The vote is stored before the answer is queued; a pre-vote stores
    /// nothing.
    pub open spec fn request_vote_stops(self, req: RequestVoteReq, after: NodeState) -> bool {
        let node = if req.term > self.term() {
            self.become_follower(req.term, None)
        } else {
            self
        };
        !req.pre_vote && {
            ||| self.follower_stops(req.term, after)
            ||| node.grants(req) && node.but_for_store(after)
        }
    }

    pub open spec fn vote_resp_stops(
        self,
        from: NodeId,
        resp: RequestVoteResp,
        after: NodeState,
    ) -> bool {
        let counted = NodeState { votes: self.votes.insert(from), ..self };
        if self.role == Role::PreCandidate && resp.pre_vote {
            ||| self.follower_stops(resp.term, after)
            ||| {
                &&& resp.term <= self.term()
                &&& resp.vote_granted
                &&& counted.votes.len() >= counted.quorum()
                &&& counted.candidate_stops(after)
            }
        } else if self.role == Role::Candidate && !resp.pre_vote {
            ||| self.follower_stops(resp.term, after)
            ||| {
                &&& resp.term == self.term()
                &&& resp.vote_granted
                &&& counted.votes.len() >= counted.quorum()
                &&& counted.leader_stops(after)
            }
        } else {
            false
        }
    }

    // ---- replication ----

    /// Sending reads the term before the entries, or the snapshot.
    pub open spec fn send_append_stops(self, peer: NodeId, after: NodeState) -> bool {
        let next = ids::value_or(self.next_index, peer, 1);
        after == self && if next <= self.store.base.last_index {
            self.store.base.last_index != 0
        } else {
            next > 1
        }
    }

    /// What goes to the peers before the one at which the store fails is sent.
    pub open spec fn broadcast_stops(self, after: NodeState) -> bool {
        exists|k: int| #[trigger] self.broadcast_stops_at(k, after)
    }

    pub open spec fn broadcast_stops_at(self, k: int, after: NodeState) -> bool {
        let sent = self.send_append_each(self.others().take(k));
        &&& 0 <= k < self.others().len()
        &&& sent.fault is None
        &&& sent.node.send_append_stops(self.others()[k], after)
    }

    /// Committing reads the term of what a majority holds.
    pub open spec fn commit_stops(self, after: NodeState) -> bool {
        &&& self.role == Role::Leader
        &&& after == self
        &&& exists|n: nat|
            self.commit_index < n <= self.store.last_index() && #[trigger] self.replicas(n)
                >= self.quorum()
    }

    pub open spec fn propose_stops(self, command: Seq<u8>, after: NodeState) -> bool {
        let own = self.with_own_entry(
            EntryView {
                term: self.term(),
                index: (self.store.last_index() + 1) as u64,
                command,
                entry_type: EntryType::Normal,
            },
        );
        let sent = own.broadcast_append();
        self.role == Role::Leader && {
            ||| self.but_for_store(after)
            ||| own.broadcast_stops(after)
            ||| sent.fault is None && sent.node.commit_stops(after)
        }
    }

    pub open spec fn adopt_stops(self, entries: Seq<EntryView>, after: NodeState) -> bool {
        &&& entries.len() > 0
        &&& self.but_for_store(after)
        &&& state::first_new(self.store, entries, 0) is None ==> after == self
    }

    /// No answer is queued.
    pub open spec fn append_entries_stops(self, req: AppendView, after: NodeState) -> bool {
        let node = self.become_follower(req.term, Some(req.leader_id));
        let prev_term = node.store.term_or_zero(req.prev_log_index);
        req.term >= self.term() && {
            ||| self.follower_stops(req.term, after)
            ||| 0 < req.prev_log_index <= node.store.last_index() && after == node
            ||| {
                &&& req.prev_log_index <= node.store.last_index()
                &&& prev_term == req.prev_log_term
                &&& node.adopt_stops(req.entries, after)
            }
        }
    }

    pub open spec fn append_resp_stops(
        self,
        from: NodeId,
        resp: AppendEntriesResp,
        after: NodeState,
    ) -> bool {
        let next = match resp.conflict_index {
            Some(index) => if index > 1 {
                index
            } else {
                1
            },
            None => 1,
        };
        if self.role != Role::Leader || resp.term != self.term() {
            self.follower_stops(resp.term, after)
        } else if resp.success {
            self.acknowledged(from).commit_stops(after)
        } else {
            self.backed_up(from, next).send_append_stops(from, after)
        }
    }

    pub open spec fn read_index_stops(self, token: ReadToken, after: NodeState) -> bool {
        let waiting = NodeState {
            pending_reads: self.pending_reads.push(
                ReadView { token, floor: self.commit_index, barrier: self.send_count },
            ),
            ..self
        };
        self.role == Role::Leader && waiting.broadcast_stops(after)
    }

    // ---- membership and snapshots ----

    /// The membership is read from the snapshot only if the log records none.
    pub open spec fn recompute_stops(self, after: NodeState) -> bool {
        after == self && state::latest_config(self.store.entries) is None
    }

    pub open spec fn conf_change_stops(self, change: ConfChange, after: NodeState) -> bool {
        let voting = self.with_own_entry(
            EntryView {
                term: self.term(),
                index: (self.store.last_index() + 1) as u64,
                command: state::voters_bytes(self.changed_voters(change)),
                entry_type: EntryType::ConfigChange,
            },
        ).recompute_voters();
        self.accepts_change(change) && {
            ||| self.but_for_store(after)
            ||| voting.fault is None && voting.node.seeded(change).broadcast_stops(after)
        }
    }

    pub open spec fn compact_stops(self, index: LogIndex, after: NodeState) -> bool {
        &&& self.store.base.last_index < index <= self.last_applied
        &&& self.but_for_store(after)
    }

    /// No answer is queued, and nothing is to be restored.
    pub open spec fn install_snapshot_stops(self, req: InstallView, after: NodeState) -> bool {
        let node = self.become_follower(req.term, Some(req.leader_id));
        let saved = NodeState {
            store: node.store.save(
                SnapshotMeta { last_index: req.last_index, last_term: req.last_term },
                req.data,
                req.config,
            ),
            commit_index: req.last_index,
            last_applied: req.last_index,
            ..node
        };
        req.term >= self.term() && {
            ||| self.follower_stops(req.term, after)
            ||| {
                &&& req.last_index > node.store.base.last_index
                &&& req.last_index > node.commit_index
                &&& {
                    ||| node.but_for_store(after)
                    ||| state::voters_of(req.config) matches Ok(voters) && (NodeState {
                        voters,
                        ..saved
                    }).recompute_stops(after)
                }
            }
        }
    }

    pub open spec fn install_resp_stops(
        self,
        from: NodeId,
        resp: InstallSnapshotResp,
        after: NodeState,
    ) -> bool {
        let base = self.store.base.last_index;
        let matched = if self.matched(from) > base {
            self.matched(from)
        } else {
            base
        };
        let told = NodeState {
            match_index: self.match_index.insert(from, matched),
            next_index: self.next_index.insert(from, (base + 1) as u64),
            ..self
        };
        if resp.term > self.term() {
            self.follower_stops(resp.term, after)
        } else {
            self.role == Role::Leader && told.send_append_stops(from, after)
        }
    }

    // ---- events ----

    pub open spec fn tick_stops(self, after: NodeState) -> bool {
        let beat = NodeState { heartbeat_elapsed: 0, ..self };
        let waited = NodeState { elapsed: (self.elapsed + 1) as u64, ..self };
        if self.role == Role::Leader {
            self.heartbeat_elapsed + 1 >= self.config.heartbeat_interval && beat.broadcast_stops(
                after,
            )
        } else {
            waited.elapsed >= waited.election_deadline && waited.prevote_stops(after)
        }
    }

    pub open spec fn step_stops(
        self,
        from: NodeId,
        message: MessageView,
        after: NodeState,
    ) -> bool {
        match message {
            MessageView::RequestVote(req) => self.request_vote_stops(req, after),
            MessageView::RequestVoteResp(resp) => self.vote_resp_stops(from, resp, after),
            MessageView::AppendEntries(req) => self.append_entries_stops(req, after),
            MessageView::AppendEntriesResp(resp) => self.append_resp_stops(from, resp, after),
            MessageView::InstallSnapshot(req) => self.install_snapshot_stops(req, after),
            MessageView::InstallSnapshotResp(resp) => self.install_resp_stops(from, resp, after),
        }
    }
}

} // verus!
