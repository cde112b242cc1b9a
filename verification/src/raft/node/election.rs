//! Pre-votes, votes and leading.

use std::collections::BTreeSet;

use vstd::prelude::*;

use crate::error::Result;
use crate::raft::ids::{self, assign_each};
use crate::raft::node::state::{self, NodeState, Outcome, Role};
use crate::raft::node::stop_laws;
use crate::raft::node::RaftCore;
use crate::raft::rpc::{Message, RequestVoteReq, RequestVoteResp};
use crate::raft::storage::{self, RaftStorage};
use crate::raft::types::{self, HardState, LogEntry, NodeId, Term};

verus! {

broadcast use {vstd::std_specs::btree::group_btree_axioms, vstd::laws_cmp::group_laws_cmp};

impl<S: RaftStorage> RaftCore<S> {
    /// Asks every other voter for its vote.
    fn request_votes(&mut self, req: RequestVoteReq)
        ensures
            final(self)@ == old(self)@.send_each(
                old(self)@.others(),
                Message::RequestVote(req)@,
            ),
    {
        let peers = self.others();
        let ghost message = Message::RequestVote(req)@;
        let mut i: usize = 0;
        assert(self@ =~= old(self)@.send_each(peers@.take(0), message));
        while i < peers.len()
            invariant
                i <= peers@.len(),
                message == Message::RequestVote(req)@,
                self@ == old(self)@.send_each(peers@.take(i as int), message),
            decreases peers@.len() - i,
        {
            self.push_message(peers[i], Message::RequestVote(req));
            i = i + 1;
            assert(self@ =~= old(self)@.send_each(peers@.take(i as int), message));
        }
        assert(peers@.take(i as int) =~= peers@);
    }

    /// Counts the votes from scratch, with the node's own if it is a voter.
    fn reset_votes(&mut self)
        ensures
            final(self)@ == (NodeState { votes: old(self)@.own_vote(), ..old(self)@ }),
            final(self)@.votes.finite(),
    {
        self.votes = BTreeSet::new();
        if self.voters.contains(&self.config.id) {
            self.votes.insert(self.config.id);
        }
        assert(self@ =~= NodeState { votes: old(self)@.own_vote(), ..old(self)@ });
    }

    /// Becomes a pre-candidate and asks whether the others would vote for it in
    /// the next term. Nothing is stored and no term is entered, so a node that
    /// is cut off cannot disturb the rest with ever higher terms.
    pub(crate) fn start_prevote(&mut self) -> (r: Result<()>)
        requires
            old(self)@.wf(),
            old(self)@.term() < u64::MAX,
            old(self)@.store.last_index() < u64::MAX - 1,
        ensures
            final(self)@.wf(),
            state::settled(
                r,
                final(self)@,
                old(self)@.start_prevote(),
                S::reliable(),
                old(self)@.prevote_stops(final(self)@),
            ),
    {
        self.role = Role::PreCandidate;
        self.leader_id = None;
        self.reset_votes();
        let req = RequestVoteReq {
            term: self.current_term() + 1,
            candidate_id: self.config.id,
            last_log_index: self.storage.last_index(),
            last_log_term: self.storage.last_term(),
            pre_vote: true,
        };
        self.request_votes(req);
        self.reset_election_timer();
        assert(self@ =~= old(self)@.asking());
        if self.votes.len() >= self.quorum() {
            return self.become_candidate();
        }
        Ok(())
    }

    /// Enters the next term and stands for it. The term and the vote for
    /// itself are stored before anyone is asked.
    pub(crate) fn become_candidate(&mut self) -> (r: Result<()>)
        requires
            old(self)@.wf(),
            old(self)@.term() < u64::MAX,
            old(self)@.store.last_index() < u64::MAX - 1,
        ensures
            final(self)@.wf(),
            state::settled(
                r,
                final(self)@,
                old(self)@.become_candidate(),
                S::reliable(),
                old(self)@.candidate_stops(final(self)@),
            ),
            r is Err ==> final(self)@.outbox == old(self)@.outbox,
    {
        let new_term: u64 = self.current_term() + 1;
        let hs = HardState { current_term: new_term, voted_for: Some(self.config.id) };
        match self.storage.save_hard_state(&hs) {
            Ok(_) => {},
            Err(e) => {
                assert(old(self)@.but_for_store(self@));
                return Err(e);
            },
        }
        self.role = Role::Candidate;
        self.reset_votes();
        self.reset_election_timer();
        let req = RequestVoteReq {
            term: new_term,
            candidate_id: self.config.id,
            last_log_index: self.storage.last_index(),
            last_log_term: self.storage.last_term(),
            pre_vote: false,
        };
        self.request_votes(req);
        assert(self@ =~= old(self)@.standing());
        if self.votes.len() >= self.quorum() {
            proof {
                stop_laws::alone(old(self)@);
            }
            return self.become_leader();
        }
        Ok(())
    }

    /// Leads: forgets what an earlier leadership had in flight, sets every
    /// voter's progress up, and appends an empty entry of its own term, by
    /// which the entries of earlier terms get committed too. Reads wait until
    /// that entry is applied.
    pub(crate) fn become_leader(&mut self) -> (r: Result<()>)
        requires
            old(self)@.wf(),
            old(self)@.store.last_index() < u64::MAX - 1,
        ensures
            final(self)@.wf(),
            state::settled(
                r,
                final(self)@,
                old(self)@.become_leader(),
                S::reliable(),
                old(self)@.leader_stops(final(self)@),
            ),
            r is Err && old(self)@.others().len() == 0 ==> final(self)@.outbox
                == old(self)@.outbox,
    {
        let ghost before = self@;
        self.role = Role::Leader;
        self.leader_id = Some(self.config.id);
        self.heartbeat_elapsed = 0;
        self.inflight.clear();
        self.pending_reads.clear();
        self.send_count.clear();
        self.ack_count.clear();

        let id: u64 = self.config.id;
        let next: u64 = self.storage.last_index() + 1;
        let others = self.others();
        assign_each(&mut self.next_index, &others, next);
        assign_each(&mut self.match_index, &others, 0);

        let noop = LogEntry::normal(self.current_term(), next, Vec::new());
        let mut batch: Vec<LogEntry> = Vec::new();
        batch.push(noop);
        proof {
            assert(noop@ =~= before.noop());
            assert(types::entries_view(batch@) =~= seq![before.noop()]);
            self@.store.no_gap(types::entries_view(batch@), 0);
            assert(state::queue_of(self@.inflight, 0).len() == 0);
            assert(self@.inflight =~= Map::empty());
            assert(self@.wf());
        }
        proof {
            assert(ids::each(others@, next) =~= before.for_others(next));
            assert(ids::each(others@, 0) =~= before.for_others(0));
            assert(self@.pending_reads =~= Seq::empty());
            assert(self@ =~= before.mounting());
        }
        match self.storage.append(batch.as_slice()) {
            Ok(_) => {},
            Err(e) => {
                assert(before.mounting().but_for_store(self@));
                return Err(e);
            },
        }
        self.next_index.insert(id, next + 1);
        self.match_index.insert(id, next);
        self.readable_term = None;
        proof {
            assert(self@.pending_reads =~= Seq::empty());
            assert(self@.inflight =~= Map::empty());
            assert(self@ =~= before.crowned());
            assert(self@.wf());
        }
        match self.broadcast_append() {
            Ok(_) => {},
            Err(e) => return Err(e),
        }
        self.maybe_advance_commit()
    }

    pub(crate) fn handle_request_vote(&mut self, from: NodeId, req: RequestVoteReq) -> (r: Result<
        (),
    >)
        requires
            old(self)@.wf(),
        ensures
            final(self)@.wf(),
            state::settled(
                r,
                final(self)@,
                Outcome::ok(old(self)@.handle_request_vote(from, req)),
                S::reliable(),
                old(self)@.request_vote_stops(req, final(self)@),
            ),
            req.pre_vote ==> r is Ok,
            r is Err ==> final(self)@.outbox == old(self)@.outbox,
    {
        let last_term: u64 = self.storage.last_term();
        let up_to_date: bool = req.last_log_term > last_term || (req.last_log_term == last_term
            && req.last_log_index >= self.storage.last_index());
        if req.pre_vote {
            // The answer carries the node's own term, and the flag that keeps
            // it from being counted in a real election.
            let term: u64 = self.current_term();
            let resp = RequestVoteResp {
                term,
                vote_granted: req.term >= term && up_to_date,
                pre_vote: true,
            };
            self.push_message(from, Message::RequestVoteResp(resp));
            return Ok(());
        }
        if req.term > self.current_term() {
            match self.become_follower(req.term, None) {
                Ok(_) => {},
                Err(e) => return Err(e),
            }
        }
        let hs = self.storage.hard_state();
        let can_vote: bool = match hs.voted_for {
            None => true,
            Some(id) => id == req.candidate_id,
        };
        let granted: bool = req.term >= hs.current_term && up_to_date && can_vote;
        if granted {
            // The vote is stored before the answer is queued.
            let voted = HardState {
                current_term: hs.current_term,
                voted_for: Some(req.candidate_id),
            };
            let ghost asked = self@;
            match self.storage.save_hard_state(&voted) {
                Ok(_) => {},
                Err(e) => {
                    assert(asked.but_for_store(self@));
                    return Err(e);
                },
            }
        }
        let term: Term = hs.current_term;
        let resp = RequestVoteResp { term, vote_granted: granted, pre_vote: false };
        self.push_message(from, Message::RequestVoteResp(resp));
        assert(self@ =~= old(self)@.handle_request_vote(from, req));
        Ok(())
    }

    /// Counts an answer to a pre-vote or a vote, each only towards the kind of
    /// election that is being run.
    pub(crate) fn handle_vote_resp(&mut self, from: NodeId, resp: RequestVoteResp) -> (r: Result<
        (),
    >)
        requires
            old(self)@.wf(),
            old(self)@.has_room(),
        ensures
            final(self)@.wf(),
            state::settled(
                r,
                final(self)@,
                old(self)@.handle_vote_resp(from, resp),
                S::reliable(),
                old(self)@.vote_resp_stops(from, resp, final(self)@),
            ),
    {
        match self.role {
            Role::PreCandidate => {
                if !resp.pre_vote {
                    return Ok(());
                }
                if resp.term > self.current_term() {
                    return self.become_follower(resp.term, None);
                }
                if !resp.vote_granted {
                    return Ok(());
                }
                self.votes.insert(from);
                assert(self@ =~= NodeState { votes: old(self)@.votes.insert(from), ..old(self)@ });
                if self.votes.len() >= self.quorum() {
                    return self.become_candidate();
                }
                Ok(())
            },
            Role::Candidate => {
                if resp.pre_vote {
                    return Ok(());
                }
                let current_term: u64 = self.current_term();
                if resp.term > current_term {
                    return self.become_follower(resp.term, None);
                }
                if resp.term < current_term || !resp.vote_granted {
                    return Ok(());
                }
                self.votes.insert(from);
                assert(self@ =~= NodeState { votes: old(self)@.votes.insert(from), ..old(self)@ });
                if self.votes.len() >= self.quorum() {
                    return self.become_leader();
                }
                Ok(())
            },
            Role::Follower | Role::Leader => Ok(()),
        }
    }
}

} // verus!
