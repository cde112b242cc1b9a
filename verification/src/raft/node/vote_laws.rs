//! Elections and reads: what counts, and what does not.

use vstd::prelude::*;

use crate::raft::ids;
use crate::raft::node::laws::{self, Event};
use crate::raft::node::state::{self, NodeState, Outcome, ReadToken, ReadView, Role};
use crate::raft::rpc::{MessageView, RequestVoteReq, RequestVoteResp};
use crate::raft::types::{HardState, NodeId};

verus! {

/// Answering a pre-vote changes nothing but the outbox: no term is entered, no
/// vote is cast, nothing is stored.
pub proof fn a_pre_vote_leaves_no_trace(node: NodeState, from: NodeId, req: RequestVoteReq)
    requires
        req.pre_vote,
    ensures
        ({
            let after = node.handle_request_vote(from, req);
            after == NodeState { outbox: after.outbox, ..node }
        }),
{
}

/// Asking for pre-votes stores nothing, unless the node's own vote decides.
pub proof fn asking_for_pre_votes_stores_nothing(node: NodeState)
    requires
        node.own_vote().len() < node.quorum(),
    ensures
        node.start_prevote().fault is None,
        node.start_prevote().node.store == node.store,
        node.start_prevote().node.role == Role::PreCandidate,
        node.start_prevote().node.leader is None,
{
}

/// A pre-vote never counts in an election, nor a vote among pre-votes,
/// whatever term the answer carries.
pub proof fn answers_count_only_for_their_kind(node: NodeState, from: NodeId, resp: RequestVoteResp)
    requires
        node.role == Role::Candidate && resp.pre_vote || node.role == Role::PreCandidate
            && !resp.pre_vote,
    ensures
        node.handle_vote_resp(from, resp) == Outcome::ok(node),
{
}

/// A vote goes only to a candidate of the node's own term whose log is at least
/// as far as the node's, and only if no other candidate has it; it is stored
/// together with the answer.
pub proof fn a_granted_vote_is_stored(node: NodeState, from: NodeId, req: RequestVoteReq)
    requires
        !req.pre_vote,
        node.handle_request_vote(from, req).outbox.last() == (from, MessageView::RequestVoteResp(
            RequestVoteResp { term: req.term, vote_granted: true, pre_vote: false },
        )),
    ensures
        ({
            let after = node.handle_request_vote(from, req);
            &&& after.store.hs == HardState {
                current_term: req.term,
                voted_for: Some(req.candidate_id),
            }
            &&& node.log_at_least(req)
            &&& node.term() <= req.term
            &&& node.term() == req.term ==> node.store.hs.voted_for is None
                || node.store.hs.voted_for == Some(req.candidate_id)
        }),
{
    let after = node.handle_request_vote(from, req);
    let before = if req.term > node.term() {
        node.become_follower(req.term, None)
    } else {
        node
    };
    let resp = RequestVoteResp {
        term: before.term(),
        vote_granted: before.grants(req),
        pre_vote: false,
    };
    assert(after.outbox.last() == (from, MessageView::RequestVoteResp(resp)));
}

proof fn leader_has_votes(node: NodeState)
    requires
        node.votes.len() >= node.quorum(),
    ensures
        node.become_leader().node.votes.len() >= node.become_leader().node.quorum(),
{
    laws::leading_frame(node);
}

proof fn candidate_has_votes(node: NodeState)
    ensures
        node.become_candidate().node.role == Role::Leader
            ==> node.become_candidate().node.votes.len()
            >= node.become_candidate().node.quorum(),
{
    let term = (node.term() + 1) as u64;
    let standing = NodeState { role: Role::Candidate, votes: node.own_vote(), ..node }
        .with_hard_state(HardState { current_term: term, voted_for: Some(node.config.id) })
        .reset_election_timer()
        .send_each(node.others(), node.vote_request(term, false));
    if standing.votes.len() >= standing.quorum() {
        leader_has_votes(standing);
    }
}

proof fn tick_has_votes(node: NodeState)
    requires
        node.role != Role::Leader,
        node.tick().node.role == Role::Leader,
    ensures
        node.tick().node.votes.len() >= node.tick().node.quorum(),
{
    let waited = NodeState { elapsed: (node.elapsed + 1) as u64, ..node };
    let asked = NodeState {
        role: Role::PreCandidate,
        leader: None,
        votes: waited.own_vote(),
        ..waited
    }.send_each(
        waited.others(),
        waited.vote_request((waited.term() + 1) as u64, true),
    ).reset_election_timer();
    candidate_has_votes(asked);
}

proof fn vote_resp_has_votes(node: NodeState, from: NodeId, resp: RequestVoteResp)
    requires
        node.role != Role::Leader,
        node.handle_vote_resp(from, resp).node.role == Role::Leader,
    ensures
        node.handle_vote_resp(from, resp).node.votes.len()
            >= node.handle_vote_resp(from, resp).node.quorum(),
{
    let counted = NodeState { votes: node.votes.insert(from), ..node };
    candidate_has_votes(counted);
    if counted.votes.len() >= counted.quorum() {
        leader_has_votes(counted);
    }
}

proof fn other_steps_do_not_lead(node: NodeState, from: NodeId, message: MessageView)
    requires
        node.role != Role::Leader,
        message !is RequestVoteResp,
    ensures
        node.step(from, message).node.role != Role::Leader,
{
}

/// A node comes to lead only when the votes that it has counted make up a
/// quorum.
pub proof fn a_leader_has_a_quorum_of_votes(node: NodeState, event: Event)
    requires
        node.admits(event),
        node.role != Role::Leader,
        node.after(event).node.role == Role::Leader,
    ensures
        node.after(event).node.votes.len() >= node.after(event).node.quorum(),
{
    match event {
        Event::Tick => tick_has_votes(node),
        Event::Step(from, message) => {
            match message {
                MessageView::RequestVoteResp(resp) => vote_resp_has_votes(node, from, resp),
                _ => other_steps_do_not_lead(node, from, message),
            }
        },
        _ => {},
    }
}

// ---- reads ----

/// A read that has just been registered finds no peer in touch: whatever a
/// peer has answered so far was sent before the read began. Unless the node
/// decides alone, the read has to wait.
pub proof fn a_fresh_read_waits(node: NodeState, token: ReadToken)
    requires
        node.wf(),
    ensures
        ({
            let read = ReadView { token, floor: node.commit_index, barrier: node.send_count };
            &&& forall|p: NodeId|
                p != node.config.id ==> !#[trigger] state::in_touch(
                    node.config.id,
                    node.ack_count,
                    read.barrier,
                )(p)
            &&& node.contacted(read) <= 1
            &&& node.quorum() > 1 ==> !node.confirmed(read)
        }),
{
    let read = ReadView { token, floor: node.commit_index, barrier: node.send_count };
    let p = state::in_touch(node.config.id, node.ack_count, read.barrier);
    assert forall|q: NodeId| q != node.config.id implies !#[trigger] p(q) by {
        assert(node.ack(q) + state::queue_of(node.inflight, q).len() <= node.sent(q));
    }
    let group = node.voters.filter(p);
    let only = Set::<NodeId>::empty().insert(node.config.id);
    assert(group.subset_of(only));
    vstd::set_lib::lemma_len_subset(group, only);
}

/// A peer that counts as in touch has been sent something since the read
/// began. Its answers are to different requests, so one of them is to such a
/// request: of more than `barrier` different requests, one is beyond the first
/// `barrier`.
pub proof fn an_answer_beyond_the_barrier(
    node: NodeState,
    read: ReadView,
    peer: NodeId,
    answered: Set<nat>,
)
    requires
        node.wf(),
        peer != node.config.id,
        state::in_touch(node.config.id, node.ack_count, read.barrier)(peer),
        answered.finite(),
        answered.len() == node.ack(peer),
    ensures
        node.sent(peer) > ids::value_or(read.barrier, peer, 0),
        exists|request: nat|
            answered.contains(request) && request >= ids::value_or(read.barrier, peer, 0),
{
    assert(node.ack(peer) + state::queue_of(node.inflight, peer).len() <= node.sent(peer));
    let barrier = ids::value_or(read.barrier, peer, 0);
    if forall|request: nat| answered.contains(request) ==> request < barrier {
        let early = Set::new(|n: nat| n < barrier);
        first_numbers(barrier as nat);
        assert(answered.subset_of(early));
        vstd::set_lib::lemma_len_subset(answered, early);
    }
}

proof fn first_numbers(n: nat)
    ensures
        Set::new(|i: nat| i < n).finite(),
        Set::new(|i: nat| i < n).len() == n,
    decreases n,
{
    let all = Set::new(|i: nat| i < n);
    if n == 0 {
        assert(all =~= Set::empty());
    } else {
        let fewer = (n - 1) as nat;
        first_numbers(fewer);
        assert(all =~= Set::new(|i: nat| i < fewer).insert(fewer));
    }
}

proof fn tokens_are_confirmed(node: NodeState, reads: Seq<ReadView>)
    ensures
        forall|i: int|
            0 <= i < node.confirmed_tokens(reads).len() ==> exists|j: int|
                0 <= j < reads.len() && (#[trigger] reads[j]).token == (
                #[trigger] node.confirmed_tokens(reads)[i]) && node.confirmed(reads[j]),
        forall|j: int|
            0 <= j < reads.len() && node.confirmed(#[trigger] reads[j])
                ==> node.confirmed_tokens(reads).contains(reads[j].token),
        forall|j: int|
            0 <= j < reads.len() && !node.confirmed(#[trigger] reads[j]) ==> node.unconfirmed(
                reads,
            ).contains(reads[j]),
        node.confirmed_tokens(reads).len() + node.unconfirmed(reads).len() == reads.len(),
    decreases reads.len(),
{
    if reads.len() > 0 {
        let before = reads.drop_last();
        tokens_are_confirmed(node, before);
        let (tokens, was) = (node.confirmed_tokens(reads), node.confirmed_tokens(before));
        let (kept, had) = (node.unconfirmed(reads), node.unconfirmed(before));
        let last = reads.len() - 1;
        assert forall|i: int| 0 <= i < tokens.len() implies exists|j: int|
            0 <= j < reads.len() && (#[trigger] reads[j]).token == (#[trigger] tokens[i])
                && node.confirmed(reads[j]) by {
            if i < was.len() {
                assert(was[i] == tokens[i]);
                let j = choose|j: int|
                    0 <= j < before.len() && (#[trigger] before[j]).token == was[i]
                        && node.confirmed(before[j]);
                assert(reads[j] == before[j]);
            } else {
                assert(reads[last].token == tokens[i]);
            }
        }
        assert forall|j: int| 0 <= j < reads.len() && node.confirmed(#[trigger] reads[j]) implies
            tokens.contains(reads[j].token) by {
            if j < last {
                assert(before[j] == reads[j]);
                let i = choose|i: int| 0 <= i < was.len() && was[i] == reads[j].token;
                assert(tokens[i] == reads[j].token);
            } else {
                assert(tokens[was.len() as int] == reads[j].token);
            }
        }
        assert forall|j: int| 0 <= j < reads.len() && !node.confirmed(#[trigger] reads[j]) implies
            kept.contains(reads[j]) by {
            if j < last {
                assert(before[j] == reads[j]);
                let i = choose|i: int| 0 <= i < had.len() && had[i] == reads[j];
                assert(kept[i] == reads[j]);
            } else {
                assert(kept[had.len() as int] == reads[j]);
            }
        }
    }
}

/// A read is released only by a leader that has applied an entry of its own
/// term, has heard from a quorum since the read began, and has applied all that
/// was committed by then. Each such read is released and no other; what is not
/// released keeps waiting.
pub proof fn only_confirmed_reads_are_released(node: NodeState)
    requires
        node.role == Role::Leader,
        node.readable_term == Some(node.term()),
    ensures
        ({
            let reads = node.pending_reads;
            let after = node.release_reads();
            let tokens = node.confirmed_tokens(reads);
            &&& after.reads_buf == node.reads_buf + tokens
            &&& forall|i: int|
                0 <= i < tokens.len() ==> exists|j: int|
                    0 <= j < reads.len() && (#[trigger] reads[j]).token == (#[trigger] tokens[i])
                        && node.contacted(reads[j]) >= node.quorum() && node.last_applied
                        >= reads[j].floor
            &&& forall|j: int|
                0 <= j < reads.len() && node.confirmed(#[trigger] reads[j]) ==> tokens.contains(
                    reads[j].token,
                )
            &&& forall|j: int|
                0 <= j < reads.len() && !node.confirmed(#[trigger] reads[j])
                    ==> after.pending_reads.contains(reads[j])
            &&& tokens.len() + after.pending_reads.len() == reads.len()
        }),
{
    tokens_are_confirmed(node, node.pending_reads);
    let reads = node.pending_reads;
    let tokens = node.confirmed_tokens(reads);
    assert forall|i: int| 0 <= i < tokens.len() implies exists|j: int|
        0 <= j < reads.len() && (#[trigger] reads[j]).token == (#[trigger] tokens[i])
            && node.contacted(reads[j]) >= node.quorum() && node.last_applied >= reads[j].floor by {
        let j = choose|j: int|
            0 <= j < reads.len() && (#[trigger] reads[j]).token == tokens[i] && node.confirmed(
                reads[j],
            );
        assert(reads[j].token == tokens[i]);
    }
}

/// A node that does not lead releases no read: it drops what is pending.
pub proof fn a_deposed_leader_drops_its_reads(node: NodeState)
    requires
        node.role != Role::Leader,
    ensures
        node.release_reads().reads_buf == node.reads_buf,
        node.release_reads().pending_reads.len() == 0,
{
}

/// A leader that has not applied an entry of its own term releases no read.
pub proof fn a_new_leader_holds_its_reads(node: NodeState)
    requires
        node.role == Role::Leader,
        node.readable_term != Some(node.term()),
    ensures
        node.release_reads() == node,
{
}

/// A success without a request in flight is a duplicate: it advances nothing
/// and counts towards no read.
pub proof fn a_duplicate_success_counts_for_nothing(node: NodeState, peer: NodeId)
    requires
        node.queue(peer).len() == 0,
    ensures
        node.acknowledged(peer) == node,
{
}

/// A success is credited to the oldest request in flight, and a peer's known
/// progress never shrinks by it.
pub proof fn a_success_credits_the_oldest_request(node: NodeState, peer: NodeId)
    requires
        node.wf(),
        node.queue(peer).len() > 0,
    ensures
        node.acknowledged(peer).matched(peer) >= node.queue(peer)[0],
        node.acknowledged(peer).matched(peer) >= node.matched(peer),
        node.acknowledged(peer).matched(peer) == node.queue(peer)[0]
            || node.acknowledged(peer).matched(peer) == node.matched(peer),
        node.acknowledged(peer).queue(peer) == node.queue(peer).skip(1),
        node.acknowledged(peer).ack(peer) == node.ack(peer) + 1,
{
    assert(node.ack(peer) + state::queue_of(node.inflight, peer).len() <= node.sent(peer));
}

} // verus!
