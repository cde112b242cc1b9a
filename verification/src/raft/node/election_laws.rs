//! Elections, by what nodes are asked and what they answer.

use vstd::prelude::*;

use crate::raft::cluster::moves;
use crate::raft::ids;
use crate::raft::node::laws;
use crate::raft::node::state::{self, NodeState, Role};
use crate::raft::rpc::{AppendView, MessageView, RequestVoteReq, RequestVoteResp};
use crate::raft::storage::Durable;
use crate::raft::types::{EntryType, HardState, LogIndex, NodeId, Term};

verus! {

/// The last entry of the log of a node, by term and index: behind the snapshot,
/// or the last that the snapshot covers.
pub open spec fn log_end(node: NodeState) -> (Term, int) {
    let s = node.store;
    (
        if s.entries.len() > 0 {
            s.entries[s.entries.len() - 1].term
        } else {
            s.base.last_term
        },
        s.base.last_index + s.entries.len(),
    )
}

/// The log of which the request tells is not behind that of the node: it ends in
/// a later term, or in the same term and no earlier.
pub open spec fn not_behind(node: NodeState, req: RequestVoteReq) -> bool {
    let (term, index) = log_end(node);
    ||| req.last_log_term > term
    ||| req.last_log_term == term && req.last_log_index >= index
}

/// Messages go to exactly these nodes, each with the same content.
pub open spec fn is_sent_to(
    before: Seq<(NodeId, MessageView)>,
    after: Seq<(NodeId, MessageView)>,
    nodes: Set<NodeId>,
    message: MessageView,
) -> bool {
    &&& before.len() <= after.len()
    &&& forall|i: int| 0 <= i < before.len() ==> #[trigger] after[i] == before[i]
    &&& forall|i: int|
        before.len() <= i < after.len() ==> nodes.contains((#[trigger] after[i]).0) && after[i].1
            == message
    &&& forall|p: NodeId| #[trigger]
        nodes.contains(p) ==> exists|i: int|
            before.len() <= i < after.len() && (#[trigger] after[i]).0 == p
    &&& after.len() - before.len() == nodes.len()
}

// ---- asking ----

/// The other voters, in a list without repeats.
pub(crate) proof fn others_are(node: NodeState)
    requires
        node.voters.finite(),
    ensures
        forall|p: NodeId| #[trigger]
            node.others().contains(p) <==> node.voters.contains(p) && p != node.config.id,
        node.others().no_duplicates(),
        node.others().len() == node.voters.remove(node.config.id).len(),
        node.others().to_set() == node.voters.remove(node.config.id),
{
    let all = ids::ascending(node.voters);
    let keep = state::except(node.config.id);
    ids::a_listing_exists(node.voters);
    ids::filtered_ascends(all, keep);
    let others = node.others();
    assert forall|p: NodeId| #[trigger] others.contains(p) <==> node.voters.contains(p) && p
        != node.config.id by {
        if others.contains(p) {
            let i = choose|i: int| 0 <= i < others.len() && others[i] == p;
            assert(keep(others[i]));
            assert(all.contains(others[i]));
            assert(all.to_set().contains(p));
        }
        if node.voters.contains(p) && p != node.config.id {
            assert(all.to_set().contains(p));
            let i = choose|i: int| 0 <= i < all.len() && all[i] == p;
            assert(keep(all[i]));
        }
    }
    assert(others.to_set() =~= node.voters.remove(node.config.id));
    others.unique_seq_to_set();
}

proof fn sending_reaches(node: NodeState, message: MessageView)
    requires
        node.voters.finite(),
    ensures
        is_sent_to(
            node.outbox,
            node.send_each(node.others(), message).outbox,
            node.voters.remove(node.config.id),
            message,
        ),
{
    let (before, others) = (node.outbox, node.others());
    others_are(node);
    let after = node.send_each(others, message).outbox;
    assert forall|p: NodeId| #[trigger]
        node.voters.remove(node.config.id).contains(p) implies exists|i: int|
        before.len() <= i < after.len() && (#[trigger] after[i]).0 == p by {
        assert(others.contains(p));
        let k = choose|k: int| 0 <= k < others.len() && others[k] == p;
        assert(after[before.len() + k].0 == p);
    }
    assert forall|i: int| before.len() <= i < after.len() implies node.voters.remove(
        node.config.id,
    ).contains((#[trigger] after[i]).0) by {
        assert(others.contains(others[i - before.len()]));
    }
}

/// A node that hears nothing for as long as it has set itself asks every other
/// voter whether it would be elected in the next term, and tells the end of its
/// own log. It enters no term and casts no vote yet; a node that can win alone
/// wins. Before that it only counts.
pub proof fn silence_leads_to_a_pre_vote(node: NodeState)
    requires
        node.wf(),
        node.has_room(),
        node.role != Role::Leader,
    ensures
        ({
            let after = node.tick();
            let (term, index) = log_end(node);
            let others = node.voters.remove(node.config.id);
            let alone = node.voters.contains(node.config.id) && others.len() == 0;
            &&& node.elapsed + 1 < node.election_deadline ==> {
                &&& after.fault is None
                &&& after.node.elapsed == node.elapsed + 1
                &&& after.node.role == node.role
                &&& after.node.store == node.store
                &&& after.node.outbox == node.outbox
                &&& after.node.election_deadline == node.election_deadline
            }
            &&& node.elapsed + 1 >= node.election_deadline && !alone ==> {
                &&& after.fault is None
                &&& after.node.role == Role::PreCandidate
                &&& after.node.leader is None
                &&& after.node.store == node.store
                &&& after.node.elapsed == 0
                &&& is_sent_to(
                    node.outbox,
                    after.node.outbox,
                    others,
                    MessageView::RequestVote(
                        RequestVoteReq {
                            term: (node.store.hs.current_term + 1) as u64,
                            candidate_id: node.config.id,
                            last_log_index: index as u64,
                            last_log_term: term,
                            pre_vote: true,
                        },
                    ),
                )
                &&& after.node.votes == if node.voters.contains(node.config.id) {
                    Set::empty().insert(node.config.id)
                } else {
                    Set::empty()
                }
            }
            &&& node.elapsed + 1 >= node.election_deadline && alone ==> {
                &&& after.node.role == Role::Leader
                &&& after.node.store.hs.current_term == node.store.hs.current_term + 1
                &&& after.node.store.hs.voted_for == Some(node.config.id)
            }
        }),
{
    let waited = NodeState { elapsed: (node.elapsed + 1) as u64, ..node };
    let request = waited.vote_request((node.term() + 1) as u64, true);
    let opened = NodeState {
        role: Role::PreCandidate,
        leader: None,
        votes: waited.own_vote(),
        ..waited
    };
    sending_reaches(opened, request);
    others_are(node);
    let id = node.config.id;
    let others = node.voters.remove(id);
    if node.voters.contains(id) {
        assert(node.voters =~= others.insert(id));
    } else {
        assert(others =~= node.voters);
    }
    if waited.elapsed >= waited.election_deadline {
        let asked = opened.send_each(waited.others(), request).reset_election_timer();
        assert(asked.votes.len() <= 1);
        if node.voters.contains(id) && others.len() == 0 {
            assert(asked.votes.len() == 1);
            a_candidate_stands(asked);
        }
    }
}

/// A node that stands for election does so in the next term, votes for itself,
/// and asks every other voter, telling the end of its log. Its wait begins anew.
/// It leads at once only if its own vote is more than half.
pub proof fn a_candidate_stands(node: NodeState)
    requires
        node.voters.finite(),
        node.store.wf(),
        node.store.last_index() < u64::MAX - 1,
        node.term() < u64::MAX,
    ensures
        ({
            let after = node.become_candidate();
            let (term, index) = log_end(node);
            let others = node.voters.remove(node.config.id);
            let alone = node.voters.contains(node.config.id) && others.len() == 0;
            &&& after.node.store.hs.current_term == node.store.hs.current_term + 1
            &&& after.node.store.hs.voted_for == Some(node.config.id)
            &&& alone ==> after.node.role == Role::Leader
            &&& !alone ==> {
                &&& after.fault is None
                &&& after.node.role == Role::Candidate
                &&& after.node.elapsed == 0
                &&& after.node.rng != node.rng
                &&& after.node.store.entries == node.store.entries
                &&& after.node.votes == if node.voters.contains(node.config.id) {
                    Set::empty().insert(node.config.id)
                } else {
                    Set::empty()
                }
                &&& is_sent_to(
                    node.outbox,
                    after.node.outbox,
                    others,
                    MessageView::RequestVote(
                        RequestVoteReq {
                            term: (node.store.hs.current_term + 1) as u64,
                            candidate_id: node.config.id,
                            last_log_index: index as u64,
                            last_log_term: term,
                            pre_vote: false,
                        },
                    ),
                )
            }
        }),
{
    let id = node.config.id;
    let others = node.voters.remove(id);
    let stood = node.standing();
    let term = (node.term() + 1) as u64;
    let opened = NodeState { role: Role::Candidate, votes: node.own_vote(), ..node }
        .with_hard_state(
        HardState { current_term: term, voted_for: Some(id) },
    ).reset_election_timer();
    sending_reaches(opened, node.vote_request(term, false));
    if node.voters.contains(id) {
        assert(node.voters =~= others.insert(id));
    } else {
        assert(others =~= node.voters);
    }
    if stood.votes.len() >= stood.quorum() {
        moves::winning(stood);
    }
}

// ---- answering ----

/// A pre-vote is granted exactly if the term asked for is no earlier than the
/// node's and the candidate's log is not behind the node's: by the last term
/// first, and by the index only where the terms are equal. The answer carries the
/// node's own term, and nothing else changes.
pub proof fn a_pre_vote_goes_by_the_log(node: NodeState, from: NodeId, req: RequestVoteReq)
    requires
        node.wf(),
        req.pre_vote,
    ensures
        ({
            let after = node.step(from, MessageView::RequestVote(req));
            &&& after.fault is None
            &&& after.node == (NodeState { outbox: after.node.outbox, ..node })
            &&& after.node.outbox.len() == node.outbox.len() + 1
            &&& after.node.outbox.drop_last() == node.outbox
            &&& after.node.outbox.last().0 == from
            &&& after.node.outbox.last().1 matches MessageView::RequestVoteResp(resp) && {
                &&& resp.pre_vote
                &&& resp.term == node.store.hs.current_term
                &&& resp.vote_granted <==> req.term >= node.store.hs.current_term && not_behind(
                    node,
                    req,
                )
            }
        }),
{
    let after = node.step(from, MessageView::RequestVote(req));
    assert(after.node.outbox.drop_last() =~= node.outbox);
}

/// The vote in the answer that a node gives to a request.
pub open spec fn answer(node: NodeState, from: NodeId, req: RequestVoteReq) -> MessageView {
    node.step(from, MessageView::RequestVote(req)).node.outbox.last().1
}

/// Whoever would get the vote gets the pre-vote: a candidate that could win is
/// not held back by the round before.
pub proof fn a_pre_vote_holds_no_winner_back(node: NodeState, from: NodeId, req: RequestVoteReq)
    requires
        node.wf(),
        !req.pre_vote,
        answer(node, from, req) matches MessageView::RequestVoteResp(resp) && resp.vote_granted,
    ensures
        answer(node, from, RequestVoteReq { pre_vote: true, ..req }) matches
            MessageView::RequestVoteResp(resp) && resp.vote_granted && resp.pre_vote,
{
    a_vote_goes_by_term_log_and_vote(node, from, req);
    a_pre_vote_goes_by_the_log(node, from, RequestVoteReq { pre_vote: true, ..req });
}

/// And whoever gets the pre-vote for a later term than the node's would get the
/// vote.
pub proof fn a_pre_vote_is_kept(node: NodeState, from: NodeId, req: RequestVoteReq)
    requires
        node.wf(),
        req.pre_vote,
        req.term > node.store.hs.current_term,
        answer(node, from, req) matches MessageView::RequestVoteResp(resp) && resp.vote_granted,
    ensures
        answer(node, from, RequestVoteReq { pre_vote: false, ..req }) matches
            MessageView::RequestVoteResp(resp) && resp.vote_granted && resp.term == req.term,
{
    a_pre_vote_goes_by_the_log(node, from, req);
    a_vote_goes_by_term_log_and_vote(node, from, RequestVoteReq { pre_vote: false, ..req });
}

/// A longer or later log is never worse: what a candidate gets with one log, it
/// gets with any that is not behind that.
pub proof fn a_better_log_is_no_worse(
    node: NodeState,
    from: NodeId,
    req: RequestVoteReq,
    other: RequestVoteReq,
)
    requires
        node.wf(),
        answer(node, from, req) matches MessageView::RequestVoteResp(resp) && resp.vote_granted,
        other.term == req.term,
        other.candidate_id == req.candidate_id,
        other.pre_vote == req.pre_vote,
        other.last_log_term > req.last_log_term || (other.last_log_term == req.last_log_term
            && other.last_log_index >= req.last_log_index),
    ensures
        answer(node, from, other) matches MessageView::RequestVoteResp(resp) && resp.vote_granted,
{
    if req.pre_vote {
        a_pre_vote_goes_by_the_log(node, from, req);
        a_pre_vote_goes_by_the_log(node, from, other);
    } else {
        a_vote_goes_by_term_log_and_vote(node, from, req);
        a_vote_goes_by_term_log_and_vote(node, from, other);
    }
}

/// A vote is granted exactly if the term is no earlier than the node's, the
/// candidate's log is not behind the node's, and the node has given its vote in
/// that term to nobody else. A later term is entered first, whether or not the
/// vote is granted. A granted vote is stored with the term, and the answer says
/// which term it is for. In a later term the node follows, and its wait begins
/// anew; in its own, nothing else changes.
pub proof fn a_vote_goes_by_term_log_and_vote(node: NodeState, from: NodeId, req: RequestVoteReq)
    requires
        node.wf(),
        !req.pre_vote,
    ensures
        ({
            let after = node.step(from, MessageView::RequestVote(req));
            let hs = node.store.hs;
            let granted = {
                &&& req.term >= hs.current_term
                &&& not_behind(node, req)
                &&& req.term > hs.current_term || hs.voted_for is None || hs.voted_for == Some(
                    req.candidate_id,
                )
            };
            let term = if req.term > hs.current_term {
                req.term
            } else {
                hs.current_term
            };
            &&& after.fault is None
            &&& after.node.outbox.len() == node.outbox.len() + 1
            &&& after.node.outbox.drop_last() == node.outbox
            &&& after.node.outbox.last() == (
                from,
                MessageView::RequestVoteResp(
                    RequestVoteResp { term, vote_granted: granted, pre_vote: false },
                ),
            )
            &&& after.node.store.hs.current_term == term
            &&& after.node.store.hs.voted_for == if granted {
                Some(req.candidate_id)
            } else if req.term > hs.current_term {
                None
            } else {
                hs.voted_for
            }
            &&& after.node.store.entries == node.store.entries
            &&& after.node.store.base == node.store.base
            &&& req.term > hs.current_term ==> {
                &&& after.node.role == Role::Follower
                &&& after.node.leader is None
                &&& after.node.elapsed == 0
                &&& after.node.inflight == Map::<NodeId, Seq<LogIndex>>::empty()
                &&& after.node.commit_index == node.commit_index
                &&& after.node.last_applied == node.last_applied
                &&& after.node.voters == node.voters
            }
            &&& req.term <= hs.current_term ==> after.node == (NodeState {
                outbox: after.node.outbox,
                store: after.node.store,
                ..node
            })
        }),
{
    let after = node.step(from, MessageView::RequestVote(req));
    assert(after.node.outbox.drop_last() =~= node.outbox);
}

// ---- counting ----

/// An answer counts if it is a grant of the kind that the node asks for, and for
/// a vote of the node's own term.
pub open spec fn counts(node: NodeState, resp: RequestVoteResp) -> bool {
    ||| node.role == Role::PreCandidate && resp.pre_vote && resp.vote_granted && resp.term
        <= node.store.hs.current_term
    ||| node.role == Role::Candidate && !resp.pre_vote && resp.vote_granted && resp.term
        == node.store.hs.current_term
}

/// A candidate leads as soon as more than half of the voters have granted it
/// their votes, and not before; an answer of a later term makes it follow. Then
/// it has an empty entry of its own term behind its log.
pub proof fn more_than_half_elect(node: NodeState, from: NodeId, resp: RequestVoteResp)
    requires
        node.wf(),
        node.has_room(),
        node.role == Role::Candidate,
    ensures
        ({
            let after = node.step(from, MessageView::RequestVoteResp(resp));
            let enough = 2 * node.votes.insert(from).len() > node.voters.len();
            &&& counts(node, resp) ==> after.node.votes == node.votes.insert(from)
            &&& after.node.role == Role::Leader <==> counts(node, resp) && enough
            &&& after.node.role == Role::Leader ==> {
                let s = after.node.store;
                &&& s.hs == node.store.hs
                &&& s.entries.len() == node.store.entries.len() + 1
                &&& s.entries.drop_last() == node.store.entries
                &&& s.entries.last().term == node.store.hs.current_term
                &&& s.entries.last().command.len() == 0
                &&& s.entries.last().entry_type == EntryType::Normal
                &&& after.node.leader == Some(node.config.id)
            }
            &&& counts(node, resp) && !enough ==> after.node == (NodeState {
                votes: node.votes.insert(from),
                ..node
            })
            &&& !resp.pre_vote && resp.term > node.store.hs.current_term ==> {
                &&& after.node.role == Role::Follower
                &&& after.node.store.hs.current_term == resp.term
                &&& after.node.store.hs.voted_for is None
            }
            &&& !counts(node, resp) && !(!resp.pre_vote && resp.term
                > node.store.hs.current_term) ==> after.node == node
        }),
{
    let counted = NodeState { votes: node.votes.insert(from), ..node };
    moves::winning(counted);
    laws::leading_frame(counted);
    if counts(node, resp) && counted.votes.len() >= counted.quorum() {
        let s = counted.become_leader().node.store;
        assert(s.entries.drop_last() =~= node.store.entries);
        let crowned = counted.crowned();
        laws::sending_frame(crowned, crowned.others());
        let sent = crowned.broadcast_append().node;
        assert(sent.leader == Some(node.config.id));
        assert(sent.advance_commit().role == Role::Leader ==> sent.advance_commit().leader
            == sent.leader);
    }
}

/// A node that asks for pre-votes stands for election as soon as more than half
/// of the voters would elect it, and not before; an answer of a later term makes
/// it follow.
pub proof fn more_than_half_nominate(node: NodeState, from: NodeId, resp: RequestVoteResp)
    requires
        node.wf(),
        node.has_room(),
        node.role == Role::PreCandidate,
    ensures
        ({
            let after = node.step(from, MessageView::RequestVoteResp(resp));
            let enough = 2 * node.votes.insert(from).len() > node.voters.len();
            &&& counts(node, resp) && enough ==> {
                &&& after.node.role == Role::Candidate || after.node.role == Role::Leader
                &&& after.node.role == Role::Candidate ==> after.node.elapsed == 0
                &&& after.node.store.hs.current_term == node.store.hs.current_term + 1
                &&& after.node.store.hs.voted_for == Some(node.config.id)
                &&& after.node.role == Role::Leader <==> node.voters.contains(node.config.id)
                    && node.voters.remove(node.config.id).len() == 0
            }
            &&& counts(node, resp) && !enough ==> after.node == (NodeState {
                votes: node.votes.insert(from),
                ..node
            })
            &&& resp.pre_vote && resp.term > node.store.hs.current_term ==> {
                &&& after.node.role == Role::Follower
                &&& after.node.store.hs.current_term == resp.term
                &&& after.node.store.hs.voted_for is None
            }
            &&& !counts(node, resp) && !(resp.pre_vote && resp.term
                > node.store.hs.current_term) ==> after.node == node
        }),
{
    let counted = NodeState { votes: node.votes.insert(from), ..node };
    a_candidate_stands(counted);
}

/// A node that asks for nothing takes no answers.
pub proof fn answers_unasked_for_are_dropped(node: NodeState, from: NodeId, resp: RequestVoteResp)
    requires
        node.role == Role::Follower || node.role == Role::Leader,
    ensures
        node.step(from, MessageView::RequestVoteResp(resp)).node == node,
        node.step(from, MessageView::RequestVoteResp(resp)).fault is None,
{
}

/// A node that starts to wait waits for at least the timeout that it was given,
/// and for less than twice that.
pub proof fn a_wait_is_within_twice_the_timeout(node: NodeState)
    requires
        node.wf(),
        node.config.election_timeout > 0,
    ensures
        ({
            let after = node.reset_election_timer();
            &&& after.elapsed == 0
            &&& node.config.election_timeout <= after.election_deadline < 2
                * node.config.election_timeout
        }),
{
}

/// Every wait from the timeout up to twice that can be drawn, and no two draws
/// below the timeout give the same.
pub proof fn every_wait_can_be_drawn(base: u64, wait: u64, draw: u64)
    requires
        0 < base <= wait < 2 * base,
        draw < base,
        base + draw <= u64::MAX,
    ensures
        state::jittered(base, (wait - base) as u64) == wait,
        state::jittered(base, draw) == wait ==> draw == wait - base,
{
    if base > 1 {
        vstd::arithmetic::div_mod::lemma_small_mod((wait - base) as nat, base as nat);
        vstd::arithmetic::div_mod::lemma_small_mod(draw as nat, base as nat);
    }
}

/// The generator moves on with every wait that it draws, and the wait is what it
/// draws then.
pub proof fn waits_are_drawn_anew(node: NodeState)
    requires
        node.wf(),
    ensures
        ({
            let after = node.reset_election_timer();
            &&& after.rng != node.rng
            &&& after.election_deadline == state::jittered(
                node.config.election_timeout,
                state::rng_value(after.rng),
            )
            &&& after == (NodeState {
                elapsed: 0,
                election_deadline: after.election_deadline,
                rng: after.rng,
                ..node
            })
        }),
{
}

/// Nodes that were given the same seed still draw from different states, so that
/// they do not keep waiting for the same time. Each waits from the start.
pub proof fn nodes_draw_for_themselves(
    config: state::ConfigView,
    other: state::ConfigView,
    store: Durable,
    others_store: Durable,
)
    requires
        config.seed == other.seed,
        config.id != other.id,
        0 < config.election_timeout <= 0x8000_0000_0000_0000,
    ensures
        ({
            let node = NodeState::started(config, store).node;
            &&& node.rng != NodeState::started(other, others_store).node.rng
            &&& node.elapsed == 0
            &&& config.election_timeout <= node.election_deadline < 2 * config.election_timeout
        }),
{
    let (s, a, b) = (config.seed, config.id, other.id);
    assert(a != b ==> s ^ a != s ^ b) by (bit_vector);
}

/// Whatever a node is, a leader of a later term, or of its own, is one that it
/// follows, and its wait begins anew.
pub proof fn a_leader_is_followed(node: NodeState, from: NodeId, req: AppendView)
    requires
        node.wf(),
        node.has_room_for(MessageView::AppendEntries(req)),
        req.term >= node.store.hs.current_term,
    ensures
        ({
            let after = node.step(from, MessageView::AppendEntries(req)).node;
            &&& after.role == Role::Follower
            &&& after.leader == Some(req.leader_id)
            &&& after.store.hs.current_term == req.term
            &&& after.elapsed == 0
            &&& after.rng != node.rng
            &&& after.inflight == Map::<NodeId, Seq<LogIndex>>::empty()
            &&& req.term == node.store.hs.current_term ==> after.store.hs == node.store.hs
            &&& req.term > node.store.hs.current_term ==> after.store.hs.voted_for is None
        }),
{
    let following = node.become_follower(req.term, Some(req.leader_id));
    let adopted = following.adopt_entries(req.entries);
    assert(adopted.node.store.hs == following.store.hs);
    assert(adopted.node.role == Role::Follower);
}

} // verus!
