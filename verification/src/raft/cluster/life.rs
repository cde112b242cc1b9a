//! The life of one node: whatever is called on it, and however often it stops
//! and starts again.

use vstd::prelude::*;

use crate::raft::cluster::bringing;
use crate::raft::cluster::events;
use crate::raft::cluster::moves;
use crate::raft::cluster::{self, Move};
use crate::raft::node::laws::{self, Event};
use crate::raft::node::state::{NodeState, Outcome, Role};
use crate::raft::node::vote_laws;
use crate::raft::rpc::{MessageView, RequestVoteReq, RequestVoteResp};
use crate::raft::types::{HardState, NodeId, Term};

verus! {

/// What a move makes of the node.
pub open spec fn onward(a: NodeState, move_: Move) -> NodeState {
    match move_ {
        Move::Happens(event) => cluster::outcome(a, event),
        Move::Restarts => cluster::restarted(a).node,
    }
}

/// The node can take the move.
pub open spec fn takes(a: NodeState, move_: Move) -> bool {
    match move_ {
        Move::Happens(event) => a.admits(event),
        Move::Restarts => cluster::restarted(a).fault is None,
    }
}

/// A node that was just started over what its store holds.
pub open spec fn newborn(a: NodeState) -> bool {
    NodeState::started(a.config, a.store) == Outcome::ok(a)
}

/// What a run makes of the node.
pub open spec fn lived(start: NodeState, run: Seq<Move>) -> NodeState
    decreases run.len(),
{
    if run.len() == 0 {
        start
    } else {
        onward(lived(start, run.drop_last()), run.last())
    }
}

/// A run that can happen, from the start of the node.
pub open spec fn liveable(start: NodeState, run: Seq<Move>) -> bool
    decreases run.len(),
{
    if run.len() == 0 {
        newborn(start)
    } else {
        liveable(start, run.drop_last()) && takes(lived(start, run.drop_last()), run.last())
    }
}

/// The node after the first `k` moves.
pub open spec fn moment(start: NodeState, run: Seq<Move>, k: int) -> NodeState {
    lived(start, run.take(k))
}

/// One move after the other.
pub(crate) proof fn next_moment(start: NodeState, run: Seq<Move>, k: int)
    requires
        0 <= k < run.len(),
        liveable(start, run),
    ensures
        moment(start, run, k + 1) == onward(moment(start, run, k), run[k]),
        takes(moment(start, run, k), run[k]),
        liveable(start, run.take(k)),
        liveable(start, run.take(k + 1)),
    decreases run.len() - k,
{
    assert(run.take(k + 1).drop_last() =~= run.take(k));
    assert(run.take(k + 1).last() == run[k]);
    early_life(start, run, k + 1);
}

pub(crate) proof fn early_life(start: NodeState, run: Seq<Move>, k: int)
    requires
        0 <= k <= run.len(),
        liveable(start, run),
    ensures
        liveable(start, run.take(k)),
    decreases run.len(),
{
    if k == run.len() {
        assert(run.take(k) =~= run);
    } else {
        assert(run.drop_last().take(k) =~= run.take(k));
        early_life(start, run.drop_last(), k);
    }
}

/// What every move keeps of terms, votes and roles.
pub(crate) proof fn a_move_goes_on(a: NodeState, move_: Move)
    requires
        takes(a, move_),
    ensures
        ({
            let b = onward(a, move_);
            &&& laws::hard_state_follows(a.store.hs, b.store.hs)
            &&& b.config == a.config
            &&& match move_ {
                Move::Happens(event) => moves::role_step(a, event, b),
                Move::Restarts => b.role == Role::Follower && newborn(b),
            }
        }),
{
    match move_ {
        Move::Happens(event) => {
            laws::a_node_moves_forward(a, event);
            reveal(cluster::outcome);
            if cluster::brings_log(event) {
                bringing::a_bringing_step(a, event);
                reveal(bringing::bringing_step);
            } else {
                events::a_quiet_step(a, event);
                reveal(moves::quiet_step);
            }
        },
        Move::Restarts => {
            reveal(cluster::restarted);
        },
    }
}

/// Terms do not go back, and a vote stays for its term.
proof fn votes_go_on(start: NodeState, run: Seq<Move>, i: int, j: int)
    requires
        liveable(start, run),
        0 <= i <= j <= run.len(),
    ensures
        laws::hard_state_follows(
            moment(start, run, i).store.hs,
            moment(start, run, j).store.hs,
        ),
        moment(start, run, i).config == moment(start, run, j).config,
    decreases j - i,
{
    if i < j {
        votes_go_on(start, run, i, j - 1);
        next_moment(start, run, j - 1);
        a_move_goes_on(moment(start, run, j - 1), run[j - 1]);
    }
}

/// Whoever stands for a term has voted for itself in it.
proof fn candidates_vote_for_themselves(start: NodeState, run: Seq<Move>)
    requires
        liveable(start, run),
        lived(start, run).role == Role::Candidate,
    ensures
        lived(start, run).store.hs.voted_for == Some(lived(start, run).config.id),
    decreases run.len(),
{
    if run.len() > 0 {
        let before = run.drop_last();
        let a = lived(start, before);
        a_move_goes_on(a, run.last());
        if a.role == Role::Candidate {
            candidates_vote_for_themselves(start, before);
        }
    }
}

/// At move `i` of the run the node granted the request of the candidate, in a
/// real election.
pub open spec fn grants_at(
    start: NodeState,
    run: Seq<Move>,
    i: int,
    from: NodeId,
    req: RequestVoteReq,
) -> bool {
    &&& 0 <= i < run.len()
    &&& run[i] == Move::Happens(Event::Step(from, MessageView::RequestVote(req)))
    &&& !req.pre_vote
    &&& moment(start, run, i + 1).outbox == moment(start, run, i).outbox.push(
        (
            from,
            MessageView::RequestVoteResp(
                RequestVoteResp { term: req.term, vote_granted: true, pre_vote: false },
            ),
        ),
    )
}

/// What is granted is stored.
proof fn granted_is_stored(
    start: NodeState,
    run: Seq<Move>,
    i: int,
    from: NodeId,
    req: RequestVoteReq,
)
    requires
        liveable(start, run),
        grants_at(start, run, i, from, req),
    ensures
        moment(start, run, i + 1).store.hs == (HardState {
            current_term: req.term,
            voted_for: Some(req.candidate_id),
        }),
        moment(start, run, i).term() <= req.term,
        moment(start, run, i).term() == req.term ==> {
            ||| moment(start, run, i).store.hs.voted_for is None
            ||| moment(start, run, i).store.hs.voted_for == Some(req.candidate_id)
        },
{
    next_moment(start, run, i);
    one_grant(moment(start, run, i), moment(start, run, i + 1), from, req);
}

proof fn asking_is_handled(a: NodeState, from: NodeId, req: RequestVoteReq)
    ensures
        cluster::outcome(a, Event::Step(from, MessageView::RequestVote(req)))
            == a.handle_request_vote(from, req),
{
    reveal(cluster::outcome);
}

proof fn one_grant(a: NodeState, b: NodeState, from: NodeId, req: RequestVoteReq)
    requires
        b == cluster::outcome(a, Event::Step(from, MessageView::RequestVote(req))),
        !req.pre_vote,
        b.outbox == a.outbox.push(
            (
                from,
                MessageView::RequestVoteResp(
                    RequestVoteResp { term: req.term, vote_granted: true, pre_vote: false },
                ),
            ),
        ),
    ensures
        b.store.hs == (HardState { current_term: req.term, voted_for: Some(req.candidate_id) }),
        a.term() <= req.term,
        a.term() == req.term ==> a.store.hs.voted_for is None || a.store.hs.voted_for == Some(
            req.candidate_id,
        ),
{
    asking_is_handled(a, from, req);
    vote_laws::a_granted_vote_is_stored(a, from, req);
}

/// One vote per term. Whatever is called on a node, and however often it stops
/// and starts again over its store: two requests of one term that it granted
/// are of the same candidate.
pub proof fn one_candidate_per_term(
    start: NodeState,
    run: Seq<Move>,
    i: int,
    from_i: NodeId,
    req_i: RequestVoteReq,
    j: int,
    from_j: NodeId,
    req_j: RequestVoteReq,
)
    requires
        liveable(start, run),
        grants_at(start, run, i, from_i, req_i),
        grants_at(start, run, j, from_j, req_j),
        req_i.term == req_j.term,
    ensures
        req_i.candidate_id == req_j.candidate_id,
{
    granted_is_stored(start, run, i, from_i, req_i);
    granted_is_stored(start, run, j, from_j, req_j);
    if i < j {
        votes_go_on(start, run, i + 1, j);
    } else if j < i {
        votes_go_on(start, run, j + 1, i);
    }
}

/// A node that itself stands for a term grants that term to nobody else,
/// earlier or later.
pub proof fn a_candidate_grants_nobody_else(
    start: NodeState,
    run: Seq<Move>,
    k: int,
    i: int,
    from: NodeId,
    req: RequestVoteReq,
)
    requires
        liveable(start, run),
        0 <= k <= run.len(),
        moment(start, run, k).role == Role::Candidate,
        moment(start, run, k).term() == req.term,
        grants_at(start, run, i, from, req),
    ensures
        req.candidate_id == moment(start, run, k).config.id,
{
    early_life(start, run, k);
    candidates_vote_for_themselves(start, run.take(k));
    granted_is_stored(start, run, i, from, req);
    if k <= i {
        votes_go_on(start, run, k, i);
    } else {
        votes_go_on(start, run, i + 1, k);
    }
}

// ---- counting votes ----

/// At move `i` of the run a real grant for `term` came from `p`, while the node
/// stood for that term.
pub open spec fn affirmed_at(
    start: NodeState,
    run: Seq<Move>,
    i: int,
    p: NodeId,
    term: Term,
) -> bool {
    &&& 0 <= i < run.len()
    &&& run[i] == Move::Happens(
        Event::Step(
            p,
            MessageView::RequestVoteResp(
                RequestVoteResp { term, vote_granted: true, pre_vote: false },
            ),
        ),
    )
    &&& moment(start, run, i).role == Role::Candidate
    &&& moment(start, run, i).term() == term
}

/// Who sent the node a real grant while it stood for the term.
pub open spec fn affirmed(start: NodeState, run: Seq<Move>, term: Term) -> Set<NodeId> {
    Set::new(|p: NodeId| exists|i: int| #[trigger] affirmed_at(start, run, i, p, term))
}

/// Grants of a longer run.
proof fn affirmed_step(start: NodeState, run: Seq<Move>, term: Term)
    requires
        run.len() > 0,
    ensures
        affirmed(start, run, term) == affirmed(start, run.drop_last(), term).union(
            Set::new(|p: NodeId| affirmed_at(start, run, run.len() - 1, p, term)),
        ),
{
    let before = run.drop_last();
    let last = Set::new(|p: NodeId| affirmed_at(start, run, run.len() - 1, p, term));
    assert forall|i: int, p: NodeId| 0 <= i < before.len() implies affirmed_at(
        start,
        run,
        i,
        p,
        term,
    ) == #[trigger] affirmed_at(start, before, i, p, term) by {
        assert(run.take(i) =~= before.take(i));
    }
    assert forall|p: NodeId| affirmed(start, run, term).contains(p) == affirmed(
        start,
        before,
        term,
    ).union(last).contains(p) by {
        if affirmed(start, run, term).contains(p) {
            let i = choose|i: int| #[trigger] affirmed_at(start, run, i, p, term);
            if i < before.len() {
                assert(affirmed_at(start, before, i, p, term));
            }
        }
        if affirmed(start, before, term).contains(p) {
            let i = choose|i: int| #[trigger] affirmed_at(start, before, i, p, term);
            assert(affirmed_at(start, run, i, p, term));
        }
        if last.contains(p) {
            assert(affirmed_at(start, run, run.len() - 1, p, term));
        }
    }
    assert(affirmed(start, run, term) =~= affirmed(start, before, term).union(last));
}

/// Nobody affirms a term that has not come.
proof fn nobody_is_early(start: NodeState, run: Seq<Move>, term: Term)
    requires
        liveable(start, run),
        lived(start, run).term() < term,
    ensures
        affirmed(start, run, term) == Set::<NodeId>::empty(),
{
    assert(run.take(run.len() as int) =~= run);
    assert forall|p: NodeId| !affirmed(start, run, term).contains(p) by {
        if affirmed(start, run, term).contains(p) {
            let i = choose|i: int| #[trigger] affirmed_at(start, run, i, p, term);
            votes_go_on(start, run, i, run.len() as int);
        }
    }
    assert(affirmed(start, run, term) =~= Set::empty());
}

/// The votes that a candidate has counted are its own, if it is a voter, and
/// those of exactly the nodes that sent it a real grant in its term since its
/// candidacy began; a repeated grant counts once.
pub proof fn votes_are_what_was_granted(start: NodeState, run: Seq<Move>)
    requires
        liveable(start, run),
        lived(start, run).role == Role::Candidate,
    ensures
        lived(start, run).votes == lived(start, run).own_vote().union(
            affirmed(start, run, lived(start, run).term()),
        ),
    decreases run.len(),
{
    if run.len() > 0 {
        let before = run.drop_last();
        let (a, b) = (lived(start, before), lived(start, run));
        let term = b.term();
        a_move_goes_on(a, run.last());
        affirmed_step(start, run, term);
        assert(run.take(run.len() - 1) =~= before);
        let last = Set::new(|p: NodeId| affirmed_at(start, run, run.len() - 1, p, term));
        match run.last() {
            Move::Happens(event) => {
                if moves::fresh(a, b) {
                    nobody_is_early(start, before, term);
                    assert(last =~= Set::empty());
                } else {
                    assert(moves::goes_on(a, event, b));
                    votes_are_what_was_granted(start, before);
                    match moves::vote_brought(a, event) {
                        Some(v) => {
                            assert(last =~= Set::empty().insert(v));
                        },
                        None => {
                            assert(last =~= Set::empty());
                        },
                    }
                }
                assert(b.votes =~= b.own_vote().union(affirmed(start, run, term)));
            },
            Move::Restarts => {},
        }
    }
}

/// A candidate comes to lead by an answer only if the answer is a real grant of
/// its term, and the nodes that sent such a grant since its candidacy began,
/// each counted once, make up a majority together with its own vote.
pub proof fn a_candidate_wins_by_what_was_granted(
    start: NodeState,
    run: Seq<Move>,
    from: NodeId,
    resp: RequestVoteResp,
)
    requires
        liveable(start, run),
        lived(start, run).role == Role::Candidate,
        lived(start, run).handle_vote_resp(from, resp).node.role == Role::Leader,
    ensures
        ({
            let a = lived(start, run);
            let b = a.handle_vote_resp(from, resp).node;
            &&& resp == (RequestVoteResp { term: a.term(), vote_granted: true, pre_vote: false })
            &&& a.own_vote().union(affirmed(start, run, a.term())).insert(from).len() >= a.quorum()
        }),
{
    votes_are_what_was_granted(start, run);
}

} // verus!
