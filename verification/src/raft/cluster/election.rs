//! No term has two leaders.

use vstd::prelude::*;

use crate::raft::cluster::bringing;
use crate::raft::cluster::events;
use crate::raft::cluster::moves;
use crate::raft::cluster::{self, Cluster, Move};
use crate::raft::node::laws::{self, Event};
use crate::raft::node::quorum_laws;
use crate::raft::node::state::{NodeState, Role};
use crate::raft::rpc::{MessageView, RequestVoteReq, RequestVoteResp};
use crate::raft::types::{EntryView, NodeId, Term};

verus! {

/// A vote that was granted in an election.
spec fn grant(message: MessageView, term: Term) -> bool {
    message == MessageView::RequestVoteResp(
        RequestVoteResp { term, vote_granted: true, pre_vote: false },
    )
}

spec fn ids_hold(c: Cluster) -> bool {
    forall|n: NodeId| #[trigger] c.nodes.contains_key(n) ==> c.nodes[n].config.id == n
}

/// What is in an outbox counts as sent.
spec fn mail_is_sent(c: Cluster) -> bool {
    forall|n: NodeId, x: (NodeId, MessageView)|
        c.nodes.contains_key(n) && #[trigger] c.nodes[n].outbox.contains(x) ==> c.sent.contains(
            (n, x.0, x.1),
        )
}

/// A vote stays until the voter has gone on to a later term.
spec fn votes_stay(c: Cluster) -> bool {
    forall|v: NodeId, t: Term, k: NodeId| #[trigger]
        c.cast.contains((v, t, k)) ==> {
            &&& c.nodes.contains_key(v)
            &&& t <= c.nodes[v].term()
            &&& t == c.nodes[v].term() ==> c.nodes[v].store.hs.voted_for == Some(k)
        }
}

/// Nobody votes twice in a term.
spec fn votes_are_single(c: Cluster) -> bool {
    forall|v: NodeId, t: Term, k: NodeId, l: NodeId|
        #![trigger c.cast.contains((v, t, k)), c.cast.contains((v, t, l))]
        c.cast.contains((v, t, k)) && c.cast.contains((v, t, l)) ==> k == l
}

/// Candidates ask for themselves, and in the term that they stand in they ask
/// only the voters that they count by.
spec fn requests_hold(c: Cluster) -> bool {
    forall|f: NodeId, to: NodeId, req: RequestVoteReq|
        !req.pre_vote && #[trigger] c.sent.contains((f, to, MessageView::RequestVote(req))) ==> {
            &&& c.nodes.contains_key(f)
            &&& req.candidate_id == f
            &&& req.term <= c.nodes[f].term()
            &&& req.term == c.nodes[f].term() && c.nodes[f].role == Role::Candidate
                ==> c.nodes[f].voters.contains(to)
        }
}

/// A vote was asked for in the term.
spec fn was_asked(c: Cluster, f: NodeId, to: NodeId, term: Term) -> bool {
    exists|req: RequestVoteReq|
        !req.pre_vote && req.term == term && #[trigger] c.sent.contains(
            (f, to, MessageView::RequestVote(req)),
        )
}

/// A granted vote is a stored vote, for a candidate that asked.
spec fn grants_hold(c: Cluster) -> bool {
    forall|f: NodeId, to: NodeId, message: MessageView, term: Term|
        #![trigger c.sent.contains((f, to, message)), grant(message, term)]
        c.sent.contains((f, to, message)) && grant(message, term) ==> c.cast.contains(
            (f, term, to),
        ) && was_asked(c, to, f, term)
}

/// The votes that a node counts are votes for it, by its voters.
spec fn counted(c: Cluster, n: NodeId, node: NodeState) -> bool {
    &&& node.votes.subset_of(node.voters)
    &&& forall|v: NodeId| #[trigger]
        node.votes.contains(v) ==> c.cast.contains((v, node.term(), n))
}

spec fn candidates_count(c: Cluster) -> bool {
    forall|n: NodeId| #[trigger]
        c.nodes.contains_key(n) && c.nodes[n].role == Role::Candidate ==> counted(
            c,
            n,
            c.nodes[n],
        )
}

/// The node led in the term.
pub open spec fn has_led(c: Cluster, term: Term, n: NodeId) -> bool {
    exists|voters: Set<NodeId>| #[trigger] c.led.contains((term, n, voters))
}

spec fn leaders_have_led(c: Cluster) -> bool {
    forall|n: NodeId| #[trigger]
        c.nodes.contains_key(n) && c.nodes[n].role == Role::Leader ==> has_led(
            c,
            c.nodes[n].term(),
            n,
        )
}

/// A majority of the voters voted for the node in the term.
spec fn was_elected(c: Cluster, term: Term, n: NodeId, voters: Set<NodeId>) -> bool {
    exists|group: Set<NodeId>| #[trigger]
        quorum_laws::is_majority(group, voters) && forall|v: NodeId| #[trigger]
            group.contains(v) ==> c.cast.contains((v, term, n))
}

/// Leaders were elected, and do not stand again in a term that they led.
spec fn leaderships_hold(c: Cluster) -> bool {
    forall|term: Term, n: NodeId, voters: Set<NodeId>| #[trigger]
        c.led.contains((term, n, voters)) ==> {
            &&& c.nodes.contains_key(n)
            &&& term <= c.nodes[n].term()
            &&& term == c.nodes[n].term() ==> c.nodes[n].role != Role::Candidate
            &&& voters.finite()
            &&& was_elected(c, term, n, voters)
        }
}

/// What holds of every cluster about its elections.
pub(crate) closed spec fn elections_hold(c: Cluster) -> bool {
    &&& ids_hold(c)
    &&& mail_is_sent(c)
    &&& votes_stay(c)
    &&& votes_are_single(c)
    &&& requests_hold(c)
    &&& grants_hold(c)
    &&& candidates_count(c)
    &&& leaders_have_led(c)
    &&& leaderships_hold(c)
}

/// What a move does to the node, whatever the move.
pub(crate) open spec fn node_step(a: NodeState, event: Event, b: NodeState) -> bool {
    &&& laws::hard_state_follows(a.store.hs, b.store.hs)
    &&& b.config == a.config
    &&& moves::role_step(a, event, b)
    &&& moves::mail_step(a, event, b)
}

/// The event behind a move; for a restart, one that does nothing.
pub open spec fn event_of(move_: Move) -> Event {
    match move_ {
        Move::Happens(event) => event,
        Move::Restarts => Event::Ready,
    }
}

pub(crate) proof fn a_move_steps(c: Cluster, n: NodeId, move_: Move)
    requires
        c.allows(n, move_),
    ensures
        node_step(c.nodes[n], event_of(move_), c.next_node(n, move_)),
{
    let a = c.nodes[n];
    match move_ {
        Move::Happens(event) => {
            laws::a_node_moves_forward(a, event);
            reveal(cluster::outcome);
            if cluster::brings_log(event) {
                bringing::a_bringing_step(a, event);
                reveal(bringing::bringing_step);
            } else {
                events::a_quiet_step(a, event);
                reveal(moves::quiet_step);
            }
        },
        Move::Restarts => {
            reveal(cluster::restarted);
        },
    }
}

proof fn votes_step(c: Cluster, n: NodeId, event: Event, b: NodeState, more: Set<(EntryView, Term)>)
    requires
        c.nodes.contains_key(n),
        c.hears(n, event),
        votes_stay(c),
        votes_are_single(c),
        node_step(c.nodes[n], event, b),
    ensures
        votes_stay(c.with_node(n, b, more)),
        votes_are_single(c.with_node(n, b, more)),
{
    let (a, d) = (c.nodes[n], c.with_node(n, b, more));
    assert forall|v: NodeId, t: Term, k: NodeId| #[trigger] d.cast.contains((v, t, k)) implies {
        &&& d.nodes.contains_key(v)
        &&& t <= d.nodes[v].term()
        &&& t == d.nodes[v].term() ==> d.nodes[v].store.hs.voted_for == Some(k)
    } by {
        if c.cast.contains((v, t, k)) {
            assert(c.nodes.contains_key(v));
        }
    }
    assert forall|v: NodeId, t: Term, k: NodeId, l: NodeId|
        #![trigger d.cast.contains((v, t, k)), d.cast.contains((v, t, l))]
        d.cast.contains((v, t, k)) && d.cast.contains((v, t, l)) implies k == l by {
        if c.cast.contains((v, t, k)) && c.cast.contains((v, t, l)) {
        } else if c.cast.contains((v, t, k)) {
            assert(t <= a.term());
        } else if c.cast.contains((v, t, l)) {
            assert(t <= a.term());
        }
    }
}

/// What is in the mail after a move was sent before, or is new.
proof fn mail_comes_from(
    c: Cluster,
    n: NodeId,
    event: Event,
    b: NodeState,
    more: Set<(EntryView, Term)>,
    f: NodeId,
    to: NodeId,
    message: MessageView,
)
    requires
        c.nodes.contains_key(n),
        c.hears(n, event),
        mail_is_sent(c),
        node_step(c.nodes[n], event, b),
        c.with_node(n, b, more).sent.contains((f, to, message)),
    ensures
        c.sent.contains((f, to, message)) || (f == n && moves::new_mail(
            c.nodes[n],
            event,
            b,
            (to, message),
        )),
{
    if !c.sent.contains((f, to, message)) {
        assert(cluster::posted(n, b.outbox).contains((f, to, message)));
        assert(b.outbox.contains((to, message)));
        if c.nodes[n].outbox.contains((to, message)) {
            assert(c.sent.contains((n, to, message)));
        }
    }
}

proof fn requests_step(
    c: Cluster,
    n: NodeId,
    event: Event,
    b: NodeState,
    more: Set<(EntryView, Term)>,
)
    requires
        c.nodes.contains_key(n),
        c.hears(n, event),
        ids_hold(c),
        mail_is_sent(c),
        requests_hold(c),
        node_step(c.nodes[n], event, b),
    ensures
        mail_is_sent(c.with_node(n, b, more)),
        requests_hold(c.with_node(n, b, more)),
{
    let (a, d) = (c.nodes[n], c.with_node(n, b, more));
    assert forall|m: NodeId, x: (NodeId, MessageView)|
        d.nodes.contains_key(m) && #[trigger] d.nodes[m].outbox.contains(
            x,
        ) implies d.sent.contains((m, x.0, x.1)) by {
        if m == n {
            assert((x.0, x.1) == x);
            assert(cluster::posted(n, b.outbox).contains((n, x.0, x.1)));
        } else {
            assert(c.nodes[m].outbox.contains(x));
        }
    }
    assert forall|f: NodeId, to: NodeId, req: RequestVoteReq|
        !req.pre_vote && #[trigger] d.sent.contains(
            (f, to, MessageView::RequestVote(req)),
        ) implies {
        &&& d.nodes.contains_key(f)
        &&& req.candidate_id == f
        &&& req.term <= d.nodes[f].term()
        &&& req.term == d.nodes[f].term() && d.nodes[f].role == Role::Candidate
            ==> d.nodes[f].voters.contains(to)
    } by {
        mail_comes_from(c, n, event, b, more, f, to, MessageView::RequestVote(req));
        if c.sent.contains((f, to, MessageView::RequestVote(req))) {
            assert(c.nodes.contains_key(f));
        }
    }
}

proof fn grants_step(
    c: Cluster,
    n: NodeId,
    event: Event,
    b: NodeState,
    more: Set<(EntryView, Term)>,
)
    requires
        c.nodes.contains_key(n),
        c.hears(n, event),
        mail_is_sent(c),
        requests_hold(c),
        grants_hold(c),
        node_step(c.nodes[n], event, b),
    ensures
        grants_hold(c.with_node(n, b, more)),
{
    let (a, d) = (c.nodes[n], c.with_node(n, b, more));
    assert forall|f: NodeId, to: NodeId, message: MessageView, term: Term|
        #![trigger d.sent.contains((f, to, message)), grant(message, term)]
        d.sent.contains((f, to, message)) && grant(message, term) implies d.cast.contains(
        (f, term, to),
    ) && was_asked(d, to, f, term) by {
        mail_comes_from(c, n, event, b, more, f, to, message);
        if c.sent.contains((f, to, message)) {
            assert(was_asked(c, to, f, term));
            let req = choose|req: RequestVoteReq|
                !req.pre_vote && req.term == term && #[trigger] c.sent.contains(
                    (to, f, MessageView::RequestVote(req)),
                );
            assert(d.sent.contains((to, f, MessageView::RequestVote(req))));
        } else {
            match event {
                Event::Step(from, MessageView::RequestVote(req)) => {
                    assert(c.sent.contains((from, n, MessageView::RequestVote(req))));
                    assert(d.sent.contains((from, n, MessageView::RequestVote(req))));
                },
                _ => {},
            }
        }
    }
}

/// The votes that a candidate or a new leader counts after a move.
proof fn counted_after(
    c: Cluster,
    n: NodeId,
    event: Event,
    b: NodeState,
    more: Set<(EntryView, Term)>,
)
    requires
        c.nodes.contains_key(n),
        c.hears(n, event),
        ids_hold(c),
        requests_hold(c),
        grants_hold(c),
        candidates_count(c),
        node_step(c.nodes[n], event, b),
        b.role == Role::Candidate || (b.role
            == Role::Leader && c.nodes[n].role != Role::Leader),
    ensures
        counted(c.with_node(n, b, more), n, b),
{
    let (a, d) = (c.nodes[n], c.with_node(n, b, more));
    if moves::fresh(a, b) {
    } else {
        assert(moves::goes_on(a, event, b));
        assert(counted(c, n, a));
        match moves::vote_brought(a, event) {
            Some(v) => {
                brought_vote_counts(c, n, event, v);
            },
            None => {},
        }
        assert forall|v: NodeId| #[trigger] b.votes.contains(v) implies d.cast.contains(
            (v, b.term(), n),
        ) && b.voters.contains(v) by {
            if a.votes.contains(v) {
                assert(c.cast.contains((v, a.term(), n)));
            }
        }
    }
}

proof fn brought_vote_counts(c: Cluster, n: NodeId, event: Event, v: NodeId)
    requires
        c.nodes.contains_key(n),
        c.hears(n, event),
        requests_hold(c),
        grants_hold(c),
        c.nodes[n].role == Role::Candidate,
        moves::vote_brought(c.nodes[n], event) == Some(v),
    ensures
        c.cast.contains((v, c.nodes[n].term(), n)),
        c.nodes[n].voters.contains(v),
{
    let a = c.nodes[n];
    match event {
        Event::Step(from, MessageView::RequestVoteResp(resp)) => {
            let message = MessageView::RequestVoteResp(resp);
            assert(c.sent.contains((from, n, message)));
            assert(grant(message, a.term()));
            assert(was_asked(c, n, from, a.term()));
            let req = choose|req: RequestVoteReq|
                !req.pre_vote && req.term == a.term() && #[trigger] c.sent.contains(
                    (n, from, MessageView::RequestVote(req)),
                );
            assert(c.sent.contains((n, from, MessageView::RequestVote(req))));
        },
        _ => {},
    }
}

proof fn counting_step(
    c: Cluster,
    n: NodeId,
    event: Event,
    b: NodeState,
    more: Set<(EntryView, Term)>,
)
    requires
        c.nodes.contains_key(n),
        c.hears(n, event),
        ids_hold(c),
        requests_hold(c),
        grants_hold(c),
        candidates_count(c),
        leaders_have_led(c),
        node_step(c.nodes[n], event, b),
    ensures
        ids_hold(c.with_node(n, b, more)),
        candidates_count(c.with_node(n, b, more)),
        leaders_have_led(c.with_node(n, b, more)),
{
    let (a, d) = (c.nodes[n], c.with_node(n, b, more));
    assert forall|m: NodeId| #[trigger]
        d.nodes.contains_key(m) && d.nodes[m].role == Role::Candidate implies counted(
        d,
        m,
        d.nodes[m],
    ) by {
        if m == n {
            counted_after(c, n, event, b, more);
        } else {
            assert(c.nodes.contains_key(m));
            assert(counted(c, m, c.nodes[m]));
        }
    }
    assert forall|m: NodeId| #[trigger]
        d.nodes.contains_key(m) && d.nodes[m].role == Role::Leader implies has_led(
        d,
        d.nodes[m].term(),
        m,
    ) by {
        if m == n {
            if a.role == Role::Leader && a.term() == b.term() {
                assert(has_led(c, a.term(), n));
                let voters = choose|voters: Set<NodeId>| #[trigger]
                    c.led.contains((a.term(), n, voters));
                assert(d.led.contains((b.term(), n, voters)));
            } else {
                assert(d.led.contains((b.term(), n, b.voters)));
            }
        } else {
            assert(c.nodes.contains_key(m));
            assert(has_led(c, c.nodes[m].term(), m));
            let voters = choose|voters: Set<NodeId>| #[trigger]
                c.led.contains((c.nodes[m].term(), m, voters));
            assert(d.led.contains((d.nodes[m].term(), m, voters)));
        }
    }
}

proof fn leading_step(
    c: Cluster,
    n: NodeId,
    event: Event,
    b: NodeState,
    more: Set<(EntryView, Term)>,
)
    requires
        c.nodes.contains_key(n),
        c.hears(n, event),
        ids_hold(c),
        requests_hold(c),
        grants_hold(c),
        candidates_count(c),
        leaderships_hold(c),
        node_step(c.nodes[n], event, b),
        c.nodes[n].voters.finite() || b.role == Role::Follower,
    ensures
        leaderships_hold(c.with_node(n, b, more)),
{
    let (a, d) = (c.nodes[n], c.with_node(n, b, more));
    assert forall|term: Term, m: NodeId, voters: Set<NodeId>| #[trigger]
        d.led.contains((term, m, voters)) implies {
        &&& d.nodes.contains_key(m)
        &&& term <= d.nodes[m].term()
        &&& term == d.nodes[m].term() ==> d.nodes[m].role != Role::Candidate
        &&& voters.finite()
        &&& was_elected(d, term, m, voters)
    } by {
        if c.led.contains((term, m, voters)) {
            assert(was_elected(c, term, m, voters));
            let group = choose|group: Set<NodeId>| #[trigger]
                quorum_laws::is_majority(group, voters) && forall|v: NodeId| #[trigger]
                    group.contains(v) ==> c.cast.contains((v, term, m));
            assert forall|v: NodeId| #[trigger] group.contains(v) implies d.cast.contains(
                (v, term, m),
            ) by {
                assert(c.cast.contains((v, term, m)));
            }
            assert(quorum_laws::is_majority(group, voters));
        } else {
            assert(m == n && voters == b.voters && term == b.term());
            assert(a.role != Role::Leader);
            counted_after(c, n, event, b, more);
            assert(quorum_laws::is_majority(b.votes, b.voters));
        }
    }
}

pub(crate) proof fn mail_after(
    c: Cluster,
    n: NodeId,
    event: Event,
    b: NodeState,
    more: Set<(EntryView, Term)>,
    f: NodeId,
    to: NodeId,
    message: MessageView,
)
    requires
        c.nodes.contains_key(n),
        c.hears(n, event),
        elections_hold(c),
        node_step(c.nodes[n], event, b),
        c.with_node(n, b, more).sent.contains((f, to, message)),
    ensures
        c.sent.contains((f, to, message)) || (f == n && moves::new_mail(
            c.nodes[n],
            event,
            b,
            (to, message),
        )),
{
    mail_comes_from(c, n, event, b, more, f, to, message);
}

/// What is in the mail after a move was sent before, or is new in the outbox.
pub(crate) proof fn mail_is_new(
    c: Cluster,
    n: NodeId,
    b: NodeState,
    more: Set<(EntryView, Term)>,
    f: NodeId,
    to: NodeId,
    message: MessageView,
)
    requires
        c.nodes.contains_key(n),
        elections_hold(c),
        c.with_node(n, b, more).sent.contains((f, to, message)),
    ensures
        c.sent.contains((f, to, message)) || (f == n && b.outbox.contains((to, message))
            && !c.nodes[n].outbox.contains((to, message))),
{
    if !c.sent.contains((f, to, message)) {
        assert(cluster::posted(n, b.outbox).contains((f, to, message)));
        assert(b.outbox.contains((to, message)));
        if c.nodes[n].outbox.contains((to, message)) {
            assert(c.sent.contains((n, to, message)));
        }
    }
}

/// Every node goes by its own name.
pub(crate) proof fn names_hold(c: Cluster, n: NodeId)
    requires
        elections_hold(c),
        c.nodes.contains_key(n),
    ensures
        c.nodes[n].config.id == n,
{
}

/// A request for a vote comes from the candidate, in a term that it has reached.
pub(crate) proof fn candidates_ask(c: Cluster, f: NodeId, to: NodeId, req: RequestVoteReq)
    requires
        elections_hold(c),
        !req.pre_vote,
        c.sent.contains((f, to, MessageView::RequestVote(req))),
    ensures
        c.nodes.contains_key(f),
        req.candidate_id == f,
        req.term <= c.nodes[f].term(),
{
}

/// A node that comes to lead has the votes of a majority.
pub(crate) proof fn winners_have_votes(
    c: Cluster,
    n: NodeId,
    event: Event,
    b: NodeState,
    more: Set<(EntryView, Term)>,
)
    requires
        c.nodes.contains_key(n),
        c.hears(n, event),
        elections_hold(c),
        node_step(c.nodes[n], event, b),
        b.role == Role::Leader,
        c.nodes[n].role != Role::Leader,
    ensures
        quorum_laws::is_majority(b.votes, b.voters),
        c.with_node(n, b, more).led.contains((b.term(), n, b.voters)),
        forall|v: NodeId| #[trigger]
            b.votes.contains(v) ==> c.with_node(n, b, more).cast.contains((v, b.term(), n)),
{
    counted_after(c, n, event, b, more);
}

pub(crate) proof fn elections_step(
    c: Cluster,
    n: NodeId,
    event: Event,
    b: NodeState,
    more: Set<(EntryView, Term)>,
)
    requires
        c.nodes.contains_key(n),
        c.nodes[n].voters.finite() || b.role == Role::Follower,
        c.hears(n, event),
        elections_hold(c),
        node_step(c.nodes[n], event, b),
    ensures
        elections_hold(c.with_node(n, b, more)),
{
    votes_step(c, n, event, b, more);
    requests_step(c, n, event, b, more);
    grants_step(c, n, event, b, more);
    counting_step(c, n, event, b, more);
    leading_step(c, n, event, b, more);
}

proof fn one_move(c: Cluster, n: NodeId, move_: Move)
    requires
        c.allows(n, move_),
        elections_hold(c),
        node_step(c.nodes[n], event_of(move_), c.next_node(n, move_)),
    ensures
        elections_hold(c.moved(n, move_)),
{
    let b = c.next_node(n, move_);
    match move_ {
        Move::Happens(event) => {
            elections_step(c, n, event, b, cluster::written(c.nodes[n], event, b));
        },
        Move::Restarts => {
            reveal(cluster::restarted);
            elections_step(c, n, Event::Ready, b, Set::empty());
        },
    }
}

pub(crate) proof fn elections_hold_in_runs(start: Cluster, run: Seq<(NodeId, Move)>)
    requires
        cluster::possible(start, run),
    ensures
        elections_hold(cluster::reached(start, run)),
    decreases run.len(),
{
    if run.len() > 0 {
        elections_hold_in_runs(start, run.drop_last());
        let (c, n, move_) = (
            cluster::reached(start, run.drop_last()),
            run.last().0,
            run.last().1,
        );
        a_move_steps(c, n, move_);
        one_move(c, n, move_);
    }
}

/// A node never stands again in a term that it led.
pub(crate) proof fn led_terms_are_past(c: Cluster, term: Term, n: NodeId)
    requires
        elections_hold(c),
        has_led(c, term, n),
    ensures
        c.nodes.contains_key(n),
        term <= c.nodes[n].term(),
        term == c.nodes[n].term() ==> c.nodes[n].role != Role::Candidate,
{
    let voters = choose|voters: Set<NodeId>| #[trigger] c.led.contains((term, n, voters));
    assert(c.led.contains((term, n, voters)));
}

/// Nobody was elected over endless voters.
pub(crate) proof fn electorates_are_finite(c: Cluster, term: Term, n: NodeId, voters: Set<NodeId>)
    requires
        elections_hold(c),
        c.led.contains((term, n, voters)),
    ensures
        voters.finite(),
{
}

pub(crate) proof fn a_leader_has_led(c: Cluster, n: NodeId)
    requires
        elections_hold(c),
        c.nodes.contains_key(n),
        c.nodes[n].role == Role::Leader,
    ensures
        has_led(c, c.nodes[n].term(), n),
{
}

/// Two memberships that are the same, or differ by one voter.
pub open spec fn next_to(a: Set<NodeId>, b: Set<NodeId>) -> bool {
    a == b || exists|id: NodeId| b == #[trigger] a.insert(id) || a == b.insert(id)
}

/// Election safety. Whatever is lost, delayed, reordered or repeated, and
/// whichever nodes stop and start again: two nodes that ever led in one term
/// are the same node, if the memberships that they were elected over are the
/// same or differ by one voter.
pub proof fn no_term_has_two_leaders(
    start: Cluster,
    run: Seq<(NodeId, Move)>,
    term: Term,
    a: NodeId,
    over_a: Set<NodeId>,
    b: NodeId,
    over_b: Set<NodeId>,
)
    requires
        cluster::possible(start, run),
        cluster::reached(start, run).led.contains((term, a, over_a)),
        cluster::reached(start, run).led.contains((term, b, over_b)),
        next_to(over_a, over_b),
    ensures
        a == b,
{
    elections_hold_in_runs(start, run);
    one_leader(cluster::reached(start, run), term, a, over_a, b, over_b);
}

/// Majorities of memberships that are the same or differ by one voter have a
/// voter in common.
pub(crate) proof fn neighbours_meet(
    for_a: Set<NodeId>,
    for_b: Set<NodeId>,
    over_a: Set<NodeId>,
    over_b: Set<NodeId>,
)
    requires
        over_a.finite(),
        over_b.finite(),
        quorum_laws::is_majority(for_a, over_a),
        quorum_laws::is_majority(for_b, over_b),
        next_to(over_a, over_b),
    ensures
        exists|v: NodeId| for_a.contains(v) && for_b.contains(v),
{
    if over_a == over_b {
        quorum_laws::majorities_meet(for_a, for_b, over_a);
    } else {
        let id = choose|id: NodeId| over_b == #[trigger] over_a.insert(id) || over_a
            == over_b.insert(id);
        if over_b == over_a.insert(id) {
            quorum_laws::majorities_meet_within(for_a, for_b, over_a, over_b, over_b);
        } else {
            quorum_laws::majorities_meet_within(for_a, for_b, over_a, over_b, over_a);
        }
    }
}

pub(crate) proof fn one_leader(
    c: Cluster,
    term: Term,
    a: NodeId,
    over_a: Set<NodeId>,
    b: NodeId,
    over_b: Set<NodeId>,
)
    requires
        elections_hold(c),
        c.led.contains((term, a, over_a)),
        c.led.contains((term, b, over_b)),
        next_to(over_a, over_b),
    ensures
        a == b,
{
    assert(was_elected(c, term, a, over_a));
    assert(was_elected(c, term, b, over_b));
    let for_a = choose|group: Set<NodeId>| #[trigger]
        quorum_laws::is_majority(group, over_a) && forall|v: NodeId| #[trigger]
            group.contains(v) ==> c.cast.contains((v, term, a));
    let for_b = choose|group: Set<NodeId>| #[trigger]
        quorum_laws::is_majority(group, over_b) && forall|v: NodeId| #[trigger]
            group.contains(v) ==> c.cast.contains((v, term, b));
    neighbours_meet(for_a, for_b, over_a, over_b);
    let v = choose|v: NodeId| for_a.contains(v) && for_b.contains(v);
    assert(c.cast.contains((v, term, a)));
    assert(c.cast.contains((v, term, b)));
}

/// A node that leads has led: what holds of leaderships holds of the leaders
/// that there are.
pub proof fn leaders_are_on_record(start: Cluster, run: Seq<(NodeId, Move)>, n: NodeId)
    requires
        cluster::possible(start, run),
        cluster::reached(start, run).nodes.contains_key(n),
        cluster::reached(start, run).nodes[n].role == Role::Leader,
    ensures
        has_led(cluster::reached(start, run), cluster::reached(start, run).nodes[n].term(), n),
{
    elections_hold_in_runs(start, run);
}

} // verus!
