//! Everything in a log goes back to entries that leaders made.

use vstd::prelude::*;

use crate::raft::cluster;
use crate::raft::cluster::chain;
use crate::raft::cluster::election;
use crate::raft::cluster::ends;
use crate::raft::cluster::history;
use crate::raft::cluster::matching;
use crate::raft::cluster::moves;
use crate::raft::cluster::origins;
use crate::raft::cluster::Cluster;
use crate::raft::node::laws::Event;
use crate::raft::node::state::{NodeState, Role};
use crate::raft::rpc::{AppendView, InstallView, MessageView, RequestVoteReq};
use crate::raft::types::{EntryView, NodeId, Term};

verus! {

/// A message of entries ends with an entry of its sender's term, or tells
/// nothing at all.
pub open spec fn well_ended(req: AppendView, made: Set<(EntryView, Term)>) -> bool {
    ||| req.entries.len() == 0 && req.prev_log_term == 0 && req.prev_log_index > 0
    ||| {
        &&& ends::end_term(req) == req.term
        &&& history::was_made(made, req.term, ends::end_index(req))
        &&& req.prev_log_index + req.entries.len() < u64::MAX
    }
}

/// The snapshot in a message is of a log that ends with an entry of its
/// sender's term.
pub open spec fn well_based(req: InstallView, made: Set<(EntryView, Term)>) -> bool {
    exists|x: (EntryView, Term)| #[trigger]
        made.contains(x) && x.0.term == req.term && history::includes(
            made,
            x.0.term,
            x.0.index,
            req.last_term,
            req.last_index,
        )
}

/// The log of a node ends, and its snapshot ends, with an entry that was made;
/// the log of a leader with an entry of its own term.
pub open spec fn ends_well(node: NodeState, made: Set<(EntryView, Term)>) -> bool {
    &&& history::based(node.store, made)
    &&& node.store.last_term() <= node.term()
    &&& node.role == Role::Leader ==> node.store.last_term() == node.term()
        && node.store.last_index() > 0
    &&& node.role == Role::Candidate ==> node.term() > 0
}

spec fn appends_end_well(c: Cluster) -> bool {
    forall|f: NodeId, to: NodeId, req: AppendView| #[trigger]
        c.sent.contains((f, to, MessageView::AppendEntries(req))) ==> well_ended(req, c.made)
}

spec fn installs_are_based(c: Cluster) -> bool {
    forall|f: NodeId, to: NodeId, req: InstallView| #[trigger]
        c.sent.contains((f, to, MessageView::InstallSnapshot(req))) ==> well_based(req, c.made)
}

/// A candidate asks by the end of its log.
spec fn requests_tell(c: Cluster) -> bool {
    forall|f: NodeId, to: NodeId, req: RequestVoteReq|
        !req.pre_vote && #[trigger] c.sent.contains((f, to, MessageView::RequestVote(req))) ==> {
            &&& history::rooted(c.made, req.last_log_term, req.last_log_index)
            &&& c.nodes[f].role == Role::Candidate && c.nodes[f].term() == req.term
                ==> ends::ends_with(c.nodes[f].store, req.last_log_term, req.last_log_index)
        }
}

/// Votes are on record, and go to candidates that have reached the term.
spec fn votes_are_recorded(c: Cluster) -> bool {
    &&& forall|n: NodeId| #[trigger]
        c.nodes.contains_key(n) ==> (c.nodes[n].store.hs.voted_for matches Some(k)
            ==> c.cast.contains((n, c.nodes[n].term(), k)))
    &&& forall|v: NodeId, term: Term, k: NodeId| #[trigger]
        c.cast.contains((v, term, k)) && v != k ==> c.nodes.contains_key(k) && term
            <= c.nodes[k].term()
}

pub(crate) closed spec fn histories_hold(c: Cluster) -> bool {
    &&& origins::origins_hold(c)
    &&& appends_end_well(c)
    &&& installs_are_based(c)
    &&& requests_tell(c)
    &&& votes_are_recorded(c)
}

/// What the invariant says.
pub(crate) proof fn history_facts(c: Cluster)
    requires
        histories_hold(c),
    ensures
        origins::origins_hold(c),
        history::grown(c.made),
        history::terms_nest(c.made),
        forall|n: NodeId| #[trigger] c.nodes.contains_key(n) ==> ends_well(c.nodes[n], c.made),
        forall|f: NodeId, to: NodeId, req: AppendView| #[trigger]
            c.sent.contains((f, to, MessageView::AppendEntries(req))) ==> well_ended(req, c.made),
        forall|f: NodeId, to: NodeId, req: InstallView| #[trigger]
            c.sent.contains((f, to, MessageView::InstallSnapshot(req))) ==> well_based(
                req,
                c.made,
            ),
{
    assert forall|n: NodeId| #[trigger] c.nodes.contains_key(n) implies ends_well(
        c.nodes[n],
        c.made,
    ) by {
        a_log_ends_well(c, n);
    }
}

proof fn a_log_ends_well(c: Cluster, n: NodeId)
    requires
        origins::origins_hold(c),
        c.nodes.contains_key(n),
    ensures
        ends_well(c.nodes[n], c.made),
{
    assert(origins::stands(c.nodes[n], c.made));
    origins::store_ends(c.nodes[n].store, c.nodes[n].term(), c.made);
}

/// What a candidate says of its log.
pub(crate) proof fn a_request_tells(c: Cluster, f: NodeId, to: NodeId, req: RequestVoteReq)
    requires
        histories_hold(c),
        !req.pre_vote,
        c.sent.contains((f, to, MessageView::RequestVote(req))),
    ensures
        history::rooted(c.made, req.last_log_term, req.last_log_index),
        c.nodes[f].role == Role::Candidate && c.nodes[f].term() == req.term ==> ends::ends_with(
            c.nodes[f].store,
            req.last_log_term,
            req.last_log_index,
        ),
{
}

pub(crate) proof fn a_vote_is_recorded(c: Cluster, n: NodeId, k: NodeId)
    requires
        histories_hold(c),
        c.nodes.contains_key(n),
        c.nodes[n].store.hs.voted_for == Some(k),
    ensures
        c.cast.contains((n, c.nodes[n].term(), k)),
{
}

pub(crate) proof fn a_vote_is_for_a_candidate(c: Cluster, v: NodeId, term: Term, k: NodeId)
    requires
        histories_hold(c),
        c.cast.contains((v, term, k)),
        v != k,
    ensures
        c.nodes.contains_key(k),
        term <= c.nodes[k].term(),
{
}

/// Everything that a move rests on.
pub(crate) open spec fn step_holds(
    c: Cluster,
    n: NodeId,
    event: Event,
    b: NodeState,
    more: Set<(EntryView, Term)>,
) -> bool {
    let d = c.with_node(n, b, more);
    &&& c.nodes.contains_key(n)
    &&& c.hears(n, event)
    &&& election::elections_hold(c)
    &&& election::elections_hold(d)
    &&& matching::steady(d)
    &&& matching::logs_hold(c)
    &&& matching::logs_hold(d)
    &&& election::node_step(c.nodes[n], event, b)
    &&& ends::full_step(c.made, c.nodes[n], event, b, more)
    &&& matching::chain_move(c.made, c.nodes[n], event, b, more)
    &&& origins::origins_hold(d)
}

/// A node that leads has a log that ends with an entry of its own.
proof fn a_leader_ends(c: Cluster, n: NodeId, event: Event, b: NodeState)
    requires
        c.nodes.contains_key(n),
        origins::origins_hold(c),
        election::node_step(c.nodes[n], event, b),
        ends::end_step(c.made, c.nodes[n], event, b),
        moves::leads(c.nodes[n], b),
        !cluster::brings_log(event),
        b.store.wf(),
    ensures
        ends::ends_with(b.store, b.term(), b.store.last_index()),
        b.store.last_index() > 0,
{
    let a = c.nodes[n];
    a_log_ends_well(c, n);
    if a.role != Role::Leader {
        assert(b.store.entries.last() == moves::own_entry(a, b));
    }
}

/// A message that is new hands on the log of a leader.
pub(crate) proof fn handed_by_a_leader(
    c: Cluster,
    n: NodeId,
    event: Event,
    b: NodeState,
    more: Set<(EntryView, Term)>,
    f: NodeId,
    to: NodeId,
    message: MessageView,
)
    requires
        step_holds(c, n, event, b, more),
        histories_hold(c),
        c.with_node(n, b, more).sent.contains((f, to, message)),
        !c.sent.contains((f, to, message)),
        message is AppendEntries || message is InstallSnapshot,
    ensures
        f == n,
        moves::leads(c.nodes[n], b),
        moves::hands_on(b.store, b.commit_index, message),
        ends::ends_with(b.store, b.term(), b.store.last_index()),
        b.store.last_index() > 0,
        !cluster::brings_log(event),
        chain::chained(b.store, c.with_node(n, b, more).made),
        ends_well(b, c.with_node(n, b, more).made),
{
    let d = c.with_node(n, b, more);
    assert(d.nodes.contains_key(n) && d.nodes[n] == b);
    a_log_ends_well(d, n);
    election::mail_is_new(c, n, b, more, f, to, message);
    assert(b.outbox.contains((to, message)));
    assert(moves::new_mail(c.nodes[n], event, b, (to, message)));
    a_leader_ends(c, n, event, b);
}

/// What a leader hands on ends as its log does, or tells nothing.
pub(crate) proof fn handed_ends_well(b: NodeState, req: AppendView, made: Set<(EntryView, Term)>)
    requires
        chain::chained(b.store, made),
        history::based(b.store, made),
        ends::ends_with(b.store, b.term(), b.store.last_index()),
        b.store.last_index() > 0,
        moves::hands_on(b.store, b.commit_index, MessageView::AppendEntries(req)),
    ensures
        well_ended(req, made),
        req.prev_log_index <= b.store.last_index() ==> ends::ends_with(
            b.store,
            ends::end_term(req),
            ends::end_index(req),
        ),
{
    let (s, prev) = (b.store, req.prev_log_index);
    history::store_ends(s, made);
    if prev < s.last_index() {
        assert(s.holds((prev + 1) as u64));
        assert(req.entries.last() == s.entries.last());
    }
}

proof fn appends_step(
    c: Cluster,
    n: NodeId,
    event: Event,
    b: NodeState,
    more: Set<(EntryView, Term)>,
)
    requires
        step_holds(c, n, event, b, more),
        histories_hold(c),
    ensures
        appends_end_well(c.with_node(n, b, more)),
{
    let d = c.with_node(n, b, more);
    matching::log_facts(d);
    assert forall|f: NodeId, to: NodeId, req: AppendView| #[trigger]
        d.sent.contains((f, to, MessageView::AppendEntries(req))) implies well_ended(
        req,
        d.made,
    ) by {
        let message = MessageView::AppendEntries(req);
        if c.sent.contains((f, to, message)) {
            assert(well_ended(req, c.made));
            if history::was_made(c.made, req.term, ends::end_index(req)) {
                let x = choose|x: (EntryView, Term)| #[trigger]
                    c.made.contains(x) && x.0.term == req.term && x.0.index == ends::end_index(req);
                assert(d.made.contains(x));
            }
        } else {
            handed_by_a_leader(c, n, event, b, more, f, to, message);
            handed_ends_well(b, req, d.made);
        }
    }
}

proof fn installs_step(
    c: Cluster,
    n: NodeId,
    event: Event,
    b: NodeState,
    more: Set<(EntryView, Term)>,
)
    requires
        step_holds(c, n, event, b, more),
        histories_hold(c),
    ensures
        installs_are_based(c.with_node(n, b, more)),
{
    let d = c.with_node(n, b, more);
    matching::log_facts(d);
    assert forall|f: NodeId, to: NodeId, req: InstallView| #[trigger]
        d.sent.contains((f, to, MessageView::InstallSnapshot(req))) implies well_based(
        req,
        d.made,
    ) by {
        let message = MessageView::InstallSnapshot(req);
        if c.sent.contains((f, to, message)) {
            assert(well_based(req, c.made));
            let x = choose|x: (EntryView, Term)| #[trigger]
                c.made.contains(x) && x.0.term == req.term && history::includes(
                    c.made,
                    x.0.term,
                    x.0.index,
                    req.last_term,
                    req.last_index,
                );
            assert(history::rooted(c.made, x.0.term, x.0.index));
            history::history_stays(c.made, d.made, x.0.term, x.0.index, req.last_index);
            assert(d.made.contains(x));
        } else {
            handed_by_a_leader(c, n, event, b, more, f, to, message);
            let s = b.store;
            history::store_ends(s, d.made);
            history::store_includes(s, d.made, s.base.last_index);
            let x = choose|x: (EntryView, Term)| #[trigger]
                d.made.contains(x) && x.0.term == s.last_term() && x.0.index == s.last_index();
            assert(d.made.contains(x));
        }
    }
}

proof fn requests_step(
    c: Cluster,
    n: NodeId,
    event: Event,
    b: NodeState,
    more: Set<(EntryView, Term)>,
)
    requires
        step_holds(c, n, event, b, more),
        histories_hold(c),
    ensures
        requests_tell(c.with_node(n, b, more)),
{
    let (a, d) = (c.nodes[n], c.with_node(n, b, more));
    matching::log_facts(c);
    assert forall|f: NodeId, to: NodeId, req: RequestVoteReq|
        !req.pre_vote && #[trigger] d.sent.contains(
            (f, to, MessageView::RequestVote(req)),
        ) implies {
        &&& history::rooted(d.made, req.last_log_term, req.last_log_index)
        &&& d.nodes[f].role == Role::Candidate && d.nodes[f].term() == req.term
            ==> ends::ends_with(d.nodes[f].store, req.last_log_term, req.last_log_index)
    } by {
        let message = MessageView::RequestVote(req);
        if c.sent.contains((f, to, message)) {
            election::candidates_ask(c, f, to, req);
            history::rooted_stays(c.made, d.made, req.last_log_term, req.last_log_index);
        } else {
            election::mail_is_new(c, n, b, more, f, to, message);
            assert(b.outbox.contains((to, message)));
            assert(moves::new_mail(a, event, b, (to, message)));
            a_log_ends_well(c, n);
            history::store_ends(a.store, c.made);
            history::rooted_stays(c.made, d.made, req.last_log_term, req.last_log_index);
        }
    }
}

proof fn recording_step(
    c: Cluster,
    n: NodeId,
    event: Event,
    b: NodeState,
    more: Set<(EntryView, Term)>,
)
    requires
        step_holds(c, n, event, b, more),
        histories_hold(c),
    ensures
        votes_are_recorded(c.with_node(n, b, more)),
{
    let (a, d) = (c.nodes[n], c.with_node(n, b, more));
    assert forall|m: NodeId| #[trigger] d.nodes.contains_key(m) implies (
    d.nodes[m].store.hs.voted_for matches Some(k) ==> d.cast.contains(
        (m, d.nodes[m].term(), k),
    )) by {
        if m != n {
            assert(c.nodes.contains_key(m));
        }
    }
    election::names_hold(c, n);
    assert forall|v: NodeId, term: Term, k: NodeId| #[trigger]
        d.cast.contains((v, term, k)) && v != k implies d.nodes.contains_key(k) && term
        <= d.nodes[k].term() by {
        if !c.cast.contains((v, term, k)) {
            assert(v == n && term == b.term() && b.store.hs.voted_for == Some(k));
            if a.term() == b.term() && a.store.hs.voted_for == Some(k) {
                assert(c.cast.contains((n, a.term(), k)));
            } else {
                assert(moves::deserves(a, event, b, k));
                match event {
                    Event::Step(from, MessageView::RequestVote(req)) => {
                        election::candidates_ask(c, from, n, req);
                    },
                    _ => {},
                }
            }
        }
    }
}

pub(crate) proof fn histories_step(
    c: Cluster,
    n: NodeId,
    event: Event,
    b: NodeState,
    more: Set<(EntryView, Term)>,
)
    requires
        step_holds(c, n, event, b, more),
        histories_hold(c),
    ensures
        histories_hold(c.with_node(n, b, more)),
{
    appends_step(c, n, event, b, more);
    installs_step(c, n, event, b, more);
    requests_step(c, n, event, b, more);
    recording_step(c, n, event, b, more);
}

pub(crate) proof fn a_start_has_no_history(c: Cluster)
    requires
        c.starts(),
    ensures
        histories_hold(c),
{
}

/// A log that reaches a request which ends with its snapshot, and in which no
/// entry is of an earlier term than that, follows from it.
pub(crate) proof fn a_firm_log(c: Cluster, n: NodeId, req: AppendView)
    requires
        c.nodes.contains_key(n),
        histories_hold(c),
        matching::logs_hold(c),
        chain::brings_chain(req, c.made),
        well_ended(req, c.made),
        ends::firmly(c.nodes[n], req),
        ends::end_index(req) == c.nodes[n].store.base.last_index,
    ensures
        chain::chained(c.nodes[n].store, c.made),
{
    let (a, s) = (c.nodes[n], c.nodes[n].store);
    let (term, base) = (s.base.last_term, s.base.last_index);
    matching::log_facts(c);
    assert(origins::stands(a, c.made));
    ends::a_known_end(a, req, c.made);
    if s.entries.len() > 0 {
        let z = choose|z: (EntryView, Term)| #[trigger]
            c.made.contains(z) && z.0.term == term && z.0.index == base;
        assert(c.made.contains(z));
        assert(term == req.term);
        let e = s.entries[0];
        assert(origins::stems(e, a.term(), c.made));
        assert(req.term >= a.term()) by {
            reveal(ends::takes);
        }
        assert(e.term == term && e.index == base + 1);
        let before = choose|before: Term| #[trigger] c.made.contains((e, before));
        let x = (e, before);
        assert(c.made.contains(x));
        assert(history::includes(c.made, x.0.term, x.0.index, z.0.term, z.0.index));
        history::before_is(c.made, x);
        assert(history::term_at(c.made, before, base, base) == before);
        assert(s.at(e.index) == e);
        assert(chain::linked(s, c.made, e.index));
    }
    chain::loosely(s, c.made);
}

} // verus!
