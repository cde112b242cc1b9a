//! Leaders hold everything that a majority has taken.

use vstd::prelude::*;

use crate::raft::cluster;
use crate::raft::cluster::chain;
use crate::raft::cluster::election;
use crate::raft::cluster::ends;
use crate::raft::cluster::histories;
use crate::raft::cluster::history;
use crate::raft::cluster::keeping;
use crate::raft::cluster::matching;
use crate::raft::cluster::moves;
use crate::raft::cluster::origins;
use crate::raft::cluster::runs;
use crate::raft::cluster::{Cluster, Move};
use crate::raft::node::laws::Event;
use crate::raft::node::quorum_laws;
use crate::raft::node::state::{self, NodeState, Role};
use crate::raft::rpc::{AppendView, InstallView, MessageView};
use crate::raft::types::{EntryView, LogIndex, NodeId, Term};

verus! {

// ---- who has taken what ----

/// What a node comes to hold of the log of the leader of its term: all of it if
/// it leads itself, or what it accepts.
pub open spec fn gains(n: NodeId, a: NodeState, event: Event, b: NodeState) -> Set<
    (NodeId, Term, LogIndex),
> {
    Set::new(
        |x: (NodeId, Term, LogIndex)|
            {
                &&& x.0 == n
                &&& x.1 == b.term()
                &&& x.2 > 0
                &&& (b.role == Role::Leader && x.2 == b.store.last_index()) || ends::accepts(
                    a,
                    event,
                ) == Some(x.2)
            },
    )
}

/// In a run, which nodes came to hold the log of which term's leader, and how
/// far.
pub open spec fn accepted(start: Cluster, run: Seq<(NodeId, Move)>) -> Set<
    (NodeId, Term, LogIndex),
>
    decreases run.len(),
{
    if run.len() == 0 {
        Set::empty()
    } else {
        let c = cluster::reached(start, run.drop_last());
        let (n, move_) = run.last();
        accepted(start, run.drop_last()).union(
            gains(n, c.nodes[n], election::event_of(move_), c.next_node(n, move_)),
        )
    }
}

/// The node held, in the term, the log of the term's leader as far as `index`.
pub open spec fn vouched(
    seen: Set<(NodeId, Term, LogIndex)>,
    p: NodeId,
    term: Term,
    index: LogIndex,
) -> bool {
    exists|j: LogIndex| #[trigger] seen.contains((p, term, j)) && j >= index
}

/// The entry of the term at the index is settled: a majority of the voters held
/// it in its own term.
pub open spec fn settled(
    made: Set<(EntryView, Term)>,
    seen: Set<(NodeId, Term, LogIndex)>,
    voters: Set<NodeId>,
    term: Term,
    index: LogIndex,
) -> bool {
    &&& index > 0
    &&& voters.finite()
    &&& history::was_made(made, term, index)
    &&& exists|group: Set<NodeId>| #[trigger]
        quorum_laws::is_majority(group, voters) && forall|p: NodeId| #[trigger]
            group.contains(p) ==> vouched(seen, p, term, index)
}

// ---- one move ----

/// What was accepted was accepted in terms that have come.
pub(crate) open spec fn accepted_is_past(c: Cluster, seen: Set<(NodeId, Term, LogIndex)>) -> bool {
    forall|x: (NodeId, Term, LogIndex)| #[trigger]
        seen.contains(x) ==> c.nodes.contains_key(x.0) && x.1 <= c.nodes[x.0].term()
}

/// Whoever of the group has accepted the entry holds it.
spec fn holders_hold(
    c: Cluster,
    seen: Set<(NodeId, Term, LogIndex)>,
    all: Set<(EntryView, Term)>,
    term: Term,
    index: LogIndex,
    group: Set<NodeId>,
) -> bool {
    forall|p: NodeId| #[trigger]
        group.contains(p) && vouched(seen, p, term, index) ==> c.nodes.contains_key(p)
            && ends::reaches(all, c.nodes[p].store, term, index)
}

/// Whoever has a vote of the group, in a later term, holds it.
spec fn candidates_hold(
    c: Cluster,
    all: Set<(EntryView, Term)>,
    term: Term,
    index: LogIndex,
    group: Set<NodeId>,
) -> bool {
    forall|r: NodeId, late: Term, k: NodeId| #[trigger]
        c.cast.contains((r, late, k)) && group.contains(r) && late > term && r != k
            && c.nodes[k].role == Role::Candidate && c.nodes[k].term() == late ==> ends::reaches(
            all,
            c.nodes[k].store,
            term,
            index,
        )
}

spec fn entry_stays(
    c: Cluster,
    seen: Set<(NodeId, Term, LogIndex)>,
    all: Set<(EntryView, Term)>,
    term: Term,
    index: LogIndex,
    group: Set<NodeId>,
) -> bool {
    &&& holders_hold(c, seen, all, term, index, group)
    &&& keeping::later_terms_include(c.made, all, term, index)
    &&& candidates_hold(c, all, term, index, group)
}

/// Whoever of the group has gone on to a later term had accepted the entry.
spec fn nobody_is_late(
    c: Cluster,
    seen: Set<(NodeId, Term, LogIndex)>,
    term: Term,
    index: LogIndex,
    group: Set<NodeId>,
) -> bool {
    forall|r: NodeId| #[trigger]
        group.contains(r) && c.nodes.contains_key(r) && c.nodes[r].term() > term ==> vouched(
            seen,
            r,
            term,
            index,
        )
}

/// Everything that a move rests on, with `all` that is ever made.
pub(crate) open spec fn grounded(
    c: Cluster,
    n: NodeId,
    event: Event,
    b: NodeState,
    more: Set<(EntryView, Term)>,
    all: Set<(EntryView, Term)>,
) -> bool {
    &&& histories::step_holds(c, n, event, b, more)
    &&& histories::histories_hold(c)
    &&& histories::histories_hold(c.with_node(n, b, more))
    &&& keeping::sound(all)
    &&& c.with_node(n, b, more).made.subset_of(all)
}

/// Entries of one term, in one log.
pub(crate) proof fn nested(all: Set<(EntryView, Term)>, term: Term, end: LogIndex, index: LogIndex)
    requires
        history::terms_nest(all),
        history::was_made(all, term, end),
        history::was_made(all, term, index),
        index <= end,
    ensures
        history::includes(all, term, end, term, index),
{
    let x = choose|x: (EntryView, Term)| #[trigger]
        all.contains(x) && x.0.term == term && x.0.index == index;
    let y = choose|y: (EntryView, Term)| #[trigger]
        all.contains(y) && y.0.term == term && y.0.index == end;
    assert(all.contains(x) && all.contains(y));
}

/// Entries that are taken bring the entry, if they reach it.
proof fn taking_brings(
    c: Cluster,
    n: NodeId,
    from: NodeId,
    req: AppendView,
    b: NodeState,
    all: Set<(EntryView, Term)>,
    index: LogIndex,
)
    requires
        grounded(c, n, Event::Step(from, MessageView::AppendEntries(req)), b, Set::empty(), all),
        ends::firmly(c.nodes[n], req),
        history::was_made(all, b.term(), index),
        0 < index <= ends::end_index(req),
    ensures
        ends::reaches(all, b.store, b.term(), index),
{
    let d = c.with_node(n, b, Set::empty());
    assert(d.made =~= c.made);
    histories::history_facts(c);
    histories::history_facts(d);
    matching::log_facts(c);
    matching::log_facts(d);
    assert(d.nodes.contains_key(n) && d.nodes[n] == b);
    assert(c.sent.contains((from, n, MessageView::AppendEntries(req))));
    let (term, end) = (ends::end_term(req), ends::end_index(req));
    history::store_ends(b.store, c.made);
    assert(ends::reaches(c.made, b.store, term, end));
    history::stays_rooted(c.made, b.store.last_term(), b.store.last_index(), end);
    assert(history::was_made(c.made, term, end));
    if term != req.term {
        let x = choose|x: (EntryView, Term)| #[trigger]
            c.made.contains(x) && x.0.term == term && x.0.index == end;
        assert(c.made.contains(x));
    }
    assert(term == b.term());
    keeping::lifts(c.made, all, b.store.last_term(), b.store.last_index(), end);
    history::rooted_stays(c.made, all, term, end);
    nested(all, term, end, index);
    history::composes(all, b.store.last_term(), b.store.last_index(), end, index);
}

/// A snapshot that is taken brings the entry, if it reaches it.
proof fn installing_brings(
    c: Cluster,
    n: NodeId,
    from: NodeId,
    req: InstallView,
    b: NodeState,
    all: Set<(EntryView, Term)>,
    index: LogIndex,
)
    requires
        grounded(c, n, Event::Step(from, MessageView::InstallSnapshot(req)), b, Set::empty(), all),
        ends::installs(c.nodes[n], req),
        !chain::grafts(c.nodes[n], req),
        history::was_made(all, b.term(), index),
        0 < index <= req.last_index,
    ensures
        ends::reaches(all, b.store, b.term(), index),
{
    let d = c.with_node(n, b, Set::empty());
    assert(d.made =~= c.made);
    histories::history_facts(c);
    histories::history_facts(d);
    matching::log_facts(c);
    matching::log_facts(d);
    assert(d.nodes.contains_key(n) && d.nodes[n] == b);
    assert(c.sent.contains((from, n, MessageView::InstallSnapshot(req))));
    let x = choose|x: (EntryView, Term)| #[trigger]
        c.made.contains(x) && x.0.term == req.term && history::includes(
            c.made,
            x.0.term,
            x.0.index,
            req.last_term,
            req.last_index,
        );
    assert(c.made.contains(x));
    assert(history::rooted(c.made, x.0.term, x.0.index));
    keeping::lifts(c.made, all, x.0.term, x.0.index, req.last_index);
    nested(all, x.0.term, x.0.index, index);
    history::composes(all, x.0.term, x.0.index, req.last_index, index);
    history::store_ends(b.store, c.made);
    keeping::lifts(c.made, all, b.store.last_term(), b.store.last_index(), req.last_index);
    history::composes(all, b.store.last_term(), b.store.last_index(), req.last_index, index);
}

/// What a node gains it holds.
proof fn gaining_holds(
    c: Cluster,
    n: NodeId,
    event: Event,
    b: NodeState,
    more: Set<(EntryView, Term)>,
    all: Set<(EntryView, Term)>,
    index: LogIndex,
    j: LogIndex,
)
    requires
        grounded(c, n, event, b, more, all),
        gains(n, c.nodes[n], event, b).contains((n, b.term(), j)),
        history::was_made(all, b.term(), index),
        0 < index <= j,
    ensures
        ends::reaches(all, b.store, b.term(), index),
{
    let d = c.with_node(n, b, more);
    if ends::accepts(c.nodes[n], event) == Some(j) {
        assert(more == Set::<(EntryView, Term)>::empty());
        match event {
            Event::Step(from, MessageView::AppendEntries(req)) => {
                taking_brings(c, n, from, req, b, all, index);
            },
            Event::Step(from, MessageView::InstallSnapshot(req)) => {
                installing_brings(c, n, from, req, b, all, index);
            },
            _ => {},
        }
    } else {
        histories::history_facts(d);
        matching::log_facts(d);
        assert(d.nodes.contains_key(n) && d.nodes[n] == b);
        history::store_ends(b.store, d.made);
        history::rooted_stays(d.made, all, b.store.last_term(), b.store.last_index());
        nested(all, b.term(), j, index);
    }
}

proof fn past_step(
    c: Cluster,
    n: NodeId,
    event: Event,
    b: NodeState,
    more: Set<(EntryView, Term)>,
    seen: Set<(NodeId, Term, LogIndex)>,
)
    requires
        c.nodes.contains_key(n),
        election::node_step(c.nodes[n], event, b),
        accepted_is_past(c, seen),
    ensures
        accepted_is_past(
            c.with_node(n, b, more),
            seen.union(gains(n, c.nodes[n], event, b)),
        ),
{
    let d = c.with_node(n, b, more);
    let now = seen.union(gains(n, c.nodes[n], event, b));
    assert forall|x: (NodeId, Term, LogIndex)| #[trigger]
        now.contains(x) implies d.nodes.contains_key(x.0) && x.1 <= d.nodes[x.0].term() by {
        if seen.contains(x) {
            assert(c.nodes.contains_key(x.0));
        }
    }
}

proof fn holders_step(
    c: Cluster,
    n: NodeId,
    event: Event,
    b: NodeState,
    more: Set<(EntryView, Term)>,
    all: Set<(EntryView, Term)>,
    seen: Set<(NodeId, Term, LogIndex)>,
    term: Term,
    index: LogIndex,
    group: Set<NodeId>,
)
    requires
        grounded(c, n, event, b, more, all),
        index > 0,
        history::was_made(all, term, index),
        accepted_is_past(c, seen),
        entry_stays(c, seen, all, term, index, group),
    ensures
        holders_hold(
            c.with_node(n, b, more),
            seen.union(gains(n, c.nodes[n], event, b)),
            all,
            term,
            index,
            group,
        ),
{
    let (a, d) = (c.nodes[n], c.with_node(n, b, more));
    let now = seen.union(gains(n, a, event, b));
    assert forall|p: NodeId| #[trigger]
        group.contains(p) && vouched(now, p, term, index) implies d.nodes.contains_key(p)
        && ends::reaches(all, d.nodes[p].store, term, index) by {
        let j = choose|j: LogIndex| #[trigger] now.contains((p, term, j)) && j >= index;
        assert(now.contains((p, term, j)));
        if seen.contains((p, term, j)) {
            assert(vouched(seen, p, term, index));
            assert(c.nodes.contains_key(p));
            if p == n {
                assert(keeping::agrees(all, a.store, term, index, index));
                keeping::a_log_keeps(c, n, event, b, more, all, term, index, index);
            }
        } else {
            gaining_holds(c, n, event, b, more, all, index, j);
        }
    }
}

/// A log that is at least as far as one that holds the entry holds it, too.
proof fn far_logs_hold(
    all: Set<(EntryView, Term)>,
    made: Set<(EntryView, Term)>,
    term: Term,
    index: LogIndex,
    own_term: Term,
    own_index: LogIndex,
    far_term: Term,
    far_index: LogIndex,
)
    requires
        keeping::sound(all),
        made.subset_of(all),
        index > 0,
        keeping::later_terms_include(made, all, term, index),
        history::rooted(all, own_term, own_index),
        history::rooted(made, far_term, far_index),
        history::includes(all, own_term, own_index, term, index),
        state::at_least(far_term, far_index, own_term, own_index),
    ensures
        history::includes(all, far_term, far_index, term, index),
{
    history::stays_rooted(all, own_term, own_index, index);
    history::rooted_stays(made, all, far_term, far_index);
    if far_term > own_term {
        let x = choose|x: (EntryView, Term)| #[trigger]
            made.contains(x) && x.0.term == far_term && x.0.index == far_index;
        assert(made.contains(x));
    } else {
        nested(all, own_term, far_index, own_index);
        history::composes(all, far_term, far_index, own_index, index);
    }
}

/// What an election rests on.
pub(crate) open spec fn campaigning(
    c: Cluster,
    n: NodeId,
    event: Event,
    b: NodeState,
    more: Set<(EntryView, Term)>,
) -> bool {
    &&& c.nodes.contains_key(n)
    &&& c.hears(n, event)
    &&& election::elections_hold(c)
    &&& election::elections_hold(c.with_node(n, b, more))
    &&& election::node_step(c.nodes[n], event, b)
}

/// Whoever comes to lead in a later term holds the entry.
proof fn a_new_leader_holds(
    c: Cluster,
    n: NodeId,
    event: Event,
    b: NodeState,
    more: Set<(EntryView, Term)>,
    all: Set<(EntryView, Term)>,
    seen: Set<(NodeId, Term, LogIndex)>,
    term: Term,
    index: LogIndex,
    group: Set<NodeId>,
    over: Set<NodeId>,
)
    requires
        campaigning(c, n, event, b, more),
        entry_stays(c, seen, all, term, index, group),
        nobody_is_late(
            c.with_node(n, b, more),
            seen.union(gains(n, c.nodes[n], event, b)),
            term,
            index,
            group,
        ),
        over.finite(),
        b.voters.finite(),
        quorum_laws::is_majority(group, over),
        election::next_to(over, b.voters),
        b.role == Role::Leader,
        c.nodes[n].role != Role::Leader,
        b.term() > term,
    ensures
        ends::reaches(all, c.nodes[n].store, term, index),
{
    let (a, d) = (c.nodes[n], c.with_node(n, b, more));
    let now = seen.union(gains(n, a, event, b));
    election::winners_have_votes(c, n, event, b, more);
    election::neighbours_meet(group, b.votes, over, b.voters);
    let r = choose|r: NodeId| group.contains(r) && b.votes.contains(r);
    assert(d.cast.contains((r, b.term(), n)));
    election::names_hold(c, n);
    if r == n {
        assert(d.nodes.contains_key(n) && d.nodes[n] == b);
        assert(vouched(now, n, term, index));
        let j = choose|j: LogIndex| #[trigger] now.contains((n, term, j)) && j >= index;
        assert(now.contains((n, term, j)));
        assert(seen.contains((n, term, j)));
        assert(vouched(seen, n, term, index));
    } else {
        assert(c.cast.contains((r, b.term(), n)));
        if moves::fresh(a, b) {
            assert(b.votes.contains(r));
        } else {
            assert(moves::goes_on(a, event, b));
        }
    }
}

/// If the node comes to lead in a later term, it holds the entry.
spec fn wins_with_it(
    a: NodeState,
    b: NodeState,
    all: Set<(EntryView, Term)>,
    term: Term,
    index: LogIndex,
) -> bool {
    b.role == Role::Leader && a.role != Role::Leader && b.term() > term ==> ends::reaches(
        all,
        a.store,
        term,
        index,
    )
}

proof fn later_step(
    c: Cluster,
    n: NodeId,
    event: Event,
    b: NodeState,
    more: Set<(EntryView, Term)>,
    all: Set<(EntryView, Term)>,
    seen: Set<(NodeId, Term, LogIndex)>,
    term: Term,
    index: LogIndex,
    group: Set<NodeId>,
)
    requires
        grounded(c, n, event, b, more, all),
        entry_stays(c, seen, all, term, index, group),
        wins_with_it(c.nodes[n], b, all, term, index),
    ensures
        keeping::later_terms_include(c.with_node(n, b, more).made, all, term, index),
{
    let (a, d) = (c.nodes[n], c.with_node(n, b, more));
    histories::history_facts(c);
    matching::log_facts(c);
    assert forall|x: (EntryView, Term)| #[trigger]
        d.made.contains(x) && x.0.term > term implies history::includes(
        all,
        x.0.term,
        x.0.index,
        term,
        index,
    ) by {
        if !c.made.contains(x) {
            assert(more.contains(x));
            history::store_ends(a.store, c.made);
            if a.role == Role::Leader {
                assert(histories::ends_well(a, c.made));
                let y = choose|y: (EntryView, Term)| #[trigger]
                    c.made.contains(y) && y.0.term == a.store.last_term() && y.0.index
                        == a.store.last_index();
                assert(c.made.contains(y));
            }
            assert(ends::reaches(all, a.store, term, index));
            assert(all.contains(x));
            history::before_is(all, x);
        }
    }
}

proof fn candidates_step(
    c: Cluster,
    n: NodeId,
    event: Event,
    b: NodeState,
    more: Set<(EntryView, Term)>,
    all: Set<(EntryView, Term)>,
    seen: Set<(NodeId, Term, LogIndex)>,
    term: Term,
    index: LogIndex,
    group: Set<NodeId>,
)
    requires
        grounded(c, n, event, b, more, all),
        index > 0,
        entry_stays(c, seen, all, term, index, group),
        nobody_is_late(
            c.with_node(n, b, more),
            seen.union(gains(n, c.nodes[n], event, b)),
            term,
            index,
            group,
        ),
    ensures
        candidates_hold(c.with_node(n, b, more), all, term, index, group),
{
    let (a, d) = (c.nodes[n], c.with_node(n, b, more));
    election::names_hold(c, n);
    assert forall|r: NodeId, late: Term, k: NodeId| #[trigger]
        d.cast.contains((r, late, k)) && group.contains(r) && late > term && r != k
            && d.nodes[k].role == Role::Candidate && d.nodes[k].term()
            == late implies ends::reaches(all, d.nodes[k].store, term, index) by {
        if c.cast.contains((r, late, k)) {
            if k == n {
                histories::a_vote_is_for_a_candidate(c, r, late, n);
                assert(moves::goes_on(a, event, b));
                assert(ends::same_end(a.store, b.store));
            }
        } else {
            assert(r == n && late == b.term() && b.store.hs.voted_for == Some(k));
            if a.term() == b.term() && a.store.hs.voted_for == Some(k) {
                histories::a_vote_is_recorded(c, n, k);
            } else {
                a_vote_goes_to_a_holder(
                    c,
                    n,
                    event,
                    b,
                    more,
                    all,
                    seen,
                    term,
                    index,
                    group,
                    k,
                );
            }
        }
    }
}

/// Whoever gets the vote of a holder is one.
proof fn a_vote_goes_to_a_holder(
    c: Cluster,
    n: NodeId,
    event: Event,
    b: NodeState,
    more: Set<(EntryView, Term)>,
    all: Set<(EntryView, Term)>,
    seen: Set<(NodeId, Term, LogIndex)>,
    term: Term,
    index: LogIndex,
    group: Set<NodeId>,
    k: NodeId,
)
    requires
        grounded(c, n, event, b, more, all),
        index > 0,
        entry_stays(c, seen, all, term, index, group),
        nobody_is_late(
            c.with_node(n, b, more),
            seen.union(gains(n, c.nodes[n], event, b)),
            term,
            index,
            group,
        ),
        group.contains(n),
        b.term() > term,
        k != n,
        moves::deserves(c.nodes[n], event, b, k),
        c.nodes[k].role == Role::Candidate,
        c.nodes[k].term() == b.term(),
    ensures
        ends::reaches(all, c.nodes[k].store, term, index),
{
    let (a, d) = (c.nodes[n], c.with_node(n, b, more));
    let now = seen.union(gains(n, a, event, b));
    histories::history_facts(c);
    matching::log_facts(c);
    assert(d.nodes.contains_key(n) && d.nodes[n] == b);
    assert(vouched(now, n, term, index));
    let j = choose|j: LogIndex| #[trigger] now.contains((n, term, j)) && j >= index;
    assert(now.contains((n, term, j)));
    assert(seen.contains((n, term, j)));
    assert(vouched(seen, n, term, index));
    match event {
        Event::Step(from, MessageView::RequestVote(req)) => {
            election::candidates_ask(c, from, n, req);
            histories::a_request_tells(c, from, n, req);
            history::store_ends(a.store, c.made);
            assert(c.made.subset_of(all)) by {
                assert forall|x: (EntryView, Term)| #[trigger]
                    c.made.contains(x) implies all.contains(x) by {
                    assert(d.made.contains(x));
                }
            }
            history::rooted_stays(c.made, all, a.store.last_term(), a.store.last_index());
            far_logs_hold(
                all,
                c.made,
                term,
                index,
                a.store.last_term(),
                a.store.last_index(),
                req.last_log_term,
                req.last_log_index,
            );
        },
        _ => {},
    }
}

proof fn one_step(
    c: Cluster,
    n: NodeId,
    event: Event,
    b: NodeState,
    more: Set<(EntryView, Term)>,
    all: Set<(EntryView, Term)>,
    seen: Set<(NodeId, Term, LogIndex)>,
    term: Term,
    index: LogIndex,
    group: Set<NodeId>,
)
    requires
        grounded(c, n, event, b, more, all),
        index > 0,
        history::was_made(all, term, index),
        accepted_is_past(c, seen),
        entry_stays(c, seen, all, term, index, group),
        nobody_is_late(
            c.with_node(n, b, more),
            seen.union(gains(n, c.nodes[n], event, b)),
            term,
            index,
            group,
        ),
        wins_with_it(c.nodes[n], b, all, term, index),
    ensures
        entry_stays(
            c.with_node(n, b, more),
            seen.union(gains(n, c.nodes[n], event, b)),
            all,
            term,
            index,
            group,
        ),
{
    holders_step(c, n, event, b, more, all, seen, term, index, group);
    later_step(c, n, event, b, more, all, seen, term, index, group);
    candidates_step(c, n, event, b, more, all, seen, term, index, group);
}

// ---- runs ----

/// If nobody of the group is late after a move, nobody was before it.
proof fn earlier_is_not_late(
    c: Cluster,
    n: NodeId,
    event: Event,
    b: NodeState,
    more: Set<(EntryView, Term)>,
    seen: Set<(NodeId, Term, LogIndex)>,
    term: Term,
    index: LogIndex,
    group: Set<NodeId>,
)
    requires
        c.nodes.contains_key(n),
        election::node_step(c.nodes[n], event, b),
        nobody_is_late(
            c.with_node(n, b, more),
            seen.union(gains(n, c.nodes[n], event, b)),
            term,
            index,
            group,
        ),
    ensures
        nobody_is_late(c, seen, term, index, group),
{
    let d = c.with_node(n, b, more);
    let now = seen.union(gains(n, c.nodes[n], event, b));
    assert forall|r: NodeId| #[trigger]
        group.contains(r) && c.nodes.contains_key(r) && c.nodes[r].term() > term implies vouched(
        seen,
        r,
        term,
        index,
    ) by {
        assert(d.nodes.contains_key(r));
        assert(vouched(now, r, term, index));
        let j = choose|j: LogIndex| #[trigger] now.contains((r, term, j)) && j >= index;
        assert(now.contains((r, term, j)));
        assert(seen.contains((r, term, j)));
    }
}

pub(crate) proof fn accepted_is_past_in_runs(start: Cluster, run: Seq<(NodeId, Move)>)
    requires
        cluster::possible(start, run),
    ensures
        accepted_is_past(cluster::reached(start, run), accepted(start, run)),
    decreases run.len(),
{
    if run.len() > 0 {
        accepted_is_past_in_runs(start, run.drop_last());
        let c = cluster::reached(start, run.drop_last());
        let (n, move_) = run.last();
        election::a_move_steps(c, n, move_);
        past_step(
            c,
            n,
            election::event_of(move_),
            c.next_node(n, move_),
            runs::makes(c, n, move_),
            accepted(start, run.drop_last()),
        );
    }
}

/// A majority that held the entry.
spec fn holders(
    seen: Set<(NodeId, Term, LogIndex)>,
    voters: Set<NodeId>,
    term: Term,
    index: LogIndex,
) -> Set<NodeId> {
    choose|group: Set<NodeId>| #[trigger]
        quorum_laws::is_majority(group, voters) && forall|p: NodeId| #[trigger]
            group.contains(p) ==> vouched(seen, p, term, index)
}

/// A leader of the late term that was elected over `over` was elected by
/// someone who held an entry of `marks` behind the one of `term` at `index`, or
/// that one.
pub open spec fn anchored(
    all: Set<(EntryView, Term)>,
    marks: Set<(Term, LogIndex, Set<NodeId>)>,
    term: Term,
    index: LogIndex,
    late: Term,
    over: Set<NodeId>,
) -> bool {
    exists|near: Term, at: LogIndex, voters: Set<NodeId>| #[trigger]
        marks.contains((near, at, voters)) && term <= near < late && history::includes(
            all,
            near,
            at,
            term,
            index,
        ) && election::next_to(voters, over)
}

/// However the membership changes: each leader is elected over one that is next
/// to the one over which every mark, or a mark behind it, was set.
pub open spec fn hangs_together(
    all: Set<(EntryView, Term)>,
    led: Set<(Term, NodeId, Set<NodeId>)>,
    marks: Set<(Term, LogIndex, Set<NodeId>)>,
) -> bool {
    forall|
        term: Term,
        index: LogIndex,
        voters: Set<NodeId>,
        late: Term,
        n: NodeId,
        over: Set<NodeId>,
    |
        #![trigger marks.contains((term, index, voters)), led.contains((late, n, over))]
        marks.contains((term, index, voters)) && led.contains((late, n, over)) && late > term
            ==> anchored(all, marks, term, index, late, over)
}

/// Entries that are settled, each over its membership, in the end.
pub open spec fn are_settled(
    all: Set<(EntryView, Term)>,
    seen: Set<(NodeId, Term, LogIndex)>,
    marks: Set<(Term, LogIndex, Set<NodeId>)>,
) -> bool {
    forall|term: Term, index: LogIndex, voters: Set<NodeId>| #[trigger]
        marks.contains((term, index, voters)) ==> settled(all, seen, voters, term, index)
}

/// What a run, up to where it has come, rests on: `all` that is ever made,
/// accepted and led in the whole of it, and entries that are settled by then.
#[verifier::opaque]
pub(crate) closed spec fn foreseen(
    start: Cluster,
    run: Seq<(NodeId, Move)>,
    all: Set<(EntryView, Term)>,
    seen: Set<(NodeId, Term, LogIndex)>,
    led: Set<(Term, NodeId, Set<NodeId>)>,
    marks: Set<(Term, LogIndex, Set<NodeId>)>,
) -> bool {
    let c = cluster::reached(start, run);
    &&& cluster::possible(start, run)
    &&& matching::steady(c)
    &&& keeping::sound(all)
    &&& c.made.subset_of(all)
    &&& c.led.subset_of(led)
    &&& are_settled(all, seen, marks)
    &&& hangs_together(all, led, marks)
    &&& forall|term: Term, index: LogIndex, voters: Set<NodeId>| #[trigger]
        marks.contains((term, index, voters)) ==> nobody_is_late(
            c,
            accepted(start, run),
            term,
            index,
            holders(seen, voters, term, index),
        )
}

/// A whole run foresees itself.
pub(crate) proof fn a_run_foresees_itself(
    start: Cluster,
    run: Seq<(NodeId, Move)>,
    marks: Set<(Term, LogIndex, Set<NodeId>)>,
)
    requires
        cluster::possible(start, run),
        matching::steady(cluster::reached(start, run)),
        are_settled(cluster::reached(start, run).made, accepted(start, run), marks),
        hangs_together(
            cluster::reached(start, run).made,
            cluster::reached(start, run).led,
            marks,
        ),
    ensures
        foreseen(
            start,
            run,
            cluster::reached(start, run).made,
            accepted(start, run),
            cluster::reached(start, run).led,
            marks,
        ),
{
    reveal(foreseen);
    let (c, seen) = (cluster::reached(start, run), accepted(start, run));
    origins::origins_hold_in_runs(start, run);
    matching::making_facts(c);
    assert forall|term: Term, index: LogIndex, voters: Set<NodeId>| #[trigger]
        marks.contains((term, index, voters)) implies nobody_is_late(
        c,
        seen,
        term,
        index,
        holders(seen, voters, term, index),
    ) by {
        assert(settled(c.made, seen, voters, term, index));
        let group = holders(seen, voters, term, index);
        assert(quorum_laws::is_majority(group, voters));
    }
}

/// The last move of a run that foresees its end.
pub(crate) proof fn a_move_is_grounded(
    start: Cluster,
    run: Seq<(NodeId, Move)>,
    all: Set<(EntryView, Term)>,
    seen: Set<(NodeId, Term, LogIndex)>,
    led: Set<(Term, NodeId, Set<NodeId>)>,
    marks: Set<(Term, LogIndex, Set<NodeId>)>,
)
    requires
        foreseen(start, run, all, seen, led, marks),
        matching::whole_run(start, run),
        run.len() > 0,
    ensures
        ({
            let c = cluster::reached(start, run.drop_last());
            let (n, move_) = run.last();
            &&& grounded(
                c,
                n,
                election::event_of(move_),
                c.next_node(n, move_),
                runs::makes(c, n, move_),
                all,
            )
            &&& cluster::reached(start, run) == c.with_node(
                n,
                c.next_node(n, move_),
                runs::makes(c, n, move_),
            )
        }),
{
    reveal(foreseen);
    let c = cluster::reached(start, run.drop_last());
    let (n, move_) = run.last();
    matching::earlier_is_steady(c, n, move_);
    runs::histories_hold_in_runs(start, run);
    runs::histories_hold_in_runs(start, run.drop_last());
    runs::the_last_move(start, run);
}

/// What is foreseen at the end of a run was foreseen before its last move.
pub(crate) proof fn foreseen_before(
    start: Cluster,
    run: Seq<(NodeId, Move)>,
    all: Set<(EntryView, Term)>,
    seen: Set<(NodeId, Term, LogIndex)>,
    led: Set<(Term, NodeId, Set<NodeId>)>,
    marks: Set<(Term, LogIndex, Set<NodeId>)>,
)
    requires
        foreseen(start, run, all, seen, led, marks),
        run.len() > 0,
    ensures
        foreseen(start, run.drop_last(), all, seen, led, marks),
{
    reveal(foreseen);
    let before = run.drop_last();
    let c = cluster::reached(start, before);
    let (n, move_) = run.last();
    let (event, b, more) = (
        election::event_of(move_),
        c.next_node(n, move_),
        runs::makes(c, n, move_),
    );
    matching::earlier_is_steady(c, n, move_);
    election::a_move_steps(c, n, move_);
    let d = c.with_node(n, b, more);
    assert(d == cluster::reached(start, run));
    assert forall|x: (EntryView, Term)| #[trigger] c.made.contains(x) implies all.contains(x) by {
        assert(d.made.contains(x));
    }
    assert forall|x: (Term, NodeId, Set<NodeId>)| #[trigger] c.led.contains(x) implies led.contains(
        x,
    ) by {
        assert(d.led.contains(x));
    }
    assert forall|term: Term, index: LogIndex, voters: Set<NodeId>| #[trigger]
        marks.contains((term, index, voters)) implies nobody_is_late(
        c,
        accepted(start, before),
        term,
        index,
        holders(seen, voters, term, index),
    ) by {
        earlier_is_not_late(
            c,
            n,
            event,
            b,
            more,
            accepted(start, before),
            term,
            index,
            holders(seen, voters, term, index),
        );
    }
}

/// What a run that foresees its end has of a mark.
proof fn a_mark_is_foreseen(
    start: Cluster,
    run: Seq<(NodeId, Move)>,
    all: Set<(EntryView, Term)>,
    seen: Set<(NodeId, Term, LogIndex)>,
    led: Set<(Term, NodeId, Set<NodeId>)>,
    marks: Set<(Term, LogIndex, Set<NodeId>)>,
    term: Term,
    index: LogIndex,
    voters: Set<NodeId>,
)
    requires
        foreseen(start, run, all, seen, led, marks),
        marks.contains((term, index, voters)),
    ensures
        cluster::possible(start, run),
        settled(all, seen, voters, term, index),
        quorum_laws::is_majority(holders(seen, voters, term, index), voters),
        nobody_is_late(
            cluster::reached(start, run),
            accepted(start, run),
            term,
            index,
            holders(seen, voters, term, index),
        ),
        forall|late: Term, n: NodeId, over: Set<NodeId>| #[trigger]
            cluster::reached(start, run).led.contains((late, n, over)) && late > term ==> anchored(
                all,
                marks,
                term,
                index,
                late,
                over,
            ),
{
    reveal(foreseen);
    assert(settled(all, seen, voters, term, index));
    let c = cluster::reached(start, run);
    assert forall|late: Term, n: NodeId, over: Set<NodeId>| #[trigger]
        c.led.contains((late, n, over)) && late > term implies anchored(
        all,
        marks,
        term,
        index,
        late,
        over,
    ) by {
        assert(led.contains((late, n, over)));
    }
}

/// The mark by which a leader of the late term holds the entry.
spec fn anchor(
    all: Set<(EntryView, Term)>,
    marks: Set<(Term, LogIndex, Set<NodeId>)>,
    term: Term,
    index: LogIndex,
    late: Term,
    over: Set<NodeId>,
) -> (Term, LogIndex, Set<NodeId>) {
    choose|near: Term, at: LogIndex, voters: Set<NodeId>| #[trigger]
        marks.contains((near, at, voters)) && term <= near < late && history::includes(
            all,
            near,
            at,
            term,
            index,
        ) && election::next_to(voters, over)
}

/// Whoever comes to lead holds the entry, if it holds the mark that stands for
/// it.
proof fn wins_by_an_anchor(
    c: Cluster,
    n: NodeId,
    event: Event,
    b: NodeState,
    more: Set<(EntryView, Term)>,
    all: Set<(EntryView, Term)>,
    seen: Set<(NodeId, Term, LogIndex)>,
    term: Term,
    index: LogIndex,
    near: Term,
    at: LogIndex,
    over: Set<NodeId>,
    group: Set<NodeId>,
)
    requires
        campaigning(c, n, event, b, more),
        b.role == Role::Leader,
        c.nodes[n].role != Role::Leader,
        near < b.term(),
        history::includes(all, near, at, term, index),
        election::next_to(over, b.voters),
        over.finite(),
        quorum_laws::is_majority(group, over),
        entry_stays(c, seen, all, near, at, group),
        nobody_is_late(
            c.with_node(n, b, more),
            seen.union(gains(n, c.nodes[n], event, b)),
            near,
            at,
            group,
        ),
    ensures
        ends::reaches(all, c.nodes[n].store, term, index),
{
    let a = c.nodes[n];
    election::winners_have_votes(c, n, event, b, more);
    election::electorates_are_finite(c.with_node(n, b, more), b.term(), n, b.voters);
    a_new_leader_holds(c, n, event, b, more, all, seen, near, at, group, over);
    history::composes(all, a.store.last_term(), a.store.last_index(), at, index);
}

/// Whoever comes to lead holds every mark of an earlier term.
pub(crate) proof fn a_winner_holds(
    start: Cluster,
    run: Seq<(NodeId, Move)>,
    all: Set<(EntryView, Term)>,
    seen: Set<(NodeId, Term, LogIndex)>,
    led: Set<(Term, NodeId, Set<NodeId>)>,
    marks: Set<(Term, LogIndex, Set<NodeId>)>,
    term: Term,
    index: LogIndex,
    voters: Set<NodeId>,
)
    requires
        foreseen(start, run, all, seen, led, marks),
        run.len() > 0,
        matching::whole_run(start, run.drop_last()),
        marks.contains((term, index, voters)),
        ({
            let c = cluster::reached(start, run.drop_last());
            let (n, move_) = run.last();
            &&& c.nodes[n].role != Role::Leader
            &&& c.next_node(n, move_).role == Role::Leader
            &&& c.next_node(n, move_).term() > term
        }),
    ensures
        ends::reaches(
            all,
            cluster::reached(start, run.drop_last()).nodes[run.last().0].store,
            term,
            index,
        ),
    decreases run.len(), 0int,
{
    a_mark_is_foreseen(start, run, all, seen, led, marks, term, index, voters);
    let before = run.drop_last();
    let (c, taken) = (cluster::reached(start, before), accepted(start, before));
    let (n, move_) = run.last();
    let (event, b, more) = (
        election::event_of(move_),
        c.next_node(n, move_),
        runs::makes(c, n, move_),
    );
    foreseen_before(start, run, all, seen, led, marks);
    election::elections_hold_in_runs(start, before);
    election::elections_hold_in_runs(start, run);
    election::a_move_steps(c, n, move_);
    election::winners_have_votes(c, n, event, b, more);
    assert(anchored(all, marks, term, index, b.term(), b.voters));
    let (near, at, over) = anchor(all, marks, term, index, b.term(), b.voters);
    a_mark_is_foreseen(start, run, all, seen, led, marks, near, at, over);
    entry_stays_in_runs(start, before, all, seen, led, marks, near, at, over);
    let group = holders(seen, over, near, at);
    wins_by_an_anchor(c, n, event, b, more, all, taken, term, index, near, at, over, group);
}

proof fn entry_stays_in_runs(
    start: Cluster,
    run: Seq<(NodeId, Move)>,
    all: Set<(EntryView, Term)>,
    seen: Set<(NodeId, Term, LogIndex)>,
    led: Set<(Term, NodeId, Set<NodeId>)>,
    marks: Set<(Term, LogIndex, Set<NodeId>)>,
    term: Term,
    index: LogIndex,
    voters: Set<NodeId>,
)
    requires
        foreseen(start, run, all, seen, led, marks),
        matching::whole_run(start, run),
        marks.contains((term, index, voters)),
    ensures
        entry_stays(
            cluster::reached(start, run),
            accepted(start, run),
            all,
            term,
            index,
            holders(seen, voters, term, index),
        ),
    decreases run.len(), 1int,
{
    a_mark_is_foreseen(start, run, all, seen, led, marks, term, index, voters);
    if run.len() > 0 {
        let before = run.drop_last();
        let (c, taken) = (cluster::reached(start, before), accepted(start, before));
        let (n, move_) = run.last();
        let (event, b, more) = (
            election::event_of(move_),
            c.next_node(n, move_),
            runs::makes(c, n, move_),
        );
        let a = c.nodes[n];
        foreseen_before(start, run, all, seen, led, marks);
        a_move_is_grounded(start, run, all, seen, led, marks);
        entry_stays_in_runs(start, before, all, seen, led, marks, term, index, voters);
        accepted_is_past_in_runs(start, before);
        if b.role == Role::Leader && a.role != Role::Leader && b.term() > term {
            a_winner_holds(start, run, all, seen, led, marks, term, index, voters);
        }
        one_step(
            c,
            n,
            event,
            b,
            more,
            all,
            taken,
            term,
            index,
            holders(seen, voters, term, index),
        );
    }
}

/// At every moment, every entry of a later term stands behind what is settled in
/// the end.
pub(crate) proof fn marks_are_kept(
    start: Cluster,
    run: Seq<(NodeId, Move)>,
    all: Set<(EntryView, Term)>,
    seen: Set<(NodeId, Term, LogIndex)>,
    led: Set<(Term, NodeId, Set<NodeId>)>,
    marks: Set<(Term, LogIndex, Set<NodeId>)>,
)
    requires
        foreseen(start, run, all, seen, led, marks),
        matching::whole_run(start, run),
    ensures
        forall|term: Term, index: LogIndex, voters: Set<NodeId>| #[trigger]
            marks.contains((term, index, voters)) ==> {
                &&& history::was_made(all, term, index)
                &&& keeping::later_terms_include(
                    cluster::reached(start, run).made,
                    all,
                    term,
                    index,
                )
            },
{
    assert forall|term: Term, index: LogIndex, voters: Set<NodeId>| #[trigger]
        marks.contains((term, index, voters)) implies history::was_made(all, term, index)
        && keeping::later_terms_include(cluster::reached(start, run).made, all, term, index) by {
        a_mark_is_foreseen(start, run, all, seen, led, marks, term, index, voters);
        entry_stays_in_runs(start, run, all, seen, led, marks, term, index, voters);
    }
}

/// Every leader of a later term than a mark's holds what is marked.
pub(crate) proof fn leaders_hold_marks(
    start: Cluster,
    run: Seq<(NodeId, Move)>,
    marks: Set<(Term, LogIndex, Set<NodeId>)>,
    term: Term,
    index: LogIndex,
    voters: Set<NodeId>,
    n: NodeId,
)
    requires
        runs::orderly(start, run),
        are_settled(cluster::reached(start, run).made, accepted(start, run), marks),
        hangs_together(
            cluster::reached(start, run).made,
            cluster::reached(start, run).led,
            marks,
        ),
        marks.contains((term, index, voters)),
        cluster::reached(start, run).nodes.contains_key(n),
        cluster::reached(start, run).nodes[n].role == Role::Leader,
        cluster::reached(start, run).nodes[n].term() > term,
    ensures
        ({
            let s = cluster::reached(start, run).nodes[n].store;
            &&& s.last_index() >= index
            &&& s.holds(index) ==> s.at(index).term == term
        }),
{
    let c = cluster::reached(start, run);
    let s = c.nodes[n].store;
    a_run_foresees_itself(start, run, marks);
    marks_are_kept(start, run, c.made, accepted(start, run), c.led, marks);
    runs::histories_hold_in_runs(start, run);
    histories::history_facts(c);
    matching::log_facts(c);
    assert(histories::ends_well(c.nodes[n], c.made));
    history::store_ends(s, c.made);
    let x = choose|x: (EntryView, Term)| #[trigger]
        c.made.contains(x) && x.0.term == s.last_term() && x.0.index == s.last_index();
    assert(c.made.contains(x));
    if s.holds(index) {
        history::store_includes(s, c.made, index);
    }
}

/// Leader completeness. Whatever is lost, delayed, reordered or repeated, and
/// whichever nodes stop and start again: once a majority of the voters held an
/// entry in its own term, every leader of a later term holds it, in its log or
/// under its snapshot. It takes later leaders that are elected over the same
/// voters or all but one of them or one more, and snapshots that are not put
/// under entries that do not follow from them.
pub proof fn leaders_hold_what_is_settled(
    start: Cluster,
    run: Seq<(NodeId, Move)>,
    voters: Set<NodeId>,
    term: Term,
    index: LogIndex,
    n: NodeId,
)
    requires
        cluster::possible(start, run),
        matching::coherent_run(start, run),
        matching::steady(cluster::reached(start, run)),
        settled(
            cluster::reached(start, run).made,
            accepted(start, run),
            voters,
            term,
            index,
        ),
        forall|late: Term, m: NodeId, over: Set<NodeId>| #[trigger]
            cluster::reached(start, run).led.contains((late, m, over)) && late > term
                ==> election::next_to(voters, over),
        cluster::reached(start, run).nodes.contains_key(n),
        cluster::reached(start, run).nodes[n].role == Role::Leader,
        cluster::reached(start, run).nodes[n].term() > term,
    ensures
        ({
            let s = cluster::reached(start, run).nodes[n].store;
            &&& s.last_index() >= index
            &&& s.holds(index) ==> s.at(index).term == term
        }),
{
    let c = cluster::reached(start, run);
    matching::coherent_runs_are_whole(start, run);
    let mark = (term, index, voters);
    let marks = Set::empty().insert(mark);
    assert(marks.contains(mark));
    assert forall|
        early: Term,
        at: LogIndex,
        by: Set<NodeId>,
        late: Term,
        m: NodeId,
        over: Set<NodeId>,
    |
        #![trigger marks.contains((early, at, by)), c.led.contains((late, m, over))]
        marks.contains((early, at, by)) && c.led.contains((late, m, over)) && late
            > early implies anchored(c.made, marks, early, at, late, over) by {
        assert((early, at, by) == mark);
        assert(marks.contains((term, index, voters)));
    }
    leaders_hold_marks(start, run, marks, term, index, voters, n);
}

} // verus!
