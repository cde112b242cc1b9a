//! Logs that agree somewhere agree on everything before.

use vstd::prelude::*;

use crate::raft::cluster::bringing;
use crate::raft::cluster::chain;
use crate::raft::cluster::election;
use crate::raft::cluster::ends;
use crate::raft::cluster::events;
use crate::raft::cluster::moves;
use crate::raft::cluster::{self, Cluster, Move};
use crate::raft::node::laws::Event;
use crate::raft::node::state::{NodeState, Role};
use crate::raft::rpc::{AppendView, MessageView};
use crate::raft::types::{EntryView, LogIndex, NodeId, Term};

verus! {

/// Leaders of one term were elected over memberships that are the same or
/// differ by one voter.
pub open spec fn steady(c: Cluster) -> bool {
    forall|term: Term, a: NodeId, over_a: Set<NodeId>, b: NodeId, over_b: Set<NodeId>|
        #![trigger c.led.contains((term, a, over_a)), c.led.contains((term, b, over_b))]
        c.led.contains((term, a, over_a)) && c.led.contains((term, b, over_b))
            ==> election::next_to(over_a, over_b)
}

/// The move does not put a snapshot under entries that do not follow from it.
pub open spec fn coherent(c: Cluster, n: NodeId, move_: Move) -> bool {
    match move_ {
        Move::Happens(Event::Step(_, MessageView::InstallSnapshot(req))) => !chain::grafts(
            c.nodes[n],
            req,
        ),
        _ => true,
    }
}

/// No move of the run does.
pub open spec fn coherent_run(start: Cluster, run: Seq<(NodeId, Move)>) -> bool
    decreases run.len(),
{
    run.len() == 0 || (coherent_run(start, run.drop_last()) && coherent(
        cluster::reached(start, run.drop_last()),
        run.last().0,
        run.last().1,
    ))
}

/// A node whose entries do not follow from its snapshot does not come to lead by
/// the move, nor does it hear otherwise of the snapshot.
pub open spec fn whole(c: Cluster, n: NodeId, move_: Move) -> bool {
    let (a, b) = (c.nodes[n], c.next_node(n, move_));
    chain::chained(a.store, c.made) || {
        &&& b.role == Role::Leader ==> a.role == Role::Leader
        &&& move_ matches Move::Happens(Event::Step(_, MessageView::AppendEntries(req)))
            ==> req.term < a.term() || !ends::undercuts(a.store, req)
    }
}

/// In no move of the run.
pub open spec fn whole_run(start: Cluster, run: Seq<(NodeId, Move)>) -> bool
    decreases run.len(),
{
    run.len() == 0 || (whole_run(start, run.drop_last()) && whole(
        cluster::reached(start, run.drop_last()),
        run.last().0,
        run.last().1,
    ))
}

/// Every log is loosely a chain; that of a leader is one.
spec fn logs_are_chains(c: Cluster) -> bool {
    forall|n: NodeId| #[trigger]
        c.nodes.contains_key(n) ==> {
            &&& chain::loose(c.nodes[n].store, c.made)
            &&& c.nodes[n].role == Role::Leader ==> chain::chained(c.nodes[n].store, c.made)
        }
}

spec fn messages_are_chains(c: Cluster) -> bool {
    forall|f: NodeId, to: NodeId, req: AppendView| #[trigger]
        c.sent.contains((f, to, MessageView::AppendEntries(req))) ==> chain::brings_chain(
            req,
            c.made,
        )
}

/// Every entry is of a term that somebody led.
spec fn makers_led(c: Cluster) -> bool {
    forall|x: (EntryView, Term)| #[trigger]
        c.made.contains(x) ==> exists|n: NodeId| #[trigger] election::has_led(c, x.0.term, n)
}

/// A leader holds every index at which there is an entry of its term.
spec fn leaders_reach(c: Cluster) -> bool {
    forall|n: NodeId, x: (EntryView, Term)| #[trigger]
        c.nodes.contains_key(n) && c.nodes[n].role == Role::Leader && #[trigger] c.made.contains(x)
            && x.0.term == c.nodes[n].term() ==> x.0.index <= c.nodes[n].store.last_index()
}

/// Entries are made once, each by the leader of its term.
pub(crate) closed spec fn makings_hold(c: Cluster) -> bool {
    &&& chain::made_once(c.made)
    &&& makers_led(c)
    &&& leaders_reach(c)
}

pub(crate) closed spec fn logs_hold(c: Cluster) -> bool {
    &&& logs_are_chains(c)
    &&& messages_are_chains(c)
    &&& makings_hold(c)
}

/// What is known of the entries that were made.
pub(crate) proof fn making_facts(c: Cluster)
    requires
        makings_hold(c),
    ensures
        chain::made_once(c.made),
        forall|n: NodeId, x: (EntryView, Term)| #[trigger]
            c.nodes.contains_key(n) && c.nodes[n].role == Role::Leader && #[trigger]
            c.made.contains(x) && x.0.term == c.nodes[n].term() ==> x.0.index
                <= c.nodes[n].store.last_index(),
{
}

/// What the invariant says of the logs and of what is in the mail.
pub(crate) proof fn log_facts(c: Cluster)
    requires
        logs_hold(c),
    ensures
        chain::made_once(c.made),
        forall|n: NodeId| #[trigger]
            c.nodes.contains_key(n) ==> {
                &&& chain::loose(c.nodes[n].store, c.made)
                &&& c.nodes[n].role == Role::Leader ==> chain::chained(c.nodes[n].store, c.made)
            },
        forall|f: NodeId, to: NodeId, req: AppendView| #[trigger]
            c.sent.contains((f, to, MessageView::AppendEntries(req))) ==> chain::brings_chain(
                req,
                c.made,
            ),
        forall|n: NodeId, x: (EntryView, Term)| #[trigger]
            c.nodes.contains_key(n) && c.nodes[n].role == Role::Leader && #[trigger]
            c.made.contains(x) && x.0.term == c.nodes[n].term() ==> x.0.index
                <= c.nodes[n].store.last_index(),
{
}

/// Who led a term is one node.
pub(crate) proof fn same_leader(c: Cluster, term: Term, a: NodeId, b: NodeId)
    requires
        election::elections_hold(c),
        steady(c),
        election::has_led(c, term, a),
        election::has_led(c, term, b),
    ensures
        a == b,
{
    let over_a = choose|voters: Set<NodeId>| #[trigger] c.led.contains((term, a, voters));
    let over_b = choose|voters: Set<NodeId>| #[trigger] c.led.contains((term, b, voters));
    assert(c.led.contains((term, a, over_a)));
    assert(c.led.contains((term, b, over_b)));
    election::one_leader(c, term, a, over_a, b, over_b);
}

/// What a move does to the log: `more` is what the node wrote, one entry at
/// most, behind everything that it held.
spec fn log_move(c: Cluster, n: NodeId, b: NodeState, more: Set<(EntryView, Term)>) -> bool {
    let a = c.nodes[n];
    &&& forall|x: (EntryView, Term)| #[trigger]
        more.contains(x) ==> {
            &&& x.0.term == b.term()
            &&& x.0.index == a.store.last_index() + 1
            &&& x.0.index == b.store.last_index()
            &&& moves::leads(a, b)
        }
    &&& forall|x: (EntryView, Term), y: (EntryView, Term)| #[trigger]
        more.contains(x) && #[trigger] more.contains(y) ==> x == y
    &&& a.role == Role::Leader && b.role == Role::Leader ==> a.store.last_index()
        <= b.store.last_index()
}

/// What a move leaves of the log is loosely a chain; that of a node that leads is
/// one.
pub(crate) open spec fn chain_move(
    made: Set<(EntryView, Term)>,
    a: NodeState,
    event: Event,
    b: NodeState,
    more: Set<(EntryView, Term)>,
) -> bool {
    let all = made.union(more);
    &&& ends::answers(a, event, b)
    &&& chain::loose(b.store, all)
    &&& b.role == Role::Leader ==> chain::chained(b.store, all)
    &&& moves::leads(a, b) && !cluster::brings_log(event) ==> chain::chained(a.store, made)
        && chain::chained(b.store, all)
}

/// What was led before a move is led after it.
pub(crate) proof fn led_stays(
    c: Cluster,
    n: NodeId,
    b: NodeState,
    more: Set<(EntryView, Term)>,
    term: Term,
    k: NodeId,
)
    requires
        election::has_led(c, term, k),
    ensures
        election::has_led(c.with_node(n, b, more), term, k),
{
    let voters = choose|voters: Set<NodeId>| #[trigger] c.led.contains((term, k, voters));
    assert(c.with_node(n, b, more).led.contains((term, k, voters)));
}

/// A node that leads is on record.
pub(crate) proof fn leading_is_led(
    c: Cluster,
    n: NodeId,
    b: NodeState,
    more: Set<(EntryView, Term)>,
)
    requires
        c.nodes.contains_key(n),
        election::elections_hold(c),
        election::elections_hold(c.with_node(n, b, more)),
        moves::leads(c.nodes[n], b),
    ensures
        election::has_led(c.with_node(n, b, more), b.term(), n),
{
    if b.role == Role::Leader {
        election::a_leader_has_led(c.with_node(n, b, more), n);
    } else {
        election::a_leader_has_led(c, n);
        led_stays(c, n, b, more, b.term(), n);
    }
}

/// When a node comes to lead, no entry of its term has been made.
proof fn a_new_term_is_empty(
    c: Cluster,
    n: NodeId,
    event: Event,
    b: NodeState,
    more: Set<(EntryView, Term)>,
    x: (EntryView, Term),
)
    requires
        c.nodes.contains_key(n),
        election::elections_hold(c),
        election::elections_hold(c.with_node(n, b, more)),
        steady(c.with_node(n, b, more)),
        election::node_step(c.nodes[n], event, b),
        makers_led(c),
        b.role == Role::Leader,
        c.nodes[n].role != Role::Leader,
        c.made.contains(x),
    ensures
        x.0.term != b.term(),
{
    let d = c.with_node(n, b, more);
    if x.0.term == b.term() {
        let k = choose|k: NodeId| #[trigger] election::has_led(c, x.0.term, k);
        led_stays(c, n, b, more, b.term(), k);
        election::a_leader_has_led(d, n);
        same_leader(d, b.term(), k, n);
        election::led_terms_are_past(c, b.term(), n);
        assert(moves::role_step(c.nodes[n], event, b));
    }
}

proof fn chains_step(
    c: Cluster,
    n: NodeId,
    event: Event,
    b: NodeState,
    more: Set<(EntryView, Term)>,
)
    requires
        c.nodes.contains_key(n),
        c.hears(n, event),
        election::elections_hold(c),
        election::node_step(c.nodes[n], event, b),
        chain_move(c.made, c.nodes[n], event, b, more),
        logs_are_chains(c),
        messages_are_chains(c),
    ensures
        logs_are_chains(c.with_node(n, b, more)),
        messages_are_chains(c.with_node(n, b, more)),
{
    let d = c.with_node(n, b, more);
    assert forall|m: NodeId| #[trigger] d.nodes.contains_key(m) implies {
        &&& chain::loose(d.nodes[m].store, d.made)
        &&& d.nodes[m].role == Role::Leader ==> chain::chained(d.nodes[m].store, d.made)
    } by {
        if m != n {
            assert(c.nodes.contains_key(m));
            let s = c.nodes[m].store;
            chain::stays_loose(s, s, c.made, more);
            if c.nodes[m].role == Role::Leader {
                chain::chains_stay(s, s, c.made, more);
            }
        }
    }
    assert forall|f: NodeId, to: NodeId, req: AppendView| #[trigger]
        d.sent.contains((f, to, MessageView::AppendEntries(req))) implies chain::brings_chain(
        req,
        d.made,
    ) by {
        let message = MessageView::AppendEntries(req);
        election::mail_after(c, n, event, b, more, f, to, message);
        election::mail_is_new(c, n, b, more, f, to, message);
        if c.sent.contains((f, to, message)) {
            chain::messages_stay(req, c.made, more);
        } else {
            assert(b.outbox.contains((to, message)));
            assert(moves::hands_on(b.store, b.commit_index, message));
            chain::handed_chain(b.store, req, b.commit_index, d.made);
        }
    }
}

proof fn making_step(
    c: Cluster,
    n: NodeId,
    event: Event,
    b: NodeState,
    more: Set<(EntryView, Term)>,
)
    requires
        c.nodes.contains_key(n),
        election::elections_hold(c),
        election::elections_hold(c.with_node(n, b, more)),
        steady(c.with_node(n, b, more)),
        election::node_step(c.nodes[n], event, b),
        log_move(c, n, b, more),
        chain::made_once(c.made),
        makers_led(c),
        leaders_reach(c),
    ensures
        chain::made_once(c.with_node(n, b, more).made),
        makers_led(c.with_node(n, b, more)),
{
    let (a, d) = (c.nodes[n], c.with_node(n, b, more));
    assert forall|x: (EntryView, Term)| #[trigger] d.made.contains(x) implies exists|k: NodeId|
        #[trigger] election::has_led(d, x.0.term, k) by {
        if c.made.contains(x) {
            let k = choose|k: NodeId| #[trigger] election::has_led(c, x.0.term, k);
            led_stays(c, n, b, more, x.0.term, k);
        } else {
            leading_is_led(c, n, b, more);
        }
    }
    assert forall|x: (EntryView, Term), y: (EntryView, Term)| #[trigger]
        d.made.contains(x) && #[trigger] d.made.contains(y) && x.0.term == y.0.term && x.0.index
            == y.0.index implies x == y by {
        if c.made.contains(x) && c.made.contains(y) {
        } else if c.made.contains(x) {
            new_is_new(c, n, event, b, more, y, x);
        } else if c.made.contains(y) {
            new_is_new(c, n, event, b, more, x, y);
        }
    }
}

/// What a leader writes has not been written before.
proof fn new_is_new(
    c: Cluster,
    n: NodeId,
    event: Event,
    b: NodeState,
    more: Set<(EntryView, Term)>,
    x: (EntryView, Term),
    y: (EntryView, Term),
)
    requires
        c.nodes.contains_key(n),
        election::elections_hold(c),
        election::elections_hold(c.with_node(n, b, more)),
        steady(c.with_node(n, b, more)),
        election::node_step(c.nodes[n], event, b),
        log_move(c, n, b, more),
        makers_led(c),
        leaders_reach(c),
        more.contains(x),
        c.made.contains(y),
    ensures
        !(x.0.term == y.0.term && x.0.index == y.0.index),
{
    let a = c.nodes[n];
    if x.0.term == y.0.term {
        if a.role == Role::Leader {
            assert(y.0.term == a.term());
        } else {
            a_new_term_is_empty(c, n, event, b, more, y);
        }
    }
}

proof fn reaching_step(
    c: Cluster,
    n: NodeId,
    event: Event,
    b: NodeState,
    more: Set<(EntryView, Term)>,
)
    requires
        c.nodes.contains_key(n),
        election::elections_hold(c),
        election::elections_hold(c.with_node(n, b, more)),
        steady(c.with_node(n, b, more)),
        election::node_step(c.nodes[n], event, b),
        log_move(c, n, b, more),
        makers_led(c),
        leaders_reach(c),
    ensures
        leaders_reach(c.with_node(n, b, more)),
{
    let (a, d) = (c.nodes[n], c.with_node(n, b, more));
    assert forall|m: NodeId, x: (EntryView, Term)| #[trigger]
        d.nodes.contains_key(m) && d.nodes[m].role == Role::Leader && #[trigger] d.made.contains(x)
            && x.0.term == d.nodes[m].term() implies x.0.index <= d.nodes[m].store.last_index() by {
        if m != n {
            assert(c.nodes.contains_key(m));
            if !c.made.contains(x) {
                assert(more.contains(x));
                leading_is_led(c, n, b, more);
                election::a_leader_has_led(d, m);
                same_leader(d, b.term(), m, n);
            }
        } else if c.made.contains(x) {
            if a.role != Role::Leader {
                a_new_term_is_empty(c, n, event, b, more, x);
            }
        }
    }
}

proof fn makings_step(
    c: Cluster,
    n: NodeId,
    event: Event,
    b: NodeState,
    more: Set<(EntryView, Term)>,
)
    requires
        c.nodes.contains_key(n),
        election::elections_hold(c),
        election::elections_hold(c.with_node(n, b, more)),
        steady(c.with_node(n, b, more)),
        election::node_step(c.nodes[n], event, b),
        log_move(c, n, b, more),
        makings_hold(c),
    ensures
        makings_hold(c.with_node(n, b, more)),
{
    making_step(c, n, event, b, more);
    reaching_step(c, n, event, b, more);
}

/// An event that brings no log.
proof fn quiet_log(c: Cluster, n: NodeId, event: Event, b: NodeState)
    requires
        moves::log_step(c.nodes[n], b),
        !cluster::brings_log(event),
        c.nodes[n].store.wf(),
        c.nodes[n].store.last_index() < u64::MAX - 1,
    ensures
        log_move(c, n, b, cluster::written(c.nodes[n], event, b)),
{
    let a = c.nodes[n];
    let more = cluster::written(a, event, b);
    assert forall|x: (EntryView, Term)| #[trigger] more.contains(x) implies {
        &&& x.0.term == b.term()
        &&& x.0.index == a.store.last_index() + 1
        &&& x.0.index == b.store.last_index()
        &&& moves::leads(a, b)
    } by {
        assert(b.store.entries == a.store.entries.push(moves::own_entry(a, b)));
        assert(b.store.at(b.store.last_index()) == moves::own_entry(a, b));
    }
}

/// An event that brings a log.
proof fn brought_log(c: Cluster, n: NodeId, event: Event)
    requires
        c.nodes.contains_key(n),
        c.nodes[n].admits(event),
        c.hears(n, event),
        cluster::brings_log(event),
        logs_are_chains(c),
        messages_are_chains(c),
    ensures
        chain::loose(cluster::outcome(c.nodes[n], event).store, c.made),
{
    let a = c.nodes[n];
    reveal(cluster::outcome);
    match event {
        Event::Step(from, MessageView::AppendEntries(req)) => {
            assert(c.sent.contains((from, n, MessageView::AppendEntries(req))));
            chain::append_loose(a, from, req, c.made);
        },
        Event::Step(from, MessageView::InstallSnapshot(req)) => {
            chain::install_loose(a, from, req, c.made);
        },
        _ => {},
    }
}

proof fn brought_move(c: Cluster, n: NodeId, event: Event, b: NodeState)
    requires
        c.nodes.contains_key(n),
        cluster::brings_log(event),
        bringing::bringing_step(c.nodes[n], event, b),
        logs_are_chains(c),
        chain::loose(b.store, c.made),
    ensures
        chain_move(c.made, c.nodes[n], event, b, cluster::written(c.nodes[n], event, b)),
{
    reveal(bringing::bringing_step);
    chain::stays_loose(b.store, b.store, c.made, Set::empty());
    if b.role == Role::Leader {
        chain::chains_stay(c.nodes[n].store, b.store, c.made, Set::empty());
    }
}

/// What a node does to its own log.
proof fn own_move(c: Cluster, n: NodeId, event: Event, b: NodeState)
    requires
        c.nodes.contains_key(n),
        moves::log_step(c.nodes[n], b),
        !cluster::brings_log(event),
        logs_are_chains(c),
        b.role == Role::Leader && c.nodes[n].role != Role::Leader ==> chain::chained(
            c.nodes[n].store,
            c.made,
        ),
        c.nodes[n].store.last_index() < u64::MAX - 1,
    ensures
        chain_move(c.made, c.nodes[n], event, b, cluster::written(c.nodes[n], event, b)),
{
    let a = c.nodes[n];
    if moves::leads(a, b) {
        chain::quiet_chain(a, event, b, c.made);
        chain::loosely(b.store, c.made.union(cluster::written(a, event, b)));
    } else {
        chain::quiet_loose(a, event, b, c.made);
    }
}

/// What a move makes.
proof fn a_move_makes(c: Cluster, n: NodeId, move_: Move)
    requires
        c.allows(n, move_),
        election::elections_hold(c),
        election::elections_hold(c.moved(n, move_)),
        steady(c.moved(n, move_)),
        makings_hold(c),
    ensures
        makings_hold(c.moved(n, move_)),
{
    election::a_move_steps(c, n, move_);
    let b = c.next_node(n, move_);
    match move_ {
        Move::Happens(event) => {
            let more = cluster::written(c.nodes[n], event, b);
            if cluster::brings_log(event) {
                bringing::a_bringing_step(c.nodes[n], event);
                reveal(bringing::bringing_step);
            } else {
                events::a_quiet_step(c.nodes[n], event);
                assert(moves::log_step(c.nodes[n], b)) by {
                    reveal(moves::quiet_step);
                }
                quiet_log(c, n, event, b);
            }
            makings_step(c, n, event, b, more);
        },
        Move::Restarts => {
            reveal(cluster::restarted);
            makings_step(c, n, Event::Ready, b, Set::empty());
        },
    }
}

/// What a move leaves of the log.
pub(crate) proof fn a_move_chains(c: Cluster, n: NodeId, move_: Move)
    requires
        c.allows(n, move_),
        whole(c, n, move_),
        logs_hold(c),
    ensures
        ({
            let (event, b) = (election::event_of(move_), c.next_node(n, move_));
            let more = match move_ {
                Move::Happens(event) => cluster::written(c.nodes[n], event, b),
                Move::Restarts => Set::empty(),
            };
            chain_move(c.made, c.nodes[n], event, b, more)
        }),
{
    let (a, b) = (c.nodes[n], c.next_node(n, move_));
    match move_ {
        Move::Happens(event) => {
            if cluster::brings_log(event) {
                bringing::a_bringing_step(a, event);
                brought_log(c, n, event);
                brought_move(c, n, event, b);
            } else {
                events::a_quiet_step(a, event);
                assert(moves::log_step(a, b)) by {
                    reveal(moves::quiet_step);
                }
                own_move(c, n, event, b);
            }
        },
        Move::Restarts => {
            reveal(cluster::restarted);
            chain::stays_loose(a.store, b.store, c.made, Set::empty());
            if a.role == Role::Leader {
                chain::chains_stay(a.store, b.store, c.made, Set::empty());
            }
        },
    }
}

proof fn one_move(c: Cluster, n: NodeId, move_: Move)
    requires
        c.allows(n, move_),
        whole(c, n, move_),
        election::elections_hold(c),
        election::elections_hold(c.moved(n, move_)),
        steady(c.moved(n, move_)),
        logs_hold(c),
    ensures
        logs_hold(c.moved(n, move_)),
{
    let b = c.next_node(n, move_);
    election::a_move_steps(c, n, move_);
    a_move_makes(c, n, move_);
    a_move_chains(c, n, move_);
    match move_ {
        Move::Happens(event) => {
            chains_step(c, n, event, b, cluster::written(c.nodes[n], event, b));
        },
        Move::Restarts => chains_step(c, n, Event::Ready, b, Set::empty()),
    }
}

pub(crate) proof fn earlier_is_steady(c: Cluster, n: NodeId, move_: Move)
    requires
        steady(c.moved(n, move_)),
    ensures
        steady(c),
{
    let d = c.moved(n, move_);
    assert forall|term: Term, a: NodeId, over_a: Set<NodeId>, b: NodeId, over_b: Set<NodeId>|
        #![trigger c.led.contains((term, a, over_a)), c.led.contains((term, b, over_b))]
        c.led.contains((term, a, over_a)) && c.led.contains(
            (term, b, over_b),
        ) implies election::next_to(over_a, over_b) by {
        assert(d.led.contains((term, a, over_a)));
        assert(d.led.contains((term, b, over_b)));
    }
}

/// Whatever happens, entries are made once, each by the leader of its term.
pub(crate) proof fn makings_hold_in_runs(start: Cluster, run: Seq<(NodeId, Move)>)
    requires
        cluster::possible(start, run),
        steady(cluster::reached(start, run)),
    ensures
        makings_hold(cluster::reached(start, run)),
    decreases run.len(),
{
    if run.len() > 0 {
        let (c, n, move_) = (
            cluster::reached(start, run.drop_last()),
            run.last().0,
            run.last().1,
        );
        earlier_is_steady(c, n, move_);
        makings_hold_in_runs(start, run.drop_last());
        election::elections_hold_in_runs(start, run.drop_last());
        election::elections_hold_in_runs(start, run);
        a_move_makes(c, n, move_);
    }
}

proof fn a_start_is_a_chain(c: Cluster)
    requires
        c.starts(),
    ensures
        logs_hold(c),
        forall|n: NodeId| #[trigger]
            c.nodes.contains_key(n) ==> chain::chained(c.nodes[n].store, c.made),
{
    assert forall|n: NodeId| #[trigger] c.nodes.contains_key(n) implies chain::chained(
        c.nodes[n].store,
        c.made,
    ) && chain::loose(c.nodes[n].store, c.made) by {
        assert forall|i: LogIndex| c.nodes[n].store.holds(i) implies #[trigger] chain::linked(
            c.nodes[n].store,
            c.made,
            i,
        ) by {}
        chain::loosely(c.nodes[n].store, c.made);
    }
}

pub(crate) proof fn logs_hold_in_runs(start: Cluster, run: Seq<(NodeId, Move)>)
    requires
        cluster::possible(start, run),
        whole_run(start, run),
        steady(cluster::reached(start, run)),
    ensures
        logs_hold(cluster::reached(start, run)),
    decreases run.len(),
{
    if run.len() == 0 {
        a_start_is_a_chain(start);
    } else {
        let (c, n, move_) = (
            cluster::reached(start, run.drop_last()),
            run.last().0,
            run.last().1,
        );
        earlier_is_steady(c, n, move_);
        logs_hold_in_runs(start, run.drop_last());
        election::elections_hold_in_runs(start, run.drop_last());
        election::elections_hold_in_runs(start, run);
        one_move(c, n, move_);
    }
}

/// An event that brings a log, and puts no snapshot under entries that do not
/// follow from it.
proof fn brought_chain(c: Cluster, n: NodeId, event: Event)
    requires
        c.nodes.contains_key(n),
        c.nodes[n].admits(event),
        c.hears(n, event),
        coherent(c, n, Move::Happens(event)),
        cluster::brings_log(event),
        logs_hold(c),
        chain::chained(c.nodes[n].store, c.made),
    ensures
        chain::chained(cluster::outcome(c.nodes[n], event).store, c.made),
{
    let a = c.nodes[n];
    reveal(cluster::outcome);
    match event {
        Event::Step(from, MessageView::AppendEntries(req)) => {
            assert(c.sent.contains((from, n, MessageView::AppendEntries(req))));
            chain::append_chain(a, from, req, c.made);
        },
        Event::Step(from, MessageView::InstallSnapshot(req)) => {
            chain::install_chain(a, from, req, c.made);
        },
        _ => {},
    }
}

/// A move that puts no snapshot under entries that do not follow from it.
proof fn a_coherent_move(c: Cluster, n: NodeId, move_: Move)
    requires
        c.allows(n, move_),
        coherent(c, n, move_),
        logs_hold(c),
        chain::chained(c.nodes[n].store, c.made),
    ensures
        chain::chained(c.next_node(n, move_).store, c.moved(n, move_).made),
{
    let (a, b) = (c.nodes[n], c.next_node(n, move_));
    match move_ {
        Move::Happens(event) => {
            if cluster::brings_log(event) {
                brought_chain(c, n, event);
                chain::chains_stay(b.store, b.store, c.made, Set::empty());
            } else {
                events::a_quiet_step(a, event);
                assert(moves::log_step(a, b)) by {
                    reveal(moves::quiet_step);
                }
                chain::quiet_chain(a, event, b, c.made);
            }
        },
        Move::Restarts => {
            reveal(cluster::restarted);
            chain::chains_stay(a.store, b.store, c.made, Set::empty());
        },
    }
}

/// Where no snapshot is put under entries that do not follow from it, every log
/// is a chain.
pub(crate) proof fn coherent_runs_are_whole(start: Cluster, run: Seq<(NodeId, Move)>)
    requires
        cluster::possible(start, run),
        coherent_run(start, run),
        steady(cluster::reached(start, run)),
    ensures
        whole_run(start, run),
        forall|n: NodeId| #[trigger]
            cluster::reached(start, run).nodes.contains_key(n) ==> chain::chained(
                cluster::reached(start, run).nodes[n].store,
                cluster::reached(start, run).made,
            ),
    decreases run.len(),
{
    if run.len() == 0 {
        a_start_is_a_chain(start);
    } else {
        let (c, d) = (cluster::reached(start, run.drop_last()), cluster::reached(start, run));
        let (n, move_) = run.last();
        earlier_is_steady(c, n, move_);
        coherent_runs_are_whole(start, run.drop_last());
        logs_hold_in_runs(start, run.drop_last());
        a_coherent_move(c, n, move_);
        assert forall|m: NodeId| #[trigger] d.nodes.contains_key(m) implies chain::chained(
            d.nodes[m].store,
            d.made,
        ) by {
            if m != n {
                let s = c.nodes[m].store;
                assert(c.nodes.contains_key(m));
                let more = match move_ {
                    Move::Happens(event) => cluster::written(c.nodes[n], event, d.nodes[n]),
                    Move::Restarts => Set::empty(),
                };
                chain::chains_stay(s, s, c.made, more);
            }
        }
    }
}

/// When a node comes to lead, nothing of its term has been made.
pub(crate) proof fn nothing_made_yet(
    c: Cluster,
    n: NodeId,
    event: Event,
    b: NodeState,
    more: Set<(EntryView, Term)>,
    x: (EntryView, Term),
)
    requires
        c.nodes.contains_key(n),
        election::elections_hold(c),
        election::elections_hold(c.with_node(n, b, more)),
        steady(c.with_node(n, b, more)),
        election::node_step(c.nodes[n], event, b),
        makings_hold(c),
        b.role == Role::Leader,
        c.nodes[n].role != Role::Leader,
        c.made.contains(x),
    ensures
        x.0.term != b.term(),
{
    a_new_term_is_empty(c, n, event, b, more, x);
}

/// Log matching. Whatever is lost, delayed, reordered or repeated, and
/// whichever nodes stop and start again: if two logs hold entries of the same
/// term at one index, they hold the same entries up to there, wherever both
/// hold one. It takes memberships that do not jump within a term, and
/// snapshots that are not put under entries that do not follow from them.
pub proof fn logs_match(
    start: Cluster,
    run: Seq<(NodeId, Move)>,
    m: NodeId,
    n: NodeId,
    i: LogIndex,
    j: LogIndex,
)
    requires
        cluster::possible(start, run),
        coherent_run(start, run),
        steady(cluster::reached(start, run)),
        cluster::reached(start, run).nodes.contains_key(m),
        cluster::reached(start, run).nodes.contains_key(n),
        ({
            let s = cluster::reached(start, run).nodes[m].store;
            let t = cluster::reached(start, run).nodes[n].store;
            &&& s.holds(i) && t.holds(i)
            &&& s.at(i).term == t.at(i).term
            &&& s.holds(j) && t.holds(j)
            &&& j <= i
        }),
    ensures
        cluster::reached(start, run).nodes[m].store.at(j) == cluster::reached(
            start,
            run,
        ).nodes[n].store.at(j),
{
    coherent_runs_are_whole(start, run);
    makings_hold_in_runs(start, run);
    let c = cluster::reached(start, run);
    chain::chains_match(c.nodes[m].store, c.nodes[n].store, c.made, i, j);
}

} // verus!
