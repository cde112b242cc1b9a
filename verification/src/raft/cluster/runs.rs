//! What holds throughout a run.

use vstd::prelude::*;

use crate::raft::cluster;
use crate::raft::cluster::election;
use crate::raft::cluster::ends;
use crate::raft::cluster::histories;
use crate::raft::cluster::matching;
use crate::raft::cluster::origins;
use crate::raft::cluster::{Cluster, Move};
use crate::raft::node::laws::Event;
use crate::raft::rpc::MessageView;
use crate::raft::types::{EntryView, NodeId, Term};

verus! {

/// A run that can happen, in which leaders of one term are elected over
/// memberships that are the same or differ by one voter, and no node leads whose
/// entries do not follow from its snapshot, nor hears otherwise of that.
pub open spec fn orderly(start: Cluster, run: Seq<(NodeId, Move)>) -> bool {
    &&& cluster::possible(start, run)
    &&& matching::whole_run(start, run)
    &&& matching::steady(cluster::reached(start, run))
}

/// What a node writes by a move.
pub open spec fn makes(c: Cluster, n: NodeId, move_: Move) -> Set<(EntryView, Term)> {
    match move_ {
        Move::Happens(event) => cluster::written(c.nodes[n], event, c.next_node(n, move_)),
        Move::Restarts => Set::empty(),
    }
}

/// One move, with what the node does by it.
proof fn a_move_is_full(c: Cluster, n: NodeId, move_: Move)
    requires
        c.allows(n, move_),
        matching::whole(c, n, move_),
        matching::logs_hold(c),
        histories::histories_hold(c),
    ensures
        ends::full_step(
            c.made,
            c.nodes[n],
            election::event_of(move_),
            c.next_node(n, move_),
            makes(c, n, move_),
        ),
        matching::chain_move(
            c.made,
            c.nodes[n],
            election::event_of(move_),
            c.next_node(n, move_),
            makes(c, n, move_),
        ),
        c.hears(n, election::event_of(move_)),
{
    matching::a_move_chains(c, n, move_);
    histories::history_facts(c);
    matching::log_facts(c);
    let a = c.nodes[n];
    assert(histories::ends_well(a, c.made));
    match move_ {
        Move::Happens(event) => {
            if cluster::brings_log(event) {
                match event {
                    Event::Step(from, message) => {
                        assert(c.sent.contains((from, n, message)));
                        if message is AppendEntries {
                            let req = message->AppendEntries_0;
                            assert(c.sent.contains((from, n, MessageView::AppendEntries(req))));
                            if ends::firmly(a, req) && ends::end_index(req)
                                == a.store.base.last_index {
                                histories::a_firm_log(c, n, req);
                            }
                        }
                    },
                    _ => {},
                }
                ends::a_bringing_move(a, event, c.made);
                assert(makes(c, n, move_) =~= Set::empty());
            } else {
                ends::a_quiet_move(a, event, c.made);
            }
        },
        Move::Restarts => {
            reveal(cluster::restarted);
        },
    }
}

/// The last move of a run, with everything that it rests on.
pub(crate) proof fn the_last_move(start: Cluster, run: Seq<(NodeId, Move)>)
    requires
        orderly(start, run),
        run.len() > 0,
        histories::histories_hold(cluster::reached(start, run.drop_last())),
    ensures
        ({
            let c = cluster::reached(start, run.drop_last());
            let (n, move_) = run.last();
            &&& orderly(start, run.drop_last())
            &&& histories::step_holds(
                c,
                n,
                election::event_of(move_),
                c.next_node(n, move_),
                makes(c, n, move_),
            )
            &&& cluster::reached(start, run) == c.with_node(
                n,
                c.next_node(n, move_),
                makes(c, n, move_),
            )
        }),
{
    let before = run.drop_last();
    let (c, d) = (cluster::reached(start, before), cluster::reached(start, run));
    let (n, move_) = run.last();
    matching::earlier_is_steady(c, n, move_);
    election::elections_hold_in_runs(start, before);
    election::elections_hold_in_runs(start, run);
    matching::logs_hold_in_runs(start, before);
    matching::logs_hold_in_runs(start, run);
    origins::origins_hold_in_runs(start, run);
    election::a_move_steps(c, n, move_);
    a_move_is_full(c, n, move_);
    assert(d.nodes.contains_key(n) && d.nodes[n] == c.next_node(n, move_));
}

pub(crate) proof fn histories_hold_in_runs(
    start: Cluster,
    run: Seq<(NodeId, Move)>,
)
    requires
        orderly(start, run),
    ensures
        histories::histories_hold(cluster::reached(start, run)),
        election::elections_hold(cluster::reached(start, run)),
        matching::logs_hold(cluster::reached(start, run)),
    decreases run.len(),
{
    if run.len() == 0 {
        histories::a_start_has_no_history(start);
    } else {
        matching::earlier_is_steady(
            cluster::reached(start, run.drop_last()),
            run.last().0,
            run.last().1,
        );
        histories_hold_in_runs(start, run.drop_last());
        the_last_move(start, run);
        let c = cluster::reached(start, run.drop_last());
        let (n, move_) = run.last();
        histories::histories_step(
            c,
            n,
            election::event_of(move_),
            c.next_node(n, move_),
            makes(c, n, move_),
        );
    }
    election::elections_hold_in_runs(start, run);
    matching::logs_hold_in_runs(start, run);
}

} // verus!
