//! What leaders believe of the logs of others.

use vstd::prelude::*;

use crate::raft::cluster;
use crate::raft::cluster::completeness;
use crate::raft::cluster::election;
use crate::raft::cluster::extents;
use crate::raft::cluster::histories;
use crate::raft::cluster::history;
use crate::raft::cluster::matching;
use crate::raft::cluster::moves;
use crate::raft::cluster::runs;
use crate::raft::cluster::{Cluster, Move};
use crate::raft::node::state::NodeState;
use crate::raft::rpc::{AppendView, MessageView};
use crate::raft::types::{EntryView, LogIndex, NodeId, Term};

verus! {

/// What a leader believes that other voters hold of its log, beyond what is
/// committed, they held, in its term.
pub open spec fn credited(
    n: NodeId,
    a: NodeState,
    b: NodeState,
    seen: Set<(NodeId, Term, LogIndex)>,
) -> bool {
    moves::leads(a, b) ==> forall|p: NodeId|
        b.voters.contains(p) && p != n && #[trigger] b.matched(p) > a.commit_index
            ==> completeness::vouched(
            seen,
            p,
            b.term(),
            b.matched(p),
        )
}

/// No leader of the run ever counts on a voter for more than it held.
pub open spec fn credited_run(start: Cluster, run: Seq<(NodeId, Move)>) -> bool
    decreases run.len(),
{
    run.len() == 0 || {
        let c = cluster::reached(start, run.drop_last());
        let (n, move_) = run.last();
        &&& credited_run(start, run.drop_last())
        &&& move_ matches Move::Happens(event) ==> cluster::brings_log(event) || credited(
            n,
            c.nodes[n],
            c.next_node(n, move_),
            completeness::accepted(start, run),
        )
    }
}

/// Every message of entries hangs on an entry that its sender had.
pub(crate) open spec fn appends_are_proper(c: Cluster) -> bool {
    forall|f: NodeId, to: NodeId, req: AppendView| #[trigger]
        c.sent.contains((f, to, MessageView::AppendEntries(req))) ==> req.entries.len() > 0
            || req.prev_log_term > 0
}

/// A request that starts within a log brings an entry, or hangs on one.
proof fn a_new_append_is_proper(d: Cluster, n: NodeId, req: AppendView)
    requires
        d.nodes.contains_key(n),
        histories::histories_hold(d),
        matching::logs_hold(d),
        moves::hands_on(
            d.nodes[n].store,
            d.nodes[n].commit_index,
            MessageView::AppendEntries(req),
        ),
        req.prev_log_index <= d.nodes[n].store.last_index(),
        d.nodes[n].store.last_index() > 0,
    ensures
        req.entries.len() > 0 || req.prev_log_term > 0,
{
    let (b, s) = (d.nodes[n], d.nodes[n].store);
    histories::history_facts(d);
    matching::log_facts(d);
    assert(histories::ends_well(b, d.made));
    history::store_ends(s, d.made);
    let y = choose|y: (EntryView, Term)| #[trigger]
        d.made.contains(y) && y.0.term == s.last_term() && y.0.index == s.last_index();
    assert(d.made.contains(y));
    if req.prev_log_index < s.last_index() {
        assert(s.holds((req.prev_log_index + 1) as u64));
    }
}

pub(crate) proof fn appends_are_proper_in_runs(start: Cluster, run: Seq<(NodeId, Move)>)
    requires
        runs::orderly(start, run),
    ensures
        appends_are_proper(cluster::reached(start, run)),
    decreases run.len(),
{
    if run.len() > 0 {
        let before = run.drop_last();
        let (c, d) = (cluster::reached(start, before), cluster::reached(start, run));
        let (n, move_) = run.last();
        let b = c.next_node(n, move_);
        matching::earlier_is_steady(c, n, move_);
        runs::histories_hold_in_runs(start, run);
        runs::histories_hold_in_runs(start, before);
        extents::the_last_event(start, run);
        appends_are_proper_in_runs(start, before);
        assert forall|f: NodeId, to: NodeId, req: AppendView| #[trigger]
            d.sent.contains((f, to, MessageView::AppendEntries(req))) implies req.entries.len() > 0
            || req.prev_log_term > 0 by {
            let message = MessageView::AppendEntries(req);
            if !c.sent.contains((f, to, message)) {
                match move_ {
                    Move::Happens(event) => {
                        extents::a_new_request(c, n, event, b, d, f, to, req);
                        histories::history_facts(c);
                        histories::history_facts(d);
                        assert(d.nodes.contains_key(n) && d.nodes[n] == b);
                        assert(histories::ends_well(b, d.made));
                        assert(histories::ends_well(c.nodes[n], c.made));
                        a_new_append_is_proper(d, n, req);
                    },
                    Move::Restarts => {
                        reveal(cluster::restarted);
                        election::mail_is_new(c, n, b, Set::empty(), f, to, message);
                    },
                }
            }
        }
    }
}

} // verus!
