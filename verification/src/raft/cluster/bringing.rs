//! What a log that another node sends does to the role and the mail of a node.

use vstd::prelude::*;

use crate::raft::cluster;
use crate::raft::cluster::moves;
use crate::raft::node::laws::Event;
use crate::raft::node::state::{self, NodeState, Role};
use crate::raft::rpc::{AppendView, InstallView, MessageView};
use crate::raft::storage::Durable;
use crate::raft::types::{NodeId, Term};

verus! {

/// An event that brings a log from elsewhere leaves the node a follower, or as
/// it was, and is answered by a reply that has nothing to do with votes.
#[verifier::opaque]
pub open spec fn bringing_step(a: NodeState, event: Event, b: NodeState) -> bool {
    &&& moves::role_step(a, event, b)
    &&& moves::mail_step(a, event, b)
    &&& moves::vote_step(a, event, b)
    &&& forall|x: (NodeId, MessageView)| #[trigger]
        b.outbox.contains(x) ==> a.outbox.contains(x) || moves::log_reply(event, x)
    &&& b.role == Role::Follower || b == (NodeState { outbox: b.outbox, ..a })
}

proof fn append_entries_step(a: NodeState, from: NodeId, req: AppendView)
    ensures
        bringing_step(
            a,
            Event::Step(from, MessageView::AppendEntries(req)),
            a.handle_append_entries(from, req).node,
        ),
{
    reveal(bringing_step);
    let event = Event::Step(from, MessageView::AppendEntries(req));
    let b = a.handle_append_entries(from, req).node;
    append_reply_last(a, from, req);
    if b.outbox != a.outbox {
        moves::replies(a, event, b, b.outbox.last());
        moves::pushed(a.outbox, b.outbox.last());
    }
}

proof fn install_snapshot_step(a: NodeState, from: NodeId, req: InstallView)
    ensures
        bringing_step(
            a,
            Event::Step(from, MessageView::InstallSnapshot(req)),
            a.handle_install_snapshot(from, req).node,
        ),
{
    reveal(bringing_step);
    let event = Event::Step(from, MessageView::InstallSnapshot(req));
    let b = a.handle_install_snapshot(from, req).node;
    install_reply_last(a, from, req);
    if b.outbox != a.outbox {
        moves::replies(a, event, b, b.outbox.last());
        moves::pushed(a.outbox, b.outbox.last());
    }
}

/// Every event that brings a log from elsewhere.
pub(crate) proof fn a_bringing_step(a: NodeState, event: Event)
    requires
        a.admits(event),
        cluster::brings_log(event),
    ensures
        bringing_step(a, event, cluster::outcome(a, event)),
{
    reveal(cluster::outcome);
    match event {
        Event::Step(from, message) => match message {
            MessageView::AppendEntries(req) => append_entries_step(a, from, req),
            MessageView::InstallSnapshot(req) => install_snapshot_step(a, from, req),
            _ => {},
        },
        _ => {},
    }
}

proof fn first_is_no_later(store: Durable, term: Term, index: nat)
    ensures
        state::first_of_term(store, term, index) <= index,
    decreases index,
{
    if index > 1 && store.term_or_zero((index - 1) as u64) == term {
        first_is_no_later(store, term, (index - 1) as nat);
    }
}

proof fn append_reply_last(a: NodeState, from: NodeId, req: AppendView)
    ensures
        ({
            let b = a.handle_append_entries(from, req).node;
            let event = Event::Step(from, MessageView::AppendEntries(req));
            b.outbox == a.outbox || (b.outbox == a.outbox.push(b.outbox.last())
                && moves::log_reply(event, b.outbox.last()))
        }),
{
    let b = a.handle_append_entries(from, req).node;
    let node = a.become_follower(req.term, Some(req.leader_id));
    first_is_no_later(
        node.store,
        node.store.term_or_zero(req.prev_log_index),
        req.prev_log_index as nat,
    );
    if b.outbox.len() > 0 {
        assert(b.outbox == a.outbox || b.outbox =~= a.outbox.push(b.outbox.last()));
    }
}

proof fn install_reply_last(a: NodeState, from: NodeId, req: InstallView)
    ensures
        ({
            let b = a.handle_install_snapshot(from, req).node;
            let event = Event::Step(from, MessageView::InstallSnapshot(req));
            b.outbox == a.outbox || (b.outbox == a.outbox.push(b.outbox.last())
                && moves::log_reply(event, b.outbox.last()))
        }),
{
    let b = a.handle_install_snapshot(from, req).node;
    if b.outbox.len() > 0 {
        assert(b.outbox == a.outbox || b.outbox =~= a.outbox.push(b.outbox.last()));
    }
}

} // verus!
