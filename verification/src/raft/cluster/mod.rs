//! A whole cluster: nodes that exchange messages, stop and start again.
//!
//! The network may lose, delay, reorder and repeat messages: a message that was
//! sent may arrive at any later moment, any number of times, or never.

use vstd::prelude::*;

use crate::raft::node::laws::Event;
use crate::raft::node::state::{NodeState, Outcome, Role};
use crate::raft::rpc::MessageView;
use crate::raft::storage::Durable;
use crate::raft::types::{EntryView, HardState, NodeId, SnapshotMeta, Term};

pub mod agreement;
pub mod aims;
pub mod answers;
pub mod applying;
pub mod bringing;
pub mod chain;
pub mod completeness;
pub mod election;
pub mod ends;
pub mod events;
pub mod extents;
pub mod flight;
pub mod histories;
pub mod history;
pub mod keeping;
pub mod life;
pub mod matching;
pub mod moves;
pub mod origins;
pub mod reading;
pub mod runs;

verus! {

/// The nodes and the messages on their way, with what history has to be
/// remembered to speak of it.
pub ghost struct Cluster {
    pub nodes: Map<NodeId, NodeState>,
    /// Every message that was ever sent, with its sender and its receiver.
    pub sent: Set<(NodeId, NodeId, MessageView)>,
    /// Every vote that was ever stored: by whom, in which term, for whom.
    pub cast: Set<(NodeId, Term, NodeId)>,
    /// Every leadership: in which term, whose, and over which voters it was won.
    pub led: Set<(Term, NodeId, Set<NodeId>)>,
    /// Every entry that a leader wrote, with the term of the entry before it.
    pub made: Set<(EntryView, Term)>,
}

/// What can happen to a node of a cluster.
pub ghost enum Move {
    Happens(Event),
    /// The node stops, with what it had stored, and starts again.
    Restarts,
}

/// A store that nothing was stored in.
pub open spec fn blank() -> Durable {
    Durable {
        hs: HardState { current_term: 0, voted_for: None },
        base: SnapshotMeta { last_index: 0, last_term: 0 },
        entries: Seq::empty(),
        snapshot: None,
    }
}

/// The messages in an outbox, under the name of their sender.
pub open spec fn posted(from: NodeId, outbox: Seq<(NodeId, MessageView)>) -> Set<
    (NodeId, NodeId, MessageView),
> {
    Set::new(|m: (NodeId, NodeId, MessageView)| m.0 == from && outbox.contains((m.1, m.2)))
}

/// An entry comes from another node.
pub open spec fn brings_log(event: Event) -> bool {
    match event {
        Event::Step(_, message) => message is AppendEntries || message is InstallSnapshot,
        _ => false,
    }
}

/// The entry that a node wrote itself, with the term of the one before it.
pub open spec fn written(a: NodeState, event: Event, b: NodeState) -> Set<(EntryView, Term)> {
    if !brings_log(event) && b.store.last_index() == a.store.last_index() + 1 {
        Set::empty().insert(
            (b.store.at(b.store.last_index()), a.store.term_or_zero(a.store.last_index())),
        )
    } else {
        Set::empty()
    }
}

/// What an event makes of a node.
#[verifier::opaque]
pub open spec fn outcome(a: NodeState, event: Event) -> NodeState {
    a.after(event).node
}

/// What a restart makes of a node.
#[verifier::opaque]
pub open spec fn restarted(a: NodeState) -> Outcome {
    NodeState::started(a.config, a.store)
}

impl Cluster {
    /// What a move makes of the node.
    pub open spec fn next_node(self, n: NodeId, move_: Move) -> NodeState {
        match move_ {
            Move::Happens(event) => outcome(self.nodes[n], event),
            Move::Restarts => restarted(self.nodes[n]).node,
        }
    }

    /// The move can be made: a message arrives only if it was sent.
    pub open spec fn allows(self, n: NodeId, move_: Move) -> bool {
        &&& self.nodes.contains_key(n)
        &&& match move_ {
            Move::Happens(event) => {
                &&& self.nodes[n].admits(event)
                &&& self.hears(n, event)
            },
            Move::Restarts => restarted(self.nodes[n]).fault is None,
        }
    }

    /// The cluster with `b` in the place of the node, and everything on record
    /// that there is to it; `more` is what the node wrote.
    pub open spec fn with_node(
        self,
        n: NodeId,
        b: NodeState,
        more: Set<(EntryView, Term)>,
    ) -> Cluster {
        let a = self.nodes[n];
        Cluster {
            nodes: self.nodes.insert(n, b),
            sent: self.sent.union(posted(n, b.outbox)),
            cast: match b.store.hs.voted_for {
                Some(c) => self.cast.insert((n, b.term(), c)),
                None => self.cast,
            },
            led: if b.role == Role::Leader && !(a.role == Role::Leader && a.term() == b.term()) {
                self.led.insert((b.term(), n, b.voters))
            } else {
                self.led
            },
            made: self.made.union(more),
        }
    }

    pub open spec fn moved(self, n: NodeId, move_: Move) -> Cluster {
        let b = self.next_node(n, move_);
        self.with_node(
            n,
            b,
            match move_ {
                Move::Happens(event) => written(self.nodes[n], event, b),
                Move::Restarts => Set::empty(),
            },
        )
    }

    /// What the event says arrives was sent.
    pub open spec fn hears(self, n: NodeId, event: Event) -> bool {
        event matches Event::Step(from, message) ==> self.sent.contains((from, n, message))
    }

    /// Every node follows, over an empty store, and nothing has happened yet.
    pub open spec fn starts(self) -> bool {
        &&& forall|n: NodeId| #[trigger]
            self.nodes.contains_key(n) ==> {
                &&& self.nodes[n].config.id == n
                &&& self.nodes[n].role == Role::Follower
                &&& self.nodes[n].store == blank()
                &&& self.nodes[n].commit_index == 0
                &&& self.nodes[n].outbox == Seq::<(NodeId, MessageView)>::empty()
            }
        &&& self.sent == Set::<(NodeId, NodeId, MessageView)>::empty()
        &&& self.cast == Set::<(NodeId, Term, NodeId)>::empty()
        &&& self.led == Set::<(Term, NodeId, Set<NodeId>)>::empty()
        &&& self.made == Set::<(EntryView, Term)>::empty()
    }
}

/// What a run makes of a cluster.
pub open spec fn reached(start: Cluster, moves: Seq<(NodeId, Move)>) -> Cluster
    decreases moves.len(),
{
    if moves.len() == 0 {
        start
    } else {
        reached(start, moves.drop_last()).moved(moves.last().0, moves.last().1)
    }
}

/// A run that can happen: from a fresh start, every move allowed.
pub open spec fn possible(start: Cluster, moves: Seq<(NodeId, Move)>) -> bool
    decreases moves.len(),
{
    if moves.len() == 0 {
        start.starts()
    } else {
        possible(start, moves.drop_last()) && reached(start, moves.drop_last()).allows(
            moves.last().0,
            moves.last().1,
        )
    }
}

} // verus!
