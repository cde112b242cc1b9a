//! What a failing store cannot make a node do.

use vstd::prelude::*;

use crate::raft::ids;
use crate::raft::node::quorum_laws;
use crate::raft::node::state::{self, NodeState};
use crate::raft::types::NodeId;

verus! {

/// A node that wins by its own vote has nobody to ask.
pub(crate) proof fn alone(node: NodeState)
    requires
        node.voters.finite(),
        node.own_vote().len() >= node.quorum(),
    ensures
        node.others().len() == 0,
        node.standing().others().len() == 0,
        node.standing().outbox == node.outbox,
{
    let id = node.config.id;
    assert(node.voters.len() <= 1);
    assert(node.voters.contains(id));
    assert forall|p: NodeId| node.voters.contains(p) implies p == id by {
        if p != id {
            let two = Set::<NodeId>::empty().insert(id).insert(p);
            assert(two.subset_of(node.voters));
            vstd::set_lib::lemma_len_subset(two, node.voters);
        }
    }
    quorum_laws::has_listing(node.voters);
    let all = ids::ascending(node.voters);
    let others = node.others();
    if others.len() > 0 {
        all.lemma_filter_pred(state::except(id), 0);
        all.lemma_filter_contains_rev(state::except(id), others[0]);
        assert(all.to_set().contains(others[0]));
    }
    assert(node.standing().others() == others);
    assert(node.standing().outbox =~= node.outbox);
}

} // verus!
