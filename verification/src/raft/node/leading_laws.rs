//! How a leader begins, and what it commits and answers as it goes on.

use vstd::prelude::*;

use crate::raft::node::election_laws;
use crate::raft::node::laws::{self, Event};
use crate::raft::node::replication_laws::{self, end_index, known_of, next_for};
use crate::raft::node::service_laws;
use crate::raft::node::state::{NodeState, Role};
use crate::raft::rpc::{MessageView, RequestVoteResp};
use crate::raft::types::{EntryType, EntryView, NodeId};

verus! {

/// What may be committed depends on the log, on who the voters are and on what
/// they are known to hold.
proof fn committed_alike(a: NodeState, b: NodeState, before: u64, commit: u64)
    requires
        replication_laws::has_committed(before, a, commit),
        a.store == b.store,
        a.voters == b.voters,
        a.match_index == b.match_index,
    ensures
        replication_laws::has_committed(before, b, commit),
{
    assert forall|i: int| #[trigger] replication_laws::may_commit(a, i)
        == replication_laws::may_commit(b, i) by {
        assert(replication_laws::holders(a, i) =~= replication_laws::holders(b, i));
    }
    if commit > before {
        assert(replication_laws::may_commit(a, commit as int));
    }
    assert forall|i: int| commit < i <= end_index(b.store) implies
        !#[trigger] replication_laws::may_commit(b, i) by {
        assert(!replication_laws::may_commit(a, i));
    }
}

/// A leader that was just elected knows of nobody else's log. It believes each
/// to go on where its own ended before the election, and so tells every other
/// voter of its first entry. No answer counts from before, and no read waits. It
/// has committed what the voters that it knows of hold: with others to hear from
/// nothing new.
pub proof fn a_new_leader_starts_afresh(node: NodeState, from: NodeId, resp: RequestVoteResp)
    requires
        node.wf(),
        node.has_room(),
        node.role == Role::Candidate,
        replication_laws::aims_high(node),
        node.step(from, MessageView::RequestVoteResp(resp)).fault is None,
        node.step(from, MessageView::RequestVoteResp(resp)).node.role == Role::Leader,
    ensures
        ({
            let after = node.step(from, MessageView::RequestVoteResp(resp)).node;
            let as_sent = NodeState { commit_index: node.commit_index, ..after };
            &&& forall|p: NodeId|
                node.voters.contains(p) && p != node.config.id ==> {
                    &&& #[trigger] known_of(after, p) == 0
                    &&& next_for(after, p) == end_index(node.store) + 1
                }
            &&& known_of(after, node.config.id) == end_index(node.store) + 1
            &&& replication_laws::all_are_told(as_sent, node.outbox, after.outbox)
            &&& after.pending_reads.len() == 0
            &&& after.reads_buf == node.reads_buf
            &&& after.ack_count == Map::<NodeId, u64>::empty()
            &&& after.heartbeat_elapsed == 0
            &&& replication_laws::has_committed(node.commit_index, after, after.commit_index)
        }),
{
    let after = node.step(from, MessageView::RequestVoteResp(resp)).node;
    let counted = NodeState { votes: node.votes.insert(from), ..node };
    election_laws::more_than_half_elect(node, from, resp);
    let crowned = counted.crowned();
    laws::sending_frame(crowned, crowned.others());
    let sent = crowned.broadcast_append().node;
    assert(crowned.store.wf()) by {
        node.store.no_gap(seq![counted.noop()], 0);
        node.store.append_wf(seq![counted.noop()]);
    }
    assert(end_index(node.store) == node.store.last_index());
    assert(replication_laws::aims_high(crowned)) by {
        assert forall|p: NodeId| #[trigger] next_for(crowned, p) >= 1 by {
            assert(next_for(node, p) >= 1);
        }
    }
    replication_laws::a_broadcast_reaches_every_other_voter(crowned);
    replication_laws::commits_the_highest(sent);
    committed_alike(sent, after, node.commit_index, after.commit_index);
    replication_laws::told_alike(
        crowned,
        NodeState { commit_index: node.commit_index, ..after },
        node.outbox,
        after.outbox,
    );
    assert forall|p: NodeId| node.voters.contains(p) && p != node.config.id implies
        #[trigger] known_of(after, p) == 0 && next_for(after, p) == end_index(node.store) + 1 by {
        assert(counted.for_others(0).contains_key(p));
        assert(counted.for_others((node.store.last_index() + 1) as u64).contains_key(p));
    }
}

/// A leader commits what it proposes as soon as more than half of the voters
/// hold it: alone, at once.
pub proof fn a_proposal_is_committed_with_a_majority(node: NodeState, command: Seq<u8>)
    requires
        node.admits(Event::Propose(command)),
        node.role == Role::Leader,
        node.propose(command).fault is None,
    ensures
        ({
            let after = node.propose(command).node;
            replication_laws::has_committed(node.commit_index, after, after.commit_index)
        }),
{
    let entry = EntryView {
        term: node.term(),
        index: (node.store.last_index() + 1) as u64,
        command,
        entry_type: EntryType::Normal,
    };
    let own = node.with_own_entry(entry);
    let after = node.propose(command).node;
    assert(own.store.wf()) by {
        node.store.no_gap(seq![entry], 0);
        node.store.append_wf(seq![entry]);
    }
    laws::sending_frame(own, own.others());
    let sent = own.broadcast_append().node;
    replication_laws::commits_the_highest(sent);
    committed_alike(sent, after, node.commit_index, after.commit_index);
}

/// With every tick a leader decides over the reads that wait: it answers those
/// that may be answered, and no others.
pub proof fn a_tick_decides_over_reads(node: NodeState)
    requires
        node.admits(Event::Tick),
        node.role == Role::Leader,
        node.tick().fault is None,
    ensures
        service_laws::reads_are_judged(node.reads_buf, node.pending_reads, node.tick().node),
{
    let beat = NodeState { heartbeat_elapsed: 0, ..node };
    laws::sending_frame(beat, beat.others());
    if node.heartbeat_elapsed + 1 >= node.config.heartbeat_interval {
        service_laws::releasing(beat.broadcast_append().node);
    } else {
        service_laws::releasing(
            NodeState { heartbeat_elapsed: (node.heartbeat_elapsed + 1) as u64, ..node },
        );
    }
}

} // verus!
