//! What each event does to the role, the mail and the log of a node.

use vstd::prelude::*;

use crate::raft::cluster;
use crate::raft::cluster::moves;
use crate::raft::node::laws::{self, Event};
use crate::raft::node::quorum_laws;
use crate::raft::node::state::{self, ConfChange, NodeState, ReadToken, Role};
use crate::raft::rpc::{
    AppendEntriesResp, InstallSnapshotResp, MessageView, RequestVoteReq, RequestVoteResp,
};
use crate::raft::types::{EntryType, EntryView, LogIndex, NodeId};

verus! {

/// A leader that sends something to everyone, and changes nothing that matters
/// but for that.
proof fn sending_step(a: NodeState, mid: NodeState, event: Event)
    requires
        a.role == Role::Leader,
        a.voters.finite(),
        !moves::brings_answer(event),
        mid.role == a.role,
        mid.config == a.config,
        mid.voters == a.voters,
        mid.store == a.store,
        mid.commit_index == a.commit_index,
        mid.next_index == a.next_index,
        mid.outbox == a.outbox,
    ensures
        moves::quiet_step(a, event, mid.broadcast_append().node),
        moves::quiet_step(a, event, mid.broadcast_append().node.release_reads()),
{
    reveal(moves::quiet_step);
    laws::sending_frame(mid, mid.others());
    moves::each_append(mid, mid.others());
    moves::asked_are_voters(mid);
    let b = mid.broadcast_append().node;
    assert forall|x: (NodeId, MessageView)| #[trigger] b.outbox.contains(x) implies
        a.outbox.contains(x) || moves::new_mail(a, event, b, x) by {
        if !a.outbox.contains(x) {
            assert(mid.others().contains(x.0));
        }
    }
    assert forall|x: (NodeId, MessageView)| #[trigger]
        b.release_reads().outbox.contains(x) implies a.outbox.contains(x) || moves::new_mail(
        a,
        event,
        b.release_reads(),
        x,
    ) by {
        assert(b.outbox.contains(x));
    }
}

proof fn tick_step(a: NodeState)
    requires
        a.admits(Event::Tick),
    ensures
        moves::quiet_step(
            a,
            Event::Tick,
            a.tick().node,
        ),
{
    reveal(moves::quiet_step);
    let b = a.tick().node;
    if a.role == Role::Leader {
        if a.heartbeat_elapsed + 1 >= a.config.heartbeat_interval {
            let beat = NodeState { heartbeat_elapsed: 0, ..a };
            sending_step(a, beat, Event::Tick);
        } else {
            assert(b.outbox == a.outbox);
        }
    } else {
        let waited = NodeState { elapsed: (a.elapsed + 1) as u64, ..a };
        if waited.elapsed >= waited.election_deadline {
            moves::prevote_step(a, waited, Event::Tick);
            let asked = waited.start_prevote().node;
            assert forall|p: NodeId| #[trigger] moves::aim(b, p) == moves::aim(asked, p) by {}
        }
    }
}

proof fn vote_resp_step(a: NodeState, from: NodeId, resp: RequestVoteResp)
    requires
        a.admits(Event::Step(from, MessageView::RequestVoteResp(resp))),
    ensures
        moves::quiet_step(
            a,
            Event::Step(from, MessageView::RequestVoteResp(resp)),
            a.handle_vote_resp(from, resp).node,
        ),
{
    reveal(moves::quiet_step);
    let event = Event::Step(from, MessageView::RequestVoteResp(resp));
    let b = a.handle_vote_resp(from, resp).node;
    let counted = NodeState { votes: a.votes.insert(from), ..a };
    if a.role == Role::PreCandidate && resp.pre_vote {
        if resp.term <= a.term() && resp.vote_granted && counted.votes.len() >= counted.quorum() {
            moves::standing(counted);
            moves::stands_from(a, counted, event);
        }
    } else if a.role == Role::Candidate && !resp.pre_vote {
        if resp.term == a.term() && resp.vote_granted {
            if counted.votes.len() >= counted.quorum() {
                moves::winning(counted);
                moves::asked_are_voters(b);
                assert(b.store.entries =~= a.store.entries.push(counted.noop()));
                assert(moves::own_entry(a, b) == counted.noop());
            }
        }
    }
}

proof fn request_vote_step(a: NodeState, from: NodeId, req: RequestVoteReq)
    requires
        a.admits(Event::Step(from, MessageView::RequestVote(req))),
    ensures
        moves::quiet_step(
            a,
            Event::Step(from, MessageView::RequestVote(req)),
            a.handle_request_vote(from, req),
        ),
{
    reveal(moves::quiet_step);
    let event = Event::Step(from, MessageView::RequestVote(req));
    let b = a.handle_request_vote(from, req);
    let x = b.outbox.last();
    assert(b.outbox =~= a.outbox.push(x));
    moves::replies(a, event, b, x);
}

proof fn append_resp_step(a: NodeState, from: NodeId, resp: AppendEntriesResp)
    requires
        a.admits(Event::Step(from, MessageView::AppendEntriesResp(resp))),
    ensures
        moves::quiet_step(
            a,
            Event::Step(from, MessageView::AppendEntriesResp(resp)),
            a.handle_append_resp(from, resp).node,
        ),
{
    reveal(moves::quiet_step);
    let event = Event::Step(from, MessageView::AppendEntriesResp(resp));
    if resp.term <= a.term() && a.role == Role::Leader && resp.term == a.term() {
        if resp.success {
            moves::committing_is_silent(a.acknowledged(from));
            laws::commit_frame(a.acknowledged(from));
        } else {
            let next = match resp.conflict_index {
                Some(index) => if index > 1 {
                    index
                } else {
                    1
                },
                None => 1,
            };
            moves::one_append(a.backed_up(from, next), from);
        }
    }
}

proof fn install_resp_step(a: NodeState, from: NodeId, resp: InstallSnapshotResp)
    requires
        a.admits(Event::Step(from, MessageView::InstallSnapshotResp(resp))),
    ensures
        moves::quiet_step(
            a,
            Event::Step(from, MessageView::InstallSnapshotResp(resp)),
            a.handle_install_snapshot_resp(from, resp).node,
        ),
{
    reveal(moves::quiet_step);
    if resp.term <= a.term() && a.role == Role::Leader {
        let base = a.store.base.last_index;
        let matched = if a.matched(from) > base {
            a.matched(from)
        } else {
            base
        };
        let told = NodeState {
            match_index: a.match_index.insert(from, matched),
            next_index: a.next_index.insert(from, (base + 1) as u64),
            ..a
        };
        moves::one_append(told, from);
    }
}

/// A leader that adds an entry and sends it on.
proof fn own_step(a: NodeState, own: NodeState, event: Event)
    requires
        a.role == Role::Leader,
        own.role == Role::Leader,
        own.config == a.config,
        own.outbox == a.outbox,
        own.commit_index == a.commit_index,
        own.store.hs == a.store.hs,
        own.store.base == a.store.base,
        own.store.entries == a.store.entries.push(moves::own_entry(a, own)),
        own.voters.finite(),
        !moves::brings_answer(event),
        forall|p: NodeId|
            {
                ||| #[trigger] moves::aim(own, p) == moves::aim(a, p) && (own.voters.contains(p)
                    ==> a.voters.contains(p))
                ||| moves::aim(own, p) <= own.store.last_index() + 1
            },
    ensures
        ({
            let b = own.broadcast_append().node;
            &&& moves::role_step(a, event, b)
            &&& moves::mail_step(a, event, b)
            &&& moves::log_step(a, b)
            &&& moves::commit_step(a, b)
            &&& moves::vote_step(a, event, b)
            &&& moves::aim_step(a, event, b)
            &&& moves::role_step(a, event, b.advance_commit())
            &&& moves::mail_step(a, event, b.advance_commit())
            &&& moves::log_step(a, b.advance_commit())
            &&& moves::commit_step(a, b.advance_commit())
            &&& moves::vote_step(a, event, b.advance_commit())
            &&& moves::aim_step(a, event, b.advance_commit())
        }),
{
    let b = own.broadcast_append().node;
    moves::each_append(own, own.others());
    moves::asked_are_voters(own);
    laws::sending_frame(own, own.others());
    moves::committing_is_silent(b);
    laws::commit_frame(b);
    let after = b.advance_commit();
    assert forall|x: (NodeId, MessageView)| #[trigger] b.outbox.contains(x) implies
        a.outbox.contains(x) || moves::new_mail(a, event, b, x) && moves::new_mail(
        a,
        event,
        after,
        x,
    ) by {
        if !a.outbox.contains(x) {
            assert(own.others().contains(x.0));
        }
    }
    assert forall|p: NodeId| #[trigger] moves::aim(b, p) == moves::aim(own, p) by {}
    assert forall|p: NodeId| #[trigger] moves::aim(after, p) == moves::aim(own, p) by {}
    assert(moves::own_entry(a, b) == moves::own_entry(a, own));
    assert(moves::own_entry(a, b.advance_commit()) == moves::own_entry(a, own));
}

proof fn propose_step(a: NodeState, command: Seq<u8>)
    requires
        a.admits(Event::Propose(command)),
    ensures
        moves::quiet_step(
            a,
            Event::Propose(command),
            a.propose(command).node,
        ),
{
    reveal(moves::quiet_step);
    if a.role == Role::Leader {
        let e = EntryView {
            term: a.term(),
            index: (a.store.last_index() + 1) as u64,
            command,
            entry_type: EntryType::Normal,
        };
        let own = a.with_own_entry(e);
        assert(own.store.entries =~= a.store.entries.push(e));
        assert(moves::own_entry(a, own) == e);
        own_step(a, own, Event::Propose(command));
    }
}

proof fn conf_change_step(a: NodeState, change: ConfChange)
    requires
        a.admits(Event::ProposeConfChange(change)),
    ensures
        moves::quiet_step(
            a,
            Event::ProposeConfChange(change),
            a.propose_conf_change(change).node,
        ),
{
    reveal(moves::quiet_step);
    if a.accepts_change(change) {
        let e = EntryView {
            term: a.term(),
            index: (a.store.last_index() + 1) as u64,
            command: state::voters_bytes(a.changed_voters(change)),
            entry_type: EntryType::ConfigChange,
        };
        let own = a.with_own_entry(e);
        assert(own.store.entries =~= a.store.entries.push(e));
        assert(moves::own_entry(a, own) == e);
        let voting = own.recompute_voters();
        assert(moves::own_entry(a, voting.node) == e);
        if voting.fault is None {
            let seeded = voting.node.seeded(change);
            assert(moves::own_entry(a, seeded) == e);
            let voters = a.changed_voters(change);
            if voters.len() > u32::MAX {
                quorum_laws::too_many_voters(voters);
            } else {
                quorum_laws::voters_round_trip(voters);
            }
            quorum_laws::config_of_push(a.store.entries, e);
            assert(seeded.voters == voters);
            assert(seeded.store.last_index() == a.store.last_index() + 1);
            assert forall|p: NodeId|
                {
                    ||| #[trigger] moves::aim(seeded, p) == moves::aim(a, p) && (
                    seeded.voters.contains(p) ==> a.voters.contains(p))
                    ||| moves::aim(seeded, p) <= seeded.store.last_index() + 1
                } by {
                assert(moves::aim(seeded, p) <= seeded.store.last_index() + 1 || moves::aim(
                    seeded,
                    p,
                ) == moves::aim(a, p));
            }
            own_step(a, seeded, Event::ProposeConfChange(change));
        }
    }
}

proof fn read_step(a: NodeState, token: ReadToken)
    requires
        a.admits(Event::ReadIndex(token)),
    ensures
        moves::quiet_step(
            a,
            Event::ReadIndex(token),
            a.read_index(token).node,
        ),
{
    reveal(moves::quiet_step);
    if a.role == Role::Leader {
        let waiting = NodeState {
            pending_reads: a.pending_reads.push(
                state::ReadView { token, floor: a.commit_index, barrier: a.send_count },
            ),
            ..a
        };
        sending_step(a, waiting, Event::ReadIndex(token));
    }
}

proof fn compact_step(a: NodeState, index: LogIndex, data: Seq<u8>)
    requires
        a.admits(Event::Compact(index, data)),
    ensures
        moves::quiet_step(
            a,
            Event::Compact(index, data),
            a.compact(index, data).node,
        ),
{
    reveal(moves::quiet_step);
    let b = a.compact(index, data).node;
    if b.store.base != a.store.base {
        if index == a.store.last_index() {
            assert(a.store.entries.skip(index - a.store.base.last_index) =~= Seq::empty());
        }
    }
}

/// Every event that brings no log from elsewhere.
pub(crate) proof fn a_quiet_step(a: NodeState, event: Event)
    requires
        a.admits(event),
        !cluster::brings_log(event),
    ensures
        moves::quiet_step(a, event, cluster::outcome(a, event)),
{
    reveal(cluster::outcome);
    match event {
        Event::Tick => tick_step(a),
        Event::Step(from, message) => match message {
            MessageView::RequestVote(req) => request_vote_step(a, from, req),
            MessageView::RequestVoteResp(resp) => vote_resp_step(a, from, resp),
            MessageView::AppendEntriesResp(resp) => append_resp_step(a, from, resp),
            MessageView::InstallSnapshotResp(resp) => install_resp_step(a, from, resp),
            _ => {},
        },
        Event::Propose(command) => propose_step(a, command),
        Event::ProposeConfChange(change) => conf_change_step(a, change),
        Event::ReadIndex(token) => read_step(a, token),
        Event::Compact(index, data) => compact_step(a, index, data),
        Event::Ready => {
            reveal(moves::quiet_step);
        },
    }
}

} // verus!
