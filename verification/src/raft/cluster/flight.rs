//! What a leader has in flight to its peers.

use vstd::prelude::*;

use crate::raft::cluster;
use crate::raft::cluster::moves;
use crate::raft::ids;
use crate::raft::node::laws::{self, Event};
use crate::raft::node::quorum_laws;
use crate::raft::node::state::{self, ConfChange, NodeState, ReadToken, ReadView, Role};
use crate::raft::rpc::{
    AppendEntriesResp, InstallSnapshotResp, MessageView, RequestVoteReq,
    RequestVoteResp,
};
use crate::raft::types::{EntryType, EntryView, LogIndex, NodeId, Term};

verus! {

/// The peer says that it took what the leader of the term sent it.
pub open spec fn agrees(event: Event, p: NodeId, term: Term) -> bool {
    event matches Event::Step(from, MessageView::AppendEntriesResp(resp)) && from == p
        && resp.success && resp.term == term
}

/// The peer refuses what the leader of the term sent it.
pub open spec fn refuses(event: Event, p: NodeId, term: Term) -> bool {
    event matches Event::Step(from, MessageView::AppendEntriesResp(resp)) && from == p
        && !resp.success && resp.term == term
}

/// The peer says that a snapshot has arrived.
pub open spec fn has_snapshot(event: Event, p: NodeId, term: Term) -> bool {
    event matches Event::Step(from, MessageView::InstallSnapshotResp(resp)) && from == p
        && resp.term <= term
}

/// Where a refusal tells the leader to go on.
pub open spec fn pointed_at(event: Event) -> LogIndex {
    match event {
        Event::Step(_, MessageView::AppendEntriesResp(resp)) => match resp.conflict_index {
            Some(index) => if index > 1 {
                index
            } else {
                1
            },
            None => 1,
        },
        _ => 1,
    }
}

/// How far a request that is sent to the peer now reaches.
pub open spec fn extent(node: NodeState, p: NodeId) -> LogIndex {
    (moves::aim(node, p) - 1 + node.store.from(moves::aim(node, p)).len()) as u64
}

/// At most one request goes out to the peer, behind what was in flight.
pub open spec fn sends_on(before: Seq<LogIndex>, count: int, b: NodeState, p: NodeId) -> bool {
    ||| b.queue(p) == before && b.sent(p) == count
    ||| {
        &&& b.queue(p) == before.push(extent(b, p))
        &&& b.sent(p) == count + 1
        &&& moves::aim(b, p) > b.store.base.last_index
    }
}

/// The node sends the peer a request, in a leadership that goes on or begins.
pub open spec fn sends(a: NodeState, b: NodeState, p: NodeId) -> bool {
    b.sent(p) > if a.role == Role::Leader {
        a.sent(p) as int
    } else {
        0
    }
}

/// What a leader thinks of the peer is as it was.
pub open spec fn thinks_on(a: NodeState, b: NodeState, p: NodeId) -> bool {
    &&& moves::aim(b, p) == moves::aim(a, p)
    &&& b.matched(p) == a.matched(p)
    &&& b.voters.contains(p) ==> a.voters.contains(p)
}

/// What becomes of a peer when a node comes to lead.
pub open spec fn starts_out(b: NodeState, p: NodeId) -> bool {
    &&& sends_on(Seq::empty(), 0, b, p)
    &&& b.queue(p).len() > 0 ==> b.voters.contains(p)
    &&& b.voters.contains(p) ==> {
        &&& moves::aim(b, p) <= b.store.last_index() + 1
        &&& b.matched(p) == 0
    }
}

/// What becomes of a peer while a node leads.
pub open spec fn goes_on(a: NodeState, event: Event, b: NodeState, p: NodeId) -> bool {
    if agrees(event, p, a.term()) {
        &&& b.outbox == a.outbox
        &&& b.voters == a.voters
        &&& b.store == a.store
        &&& if a.queue(p).len() > 0 {
            &&& b.matched(p) == if a.matched(p) > a.queue(p)[0] {
                a.matched(p)
            } else {
                a.queue(p)[0]
            }
            &&& moves::aim(b, p) == b.matched(p) + 1
            &&& b.role == Role::Leader ==> b.queue(p) == a.queue(p).skip(1) && b.sent(p) == a.sent(p)
        } else {
            &&& thinks_on(a, b, p)
            &&& b.role == Role::Leader ==> b.queue(p) == a.queue(p) && b.sent(p) == a.sent(p)
        }
    } else if refuses(event, p, a.term()) {
        &&& b.role == Role::Leader
        &&& b.voters == a.voters
        &&& b.store == a.store
        &&& b.matched(p) == a.matched(p)
        &&& moves::aim(b, p) == pointed_at(event)
        &&& sends_on(Seq::empty(), a.sent(p) as int, b, p)
    } else if has_snapshot(event, p, a.term()) {
        &&& b.role == Role::Leader
        &&& b.voters == a.voters
        &&& b.store == a.store
        &&& b.matched(p) == if a.matched(p) > a.store.base.last_index {
            a.matched(p)
        } else {
            a.store.base.last_index
        }
        &&& moves::aim(b, p) == a.store.base.last_index + 1
        &&& sends_on(a.queue(p), a.sent(p) as int, b, p)
    } else {
        &&& thinks_on(a, b, p) || {
            &&& moves::aim(b, p) == b.store.last_index() + 1
            &&& b.matched(p) == 0
        }
        &&& b.role == Role::Leader ==> {
            &&& sends_on(a.queue(p), a.sent(p) as int, b, p)
            &&& b.queue(p) != a.queue(p) ==> b.voters.contains(p)
        }
    }
}

pub open spec fn peer_step(a: NodeState, event: Event, b: NodeState, p: NodeId) -> bool {
    if a.role == Role::Leader {
        goes_on(a, event, b, p)
    } else {
        starts_out(b, p)
    }
}

/// What an event that brings no log does to the peers of a leader.
#[verifier::opaque]
pub open spec fn flight_step(a: NodeState, event: Event, b: NodeState) -> bool {
    moves::leads(a, b) ==> forall|p: NodeId|
        p != a.config.id || moves::brings_answer(event) ==> #[trigger] peer_step(a, event, b, p)
}

proof fn others_are_distinct(node: NodeState)
    requires
        node.voters.finite(),
    ensures
        node.others().no_duplicates(),
{
    quorum_laws::has_listing(node.voters);
    filtered_are_distinct(ids::ascending(node.voters), state::except(node.config.id));
}

proof fn filtered_are_distinct(q: Seq<NodeId>, f: spec_fn(NodeId) -> bool)
    requires
        q.no_duplicates(),
    ensures
        q.filter(f).no_duplicates(),
    decreases q.len(),
{
    reveal(Seq::filter);
    if q.len() > 0 {
        let early = q.drop_last();
        filtered_are_distinct(early, f);
        assert forall|i: int| 0 <= i < early.filter(f).len() implies early.filter(f)[i]
            != q.last() by {
            early.lemma_filter_contains_rev(f, early.filter(f)[i]);
            let j = early.index_of(early.filter(f)[i]);
            assert(q[j] == early.filter(f)[i]);
            assert(q[q.len() - 1] == q.last());
        }
    }
}

/// One request to each of several peers.
proof fn each_sends(node: NodeState, peers: Seq<NodeId>, p: NodeId)
    requires
        peers.no_duplicates(),
        state::countable(node.send_count),
    ensures
        ({
            let b = node.send_append_each(peers).node;
            &&& sends_on(node.queue(p), node.sent(p) as int, b, p)
            &&& !peers.contains(p) ==> b.queue(p) == node.queue(p) && b.sent(p) == node.sent(p)
        }),
    decreases peers.len(),
{
    if peers.len() > 0 {
        let (early, last) = (peers.drop_last(), peers.last());
        assert(early.no_duplicates());
        each_sends(node, early, p);
        laws::sending_frame(node, early);
        laws::sending_frame(node, peers);
        assert(!early.contains(last)) by {
            if early.contains(last) {
                let j = early.index_of(last);
                assert(peers[j] == peers[peers.len() - 1]);
            }
        }
        assert(peers[peers.len() - 1] == last);
        if early.contains(p) {
            let j = early.index_of(p);
            assert(peers[j] == p);
        }
        let before = node.send_append_each(early);
        let mid = before.node;
        if before.fault is None {
            if last == p {
                assert(ids::value_or(node.send_count, p, 0) < u64::MAX);
                assert(mid.queue(p) == node.queue(p) && mid.sent(p) == node.sent(p));
            } else {
                let b = mid.send_append(last).node;
                assert(b.queue(p) == mid.queue(p));
                assert(b.sent(p) == mid.sent(p));
            }
        }
    }
}

proof fn broadcasting(node: NodeState, p: NodeId)
    requires
        node.voters.finite(),
        state::countable(node.send_count),
    ensures
        ({
            let b = node.broadcast_append().node;
            &&& sends_on(node.queue(p), node.sent(p) as int, b, p)
            &&& b.queue(p) != node.queue(p) ==> node.voters.contains(p)
            &&& moves::aim(b, p) == moves::aim(node, p)
            &&& b.matched(p) == node.matched(p)
        }),
{
    others_are_distinct(node);
    moves::asked_are_voters(node);
    each_sends(node, node.others(), p);
    laws::sending_frame(node, node.others());
    if node.others().contains(p) {
        let i = node.others().index_of(p);
        assert(node.voters.contains(node.others()[i]));
    }
}

/// Committing changes nothing that is in flight, unless the node steps down.
proof fn committing(node: NodeState)
    ensures
        ({
            let b = node.advance_commit();
            &&& b.next_index == node.next_index
            &&& b.match_index == node.match_index
            &&& b.store == node.store
            &&& b.voters == node.voters
            &&& b.send_count == node.send_count
            &&& b.outbox == node.outbox
            &&& b.role == Role::Leader ==> b.inflight == node.inflight
        }),
{
    laws::commit_frame(node);
}

proof fn winning(node: NodeState)
    requires
        node.voters.finite(),
        node.store.wf(),
        node.store.last_index() < u64::MAX - 1,
    ensures
        forall|p: NodeId| p != node.config.id ==> #[trigger] starts_out(
            node.become_leader().node,
            p,
        ),
{
    let crowned = node.crowned();
    let sent = crowned.broadcast_append().node;
    let b = node.become_leader().node;
    assert(state::countable(crowned.send_count));
    laws::sending_frame(crowned, crowned.others());
    committing(sent);
    moves::winning(node);
    assert forall|p: NodeId| p != node.config.id implies #[trigger] starts_out(b, p) by {
        broadcasting(crowned, p);
        assert(crowned.queue(p) =~= Seq::empty());
        assert(b.queue(p) == sent.queue(p) && b.sent(p) == sent.sent(p));
        assert(moves::aim(b, p) == moves::aim(sent, p));
        assert(extent(b, p) == extent(sent, p));
        if b.voters.contains(p) {
            assert(node.for_others(0).contains_key(p));
            assert(node.for_others((node.store.last_index() + 1) as u64).contains_key(p));
        }
    }
}

proof fn standing(node: NodeState)
    requires
        node.voters.finite(),
        node.store.wf(),
        node.store.last_index() < u64::MAX - 1,
    ensures
        ({
            let b = node.become_candidate().node;
            b.role == Role::Leader ==> forall|p: NodeId|
                p != node.config.id ==> #[trigger] starts_out(b, p)
        }),
{
    let stood = node.standing();
    if stood.votes.len() >= stood.quorum() {
        winning(stood);
    }
}

/// A state that differs in nothing that matters here.
proof fn shown(a: NodeState, event: Event, mid: NodeState, b: NodeState)
    requires
        flight_step(a, event, mid),
        mid.role == b.role,
        mid.store == b.store,
        mid.voters == b.voters,
        mid.next_index == b.next_index,
        mid.match_index == b.match_index,
        mid.inflight == b.inflight,
        mid.send_count == b.send_count,
        mid.outbox == b.outbox,
    ensures
        flight_step(a, event, b),
{
    reveal(flight_step);
    assert forall|p: NodeId|
        moves::leads(a, b) && (p != a.config.id || moves::brings_answer(event)) implies #[trigger]
    peer_step(a, event, b, p) by {
        assert(peer_step(a, event, mid, p));
        assert(moves::aim(b, p) == moves::aim(mid, p));
        assert(extent(b, p) == extent(mid, p));
        assert(b.queue(p) == mid.queue(p));
    }
}

/// A leader that sends something to everyone.
proof fn sending(a: NodeState, own: NodeState, event: Event)
    requires
        a.role == Role::Leader,
        own.role == Role::Leader,
        own.config == a.config,
        own.voters.finite(),
        own.inflight == a.inflight,
        state::countable(own.send_count),
        forall|p: NodeId| #[trigger] own.sent(p) == a.sent(p),
        forall|p: NodeId|
            p != a.config.id ==> thinks_on(a, own, p) || {
                &&& #[trigger] moves::aim(own, p) == own.store.last_index() + 1
                &&& own.matched(p) == 0
            },
        !moves::brings_answer(event),
    ensures
        flight_step(a, event, own.broadcast_append().node),
        flight_step(a, event, own.broadcast_append().node.advance_commit()),
{
    reveal(flight_step);
    let b = own.broadcast_append().node;
    let after = b.advance_commit();
    laws::sending_frame(own, own.others());
    committing(b);
    assert forall|p: NodeId| p != a.config.id implies #[trigger] peer_step(a, event, b, p)
        && peer_step(a, event, after, p) by {
        broadcasting(own, p);
        assert(own.sent(p) == a.sent(p));
        assert(moves::aim(own, p) == moves::aim(b, p));
        assert(moves::aim(after, p) == moves::aim(b, p));
        assert(extent(after, p) == extent(b, p));
        if after.role == Role::Leader {
            assert(after.queue(p) == b.queue(p) && after.sent(p) == b.sent(p));
        }
    }
    assert forall|p: NodeId| p != a.config.id implies #[trigger] peer_step(
        a,
        event,
        after,
        p,
    ) by {
        assert(peer_step(a, event, b, p));
    }
}

proof fn ticking(a: NodeState)
    requires
        a.admits(Event::Tick),
    ensures
        flight_step(a, Event::Tick, a.tick().node),
{
    if a.role == Role::Leader {
        if a.heartbeat_elapsed + 1 >= a.config.heartbeat_interval {
            let beat = NodeState { heartbeat_elapsed: 0, ..a };
            assert forall|p: NodeId| #[trigger] beat.sent(p) == a.sent(p) by {}
            assert forall|p: NodeId| #[trigger] moves::aim(beat, p) == moves::aim(a, p) by {}
            sending(a, beat, Event::Tick);
            shown(a, Event::Tick, beat.broadcast_append().node, a.tick().node);
        } else {
            reveal(flight_step);
        }
    } else {
        let waited = NodeState { elapsed: (a.elapsed + 1) as u64, ..a };
        let asked = waited.asking();
        standing(asked);
        let stood = asked.become_candidate().node;
        if stood.role == Role::Leader {
            assert(flight_step(a, Event::Tick, stood)) by {
                reveal(flight_step);
                assert forall|p: NodeId| p != a.config.id implies #[trigger] peer_step(
                    a,
                    Event::Tick,
                    stood,
                    p,
                ) by {
                    assert(starts_out(stood, p));
                }
            }
        }
        if a.tick().node.role == Role::Leader {
            shown(a, Event::Tick, stood, a.tick().node);
        } else {
            reveal(flight_step);
        }
    }
}

proof fn voting(a: NodeState, from: NodeId, resp: RequestVoteResp)
    requires
        a.admits(Event::Step(from, MessageView::RequestVoteResp(resp))),
    ensures
        flight_step(
            a,
            Event::Step(from, MessageView::RequestVoteResp(resp)),
            a.handle_vote_resp(from, resp).node,
        ),
{
    reveal(flight_step);
    let counted = NodeState { votes: a.votes.insert(from), ..a };
    standing(counted);
    winning(counted);
    let b = a.handle_vote_resp(from, resp).node;
    if a.role != Role::Leader && b.role == Role::Leader {
        let event = Event::Step(from, MessageView::RequestVoteResp(resp));
        assert forall|p: NodeId| p != a.config.id implies #[trigger] peer_step(a, event, b, p) by {
            assert(starts_out(b, p));
        }
    }
}

proof fn crediting(a: NodeState, from: NodeId, resp: AppendEntriesResp)
    requires
        a.admits(Event::Step(from, MessageView::AppendEntriesResp(resp))),
    ensures
        flight_step(
            a,
            Event::Step(from, MessageView::AppendEntriesResp(resp)),
            a.handle_append_resp(from, resp).node,
        ),
{
    reveal(flight_step);
    let event = Event::Step(from, MessageView::AppendEntriesResp(resp));
    let b = a.handle_append_resp(from, resp).node;
    if a.role == Role::Leader && resp.term == a.term() {
        if resp.success {
            let acked = a.acknowledged(from);
            committing(acked);
            assert forall|p: NodeId| #[trigger] peer_step(a, event, b, p) by {
                assert(moves::aim(b, p) == moves::aim(acked, p));
                if p == from && a.queue(p).len() > 0 {
                    assert(state::queue_of(a.inflight, p)[0] < u64::MAX);
                    assert(a.matched(p) < u64::MAX);
                }
                if b.role == Role::Leader {
                    assert(b.queue(p) == acked.queue(p));
                }
            }
        } else {
            let next = pointed_at(event);
            let back = a.backed_up(from, next);
            moves::one_append(back, from);
            assert(b == back.send_append(from).node);
            assert forall|p: NodeId| #[trigger] peer_step(a, event, b, p) by {
                assert(ids::value_or(a.send_count, p, 0) < u64::MAX);
                if p == from {
                    assert(back.queue(p) =~= Seq::empty());
                }
            }
        }
    }
}

proof fn told(a: NodeState, from: NodeId, resp: InstallSnapshotResp)
    requires
        a.admits(Event::Step(from, MessageView::InstallSnapshotResp(resp))),
    ensures
        flight_step(
            a,
            Event::Step(from, MessageView::InstallSnapshotResp(resp)),
            a.handle_install_snapshot_resp(from, resp).node,
        ),
{
    reveal(flight_step);
    let event = Event::Step(from, MessageView::InstallSnapshotResp(resp));
    let b = a.handle_install_snapshot_resp(from, resp).node;
    if a.role == Role::Leader && resp.term <= a.term() {
        assert forall|p: NodeId| #[trigger] peer_step(a, event, b, p) by {
            assert(ids::value_or(a.send_count, p, 0) < u64::MAX);
        }
    }
}

proof fn proposing(a: NodeState, command: Seq<u8>)
    requires
        a.admits(Event::Propose(command)),
    ensures
        flight_step(a, Event::Propose(command), a.propose(command).node),
{
    if a.role == Role::Leader {
        let own = a.with_own_entry(
            EntryView {
                term: a.term(),
                index: (a.store.last_index() + 1) as u64,
                command,
                entry_type: EntryType::Normal,
            },
        );
        assert forall|p: NodeId| #[trigger] own.sent(p) == a.sent(p) by {}
        assert forall|p: NodeId| p != a.config.id implies #[trigger] moves::aim(own, p)
            == moves::aim(a, p) && own.matched(p) == a.matched(p) by {}
        sending(a, own, Event::Propose(command));
    } else {
        reveal(flight_step);
    }
}

proof fn changing(a: NodeState, change: ConfChange)
    requires
        a.admits(Event::ProposeConfChange(change)),
    ensures
        flight_step(a, Event::ProposeConfChange(change), a.propose_conf_change(change).node),
{
    let event = Event::ProposeConfChange(change);
    if a.accepts_change(change) {
        let e = EntryView {
            term: a.term(),
            index: (a.store.last_index() + 1) as u64,
            command: state::voters_bytes(a.changed_voters(change)),
            entry_type: EntryType::ConfigChange,
        };
        let own = a.with_own_entry(e);
        assert(own.store.entries =~= a.store.entries.push(e));
        let voting = own.recompute_voters();
        if voting.fault is None {
            let seeded = voting.node.seeded(change);
            let voters = a.changed_voters(change);
            if voters.len() > u32::MAX {
                quorum_laws::too_many_voters(voters);
            } else {
                quorum_laws::voters_round_trip(voters);
            }
            quorum_laws::config_of_push(a.store.entries, e);
            assert(seeded.voters == voters);
            assert forall|p: NodeId| #[trigger] seeded.sent(p) == a.sent(p) by {}
            assert forall|p: NodeId| #[trigger]
                ids::value_or(seeded.send_count, p, 0) < u64::MAX by {
                assert(ids::value_or(a.send_count, p, 0) < u64::MAX);
                assert(seeded.sent(p) == a.sent(p));
            }
            sending(a, seeded, event);
        } else {
            reveal(flight_step);
        }
    } else {
        reveal(flight_step);
    }
}

proof fn asking(a: NodeState, token: ReadToken)
    requires
        a.admits(Event::ReadIndex(token)),
    ensures
        flight_step(a, Event::ReadIndex(token), a.read_index(token).node),
{
    let event = Event::ReadIndex(token);
    if a.role == Role::Leader {
        let asked = NodeState {
            pending_reads: a.pending_reads.push(
                ReadView { token, floor: a.commit_index, barrier: a.send_count },
            ),
            ..a
        };
        assert forall|p: NodeId| #[trigger] asked.sent(p) == a.sent(p) by {}
        assert forall|p: NodeId| #[trigger] moves::aim(asked, p) == moves::aim(a, p) by {}
        sending(a, asked, event);
        shown(a, event, asked.broadcast_append().node, a.read_index(token).node);
    } else {
        reveal(flight_step);
    }
}

proof fn asked_for_a_vote(a: NodeState, from: NodeId, req: RequestVoteReq)
    ensures
        flight_step(
            a,
            Event::Step(from, MessageView::RequestVote(req)),
            a.handle_request_vote(from, req),
        ),
{
    reveal(flight_step);
}

proof fn compacting(a: NodeState, index: LogIndex, data: Seq<u8>)
    ensures
        flight_step(a, Event::Compact(index, data), a.compact(index, data).node),
{
    reveal(flight_step);
}

proof fn draining(a: NodeState)
    ensures
        flight_step(a, Event::Ready, a.drained()),
{
    reveal(flight_step);
}

/// What every event that brings no log does to what is in flight.
pub(crate) proof fn an_event_in_flight(a: NodeState, event: Event)
    requires
        a.admits(event),
        !cluster::brings_log(event),
    ensures
        flight_step(a, event, cluster::outcome(a, event)),
{
    reveal(cluster::outcome);
    match event {
        Event::Tick => ticking(a),
        Event::Step(from, message) => match message {
            MessageView::RequestVote(req) => asked_for_a_vote(a, from, req),
            MessageView::RequestVoteResp(resp) => voting(a, from, resp),
            MessageView::AppendEntriesResp(resp) => crediting(a, from, resp),
            MessageView::InstallSnapshotResp(resp) => told(a, from, resp),
            _ => {},
        },
        Event::Propose(command) => proposing(a, command),
        Event::ProposeConfChange(change) => changing(a, change),
        Event::ReadIndex(token) => asking(a, token),
        Event::Compact(index, data) => compacting(a, index, data),
        Event::Ready => draining(a),
    }
}

} // verus!
