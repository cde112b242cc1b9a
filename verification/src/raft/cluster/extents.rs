//! How far the requests of a leader reach that are in flight.

use vstd::prelude::*;

use crate::raft::cluster::bringing;
use crate::raft::cluster::election;
use crate::raft::cluster::events;
use crate::raft::cluster::flight;
use crate::raft::cluster::matching;
use crate::raft::cluster::moves;
use crate::raft::cluster::{self, Cluster, Move};
use crate::raft::node::laws::{self, Event};
use crate::raft::node::state::{NodeState, Role};
use crate::raft::rpc::{AppendEntriesResp, AppendView, MessageView};
use crate::raft::types::{LogIndex, NodeId, Term};

verus! {

/// To each peer, the requests in flight reach no less far than those that were
/// sent before them, and none reaches beyond the log.
pub open spec fn in_order(node: NodeState) -> bool {
    forall|p: NodeId, i: int, j: int|
        #![trigger node.queue(p)[i], node.queue(p)[j]]
        p != node.config.id && 0 <= i <= j < node.queue(p).len() ==> node.queue(p)[i]
            <= node.queue(p)[j] <= node.store.last_index()
}

/// What the node thinks of the other voters lies within its own log.
pub open spec fn aims_within(node: NodeState) -> bool {
    forall|p: NodeId|
        p != node.config.id && node.voters.contains(p) ==> #[trigger] moves::aim(node, p)
            <= node.store.last_index() + 1 && node.matched(p) <= node.store.last_index()
}

/// A refusal of its term points a leader into its own log.
pub open spec fn points_within(node: NodeState, event: Event) -> bool {
    forall|p: NodeId| #[trigger]
        flight::refuses(event, p, node.term()) ==> flight::pointed_at(event)
            <= node.store.last_index() + 1
}

/// A log that ends before the largest index.
spec fn ends_early(node: NodeState) -> bool {
    node.store.base.last_index + node.store.entries.len() < u64::MAX
}

/// A request from within the log reaches to its end.
proof fn reaches_the_end(node: NodeState, p: NodeId)
    requires
        ends_early(node),
        node.store.base.last_index < moves::aim(node, p) <= node.store.last_index() + 1,
    ensures
        flight::extent(node, p) == node.store.last_index(),
{
}

/// What is behind what was in order reaches to the end.
proof fn pushed_in_order(before: Seq<LogIndex>, last: LogIndex, e: LogIndex)
    requires
        forall|i: int, j: int|
            #![trigger before[i], before[j]]
            0 <= i <= j < before.len() ==> before[i] <= before[j] <= last,
        e >= last,
    ensures
        forall|i: int, j: int|
            #![trigger before.push(e)[i], before.push(e)[j]]
            0 <= i <= j < before.push(e).len() ==> before.push(e)[i] <= before.push(e)[j] <= e,
{
    let after = before.push(e);
    assert forall|i: int, j: int|
        #![trigger after[i], after[j]]
        0 <= i <= j < after.len() implies after[i] <= after[j] <= e by {
        if i < before.len() {
            assert(before[i] <= before[i]);
            if j < before.len() {
                assert(before[i] <= before[j]);
            }
        }
    }
}

/// Where a node aims that leads, or led until this moment.
proof fn aims_stay_within(a: NodeState, event: Event, b: NodeState)
    requires
        flight::flight_step(a, event, b),
        moves::log_step(a, b),
        b.config == a.config,
        a.store.wf(),
        a.store.last_index() < u64::MAX - 1,
        moves::leads(a, b),
        a.role == Role::Leader ==> in_order(a) && aims_within(a) && points_within(a, event),
    ensures
        aims_within(b),
        ends_early(b),
        a.store.last_index() <= b.store.last_index(),
{
    reveal(flight::flight_step);
    assert forall|p: NodeId| p != b.config.id && b.voters.contains(p) implies #[trigger] moves::aim(
        b,
        p,
    ) <= b.store.last_index() + 1 && b.matched(p) <= b.store.last_index() by {
        assert(flight::peer_step(a, event, b, p));
        if a.role == Role::Leader {
            if a.voters.contains(p) {
                assert(moves::aim(a, p) <= a.store.last_index() + 1);
            }
            if flight::agrees(event, p, a.term()) && a.queue(p).len() > 0 {
                assert(a.queue(p)[0] <= a.queue(p)[0]);
            }
        }
    }
}

proof fn order_stays(a: NodeState, event: Event, b: NodeState)
    requires
        flight::flight_step(a, event, b),
        moves::log_step(a, b),
        b.config == a.config,
        a.store.wf(),
        a.store.last_index() < u64::MAX - 1,
        b.role == Role::Leader,
        a.role == Role::Leader ==> in_order(a) && aims_within(a) && points_within(a, event),
    ensures
        in_order(b),
        aims_within(b),
{
    aims_stay_within(a, event, b);
    reveal(flight::flight_step);
    let end = b.store.last_index();
    assert forall|p: NodeId, i: int, j: int|
        #![trigger b.queue(p)[i], b.queue(p)[j]]
        p != b.config.id && 0 <= i <= j < b.queue(p).len() implies b.queue(p)[i] <= b.queue(p)[j]
        <= end by {
        assert(flight::peer_step(a, event, b, p));
        assert(moves::aim(b, p) <= end + 1 || b.queue(p) == a.queue(p) || flight::agrees(
            event,
            p,
            a.term(),
        ) || !b.voters.contains(p));
        peer_in_order(a, event, b, p);
    }
}

proof fn peer_in_order(a: NodeState, event: Event, b: NodeState, p: NodeId)
    requires
        flight::peer_step(a, event, b, p),
        p != a.config.id,
        b.config == a.config,
        b.role == Role::Leader,
        aims_within(b),
        ends_early(b),
        a.store.last_index() <= b.store.last_index(),
        a.role == Role::Leader ==> in_order(a) && points_within(a, event),
    ensures
        forall|i: int, j: int|
            #![trigger b.queue(p)[i], b.queue(p)[j]]
            0 <= i <= j < b.queue(p).len() ==> b.queue(p)[i] <= b.queue(p)[j]
                <= b.store.last_index(),
{
    let (last, end) = (a.store.last_index(), b.store.last_index());
    let was = a.queue(p);
    if a.role == Role::Leader {
        assert forall|i: int, j: int|
            #![trigger was[i], was[j]]
            0 <= i <= j < was.len() implies was[i] <= was[j] <= last by {
            assert(a.queue(p)[i] <= a.queue(p)[j]);
        }
        if flight::agrees(event, p, a.term()) {
            assert forall|i: int, j: int|
                #![trigger b.queue(p)[i], b.queue(p)[j]]
                0 <= i <= j < b.queue(p).len() implies b.queue(p)[i] <= b.queue(p)[j] <= end by {
                if was.len() > 0 {
                    assert(was[i + 1] <= was[j + 1]);
                } else {
                    assert(was[i] <= was[j]);
                }
            }
        } else if b.queue(p) != was {
            assert(moves::aim(b, p) <= end + 1);
            if moves::aim(b, p) > b.store.base.last_index {
                reaches_the_end(b, p);
            }
            pushed_in_order(was, last, end);
            pushed_in_order(Seq::empty(), 0, end);
        }
    } else if b.queue(p).len() > 0 {
        assert(moves::aim(b, p) <= end + 1);
        reaches_the_end(b, p);
        pushed_in_order(Seq::empty(), 0, end);
    }
}

/// A request that has just been sent reaches to the end of the log.
proof fn sent_to_the_end(a: NodeState, event: Event, b: NodeState, p: NodeId)
    requires
        flight::peer_step(a, event, b, p),
        p != a.config.id,
        b.config == a.config,
        b.role == Role::Leader,
        aims_within(b),
        ends_early(b),
        a.role == Role::Leader ==> points_within(a, event),
        flight::sends(a, b, p),
    ensures
        b.queue(p).len() > 0,
        b.queue(p).last() == b.store.last_index(),
{
    assert(moves::aim(b, p) <= b.store.last_index() + 1) by {
        if b.voters.contains(p) {
            assert(moves::aim(b, p) <= b.store.last_index() + 1);
        }
    }
    reaches_the_end(b, p);
}

/// A message that brings a log changes nothing in flight, or ends a leadership.
proof fn bringing_keeps(a: NodeState, event: Event, b: NodeState)
    requires
        bringing::bringing_step(a, event, b),
        b.role == Role::Leader,
        in_order(a),
        aims_within(a),
    ensures
        in_order(b),
        aims_within(b),
        b.store == a.store,
{
    reveal(bringing::bringing_step);
    assert forall|p: NodeId, i: int, j: int|
        #![trigger b.queue(p)[i], b.queue(p)[j]]
        p != b.config.id && 0 <= i <= j < b.queue(p).len() implies b.queue(p)[i] <= b.queue(p)[j]
        <= b.store.last_index() by {
        assert(a.queue(p)[i] <= a.queue(p)[j]);
    }
    assert forall|p: NodeId| p != b.config.id && b.voters.contains(p) implies #[trigger] moves::aim(
        b,
        p,
    ) <= b.store.last_index() + 1 && b.matched(p) <= b.store.last_index() by {
        assert(moves::aim(a, p) <= a.store.last_index() + 1);
    }
}

proof fn an_event_keeps(a: NodeState, event: Event, b: NodeState)
    requires
        a.admits(event),
        b == cluster::outcome(a, event),
        b.config == a.config,
        b.role == Role::Leader,
        a.role == Role::Leader ==> in_order(a) && aims_within(a) && points_within(a, event),
    ensures
        in_order(b),
        aims_within(b),
        a.role == Role::Leader ==> a.store.last_index() <= b.store.last_index(),
{
    if cluster::brings_log(event) {
        bringing::a_bringing_step(a, event);
        assert(a.role == Role::Leader) by {
            reveal(bringing::bringing_step);
        }
        bringing_keeps(a, event, b);
    } else {
        quiet_facts(a, event);
        order_stays(a, event, b);
        aims_stay_within(a, event, b);
    }
}

proof fn quiet_facts(a: NodeState, event: Event)
    requires
        a.admits(event),
        !cluster::brings_log(event),
    ensures
        flight::flight_step(a, event, cluster::outcome(a, event)),
        moves::log_step(a, cluster::outcome(a, event)),
        moves::role_step(a, event, cluster::outcome(a, event)),
        moves::aim_step(a, event, cluster::outcome(a, event)),
{
    events::a_quiet_step(a, event);
    flight::an_event_in_flight(a, event);
    reveal(moves::quiet_step);
}

/// The requests in flight to a peer stay in order: whatever happens to a leader
/// whose requests are in order and who aims within its own log, it is still so
/// afterwards, if it still leads. A refusal must point into the log, as those do
/// that answer a request of the leader.
pub proof fn a_leader_keeps_its_requests_in_order(node: NodeState, event: Event)
    requires
        node.admits(event),
        node.role == Role::Leader,
        in_order(node),
        aims_within(node),
        points_within(node, event),
    ensures
        node.after(event).node.role == Role::Leader ==> in_order(node.after(event).node)
            && aims_within(node.after(event).node),
{
    laws::a_node_moves_forward(node, event);
    let b = cluster::outcome(node, event);
    assert(b == node.after(event).node) by {
        reveal(cluster::outcome);
    }
    if b.role == Role::Leader {
        an_event_keeps(node, event, b);
    }
}

/// A node that comes to lead has its requests in order.
pub proof fn a_new_leader_has_its_requests_in_order(node: NodeState, event: Event)
    requires
        node.admits(event),
        node.role != Role::Leader,
    ensures
        node.after(event).node.role == Role::Leader ==> in_order(node.after(event).node)
            && aims_within(node.after(event).node),
{
    laws::a_node_moves_forward(node, event);
    let b = cluster::outcome(node, event);
    assert(b == node.after(event).node) by {
        reveal(cluster::outcome);
    }
    if b.role == Role::Leader {
        an_event_keeps(node, event, b);
    }
}

/// A success is credited with the least that it can stand for: no request in
/// flight to the peer reaches less far than the one that is taken off.
pub proof fn a_success_credits_the_smallest_extent(node: NodeState, p: NodeId, i: int)
    requires
        node.wf(),
        in_order(node),
        p != node.config.id,
        0 <= i < node.queue(p).len(),
    ensures
        node.acknowledged(p).matched(p) == node.matched(p) || node.acknowledged(p).matched(p)
            <= node.queue(p)[i],
        node.acknowledged(p).matched(p) <= node.matched(p) || node.acknowledged(p).matched(p)
            <= node.store.last_index(),
{
    assert(node.queue(p)[0] <= node.queue(p)[i]);
}

// ---- in a cluster ----

/// Requests start within the log of the leader that sent them.
pub(crate) open spec fn requests_start_within(c: Cluster) -> bool {
    forall|f: NodeId, to: NodeId, req: AppendView| #[trigger]
        c.sent.contains((f, to, MessageView::AppendEntries(req))) ==> {
            &&& election::has_led(c, req.term, f)
            &&& c.nodes[f].role == Role::Leader && c.nodes[f].term() == req.term
                ==> req.prev_log_index <= c.nodes[f].store.last_index()
        }
}

/// Refusals point into the log of the leader that they are meant for.
spec fn refusals_point_within(c: Cluster) -> bool {
    forall|f: NodeId, to: NodeId, resp: AppendEntriesResp| #[trigger]
        c.sent.contains((f, to, MessageView::AppendEntriesResp(resp))) && resp.conflict_index is Some
            ==> {
            &&& election::has_led(c, resp.term, to)
            &&& c.nodes[to].role == Role::Leader && c.nodes[to].term() == resp.term
                ==> resp.conflict_index->0 <= c.nodes[to].store.last_index()
        }
}

spec fn leaders_are_in_order(c: Cluster) -> bool {
    forall|n: NodeId| #[trigger]
        c.nodes.contains_key(n) && c.nodes[n].role == Role::Leader ==> in_order(c.nodes[n])
            && aims_within(c.nodes[n])
}

pub(crate) closed spec fn extents_hold(c: Cluster) -> bool {
    &&& requests_start_within(c)
    &&& refusals_point_within(c)
    &&& leaders_are_in_order(c)
}

/// What a leadership has sent is of this leadership: the node led before, and
/// its log has only grown.
proof fn still_leading(c: Cluster, n: NodeId, event: Event, b: NodeState, term: Term)
    requires
        c.nodes.contains_key(n),
        election::elections_hold(c),
        election::has_led(c, term, n),
        moves::role_step(c.nodes[n], event, b),
        b.role == Role::Leader,
        b.term() == term,
    ensures
        c.nodes[n].role == Role::Leader,
        c.nodes[n].term() == term,
{
    election::led_terms_are_past(c, term, n);
}

/// Everything that an event rests on.
pub(crate) open spec fn happening(c: Cluster, n: NodeId, event: Event, b: NodeState, d: Cluster) -> bool {
    &&& c.allows(n, Move::Happens(event))
    &&& b == cluster::outcome(c.nodes[n], event)
    &&& d == c.with_node(n, b, cluster::written(c.nodes[n], event, b))
    &&& election::elections_hold(c)
    &&& election::elections_hold(d)
    &&& election::node_step(c.nodes[n], event, b)
    &&& extents_hold(c)
}

proof fn pointing_within(c: Cluster, n: NodeId, event: Event, b: NodeState, d: Cluster)
    requires
        happening(c, n, event, b, d),
    ensures
        c.nodes[n].role == Role::Leader ==> points_within(c.nodes[n], event),
{
    let a = c.nodes[n];
    if a.role == Role::Leader {
        assert forall|p: NodeId| #[trigger] flight::refuses(event, p, a.term()) implies
            flight::pointed_at(event) <= a.store.last_index() + 1 by {
            match event {
                Event::Step(from, MessageView::AppendEntriesResp(resp)) => {
                    assert(c.sent.contains((from, n, MessageView::AppendEntriesResp(resp))));
                },
                _ => {},
            }
        }
    }
}

/// The log of a leader only grows.
proof fn growing(c: Cluster, n: NodeId, event: Event, b: NodeState, d: Cluster)
    requires
        happening(c, n, event, b, d),
    ensures
        b.role == Role::Leader ==> in_order(b) && aims_within(b),
        b.role == Role::Leader && c.nodes[n].role == Role::Leader
            ==> c.nodes[n].store.last_index() <= b.store.last_index(),
{
    pointing_within(c, n, event, b, d);
    assert(c.nodes.contains_key(n));
    if b.role == Role::Leader {
        an_event_keeps(c.nodes[n], event, b);
    }
}

/// What a leader has in flight to a peer, after an event that brings no log.
pub(crate) proof fn in_flight(
    c: Cluster,
    n: NodeId,
    event: Event,
    b: NodeState,
    d: Cluster,
    p: NodeId,
)
    requires
        happening(c, n, event, b, d),
        p != n,
        !cluster::brings_log(event),
        moves::leads(c.nodes[n], b),
    ensures
        flight::peer_step(c.nodes[n], event, b, p),
        c.nodes[n].store.last_index() <= b.store.last_index(),
        b.role == Role::Leader && flight::sends(c.nodes[n], b, p) ==> b.queue(p).len() > 0
            && b.queue(p).last() == b.store.last_index(),
{
    let a = c.nodes[n];
    pointing_within(c, n, event, b, d);
    quiet_facts(a, event);
    election::names_hold(c, n);
    assert(c.nodes.contains_key(n));
    aims_stay_within(a, event, b);
    reveal(flight::flight_step);
    assert(flight::peer_step(a, event, b, p));
    if b.role == Role::Leader && flight::sends(a, b, p) {
        sent_to_the_end(a, event, b, p);
    }
}

/// A leader that is brought a log, and still leads, is as it was.
pub(crate) proof fn left_alone(c: Cluster, n: NodeId, event: Event, b: NodeState, d: Cluster)
    requires
        happening(c, n, event, b, d),
        cluster::brings_log(event),
        b.role == Role::Leader,
    ensures
        b == (NodeState { outbox: b.outbox, ..c.nodes[n] }),
{
    bringing::a_bringing_step(c.nodes[n], event);
    reveal(bringing::bringing_step);
}

/// What a leader has in flight is in order.
pub(crate) proof fn a_leader_is_in_order(c: Cluster, n: NodeId)
    requires
        extents_hold(c),
        c.nodes.contains_key(n),
        c.nodes[n].role == Role::Leader,
    ensures
        in_order(c.nodes[n]),
{
}

/// A new request starts within the log.
pub(crate) proof fn a_new_request(
    c: Cluster,
    n: NodeId,
    event: Event,
    b: NodeState,
    d: Cluster,
    f: NodeId,
    to: NodeId,
    req: AppendView,
)
    requires
        happening(c, n, event, b, d),
        d.sent.contains((f, to, MessageView::AppendEntries(req))),
        !c.sent.contains((f, to, MessageView::AppendEntries(req))),
    ensures
        f == n,
        moves::leads(c.nodes[n], b),
        moves::hands_on(b.store, b.commit_index, MessageView::AppendEntries(req)),
        req.prev_log_index <= b.store.last_index(),
        c.nodes[n].store.last_index() <= b.store.last_index(),
        election::has_led(d, req.term, n),
{
    let a = c.nodes[n];
    let more = cluster::written(a, event, b);
    let message = MessageView::AppendEntries(req);
    election::mail_after(c, n, event, b, more, f, to, message);
    election::mail_is_new(c, n, b, more, f, to, message);
    matching::leading_is_led(c, n, b, more);
    pointing_within(c, n, event, b, d);
    if cluster::brings_log(event) {
        bringing::a_bringing_step(a, event);
        reveal(bringing::bringing_step);
    } else {
        quiet_facts(a, event);
        aims_stay_within(a, event, b);
        election::names_hold(c, n);
        reveal(flight::flight_step);
        if a.role == Role::Leader && moves::answered(event, to) {
            assert(flight::peer_step(a, event, b, to));
        }
        assert(moves::aim(b, to) <= b.store.last_index() + 1) by {
            if moves::aim(b, to) > b.store.last_index() + 1 {
                assert(moves::aimed(b, (to, message)));
            }
        }
    }
}

proof fn requesting_step(c: Cluster, n: NodeId, event: Event, b: NodeState, d: Cluster)
    requires
        happening(c, n, event, b, d),
    ensures
        requests_start_within(d),
{
    let more = cluster::written(c.nodes[n], event, b);
    growing(c, n, event, b, d);
    assert forall|f: NodeId, to: NodeId, req: AppendView| #[trigger]
        d.sent.contains((f, to, MessageView::AppendEntries(req))) implies {
        &&& election::has_led(d, req.term, f)
        &&& d.nodes[f].role == Role::Leader && d.nodes[f].term() == req.term
            ==> req.prev_log_index <= d.nodes[f].store.last_index()
    } by {
        let message = MessageView::AppendEntries(req);
        if c.sent.contains((f, to, message)) {
            matching::led_stays(c, n, b, more, req.term, f);
            if f == n && b.role == Role::Leader && b.term() == req.term {
                still_leading(c, n, event, b, req.term);
            }
        } else {
            a_new_request(c, n, event, b, d, f, to, req);
        }
    }
}

proof fn refusing_step(c: Cluster, n: NodeId, event: Event, b: NodeState, d: Cluster)
    requires
        happening(c, n, event, b, d),
    ensures
        refusals_point_within(d),
{
    let more = cluster::written(c.nodes[n], event, b);
    growing(c, n, event, b, d);
    assert forall|f: NodeId, to: NodeId, resp: AppendEntriesResp| #[trigger]
        d.sent.contains((f, to, MessageView::AppendEntriesResp(resp)))
            && resp.conflict_index is Some implies {
        &&& election::has_led(d, resp.term, to)
        &&& d.nodes[to].role == Role::Leader && d.nodes[to].term() == resp.term
            ==> resp.conflict_index->0 <= d.nodes[to].store.last_index()
    } by {
        let message = MessageView::AppendEntriesResp(resp);
        if c.sent.contains((f, to, message)) {
            matching::led_stays(c, n, b, more, resp.term, to);
            if to == n && b.role == Role::Leader && b.term() == resp.term {
                still_leading(c, n, event, b, resp.term);
            }
        } else {
            election::mail_after(c, n, event, b, more, f, to, message);
            match event {
                Event::Step(from, MessageView::AppendEntries(req)) => {
                    assert(c.sent.contains((from, n, MessageView::AppendEntries(req))));
                    matching::led_stays(c, n, b, more, req.term, from);
                    if to == n && b.role == Role::Leader && b.term() == resp.term {
                        still_leading(c, n, event, b, resp.term);
                    }
                },
                _ => {},
            }
        }
    }
}

proof fn an_event_holds(c: Cluster, n: NodeId, event: Event, b: NodeState, d: Cluster)
    requires
        happening(c, n, event, b, d),
    ensures
        extents_hold(d),
{
    requesting_step(c, n, event, b, d);
    refusing_step(c, n, event, b, d);
    growing(c, n, event, b, d);
    assert forall|m: NodeId| #[trigger]
        d.nodes.contains_key(m) && d.nodes[m].role == Role::Leader implies in_order(d.nodes[m])
        && aims_within(d.nodes[m]) by {
        if m != n {
            assert(c.nodes.contains_key(m));
        }
    }
}

proof fn a_restart_holds(c: Cluster, n: NodeId)
    requires
        c.allows(n, Move::Restarts),
        extents_hold(c),
    ensures
        extents_hold(c.moved(n, Move::Restarts)),
{
    let (b, d) = (c.next_node(n, Move::Restarts), c.moved(n, Move::Restarts));
    reveal(cluster::restarted);
    assert(b.role == Role::Follower && b.outbox.len() == 0);
    assert(d.sent =~= c.sent);
    assert forall|f: NodeId, to: NodeId, req: AppendView| #[trigger]
        d.sent.contains((f, to, MessageView::AppendEntries(req))) implies election::has_led(
        d,
        req.term,
        f,
    ) by {
        matching::led_stays(c, n, b, Set::empty(), req.term, f);
    }
    assert forall|f: NodeId, to: NodeId, resp: AppendEntriesResp| #[trigger]
        d.sent.contains((f, to, MessageView::AppendEntriesResp(resp)))
            && resp.conflict_index is Some implies election::has_led(d, resp.term, to) by {
        matching::led_stays(c, n, b, Set::empty(), resp.term, to);
    }
    assert forall|m: NodeId| #[trigger]
        d.nodes.contains_key(m) && d.nodes[m].role == Role::Leader implies in_order(d.nodes[m])
        && aims_within(d.nodes[m]) by {
        assert(c.nodes.contains_key(m));
    }
}

/// The last event of a run, with everything that it rests on.
pub(crate) proof fn the_last_event(start: Cluster, run: Seq<(NodeId, Move)>)
    requires
        cluster::possible(start, run),
        run.len() > 0,
    ensures
        extents_hold(cluster::reached(start, run.drop_last())),
        run.last().1 matches Move::Happens(event) ==> happening(
            cluster::reached(start, run.drop_last()),
            run.last().0,
            event,
            cluster::reached(start, run.drop_last()).next_node(run.last().0, run.last().1),
            cluster::reached(start, run),
        ),
{
    let before = run.drop_last();
    extents_hold_in_runs(start, before);
    election::elections_hold_in_runs(start, before);
    election::elections_hold_in_runs(start, run);
    election::a_move_steps(cluster::reached(start, before), run.last().0, run.last().1);
}

pub(crate) proof fn extents_hold_in_runs(start: Cluster, run: Seq<(NodeId, Move)>)
    requires
        cluster::possible(start, run),
    ensures
        extents_hold(cluster::reached(start, run)),
    decreases run.len(),
{
    if run.len() > 0 {
        let before = run.drop_last();
        let (c, d) = (cluster::reached(start, before), cluster::reached(start, run));
        let (n, move_) = run.last();
        extents_hold_in_runs(start, before);
        match move_ {
            Move::Happens(event) => {
                election::elections_hold_in_runs(start, before);
                election::elections_hold_in_runs(start, run);
                election::a_move_steps(c, n, move_);
                an_event_holds(c, n, event, c.next_node(n, move_), d);
            },
            Move::Restarts => a_restart_holds(c, n),
        }
    }
}

/// The requests that a leader has in flight to a peer never decrease in how far
/// they reach, and none reaches beyond its log: whatever is lost, delayed,
/// reordered or repeated, and whichever nodes stop and start again. The oldest
/// one is the smallest.
pub proof fn requests_in_flight_never_decrease(
    start: Cluster,
    run: Seq<(NodeId, Move)>,
    n: NodeId,
    p: NodeId,
    i: int,
    j: int,
)
    requires
        cluster::possible(start, run),
        cluster::reached(start, run).nodes.contains_key(n),
        cluster::reached(start, run).nodes[n].role == Role::Leader,
        p != n,
        0 <= i <= j < cluster::reached(start, run).nodes[n].queue(p).len(),
    ensures
        ({
            let node = cluster::reached(start, run).nodes[n];
            node.queue(p)[i] <= node.queue(p)[j] <= node.store.last_index()
        }),
{
    extents_hold_in_runs(start, run);
    election::elections_hold_in_runs(start, run);
    election::names_hold(cluster::reached(start, run), n);
    let node = cluster::reached(start, run).nodes[n];
    assert(in_order(node));
    assert(node.queue(p)[i] <= node.queue(p)[j]);
}

} // verus!
