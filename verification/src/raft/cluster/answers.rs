//! Answers that leaders may count on.

use vstd::prelude::*;

use crate::raft::cluster;
use crate::raft::cluster::aims;
use crate::raft::cluster::completeness;
use crate::raft::cluster::election;
use crate::raft::cluster::ends;
use crate::raft::cluster::events;
use crate::raft::cluster::extents;
use crate::raft::cluster::flight;
use crate::raft::cluster::moves;
use crate::raft::cluster::{Cluster, Move};
use crate::raft::node::laws::{self, Event};
use crate::raft::node::state::{NodeState, Role};
use crate::raft::rpc::{AppendView, InstallView, MessageView};
use crate::raft::types::{LogIndex, NodeId, Term};

verus! {

// ---- deliveries ----

/// The node after the first `k` moves.
pub open spec fn node_at(start: Cluster, run: Seq<(NodeId, Move)>, k: int, n: NodeId) -> NodeState {
    cluster::reached(start, run.take(k)).nodes[n]
}

/// The moves by which the node, in the leadership that it is in after `k` moves,
/// sent the peer a request, since the peer last refused one.
pub open spec fn asked(
    start: Cluster,
    run: Seq<(NodeId, Move)>,
    k: int,
    n: NodeId,
    p: NodeId,
) -> Seq<int>
    decreases k,
{
    if k <= 0 {
        Seq::empty()
    } else {
        let before = asked(start, run, k - 1, n, p);
        let (a, b) = (node_at(start, run, k - 1, n), node_at(start, run, k, n));
        if run[k - 1].0 != n {
            before
        } else if b.role != Role::Leader {
            Seq::empty()
        } else {
            let kept = if a.role != Role::Leader || flight::refuses(
                election::event_of(run[k - 1].1),
                p,
                b.term(),
            ) {
                Seq::empty()
            } else {
                before
            };
            if flight::sends(a, b, p) {
                kept.push(k - 1)
            } else {
                kept
            }
        }
    }
}

/// How far the request reaches that the node sent the peer by move `k`.
pub open spec fn reach(
    start: Cluster,
    run: Seq<(NodeId, Move)>,
    k: int,
    n: NodeId,
    p: NodeId,
) -> LogIndex {
    node_at(start, run, k + 1, n).queue(p).last()
}

/// By move `i` a leader is told by the peer that it took a request, while one is
/// in flight.
pub open spec fn told_at(
    start: Cluster,
    run: Seq<(NodeId, Move)>,
    i: int,
    n: NodeId,
    p: NodeId,
) -> bool {
    &&& 0 <= i < run.len()
    &&& run[i].0 == n
    &&& p != n
    &&& node_at(start, run, i, n).role == Role::Leader
    &&& node_at(start, run, i, n).queue(p).len() > 0
    &&& run[i].1 matches Move::Happens(event) && flight::agrees(
        event,
        p,
        node_at(start, run, i, n).term(),
    )
}

/// By move `g` the peer takes the request that the node sent it by move `k`. Of a
/// peer whose entries do not follow from its snapshot, a request that ends with
/// the snapshot counts only once the node has committed as much, by move `i`.
pub open spec fn takes_at(
    start: Cluster,
    run: Seq<(NodeId, Move)>,
    g: int,
    k: int,
    i: int,
    n: NodeId,
    p: NodeId,
) -> bool {
    let leader = node_at(start, run, k + 1, n);
    &&& k < g < i
    &&& g < run.len()
    &&& run[g].0 == p
    &&& run[g].1 matches Move::Happens(Event::Step(from, MessageView::AppendEntries(req))) && {
        &&& from == n
        &&& leader.outbox.contains((p, MessageView::AppendEntries(req)))
        &&& req.term == leader.term()
        &&& ends::end_index(req) == reach(start, run, k, n, p)
        &&& ends::takes(node_at(start, run, g, p), req)
        &&& ends::firmly(node_at(start, run, g, p), req) || ends::end_index(req) <= node_at(
            start,
            run,
            i,
            n,
        ).commit_index
    }
}

/// Each success that a leader is told of answers a request of its own: `of` says
/// which. The request was sent since the peer last refused one, the peer took
/// it, and no other success answers it.
pub open spec fn answers_by(start: Cluster, run: Seq<(NodeId, Move)>, of: Map<int, int>) -> bool {
    &&& forall|i: int, n: NodeId, p: NodeId| #[trigger]
        told_at(start, run, i, n, p) ==> asked(start, run, i, n, p).contains(of[i]) && exists|
            g: int,
        | #[trigger]
            takes_at(start, run, g, of[i], i, n, p)
    &&& forall|i: int, j: int, n: NodeId, p: NodeId| #[trigger]
        told_at(start, run, i, n, p) && #[trigger] told_at(start, run, j, n, p) && i != j ==> of[i]
            != of[j]
}

/// No success arrives twice, nor do two for one request, and none for a request
/// from before a refusal arrives after the refusal. Anything may be lost, and
/// requests and answers may overtake each other.
pub open spec fn answers_in_turn(start: Cluster, run: Seq<(NodeId, Move)>) -> bool {
    exists|of: Map<int, int>| #[trigger] answers_by(start, run, of)
}

// ---- moments ----

proof fn a_moment(start: Cluster, run: Seq<(NodeId, Move)>, k: int)
    requires
        cluster::possible(start, run),
        0 <= k <= run.len(),
    ensures
        cluster::possible(start, run.take(k)),
    decreases run.len(),
{
    if k == run.len() {
        assert(run.take(k) =~= run);
    } else {
        assert(run.drop_last().take(k) =~= run.take(k));
        a_moment(start, run.drop_last(), k);
    }
}

/// One move more.
proof fn next_moment(start: Cluster, run: Seq<(NodeId, Move)>, k: int)
    requires
        cluster::possible(start, run),
        0 <= k < run.len(),
    ensures
        ({
            let (c, d) = (
                cluster::reached(start, run.take(k)),
                cluster::reached(start, run.take(k + 1)),
            );
            let (n, move_) = run[k];
            &&& c.allows(n, move_)
            &&& d == c.moved(n, move_)
            &&& d.nodes == c.nodes.insert(n, c.next_node(n, move_))
            &&& extents::extents_hold(c)
            &&& extents::extents_hold(d)
            &&& move_ matches Move::Happens(event) ==> extents::happening(
                c,
                n,
                event,
                c.next_node(n, move_),
                d,
            )
            &&& move_ is Restarts ==> c.next_node(n, move_).role == Role::Follower
            &&& completeness::accepted(start, run.take(k + 1)) == completeness::accepted(
                start,
                run.take(k),
            ).union(
                completeness::gains(
                    n,
                    c.nodes[n],
                    election::event_of(move_),
                    c.next_node(n, move_),
                ),
            )
        }),
{
    let now = run.take(k + 1);
    assert(now.drop_last() =~= run.take(k));
    assert(now.last() == run[k]);
    a_moment(start, run, k);
    a_moment(start, run, k + 1);
    extents::the_last_event(start, now);
    extents::extents_hold_in_runs(start, now);
    if run[k].1 is Restarts {
        reveal(cluster::restarted);
    }
}

/// What was accepted stays accepted.
proof fn accepted_stays(
    start: Cluster,
    run: Seq<(NodeId, Move)>,
    i: int,
    k: int,
    x: (NodeId, Term, LogIndex),
)
    requires
        cluster::possible(start, run),
        0 <= i <= k <= run.len(),
        completeness::accepted(start, run.take(i)).contains(x),
    ensures
        completeness::accepted(start, run.take(k)).contains(x),
    decreases k - i,
{
    if i < k {
        accepted_stays(start, run, i, k - 1, x);
        next_moment(start, run, k - 1);
    }
}

/// What a peer takes it vouches for.
proof fn taken_is_vouched(
    start: Cluster,
    run: Seq<(NodeId, Move)>,
    g: int,
    k: int,
    i: int,
    n: NodeId,
    p: NodeId,
)
    requires
        cluster::possible(start, run),
        0 <= k,
        takes_at(start, run, g, k, i, n, p),
        i <= run.len(),
        reach(start, run, k, n, p) > node_at(start, run, i, n).commit_index,
    ensures
        completeness::vouched(
            completeness::accepted(start, run.take(i)),
            p,
            node_at(start, run, k + 1, n).term(),
            reach(start, run, k, n, p),
        ),
{
    next_moment(start, run, g);
    let c = cluster::reached(start, run.take(g));
    let event = election::event_of(run[g].1);
    let a = c.nodes[p];
    match event {
        Event::Step(from, MessageView::AppendEntries(req)) => {
            took_the_term(a, from, req);
            let x = (p, req.term, ends::end_index(req));
            assert(completeness::gains(p, a, event, c.next_node(p, run[g].1)).contains(x));
            accepted_stays(start, run, g + 1, i, x);
        },
        _ => {},
    }
}

proof fn took_the_term(a: NodeState, from: NodeId, req: AppendView)
    requires
        ends::takes(a, req),
    ensures
        cluster::outcome(a, Event::Step(from, MessageView::AppendEntries(req))).term() == req.term,
{
    ends::append_commits(a, from, req);
    reveal(ends::takes);
    reveal(cluster::outcome);
}

// ---- what is counted ----

/// The requests that successes were credited for, of those that the node asks
/// by.
spec fn credits(
    start: Cluster,
    run: Seq<(NodeId, Move)>,
    of: Map<int, int>,
    k: int,
    n: NodeId,
    p: NodeId,
) -> Set<int>
    decreases k,
{
    if k <= 0 {
        Set::empty()
    } else {
        let before = credits(start, run, of, k - 1, n, p);
        let (a, b) = (node_at(start, run, k - 1, n), node_at(start, run, k, n));
        if run[k - 1].0 != n {
            before
        } else if a.role != Role::Leader || b.role != Role::Leader || flight::refuses(
            election::event_of(run[k - 1].1),
            p,
            b.term(),
        ) {
            Set::empty()
        } else if told_at(start, run, k - 1, n, p) {
            before.insert(of[k - 1])
        } else {
            before
        }
    }
}

/// A success was credited for the request.
spec fn was_told(
    start: Cluster,
    run: Seq<(NodeId, Move)>,
    of: Map<int, int>,
    k: int,
    n: NodeId,
    p: NodeId,
    v: int,
) -> bool {
    exists|i: int| i < k && #[trigger] told_at(start, run, i, n, p) && of[i] == v
}

/// The peer vouches for as much, if it is beyond `commit`.
spec fn vouches(
    start: Cluster,
    run: Seq<(NodeId, Move)>,
    k: int,
    p: NodeId,
    term: Term,
    index: LogIndex,
    commit: LogIndex,
) -> bool {
    index > commit ==> completeness::vouched(
        completeness::accepted(start, run.take(k)),
        p,
        term,
        index,
    )
}

/// What a leader keeps of the requests to a peer.
spec fn books(
    start: Cluster,
    run: Seq<(NodeId, Move)>,
    of: Map<int, int>,
    k: int,
    n: NodeId,
    p: NodeId,
) -> bool {
    let (node, list) = (node_at(start, run, k, n), asked(start, run, k, n, p));
    let (q, done) = (node.queue(p), credits(start, run, of, k, n, p));
    &&& q.len() <= list.len()
    &&& done.finite()
    &&& done.len() == list.len() - q.len()
    &&& forall|x: int|
        0 <= x < list.len() ==> 0 <= #[trigger] list[x] < k && node_at(
            start,
            run,
            list[x] + 1,
            n,
        ).term() == node.term()
    &&& forall|x: int|
        0 <= x < q.len() ==> #[trigger] q[x] == reach(
            start,
            run,
            list[list.len() - q.len() + x],
            n,
            p,
        )
    &&& forall|x: int, y: int|
        #![trigger list[x], list[y]]
        0 <= x <= y < list.len() ==> reach(start, run, list[x], n, p) <= reach(
            start,
            run,
            list[y],
            n,
            p,
        ) <= node.store.last_index()
    &&& forall|v: int| #[trigger]
        done.contains(v) ==> {
            &&& list.contains(v)
            &&& was_told(start, run, of, k, n, p, v)
            &&& vouches(
                start,
                run,
                k,
                p,
                node.term(),
                reach(start, run, v, n, p),
                node.commit_index,
            )
        }
}

/// The peer vouches for the oldest request in flight when a success of it
/// arrives: it took as many requests as were counted, and this one.
proof fn the_oldest_is_vouched(
    start: Cluster,
    run: Seq<(NodeId, Move)>,
    of: Map<int, int>,
    k: int,
    n: NodeId,
    p: NodeId,
)
    requires
        cluster::possible(start, run),
        answers_by(start, run, of),
        books(start, run, of, k, n, p),
        told_at(start, run, k, n, p),
    ensures
        vouches(
            start,
            run,
            k,
            p,
            node_at(start, run, k, n).term(),
            node_at(start, run, k, n).queue(p)[0],
            node_at(start, run, k, n).commit_index,
        ),
        asked(start, run, k, n, p).contains(of[k]),
        !credits(start, run, of, k, n, p).contains(of[k]),
        vouches(
            start,
            run,
            k,
            p,
            node_at(start, run, k, n).term(),
            reach(start, run, of[k], n, p),
            node_at(start, run, k, n).commit_index,
        ),
{
    let (node, list) = (node_at(start, run, k, n), asked(start, run, k, n, p));
    let (q, done) = (node.queue(p), credits(start, run, of, k, n, p));
    let (v, m) = (of[k], list.len() - q.len());
    assert(list.contains(v));
    if done.contains(v) {
        let i = choose|i: int| i < k && #[trigger] told_at(start, run, i, n, p) && of[i] == v;
        assert(told_at(start, run, i, n, p));
    }
    let at = list.index_of(v);
    assert(list[at] == v);
    if reach(start, run, v, n, p) > node.commit_index {
        let g = choose|g: int| #[trigger] takes_at(start, run, g, v, k, n, p);
        taken_is_vouched(start, run, g, v, k, n, p);
    }
    let (all, head) = (done.insert(v), list.take(m).to_set());
    vstd::seq_lib::seq_to_set_is_finite(list.take(m));
    list.take(m).lemma_cardinality_of_set();
    assert(exists|w: int| #[trigger] all.contains(w) && !head.contains(w)) by {
        if forall|w: int| #[trigger] all.contains(w) ==> head.contains(w) {
            vstd::set_lib::lemma_len_subset(all, head);
        }
    }
    let w = choose|w: int| #[trigger] all.contains(w) && !head.contains(w);
    let y = list.index_of(w);
    assert(list.contains(w));
    assert(list[y] == w);
    if y < m {
        assert(list.take(m)[y] == w);
        assert(list.take(m).contains(w));
    }
    assert(q[0] == reach(start, run, list[m], n, p));
    assert(reach(start, run, list[m], n, p) <= reach(start, run, list[y], n, p));
    if q[0] > node.commit_index {
        let (seen, term) = (completeness::accepted(start, run.take(k)), node.term());
        assert(completeness::vouched(seen, p, term, reach(start, run, w, n, p)));
        let j = choose|j: LogIndex| #[trigger]
            seen.contains((p, term, j)) && j >= reach(start, run, w, n, p);
        assert(seen.contains((p, term, j)));
    }
}

/// Vouching lasts.
proof fn vouches_on(
    start: Cluster,
    run: Seq<(NodeId, Move)>,
    k: int,
    p: NodeId,
    term: Term,
    index: LogIndex,
    commit: LogIndex,
)
    requires
        cluster::possible(start, run),
        0 <= k < run.len(),
        vouches(start, run, k, p, term, index, commit),
    ensures
        vouches(start, run, k + 1, p, term, index, commit),
{
    if index > commit {
        let seen = completeness::accepted(start, run.take(k));
        let j = choose|j: LogIndex| #[trigger] seen.contains((p, term, j)) && j >= index;
        accepted_stays(start, run, k, k + 1, (p, term, j));
    }
}

/// The books are closed: no request is in flight, or only the newest.
proof fn books_open(
    start: Cluster,
    run: Seq<(NodeId, Move)>,
    of: Map<int, int>,
    k: int,
    n: NodeId,
    p: NodeId,
)
    requires
        0 <= k < run.len(),
        credits(start, run, of, k + 1, n, p) == Set::<int>::empty(),
        ({
            let (q, list) = (
                node_at(start, run, k + 1, n).queue(p),
                asked(start, run, k + 1, n, p),
            );
            ||| q.len() == 0 && list == Seq::<int>::empty()
            ||| q.len() == 1 && list == seq![k] && q[0] <= node_at(
                start,
                run,
                k + 1,
                n,
            ).store.last_index()
        }),
    ensures
        books(start, run, of, k + 1, n, p),
{
}

/// The books go on: the queue may have lost its oldest request, with a credit,
/// or have got a new one, which reaches to the end of the log.
proof fn books_on(
    start: Cluster,
    run: Seq<(NodeId, Move)>,
    of: Map<int, int>,
    k: int,
    n: NodeId,
    p: NodeId,
    told: bool,
    sent: bool,
)
    requires
        cluster::possible(start, run),
        answers_by(start, run, of),
        0 <= k < run.len(),
        books(start, run, of, k, n, p),
        node_at(start, run, k + 1, n).term() == node_at(start, run, k, n).term(),
        node_at(start, run, k, n).store.last_index() <= node_at(
            start,
            run,
            k + 1,
            n,
        ).store.last_index(),
        node_at(start, run, k, n).commit_index <= node_at(start, run, k + 1, n).commit_index,
        told ==> told_at(start, run, k, n, p),
        !(told && sent),
        credits(start, run, of, k + 1, n, p) == if told {
            credits(start, run, of, k, n, p).insert(of[k])
        } else {
            credits(start, run, of, k, n, p)
        },
        asked(start, run, k + 1, n, p) == if sent {
            asked(start, run, k, n, p).push(k)
        } else {
            asked(start, run, k, n, p)
        },
        ({
            let (q, next) = (
                node_at(start, run, k, n).queue(p),
                node_at(start, run, k + 1, n).queue(p),
            );
            let end = node_at(start, run, k + 1, n).store.last_index();
            if told {
                next == q.skip(1)
            } else if sent {
                next == q.push(end)
            } else {
                next == q
            }
        }),
    ensures
        books(start, run, of, k + 1, n, p),
{
    let (a, b) = (node_at(start, run, k, n), node_at(start, run, k + 1, n));
    let (list, now) = (asked(start, run, k, n, p), asked(start, run, k + 1, n, p));
    let (q, next) = (a.queue(p), b.queue(p));
    let (done, later) = (
        credits(start, run, of, k, n, p),
        credits(start, run, of, k + 1, n, p),
    );
    if told {
        the_oldest_is_vouched(start, run, of, k, n, p);
    }
    assert forall|x: int| 0 <= x < now.len() implies 0 <= #[trigger] now[x] < k + 1 && node_at(
        start,
        run,
        now[x] + 1,
        n,
    ).term() == b.term() by {
        if x < list.len() {
            assert(now[x] == list[x]);
        }
    }
    assert forall|x: int| 0 <= x < next.len() implies #[trigger] next[x] == reach(
        start,
        run,
        now[now.len() - next.len() + x],
        n,
        p,
    ) by {
        if told {
            assert(next[x] == q[x + 1]);
        } else if x < q.len() {
            assert(next[x] == q[x]);
            assert(now[now.len() - next.len() + x] == list[list.len() - q.len() + x]);
        }
    }
    assert forall|x: int, y: int|
        #![trigger now[x], now[y]]
        0 <= x <= y < now.len() implies reach(start, run, now[x], n, p) <= reach(
        start,
        run,
        now[y],
        n,
        p,
    ) <= b.store.last_index() by {
        if y < list.len() {
            assert(now[x] == list[x] && now[y] == list[y]);
        } else {
            assert(now[y] == k);
            assert(reach(start, run, k, n, p) == b.store.last_index());
            if x < list.len() {
                assert(now[x] == list[x]);
                assert(reach(start, run, list[x], n, p) <= reach(start, run, list[x], n, p));
            }
        }
    }
    assert forall|v: int| #[trigger] later.contains(v) implies {
        &&& now.contains(v)
        &&& was_told(start, run, of, k + 1, n, p, v)
        &&& vouches(
            start,
            run,
            k + 1,
            p,
            b.term(),
            reach(start, run, v, n, p),
            b.commit_index,
        )
    } by {
        assert(list.contains(v));
        let x = list.index_of(v);
        assert(now[x] == v);
        vouches_on(start, run, k, p, b.term(), reach(start, run, v, n, p), a.commit_index);
        if done.contains(v) {
            let i = choose|i: int| i < k && #[trigger] told_at(start, run, i, n, p) && of[i] == v;
            assert(i < k + 1 && told_at(start, run, i, n, p) && of[i] == v);
        } else {
            assert(told_at(start, run, k, n, p) && of[k] == v);
        }
    }
}

/// The books are right after a move of the leader itself.
proof fn own_books(
    start: Cluster,
    run: Seq<(NodeId, Move)>,
    of: Map<int, int>,
    k: int,
    n: NodeId,
    p: NodeId,
)
    requires
        cluster::possible(start, run),
        answers_by(start, run, of),
        0 <= k < run.len(),
        p != n,
        run[k].0 == n,
        node_at(start, run, k + 1, n).role == Role::Leader,
        node_at(start, run, k, n).role == Role::Leader ==> books(start, run, of, k, n, p),
    ensures
        books(start, run, of, k + 1, n, p),
{
    next_moment(start, run, k);
    let (c, d) = (cluster::reached(start, run.take(k)), cluster::reached(start, run.take(k + 1)));
    let (a, b) = (node_at(start, run, k, n), node_at(start, run, k + 1, n));
    let event = election::event_of(run[k].1);
    assert(moves::role_step(a, event, b));
    snapshots_are_committed(start, run, k);
    covered(a, run[k].1, b);
    assert(run[k].1 is Happens) by {
        reveal(cluster::restarted);
    }
    if cluster::brings_log(event) {
        extents::left_alone(c, n, event, b, d);
        assert(a.queue(p) == b.queue(p) && a.sent(p) == b.sent(p));
        books_on(start, run, of, k, n, p, false, false);
    } else {
        extents::in_flight(c, n, event, b, d, p);
        extents::a_leader_is_in_order(d, n);
        election::names_hold(c, n);
        let sent = flight::sends(a, b, p);
        if a.role != Role::Leader || flight::refuses(event, p, b.term()) {
            if sent {
                assert(asked(start, run, k + 1, n, p) =~= seq![k]);
            }
            books_open(start, run, of, k, n, p);
        } else {
            let told = flight::agrees(event, p, a.term()) && a.queue(p).len() > 0;
            assert(told == told_at(start, run, k, n, p));
            books_on(start, run, of, k, n, p, told, sent);
        }
    }
}

proof fn books_step(
    start: Cluster,
    run: Seq<(NodeId, Move)>,
    of: Map<int, int>,
    k: int,
    n: NodeId,
    p: NodeId,
)
    requires
        cluster::possible(start, run),
        answers_by(start, run, of),
        0 <= k < run.len(),
        p != n,
        node_at(start, run, k + 1, n).role == Role::Leader,
        node_at(start, run, k, n).role == Role::Leader ==> books(start, run, of, k, n, p),
    ensures
        books(start, run, of, k + 1, n, p),
{
    next_moment(start, run, k);
    if run[k].0 == n {
        own_books(start, run, of, k, n, p);
    } else {
        assert(node_at(start, run, k + 1, n) == node_at(start, run, k, n));
        books_on(start, run, of, k, n, p, false, false);
    }
}

/// The peer vouches for what the node believes of it, beyond `commit`.
spec fn stands_by(
    start: Cluster,
    run: Seq<(NodeId, Move)>,
    k: int,
    n: NodeId,
    p: NodeId,
    commit: LogIndex,
) -> bool {
    vouches(
        start,
        run,
        k,
        p,
        node_at(start, run, k, n).term(),
        node_at(start, run, k, n).matched(p),
        commit,
    )
}

/// What a leader believes of the other voters, beyond what is committed, they
/// vouch for.
spec fn beliefs(start: Cluster, run: Seq<(NodeId, Move)>, k: int, n: NodeId) -> bool {
    forall|p: NodeId|
        node_at(start, run, k, n).voters.contains(p) && p != n ==> #[trigger] stands_by(
            start,
            run,
            k,
            n,
            p,
            node_at(start, run, k, n).commit_index,
        )
}

/// The snapshot of every node covers only what is committed.
pub(crate) proof fn snapshots_are_committed(start: Cluster, run: Seq<(NodeId, Move)>, k: int)
    requires
        cluster::possible(start, run),
        0 <= k <= run.len(),
    ensures
        forall|n: NodeId| #[trigger]
            cluster::reached(start, run.take(k)).nodes.contains_key(n) ==> node_at(
                start,
                run,
                k,
                n,
            ).store.base.last_index <= node_at(start, run, k, n).commit_index,
    decreases k,
{
    if k == 0 {
        a_moment(start, run, 0);
        assert(cluster::reached(start, run.take(0)) == start);
    } else {
        snapshots_are_committed(start, run, k - 1);
        next_moment(start, run, k - 1);
        let c = cluster::reached(start, run.take(k - 1));
        let (m, move_) = run[k - 1];
        assert(c.nodes.contains_key(m));
        covered(c.nodes[m], move_, c.next_node(m, move_));
        assert forall|n: NodeId| #[trigger]
            cluster::reached(start, run.take(k)).nodes.contains_key(n) implies node_at(
            start,
            run,
            k,
            n,
        ).store.base.last_index <= node_at(start, run, k, n).commit_index by {
            if n != m {
                assert(c.nodes.contains_key(n));
            }
        }
    }
}

proof fn covered(a: NodeState, move_: Move, b: NodeState)
    requires
        match move_ {
            Move::Happens(event) => a.admits(event) && b == cluster::outcome(a, event),
            Move::Restarts => b == cluster::restarted(a).node,
        },
        a.store.base.last_index <= a.commit_index,
    ensures
        b.store.base.last_index <= b.commit_index,
        move_ is Happens ==> a.commit_index <= b.commit_index,
{
    match move_ {
        Move::Happens(event) => {
            laws::a_node_moves_forward(a, event);
            assert(b == a.after(event).node) by {
                reveal(cluster::outcome);
            }
            if cluster::brings_log(event) {
                match event {
                    Event::Step(from, MessageView::AppendEntries(req)) => appended(a, from, req),
                    Event::Step(from, MessageView::InstallSnapshot(req)) => installed(a, from, req),
                    _ => {},
                }
            } else {
                events::a_quiet_step(a, event);
                reveal(moves::quiet_step);
            }
        },
        Move::Restarts => {
            reveal(cluster::restarted);
        },
    }
}

proof fn appended(a: NodeState, from: NodeId, req: AppendView)
    ensures
        a.handle_append_entries(from, req).node.store.base == a.store.base,
{
    let node = a.become_follower(req.term, Some(req.leader_id));
    assert(node.adopt_entries(req.entries).node.store.base == a.store.base);
}

proof fn installed(a: NodeState, from: NodeId, req: InstallView)
    requires
        a.store.base.last_index <= a.commit_index,
    ensures
        ({
            let b = a.handle_install_snapshot(from, req).node;
            b.store.base.last_index <= b.commit_index
        }),
{
}

/// What the node believes of a voter after a move of its own.
proof fn own_belief(
    start: Cluster,
    run: Seq<(NodeId, Move)>,
    of: Map<int, int>,
    k: int,
    n: NodeId,
    p: NodeId,
)
    requires
        cluster::possible(start, run),
        answers_by(start, run, of),
        0 <= k < run.len(),
        run[k].0 == n,
        run[k].1 is Happens,
        p != n,
        moves::leads(node_at(start, run, k, n), node_at(start, run, k + 1, n)),
        node_at(start, run, k + 1, n).voters.contains(p),
        !cluster::brings_log(election::event_of(run[k].1)),
        node_at(start, run, k, n).role == Role::Leader ==> {
            &&& books(start, run, of, k, n, p)
            &&& beliefs(start, run, k, n)
        },
    ensures
        stands_by(start, run, k + 1, n, p, node_at(start, run, k, n).commit_index),
{
    next_moment(start, run, k);
    let (c, d) = (cluster::reached(start, run.take(k)), cluster::reached(start, run.take(k + 1)));
    let (a, b) = (node_at(start, run, k, n), node_at(start, run, k + 1, n));
    let event = election::event_of(run[k].1);
    assert(moves::role_step(a, event, b));
    extents::in_flight(c, n, event, b, d, p);
    if a.role == Role::Leader {
        if a.voters.contains(p) {
            assert(stands_by(start, run, k, n, p, a.commit_index));
            vouches_on(start, run, k, p, a.term(), a.matched(p), a.commit_index);
        }
        if flight::agrees(event, p, a.term()) && a.queue(p).len() > 0 {
            assert(told_at(start, run, k, n, p));
            the_oldest_is_vouched(start, run, of, k, n, p);
            vouches_on(start, run, k, p, a.term(), a.queue(p)[0], a.commit_index);
        }
        snapshots_are_committed(start, run, k);
    }
}

/// What every node that leads keeps in its books and believes.
spec fn all_books(start: Cluster, run: Seq<(NodeId, Move)>, of: Map<int, int>, k: int) -> bool {
    forall|n: NodeId|
        cluster::reached(start, run.take(k)).nodes.contains_key(n) && #[trigger] node_at(
            start,
            run,
            k,
            n,
        ).role == Role::Leader ==> {
            &&& beliefs(start, run, k, n)
            &&& forall|p: NodeId| p != n ==> #[trigger] books(start, run, of, k, n, p)
        }
}

/// A leader that is brought a log has no more than it believed.
proof fn brought_belief(
    start: Cluster,
    run: Seq<(NodeId, Move)>,
    of: Map<int, int>,
    k: int,
    n: NodeId,
)
    requires
        cluster::possible(start, run),
        0 <= k < run.len(),
        run[k].0 == n,
        run[k].1 is Happens,
        cluster::brings_log(election::event_of(run[k].1)),
        node_at(start, run, k + 1, n).role == Role::Leader,
        beliefs(start, run, k, n),
    ensures
        beliefs(start, run, k + 1, n),
{
    next_moment(start, run, k);
    let (c, d) = (cluster::reached(start, run.take(k)), cluster::reached(start, run.take(k + 1)));
    let (a, b) = (node_at(start, run, k, n), node_at(start, run, k + 1, n));
    extents::left_alone(c, n, election::event_of(run[k].1), b, d);
    assert forall|p: NodeId| b.voters.contains(p) && p != n implies #[trigger] stands_by(
        start,
        run,
        k + 1,
        n,
        p,
        b.commit_index,
    ) by {
        assert(stands_by(start, run, k, n, p, a.commit_index));
        vouches_on(start, run, k, p, a.term(), a.matched(p), a.commit_index);
    }
}

proof fn all_books_step(start: Cluster, run: Seq<(NodeId, Move)>, of: Map<int, int>, k: int)
    requires
        cluster::possible(start, run),
        answers_by(start, run, of),
        0 <= k < run.len(),
        all_books(start, run, of, k),
    ensures
        all_books(start, run, of, k + 1),
{
    next_moment(start, run, k);
    let c = cluster::reached(start, run.take(k));
    let m = run[k].0;
    assert forall|n: NodeId|
        cluster::reached(start, run.take(k + 1)).nodes.contains_key(n) && #[trigger] node_at(
            start,
            run,
            k + 1,
            n,
        ).role == Role::Leader implies {
        &&& beliefs(start, run, k + 1, n)
        &&& forall|p: NodeId| p != n ==> #[trigger] books(start, run, of, k + 1, n, p)
    } by {
        let (a, b) = (node_at(start, run, k, n), node_at(start, run, k + 1, n));
        assert(c.nodes.contains_key(n));
        assert(a.role == Role::Leader ==> beliefs(start, run, k, n));
        assert forall|p: NodeId| p != n implies #[trigger] books(start, run, of, k + 1, n, p) by {
            if a.role == Role::Leader {
                assert(books(start, run, of, k, n, p));
            }
            books_step(start, run, of, k, n, p);
        }
        if m == n && cluster::brings_log(election::event_of(run[k].1)) {
            extents::left_alone(
                c,
                n,
                election::event_of(run[k].1),
                b,
                cluster::reached(start, run.take(k + 1)),
            );
            brought_belief(start, run, of, k, n);
        } else {
            assert forall|p: NodeId| b.voters.contains(p) && p != n implies #[trigger] stands_by(
                start,
                run,
                k + 1,
                n,
                p,
                b.commit_index,
            ) by {
                if a.role == Role::Leader {
                    assert(books(start, run, of, k, n, p));
                }
                if m == n {
                    own_belief(start, run, of, k, n, p);
                    snapshots_are_committed(start, run, k);
                    covered(a, run[k].1, b);
                } else {
                    assert(stands_by(start, run, k, n, p, a.commit_index));
                    vouches_on(start, run, k, p, a.term(), a.matched(p), a.commit_index);
                }
            }
        }
    }
}

proof fn all_books_hold(start: Cluster, run: Seq<(NodeId, Move)>, of: Map<int, int>, k: int)
    requires
        cluster::possible(start, run),
        answers_by(start, run, of),
        0 <= k <= run.len(),
    ensures
        all_books(start, run, of, k),
    decreases k,
{
    if k == 0 {
        a_moment(start, run, 0);
        assert(cluster::reached(start, run.take(0)) == start);
        assert forall|n: NodeId|
            cluster::reached(start, run.take(0)).nodes.contains_key(n) implies #[trigger] node_at(
            start,
            run,
            0,
            n,
        ).role == Role::Follower by {
            assert(start.nodes.contains_key(n));
        }
    } else {
        all_books_hold(start, run, of, k - 1);
        all_books_step(start, run, of, k - 1);
    }
}

/// A move after which the node believes no more than it may.
proof fn a_move_is_credited(
    start: Cluster,
    run: Seq<(NodeId, Move)>,
    of: Map<int, int>,
    k: int,
)
    requires
        cluster::possible(start, run),
        answers_by(start, run, of),
        0 <= k < run.len(),
        run[k].1 is Happens,
        !cluster::brings_log(election::event_of(run[k].1)),
    ensures
        aims::credited(
            run[k].0,
            node_at(start, run, k, run[k].0),
            node_at(start, run, k + 1, run[k].0),
            completeness::accepted(start, run.take(k + 1)),
        ),
{
    let n = run[k].0;
    let (a, b) = (node_at(start, run, k, n), node_at(start, run, k + 1, n));
    next_moment(start, run, k);
    all_books_hold(start, run, of, k);
    if moves::leads(a, b) {
        assert(a.role == Role::Leader ==> beliefs(start, run, k, n));
        assert forall|p: NodeId|
            b.voters.contains(p) && p != n && #[trigger] b.matched(p)
                > a.commit_index implies completeness::vouched(
            completeness::accepted(start, run.take(k + 1)),
            p,
            b.term(),
            b.matched(p),
        ) by {
            if a.role == Role::Leader {
                assert(books(start, run, of, k, n, p));
            }
            own_belief(start, run, of, k, n, p);
            assert(stands_by(start, run, k + 1, n, p, a.commit_index));
        }
    }
}

proof fn credited_so_far(start: Cluster, run: Seq<(NodeId, Move)>, of: Map<int, int>, k: int)
    requires
        cluster::possible(start, run),
        answers_by(start, run, of),
        0 <= k <= run.len(),
    ensures
        aims::credited_run(start, run.take(k)),
    decreases k,
{
    if k > 0 {
        let now = run.take(k);
        assert(now.drop_last() =~= run.take(k - 1));
        assert(now.last() == run[k - 1]);
        credited_so_far(start, run, of, k - 1);
        next_moment(start, run, k - 1);
        match run[k - 1].1 {
            Move::Happens(event) => {
                if !cluster::brings_log(event) {
                    a_move_is_credited(start, run, of, k - 1);
                }
            },
            Move::Restarts => {},
        }
    }
}

/// Where answers arrive in turn, no leader counts on a voter for more than it
/// held. Each success stands for a request of its own that the peer took, and of
/// so many requests in flight one reaches at least as far as the oldest, which is
/// what the success is credited with.
pub proof fn answers_in_turn_can_be_counted_on(start: Cluster, run: Seq<(NodeId, Move)>)
    requires
        cluster::possible(start, run),
        answers_in_turn(start, run),
    ensures
        aims::credited_run(start, run),
{
    let of = choose|of: Map<int, int>| #[trigger] answers_by(start, run, of);
    credited_so_far(start, run, of, run.len() as int);
    assert(run.take(run.len() as int) =~= run);
}

} // verus!
