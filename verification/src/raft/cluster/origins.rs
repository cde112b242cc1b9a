//! Everything in a log was made by a leader.

use vstd::prelude::*;

use crate::raft::cluster;
use crate::raft::cluster::bringing;
use crate::raft::cluster::election;
use crate::raft::cluster::ends;
use crate::raft::cluster::events;
use crate::raft::cluster::history;
use crate::raft::cluster::matching;
use crate::raft::cluster::moves;
use crate::raft::cluster::runs;
use crate::raft::cluster::{Cluster, Move};
use crate::raft::node::laws::{self, Event};
use crate::raft::node::state::{self, NodeState, Role};
use crate::raft::rpc::{AppendView, InstallView, MessageView};
use crate::raft::storage::Durable;
use crate::raft::types::{EntryView, NodeId, SnapshotMeta, Term};

verus! {

/// The entry was made, in a term no later than this.
pub open spec fn stems(e: EntryView, term: Term, made: Set<(EntryView, Term)>) -> bool {
    e.term <= term && exists|before: Term| #[trigger] made.contains((e, before))
}

/// Every entry of the log was, and the last that its snapshot covers.
pub open spec fn store_stems(s: Durable, term: Term, made: Set<(EntryView, Term)>) -> bool {
    &&& s.wf()
    &&& forall|k: int| 0 <= k < s.entries.len() ==> stems(#[trigger] s.entries[k], term, made)
    &&& history::based(s, made)
    &&& s.base.last_term <= term
}

/// Everything in the log of a node was made in terms that it has reached. The
/// log of a leader ends with an entry of its own.
pub open spec fn stands(node: NodeState, made: Set<(EntryView, Term)>) -> bool {
    &&& store_stems(node.store, node.term(), made)
    &&& node.role == Role::Leader ==> node.store.last_term() == node.term()
        && node.store.last_index() > 0
    &&& node.role == Role::Candidate ==> node.term() > 0
}

pub open spec fn append_stands(req: AppendView, made: Set<(EntryView, Term)>) -> bool {
    &&& laws::consecutive(req.prev_log_index, req.entries)
    &&& forall|k: int|
        0 <= k < req.entries.len() ==> stems(#[trigger] req.entries[k], req.term, made)
}

pub open spec fn install_stands(req: InstallView, made: Set<(EntryView, Term)>) -> bool {
    &&& history::rooted(made, req.last_term, req.last_index)
    &&& req.last_term <= req.term
}

pub(crate) open spec fn origins_hold(c: Cluster) -> bool {
    &&& forall|n: NodeId| #[trigger] c.nodes.contains_key(n) ==> stands(c.nodes[n], c.made)
    &&& forall|f: NodeId, to: NodeId, req: AppendView| #[trigger]
        c.sent.contains((f, to, MessageView::AppendEntries(req))) ==> append_stands(req, c.made)
    &&& forall|f: NodeId, to: NodeId, req: InstallView| #[trigger]
        c.sent.contains((f, to, MessageView::InstallSnapshot(req))) ==> install_stands(
            req,
            c.made,
        )
    &&& history::grown(c.made)
    &&& history::terms_nest(c.made)
}

proof fn stems_stay(
    e: EntryView,
    term: Term,
    made: Set<(EntryView, Term)>,
    later: Term,
    all: Set<(EntryView, Term)>,
)
    requires
        stems(e, term, made),
        term <= later,
        made.subset_of(all),
    ensures
        stems(e, later, all),
{
    let before = choose|before: Term| #[trigger] made.contains((e, before));
    assert(all.contains((e, before)));
}

/// What a log comes to by dropping entries at its end, or growing by others that
/// were made.
proof fn store_stays(
    s: Durable,
    term: Term,
    made: Set<(EntryView, Term)>,
    t: Durable,
    later: Term,
    all: Set<(EntryView, Term)>,
)
    requires
        store_stems(s, term, made),
        t.wf(),
        t.base == s.base,
        forall|k: int|
            0 <= k < t.entries.len() ==> s.entries.contains(#[trigger] t.entries[k]) || stems(
                t.entries[k],
                later,
                all,
            ),
        term <= later,
        made.subset_of(all),
    ensures
        store_stems(t, later, all),
{
    assert forall|k: int| 0 <= k < t.entries.len() implies stems(
        #[trigger] t.entries[k],
        later,
        all,
    ) by {
        if s.entries.contains(t.entries[k]) {
            let j = choose|j: int| 0 <= j < s.entries.len() && s.entries[j] == t.entries[k];
            assert(stems(s.entries[j], term, made));
            stems_stay(s.entries[j], term, made, later, all);
        }
    }
    history::rooted_stays(made, all, s.base.last_term, s.base.last_index);
}

/// What a log comes to by a snapshot that covers what was made.
proof fn store_shortens(
    s: Durable,
    term: Term,
    made: Set<(EntryView, Term)>,
    t: Durable,
    later: Term,
)
    requires
        store_stems(s, term, made),
        term <= later,
        t.base.last_index < u64::MAX,
        t.base.last_index > s.base.last_index,
        t.entries == if t.base.last_index < s.last_index() {
            s.entries.skip(t.base.last_index - s.base.last_index)
        } else {
            Seq::empty()
        },
        history::based(t, made),
        t.base.last_term <= later,
    ensures
        store_stems(t, later, made),
{
    let cut = t.base.last_index - s.base.last_index;
    assert forall|k: int| 0 <= k < t.entries.len() implies (#[trigger] t.entries[k]).index
        == t.base.last_index + 1 + k && stems(t.entries[k], later, made) by {
        assert(t.entries[k] == s.entries[k + cut]);
        stems_stay(s.entries[k + cut], term, made, later, made);
    }
}

/// How a log ends.
pub(crate) proof fn store_ends(s: Durable, term: Term, made: Set<(EntryView, Term)>)
    requires
        store_stems(s, term, made),
    ensures
        history::rooted(made, s.last_term(), s.last_index()),
        s.term_or_zero(s.last_index()) == s.last_term(),
        s.last_term() <= term,
{
    if s.entries.len() > 0 {
        let e = s.entries[s.entries.len() - 1];
        assert(stems(e, term, made));
        let before = choose|before: Term| #[trigger] made.contains((e, before));
        assert(made.contains((e, before)));
        assert(s.at(s.last_index()) == e);
    }
}

// ---- one move ----

proof fn a_quiet_log(a: NodeState, event: Event, b: NodeState, made: Set<(EntryView, Term)>)
    requires
        moves::log_step(a, b),
        !cluster::brings_log(event),
        election::node_step(a, event, b),
        stands(a, made),
        a.store.last_index() < u64::MAX - 1,
    ensures
        stands(b, made.union(cluster::written(a, event, b))),
        ends::made_step(a, b, cluster::written(a, event, b)),
{
    let (s, t) = (a.store, b.store);
    let more = cluster::written(a, event, b);
    let all = made.union(more);
    ends::quiet_makes(a, event, b);
    ends::quiet_end(a, b);
    store_ends(s, a.term(), made);
    if t.base == s.base && t.entries == s.entries {
        assert forall|k: int| 0 <= k < t.entries.len() implies s.entries.contains(
            #[trigger] t.entries[k],
        ) by {
            assert(s.entries[k] == t.entries[k]);
        }
        store_stays(s, a.term(), made, t, b.term(), all);
    } else if t.base == s.base {
        let e = moves::own_entry(a, b);
        assert(t.at(t.last_index()) == e);
        assert(more.contains((e, s.term_or_zero(s.last_index()))));
        assert(all.contains((e, s.term_or_zero(s.last_index()))));
        assert(t.wf());
        assert forall|k: int| 0 <= k < t.entries.len() implies s.entries.contains(
            #[trigger] t.entries[k],
        ) || stems(t.entries[k], b.term(), all) by {
            if k < s.entries.len() {
                assert(s.entries[k] == t.entries[k]);
            }
        }
        store_stays(s, a.term(), made, t, b.term(), all);
    } else {
        let i = t.base.last_index;
        let e = s.entries[i - s.base.last_index - 1];
        assert(s.at(i) == e);
        assert(stems(e, a.term(), made));
        let before = choose|before: Term| #[trigger] made.contains((e, before));
        assert(made.contains((e, before)));
        if i == s.last_index() {
            assert(t.entries =~= Seq::empty());
        }
        store_shortens(s, a.term(), made, t, b.term());
        assert(all =~= made);
    }
    if b.role == Role::Leader && a.role != Role::Leader {
        assert(t.entries.last() == moves::own_entry(a, b));
    }
}

proof fn an_appended_log(
    a: NodeState,
    from: NodeId,
    req: AppendView,
    made: Set<(EntryView, Term)>,
)
    requires
        store_stems(a.store, a.term(), made),
        append_stands(req, made),
        a.store.last_index() + req.entries.len() < u64::MAX,
    ensures
        ({
            let b = a.handle_append_entries(from, req).node;
            store_stems(b.store, b.term(), made)
        }),
{
    let node = a.become_follower(req.term, Some(req.leader_id));
    let (s, entries) = (node.store, req.entries);
    let b = a.handle_append_entries(from, req).node;
    let t = b.store;
    assert(b.term() >= a.term());
    assert(s.entries == a.store.entries && s.base == a.store.base);
    assert(t.wf() && t.base == s.base && forall|k: int|
        0 <= k < t.entries.len() ==> a.store.entries.contains(#[trigger] t.entries[k]) || stems(
            t.entries[k],
            b.term(),
            made,
        )) by {
        if t.entries == s.entries && t.base == s.base {
            assert forall|k: int| 0 <= k < t.entries.len() implies a.store.entries.contains(
                #[trigger] t.entries[k],
            ) by {
                assert(a.store.entries[k] == t.entries[k]);
            }
        } else {
            assert(t == node.adopt_entries(entries).node.store);
            laws::known_before_new(s, entries, 0);
            let k = state::first_new(s, entries, 0)->0;
            let index = entries[k].index;
            let more = entries.skip(k);
            let kept = if s.term(index) is Some {
                s.truncate(index)
            } else {
                s
            };
            assert(kept.wf());
            assert(0 <= k < entries.len());
            laws::tail_reaches(req.prev_log_index, entries, k);
            assert(t == if kept.append_fault(more) is None {
                kept.append(more)
            } else {
                kept
            });
            if kept.append_fault(more) is None {
                kept.append_wf(more);
            }
            assert forall|j: int| 0 <= j < t.entries.len() implies a.store.entries.contains(
                #[trigger] t.entries[j],
            ) || stems(t.entries[j], b.term(), made) by {
                if j < kept.entries.len() {
                    assert(t.entries[j] == kept.entries[j]);
                    assert(a.store.entries[j] == t.entries[j]);
                } else {
                    assert(t.entries[j] == more[j - kept.entries.len()]);
                    assert(stems(entries[k + j - kept.entries.len()], req.term, made));
                }
            }
        }
    }
    store_stays(a.store, a.term(), made, t, b.term(), made);
}

proof fn an_installed_log(
    a: NodeState,
    from: NodeId,
    req: InstallView,
    made: Set<(EntryView, Term)>,
)
    requires
        store_stems(a.store, a.term(), made),
        install_stands(req, made),
        req.last_index < u64::MAX,
    ensures
        ({
            let b = a.handle_install_snapshot(from, req).node;
            store_stems(b.store, b.term(), made)
        }),
{
    let node = a.become_follower(req.term, Some(req.leader_id));
    let b = a.handle_install_snapshot(from, req).node;
    let (s, t) = (a.store, b.store);
    assert(b.term() >= a.term());
    if ends::installs(a, req) {
        let meta = SnapshotMeta { last_index: req.last_index, last_term: req.last_term };
        assert(t == node.store.save(meta, req.data, req.config));
        store_shortens(s, a.term(), made, t, b.term());
    } else {
        assert(t.entries == s.entries && t.base == s.base);
        assert forall|k: int| 0 <= k < t.entries.len() implies s.entries.contains(
            #[trigger] t.entries[k],
        ) by {
            assert(s.entries[k] == t.entries[k]);
        }
        store_stays(s, a.term(), made, t, b.term(), made);
    }
}

/// What a move leaves of a node.
pub(crate) open spec fn origin_move(
    c: Cluster,
    n: NodeId,
    event: Event,
    b: NodeState,
    more: Set<(EntryView, Term)>,
) -> bool {
    &&& stands(b, c.made.union(more))
    &&& ends::made_step(c.nodes[n], b, more)
    &&& ends::answers(c.nodes[n], event, b)
}

proof fn a_brought_log(c: Cluster, n: NodeId, event: Event)
    requires
        c.nodes.contains_key(n),
        c.nodes[n].admits(event),
        c.hears(n, event),
        cluster::brings_log(event),
        origins_hold(c),
    ensures
        ({
            let b = cluster::outcome(c.nodes[n], event);
            store_stems(b.store, b.term(), c.made)
        }),
{
    let a = c.nodes[n];
    reveal(cluster::outcome);
    assert(stands(a, c.made));
    match event {
        Event::Step(from, MessageView::AppendEntries(req)) => {
            assert(c.sent.contains((from, n, MessageView::AppendEntries(req))));
            an_appended_log(a, from, req, c.made);
        },
        Event::Step(from, MessageView::InstallSnapshot(req)) => {
            assert(c.sent.contains((from, n, MessageView::InstallSnapshot(req))));
            an_installed_log(a, from, req, c.made);
        },
        _ => {},
    }
}

proof fn a_move_stands(c: Cluster, n: NodeId, move_: Move)
    requires
        c.allows(n, move_),
        origins_hold(c),
    ensures
        origin_move(
            c,
            n,
            election::event_of(move_),
            c.next_node(n, move_),
            runs::makes(c, n, move_),
        ),
{
    let (a, b) = (c.nodes[n], c.next_node(n, move_));
    assert(stands(a, c.made));
    election::a_move_steps(c, n, move_);
    match move_ {
        Move::Happens(event) => {
            if cluster::brings_log(event) {
                a_brought_log(c, n, event);
                bringing::a_bringing_step(a, event);
                reveal(bringing::bringing_step);
                assert(c.made.union(runs::makes(c, n, move_)) =~= c.made);
            } else {
                events::a_quiet_step(a, event);
                assert(moves::log_step(a, b)) by {
                    reveal(moves::quiet_step);
                }
                a_quiet_log(a, event, b, c.made);
            }
        },
        Move::Restarts => {
            reveal(cluster::restarted);
            assert(c.made.union(runs::makes(c, n, move_)) =~= c.made);
        },
    }
}

// ---- what is made ----

/// The term of a leader is not the first.
proof fn leaders_have_a_term(c: Cluster, n: NodeId, event: Event, b: NodeState)
    requires
        c.nodes.contains_key(n),
        election::node_step(c.nodes[n], event, b),
        origins_hold(c),
        moves::leads(c.nodes[n], b),
    ensures
        b.term() > 0,
{
    let a = c.nodes[n];
    assert(stands(a, c.made));
    if a.role == Role::Leader {
        store_ends(a.store, a.term(), c.made);
        let x = choose|x: (EntryView, Term)| #[trigger]
            c.made.contains(x) && x.0.term == a.store.last_term() && x.0.index
                == a.store.last_index();
        assert(c.made.contains(x));
    }
}

/// Everything that a move rests on.
spec fn standing(
    c: Cluster,
    n: NodeId,
    event: Event,
    b: NodeState,
    more: Set<(EntryView, Term)>,
) -> bool {
    let d = c.with_node(n, b, more);
    &&& c.nodes.contains_key(n)
    &&& c.hears(n, event)
    &&& election::elections_hold(c)
    &&& election::elections_hold(d)
    &&& matching::steady(d)
    &&& matching::makings_hold(c)
    &&& matching::makings_hold(d)
    &&& election::node_step(c.nodes[n], event, b)
    &&& origins_hold(c)
    &&& origin_move(c, n, event, b, more)
}

proof fn growing_step(
    c: Cluster,
    n: NodeId,
    event: Event,
    b: NodeState,
    more: Set<(EntryView, Term)>,
)
    requires
        standing(c, n, event, b, more),
    ensures
        history::grown(c.with_node(n, b, more).made),
{
    let (a, d) = (c.nodes[n], c.with_node(n, b, more));
    assert forall|x: (EntryView, Term)| #[trigger] d.made.contains(x) implies {
        &&& x.0.index > 0
        &&& x.0.term > 0
        &&& x.1 <= x.0.term
        &&& history::rooted(d.made, x.1, (x.0.index - 1) as u64)
    } by {
        if c.made.contains(x) {
            history::rooted_stays(c.made, d.made, x.1, (x.0.index - 1) as u64);
        } else {
            assert(more.contains(x));
            leaders_have_a_term(c, n, event, b);
            assert(stands(a, c.made));
            store_ends(a.store, a.term(), c.made);
            history::rooted_stays(c.made, d.made, x.1, (x.0.index - 1) as u64);
        }
    }
}

/// What a leader writes stands behind everything of its term.
proof fn new_entry_nests(
    c: Cluster,
    n: NodeId,
    event: Event,
    b: NodeState,
    more: Set<(EntryView, Term)>,
    x: (EntryView, Term),
    y: (EntryView, Term),
)
    requires
        standing(c, n, event, b, more),
        c.made.contains(x),
        more.contains(y),
        x.0.term == y.0.term,
    ensures
        x.0.index < y.0.index,
        history::includes(
            c.with_node(n, b, more).made,
            y.0.term,
            y.0.index,
            x.0.term,
            x.0.index,
        ),
{
    let (a, d) = (c.nodes[n], c.with_node(n, b, more));
    matching::making_facts(c);
    matching::making_facts(d);
    if a.role != Role::Leader {
        matching::nothing_made_yet(c, n, event, b, more, x);
    } else {
        assert(stands(a, c.made));
        store_ends(a.store, a.term(), c.made);
        let last = a.store.last_index();
        let z = choose|z: (EntryView, Term)| #[trigger]
            c.made.contains(z) && z.0.term == a.store.last_term() && z.0.index == last;
        assert(c.made.contains(z));
        assert(x.0.index <= last);
        assert(history::includes(c.made, z.0.term, z.0.index, x.0.term, x.0.index));
        history::history_stays(c.made, d.made, z.0.term, z.0.index, x.0.index);
        assert(d.made.contains(y));
        history::before_is(d.made, y);
    }
}

proof fn nesting_step(
    c: Cluster,
    n: NodeId,
    event: Event,
    b: NodeState,
    more: Set<(EntryView, Term)>,
)
    requires
        standing(c, n, event, b, more),
    ensures
        history::terms_nest(c.with_node(n, b, more).made),
{
    let (a, d) = (c.nodes[n], c.with_node(n, b, more));
    matching::making_facts(c);
    matching::making_facts(d);
    assert forall|x: (EntryView, Term), y: (EntryView, Term)| #[trigger]
        d.made.contains(x) && #[trigger] d.made.contains(y) && x.0.term == y.0.term && x.0.index
            <= y.0.index implies history::includes(
        d.made,
        y.0.term,
        y.0.index,
        x.0.term,
        x.0.index,
    ) by {
        if c.made.contains(y) {
            if !c.made.contains(x) {
                new_entry_nests(c, n, event, b, more, y, x);
            }
            assert(history::includes(c.made, y.0.term, y.0.index, x.0.term, x.0.index));
            assert(history::rooted(c.made, y.0.term, y.0.index));
            history::history_stays(c.made, d.made, y.0.term, y.0.index, x.0.index);
        } else if c.made.contains(x) {
            new_entry_nests(c, n, event, b, more, x, y);
        }
    }
}

proof fn messages_step(
    c: Cluster,
    n: NodeId,
    event: Event,
    b: NodeState,
    more: Set<(EntryView, Term)>,
)
    requires
        standing(c, n, event, b, more),
    ensures
        ({
            let d = c.with_node(n, b, more);
            &&& forall|f: NodeId, to: NodeId, req: AppendView| #[trigger]
                d.sent.contains((f, to, MessageView::AppendEntries(req))) ==> append_stands(
                    req,
                    d.made,
                )
            &&& forall|f: NodeId, to: NodeId, req: InstallView| #[trigger]
                d.sent.contains((f, to, MessageView::InstallSnapshot(req))) ==> install_stands(
                    req,
                    d.made,
                )
        }),
{
    let (a, d) = (c.nodes[n], c.with_node(n, b, more));
    let s = b.store;
    assert forall|f: NodeId, to: NodeId, req: AppendView| #[trigger]
        d.sent.contains((f, to, MessageView::AppendEntries(req))) implies append_stands(
        req,
        d.made,
    ) by {
        let message = MessageView::AppendEntries(req);
        election::mail_is_new(c, n, b, more, f, to, message);
        if c.sent.contains((f, to, message)) {
            assert(append_stands(req, c.made));
        } else {
            assert(b.outbox.contains((to, message)));
            assert(moves::new_mail(a, event, b, (to, message)));
            assert(laws::consecutive(req.prev_log_index, req.entries)) by {
                assert forall|k: int| 0 <= k < req.entries.len() implies (
                #[trigger] req.entries[k]).index == req.prev_log_index + 1 + k by {
                    let at = req.prev_log_index - s.base.last_index + k;
                    assert(req.entries[k] == s.entries[at]);
                }
            }
        }
        assert forall|k: int| 0 <= k < req.entries.len() implies stems(
            #[trigger] req.entries[k],
            req.term,
            d.made,
        ) by {
            if c.sent.contains((f, to, message)) {
                stems_stay(req.entries[k], req.term, c.made, req.term, d.made);
            } else {
                let at = req.prev_log_index - s.base.last_index + k;
                assert(req.entries[k] == s.entries[at]);
                assert(stems(s.entries[at], b.term(), d.made));
            }
        }
    }
    assert forall|f: NodeId, to: NodeId, req: InstallView| #[trigger]
        d.sent.contains((f, to, MessageView::InstallSnapshot(req))) implies install_stands(
        req,
        d.made,
    ) by {
        let message = MessageView::InstallSnapshot(req);
        election::mail_is_new(c, n, b, more, f, to, message);
        if c.sent.contains((f, to, message)) {
            history::rooted_stays(c.made, d.made, req.last_term, req.last_index);
        } else {
            assert(b.outbox.contains((to, message)));
            assert(moves::new_mail(a, event, b, (to, message)));
        }
    }
}

proof fn origins_step(
    c: Cluster,
    n: NodeId,
    event: Event,
    b: NodeState,
    more: Set<(EntryView, Term)>,
)
    requires
        standing(c, n, event, b, more),
    ensures
        origins_hold(c.with_node(n, b, more)),
{
    let d = c.with_node(n, b, more);
    growing_step(c, n, event, b, more);
    nesting_step(c, n, event, b, more);
    messages_step(c, n, event, b, more);
    assert forall|m: NodeId| #[trigger] d.nodes.contains_key(m) implies stands(
        d.nodes[m],
        d.made,
    ) by {
        if m != n {
            let (node, s) = (c.nodes[m], c.nodes[m].store);
            assert(c.nodes.contains_key(m));
            assert(stands(node, c.made));
            assert forall|k: int| 0 <= k < s.entries.len() implies s.entries.contains(
                #[trigger] s.entries[k],
            ) by {}
            store_stays(s, node.term(), c.made, s, node.term(), d.made);
        }
    }
}

/// Whatever happens, everything in a log goes back to entries that leaders made,
/// each behind what its maker held.
pub(crate) proof fn origins_hold_in_runs(start: Cluster, run: Seq<(NodeId, Move)>)
    requires
        cluster::possible(start, run),
        matching::steady(cluster::reached(start, run)),
    ensures
        origins_hold(cluster::reached(start, run)),
        matching::makings_hold(cluster::reached(start, run)),
        election::elections_hold(cluster::reached(start, run)),
    decreases run.len(),
{
    matching::makings_hold_in_runs(start, run);
    election::elections_hold_in_runs(start, run);
    if run.len() > 0 {
        let c = cluster::reached(start, run.drop_last());
        let (n, move_) = run.last();
        matching::earlier_is_steady(c, n, move_);
        origins_hold_in_runs(start, run.drop_last());
        election::a_move_steps(c, n, move_);
        a_move_stands(c, n, move_);
        origins_step(
            c,
            n,
            election::event_of(move_),
            c.next_node(n, move_),
            runs::makes(c, n, move_),
        );
    }
}

} // verus!
