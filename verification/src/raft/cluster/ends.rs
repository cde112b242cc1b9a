//! What each move does to the end of a log.

use vstd::prelude::*;

use crate::raft::cluster;
use crate::raft::cluster::bringing;
use crate::raft::cluster::chain;
use crate::raft::cluster::events;
use crate::raft::cluster::history;
use crate::raft::cluster::moves;
use crate::raft::node::laws::{self, Event};
use crate::raft::node::state::{self, NodeState, Role};
use crate::raft::rpc::{AppendView, InstallView, MessageView};
use crate::raft::storage::Durable;
use crate::raft::types::{EntryView, LogIndex, NodeId, SnapshotMeta, Term};

verus! {

/// Both logs end with the same entry.
pub open spec fn same_end(s: Durable, t: Durable) -> bool {
    s.last_index() == t.last_index() && s.last_term() == t.last_term()
}

/// The log ends with the entry of the term at the index.
pub open spec fn ends_with(s: Durable, term: Term, index: LogIndex) -> bool {
    s.last_index() == index && s.last_term() == term
}

/// The log holds the entry of the term at the index, in full or under its
/// snapshot.
pub open spec fn reaches(
    made: Set<(EntryView, Term)>,
    s: Durable,
    term: Term,
    index: LogIndex,
) -> bool {
    history::includes(made, s.last_term(), s.last_index(), term, index)
}

/// The term at `at` in the log.
pub open spec fn known_at(made: Set<(EntryView, Term)>, s: Durable, at: LogIndex) -> Term {
    history::term_at(made, s.last_term(), s.last_index(), at)
}

/// The index up to which a message tells the log of its sender.
pub open spec fn end_index(req: AppendView) -> LogIndex {
    (req.prev_log_index + req.entries.len()) as u64
}

/// The term at that index.
pub open spec fn end_term(req: AppendView) -> Term {
    if req.entries.len() == 0 {
        req.prev_log_term
    } else {
        req.entries.last().term
    }
}

// ---- what a node does to its own log ----

pub(crate) proof fn quiet_end(a: NodeState, b: NodeState)
    requires
        moves::log_step(a, b),
        a.store.wf(),
        a.store.last_index() < u64::MAX - 1,
    ensures
        same_end(a.store, b.store) || {
            &&& moves::leads(a, b)
            &&& b.store.base == a.store.base
            &&& b.store.entries == a.store.entries.push(moves::own_entry(a, b))
            &&& ends_with(b.store, b.term(), (a.store.last_index() + 1) as u64)
        },
{
    let (s, t) = (a.store, b.store);
    if t.base == s.base && t.entries != s.entries {
        assert(t.entries.last() == moves::own_entry(a, b));
    } else if t.base != s.base {
        if t.entries.len() > 0 {
            assert(t.entries.last() == s.entries.last());
        }
    }
}

pub(crate) proof fn quiet_base(a: NodeState, b: NodeState, made: Set<(EntryView, Term)>)
    requires
        moves::log_step(a, b),
        chain::loose(a.store, made),
        history::based(a.store, made),
    ensures
        history::based(b.store, made),
{
    let (s, t) = (a.store, b.store);
    if t.base != s.base {
        let i = t.base.last_index;
        assert(s.holds(i));
        assert(chain::hangs(s, made, i));
    }
}

// ---- what a message of entries does ----

/// What a message tells of its sender's log is what that log says.
pub(crate) proof fn message_tells(req: AppendView, made: Set<(EntryView, Term)>, k: int)
    requires
        chain::brings_chain(req, made),
        chain::made_once(made),
        req.prev_log_index + req.entries.len() < u64::MAX,
        0 <= k <= req.entries.len(),
    ensures
        history::includes(
            made,
            end_term(req),
            end_index(req),
            if k == 0 {
                req.prev_log_term
            } else {
                req.entries[k - 1].term
            },
            (req.prev_log_index + k) as u64,
        ),
    decreases req.entries.len() - k,
{
    if k < req.entries.len() {
        message_tells(req, made, k + 1);
        let (entries, start, before) = (req.entries, req.prev_log_index + 1, req.prev_log_term);
        assert(chain::follows(entries, start, before, made, k));
        let x = (entries[k], if k == 0 {
            before
        } else {
            entries[k - 1].term
        });
        history::before_is(made, x);
        let at = (req.prev_log_index + k) as u64;
        history::composes(made, end_term(req), end_index(req), (at + 1) as u64, at);
        assert(history::term_at(made, x.1, at, at) == x.1);
        assert(history::term_at(made, x.0.term, (at + 1) as u64, at) == x.1);
    }
}

/// The log and the message contradict each other at `at`.
pub open spec fn differ(
    made: Set<(EntryView, Term)>,
    s: Durable,
    req: AppendView,
    at: LogIndex,
) -> bool {
    &&& s.base.last_index <= at <= s.last_index()
    &&& at <= end_index(req)
    &&& known_at(made, s, at) != history::term_at(made, end_term(req), end_index(req), at)
}

/// The message says otherwise of the entry with which the snapshot ends.
pub open spec fn undercuts(s: Durable, req: AppendView) -> bool {
    exists|k: int|
        #![trigger req.entries[k]]
        0 <= k < req.entries.len() && req.entries[k].index == s.base.last_index
            && req.entries[k].term != s.base.last_term
}

/// What a message of entries may do to the end of a log: nothing; extend it;
/// replace what contradicts the message; or cut everything behind the snapshot
/// that contradicts it.
pub open spec fn merges(
    made: Set<(EntryView, Term)>,
    s: Durable,
    req: AppendView,
    t: Durable,
) -> bool {
    &&& t.base == s.base
    &&& req.entries.len() == 0 ==> same_end(s, t)
    &&& {
        ||| same_end(s, t)
        ||| {
            &&& ends_with(t, end_term(req), end_index(req))
            &&& reaches(made, t, s.last_term(), s.last_index()) || exists|at: LogIndex| #[trigger]
                differ(made, s, req, at)
        }
        ||| {
            &&& ends_with(t, s.base.last_term, s.base.last_index)
            &&& differ(made, s, req, s.base.last_index)
            &&& chain::chained(s, made)
        }
    }
}

proof fn adopting_merges(node: NodeState, req: AppendView, made: Set<(EntryView, Term)>)
    requires
        chain::loose(node.store, made),
        undercuts(node.store, req) ==> chain::chained(node.store, made),
        history::based(node.store, made),
        chain::made_once(made),
        chain::brings_chain(req, made),
        req.prev_log_index <= node.store.last_index(),
        node.store.term_or_zero(req.prev_log_index) == req.prev_log_term,
        node.store.last_index() + req.entries.len() < u64::MAX,
    ensures
        merges(made, node.store, req, node.adopt_entries(req.entries).node.store),
{
    let (s, entries, prev) = (node.store, req.entries, req.prev_log_index);
    laws::known_before_new(s, entries, 0);
    assert(laws::consecutive(prev, entries)) by {
        assert forall|k: int| 0 <= k < entries.len() implies (#[trigger] entries[k]).index == prev
            + 1 + k by {
            assert(chain::follows(entries, prev + 1, req.prev_log_term, made, k));
        }
    }
    match state::first_new(s, entries, 0) {
        None => {},
        Some(k) => {
            let index = entries[k].index;
            let more = entries.skip(k);
            laws::tail_reaches(prev, entries, k);
            let known = s.term(index) is Some;
            let kept = if known {
                s.truncate(index)
            } else {
                s
            };
            kept.no_gap(more, 0);
            assert(more[0] == entries[k]);
            message_tells(req, made, k + 1);
            assert(index == prev + 1 + k);
            if known {
                assert(index == s.base.last_index ==> undercuts(s, req)) by {
                    assert(req.entries[k] == entries[k]);
                }
                history::store_includes(s, made, index);
                assert(differ(made, s, req, index));
            }
            let t = node.adopt_entries(entries).node.store;
            if kept.append_fault(more) is None {
                assert(t.entries.last() == entries.last());
                assert(t.last_index() == end_index(req));
                if !known {
                    message_tells(req, made, k);
                    history::store_ends(s, made);
                    assert(index == s.last_index() + 1);
                    if k > 0 {
                        assert(s.term(entries[k - 1].index) == Some(entries[k - 1].term));
                    }
                }
            } else if known && index > s.base.last_index {
                assert(kept.last_index() + 1 == index);
                assert forall|j: int| 0 <= j < more.len() implies (#[trigger] more[j]).index
                    == kept.last_index() + 1 + j by {
                    assert(more[j] == entries[k + j]);
                }
            }
        },
    }
}

/// The node takes the entries of the message.
#[verifier::opaque]
pub open spec fn takes(a: NodeState, req: AppendView) -> bool {
    let node = a.become_follower(req.term, Some(req.leader_id));
    &&& req.term >= a.term()
    &&& req.prev_log_index <= node.store.last_index()
    &&& node.store.term_or_zero(req.prev_log_index) == req.prev_log_term
    &&& req.prev_log_index == 0 || node.store.term(req.prev_log_index) is Some
    &&& node.adopt_entries(req.entries).fault is None
}

/// The entries in the log do not follow from the snapshot: the first is of an
/// earlier term.
pub open spec fn misfits(s: Durable) -> bool {
    s.entries.len() > 0 && s.entries[0].term < s.base.last_term
}

/// The node takes the entries of the message, and they reach beyond its
/// snapshot, or its log follows from that.
pub open spec fn firmly(a: NodeState, req: AppendView) -> bool {
    &&& takes(a, req)
    &&& end_index(req) > 0
    &&& end_index(req) != a.store.base.last_index || !misfits(a.store)
}

pub(crate) proof fn append_end(
    a: NodeState,
    from: NodeId,
    req: AppendView,
    made: Set<(EntryView, Term)>,
)
    requires
        chain::loose(a.store, made),
        req.term >= a.term() && undercuts(a.store, req) ==> chain::chained(a.store, made),
        history::based(a.store, made),
        chain::made_once(made),
        chain::brings_chain(req, made),
        a.store.last_index() + req.entries.len() < u64::MAX,
    ensures
        merges(made, a.store, req, a.handle_append_entries(from, req).node.store),
        req.term < a.term() ==> a.handle_append_entries(from, req).node.store == a.store,
{
    let node = a.become_follower(req.term, Some(req.leader_id));
    chain::stays_loose(a.store, node.store, made, Set::empty());
    if chain::chained(a.store, made) {
        chain::chains_stay(a.store, node.store, made, Set::empty());
    }
    assert(made.union(Set::empty()) =~= made);
    assert(undercuts(node.store, req) ==> undercuts(a.store, req));
    if req.term >= a.term() && req.prev_log_index <= node.store.last_index()
        && node.store.term_or_zero(req.prev_log_index) == req.prev_log_term {
        adopting_merges(node, req, made);
        let t = a.handle_append_entries(from, req).node.store;
        let u = node.adopt_entries(req.entries).node.store;
        assert(t == u);
        if chain::chained(node.store, made) {
            chain::chains_stay(node.store, a.store, made, Set::empty());
        }
        if exists|at: LogIndex| #[trigger] differ(made, node.store, req, at) {
            let at = choose|at: LogIndex| #[trigger] differ(made, node.store, req, at);
            assert(differ(made, a.store, req, at));
        }
    }
}

/// Entries that a node takes it holds.
pub(crate) proof fn taken_is_held(
    a: NodeState,
    from: NodeId,
    req: AppendView,
    made: Set<(EntryView, Term)>,
)
    requires
        firmly(a, req),
        chain::loose(a.store, made),
        end_index(req) == a.store.base.last_index ==> chain::chained(a.store, made),
        history::based(a.store, made),
        chain::made_once(made),
        chain::brings_chain(req, made),
        a.store.last_index() + req.entries.len() < u64::MAX,
    ensures
        reaches(
            made,
            a.handle_append_entries(from, req).node.store,
            end_term(req),
            end_index(req),
        ),
{
    reveal(takes);
    let node = a.become_follower(req.term, Some(req.leader_id));
    chain::stays_loose(a.store, node.store, made, Set::empty());
    if chain::chained(a.store, made) {
        chain::chains_stay(a.store, node.store, made, Set::empty());
    }
    assert(made.union(Set::empty()) =~= made);
    let (s, entries, prev) = (node.store, req.entries, req.prev_log_index);
    assert(history::based(s, made));
    let t = a.handle_append_entries(from, req).node.store;
    assert(t == node.adopt_entries(entries).node.store);
    laws::known_before_new(s, entries, 0);
    assert(laws::consecutive(prev, entries)) by {
        assert forall|k: int| 0 <= k < entries.len() implies (#[trigger] entries[k]).index == prev
            + 1 + k by {
            assert(chain::follows(entries, prev + 1, req.prev_log_term, made, k));
        }
    }
    match state::first_new(s, entries, 0) {
        None => {
            if entries.len() > 0 {
                let last = entries.len() - 1;
                assert(s.term(entries[last].index) == Some(entries[last].term));
                assert(entries[last].index == end_index(req));
            }
            history::store_includes(s, made, end_index(req));
        },
        Some(k) => {
            laws::tail_reaches(prev, entries, k);
            let kept = if s.term(entries[k].index) is Some {
                s.truncate(entries[k].index)
            } else {
                s
            };
            let more = entries.skip(k);
            kept.no_gap(more, 0);
            assert(more[0] == entries[k]);
            assert(t.entries.last() == entries.last());
            assert(t.last_index() == end_index(req));
        },
    }
}

/// A message that is taken, and ends with the snapshot, ends as that does.
pub(crate) proof fn a_known_end(a: NodeState, req: AppendView, made: Set<(EntryView, Term)>)
    requires
        takes(a, req),
        a.store.wf(),
        chain::brings_chain(req, made),
        end_index(req) == a.store.base.last_index,
        end_index(req) > 0,
        req.prev_log_index + req.entries.len() < u64::MAX,
    ensures
        a.store.base.last_term == end_term(req),
{
    reveal(takes);
    let node = a.become_follower(req.term, Some(req.leader_id));
    let (s, entries, prev) = (node.store, req.entries, req.prev_log_index);
    laws::known_before_new(s, entries, 0);
    assert(laws::consecutive(prev, entries)) by {
        assert forall|k: int| 0 <= k < entries.len() implies (#[trigger] entries[k]).index == prev
            + 1 + k by {
            assert(chain::follows(entries, prev + 1, req.prev_log_term, made, k));
        }
    }
    match state::first_new(s, entries, 0) {
        None => {
            if entries.len() > 0 {
                let last = entries.len() - 1;
                assert(s.term(entries[last].index) == Some(entries[last].term));
            }
        },
        Some(k) => {
            laws::tail_reaches(prev, entries, k);
            let kept = if s.term(entries[k].index) is Some {
                s.truncate(entries[k].index)
            } else {
                s
            };
            let more = entries.skip(k);
            kept.no_gap(more, 0);
            assert(more[0] == entries[k]);
            assert(entries[k].index <= s.base.last_index);
        },
    }
}

/// What a message of entries may commit.
pub(crate) proof fn append_commits(a: NodeState, from: NodeId, req: AppendView)
    ensures
        ({
            let b = a.handle_append_entries(from, req).node;
            ||| b.commit_index == a.commit_index
            ||| {
                &&& a.commit_index < b.commit_index <= req.leader_commit
                &&& b.commit_index <= b.store.last_index()
                &&& req.prev_log_term != 0 || req.prev_log_index == 0 ==> takes(a, req)
            }
        }),
        a.handle_append_entries(from, req).node.term() == if req.term > a.term() {
            req.term
        } else {
            a.term()
        },
{
    reveal(takes);
    let node = a.become_follower(req.term, Some(req.leader_id));
    let adopted = node.adopt_entries(req.entries);
    assert(adopted.node.commit_index == a.commit_index);
    assert(adopted.node.store.hs == node.store.hs);
}

// ---- what a snapshot does ----

/// The node takes the snapshot.
pub open spec fn installs(a: NodeState, req: InstallView) -> bool {
    &&& req.term >= a.term()
    &&& req.last_index > a.store.base.last_index
    &&& req.last_index > a.commit_index
}

pub(crate) proof fn install_end(
    a: NodeState,
    from: NodeId,
    req: InstallView,
    made: Set<(EntryView, Term)>,
)
    requires
        chain::loose(a.store, made),
        history::based(a.store, made),
        chain::made_once(made),
        req.last_index < u64::MAX,
    ensures
        ({
            let b = a.handle_install_snapshot(from, req).node;
            let (s, t) = (a.store, b.store);
            if installs(a, req) {
                &&& t.base == (SnapshotMeta { last_index: req.last_index, last_term: req.last_term })
                &&& same_end(s, t) || (ends_with(t, req.last_term, req.last_index)
                    && req.last_index >= s.last_index())
                &&& !chain::grafts(a, req) ==> reaches(made, t, req.last_term, req.last_index)
                &&& b.commit_index == req.last_index
                &&& b.term() == req.term
            } else {
                &&& t.base == s.base
                &&& same_end(s, t)
                &&& b.commit_index == a.commit_index
            }
        }),
{
    let node = a.become_follower(req.term, Some(req.leader_id));
    let b = a.handle_install_snapshot(from, req).node;
    let (s, t) = (a.store, b.store);
    if installs(a, req) {
        let meta = SnapshotMeta { last_index: req.last_index, last_term: req.last_term };
        assert(t == node.store.save(meta, req.data, req.config));
        if req.last_index < s.last_index() {
            assert(t.entries == s.entries.skip(req.last_index - s.base.last_index));
            assert(t.entries.last() == s.entries.last());
            history::store_includes(s, made, req.last_index);
        }
    }
}

/// How far the node now follows the leader that the event comes from, if it
/// takes what the event brings.
pub open spec fn accepts(a: NodeState, event: Event) -> Option<LogIndex> {
    match event {
        Event::Step(_, MessageView::AppendEntries(req)) => if firmly(a, req) {
            Some(end_index(req))
        } else {
            None
        },
        Event::Step(_, MessageView::InstallSnapshot(req)) => if installs(a, req) && !chain::grafts(
            a,
            req,
        ) {
            Some(req.last_index)
        } else {
            None
        },
        _ => None,
    }
}

// ---- what a move does ----

/// A node that was started again over what it had stored.
pub open spec fn starts_again(a: NodeState, b: NodeState) -> bool {
    &&& b.store == a.store
    &&& b.role == Role::Follower
    &&& b.commit_index == a.store.base.last_index
}

/// The node wrote an entry of its own.
pub open spec fn writes(a: NodeState, b: NodeState) -> bool {
    &&& moves::leads(a, b)
    &&& b.store.base == a.store.base
    &&& b.store.entries == a.store.entries.push(moves::own_entry(a, b))
    &&& ends_with(b.store, b.term(), (a.store.last_index() + 1) as u64)
}

/// The snapshot covers more of what the node had committed.
pub open spec fn covers(a: NodeState, t: Durable) -> bool {
    &&& a.store.base.last_index < t.base.last_index <= a.store.last_index()
    &&& t.base.last_index <= a.commit_index
    &&& a.store.term(t.base.last_index) == Some(t.base.last_term)
}

/// What a move does to the end of the log, to the snapshot and to what is
/// committed.
pub open spec fn end_step(
    made: Set<(EntryView, Term)>,
    a: NodeState,
    event: Event,
    b: NodeState,
) -> bool {
    let (s, t) = (a.store, b.store);
    match event {
        Event::Step(_, MessageView::AppendEntries(req)) => {
            &&& merges(made, s, req, t)
            &&& req.term < a.term() ==> t == s
            &&& req.term >= a.term() ==> b.term() == req.term
            &&& firmly(a, req) ==> reaches(made, t, end_term(req), end_index(req))
            &&& takes(a, req) ==> req.term >= a.term()
            &&& b.commit_index == a.commit_index || {
                &&& a.commit_index < b.commit_index <= req.leader_commit
                &&& b.commit_index <= t.last_index()
                &&& req.prev_log_term != 0 || req.prev_log_index == 0 ==> takes(a, req)
            }
        },
        Event::Step(_, MessageView::InstallSnapshot(req)) => if installs(a, req) {
            &&& t.base == (SnapshotMeta { last_index: req.last_index, last_term: req.last_term })
            &&& same_end(s, t) || (ends_with(t, req.last_term, req.last_index) && req.last_index
                >= s.last_index())
            &&& !chain::grafts(a, req) ==> reaches(made, t, req.last_term, req.last_index)
            &&& b.commit_index == req.last_index
            &&& b.term() == req.term
        } else {
            &&& t.base == s.base
            &&& same_end(s, t)
            &&& b.commit_index == a.commit_index
        },
        _ => {
            &&& history::based(t, made)
            &&& same_end(s, t) || writes(a, b)
            &&& t.base == s.base || covers(a, t)
            &&& moves::commit_step(a, b) || starts_again(a, b)
        },
    }
}

/// If the event brought a log, whatever is new in the outbox has nothing to do
/// with the log, and the node follows, or has changed nothing.
pub open spec fn answers(a: NodeState, event: Event, b: NodeState) -> bool {
    cluster::brings_log(event) ==> {
        &&& forall|x: (NodeId, MessageView)| #[trigger]
            b.outbox.contains(x) ==> a.outbox.contains(x) || moves::log_reply(event, x)
        &&& b.role == Role::Follower || b == (NodeState { outbox: b.outbox, ..a })
    }
}

/// The only entry that a move makes is the node's own, behind the end of its
/// log.
pub open spec fn made_step(a: NodeState, b: NodeState, more: Set<(EntryView, Term)>) -> bool {
    forall|x: (EntryView, Term)| #[trigger]
        more.contains(x) ==> {
            &&& writes(a, b)
            &&& x == (moves::own_entry(a, b), a.store.term_or_zero(a.store.last_index()))
        }
}

/// Everything that a move does.
pub open spec fn full_step(
    made: Set<(EntryView, Term)>,
    a: NodeState,
    event: Event,
    b: NodeState,
    more: Set<(EntryView, Term)>,
) -> bool {
    &&& end_step(made, a, event, b)
    &&& answers(a, event, b)
    &&& moves::vote_step(a, event, b)
    &&& !cluster::brings_log(event) ==> moves::aim_step(a, event, b)
    &&& made_step(a, b, more)
    &&& cluster::brings_log(event) ==> more == Set::<(EntryView, Term)>::empty()
    &&& chain::loose(a.store, made)
    &&& history::based(a.store, made)
    &&& a.store.last_index() < u64::MAX - 1 || more == Set::<(EntryView, Term)>::empty()
}

/// What a node writes.
pub(crate) proof fn quiet_makes(a: NodeState, event: Event, b: NodeState)
    requires
        moves::log_step(a, b),
        !cluster::brings_log(event),
        a.store.wf(),
        a.store.last_index() < u64::MAX - 1,
    ensures
        made_step(a, b, cluster::written(a, event, b)),
{
    quiet_end(a, b);
    let more = cluster::written(a, event, b);
    assert forall|x: (EntryView, Term)| #[trigger] more.contains(x) implies writes(a, b) && x == (
        moves::own_entry(a, b),
        a.store.term_or_zero(a.store.last_index()),
    ) by {
        assert(b.store.at(b.store.last_index()) == b.store.entries.last());
    }
}

pub(crate) proof fn a_quiet_move(a: NodeState, event: Event, made: Set<(EntryView, Term)>)
    requires
        a.admits(event),
        !cluster::brings_log(event),
        chain::loose(a.store, made),
        history::based(a.store, made),
    ensures
        ({
            let b = cluster::outcome(a, event);
            full_step(made, a, event, b, cluster::written(a, event, b))
        }),
{
    let b = cluster::outcome(a, event);
    events::a_quiet_step(a, event);
    reveal(moves::quiet_step);
    quiet_end(a, b);
    quiet_base(a, b, made);
    quiet_makes(a, event, b);
}

pub(crate) proof fn a_bringing_move(a: NodeState, event: Event, made: Set<(EntryView, Term)>)
    requires
        a.admits(event),
        cluster::brings_log(event),
        chain::loose(a.store, made),
        history::based(a.store, made),
        chain::made_once(made),
        event matches Event::Step(_, MessageView::AppendEntries(req)) ==> fits(a, req, made),
    ensures
        full_step(made, a, event, cluster::outcome(a, event), Set::empty()),
{
    let b = cluster::outcome(a, event);
    bringing::a_bringing_step(a, event);
    reveal(bringing::bringing_step);
    reveal(cluster::outcome);
    match event {
        Event::Step(from, MessageView::AppendEntries(req)) => append_move(a, from, req, made),
        Event::Step(from, MessageView::InstallSnapshot(req)) => {
            install_end(a, from, req, made);
        },
        _ => {},
    }
}

/// The message brings a chain, and does not touch the snapshot unless the log
/// follows from that.
pub(crate) open spec fn fits(
    a: NodeState,
    req: AppendView,
    made: Set<(EntryView, Term)>,
) -> bool {
    &&& chain::brings_chain(req, made)
    &&& req.term >= a.term() && undercuts(a.store, req) ==> chain::chained(a.store, made)
    &&& firmly(a, req) && end_index(req) == a.store.base.last_index ==> chain::chained(
        a.store,
        made,
    )
}

proof fn append_move(a: NodeState, from: NodeId, req: AppendView, made: Set<(EntryView, Term)>)
    requires
        chain::loose(a.store, made),
        history::based(a.store, made),
        chain::made_once(made),
        fits(a, req, made),
        a.store.last_index() + req.entries.len() < u64::MAX,
    ensures
        end_step(
            made,
            a,
            Event::Step(from, MessageView::AppendEntries(req)),
            a.handle_append_entries(from, req).node,
        ),
{
    append_end(a, from, req, made);
    append_commits(a, from, req);
    if takes(a, req) {
        assert(req.term >= a.term()) by {
            reveal(takes);
        }
        if firmly(a, req) {
            taken_is_held(a, from, req, made);
        }
    }
}

} // verus!
