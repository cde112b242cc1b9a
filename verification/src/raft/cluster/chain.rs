//! Logs as chains: every entry hangs on the one before it.

use vstd::prelude::*;

use crate::raft::cluster;
use crate::raft::cluster::moves;
use crate::raft::node::laws::{self, Event};
use crate::raft::node::state::{self, NodeState};
use crate::raft::rpc::{AppendView, InstallView, MessageView};
use crate::raft::storage::Durable;
use crate::raft::types::{EntryView, LogIndex, NodeId, SnapshotMeta, Term};

verus! {

/// The entry at `i` was made, behind an entry of the term that stands before
/// it in the log.
pub open spec fn linked(s: Durable, made: Set<(EntryView, Term)>, i: LogIndex) -> bool {
    made.contains((s.at(i), s.term_or_zero((i - 1) as u64)))
}

/// Every entry of the log is linked to the one before it.
pub open spec fn chained(s: Durable, made: Set<(EntryView, Term)>) -> bool {
    &&& s.wf()
    &&& forall|i: LogIndex| s.holds(i) ==> #[trigger] linked(s, made, i)
}

/// The entry at `i` was made; unless it is the first behind the snapshot, behind
/// an entry of the term that stands before it.
pub open spec fn hangs(s: Durable, made: Set<(EntryView, Term)>, i: LogIndex) -> bool {
    if i == s.base.last_index + 1 {
        exists|before: Term| #[trigger] made.contains((s.at(i), before))
    } else {
        linked(s, made, i)
    }
}

/// Every entry of the log is linked to the one before it, but for the first
/// behind the snapshot, which need not follow from that.
pub open spec fn loose(s: Durable, made: Set<(EntryView, Term)>) -> bool {
    &&& s.wf()
    &&& forall|i: LogIndex| s.holds(i) ==> #[trigger] hangs(s, made, i)
}

/// A chain is one loosely, too; and one that hangs on its snapshot is a chain.
pub(crate) proof fn loosely(s: Durable, made: Set<(EntryView, Term)>)
    ensures
        chained(s, made) ==> loose(s, made),
        loose(s, made) && (s.entries.len() > 0 ==> linked(
            s,
            made,
            (s.base.last_index + 1) as u64,
        )) ==> chained(s, made),
{
    if chained(s, made) {
        assert forall|i: LogIndex| s.holds(i) implies #[trigger] hangs(s, made, i) by {
            assert(linked(s, made, i));
        }
    }
    if loose(s, made) && (s.entries.len() > 0 ==> linked(
        s,
        made,
        (s.base.last_index + 1) as u64,
    )) {
        assert forall|i: LogIndex| s.holds(i) implies #[trigger] linked(s, made, i) by {
            assert(hangs(s, made, i));
        }
    }
}

/// Growing `made` loosens nothing.
pub(crate) proof fn stays_loose(
    s: Durable,
    t: Durable,
    made: Set<(EntryView, Term)>,
    more: Set<(EntryView, Term)>,
)
    requires
        loose(s, made),
        t.base == s.base,
        t.entries == s.entries,
    ensures
        loose(t, made.union(more)),
{
    let all = made.union(more);
    assert forall|i: LogIndex| t.holds(i) implies #[trigger] hangs(t, all, i) by {
        assert(hangs(s, made, i));
        if i == s.base.last_index + 1 {
            let before = choose|before: Term| #[trigger] made.contains((s.at(i), before));
            assert(all.contains((t.at(i), before)));
        }
    }
}

proof fn cut_loose(s: Durable, index: LogIndex, made: Set<(EntryView, Term)>)
    requires
        loose(s, made),
    ensures
        loose(s.truncate(index), made),
{
    let t = s.truncate(index);
    assert forall|i: LogIndex| t.holds(i) implies #[trigger] hangs(t, made, i) by {
        assert(hangs(s, made, i));
        assert(t.at(i) == s.at(i));
    }
}

proof fn longer_loose(s: Durable, more: Seq<EntryView>, made: Set<(EntryView, Term)>)
    requires
        loose(s, made),
        continues(s, more, made),
        s.last_index() + more.len() < u64::MAX,
    ensures
        loose(s.append(more), made),
{
    let t = s.append(more);
    let len = s.entries.len();
    let (start, before) = (s.last_index() + 1, s.term_or_zero(s.last_index()));
    assert forall|i: int| 0 <= i < t.entries.len() implies (#[trigger] t.entries[i]).index
        == t.base.last_index + 1 + i by {
        if i < len {
            assert(t.entries[i] == s.entries[i]);
        } else {
            assert(follows(more, start, before, made, i - len));
        }
    }
    assert forall|i: LogIndex| t.holds(i) implies #[trigger] hangs(t, made, i) by {
        let k = i - s.base.last_index - 1;
        if k < len {
            assert(hangs(s, made, i));
            assert(t.at(i) == s.at(i));
            same_term(s, t, (i - 1) as u64);
        } else {
            assert(follows(more, start, before, made, k - len));
            if k == len {
                same_term(s, t, (i - 1) as u64);
            }
            assert(linked(t, made, i));
        }
    }
}

/// What stands behind a snapshot that is moved up hangs on it loosely.
proof fn shorter_loose(s: Durable, t: Durable, made: Set<(EntryView, Term)>)
    requires
        loose(s, made),
        s.base.last_index < t.base.last_index <= s.last_index(),
        t.entries == s.entries.skip(t.base.last_index - s.base.last_index),
    ensures
        loose(t, made),
        s.term(t.base.last_index) == Some(t.base.last_term) ==> chained(t, made),
{
    let cut = t.base.last_index - s.base.last_index;
    assert forall|i: int| 0 <= i < t.entries.len() implies (#[trigger] t.entries[i]).index
        == t.base.last_index + 1 + i by {
        assert(t.entries[i] == s.entries[i + cut]);
    }
    assert forall|i: LogIndex| t.holds(i) implies #[trigger] hangs(t, made, i) by {
        assert(hangs(s, made, i));
        assert(t.at(i) == s.at(i));
        assert(made.contains((t.at(i), s.term_or_zero((i - 1) as u64))));
        if i - 1 > t.base.last_index {
            assert(t.at((i - 1) as u64) == s.at((i - 1) as u64));
        }
    }
    if s.term(t.base.last_index) == Some(t.base.last_term) {
        let first = (t.base.last_index + 1) as u64;
        if t.entries.len() > 0 {
            assert(t.holds(first));
            assert(hangs(s, made, first));
            assert(t.at(first) == s.at(first));
        }
        loosely(t, made);
    }
}

/// The entry at position `k` stands at its index, and was made behind the one
/// before it; the first behind an entry of term `before`.
pub open spec fn follows(
    entries: Seq<EntryView>,
    start: int,
    before: Term,
    made: Set<(EntryView, Term)>,
    k: int,
) -> bool {
    &&& entries[k].index == start + k
    &&& made.contains(
        (
            entries[k],
            if k == 0 {
                before
            } else {
                entries[k - 1].term
            },
        ),
    )
}

/// Entries that hang one on the other.
pub open spec fn chain_of(
    entries: Seq<EntryView>,
    start: int,
    before: Term,
    made: Set<(EntryView, Term)>,
) -> bool {
    forall|k: int|
        0 <= k < entries.len() ==> #[trigger] follows(entries, start, before, made, k)
}

/// A message brings a chain.
pub open spec fn brings_chain(req: AppendView, made: Set<(EntryView, Term)>) -> bool {
    chain_of(req.entries, req.prev_log_index + 1, req.prev_log_term, made)
}

/// An entry is made once: by its term and index it is known, with all that is
/// in it and the term of the one before it.
pub open spec fn made_once(made: Set<(EntryView, Term)>) -> bool {
    forall|x: (EntryView, Term), y: (EntryView, Term)| #[trigger]
        made.contains(x) && #[trigger] made.contains(y) && x.0.term == y.0.term && x.0.index
            == y.0.index ==> x == y
}

/// Two chained logs that agree on the term at one index agree on everything up
/// to it that both hold.
pub proof fn chains_match(
    s: Durable,
    t: Durable,
    made: Set<(EntryView, Term)>,
    i: LogIndex,
    j: LogIndex,
)
    requires
        chained(s, made),
        chained(t, made),
        made_once(made),
        s.holds(i),
        t.holds(i),
        s.at(i).term == t.at(i).term,
        s.holds(j),
        t.holds(j),
        j <= i,
    ensures
        s.at(j) == t.at(j),
    decreases i - j,
{
    let (x, y) = (
        (s.at(i), s.term_or_zero((i - 1) as u64)),
        (t.at(i), t.term_or_zero((i - 1) as u64)),
    );
    assert(linked(s, made, i) && linked(t, made, i));
    assert(x == y);
    if j < i {
        let k = (i - 1) as u64;
        assert(s.holds(k) && t.holds(k));
        chains_match(s, t, made, k, j);
    }
}

/// Growing `made` unlinks nothing.
pub(crate) proof fn chains_stay(
    s: Durable,
    t: Durable,
    made: Set<(EntryView, Term)>,
    more: Set<(EntryView, Term)>,
)
    requires
        chained(s, made),
        t.base == s.base,
        t.entries == s.entries,
    ensures
        chained(t, made.union(more)),
{
    assert forall|i: LogIndex| t.holds(i) implies #[trigger] linked(t, made.union(more), i) by {
        assert(linked(s, made, i));
    }
}

pub(crate) proof fn messages_stay(
    req: AppendView,
    made: Set<(EntryView, Term)>,
    more: Set<(EntryView, Term)>,
)
    requires
        brings_chain(req, made),
    ensures
        brings_chain(req, made.union(more)),
{
    let (entries, start, before) = (req.entries, req.prev_log_index + 1, req.prev_log_term);
    assert forall|k: int| 0 <= k < entries.len() implies #[trigger] follows(
        entries,
        start,
        before,
        made.union(more),
        k,
    ) by {
        assert(follows(entries, start, before, made, k));
    }
}

proof fn cut_chain(s: Durable, index: LogIndex, made: Set<(EntryView, Term)>)
    requires
        chained(s, made),
    ensures
        chained(s.truncate(index), made),
{
    let t = s.truncate(index);
    assert forall|i: LogIndex| t.holds(i) implies #[trigger] linked(t, made, i) by {
        assert(linked(s, made, i));
    }
}

/// Entries that hang on the last of the log, one behind the other.
pub open spec fn continues(s: Durable, more: Seq<EntryView>, made: Set<(EntryView, Term)>) -> bool {
    chain_of(more, s.last_index() + 1, s.term_or_zero(s.last_index()), made)
}

proof fn longer_chain(s: Durable, more: Seq<EntryView>, made: Set<(EntryView, Term)>)
    requires
        chained(s, made),
        continues(s, more, made),
        s.last_index() + more.len() < u64::MAX,
    ensures
        chained(s.append(more), made),
{
    let t = s.append(more);
    let len = s.entries.len();
    let (start, before) = (s.last_index() + 1, s.term_or_zero(s.last_index()));
    assert forall|i: int| 0 <= i < t.entries.len() implies (#[trigger] t.entries[i]).index
        == t.base.last_index + 1 + i by {
        if i < len {
            assert(t.entries[i] == s.entries[i]);
        } else {
            assert(follows(more, start, before, made, i - len));
        }
    }
    assert forall|i: LogIndex| t.holds(i) implies #[trigger] linked(t, made, i) by {
        let k = i - s.base.last_index - 1;
        if k < len {
            assert(linked(s, made, i));
            same_term(s, t, (i - 1) as u64);
        } else {
            assert(follows(more, start, before, made, k - len));
            if k == len {
                same_term(s, t, (i - 1) as u64);
            }
        }
    }
}

/// Behind the snapshot and up to the end of the shorter log, terms are the same.
proof fn same_term(s: Durable, t: Durable, i: LogIndex)
    requires
        t.base == s.base,
        s.entries.len() <= t.entries.len(),
        forall|j: int| 0 <= j < s.entries.len() ==> s.entries[j] == #[trigger] t.entries[j],
        s.base.last_index <= i <= s.base.last_index + s.entries.len(),
    ensures
        s.term_or_zero(i) == t.term_or_zero(i),
{
    if s.holds(i) {
        assert(t.entries[i - s.base.last_index - 1] == s.entries[i - s.base.last_index - 1]);
    }
}

proof fn shorter_chain(s: Durable, t: Durable, made: Set<(EntryView, Term)>)
    requires
        chained(s, made),
        s.base.last_index < t.base.last_index <= s.last_index(),
        s.term(t.base.last_index) == Some(t.base.last_term),
        t.entries == s.entries.skip(t.base.last_index - s.base.last_index),
    ensures
        chained(t, made),
{
    let cut = t.base.last_index - s.base.last_index;
    assert forall|i: int| 0 <= i < t.entries.len() implies (#[trigger] t.entries[i]).index
        == t.base.last_index + 1 + i by {
        assert(t.entries[i] == s.entries[i + cut]);
    }
    assert forall|i: LogIndex| t.holds(i) implies #[trigger] linked(t, made, i) by {
        assert(linked(s, made, i));
        assert(t.at(i) == s.at(i));
        if i - 1 > t.base.last_index {
            assert(t.at((i - 1) as u64) == s.at((i - 1) as u64));
        }
    }
}

/// What a node does to its own log keeps it a chain.
pub(crate) proof fn quiet_chain(
    a: NodeState,
    event: Event,
    b: NodeState,
    made: Set<(EntryView, Term)>,
)
    requires
        moves::log_step(a, b),
        !cluster::brings_log(event),
        chained(a.store, made),
        a.store.last_index() < u64::MAX - 1,
    ensures
        chained(b.store, made.union(cluster::written(a, event, b))),
        b.store.last_index() >= a.store.last_index(),
{
    let (s, t) = (a.store, b.store);
    let more = cluster::written(a, event, b);
    let all = made.union(more);
    if t.base == s.base && t.entries == s.entries {
        chains_stay(s, t, made, more);
    } else if t.base == s.base {
        let e = moves::own_entry(a, b);
        let u = s.append(seq![e]);
        assert(u.entries =~= t.entries);
        assert(t.last_index() == s.last_index() + 1);
        assert(t.at(t.last_index()) == e);
        assert(more.contains((e, s.term_or_zero(s.last_index()))));
        chains_stay(s, s, made, more);
        assert(continues(s, seq![e], all)) by {
            assert forall|k: int| 0 <= k < seq![e].len() implies #[trigger] follows(
                seq![e],
                s.last_index() + 1,
                s.term_or_zero(s.last_index()),
                all,
                k,
            ) by {
                assert(seq![e][k] == e);
            }
        }
        longer_chain(s, seq![e], all);
        chains_stay(u, t, all, Set::empty());
        assert(all.union(Set::empty()) =~= all);
    } else {
        shorter_chain(s, t, made);
        chains_stay(t, t, made, more);
    }
}

/// Taking the entries of a message keeps the log a chain.
proof fn adopted_chain(node: NodeState, req: AppendView, made: Set<(EntryView, Term)>)
    requires
        chained(node.store, made),
        brings_chain(req, made),
        req.prev_log_index <= node.store.last_index(),
        node.store.term_or_zero(req.prev_log_index) == req.prev_log_term,
        node.store.last_index() + req.entries.len() < u64::MAX,
    ensures
        chained(node.adopt_entries(req.entries).node.store, made),
{
    let (s, entries, prev) = (node.store, req.entries, req.prev_log_index);
    laws::known_before_new(s, entries, 0);
    assert(laws::consecutive(prev, entries)) by {
        assert forall|k: int| 0 <= k < entries.len() implies (#[trigger] entries[k]).index == prev
            + 1 + k by {
            assert(follows(entries, prev + 1, req.prev_log_term, made, k));
        }
    }
    match state::first_new(s, entries, 0) {
        None => {},
        Some(k) => {
            let index = entries[k].index;
            let more = entries.skip(k);
            laws::tail_reaches(prev, entries, k);
            let kept = if s.term(index) is Some {
                s.truncate(index)
            } else {
                s
            };
            cut_chain(s, index, made);
            kept.no_gap(more, 0);
            assert(more[0] == entries[k]);
            if kept.append_fault(more) is None {
                assert(more[0].index == kept.last_index() + 1);
                joins(s, req, made, k);
                longer_chain(kept, more, made);
            }
        },
    }
}

/// The entries from the first new one on hang on what is kept of the log.
proof fn joins(s: Durable, req: AppendView, made: Set<(EntryView, Term)>, k: int)
    requires
        s.wf(),
        brings_chain(req, made),
        req.prev_log_index <= s.last_index(),
        s.term_or_zero(req.prev_log_index) == req.prev_log_term,
        state::first_new(s, req.entries, 0) == Some(k),
        ({
            let kept = if s.term(req.entries[k].index) is Some {
                s.truncate(req.entries[k].index)
            } else {
                s
            };
            req.entries[k].index == kept.last_index() + 1
        }),
    ensures
        ({
            let kept = if s.term(req.entries[k].index) is Some {
                s.truncate(req.entries[k].index)
            } else {
                s
            };
            continues(kept, req.entries.skip(k), made)
        }),
{
    let (entries, prev) = (req.entries, req.prev_log_index);
    laws::known_before_new(s, entries, 0);
    let index = entries[k].index;
    let more = entries.skip(k);
    let kept = if s.term(index) is Some {
        s.truncate(index)
    } else {
        s
    };
    assert(follows(entries, prev + 1, req.prev_log_term, made, k));
    let before = (index - 1) as u64;
    same_term(kept, s, before);
    assert(s.term_or_zero(before) == if k == 0 {
        req.prev_log_term
    } else {
        entries[k - 1].term
    }) by {
        if k > 0 {
            assert(follows(entries, prev + 1, req.prev_log_term, made, k - 1));
            assert(s.term(entries[k - 1].index) == Some(entries[k - 1].term));
        }
    }
    assert forall|j: int| 0 <= j < more.len() implies #[trigger] follows(
        more,
        kept.last_index() + 1,
        kept.term_or_zero(kept.last_index()),
        made,
        j,
    ) by {
        assert(follows(entries, prev + 1, req.prev_log_term, made, k + j));
        assert(more[j] == entries[k + j]);
        if j > 0 {
            assert(more[j - 1] == entries[k + j - 1]);
        }
    }
}

pub(crate) proof fn append_chain(
    a: NodeState,
    from: NodeId,
    req: AppendView,
    made: Set<(EntryView, Term)>,
)
    requires
        chained(a.store, made),
        brings_chain(req, made),
        a.store.last_index() + req.entries.len() < u64::MAX,
    ensures
        chained(a.handle_append_entries(from, req).node.store, made),
{
    let node = a.become_follower(req.term, Some(req.leader_id));
    chains_stay(a.store, node.store, made, Set::empty());
    assert(made.union(Set::empty()) =~= made);
    if req.term >= a.term() && req.prev_log_index <= node.store.last_index()
        && node.store.term_or_zero(req.prev_log_index) == req.prev_log_term {
        adopted_chain(node, req, made);
    }
}

/// Taking the entries of a message keeps the log loosely a chain.
proof fn adopted_loose(node: NodeState, req: AppendView, made: Set<(EntryView, Term)>)
    requires
        loose(node.store, made),
        brings_chain(req, made),
        req.prev_log_index <= node.store.last_index(),
        node.store.term_or_zero(req.prev_log_index) == req.prev_log_term,
        node.store.last_index() + req.entries.len() < u64::MAX,
    ensures
        loose(node.adopt_entries(req.entries).node.store, made),
{
    let (s, entries, prev) = (node.store, req.entries, req.prev_log_index);
    laws::known_before_new(s, entries, 0);
    assert(laws::consecutive(prev, entries)) by {
        assert forall|k: int| 0 <= k < entries.len() implies (#[trigger] entries[k]).index == prev
            + 1 + k by {
            assert(follows(entries, prev + 1, req.prev_log_term, made, k));
        }
    }
    match state::first_new(s, entries, 0) {
        None => {},
        Some(k) => {
            let index = entries[k].index;
            let more = entries.skip(k);
            laws::tail_reaches(prev, entries, k);
            let kept = if s.term(index) is Some {
                s.truncate(index)
            } else {
                s
            };
            cut_loose(s, index, made);
            kept.no_gap(more, 0);
            assert(more[0] == entries[k]);
            if kept.append_fault(more) is None {
                assert(more[0].index == kept.last_index() + 1);
                joins(s, req, made, k);
                longer_loose(kept, more, made);
            }
        },
    }
}

pub(crate) proof fn append_loose(
    a: NodeState,
    from: NodeId,
    req: AppendView,
    made: Set<(EntryView, Term)>,
)
    requires
        loose(a.store, made),
        brings_chain(req, made),
        a.store.last_index() + req.entries.len() < u64::MAX,
    ensures
        loose(a.handle_append_entries(from, req).node.store, made),
{
    let node = a.become_follower(req.term, Some(req.leader_id));
    stays_loose(a.store, node.store, made, Set::empty());
    assert(made.union(Set::empty()) =~= made);
    if req.term >= a.term() && req.prev_log_index <= node.store.last_index()
        && node.store.term_or_zero(req.prev_log_index) == req.prev_log_term {
        adopted_loose(node, req, made);
    }
}

/// Whatever snapshot is put in place, what stays behind it is loosely a chain.
pub(crate) proof fn install_loose(
    a: NodeState,
    from: NodeId,
    req: InstallView,
    made: Set<(EntryView, Term)>,
)
    requires
        loose(a.store, made),
        req.last_index < u64::MAX,
    ensures
        loose(a.handle_install_snapshot(from, req).node.store, made),
{
    let node = a.become_follower(req.term, Some(req.leader_id));
    stays_loose(a.store, node.store, made, Set::empty());
    assert(made.union(Set::empty()) =~= made);
    let meta = SnapshotMeta { last_index: req.last_index, last_term: req.last_term };
    let t = node.store.save(meta, req.data, req.config);
    if req.term >= a.term() && req.last_index > node.store.base.last_index && req.last_index
        > node.commit_index && req.last_index < node.store.last_index() {
        shorter_loose(node.store, t, made);
    }
}

/// What a node does to its own log keeps it loosely a chain, if it writes
/// nothing.
pub(crate) proof fn quiet_loose(
    a: NodeState,
    event: Event,
    b: NodeState,
    made: Set<(EntryView, Term)>,
)
    requires
        moves::log_step(a, b),
        !moves::leads(a, b),
        loose(a.store, made),
    ensures
        loose(b.store, made.union(cluster::written(a, event, b))),
        cluster::written(a, event, b) == Set::<(EntryView, Term)>::empty(),
{
    let more = cluster::written(a, event, b);
    if b.store.base == a.store.base {
        stays_loose(a.store, b.store, made, more);
    } else {
        shorter_loose(a.store, b.store, made);
        stays_loose(b.store, b.store, made, more);
    }
    assert(b.store.last_index() == a.store.last_index());
}

/// A snapshot that would be put under entries that do not follow from it.
pub open spec fn grafts(node: NodeState, req: InstallView) -> bool {
    &&& req.term >= node.term()
    &&& node.commit_index < req.last_index
    &&& node.store.base.last_index < req.last_index < node.store.last_index()
    &&& node.store.term(req.last_index) != Some(req.last_term)
}

pub(crate) proof fn install_chain(
    a: NodeState,
    from: NodeId,
    req: InstallView,
    made: Set<(EntryView, Term)>,
)
    requires
        chained(a.store, made),
        !grafts(a, req),
        req.last_index < u64::MAX,
    ensures
        chained(a.handle_install_snapshot(from, req).node.store, made),
{
    let node = a.become_follower(req.term, Some(req.leader_id));
    chains_stay(a.store, node.store, made, Set::empty());
    assert(made.union(Set::empty()) =~= made);
    let meta = SnapshotMeta { last_index: req.last_index, last_term: req.last_term };
    let t = node.store.save(meta, req.data, req.config);
    if req.term >= a.term() && req.last_index > node.store.base.last_index && req.last_index
        > node.commit_index && req.last_index < node.store.last_index() {
        shorter_chain(node.store, t, made);
    }
}

/// What a leader hands on is a chain.
pub(crate) proof fn handed_chain(
    s: Durable,
    req: AppendView,
    commit: LogIndex,
    made: Set<(EntryView, Term)>,
)
    requires
        chained(s, made),
        moves::hands_on(s, commit, MessageView::AppendEntries(req)),
    ensures
        brings_chain(req, made),
{
    let next = (req.prev_log_index + 1) as u64;
    let (entries, start, before) = (req.entries, req.prev_log_index + 1, req.prev_log_term);
    assert forall|k: int| 0 <= k < entries.len() implies #[trigger] follows(
        entries,
        start,
        before,
        made,
        k,
    ) by {
        let i = (next + k) as u64;
        assert(linked(s, made, i));
        assert(entries[k] == s.at(i));
        if k > 0 {
            assert(entries[k - 1] == s.at((i - 1) as u64));
        }
    }
}

} // verus!
