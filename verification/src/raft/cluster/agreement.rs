//! No two nodes commit different entries at one index.

use vstd::prelude::*;

use crate::raft::cluster;
use crate::raft::cluster::aims;
use crate::raft::cluster::answers;
use crate::raft::cluster::chain;
use crate::raft::cluster::completeness;
use crate::raft::cluster::election;
use crate::raft::cluster::ends;
use crate::raft::cluster::events;
use crate::raft::cluster::histories;
use crate::raft::cluster::history;
use crate::raft::cluster::keeping;
use crate::raft::cluster::matching;
use crate::raft::cluster::moves;
use crate::raft::cluster::origins;
use crate::raft::cluster::runs;
use crate::raft::cluster::{Cluster, Move};
use crate::raft::node::laws::Event;
use crate::raft::node::quorum_laws;
use crate::raft::node::state::{self, NodeState, Role};
use crate::raft::rpc::{AppendView, InstallView, MessageView};
use crate::raft::storage::Durable;
use crate::raft::types::{EntryView, LogIndex, NodeId, Term};

verus! {

// ---- what leaders decide ----

/// What a leader commits by a move: up to which of its own entries, and by which
/// membership.
pub open spec fn decides(a: NodeState, move_: Move, b: NodeState) -> Set<
    (Term, LogIndex, Set<NodeId>),
> {
    match move_ {
        Move::Happens(event) => if !cluster::brings_log(event) && b.commit_index > a.commit_index {
            Set::empty().insert((b.term(), b.commit_index, b.voters))
        } else {
            Set::empty()
        },
        Move::Restarts => Set::empty(),
    }
}

/// What leaders committed in a run.
pub open spec fn decided(start: Cluster, run: Seq<(NodeId, Move)>) -> Set<
    (Term, LogIndex, Set<NodeId>),
>
    decreases run.len(),
{
    if run.len() == 0 {
        Set::empty()
    } else {
        let c = cluster::reached(start, run.drop_last());
        let (n, move_) = run.last();
        decided(start, run.drop_last()).union(decides(c.nodes[n], move_, c.next_node(n, move_)))
    }
}

/// Memberships change step by step: each leader is elected over one that is next
/// to the one by which each entry that was committed in an earlier term, or one
/// behind it, was committed.
pub open spec fn changes_step_by_step(start: Cluster, run: Seq<(NodeId, Move)>) -> bool {
    completeness::hangs_together(
        cluster::reached(start, run).made,
        cluster::reached(start, run).led,
        decided(start, run),
    )
}

/// A run that can happen, in which leaders of one term are elected over
/// memberships that are the same or differ by one voter, what leaders count on is
/// so, and memberships change step by step.
pub open spec fn fair(start: Cluster, run: Seq<(NodeId, Move)>) -> bool {
    &&& cluster::possible(start, run)
    &&& matching::steady(cluster::reached(start, run))
    &&& aims::credited_run(start, run)
    &&& changes_step_by_step(start, run)
}

/// What a leader commits a majority held.
proof fn a_decision_is_settled(
    c: Cluster,
    n: NodeId,
    event: Event,
    b: NodeState,
    more: Set<(EntryView, Term)>,
    seen: Set<(NodeId, Term, LogIndex)>,
)
    requires
        c.nodes.contains_key(n),
        election::elections_hold(c),
        origins::origins_hold(c.with_node(n, b, more)),
        b.config == c.nodes[n].config,
        aims::credited(
            n,
            c.nodes[n],
            b,
            seen.union(completeness::gains(n, c.nodes[n], event, b)),
        ),
        moves::commit_step(c.nodes[n], b),
        b.commit_index > c.nodes[n].commit_index,
    ensures
        completeness::settled(
            c.with_node(n, b, more).made,
            seen.union(completeness::gains(n, c.nodes[n], event, b)),
            b.voters,
            b.term(),
            b.commit_index,
        ),
{
    let (a, d, s, voters) = (c.nodes[n], c.with_node(n, b, more), b.store, b.voters);
    let now = seen.union(completeness::gains(n, a, event, b));
    let (term, commit) = (b.term(), b.commit_index);
    assert(d.nodes.contains_key(n) && d.nodes[n] == b);
    assert(origins::stands(b, d.made));
    election::names_hold(c, n);
    assert(history::was_made(d.made, term, commit)) by {
        if commit != s.base.last_index {
            let e = s.entries[commit - s.base.last_index - 1];
            assert(origins::stems(e, term, d.made));
            let before = choose|before: Term| #[trigger] d.made.contains((e, before));
            assert(d.made.contains((e, before)));
        }
    }
    let held = state::holding(b.match_index, commit as nat);
    let group = voters.filter(held);
    assert(quorum_laws::is_majority(group, voters));
    assert forall|p: NodeId| #[trigger] group.contains(p) implies completeness::vouched(
        now,
        p,
        term,
        commit,
    ) by {
        assert(voters.contains(p) && b.matched(p) >= commit);
        if p == n {
            assert(completeness::gains(n, a, event, b).contains((n, term, s.last_index())));
            assert(now.contains((n, term, s.last_index())));
        } else {
            assert(completeness::vouched(now, p, term, b.matched(p)));
            let j = choose|j: LogIndex| #[trigger]
                now.contains((p, term, j)) && j >= b.matched(p);
            assert(now.contains((p, term, j)));
        }
    }
}

proof fn settled_stays(
    made: Set<(EntryView, Term)>,
    seen: Set<(NodeId, Term, LogIndex)>,
    later: Set<(EntryView, Term)>,
    now: Set<(NodeId, Term, LogIndex)>,
    voters: Set<NodeId>,
    term: Term,
    index: LogIndex,
)
    requires
        made.subset_of(later),
        seen.subset_of(now),
        completeness::settled(made, seen, voters, term, index),
    ensures
        completeness::settled(later, now, voters, term, index),
{
    history::rooted_stays(made, later, term, index);
    let group = choose|group: Set<NodeId>| #[trigger]
        quorum_laws::is_majority(group, voters) && forall|p: NodeId| #[trigger]
            group.contains(p) ==> completeness::vouched(seen, p, term, index);
    assert forall|p: NodeId| #[trigger] group.contains(p) implies completeness::vouched(
        now,
        p,
        term,
        index,
    ) by {
        assert(completeness::vouched(seen, p, term, index));
        let j = choose|j: LogIndex| #[trigger] seen.contains((p, term, j)) && j >= index;
        assert(now.contains((p, term, j)));
    }
    assert(quorum_laws::is_majority(group, voters));
}

proof fn decisions_are_settled(start: Cluster, run: Seq<(NodeId, Move)>)
    requires
        cluster::possible(start, run),
        matching::steady(cluster::reached(start, run)),
        aims::credited_run(start, run),
    ensures
        completeness::are_settled(
            cluster::reached(start, run).made,
            completeness::accepted(start, run),
            decided(start, run),
        ),
    decreases run.len(),
{
    if run.len() > 0 {
        let before = run.drop_last();
        let (c, seen) = (cluster::reached(start, before), completeness::accepted(start, before));
        let (d, now) = (cluster::reached(start, run), completeness::accepted(start, run));
        let (n, move_) = run.last();
        let (event, b, more) = (
            election::event_of(move_),
            c.next_node(n, move_),
            runs::makes(c, n, move_),
        );
        matching::earlier_is_steady(c, n, move_);
        origins::origins_hold_in_runs(start, run);
        origins::origins_hold_in_runs(start, before);
        election::a_move_steps(c, n, move_);
        assert(d == c.with_node(n, b, more));
        decisions_are_settled(start, before);
        assert forall|term: Term, index: LogIndex, voters: Set<NodeId>| #[trigger]
            decided(start, run).contains((term, index, voters)) implies completeness::settled(
            d.made,
            now,
            voters,
            term,
            index,
        ) by {
            if decided(start, before).contains((term, index, voters)) {
                settled_stays(c.made, seen, d.made, now, voters, term, index);
            } else {
                events::a_quiet_step(c.nodes[n], event);
                assert(moves::commit_step(c.nodes[n], b)) by {
                    reveal(moves::quiet_step);
                }
                a_decision_is_settled(c, n, event, b, more, seen);
            }
        }
    }
}

// ---- what is backed ----

/// Two logs reach as far as `upto`, and agree up to there.
spec fn shares(
    made: Set<(EntryView, Term)>,
    term: Term,
    end: LogIndex,
    early: Term,
    index: LogIndex,
    upto: LogIndex,
) -> bool {
    &&& upto <= end
    &&& upto <= index
    &&& history::term_at(made, term, end, upto) == history::term_at(made, early, index, upto)
}

/// The log that ends with the entry of `term` at `end` agrees, up to `upto`,
/// with that of a mark which was set no later than in term `by`.
spec fn backed(
    all: Set<(EntryView, Term)>,
    marks: Set<(Term, LogIndex, Set<NodeId>)>,
    term: Term,
    end: LogIndex,
    upto: LogIndex,
    by: Term,
) -> bool {
    exists|early: Term, index: LogIndex, voters: Set<NodeId>| #[trigger]
        marks.contains((early, index, voters)) && shares(all, term, end, early, index, upto)
            && early <= by
}

/// What a node has committed behind its snapshot, and what that covers, is
/// backed.
spec fn node_is_backed(
    node: NodeState,
    all: Set<(EntryView, Term)>,
    marks: Set<(Term, LogIndex, Set<NodeId>)>,
) -> bool {
    let (s, term) = (node.store, node.term());
    let (last, end) = (s.last_term(), s.last_index());
    &&& node.commit_index > s.base.last_index ==> backed(
        all,
        marks,
        last,
        end,
        node.commit_index,
        term,
    )
    &&& s.base.last_index > 0 ==> backed(
        all,
        marks,
        s.base.last_term,
        s.base.last_index,
        s.base.last_index,
        term,
    )
}

/// What a message says is committed is backed.
spec fn append_is_backed(
    req: AppendView,
    all: Set<(EntryView, Term)>,
    marks: Set<(Term, LogIndex, Set<NodeId>)>,
) -> bool {
    req.leader_commit > 0 ==> backed(
        all,
        marks,
        ends::end_term(req),
        ends::end_index(req),
        req.leader_commit,
        req.term,
    )
}

/// What a snapshot in a message covers is backed.
spec fn install_is_backed(
    req: InstallView,
    all: Set<(EntryView, Term)>,
    marks: Set<(Term, LogIndex, Set<NodeId>)>,
) -> bool {
    req.last_index > 0 ==> backed(
        all,
        marks,
        req.last_term,
        req.last_index,
        req.last_index,
        req.term,
    )
}

spec fn commits_are_backed(
    c: Cluster,
    all: Set<(EntryView, Term)>,
    marks: Set<(Term, LogIndex, Set<NodeId>)>,
) -> bool {
    &&& forall|n: NodeId| #[trigger]
        c.nodes.contains_key(n) ==> node_is_backed(c.nodes[n], all, marks)
    &&& forall|f: NodeId, to: NodeId, req: AppendView| #[trigger]
        c.sent.contains((f, to, MessageView::AppendEntries(req))) ==> append_is_backed(
            req,
            all,
            marks,
        )
    &&& forall|f: NodeId, to: NodeId, req: InstallView| #[trigger]
        c.sent.contains((f, to, MessageView::InstallSnapshot(req))) ==> install_is_backed(
            req,
            all,
            marks,
        )
}

/// No later leader lacks what is marked.
spec fn marks_hold(
    c: Cluster,
    all: Set<(EntryView, Term)>,
    marks: Set<(Term, LogIndex, Set<NodeId>)>,
) -> bool {
    forall|term: Term, index: LogIndex, voters: Set<NodeId>| #[trigger]
        marks.contains((term, index, voters)) ==> {
            &&& history::was_made(all, term, index)
            &&& keeping::later_terms_include(c.made, all, term, index)
        }
}

/// What is backed is backed before that place, too, and in every log that ends
/// behind it.
proof fn backing_reaches(
    all: Set<(EntryView, Term)>,
    marks: Set<(Term, LogIndex, Set<NodeId>)>,
    term: Term,
    end: LogIndex,
    upto: LogIndex,
    by: Term,
    outer_term: Term,
    outer: LogIndex,
    at: LogIndex,
    by_now: Term,
)
    requires
        backed(all, marks, term, end, upto, by),
        history::includes(all, outer_term, outer, term, end),
        at <= upto,
        by <= by_now,
    ensures
        backed(all, marks, outer_term, outer, at, by_now),
{
    let (early, index, voters) = choose|early: Term, index: LogIndex, voters: Set<NodeId>|
        #[trigger] marks.contains((early, index, voters)) && shares(
            all,
            term,
            end,
            early,
            index,
            upto,
        ) && early <= by;
    assert(marks.contains((early, index, voters)));
    history::composes(all, outer_term, outer, end, at);
    history::composes(all, term, end, upto, at);
    history::composes(all, early, index, upto, at);
    assert(shares(all, outer_term, outer, early, index, at));
}

/// Everything that a move rests on.
spec fn moving(
    c: Cluster,
    n: NodeId,
    event: Event,
    b: NodeState,
    more: Set<(EntryView, Term)>,
    all: Set<(EntryView, Term)>,
    marks: Set<(Term, LogIndex, Set<NodeId>)>,
) -> bool {
    &&& completeness::grounded(c, n, event, b, more, all)
    &&& marks_hold(c, all, marks)
    &&& commits_are_backed(c, all, marks)
    &&& aims::appends_are_proper(c)
    &&& aims::appends_are_proper(c.with_node(n, b, more))
    &&& c.nodes[n].store.base.last_index <= c.nodes[n].commit_index
}

/// As far as a log was backed, it is after a move.
proof fn own_backing_stays(
    c: Cluster,
    n: NodeId,
    event: Event,
    b: NodeState,
    more: Set<(EntryView, Term)>,
    all: Set<(EntryView, Term)>,
    marks: Set<(Term, LogIndex, Set<NodeId>)>,
    upto: LogIndex,
)
    requires
        moving(c, n, event, b, more, all, marks),
        backed(
            all,
            marks,
            c.nodes[n].store.last_term(),
            c.nodes[n].store.last_index(),
            upto,
            c.nodes[n].term(),
        ),
    ensures
        backed(all, marks, b.store.last_term(), b.store.last_index(), upto, b.term()),
{
    let (a, s) = (c.nodes[n], c.nodes[n].store);
    let (early, index, voters) = choose|early: Term, index: LogIndex, voters: Set<NodeId>|
        #[trigger] marks.contains((early, index, voters)) && shares(
            all,
            s.last_term(),
            s.last_index(),
            early,
            index,
            upto,
        ) && early <= a.term();
    assert(marks.contains((early, index, voters)));
    keeping::a_log_keeps(c, n, event, b, more, all, early, index, upto);
    assert(shares(all, b.store.last_term(), b.store.last_index(), early, index, upto));
}

/// The log of a node after a move that makes nothing is made of what was made
/// before it.
proof fn nothing_new(
    c: Cluster,
    n: NodeId,
    event: Event,
    b: NodeState,
    all: Set<(EntryView, Term)>,
    at: LogIndex,
)
    requires
        completeness::grounded(c, n, event, b, Set::empty(), all),
    ensures
        history::rooted(c.made, b.store.last_term(), b.store.last_index()),
        ends::known_at(all, b.store, at) == ends::known_at(c.made, b.store, at),
{
    let d = c.with_node(n, b, Set::empty());
    assert(d.made =~= c.made);
    histories::history_facts(d);
    matching::log_facts(d);
    assert(d.nodes.contains_key(n) && d.nodes[n] == b);
    assert(histories::ends_well(b, d.made));
    history::store_ends(b.store, d.made);
    keeping::lifts(c.made, all, b.store.last_term(), b.store.last_index(), at);
}

/// What a follower commits on the word of its leader is backed.
proof fn a_followed_commit_is_backed(
    c: Cluster,
    n: NodeId,
    from: NodeId,
    req: AppendView,
    b: NodeState,
    all: Set<(EntryView, Term)>,
    marks: Set<(Term, LogIndex, Set<NodeId>)>,
)
    requires
        moving(
            c,
            n,
            Event::Step(from, MessageView::AppendEntries(req)),
            b,
            Set::empty(),
            all,
            marks,
        ),
        b.commit_index != c.nodes[n].commit_index,
    ensures
        backed(
            all,
            marks,
            b.store.last_term(),
            b.store.last_index(),
            b.commit_index,
            b.term(),
        ),
{
    let a = c.nodes[n];
    let event = Event::Step(from, MessageView::AppendEntries(req));
    histories::history_facts(c);
    matching::log_facts(c);
    assert(c.sent.contains((from, n, MessageView::AppendEntries(req))));
    assert(histories::well_ended(req, c.made));
    assert(append_is_backed(req, all, marks));
    let (term, end) = (ends::end_term(req), ends::end_index(req));
    let x = choose|x: (EntryView, Term)| #[trigger]
        c.made.contains(x) && x.0.term == req.term && x.0.index == end;
    assert(c.made.contains(x));
    assert(end > 0 && term == req.term && term > 0);
    if !ends::takes(a, req) {
        assert(req.prev_log_term == 0 && req.prev_log_index > 0);
        gap_in_the_middle(c, req);
    }
    assert(req.leader_commit <= end);
    assert(ends::firmly(a, req));
    nothing_new(c, n, event, b, all, end);
    backing_reaches(
        all,
        marks,
        term,
        end,
        req.leader_commit,
        req.term,
        b.store.last_term(),
        b.store.last_index(),
        b.commit_index,
        b.term(),
    );
}

/// No entry but the first is without a term before it.
proof fn gap_in_the_middle(c: Cluster, req: AppendView)
    requires
        history::grown(c.made),
        chain::brings_chain(req, c.made),
        req.entries.len() > 0,
        req.prev_log_index > 0,
    ensures
        req.prev_log_term > 0,
{
    let (entries, start, before) = (req.entries, req.prev_log_index + 1, req.prev_log_term);
    assert(chain::follows(entries, start, before, c.made, 0));
    let x = (entries[0], before);
    assert(c.made.contains(x));
    assert(history::rooted(c.made, before, (x.0.index - 1) as u64));
    assert(x.0.index - 1 == req.prev_log_index);
    let y = choose|y: (EntryView, Term)| #[trigger]
        c.made.contains(y) && y.0.term == before && y.0.index == req.prev_log_index;
    assert(c.made.contains(y));
}

/// What a snapshot covers that a node makes of its log is backed.
proof fn a_new_base_is_backed(
    c: Cluster,
    n: NodeId,
    event: Event,
    b: NodeState,
    more: Set<(EntryView, Term)>,
    all: Set<(EntryView, Term)>,
    marks: Set<(Term, LogIndex, Set<NodeId>)>,
)
    requires
        moving(c, n, event, b, more, all, marks),
        ends::covers(c.nodes[n], b.store),
    ensures
        backed(
            all,
            marks,
            b.store.base.last_term,
            b.store.base.last_index,
            b.store.base.last_index,
            b.term(),
        ),
{
    let (a, s) = (c.nodes[n], c.nodes[n].store);
    let (term, base) = (b.store.base.last_term, b.store.base.last_index);
    histories::history_facts(c);
    matching::log_facts(c);
    assert(node_is_backed(a, all, marks));
    let (early, index, voters) = choose|early: Term, index: LogIndex, voters: Set<NodeId>|
        #[trigger] marks.contains((early, index, voters)) && shares(
            all,
            s.last_term(),
            s.last_index(),
            early,
            index,
            a.commit_index,
        ) && early <= a.term();
    assert(marks.contains((early, index, voters)));
    assert(histories::ends_well(a, c.made));
    history::store_ends(s, c.made);
    history::store_includes(s, c.made, base);
    assert(c.made.subset_of(all)) by {
        assert forall|x: (EntryView, Term)| #[trigger] c.made.contains(x) implies all.contains(
            x,
        ) by {
            assert(c.with_node(n, b, more).made.contains(x));
        }
    }
    keeping::lifts(c.made, all, s.last_term(), s.last_index(), base);
    history::composes(all, s.last_term(), s.last_index(), a.commit_index, base);
    history::composes(all, early, index, a.commit_index, base);
    assert(shares(all, term, base, early, index, base));
}

/// What a leader commits is marked.
proof fn a_decision_is_backed(
    c: Cluster,
    n: NodeId,
    event: Event,
    b: NodeState,
    more: Set<(EntryView, Term)>,
    all: Set<(EntryView, Term)>,
    marks: Set<(Term, LogIndex, Set<NodeId>)>,
)
    requires
        moving(c, n, event, b, more, all, marks),
        !cluster::brings_log(event),
        moves::commit_step(c.nodes[n], b),
        b.commit_index > c.nodes[n].commit_index,
        marks.contains((b.term(), b.commit_index, b.voters)),
    ensures
        backed(
            all,
            marks,
            b.store.last_term(),
            b.store.last_index(),
            b.commit_index,
            b.term(),
        ),
{
    let (d, s) = (c.with_node(n, b, more), b.store);
    histories::history_facts(d);
    matching::log_facts(d);
    assert(d.nodes.contains_key(n) && d.nodes[n] == b);
    assert(histories::ends_well(b, d.made));
    history::store_ends(s, d.made);
    history::store_includes(s, d.made, b.commit_index);
    keeping::lifts(d.made, all, s.last_term(), s.last_index(), b.commit_index);
    assert(shares(
        all,
        s.last_term(),
        s.last_index(),
        b.term(),
        b.commit_index,
        b.commit_index,
    ));
}

/// What leaders decide by the move is marked.
spec fn decisions_are_marked(
    a: NodeState,
    event: Event,
    b: NodeState,
    marks: Set<(Term, LogIndex, Set<NodeId>)>,
) -> bool {
    !cluster::brings_log(event) && b.commit_index > a.commit_index ==> marks.contains(
        (b.term(), b.commit_index, b.voters),
    ) || ends::starts_again(a, b)
}

proof fn own_step(
    c: Cluster,
    n: NodeId,
    event: Event,
    b: NodeState,
    more: Set<(EntryView, Term)>,
    all: Set<(EntryView, Term)>,
    marks: Set<(Term, LogIndex, Set<NodeId>)>,
)
    requires
        moving(c, n, event, b, more, all, marks),
        decisions_are_marked(c.nodes[n], event, b, marks),
    ensures
        node_is_backed(b, all, marks),
{
    let a = c.nodes[n];
    let base = a.store.base;
    assert(node_is_backed(a, all, marks));
    if a.commit_index > base.last_index {
        own_backing_stays(c, n, event, b, more, all, marks, a.commit_index);
    }
    if base.last_index > 0 {
        assert(history::term_at(all, base.last_term, base.last_index, base.last_index)
            == base.last_term);
        backing_reaches(
            all,
            marks,
            base.last_term,
            base.last_index,
            base.last_index,
            a.term(),
            base.last_term,
            base.last_index,
            base.last_index,
            b.term(),
        );
    }
    match event {
        Event::Step(from, MessageView::AppendEntries(req)) => {
            assert(more == Set::<(EntryView, Term)>::empty());
            assert(b.store.base == base);
            if b.commit_index != a.commit_index {
                a_followed_commit_is_backed(c, n, from, req, b, all, marks);
            }
            assert(b.commit_index > base.last_index ==> backed(
                all,
                marks,
                b.store.last_term(),
                b.store.last_index(),
                b.commit_index,
                b.term(),
            ));
        },
        Event::Step(from, MessageView::InstallSnapshot(req)) => {
            assert(c.sent.contains((from, n, MessageView::InstallSnapshot(req))));
            assert(install_is_backed(req, all, marks));
        },
        _ => {
            if !ends::starts_again(a, b) && b.commit_index != a.commit_index {
                a_decision_is_backed(c, n, event, b, more, all, marks);
            }
            if b.store.base != base {
                a_new_base_is_backed(c, n, event, b, more, all, marks);
            }
        },
    }
}

proof fn an_append_is_backed(
    c: Cluster,
    n: NodeId,
    event: Event,
    b: NodeState,
    more: Set<(EntryView, Term)>,
    all: Set<(EntryView, Term)>,
    marks: Set<(Term, LogIndex, Set<NodeId>)>,
    f: NodeId,
    to: NodeId,
    req: AppendView,
)
    requires
        moving(c, n, event, b, more, all, marks),
        node_is_backed(b, all, marks),
        c.with_node(n, b, more).sent.contains((f, to, MessageView::AppendEntries(req))),
    ensures
        append_is_backed(req, all, marks),
{
    let d = c.with_node(n, b, more);
    let message = MessageView::AppendEntries(req);
    if req.leader_commit > 0 && !c.sent.contains((f, to, message)) {
        let s = b.store;
        histories::history_facts(d);
        matching::log_facts(d);
        histories::handed_by_a_leader(c, n, event, b, more, f, to, message);
        assert(d.nodes.contains_key(n) && d.nodes[n] == b);
        assert(histories::ends_well(b, d.made));
        assert(req.entries.len() > 0 || req.prev_log_term > 0);
        histories::handed_ends_well(b, req, d.made);
        assert(history::term_at(all, s.last_term(), s.last_index(), s.last_index())
            == s.last_term());
        if b.commit_index > s.base.last_index {
            backing_reaches(
                all,
                marks,
                s.last_term(),
                s.last_index(),
                b.commit_index,
                b.term(),
                s.last_term(),
                s.last_index(),
                req.leader_commit,
                req.term,
            );
        } else {
            history::store_ends(s, d.made);
            history::store_includes(s, d.made, s.base.last_index);
            keeping::lifts(d.made, all, s.last_term(), s.last_index(), s.base.last_index);
            backing_reaches(
                all,
                marks,
                s.base.last_term,
                s.base.last_index,
                s.base.last_index,
                b.term(),
                s.last_term(),
                s.last_index(),
                req.leader_commit,
                req.term,
            );
        }
    }
}

proof fn an_install_is_backed(
    c: Cluster,
    n: NodeId,
    event: Event,
    b: NodeState,
    more: Set<(EntryView, Term)>,
    all: Set<(EntryView, Term)>,
    marks: Set<(Term, LogIndex, Set<NodeId>)>,
    f: NodeId,
    to: NodeId,
    req: InstallView,
)
    requires
        moving(c, n, event, b, more, all, marks),
        node_is_backed(b, all, marks),
        c.with_node(n, b, more).sent.contains((f, to, MessageView::InstallSnapshot(req))),
    ensures
        install_is_backed(req, all, marks),
{
    let d = c.with_node(n, b, more);
    let message = MessageView::InstallSnapshot(req);
    if req.last_index > 0 && !c.sent.contains((f, to, message)) {
        histories::handed_by_a_leader(c, n, event, b, more, f, to, message);
        assert(d.nodes.contains_key(n) && d.nodes[n] == b);
    }
}

proof fn backing_step(
    c: Cluster,
    n: NodeId,
    event: Event,
    b: NodeState,
    more: Set<(EntryView, Term)>,
    all: Set<(EntryView, Term)>,
    marks: Set<(Term, LogIndex, Set<NodeId>)>,
)
    requires
        moving(c, n, event, b, more, all, marks),
        decisions_are_marked(c.nodes[n], event, b, marks),
    ensures
        commits_are_backed(c.with_node(n, b, more), all, marks),
{
    let d = c.with_node(n, b, more);
    own_step(c, n, event, b, more, all, marks);
    assert forall|m: NodeId| #[trigger] d.nodes.contains_key(m) implies node_is_backed(
        d.nodes[m],
        all,
        marks,
    ) by {
        assert(c.nodes.contains_key(m));
        assert(node_is_backed(c.nodes[m], all, marks));
    }
    assert forall|f: NodeId, to: NodeId, req: AppendView| #[trigger]
        d.sent.contains((f, to, MessageView::AppendEntries(req))) implies append_is_backed(
        req,
        all,
        marks,
    ) by {
        an_append_is_backed(c, n, event, b, more, all, marks, f, to, req);
    }
    assert forall|f: NodeId, to: NodeId, req: InstallView| #[trigger]
        d.sent.contains((f, to, MessageView::InstallSnapshot(req))) implies install_is_backed(
        req,
        all,
        marks,
    ) by {
        an_install_is_backed(c, n, event, b, more, all, marks, f, to, req);
    }
}

// ---- runs ----

/// What is backed by some marks is by more.
proof fn more_marks(
    c: Cluster,
    all: Set<(EntryView, Term)>,
    marks: Set<(Term, LogIndex, Set<NodeId>)>,
    more: Set<(Term, LogIndex, Set<NodeId>)>,
)
    requires
        commits_are_backed(c, all, marks),
        marks.subset_of(more),
    ensures
        commits_are_backed(c, all, more),
{
    assert forall|term: Term, end: LogIndex, upto: LogIndex, by: Term| #[trigger]
        backed(all, marks, term, end, upto, by) implies backed(
        all,
        more,
        term,
        end,
        upto,
        by,
    ) by {
        let (early, index, voters) = choose|early: Term, index: LogIndex, voters: Set<NodeId>|
            #[trigger] marks.contains((early, index, voters)) && shares(
                all,
                term,
                end,
                early,
                index,
                upto,
            ) && early <= by;
        assert(more.contains((early, index, voters)));
    }
    assert forall|n: NodeId| #[trigger] c.nodes.contains_key(n) implies node_is_backed(
        c.nodes[n],
        all,
        more,
    ) by {
        assert(node_is_backed(c.nodes[n], all, marks));
    }
    assert forall|f: NodeId, to: NodeId, req: AppendView| #[trigger]
        c.sent.contains((f, to, MessageView::AppendEntries(req))) implies append_is_backed(
        req,
        all,
        more,
    ) by {
        assert(append_is_backed(req, all, marks));
    }
    assert forall|f: NodeId, to: NodeId, req: InstallView| #[trigger]
        c.sent.contains((f, to, MessageView::InstallSnapshot(req))) implies install_is_backed(
        req,
        all,
        more,
    ) by {
        assert(install_is_backed(req, all, marks));
    }
}

/// What leaders decided before a move, and by it.
proof fn decided_before(start: Cluster, run: Seq<(NodeId, Move)>)
    requires
        run.len() > 0,
    ensures
        decided(start, run.drop_last()).subset_of(decided(start, run)),
        ({
            let c = cluster::reached(start, run.drop_last());
            let (n, move_) = run.last();
            decisions_are_marked(
                c.nodes[n],
                election::event_of(move_),
                c.next_node(n, move_),
                decided(start, run),
            )
        }),
{
    let c = cluster::reached(start, run.drop_last());
    let (n, move_) = run.last();
    let (event, b) = (election::event_of(move_), c.next_node(n, move_));
    match move_ {
        Move::Happens(_) => {
            if !cluster::brings_log(event) && b.commit_index > c.nodes[n].commit_index {
                let x = (b.term(), b.commit_index, b.voters);
                assert(decides(c.nodes[n], move_, b).contains(x));
                assert(decided(start, run).contains(x));
            }
        },
        Move::Restarts => {
            reveal(cluster::restarted);
        },
    }
}

/// What is committed is backed by what leaders had decided by then.
proof fn commits_are_backed_in_runs(
    start: Cluster,
    run: Seq<(NodeId, Move)>,
    all: Set<(EntryView, Term)>,
    seen: Set<(NodeId, Term, LogIndex)>,
    led: Set<(Term, NodeId, Set<NodeId>)>,
    marks: Set<(Term, LogIndex, Set<NodeId>)>,
)
    requires
        completeness::foreseen(start, run, all, seen, led, marks),
        runs::orderly(start, run),
        decided(start, run).subset_of(marks),
    ensures
        commits_are_backed(cluster::reached(start, run), all, decided(start, run)),
    decreases run.len(),
{
    if run.len() > 0 {
        let before = run.drop_last();
        let c = cluster::reached(start, before);
        let (n, move_) = run.last();
        let (event, b, more) = (
            election::event_of(move_),
            c.next_node(n, move_),
            runs::makes(c, n, move_),
        );
        matching::earlier_is_steady(c, n, move_);
        completeness::foreseen_before(start, run, all, seen, led, marks);
        completeness::a_move_is_grounded(start, run, all, seen, led, marks);
        completeness::marks_are_kept(start, before, all, seen, led, marks);
        decided_before(start, run);
        commits_are_backed_in_runs(start, before, all, seen, led, marks);
        more_marks(c, all, decided(start, before), decided(start, run));
        aims::appends_are_proper_in_runs(start, before);
        aims::appends_are_proper_in_runs(start, run);
        assert(run.take(run.len() - 1) =~= before);
        answers::snapshots_are_committed(start, run, run.len() - 1);
        assert(c.nodes.contains_key(n));
        backing_step(c, n, event, b, more, all, decided(start, run));
    }
}

/// The beginning of a run foresees the end, and has decided no more.
proof fn earlier(start: Cluster, run: Seq<(NodeId, Move)>, all: Seq<(NodeId, Move)>, k: int)
    requires
        fair(start, all),
        run == all.take(k),
        0 <= k <= all.len(),
    ensures
        cluster::possible(start, run),
        matching::steady(cluster::reached(start, run)),
        aims::credited_run(start, run),
        completeness::foreseen(
            start,
            run,
            cluster::reached(start, all).made,
            completeness::accepted(start, all),
            cluster::reached(start, all).led,
            decided(start, all),
        ),
        decided(start, run).subset_of(decided(start, all)),
        cluster::reached(start, run).made.subset_of(cluster::reached(start, all).made),
    decreases all.len() - k,
{
    if k == all.len() {
        assert(run =~= all);
        decisions_are_settled(start, all);
        completeness::a_run_foresees_itself(start, all, decided(start, all));
    } else {
        let longer = all.take(k + 1);
        assert(longer.drop_last() =~= run);
        earlier(start, longer, all, k + 1);
        let (c, d) = (cluster::reached(start, run), cluster::reached(start, longer));
        let (n, move_) = longer.last();
        matching::earlier_is_steady(c, n, move_);
        completeness::foreseen_before(
            start,
            longer,
            cluster::reached(start, all).made,
            completeness::accepted(start, all),
            cluster::reached(start, all).led,
            decided(start, all),
        );
        decided_before(start, longer);
        assert forall|x: (EntryView, Term)| #[trigger] c.made.contains(x) implies cluster::reached(
            start,
            all,
        ).made.contains(x) by {
            assert(d.made.contains(x));
        }
    }
}

// ---- snapshots over entries that do not follow from them ----

/// A log that holds the entry with which its snapshot ends follows from it.
proof fn a_log_that_reaches_back(
    all: Set<(EntryView, Term)>,
    made: Set<(EntryView, Term)>,
    s: Durable,
)
    requires
        keeping::sound(all),
        made.subset_of(all),
        chain::loose(s, made),
        chain::made_once(made),
        history::grown(made),
        history::based(s, made),
        s.base.last_index > 0 ==> ends::reaches(all, s, s.base.last_term, s.base.last_index),
    ensures
        chain::chained(s, made),
{
    let base = s.base.last_index;
    if s.entries.len() > 0 {
        let first = (base + 1) as u64;
        assert(s.holds(first));
        assert(chain::hangs(s, made, first));
        let before = choose|before: Term| #[trigger] made.contains((s.at(first), before));
        let x = (s.at(first), before);
        assert(made.contains(x) && all.contains(x));
        assert(history::rooted(made, before, base));
        if base > 0 {
            history::store_ends(s, made);
            history::store_includes(s, made, first);
            keeping::lifts(made, all, s.last_term(), s.last_index(), first);
            history::composes(all, s.last_term(), s.last_index(), first, base);
            history::before_is(all, x);
            assert(history::term_at(all, before, base, base) == before);
            assert(history::term_at(all, x.0.term, first, base) == before);
        }
        assert(chain::linked(s, made, first));
    }
    chain::loosely(s, made);
}

/// A message of a leader says of the entry with which a snapshot ends what the
/// snapshot says.
proof fn a_message_agrees(
    c: Cluster,
    all: Set<(EntryView, Term)>,
    marks: Set<(Term, LogIndex, Set<NodeId>)>,
    s: Durable,
    by: Term,
    req: AppendView,
)
    requires
        keeping::sound(all),
        c.made.subset_of(all),
        histories::histories_hold(c),
        matching::logs_hold(c),
        marks_hold(c, all, marks),
        backed(all, marks, s.base.last_term, s.base.last_index, s.base.last_index, by),
        by <= req.term,
        chain::brings_chain(req, c.made),
        histories::well_ended(req, c.made),
    ensures
        !ends::undercuts(s, req),
{
    let (term, base) = (s.base.last_term, s.base.last_index);
    histories::history_facts(c);
    matching::log_facts(c);
    if ends::undercuts(s, req) {
        let k = choose|k: int|
            #![trigger req.entries[k]]
            0 <= k < req.entries.len() && req.entries[k].index == base && req.entries[k].term
                != term;
        let (early, index, voters) = choose|early: Term, index: LogIndex, voters: Set<NodeId>|
            #[trigger] marks.contains((early, index, voters)) && shares(
                all,
                term,
                base,
                early,
                index,
                base,
            ) && early <= by;
        assert(marks.contains((early, index, voters)));
        let end = ends::end_index(req);
        let x = choose|x: (EntryView, Term)| #[trigger]
            c.made.contains(x) && x.0.term == req.term && x.0.index == end;
        assert(c.made.contains(x) && all.contains(x));
        ends::message_tells(req, c.made, k + 1);
        assert(chain::follows(
            req.entries,
            req.prev_log_index + 1,
            req.prev_log_term,
            c.made,
            k,
        ));
        keeping::lifts(c.made, all, req.term, end, base);
        keeping::two_logs(all, req.term, end, early, index, base);
    }
}

/// A move of a fair run: a node whose entries do not follow from its snapshot is
/// not elected, and hears nothing otherwise of the snapshot.
proof fn a_move_is_whole(
    start: Cluster,
    run: Seq<(NodeId, Move)>,
    all: Set<(EntryView, Term)>,
    seen: Set<(NodeId, Term, LogIndex)>,
    led: Set<(Term, NodeId, Set<NodeId>)>,
    marks: Set<(Term, LogIndex, Set<NodeId>)>,
)
    requires
        run.len() > 0,
        completeness::foreseen(start, run, all, seen, led, marks),
        cluster::possible(start, run),
        matching::steady(cluster::reached(start, run)),
        matching::whole_run(start, run.drop_last()),
        aims::credited_run(start, run.drop_last()),
        decided(start, run.drop_last()).subset_of(marks),
        keeping::sound(all),
        cluster::reached(start, run.drop_last()).made.subset_of(all),
    ensures
        matching::whole(
            cluster::reached(start, run.drop_last()),
            run.last().0,
            run.last().1,
        ),
{
    let before = run.drop_last();
    let c = cluster::reached(start, before);
    let (n, move_) = run.last();
    let (a, b, s) = (c.nodes[n], c.next_node(n, move_), c.nodes[n].store);
    let base = s.base.last_index;
    let (event, more) = (election::event_of(move_), runs::makes(c, n, move_));
    let now = decided(start, before);
    matching::earlier_is_steady(c, n, move_);
    completeness::foreseen_before(start, run, all, seen, led, marks);
    completeness::marks_are_kept(start, before, all, seen, led, marks);
    commits_are_backed_in_runs(start, before, all, seen, led, marks);
    runs::histories_hold_in_runs(start, before);
    histories::history_facts(c);
    matching::log_facts(c);
    assert(node_is_backed(a, all, now));
    assert(histories::ends_well(a, c.made));
    assert(marks_hold(c, all, now));
    if !chain::chained(s, c.made) {
        if base == 0 {
            a_log_that_reaches_back(all, c.made, s);
        }
        if b.role == Role::Leader && a.role != Role::Leader {
            let (early, index, voters) = choose|
                early: Term,
                index: LogIndex,
                voters: Set<NodeId>,
            | #[trigger]
                now.contains((early, index, voters)) && shares(
                    all,
                    s.base.last_term,
                    base,
                    early,
                    index,
                    base,
                ) && early <= a.term();
            assert(now.contains((early, index, voters)) && marks.contains(
                (early, index, voters),
            ));
            decisions_are_settled(start, before);
            assert(completeness::settled(
                c.made,
                completeness::accepted(start, before),
                voters,
                early,
                index,
            ));
            let x = choose|x: (EntryView, Term)| #[trigger]
                c.made.contains(x) && x.0.term == early && x.0.index == index;
            assert(c.made.contains(x));
            election::elections_hold_in_runs(start, run);
            election::a_move_steps(c, n, move_);
            matching::makings_hold_in_runs(start, before);
            assert(cluster::reached(start, run) == c.with_node(n, b, more));
            matching::nothing_made_yet(c, n, event, b, more, x);
            assert(b.term() >= a.term());
            completeness::a_winner_holds(
                start,
                run,
                all,
                seen,
                led,
                marks,
                early,
                index,
                voters,
            );
            history::composes(all, s.last_term(), s.last_index(), index, base);
            assert(ends::reaches(all, s, s.base.last_term, base));
            a_log_that_reaches_back(all, c.made, s);
        }
        match move_ {
            Move::Happens(Event::Step(from, MessageView::AppendEntries(req))) => {
                assert(c.sent.contains((from, n, MessageView::AppendEntries(req))));
                if req.term >= a.term() {
                    a_message_agrees(c, all, now, s, a.term(), req);
                }
            },
            _ => {},
        }
    }
}

/// In no fair run does a node lead whose entries do not follow from its snapshot,
/// or hear otherwise of that.
proof fn fair_runs_are_whole(
    start: Cluster,
    run: Seq<(NodeId, Move)>,
    all: Seq<(NodeId, Move)>,
    k: int,
)
    requires
        fair(start, all),
        run == all.take(k),
        0 <= k <= all.len(),
    ensures
        matching::whole_run(start, run),
    decreases k,
{
    if k > 0 {
        let before = all.take(k - 1);
        assert(run.drop_last() =~= before);
        fair_runs_are_whole(start, before, all, k - 1);
        earlier(start, run, all, k);
        earlier(start, before, all, k - 1);
        origins::origins_hold_in_runs(start, all);
        matching::making_facts(cluster::reached(start, all));
        a_move_is_whole(
            start,
            run,
            cluster::reached(start, all).made,
            completeness::accepted(start, all),
            cluster::reached(start, all).led,
            decided(start, all),
        );
    }
}

/// Two logs that are backed agree as far as both are.
proof fn both_backed(
    c: Cluster,
    marks: Set<(Term, LogIndex, Set<NodeId>)>,
    term: Term,
    end: LogIndex,
    upto: LogIndex,
    by: Term,
    other: Term,
    other_end: LogIndex,
    other_upto: LogIndex,
    other_by: Term,
    at: LogIndex,
)
    requires
        keeping::sound(c.made),
        marks_hold(c, c.made, marks),
        backed(c.made, marks, term, end, upto, by),
        backed(c.made, marks, other, other_end, other_upto, other_by),
        at <= upto,
        at <= other_upto,
    ensures
        history::term_at(c.made, term, end, at) == history::term_at(c.made, other, other_end, at),
{
    let (t1, i1, v1) = choose|early: Term, index: LogIndex, voters: Set<NodeId>| #[trigger]
        marks.contains((early, index, voters)) && shares(
            c.made,
            term,
            end,
            early,
            index,
            upto,
        ) && early <= by;
    let (t2, i2, v2) = choose|early: Term, index: LogIndex, voters: Set<NodeId>| #[trigger]
        marks.contains((early, index, voters)) && shares(
            c.made,
            other,
            other_end,
            early,
            index,
            other_upto,
        ) && early <= other_by;
    assert(marks.contains((t1, i1, v1)) && marks.contains((t2, i2, v2)));
    history::composes(c.made, term, end, upto, at);
    history::composes(c.made, t1, i1, upto, at);
    history::composes(c.made, other, other_end, other_upto, at);
    history::composes(c.made, t2, i2, other_upto, at);
    if t1 < t2 {
        let x = choose|x: (EntryView, Term)| #[trigger]
            c.made.contains(x) && x.0.term == t2 && x.0.index == i2;
        assert(c.made.contains(x));
        keeping::two_logs(c.made, t2, i2, t1, i1, at);
    } else {
        let x = choose|x: (EntryView, Term)| #[trigger]
            c.made.contains(x) && x.0.term == t1 && x.0.index == i1;
        assert(c.made.contains(x));
        keeping::two_logs(c.made, t1, i1, t2, i2, at);
    }
}

/// An entry of a log, as it was made.
proof fn an_entry_was_made(
    s: Durable,
    made: Set<(EntryView, Term)>,
    index: LogIndex,
) -> (x: (EntryView, Term))
    requires
        chain::loose(s, made),
        s.holds(index),
    ensures
        made.contains(x),
        x.0 == s.at(index),
        x.0.index == index,
{
    assert(chain::hangs(s, made, index));
    let before = if index == s.base.last_index + 1 {
        choose|before: Term| #[trigger] made.contains((s.at(index), before))
    } else {
        s.term_or_zero((index - 1) as u64)
    };
    (s.at(index), before)
}

/// State machine safety. Whatever is lost, delayed, reordered or repeated,
/// whichever nodes stop and start again, and however voters come and go: what
/// one node has committed at an index after `k` moves of a run, no node has
/// committed otherwise at the end of it. It takes memberships that change step
/// by step, and leaders that count on no node for more than it held.
pub proof fn committed_entries_agree(
    start: Cluster,
    run: Seq<(NodeId, Move)>,
    k: int,
    m: NodeId,
    n: NodeId,
    index: LogIndex,
)
    requires
        fair(start, run),
        0 <= k <= run.len(),
        cluster::reached(start, run.take(k)).nodes.contains_key(m),
        cluster::reached(start, run).nodes.contains_key(n),
        index <= cluster::reached(start, run.take(k)).nodes[m].commit_index,
        index <= cluster::reached(start, run).nodes[n].commit_index,
        cluster::reached(start, run.take(k)).nodes[m].store.holds(index),
        cluster::reached(start, run).nodes[n].store.holds(index),
    ensures
        cluster::reached(start, run.take(k)).nodes[m].store.at(index) == cluster::reached(
            start,
            run,
        ).nodes[n].store.at(index),
{
    let before = run.take(k);
    let (c, d) = (cluster::reached(start, before), cluster::reached(start, run));
    let (seen, marks) = (completeness::accepted(start, run), decided(start, run));
    assert(run.take(run.len() as int) =~= run);
    earlier(start, before, run, k);
    earlier(start, run, run, run.len() as int);
    fair_runs_are_whole(start, before, run, k);
    fair_runs_are_whole(start, run, run, run.len() as int);
    runs::histories_hold_in_runs(start, before);
    runs::histories_hold_in_runs(start, run);
    histories::history_facts(c);
    histories::history_facts(d);
    matching::log_facts(c);
    matching::log_facts(d);
    commits_are_backed_in_runs(start, before, d.made, seen, d.led, marks);
    commits_are_backed_in_runs(start, run, d.made, seen, d.led, marks);
    more_marks(c, d.made, decided(start, before), marks);
    completeness::marks_are_kept(start, run, d.made, seen, d.led, marks);
    let (x, y) = (c.nodes[m], d.nodes[n]);
    let (s, t) = (x.store, y.store);
    assert(histories::ends_well(x, c.made));
    assert(histories::ends_well(y, d.made));
    assert(node_is_backed(x, d.made, marks));
    assert(node_is_backed(y, d.made, marks));
    history::store_ends(s, c.made);
    both_backed(
        d,
        marks,
        s.last_term(),
        s.last_index(),
        x.commit_index,
        x.term(),
        t.last_term(),
        t.last_index(),
        y.commit_index,
        y.term(),
        index,
    );
    history::store_includes(s, c.made, index);
    keeping::lifts(c.made, d.made, s.last_term(), s.last_index(), index);
    history::store_includes(t, d.made, index);
    let (p, q) = (an_entry_was_made(s, c.made, index), an_entry_was_made(t, d.made, index));
    assert(c.made.contains(p) && d.made.contains(p) && d.made.contains(q));
}

/// Once a leader has committed up to one of its entries, every leader of a later
/// term holds it, in its log or under its snapshot.
pub proof fn leaders_hold_what_is_committed(
    start: Cluster,
    run: Seq<(NodeId, Move)>,
    term: Term,
    index: LogIndex,
    voters: Set<NodeId>,
    n: NodeId,
)
    requires
        fair(start, run),
        decided(start, run).contains((term, index, voters)),
        cluster::reached(start, run).nodes.contains_key(n),
        cluster::reached(start, run).nodes[n].role == Role::Leader,
        cluster::reached(start, run).nodes[n].term() > term,
    ensures
        ({
            let s = cluster::reached(start, run).nodes[n].store;
            &&& s.last_index() >= index
            &&& s.holds(index) ==> s.at(index).term == term
        }),
{
    assert(run.take(run.len() as int) =~= run);
    fair_runs_are_whole(start, run, run, run.len() as int);
    decisions_are_settled(start, run);
    completeness::leaders_hold_marks(
        start,
        run,
        decided(start, run),
        term,
        index,
        voters,
        n,
    );
}

// ---- a fixed membership ----

/// Every node lives by this membership, at every moment of the run.
pub open spec fn fixed(start: Cluster, run: Seq<(NodeId, Move)>, voters: Set<NodeId>) -> bool
    decreases run.len(),
{
    &&& forall|n: NodeId| #[trigger]
        cluster::reached(start, run).nodes.contains_key(n) ==> cluster::reached(
            start,
            run,
        ).nodes[n].voters == voters
    &&& run.len() > 0 ==> fixed(start, run.drop_last(), voters)
}

proof fn fixed_throughout(start: Cluster, run: Seq<(NodeId, Move)>, voters: Set<NodeId>)
    requires
        cluster::possible(start, run),
        fixed(start, run, voters),
    ensures
        forall|term: Term, n: NodeId, over: Set<NodeId>| #[trigger]
            cluster::reached(start, run).led.contains((term, n, over)) ==> over == voters,
        forall|term: Term, index: LogIndex, by: Set<NodeId>| #[trigger]
            decided(start, run).contains((term, index, by)) ==> by == voters,
    decreases run.len(),
{
    if run.len() > 0 {
        let before = run.drop_last();
        fixed_throughout(start, before, voters);
        let (c, d) = (cluster::reached(start, before), cluster::reached(start, run));
        let (n, move_) = run.last();
        assert(d.nodes.contains_key(n) && d.nodes[n] == c.next_node(n, move_));
        assert forall|term: Term, m: NodeId, over: Set<NodeId>| #[trigger]
            d.led.contains((term, m, over)) implies over == voters by {
            assert(c.led.contains((term, m, over)) || over == d.nodes[n].voters);
        }
        assert forall|term: Term, index: LogIndex, by: Set<NodeId>| #[trigger]
            decided(start, run).contains((term, index, by)) implies by == voters by {
            assert(decided(start, before).contains((term, index, by)) || by == d.nodes[n].voters);
        }
    }
}

/// A membership that never changes changes step by step.
pub proof fn a_fixed_membership_will_do(
    start: Cluster,
    run: Seq<(NodeId, Move)>,
    voters: Set<NodeId>,
)
    requires
        cluster::possible(start, run),
        fixed(start, run, voters),
    ensures
        matching::steady(cluster::reached(start, run)),
        changes_step_by_step(start, run),
{
    fixed_throughout(start, run, voters);
    let (c, marks) = (cluster::reached(start, run), decided(start, run));
    assert forall|
        term: Term,
        index: LogIndex,
        by: Set<NodeId>,
        late: Term,
        n: NodeId,
        over: Set<NodeId>,
    |
        #![trigger marks.contains((term, index, by)), c.led.contains((late, n, over))]
        marks.contains((term, index, by)) && c.led.contains((late, n, over)) && late
            > term implies completeness::anchored(c.made, marks, term, index, late, over) by {
        assert(history::includes(c.made, term, index, term, index));
        assert(marks.contains((term, index, by)));
    }
}

} // verus!
