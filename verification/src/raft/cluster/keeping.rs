//! What a log holds of an entry that no later leader lacks, it keeps.

use vstd::prelude::*;

use crate::raft::cluster::chain;
use crate::raft::cluster::ends;
use crate::raft::cluster::histories;
use crate::raft::cluster::history;
use crate::raft::cluster::matching;
use crate::raft::cluster::Cluster;
use crate::raft::node::laws::Event;
use crate::raft::node::state::NodeState;
use crate::raft::rpc::{AppendView, InstallView, MessageView};
use crate::raft::storage::Durable;
use crate::raft::types::{EntryView, LogIndex, NodeId, Term};

verus! {

/// The log agrees, up to `upto`, with the log that ends with the entry of
/// `term` at `index`.
pub open spec fn agrees(
    made: Set<(EntryView, Term)>,
    s: Durable,
    term: Term,
    index: LogIndex,
    upto: LogIndex,
) -> bool {
    &&& upto <= index
    &&& upto <= s.last_index()
    &&& ends::known_at(made, s, upto) == history::term_at(made, term, index, upto)
}

/// Every entry of a later term stands behind the one of `term` at `index`.
pub open spec fn later_terms_include(
    made: Set<(EntryView, Term)>,
    all: Set<(EntryView, Term)>,
    term: Term,
    index: LogIndex,
) -> bool {
    forall|x: (EntryView, Term)| #[trigger]
        made.contains(x) && x.0.term > term ==> history::includes(
            all,
            x.0.term,
            x.0.index,
            term,
            index,
        )
}

/// A set of entries that may be all that are ever made.
pub open spec fn sound(all: Set<(EntryView, Term)>) -> bool {
    &&& history::grown(all)
    &&& chain::made_once(all)
    &&& history::terms_nest(all)
}

/// Two logs, one behind the other or of one term, agree as far as both reach.
pub(crate) proof fn two_logs(
    all: Set<(EntryView, Term)>,
    late: Term,
    end: LogIndex,
    term: Term,
    index: LogIndex,
    at: LogIndex,
)
    requires
        sound(all),
        history::was_made(all, late, end),
        history::was_made(all, term, index),
        late == term || history::includes(all, late, end, term, index),
        at <= end,
        at <= index,
    ensures
        history::term_at(all, late, end, at) == history::term_at(all, term, index, at),
{
    let x = choose|x: (EntryView, Term)| #[trigger]
        all.contains(x) && x.0.term == late && x.0.index == end;
    let y = choose|y: (EntryView, Term)| #[trigger]
        all.contains(y) && y.0.term == term && y.0.index == index;
    assert(all.contains(x) && all.contains(y));
    if index <= end {
        assert(history::includes(all, late, end, term, index));
        history::composes(all, late, end, index, at);
    } else {
        assert(history::includes(all, term, index, late, end));
        history::composes(all, term, index, end, at);
    }
}

/// What is known of a log among the entries made so far holds among all.
pub(crate) proof fn lifts(
    made: Set<(EntryView, Term)>,
    all: Set<(EntryView, Term)>,
    term: Term,
    index: LogIndex,
    at: LogIndex,
)
    requires
        made.subset_of(all),
        history::grown(made),
        chain::made_once(all),
        history::rooted(made, term, index),
    ensures
        history::term_at(all, term, index, at) == history::term_at(made, term, index, at),
        history::rooted(all, term, index),
{
    history::history_stays(made, all, term, index, at);
    history::rooted_stays(made, all, term, index);
}

/// Logs that agree at one place agree before it.
pub(crate) proof fn agrees_before(
    all: Set<(EntryView, Term)>,
    s: Durable,
    term: Term,
    index: LogIndex,
    upto: LogIndex,
    at: LogIndex,
)
    requires
        agrees(all, s, term, index, upto),
        at <= upto,
    ensures
        agrees(all, s, term, index, at),
{
    history::composes(all, s.last_term(), s.last_index(), upto, at);
    history::composes(all, term, index, upto, at);
}

/// A log that grew by one entry agrees with what it was.
proof fn writing_keeps(
    all: Set<(EntryView, Term)>,
    made: Set<(EntryView, Term)>,
    a: NodeState,
    b: NodeState,
    term: Term,
    index: LogIndex,
    upto: LogIndex,
)
    requires
        sound(all),
        made.subset_of(all),
        ends::writes(a, b),
        chain::chained(a.store, made),
        chain::chained(b.store, made),
        history::based(a.store, made),
        agrees(all, a.store, term, index, upto),
    ensures
        agrees(all, b.store, term, index, upto),
        ends::reaches(all, b.store, a.store.last_term(), a.store.last_index()),
{
    let (s, t, last) = (a.store, b.store, a.store.last_index());
    history::store_ends(s, made);
    let end = t.last_index();
    assert(t.holds(end));
    assert(chain::linked(t, made, end));
    assert(t.term_or_zero(last) == s.term_or_zero(last)) by {
        if s.holds(last) {
            assert(t.at(last) == s.at(last));
        }
    }
    let x = (t.at(end), s.last_term());
    assert(made.contains(x));
    assert(all.contains(x));
    history::before_is(all, x);
    assert(t.at(end) == t.entries.last());
    assert(history::term_at(all, s.last_term(), last, last) == s.last_term());
    history::composes(all, t.last_term(), end, last, upto);
}

proof fn merging_keeps(
    all: Set<(EntryView, Term)>,
    made: Set<(EntryView, Term)>,
    s: Durable,
    req: AppendView,
    t: Durable,
    term: Term,
    index: LogIndex,
    upto: LogIndex,
)
    requires
        sound(all),
        made.subset_of(all),
        history::grown(made),
        chain::loose(s, made),
        history::based(s, made),
        histories::well_ended(req, made),
        ends::merges(made, s, req, t),
        req.term >= term,
        history::was_made(all, term, index),
        later_terms_include(made, all, term, index),
        agrees(all, s, term, index, upto),
    ensures
        agrees(all, t, term, index, upto),
{
    if !ends::same_end(s, t) {
        assert(req.entries.len() > 0);
        let (late, end) = (ends::end_term(req), ends::end_index(req));
        assert(late == req.term && history::was_made(made, late, end));
        let x = choose|x: (EntryView, Term)| #[trigger]
            made.contains(x) && x.0.term == late && x.0.index == end;
        assert(made.contains(x) && all.contains(x));
        assert(late == term || history::includes(all, late, end, term, index));
        history::store_ends(s, made);
        assert(chain::made_once(made)) by {
            assert forall|x: (EntryView, Term), y: (EntryView, Term)| #[trigger]
                made.contains(x) && #[trigger] made.contains(y) && x.0.term == y.0.term
                    && x.0.index == y.0.index implies x == y by {
                assert(all.contains(x) && all.contains(y));
            }
        }
        assert forall|at: LogIndex| #[trigger] ends::differ(made, s, req, at) implies at
            > upto by {
            lifts(made, all, s.last_term(), s.last_index(), at);
            lifts(made, all, late, end, at);
            if at <= upto {
                agrees_before(all, s, term, index, upto, at);
                two_logs(all, late, end, term, index, at);
            }
        }
        if ends::ends_with(t, late, end) {
            if ends::reaches(made, t, s.last_term(), s.last_index()) {
                lifts(made, all, late, end, s.last_index());
                history::composes(all, late, end, s.last_index(), upto);
            } else {
                let at = choose|at: LogIndex| #[trigger] ends::differ(made, s, req, at);
                assert(upto < at);
                two_logs(all, late, end, term, index, upto);
            }
        } else {
            let base = s.base.last_index;
            assert(ends::differ(made, s, req, base));
            history::store_includes(s, made, base);
            lifts(made, all, s.last_term(), s.last_index(), base);
            history::composes(all, s.last_term(), s.last_index(), base, upto);
        }
    }
}

proof fn installing_keeps(
    all: Set<(EntryView, Term)>,
    made: Set<(EntryView, Term)>,
    s: Durable,
    req: InstallView,
    t: Durable,
    term: Term,
    index: LogIndex,
    upto: LogIndex,
)
    requires
        sound(all),
        made.subset_of(all),
        history::grown(made),
        histories::well_based(req, made),
        ends::ends_with(t, req.last_term, req.last_index),
        req.last_index >= s.last_index(),
        req.term >= term,
        history::was_made(all, term, index),
        later_terms_include(made, all, term, index),
        agrees(all, s, term, index, upto),
    ensures
        agrees(all, t, term, index, upto),
{
    let x = choose|x: (EntryView, Term)| #[trigger]
        made.contains(x) && x.0.term == req.term && history::includes(
            made,
            x.0.term,
            x.0.index,
            req.last_term,
            req.last_index,
        );
    assert(made.contains(x) && all.contains(x));
    assert(history::rooted(made, x.0.term, x.0.index));
    lifts(made, all, x.0.term, x.0.index, req.last_index);
    history::composes(all, x.0.term, x.0.index, req.last_index, upto);
    two_logs(all, x.0.term, x.0.index, term, index, upto);
}

/// Whatever happens to a node: as far as its log agrees with that of an entry
/// which no later leader lacks, it goes on agreeing.
pub(crate) proof fn a_log_keeps(
    c: Cluster,
    n: NodeId,
    event: Event,
    b: NodeState,
    more: Set<(EntryView, Term)>,
    all: Set<(EntryView, Term)>,
    term: Term,
    index: LogIndex,
    upto: LogIndex,
)
    requires
        histories::step_holds(c, n, event, b, more),
        histories::histories_hold(c),
        sound(all),
        c.with_node(n, b, more).made.subset_of(all),
        history::was_made(all, term, index),
        later_terms_include(c.made, all, term, index),
        agrees(all, c.nodes[n].store, term, index, upto),
        term <= c.nodes[n].term(),
    ensures
        agrees(all, b.store, term, index, upto),
{
    let (a, d) = (c.nodes[n], c.with_node(n, b, more));
    histories::history_facts(c);
    matching::log_facts(c);
    matching::log_facts(d);
    assert(d.nodes.contains_key(n) && d.nodes[n] == b);
    assert(c.made.subset_of(all)) by {
        assert forall|x: (EntryView, Term)| #[trigger] c.made.contains(x) implies all.contains(
            x,
        ) by {
            assert(d.made.contains(x));
        }
    }
    match event {
        Event::Step(from, MessageView::AppendEntries(req)) => {
            assert(c.sent.contains((from, n, MessageView::AppendEntries(req))));
            if req.term >= a.term() {
                merging_keeps(all, c.made, a.store, req, b.store, term, index, upto);
            }
        },
        Event::Step(from, MessageView::InstallSnapshot(req)) => {
            assert(c.sent.contains((from, n, MessageView::InstallSnapshot(req))));
            if !ends::same_end(a.store, b.store) {
                installing_keeps(all, c.made, a.store, req, b.store, term, index, upto);
            }
        },
        _ => {
            if !ends::same_end(a.store, b.store) {
                chain::chains_stay(a.store, a.store, c.made, more);
                history::rooted_stays(
                    c.made,
                    d.made,
                    a.store.base.last_term,
                    a.store.base.last_index,
                );
                writing_keeps(all, d.made, a, b, term, index, upto);
            }
        },
    }
}

} // verus!
