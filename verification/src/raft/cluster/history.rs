//! The whole log behind an entry, snapshots or no snapshots.

use vstd::prelude::*;

use crate::raft::cluster::chain;
use crate::raft::storage::Durable;
use crate::raft::types::{EntryView, LogIndex, Term};

verus! {

/// An entry of the term was made at the index.
pub open spec fn was_made(made: Set<(EntryView, Term)>, term: Term, index: LogIndex) -> bool {
    exists|x: (EntryView, Term)| #[trigger]
        made.contains(x) && x.0.term == term && x.0.index == index
}

/// The end of a log: an entry that was made, or nothing at all.
pub open spec fn rooted(made: Set<(EntryView, Term)>, term: Term, index: LogIndex) -> bool {
    if index == 0 {
        term == 0
    } else {
        was_made(made, term, index)
    }
}

/// Every entry was made behind one that was made, of no later term.
pub open spec fn grown(made: Set<(EntryView, Term)>) -> bool {
    forall|x: (EntryView, Term)| #[trigger]
        made.contains(x) ==> {
            &&& x.0.index > 0
            &&& x.0.term > 0
            &&& x.1 <= x.0.term
            &&& rooted(made, x.1, (x.0.index - 1) as u64)
        }
}

/// The term of the entry that the one of the term at the index was made behind.
pub open spec fn before(made: Set<(EntryView, Term)>, term: Term, index: LogIndex) -> Term {
    (choose|x: (EntryView, Term)| #[trigger]
        made.contains(x) && x.0.term == term && x.0.index == index).1
}

/// The term at `at` in the log that ends with the entry of `term` at `index`.
pub open spec fn term_at(
    made: Set<(EntryView, Term)>,
    term: Term,
    index: LogIndex,
    at: LogIndex,
) -> Term
    decreases index,
{
    if at >= index {
        term
    } else {
        term_at(made, before(made, term, index), (index - 1) as u64, at)
    }
}

/// The log that ends with the first entry holds the second.
pub open spec fn includes(
    made: Set<(EntryView, Term)>,
    term: Term,
    index: LogIndex,
    inner_term: Term,
    inner: LogIndex,
) -> bool {
    inner <= index && term_at(made, term, index, inner) == inner_term
}

/// Entries of one term stand in one log.
pub open spec fn terms_nest(made: Set<(EntryView, Term)>) -> bool {
    forall|x: (EntryView, Term), y: (EntryView, Term)| #[trigger]
        made.contains(x) && #[trigger] made.contains(y) && x.0.term == y.0.term && x.0.index
            <= y.0.index ==> includes(made, y.0.term, y.0.index, x.0.term, x.0.index)
}

pub(crate) proof fn before_is(made: Set<(EntryView, Term)>, x: (EntryView, Term))
    requires
        chain::made_once(made),
        made.contains(x),
    ensures
        before(made, x.0.term, x.0.index) == x.1,
{
    let y = choose|y: (EntryView, Term)| #[trigger]
        made.contains(y) && y.0.term == x.0.term && y.0.index == x.0.index;
    assert(made.contains(y));
}

/// What is in a log of a log is in the log.
pub(crate) proof fn composes(
    made: Set<(EntryView, Term)>,
    term: Term,
    index: LogIndex,
    j: LogIndex,
    k: LogIndex,
)
    requires
        k <= j <= index,
    ensures
        term_at(made, term, index, k) == term_at(made, term_at(made, term, index, j), j, k),
    decreases index,
{
    if j < index {
        composes(made, before(made, term, index), (index - 1) as u64, j, k);
    }
}

/// Every place in a log is one where it could end, and terms do not grow
/// towards the front.
pub(crate) proof fn stays_rooted(
    made: Set<(EntryView, Term)>,
    term: Term,
    index: LogIndex,
    at: LogIndex,
)
    requires
        grown(made),
        chain::made_once(made),
        rooted(made, term, index),
        at <= index,
    ensures
        rooted(made, term_at(made, term, index, at), at),
        term_at(made, term, index, at) <= term,
    decreases index,
{
    if at < index {
        let x = choose|x: (EntryView, Term)| #[trigger]
            made.contains(x) && x.0.term == term && x.0.index == index;
        before_is(made, x);
        stays_rooted(made, x.1, (index - 1) as u64, at);
    }
}

/// Entries that are made later do not change what lies behind the earlier ones.
pub(crate) proof fn history_stays(
    made: Set<(EntryView, Term)>,
    later: Set<(EntryView, Term)>,
    term: Term,
    index: LogIndex,
    at: LogIndex,
)
    requires
        made.subset_of(later),
        grown(made),
        chain::made_once(later),
        rooted(made, term, index),
    ensures
        term_at(later, term, index, at) == term_at(made, term, index, at),
    decreases index,
{
    if at < index {
        let x = choose|x: (EntryView, Term)| #[trigger]
            made.contains(x) && x.0.term == term && x.0.index == index;
        assert(later.contains(x));
        assert(chain::made_once(made)) by {
            assert forall|x: (EntryView, Term), y: (EntryView, Term)| #[trigger]
                made.contains(x) && #[trigger] made.contains(y) && x.0.term == y.0.term
                    && x.0.index == y.0.index implies x == y by {
                assert(later.contains(x) && later.contains(y));
            }
        }
        before_is(made, x);
        before_is(later, x);
        history_stays(made, later, x.1, (index - 1) as u64, at);
    }
}

pub(crate) proof fn rooted_stays(
    made: Set<(EntryView, Term)>,
    later: Set<(EntryView, Term)>,
    term: Term,
    index: LogIndex,
)
    requires
        made.subset_of(later),
        rooted(made, term, index),
    ensures
        rooted(later, term, index),
{
    if index > 0 {
        let x = choose|x: (EntryView, Term)| #[trigger]
            made.contains(x) && x.0.term == term && x.0.index == index;
        assert(later.contains(x));
    }
}

/// The snapshot of a store ends with an entry that was made.
pub open spec fn based(s: Durable, made: Set<(EntryView, Term)>) -> bool {
    rooted(made, s.base.last_term, s.base.last_index)
}

/// What a store knows of a term is what its log says.
pub(crate) proof fn store_tells(s: Durable, made: Set<(EntryView, Term)>, k: LogIndex, i: LogIndex)
    requires
        chain::loose(s, made),
        chain::made_once(made),
        chain::chained(s, made) || s.base.last_index < i,
        s.base.last_index <= i <= k <= s.last_index(),
    ensures
        term_at(made, s.term_or_zero(k), k, i) == s.term_or_zero(i),
    decreases k - i,
{
    if i < k {
        assert(s.holds(k));
        assert(chain::hangs(s, made, k));
        assert(chain::linked(s, made, k));
        let before_k = (k - 1) as u64;
        before_is(made, (s.at(k), s.term_or_zero(before_k)));
        store_tells(s, made, before_k, i);
    }
}

/// The end of a store.
pub(crate) proof fn store_ends(s: Durable, made: Set<(EntryView, Term)>)
    requires
        chain::loose(s, made) || chain::chained(s, made),
        based(s, made),
    ensures
        rooted(made, s.last_term(), s.last_index()),
        s.last_term() == s.term_or_zero(s.last_index()),
{
    chain::loosely(s, made);
    if s.entries.len() > 0 {
        let last = s.last_index();
        assert(s.holds(last));
        assert(chain::hangs(s, made, last));
        assert(s.at(last) == s.entries.last());
        let before = if last == s.base.last_index + 1 {
            choose|before: Term| #[trigger] made.contains((s.at(last), before))
        } else {
            s.term_or_zero((last - 1) as u64)
        };
        assert(made.contains((s.at(last), before)));
    }
}

/// What a store knows of a term is what its log says, up to its end.
pub(crate) proof fn store_includes(s: Durable, made: Set<(EntryView, Term)>, i: LogIndex)
    requires
        chain::loose(s, made) || chain::chained(s, made),
        chain::made_once(made),
        based(s, made),
        chain::chained(s, made) || s.base.last_index < i,
        s.base.last_index <= i <= s.last_index(),
    ensures
        includes(made, s.last_term(), s.last_index(), s.term_or_zero(i), i),
{
    chain::loosely(s, made);
    store_ends(s, made);
    store_tells(s, made, s.last_index(), i);
}

} // verus!
