//! Sets of node ids, in ascending order, and counting their members.

use std::collections::{BTreeMap, BTreeSet};

use vstd::prelude::*;
use vstd::std_specs::btree::*;

verus! {

broadcast use {vstd::std_specs::btree::group_btree_axioms, vstd::laws_cmp::group_laws_cmp};

/// Every id is below the ones behind it.
pub open spec fn strictly_ascending(q: Seq<u64>) -> bool {
    forall|i: int, j: int| 0 <= i < j < q.len() ==> q[i] < q[j]
}

/// `q` lists `s` in ascending order.
pub open spec fn lists(q: Seq<u64>, s: Set<u64>) -> bool {
    strictly_ascending(q) && q.to_set() == s
}

/// The members of `s` in ascending order.
pub open spec fn ascending(s: Set<u64>) -> Seq<u64> {
    choose|q: Seq<u64>| lists(q, s)
}

/// Only one sequence lists a set in ascending order.
pub proof fn one_listing(a: Seq<u64>, b: Seq<u64>)
    requires
        strictly_ascending(a),
        strictly_ascending(b),
        a.to_set() == b.to_set(),
    ensures
        a == b,
    decreases a.len(),
{
    if a.len() == 0 {
        if b.len() > 0 {
            assert(b.to_set().contains(b[0]));
            assert(a.to_set().contains(b[0]));
        }
        assert(a =~= b);
    } else {
        assert(a.to_set().contains(a.last()));
        assert(b.to_set().contains(a.last()));
        assert(b.to_set().contains(b.last()));
        assert(a.to_set().contains(b.last()));
        assert(a.last() == b.last());
        let (x, y) = (a.drop_last(), b.drop_last());
        assert forall|id: u64| x.to_set().contains(id) == y.to_set().contains(id) by {
            if x.contains(id) {
                let i = choose|i: int| 0 <= i < x.len() && x[i] == id;
                assert(a.to_set().contains(a[i]));
                let j = choose|j: int| 0 <= j < b.len() && b[j] == id;
                assert(y[j] == id);
            }
            if y.contains(id) {
                let i = choose|i: int| 0 <= i < y.len() && y[i] == id;
                assert(b.to_set().contains(b[i]));
                let j = choose|j: int| 0 <= j < a.len() && a[j] == id;
                assert(x[j] == id);
            }
        }
        assert(x.to_set() =~= y.to_set());
        one_listing(x, y);
        assert(a =~= x.push(a.last()));
        assert(b =~= y.push(b.last()));
    }
}

/// A listing is the listing.
pub proof fn ascending_is(q: Seq<u64>, s: Set<u64>)
    requires
        lists(q, s),
    ensures
        ascending(s) == q,
        s.finite(),
        s.len() == q.len(),
{
    one_listing(ascending(s), q);
    q.unique_seq_to_set();
}

/// A finite set can be listed.
pub(crate) proof fn a_listing_exists(s: Set<u64>)
    requires
        s.finite(),
    ensures
        lists(ascending(s), s),
    decreases s.len(),
{
    if s.len() == 0 {
        assert(Seq::<u64>::empty().to_set() =~= s);
        assert(lists(Seq::empty(), s));
    } else {
        let top = highest(s);
        a_listing_exists(s.remove(top));
        let rest = ascending(s.remove(top));
        let q = rest.push(top);
        assert forall|i: int, j: int| 0 <= i < j < q.len() implies q[i] < q[j] by {
            assert(rest.to_set().contains(rest[i]));
            if j == rest.len() {
                assert(s.contains(q[i]) && q[i] != top);
            }
        }
        assert(q.to_set() =~= s) by {
            assert forall|x: u64| q.to_set().contains(x) == s.contains(x) by {
                if q.contains(x) {
                    let i = choose|i: int| 0 <= i < q.len() && q[i] == x;
                    if i < rest.len() {
                        assert(rest.to_set().contains(rest[i]));
                    }
                }
                if s.contains(x) {
                    if x == top {
                        assert(q[rest.len() as int] == x);
                    } else {
                        assert(rest.to_set().contains(x));
                        let i = choose|i: int| 0 <= i < rest.len() && rest[i] == x;
                        assert(q[i] == x);
                    }
                }
            }
        }
        assert(lists(q, s));
    }
}

/// The highest member of a set that has any.
proof fn highest(s: Set<u64>) -> (top: u64)
    requires
        s.finite(),
        s.len() > 0,
    ensures
        s.contains(top),
        forall|x: u64| s.contains(x) ==> x <= top,
    decreases s.len(),
{
    let x = s.choose();
    let rest = s.remove(x);
    if rest.len() == 0 {
        assert forall|y: u64| s.contains(y) implies y <= x by {
            if y != x {
                assert(rest.contains(y));
            }
        }
        x
    } else {
        let top = highest(rest);
        let top = if top > x {
            top
        } else {
            x
        };
        assert forall|y: u64| s.contains(y) implies y <= top by {
            if y != x {
                assert(rest.contains(y));
            }
        }
        top
    }
}

/// What is left of a listing ascends, too.
pub(crate) proof fn filtered_ascends(q: Seq<u64>, keep: spec_fn(u64) -> bool)
    requires
        strictly_ascending(q),
    ensures
        strictly_ascending(q.filter(keep)),
        forall|i: int|
            0 <= i < q.filter(keep).len() ==> q.contains(#[trigger] q.filter(keep)[i]) && keep(
                q.filter(keep)[i],
            ),
        forall|i: int|
            0 <= i < q.len() && keep(#[trigger] q[i]) ==> q.filter(keep).contains(q[i]),
    decreases q.len(),
{
    reveal(Seq::filter);
    if q.len() > 0 {
        let rest = q.drop_last();
        filtered_ascends(rest, keep);
        let (a, b) = (rest.filter(keep), q.filter(keep));
        assert forall|i: int| 0 <= i < a.len() implies q.contains(#[trigger] a[i]) && a[i]
            < q.last() by {
            let k = choose|k: int| 0 <= k < rest.len() && rest[k] == a[i];
            assert(q[k] == a[i]);
        }
        assert forall|i: int| 0 <= i < b.len() implies q.contains(#[trigger] b[i]) && keep(
            b[i],
        ) by {
            if i < a.len() {
                assert(b[i] == a[i]);
            } else {
                assert(q[q.len() - 1] == b[i]);
            }
        }
        assert forall|i: int| 0 <= i < q.len() && keep(#[trigger] q[i]) implies b.contains(q[i]) by {
            if i < rest.len() {
                assert(rest[i] == q[i]);
                assert(a.contains(rest[i]));
                let k = choose|k: int| 0 <= k < a.len() && a[k] == rest[i];
                assert(b[k] == q[i]);
            } else {
                assert(b[b.len() - 1] == q[i]);
            }
        }
        assert forall|i: int, j: int| 0 <= i < j < b.len() implies b[i] < b[j] by {
            assert(b[i] == a[i]);
            if j < a.len() {
                assert(b[j] == a[j]);
            }
        }
    }
}

/// The members of `s`, ascending.
pub fn sorted_ids(s: &BTreeSet<u64>) -> (r: Vec<u64>)
    ensures
        r@ == ascending(s@),
        lists(r@, s@),
        s@.finite(),
        r@.len() == s@.len(),
{
    let mut out: Vec<u64> = Vec::new();
    for id in it: s.iter()
        invariant
            out@ == it.seq().unref().take(it.index()),
    {
        out.push(*id);
        assert(out@ =~= it.seq().unref().take(it.index() + 1));
    }
    proof {
        let all = vstd::std_specs::iter::IteratorSpec::remaining(&spec_btree_keys_iter(s));
        assert(out@ =~= all.unref());
        assert(increasing_seq(all));
        assert forall|i: int, j: int| 0 <= i < j < out@.len() implies out@[i] < out@[j] by {
            assert(vstd::std_specs::cmp::OrdSpec::cmp_spec(&all[i], &all[j]) is Less);
        }
        ascending_is(out@, s@);
    }
    out
}

/// How many members of `s` satisfy `p`.
pub open spec fn tally(s: Set<u64>, p: spec_fn(u64) -> bool) -> nat {
    s.filter(p).len()
}

/// Counting one more member of a listing.
pub proof fn tally_step(q: Seq<u64>, k: int, p: spec_fn(u64) -> bool)
    requires
        strictly_ascending(q),
        0 <= k < q.len(),
    ensures
        tally(q.take(k + 1).to_set(), p) == tally(q.take(k).to_set(), p) + if p(q[k]) {
            1nat
        } else {
            0
        },
{
    let (a, b) = (q.take(k), q.take(k + 1));
    vstd::seq_lib::seq_to_set_is_finite(a);
    assert(b =~= a.push(q[k]));
    assert(!a.contains(q[k]));
    assert(b.to_set() =~= a.to_set().insert(q[k])) by {
        broadcast use vstd::seq_lib::group_seq_properties;

    }
    a.to_set().lemma_len_filter(p);
    if p(q[k]) {
        assert(b.to_set().filter(p) =~= a.to_set().filter(p).insert(q[k]));
        assert(!a.to_set().filter(p).contains(q[k]));
    } else {
        assert(b.to_set().filter(p) =~= a.to_set().filter(p));
    }
}

pub proof fn tally_none(q: Seq<u64>, p: spec_fn(u64) -> bool)
    ensures
        tally(q.take(0).to_set(), p) == 0,
{
    assert(q.take(0).to_set().filter(p) =~= Set::empty());
}

/// The value of `key`, or `otherwise` where there is none.
pub open spec fn value_or(m: Map<u64, u64>, key: u64, otherwise: u64) -> u64 {
    if m.contains_key(key) {
        m[key]
    } else {
        otherwise
    }
}

pub fn lookup(m: &BTreeMap<u64, u64>, key: u64, otherwise: u64) -> (r: u64)
    ensures
        r == value_or(m@, key, otherwise),
{
    match m.get(&key) {
        Some(v) => *v,
        None => otherwise,
    }
}

/// `value` for each of `keys`.
pub open spec fn each(keys: Seq<u64>, value: u64) -> Map<u64, u64> {
    Map::new(|k: u64| keys.contains(k), |k: u64| value)
}

/// Sets each of `keys` to `value`.
pub fn assign_each(m: &mut BTreeMap<u64, u64>, keys: &Vec<u64>, value: u64)
    ensures
        final(m)@ == old(m)@.union_prefer_right(each(keys@, value)),
{
    let mut i: usize = 0;
    assert(m@ =~= old(m)@.union_prefer_right(each(keys@.take(0), value)));
    while i < keys.len()
        invariant
            i <= keys@.len(),
            m@ == old(m)@.union_prefer_right(each(keys@.take(i as int), value)),
        decreases keys@.len() - i,
    {
        let k: u64 = keys[i];
        m.insert(k, value);
        proof {
            let (a, b) = (keys@.take(i as int), keys@.take(i + 1));
            assert(b =~= a.push(k));
            assert forall|x: u64| b.contains(x) <==> a.contains(x) || x == k by {
                vstd::seq_lib::lemma_seq_contains_after_push(a, k, x);
                if a.contains(x) {
                    let j = choose|j: int| 0 <= j < a.len() && a[j] == x;
                    assert(b[j] == x);
                }
                assert(b[i as int] == k);
            }
            assert(m@ =~= old(m)@.union_prefer_right(each(b, value)));
        }
        i = i + 1;
    }
    assert(keys@.take(i as int) =~= keys@);
}

} // verus!
