//! Merging tables: of every key the newest version, and nothing that was
//! deleted.

use vstd::prelude::*;

use crate::bytes::same_bytes;
use crate::kv::memtable;
use crate::kv::sstable::SsTableWriter;
use crate::kv::types::{self, InternalKey, Side, Version};

verus! {

/// The version at `i` outranks the one at `j`: of different keys the lower one
/// comes first, of one key the newer version, of the same version twice the
/// first.
pub open spec fn outranks(all: Seq<Version>, i: int, j: int) -> bool {
    ||| memtable::before(all[i], all[j])
    ||| (all[i].key == all[j].key && all[i].seqno == all[j].seqno && i < j)
}

/// The version at `i` is the one that counts for its key.
pub open spec fn wins(all: Seq<Version>, i: int) -> bool {
    &&& 0 <= i < all.len()
    &&& forall|j: int|
        0 <= j < all.len() && j != i && (#[trigger] all[j]).key == all[i].key ==> outranks(
            all,
            i,
            j,
        )
}

/// Keys stand in byte order, none twice.
pub open spec fn keys_ascend(s: Seq<Version>) -> bool {
    forall|i: int, j: int| 0 <= i < j < s.len() ==> types::precedes(s[i].key, s[j].key)
}

/// `s` holds, in order, what counts among `all` and was not deleted.
#[verifier::opaque]
pub open spec fn is_merge(s: Seq<Version>, all: Seq<Version>) -> bool {
    &&& keys_ascend(s)
    &&& forall|v: Version| #[trigger]
        s.contains(v) <==> v.value is Some && exists|i: int| #[trigger] wins(all, i) && all[i] == v
}

/// What counts among `all` and was not deleted, in order.
pub open spec fn merged(all: Seq<Version>) -> Seq<Version> {
    choose|s: Seq<Version>| is_merge(s, all)
}

proof fn one_ascent(a: Seq<Version>, b: Seq<Version>)
    requires
        keys_ascend(a),
        keys_ascend(b),
        forall|v: Version| #[trigger] a.contains(v) <==> b.contains(v),
    ensures
        a == b,
    decreases a.len(),
{
    if a.len() == 0 {
        if b.len() > 0 {
            assert(b.contains(b[0]));
            assert(a.contains(b[0]));
        }
        assert(a =~= b);
    } else {
        let la = a.last();
        assert(a.contains(la));
        assert(b.contains(la));
        let lb = b.last();
        assert(b.contains(lb));
        assert(a.contains(lb));
        let i = choose|i: int| 0 <= i < b.len() && b[i] == la;
        let j = choose|j: int| 0 <= j < a.len() && a[j] == lb;
        if i < b.len() - 1 {
            assert(types::precedes(la.key, lb.key));
            if j < a.len() - 1 {
                assert(types::precedes(lb.key, la.key));
            }
            types::byte_order_is_total(la.key, lb.key);
        }
        assert(la == lb);
        let (x, y) = (a.drop_last(), b.drop_last());
        assert forall|v: Version| #[trigger] x.contains(v) <==> y.contains(v) by {
            if x.contains(v) {
                let k = choose|k: int| 0 <= k < x.len() && x[k] == v;
                assert(a[k] == v);
                assert(a.contains(v));
                assert(types::precedes(v.key, la.key));
                types::byte_order_is_total(v.key, la.key);
                let m = choose|m: int| 0 <= m < b.len() && b[m] == v;
                assert(y[m] == v);
            }
            if y.contains(v) {
                let k = choose|k: int| 0 <= k < y.len() && y[k] == v;
                assert(b[k] == v);
                assert(b.contains(v) && a.contains(v));
                assert(types::precedes(v.key, la.key));
                types::byte_order_is_total(v.key, la.key);
                let m = choose|m: int| 0 <= m < a.len() && a[m] == v;
                assert(x[m] == v);
            }
        }
        one_ascent(x, y);
        assert(a =~= x.push(la));
        assert(b =~= y.push(lb));
    }
}

/// A merge is the merge.
pub proof fn merged_is(s: Seq<Version>, all: Seq<Version>)
    requires
        is_merge(s, all),
    ensures
        merged(all) == s,
{
    reveal(is_merge);
    one_ascent(merged(all), s);
}

/// Ranking is a total order of the positions.
proof fn outranks_is_total(all: Seq<Version>, i: int, j: int)
    ensures
        i != j ==> outranks(all, i, j) || outranks(all, j, i),
        !(outranks(all, i, j) && outranks(all, j, i)),
        !outranks(all, i, i),
{
    memtable::before_is_total(all[i], all[j]);
    memtable::before_is_total(all[i], all[i]);
    types::byte_order_is_total(all[i].key, all[j].key);
}

proof fn outranks_is_transitive(all: Seq<Version>, i: int, j: int, k: int)
    requires
        outranks(all, i, j),
        outranks(all, j, k),
    ensures
        outranks(all, i, k),
{
    if memtable::before(all[i], all[j]) && memtable::before(all[j], all[k]) {
        memtable::before_is_transitive(all[i], all[j], all[k]);
    }
}

/// `order` lists the positions from `from` up to `to`, each before those that
/// it outranks.
pub open spec fn ranked(all: Seq<Version>, order: Seq<usize>, from: int, to: int) -> bool {
    &&& order.len() == to - from
    &&& forall|a: int, b: int|
        0 <= a < b < order.len() ==> outranks(all, order[a] as int, order[b] as int)
    &&& forall|a: int| 0 <= a < order.len() ==> from <= #[trigger] order[a] < to
    &&& forall|i: int| from <= i < to ==> order.contains(#[trigger] (i as usize))
}

fn precedes_at(entries: &Vec<(InternalKey, Option<Vec<u8>>)>, i: usize, j: usize) -> (r: bool)
    requires
        i < j < entries@.len(),
    ensures
        r == outranks(types::versions_view(entries@), i as int, j as int),
{
    let ghost all = types::versions_view(entries@);
    proof {
        assert(all[i as int] == types::version_view(entries@[i as int]));
        assert(all[j as int] == types::version_view(entries@[j as int]));
    }
    entries[i].0.compare(&entries[j].0) != Side::After
}

/// Merges two ranked lists of neighbouring ranges.
fn merge_ranked(
    entries: &Vec<(InternalKey, Option<Vec<u8>>)>,
    a: &Vec<usize>,
    b: &Vec<usize>,
    from: usize,
    mid: usize,
    to: usize,
) -> (r: Vec<usize>)
    requires
        from <= mid <= to <= entries@.len(),
        ranked(types::versions_view(entries@), a@, from as int, mid as int),
        ranked(types::versions_view(entries@), b@, mid as int, to as int),
    ensures
        ranked(types::versions_view(entries@), r@, from as int, to as int),
{
    let ghost all = types::versions_view(entries@);
    let mut out: Vec<usize> = Vec::new();
    let mut i: usize = 0;
    let mut j: usize = 0;
    while i < a.len() || j < b.len()
        invariant
            from <= mid <= to <= entries@.len(),
            all == types::versions_view(entries@),
            ranked(all, a@, from as int, mid as int),
            ranked(all, b@, mid as int, to as int),
            i <= a@.len(),
            j <= b@.len(),
            out@.len() == i + j,
            forall|x: int, y: int|
                0 <= x < y < out@.len() ==> outranks(all, out@[x] as int, out@[y] as int),
            forall|x: int, y: int|
                0 <= x < out@.len() && i <= y < a@.len() ==> outranks(
                    all,
                    out@[x] as int,
                    a@[y] as int,
                ),
            forall|x: int, y: int|
                0 <= x < out@.len() && j <= y < b@.len() ==> outranks(
                    all,
                    out@[x] as int,
                    b@[y] as int,
                ),
            forall|x: int| 0 <= x < out@.len() ==> from <= #[trigger] out@[x] < to,
            forall|y: int| 0 <= y < i ==> out@.contains(#[trigger] a@[y]),
            forall|y: int| 0 <= y < j ==> out@.contains(#[trigger] b@[y]),
        decreases a@.len() - i + b@.len() - j,
    {
        let ghost before = out@;
        let first: bool = if i >= a.len() {
            false
        } else if j >= b.len() {
            true
        } else {
            proof {
                outranks_is_total(all, a@[i as int] as int, b@[j as int] as int);
            }
            precedes_at(entries, a[i], b[j])
        };
        let next: usize = if first { a[i] } else { b[j] };
        proof {
            if first {
                assert forall|y: int| j <= y < b@.len() implies outranks(
                    all,
                    next as int,
                    b@[y] as int,
                ) by {
                    if y > j {
                        outranks_is_transitive(
                            all,
                            next as int,
                            b@[j as int] as int,
                            b@[y] as int,
                        );
                    }
                }
            } else {
                assert forall|y: int| i <= y < a@.len() implies outranks(
                    all,
                    next as int,
                    a@[y] as int,
                ) by {
                    if y > i {
                        outranks_is_transitive(
                            all,
                            next as int,
                            a@[i as int] as int,
                            a@[y] as int,
                        );
                    }
                }
            }
        }
        out.push(next);
        if first {
            i = i + 1;
        } else {
            j = j + 1;
        }
        proof {
            assert(out@[before.len() as int] == next);
            assert forall|y: int| 0 <= y < i implies out@.contains(#[trigger] a@[y]) by {
                if before.contains(a@[y]) {
                    let k = choose|k: int| 0 <= k < before.len() && before[k] == a@[y];
                    assert(out@[k] == a@[y]);
                }
            }
            assert forall|y: int| 0 <= y < j implies out@.contains(#[trigger] b@[y]) by {
                if before.contains(b@[y]) {
                    let k = choose|k: int| 0 <= k < before.len() && before[k] == b@[y];
                    assert(out@[k] == b@[y]);
                }
            }
        }
    }
    proof {
        assert forall|n: int| from <= n < to implies out@.contains(#[trigger] (n as usize)) by {
            if n < mid {
                assert(a@.contains(n as usize));
                let k = choose|k: int| 0 <= k < a@.len() && a@[k] == n as usize;
                assert(out@.contains(a@[k]));
            } else {
                assert(b@.contains(n as usize));
                let k = choose|k: int| 0 <= k < b@.len() && b@[k] == n as usize;
                assert(out@.contains(b@[k]));
            }
        }
    }
    out
}

/// The positions from `from` up to `to`, ranked.
fn rank_range(
    entries: &Vec<(InternalKey, Option<Vec<u8>>)>,
    from: usize,
    to: usize,
) -> (r: Vec<usize>)
    requires
        from <= to <= entries@.len(),
    ensures
        ranked(types::versions_view(entries@), r@, from as int, to as int),
    decreases to - from,
{
    if to - from == 0 {
        return Vec::new();
    }
    if to - from == 1 {
        let mut one: Vec<usize> = Vec::new();
        one.push(from);
        assert(one@[0] == from);
        assert(one@.contains(from));
        return one;
    }
    let mid: usize = from + (to - from) / 2;
    let a = rank_range(entries, from, mid);
    let b = rank_range(entries, mid, to);
    merge_ranked(entries, &a, &b, from, mid, to)
}

/// What has been kept of the first `k` ranked positions.
spec fn kept(all: Seq<Version>, order: Seq<usize>, k: int) -> Seq<Version>
    decreases k,
{
    if k <= 0 {
        Seq::empty()
    } else {
        let v = all[order[k - 1] as int];
        let fresh = k == 1 || all[order[k - 2] as int].key != v.key;
        if fresh && v.value is Some {
            kept(all, order, k - 1).push(v)
        } else {
            kept(all, order, k - 1)
        }
    }
}

/// In ranked order, the first position of a key is the one that counts.
proof fn first_in_order_wins(all: Seq<Version>, order: Seq<usize>, k: int)
    requires
        ranked(all, order, 0, all.len() as int),
        all.len() <= usize::MAX,
        0 <= k < order.len(),
    ensures
        wins(all, order[k] as int) <==> (k == 0 || all[order[k - 1] as int].key
            != all[order[k] as int].key),
{
    let i = order[k] as int;
    if k == 0 || all[order[k - 1] as int].key != all[i].key {
        assert forall|j: int|
            0 <= j < all.len() && j != i && (#[trigger] all[j]).key == all[i].key implies outranks(
            all,
            i,
            j,
        ) by {
            assert(order.contains(j as usize));
            let m = choose|m: int| 0 <= m < order.len() && order[m] == j as usize;
            if m < k {
                // Then the key just before lies between two equal keys.
                let p = order[k - 1] as int;
                assert(outranks(all, p, i));
                if m < k - 1 {
                    assert(outranks(all, j, p));
                }
                types::byte_order_is_total(all[p].key, all[i].key);
                types::byte_order_is_total(all[j].key, all[p].key);
            } else {
                assert(m > k);
                assert(outranks(all, order[k] as int, order[m] as int));
            }
        }
    } else {
        let p = order[k - 1] as int;
        assert(outranks(all, p, i));
        outranks_is_total(all, p, i);
        assert(p != i);
        assert(all[p].key == all[i].key);
    }
}

proof fn kept_so_far(all: Seq<Version>, order: Seq<usize>, k: int)
    requires
        ranked(all, order, 0, all.len() as int),
        all.len() <= usize::MAX,
        0 <= k <= order.len(),
    ensures
        keys_ascend(kept(all, order, k)),
        forall|v: Version| #[trigger]
            kept(all, order, k).contains(v) <==> v.value is Some && exists|m: int|
                0 <= m < k && wins(all, order[m] as int) && all[#[trigger] order[m] as int] == v,
    decreases k,
{
    if k > 0 {
        kept_so_far(all, order, k - 1);
        first_in_order_wins(all, order, k - 1);
        let (before, now) = (kept(all, order, k - 1), kept(all, order, k));
        let v = all[order[k - 1] as int];
        let fresh = k == 1 || all[order[k - 2] as int].key != v.key;
        if fresh && v.value is Some {
            assert forall|i: int, j: int| 0 <= i < j < now.len() implies types::precedes(
                now[i].key,
                now[j].key,
            ) by {
                if j == now.len() - 1 {
                    assert(before.contains(before[i]));
                    let m = choose|m: int|
                        0 <= m < k - 1 && wins(all, order[m] as int)
                            && all[#[trigger] order[m] as int] == before[i];
                    assert(outranks(all, order[m] as int, order[k - 1] as int));
                    if all[order[m] as int].key == v.key {
                        assert(wins(all, order[k - 1] as int));
                        outranks_is_total(all, order[m] as int, order[k - 1] as int);
                    }
                }
            }
        }
        assert forall|x: Version| #[trigger] now.contains(x) <==> x.value is Some && exists|m: int|
            0 <= m < k && wins(all, order[m] as int) && all[#[trigger] order[m] as int] == x by {
            if now.contains(x) {
                let i = choose|i: int| 0 <= i < now.len() && now[i] == x;
                if i < before.len() {
                    assert(before[i] == x);
                    assert(before.contains(x));
                    let m = choose|m: int|
                        0 <= m < k - 1 && wins(all, order[m] as int)
                            && all[#[trigger] order[m] as int] == x;
                    assert(wins(all, order[m] as int));
                } else {
                    assert(wins(all, order[k - 1] as int));
                }
            }
            if x.value is Some && exists|m: int|
                0 <= m < k && wins(all, order[m] as int) && all[#[trigger] order[m] as int] == x {
                let m = choose|m: int|
                    0 <= m < k && wins(all, order[m] as int) && all[#[trigger] order[m] as int]
                        == x;
                if m < k - 1 {
                    assert(before.contains(x));
                    let i = choose|i: int| 0 <= i < before.len() && before[i] == x;
                    assert(now[i] == x);
                } else {
                    assert(now[before.len() as int] == x);
                }
            }
        }
    }
}

proof fn kept_is_merge(all: Seq<Version>, order: Seq<usize>)
    requires
        ranked(all, order, 0, all.len() as int),
        all.len() <= usize::MAX,
    ensures
        is_merge(kept(all, order, order.len() as int), all),
{
    reveal(is_merge);
    let n = order.len() as int;
    kept_so_far(all, order, n);
    let s = kept(all, order, n);
    assert forall|v: Version| #[trigger] s.contains(v) <==> v.value is Some && exists|i: int|
        #[trigger] wins(all, i) && all[i] == v by {
        if s.contains(v) {
            let m = choose|m: int|
                0 <= m < n && wins(all, order[m] as int) && all[#[trigger] order[m] as int] == v;
            assert(wins(all, order[m] as int));
        }
        if v.value is Some && exists|i: int| #[trigger] wins(all, i) && all[i] == v {
            let i = choose|i: int| #[trigger] wins(all, i) && all[i] == v;
            assert(order.contains(i as usize));
            let m = choose|m: int| 0 <= m < n && order[m] == i as usize;
            assert(wins(all, order[m] as int) && all[order[m] as int] == v);
        }
    }
}

/// A table file with, of every key, the newest of `entries`, and without the
/// keys whose newest version is a deletion.
pub fn write_merged(entries: &Vec<(InternalKey, Option<Vec<u8>>)>) -> (r: Vec<u8>)
    ensures
        r@ == crate::kv::sstable::table_bytes(merged(types::versions_view(entries@))),
        is_merge(merged(types::versions_view(entries@)), types::versions_view(entries@)),
{
    let ghost all = types::versions_view(entries@);
    let total: usize = entries.len();
    let order = rank_range(entries, 0, total);
    let mut writer = SsTableWriter::create();
    let mut k: usize = 0;
    while k < order.len()
        invariant
            k <= order@.len(),
            all == types::versions_view(entries@),
            entries@.len() == all.len(),
            ranked(all, order@, 0, all.len() as int),
            writer.added() == kept(all, order@, k as int),
        decreases order@.len() - k,
    {
        let at: usize = order[k];
        assert(all[at as int] == types::version_view(entries@[at as int]));
        let seen: bool = if k == 0 {
            false
        } else {
            let last: usize = order[k - 1];
            assert(all[last as int] == types::version_view(entries@[last as int]));
            same_bytes(entries[last].0.user_key.as_slice(), entries[at].0.user_key.as_slice())
        };
        if !seen && entries[at].1.is_some() {
            writer.add(&entries[at].0, &entries[at].1);
        }
        k = k + 1;
    }
    proof {
        kept_is_merge(all, order@);
        merged_is(writer.added(), all);
    }
    writer.finish()
}

/// Of every key that occurs, one version counts.
pub proof fn a_key_has_a_winner(all: Seq<Version>, at: int)
    requires
        0 <= at < all.len(),
    ensures
        exists|i: int| #[trigger] wins(all, i) && all[i].key == all[at].key,
{
    let i = leader_up_to(all, all[at].key, at, all.len() as int);
    assert(wins(all, i));
}

proof fn leader_up_to(all: Seq<Version>, key: Seq<u8>, at: int, n: int) -> (i: int)
    requires
        0 <= at < n <= all.len(),
        all[at].key == key,
    ensures
        0 <= i < n,
        all[i].key == key,
        forall|j: int|
            0 <= j < n && j != i && (#[trigger] all[j]).key == key ==> outranks(all, i, j),
    decreases n,
{
    let last = n - 1;
    if at == last && forall|j: int| 0 <= j < last ==> (#[trigger] all[j]).key != key {
        last
    } else {
        let k = if at < last {
            at
        } else {
            choose|j: int| 0 <= j < last && (#[trigger] all[j]).key == key
        };
        let i = leader_up_to(all, key, k, last);
        outranks_is_total(all, i, last);
        if all[last].key == key && outranks(all, last, i) {
            assert forall|j: int|
                0 <= j < n && j != last && (#[trigger] all[j]).key == key implies outranks(
                all,
                last,
                j,
            ) by {
                if j != i {
                    outranks_is_transitive(all, last, i, j);
                }
            }
            last
        } else {
            i
        }
    }
}

/// The positions of any versions can be ranked.
proof fn can_be_ranked(all: Seq<Version>, n: int) -> (order: Seq<usize>)
    requires
        0 <= n <= all.len() <= usize::MAX,
    ensures
        ranked(all, order, 0, n),
    decreases n,
{
    if n == 0 {
        Seq::empty()
    } else {
        let last = n - 1;
        let before = can_be_ranked(all, last);
        let p = ranked_place(all, before, last, last);
        let order = before.insert(p, last as usize);
        before.insert_ensures(p, last as usize);
        assert forall|a: int, b: int| 0 <= a < b < order.len() implies outranks(
            all,
            order[a] as int,
            order[b] as int,
        ) by {
            let (x, y) = (if a < p {
                a
            } else {
                a - 1
            }, if b < p {
                b
            } else {
                b - 1
            });
            if a == p {
                outranks_is_total(all, last, before[y] as int);
            }
        }
        assert forall|i: int| 0 <= i < n implies order.contains(#[trigger] (i as usize)) by {
            if i < last {
                assert(before.contains(i as usize));
                let k = choose|k: int| 0 <= k < before.len() && before[k] == i as usize;
                if k < p {
                    assert(order[k] == i as usize);
                } else {
                    assert(order[k + 1] == i as usize);
                }
            } else {
                assert(order[p] == last as usize);
            }
        }
        order
    }
}

/// Where position `at` belongs among the first `k` of `order`.
proof fn ranked_place(all: Seq<Version>, order: Seq<usize>, at: int, k: int) -> (p: int)
    requires
        ranked(all, order, 0, at),
        0 <= k <= order.len(),
        forall|j: int| k <= j < order.len() ==> outranks(all, at, #[trigger] order[j] as int),
    ensures
        0 <= p <= order.len(),
        forall|j: int| 0 <= j < p ==> outranks(all, #[trigger] order[j] as int, at),
        forall|j: int| p <= j < order.len() ==> outranks(all, at, #[trigger] order[j] as int),
    decreases k,
{
    if k == 0 {
        0
    } else {
        outranks_is_total(all, at, order[k - 1] as int);
        if outranks(all, at, order[k - 1] as int) {
            ranked_place(all, order, at, k - 1)
        } else {
            assert forall|j: int| 0 <= j < k implies outranks(
                all,
                #[trigger] order[j] as int,
                at,
            ) by {
                if j < k - 1 {
                    outranks_is_transitive(all, order[j] as int, order[k - 1] as int, at);
                }
            }
            k
        }
    }
}

/// Any versions can be merged.
pub proof fn a_merge_exists(all: Seq<Version>)
    requires
        all.len() <= usize::MAX,
    ensures
        is_merge(merged(all), all),
{
    let order = can_be_ranked(all, all.len() as int);
    kept_is_merge(all, order);
    merged_is(kept(all, order, order.len() as int), all);
}

/// A lookup in a merge: the version that counts, unless it is a deletion.
pub proof fn merged_lookup(all: Seq<Version>, i: int)
    requires
        is_merge(merged(all), all),
        wins(all, i),
    ensures
        memtable::first_of(merged(all), all[i].key) == if all[i].value is Some {
            Some(all[i])
        } else {
            None
        },
{
    reveal(is_merge);
    let (s, key) = (merged(all), all[i].key);
    memtable::first_of_is(s, key);
    match memtable::first_of(s, key) {
        Some(v) => {
            let k = choose|k: int|
                0 <= k < s.len() && #[trigger] s[k] == v && forall|j: int|
                    0 <= j < k ==> (#[trigger] s[j]).key != key;
            assert(s.contains(s[k]));
            let j = choose|j: int| #[trigger] wins(all, j) && all[j] == v;
            if j != i {
                assert(all[j].key == all[i].key);
                assert(outranks(all, i, j) && outranks(all, j, i));
                outranks_is_total(all, i, j);
            }
        },
        None => {
            if all[i].value is Some {
                assert(s.contains(all[i]));
                let k = choose|k: int| 0 <= k < s.len() && s[k] == all[i];
                assert(s[k].key != key);
            }
        },
    }
}

/// A merge holds nothing of a key that does not occur.
pub proof fn merged_lookup_absent(all: Seq<Version>, key: Seq<u8>)
    requires
        is_merge(merged(all), all),
        forall|i: int| 0 <= i < all.len() ==> (#[trigger] all[i]).key != key,
    ensures
        memtable::first_of(merged(all), key) is None,
{
    reveal(is_merge);
    let s = merged(all);
    memtable::first_of_is(s, key);
    if memtable::first_of(s, key) is Some {
        let v = memtable::first_of(s, key)->0;
        let k = choose|k: int|
            0 <= k < s.len() && #[trigger] s[k] == v && forall|j: int|
                0 <= j < k ==> (#[trigger] s[j]).key != key;
        assert(s.contains(s[k]));
        let j = choose|j: int| #[trigger] wins(all, j) && all[j] == v;
        assert(all[j].key == key);
    }
}

} // verus!
