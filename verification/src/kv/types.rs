//! Versions of keys and their order.

use std::cmp::Ordering;

use vstd::prelude::*;

use crate::bytes::copy_bytes;

verus! {

pub type Seqno = u64;

/// A key together with the sequence number of one of its versions.
#[derive(Debug, PartialEq, Eq)]
pub struct InternalKey {
    pub user_key: Vec<u8>,
    pub seqno: Seqno,
}

/// One version of a key: a value, or none where the key was deleted.
#[verifier::ext_equal]
pub struct Version {
    pub key: Seq<u8>,
    pub seqno: Seqno,
    pub value: Option<Seq<u8>>,
}

/// `a` comes before `b` in byte order.
pub open spec fn precedes(a: Seq<u8>, b: Seq<u8>) -> bool
    decreases a.len(),
{
    if b.len() == 0 {
        false
    } else if a.len() == 0 {
        true
    } else if a[0] == b[0] {
        precedes(a.drop_first(), b.drop_first())
    } else {
        a[0] < b[0]
    }
}

/// A version comes before another by its key; of one key, the newer version
/// comes first.
pub open spec fn version_precedes(
    a_key: Seq<u8>,
    a_seqno: Seqno,
    b_key: Seq<u8>,
    b_seqno: Seqno,
) -> bool {
    precedes(a_key, b_key) || (a_key == b_key && a_seqno > b_seqno)
}

/// The first byte in which two keys differ decides which comes first; where
/// they differ in none, the longer one comes behind its own beginning.
pub proof fn the_first_difference_decides(a: Seq<u8>, b: Seq<u8>, n: int)
    requires
        0 <= n <= a.len(),
        n <= b.len(),
        forall|i: int| 0 <= i < n ==> a[i] == b[i],
    ensures
        n < a.len() && n < b.len() && a[n] < b[n] ==> precedes(a, b) && !precedes(b, a),
        n == a.len() && n < b.len() ==> precedes(a, b) && !precedes(b, a),
    decreases n,
{
    if n > 0 {
        let (c, d) = (a.drop_first(), b.drop_first());
        assert forall|i: int| 0 <= i < n - 1 implies c[i] == d[i] by {
            assert(a[i + 1] == b[i + 1]);
        }
        the_first_difference_decides(c, d, n - 1);
        assert(a[0] == b[0]);
    }
}

/// Of two versions, the one with the lesser key comes first; of one key, the
/// one that was written later, and none comes before itself.
pub proof fn newer_versions_come_first(key: Seq<u8>, other: Seq<u8>, s: Seqno, t: Seqno)
    ensures
        version_precedes(key, s, key, t) <==> s > t,
        key != other ==> (version_precedes(key, s, other, t) <==> !version_precedes(
            other,
            t,
            key,
            s,
        )),
        precedes(key, other) ==> version_precedes(key, s, other, t),
{
    byte_order_is_total(key, other);
    byte_order_is_total(key, key);
}

/// Byte order is total: of two different keys one comes first, and not both.
pub proof fn byte_order_is_total(a: Seq<u8>, b: Seq<u8>)
    ensures
        precedes(a, b) || precedes(b, a) || a == b,
        !(precedes(a, b) && precedes(b, a)),
        !precedes(a, a),
    decreases a.len(),
{
    if a.len() > 0 && b.len() > 0 && a[0] == b[0] {
        byte_order_is_total(a.drop_first(), b.drop_first());
        if a.drop_first() == b.drop_first() {
            assert(a =~= seq![a[0]] + a.drop_first());
            assert(b =~= seq![b[0]] + b.drop_first());
        }
    } else if a.len() == 0 && b.len() == 0 {
        assert(a =~= b);
    }
    if a.len() > 0 {
        byte_order_is_total(a.drop_first(), a.drop_first());
    }
}

/// Byte order is transitive.
pub proof fn byte_order_is_transitive(a: Seq<u8>, b: Seq<u8>, c: Seq<u8>)
    requires
        precedes(a, b),
        precedes(b, c),
    ensures
        precedes(a, c),
    decreases a.len(),
{
    if a.len() > 0 && a[0] == b[0] && b[0] == c[0] {
        byte_order_is_transitive(a.drop_first(), b.drop_first(), c.drop_first());
    }
}

/// How two byte strings compare.
#[derive(Clone, Copy, Debug, PartialEq, Eq, Structural)]
pub enum Side {
    Before,
    Same,
    After,
}

pub open spec fn side(a: Seq<u8>, b: Seq<u8>) -> Side {
    if a == b {
        Side::Same
    } else if precedes(a, b) {
        Side::Before
    } else {
        Side::After
    }
}

pub fn compare_bytes(a: &[u8], b: &[u8]) -> (r: Side)
    ensures
        r == side(a@, b@),
        r == Side::After <==> precedes(b@, a@),
{
    let mut i: usize = 0;
    proof {
        byte_order_is_total(a@, b@);
        assert(a@.skip(0) =~= a@);
        assert(b@.skip(0) =~= b@);
    }
    while i < a.len() && i < b.len()
        invariant
            i <= a@.len(),
            i <= b@.len(),
            a@.take(i as int) == b@.take(i as int),
            precedes(a@, b@) == precedes(a@.skip(i as int), b@.skip(i as int)),
            precedes(b@, a@) == precedes(b@.skip(i as int), a@.skip(i as int)),
        decreases a@.len() - i,
    {
        proof {
            byte_order_is_total(a@, b@);
            assert(a@.skip(i as int).drop_first() =~= a@.skip(i + 1));
            assert(b@.skip(i as int).drop_first() =~= b@.skip(i + 1));
            assert(a@.take(i + 1) =~= a@.take(i as int).push(a@[i as int]));
            assert(b@.take(i + 1) =~= b@.take(i as int).push(b@[i as int]));
        }
        if a[i] < b[i] {
            return Side::Before;
        }
        if a[i] > b[i] {
            return Side::After;
        }
        i = i + 1;
    }
    proof {
        byte_order_is_total(a@, b@);
    }
    if i < b.len() {
        Side::Before
    } else if i < a.len() {
        Side::After
    } else {
        assert(a@ =~= a@.take(i as int));
        assert(b@ =~= b@.take(i as int));
        Side::Same
    }
}

impl InternalKey {
    pub open spec fn precedes(self, other: InternalKey) -> bool {
        version_precedes(self.user_key@, self.seqno, other.user_key@, other.seqno)
    }

    /// How the two compare, the newer version of one key first.
    pub fn compare(&self, other: &InternalKey) -> (r: Side)
        ensures
            r == Side::Before <==> self.precedes(*other),
            r == Side::After <==> other.precedes(*self),
            r == Side::Same <==> self.user_key@ == other.user_key@ && self.seqno == other.seqno,
    {
        proof {
            byte_order_is_total(self.user_key@, other.user_key@);
        }
        match compare_bytes(self.user_key.as_slice(), other.user_key.as_slice()) {
            Side::Before => Side::Before,
            Side::After => Side::After,
            Side::Same => if self.seqno > other.seqno {
                Side::Before
            } else if self.seqno < other.seqno {
                Side::After
            } else {
                Side::Same
            },
        }
    }
}

impl Clone for InternalKey {
    fn clone(&self) -> (r: Self)
        ensures
            r.user_key@ == self.user_key@,
            r.seqno == self.seqno,
    {
        InternalKey { user_key: copy_bytes(self.user_key.as_slice()), seqno: self.seqno }
    }
}

impl PartialOrd for InternalKey {
    fn partial_cmp(&self, other: &Self) -> (r: Option<Ordering>) {
        proof {
            byte_order_is_total(self.user_key@, other.user_key@);
        }
        match self.compare(other) {
            Side::Before => Some(Ordering::Less),
            Side::Same => Some(Ordering::Equal),
            Side::After => Some(Ordering::Greater),
        }
    }
}

impl vstd::std_specs::cmp::PartialOrdSpecImpl for InternalKey {
    open spec fn obeys_partial_cmp_spec() -> bool {
        true
    }

    open spec fn partial_cmp_spec(&self, other: &Self) -> Option<Ordering> {
        if self.precedes(*other) {
            Some(Ordering::Less)
        } else if other.precedes(*self) {
            Some(Ordering::Greater)
        } else {
            Some(Ordering::Equal)
        }
    }
}

/// A value, or none, over sequences.
pub open spec fn value_view(value: Option<Vec<u8>>) -> Option<Seq<u8>> {
    match value {
        Some(v) => Some(v@),
        None => None,
    }
}

pub open spec fn version_view(entry: (InternalKey, Option<Vec<u8>>)) -> Version {
    Version { key: entry.0.user_key@, seqno: entry.0.seqno, value: value_view(entry.1) }
}

pub open spec fn versions_view(s: Seq<(InternalKey, Option<Vec<u8>>)>) -> Seq<Version> {
    s.map_values(|e: (InternalKey, Option<Vec<u8>>)| version_view(e))
}

pub proof fn versions_view_push(
    s: Seq<(InternalKey, Option<Vec<u8>>)>,
    e: (InternalKey, Option<Vec<u8>>),
)
    ensures
        versions_view(s.push(e)) == versions_view(s).push(version_view(e)),
{
    assert(versions_view(s.push(e)) =~= versions_view(s).push(version_view(e)));
}

pub fn copy_value(value: &Option<Vec<u8>>) -> (r: Option<Vec<u8>>)
    ensures
        value_view(r) == value_view(*value),
{
    match value {
        Some(v) => Some(copy_bytes(v.as_slice())),
        None => None,
    }
}

} // verus!
