//! The ordered table in memory that takes the writes.

use vstd::prelude::*;

use crate::bytes::{same_bytes, copy_bytes};
use crate::kv::types::{self, copy_value, InternalKey, Side, Version};

verus! {

pub struct Memtable {
    entries: Vec<(InternalKey, Option<Vec<u8>>)>,
    size: usize,
}

/// The versions in the table, by key and newest first, and roughly how many
/// bytes they take.
#[verifier::ext_equal]
pub struct MemView {
    pub versions: Seq<Version>,
    pub size: nat,
}

/// `a` stands before `b` in a table.
pub open spec fn before(a: Version, b: Version) -> bool {
    types::version_precedes(a.key, a.seqno, b.key, b.seqno)
}

/// Versions stand in order, none twice.
pub open spec fn in_order(s: Seq<Version>) -> bool {
    forall|i: int, j: int| 0 <= i < j < s.len() ==> before(s[i], s[j])
}

/// How many versions stand before (`key`, `seqno`), where they are in order.
pub open spec fn slot(s: Seq<Version>, key: Seq<u8>, seqno: u64) -> nat
    decreases s.len(),
{
    if s.len() == 0 {
        0
    } else if types::version_precedes(s.last().key, s.last().seqno, key, seqno) {
        s.len()
    } else {
        slot(s.drop_last(), key, seqno)
    }
}

/// `s` with `v` in its place, instead of what was there under its key and
/// sequence number.
pub open spec fn inserted(s: Seq<Version>, v: Version) -> Seq<Version> {
    let at = slot(s, v.key, v.seqno) as int;
    if at < s.len() && s[at].key == v.key && s[at].seqno == v.seqno {
        s.update(at, v)
    } else {
        s.insert(at, v)
    }
}

/// The first version of `key` in `s`.
pub open spec fn first_of(s: Seq<Version>, key: Seq<u8>) -> Option<Version>
    decreases s.len(),
{
    if s.len() == 0 {
        None
    } else if s[0].key == key {
        Some(s[0])
    } else {
        first_of(s.drop_first(), key)
    }
}

/// The bytes that a version is counted with.
pub open spec fn weight(key: Seq<u8>, value: Option<Seq<u8>>) -> nat {
    key.len() + match value {
        Some(v) => v.len(),
        None => 0,
    } + 16
}

impl MemView {
    pub open spec fn empty() -> MemView {
        MemView { versions: Seq::empty(), size: 0 }
    }

    pub open spec fn put(self, v: Version) -> MemView {
        MemView {
            versions: inserted(self.versions, v),
            size: self.size + weight(v.key, v.value),
        }
    }
}

pub proof fn before_is_transitive(a: Version, b: Version, c: Version)
    requires
        before(a, b),
        before(b, c),
    ensures
        before(a, c),
{
    if types::precedes(a.key, b.key) && types::precedes(b.key, c.key) {
        types::byte_order_is_transitive(a.key, b.key, c.key);
    }
}

pub proof fn before_is_total(a: Version, b: Version)
    ensures
        before(a, b) || before(b, a) || (a.key == b.key && a.seqno == b.seqno),
        !(before(a, b) && before(b, a)),
        !before(a, a),
{
    types::byte_order_is_total(a.key, b.key);
    types::byte_order_is_total(a.key, a.key);
}

/// Where the versions part into those before and those not before, there is
/// the slot.
proof fn slot_is(s: Seq<Version>, key: Seq<u8>, seqno: u64, at: int)
    requires
        0 <= at <= s.len(),
        forall|i: int|
            0 <= i < at ==> types::version_precedes(
                (#[trigger] s[i]).key,
                s[i].seqno,
                key,
                seqno,
            ),
        forall|i: int|
            at <= i < s.len() ==> !types::version_precedes(
                (#[trigger] s[i]).key,
                s[i].seqno,
                key,
                seqno,
            ),
    ensures
        slot(s, key, seqno) == at,
    decreases s.len(),
{
    if s.len() > at {
        slot_is(s.drop_last(), key, seqno, at);
    }
}

/// In an ordered table the slot parts the versions.
pub proof fn slot_parts(s: Seq<Version>, key: Seq<u8>, seqno: u64)
    requires
        in_order(s),
    ensures
        slot(s, key, seqno) <= s.len(),
        forall|i: int|
            0 <= i < slot(s, key, seqno) ==> types::version_precedes(
                (#[trigger] s[i]).key,
                s[i].seqno,
                key,
                seqno,
            ),
        forall|i: int|
            slot(s, key, seqno) <= i < s.len() ==> !types::version_precedes(
                (#[trigger] s[i]).key,
                s[i].seqno,
                key,
                seqno,
            ),
    decreases s.len(),
{
    if s.len() > 0 {
        let v = Version { key, seqno, value: None };
        if before(s.last(), v) {
            assert forall|i: int| 0 <= i < s.len() implies before(#[trigger] s[i], v) by {
                if i < s.len() - 1 {
                    before_is_transitive(s[i], s.last(), v);
                }
            }
        } else {
            slot_parts(s.drop_last(), key, seqno);
            assert forall|i: int| slot(s, key, seqno) <= i < s.len() implies !before(
                #[trigger] s[i],
                v,
            ) by {
                if i < s.len() - 1 {
                    assert(s.drop_last()[i] == s[i]);
                }
            }
            assert forall|i: int| 0 <= i < slot(s, key, seqno) implies before(
                #[trigger] s[i],
                v,
            ) by {
                assert(s.drop_last()[i] == s[i]);
            }
        }
    }
}

/// A write keeps the order. It puts the new version in, in place of one with
/// the same key and sequence number, and leaves every other version alone.
pub proof fn insertion_keeps_order(s: Seq<Version>, v: Version)
    requires
        in_order(s),
    ensures
        in_order(inserted(s, v)),
        forall|x: Version| #[trigger]
            inserted(s, v).contains(x) <==> x == v || (s.contains(x) && !(x.key == v.key && x.seqno
                == v.seqno)),
{
    let at = slot(s, v.key, v.seqno) as int;
    let r = inserted(s, v);
    slot_parts(s, v.key, v.seqno);
    let same = at < s.len() && s[at].key == v.key && s[at].seqno == v.seqno;
    if !same {
        s.insert_ensures(at, v);
    }
    assert forall|i: int| at <= i < s.len() && !(i == at && same) implies before(
        v,
        #[trigger] s[i],
    ) by {
        before_is_total(s[i], v);
        if i > at {
            before_is_total(s[at], v);
            if s[at].key == v.key && s[at].seqno == v.seqno {
                assert(before(s[at], s[i]));
            } else {
                before_is_transitive(v, s[at], s[i]);
            }
        }
    }
    assert forall|i: int, j: int| 0 <= i < j < r.len() implies before(r[i], r[j]) by {
        if same {
            if i == at {
                assert(before(v, s[j]));
            } else if j == at {
                assert(before(s[i], v));
            }
        } else {
            if i < at && j == at {
                assert(before(s[i], v));
            } else if i == at {
                assert(before(v, s[j - 1]));
            }
        }
    }
    assert forall|x: Version| #[trigger] r.contains(x) <==> x == v || (s.contains(x) && !(x.key
        == v.key && x.seqno == v.seqno)) by {
        if r.contains(x) && x != v {
            let i = choose|i: int| 0 <= i < r.len() && r[i] == x;
            let k = if same || i < at {
                i
            } else {
                i - 1
            };
            assert(s[k] == x);
            before_is_total(v, v);
            if k < at {
                assert(before(s[k], v));
                before_is_total(s[k], v);
            } else {
                assert(before(v, s[k]));
                before_is_total(v, s[k]);
            }
            if x.key == v.key && x.seqno == v.seqno {
                types::byte_order_is_total(x.key, v.key);
            }
        }
        if s.contains(x) && !(x.key == v.key && x.seqno == v.seqno) {
            let i = choose|i: int| 0 <= i < s.len() && s[i] == x;
            if same || i < at {
                assert(r[i] == x);
            } else {
                assert(r[i + 1] == x);
            }
        }
        assert(r[at] == v);
    }
}

/// The first version of a key, where there is one: it is of that key, it is in
/// the table, and nothing before it is of that key.
pub proof fn first_of_is(s: Seq<Version>, key: Seq<u8>)
    ensures
        match first_of(s, key) {
            Some(v) => v.key == key && exists|i: int|
                0 <= i < s.len() && #[trigger] s[i] == v && forall|j: int|
                    0 <= j < i ==> (#[trigger] s[j]).key != key,
            None => forall|i: int| 0 <= i < s.len() ==> (#[trigger] s[i]).key != key,
        },
    decreases s.len(),
{
    if s.len() > 0 && s[0].key != key {
        let rest = s.drop_first();
        first_of_is(rest, key);
        match first_of(rest, key) {
            Some(v) => {
                let i = choose|i: int|
                    0 <= i < rest.len() && #[trigger] rest[i] == v && forall|j: int|
                        0 <= j < i ==> (#[trigger] rest[j]).key != key;
                assert(s[i + 1] == v);
                assert forall|j: int| 0 <= j < i + 1 implies (#[trigger] s[j]).key != key by {
                    if j > 0 {
                        assert(rest[j - 1] == s[j]);
                    }
                }
            },
            None => {
                assert forall|i: int| 0 <= i < s.len() implies (#[trigger] s[i]).key != key by {
                    if i > 0 {
                        assert(rest[i - 1] == s[i]);
                    }
                }
            },
        }
    } else if s.len() > 0 {
        assert(s[0] == first_of(s, key)->0);
    }
}

/// A version at `i` with none of its key before it is the first.
pub proof fn first_of_at(s: Seq<Version>, i: int)
    requires
        0 <= i < s.len(),
        forall|j: int| 0 <= j < i ==> (#[trigger] s[j]).key != s[i].key,
    ensures
        first_of(s, s[i].key) == Some(s[i]),
    decreases i,
{
    if i > 0 {
        let rest = s.drop_first();
        assert(s[0].key != s[i].key);
        assert forall|j: int| 0 <= j < i - 1 implies (#[trigger] rest[j]).key != rest[i - 1].key by {
            assert(rest[j] == s[j + 1]);
        }
        first_of_at(rest, i - 1);
    }
}

/// In an ordered table the first version of a key is the newest.
pub proof fn the_first_is_the_newest(s: Seq<Version>, key: Seq<u8>, i: int)
    requires
        in_order(s),
        0 <= i < s.len(),
        s[i].key == key,
    ensures
        first_of(s, key) matches Some(v) && v.seqno >= s[i].seqno && (v.seqno == s[i].seqno ==> v
            == s[i]),
{
    first_of_is(s, key);
    let v = first_of(s, key)->0;
    let k = choose|k: int|
        0 <= k < s.len() && #[trigger] s[k] == v && forall|j: int|
            0 <= j < k ==> (#[trigger] s[j]).key != key;
    if k < i {
        assert(before(s[k], s[i]));
        types::byte_order_is_total(key, key);
    }
}

impl View for Memtable {
    type V = MemView;

    closed spec fn view(&self) -> MemView {
        MemView { versions: types::versions_view(self.entries@), size: self.size as nat }
    }
}

impl Default for Memtable {
    fn default() -> (r: Self)
        ensures
            r@ == MemView::empty(),
    {
        Memtable::new()
    }
}

impl Memtable {
    #[verifier::type_invariant]
    spec fn inv(self) -> bool {
        in_order(types::versions_view(self.entries@))
    }

    pub fn new() -> (r: Self)
        ensures
            r@ == MemView::empty(),
    {
        let r = Memtable { entries: Vec::new(), size: 0 };
        assert(r@ =~= MemView::empty());
        r
    }

    /// How many versions stand before (`key`, `seqno`).
    fn find(&self, key: &[u8], seqno: u64) -> (r: usize)
        ensures
            r == slot(self@.versions, key@, seqno),
            r <= self@.versions.len(),
    {
        proof {
            use_type_invariant(self);
            slot_parts(self@.versions, key@, seqno);
        }
        let ghost s = self@.versions;
        let ghost at = slot(s, key@, seqno);
        let wanted = InternalKey { user_key: copy_bytes(key), seqno };
        let mut low: usize = 0;
        let mut high: usize = self.entries.len();
        while low < high
            invariant
                low <= at <= high <= self.entries@.len(),
                s == self@.versions,
                at == slot(s, key@, seqno),
                in_order(s),
                wanted.user_key@ == key@,
                wanted.seqno == seqno,
            decreases high - low,
        {
            let mid: usize = low + (high - low) / 2;
            proof {
                slot_parts(s, key@, seqno);
                assert(s[mid as int] == types::version_view(self.entries@[mid as int]));
            }
            if self.entries[mid].0.compare(&wanted) == Side::Before {
                low = mid + 1;
            } else {
                high = mid;
            }
        }
        low
    }

    /// Puts a version in: a value, or none for a deletion.
    pub fn put(&mut self, key: Vec<u8>, value: Option<Vec<u8>>, seqno: u64)
        requires
            old(self)@.size + weight(key@, types::value_view(value)) <= usize::MAX,
        ensures
            final(self)@ == old(self)@.put(
                Version { key: key@, seqno, value: types::value_view(value) },
            ),
    {
        proof {
            use_type_invariant(&*self);
        }
        let ghost v = Version { key: key@, seqno, value: types::value_view(value) };
        let ghost s = self@.versions;
        proof {
            insertion_keeps_order(s, v);
        }
        let added: usize = key.len() + match &value {
            Some(x) => x.len(),
            None => 0,
        } + 16;
        let size: usize = self.size + added;
        let at: usize = self.find(key.as_slice(), seqno);
        let same: bool = at < self.entries.len() && self.entries[at].0.seqno == seqno
            && same_bytes(self.entries[at].0.user_key.as_slice(), key.as_slice());
        let mut entries: Vec<(InternalKey, Option<Vec<u8>>)> = Vec::new();
        assert(at < s.len() ==> s[at as int] == types::version_view(self.entries@[at as int]));
        let entry = (InternalKey { user_key: key, seqno }, value);
        let ghost held = self.entries@;
        std::mem::swap(&mut entries, &mut self.entries);
        if same {
            entries.set(at, entry);
            assert(types::versions_view(entries@) =~= inserted(s, v));
        } else {
            entries.insert(at, entry);
            assert(types::versions_view(entries@) =~= inserted(s, v));
        }
        self.entries = entries;
        self.size = size;
    }

    /// The newest version of `key`: none if there is none, and a version
    /// without a value if the key was deleted.
    pub fn get(&self, key: &[u8]) -> (r: Option<Option<Vec<u8>>>)
        ensures
            match (r, first_of(self@.versions, key@)) {
                (Some(value), Some(v)) => types::value_view(value) == v.value,
                (None, None) => true,
                _ => false,
            },
    {
        let at: usize = self.find(key, u64::MAX);
        let ghost s = self@.versions;
        proof {
            use_type_invariant(self);
            slot_parts(s, key@, u64::MAX);
            first_of_is(s, key@);
            assert forall|i: int| 0 <= i < at implies (#[trigger] s[i]).key != key@ by {
                types::byte_order_is_total(s[i].key, key@);
            }
            assert(at < s.len() ==> s[at as int] == types::version_view(self.entries@[at as int]));
        }
        if at < self.entries.len() && same_bytes(
            self.entries[at].0.user_key.as_slice(),
            key,
        ) {
            proof {
                first_of_at(s, at as int);
            }
            Some(copy_value(&self.entries[at].1))
        } else {
            proof {
                if first_of(s, key@) is Some {
                    let v = first_of(s, key@)->0;
                    let k = choose|k: int|
                        0 <= k < s.len() && #[trigger] s[k] == v && forall|j: int|
                            0 <= j < k ==> (#[trigger] s[j]).key != key@;
                    assert(k > at);
                    assert(before(s[at as int], s[k]));
                    types::byte_order_is_total(s[at as int].key, key@);
                }
            }
            None
        }
    }

    /// The versions, by key and newest first.
    pub fn iter(&self) -> (r: &[(InternalKey, Option<Vec<u8>>)])
        ensures
            types::versions_view(r@) == self@.versions,
            in_order(types::versions_view(r@)),
    {
        proof {
            use_type_invariant(self);
        }
        self.entries.as_slice()
    }

    pub fn approx_size_bytes(&self) -> (r: usize)
        ensures
            r == self@.size,
    {
        self.size
    }
}

} // verus!
