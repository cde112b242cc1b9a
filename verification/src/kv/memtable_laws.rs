//! What a table in memory holds after any number of writes.

use vstd::prelude::*;

use crate::kv::engine;
use crate::kv::memtable;
use crate::kv::types::Version;

verus! {

/// Nothing behind `i` was put under the same key and sequence number.
pub open spec fn put_last(puts: Seq<Version>, i: int) -> bool {
    &&& 0 <= i < puts.len()
    &&& forall|j: int|
        i < j < puts.len() ==> !((#[trigger] puts[j]).key == puts[i].key && puts[j].seqno
            == puts[i].seqno)
}

/// A table that was put together from nothing holds each key and sequence
/// number that was put exactly once, with the value last put for it, deletions
/// included, by key and newest first.
pub proof fn a_table_holds_what_was_put(puts: Seq<Version>)
    ensures
        memtable::in_order(engine::replayed(puts).versions),
        forall|v: Version| #[trigger]
            engine::replayed(puts).versions.contains(v) <==> exists|i: int| #[trigger]
                put_last(puts, i) && puts[i] == v,
    decreases puts.len(),
{
    let s = engine::replayed(puts).versions;
    if puts.len() > 0 {
        let (before, last) = (puts.drop_last(), puts.last());
        let was = engine::replayed(before).versions;
        a_table_holds_what_was_put(before);
        memtable::insertion_keeps_order(was, last);
        assert forall|v: Version| #[trigger] s.contains(v) <==> exists|i: int| #[trigger]
            put_last(puts, i) && puts[i] == v by {
            if s.contains(v) {
                if v == last {
                    assert(put_last(puts, puts.len() - 1));
                } else {
                    let i = choose|i: int| #[trigger] put_last(before, i) && before[i] == v;
                    assert(puts[i] == v);
                    assert forall|j: int| i < j < puts.len() implies !((#[trigger] puts[j]).key
                        == puts[i].key && puts[j].seqno == puts[i].seqno) by {
                        if j < before.len() {
                            assert(before[j] == puts[j]);
                        }
                    }
                    assert(put_last(puts, i));
                }
            }
            if exists|i: int| #[trigger] put_last(puts, i) && puts[i] == v {
                let i = choose|i: int| #[trigger] put_last(puts, i) && puts[i] == v;
                if i < before.len() {
                    assert(before[i] == v);
                    assert forall|j: int| i < j < before.len() implies !((#[trigger] before[j]).key
                        == before[i].key && before[j].seqno == before[i].seqno) by {
                        assert(before[j] == puts[j]);
                    }
                    assert(put_last(before, i));
                    assert(was.contains(v));
                    assert(puts[puts.len() - 1] == last);
                }
            }
        }
    } else {
        assert forall|v: Version| #[trigger] s.contains(v) <==> exists|i: int| #[trigger]
            put_last(puts, i) && puts[i] == v by {}
    }
}

/// What was put under a key and sequence number was last put at some place.
proof fn some_put_is_last(puts: Seq<Version>, j: int) -> (i: int)
    requires
        0 <= j < puts.len(),
    ensures
        put_last(puts, i),
        i >= j,
        puts[i].key == puts[j].key,
        puts[i].seqno == puts[j].seqno,
    decreases puts.len() - j,
{
    if exists|k: int|
        j < k < puts.len() && (#[trigger] puts[k]).key == puts[j].key && puts[k].seqno
            == puts[j].seqno {
        let k = choose|k: int|
            j < k < puts.len() && (#[trigger] puts[k]).key == puts[j].key && puts[k].seqno
                == puts[j].seqno;
        some_put_is_last(puts, k)
    } else {
        j
    }
}

/// The put at `i` is the newest of its key: none has a higher sequence number,
/// and none behind it the same.
pub open spec fn newest(puts: Seq<Version>, i: int) -> bool {
    &&& 0 <= i < puts.len()
    &&& forall|j: int|
        0 <= j < puts.len() && (#[trigger] puts[j]).key == puts[i].key ==> puts[j].seqno
            < puts[i].seqno || (puts[j].seqno == puts[i].seqno && j <= i)
}

/// Whatever the order of the sequence numbers, a key is answered by the put for
/// exactly that key with the highest, the last where one repeats; and by none
/// if nothing was put for it.
pub proof fn the_newest_put_answers(puts: Seq<Version>, key: Seq<u8>)
    ensures
        match memtable::first_of(engine::replayed(puts).versions, key) {
            Some(v) => v.key == key && exists|i: int| #[trigger] newest(puts, i) && puts[i] == v,
            None => forall|i: int| 0 <= i < puts.len() ==> (#[trigger] puts[i]).key != key,
        },
{
    let s = engine::replayed(puts).versions;
    a_table_holds_what_was_put(puts);
    memtable::first_of_is(s, key);
    match memtable::first_of(s, key) {
        Some(v) => {
            assert(s.contains(v));
            let i = choose|i: int| #[trigger] put_last(puts, i) && puts[i] == v;
            assert forall|j: int|
                0 <= j < puts.len() && (#[trigger] puts[j]).key == puts[i].key implies puts[j].seqno
                < puts[i].seqno || (puts[j].seqno == puts[i].seqno && j <= i) by {
                let k = some_put_is_last(puts, j);
                assert(s.contains(puts[k]));
                let at = choose|at: int| 0 <= at < s.len() && s[at] == puts[k];
                memtable::the_first_is_the_newest(s, key, at);
            }
            assert(newest(puts, i));
        },
        None => {
            assert forall|i: int| 0 <= i < puts.len() implies (#[trigger] puts[i]).key != key by {
                let k = some_put_is_last(puts, i);
                assert(s.contains(puts[k]));
                let at = choose|at: int| 0 <= at < s.len() && s[at] == puts[k];
                assert(s[at].key == puts[i].key);
            }
        },
    }
}

} // verus!
