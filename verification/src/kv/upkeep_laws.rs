//! What the store does by itself: when it writes its table out, and when it
//! merges.

use vstd::prelude::*;

use crate::kv::engine::{self, ActionView, PendingView, StoreState};
use crate::kv::engine_laws;
use crate::kv::memtable::MemView;
use crate::kv::merge;
use crate::kv::sstable;
use crate::kv::types::{self, Version};
use crate::kv::wal;

verus! {

/// The bytes that writes are counted with: those of their keys and values, and
/// sixteen for each.
pub open spec fn load(writes: Seq<Version>) -> nat
    decreases writes.len(),
{
    if writes.len() == 0 {
        0
    } else {
        let v = writes.last();
        load(writes.drop_last()) + v.key.len() + (match v.value {
            Some(value) => value.len(),
            None => 0,
        }) + 16
    }
}

/// The size of a table in memory is the sum over everything that was put into
/// it, whether or not a later put took its place.
pub proof fn a_table_counts_every_write(writes: Seq<Version>)
    ensures
        engine::replayed(writes).size == load(writes),
    decreases writes.len(),
{
    if writes.len() > 0 {
        a_table_counts_every_write(writes.drop_last());
    }
}

/// A write that is done makes the store write its table out exactly if the table
/// has come to four mebibytes or more by then, counting all that is in it. The
/// file that is handed out holds the whole table, the new write included, under
/// a number that no table has.
pub proof fn a_full_table_is_written_out(state: StoreState, v: Version)
    requires
        engine_laws::is_sound(state),
        state.pending == Some(PendingView::Write(v)),
        engine_laws::next_within_limits(state),
    ensures
        ({
            let after = state.done();
            let size = state.mem.size + v.key.len() + (match v.value {
                Some(value) => value.len(),
                None => 0,
            }) + 16;
            &&& after.fault is None
            &&& after.state.mem.size == size
            &&& after.state.mem.versions.contains(v)
            &&& after.state.tables == state.tables
            &&& size < 4 * 1024 * 1024 ==> after.state.pending is None && after.action is None
            &&& size >= 4 * 1024 * 1024 ==> {
                &&& after.action matches Some(ActionView::PublishTable(id, file)) && {
                    &&& after.state.pending == Some(PendingView::Flush(id, file))
                    &&& forall|t: int|
                        0 <= t < state.tables.len() ==> (#[trigger] state.tables[t]).0 != id
                    &&& sstable::table_of(file) is Ok
                    &&& sstable::table_of(file)->Ok_0.entries == after.state.mem.versions
                }
            }
        }),
{
    let stored = state.stored(v);
    engine_laws::put_is_sound(state, v);
    crate::kv::memtable::insertion_keeps_order(state.mem.versions, v);
    sstable::a_table_reads_back(stored.mem.versions);
}

/// Writing the table out, from where a flush is asked for: a file with the whole
/// table is published, under a number that no table has and that is not given
/// out again; then the log is emptied; then the table in memory. If there is
/// nothing in it, nothing is done.
pub proof fn a_flush_moves_the_table_out(state: StoreState)
    requires
        engine_laws::is_sound(state),
        state.idle(),
        engine_laws::within_limits(state),
    ensures
        ({
            let first = state.flush();
            &&& first.fault is None
            &&& state.mem.size == 0 ==> first.action is None && first.state == state
            &&& state.mem.size > 0 ==> {
                let second = first.state.done();
                let third = second.state.done();
                &&& first.action matches Some(ActionView::PublishTable(id, file)) && {
                    &&& id == state.next_id
                    &&& first.state.next_id == state.next_id + 1
                    &&& sstable::table_of(file) is Ok
                    &&& sstable::table_of(file)->Ok_0.entries == state.mem.versions
                    &&& second.state.tables.len() == state.tables.len() + 1
                    &&& second.state.tables[0].0 == id
                    &&& second.state.tables[0].1.entries == state.mem.versions
                    &&& second.state.tables.skip(1) == state.tables
                }
                &&& second.action == Some(ActionView::ResetWal)
                &&& second.state.mem == state.mem
                &&& third.state.mem.versions.len() == 0
                &&& third.state.mem.size == 0
                &&& third.state.tables == second.state.tables
                &&& second.state.tables.len() <= 4 ==> third.state.idle() && third.action is None
                &&& second.state.tables.len() > 4 ==> (third.action is Some
                    && third.action->0 is PublishTable && third.state.pending is Some
                    && third.state.pending->0 is Merge)
            }
        }),
{
    let first = state.flush();
    if state.mem.size > 0 {
        let second = first.state.done();
        sstable::a_table_reads_back(state.mem.versions);
        assert(second.state.tables.skip(1) =~= state.tables);
    } else {
        assert(first.state =~= state);
    }
}

/// A merge, from where it is asked for: with fewer than two tables there is
/// nothing to merge. Otherwise one file is published that holds every key at most
/// once and no deletion; once it is there it is the only table, and every table
/// that was there before is removed, one after the other.
pub proof fn a_merge_leaves_one_table(state: StoreState)
    requires
        engine_laws::is_sound(state),
        state.idle(),
        engine_laws::within_limits(state),
    ensures
        ({
            let first = state.compact();
            &&& first.fault is None
            &&& state.tables.len() < 2 ==> first.action is None && first.state == state
            &&& state.tables.len() >= 2 ==> {
                let second = first.state.done();
                &&& first.action matches Some(ActionView::PublishTable(id, file)) && {
                    &&& id == state.next_id
                    &&& first.state.next_id == state.next_id + 1
                    &&& second.state.tables.len() == 1
                    &&& second.state.tables[0].0 == id
                    &&& sstable::table_of(file) is Ok
                    &&& second.state.tables[0].1 == sstable::table_of(file)->Ok_0
                    &&& tells_each_key_once(second.state.tables[0].1.entries)
                }
                &&& second.fault is None
                &&& second.state.mem == state.mem
                &&& second.action == Some(ActionView::RemoveTable(state.tables[0].0))
                &&& second.state.pending matches Some(PendingView::Remove(ids)) && {
                    &&& ids.len() == state.tables.len()
                    &&& forall|t: int|
                        0 <= t < ids.len() ==> #[trigger] ids[t] == state.tables[t].0
                }
            }
        }),
{
    let first = state.compact();
    if state.tables.len() >= 2 {
        let all = engine::all_entries(state.tables);
        merge::a_merge_exists(all);
        let s = merge::merged(all);
        engine_laws::starting_changes_no_value(state);
        engine_laws::housekeeping_changes_no_value(first.state);
        engine_laws::a_merge_is_read_back(first.state);
        assert(tells_each_key_once(s)) by {
            reveal(merge::is_merge);
            assert forall|i: int, j: int| 0 <= i < j < s.len() implies (#[trigger] s[i]).key != (
            #[trigger] s[j]).key by {
                assert(types::precedes(s[i].key, s[j].key));
                types::byte_order_is_total(s[i].key, s[j].key);
                types::byte_order_is_total(s[j].key, s[j].key);
            }
            assert forall|i: int| 0 <= i < s.len() implies (#[trigger] s[i]).value is Some by {
                assert(s.contains(s[i]));
            }
        }
    } else {
        assert(first.state =~= state);
    }
}

/// Every key stands there at most once, with a value.
pub open spec fn tells_each_key_once(s: Seq<Version>) -> bool {
    &&& forall|i: int, j: int|
        0 <= i < j < s.len() ==> (#[trigger] s[i]).key != (#[trigger] s[j]).key
    &&& forall|i: int| 0 <= i < s.len() ==> (#[trigger] s[i]).value is Some
}

/// The tables that are to be removed go one after the other, each once, and the
/// store rests when none is left.
pub proof fn tables_are_removed_one_by_one(state: StoreState, ids: Seq<u64>)
    requires
        state.pending == Some(PendingView::Remove(ids)),
        ids.len() > 0,
    ensures
        ({
            let after = state.done();
            &&& after.fault is None
            &&& after.state.mem == state.mem
            &&& after.state.tables == state.tables
            &&& ids.len() == 1 ==> after.action is None && after.state.idle()
            &&& ids.len() > 1 ==> after.action == Some(ActionView::RemoveTable(ids[1]))
                && after.state.pending == Some(PendingView::Remove(ids.skip(1)))
        }),
{
}

/// A write is put at the end of the log before it counts: the bytes that are
/// handed out read back as that write and nothing else, under a number that is
/// used once, and until they are on disk every key keeps its value.
pub proof fn a_write_goes_to_the_log_first(state: StoreState, key: Seq<u8>, value: Option<Seq<u8>>)
    requires
        state.idle(),
        state.next_seqno < u64::MAX,
        wal::fits(Version { key, seqno: 0, value }),
    ensures
        ({
            let step = state.write(key, value);
            &&& step.fault is None
            &&& step.action matches Some(ActionView::AppendWal(bytes)) && wal::wal_records(bytes)
                == seq![Version { key, seqno: state.next_seqno, value }]
            &&& step.state.next_seqno == state.next_seqno + 1
            &&& step.state.mem == state.mem
            &&& step.state.tables == state.tables
            &&& !step.state.idle()
            &&& forall|k: Seq<u8>| #[trigger] step.state.get(k) == state.get(k)
        }),
{
    let step = state.write(key, value);
    let v = Version { key, seqno: state.next_seqno, value };
    wal::the_log_replays(seq![v], Seq::empty());
    wal::wal_image_push(Seq::empty(), v);
    assert(Seq::<Version>::empty().push(v) =~= seq![v]);
    assert(wal::wal_image(Seq::empty()) =~= Seq::empty()) by {
        assert(Seq::<Version>::empty().map_values(|v: Version| wal::wal_body(v)) =~= Seq::empty());
    }
    assert(wal::wal_image(seq![v]) =~= step.action->0->AppendWal_0);
    assert forall|k: Seq<u8>| #[trigger] step.state.get(k) == state.get(k) by {
        assert(step.state.find(k) == state.find(k));
    }
}

/// A store that is opened counts what its log replays, holds the tables that
/// were found, and waits for nothing.
pub proof fn an_opened_store_has_replayed_its_log(
    records: Seq<Version>,
    tables: Seq<(u64, sstable::TableView)>,
)
    ensures
        ({
            let state = engine::recovered(records, tables);
            &&& state.idle()
            &&& state.tables == tables
            &&& state.mem.size == load(records)
            &&& records.len() == 0 ==> state.mem == MemView::empty()
        }),
{
    a_table_counts_every_write(records);
}

} // verus!
