//! What the store promises: it behaves as a map, whatever is flushed or
//! merged, and a crash loses nothing.

use vstd::prelude::*;

use crate::error::Fault;
use crate::frame;
use crate::kv::engine::{self, ActionView, PendingView, StoreState};
use crate::kv::memtable;
use crate::kv::merge;
use crate::kv::sstable::{self, TableView};
use crate::kv::types::{self, Version};
use crate::kv::wal;

verus! {

/// `a` is newer than `b`, or the very same version.
pub open spec fn newer_or_same(a: Version, b: Version) -> bool {
    a.seqno > b.seqno || a == b
}

/// What `upper` says of `key` is no older than what `lower` says of it.
pub open spec fn shadows_at(upper: Seq<Version>, lower: Seq<Version>, key: Seq<u8>) -> bool {
    memtable::first_of(upper, key) is Some && memtable::first_of(lower, key) is Some
        ==> newer_or_same(memtable::first_of(upper, key)->0, memtable::first_of(lower, key)->0)
}

/// Whatever `upper` says of a key is no older than what `lower` says of it.
pub open spec fn shadows(upper: Seq<Version>, lower: Seq<Version>) -> bool {
    forall|key: Seq<u8>| #[trigger] shadows_at(upper, lower, key)
}

/// Versions that a table can hold: in order, of lengths that fit.
pub open spec fn tidy(s: Seq<Version>) -> bool {
    &&& memtable::in_order(s)
    &&& forall|i: int| 0 <= i < s.len() ==> wal::fits(#[trigger] s[i])
}

/// Their file is no larger than a file can be.
pub open spec fn fits_a_file(s: Seq<Version>) -> bool {
    sstable::data_bytes(s).len() + sstable::index_bytes(s).len() <= u64::MAX
}

pub open spec fn all_below(s: Seq<Version>, seqno: u64) -> bool {
    forall|i: int| 0 <= i < s.len() ==> (#[trigger] s[i]).seqno < seqno
}

pub open spec fn table_is_sound(table: TableView) -> bool {
    tidy(table.entries) && table.bloom == sstable::filter_of(table.entries)
}

/// The tables are sound, each shadows those behind it, and their numbers
/// descend.
pub open spec fn tables_are_sound(tables: Seq<(u64, TableView)>) -> bool {
    &&& forall|t: int| 0 <= t < tables.len() ==> table_is_sound((#[trigger] tables[t]).1)
    &&& forall|s: int, t: int|
        0 <= s < t < tables.len() ==> shadows(
            (#[trigger] tables[s]).1.entries,
            (#[trigger] tables[t]).1.entries,
        )
    &&& forall|s: int, t: int|
        0 <= s < t < tables.len() ==> (#[trigger] tables[s]).0 > (#[trigger] tables[t]).0
}

/// No version in the store is as new as `seqno`.
pub open spec fn store_below(state: StoreState, seqno: u64) -> bool {
    &&& all_below(state.mem.versions, seqno)
    &&& forall|t: int|
        0 <= t < state.tables.len() ==> all_below((#[trigger] state.tables[t]).1.entries, seqno)
}

/// No table has as high a number as `id`.
pub open spec fn ids_below(tables: Seq<(u64, TableView)>, id: u64) -> bool {
    forall|t: int| 0 <= t < tables.len() ==> (#[trigger] tables[t]).0 < id
}

/// What holds of a store at all times.
pub open spec fn is_sound(state: StoreState) -> bool {
    &&& tidy(state.mem.versions)
    &&& tables_are_sound(state.tables)
    &&& forall|t: int|
        0 <= t < state.tables.len() ==> shadows(
            state.mem.versions,
            (#[trigger] state.tables[t]).1.entries,
        )
    &&& store_below(state, state.next_seqno)
    &&& ids_below(state.tables, state.next_id)
    &&& match state.pending {
        None => true,
        Some(PendingView::Write(v)) => {
            &&& wal::fits(v)
            &&& v.seqno < state.next_seqno
            &&& store_below(state, v.seqno)
        },
        Some(PendingView::Flush(id, file)) => {
            &&& id < state.next_id
            &&& ids_below(state.tables, id)
            &&& file == sstable::table_bytes(state.mem.versions)
            &&& fits_a_file(state.mem.versions)
        },
        Some(PendingView::Reset) => {
            &&& state.tables.len() > 0
            &&& state.tables[0].1.entries == state.mem.versions
        },
        Some(PendingView::Merge(id, file)) => {
            let all = engine::all_entries(state.tables);
            &&& id < state.next_id
            &&& ids_below(state.tables, id)
            &&& file == sstable::table_bytes(merge::merged(all))
            &&& merge::is_merge(merge::merged(all), all)
            &&& fits_a_file(merge::merged(all))
        },
        Some(PendingView::Remove(ids)) => state.tables.len() == 1,
    }
}

/// The files of the next flush and merge can be written.
pub open spec fn within_limits(state: StoreState) -> bool {
    let all = engine::all_entries(state.tables);
    &&& state.next_seqno < u64::MAX
    &&& state.next_id < u64::MAX
    &&& fits_a_file(state.mem.versions)
    &&& all.len() <= usize::MAX
    &&& fits_a_file(merge::merged(all))
}

// ---- lookups ----

proof fn find_in_table(table: TableView, key: Seq<u8>)
    requires
        table_is_sound(table),
    ensures
        table.find(key) == memtable::first_of(table.entries, key),
{
    sstable::a_filter_never_hides_an_entry(table.entries, key);
}

/// The word of the tables on a key is that of the first table that has it.
proof fn tables_find_is(tables: Seq<(u64, TableView)>, key: Seq<u8>)
    requires
        forall|t: int| 0 <= t < tables.len() ==> table_is_sound((#[trigger] tables[t]).1),
    ensures
        match engine::tables_find(tables, key) {
            Some(v) => exists|t: int|
                0 <= t < tables.len() && memtable::first_of(
                    (#[trigger] tables[t]).1.entries,
                    key,
                ) == Some(v) && forall|s: int|
                    0 <= s < t ==> memtable::first_of((#[trigger] tables[s]).1.entries, key) is None,
            None => forall|t: int|
                0 <= t < tables.len() ==> memtable::first_of(
                    (#[trigger] tables[t]).1.entries,
                    key,
                ) is None,
        },
    decreases tables.len(),
{
    if tables.len() > 0 {
        find_in_table(tables[0].1, key);
        if tables[0].1.find(key) is None {
            let rest = tables.drop_first();
            assert forall|t: int| 0 <= t < rest.len() implies table_is_sound(
                (#[trigger] rest[t]).1,
            ) by {
                assert(table_is_sound(tables[t + 1].1));
            }
            tables_find_is(rest, key);
            match engine::tables_find(rest, key) {
                Some(v) => {
                    let t = choose|t: int|
                        0 <= t < rest.len() && memtable::first_of(
                            (#[trigger] rest[t]).1.entries,
                            key,
                        ) == Some(v) && forall|s: int|
                            0 <= s < t ==> memtable::first_of(
                                (#[trigger] rest[s]).1.entries,
                                key,
                            ) is None;
                    assert(tables[t + 1] == rest[t]);
                    assert forall|s: int| 0 <= s < t + 1 implies memtable::first_of(
                        (#[trigger] tables[s]).1.entries,
                        key,
                    ) is None by {
                        if s > 0 {
                            assert(rest[s - 1] == tables[s]);
                        }
                    }
                },
                None => {
                    assert forall|t: int| 0 <= t < tables.len() implies memtable::first_of(
                        (#[trigger] tables[t]).1.entries,
                        key,
                    ) is None by {
                        if t > 0 {
                            assert(rest[t - 1] == tables[t]);
                        }
                    }
                },
            }
        } else {
            assert(tables[0].1.find(key) == memtable::first_of(tables[0].1.entries, key));
        }
    }
}

/// What a write does to lookups in the table in memory.
proof fn insertion_lookup(s: Seq<Version>, v: Version, key: Seq<u8>)
    requires
        memtable::in_order(s),
        all_below(s, v.seqno),
    ensures
        memtable::first_of(memtable::inserted(s, v), key) == if key == v.key {
            Some(v)
        } else {
            memtable::first_of(s, key)
        },
{
    let r = memtable::inserted(s, v);
    memtable::insertion_keeps_order(s, v);
    memtable::first_of_is(r, key);
    memtable::first_of_is(s, key);
    assert(r.contains(v));
    let at = choose|at: int| 0 <= at < r.len() && r[at] == v;
    if key == v.key {
        memtable::the_first_is_the_newest(r, key, at);
        let x = memtable::first_of(r, key)->0;
        assert(r.contains(x));
        if x != v {
            assert(s.contains(x));
            let k = choose|k: int| 0 <= k < s.len() && s[k] == x;
            assert(s[k].seqno < v.seqno);
        }
    } else {
        match memtable::first_of(r, key) {
            Some(x) => {
                assert(r.contains(x));
                assert(s.contains(x));
                let k = choose|k: int| 0 <= k < s.len() && s[k] == x;
                memtable::the_first_is_the_newest(s, key, k);
                let y = memtable::first_of(s, key)->0;
                assert(s.contains(y));
                assert(r.contains(y));
                let m = choose|m: int| 0 <= m < r.len() && r[m] == y;
                memtable::the_first_is_the_newest(r, key, m);
            },
            None => {
                if memtable::first_of(s, key) is Some {
                    let y = memtable::first_of(s, key)->0;
                    assert(s.contains(y));
                    assert(r.contains(y));
                    let m = choose|m: int| 0 <= m < r.len() && r[m] == y;
                    assert(r[m].key != key);
                }
            },
        }
    }
}

/// A version found is one of those looked through.
proof fn found_is_among(s: Seq<Version>, key: Seq<u8>)
    ensures
        memtable::first_of(s, key) matches Some(v) ==> s.contains(v) && v.key == key,
{
    memtable::first_of_is(s, key);
}

// ---- operations ----

pub(crate) proof fn write_is_sound(state: StoreState, key: Seq<u8>, value: Option<Seq<u8>>)
    requires
        is_sound(state),
        state.idle(),
        state.next_seqno < u64::MAX,
        wal::fits(Version { key, seqno: 0, value }),
    ensures
        is_sound(state.write(key, value).state),
{
}

pub(crate) proof fn put_is_sound(state: StoreState, v: Version)
    requires
        is_sound(state),
        state.pending == Some(PendingView::Write(v)),
    ensures
        is_sound(state.stored(v)),
        forall|key: Seq<u8>| #[trigger]
            state.stored(v).find(key) == if key
                == v.key {
                Some(v)
            } else {
                state.find(key)
            },
{
    let s = state.mem.versions;
    let after = state.stored(v);
    let r = after.mem.versions;
    memtable::insertion_keeps_order(s, v);
    assert forall|i: int| 0 <= i < r.len() implies wal::fits(#[trigger] r[i]) && r[i].seqno
        < state.next_seqno by {
        assert(r.contains(r[i]));
        if r[i] != v {
            let k = choose|k: int| 0 <= k < s.len() && s[k] == r[i];
            assert(wal::fits(s[k]));
        }
    }
    assert forall|t: int| 0 <= t < after.tables.len() implies shadows(
        r,
        (#[trigger] after.tables[t]).1.entries,
    ) by {
        let lower = after.tables[t].1.entries;
        assert(shadows(s, lower));
        assert forall|key: Seq<u8>| #[trigger] shadows_at(r, lower, key) by {
            insertion_lookup(s, v, key);
            found_is_among(lower, key);
            assert(shadows_at(s, lower, key));
            if memtable::first_of(lower, key) is Some {
                let b = memtable::first_of(lower, key)->0;
                let k = choose|k: int| 0 <= k < lower.len() && lower[k] == b;
                assert(lower[k].seqno < v.seqno);
            }
        }
    }
    assert forall|key: Seq<u8>| #[trigger] after.find(key) == if key == v.key {
        Some(v)
    } else {
        state.find(key)
    } by {
        insertion_lookup(s, v, key);
    }
}

pub(crate) proof fn flush_is_sound(state: StoreState)
    requires
        is_sound(state),
        state.idle(),
        state.next_id < u64::MAX,
        fits_a_file(state.mem.versions),
    ensures
        is_sound(state.flush().state),
        forall|key: Seq<u8>| #[trigger] state.flush().state.find(key) == state.find(key),
{
}

proof fn compact_is_sound(state: StoreState)
    requires
        is_sound(state),
        state.idle(),
        state.next_id < u64::MAX,
        engine::all_entries(state.tables).len() <= usize::MAX,
        fits_a_file(merge::merged(engine::all_entries(state.tables))),
    ensures
        is_sound(state.compact().state),
        forall|key: Seq<u8>| #[trigger] state.compact().state.find(key) == state.find(key),
{
    merge::a_merge_exists(engine::all_entries(state.tables));
}

/// The table that a flush publishes takes its place in front of the others.
proof fn published_is_sound(state: StoreState, id: u64, file: Seq<u8>)
    requires
        is_sound(state),
        state.pending == Some(PendingView::Flush(id, file)),
    ensures
        state.done().fault is None,
        is_sound(state.done().state),
        state.done().state.mem == state.mem,
        sstable::table_of(file) is Ok,
        state.done().state.tables == seq![(id, sstable::table_of(file)->Ok_0)] + state.tables,
        forall|key: Seq<u8>| #[trigger] state.done().state.find(key) == state.find(key),
{
    let s = state.mem.versions;
    sstable::a_table_reads_back(s);
    let table = TableView { entries: s, bloom: sstable::filter_of(s) };
    let after = state.done().state;
    let tables = after.tables;
    assert(tables[0] == (id, table));
    assert forall|t: int| 0 < t < tables.len() implies #[trigger] tables[t] == state.tables[t
        - 1] by {}
    assert(shadows(s, s));
    assert forall|t: int| 0 <= t < tables.len() implies table_is_sound(
        (#[trigger] tables[t]).1,
    ) by {
        if t > 0 {
            assert(tables[t] == state.tables[t - 1]);
        }
    }
    assert forall|i: int, t: int| 0 <= i < t < tables.len() implies shadows(
        (#[trigger] tables[i]).1.entries,
        (#[trigger] tables[t]).1.entries,
    ) && tables[i].0 > tables[t].0 by {
        assert(tables[t] == state.tables[t - 1]);
        if i > 0 {
            assert(tables[i] == state.tables[i - 1]);
        }
    }
    assert forall|t: int| 0 <= t < tables.len() implies shadows(
        s,
        (#[trigger] tables[t]).1.entries,
    ) && all_below(tables[t].1.entries, after.next_seqno) && tables[t].0 < after.next_id by {
        if t > 0 {
            assert(tables[t] == state.tables[t - 1]);
        }
    }
    assert forall|key: Seq<u8>| #[trigger] after.find(key) == state.find(key) by {
        find_in_table(table, key);
        assert(tables.drop_first() =~= state.tables);
    }
}

/// Emptying the table in memory uncovers the same versions in the newest table.
proof fn emptied_is_sound(state: StoreState)
    requires
        is_sound(state),
        state.pending == Some(PendingView::Reset),
    ensures
        is_sound(state.emptied()),
        forall|key: Seq<u8>| #[trigger]
            state.emptied().find(key) == state.find(
                key,
            ),
{
    let after = state.emptied();
    assert forall|t: int| 0 <= t < after.tables.len() implies shadows(
        after.mem.versions,
        (#[trigger] after.tables[t]).1.entries,
    ) by {}
    assert forall|key: Seq<u8>| #[trigger] after.find(key) == state.find(key) by {
        find_in_table(state.tables[0].1, key);
    }
}

/// The word of the tables on a key is the version that counts among all.
proof fn tables_find_wins(tables: Seq<(u64, TableView)>, key: Seq<u8>)
    requires
        tables_are_sound(tables),
    ensures
        match engine::tables_find(tables, key) {
            Some(v) => exists|i: int| #[trigger]
                merge::wins(engine::all_entries(tables), i) && engine::all_entries(tables)[i] == v
                    && v.key == key,
            None => forall|i: int|
                0 <= i < engine::all_entries(tables).len() ==> (
                #[trigger] engine::all_entries(tables)[i]).key != key,
        },
{
    let all = engine::all_entries(tables);
    tables_find_is(tables, key);
    match engine::tables_find(tables, key) {
        None => {
            assert forall|i: int| 0 <= i < all.len() implies (#[trigger] all[i]).key != key by {
                engine::entry_comes_from(tables, i);
                let (t, e) = choose|t: int, e: int|
                    0 <= t < tables.len() && 0 <= e < tables[t].1.entries.len() && all[i]
                        == #[trigger] tables[t].1.entries[e];
                memtable::first_of_is(tables[t].1.entries, key);
                assert(tables[t].1.entries[e].key != key);
            }
        },
        Some(v) => {
            let t0 = choose|t: int|
                0 <= t < tables.len() && memtable::first_of((#[trigger] tables[t]).1.entries, key)
                    == Some(v) && forall|s: int|
                    0 <= s < t ==> memtable::first_of((#[trigger] tables[s]).1.entries, key) is None;
            found_is_among(tables[t0].1.entries, key);
            let e0 = choose|e: int|
                0 <= e < tables[t0].1.entries.len() && tables[t0].1.entries[e] == v;
            engine::entry_is_among(tables, t0, e0);
            let at = choose|i: int| 0 <= i < all.len() && #[trigger] all[i] == v;
            merge::a_key_has_a_winner(all, at);
            let i = choose|i: int| #[trigger] merge::wins(all, i) && all[i].key == all[at].key;
            engine::entry_comes_from(tables, i);
            let (t, e) = choose|t: int, e: int|
                0 <= t < tables.len() && 0 <= e < tables[t].1.entries.len() && all[i]
                    == #[trigger] tables[t].1.entries[e];
            assert(table_is_sound(tables[t].1));
            memtable::the_first_is_the_newest(tables[t].1.entries, key, e);
            let b = memtable::first_of(tables[t].1.entries, key)->0;
            if t < t0 {
                assert(memtable::first_of(tables[t].1.entries, key) is None);
            } else if t > t0 {
                assert(shadows(tables[t0].1.entries, tables[t].1.entries));
                assert(shadows_at(tables[t0].1.entries, tables[t].1.entries, key));
            }
            assert(newer_or_same(v, b));
            if all[i] != v {
                assert(all[i].seqno < v.seqno);
                assert(merge::outranks(all, i, at));
                types::byte_order_is_total(key, key);
            }
        },
    }
}

/// What a merge keeps is fit for a table.
proof fn merged_is_tidy(tables: Seq<(u64, TableView)>, seqno: u64)
    requires
        tables_are_sound(tables),
        merge::is_merge(
            merge::merged(engine::all_entries(tables)),
            engine::all_entries(tables),
        ),
        forall|t: int|
            0 <= t < tables.len() ==> all_below((#[trigger] tables[t]).1.entries, seqno),
    ensures
        tidy(merge::merged(engine::all_entries(tables))),
        all_below(merge::merged(engine::all_entries(tables)), seqno),
{
    reveal(merge::is_merge);
    let all = engine::all_entries(tables);
    let s = merge::merged(all);
    assert forall|i: int| 0 <= i < s.len() implies wal::fits(#[trigger] s[i]) && s[i].seqno
        < seqno by {
        assert(s.contains(s[i]));
        let j = choose|j: int| #[trigger] merge::wins(all, j) && all[j] == s[i];
        engine::entry_comes_from(tables, j);
        let (t, e) = choose|t: int, e: int|
            0 <= t < tables.len() && 0 <= e < tables[t].1.entries.len() && all[j]
                == #[trigger] tables[t].1.entries[e];
        assert(table_is_sound(tables[t].1));
        assert(wal::fits(tables[t].1.entries[e]));
        assert(all_below(tables[t].1.entries, seqno));
    }
}

/// A merge says of every key what the tables said, but for what was deleted.
proof fn merged_says(tables: Seq<(u64, TableView)>, key: Seq<u8>)
    requires
        tables_are_sound(tables),
        merge::is_merge(
            merge::merged(engine::all_entries(tables)),
            engine::all_entries(tables),
        ),
    ensures
        memtable::first_of(merge::merged(engine::all_entries(tables)), key)
            == match engine::tables_find(tables, key) {
            Some(v) => if v.value is Some {
                Some(v)
            } else {
                None
            },
            None => None,
        },
{
    let all = engine::all_entries(tables);
    tables_find_wins(tables, key);
    match engine::tables_find(tables, key) {
        Some(v) => {
            let i = choose|i: int| #[trigger] merge::wins(all, i) && all[i] == v && v.key == key;
            merge::merged_lookup(all, i);
        },
        None => merge::merged_lookup_absent(all, key),
    }
}

/// What shadows each table shadows their merge.
proof fn merged_is_shadowed(upper: Seq<Version>, tables: Seq<(u64, TableView)>)
    requires
        tables_are_sound(tables),
        merge::is_merge(
            merge::merged(engine::all_entries(tables)),
            engine::all_entries(tables),
        ),
        forall|t: int|
            0 <= t < tables.len() ==> shadows(upper, (#[trigger] tables[t]).1.entries),
    ensures
        shadows(upper, merge::merged(engine::all_entries(tables))),
{
    let s = merge::merged(engine::all_entries(tables));
    assert forall|key: Seq<u8>| #[trigger] shadows_at(upper, s, key) by {
        merged_says(tables, key);
        tables_find_is(tables, key);
        if engine::tables_find(tables, key) is Some {
            let v = engine::tables_find(tables, key)->0;
            let t = choose|t: int|
                0 <= t < tables.len() && memtable::first_of((#[trigger] tables[t]).1.entries, key)
                    == Some(v) && forall|s: int|
                    0 <= s < t ==> memtable::first_of((#[trigger] tables[s]).1.entries, key) is None;
            assert(shadows(upper, tables[t].1.entries));
            assert(shadows_at(upper, tables[t].1.entries, key));
        }
    }
}

/// The merged table takes the place of all others, and no key changes its
/// value.
proof fn merged_is_sound(state: StoreState, id: u64, file: Seq<u8>)
    requires
        is_sound(state),
        state.pending == Some(PendingView::Merge(id, file)),
    ensures
        state.done().fault is None,
        is_sound(state.done().state),
        state.done().state.mem == state.mem,
        sstable::table_of(file) is Ok,
        state.done().state.tables == seq![(id, sstable::table_of(file)->Ok_0)],
        forall|key: Seq<u8>| #[trigger] state.done().state.get(key) == state.get(key),
{
    let s = merge::merged(engine::all_entries(state.tables));
    merged_is_tidy(state.tables, state.next_seqno);
    sstable::a_table_reads_back(s);
    let table = TableView { entries: s, bloom: sstable::filter_of(s) };
    let after = state.done().state;
    merged_done(state, id, file, table);
    merged_is_shadowed(state.mem.versions, state.tables);
    one_table_is_sound(state, after, id, table);
    assert forall|key: Seq<u8>| #[trigger] after.get(key) == state.get(key) by {
        one_table_says(state, after, id, table, key);
    }
}

proof fn one_table_says(
    state: StoreState,
    after: StoreState,
    id: u64,
    table: TableView,
    key: Seq<u8>,
)
    requires
        tables_are_sound(state.tables),
        merge::is_merge(
            merge::merged(engine::all_entries(state.tables)),
            engine::all_entries(state.tables),
        ),
        table.entries == merge::merged(engine::all_entries(state.tables)),
        table_is_sound(table),
        after.tables == seq![(id, table)],
        after.mem == state.mem,
    ensures
        after.get(key) == state.get(key),
{
    reveal_with_fuel(engine::tables_find, 2);
    find_in_table(table, key);
    assert(after.tables[0] == (id, table));
    assert(after.tables.drop_first().len() == 0);
    merged_says(state.tables, key);
}

proof fn merged_done(state: StoreState, id: u64, file: Seq<u8>, table: TableView)
    requires
        state.pending == Some(PendingView::Merge(id, file)),
        sstable::table_of(file) == Ok::<TableView, Fault>(table),
    ensures
        state.done().fault is None,
        state.done().state.tables == seq![(id, table)],
        state.done().state.mem == state.mem,
        state.done().state.next_seqno == state.next_seqno,
        state.done().state.next_id == state.next_id,
        state.done().state.pending is None || state.done().state.pending->0 is Remove,
{
}

proof fn one_table_is_sound(state: StoreState, after: StoreState, id: u64, table: TableView)
    requires
        tidy(state.mem.versions),
        all_below(state.mem.versions, state.next_seqno),
        id < state.next_id,
        table_is_sound(table),
        all_below(table.entries, state.next_seqno),
        shadows(state.mem.versions, table.entries),
        after.tables == seq![(id, table)],
        after.mem == state.mem,
        after.next_seqno == state.next_seqno,
        after.next_id == state.next_id,
        after.pending is None || after.pending->0 is Remove,
    ensures
        is_sound(after),
{
    assert(after.tables[0] == (id, table));
}

/// The state in which the next flush or merge starts is within limits.
pub open spec fn next_within_limits(state: StoreState) -> bool {
    match state.pending {
        Some(PendingView::Write(v)) => within_limits(
            state.stored(v),
        ),
        Some(PendingView::Reset) => within_limits(
            state.emptied(),
        ),
        _ => true,
    }
}

/// A write is read back, and changes nothing else: once its action is done,
/// the key has the value that was put, or none if it was deleted, and every
/// other key has the value that it had.
pub proof fn a_write_is_read_back(state: StoreState, key: Seq<u8>, value: Option<Seq<u8>>)
    requires
        is_sound(state),
        state.idle(),
        state.next_seqno < u64::MAX,
        wal::fits(Version { key, seqno: 0, value }),
        next_within_limits(state.write(key, value).state),
    ensures
        ({
            let after = state.write(key, value).state.done();
            &&& after.fault is None
            &&& is_sound(after.state)
            &&& forall|k: Seq<u8>| #[trigger]
                after.state.get(k) == if k == key {
                    value
                } else {
                    state.get(k)
                }
        }),
{
    let writing = state.write(key, value).state;
    write_is_sound(state, key, value);
    let v = Version { key, seqno: state.next_seqno, value };
    put_is_sound(writing, v);
    let stored = writing.stored(v);
    flush_is_sound(stored);
    let after = writing.done().state;
    assert forall|k: Seq<u8>| #[trigger] after.get(k) == if k == key {
        value
    } else {
        state.get(k)
    } by {
        assert(stored.find(k) == if k == v.key {
            Some(v)
        } else {
            writing.find(k)
        });
        assert(after.find(k) == stored.find(k));
        assert(writing.find(k) == state.find(k));
    }
}

/// Flushing and merging never change what the store holds: at each step the
/// store stays sound, nothing fails, and every key keeps its value.
pub proof fn housekeeping_changes_no_value(state: StoreState)
    requires
        is_sound(state),
        state.pending !is None,
        !(state.pending->0 is Write),
        next_within_limits(state),
    ensures
        state.done().fault is None,
        is_sound(state.done().state),
        forall|key: Seq<u8>| #[trigger] state.done().state.get(key) == state.get(key),
{
    let after = state.done().state;
    match state.pending->0 {
        PendingView::Write(v) => {},
        PendingView::Flush(id, file) => {
            published_is_sound(state, id, file);
            assert forall|key: Seq<u8>| #[trigger] after.get(key) == state.get(key) by {
                assert(after.find(key) == state.find(key));
            }
        },
        PendingView::Reset => {
            emptied_is_sound(state);
            let emptied = state.emptied();
            compact_is_sound(emptied);
            assert forall|key: Seq<u8>| #[trigger] after.get(key) == state.get(key) by {
                assert(emptied.find(key) == state.find(key));
                assert(after.find(key) == emptied.find(key));
            }
        },
        PendingView::Merge(id, file) => merged_is_sound(state, id, file),
        PendingView::Remove(ids) => {
            assert forall|key: Seq<u8>| #[trigger] after.get(key) == state.get(key) by {
                assert(after.find(key) == state.find(key));
            }
        },
    }
}

/// The table that a merge publishes is the merge.
pub(crate) proof fn a_merge_is_read_back(state: StoreState)
    requires
        is_sound(state),
        state.pending is Some,
        state.pending->0 is Merge,
    ensures
        ({
            let file = state.pending->0->Merge_1;
            &&& sstable::table_of(file) is Ok
            &&& sstable::table_of(file)->Ok_0.entries == merge::merged(
                engine::all_entries(state.tables),
            )
        }),
{
    merged_is_tidy(state.tables, state.next_seqno);
    sstable::a_table_reads_back(merge::merged(engine::all_entries(state.tables)));
}

/// Starting to flush or to merge changes no value either.
pub proof fn starting_changes_no_value(state: StoreState)
    requires
        is_sound(state),
        state.idle(),
        within_limits(state),
    ensures
        is_sound(state.flush().state),
        is_sound(state.compact().state),
        forall|key: Seq<u8>| #[trigger] state.flush().state.get(key) == state.get(key),
        forall|key: Seq<u8>| #[trigger] state.compact().state.get(key) == state.get(key),
{
    flush_is_sound(state);
    compact_is_sound(state);
    assert forall|key: Seq<u8>| #[trigger] state.flush().state.get(key) == state.get(key) by {
        assert(state.flush().state.find(key) == state.find(key));
    }
    assert forall|key: Seq<u8>| #[trigger] state.compact().state.get(key) == state.get(key) by {
        assert(state.compact().state.find(key) == state.find(key));
    }
}

/// An operation that fails on disk changes no value.
pub proof fn a_failure_changes_no_value(state: StoreState)
    requires
        is_sound(state),
    ensures
        is_sound(state.failed()),
        forall|key: Seq<u8>| #[trigger] state.failed().get(key) == state.get(key),
{
    assert forall|key: Seq<u8>| #[trigger] state.failed().get(key) == state.get(key) by {
        assert(state.failed().find(key) == state.find(key));
    }
}

// ---- the disk ----

/// What is on disk: the log, and the table files by their numbers.
#[verifier::ext_equal]
pub struct Disk {
    pub log: Seq<u8>,
    pub tables: Map<u64, Seq<u8>>,
}

impl Disk {
    pub open spec fn perform(self, action: ActionView) -> Disk {
        match action {
            ActionView::AppendWal(bytes) => Disk { log: self.log + bytes, ..self },
            ActionView::PublishTable(id, file) => Disk {
                tables: self.tables.insert(id, file),
                ..self
            },
            ActionView::ResetWal => Disk { log: Seq::empty(), ..self },
            ActionView::RemoveTable(id) => Disk { tables: self.tables.remove(id), ..self },
        }
    }

    /// `files` are the table files, newest first.
    pub open spec fn lists(self, files: Seq<(u64, Seq<u8>)>) -> bool {
        &&& forall|i: int, j: int|
            0 <= i < j < files.len() ==> (#[trigger] files[i]).0 > (#[trigger] files[j]).0
        &&& forall|i: int|
            0 <= i < files.len() ==> self.tables.contains_key((#[trigger] files[i]).0)
                && self.tables[files[i].0] == files[i].1
        &&& forall|id: u64| #[trigger]
            self.tables.contains_key(id) ==> exists|i: int|
                0 <= i < files.len() && (#[trigger] files[i]).0 == id
    }
}

/// The action that the store waits for.
pub open spec fn awaited(pending: PendingView) -> ActionView {
    match pending {
        PendingView::Write(v) => ActionView::AppendWal(frame::framed(wal::wal_body(v))),
        PendingView::Flush(id, file) => ActionView::PublishTable(id, file),
        PendingView::Reset => ActionView::ResetWal,
        PendingView::Merge(id, file) => ActionView::PublishTable(id, file),
        PendingView::Remove(ids) => ActionView::RemoveTable(ids[0]),
    }
}

/// The table files that are yet to be removed.
pub open spec fn leftovers(state: StoreState) -> Seq<u64> {
    match state.pending {
        Some(PendingView::Remove(ids)) => ids,
        _ => Seq::empty(),
    }
}

/// The disk holds the store: `records` are in the log and make up the table in
/// memory, and the table files are those of the store and the leftovers.
pub open spec fn holds(disk: Disk, state: StoreState, records: Seq<Version>) -> bool {
    &&& disk.log == wal::wal_image(records)
    &&& forall|i: int| 0 <= i < records.len() ==> wal::fits(#[trigger] records[i])
    &&& all_below(records, state.next_seqno)
    &&& engine::replayed(records) == state.mem
    &&& forall|t: int|
        0 <= t < state.tables.len() ==> disk.tables.contains_key((#[trigger] state.tables[t]).0)
            && sstable::table_of(disk.tables[state.tables[t].0]) == Ok::<TableView, Fault>(
            state.tables[t].1,
        )
    &&& forall|id: u64| #[trigger]
        disk.tables.contains_key(id) ==> leftovers(state).contains(id) || exists|t: int|
            0 <= t < state.tables.len() && (#[trigger] state.tables[t]).0 == id
    &&& forall|i: int, t: int|
        0 <= i < leftovers(state).len() && 0 <= t < state.tables.len() ==> #[trigger] leftovers(
            state,
        )[i] != (#[trigger] state.tables[t]).0
    &&& leftovers(state).no_duplicates()
}

proof fn one_descent(a: Seq<(u64, Seq<u8>)>, b: Seq<(u64, TableView)>, disk: Disk)
    requires
        disk.lists(a),
        forall|s: int, t: int|
            0 <= s < t < b.len() ==> (#[trigger] b[s]).0 > (#[trigger] b[t]).0,
        forall|t: int| 0 <= t < b.len() ==> disk.tables.contains_key((#[trigger] b[t]).0),
        forall|id: u64| #[trigger]
            disk.tables.contains_key(id) ==> exists|t: int|
                0 <= t < b.len() && (#[trigger] b[t]).0 == id,
    ensures
        a.len() == b.len(),
        forall|i: int| 0 <= i < a.len() ==> (#[trigger] a[i]).0 == (#[trigger] b[i]).0,
{
    descents_agree(a, b, disk, 0);
}

proof fn descents_agree(a: Seq<(u64, Seq<u8>)>, b: Seq<(u64, TableView)>, disk: Disk, k: int)
    requires
        disk.lists(a),
        forall|s: int, t: int|
            0 <= s < t < b.len() ==> (#[trigger] b[s]).0 > (#[trigger] b[t]).0,
        forall|t: int| 0 <= t < b.len() ==> disk.tables.contains_key((#[trigger] b[t]).0),
        forall|id: u64| #[trigger]
            disk.tables.contains_key(id) ==> exists|t: int|
                0 <= t < b.len() && (#[trigger] b[t]).0 == id,
        0 <= k <= a.len(),
        k <= b.len(),
        forall|i: int| 0 <= i < k ==> (#[trigger] a[i]).0 == (#[trigger] b[i]).0,
    ensures
        a.len() == b.len(),
        forall|i: int| 0 <= i < a.len() ==> (#[trigger] a[i]).0 == (#[trigger] b[i]).0,
    decreases a.len() - k,
{
    if k < a.len() {
        assert(disk.tables.contains_key(a[k].0));
        let t = choose|t: int| 0 <= t < b.len() && (#[trigger] b[t]).0 == a[k].0;
        if t < k {
            assert(a[t].0 == b[t].0);
            assert(a[t].0 > a[k].0);
        }
        assert(disk.tables.contains_key(b[k].0));
        let i = choose|i: int| 0 <= i < a.len() && (#[trigger] a[i]).0 == b[k].0;
        if i < k {
            assert(a[i].0 == b[i].0);
            assert(b[i].0 > b[k].0);
        }
        if t > k {
            assert(b[k].0 > b[t].0);
            assert(i > k ==> a[k].0 > a[i].0);
        }
        assert(a[k].0 == b[k].0);
        descents_agree(a, b, disk, k + 1);
    } else if k < b.len() {
        assert(disk.tables.contains_key(b[k].0));
        let i = choose|i: int| 0 <= i < a.len() && (#[trigger] a[i]).0 == b[k].0;
        assert(a[i].0 == b[i].0);
        assert(b[i].0 > b[k].0);
    }
}

proof fn files_open(files: Seq<(u64, Seq<u8>)>, tables: Seq<(u64, TableView)>)
    requires
        files.len() == tables.len(),
        forall|i: int|
            0 <= i < files.len() ==> (#[trigger] files[i]).0 == tables[i].0 && sstable::table_of(
                files[i].1,
            ) == Ok::<TableView, Fault>(tables[i].1),
    ensures
        engine::tables_of(files) == Ok::<Seq<(u64, TableView)>, Fault>(tables),
    decreases files.len(),
{
    if files.len() > 0 {
        let n = files.len() - 1;
        assert forall|i: int| 0 <= i < n implies (#[trigger] files.drop_last()[i]).0
            == tables.drop_last()[i].0 && sstable::table_of(files.drop_last()[i].1) == Ok::<
            TableView,
            Fault,
        >(tables.drop_last()[i].1) by {
            assert(files[i] == files.drop_last()[i]);
        }
        files_open(files.drop_last(), tables.drop_last());
        assert(files[n].0 == tables[n].0);
        assert(tables =~= tables.drop_last().push((files.last().0, tables.last().1)));
    } else {
        assert(tables =~= Seq::empty());
    }
}

/// `above_all` lies above all.
proof fn above_all_is_above(from: u64, versions: Seq<Version>)
    requires
        all_below(versions, u64::MAX),
    ensures
        from <= engine::above_all(from, versions),
        all_below(versions, engine::above_all(from, versions)),
    decreases versions.len(),
{
    if versions.len() > 0 {
        let before = versions.drop_last();
        assert(all_below(before, u64::MAX)) by {
            assert forall|i: int| 0 <= i < before.len() implies (#[trigger] before[i]).seqno
                < u64::MAX by {
                assert(versions[i] == before[i]);
            }
        }
        above_all_is_above(from, before);
        assert(versions[versions.len() - 1].seqno < u64::MAX);
        assert forall|i: int| 0 <= i < versions.len() implies (#[trigger] versions[i]).seqno
            < engine::above_all(from, versions) by {
            if i < before.len() {
                assert(before[i].seqno < engine::above_all(from, before));
            }
        }
    }
}

proof fn above_ids_is_above(ids: Seq<u64>)
    requires
        forall|i: int| 0 <= i < ids.len() ==> #[trigger] ids[i] < u64::MAX,
    ensures
        forall|i: int| 0 <= i < ids.len() ==> #[trigger] ids[i] < engine::above_ids(ids),
    decreases ids.len(),
{
    if ids.len() > 0 {
        let before = ids.drop_last();
        assert forall|i: int| 0 <= i < before.len() implies #[trigger] before[i] < u64::MAX by {
            assert(ids[i] == before[i]);
        }
        above_ids_is_above(before);
        assert(ids[ids.len() - 1] < u64::MAX);
        assert forall|i: int| 0 <= i < ids.len() implies #[trigger] ids[i] < engine::above_ids(
            ids,
        ) by {
            if i < before.len() {
                assert(before[i] < engine::above_ids(before));
            }
        }
    }
}

/// Whatever is in the table in memory came from the log.
proof fn replayed_versions(records: Seq<Version>, i: int)
    requires
        0 <= i < engine::replayed(records).versions.len(),
    ensures
        records.contains(engine::replayed(records).versions[i]),
        memtable::in_order(engine::replayed(records).versions),
    decreases records.len(),
{
    replayed_in_order(records);
    if records.len() > 0 {
        let before = engine::replayed(records.drop_last());
        replayed_in_order(records.drop_last());
        let (r, v) = (engine::replayed(records).versions, records.last());
        memtable::insertion_keeps_order(before.versions, v);
        assert(r.contains(r[i]));
        if r[i] == v {
            assert(records[records.len() - 1] == v);
        } else {
            let k = choose|k: int| 0 <= k < before.versions.len() && before.versions[k] == r[i];
            replayed_versions(records.drop_last(), k);
            let m = choose|m: int|
                0 <= m < records.drop_last().len() && records.drop_last()[m] == r[i];
            assert(records[m] == r[i]);
        }
    }
}

proof fn replayed_in_order(records: Seq<Version>)
    ensures
        memtable::in_order(engine::replayed(records).versions),
    decreases records.len(),
{
    if records.len() > 0 {
        replayed_in_order(records.drop_last());
        memtable::insertion_keeps_order(
            engine::replayed(records.drop_last()).versions,
            records.last(),
        );
    }
}

/// A store that is opened again never issues a sequence number or a table
/// number that was in use: whatever it holds is below the next ones.
pub proof fn numbers_are_never_reissued(records: Seq<Version>, tables: Seq<(u64, TableView)>)
    requires
        !engine::used_up(records, tables),
    ensures
        all_below(records, engine::recovered(records, tables).next_seqno),
        store_below(
            engine::recovered(records, tables),
            engine::recovered(records, tables).next_seqno,
        ),
        ids_below(tables, engine::recovered(records, tables).next_id),
{
    let state = engine::recovered(records, tables);
    let all = engine::all_entries(tables);
    assert(all_below(records, u64::MAX));
    assert(all_below(all, u64::MAX));
    let from = engine::above_all(0, records);
    above_all_is_above(0, records);
    above_all_is_above(from, all);
    assert forall|i: int| 0 <= i < records.len() implies (#[trigger] records[i]).seqno
        < state.next_seqno by {
        assert(records[i].seqno < from);
    }
    assert forall|i: int| 0 <= i < state.mem.versions.len() implies (
    #[trigger] state.mem.versions[i]).seqno < state.next_seqno by {
        replayed_versions(records, i);
        let k = choose|k: int| 0 <= k < records.len() && records[k] == state.mem.versions[i];
        assert(records[k].seqno < state.next_seqno);
    }
    assert forall|t: int| 0 <= t < tables.len() implies all_below(
        (#[trigger] tables[t]).1.entries,
        state.next_seqno,
    ) by {
        let entries = tables[t].1.entries;
        assert forall|e: int| 0 <= e < entries.len() implies (#[trigger] entries[e]).seqno
            < state.next_seqno by {
            engine::entry_is_among(tables, t, e);
            let i = choose|i: int| 0 <= i < all.len() && #[trigger] all[i] == entries[e];
            assert(all[i].seqno < state.next_seqno);
        }
    }
    let ids = engine::table_ids(tables);
    assert forall|i: int| 0 <= i < ids.len() implies #[trigger] ids[i] < u64::MAX by {
        assert(tables[i].0 != u64::MAX);
    }
    above_ids_is_above(ids);
    assert forall|t: int| 0 <= t < tables.len() implies (#[trigger] tables[t]).0
        < state.next_id by {
        assert(ids[t] < state.next_id);
    }
}

/// A crash loses nothing: opening what is on disk gives a sound store in which
/// every key has the value that it had. Only in the middle of replacing merged
/// tables, when some of the old files are still there, is this not promised.
pub proof fn a_crash_loses_nothing(
    disk: Disk,
    state: StoreState,
    records: Seq<Version>,
    files: Seq<(u64, Seq<u8>)>,
)
    requires
        is_sound(state),
        holds(disk, state, records),
        leftovers(state).len() == 0,
        disk.lists(files),
    ensures
        engine::tables_of(files) == Ok::<Seq<(u64, TableView)>, Fault>(state.tables),
        wal::wal_records(disk.log) == records,
        !engine::used_up(records, state.tables),
        is_sound(engine::recovered(records, state.tables)),
        forall|key: Seq<u8>| #[trigger]
            engine::recovered(records, state.tables).get(key) == state.get(key),
{
    let tables = state.tables;
    wal::the_log_replays(records, Seq::empty());
    assert forall|id: u64| #[trigger] disk.tables.contains_key(id) implies exists|t: int|
        0 <= t < tables.len() && (#[trigger] tables[t]).0 == id by {
        assert(!leftovers(state).contains(id));
    }
    one_descent(files, tables, disk);
    assert forall|i: int| 0 <= i < files.len() implies (#[trigger] files[i]).0 == tables[i].0
        && sstable::table_of(files[i].1) == Ok::<TableView, Fault>(tables[i].1) by {
        assert(files[i].0 == tables[i].0);
        assert(disk.tables.contains_key(tables[i].0));
    }
    files_open(files, tables);
    let all = engine::all_entries(tables);
    assert forall|i: int| 0 <= i < all.len() implies (#[trigger] all[i]).seqno != u64::MAX by {
        engine::entry_comes_from(tables, i);
        let (t, e) = choose|t: int, e: int|
            0 <= t < tables.len() && 0 <= e < tables[t].1.entries.len() && all[i]
                == #[trigger] tables[t].1.entries[e];
        assert(all_below(tables[t].1.entries, state.next_seqno));
    }
    assert forall|t: int| 0 <= t < tables.len() implies (#[trigger] tables[t]).0 != u64::MAX by {
        assert(tables[t].0 < state.next_id);
    }
    numbers_are_never_reissued(records, tables);
    let again = engine::recovered(records, tables);
    assert(again.mem == state.mem);
    assert forall|key: Seq<u8>| #[trigger] again.get(key) == state.get(key) by {
        assert(again.find(key) == state.find(key));
    }
}

/// The records in the log once what is pending is done.
pub open spec fn records_after(state: StoreState, records: Seq<Version>) -> Seq<Version> {
    match state.pending {
        Some(PendingView::Write(v)) => records.push(v),
        Some(PendingView::Reset) => Seq::empty(),
        _ => records,
    }
}

/// The disk keeps up with the store: once the awaited action is performed and
/// done, the disk holds the store again.
pub proof fn the_disk_keeps_up(disk: Disk, state: StoreState, records: Seq<Version>)
    requires
        is_sound(state),
        state.pending !is None,
        state.pending matches Some(PendingView::Remove(ids)) ==> ids.len() > 0,
        holds(disk, state, records),
        next_within_limits(state),
    ensures
        holds(
            disk.perform(awaited(state.pending->0)),
            state.done().state,
            records_after(state, records),
        ),
{
    let action = awaited(state.pending->0);
    let (later, after, now) = (
        disk.perform(action),
        state.done().state,
        records_after(state, records),
    );
    match state.pending->0 {
        PendingView::Write(v) => {
            wal::wal_image_push(records, v);
            assert(now.drop_last() =~= records);
            assert forall|i: int| 0 <= i < now.len() implies wal::fits(#[trigger] now[i]) by {
                if i < records.len() {
                    assert(now[i] == records[i]);
                }
            }
            assert forall|i: int| 0 <= i < now.len() implies (#[trigger] now[i]).seqno
                < after.next_seqno by {
                if i < records.len() {
                    assert(now[i] == records[i]);
                }
            }
        },
        PendingView::Flush(id, file) => {
            published_is_sound(state, id, file);
            published_holds(disk, state, records, id, file);
        },
        PendingView::Reset => {
            assert(wal::wal_image(Seq::empty()) =~= Seq::empty()) by {
                assert(Seq::<Version>::empty().map_values(|v: Version| wal::wal_body(v))
                    =~= Seq::empty());
            }
        },
        PendingView::Merge(id, file) => {
            merged_is_sound(state, id, file);
            merged_holds(disk, state, records, id, file);
        },
        PendingView::Remove(ids) => {
            let rest = ids.skip(1);
            assert forall|x: u64| #[trigger] later.tables.contains_key(x) implies leftovers(
                after,
            ).contains(x) || exists|t: int|
                0 <= t < after.tables.len() && (#[trigger] after.tables[t]).0 == x by {
                assert(disk.tables.contains_key(x));
                if leftovers(state).contains(x) {
                    let k = choose|k: int| 0 <= k < ids.len() && ids[k] == x;
                    assert(k > 0);
                    assert(rest[k - 1] == x);
                } else {
                    let t = choose|t: int|
                        0 <= t < state.tables.len() && (#[trigger] state.tables[t]).0 == x;
                    assert(after.tables[t].0 == x);
                }
            }
            assert forall|t: int| 0 <= t < after.tables.len() implies later.tables.contains_key(
                (#[trigger] after.tables[t]).0,
            ) && sstable::table_of(later.tables[after.tables[t].0]) == Ok::<TableView, Fault>(
                after.tables[t].1,
            ) by {
                assert(state.tables[t] == after.tables[t]);
                assert(leftovers(state)[0] != state.tables[t].0);
            }
            assert forall|i: int, t: int|
                0 <= i < leftovers(after).len() && 0 <= t < after.tables.len() implies
                #[trigger] leftovers(after)[i] != (#[trigger] after.tables[t]).0 by {
                assert(leftovers(after)[i] == leftovers(state)[i + 1]);
                assert(state.tables[t] == after.tables[t]);
            }
            assert(leftovers(after).no_duplicates()) by {
                if rest.len() > 0 {
                    assert forall|i: int, j: int|
                        0 <= i < rest.len() && 0 <= j < rest.len() && i != j implies rest[i]
                        != rest[j] by {
                        assert(ids[i + 1] != ids[j + 1]);
                    }
                }
            }
        },
    }
}

proof fn published_holds(
    disk: Disk,
    state: StoreState,
    records: Seq<Version>,
    id: u64,
    file: Seq<u8>,
)
    requires
        is_sound(state),
        state.pending == Some(PendingView::Flush(id, file)),
        holds(disk, state, records),
        sstable::table_of(file) is Ok,
        state.done().state.tables == seq![(id, sstable::table_of(file)->Ok_0)] + state.tables,
        state.done().state.mem == state.mem,
    ensures
        holds(disk.perform(ActionView::PublishTable(id, file)), state.done().state, records),
{
    let (later, after) = (
        disk.perform(ActionView::PublishTable(id, file)),
        state.done().state,
    );
    assert forall|t: int| 0 <= t < after.tables.len() implies later.tables.contains_key(
        (#[trigger] after.tables[t]).0,
    ) && sstable::table_of(later.tables[after.tables[t].0]) == Ok::<TableView, Fault>(
        after.tables[t].1,
    ) by {
        if t > 0 {
            assert(after.tables[t] == state.tables[t - 1]);
            assert(state.tables[t - 1].0 < id);
        }
    }
    assert forall|x: u64| #[trigger] later.tables.contains_key(x) implies leftovers(
        after,
    ).contains(x) || exists|t: int|
        0 <= t < after.tables.len() && (#[trigger] after.tables[t]).0 == x by {
        if x == id {
            assert(after.tables[0].0 == x);
        } else {
            assert(disk.tables.contains_key(x));
            assert(!leftovers(state).contains(x));
            let t = choose|t: int|
                0 <= t < state.tables.len() && (#[trigger] state.tables[t]).0 == x;
            assert(after.tables[t + 1].0 == x);
        }
    }
}

proof fn merged_holds(
    disk: Disk,
    state: StoreState,
    records: Seq<Version>,
    id: u64,
    file: Seq<u8>,
)
    requires
        is_sound(state),
        state.pending == Some(PendingView::Merge(id, file)),
        holds(disk, state, records),
        sstable::table_of(file) is Ok,
        state.done().state.tables == seq![(id, sstable::table_of(file)->Ok_0)],
        state.done().state.mem == state.mem,
    ensures
        holds(disk.perform(ActionView::PublishTable(id, file)), state.done().state, records),
{
    let (later, after) = (
        disk.perform(ActionView::PublishTable(id, file)),
        state.done().state,
    );
    let old = engine::table_ids(state.tables);
    assert(after.tables[0] == (id, sstable::table_of(file)->Ok_0));
    assert(leftovers(after) == old || (old.len() == 0 && leftovers(after).len() == 0));
    assert forall|x: u64| #[trigger] later.tables.contains_key(x) implies leftovers(
        after,
    ).contains(x) || exists|t: int|
        0 <= t < after.tables.len() && (#[trigger] after.tables[t]).0 == x by {
        if x == id {
            assert(after.tables[0].0 == x);
        } else {
            assert(disk.tables.contains_key(x));
            assert(!leftovers(state).contains(x));
            let t = choose|t: int|
                0 <= t < state.tables.len() && (#[trigger] state.tables[t]).0 == x;
            assert(old[t] == x);
        }
    }
    assert forall|i: int, t: int|
        0 <= i < leftovers(after).len() && 0 <= t < after.tables.len() implies
        #[trigger] leftovers(after)[i] != (#[trigger] after.tables[t]).0 by {
        assert(old[i] == state.tables[i].0);
        assert(state.tables[i].0 < id);
    }
    assert forall|i: int, j: int|
        0 <= i < leftovers(after).len() && 0 <= j < leftovers(after).len() && i != j implies
        leftovers(after)[i] != leftovers(after)[j] by {
        assert(old[i] == state.tables[i].0 && old[j] == state.tables[j].0);
        if i < j {
            assert(state.tables[i].0 > state.tables[j].0);
        } else {
            assert(state.tables[j].0 > state.tables[i].0);
        }
    }
}

/// A crash right after an action reached the disk, before the store learned of
/// it, loses nothing either: a write that was appended is there, and a flush
/// leaves every key with its value. Merging is left out, as above.
pub proof fn a_crash_after_an_action_loses_nothing(
    disk: Disk,
    state: StoreState,
    records: Seq<Version>,
    files: Seq<(u64, Seq<u8>)>,
)
    requires
        is_sound(state),
        state.pending matches Some(p) && (p is Write || p is Flush || p is Reset),
        holds(disk, state, records),
        next_within_limits(state),
        disk.perform(awaited(state.pending->0)).lists(files),
    ensures
        ({
            let found = wal::wal_records(disk.perform(awaited(state.pending->0)).log);
            &&& found == records_after(state, records)
            &&& engine::tables_of(files) matches Ok(tables) && {
                let again = engine::recovered(found, tables);
                &&& is_sound(again)
                &&& forall|key: Seq<u8>| #[trigger]
                    again.get(key) == match state.pending->0 {
                        PendingView::Write(v) => if key == v.key {
                            v.value
                        } else {
                            state.get(key)
                        },
                        _ => state.get(key),
                    }
            }
        }),
{
    let after = state.done().state;
    let later = disk.perform(awaited(state.pending->0));
    let now = records_after(state, records);
    the_disk_keeps_up(disk, state, records);
    match state.pending->0 {
        PendingView::Write(v) => {
            put_is_sound(state, v);
            let stored = state.stored(v);
            flush_is_sound(stored);
            a_crash_loses_nothing(later, after, now, files);
            let again = engine::recovered(now, after.tables);
            assert forall|key: Seq<u8>| #[trigger] again.get(key) == if key == v.key {
                v.value
            } else {
                state.get(key)
            } by {
                assert(again.get(key) == after.get(key));
                assert(after.find(key) == stored.find(key));
            }
        },
        _ => {
            housekeeping_changes_no_value(state);
            a_crash_loses_nothing(later, after, now, files);
            let again = engine::recovered(now, after.tables);
            assert forall|key: Seq<u8>| #[trigger] again.get(key) == state.get(key) by {
                assert(again.get(key) == after.get(key));
                assert(after.get(key) == state.get(key));
            }
        },
    }
}

} // verus!
