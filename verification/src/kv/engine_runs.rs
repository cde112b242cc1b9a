//! The store over any sequence of operations: it is a map.

use vstd::prelude::*;

use crate::kv::engine::{self, PendingView, StoreState};
use crate::kv::engine_laws::{self, Disk};
use crate::kv::memtable::MemView;
use crate::kv::types::Version;
use crate::kv::upkeep_laws;
use crate::kv::wal;

verus! {

/// What can happen to a store.
pub ghost enum Deed {
    /// A write is begun: a value, or none for a deletion.
    Write(Seq<u8>, Option<Seq<u8>>),
    Flush,
    Compact,
    /// The awaited action is performed, and reported as done.
    Done,
    /// The store is given up and opened again over what is on disk, of which
    /// these are the table files.
    Reopen(Seq<(u64, Seq<u8>)>),
}

/// The store, its disk, the records in the log, and the map that it stands for:
/// writing puts into it and deleting takes out of it, nothing else changes it.
pub ghost struct World {
    pub disk: Disk,
    pub store: StoreState,
    pub records: Seq<Version>,
    pub map: Map<Seq<u8>, Seq<u8>>,
}

/// The map with a version written into it.
pub open spec fn entered(map: Map<Seq<u8>, Seq<u8>>, v: Version) -> Map<Seq<u8>, Seq<u8>> {
    match v.value {
        Some(value) => map.insert(v.key, value),
        None => map.remove(v.key),
    }
}

/// The store that opening the log and the files gives.
pub open spec fn opened(disk: Disk, files: Seq<(u64, Seq<u8>)>) -> StoreState {
    engine::recovered(wal::wal_records(disk.log), engine::tables_of(files)->Ok_0)
}

impl World {
    /// Nothing is stored anywhere.
    pub open spec fn begins(self) -> bool {
        &&& self.disk == (Disk { log: Seq::empty(), tables: Map::empty() })
        &&& self.store == engine::recovered(Seq::empty(), Seq::empty())
        &&& self.records == Seq::<Version>::empty()
        &&& self.map == Map::<Seq<u8>, Seq<u8>>::empty()
    }

    pub open spec fn after(self, deed: Deed) -> World {
        match deed {
            Deed::Write(key, value) => World { store: self.store.write(key, value).state, ..self },
            Deed::Flush => World { store: self.store.flush().state, ..self },
            Deed::Compact => World { store: self.store.compact().state, ..self },
            Deed::Done => World {
                disk: self.disk.perform(engine_laws::awaited(self.store.pending->0)),
                store: self.store.done().state,
                records: engine_laws::records_after(self.store, self.records),
                map: match self.store.pending->0 {
                    PendingView::Write(v) => entered(self.map, v),
                    _ => self.map,
                },
            },
            Deed::Reopen(files) => World { store: opened(self.disk, files), ..self },
        }
    }

    /// An operation begins when none is under way, and numbers, lengths and
    /// files stay within what their types hold. A store is not opened again in
    /// the middle of removing merged tables.
    pub open spec fn allows(self, deed: Deed) -> bool {
        match deed {
            Deed::Write(key, value) => {
                &&& self.store.idle()
                &&& self.store.next_seqno < u64::MAX
                &&& wal::fits(Version { key, seqno: 0, value })
            },
            Deed::Flush => self.store.idle() && engine_laws::within_limits(self.store),
            Deed::Compact => self.store.idle() && engine_laws::within_limits(self.store),
            Deed::Done => self.store.pending is Some && engine_laws::next_within_limits(self.store),
            Deed::Reopen(files) => {
                &&& engine_laws::leftovers(self.store).len() == 0
                &&& self.disk.lists(files)
            },
        }
    }

    /// Every key has the value in the map.
    pub open spec fn is_the_map(self) -> bool {
        forall|key: Seq<u8>| #[trigger]
            self.store.get(key) == if self.map.contains_key(key) {
                Some(self.map[key])
            } else {
                None
            }
    }

    spec fn holds(self) -> bool {
        &&& engine_laws::is_sound(self.store)
        &&& engine_laws::holds(self.disk, self.store, self.records)
        &&& self.store.pending matches Some(PendingView::Remove(ids)) ==> ids.len() > 0
        &&& self.is_the_map()
    }
}

/// What deeds make of a world.
pub open spec fn come_to(start: World, deeds: Seq<Deed>) -> World
    decreases deeds.len(),
{
    if deeds.len() == 0 {
        start
    } else {
        come_to(start, deeds.drop_last()).after(deeds.last())
    }
}

/// Deeds that can follow each other, from nothing.
pub open spec fn feasible(start: World, deeds: Seq<Deed>) -> bool
    decreases deeds.len(),
{
    if deeds.len() == 0 {
        start.begins()
    } else {
        feasible(start, deeds.drop_last()) && come_to(start, deeds.drop_last()).allows(deeds.last())
    }
}

proof fn it_begins(w: World)
    requires
        w.begins(),
    ensures
        w.holds(),
{
    let s = w.store;
    assert(wal::wal_image(Seq::empty()) =~= Seq::empty()) by {
        assert(Seq::<Version>::empty().map_values(|v: Version| wal::wal_body(v)) =~= Seq::empty());
    }
    assert(s.mem == MemView::empty());
    assert(s.tables.len() == 0);
    assert forall|key: Seq<u8>| #[trigger] s.get(key) == None::<Seq<u8>> by {}
}

proof fn begun(w: World, deed: Deed)
    requires
        w.holds(),
        w.allows(deed),
        deed is Write || deed is Flush || deed is Compact,
    ensures
        w.after(deed).holds(),
{
    let (s, t) = (w.store, w.after(deed).store);
    match deed {
        Deed::Write(key, value) => {
            engine_laws::write_is_sound(s, key, value);
        },
        _ => engine_laws::starting_changes_no_value(s),
    }
    assert(t.mem == s.mem && t.tables == s.tables);
    assert forall|key: Seq<u8>| #[trigger] t.get(key) == s.get(key) by {
        assert(t.find(key) == s.find(key));
    }
    assert(engine_laws::leftovers(t) =~= engine_laws::leftovers(s));
}

proof fn written(w: World, v: Version)
    requires
        w.holds(),
        w.allows(Deed::Done),
        w.store.pending == Some(PendingView::Write(v)),
    ensures
        engine_laws::is_sound(w.store.done().state),
        w.after(Deed::Done).is_the_map(),
{
    let s = w.store;
    engine_laws::put_is_sound(s, v);
    let stored = s.stored(v);
    engine_laws::flush_is_sound(stored);
    let t = s.done().state;
    assert forall|key: Seq<u8>| #[trigger] t.get(key) == if key == v.key {
        v.value
    } else {
        s.get(key)
    } by {
        assert(stored.find(key) == if key == v.key {
            Some(v)
        } else {
            s.find(key)
        });
        assert(t.find(key) == stored.find(key));
    }
}

proof fn done(w: World)
    requires
        w.holds(),
        w.allows(Deed::Done),
    ensures
        w.after(Deed::Done).holds(),
{
    let s = w.store;
    engine_laws::the_disk_keeps_up(w.disk, s, w.records);
    match s.pending->0 {
        PendingView::Write(v) => written(w, v),
        _ => {
            engine_laws::housekeeping_changes_no_value(s);
            assert forall|key: Seq<u8>| #[trigger] s.done().state.get(key) == s.get(key) by {}
        },
    }
}

proof fn reopened(w: World, files: Seq<(u64, Seq<u8>)>)
    requires
        w.holds(),
        w.allows(Deed::Reopen(files)),
    ensures
        w.after(Deed::Reopen(files)).holds(),
{
    engine_laws::a_crash_loses_nothing(w.disk, w.store, w.records, files);
    let (s, t) = (w.store, w.after(Deed::Reopen(files)).store);
    assert(t == engine::recovered(w.records, s.tables));
    engine_laws::numbers_are_never_reissued(w.records, s.tables);
    assert(engine_laws::leftovers(t) =~= Seq::empty());
    assert(engine_laws::leftovers(s) =~= Seq::empty());
}

proof fn it_holds(start: World, deeds: Seq<Deed>)
    requires
        feasible(start, deeds),
    ensures
        come_to(start, deeds).holds(),
    decreases deeds.len(),
{
    if deeds.len() == 0 {
        it_begins(start);
    } else {
        let before = come_to(start, deeds.drop_last());
        it_holds(start, deeds.drop_last());
        match deeds.last() {
            Deed::Done => done(before),
            Deed::Reopen(files) => reopened(before, files),
            deed => begun(before, deed),
        }
    }
}

/// The store is a map. After any sequence of writes, deletions, flushes, merges
/// and reopenings, each key has the value that was last put for it, and none if
/// it was deleted since or never put.
pub proof fn the_store_is_a_map(start: World, deeds: Seq<Deed>, key: Seq<u8>)
    requires
        feasible(start, deeds),
    ensures
        come_to(start, deeds).store.get(key) == if come_to(start, deeds).map.contains_key(key) {
            Some(come_to(start, deeds).map[key])
        } else {
            None
        },
{
    it_holds(start, deeds);
}

/// What has been written since the log was last emptied is in the table in
/// memory, and how full the layers may be at each stage of an operation.
spec fn within_bounds(w: World) -> bool {
    let (size, tables) = (w.store.mem.size, w.store.tables.len());
    &&& size == upkeep_laws::load(w.records)
    &&& match w.store.pending {
        None => size < 4 * 1024 * 1024 && tables <= 4,
        Some(PendingView::Write(v)) => size < 4 * 1024 * 1024 && tables <= 4,
        Some(PendingView::Flush(id, file)) => tables <= 4,
        Some(PendingView::Reset) => tables <= 5,
        Some(PendingView::Merge(id, file)) => size < 4 * 1024 * 1024,
        Some(PendingView::Remove(ids)) => size < 4 * 1024 * 1024 && tables == 1,
    }
}

proof fn bounds_hold(start: World, deeds: Seq<Deed>)
    requires
        feasible(start, deeds),
        forall|i: int| 0 <= i < deeds.len() ==> !(#[trigger] deeds[i] is Reopen),
    ensures
        within_bounds(come_to(start, deeds)),
    decreases deeds.len(),
{
    it_holds(start, deeds);
    upkeep_laws::a_table_counts_every_write(come_to(start, deeds).records);
    if deeds.len() > 0 {
        let before = deeds.drop_last();
        let (w, deed) = (come_to(start, before), deeds.last());
        assert(deeds[deeds.len() - 1] == deed);
        assert forall|i: int| 0 <= i < before.len() implies !(#[trigger] before[i] is Reopen) by {
            assert(deeds[i] == before[i]);
        }
        bounds_hold(start, before);
        it_holds(start, before);
        if deed is Done {
            match w.store.pending->0 {
                PendingView::Write(v) => upkeep_laws::a_full_table_is_written_out(w.store, v),
                _ => engine_laws::housekeeping_changes_no_value(w.store),
            }
        }
    }
}

/// The store keeps itself small. Whatever is written, deleted, flushed and
/// merged, in whatever order: whenever no operation is under way, what has been
/// written since the log was last emptied comes to less than four mebibytes, all
/// of it is what the table in memory counts, and there are at most four tables.
/// A store that is opened again starts from what it finds.
pub proof fn the_store_keeps_itself_small(start: World, deeds: Seq<Deed>)
    requires
        feasible(start, deeds),
        forall|i: int| 0 <= i < deeds.len() ==> !(#[trigger] deeds[i] is Reopen),
        come_to(start, deeds).store.idle(),
    ensures
        ({
            let w = come_to(start, deeds);
            &&& w.store.mem.size == upkeep_laws::load(w.records)
            &&& upkeep_laws::load(w.records) < 4 * 1024 * 1024
            &&& wal::wal_records(w.disk.log) == w.records
            &&& w.store.tables.len() <= 4
        }),
{
    bounds_hold(start, deeds);
    it_holds(start, deeds);
    let w = come_to(start, deeds);
    wal::the_log_replays(w.records, Seq::empty());
}

/// Nothing goes wrong on the way: no step fails, and what is on disk opens.
pub proof fn nothing_fails(start: World, deeds: Seq<Deed>, files: Seq<(u64, Seq<u8>)>)
    requires
        feasible(start, deeds),
    ensures
        come_to(start, deeds).allows(Deed::Done) ==> come_to(
            start,
            deeds,
        ).store.done().fault is None,
        come_to(start, deeds).allows(Deed::Reopen(files)) ==> engine::tables_of(files) is Ok
            && !engine::used_up(
            wal::wal_records(come_to(start, deeds).disk.log),
            engine::tables_of(files)->Ok_0,
        ),
{
    it_holds(start, deeds);
    let w = come_to(start, deeds);
    if w.allows(Deed::Done) {
        match w.store.pending->0 {
            PendingView::Write(v) => {},
            _ => engine_laws::housekeeping_changes_no_value(w.store),
        }
    }
    if w.allows(Deed::Reopen(files)) {
        engine_laws::a_crash_loses_nothing(w.disk, w.store, w.records, files);
    }
}

} // verus!
