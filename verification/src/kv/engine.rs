//! The store: writes go to the log and the table in memory, which is flushed
//! into table files that are merged from time to time.
//!
//! The engine touches no file. An operation that needs the disk hands out an
//! `Action`; the caller performs it and reports back with `done`, which may
//! hand out the next one, or with `failed`, which ends the operation there.

use vstd::prelude::*;

use crate::bytes::{self, copy_bytes};
use crate::error::{Fault, Result};
use crate::frame;
use crate::kv::memtable::{self, MemView, Memtable};
use crate::kv::merge::{self, write_merged};
use crate::kv::sstable::{self, SsTableReader, SsTableWriter, TableView};
use crate::kv::types::{self, copy_value, InternalKey, Seqno, Version};
use crate::kv::wal::{self, WalRecord, WalWriter};

verus! {

pub const MEMTABLE_FLUSH_BYTES: usize = 4194304;

pub const MAX_SSTABLES_BEFORE_COMPACT: usize = 4;

/// Something to be done on disk.
#[derive(Debug, PartialEq, Eq)]
pub enum Action {
    /// Put these bytes at the end of the log and sync it.
    AppendWal(Vec<u8>),
    /// Write and sync a table file under a temporary name, then rename it to
    /// the name of the table: a table that can be found is always whole.
    PublishTable(u64, Vec<u8>),
    /// Replace the log by an empty one.
    ResetWal,
    /// Remove a table file.
    RemoveTable(u64),
}

/// What an operation waits for.
enum Pending {
    Write(Seqno, Vec<u8>, Option<Vec<u8>>),
    Flush(u64, Vec<u8>),
    Reset,
    Merge(u64, Vec<u8>),
    /// The tables that are still to be removed, the first of them now.
    Remove(Vec<u64>),
}

pub struct Engine {
    memtable: Memtable,
    wal: WalWriter,
    next_seqno: Seqno,
    /// Newest first.
    sstables: Vec<(u64, SsTableReader)>,
    next_sst_id: u64,
    pending: Option<Pending>,
}

/// An `Action` over sequences.
#[verifier::ext_equal]
pub enum ActionView {
    AppendWal(Seq<u8>),
    PublishTable(u64, Seq<u8>),
    ResetWal,
    RemoveTable(u64),
}

/// A `Pending` over sequences.
#[verifier::ext_equal]
pub enum PendingView {
    Write(Version),
    Flush(u64, Seq<u8>),
    Reset,
    Merge(u64, Seq<u8>),
    Remove(Seq<u64>),
}

/// Everything that the engine knows.
#[verifier::ext_equal]
pub struct StoreState {
    pub mem: MemView,
    pub tables: Seq<(u64, TableView)>,
    pub next_seqno: Seqno,
    pub next_id: u64,
    pub pending: Option<PendingView>,
}

/// What a step leaves: the state, what to do next, and what went wrong.
#[verifier::ext_equal]
pub struct StepView {
    pub state: StoreState,
    pub action: Option<ActionView>,
    pub fault: Option<Fault>,
}

/// What the tables say of `key`: the word of the first that has any.
pub open spec fn tables_find(tables: Seq<(u64, TableView)>, key: Seq<u8>) -> Option<Version>
    decreases tables.len(),
{
    if tables.len() == 0 {
        None
    } else {
        match tables[0].1.find(key) {
            Some(v) => Some(v),
            None => tables_find(tables.drop_first(), key),
        }
    }
}

/// All entries of all tables, table by table.
pub open spec fn all_entries(tables: Seq<(u64, TableView)>) -> Seq<Version>
    decreases tables.len(),
{
    if tables.len() == 0 {
        Seq::empty()
    } else {
        all_entries(tables.drop_last()) + tables.last().1.entries
    }
}

pub open spec fn table_ids(tables: Seq<(u64, TableView)>) -> Seq<u64> {
    tables.map_values(|t: (u64, TableView)| t.0)
}

impl StoreState {
    pub open spec fn idle(self) -> bool {
        self.pending is None
    }

    /// The word of the newest layer that has any on `key`.
    pub open spec fn find(self, key: Seq<u8>) -> Option<Version> {
        match memtable::first_of(self.mem.versions, key) {
            Some(v) => Some(v),
            None => tables_find(self.tables, key),
        }
    }

    /// The value of `key`, if it has one.
    pub open spec fn get(self, key: Seq<u8>) -> Option<Seq<u8>> {
        match self.find(key) {
            Some(v) => v.value,
            None => None,
        }
    }

    /// The store with `v` in its table in memory.
    pub open spec fn stored(self, v: Version) -> StoreState {
        StoreState { mem: self.mem.put(v), pending: None, ..self }
    }

    /// The store with nothing in its table in memory.
    pub open spec fn emptied(self) -> StoreState {
        StoreState { mem: MemView::empty(), pending: None, ..self }
    }

    pub open spec fn resting(self) -> StepView {
        StepView { state: StoreState { pending: None, ..self }, action: None, fault: None }
    }

    pub open spec fn write(self, key: Seq<u8>, value: Option<Seq<u8>>) -> StepView {
        let v = Version { key, seqno: self.next_seqno, value };
        StepView {
            state: StoreState {
                next_seqno: (self.next_seqno + 1) as u64,
                pending: Some(PendingView::Write(v)),
                ..self
            },
            action: Some(ActionView::AppendWal(frame::framed(wal::wal_body(v)))),
            fault: None,
        }
    }

    pub open spec fn flush(self) -> StepView {
        if self.mem.size == 0 {
            self.resting()
        } else {
            let file = sstable::table_bytes(self.mem.versions);
            StepView {
                state: StoreState {
                    next_id: (self.next_id + 1) as u64,
                    pending: Some(PendingView::Flush(self.next_id, file)),
                    ..self
                },
                action: Some(ActionView::PublishTable(self.next_id, file)),
                fault: None,
            }
        }
    }

    pub open spec fn compact(self) -> StepView {
        if self.tables.len() < 2 {
            self.resting()
        } else {
            let file = sstable::table_bytes(merge::merged(all_entries(self.tables)));
            StepView {
                state: StoreState {
                    next_id: (self.next_id + 1) as u64,
                    pending: Some(PendingView::Merge(self.next_id, file)),
                    ..self
                },
                action: Some(ActionView::PublishTable(self.next_id, file)),
                fault: None,
            }
        }
    }

    pub open spec fn remove(self, ids: Seq<u64>) -> StepView {
        if ids.len() == 0 {
            self.resting()
        } else {
            StepView {
                state: StoreState { pending: Some(PendingView::Remove(ids)), ..self },
                action: Some(ActionView::RemoveTable(ids[0])),
                fault: None,
            }
        }
    }

    pub open spec fn broken(self, fault: Fault) -> StepView {
        StepView { state: StoreState { pending: None, ..self }, action: None, fault: Some(fault) }
    }

    /// The pending action has been performed.
    pub open spec fn done(self) -> StepView {
        match self.pending {
            None => self.resting(),
            Some(PendingView::Write(v)) => {
                let state = self.stored(v);
                if state.mem.size >= MEMTABLE_FLUSH_BYTES {
                    state.flush()
                } else {
                    state.resting()
                }
            },
            Some(PendingView::Flush(id, file)) => match sstable::table_of(file) {
                Ok(table) => StepView {
                    state: StoreState {
                        tables: seq![(id, table)] + self.tables,
                        pending: Some(PendingView::Reset),
                        ..self
                    },
                    action: Some(ActionView::ResetWal),
                    fault: None,
                },
                Err(fault) => self.broken(fault),
            },
            Some(PendingView::Reset) => {
                let state = self.emptied();
                if state.tables.len() > MAX_SSTABLES_BEFORE_COMPACT {
                    state.compact()
                } else {
                    state.resting()
                }
            },
            Some(PendingView::Merge(id, file)) => match sstable::table_of(file) {
                Ok(table) => StoreState { tables: seq![(id, table)], ..self }.remove(
                    table_ids(self.tables),
                ),
                Err(fault) => self.broken(fault),
            },
            Some(PendingView::Remove(ids)) => self.remove(ids.skip(1)),
        }
    }

    /// The pending action could not be performed.
    pub open spec fn failed(self) -> StoreState {
        StoreState { pending: None, ..self }
    }
}

/// The table in memory after all of `records`.
pub open spec fn replayed(records: Seq<Version>) -> MemView
    decreases records.len(),
{
    if records.len() == 0 {
        MemView::empty()
    } else {
        replayed(records.drop_last()).put(records.last())
    }
}

/// The first number above those of all `versions`, but at least `from`.
pub open spec fn above_all(from: u64, versions: Seq<Version>) -> u64
    decreases versions.len(),
{
    if versions.len() == 0 {
        from
    } else {
        let before = above_all(from, versions.drop_last());
        if versions.last().seqno >= before {
            (versions.last().seqno + 1) as u64
        } else {
            before
        }
    }
}

/// The first number above those of all tables.
pub open spec fn above_ids(ids: Seq<u64>) -> u64
    decreases ids.len(),
{
    if ids.len() == 0 {
        0
    } else {
        let before = above_ids(ids.drop_last());
        if ids.last() >= before {
            (ids.last() + 1) as u64
        } else {
            before
        }
    }
}

/// The tables that files hold, up to the first file that holds none.
pub open spec fn tables_of(files: Seq<(u64, Seq<u8>)>) -> core::result::Result<
    Seq<(u64, TableView)>,
    Fault,
>
    decreases files.len(),
{
    if files.len() == 0 {
        Ok(Seq::empty())
    } else {
        match tables_of(files.drop_last()) {
            Err(fault) => Err(fault),
            Ok(tables) => match sstable::table_of(files.last().1) {
                Err(fault) => Err(fault),
                Ok(table) => Ok(tables.push((files.last().0, table))),
            },
        }
    }
}

/// No further number would be left behind these.
pub open spec fn used_up(records: Seq<Version>, tables: Seq<(u64, TableView)>) -> bool {
    ||| exists|i: int| 0 <= i < records.len() && (#[trigger] records[i]).seqno == u64::MAX
    ||| exists|i: int|
        0 <= i < all_entries(tables).len() && (#[trigger] all_entries(tables)[i]).seqno == u64::MAX
    ||| exists|i: int| 0 <= i < tables.len() && (#[trigger] tables[i]).0 == u64::MAX
}

/// The state that a log and tables amount to.
pub open spec fn recovered(records: Seq<Version>, tables: Seq<(u64, TableView)>) -> StoreState {
    StoreState {
        mem: replayed(records),
        tables,
        next_seqno: above_all(above_all(0, records), all_entries(tables)),
        next_id: above_ids(table_ids(tables)),
        pending: None,
    }
}

pub open spec fn tables_view(s: Seq<(u64, SsTableReader)>) -> Seq<(u64, TableView)> {
    s.map_values(|t: (u64, SsTableReader)| (t.0, t.1@))
}

pub open spec fn files_view(s: Seq<(u64, Vec<u8>)>) -> Seq<(u64, Seq<u8>)> {
    s.map_values(|f: (u64, Vec<u8>)| (f.0, f.1@))
}

impl View for Action {
    type V = ActionView;

    open spec fn view(&self) -> ActionView {
        match self {
            Action::AppendWal(bytes) => ActionView::AppendWal(bytes@),
            Action::PublishTable(id, bytes) => ActionView::PublishTable(*id, bytes@),
            Action::ResetWal => ActionView::ResetWal,
            Action::RemoveTable(id) => ActionView::RemoveTable(*id),
        }
    }
}

pub open spec fn action_view(a: Option<Action>) -> Option<ActionView> {
    match a {
        Some(action) => Some(action@),
        None => None,
    }
}

impl View for Pending {
    type V = PendingView;

    closed spec fn view(&self) -> PendingView {
        match self {
            Pending::Write(seqno, key, value) => PendingView::Write(
                Version { key: key@, seqno: *seqno, value: types::value_view(*value) },
            ),
            Pending::Flush(id, file) => PendingView::Flush(*id, file@),
            Pending::Reset => PendingView::Reset,
            Pending::Merge(id, file) => PendingView::Merge(*id, file@),
            Pending::Remove(ids) => PendingView::Remove(ids@),
        }
    }
}

impl View for Engine {
    type V = StoreState;

    closed spec fn view(&self) -> StoreState {
        StoreState {
            mem: self.memtable@,
            tables: tables_view(self.sstables@),
            next_seqno: self.next_seqno,
            next_id: self.next_sst_id,
            pending: match self.pending {
                Some(p) => Some(p@),
                None => None,
            },
        }
    }
}

/// A step went as `step` says.
pub open spec fn stepped(r: Result<Option<Action>>, after: StoreState, step: StepView) -> bool {
    &&& after == step.state
    &&& match r {
        Ok(action) => step.fault is None && action_view(action) == step.action,
        Err(e) => step.fault == Some(e@),
    }
}

/// The size of the table in memory after `records`.
proof fn replayed_size(records: Seq<Version>, k: int)
    requires
        0 <= k <= records.len(),
    ensures
        replayed(records.take(k)).size <= replayed(records).size,
    decreases records.len() - k,
{
    if k == records.len() {
        assert(records.take(k) =~= records);
    } else {
        replayed_size(records, k + 1);
        assert(records.take(k + 1).drop_last() =~= records.take(k));
    }
}

impl Engine {
    /// Nothing of the log is left to be handed out.
    pub closed spec fn log_is_clear(self) -> bool {
        self.wal.unwritten() == Seq::<u8>::empty()
    }

    /// The engine can take what is pending.
    pub open spec fn wf(self) -> bool {
        &&& self.log_is_clear()
        &&& self@.pending matches Some(PendingView::Write(v)) ==> self@.mem.size
            + memtable::weight(v.key, v.value) <= usize::MAX
        &&& self@.pending matches Some(PendingView::Remove(ids)) ==> ids.len() > 0
    }

    /// Starts the store over the records of its log and the tables that were
    /// found, newest first.
    pub fn recover(records: Vec<WalRecord>, sstables: Vec<(u64, SsTableReader)>) -> (r: Engine)
        requires
            replayed(wal::records_view(records@)).size <= usize::MAX,
            !used_up(wal::records_view(records@), tables_view(sstables@)),
        ensures
            r.wf(),
            r@ == recovered(wal::records_view(records@), tables_view(sstables@)),
    {
        let ghost all = wal::records_view(records@);
        let ghost tables = tables_view(sstables@);
        let mut memtable = Memtable::new();
        let mut next_seqno: u64 = 0;
        let mut i: usize = 0;
        assert(all.take(0) =~= Seq::empty());
        while i < records.len()
            invariant
                i <= records@.len(),
                all == wal::records_view(records@),
                replayed(all).size <= usize::MAX,
                !used_up(all, tables),
                memtable@ == replayed(all.take(i as int)),
                next_seqno == above_all(0, all.take(i as int)),
            decreases records@.len() - i,
        {
            proof {
                assert(all.take(i + 1).drop_last() =~= all.take(i as int));
                assert(all.take(i + 1).last() == wal::record_view(records@[i as int]));
                replayed_size(all, i + 1);
                assert(all[i as int].seqno != u64::MAX);
            }
            let seqno: u64 = records[i].0;
            memtable.put(
                copy_bytes(records[i].1.as_slice()),
                copy_value(&records[i].2),
                seqno,
            );
            if seqno >= next_seqno {
                next_seqno = seqno + 1;
            }
            i = i + 1;
        }
        assert(all.take(i as int) =~= all);
        let ghost from = next_seqno;
        let mut next_sst_id: u64 = 0;
        let mut t: usize = 0;
        proof {
            assert(tables.take(0) =~= Seq::empty());
            assert(table_ids(tables).take(0) =~= Seq::empty());
        }
        while t < sstables.len()
            invariant
                t <= sstables@.len(),
                tables == tables_view(sstables@),
                !used_up(all, tables),
                next_seqno == above_all(from, all_entries(tables.take(t as int))),
                next_sst_id == above_ids(table_ids(tables).take(t as int)),
            decreases sstables@.len() - t,
        {
            let ghost before = all_entries(tables.take(t as int));
            let ghost entries = tables[t as int].1.entries;
            proof {
                assert(tables.take(t + 1).drop_last() =~= tables.take(t as int));
                assert(tables.take(t + 1).last() == tables[t as int]);
                assert(table_ids(tables).take(t + 1).drop_last() =~= table_ids(tables).take(
                    t as int,
                ));
                assert(table_ids(tables).take(t + 1).last() == sstables@[t as int].0);
                assert(tables[t as int].0 != u64::MAX);
                assert(before + entries.take(0) =~= before);
            }
            let mut e: usize = 0;
            while e < sstables[t].1.entries.len()
                invariant
                    t < sstables@.len(),
                    e <= entries.len(),
                    tables == tables_view(sstables@),
                    entries == types::versions_view(sstables@[t as int].1.entries@),
                    entries == tables[t as int].1.entries,
                    before == all_entries(tables.take(t as int)),
                    !used_up(all, tables),
                    next_seqno == above_all(from, before + entries.take(e as int)),
                decreases entries.len() - e,
            {
                proof {
                    let now = before + entries.take(e + 1);
                    assert(now.drop_last() =~= before + entries.take(e as int));
                    assert(now.last() == entries[e as int]);
                    assert(entries[e as int] == types::version_view(
                        sstables@[t as int].1.entries@[e as int],
                    ));
                    entry_is_among(tables, t as int, e as int);
                }
                let seqno: u64 = sstables[t].1.entries[e].0.seqno;
                if seqno >= next_seqno {
                    next_seqno = seqno + 1;
                }
                e = e + 1;
            }
            assert(entries.take(e as int) =~= entries);
            let id: u64 = sstables[t].0;
            if id >= next_sst_id {
                next_sst_id = id + 1;
            }
            t = t + 1;
        }
        proof {
            assert(tables.take(t as int) =~= tables);
            assert(table_ids(tables).take(t as int) =~= table_ids(tables));
        }
        let r = Engine {
            memtable,
            wal: WalWriter::create(),
            next_seqno,
            sstables,
            next_sst_id,
            pending: None,
        };
        assert(r@ =~= recovered(all, tables));
        r
    }

    /// Opens the store from the bytes of its log and of its table files, the
    /// newest table first. A torn or corrupt end of the log is passed over; a
    /// table file that is not one is corrupt. `None` is a store of which a
    /// sequence number or table number is the largest there is, so that none is
    /// left to go on with, or whose log is larger than memory can be.
    pub fn open(log: &[u8], files: &Vec<(u64, Vec<u8>)>) -> (r: Result<Option<Engine>>)
        ensures
            match tables_of(files_view(files@)) {
                Err(fault) => r matches Err(e) && e@ == fault,
                Ok(tables) => {
                    let records = wal::wal_records(log@);
                    if used_up(records, tables) || replayed(records).size > usize::MAX {
                        r matches Ok(None)
                    } else {
                        r matches Ok(Some(engine)) && engine.wf() && engine@ == recovered(
                            records,
                            tables,
                        )
                    }
                },
            },
    {
        let records = WalWriter::read_all(log);
        let sstables = match open_tables(files) {
            Ok(sstables) => sstables,
            Err(e) => return Err(e),
        };
        if exhausted(&records, &sstables) || !sized(&records) {
            return Ok(None);
        }
        Ok(Some(Engine::recover(records, sstables)))
    }

    fn write(&mut self, key: &[u8], value: Option<&[u8]>) -> (r: Action)
        requires
            old(self).wf(),
            old(self)@.idle(),
            old(self)@.next_seqno < u64::MAX,
            old(self)@.mem.size + memtable::weight(
                key@,
                match value {
                    Some(v) => Some(v@),
                    None => None,
                },
            ) <= usize::MAX,
        ensures
            final(self).wf(),
            stepped(
                Ok(Some(r)),
                final(self)@,
                old(self)@.write(
                    key@,
                    match value {
                        Some(v) => Some(v@),
                        None => None,
                    },
                ),
            ),
    {
        let ghost before = self@;
        let seqno: u64 = self.next_seqno;
        self.next_seqno = self.next_seqno + 1;
        self.wal.append(seqno, key, value);
        let record = self.wal.take();
        let stored: Option<Vec<u8>> = match value {
            Some(v) => Some(copy_bytes(v)),
            None => None,
        };
        self.pending = Some(Pending::Write(seqno, copy_bytes(key), stored));
        let action = Action::AppendWal(record);
        proof {
            let v: Option<Seq<u8>> = match value {
                Some(v) => Some(v@),
                None => None,
            };
            let step = before.write(key@, v);
            assert(self@ =~= step.state);
            assert(action@ =~= step.action->0);
        }
        action
    }

    /// Sets `key` to `value`. The write counts once its action is done.
    pub fn put(&mut self, key: &[u8], value: &[u8]) -> (r: Action)
        requires
            old(self).wf(),
            old(self)@.idle(),
            old(self)@.next_seqno < u64::MAX,
            old(self)@.mem.size + memtable::weight(key@, Some(value@)) <= usize::MAX,
        ensures
            final(self).wf(),
            stepped(Ok(Some(r)), final(self)@, old(self)@.write(key@, Some(value@))),
    {
        self.write(key, Some(value))
    }

    /// Deletes `key`. The write counts once its action is done.
    pub fn delete(&mut self, key: &[u8]) -> (r: Action)
        requires
            old(self).wf(),
            old(self)@.idle(),
            old(self)@.next_seqno < u64::MAX,
            old(self)@.mem.size + memtable::weight(key@, None) <= usize::MAX,
        ensures
            final(self).wf(),
            stepped(Ok(Some(r)), final(self)@, old(self)@.write(key@, None)),
    {
        self.write(key, None)
    }

    /// The value of `key`, if it has one.
    pub fn get(&self, key: &[u8]) -> (r: Result<Option<Vec<u8>>>)
        ensures
            r is Ok,
            types::value_view(r->Ok_0) == self@.get(key@),
    {
        match self.memtable.get(key) {
            Some(value) => return Ok(value),
            None => {},
        }
        let ghost tables = self@.tables;
        let mut t: usize = 0;
        assert(tables.skip(0) =~= tables);
        while t < self.sstables.len()
            invariant
                t <= self.sstables@.len(),
                tables == tables_view(self.sstables@),
                memtable::first_of(self@.mem.versions, key@) is None,
                self@.tables == tables,
                tables_find(tables, key@) == tables_find(tables.skip(t as int), key@),
            decreases self.sstables@.len() - t,
        {
            proof {
                assert(tables.skip(t as int)[0] == tables[t as int]);
                assert(tables[t as int].1 == self.sstables@[t as int].1@);
                assert(tables.skip(t as int).drop_first() =~= tables.skip(t + 1));
            }
            match self.sstables[t].1.get(key) {
                Ok(Some((_, value))) => return Ok(value),
                Ok(None) => {},
                Err(e) => return Err(e),
            }
            t = t + 1;
        }
        Ok(None)
    }

    /// Writes the table in memory out as a table file, if it holds anything.
    pub fn flush(&mut self) -> (r: Option<Action>)
        requires
            old(self).wf(),
            old(self)@.idle(),
            old(self)@.next_id < u64::MAX,
        ensures
            final(self).wf(),
            stepped(Ok(r), final(self)@, old(self)@.flush()),
    {
        let ghost before = self@;
        if self.memtable.approx_size_bytes() == 0 {
            assert(self@ =~= before.resting().state);
            return None;
        }
        let id: u64 = self.next_sst_id;
        self.next_sst_id = self.next_sst_id + 1;
        let entries = self.memtable.iter();
        let ghost all = before.mem.versions;
        let mut writer = SsTableWriter::create();
        let mut i: usize = 0;
        assert(all.take(0) =~= Seq::empty());
        while i < entries.len()
            invariant
                i <= entries@.len(),
                all == types::versions_view(entries@),
                writer.added() == all.take(i as int),
            decreases entries@.len() - i,
        {
            writer.add(&entries[i].0, &entries[i].1);
            i = i + 1;
            assert(writer.added() =~= all.take(i as int));
        }
        assert(all.take(i as int) =~= all);
        let file = writer.finish();
        let published = copy_bytes(file.as_slice());
        self.pending = Some(Pending::Flush(id, file));
        let action = Some(Action::PublishTable(id, published));
        proof {
            assert(self@ =~= before.flush().state);
            assert(action_view(action) =~= before.flush().action);
        }
        action
    }

    /// Merges all tables into one, in which every key has its newest value and
    /// what was deleted is gone.
    pub fn compact(&mut self) -> (r: Option<Action>)
        requires
            old(self).wf(),
            old(self)@.idle(),
            old(self)@.next_id < u64::MAX,
        ensures
            final(self).wf(),
            stepped(Ok(r), final(self)@, old(self)@.compact()),
    {
        let ghost before = self@;
        if self.sstables.len() < 2 {
            assert(self@ =~= before.resting().state);
            return None;
        }
        let ghost tables = self@.tables;
        let mut all: Vec<(InternalKey, Option<Vec<u8>>)> = Vec::new();
        let mut t: usize = 0;
        proof {
            assert(tables.take(0) =~= Seq::empty());
            assert(types::versions_view(all@) =~= Seq::empty());
        }
        while t < self.sstables.len()
            invariant
                t <= self.sstables@.len(),
                *self == *old(self),
                tables == tables_view(self.sstables@),
                types::versions_view(all@) == all_entries(tables.take(t as int)),
            decreases self.sstables@.len() - t,
        {
            proof {
                assert(tables.take(t + 1).drop_last() =~= tables.take(t as int));
                assert(tables.take(t + 1).last() == tables[t as int]);
            }
            let mut more = match self.sstables[t].1.iter() {
                Ok(more) => more,
                Err(_) => Vec::new(),
            };
            let ghost (a, b) = (all@, more@);
            all.append(&mut more);
            assert(types::versions_view(all@) =~= types::versions_view(a) + types::versions_view(
                b,
            ));
            t = t + 1;
        }
        assert(tables.take(t as int) =~= tables);
        let id: u64 = self.next_sst_id;
        self.next_sst_id = self.next_sst_id + 1;
        let file = write_merged(&all);
        let published = copy_bytes(file.as_slice());
        self.pending = Some(Pending::Merge(id, file));
        let action = Some(Action::PublishTable(id, published));
        proof {
            assert(self@ =~= before.compact().state);
            assert(action_view(action) =~= before.compact().action);
        }
        action
    }

    /// Removes the tables of `ids`, the first of them now.
    fn remove(&mut self, ids: Vec<u64>) -> (r: Option<Action>)
        requires
            old(self).log_is_clear(),
        ensures
            final(self).wf(),
            stepped(Ok(r), final(self)@, old(self)@.remove(ids@)),
    {
        let ghost before = self@;
        let action = if ids.len() == 0 {
            self.pending = None;
            None
        } else {
            let first: u64 = ids[0];
            self.pending = Some(Pending::Remove(ids));
            Some(Action::RemoveTable(first))
        };
        proof {
            assert(self@ =~= before.remove(ids@).state);
            assert(action_view(action) =~= before.remove(ids@).action);
        }
        action
    }

    /// The action that was handed out has been performed. What follows from it
    /// takes effect, and the next action is handed out if there is one.
    pub fn done(&mut self) -> (r: Result<Option<Action>>)
        requires
            old(self).wf(),
            old(self)@.next_id < u64::MAX,
        ensures
            final(self).wf(),
            stepped(r, final(self)@, old(self)@.done()),
    {
        let ghost before = self@;
        let pending = match self.pending.take() {
            Some(pending) => pending,
            None => {
                assert(self@ =~= before.resting().state);
                return Ok(None);
            },
        };
        match pending {
            Pending::Write(seqno, key, value) => {
                let ghost v = pending@->Write_0;
                self.memtable.put(key, value, seqno);
                assert(self@ =~= before.stored(v));
                if self.memtable.approx_size_bytes() >= MEMTABLE_FLUSH_BYTES {
                    return Ok(self.flush());
                }
                assert(self@ =~= before.done().state);
                Ok(None)
            },
            Pending::Flush(id, file) => match SsTableReader::open(file.as_slice()) {
                Ok(table) => {
                    self.sstables.insert(0, (id, table));
                    self.pending = Some(Pending::Reset);
                    proof {
                        assert(self@.tables =~= seq![(id, table@)] + before.tables);
                        assert(self@ =~= before.done().state);
                    }
                    Ok(Some(Action::ResetWal))
                },
                Err(e) => {
                    assert(self@ =~= before.done().state);
                    Err(e)
                },
            },
            Pending::Reset => {
                self.memtable = Memtable::new();
                assert(self@ =~= before.emptied());
                if self.sstables.len() > MAX_SSTABLES_BEFORE_COMPACT {
                    return Ok(self.compact());
                }
                assert(self@ =~= before.done().state);
                Ok(None)
            },
            Pending::Merge(id, file) => match SsTableReader::open(file.as_slice()) {
                Ok(table) => {
                    let ids = self.ids();
                    let mut tables: Vec<(u64, SsTableReader)> = Vec::new();
                    tables.push((id, table));
                    self.sstables = tables;
                    let ghost mid = StoreState { tables: seq![(id, table@)], ..before };
                    proof {
                        assert(self@.tables =~= seq![(id, table@)]);
                        assert(self@ =~= StoreState { pending: None, ..mid });
                    }
                    let action = self.remove(ids);
                    assert(self@ =~= mid.remove(ids@).state);
                    Ok(action)
                },
                Err(e) => {
                    assert(self@ =~= before.done().state);
                    Err(e)
                },
            },
            Pending::Remove(ids) => {
                let mut rest: Vec<u64> = Vec::new();
                let mut i: usize = 1;
                assert(rest@ =~= ids@.subrange(1, 1));
                while i < ids.len()
                    invariant
                        1 <= i <= ids@.len(),
                        rest@ == ids@.subrange(1, i as int),
                    decreases ids@.len() - i,
                {
                    rest.push(ids[i]);
                    i = i + 1;
                    assert(rest@ =~= ids@.subrange(1, i as int));
                }
                assert(rest@ =~= ids@.skip(1));
                let action = self.remove(rest);
                assert(self@ =~= before.remove(rest@).state);
                Ok(action)
            },
        }
    }

    /// The action that was handed out could not be performed. The operation
    /// ends; nothing that was to follow from it takes effect.
    pub fn failed(&mut self)
        requires
            old(self).wf(),
        ensures
            final(self).wf(),
            final(self)@ == old(self)@.failed(),
    {
        self.pending = None;
        assert(self@ =~= old(self)@.failed());
    }

    /// Whether there are numbers left, for a write and for a table.
    pub fn numbers_left(&self) -> (r: bool)
        ensures
            r == (self@.next_seqno < u64::MAX && self@.next_id < u64::MAX),
    {
        self.next_seqno < u64::MAX && self.next_sst_id < u64::MAX
    }

    /// Whether the size of the memtable with this write can still be counted.
    pub fn fits(&self, key: &[u8], value: Option<&[u8]>) -> (r: bool)
        ensures
            r == (self@.mem.size + memtable::weight(
                key@,
                match value {
                    Some(v) => Some(v@),
                    None => None,
                },
            ) <= usize::MAX),
    {
        let more: u128 = match value {
            Some(v) => key.len() as u128 + v.len() as u128 + 16,
            None => key.len() as u128 + 16,
        };
        self.memtable.approx_size_bytes() as u128 + more <= usize::MAX as u128
    }

    /// The numbers of the tables, newest first.
    fn ids(&self) -> (r: Vec<u64>)
        ensures
            r@ == table_ids(self@.tables),
    {
        let mut out: Vec<u64> = Vec::new();
        let mut t: usize = 0;
        assert(out@ =~= table_ids(self@.tables).take(0));
        while t < self.sstables.len()
            invariant
                t <= self.sstables@.len(),
                out@ == table_ids(self@.tables).take(t as int),
            decreases self.sstables@.len() - t,
        {
            out.push(self.sstables[t].0);
            t = t + 1;
            assert(out@ =~= table_ids(self@.tables).take(t as int));
        }
        assert(out@ =~= table_ids(self@.tables));
        out
    }
}

/// Every entry of every table is among all entries.
pub proof fn entry_is_among(tables: Seq<(u64, TableView)>, t: int, e: int)
    requires
        0 <= t < tables.len(),
        0 <= e < tables[t].1.entries.len(),
    ensures
        exists|i: int|
            0 <= i < all_entries(tables).len() && #[trigger] all_entries(tables)[i]
                == tables[t].1.entries[e],
    decreases tables.len(),
{
    let before = all_entries(tables.drop_last());
    if t == tables.len() - 1 {
        assert(all_entries(tables)[before.len() + e] == tables[t].1.entries[e]);
    } else {
        entry_is_among(tables.drop_last(), t, e);
        let i = choose|i: int|
            0 <= i < before.len() && #[trigger] before[i] == tables.drop_last()[t].1.entries[e];
        assert(all_entries(tables)[i] == before[i]);
    }
}

/// Every one of all entries is an entry of a table.
pub proof fn entry_comes_from(tables: Seq<(u64, TableView)>, i: int)
    requires
        0 <= i < all_entries(tables).len(),
    ensures
        exists|t: int, e: int|
            0 <= t < tables.len() && 0 <= e < tables[t].1.entries.len() && all_entries(tables)[i]
                == #[trigger] tables[t].1.entries[e],
    decreases tables.len(),
{
    let before = all_entries(tables.drop_last());
    if i < before.len() {
        entry_comes_from(tables.drop_last(), i);
        let (t, e) = choose|t: int, e: int|
            0 <= t < tables.drop_last().len() && 0 <= e < tables.drop_last()[t].1.entries.len()
                && before[i] == #[trigger] tables.drop_last()[t].1.entries[e];
        assert(tables[t].1.entries[e] == all_entries(tables)[i]);
    } else {
        let t = tables.len() - 1;
        assert(tables[t].1.entries[i - before.len()] == all_entries(tables)[i]);
    }
}

/// Reads table files, up to the first that is not one.
fn open_tables(files: &Vec<(u64, Vec<u8>)>) -> (r: Result<Vec<(u64, SsTableReader)>>)
    ensures
        match r {
            Ok(tables) => tables_of(files_view(files@)) == Ok::<Seq<(u64, TableView)>, Fault>(
                tables_view(tables@),
            ),
            Err(e) => tables_of(files_view(files@)) == Err::<Seq<(u64, TableView)>, Fault>(e@),
        },
{
    let ghost all = files_view(files@);
    let mut out: Vec<(u64, SsTableReader)> = Vec::new();
    let mut i: usize = 0;
    proof {
        assert(all.take(0) =~= Seq::empty());
        assert(tables_view(out@) =~= Seq::empty());
    }
    while i < files.len()
        invariant
            i <= files@.len(),
            all == files_view(files@),
            tables_of(all.take(i as int)) == Ok::<Seq<(u64, TableView)>, Fault>(
                tables_view(out@),
            ),
        decreases files@.len() - i,
    {
        proof {
            assert(all.take(i + 1).drop_last() =~= all.take(i as int));
            assert(all.take(i + 1).last() == (files@[i as int].0, files@[i as int].1@));
        }
        match SsTableReader::open(files[i].1.as_slice()) {
            Ok(table) => {
                let ghost before = tables_view(out@);
                out.push((files[i].0, table));
                assert(tables_view(out@) =~= before.push((files@[i as int].0, table@)));
            },
            Err(e) => {
                proof {
                    faults_stay(all, i + 1);
                }
                return Err(e);
            },
        }
        i = i + 1;
    }
    assert(all.take(i as int) =~= all);
    Ok(out)
}

proof fn faults_stay(files: Seq<(u64, Seq<u8>)>, k: int)
    requires
        0 <= k <= files.len(),
        tables_of(files.take(k)) is Err,
    ensures
        tables_of(files) == tables_of(files.take(k)),
    decreases files.len() - k,
{
    if k == files.len() {
        assert(files.take(k) =~= files);
    } else {
        assert(files.take(k + 1).drop_last() =~= files.take(k));
        faults_stay(files, k + 1);
    }
}

/// Whether a largest number has been reached.
fn exhausted(records: &Vec<WalRecord>, sstables: &Vec<(u64, SsTableReader)>) -> (r: bool)
    ensures
        r == used_up(wal::records_view(records@), tables_view(sstables@)),
{
    let ghost all = wal::records_view(records@);
    let ghost tables = tables_view(sstables@);
    let mut i: usize = 0;
    while i < records.len()
        invariant
            i <= records@.len(),
            all == wal::records_view(records@),
            forall|j: int| 0 <= j < i ==> (#[trigger] all[j]).seqno != u64::MAX,
        decreases records@.len() - i,
    {
        assert(all[i as int].seqno == records@[i as int].0);
        if records[i].0 == u64::MAX {
            return true;
        }
        i = i + 1;
    }
    let mut t: usize = 0;
    while t < sstables.len()
        invariant
            t <= sstables@.len(),
            all == wal::records_view(records@),
            tables == tables_view(sstables@),
            forall|j: int| 0 <= j < t ==> (#[trigger] tables[j]).0 != u64::MAX,
            forall|j: int, e: int|
                0 <= j < t && 0 <= e < tables[j].1.entries.len() ==> (
                #[trigger] tables[j].1.entries[e]).seqno != u64::MAX,
        decreases sstables@.len() - t,
    {
        let ghost entries = tables[t as int].1.entries;
        assert(tables[t as int] == (sstables@[t as int].0, sstables@[t as int].1@));
        if sstables[t].0 == u64::MAX {
            return true;
        }
        let mut e: usize = 0;
        while e < sstables[t].1.entries.len()
            invariant
                t < sstables@.len(),
                e <= entries.len(),
                all == wal::records_view(records@),
                tables == tables_view(sstables@),
                entries == tables[t as int].1.entries,
                entries == types::versions_view(sstables@[t as int].1.entries@),
                forall|k: int| 0 <= k < e ==> (#[trigger] entries[k]).seqno != u64::MAX,
            decreases entries.len() - e,
        {
            assert(entries[e as int].seqno == sstables@[t as int].1.entries@[e as int].0.seqno);
            if sstables[t].1.entries[e].0.seqno == u64::MAX {
                proof {
                    entry_is_among(tables, t as int, e as int);
                }
                return true;
            }
            e = e + 1;
        }
        t = t + 1;
    }
    proof {
        assert forall|i: int| 0 <= i < all_entries(tables).len() implies (
        #[trigger] all_entries(tables)[i]).seqno != u64::MAX by {
            entry_comes_from(tables, i);
            let (t, e) = choose|t: int, e: int|
                0 <= t < tables.len() && 0 <= e < tables[t].1.entries.len()
                    && all_entries(tables)[i] == #[trigger] tables[t].1.entries[e];
            assert(tables[t].1.entries[e].seqno != u64::MAX);
        }
    }
    false
}

/// Whether the table in memory after `records` is no larger than memory.
fn sized(records: &Vec<WalRecord>) -> (r: bool)
    ensures
        r == (replayed(wal::records_view(records@)).size <= usize::MAX),
{
    let ghost all = wal::records_view(records@);
    let mut size: usize = 0;
    let mut i: usize = 0;
    assert(all.take(0) =~= Seq::empty());
    while i < records.len()
        invariant
            i <= records@.len(),
            all == wal::records_view(records@),
            size == replayed(all.take(i as int)).size,
        decreases records@.len() - i,
    {
        proof {
            assert(all.take(i + 1).drop_last() =~= all.take(i as int));
            assert(all.take(i + 1).last() == wal::record_view(records@[i as int]));
            replayed_size(all, i + 1);
        }
        let value: usize = match &records[i].2 {
            Some(v) => v.len(),
            None => 0,
        };
        let wide: u128 = size as u128 + records[i].1.len() as u128 + value as u128 + 16;
        if wide > usize::MAX as u128 {
            return false;
        }
        size = wide as usize;
        i = i + 1;
    }
    assert(all.take(i as int) =~= all);
    true
}

} // verus!
