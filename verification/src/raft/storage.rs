//! What a node keeps across restarts, and a store that keeps it in memory.

use vstd::prelude::*;
use vstd::string::*;

use crate::bytes::copy_bytes;
use crate::error::{self, Error, Fault, Result};
use crate::raft::types::{
    self, copy_entries, EntryView, HardState, LogEntry, LogIndex, SnapshotMeta, Term,
};
use crate::text::{self, push_decimal};

verus! {

/// The bytes of a saved snapshot and the membership recorded with it.
#[verifier::ext_equal]
pub struct SnapshotBytes {
    pub data: Seq<u8>,
    pub config: Seq<u8>,
}

/// What a store holds: the hard state, the last entry that the snapshot
/// covers, the entries behind it, and the snapshot itself if one was saved.
#[verifier::ext_equal]
pub struct Durable {
    pub hs: HardState,
    pub base: SnapshotMeta,
    pub entries: Seq<EntryView>,
    pub snapshot: Option<SnapshotBytes>,
}

impl Durable {
    /// The entries follow the snapshot without a gap, and no index is the
    /// largest that there is.
    pub open spec fn wf(self) -> bool {
        &&& self.base.last_index + self.entries.len() < u64::MAX
        &&& forall|i: int|
            0 <= i < self.entries.len() ==> (#[trigger] self.entries[i]).index
                == self.base.last_index + 1 + i
    }

    pub open spec fn last_index(self) -> LogIndex {
        (self.base.last_index + self.entries.len()) as u64
    }

    pub open spec fn last_term(self) -> Term {
        if self.entries.len() > 0 {
            self.entries.last().term
        } else {
            self.base.last_term
        }
    }

    /// Whether there is an entry at `index` behind the snapshot.
    pub open spec fn holds(self, index: LogIndex) -> bool {
        self.base.last_index < index <= self.base.last_index + self.entries.len()
    }

    /// The entry at `index`, where there is one behind the snapshot.
    pub open spec fn at(self, index: LogIndex) -> EntryView {
        self.entries[index - self.base.last_index - 1]
    }

    /// The term of the entry at `index`: known for the entries behind the
    /// snapshot and for the last one that it covers.
    pub open spec fn term(self, index: LogIndex) -> Option<Term> {
        if index == 0 {
            None
        } else if index == self.base.last_index {
            Some(self.base.last_term)
        } else if self.holds(index) {
            Some(self.at(index).term)
        } else {
            None
        }
    }

    /// The entries from `index` on.
    pub open spec fn from(self, index: LogIndex) -> Seq<EntryView> {
        if index <= self.base.last_index {
            self.entries
        } else if self.holds(index) {
            self.entries.skip(index - self.base.last_index - 1)
        } else {
            Seq::empty()
        }
    }

    /// The first position, from `k` on, at which `more` does not continue the log.
    pub open spec fn gap(self, more: Seq<EntryView>, k: int) -> Option<int>
        decreases more.len() - k,
    {
        if k >= more.len() {
            None
        } else if more[k].index != self.last_index() + 1 + k {
            Some(k)
        } else {
            self.gap(more, k + 1)
        }
    }

    /// Why `more` cannot be appended, if it cannot.
    pub open spec fn append_fault(self, more: Seq<EntryView>) -> Option<Fault> {
        match self.gap(more, 0) {
            Some(k) => Some(
                error::corrupt(
                    "log append must be contiguous: expected index "@ + text::decimal(
                        (self.last_index() + 1 + k) as nat,
                    ) + ", got "@ + text::decimal(more[k].index as nat),
                ),
            ),
            None => None,
        }
    }

    pub open spec fn append(self, more: Seq<EntryView>) -> Durable {
        Durable { entries: self.entries + more, ..self }
    }

    /// The log without the entries at `index` and behind it.
    pub open spec fn truncate(self, index: LogIndex) -> Durable {
        if index <= self.base.last_index {
            Durable { entries: Seq::empty(), ..self }
        } else if self.holds(index) {
            Durable { entries: self.entries.take(index - self.base.last_index - 1), ..self }
        } else {
            self
        }
    }

    /// Why a snapshot cannot be saved, if it cannot.
    pub open spec fn save_fault(self, meta: SnapshotMeta) -> Option<Fault> {
        if meta.last_index < self.base.last_index {
            Some(
                error::corrupt(
                    "snapshot cannot move backwards: current base "@ + text::decimal(
                        self.base.last_index as nat,
                    ) + ", got "@ + text::decimal(meta.last_index as nat),
                ),
            )
        } else {
            None
        }
    }

    /// A snapshot saved: what it covers is dropped, and what is behind it stays
    /// where it still continues the log.
    pub open spec fn save(self, meta: SnapshotMeta, data: Seq<u8>, config: Seq<u8>) -> Durable {
        Durable {
            hs: self.hs,
            base: meta,
            entries: if self.base.last_index <= meta.last_index < self.last_index() {
                self.entries.skip(meta.last_index - self.base.last_index)
            } else {
                Seq::empty()
            },
            snapshot: Some(SnapshotBytes { data, config }),
        }
    }

    /// `more` continues the log exactly if no position is out of place.
    pub proof fn no_gap(self, more: Seq<EntryView>, k: int)
        requires
            0 <= k <= more.len(),
        ensures
            self.gap(more, k) is None <==> forall|i: int|
                k <= i < more.len() ==> (#[trigger] more[i]).index == self.last_index() + 1 + i,
            self.gap(more, k) matches Some(g) ==> k <= g < more.len(),
        decreases more.len() - k,
    {
        if k < more.len() {
            self.no_gap(more, k + 1);
        }
    }

    /// Appending what continues the log keeps it well-formed.
    pub proof fn append_wf(self, more: Seq<EntryView>)
        requires
            self.wf(),
            self.append_fault(more) is None,
            self.last_index() + more.len() < u64::MAX,
        ensures
            self.append(more).wf(),
            self.append(more).last_index() == self.last_index() + more.len(),
    {
        self.no_gap(more, 0);
    }

    /// Truncating and saving keep the log well-formed.
    pub proof fn kept_wf(self, index: LogIndex, meta: SnapshotMeta, data: Seq<u8>, config: Seq<u8>)
        requires
            self.wf(),
            meta.last_index < u64::MAX,
        ensures
            self.truncate(index).wf(),
            self.truncate(index).last_index() <= self.last_index(),
            self.save(meta, data, config).wf(),
    {
    }
}

/// The contents of a saved snapshot as `read_snapshot` hands them out.
pub open spec fn snapshot_view(s: Option<(SnapshotMeta, Vec<u8>, Vec<u8>)>) -> Option<
    (SnapshotMeta, SnapshotBytes),
> {
    match s {
        Some((meta, data, config)) => Some((meta, SnapshotBytes { data: data@, config: config@ })),
        None => None,
    }
}

/// A node's durable store.
///
/// A method that may fail does what its contract says whenever it returns
/// `Ok`. A store that fails only where the request itself is at fault says so
/// by `reliable`; it then leaves what it holds untouched where it fails.
pub trait RaftStorage: Sized {
    /// What the store holds.
    spec fn durable(&self) -> Durable;

    /// The store never fails on its own account.
    spec fn reliable() -> bool;

    fn hard_state(&self) -> (r: HardState)
        requires
            self.durable().wf(),
        ensures
            r == self.durable().hs,
    ;

    fn save_hard_state(&mut self, hs: &HardState) -> (r: Result<()>)
        requires
            old(self).durable().wf(),
        ensures
            final(self).durable().wf(),
            r is Ok ==> final(self).durable() == (Durable { hs: *hs, ..old(self).durable() }),
            Self::reliable() ==> r is Ok,
    ;

    fn last_index(&self) -> (r: LogIndex)
        requires
            self.durable().wf(),
        ensures
            r == self.durable().last_index(),
    ;

    fn last_term(&self) -> (r: Term)
        requires
            self.durable().wf(),
        ensures
            r == self.durable().last_term(),
    ;

    fn term(&self, index: LogIndex) -> (r: Result<Option<Term>>)
        requires
            self.durable().wf(),
        ensures
            r matches Ok(t) ==> t == self.durable().term(index),
            Self::reliable() ==> r is Ok,
    ;

    fn entries_from(&self, index: LogIndex) -> (r: Vec<LogEntry>)
        requires
            self.durable().wf(),
        ensures
            types::entries_view(r@) == self.durable().from(index),
    ;

    fn snapshot_meta(&self) -> (r: SnapshotMeta)
        requires
            self.durable().wf(),
        ensures
            r == self.durable().base,
    ;

    /// Appends `entries`, which must continue the log.
    fn append(&mut self, entries: &[LogEntry]) -> (r: Result<()>)
        requires
            old(self).durable().wf(),
            old(self).durable().last_index() + entries@.len() < u64::MAX,
        ensures
            final(self).durable().wf(),
            r is Ok ==> {
                &&& old(self).durable().append_fault(types::entries_view(entries@)) is None
                &&& final(self).durable() == old(self).durable().append(types::entries_view(entries@))
            },
            Self::reliable() ==> (r is Ok <==> old(self).durable().append_fault(
                types::entries_view(entries@),
            ) is None),
            Self::reliable() ==> (r matches Err(e) ==> {
                &&& old(self).durable().append_fault(types::entries_view(entries@)) == Some(e@)
                &&& final(self).durable() == old(self).durable()
            }),
    ;

    /// Drops the entries at `index` and behind it.
    fn truncate_suffix(&mut self, index: LogIndex) -> (r: Result<()>)
        requires
            old(self).durable().wf(),
        ensures
            final(self).durable().wf(),
            r is Ok ==> final(self).durable() == old(self).durable().truncate(index),
            Self::reliable() ==> r is Ok,
    ;

    /// Saves a snapshot, with the membership recorded beside it, and compacts
    /// the log to it. What the snapshot covers is dropped; what is behind it
    /// stays only where it continues from the snapshot, otherwise the whole
    /// log goes. A snapshot older than the saved one is refused.
    fn save_snapshot(&mut self, meta: SnapshotMeta, data: &[u8], config: &[u8]) -> (r: Result<()>)
        requires
            old(self).durable().wf(),
            meta.last_index < u64::MAX,
        ensures
            final(self).durable().wf(),
            r is Ok ==> {
                &&& old(self).durable().save_fault(meta) is None
                &&& final(self).durable() == old(self).durable().save(meta, data@, config@)
            },
            Self::reliable() ==> (r is Ok <==> old(self).durable().save_fault(meta) is None),
            Self::reliable() ==> (r matches Err(e) ==> {
                &&& old(self).durable().save_fault(meta) == Some(e@)
                &&& final(self).durable() == old(self).durable()
            }),
    ;

    /// The saved snapshot with its membership, or `None` if none was ever saved.
    fn read_snapshot(&self) -> (r: Result<Option<(SnapshotMeta, Vec<u8>, Vec<u8>)>>)
        requires
            self.durable().wf(),
        ensures
            r matches Ok(s) ==> snapshot_view(s) == match self.durable().snapshot {
                Some(bytes) => Some((self.durable().base, bytes)),
                None => None,
            },
            Self::reliable() ==> r is Ok,
    ;
}

/// A store in memory.
pub struct MemStorage {
    hs: HardState,
    entries: Vec<LogEntry>,
    snapshot: SnapshotMeta,
    /// The saved snapshot's payload and membership. A snapshot with an empty
    /// payload is still a snapshot.
    saved: Option<(Vec<u8>, Vec<u8>)>,
}

impl Default for MemStorage {
    fn default() -> (r: Self)
        ensures
            r.durable() == (Durable {
                hs: HardState { current_term: 0, voted_for: None },
                base: SnapshotMeta { last_index: 0, last_term: 0 },
                entries: Seq::empty(),
                snapshot: None,
            }),
            r.durable().wf(),
    {
        let r = MemStorage {
            hs: HardState { current_term: 0, voted_for: None },
            entries: Vec::new(),
            snapshot: SnapshotMeta { last_index: 0, last_term: 0 },
            saved: None,
        };
        assert(types::entries_view(r.entries@) =~= Seq::empty());
        r
    }
}

fn gap_error(expected: u64, got: u64) -> (e: Error)
    ensures
        e@ == error::corrupt(
            "log append must be contiguous: expected index "@ + text::decimal(expected as nat)
                + ", got "@ + text::decimal(got as nat),
        ),
{
    let mut message = "log append must be contiguous: expected index ".to_owned();
    push_decimal(&mut message, expected);
    message.append(", got ");
    push_decimal(&mut message, got);
    Error::Corruption(message)
}

fn backwards_error(base: u64, got: u64) -> (e: Error)
    ensures
        e@ == error::corrupt(
            "snapshot cannot move backwards: current base "@ + text::decimal(base as nat) + ", got "@
                + text::decimal(got as nat),
        ),
{
    let mut message = "snapshot cannot move backwards: current base ".to_owned();
    push_decimal(&mut message, base);
    message.append(", got ");
    push_decimal(&mut message, got);
    Error::Corruption(message)
}

impl RaftStorage for MemStorage {
    closed spec fn durable(&self) -> Durable {
        Durable {
            hs: self.hs,
            base: self.snapshot,
            entries: types::entries_view(self.entries@),
            snapshot: match self.saved {
                Some((data, config)) => Some(SnapshotBytes { data: data@, config: config@ }),
                None => None,
            },
        }
    }

    open spec fn reliable() -> bool {
        true
    }

    fn hard_state(&self) -> HardState {
        self.hs
    }

    fn save_hard_state(&mut self, hs: &HardState) -> Result<()> {
        self.hs = *hs;
        Ok(())
    }

    fn last_index(&self) -> LogIndex {
        let len: usize = self.entries.len();
        if len == 0 {
            self.snapshot.last_index
        } else {
            assert(self.durable().entries[len - 1] == self.entries@[len - 1]@);
            self.entries[len - 1].index
        }
    }

    fn last_term(&self) -> Term {
        let len: usize = self.entries.len();
        if len == 0 {
            self.snapshot.last_term
        } else {
            self.entries[len - 1].term
        }
    }

    fn term(&self, index: LogIndex) -> Result<Option<Term>> {
        if index == 0 {
            return Ok(None);
        }
        if index < self.snapshot.last_index {
            return Ok(None);
        }
        if index == self.snapshot.last_index {
            return Ok(Some(self.snapshot.last_term));
        }
        let pos: u64 = index - self.snapshot.last_index - 1;
        if pos < self.entries.len() as u64 {
            Ok(Some(self.entries[pos as usize].term))
        } else {
            Ok(None)
        }
    }

    fn entries_from(&self, index: LogIndex) -> Vec<LogEntry> {
        let base: u64 = self.snapshot.last_index;
        let skipped: u64 = if index > base { index - base - 1 } else { 0 };
        if skipped < self.entries.len() as u64 {
            let r = copy_entries(self.entries.as_slice(), skipped as usize);
            assert(types::entries_view(self.entries@).skip(0) =~= types::entries_view(self.entries@));
            r
        } else {
            let r: Vec<LogEntry> = Vec::new();
            assert(types::entries_view(r@) =~= self.durable().from(index));
            r
        }
    }

    fn snapshot_meta(&self) -> SnapshotMeta {
        self.snapshot
    }

    fn append(&mut self, entries: &[LogEntry]) -> Result<()> {
        let last: u64 = self.last_index();
        let ghost before = self.durable();
        let ghost more = types::entries_view(entries@);
        let mut i: usize = 0;
        while i < entries.len()
            invariant
                i <= entries@.len(),
                more == types::entries_view(entries@),
                last == before.last_index(),
                last + entries@.len() < u64::MAX,
                *self == *old(self),
                self.durable() == before,
                before.wf(),
                before.gap(more, 0) == before.gap(more, i as int),
            decreases entries@.len() - i,
        {
            let expected: u64 = last + 1 + i as u64;
            if entries[i].index != expected {
                return Err(gap_error(expected, entries[i].index));
            }
            i = i + 1;
        }
        proof {
            before.append_wf(more);
        }
        let mut i: usize = 0;
        while i < entries.len()
            invariant
                i <= entries@.len(),
                more == types::entries_view(entries@),
                self.durable() == before.append(more.take(i as int)),
            decreases entries@.len() - i,
        {
            let entry = entries[i].clone();
            proof {
                types::entries_view_push(self.entries@, entry);
                assert(more.take(i + 1) =~= more.take(i as int).push(entry@));
            }
            self.entries.push(entry);
            i = i + 1;
            assert(self.durable() =~= before.append(more.take(i as int)));
        }
        assert(more.take(i as int) =~= more);
        Ok(())
    }

    fn truncate_suffix(&mut self, index: LogIndex) -> Result<()> {
        proof {
            self.durable().kept_wf(index, self.snapshot, Seq::empty(), Seq::empty());
        }
        if index > self.last_index() {
            return Ok(());
        }
        let ghost before = self.durable();
        if index <= self.snapshot.last_index {
            self.entries.clear();
        } else {
            self.entries.truncate((index - self.snapshot.last_index - 1) as usize);
        }
        assert(self.durable() =~= before.truncate(index));
        Ok(())
    }

    fn save_snapshot(&mut self, meta: SnapshotMeta, data: &[u8], config: &[u8]) -> Result<()> {
        if meta.last_index < self.snapshot.last_index {
            return Err(backwards_error(self.snapshot.last_index, meta.last_index));
        }
        let ghost before = self.durable();
        proof {
            before.kept_wf(0, meta, data@, config@);
        }
        let len: usize = self.entries.len();
        if meta.last_index < self.last_index() {
            assert(meta.last_index - self.snapshot.last_index < len);
            let covered: usize = (meta.last_index - self.snapshot.last_index) as usize;
            self.entries = copy_entries(self.entries.as_slice(), covered);
        } else {
            self.entries.clear();
        }
        self.snapshot = meta;
        self.saved = Some((copy_bytes(data), copy_bytes(config)));
        assert(self.durable() =~= before.save(meta, data@, config@));
        Ok(())
    }

    fn read_snapshot(&self) -> Result<Option<(SnapshotMeta, Vec<u8>, Vec<u8>)>> {
        match &self.saved {
            Some((data, config)) => Ok(
                Some(
                    (self.snapshot, copy_bytes(data.as_slice()), copy_bytes(config.as_slice())),
                ),
            ),
            None => Ok(None),
        }
    }
}

} // verus!
