//! The log on disk.

use vstd::prelude::*;
use vstd::string::*;

use crate::error::{self, Error, Fault, Result};
use crate::frame;
use crate::raft::oplog::{self, read_all_with_len, Op, OpView};
use crate::raft::types::{self, EntryView, LogEntry, LogIndex, SnapshotMeta, Term};
use crate::text::{self, push_decimal};

verus! {

/// A log, as its operations have left it.
///
/// An operation on the log is planned first: `append`, `truncate_suffix` and
/// `compact_prefix` say which records it takes. Each record is then written and
/// synced, and takes effect by `apply`.
pub struct RaftLog {
    entries: Vec<LogEntry>,
    snapshot: SnapshotMeta,
    /// How much of the file was sound when it was opened.
    sound_len: u64,
}

/// A log: the entries behind its snapshot, and the last entry that covers.
#[verifier::ext_equal]
pub struct LogView {
    pub entries: Seq<EntryView>,
    pub snapshot: SnapshotMeta,
}

/// Entries below `index`.
pub open spec fn below(index: LogIndex) -> spec_fn(EntryView) -> bool {
    |e: EntryView| e.index < index
}

/// Entries above `index`.
pub open spec fn beyond(index: LogIndex) -> spec_fn(EntryView) -> bool {
    |e: EntryView| e.index > index
}

impl LogView {
    pub open spec fn empty() -> LogView {
        LogView {
            entries: Seq::empty(),
            snapshot: SnapshotMeta { last_index: 0, last_term: 0 },
        }
    }

    /// The entries stand one behind the other, the first behind the snapshot.
    pub open spec fn contiguous(self) -> bool {
        &&& self.snapshot.last_index + self.entries.len() < u64::MAX
        &&& forall|i: int|
            0 <= i < self.entries.len() ==> (#[trigger] self.entries[i]).index
                == self.snapshot.last_index + 1 + i
    }

    pub open spec fn last_index(self) -> LogIndex {
        if self.entries.len() > 0 {
            self.entries.last().index
        } else {
            self.snapshot.last_index
        }
    }

    pub open spec fn last_term(self) -> Term {
        if self.entries.len() > 0 {
            self.entries.last().term
        } else {
            self.snapshot.last_term
        }
    }

    pub open spec fn entry(self, index: LogIndex) -> Option<EntryView> {
        let at = index - self.snapshot.last_index - 1;
        if index > self.snapshot.last_index && at < self.entries.len() {
            Some(self.entries[at])
        } else {
            None
        }
    }

    /// The entries from `index` on, up to the last index.
    pub open spec fn entries_from(self, index: LogIndex) -> Seq<EntryView> {
        let base = self.snapshot.last_index;
        let from = if index > base {
            index - base - 1
        } else {
            0
        };
        let to = if self.last_index() - base < self.entries.len() {
            self.last_index() - base
        } else {
            self.entries.len() as int
        };
        if from < to {
            self.entries.subrange(from, to)
        } else {
            Seq::empty()
        }
    }

    /// The log after an operation.
    pub open spec fn apply(self, op: OpView) -> LogView {
        match op {
            OpView::Append(e) => LogView { entries: self.entries.push(e), ..self },
            OpView::TruncateSuffix(from) => LogView {
                entries: self.entries.filter(below(from)),
                ..self
            },
            OpView::Compact { up_to, meta } => LogView {
                entries: self.entries.filter(beyond(up_to)),
                snapshot: meta,
            },
        }
    }

    /// The log after some operations.
    pub open spec fn apply_all(self, ops: Seq<OpView>) -> LogView
        decreases ops.len(),
    {
        if ops.len() == 0 {
            self
        } else {
            self.apply_all(ops.drop_last()).apply(ops.last())
        }
    }

    /// The first of `more`, from `k` on, that is out of place.
    pub open spec fn gap(self, more: Seq<EntryView>, k: int) -> Option<int>
        decreases more.len() - k,
    {
        if k >= more.len() {
            None
        } else if more[k].index != self.last_index() + 1 + k {
            Some(k)
        } else {
            self.gap(more, k + 1)
        }
    }

    /// The records that append `more`, or why it cannot be appended.
    pub open spec fn append(self, more: Seq<EntryView>) -> core::result::Result<
        Seq<OpView>,
        Fault,
    > {
        match self.gap(more, 0) {
            Some(k) => Err(
                error::corrupt(
                    "log append must be contiguous: expected index "@ + text::decimal(
                        (self.last_index() + 1 + k) as nat,
                    ) + ", got "@ + text::decimal(more[k].index as nat),
                ),
            ),
            None => Ok(more.map_values(|e: EntryView| OpView::Append(e))),
        }
    }

    /// The records that drop everything from `from` on.
    pub open spec fn truncate_suffix(self, from: LogIndex) -> Seq<OpView> {
        if from > self.last_index() {
            Seq::empty()
        } else {
            seq![OpView::TruncateSuffix(from)]
        }
    }

    /// The records that drop everything up to `up_to`, or why that cannot be.
    pub open spec fn compact_prefix(
        self,
        up_to: LogIndex,
        meta: SnapshotMeta,
    ) -> core::result::Result<Seq<OpView>, Fault> {
        if up_to > self.last_index() {
            Err(
                error::corrupt(
                    "cannot compact past the log end: up_to "@ + text::decimal(up_to as nat)
                        + " > last_index "@ + text::decimal(self.last_index() as nat),
                ),
            )
        } else if meta.last_index != up_to {
            Err(
                error::corrupt(
                    "compact snapshot meta.last_index "@ + text::decimal(meta.last_index as nat)
                        + " must equal up_to "@ + text::decimal(up_to as nat),
                ),
            )
        } else {
            Ok(seq![OpView::Compact { up_to, meta }])
        }
    }
}

// ---- laws ----

proof fn filter_prefix(s: Seq<EntryView>, base: LogIndex, index: LogIndex)
    requires
        forall|i: int| 0 <= i < s.len() ==> (#[trigger] s[i]).index == base + 1 + i,
    ensures
        s.filter(below(index)) == s.take(
            if index <= base {
                0
            } else if index - base - 1 < s.len() {
                index - base - 1
            } else {
                s.len() as int
            },
        ),
    decreases s.len(),
{
    reveal(Seq::filter);
    let cut = if index <= base {
        0
    } else if index - base - 1 < s.len() {
        index - base - 1
    } else {
        s.len() as int
    };
    if s.len() == 0 {
        assert(s.take(cut) =~= s.filter(below(index)));
    } else {
        let front = s.drop_last();
        assert forall|i: int| 0 <= i < front.len() implies (#[trigger] front[i]).index == base + 1
            + i by {
            assert(s[i] == front[i]);
        }
        filter_prefix(front, base, index);
        assert(s[s.len() - 1].index == base + s.len());
        if s.last().index < index {
            assert(front.take(front.len() as int) =~= front);
            assert(s.take(cut) =~= front.push(s.last()));
        } else {
            assert(s.take(cut) =~= front.take(cut));
        }
    }
}

proof fn filter_suffix(s: Seq<EntryView>, base: LogIndex, index: LogIndex)
    requires
        forall|i: int| 0 <= i < s.len() ==> (#[trigger] s[i]).index == base + 1 + i,
        base <= index,
    ensures
        s.filter(beyond(index)) == s.skip(
            if index - base < s.len() {
                index - base
            } else {
                s.len() as int
            },
        ),
    decreases s.len(),
{
    reveal(Seq::filter);
    let cut = if index - base < s.len() {
        index - base
    } else {
        s.len() as int
    };
    if s.len() == 0 {
        assert(s.skip(cut) =~= s.filter(beyond(index)));
    } else {
        let front = s.drop_last();
        assert forall|i: int| 0 <= i < front.len() implies (#[trigger] front[i]).index == base + 1
            + i by {
            assert(s[i] == front[i]);
        }
        filter_suffix(front, base, index);
        assert(s[s.len() - 1].index == base + s.len());
        if s.last().index > index {
            assert(s.skip(cut) =~= front.skip(cut).push(s.last()));
        } else {
            assert(s.skip(cut) =~= Seq::empty());
            assert(front.skip(front.len() as int) =~= Seq::empty());
        }
    }
}

/// What a contiguous log answers: an entry is found under its own index and
/// under no other, the entries from an index on are all those that are not
/// before it, in order, and the last is the last of them, or the snapshot's
/// end where there is none.
pub proof fn a_log_finds_its_entries(log: LogView, i: LogIndex)
    requires
        log.contiguous(),
    ensures
        log.entry(i) matches Some(e) ==> log.entries.contains(e) && e.index == i,
        log.entry(i) is None ==> forall|k: int|
            0 <= k < log.entries.len() ==> (#[trigger] log.entries[k]).index != i,
        ({
            let from = log.entries_from(i);
            let before = log.entries.len() - from.len();
            &&& 0 <= before
            &&& log.entries.skip(before) == from
            &&& forall|k: int| 0 <= k < from.len() ==> (#[trigger] from[k]).index >= i
            &&& forall|k: int| 0 <= k < before ==> (#[trigger] log.entries[k]).index < i
        }),
        log.last_index() == log.snapshot.last_index + log.entries.len(),
        log.last_term() == match log.entry(log.last_index()) {
            Some(e) => e.term,
            None => log.snapshot.last_term,
        },
{
    let n = log.entries.len();
    if n > 0 {
        assert(log.entries[n - 1].index == log.snapshot.last_index + n);
    }
    let from = log.entries_from(i);
    let before = n - from.len();
    assert(log.entries.skip(before) =~= from);
    assert forall|k: int| 0 <= k < from.len() implies (#[trigger] from[k]).index >= i by {
        assert(from[k] == log.entries[before + k]);
    }
}

/// Entries can be appended exactly if they go on where the log ends, without
/// a gap.
pub proof fn what_can_be_appended(log: LogView, more: Seq<EntryView>)
    ensures
        log.append(more) is Ok <==> forall|k: int|
            0 <= k < more.len() ==> (#[trigger] more[k]).index == log.last_index() + 1 + k,
{
    if log.append(more) is Ok {
        no_gap(log, more, 0);
    } else {
        a_gap(log, more, 0);
    }
}

proof fn a_gap(log: LogView, more: Seq<EntryView>, k: int)
    requires
        0 <= k,
        log.gap(more, k) is Some,
    ensures
        ({
            let at = log.gap(more, k)->0;
            0 <= at < more.len() && more[at].index != log.last_index() + 1 + at
        }),
    decreases more.len() - k,
{
    if more[k].index == log.last_index() + 1 + k {
        a_gap(log, more, k + 1);
    }
}

/// A prefix can be compacted exactly if the log reaches to its end and the
/// snapshot ends there too.
pub proof fn what_can_be_compacted(log: LogView, up_to: LogIndex, meta: SnapshotMeta)
    requires
        log.contiguous(),
    ensures
        log.compact_prefix(up_to, meta) is Ok <==> up_to <= log.snapshot.last_index
            + log.entries.len() && meta.last_index == up_to,
{
    if log.entries.len() > 0 {
        assert(log.entries[log.entries.len() - 1].index == log.snapshot.last_index
            + log.entries.len());
    }
}

/// Truncating a contiguous log keeps the entries before `from` and nothing
/// else; the log stays contiguous and the entries kept stay where they are.
pub proof fn truncation_keeps_what_is_before(log: LogView, from: LogIndex)
    requires
        log.contiguous(),
        from > log.snapshot.last_index,
    ensures
        ({
            let after = log.apply_all(log.truncate_suffix(from));
            &&& after.contiguous()
            &&& after.snapshot == log.snapshot
            &&& after.last_index() == if from <= log.last_index() {
                (from - 1) as u64
            } else {
                log.last_index()
            }
            &&& forall|i: LogIndex|
                i < from ==> #[trigger] after.entry(i) == log.entry(i)
            &&& forall|i: LogIndex| i >= from ==> #[trigger] after.entry(i) is None
        }),
{
    reveal_with_fuel(LogView::apply_all, 2);
    let ops = log.truncate_suffix(from);
    if ops.len() > 0 {
        assert(ops.drop_last() =~= Seq::empty());
        filter_prefix(log.entries, log.snapshot.last_index, from);
    }
    if log.entries.len() > 0 {
        assert(log.entries[log.entries.len() - 1].index == log.snapshot.last_index
            + log.entries.len());
    }
    let after = log.apply_all(ops);
    if after.entries.len() > 0 {
        assert(after.entries.last() == log.entries[after.entries.len() - 1]);
    }
}

/// Compacting a contiguous log drops what the snapshot covers and nothing
/// else; the log ends where it ended.
pub proof fn compaction_keeps_what_is_behind(log: LogView, up_to: LogIndex, meta: SnapshotMeta)
    requires
        log.contiguous(),
        log.snapshot.last_index <= up_to,
        log.compact_prefix(up_to, meta) is Ok,
    ensures
        ({
            let after = log.apply_all(log.compact_prefix(up_to, meta)->Ok_0);
            &&& after.contiguous()
            &&& after.snapshot == meta
            &&& after.last_index() == log.last_index()
            &&& forall|i: LogIndex| i <= up_to ==> #[trigger] after.entry(i) is None
            &&& forall|i: LogIndex| i > up_to ==> #[trigger] after.entry(i) == log.entry(i)
        }),
{
    reveal_with_fuel(LogView::apply_all, 2);
    let ops = log.compact_prefix(up_to, meta)->Ok_0;
    assert(ops.drop_last() =~= Seq::empty());
    filter_suffix(log.entries, log.snapshot.last_index, up_to);
    if log.entries.len() > 0 {
        assert(log.entries[log.entries.len() - 1].index == log.snapshot.last_index
            + log.entries.len());
    }
    let after = log.apply_all(ops);
    assert forall|i: int| 0 <= i < after.entries.len() implies (#[trigger] after.entries[i]).index
        == meta.last_index + 1 + i by {
        assert(after.entries[i] == log.entries[i + up_to - log.snapshot.last_index]);
    }
}

/// Appending to a contiguous log puts the new entries behind the others, each
/// at its index, and keeps the log contiguous.
pub proof fn appending_keeps_the_log(log: LogView, more: Seq<EntryView>)
    requires
        log.contiguous(),
        log.last_index() + more.len() < u64::MAX,
        log.append(more) is Ok,
    ensures
        ({
            let after = log.apply_all(log.append(more)->Ok_0);
            &&& after.contiguous()
            &&& after.entries == log.entries + more
            &&& after.snapshot == log.snapshot
            &&& forall|i: LogIndex|
                i <= log.last_index() ==> #[trigger] after.entry(i) == log.entry(i)
            &&& forall|k: int|
                0 <= k < more.len() ==> after.entry((#[trigger] more[k]).index) == Some(more[k])
        }),
{
    appended(log, more);
    no_gap(log, more, 0);
    if log.entries.len() > 0 {
        assert(log.entries[log.entries.len() - 1].index == log.snapshot.last_index
            + log.entries.len());
    }
}

proof fn no_gap(log: LogView, more: Seq<EntryView>, k: int)
    requires
        0 <= k <= more.len(),
        log.gap(more, k) is None,
    ensures
        forall|i: int|
            k <= i < more.len() ==> (#[trigger] more[i]).index == log.last_index() + 1 + i,
    decreases more.len() - k,
{
    if k < more.len() {
        no_gap(log, more, k + 1);
    }
}

proof fn appended(log: LogView, more: Seq<EntryView>)
    ensures
        log.apply_all(more.map_values(|e: EntryView| OpView::Append(e))) == (LogView {
            entries: log.entries + more,
            ..log
        }),
    decreases more.len(),
{
    let ops = more.map_values(|e: EntryView| OpView::Append(e));
    if more.len() == 0 {
        assert(log.entries + more =~= log.entries);
    } else {
        appended(log, more.drop_last());
        assert(ops.drop_last() =~= more.drop_last().map_values(|e: EntryView| OpView::Append(e)));
        assert((log.entries + more.drop_last()).push(more.last()) =~= log.entries + more);
    }
}

/// A log opened from the records that were written is the log that wrote them.
pub proof fn a_log_reopens(ops: Seq<OpView>)
    requires
        forall|i: int| 0 <= i < ops.len() ==> oplog::fits(#[trigger] ops[i]),
    ensures
        LogView::empty().apply_all(oplog::ops_of(oplog::image_of(ops)))
            == LogView::empty().apply_all(ops),
{
    oplog::the_file_replays(ops, Seq::empty());
}

/// A log opened after a crash in the middle of a record is the log before that
/// record.
pub proof fn a_log_survives_a_torn_record(ops: Seq<OpView>, last: OpView, cut: int)
    requires
        forall|i: int| 0 <= i < ops.len() ==> oplog::fits(#[trigger] ops[i]),
        oplog::fits(last),
        0 <= cut < frame::framed(oplog::op_body(last)).len(),
    ensures
        LogView::empty().apply_all(
            oplog::ops_of(oplog::image_of(ops) + frame::framed(oplog::op_body(last)).take(cut)),
        ) == LogView::empty().apply_all(ops),
{
    oplog::a_torn_record_loses_no_other(ops, last, cut);
}

// ---- the log ----

impl View for RaftLog {
    type V = LogView;

    closed spec fn view(&self) -> LogView {
        LogView { entries: types::entries_view(self.entries@), snapshot: self.snapshot }
    }
}

fn gap_error(expected: u64, got: u64) -> (e: Error)
    ensures
        e@ == error::corrupt(
            "log append must be contiguous: expected index "@ + text::decimal(expected as nat)
                + ", got "@ + text::decimal(got as nat),
        ),
{
    let mut message = "log append must be contiguous: expected index ".to_owned();
    push_decimal(&mut message, expected);
    message.append(", got ");
    push_decimal(&mut message, got);
    Error::Corruption(message)
}

fn past_end_error(up_to: u64, last: u64) -> (e: Error)
    ensures
        e@ == error::corrupt(
            "cannot compact past the log end: up_to "@ + text::decimal(up_to as nat)
                + " > last_index "@ + text::decimal(last as nat),
        ),
{
    let mut message = "cannot compact past the log end: up_to ".to_owned();
    push_decimal(&mut message, up_to);
    message.append(" > last_index ");
    push_decimal(&mut message, last);
    Error::Corruption(message)
}

fn meta_error(index: u64, up_to: u64) -> (e: Error)
    ensures
        e@ == error::corrupt(
            "compact snapshot meta.last_index "@ + text::decimal(index as nat)
                + " must equal up_to "@ + text::decimal(up_to as nat),
        ),
{
    let mut message = "compact snapshot meta.last_index ".to_owned();
    push_decimal(&mut message, index);
    message.append(" must equal up_to ");
    push_decimal(&mut message, up_to);
    Error::Corruption(message)
}

impl RaftLog {
    /// How much of the file was sound when the log was opened.
    pub closed spec fn sound(self) -> u64 {
        self.sound_len
    }

    /// Opens the log from the bytes of its file. A torn or corrupt end is
    /// passed over, and has to be cut off, down to `sound_len`, before anything
    /// is written behind it.
    pub fn open(file: &[u8]) -> (r: Self)
        ensures
            r@ == LogView::empty().apply_all(oplog::ops_of(file@)),
            r.sound() == frame::sound_len(file@, oplog::op_len()),
            r.sound() <= file@.len(),
    {
        let (ops, sound_len) = read_all_with_len(file);
        let ghost all = oplog::ops_view(ops@);
        let mut log = RaftLog {
            entries: Vec::new(),
            snapshot: SnapshotMeta { last_index: 0, last_term: 0 },
            sound_len,
        };
        let mut i: usize = 0;
        proof {
            assert(log@ =~= LogView::empty());
            assert(all.take(0) =~= Seq::empty());
        }
        while i < ops.len()
            invariant
                i <= ops@.len(),
                all == oplog::ops_view(ops@),
                log@ == LogView::empty().apply_all(all.take(i as int)),
                log.sound() == sound_len,
            decreases ops@.len() - i,
        {
            log.apply(&ops[i]);
            proof {
                assert(all.take(i + 1).drop_last() =~= all.take(i as int));
                assert(all.take(i + 1).last() == ops@[i as int]@);
            }
            i = i + 1;
        }
        assert(all.take(i as int) =~= all);
        log
    }

    /// How many bytes of the file were sound when the log was opened.
    pub fn sound_len(&self) -> (r: u64)
        ensures
            r == self.sound(),
    {
        self.sound_len
    }

    /// The records that append `new_entries`, which must continue the log.
    pub fn append(&self, new_entries: &[LogEntry]) -> (r: Result<Vec<Op>>)
        requires
            self@.last_index() + new_entries@.len() < u64::MAX,
        ensures
            match r {
                Ok(ops) => self@.append(types::entries_view(new_entries@)) == Ok::<
                    Seq<OpView>,
                    Fault,
                >(oplog::ops_view(ops@)),
                Err(e) => self@.append(types::entries_view(new_entries@)) == Err::<
                    Seq<OpView>,
                    Fault,
                >(e@),
            },
    {
        let last: u64 = self.last_index();
        let ghost more = types::entries_view(new_entries@);
        let ghost ops = more.map_values(|e: EntryView| OpView::Append(e));
        let mut out: Vec<Op> = Vec::new();
        let mut i: usize = 0;
        assert(oplog::ops_view(out@) =~= ops.take(0));
        while i < new_entries.len()
            invariant
                i <= new_entries@.len(),
                more == types::entries_view(new_entries@),
                ops == more.map_values(|e: EntryView| OpView::Append(e)),
                last == self@.last_index(),
                last + new_entries@.len() < u64::MAX,
                self@.gap(more, 0) == self@.gap(more, i as int),
                oplog::ops_view(out@) == ops.take(i as int),
            decreases new_entries@.len() - i,
        {
            let expected: u64 = last + 1 + i as u64;
            if new_entries[i].index != expected {
                return Err(gap_error(expected, new_entries[i].index));
            }
            let op = Op::Append(new_entries[i].clone());
            assert(oplog::ops_view(out@.push(op)) =~= ops.take(i as int).push(op@));
            out.push(op);
            i = i + 1;
            assert(oplog::ops_view(out@) =~= ops.take(i as int));
        }
        assert(ops.take(i as int) =~= ops);
        Ok(out)
    }

    /// The records that drop everything from `from_index` on.
    pub fn truncate_suffix(&self, from_index: LogIndex) -> (r: Vec<Op>)
        requires
            from_index > self@.snapshot.last_index,
        ensures
            oplog::ops_view(r@) == self@.truncate_suffix(from_index),
    {
        let mut out: Vec<Op> = Vec::new();
        if from_index <= self.last_index() {
            out.push(Op::TruncateSuffix(from_index));
        }
        assert(oplog::ops_view(out@) =~= self@.truncate_suffix(from_index));
        out
    }

    /// The records that drop everything up to `up_to`, which the snapshot of
    /// `meta` covers.
    pub fn compact_prefix(&self, up_to: LogIndex, meta: SnapshotMeta) -> (r: Result<Vec<Op>>)
        ensures
            match r {
                Ok(ops) => self@.compact_prefix(up_to, meta) == Ok::<Seq<OpView>, Fault>(
                    oplog::ops_view(ops@),
                ),
                Err(e) => self@.compact_prefix(up_to, meta) == Err::<Seq<OpView>, Fault>(e@),
            },
    {
        let last: u64 = self.last_index();
        if up_to > last {
            return Err(past_end_error(up_to, last));
        }
        if meta.last_index != up_to {
            return Err(meta_error(meta.last_index, up_to));
        }
        let mut out: Vec<Op> = Vec::new();
        out.push(Op::Compact { up_to, meta });
        assert(oplog::ops_view(out@) =~= self@.compact_prefix(up_to, meta)->Ok_0);
        Ok(out)
    }

    /// Keeps the entries whose index is above `above`, or those whose index is
    /// below `to`.
    fn retain(&mut self, above: Option<LogIndex>, to: Option<LogIndex>)
        requires
            above is Some || to is Some,
            above is None || to is None,
        ensures
            final(self)@.snapshot == old(self)@.snapshot,
            final(self).sound() == old(self).sound(),
            final(self)@.entries == match above {
                Some(index) => old(self)@.entries.filter(beyond(index)),
                None => old(self)@.entries.filter(below(to->0)),
            },
    {
        let ghost all = self@.entries;
        let ghost p = match above {
            Some(index) => beyond(index),
            None => below(to->0),
        };
        let mut out: Vec<LogEntry> = Vec::new();
        let mut i: usize = 0;
        proof {
            reveal(Seq::filter);
            assert(types::entries_view(out@) =~= all.take(0).filter(p));
        }
        while i < self.entries.len()
            invariant
                i <= self.entries@.len(),
                *self == *old(self),
                all == types::entries_view(self.entries@),
                above is Some || to is Some,
                above is None || to is None,
                p == match above {
                    Some(index) => beyond(index),
                    None => below(to->0),
                },
                types::entries_view(out@) == all.take(i as int).filter(p),
            decreases self.entries@.len() - i,
        {
            proof {
                reveal(Seq::filter);
                assert(all.take(i + 1).drop_last() =~= all.take(i as int));
                assert(all.take(i + 1).last() == self.entries@[i as int]@);
            }
            let index: u64 = self.entries[i].index;
            let keep: bool = match (above, to) {
                (Some(from), _) => index > from,
                (None, Some(end)) => index < end,
                (None, None) => true,
            };
            if keep {
                let entry = self.entries[i].clone();
                proof {
                    types::entries_view_push(out@, entry);
                }
                out.push(entry);
            }
            i = i + 1;
        }
        assert(all.take(i as int) =~= all);
        self.entries = out;
    }

    /// Takes a record that has been written into effect.
    pub fn apply(&mut self, op: &Op)
        ensures
            final(self)@ == old(self)@.apply(op@),
            final(self).sound() == old(self).sound(),
    {
        match op {
            Op::Append(entry) => {
                let copy = entry.clone();
                proof {
                    types::entries_view_push(self.entries@, copy);
                }
                self.entries.push(copy);
            },
            Op::TruncateSuffix(from) => {
                self.retain(None, Some(*from));
            },
            Op::Compact { up_to, meta } => {
                self.retain(Some(*up_to), None);
                self.snapshot = *meta;
            },
        }
        assert(self@ =~= old(self)@.apply(op@));
    }

    pub fn entry(&self, index: LogIndex) -> (r: Option<&LogEntry>)
        ensures
            match r {
                Some(e) => self@.entry(index) == Some(e@),
                None => self@.entry(index) is None,
            },
    {
        if index <= self.snapshot.last_index {
            return None;
        }
        let at: u64 = index - self.snapshot.last_index - 1;
        if at < self.entries.len() as u64 {
            Some(&self.entries[at as usize])
        } else {
            None
        }
    }

    /// The entries from `index` on.
    pub fn entries_from(&self, index: LogIndex) -> (r: Vec<LogEntry>)
        ensures
            types::entries_view(r@) == self@.entries_from(index),
    {
        let base: u64 = self.snapshot.last_index;
        let len: u64 = self.entries.len() as u64;
        let from: u64 = if index > base { index - base - 1 } else { 0 };
        let last: u64 = self.last_index();
        let reach: u64 = if last > base { last - base } else { 0 };
        let to: u64 = if reach < len { reach } else { len };
        let ghost all = self@.entries;
        let mut out: Vec<LogEntry> = Vec::new();
        if from >= to {
            assert(types::entries_view(out@) =~= self@.entries_from(index));
            return out;
        }
        let mut at: usize = from as usize;
        assert(types::entries_view(out@) =~= all.subrange(from as int, from as int));
        while at < to as usize
            invariant
                from <= at <= to <= self.entries@.len(),
                all == types::entries_view(self.entries@),
                types::entries_view(out@) == all.subrange(from as int, at as int),
            decreases to - at,
        {
            let entry = self.entries[at].clone();
            proof {
                types::entries_view_push(out@, entry);
                assert(all.subrange(from as int, at + 1) =~= all.subrange(
                    from as int,
                    at as int,
                ).push(entry@));
            }
            out.push(entry);
            at = at + 1;
        }
        out
    }

    pub fn last_index(&self) -> (r: LogIndex)
        ensures
            r == self@.last_index(),
    {
        let len: usize = self.entries.len();
        if len == 0 {
            self.snapshot.last_index
        } else {
            self.entries[len - 1].index
        }
    }

    pub fn last_term(&self) -> (r: Term)
        ensures
            r == self@.last_term(),
    {
        let len: usize = self.entries.len();
        if len == 0 {
            self.snapshot.last_term
        } else {
            self.entries[len - 1].term
        }
    }

    pub fn snapshot_meta(&self) -> (r: SnapshotMeta)
        ensures
            r == self@.snapshot,
    {
        self.snapshot
    }
}

} // verus!
