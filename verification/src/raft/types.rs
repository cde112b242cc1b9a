//! Log entries and what a node keeps on disk beside them.

use vstd::prelude::*;

use crate::bytes::copy_bytes;

verus! {

pub type NodeId = u64;

pub type Term = u64;

pub type LogIndex = u64;

/// What a `LogEntry` represents: a command for the state machine, or a change
/// of the cluster's membership.
#[derive(Clone, Copy, Debug, PartialEq, Eq, Structural)]
pub enum EntryType {
    Normal,
    ConfigChange,
}

impl Default for EntryType {
    fn default() -> (r: Self)
        ensures
            r == EntryType::Normal,
    {
        EntryType::Normal
    }
}

impl EntryType {
    /// The one-byte tag of an entry type, on disk and on the wire.
    pub open spec fn tag(self) -> u8 {
        match self {
            EntryType::Normal => 0,
            EntryType::ConfigChange => 1,
        }
    }

    /// The entry type that a tag stands for.
    pub open spec fn of_tag(tag: u8) -> Option<EntryType> {
        if tag == 0 {
            Some(EntryType::Normal)
        } else if tag == 1 {
            Some(EntryType::ConfigChange)
        } else {
            None
        }
    }

    pub fn to_byte(self) -> (r: u8)
        ensures
            r == self.tag(),
            EntryType::of_tag(r) == Some(self),
    {
        match self {
            EntryType::Normal => 0,
            EntryType::ConfigChange => 1,
        }
    }

    pub fn from_byte(tag: u8) -> (r: Option<EntryType>)
        ensures
            r == EntryType::of_tag(tag),
            r matches Some(t) ==> t.tag() == tag,
    {
        match tag {
            0 => Some(EntryType::Normal),
            1 => Some(EntryType::ConfigChange),
            _ => None,
        }
    }
}

#[derive(Debug, PartialEq, Eq)]
pub struct LogEntry {
    pub term: Term,
    pub index: LogIndex,
    pub command: Vec<u8>,
    pub entry_type: EntryType,
}

/// A log entry, with its command as a sequence of bytes.
#[verifier::ext_equal]
pub struct EntryView {
    pub term: Term,
    pub index: LogIndex,
    pub command: Seq<u8>,
    pub entry_type: EntryType,
}

impl View for LogEntry {
    type V = EntryView;

    open spec fn view(&self) -> EntryView {
        EntryView {
            term: self.term,
            index: self.index,
            command: self.command@,
            entry_type: self.entry_type,
        }
    }
}

/// The entries of `s`, each with its command as a sequence of bytes.
pub open spec fn entries_view(s: Seq<LogEntry>) -> Seq<EntryView> {
    s.map_values(|e: LogEntry| e@)
}

pub proof fn entries_view_push(s: Seq<LogEntry>, e: LogEntry)
    ensures
        entries_view(s.push(e)) == entries_view(s).push(e@),
{
    assert(entries_view(s.push(e)) =~= entries_view(s).push(e@));
}

impl LogEntry {
    pub fn normal(term: Term, index: LogIndex, command: Vec<u8>) -> (r: Self)
        ensures
            r@ == (EntryView { term, index, command: command@, entry_type: EntryType::Normal }),
    {
        LogEntry { term, index, command, entry_type: EntryType::Normal }
    }

    pub fn config_change(term: Term, index: LogIndex, command: Vec<u8>) -> (r: Self)
        ensures
            r@ == (EntryView { term, index, command: command@, entry_type: EntryType::ConfigChange }),
    {
        LogEntry { term, index, command, entry_type: EntryType::ConfigChange }
    }
}

impl Clone for LogEntry {
    fn clone(&self) -> (r: Self)
        ensures
            r@ == self@,
    {
        LogEntry {
            term: self.term,
            index: self.index,
            command: copy_bytes(self.command.as_slice()),
            entry_type: self.entry_type,
        }
    }
}

/// The entries of `s` from position `from` on.
pub fn copy_entries(s: &[LogEntry], from: usize) -> (r: Vec<LogEntry>)
    requires
        from <= s@.len(),
    ensures
        entries_view(r@) == entries_view(s@).skip(from as int),
{
    let mut out: Vec<LogEntry> = Vec::new();
    let mut at: usize = from;
    while at < s.len()
        invariant
            from <= at <= s@.len(),
            entries_view(out@) == entries_view(s@).subrange(from as int, at as int),
        decreases s@.len() - at,
    {
        let entry = s[at].clone();
        proof {
            entries_view_push(out@, entry);
            assert(entries_view(s@).subrange(from as int, at + 1) =~= entries_view(s@).subrange(
                from as int,
                at as int,
            ).push(entry@));
        }
        out.push(entry);
        at = at + 1;
    }
    assert(entries_view(s@).subrange(from as int, at as int) =~= entries_view(s@).skip(
        from as int,
    ));
    out
}

/// The term a node is in and whom it voted for in it.
#[derive(Clone, Copy, Debug, PartialEq, Eq, Structural)]
pub struct HardState {
    pub current_term: Term,
    pub voted_for: Option<NodeId>,
}

impl Default for HardState {
    fn default() -> (r: Self)
        ensures
            r.current_term == 0,
            r.voted_for is None,
    {
        HardState { current_term: 0, voted_for: None }
    }
}

/// The last entry that a snapshot covers.
#[derive(Clone, Copy, Debug, PartialEq, Eq, Structural)]
pub struct SnapshotMeta {
    pub last_index: LogIndex,
    pub last_term: Term,
}

impl Default for SnapshotMeta {
    fn default() -> (r: Self)
        ensures
            r.last_index == 0,
            r.last_term == 0,
    {
        SnapshotMeta { last_index: 0, last_term: 0 }
    }
}

} // verus!
