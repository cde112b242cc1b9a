//! Who votes, and changing that one node at a time.

use std::collections::BTreeSet;

use vstd::prelude::*;
use vstd::string::*;

use crate::bytes::{self, push_u32, push_u64, read_u32, read_u64};
use crate::error::{self, corruption, Error, Result};
use crate::raft::ids::{self, lookup, sorted_ids};
use crate::raft::node::state::{self, ConfChange, Role};
use crate::raft::node::RaftCore;
use crate::raft::storage::{self, RaftStorage};
use crate::raft::types::{self, EntryType, LogEntry, LogIndex, NodeId};
use crate::text::{self, push_decimal};

verus! {

broadcast use {vstd::std_specs::btree::group_btree_axioms, vstd::laws_cmp::group_laws_cmp};

/// A voter set as a four-byte count and the ids, eight bytes each, ascending,
/// all little-endian: the same set always gives the same bytes.
pub fn encode_voters(voters: &BTreeSet<NodeId>) -> (r: Vec<u8>)
    ensures
        r@ == state::voters_bytes(voters@),
{
    let ids = sorted_ids(voters);
    let mut out: Vec<u8> = Vec::new();
    push_u32(&mut out, voters.len() as u32);
    let ghost head = bytes::le32(voters@.len() as u32);
    assert(out@ =~= head);
    assert(ids@.take(0) =~= Seq::empty());
    let mut i: usize = 0;
    while i < ids.len()
        invariant
            i <= ids@.len(),
            out@ == head + state::id_bytes(ids@.take(i as int)),
        decreases ids@.len() - i,
    {
        push_u64(&mut out, ids[i]);
        assert(ids@.take(i + 1).drop_last() =~= ids@.take(i as int));
        i = i + 1;
        assert(out@ =~= head + state::id_bytes(ids@.take(i as int)));
    }
    assert(ids@.take(i as int) =~= ids@);
    out
}

fn mismatch_error(count: u64, expected: u64, got: u64) -> (e: Error)
    ensures
        e@ == error::corrupt(
            "voters encoding length mismatch: header claims "@ + text::decimal(count as nat)
                + " ids ("@ + text::decimal(expected as nat) + " bytes total), got "@
                + text::decimal(got as nat) + " bytes"@,
        ),
{
    let mut message = "voters encoding length mismatch: header claims ".to_owned();
    push_decimal(&mut message, count);
    message.append(" ids (");
    push_decimal(&mut message, expected);
    message.append(" bytes total), got ");
    push_decimal(&mut message, got);
    message.append(" bytes");
    Error::Corruption(message)
}

/// The voter set that `encode_voters` wrote. Bytes that it cannot have written
/// are corrupt: too few for the count, or not as many as the count says.
pub fn decode_voters(bytes: &[u8]) -> (r: Result<BTreeSet<NodeId>>)
    ensures
        match r {
            Ok(voters) => state::voters_of(bytes@) == Ok::<_, error::Fault>(voters@),
            Err(e) => state::voters_of(bytes@) == Err::<Set<NodeId>, _>(e@),
        },
{
    if bytes.len() < 4 {
        return Err(corruption("voters encoding shorter than the 4-byte length prefix"));
    }
    let count: u32 = read_u32(bytes, 0);
    let expected: u64 = 4 + 8 * count as u64;
    if bytes.len() as u64 != expected {
        return Err(mismatch_error(count as u64, expected, bytes.len() as u64));
    }
    let ghost list = state::id_list(bytes@, count as nat);
    let mut out: BTreeSet<NodeId> = BTreeSet::new();
    assert(out@ =~= list.take(0).to_set());
    let mut i: usize = 0;
    while i < count as usize
        invariant
            i <= count,
            bytes@.len() == 4 + 8 * count,
            list == state::id_list(bytes@, count as nat),
            out@ == list.take(i as int).to_set(),
        decreases count - i,
    {
        let total: usize = bytes.len();
        let id: u64 = read_u64(bytes, 4 + 8 * i);
        out.insert(id);
        proof {
            assert(list[i as int] == id);
            assert(list.take(i + 1) =~= list.take(i as int).push(id));
            list.take(i as int).lemma_push_to_set_commute(id);
        }
        i = i + 1;
    }
    assert(list.take(i as int) =~= list);
    Ok(out)
}

/// The ids of `list` as a set.
pub(crate) fn collect_ids(list: &Vec<NodeId>) -> (r: BTreeSet<NodeId>)
    ensures
        r@ == list@.to_set(),
{
    let mut out: BTreeSet<NodeId> = BTreeSet::new();
    assert(out@ =~= list@.take(0).to_set());
    let mut i: usize = 0;
    while i < list.len()
        invariant
            i <= list@.len(),
            out@ == list@.take(i as int).to_set(),
        decreases list@.len() - i,
    {
        out.insert(list[i]);
        proof {
            assert(list@.take(i + 1) =~= list@.take(i as int).push(list@[i as int]));
            list@.take(i as int).lemma_push_to_set_commute(list@[i as int]);
        }
        i = i + 1;
    }
    assert(list@.take(i as int) =~= list@);
    out
}

/// The last membership change among `entries`.
fn find_config(entries: &Vec<LogEntry>) -> (r: Option<usize>)
    ensures
        match r {
            Some(i) => i < entries@.len() && state::latest_config(types::entries_view(entries@))
                == Some(entries@[i as int].command@),
            None => state::latest_config(types::entries_view(entries@)) is None,
        },
{
    let ghost all = types::entries_view(entries@);
    let mut i: usize = entries.len();
    assert(all.take(i as int) =~= all);
    while i > 0
        invariant
            i <= entries@.len(),
            all == types::entries_view(entries@),
            state::latest_config(all) == state::latest_config(all.take(i as int)),
        decreases i,
    {
        assert(all.take(i as int).drop_last() =~= all.take(i - 1));
        assert(all.take(i as int).last() == entries@[i - 1]@);
        i = i - 1;
        if entries[i].entry_type == EntryType::ConfigChange {
            return Some(i);
        }
    }
    None
}

/// Whether a membership change is among `entries`.
pub(crate) fn any_config(entries: &Vec<LogEntry>) -> (r: bool)
    ensures
        r == state::has_config(types::entries_view(entries@)),
{
    let ghost all = types::entries_view(entries@);
    let mut i: usize = 0;
    while i < entries.len()
        invariant
            i <= entries@.len(),
            all == types::entries_view(entries@),
            forall|j: int| 0 <= j < i ==> (#[trigger] all[j]).entry_type != EntryType::ConfigChange,
        decreases entries@.len() - i,
    {
        assert(all[i as int] == entries@[i as int]@);
        if entries[i].entry_type == EntryType::ConfigChange {
            return true;
        }
        i = i + 1;
    }
    false
}

impl<S: RaftStorage> RaftCore<S> {
    /// The live voters, ascending.
    pub fn voters(&self) -> (r: Vec<NodeId>)
        ensures
            r@ == ids::ascending(self@.voters),
            r@.to_set() == self@.voters,
    {
        sorted_ids(&self.voters)
    }

    /// Takes up the membership that the store calls for: the last membership
    /// change in the log, committed or not; without one, what the snapshot
    /// recorded; without a snapshot, the peers of the configuration. A snapshot
    /// without a readable membership is corrupt.
    pub(crate) fn recompute_voters(&mut self) -> (r: Result<()>)
        requires
            old(self)@.wf(),
        ensures
            final(self)@.wf(),
            state::settled(
                r,
                final(self)@,
                old(self)@.recompute_voters(),
                S::reliable(),
                old(self)@.recompute_stops(final(self)@),
            ),
            r is Err ==> final(self)@ == old(self)@,
    {
        let base: u64 = self.storage.snapshot_meta().last_index;
        let entries = self.storage.entries_from(base + 1);
        assert(types::entries_view(entries@) =~= self@.store.entries);
        let voters = match find_config(&entries) {
            Some(i) => match decode_voters(entries[i].command.as_slice()) {
                Ok(voters) => voters,
                Err(e) => return Err(e),
            },
            None => match self.storage.read_snapshot() {
                Err(e) => return Err(e),
                Ok(Some((_, _, config))) => {
                    if config.len() == 0 {
                        return Err(
                            corruption("snapshot present but its recorded config is empty"),
                        );
                    }
                    match decode_voters(config.as_slice()) {
                        Ok(voters) => voters,
                        Err(e) => return Err(e),
                    }
                },
                Ok(None) => collect_ids(&self.config.peers),
            },
        };
        let listed = sorted_ids(&voters);
        self.voters = voters;
        assert(self@ =~= old(self)@.recompute_voters().node);
        Ok(())
    }

    /// Proposes a membership change. A node that does not lead returns `None`,
    /// and so does one that has a change on its way already, uncommitted, or
    /// for which the change would change nothing.
    ///
    /// An accepted change is live at once: it is appended, taken up, and
    /// replicated to the new membership.
    pub fn propose_conf_change(&mut self, change: ConfChange) -> (r: Result<Option<LogIndex>>)
        requires
            old(self)@.wf(),
            old(self)@.has_room(),
        ensures
            final(self)@.wf(),
            state::settled(
                r,
                final(self)@,
                old(self)@.propose_conf_change(change),
                S::reliable(),
                old(self)@.conf_change_stops(change, final(self)@),
            ),
            !old(self)@.accepts_change(change) ==> r is Ok,
            r matches Ok(index) ==> index == if old(self)@.accepts_change(change) {
                Some((old(self)@.store.last_index() + 1) as u64)
            } else {
                None
            },
    {
        let ghost before = self@;
        if self.role != Role::Leader {
            return Ok(None);
        }
        let pending = self.storage.entries_from(self.commit_index + 1);
        if any_config(&pending) {
            return Ok(None);
        }
        let mut voters = self.voters.clone();
        let changes: bool = match change {
            ConfChange::AddVoter(id) => voters.insert(id),
            ConfChange::RemoveVoter(id) => voters.remove(&id),
        };
        proof {
            assert(voters@ =~= before.changed_voters(change));
            match change {
                ConfChange::AddVoter(id) => {
                    if before.voters.contains(id) {
                        assert(before.voters.insert(id) =~= before.voters);
                    } else {
                        assert(before.voters.insert(id).contains(id));
                    }
                },
                ConfChange::RemoveVoter(id) => {
                    if before.voters.contains(id) {
                        assert(!before.voters.remove(id).contains(id));
                    } else {
                        assert(before.voters.remove(id) =~= before.voters);
                    }
                },
            }
            assert(changes == (before.changed_voters(change) != before.voters));
        }
        if !changes {
            return Ok(None);
        }
        let index: u64 = self.storage.last_index() + 1;
        let entry = LogEntry::config_change(self.current_term(), index, encode_voters(&voters));
        match self.append_own(entry) {
            Ok(_) => {},
            Err(e) => return Err(e),
        }
        match self.recompute_voters() {
            Ok(_) => {},
            Err(e) => return Err(e),
        }
        let ghost voting = self@;
        match change {
            ConfChange::AddVoter(id) => {
                let next: u64 = self.storage.last_index() + 1;
                self.next_index.insert(id, next);
                self.match_index.insert(id, 0);
                let sent: u64 = lookup(&self.send_count, id, 0);
                self.send_count.insert(id, sent);
                let acks: u64 = lookup(&self.ack_count, id, 0);
                self.ack_count.insert(id, acks);
            },
            ConfChange::RemoveVoter(_) => {},
        }
        proof {
            assert(self@ =~= voting.seeded(change));
            assert forall|p: NodeId| self@.ack(p) + (#[trigger] state::queue_of(
                self@.inflight,
                p,
            )).len() <= self@.sent(p) by {
                assert(voting.ack(p) + state::queue_of(voting.inflight, p).len() <= voting.sent(p));
            }
            assert forall|p: NodeId| #[trigger] ids::value_or(self@.send_count, p, 0)
                < u64::MAX by {
                assert(ids::value_or(voting.send_count, p, 0) < u64::MAX);
            }
        }
        match self.broadcast_append() {
            Ok(_) => Ok(Some(index)),
            Err(e) => Err(e),
        }
    }
}

} // verus!
