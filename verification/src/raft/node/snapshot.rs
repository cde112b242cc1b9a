//! Compacting the log into snapshots, and bringing peers up to one.

use vstd::prelude::*;
use vstd::string::*;

use crate::error::{self, corruption, Error, Result};
use crate::raft::ids::{lookup, sorted_ids};
use crate::raft::node::membership::{decode_voters, encode_voters};
use crate::raft::node::state::{self, NodeState, Role};
use crate::raft::node::RaftCore;
use crate::raft::rpc::{InstallSnapshotReq, InstallSnapshotResp, Message};
use crate::raft::storage::{self, RaftStorage};
use crate::raft::types::{LogIndex, NodeId, SnapshotMeta};
use crate::text::{self, push_decimal};

verus! {

broadcast use {vstd::std_specs::btree::group_btree_axioms, vstd::laws_cmp::group_laws_cmp};

impl<S: RaftStorage> RaftCore<S> {
    /// Sends `peer` the whole snapshot in one message, with the membership
    /// that it recorded. Without a snapshot there is nothing to send. Such a
    /// message is not counted among the AppendEntries sent.
    pub(crate) fn send_install_snapshot(&mut self, peer: NodeId) -> (r: Result<()>)
        requires
            old(self)@.wf(),
        ensures
            final(self)@.wf(),
            state::settled(
                r,
                final(self)@,
                old(self)@.send_install_snapshot(peer),
                S::reliable(),
                old(self)@.store.base.last_index != 0 && final(self)@ == old(self)@,
            ),
            r is Err ==> final(self)@ == old(self)@,
    {
        if self.storage.snapshot_meta().last_index == 0 {
            return Ok(());
        }
        let (meta, data, config) = match self.storage.read_snapshot() {
            Err(e) => return Err(e),
            Ok(None) => return Err(corruption("snapshot metadata present but bytes missing")),
            Ok(Some(saved)) => saved,
        };
        let req = InstallSnapshotReq {
            term: self.current_term(),
            leader_id: self.config.id,
            last_index: meta.last_index,
            last_term: meta.last_term,
            data,
            config,
        };
        self.push_message(peer, Message::InstallSnapshot(req));
        Ok(())
    }

    /// Saves `data` as the state up to `index` and drops the log up to it.
    /// `index` lies beyond the current snapshot and no further than what has
    /// been applied: what is not applied is in no state that a snapshot could
    /// capture. The live membership is part of the snapshot.
    pub fn compact(&mut self, index: LogIndex, data: Vec<u8>) -> (r: Result<()>)
        requires
            old(self)@.wf(),
        ensures
            final(self)@.wf(),
            state::settled(
                r,
                final(self)@,
                old(self)@.compact(index, data@),
                S::reliable(),
                old(self)@.compact_stops(index, final(self)@),
            ),
    {
        let ghost before = self@;
        let base: u64 = self.storage.snapshot_meta().last_index;
        if index <= base || index > self.last_applied {
            return Err(range_error(index, base, self.last_applied));
        }
        let last_term: u64 = match self.storage.term(index) {
            Ok(Some(t)) => t,
            Ok(None) => return Err(no_term_error(index)),
            Err(e) => return Err(e),
        };
        let meta = SnapshotMeta { last_index: index, last_term };
        let config = encode_voters(&self.voters);
        match self.storage.save_snapshot(meta, data.as_slice(), config.as_slice()) {
            Ok(_) => {},
            Err(e) => {
                assert(before.but_for_store(self@));
                return Err(e);
            },
        }
        assert(self@ =~= before.compact(index, data@).node);
        Ok(())
    }

    fn push_install_reply(&mut self, to: NodeId)
        requires
            old(self)@.wf(),
        ensures
            final(self)@.wf(),
            final(self)@ == old(self)@.install_reply(to),
    {
        let resp = InstallSnapshotResp { term: self.current_term() };
        self.push_message(to, Message::InstallSnapshotResp(resp));
    }

    /// Takes a leader's snapshot. One that reaches no further than what is
    /// snapshotted or committed here is acknowledged and left alone: it would
    /// take the node back. A retained membership change behind the snapshot
    /// outranks the membership that came with it.
    pub(crate) fn handle_install_snapshot(&mut self, from: NodeId, req: InstallSnapshotReq) -> (r:
        Result<()>)
        requires
            old(self)@.wf(),
            req.last_index < u64::MAX,
        ensures
            final(self)@.wf(),
            state::settled(
                r,
                final(self)@,
                old(self)@.handle_install_snapshot(from, req@),
                S::reliable(),
                old(self)@.install_snapshot_stops(req@, final(self)@),
            ),
            req.term < old(self)@.term() ==> r is Ok,
            r is Err ==> final(self)@.outbox == old(self)@.outbox,
    {
        if req.term < self.current_term() {
            self.push_install_reply(from);
            return Ok(());
        }
        match self.become_follower(req.term, Some(req.leader_id)) {
            Ok(_) => {},
            Err(e) => return Err(e),
        }
        if req.last_index <= self.storage.snapshot_meta().last_index || req.last_index
            <= self.commit_index {
            self.push_install_reply(from);
            return Ok(());
        }
        let ghost before = self@;
        let meta = SnapshotMeta { last_index: req.last_index, last_term: req.last_term };
        match self.storage.save_snapshot(meta, req.data.as_slice(), req.config.as_slice()) {
            Ok(_) => {},
            Err(e) => {
                assert(before.but_for_store(self@));
                return Err(e);
            },
        }
        self.commit_index = req.last_index;
        self.last_applied = req.last_index;
        let ghost saved = self@;
        assert(saved =~= NodeState {
            store: before.store.save(meta, req.data@, req.config@),
            commit_index: req.last_index,
            last_applied: req.last_index,
            ..before
        });
        let voters = match decode_voters(req.config.as_slice()) {
            Ok(voters) => voters,
            Err(e) => return Err(e),
        };
        let listed = sorted_ids(&voters);
        self.voters = voters;
        assert(self@ =~= NodeState { voters: voters@, ..saved });
        match self.recompute_voters() {
            Ok(_) => {},
            Err(e) => return Err(e),
        }
        let ghost voting = self@;
        self.restore_buf = Some((meta, req.data));
        assert(self@ =~= NodeState { restore_buf: Some((meta, req.data@)), ..voting });
        self.push_install_reply(from);
        Ok(())
    }

    /// Takes a follower's answer to a snapshot: its progress is at the
    /// snapshot, and the log follows from there.
    pub(crate) fn handle_install_snapshot_resp(
        &mut self,
        from: NodeId,
        resp: InstallSnapshotResp,
    ) -> (r: Result<()>)
        requires
            old(self)@.wf(),
            old(self)@.sent(from) < u64::MAX,
        ensures
            final(self)@.wf(),
            state::settled(
                r,
                final(self)@,
                old(self)@.handle_install_snapshot_resp(from, resp),
                S::reliable(),
                old(self)@.install_resp_stops(from, resp, final(self)@),
            ),
    {
        if resp.term > self.current_term() {
            return self.become_follower(resp.term, None);
        }
        if self.role != Role::Leader {
            return Ok(());
        }
        let ghost before = self@;
        let base: u64 = self.storage.snapshot_meta().last_index;
        let known: u64 = lookup(&self.match_index, from, 0);
        let matched: u64 = if known > base { known } else { base };
        self.match_index.insert(from, matched);
        self.next_index.insert(from, base + 1);
        assert(self@ =~= NodeState {
            match_index: before.match_index.insert(from, matched),
            next_index: before.next_index.insert(from, (base + 1) as u64),
            ..before
        });
        self.send_append_to(from)
    }
}

fn range_error(index: u64, base: u64, applied: u64) -> (e: Error)
    ensures
        e@ == error::corrupt(
            "compact index "@ + text::decimal(index as nat)
                + " out of range: current snapshot base "@ + text::decimal(base as nat)
                + ", last_applied "@ + text::decimal(applied as nat),
        ),
{
    let mut message = "compact index ".to_owned();
    push_decimal(&mut message, index);
    message.append(" out of range: current snapshot base ");
    push_decimal(&mut message, base);
    message.append(", last_applied ");
    push_decimal(&mut message, applied);
    Error::Corruption(message)
}

fn no_term_error(index: u64) -> (e: Error)
    ensures
        e@ == error::corrupt("compact index "@ + text::decimal(index as nat) + " has no term"@),
{
    let mut message = "compact index ".to_owned();
    push_decimal(&mut message, index);
    message.append(" has no term");
    Error::Corruption(message)
}

} // verus!
