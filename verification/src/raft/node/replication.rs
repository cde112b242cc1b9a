//! Sending the log, following a leader's log, and committing.

use std::collections::VecDeque;

use vstd::prelude::*;

use crate::error::Result;
use crate::raft::ids::{self, lookup, sorted_ids};
use crate::raft::node::membership::any_config;
use crate::raft::node::state::{self, NodeState, Outcome, Role};
use crate::raft::node::{self, RaftCore};
use crate::raft::rpc::{AppendEntriesReq, AppendEntriesResp, Message};
use crate::raft::storage::{self, RaftStorage};
use crate::raft::types::{self, HardState, LogEntry, LogIndex, NodeId, Term};

verus! {

broadcast use {vstd::std_specs::btree::group_btree_axioms, vstd::laws_cmp::group_laws_cmp};

impl<S: RaftStorage> RaftCore<S> {
    /// The term at `index`, zero where it is not known.
    fn term_at(&self, index: LogIndex) -> (r: Result<Term>)
        requires
            self@.wf(),
        ensures
            r matches Ok(t) ==> t == self@.store.term_or_zero(index),
            S::reliable() || index == 0 ==> r is Ok,
    {
        if index == 0 {
            return Ok(0);
        }
        match self.storage.term(index) {
            Ok(Some(t)) => Ok(t),
            Ok(None) => Ok(0),
            Err(e) => Err(e),
        }
    }

    /// Sends `peer` everything from its next index on, with the index and term
    /// just before for the consistency check; or the snapshot, where those
    /// entries have been compacted away.
    pub fn send_append_to(&mut self, peer: NodeId) -> (r: Result<()>)
        requires
            old(self)@.wf(),
            old(self)@.sent(peer) < u64::MAX,
        ensures
            final(self)@.wf(),
            state::settled(
                r,
                final(self)@,
                old(self)@.send_append(peer),
                S::reliable(),
                old(self)@.send_append_stops(peer, final(self)@),
            ),
            r is Err ==> final(self)@ == old(self)@,
    {
        let next: u64 = lookup(&self.next_index, peer, 1);
        if next <= self.storage.snapshot_meta().last_index {
            return self.send_install_snapshot(peer);
        }
        let prev: u64 = next - 1;
        let prev_term: u64 = match self.term_at(prev) {
            Ok(t) => t,
            Err(e) => return Err(e),
        };
        let entries = self.storage.entries_from(next);
        proof {
            let store = self@.store;
            assert(entries@.len() == types::entries_view(entries@).len());
            if store.holds(next) {
                assert(prev + entries@.len() == store.last_index());
            }
        }
        let up_to: u64 = prev + entries.len() as u64;
        let mut queue: VecDeque<LogIndex> = match self.inflight.remove(&peer) {
            Some(queue) => queue,
            None => VecDeque::new(),
        };
        assert(queue@ =~= old(self)@.queue(peer));
        queue.push_back(up_to);
        self.inflight.insert(peer, queue);
        let sent: u64 = lookup(&self.send_count, peer, 0);
        self.send_count.insert(peer, sent + 1);
        let req = AppendEntriesReq {
            term: self.current_term(),
            leader_id: self.config.id,
            prev_log_index: prev,
            prev_log_term: prev_term,
            entries,
            leader_commit: self.commit_index,
        };
        self.push_message(peer, Message::AppendEntries(req));
        proof {
            assert(self@.inflight =~= old(self)@.send_append(peer).node.inflight);
            assert(self@ =~= old(self)@.send_append(peer).node);
            let (was, now) = (old(self)@.inflight, self@.inflight);
            assert forall|p: NodeId| self@.ack(p) + (#[trigger] state::queue_of(now, p)).len()
                <= self@.sent(p) by {
                assert(old(self)@.ack(p) + state::queue_of(was, p).len() <= old(self)@.sent(p));
            }
            assert forall|p: NodeId, i: int| 0 <= i < state::queue_of(now, p).len() implies (
            #[trigger] state::queue_of(now, p)[i]) < u64::MAX by {
                if i < state::queue_of(was, p).len() {
                    assert(state::queue_of(was, p)[i] < u64::MAX);
                }
            }
        }
        Ok(())
    }

    /// Sends an AppendEntries, maybe empty, to every other voter.
    pub fn broadcast_append(&mut self) -> (r: Result<()>)
        requires
            old(self)@.wf(),
            state::countable(old(self)@.send_count),
        ensures
            final(self)@.wf(),
            state::settled(
                r,
                final(self)@,
                old(self)@.broadcast_append(),
                S::reliable(),
                old(self)@.broadcast_stops(final(self)@),
            ),
    {
        let peers = self.others();
        let ghost before = self@;
        let mut i: usize = 0;
        assert(peers@.take(0) =~= Seq::empty());
        while i < peers.len()
            invariant
                i <= peers@.len(),
                before == old(self)@,
                peers@ == before.others(),
                ids::strictly_ascending(peers@),
                self@.wf(),
                state::countable(before.send_count),
                before.send_append_each(peers@.take(i as int)) == Outcome::ok(self@),
                forall|p: NodeId|
                    !peers@.take(i as int).contains(p) ==> #[trigger] self@.sent(p)
                        == before.sent(p),
            decreases peers@.len() - i,
        {
            let peer: u64 = peers[i];
            let ghost was = self@;
            proof {
                assert(!peers@.take(i as int).contains(peer));
                assert(before.sent(peer) < u64::MAX);
                assert(peers@.take(i + 1).drop_last() =~= peers@.take(i as int));
                assert(peers@.take(i + 1).last() == peer);
            }
            match self.send_append_to(peer) {
                Ok(_) => {},
                Err(e) => {
                    proof {
                        if was.send_append(peer).fault == Some(e@) {
                            before.stops_at_fault(peers@, i + 1);
                        } else {
                            assert(before.broadcast_stops_at(i as int, self@));
                        }
                    }
                    return Err(e);
                },
            }
            proof {
                assert forall|p: NodeId| !peers@.take(i + 1).contains(p) implies #[trigger] self@.sent(
                    p,
                ) == before.sent(p) by {
                    assert(peers@.take(i + 1)[i as int] == peer);
                    if peers@.take(i as int).contains(p) {
                        let j = choose|j: int| 0 <= j < i && peers@.take(i as int)[j] == p;
                        assert(peers@.take(i + 1)[j] == p);
                    }
                    assert(was.sent(p) == before.sent(p));
                }
            }
            i = i + 1;
        }
        assert(peers@.take(i as int) =~= peers@);
        Ok(())
    }

    /// Steps down. The new term is stored before anything that refers to it is
    /// sent; in the same term nothing is stored.
    pub(crate) fn become_follower(&mut self, term: Term, leader: Option<NodeId>) -> (r: Result<()>)
        requires
            old(self)@.wf(),
        ensures
            final(self)@.wf(),
            state::settled(
                r,
                final(self)@,
                Outcome::ok(old(self)@.become_follower(term, leader)),
                S::reliable(),
                old(self)@.follower_stops(term, final(self)@),
            ),
            term <= old(self)@.term() ==> r is Ok,
    {
        if term > self.current_term() {
            let hs = HardState { current_term: term, voted_for: None };
            match self.storage.save_hard_state(&hs) {
                Ok(_) => {},
                Err(e) => {
                    assert(old(self)@.but_for_store(self@));
                    return Err(e);
                },
            }
        }
        self.role = Role::Follower;
        self.leader_id = leader;
        self.inflight.clear();
        self.reset_election_timer();
        assert(self@.inflight =~= Map::empty());
        assert(self@ =~= old(self)@.become_follower(term, leader));
        proof {
            assert forall|p: NodeId| self@.ack(p) + (#[trigger] state::queue_of(
                self@.inflight,
                p,
            )).len() <= self@.sent(p) by {
                assert(old(self)@.ack(p) + state::queue_of(old(self)@.inflight, p).len()
                    <= old(self)@.sent(p));
            }
        }
        Ok(())
    }

    /// Hands out what is committed and not applied yet. What the snapshot
    /// covers is passed over. An entry of the current term opens the term for
    /// reads.
    pub(crate) fn advance_apply(&mut self)
        requires
            old(self)@.wf(),
        ensures
            final(self)@.wf(),
            final(self)@ == old(self)@.advance_apply(),
    {
        if self.last_applied >= self.commit_index {
            return;
        }
        let base: u64 = self.storage.snapshot_meta().last_index;
        let current_term: u64 = self.current_term();
        let target: u64 = self.commit_index;
        let pending = self.storage.entries_from(self.last_applied + 1);
        let from: u64 = if self.last_applied > base { self.last_applied } else { base };
        let wanted: u64 = if target > from { target - from } else { 0 };
        let count: usize = if wanted < pending.len() as u64 {
            wanted as usize
        } else {
            pending.len()
        };
        let ghost before = self@;
        let ghost rest = types::entries_view(pending@);
        assert(before.unapplied() =~= rest.take(count as int));
        let mut readable: bool = false;
        let mut i: usize = 0;
        assert(self@.apply_buf =~= before.apply_buf + rest.take(0));
        while i < count
            invariant
                i <= count <= pending@.len(),
                before == old(self)@,
                before.wf(),
                rest == types::entries_view(pending@),
                current_term == before.term(),
                self@ == (NodeState {
                    apply_buf: before.apply_buf + rest.take(i as int),
                    ..before
                }),
                readable == state::has_term(rest.take(i as int), current_term),
            decreases count - i,
        {
            let entry = pending[i].clone();
            let ghost (a, b) = (rest.take(i as int), rest.take(i + 1));
            proof {
                assert(b =~= a.push(entry@));
                types::entries_view_push(self.apply_buf@, entry);
                assert(entry@ == rest[i as int]);
            }
            if entry.term == current_term {
                readable = true;
                assert(b[i as int].term == current_term);
            }
            proof {
                if state::has_term(a, current_term) {
                    let j = choose|j: int| 0 <= j < a.len() && (#[trigger] a[j]).term == current_term;
                    assert(b[j].term == current_term);
                }
                if state::has_term(b, current_term) && entry.term != current_term {
                    let j = choose|j: int| 0 <= j < b.len() && (#[trigger] b[j]).term == current_term;
                    assert(a[j].term == current_term);
                }
            }
            self.apply_buf.push(entry);
            i = i + 1;
            assert(self@.apply_buf =~= before.apply_buf + rest.take(i as int));
        }
        if readable {
            self.readable_term = Some(current_term);
        }
        self.last_applied = target;
        assert(self@ =~= before.advance_apply());
    }

    /// How many voters hold the log up to `index`.
    fn count_replicas(&self, index: LogIndex) -> (r: usize)
        ensures
            r == self@.replicas(index as nat),
    {
        let voters = sorted_ids(&self.voters);
        let ghost p = state::holding(self@.match_index, index as nat);
        let mut count: usize = 0;
        let mut i: usize = 0;
        proof {
            ids::tally_none(voters@, p);
        }
        while i < voters.len()
            invariant
                i <= voters@.len(),
                count <= i,
                ids::strictly_ascending(voters@),
                p == state::holding(self@.match_index, index as nat),
                count == ids::tally(voters@.take(i as int).to_set(), p),
            decreases voters@.len() - i,
        {
            proof {
                ids::tally_step(voters@, i as int, p);
            }
            if lookup(&self.match_index, voters[i], 0) >= index {
                count = count + 1;
            }
            i = i + 1;
        }
        assert(voters@.take(i as int) =~= voters@);
        count
    }

    /// The highest index that may be committed now: a majority holds it, and
    /// its entry is of the leader's own term. Counting replicas alone is not
    /// enough for an entry of an earlier term, which a later leader might still
    /// overwrite.
    fn find_commit(&self) -> (r: Result<LogIndex>)
        requires
            self@.wf(),
        ensures
            r matches Ok(n) ==> n == self@.commit_up_to(self@.store.last_index() as nat),
            r matches Ok(n) ==> self@.commit_index <= n,
            r matches Ok(n) ==> n <= self@.commit_index || n <= self@.store.last_index(),
            S::reliable() ==> r is Ok,
            r is Err && self@.role == Role::Leader ==> self@.commit_stops(self@),
    {
        let current_term: u64 = self.current_term();
        let quorum: usize = self.quorum();
        let last: u64 = self.storage.last_index();
        let mut n: u64 = last;
        while n > self.commit_index
            invariant
                self@.wf(),
                n <= last,
                last == self@.store.last_index(),
                current_term == self@.term(),
                quorum == self@.quorum(),
                self@.commit_up_to(last as nat) == self@.commit_up_to(n as nat),
            decreases n,
        {
            if self.count_replicas(n) >= quorum {
                match self.storage.term(n) {
                    Ok(t) => {
                        if t == Some(current_term) {
                            return Ok(n);
                        }
                    },
                    Err(e) => return Err(e),
                }
            }
            n = n - 1;
        }
        Ok(self.commit_index)
    }

    /// Commits what a majority holds and hands it out. A leader that has
    /// committed a membership without itself, with no further change on its
    /// way, steps down.
    pub(crate) fn maybe_advance_commit(&mut self) -> (r: Result<()>)
        requires
            old(self)@.wf(),
        ensures
            final(self)@.wf(),
            state::settled(
                r,
                final(self)@,
                Outcome::ok(old(self)@.advance_commit()),
                S::reliable(),
                old(self)@.commit_stops(final(self)@),
            ),
    {
        if self.role != Role::Leader {
            return Ok(());
        }
        let before: u64 = self.commit_index;
        let commit: u64 = match self.find_commit() {
            Ok(n) => n,
            Err(e) => return Err(e),
        };
        let current_term: u64 = self.current_term();
        self.commit_index = commit;
        assert(self@ =~= NodeState { commit_index: commit, ..old(self)@ });
        self.advance_apply();
        if commit > before && !self.voters.contains(&self.config.id) {
            let later = self.storage.entries_from(commit + 1);
            if !any_config(&later) {
                return self.become_follower(current_term, None);
            }
        }
        Ok(())
    }

    /// Appends `command` to the log and starts replicating it. A node that does
    /// not lead returns `None`: the caller takes the write elsewhere.
    pub fn propose(&mut self, command: Vec<u8>) -> (r: Result<Option<LogIndex>>)
        requires
            old(self)@.wf(),
            old(self)@.has_room(),
        ensures
            final(self)@.wf(),
            state::settled(
                r,
                final(self)@,
                old(self)@.propose(command@),
                S::reliable(),
                old(self)@.propose_stops(command@, final(self)@),
            ),
            old(self)@.role != Role::Leader ==> r is Ok,
            r matches Ok(index) ==> index == if old(self)@.role == Role::Leader {
                Some((old(self)@.store.last_index() + 1) as u64)
            } else {
                None
            },
    {
        if self.role != Role::Leader {
            return Ok(None);
        }
        let index: u64 = self.storage.last_index() + 1;
        let entry = LogEntry::normal(self.current_term(), index, command);
        match self.append_own(entry) {
            Ok(_) => {},
            Err(e) => return Err(e),
        }
        match self.broadcast_append() {
            Ok(_) => {},
            Err(e) => return Err(e),
        }
        match self.maybe_advance_commit() {
            Ok(_) => Ok(Some(index)),
            Err(e) => Err(e),
        }
    }

    /// Appends an entry of the node's own, which it then holds.
    pub(crate) fn append_own(&mut self, entry: LogEntry) -> (r: Result<()>)
        requires
            old(self)@.wf(),
            entry.index == old(self)@.store.last_index() + 1,
            entry.index < u64::MAX,
        ensures
            final(self)@.wf(),
            state::settled(
                r,
                final(self)@,
                Outcome::ok(old(self)@.with_own_entry(entry@)),
                S::reliable(),
                old(self)@.but_for_store(final(self)@),
            ),
    {
        let index: u64 = entry.index;
        let mut batch: Vec<LogEntry> = Vec::new();
        batch.push(entry);
        proof {
            assert(types::entries_view(batch@) =~= seq![entry@]);
            self@.store.no_gap(types::entries_view(batch@), 0);
        }
        match self.storage.append(batch.as_slice()) {
            Ok(_) => {},
            Err(e) => {
                assert(old(self)@.but_for_store(self@));
                return Err(e);
            },
        }
        let id: u64 = self.config.id;
        self.match_index.insert(id, index);
        self.next_index.insert(id, index + 1);
        assert(self@ =~= old(self)@.with_own_entry(entry@));
        Ok(())
    }

    /// The lowest index down to which the term stays `term`: by it a leader
    /// skips a whole mismatched term in one round trip.
    fn first_index_of_term(&self, term: Term, from_index: LogIndex) -> (r: Result<LogIndex>)
        requires
            self@.wf(),
        ensures
            r matches Ok(index) ==> index == state::first_of_term(
                self@.store,
                term,
                from_index as nat,
            ),
            S::reliable() || from_index == 0 ==> r is Ok,
    {
        let mut index: u64 = from_index;
        while index > 1
            invariant
                self@.wf(),
                index <= from_index,
                state::first_of_term(self@.store, term, from_index as nat)
                    == state::first_of_term(self@.store, term, index as nat),
            decreases index,
        {
            match self.term_at(index - 1) {
                Ok(t) => {
                    if t != term {
                        return Ok(index);
                    }
                },
                Err(e) => return Err(e),
            }
            index = index - 1;
        }
        Ok(index)
    }

    /// The first of `entries` that the log lacks or contradicts.
    fn find_new(&self, entries: &Vec<LogEntry>) -> (r: Result<Option<usize>>)
        requires
            self@.wf(),
        ensures
            r matches Ok(found) ==> match found {
                Some(k) => state::first_new(self@.store, types::entries_view(entries@), 0) == Some(
                    k as int,
                ) && k < entries@.len(),
                None => state::first_new(self@.store, types::entries_view(entries@), 0) is None,
            },
            S::reliable() || entries@.len() == 0 ==> r is Ok,
    {
        let ghost all = types::entries_view(entries@);
        let mut k: usize = 0;
        while k < entries.len()
            invariant
                k <= entries@.len(),
                self@.wf(),
                all == types::entries_view(entries@),
                state::first_new(self@.store, all, 0) == state::first_new(
                    self@.store,
                    all,
                    k as int,
                ),
            decreases entries@.len() - k,
        {
            assert(all[k as int] == entries@[k as int]@);
            match self.storage.term(entries[k].index) {
                Ok(Some(t)) => {
                    if t != entries[k].term {
                        return Ok(Some(k));
                    }
                },
                Ok(None) => return Ok(Some(k)),
                Err(e) => return Err(e),
            }
            k = k + 1;
        }
        Ok(None)
    }

    /// Brings what is new of `entries` into the log. What the log already holds
    /// is passed over, so that a repeated request changes nothing; a
    /// contradiction drops everything from there on first.
    fn adopt_entries(&mut self, entries: &Vec<LogEntry>) -> (r: Result<()>)
        requires
            old(self)@.wf(),
            old(self)@.store.last_index() + entries@.len() < u64::MAX,
        ensures
            final(self)@.wf(),
            state::settled(
                r,
                final(self)@,
                old(self)@.adopt_entries(types::entries_view(entries@)),
                S::reliable(),
                old(self)@.adopt_stops(types::entries_view(entries@), final(self)@),
            ),
            r is Err ==> old(self)@.but_for_store(final(self)@),
    {
        let ghost all = types::entries_view(entries@);
        let ghost before = self@;
        let k: usize = match self.find_new(entries) {
            Ok(Some(k)) => k,
            Ok(None) => return Ok(()),
            Err(e) => return Err(e),
        };
        let index: u64 = entries[k].index;
        assert(all[k as int].index == index);
        match self.storage.term(index) {
            Ok(Some(_)) => {
                proof {
                    before.store.kept_wf(index, before.store.base, Seq::empty(), Seq::empty());
                }
                match self.storage.truncate_suffix(index) {
                    Ok(_) => {},
                    Err(e) => {
                        assert(before.but_for_store(self@));
                        return Err(e);
                    },
                }
            },
            Ok(None) => {},
            Err(e) => return Err(e),
        }
        let more = keep_from(entries, index);
        let ghost kept = self@;
        proof {
            all.lemma_filter_len(state::reaching(index));
            assert(types::entries_view(more@).len() == more@.len());
            assert(kept =~= NodeState { store: kept.store, ..before });
        }
        match self.storage.append(more.as_slice()) {
            Ok(_) => {},
            Err(e) => {
                assert(S::reliable() ==> self@ =~= kept);
                assert(before.but_for_store(self@));
                return Err(e);
            },
        }
        assert(self@ =~= NodeState {
            store: kept.store.append(types::entries_view(more@)),
            ..before
        });
        self.recompute_voters()
    }

    fn push_append_reply(&mut self, to: NodeId, success: bool, conflict_index: Option<LogIndex>)
        requires
            old(self)@.wf(),
        ensures
            final(self)@.wf(),
            final(self)@ == old(self)@.append_reply(to, success, conflict_index),
    {
        let resp = AppendEntriesResp { term: self.current_term(), success, conflict_index };
        self.push_message(to, Message::AppendEntriesResp(resp));
    }

    /// Follows a leader: checks that the logs agree just before the new
    /// entries, takes what is new, and commits as far as the leader has and
    /// the log reaches.
    pub(crate) fn handle_append_entries(&mut self, from: NodeId, req: AppendEntriesReq) -> (r:
        Result<()>)
        requires
            old(self)@.wf(),
            old(self)@.store.last_index() + req.entries@.len() < u64::MAX,
        ensures
            final(self)@.wf(),
            state::settled(
                r,
                final(self)@,
                old(self)@.handle_append_entries(from, req@),
                S::reliable(),
                old(self)@.append_entries_stops(req@, final(self)@),
            ),
            req.term < old(self)@.term() ==> r is Ok,
            r is Err ==> final(self)@.outbox == old(self)@.outbox,
    {
        if req.term < self.current_term() {
            self.push_append_reply(from, false, None);
            return Ok(());
        }
        match self.become_follower(req.term, Some(req.leader_id)) {
            Ok(_) => {},
            Err(e) => return Err(e),
        }
        let last: u64 = self.storage.last_index();
        if req.prev_log_index > last {
            self.push_append_reply(from, false, Some(last + 1));
            return Ok(());
        }
        let prev_term: u64 = match self.term_at(req.prev_log_index) {
            Ok(t) => t,
            Err(e) => return Err(e),
        };
        if prev_term != req.prev_log_term {
            let conflict: u64 = match self.first_index_of_term(prev_term, req.prev_log_index) {
                Ok(index) => index,
                Err(e) => return Err(e),
            };
            self.push_append_reply(from, false, Some(conflict));
            return Ok(());
        }
        match self.adopt_entries(&req.entries) {
            Ok(_) => {},
            Err(e) => return Err(e),
        }
        let ghost adopted = self@;
        let own_last: u64 = self.storage.last_index();
        let known: u64 = if req.leader_commit < own_last { req.leader_commit } else { own_last };
        if known > self.commit_index {
            self.commit_index = known;
        }
        assert(self@ =~= NodeState {
            commit_index: if known > adopted.commit_index {
                known
            } else {
                adopted.commit_index
            },
            ..adopted
        });
        self.advance_apply();
        self.push_append_reply(from, true, None);
        Ok(())
    }

    /// Credits a success to the oldest request in flight. With none in flight
    /// it is a duplicate and counts for nothing.
    fn acknowledge(&mut self, peer: NodeId)
        requires
            old(self)@.wf(),
        ensures
            final(self)@.wf(),
            final(self)@ == old(self)@.acknowledged(peer),
    {
        let ghost before = self@;
        match self.inflight.remove(&peer) {
            None => {
                assert(self@ =~= before);
            },
            Some(mut queue) => {
                let popped = queue.pop_front();
                self.inflight.insert(peer, queue);
                match popped {
                    None => {
                        assert(self@.inflight =~= before.inflight);
                        assert(self@ =~= before);
                    },
                    Some(up_to) => {
                        proof {
                            assert(state::queue_of(before.inflight, peer)[0] == up_to);
                            assert(before.ack(peer) + state::queue_of(before.inflight, peer).len()
                                <= before.sent(peer));
                        }
                        let known: u64 = lookup(&self.match_index, peer, 0);
                        let matched: u64 = if known > up_to { known } else { up_to };
                        self.match_index.insert(peer, matched);
                        self.next_index.insert(peer, matched + 1);
                        let acks: u64 = lookup(&self.ack_count, peer, 0);
                        self.ack_count.insert(peer, acks + 1);
                        proof {
                            assert(self@.inflight =~= before.acknowledged(peer).inflight);
                            assert(self@ =~= before.acknowledged(peer));
                            let (was, now) = (before.inflight, self@.inflight);
                            assert forall|p: NodeId| self@.ack(p) + (#[trigger] state::queue_of(
                                now,
                                p,
                            )).len() <= self@.sent(p) by {
                                assert(before.ack(p) + state::queue_of(was, p).len()
                                    <= before.sent(p));
                            }
                            assert forall|p: NodeId, i: int|
                                0 <= i < state::queue_of(now, p).len() implies (
                            #[trigger] state::queue_of(now, p)[i]) < u64::MAX by {
                                if p == peer {
                                    assert(state::queue_of(was, p)[i + 1] < u64::MAX);
                                } else {
                                    assert(state::queue_of(was, p)[i] < u64::MAX);
                                }
                            }
                        }
                    },
                }
            },
        }
    }

    /// Drops what is in flight to `peer` and has the next message to it start
    /// at `next`.
    fn back_up(&mut self, peer: NodeId, next: LogIndex)
        requires
            old(self)@.wf(),
        ensures
            final(self)@.wf(),
            final(self)@ == old(self)@.backed_up(peer, next),
    {
        let ghost before = self@;
        if self.inflight.contains_key(&peer) {
            self.inflight.insert(peer, VecDeque::new());
        }
        self.next_index.insert(peer, next);
        proof {
            assert(self@.inflight =~= before.backed_up(peer, next).inflight);
            assert(self@ =~= before.backed_up(peer, next));
            let (was, now) = (before.inflight, self@.inflight);
            assert forall|p: NodeId| self@.ack(p) + (#[trigger] state::queue_of(now, p)).len()
                <= self@.sent(p) by {
                assert(before.ack(p) + state::queue_of(was, p).len() <= before.sent(p));
            }
            assert forall|p: NodeId, i: int| 0 <= i < state::queue_of(now, p).len() implies (
            #[trigger] state::queue_of(now, p)[i]) < u64::MAX by {
                assert(state::queue_of(was, p)[i] < u64::MAX);
            }
        }
    }

    /// Takes a follower's answer: progress on success, a retry from where the
    /// logs part on failure. An answer from an earlier term says nothing about
    /// this one.
    pub(crate) fn handle_append_resp(&mut self, from: NodeId, resp: AppendEntriesResp) -> (r:
        Result<()>)
        requires
            old(self)@.wf(),
            old(self)@.sent(from) < u64::MAX,
        ensures
            final(self)@.wf(),
            state::settled(
                r,
                final(self)@,
                old(self)@.handle_append_resp(from, resp),
                S::reliable(),
                old(self)@.append_resp_stops(from, resp, final(self)@),
            ),
    {
        let current_term: u64 = self.current_term();
        if resp.term > current_term {
            return self.become_follower(resp.term, None);
        }
        if self.role != Role::Leader || resp.term < current_term {
            return Ok(());
        }
        if resp.success {
            self.acknowledge(from);
            match self.maybe_advance_commit() {
                Ok(_) => {},
                Err(e) => return Err(e),
            }
            self.maybe_release_reads();
            Ok(())
        } else {
            let next: u64 = match resp.conflict_index {
                Some(index) => if index > 1 { index } else { 1 },
                None => 1,
            };
            self.back_up(from, next);
            self.send_append_to(from)
        }
    }
}

/// The entries at `index` and behind it.
fn keep_from(entries: &Vec<LogEntry>, index: LogIndex) -> (r: Vec<LogEntry>)
    ensures
        types::entries_view(r@) == state::at_or_after(types::entries_view(entries@), index),
{
    let ghost all = types::entries_view(entries@);
    let mut out: Vec<LogEntry> = Vec::new();
    let mut i: usize = 0;
    proof {
        reveal(Seq::filter);
        assert(types::entries_view(out@) =~= state::at_or_after(all.take(0), index));
    }
    while i < entries.len()
        invariant
            i <= entries@.len(),
            all == types::entries_view(entries@),
            types::entries_view(out@) == state::at_or_after(all.take(i as int), index),
        decreases entries@.len() - i,
    {
        proof {
            reveal(Seq::filter);
            assert(all.take(i + 1).drop_last() =~= all.take(i as int));
            assert(all.take(i + 1).last() == entries@[i as int]@);
        }
        if entries[i].index >= index {
            let entry = entries[i].clone();
            proof {
                types::entries_view_push(out@, entry);
            }
            out.push(entry);
        }
        i = i + 1;
    }
    assert(all.take(i as int) =~= all);
    out
}

} // verus!
