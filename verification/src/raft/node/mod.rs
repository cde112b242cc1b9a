//! The consensus state machine.

use std::collections::{BTreeMap, BTreeSet, VecDeque};

use vstd::prelude::*;

use crate::error::Result;
use crate::raft::ids::{self, lookup, sorted_ids};
use crate::raft::rpc::{Message, MessageView};
use crate::raft::storage::RaftStorage;
use crate::raft::types::{self, HardState, LogEntry, LogIndex, NodeId, SnapshotMeta, Term};

pub mod election;
pub mod election_laws;
pub mod laws;
pub mod leading_laws;
pub mod membership;
pub mod quorum_laws;
pub mod read_index;
pub mod replication;
pub mod replication_laws;
pub mod service_laws;
pub mod snapshot;
pub mod state;
pub mod stop_laws;
pub mod stops;
pub mod vote_laws;

pub use state::{ConfChange, ReadToken, Role};

use state::{ConfigView, NodeState, Outcome, ReadView};

verus! {

broadcast use {vstd::std_specs::btree::group_btree_axioms, vstd::laws_cmp::group_laws_cmp};

/// What a node hands to its driver: messages to send, entries to apply, reads
/// to answer, and a snapshot to restore before anything is applied.
#[derive(Debug)]
pub struct Ready {
    pub messages: Vec<(NodeId, Message)>,
    pub apply: Vec<LogEntry>,
    pub reads: Vec<ReadToken>,
    pub restore: Option<(SnapshotMeta, Vec<u8>)>,
}

impl Default for Ready {
    fn default() -> (r: Self)
        ensures
            r.messages@.len() == 0,
            r.apply@.len() == 0,
            r.reads@.len() == 0,
            r.restore is None,
    {
        Ready { messages: Vec::new(), apply: Vec::new(), reads: Vec::new(), restore: None }
    }
}

#[derive(Debug)]
pub struct Config {
    pub id: NodeId,
    pub peers: Vec<NodeId>,
    pub election_timeout: u64,
    pub heartbeat_interval: u64,
    pub seed: u64,
}

impl View for Config {
    type V = ConfigView;

    open spec fn view(&self) -> ConfigView {
        ConfigView {
            id: self.id,
            peers: self.peers@,
            election_timeout: self.election_timeout,
            heartbeat_interval: self.heartbeat_interval,
            seed: self.seed,
        }
    }
}

impl Clone for Config {
    fn clone(&self) -> (r: Self)
        ensures
            r@ == self@,
    {
        let mut peers: Vec<NodeId> = Vec::new();
        let mut i: usize = 0;
        while i < self.peers.len()
            invariant
                i <= self.peers@.len(),
                peers@ == self.peers@.take(i as int),
            decreases self.peers@.len() - i,
        {
            peers.push(self.peers[i]);
            i = i + 1;
            assert(peers@ =~= self.peers@.take(i as int));
        }
        assert(peers@ =~= self.peers@);
        Config {
            id: self.id,
            peers,
            election_timeout: self.election_timeout,
            heartbeat_interval: self.heartbeat_interval,
            seed: self.seed,
        }
    }
}

/// A deterministic generator, used to spread election timeouts so that peers
/// do not all wake up on the same tick. Not for cryptography.
#[derive(Debug)]
pub struct SplitMix64(pub u64);

impl SplitMix64 {
    pub fn next_u64(&mut self) -> (r: u64)
        ensures
            final(self).0 == state::rng_next(old(self).0),
            r == state::rng_value(final(self).0),
    {
        self.0 = self.0.wrapping_add(0x9E37_79B9_7F4A_7C15);
        let z: u64 = self.0;
        let a: u64 = (z ^ (z >> 30)).wrapping_mul(0xBF58_476D_1CE4_E5B9);
        let b: u64 = (a ^ (a >> 27)).wrapping_mul(0x94D0_49BB_1331_11EB);
        b ^ (b >> 31)
    }

    /// A timeout of at least `base` ticks and fewer than twice as many.
    pub fn election_timeout(&mut self, base: u64) -> (r: u64)
        requires
            base <= 0x8000_0000_0000_0000,
        ensures
            final(self).0 == state::rng_next(old(self).0),
            r == state::jittered(base, state::rng_value(final(self).0)),
            base <= r,
            base > 0 ==> r < 2 * base,
    {
        let bound: u64 = if base > 1 { base } else { 1 };
        base + self.next_u64() % bound
    }
}

/// A read registered by `read_index`, waiting for its release.
#[derive(Debug)]
pub struct PendingRead {
    pub token: ReadToken,
    /// The commit index when the read was registered.
    pub floor: LogIndex,
    /// The per-peer send counts when the read was registered. A peer whose
    /// acknowledgements exceed its entry here has answered a request that was
    /// sent after the read began.
    pub barrier: BTreeMap<NodeId, u64>,
}

impl View for PendingRead {
    type V = ReadView;

    open spec fn view(&self) -> ReadView {
        ReadView { token: self.token, floor: self.floor, barrier: self.barrier@ }
    }
}

/// A consensus node as a pure step function. It reads and writes its store and
/// buffers what it wants sent, applied or answered; the caller does the rest.
pub struct RaftCore<S: RaftStorage> {
    pub config: Config,
    pub storage: S,
    pub role: Role,
    pub leader_id: Option<NodeId>,
    /// The live voters: every quorum and every broadcast goes by them.
    pub voters: BTreeSet<NodeId>,
    pub commit_index: LogIndex,
    pub last_applied: LogIndex,
    /// Ticks since the last leader contact or election.
    pub elapsed: u64,
    /// The tick count at which a follower or candidate calls an election.
    pub election_deadline: u64,
    pub heartbeat_elapsed: u64,
    pub votes: BTreeSet<NodeId>,
    pub next_index: BTreeMap<NodeId, LogIndex>,
    pub match_index: BTreeMap<NodeId, LogIndex>,
    /// Per peer, how far each unanswered AppendEntries reaches, oldest first.
    /// The extents never decrease, so that a success, which is credited to the
    /// oldest, is credited with the smallest that it can stand for.
    pub inflight: BTreeMap<NodeId, VecDeque<LogIndex>>,
    /// Per peer, how many AppendEntries this leadership has sent.
    pub send_count: BTreeMap<NodeId, u64>,
    /// Per peer, how many of them were answered by a success.
    pub ack_count: BTreeMap<NodeId, u64>,
    pub pending_reads: Vec<PendingRead>,
    /// The term of which an entry has been applied, which opens it for reads.
    pub readable_term: Option<Term>,
    pub rng: SplitMix64,
    pub outbox: Vec<(NodeId, Message)>,
    pub apply_buf: Vec<LogEntry>,
    pub reads_buf: Vec<ReadToken>,
    /// A snapshot that the driver must restore before further applies.
    pub restore_buf: Option<(SnapshotMeta, Vec<u8>)>,
}

pub open spec fn messages_view(s: Seq<(NodeId, Message)>) -> Seq<(NodeId, MessageView)> {
    s.map_values(|m: (NodeId, Message)| (m.0, m.1@))
}

pub open spec fn queues_view(m: Map<NodeId, VecDeque<LogIndex>>) -> Map<NodeId, Seq<LogIndex>> {
    m.map_values(|q: VecDeque<LogIndex>| q@)
}

pub open spec fn reads_view(s: Seq<PendingRead>) -> Seq<ReadView> {
    s.map_values(|r: PendingRead| r@)
}

pub open spec fn restore_view(r: Option<(SnapshotMeta, Vec<u8>)>) -> Option<
    (SnapshotMeta, Seq<u8>),
> {
    match r {
        Some((meta, data)) => Some((meta, data@)),
        None => None,
    }
}

impl<S: RaftStorage> View for RaftCore<S> {
    type V = NodeState;

    open spec fn view(&self) -> NodeState {
        NodeState {
            config: self.config@,
            store: self.storage.durable(),
            role: self.role,
            leader: self.leader_id,
            voters: self.voters@,
            commit_index: self.commit_index,
            last_applied: self.last_applied,
            elapsed: self.elapsed,
            election_deadline: self.election_deadline,
            heartbeat_elapsed: self.heartbeat_elapsed,
            votes: self.votes@,
            next_index: self.next_index@,
            match_index: self.match_index@,
            inflight: queues_view(self.inflight@),
            send_count: self.send_count@,
            ack_count: self.ack_count@,
            pending_reads: reads_view(self.pending_reads@),
            readable_term: self.readable_term,
            rng: self.rng.0,
            outbox: messages_view(self.outbox@),
            apply_buf: types::entries_view(self.apply_buf@),
            reads_buf: self.reads_buf@,
            restore_buf: restore_view(self.restore_buf),
        }
    }
}

impl<S: RaftStorage> RaftCore<S> {
    pub fn role(&self) -> (r: Role)
        ensures
            r == self@.role,
    {
        self.role
    }

    pub fn current_term(&self) -> (r: Term)
        requires
            self@.store.wf(),
        ensures
            r == self@.term(),
    {
        self.storage.hard_state().current_term
    }

    pub fn commit_index(&self) -> (r: LogIndex)
        ensures
            r == self@.commit_index,
    {
        self.commit_index
    }

    pub fn leader_id(&self) -> (r: Option<NodeId>)
        ensures
            r == self@.leader,
    {
        self.leader_id
    }

    /// Gives up the node and hands back its store: what is left of a node that
    /// crashes.
    pub fn into_storage(self) -> (r: S)
        ensures
            r == self.storage,
            r.durable() == self@.store,
    {
        self.storage
    }

    /// The number of voters that a majority takes.
    pub fn quorum(&self) -> (r: usize)
        ensures
            r == self@.quorum(),
    {
        self.voters.len() / 2 + 1
    }

    /// The other voters, ascending.
    pub(crate) fn others(&self) -> (r: Vec<NodeId>)
        ensures
            r@ == self@.others(),
            ids::strictly_ascending(r@),
            forall|p: NodeId| r@.contains(p) <==> self@.voters.contains(p) && p != self@.config.id,
    {
        let all = sorted_ids(&self.voters);
        let id: u64 = self.config.id;
        let ghost keep = state::except(id);
        let mut out: Vec<NodeId> = Vec::new();
        let mut i: usize = 0;
        while i < all.len()
            invariant
                i <= all@.len(),
                id == self.config.id,
                keep == state::except(id),
                ids::strictly_ascending(all@),
                out@ == all@.take(i as int).filter(keep),
                ids::strictly_ascending(out@),
                forall|j: int, k: int| 0 <= j < out@.len() && i <= k < all@.len() ==> out@[j] < all@[k],
                forall|p: NodeId| out@.contains(p) <==> all@.take(i as int).contains(p) && p != id,
            decreases all@.len() - i,
        {
            let p: u64 = all[i];
            let ghost was = out@;
            proof {
                reveal(Seq::filter);
                assert(all@.take(i + 1).drop_last() =~= all@.take(i as int));
                assert(all@.take(i + 1).last() == p);
            }
            if p != id {
                out.push(p);
            }
            proof {
                assert forall|q: NodeId| out@.contains(q) <==> all@.take(i + 1).contains(q) && q
                    != id by {
                    assert(all@.take(i + 1) =~= all@.take(i as int).push(p));
                    vstd::seq_lib::lemma_seq_contains_after_push(all@.take(i as int), p, q);
                    if all@.take(i as int).contains(q) {
                        let j = choose|j: int|
                            0 <= j < i && all@.take(i as int)[j] == q;
                        assert(all@.take(i as int).push(p)[j] == q);
                    }
                    if q == p {
                        assert(all@.take(i as int).push(p)[i as int] == p);
                    }
                    vstd::seq_lib::lemma_seq_contains_after_push(was, p, q);
                    if was.contains(q) {
                        let j = choose|j: int| 0 <= j < was.len() && was[j] == q;
                        assert(out@[j] == q);
                    }
                    if p != id {
                        assert(out@[was.len() as int] == p);
                    }
                }
            }
            i = i + 1;
        }
        proof {
            assert(all@.take(i as int) =~= all@);
            assert forall|p: NodeId| out@.contains(p) implies self@.voters.contains(p) by {
                assert(all@.to_set().contains(p));
            }
            assert forall|p: NodeId| self@.voters.contains(p) && p != id implies out@.contains(
                p,
            ) by {
                assert(all@.to_set().contains(p));
            }
        }
        out
    }

    /// Queues a message.
    pub(crate) fn push_message(&mut self, to: NodeId, message: Message)
        ensures
            final(self)@ == old(self)@.send(to, message@),
            final(self).storage == old(self).storage,
    {
        self.outbox.push((to, message));
        assert(self@ =~= old(self)@.send(to, message@));
    }

    pub(crate) fn reset_election_timer(&mut self)
        requires
            old(self)@.config.election_timeout <= 0x8000_0000_0000_0000,
        ensures
            final(self)@ == old(self)@.reset_election_timer(),
    {
        self.elapsed = 0;
        self.election_deadline = self.rng.election_timeout(self.config.election_timeout);
        assert(self@ =~= old(self)@.reset_election_timer());
    }

    /// Starts a node over what its store holds. It follows, has committed and
    /// applied what its snapshot covers, and lives by the membership that the
    /// store calls for; a store whose membership cannot be read is corrupt.
    pub fn new(config: Config, storage: S) -> (r: Result<Self>)
        requires
            storage.durable().wf(),
            config.election_timeout <= 0x8000_0000_0000_0000,
        ensures
            match r {
                Ok(core) => {
                    &&& core@.wf()
                    &&& NodeState::started(config@, storage.durable()) == Outcome::ok(core@)
                },
                Err(e) => {
                    ||| NodeState::started(config@, storage.durable()).fault == Some(e@)
                    ||| !S::reliable() && state::latest_config(storage.durable().entries) is None
                },
            },
    {
        let snapshot = storage.snapshot_meta();
        let rng = SplitMix64(config.seed ^ config.id);
        let mut core = RaftCore {
            config,
            storage,
            role: Role::Follower,
            leader_id: None,
            voters: BTreeSet::new(),
            commit_index: snapshot.last_index,
            last_applied: snapshot.last_index,
            elapsed: 0,
            election_deadline: 0,
            heartbeat_elapsed: 0,
            votes: BTreeSet::new(),
            next_index: BTreeMap::new(),
            match_index: BTreeMap::new(),
            inflight: BTreeMap::new(),
            send_count: BTreeMap::new(),
            ack_count: BTreeMap::new(),
            pending_reads: Vec::new(),
            readable_term: None,
            rng,
            outbox: Vec::new(),
            apply_buf: Vec::new(),
            reads_buf: Vec::new(),
            restore_buf: None,
        };
        proof {
            assert(core@.inflight =~= Map::empty());
            assert(core@.pending_reads =~= Seq::empty());
            assert(core@.outbox =~= Seq::empty());
            assert(core@.apply_buf =~= Seq::empty());
        }
        core.reset_election_timer();
        match core.recompute_voters() {
            Ok(_) => Ok(core),
            Err(e) => Err(e),
        }
    }

    /// Lets one tick pass: a leader sends heartbeats when they are due, any
    /// other node calls for a pre-vote when its deadline is reached.
    pub fn tick(&mut self) -> (r: Result<()>)
        requires
            old(self)@.wf(),
            old(self)@.has_room(),
        ensures
            final(self)@.wf(),
            state::settled(
                r,
                final(self)@,
                old(self)@.tick(),
                S::reliable(),
                old(self)@.tick_stops(final(self)@),
            ),
    {
        let ghost before = self@;
        match self.role {
            Role::Leader => {
                self.heartbeat_elapsed = self.heartbeat_elapsed + 1;
                if self.heartbeat_elapsed >= self.config.heartbeat_interval {
                    self.heartbeat_elapsed = 0;
                    assert(self@ =~= NodeState { heartbeat_elapsed: 0, ..before });
                    match self.broadcast_append() {
                        Ok(_) => {},
                        Err(e) => return Err(e),
                    }
                }
            },
            Role::Follower | Role::PreCandidate | Role::Candidate => {
                self.elapsed = self.elapsed + 1;
                assert(self@ =~= NodeState { elapsed: (before.elapsed + 1) as u64, ..before });
                if self.elapsed >= self.election_deadline {
                    match self.start_prevote() {
                        Ok(_) => {},
                        Err(e) => return Err(e),
                    }
                }
            },
        }
        self.maybe_release_reads();
        Ok(())
    }

    /// Hands out everything that has been buffered for the driver.
    pub fn ready(&mut self) -> (r: Ready)
        ensures
            final(self)@ == old(self)@.drained(),
            old(self)@.wf() ==> final(self)@.wf(),
            messages_view(r.messages@) == old(self)@.outbox,
            types::entries_view(r.apply@) == old(self)@.apply_buf,
            r.reads@ == old(self)@.reads_buf,
            restore_view(r.restore) == old(self)@.restore_buf,
    {
        let mut messages: Vec<(NodeId, Message)> = Vec::new();
        let mut apply: Vec<LogEntry> = Vec::new();
        let mut reads: Vec<ReadToken> = Vec::new();
        std::mem::swap(&mut messages, &mut self.outbox);
        std::mem::swap(&mut apply, &mut self.apply_buf);
        std::mem::swap(&mut reads, &mut self.reads_buf);
        let restore = self.restore_buf.take();
        assert(self@ =~= old(self)@.drained());
        Ready { messages, apply, reads, restore }
    }

    /// Takes a message from another node.
    #[verifier::rlimit(40)]
    #[verifier::spinoff_prover]
    pub fn step(&mut self, from: NodeId, msg: Message) -> (r: Result<()>)
        requires
            old(self)@.wf(),
            old(self)@.has_room(),
            old(self)@.has_room_for(msg@),
        ensures
            final(self)@.wf(),
            state::settled(
                r,
                final(self)@,
                old(self)@.step(from, msg@),
                S::reliable(),
                old(self)@.step_stops(from, msg@, final(self)@),
            ),
    {
        assert(ids::value_or(self@.send_count, from, 0) < u64::MAX);
        match msg {
            Message::RequestVote(req) => self.handle_request_vote(from, req),
            Message::RequestVoteResp(resp) => self.handle_vote_resp(from, resp),
            Message::AppendEntries(req) => {
                assert(types::entries_view(req.entries@).len() == req.entries@.len());
                self.handle_append_entries(from, req)
            },
            Message::AppendEntriesResp(resp) => self.handle_append_resp(from, resp),
            Message::InstallSnapshot(req) => self.handle_install_snapshot(from, req),
            Message::InstallSnapshotResp(resp) => self.handle_install_snapshot_resp(from, resp),
        }
    }

    /// The hard state in the store.
    pub fn stored_hard_state(&self) -> (r: HardState)
        requires
            self@.store.wf(),
        ensures
            r == self@.store.hs,
    {
        self.storage.hard_state()
    }

    /// How far `peer` is known to hold the log.
    pub fn match_index_of(&self, peer: NodeId) -> (r: LogIndex)
        ensures
            r == self@.matched(peer),
    {
        lookup(&self.match_index, peer, 0)
    }

    /// How many requests `peer` has acknowledged.
    pub fn ack_count_of(&self, peer: NodeId) -> (r: u64)
        ensures
            r == self@.ack(peer),
    {
        lookup(&self.ack_count, peer, 0)
    }
}

} // verus!
