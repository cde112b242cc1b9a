//! What a node is, mathematically, and what each event makes of it.

use vstd::prelude::*;

use crate::bytes;
use crate::error::{self, Fault};
use crate::raft::ids;
use crate::raft::rpc::{
    AppendEntriesResp, AppendView, InstallSnapshotResp, InstallView, MessageView, RequestVoteReq,
    RequestVoteResp,
};
use crate::raft::storage::Durable;
use crate::raft::types::{EntryType, EntryView, HardState, LogIndex, NodeId, SnapshotMeta, Term};
use crate::text;

verus! {

pub type ReadToken = u64;

#[derive(Clone, Copy, Debug, PartialEq, Eq, Structural)]
pub enum Role {
    Follower,
    PreCandidate,
    Candidate,
    Leader,
}

/// A single-server membership change: one voter added or removed at a time.
#[derive(Clone, Copy, Debug, PartialEq, Eq, Structural)]
pub enum ConfChange {
    AddVoter(NodeId),
    RemoveVoter(NodeId),
}

/// A node's configuration over sequences.
#[verifier::ext_equal]
pub struct ConfigView {
    pub id: NodeId,
    pub peers: Seq<NodeId>,
    pub election_timeout: u64,
    pub heartbeat_interval: u64,
    pub seed: u64,
}

/// A read that waits for its release.
#[verifier::ext_equal]
pub struct ReadView {
    pub token: ReadToken,
    pub floor: LogIndex,
    pub barrier: Map<NodeId, u64>,
}

/// Everything that a node knows.
#[verifier::ext_equal]
pub struct NodeState {
    pub config: ConfigView,
    pub store: Durable,
    pub role: Role,
    pub leader: Option<NodeId>,
    pub voters: Set<NodeId>,
    pub commit_index: LogIndex,
    pub last_applied: LogIndex,
    pub elapsed: u64,
    pub election_deadline: u64,
    pub heartbeat_elapsed: u64,
    pub votes: Set<NodeId>,
    pub next_index: Map<NodeId, LogIndex>,
    pub match_index: Map<NodeId, LogIndex>,
    pub inflight: Map<NodeId, Seq<LogIndex>>,
    pub send_count: Map<NodeId, u64>,
    pub ack_count: Map<NodeId, u64>,
    pub pending_reads: Seq<ReadView>,
    pub readable_term: Option<Term>,
    pub rng: u64,
    pub outbox: Seq<(NodeId, MessageView)>,
    pub apply_buf: Seq<EntryView>,
    pub reads_buf: Seq<ReadToken>,
    pub restore_buf: Option<(SnapshotMeta, Seq<u8>)>,
}

/// What an event leaves behind: the node, and what went wrong if anything did.
#[verifier::ext_equal]
pub struct Outcome {
    pub node: NodeState,
    pub fault: Option<Fault>,
}

/// The state of the generator after one step.
pub open spec fn rng_next(state: u64) -> u64 {
    state.wrapping_add(0x9E37_79B9_7F4A_7C15)
}

/// The number that the generator draws in state `z`.
pub open spec fn rng_value(z: u64) -> u64 {
    let a = (z ^ (z >> 30)).wrapping_mul(0xBF58_476D_1CE4_E5B9);
    let b = (a ^ (a >> 27)).wrapping_mul(0x94D0_49BB_1331_11EB);
    b ^ (b >> 31)
}

/// A timeout of `base` ticks plus fewer than `base` more, drawn at random.
pub open spec fn jittered(base: u64, draw: u64) -> u64 {
    (base + draw % (if base > 1 {
        base
    } else {
        1
    })) as u64
}

/// How many votes win over a set of voters of this size.
pub open spec fn majority(voters: nat) -> nat {
    voters / 2 + 1
}

pub open spec fn queue_of(inflight: Map<NodeId, Seq<LogIndex>>, peer: NodeId) -> Seq<LogIndex> {
    if inflight.contains_key(peer) {
        inflight[peer]
    } else {
        Seq::empty()
    }
}

/// No value is the largest that there is.
pub open spec fn below_max(m: Map<NodeId, u64>) -> bool {
    forall|p: NodeId| m.contains_key(p) ==> (#[trigger] m[p]) < u64::MAX
}

/// Every counter can still go up.
pub open spec fn countable(counts: Map<NodeId, u64>) -> bool {
    forall|p: NodeId| #[trigger] ids::value_or(counts, p, 0) < u64::MAX
}

/// Every request to a peer was sent, and is answered or in flight at most once.
pub open spec fn counts_agree(
    inflight: Map<NodeId, Seq<LogIndex>>,
    send_count: Map<NodeId, u64>,
    ack_count: Map<NodeId, u64>,
) -> bool {
    &&& forall|p: NodeId|
        ids::value_or(ack_count, p, 0) + (#[trigger] queue_of(inflight, p)).len()
            <= ids::value_or(send_count, p, 0)
    &&& forall|p: NodeId, i: int|
        0 <= i < queue_of(inflight, p).len() ==> (#[trigger] queue_of(inflight, p)[i]) < u64::MAX
}

/// The ids other than `id`.
pub open spec fn except(id: NodeId) -> spec_fn(NodeId) -> bool {
    |p: NodeId| p != id
}

/// The peers that hold the log up to `index`.
pub open spec fn holding(
    match_index: Map<NodeId, LogIndex>,
    index: nat) -> spec_fn(NodeId,
) -> bool {
    |p: NodeId| ids::value_or(match_index, p, 0) >= index
}

/// The node itself, and the peers with more acknowledgements than `barrier` says.
pub open spec fn in_touch(
    id: NodeId,
    ack_count: Map<NodeId, u64>,
    barrier: Map<NodeId, u64>,
) -> spec_fn(NodeId) -> bool {
    |p: NodeId| p == id || ids::value_or(ack_count, p, 0) > ids::value_or(barrier, p, 0)
}

/// The log of a candidate, by its last term and index, is at least as far as ours.
pub open spec fn at_least(
    candidate_term: Term,
    candidate_index: LogIndex,
    own_term: Term,
    own_index: LogIndex,
) -> bool {
    candidate_term > own_term || (candidate_term == own_term && candidate_index >= own_index)
}

/// The ids that `encode_voters` wrote behind the count.
pub open spec fn id_list(bytes: Seq<u8>, count: nat) -> Seq<NodeId> {
    Seq::new(count, |i: int| bytes::u64_at(bytes, 4 + 8 * i))
}

/// The ids of `q`, eight bytes each.
pub open spec fn id_bytes(q: Seq<NodeId>) -> Seq<u8>
    decreases q.len(),
{
    if q.len() == 0 {
        Seq::empty()
    } else {
        id_bytes(q.drop_last()) + bytes::le64(q.last())
    }
}

/// A voter set as bytes: how many ids there are in four bytes, then the ids,
/// ascending.
pub open spec fn voters_bytes(voters: Set<NodeId>) -> Seq<u8> {
    bytes::le32(voters.len() as u32) + id_bytes(ids::ascending(voters))
}

/// The voter set that bytes hold, or what is wrong with them.
pub open spec fn voters_of(bytes: Seq<u8>) -> Result<Set<NodeId>, Fault> {
    if bytes.len() < 4 {
        Err(error::corrupt("voters encoding shorter than the 4-byte length prefix"@))
    } else {
        let count = bytes::u32_at(bytes, 0);
        let expected = 4 + 8 * count as nat;
        if bytes.len() != expected {
            Err(
                error::corrupt(
                    "voters encoding length mismatch: header claims "@ + text::decimal(
                        count as nat,
                    ) + " ids ("@ + text::decimal(expected) + " bytes total), got "@
                        + text::decimal(bytes.len()) + " bytes"@,
                ),
            )
        } else {
            Ok(id_list(bytes, count as nat).to_set())
        }
    }
}

/// The command of the last membership change among `entries`.
pub open spec fn latest_config(entries: Seq<EntryView>) -> Option<Seq<u8>>
    decreases entries.len(),
{
    if entries.len() == 0 {
        None
    } else if entries.last().entry_type == EntryType::ConfigChange {
        Some(entries.last().command)
    } else {
        latest_config(entries.drop_last())
    }
}

/// Whether a membership change is among `entries`.
pub open spec fn has_config(entries: Seq<EntryView>) -> bool {
    exists|i: int|
        0 <= i < entries.len() && (#[trigger] entries[i]).entry_type == EntryType::ConfigChange
}

/// The membership that a node lives by: what the last membership change in its
/// log says; without one, what its snapshot recorded; without a snapshot, the
/// peers it was started with.
pub open spec fn membership(store: Durable, peers: Seq<NodeId>) -> Result<Set<NodeId>, Fault> {
    match latest_config(store.entries) {
        Some(command) => voters_of(command),
        None => match store.snapshot {
            Some(bytes) => if bytes.config.len() == 0 {
                Err(error::corrupt("snapshot present but its recorded config is empty"@))
            } else {
                voters_of(bytes.config)
            },
            None => Ok(peers.to_set()),
        },
    }
}

/// The first position from `k` on whose entry the log lacks or contradicts.
pub open spec fn first_new(store: Durable, entries: Seq<EntryView>, k: int) -> Option<int>
    decreases entries.len() - k,
{
    if k >= entries.len() {
        None
    } else if store.term(entries[k].index) == Some(entries[k].term) {
        first_new(store, entries, k + 1)
    } else {
        Some(k)
    }
}

/// The entries at `index` and behind it.
pub open spec fn at_or_after(entries: Seq<EntryView>, index: LogIndex) -> Seq<EntryView> {
    entries.filter(reaching(index))
}

pub open spec fn reaching(index: LogIndex) -> spec_fn(EntryView) -> bool {
    |e: EntryView| e.index >= index
}

/// The lowest index down to which, from `index`, the term stays `term`.
pub open spec fn first_of_term(store: Durable, term: Term, index: nat) -> nat
    decreases index,
{
    if index > 1 && store.term_or_zero((index - 1) as u64) == term {
        first_of_term(store, term, (index - 1) as nat)
    } else {
        index
    }
}

impl Durable {
    /// The term at `index`, zero where it is not known.
    pub open spec fn term_or_zero(self, index: LogIndex) -> Term {
        match self.term(index) {
            Some(t) => t,
            None => 0,
        }
    }
}

/// A call that returned `r` went as `outcome` says. Only a store that may fail
/// on its own account may make it fail otherwise, and only where `stopped` says
/// that a call to the store could have left the node as it is.
pub open spec fn settled<T>(
    r: error::Result<T>,
    after: NodeState,
    outcome: Outcome,
    reliable: bool,
    stopped: bool,
) -> bool {
    match r {
        Ok(_) => after == outcome.node && outcome.fault is None,
        Err(e) => {
            ||| after == outcome.node && outcome.fault == Some(e@)
            ||| !reliable && stopped
        },
    }
}

impl Outcome {
    pub open spec fn ok(node: NodeState) -> Outcome {
        Outcome { node, fault: None }
    }

    pub open spec fn failed(node: NodeState, fault: Fault) -> Outcome {
        Outcome { node, fault: Some(fault) }
    }
}

impl NodeState {
    /// What holds of a node at all times.
    pub open spec fn wf(self) -> bool {
        &&& self.store.wf()
        &&& self.voters.finite()
        &&& self.votes.finite()
        &&& self.last_applied <= self.commit_index < u64::MAX
        &&& self.config.election_timeout <= 0x8000_0000_0000_0000
        &&& below_max(self.match_index)
        &&& counts_agree(self.inflight, self.send_count, self.ack_count)
    }

    /// The counters are not about to run over.
    pub open spec fn has_room(self) -> bool {
        &&& self.term() < u64::MAX
        &&& self.store.last_index() < u64::MAX - 1
        &&& self.elapsed < u64::MAX
        &&& self.heartbeat_elapsed < u64::MAX
        &&& countable(self.send_count)
    }

    pub open spec fn term(self) -> Term {
        self.store.hs.current_term
    }

    pub open spec fn quorum(self) -> nat {
        majority(self.voters.len())
    }

    /// What is in flight to `peer`, oldest first.
    pub open spec fn queue(self, peer: NodeId) -> Seq<LogIndex> {
        queue_of(self.inflight, peer)
    }

    pub open spec fn sent(self, peer: NodeId) -> u64 {
        ids::value_or(self.send_count, peer, 0)
    }

    pub open spec fn ack(self, peer: NodeId) -> u64 {
        ids::value_or(self.ack_count, peer, 0)
    }

    pub open spec fn matched(self, peer: NodeId) -> LogIndex {
        ids::value_or(self.match_index, peer, 0)
    }

    /// The other voters, ascending.
    pub open spec fn others(self) -> Seq<NodeId> {
        ids::ascending(self.voters).filter(except(self.config.id))
    }

    /// The vote of the node for itself, which only a voter has.
    pub open spec fn own_vote(self) -> Set<NodeId> {
        if self.voters.contains(self.config.id) {
            Set::empty().insert(self.config.id)
        } else {
            Set::empty()
        }
    }

    pub open spec fn send(self, to: NodeId, message: MessageView) -> NodeState {
        NodeState { outbox: self.outbox.push((to, message)), ..self }
    }

    pub open spec fn send_each(self, to: Seq<NodeId>, message: MessageView) -> NodeState {
        NodeState {
            outbox: self.outbox + to.map_values(|p: NodeId| (p, message)),
            ..self
        }
    }

    pub open spec fn reset_election_timer(self) -> NodeState {
        let rng = rng_next(self.rng);
        NodeState {
            elapsed: 0,
            election_deadline: jittered(self.config.election_timeout, rng_value(rng)),
            rng,
            ..self
        }
    }

    pub open spec fn with_hard_state(self, hs: HardState) -> NodeState {
        NodeState { store: Durable { hs, ..self.store }, ..self }
    }

    /// Once a message fails, the ones behind it are not sent.
    pub proof fn stops_at_fault(self, peers: Seq<NodeId>, k: int)
        requires
            0 <= k <= peers.len(),
            self.send_append_each(peers.take(k)).fault is Some,
        ensures
            self.send_append_each(peers) == self.send_append_each(peers.take(k)),
        decreases peers.len() - k,
    {
        if k == peers.len() {
            assert(peers.take(k) =~= peers);
        } else {
            assert(peers.take(k + 1).drop_last() =~= peers.take(k));
            self.stops_at_fault(peers, k + 1);
        }
    }

    // ---- election ----

    pub open spec fn vote_request(self, term: Term, pre_vote: bool) -> MessageView {
        MessageView::RequestVote(
            RequestVoteReq {
                term,
                candidate_id: self.config.id,
                last_log_index: self.store.last_index(),
                last_log_term: self.store.last_term(),
                pre_vote,
            },
        )
    }

    pub open spec fn start_prevote(self) -> Outcome {
        let node = NodeState {
            role: Role::PreCandidate,
            leader: None,
            votes: self.own_vote(),
            ..self
        }.send_each(
            self.others(),
            self.vote_request((self.term() + 1) as u64, true),
        ).reset_election_timer();
        if node.votes.len() >= node.quorum() {
            node.become_candidate()
        } else {
            Outcome::ok(node)
        }
    }

    pub open spec fn become_candidate(self) -> Outcome {
        let term = (self.term() + 1) as u64;
        let node = NodeState { role: Role::Candidate, votes: self.own_vote(), ..self }
            .with_hard_state(HardState { current_term: term, voted_for: Some(self.config.id) })
            .reset_election_timer()
            .send_each(self.others(), self.vote_request(term, false));
        if node.votes.len() >= node.quorum() {
            node.become_leader()
        } else {
            Outcome::ok(node)
        }
    }

    /// `value` for every other voter.
    pub open spec fn for_others(self, value: u64) -> Map<NodeId, u64> {
        Map::new(|p: NodeId| self.voters.contains(p) && p != self.config.id, |p: NodeId| value)
    }

    /// The first entry of a leader: an empty one in its own term.
    pub open spec fn noop(self) -> EntryView {
        EntryView {
            term: self.term(),
            index: (self.store.last_index() + 1) as u64,
            command: Seq::empty(),
            entry_type: EntryType::Normal,
        }
    }

    /// The node as leader, before it has sent anything.
    pub open spec fn crowned(self) -> NodeState {
        let next = (self.store.last_index() + 1) as u64;
        NodeState {
            role: Role::Leader,
            leader: Some(self.config.id),
            heartbeat_elapsed: 0,
            inflight: Map::empty(),
            pending_reads: Seq::empty(),
            send_count: Map::empty(),
            ack_count: Map::empty(),
            next_index: self.next_index.union_prefer_right(self.for_others(next)).insert(
                self.config.id,
                (next + 1) as u64,
            ),
            match_index: self.match_index.union_prefer_right(self.for_others(0)).insert(
                self.config.id,
                next,
            ),
            store: self.store.append(seq![self.noop()]),
            readable_term: None,
            ..self
        }
    }

    pub open spec fn become_leader(self) -> Outcome {
        let sent = self.crowned().broadcast_append();
        if sent.fault is Some {
            sent
        } else {
            Outcome::ok(sent.node.advance_commit())
        }
    }

    pub open spec fn become_follower(self, term: Term, leader: Option<NodeId>) -> NodeState {
        let node = if term > self.term() {
            self.with_hard_state(HardState { current_term: term, voted_for: None })
        } else {
            self
        };
        NodeState { role: Role::Follower, leader, inflight: Map::empty(), ..node }
            .reset_election_timer()
    }

    pub open spec fn log_at_least(self, req: RequestVoteReq) -> bool {
        at_least(
            req.last_log_term,
            req.last_log_index,
            self.store.last_term(),
            self.store.last_index(),
        )
    }

    /// Whether a real vote goes to the candidate, by a node in the request's term.
    pub open spec fn grants(self, req: RequestVoteReq) -> bool {
        &&& req.term == self.term()
        &&& self.log_at_least(req)
        &&& self.store.hs.voted_for is None || self.store.hs.voted_for == Some(req.candidate_id)
    }

    pub open spec fn handle_request_vote(self, from: NodeId, req: RequestVoteReq) -> NodeState {
        if req.pre_vote {
            self.send(
                from,
                MessageView::RequestVoteResp(
                    RequestVoteResp {
                        term: self.term(),
                        vote_granted: req.term >= self.term() && self.log_at_least(req),
                        pre_vote: true,
                    },
                ),
            )
        } else {
            let node = if req.term > self.term() {
                self.become_follower(req.term, None)
            } else {
                self
            };
            let granted = node.grants(req);
            let voted = if granted {
                node.with_hard_state(
                    HardState { current_term: node.term(), voted_for: Some(req.candidate_id) },
                )
            } else {
                node
            };
            voted.send(
                from,
                MessageView::RequestVoteResp(
                    RequestVoteResp {
                        term: node.term(),
                        vote_granted: granted,
                        pre_vote: false,
                    },
                ),
            )
        }
    }

    pub open spec fn handle_vote_resp(self, from: NodeId, resp: RequestVoteResp) -> Outcome {
        if self.role == Role::PreCandidate && resp.pre_vote {
            if resp.term > self.term() {
                Outcome::ok(self.become_follower(resp.term, None))
            } else if resp.vote_granted {
                let node = NodeState { votes: self.votes.insert(from), ..self };
                if node.votes.len() >= node.quorum() {
                    node.become_candidate()
                } else {
                    Outcome::ok(node)
                }
            } else {
                Outcome::ok(self)
            }
        } else if self.role == Role::Candidate && !resp.pre_vote {
            if resp.term > self.term() {
                Outcome::ok(self.become_follower(resp.term, None))
            } else if resp.term == self.term() && resp.vote_granted {
                let node = NodeState { votes: self.votes.insert(from), ..self };
                if node.votes.len() >= node.quorum() {
                    node.become_leader()
                } else {
                    Outcome::ok(node)
                }
            } else {
                Outcome::ok(self)
            }
        } else {
            Outcome::ok(self)
        }
    }

    // ---- replication ----

    pub open spec fn send_append(self, peer: NodeId) -> Outcome {
        let next = ids::value_or(self.next_index, peer, 1);
        if next <= self.store.base.last_index {
            self.send_install_snapshot(peer)
        } else {
            let prev = (next - 1) as u64;
            let entries = self.store.from(next);
            Outcome::ok(
                NodeState {
                    inflight: self.inflight.insert(
                        peer,
                        self.queue(peer).push((prev + entries.len()) as u64),
                    ),
                    send_count: self.send_count.insert(peer, (self.sent(peer) + 1) as u64),
                    ..self
                }.send(
                    peer,
                    MessageView::AppendEntries(
                        AppendView {
                            term: self.term(),
                            leader_id: self.config.id,
                            prev_log_index: prev,
                            prev_log_term: self.store.term_or_zero(prev),
                            entries,
                            leader_commit: self.commit_index,
                        },
                    ),
                ),
            )
        }
    }

    /// One message to each of `peers` in turn, up to the first that fails.
    pub open spec fn send_append_each(self, peers: Seq<NodeId>) -> Outcome
        decreases peers.len(),
    {
        if peers.len() == 0 {
            Outcome::ok(self)
        } else {
            let before = self.send_append_each(peers.drop_last());
            if before.fault is Some {
                before
            } else {
                before.node.send_append(peers.last())
            }
        }
    }

    pub open spec fn broadcast_append(self) -> Outcome {
        self.send_append_each(self.others())
    }

    /// The node with one more entry, of its own, in its log.
    pub open spec fn with_own_entry(self, entry: EntryView) -> NodeState {
        NodeState {
            store: self.store.append(seq![entry]),
            match_index: self.match_index.insert(self.config.id, entry.index),
            next_index: self.next_index.insert(self.config.id, (entry.index + 1) as u64),
            ..self
        }
    }

    pub open spec fn propose(self, command: Seq<u8>) -> Outcome {
        if self.role != Role::Leader {
            Outcome::ok(self)
        } else {
            let sent = self.with_own_entry(
                EntryView {
                    term: self.term(),
                    index: (self.store.last_index() + 1) as u64,
                    command,
                    entry_type: EntryType::Normal,
                },
            ).broadcast_append();
            if sent.fault is Some {
                sent
            } else {
                Outcome::ok(sent.node.advance_commit())
            }
        }
    }

    pub open spec fn append_reply(
        self,
        to: NodeId,
        success: bool,
        conflict_index: Option<LogIndex>,
    ) -> NodeState {
        self.send(
            to,
            MessageView::AppendEntriesResp(
                AppendEntriesResp { term: self.term(), success, conflict_index },
            ),
        )
    }

    /// The log with what is new of `entries` in it, and the membership that
    /// then holds.
    pub open spec fn adopt_entries(self, entries: Seq<EntryView>) -> Outcome {
        match first_new(self.store, entries, 0) {
            None => Outcome::ok(self),
            Some(k) => {
                let index = entries[k].index;
                let kept = if self.store.term(index) is Some {
                    self.store.truncate(index)
                } else {
                    self.store
                };
                let more = at_or_after(entries, index);
                match kept.append_fault(more) {
                    Some(fault) => Outcome::failed(NodeState { store: kept, ..self }, fault),
                    None => NodeState { store: kept.append(more), ..self }.recompute_voters(),
                }
            },
        }
    }

    pub open spec fn follow_commit(self, leader_commit: LogIndex) -> NodeState {
        let known = if leader_commit < self.store.last_index() {
            leader_commit
        } else {
            self.store.last_index()
        };
        NodeState {
            commit_index: if known > self.commit_index {
                known
            } else {
                self.commit_index
            },
            ..self
        }.advance_apply()
    }

    pub open spec fn handle_append_entries(self, from: NodeId, req: AppendView) -> Outcome {
        if req.term < self.term() {
            Outcome::ok(self.append_reply(from, false, None))
        } else {
            let node = self.become_follower(req.term, Some(req.leader_id));
            let last = node.store.last_index();
            let prev_term = node.store.term_or_zero(req.prev_log_index);
            if req.prev_log_index > last {
                Outcome::ok(node.append_reply(from, false, Some((last + 1) as u64)))
            } else if prev_term != req.prev_log_term {
                Outcome::ok(
                    node.append_reply(
                        from,
                        false,
                        Some(
                            first_of_term(node.store, prev_term, req.prev_log_index as nat) as u64,
                        ),
                    ),
                )
            } else {
                let adopted = node.adopt_entries(req.entries);
                if adopted.fault is Some {
                    adopted
                } else {
                    Outcome::ok(
                        adopted.node.follow_commit(req.leader_commit).append_reply(
                            from,
                            true,
                            None,
                        ),
                    )
                }
            }
        }
    }

    /// The oldest request in flight to `peer` is answered.
    pub open spec fn acknowledged(self, peer: NodeId) -> NodeState {
        if self.queue(peer).len() == 0 {
            self
        } else {
            let up_to = self.queue(peer)[0];
            let matched = if self.matched(peer) > up_to {
                self.matched(peer)
            } else {
                up_to
            };
            NodeState {
                inflight: self.inflight.insert(peer, self.queue(peer).skip(1)),
                match_index: self.match_index.insert(peer, matched),
                next_index: self.next_index.insert(peer, (matched + 1) as u64),
                ack_count: self.ack_count.insert(peer, (self.ack(peer) + 1) as u64),
                ..self
            }
        }
    }

    /// Nothing is in flight to `peer` any more, and the next message to it
    /// starts at `next`.
    pub open spec fn backed_up(self, peer: NodeId, next: LogIndex) -> NodeState {
        NodeState {
            inflight: if self.inflight.contains_key(peer) {
                self.inflight.insert(peer, Seq::empty())
            } else {
                self.inflight
            },
            next_index: self.next_index.insert(peer, next),
            ..self
        }
    }

    pub open spec fn handle_append_resp(self, from: NodeId, resp: AppendEntriesResp) -> Outcome {
        if resp.term > self.term() {
            Outcome::ok(self.become_follower(resp.term, None))
        } else if self.role != Role::Leader || resp.term < self.term() {
            Outcome::ok(self)
        } else if resp.success {
            Outcome::ok(self.acknowledged(from).advance_commit().release_reads())
        } else {
            let next = match resp.conflict_index {
                Some(index) => if index > 1 {
                    index
                } else {
                    1
                },
                None => 1,
            };
            self.backed_up(from, next).send_append(from)
        }
    }

    /// How many voters hold the log up to `index`.
    pub open spec fn replicas(self, index: nat) -> nat {
        ids::tally(self.voters, holding(self.match_index, index))
    }

    /// The entry at `index` may be committed: a majority holds it, and it is
    /// of the leader's own term.
    pub open spec fn committable(self, index: nat) -> bool {
        &&& self.replicas(index) >= self.quorum()
        &&& self.store.term(index as u64) == Some(self.term())
    }

    /// The highest committable index up to `index`, or the commit index if
    /// none lies above that.
    pub open spec fn commit_up_to(self, index: nat) -> nat
        decreases index,
    {
        if index <= self.commit_index {
            self.commit_index as nat
        } else if self.committable(index) {
            index
        } else {
            self.commit_up_to((index - 1) as nat)
        }
    }

    pub open spec fn advance_commit(self) -> NodeState {
        if self.role != Role::Leader {
            self
        } else {
            let commit = self.commit_up_to(self.store.last_index() as nat) as u64;
            let node = NodeState { commit_index: commit, ..self }.advance_apply();
            if commit > self.commit_index && !self.voters.contains(self.config.id) && !has_config(
                self.store.from((commit + 1) as u64),
            ) {
                node.become_follower(self.term(), None)
            } else {
                node
            }
        }
    }

    /// The entries that are committed and not applied yet, as far as the log
    /// holds them.
    pub open spec fn unapplied(self) -> Seq<EntryView> {
        let from = if self.last_applied > self.store.base.last_index {
            self.last_applied
        } else {
            self.store.base.last_index
        };
        let rest = self.store.from((self.last_applied + 1) as u64);
        if self.commit_index <= from {
            Seq::empty()
        } else if self.commit_index - from < rest.len() {
            rest.take(self.commit_index - from)
        } else {
            rest
        }
    }

    pub open spec fn advance_apply(self) -> NodeState {
        if self.last_applied >= self.commit_index {
            self
        } else {
            let entries = self.unapplied();
            NodeState {
                last_applied: self.commit_index,
                apply_buf: self.apply_buf + entries,
                readable_term: if has_term(entries, self.term()) {
                    Some(self.term())
                } else {
                    self.readable_term
                },
                ..self
            }
        }
    }

    // ---- reads ----

    pub open spec fn read_index(self, token: ReadToken) -> Outcome {
        if self.role != Role::Leader {
            Outcome::ok(self)
        } else {
            let sent = NodeState {
                pending_reads: self.pending_reads.push(
                    ReadView { token, floor: self.commit_index, barrier: self.send_count },
                ),
                ..self
            }.broadcast_append();
            if sent.fault is Some {
                sent
            } else {
                Outcome::ok(sent.node.release_reads())
            }
        }
    }

    /// How many voters answered a request sent after the read was registered,
    /// the node itself included.
    pub open spec fn contacted(self, read: ReadView) -> nat {
        ids::tally(self.voters, in_touch(self.config.id, self.ack_count, read.barrier))
    }

    pub open spec fn confirmed(self, read: ReadView) -> bool {
        self.contacted(read) >= self.quorum() && self.last_applied >= read.floor
    }

    /// The tokens of the reads among `reads` that are confirmed.
    pub open spec fn confirmed_tokens(self, reads: Seq<ReadView>) -> Seq<ReadToken>
        decreases reads.len(),
    {
        if reads.len() == 0 {
            Seq::empty()
        } else {
            let before = self.confirmed_tokens(reads.drop_last());
            if self.confirmed(reads.last()) {
                before.push(reads.last().token)
            } else {
                before
            }
        }
    }

    /// The reads among `reads` that are not confirmed.
    pub open spec fn unconfirmed(self, reads: Seq<ReadView>) -> Seq<ReadView>
        decreases reads.len(),
    {
        if reads.len() == 0 {
            Seq::empty()
        } else {
            let before = self.unconfirmed(reads.drop_last());
            if self.confirmed(reads.last()) {
                before
            } else {
                before.push(reads.last())
            }
        }
    }

    pub open spec fn release_reads(self) -> NodeState {
        if self.role != Role::Leader {
            NodeState { pending_reads: Seq::empty(), ..self }
        } else if self.readable_term != Some(self.term()) {
            self
        } else {
            NodeState {
                reads_buf: self.reads_buf + self.confirmed_tokens(self.pending_reads),
                pending_reads: self.unconfirmed(self.pending_reads),
                ..self
            }
        }
    }

    // ---- membership ----

    pub open spec fn recompute_voters(self) -> Outcome {
        match membership(self.store, self.config.peers) {
            Ok(voters) => Outcome::ok(NodeState { voters, ..self }),
            Err(fault) => Outcome::failed(self, fault),
        }
    }

    /// The voters after a change.
    pub open spec fn changed_voters(self, change: ConfChange) -> Set<NodeId> {
        match change {
            ConfChange::AddVoter(id) => self.voters.insert(id),
            ConfChange::RemoveVoter(id) => self.voters.remove(id),
        }
    }

    /// A membership change is taken up: by a leader, with none on its way
    /// already, and only if it changes anything.
    pub open spec fn accepts_change(self, change: ConfChange) -> bool {
        &&& self.role == Role::Leader
        &&& !has_config(self.store.from((self.commit_index + 1) as u64))
        &&& self.changed_voters(change) != self.voters
    }

    pub open spec fn seeded(self, change: ConfChange) -> NodeState {
        match change {
            ConfChange::AddVoter(id) => NodeState {
                next_index: self.next_index.insert(id, (self.store.last_index() + 1) as u64),
                match_index: self.match_index.insert(id, 0),
                send_count: self.send_count.insert(id, self.sent(id)),
                ack_count: self.ack_count.insert(id, self.ack(id)),
                ..self
            },
            ConfChange::RemoveVoter(id) => self,
        }
    }

    pub open spec fn propose_conf_change(self, change: ConfChange) -> Outcome {
        if !self.accepts_change(change) {
            Outcome::ok(self)
        } else {
            let voting = self.with_own_entry(
                EntryView {
                    term: self.term(),
                    index: (self.store.last_index() + 1) as u64,
                    command: voters_bytes(self.changed_voters(change)),
                    entry_type: EntryType::ConfigChange,
                },
            ).recompute_voters();
            if voting.fault is Some {
                voting
            } else {
                voting.node.seeded(change).broadcast_append()
            }
        }
    }

    // ---- snapshots ----

    pub open spec fn compact(self, index: LogIndex, data: Seq<u8>) -> Outcome {
        let base = self.store.base.last_index;
        if index <= base || index > self.last_applied {
            Outcome::failed(
                self,
                error::corrupt(
                    "compact index "@ + text::decimal(index as nat)
                        + " out of range: current snapshot base "@ + text::decimal(base as nat)
                        + ", last_applied "@ + text::decimal(self.last_applied as nat),
                ),
            )
        } else {
            match self.store.term(index) {
                None => Outcome::failed(
                    self,
                    error::corrupt(
                        "compact index "@ + text::decimal(index as nat) + " has no term"@,
                    ),
                ),
                Some(last_term) => Outcome::ok(
                    NodeState {
                        store: self.store.save(
                            SnapshotMeta { last_index: index, last_term },
                            data,
                            voters_bytes(self.voters),
                        ),
                        ..self
                    },
                ),
            }
        }
    }

    pub open spec fn send_install_snapshot(self, peer: NodeId) -> Outcome {
        if self.store.base.last_index == 0 {
            Outcome::ok(self)
        } else {
            match self.store.snapshot {
                None => Outcome::failed(
                    self,
                    error::corrupt("snapshot metadata present but bytes missing"@),
                ),
                Some(bytes) => Outcome::ok(
                    self.send(
                        peer,
                        MessageView::InstallSnapshot(
                            InstallView {
                                term: self.term(),
                                leader_id: self.config.id,
                                last_index: self.store.base.last_index,
                                last_term: self.store.base.last_term,
                                data: bytes.data,
                                config: bytes.config,
                            },
                        ),
                    ),
                ),
            }
        }
    }

    pub open spec fn install_reply(self, to: NodeId) -> NodeState {
        self.send(
            to,
            MessageView::InstallSnapshotResp(InstallSnapshotResp { term: self.term() }),
        )
    }

    /// The node with a leader's snapshot in place of what it covers.
    pub open spec fn install(self, req: InstallView) -> Outcome {
        let meta = SnapshotMeta { last_index: req.last_index, last_term: req.last_term };
        let node = NodeState {
            store: self.store.save(meta, req.data, req.config),
            commit_index: req.last_index,
            last_applied: req.last_index,
            ..self
        };
        match voters_of(req.config) {
            Err(fault) => Outcome::failed(node, fault),
            Ok(voters) => {
                let voting = NodeState { voters, ..node }.recompute_voters();
                if voting.fault is Some {
                    voting
                } else {
                    Outcome::ok(
                        NodeState { restore_buf: Some((meta, req.data)), ..voting.node },
                    )
                }
            },
        }
    }

    pub open spec fn handle_install_snapshot(self, from: NodeId, req: InstallView) -> Outcome {
        if req.term < self.term() {
            Outcome::ok(self.install_reply(from))
        } else {
            let node = self.become_follower(req.term, Some(req.leader_id));
            if req.last_index <= node.store.base.last_index || req.last_index
                <= node.commit_index {
                Outcome::ok(node.install_reply(from))
            } else {
                let installed = node.install(req);
                if installed.fault is Some {
                    installed
                } else {
                    Outcome::ok(installed.node.install_reply(from))
                }
            }
        }
    }

    pub open spec fn handle_install_snapshot_resp(
        self,
        from: NodeId,
        resp: InstallSnapshotResp,
    ) -> Outcome {
        if resp.term > self.term() {
            Outcome::ok(self.become_follower(resp.term, None))
        } else if self.role != Role::Leader {
            Outcome::ok(self)
        } else {
            let base = self.store.base.last_index;
            let matched = if self.matched(from) > base {
                self.matched(from)
            } else {
                base
            };
            NodeState {
                match_index: self.match_index.insert(from, matched),
                next_index: self.next_index.insert(from, (base + 1) as u64),
                ..self
            }.send_append(from)
        }
    }

    // ---- events ----

    /// A node that has just been started over what its store holds.
    pub open spec fn started(config: ConfigView, store: Durable) -> Outcome {
        NodeState {
            config,
            store,
            role: Role::Follower,
            leader: None,
            voters: Set::empty(),
            commit_index: store.base.last_index,
            last_applied: store.base.last_index,
            elapsed: 0,
            election_deadline: 0,
            heartbeat_elapsed: 0,
            votes: Set::empty(),
            next_index: Map::empty(),
            match_index: Map::empty(),
            inflight: Map::empty(),
            send_count: Map::empty(),
            ack_count: Map::empty(),
            pending_reads: Seq::empty(),
            readable_term: None,
            rng: config.seed ^ config.id,
            outbox: Seq::empty(),
            apply_buf: Seq::empty(),
            reads_buf: Seq::empty(),
            restore_buf: None,
        }.reset_election_timer().recompute_voters()
    }

    pub open spec fn tick(self) -> Outcome {
        let ticked = if self.role == Role::Leader {
            if self.heartbeat_elapsed + 1 >= self.config.heartbeat_interval {
                NodeState { heartbeat_elapsed: 0, ..self }.broadcast_append()
            } else {
                Outcome::ok(
                    NodeState { heartbeat_elapsed: (self.heartbeat_elapsed + 1) as u64, ..self },
                )
            }
        } else {
            let node = NodeState { elapsed: (self.elapsed + 1) as u64, ..self };
            if node.elapsed >= node.election_deadline {
                node.start_prevote()
            } else {
                Outcome::ok(node)
            }
        };
        if ticked.fault is Some {
            ticked
        } else {
            Outcome::ok(ticked.node.release_reads())
        }
    }

    pub open spec fn step(self, from: NodeId, message: MessageView) -> Outcome {
        match message {
            MessageView::RequestVote(req) => Outcome::ok(self.handle_request_vote(from, req)),
            MessageView::RequestVoteResp(resp) => self.handle_vote_resp(from, resp),
            MessageView::AppendEntries(req) => self.handle_append_entries(from, req),
            MessageView::AppendEntriesResp(resp) => self.handle_append_resp(from, resp),
            MessageView::InstallSnapshot(req) => self.handle_install_snapshot(from, req),
            MessageView::InstallSnapshotResp(resp) => self.handle_install_snapshot_resp(
                from,
                resp,
            ),
        }
    }

    /// The log can take what a message brings without running over the
    /// largest index.
    pub open spec fn has_room_for(self, message: MessageView) -> bool {
        match message {
            MessageView::AppendEntries(req) => self.store.last_index() + req.entries.len()
                < u64::MAX,
            MessageView::InstallSnapshot(req) => req.last_index < u64::MAX,
            _ => true,
        }
    }

    /// The node with everything handed out that was meant for the caller.
    pub open spec fn drained(self) -> NodeState {
        NodeState {
            outbox: Seq::empty(),
            apply_buf: Seq::empty(),
            reads_buf: Seq::empty(),
            restore_buf: None,
            ..self
        }
    }
}

/// Whether an entry of `term` is among `entries`.
pub open spec fn has_term(entries: Seq<EntryView>, term: Term) -> bool {
    exists|i: int| 0 <= i < entries.len() && (#[trigger] entries[i]).term == term
}

} // verus!
