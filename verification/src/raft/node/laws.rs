//! What holds of a node whatever happens to it.

use vstd::prelude::*;

use crate::raft::node::state::{
    self, ConfChange, ConfigView, NodeState, Outcome, ReadToken, ReadView, Role,
};
use crate::raft::rpc::{
    AppendEntriesResp, AppendView, InstallSnapshotResp, InstallView, MessageView, RequestVoteResp,
};
use crate::raft::storage::Durable;
use crate::raft::types::{EntryType, EntryView, HardState, LogIndex, NodeId, Term};

verus! {

/// Everything that can happen to a node.
#[verifier::ext_equal]
pub enum Event {
    Tick,
    Step(NodeId, MessageView),
    Propose(Seq<u8>),
    ProposeConfChange(ConfChange),
    ReadIndex(ReadToken),
    Compact(LogIndex, Seq<u8>),
    Ready,
}

impl NodeState {
    /// What an event makes of the node.
    pub open spec fn after(self, event: Event) -> Outcome {
        match event {
            Event::Tick => self.tick(),
            Event::Step(from, message) => self.step(from, message),
            Event::Propose(command) => self.propose(command),
            Event::ProposeConfChange(change) => self.propose_conf_change(change),
            Event::ReadIndex(token) => self.read_index(token),
            Event::Compact(index, data) => self.compact(index, data),
            Event::Ready => Outcome::ok(self.drained()),
        }
    }

    /// The node can take the event without a counter running over.
    pub open spec fn admits(self, event: Event) -> bool {
        &&& self.wf()
        &&& self.has_room()
        &&& event matches Event::Step(_, message) ==> self.has_room_for(message)
    }
}

/// A later hard state: in a higher term, or in the same term with the vote
/// kept once it is cast.
pub open spec fn hard_state_follows(before: HardState, after: HardState) -> bool {
    ||| after.current_term > before.current_term
    ||| {
        &&& after.current_term == before.current_term
        &&& before.voted_for is Some ==> after.voted_for == before.voted_for
    }
}

/// Sending changes nothing but what is in flight, the counts and the outbox.
pub(crate) proof fn sending_frame(node: NodeState, peers: Seq<NodeId>)
    ensures
        ({
            let sent = node.send_append_each(peers).node;
            sent == (NodeState {
                inflight: sent.inflight,
                send_count: sent.send_count,
                outbox: sent.outbox,
                ..node
            })
        }),
    decreases peers.len(),
{
    if peers.len() > 0 {
        sending_frame(node, peers.drop_last());
    }
}

/// What committing leaves alone.
pub(crate) proof fn commit_frame(node: NodeState)
    ensures
        node.advance_commit().store == node.store,
        node.advance_commit().voters == node.voters,
        node.advance_commit().config == node.config,
        node.advance_commit().votes == node.votes,
        node.advance_commit().commit_index >= node.commit_index,
        node.advance_commit().last_applied >= node.last_applied,
{
    commit_bounds(node, node.store.last_index() as nat);
}

pub(crate) proof fn commit_bounds(node: NodeState, index: nat)
    ensures
        node.commit_index <= node.commit_up_to(index),
        node.commit_up_to(index) <= index || node.commit_up_to(index) == node.commit_index,
        node.commit_up_to(index) > node.commit_index ==> node.committable(
            node.commit_up_to(index),
        ),
        forall|n: nat|
            node.commit_up_to(index) < n <= index ==> !#[trigger] node.committable(n),
    decreases index,
{
    if index > node.commit_index && !node.committable(index) {
        commit_bounds(node, (index - 1) as nat);
    }
}

/// What winning an election leaves behind.
pub(crate) proof fn leading_frame(node: NodeState)
    ensures
        node.become_leader().node.store == node.store.append(seq![node.noop()]),
        node.become_leader().node.voters == node.voters,
        node.become_leader().node.config == node.config,
        node.become_leader().node.votes == node.votes,
        node.become_leader().node.commit_index >= node.commit_index,
        node.become_leader().node.last_applied >= node.last_applied,
{
    let crowned = node.crowned();
    sending_frame(crowned, crowned.others());
    commit_frame(crowned.broadcast_append().node);
}

/// How a node may change: forward.
pub open spec fn evolves(a: NodeState, b: NodeState) -> bool {
    &&& hard_state_follows(a.store.hs, b.store.hs)
    &&& a.commit_index <= b.commit_index
    &&& a.last_applied <= b.last_applied
    &&& a.store.base.last_index <= b.store.base.last_index
    &&& a.config == b.config
}

proof fn candidate_frame(node: NodeState)
    requires
        node.term() < u64::MAX,
    ensures
        node.become_candidate().node.term() == node.term() + 1,
        node.become_candidate().node.store.hs.voted_for == Some(node.config.id),
        evolves(node, node.become_candidate().node),
{
    let term = (node.term() + 1) as u64;
    let standing = NodeState { role: Role::Candidate, votes: node.own_vote(), ..node }
        .with_hard_state(HardState { current_term: term, voted_for: Some(node.config.id) })
        .reset_election_timer()
        .send_each(node.others(), node.vote_request(term, false));
    leading_frame(standing);
}

proof fn tick_evolves(node: NodeState)
    requires
        node.wf(),
        node.has_room(),
    ensures
        evolves(node, node.tick().node),
{
    let beat = NodeState { heartbeat_elapsed: 0, ..node };
    sending_frame(beat, beat.others());
    let waited = NodeState { elapsed: (node.elapsed + 1) as u64, ..node };
    let asked = NodeState {
        role: Role::PreCandidate,
        leader: None,
        votes: waited.own_vote(),
        ..waited
    }.send_each(
        waited.others(),
        waited.vote_request((waited.term() + 1) as u64, true),
    ).reset_election_timer();
    candidate_frame(asked);
    assert(evolves(node, asked));
}

proof fn vote_resp_evolves(node: NodeState, from: NodeId, resp: RequestVoteResp)
    requires
        node.wf(),
        node.has_room(),
    ensures
        evolves(node, node.handle_vote_resp(from, resp).node),
{
    let counted = NodeState { votes: node.votes.insert(from), ..node };
    candidate_frame(counted);
    leading_frame(counted);
}

proof fn append_evolves(node: NodeState, from: NodeId, req: AppendView)
    requires
        node.wf(),
    ensures
        evolves(node, node.handle_append_entries(from, req).node),
{
    let following = node.become_follower(req.term, Some(req.leader_id));
    let adopted = following.adopt_entries(req.entries);
    assert(adopted.node.store.hs == following.store.hs);
    assert(adopted.node.store.base == following.store.base);
}

proof fn append_resp_evolves(node: NodeState, from: NodeId, resp: AppendEntriesResp)
    requires
        node.wf(),
    ensures
        evolves(node, node.handle_append_resp(from, resp).node),
{
    commit_frame(node.acknowledged(from));
}

proof fn install_evolves(node: NodeState, from: NodeId, req: InstallView)
    requires
        node.wf(),
    ensures
        evolves(node, node.handle_install_snapshot(from, req).node),
{
}

proof fn propose_evolves(node: NodeState, command: Seq<u8>)
    ensures
        evolves(node, node.propose(command).node),
{
    let own = node.with_own_entry(
        EntryView {
            term: node.term(),
            index: (node.store.last_index() + 1) as u64,
            command,
            entry_type: EntryType::Normal,
        },
    );
    sending_frame(own, own.others());
    commit_frame(own.broadcast_append().node);
}

proof fn conf_change_evolves(node: NodeState, change: ConfChange)
    ensures
        evolves(node, node.propose_conf_change(change).node),
{
    let voting = node.with_own_entry(
        EntryView {
            term: node.term(),
            index: (node.store.last_index() + 1) as u64,
            command: state::voters_bytes(node.changed_voters(change)),
            entry_type: EntryType::ConfigChange,
        },
    ).recompute_voters();
    let seeded = voting.node.seeded(change);
    sending_frame(seeded, seeded.others());
}

proof fn read_evolves(node: NodeState, token: ReadToken)
    ensures
        evolves(node, node.read_index(token).node),
{
    let asked = NodeState {
        pending_reads: node.pending_reads.push(
            ReadView { token, floor: node.commit_index, barrier: node.send_count },
        ),
        ..node
    };
    sending_frame(asked, asked.others());
}

proof fn step_evolves(node: NodeState, from: NodeId, message: MessageView)
    requires
        node.wf(),
        node.has_room(),
    ensures
        evolves(node, node.step(from, message).node),
{
    match message {
        MessageView::RequestVote(req) => {},
        MessageView::RequestVoteResp(resp) => vote_resp_evolves(node, from, resp),
        MessageView::AppendEntries(req) => append_evolves(node, from, req),
        MessageView::AppendEntriesResp(resp) => append_resp_evolves(node, from, resp),
        MessageView::InstallSnapshot(req) => install_evolves(node, from, req),
        MessageView::InstallSnapshotResp(resp) => {},
    }
}

/// A node only ever moves forward, whatever happens to it: it never returns to
/// an earlier term, never changes or takes back a vote within a term, and
/// neither its commit index, nor what it has applied, nor its snapshot goes
/// back.
pub proof fn a_node_moves_forward(node: NodeState, event: Event)
    requires
        node.admits(event),
    ensures
        evolves(node, node.after(event).node),
{
    match event {
        Event::Tick => tick_evolves(node),
        Event::Step(from, message) => step_evolves(node, from, message),
        Event::Propose(command) => propose_evolves(node, command),
        Event::ProposeConfChange(change) => conf_change_evolves(node, change),
        Event::ReadIndex(token) => read_evolves(node, token),
        Event::Compact(index, data) => {},
        Event::Ready => {},
    }
}

/// While a node leads, its log only grows: what it holds stays where it is,
/// until it is compacted into a snapshot.
pub proof fn a_leader_keeps_its_log(node: NodeState, event: Event)
    requires
        node.admits(event),
        node.role == Role::Leader,
        node.after(event).node.role == Role::Leader,
    ensures
        forall|i: LogIndex|
            #![trigger node.store.holds(i)]
            node.store.holds(i) && i > node.after(event).node.store.base.last_index ==> {
                &&& node.after(event).node.store.holds(i)
                &&& node.after(event).node.store.at(i) == node.store.at(i)
            },
{
    match event {
        Event::Tick => {
            let beat = NodeState { heartbeat_elapsed: 0, ..node };
            sending_frame(beat, beat.others());
        },
        Event::Step(from, message) => leader_step_keeps(node, from, message),
        Event::Propose(command) => {
            let own = node.with_own_entry(
                EntryView {
                    term: node.term(),
                    index: (node.store.last_index() + 1) as u64,
                    command,
                    entry_type: EntryType::Normal,
                },
            );
            sending_frame(own, own.others());
            commit_frame(own.broadcast_append().node);
        },
        Event::ProposeConfChange(change) => {
            let voting = node.with_own_entry(
                EntryView {
                    term: node.term(),
                    index: (node.store.last_index() + 1) as u64,
                    command: state::voters_bytes(node.changed_voters(change)),
                    entry_type: EntryType::ConfigChange,
                },
            ).recompute_voters();
            let seeded = voting.node.seeded(change);
            sending_frame(seeded, seeded.others());
        },
        Event::ReadIndex(token) => {
            let asked = NodeState {
                pending_reads: node.pending_reads.push(
                    ReadView { token, floor: node.commit_index, barrier: node.send_count },
                ),
                ..node
            };
            sending_frame(asked, asked.others());
        },
        Event::Compact(index, data) => {},
        Event::Ready => {},
    }
}

proof fn leader_step_keeps(node: NodeState, from: NodeId, message: MessageView)
    requires
        node.role == Role::Leader,
        node.step(from, message).node.role == Role::Leader,
    ensures
        node.step(from, message).node.store.entries == node.store.entries,
        node.step(from, message).node.store.base == node.store.base,
{
    match message {
        MessageView::RequestVote(req) => {},
        MessageView::RequestVoteResp(resp) => {},
        MessageView::AppendEntries(req) => append_follows(node, from, req),
        MessageView::AppendEntriesResp(resp) => append_resp_keeps(node, from, resp),
        MessageView::InstallSnapshot(req) => install_follows(node, from, req),
        MessageView::InstallSnapshotResp(resp) => {},
    }
}

proof fn append_resp_keeps(node: NodeState, from: NodeId, resp: AppendEntriesResp)
    ensures
        node.handle_append_resp(from, resp).node.store.entries == node.store.entries,
        node.handle_append_resp(from, resp).node.store.base == node.store.base,
{
    commit_frame(node.acknowledged(from));
}

proof fn append_follows(node: NodeState, from: NodeId, req: AppendView)
    ensures
        req.term >= node.term() ==> node.handle_append_entries(from, req).node.role
            == Role::Follower,
{
}

proof fn install_follows(node: NodeState, from: NodeId, req: InstallView)
    ensures
        req.term >= node.term() ==> node.handle_install_snapshot(from, req).node.role
            == Role::Follower,
{
}

/// A leader commits only what a majority of the voters holds and what is of
/// its own term, and it commits the highest such index.
pub proof fn a_majority_holds_what_is_committed(node: NodeState)
    requires
        node.wf(),
        node.role == Role::Leader,
    ensures
        ({
            let commit = node.advance_commit().commit_index;
            &&& commit >= node.commit_index
            &&& commit > node.commit_index ==> node.committable(commit as nat)
            &&& forall|n: nat|
                commit < n <= node.store.last_index() ==> !#[trigger] node.committable(n)
        }),
{
    commit_bounds(node, node.store.last_index() as nat);
}

/// Committed entries are handed out in log order, each once: first the one
/// behind what was applied or snapshotted, then one after the other up to the
/// commit index.
pub proof fn entries_are_applied_in_order(node: NodeState)
    requires
        node.wf(),
        node.last_applied < node.commit_index,
    ensures
        ({
            let after = node.advance_apply();
            let entries = node.unapplied();
            let from = if node.last_applied > node.store.base.last_index {
                node.last_applied
            } else {
                node.store.base.last_index
            };
            &&& after.apply_buf == node.apply_buf + entries
            &&& after.last_applied == node.commit_index
            &&& forall|i: int|
                0 <= i < entries.len() ==> {
                    &&& (#[trigger] entries[i]).index == from + 1 + i
                    &&& entries[i].index <= node.commit_index
                    &&& entries[i] == node.store.at(entries[i].index)
                }
            &&& from <= node.commit_index <= node.store.last_index() ==> entries.len()
                == node.commit_index - from
        }),
{
}

// ---- starting ----

/// A node that stops and starts again over its store comes back as it was
/// stored: with its term, vote, log and snapshot, as a follower that knows no
/// leader, and with nothing committed or applied beyond the snapshot. All it
/// takes is a membership that can be read.
pub proof fn a_start_recovers_what_was_stored(config: ConfigView, store: Durable)
    requires
        state::membership(store, config.peers) is Ok,
    ensures
        ({
            let started = NodeState::started(config, store);
            let node = started.node;
            &&& started.fault is None
            &&& node.config == config
            &&& node.store == store
            &&& node.voters == state::membership(store, config.peers)->Ok_0
            &&& node.role == Role::Follower
            &&& node.leader is None
            &&& node.commit_index == store.base.last_index
            &&& node.last_applied == store.base.last_index
            &&& node.votes.len() == 0
            &&& node.outbox.len() == 0
            &&& node.apply_buf.len() == 0
            &&& node.reads_buf.len() == 0
            &&& node.restore_buf is None
        }),
{
}

/// Nothing but the membership keeps a node from starting.
pub proof fn a_start_fails_only_on_membership(config: ConfigView, store: Durable)
    ensures
        NodeState::started(config, store).fault is Some <==> state::membership(
            store,
            config.peers,
        ) is Err,
        state::membership(store, config.peers) matches Err(fault) ==> NodeState::started(
            config,
            store,
        ).fault == Some(fault),
{
}

// ---- following a leader ----

/// `entries` stand one behind the other, the first behind `prev`.
pub open spec fn consecutive(prev: LogIndex, entries: Seq<EntryView>) -> bool {
    forall|k: int| 0 <= k < entries.len() ==> (#[trigger] entries[k]).index == prev + 1 + k
}

/// The node takes the entries of the request: the sender's term is no older,
/// and the logs agree just before the entries.
pub open spec fn agrees_before(node: NodeState, req: AppendView) -> bool {
    &&& req.term >= node.term()
    &&& req.prev_log_index <= node.store.last_index()
    &&& node.store.term_or_zero(req.prev_log_index) == req.prev_log_term
}

pub(crate) proof fn known_before_new(store: Durable, entries: Seq<EntryView>, k: int)
    requires
        0 <= k <= entries.len(),
    ensures
        match state::first_new(store, entries, k) {
            Some(n) => {
                &&& k <= n < entries.len()
                &&& store.term(entries[n].index) != Some(entries[n].term)
                &&& forall|j: int|
                    k <= j < n ==> store.term((#[trigger] entries[j]).index) == Some(
                        entries[j].term,
                    )
            },
            None => forall|j: int|
                k <= j < entries.len() ==> store.term((#[trigger] entries[j]).index) == Some(
                    entries[j].term,
                ),
        },
    decreases entries.len() - k,
{
    if k < entries.len() && store.term(entries[k].index) == Some(entries[k].term) {
        known_before_new(store, entries, k + 1);
    }
}

proof fn filter_all<A>(s: Seq<A>, p: spec_fn(A) -> bool)
    requires
        forall|i: int| 0 <= i < s.len() ==> p(#[trigger] s[i]),
    ensures
        s.filter(p) == s,
    decreases s.len(),
{
    reveal(Seq::filter);
    if s.len() > 0 {
        filter_all(s.drop_last(), p);
        assert(s =~= s.drop_last().push(s.last()));
    }
}

proof fn filter_none<A>(s: Seq<A>, p: spec_fn(A) -> bool)
    requires
        forall|i: int| 0 <= i < s.len() ==> !p(#[trigger] s[i]),
    ensures
        s.filter(p) == Seq::<A>::empty(),
    decreases s.len(),
{
    reveal(Seq::filter);
    if s.len() > 0 {
        filter_none(s.drop_last(), p);
    }
}

pub(crate) proof fn tail_reaches(prev: LogIndex, entries: Seq<EntryView>, k: int)
    requires
        consecutive(prev, entries),
        0 <= k < entries.len(),
    ensures
        state::at_or_after(entries, entries[k].index) == entries.skip(k),
{
    let p = state::reaching(entries[k].index);
    let (a, b) = (entries.take(k), entries.skip(k));
    assert(entries =~= a + b);
    Seq::filter_distributes_over_add(a, b, p);
    filter_none(a, p);
    assert forall|i: int| 0 <= i < b.len() implies p(#[trigger] b[i]) by {
        assert(b[i] == entries[k + i]);
    }
    filter_all(b, p);
    assert(Seq::<EntryView>::empty() + b =~= b);
}

/// The log after consecutive entries were taken.
pub(crate) proof fn adopted_log(node: NodeState, prev: LogIndex, entries: Seq<EntryView>)
    requires
        node.store.wf(),
        consecutive(prev, entries),
        node.store.base.last_index <= prev <= node.store.last_index(),
        node.store.last_index() + entries.len() < u64::MAX,
    ensures
        match state::first_new(node.store, entries, 0) {
            None => node.adopt_entries(entries) == Outcome::ok(node),
            Some(k) => {
                let kept = node.store.entries.take(prev + k - node.store.base.last_index);
                &&& 0 <= k < entries.len()
                &&& node.adopt_entries(entries).node.store == (Durable {
                    entries: kept + entries.skip(k),
                    ..node.store
                })
                &&& node.adopt_entries(entries) == NodeState {
                    store: Durable { entries: kept + entries.skip(k), ..node.store },
                    ..node
                }.recompute_voters()
            },
        },
{
    let store = node.store;
    known_before_new(store, entries, 0);
    match state::first_new(store, entries, 0) {
        None => {},
        Some(k) => {
            let index = entries[k].index;
            assert(index == prev + 1 + k);
            if k > 0 {
                assert(store.term(entries[k - 1].index) == Some(entries[k - 1].term));
                assert(entries[k - 1].index <= store.last_index());
            }
            assert(index <= store.last_index() + 1);
            let cut = if store.term(index) is Some {
                store.truncate(index)
            } else {
                store
            };
            let kept = store.entries.take(prev + k - store.base.last_index);
            assert(cut.entries =~= kept);
            tail_reaches(prev, entries, k);
            let more = entries.skip(k);
            assert forall|i: int| 0 <= i < more.len() implies (#[trigger] more[i]).index
                == cut.last_index() + 1 + i by {
                assert(more[i] == entries[k + i]);
            }
            cut.no_gap(more, 0);
            assert(cut.append(more) =~= Durable { entries: kept + more, ..store });
        },
    }
}

/// After a follower has taken the entries of a request, its log agrees with
/// the leader's over them, and what it held before them is untouched. Entries
/// that stand one behind the other are never refused as out of place.
pub proof fn logs_agree_over_what_was_sent(node: NodeState, from: NodeId, req: AppendView)
    requires
        node.wf(),
        node.has_room_for(MessageView::AppendEntries(req)),
        agrees_before(node, req),
        consecutive(req.prev_log_index, req.entries),
        node.store.base.last_index <= req.prev_log_index,
    ensures
        ({
            let after = node.handle_append_entries(from, req).node.store;
            &&& forall|k: int|
                0 <= k < req.entries.len() ==> after.term((#[trigger] req.entries[k]).index)
                    == Some(req.entries[k].term)
            &&& forall|i: LogIndex|
                i <= req.prev_log_index ==> #[trigger] after.term(i) == node.store.term(i)
            &&& forall|i: LogIndex|
                #![trigger after.holds(i)]
                node.store.holds(i) && i <= req.prev_log_index ==> after.holds(i) && after.at(i)
                    == node.store.at(i)
            &&& after.base == node.store.base
            &&& after.last_index() >= req.prev_log_index + req.entries.len()
        }),
{
    let following = node.become_follower(req.term, Some(req.leader_id));
    assert(following.store.entries == node.store.entries);
    assert(following.store.base == node.store.base);
    adopted_log(following, req.prev_log_index, req.entries);
    known_before_new(following.store, req.entries, 0);
    let adopted = following.adopt_entries(req.entries).node;
    let after = node.handle_append_entries(from, req).node.store;
    assert(following.store.term_or_zero(req.prev_log_index) == req.prev_log_term);
    assert(after == adopted.store);
    match state::first_new(following.store, req.entries, 0) {
        None => {
            if req.entries.len() > 0 {
                let last = req.entries.last();
                assert(req.entries[req.entries.len() - 1] == last);
                assert(following.store.term(last.index) == Some(last.term));
            }
        },
        Some(n) => {
            let kept = following.store.entries.take(
                req.prev_log_index + n - following.store.base.last_index,
            );
            assert(after.entries == kept + req.entries.skip(n));
            assert forall|k: int| 0 <= k < req.entries.len() implies after.term(
                (#[trigger] req.entries[k]).index,
            ) == Some(req.entries[k].term) by {
                let index = req.entries[k].index;
                assert(after.holds(index));
                let at = index - after.base.last_index - 1;
                if k >= n {
                    assert(after.entries[at] == req.entries.skip(n)[k - n]);
                } else {
                    assert(following.store.term(index) == Some(req.entries[k].term));
                    assert(after.entries[at] == following.store.entries[at]);
                }
            }
        },
    }
}

/// Taking the same request once more changes nothing in the log.
pub proof fn a_repeated_request_is_a_no_op(node: NodeState, from: NodeId, req: AppendView)
    requires
        node.wf(),
        node.has_room_for(MessageView::AppendEntries(req)),
        agrees_before(node, req),
        consecutive(req.prev_log_index, req.entries),
        node.store.base.last_index <= req.prev_log_index,
        node.handle_append_entries(from, req).fault is None,
    ensures
        ({
            let once = node.handle_append_entries(from, req).node;
            let twice = once.handle_append_entries(from, req);
            &&& twice.fault is None
            &&& twice.node.store == once.store
            &&& twice.node.voters == once.voters
            &&& twice.node.commit_index == once.commit_index
        }),
{
    let once = node.handle_append_entries(from, req).node;
    logs_agree_over_what_was_sent(node, from, req);
    assert(once.term() == req.term);
    let following = once.become_follower(req.term, Some(req.leader_id));
    assert(following.store == once.store);
    known_before_new(following.store, req.entries, 0);
    match state::first_new(following.store, req.entries, 0) {
        Some(n) => {
            assert(once.store.term(req.entries[n].index) == Some(req.entries[n].term));
        },
        None => {},
    }
    assert(once.store.term(req.prev_log_index) == node.store.term(req.prev_log_index));
}

/// When the logs disagree before the entries, the follower names an index no
/// later than that point, down to which its own term is the one that
/// disagrees: the leader can step over all of it.
pub proof fn a_conflict_covers_one_term(store: Durable, index: nat)
    requires
        index <= u64::MAX,
    ensures
        ({
            let term = store.term_or_zero(index as u64);
            let first = state::first_of_term(store, term, index);
            &&& first <= index
            &&& forall|i: nat|
                first <= i <= index ==> store.term_or_zero(#[trigger] (i as u64)) == term
            &&& first > 1 ==> store.term_or_zero((first - 1) as u64) != term
        }),
{
    conflict_run(store, store.term_or_zero(index as u64), index);
}

proof fn conflict_run(store: Durable, term: Term, index: nat)
    requires
        index <= u64::MAX,
        store.term_or_zero(index as u64) == term,
    ensures
        ({
            let first = state::first_of_term(store, term, index);
            &&& first <= index
            &&& forall|i: nat|
                first <= i <= index ==> store.term_or_zero(#[trigger] (i as u64)) == term
            &&& first > 1 ==> store.term_or_zero((first - 1) as u64) != term
        }),
    decreases index,
{
    if index > 1 && store.term_or_zero((index - 1) as u64) == term {
        conflict_run(store, term, (index - 1) as nat);
    }
}

} // verus!
