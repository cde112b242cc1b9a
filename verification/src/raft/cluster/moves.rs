//! What one event does to the role, the mail and the log of a node.

use vstd::prelude::*;

use crate::raft::ids;
use crate::raft::node::laws::{self, Event};
use crate::raft::node::quorum_laws;
use crate::raft::node::state::{self, NodeState, Role};
use crate::raft::rpc::{AppendEntriesResp, AppendView, MessageView, RequestVoteResp};
use crate::raft::storage::Durable;
use crate::raft::types::{EntryView, HardState, LogIndex, NodeId, Term};

verus! {

// ---- the mail ----

/// A message by which a leader hands on what its store holds, and what of it
/// is committed, as far as `commit`.
pub open spec fn hands_on(store: Durable, commit: LogIndex, message: MessageView) -> bool {
    match message {
        MessageView::AppendEntries(req) => {
            &&& req.term == store.hs.current_term
            &&& req.leader_commit <= commit
            &&& req.prev_log_index >= store.base.last_index
            &&& req.prev_log_index < u64::MAX
            &&& req.prev_log_term == store.term_or_zero(req.prev_log_index)
            &&& req.entries == store.from((req.prev_log_index + 1) as u64)
        },
        MessageView::InstallSnapshot(req) => {
            &&& req.term == store.hs.current_term
            &&& req.last_index == store.base.last_index
            &&& req.last_term == store.base.last_term
        },
        _ => false,
    }
}

/// Where the node thinks that the log of a peer may go on.
pub open spec fn aim(node: NodeState, peer: NodeId) -> LogIndex {
    ids::value_or(node.next_index, peer, 1)
}

/// A message of entries starts where the node thinks that it should.
pub open spec fn aimed(node: NodeState, x: (NodeId, MessageView)) -> bool {
    x.1 matches MessageView::AppendEntries(req) ==> req.prev_log_index + 1 == aim(node, x.0)
}

/// Everything in `after` was in `before`, or hands on to one of the peers what
/// the node holds.
pub open spec fn mail_hands_on(
    before: Seq<(NodeId, MessageView)>,
    after: Seq<(NodeId, MessageView)>,
    node: NodeState,
    peers: Seq<NodeId>,
) -> bool {
    forall|x: (NodeId, MessageView)| #[trigger]
        after.contains(x) ==> before.contains(x) || {
            &&& hands_on(node.store, node.commit_index, x.1)
            &&& aimed(node, x)
            &&& peers.contains(x.0)
        }
}

pub(crate) proof fn pushed(s: Seq<(NodeId, MessageView)>, x: (NodeId, MessageView))
    ensures
        forall|y: (NodeId, MessageView)| #[trigger]
            s.push(x).contains(y) ==> s.contains(y) || y == x,
{
    assert forall|y: (NodeId, MessageView)| #[trigger] s.push(x).contains(y) implies s.contains(y)
        || y == x by {
        let i = choose|i: int| 0 <= i < s.push(x).len() && s.push(x)[i] == y;
        if i < s.len() {
            assert(s[i] == y);
        }
    }
}

pub(crate) proof fn one_append(node: NodeState, peer: NodeId)
    ensures
        mail_hands_on(
            node.outbox,
            node.send_append(peer).node.outbox,
            node,
            seq![peer],
        ),
        node.send_append(peer).node == (NodeState {
            inflight: node.send_append(peer).node.inflight,
            send_count: node.send_append(peer).node.send_count,
            outbox: node.send_append(peer).node.outbox,
            ..node
        }),
{
    let sent = node.send_append(peer).node;
    if sent.outbox != node.outbox {
        let x = sent.outbox.last();
        assert(seq![peer][0] == peer);
        pushed(node.outbox, x);
        assert(sent.outbox =~= node.outbox.push(x));
    }
}

pub(crate) proof fn each_append(node: NodeState, peers: Seq<NodeId>)
    ensures
        mail_hands_on(
            node.outbox,
            node.send_append_each(peers).node.outbox,
            node,
            peers,
        ),
    decreases peers.len(),
{
    if peers.len() > 0 {
        let before = node.send_append_each(peers.drop_last());
        each_append(node, peers.drop_last());
        laws::sending_frame(node, peers.drop_last());
        if before.fault is None {
            one_append(before.node, peers.last());
        }
        assert forall|x: (NodeId, MessageView)| #[trigger]
            node.send_append_each(peers).node.outbox.contains(x) && !node.outbox.contains(
                x,
            ) implies hands_on(node.store, node.commit_index, x.1) && aimed(node, x)
            && peers.contains(x.0) by {
            if before.node.outbox.contains(x) {
                let i = choose|i: int| 0 <= i < peers.len() - 1 && peers.drop_last()[i] == x.0;
                assert(peers[i] == x.0);
            } else {
                assert(seq![peers.last()].contains(x.0));
                assert(peers[peers.len() - 1] == x.0);
            }
        }
    }
}

/// Committing sends nothing, and commits what a majority holds.
pub(crate) proof fn committing_is_silent(node: NodeState)
    requires
        node.voters.finite(),
    ensures
        node.advance_commit().outbox == node.outbox,
        node.advance_commit().store == node.store,
        node.advance_commit().match_index == node.match_index,
        node.advance_commit().next_index == node.next_index,
        node.advance_commit().commit_index >= node.commit_index,
        commit_step(node, node.advance_commit()),
{
    laws::commit_frame(node);
    laws::commit_bounds(node, node.store.last_index() as nat);
}

// ---- coming to lead ----

/// A node that has just been elected goes on leading: nothing is committed by
/// its election unless it is a voter itself.
proof fn crowned_stays(node: NodeState)
    requires
        node.voters.finite(),
    ensures
        node.become_leader().node.role == Role::Leader,
{
    let crowned = node.crowned();
    laws::sending_frame(crowned, crowned.others());
    let sent = crowned.broadcast_append().node;
    if crowned.broadcast_append().fault is None && !sent.voters.contains(sent.config.id) {
        let last = sent.store.last_index() as nat;
        assert forall|index: nat| index > sent.commit_index implies !#[trigger] sent.committable(
            index,
        ) by {
            let held = state::holding(sent.match_index, index);
            assert(sent.voters.filter(held) =~= Set::empty()) by {
                assert forall|p: NodeId| !sent.voters.filter(held).contains(p) by {
                    if sent.voters.contains(p) {
                        assert(node.for_others(0).contains_key(p));
                        assert(ids::value_or(sent.match_index, p, 0) == 0);
                    }
                }
            }
            assert(sent.replicas(index) == 0);
        }
        nothing_to_commit(sent, last);
    }
}

proof fn nothing_to_commit(node: NodeState, index: nat)
    requires
        forall|n: nat| n > node.commit_index ==> !#[trigger] node.committable(n),
    ensures
        node.commit_up_to(index) == node.commit_index,
    decreases index,
{
    if index > node.commit_index {
        nothing_to_commit(node, (index - 1) as nat);
    }
}

/// A leader aims at no voter from behind its own log.
pub open spec fn aims_stay(b: NodeState) -> bool {
    forall|p: NodeId| b.voters.contains(p) ==> #[trigger] aim(b, p) <= b.store.last_index() + 1
}

/// What winning an election does.
pub(crate) proof fn winning(node: NodeState)
    requires
        node.voters.finite(),
        node.store.wf(),
        node.store.last_index() < u64::MAX - 1,
    ensures
        ({
            let b = node.become_leader().node;
            &&& b.role == Role::Leader
            &&& b.config == node.config
            &&& b.voters == node.voters
            &&& b.votes == node.votes
            &&& b.store == node.store.append(seq![node.noop()])
            &&& mail_hands_on(node.outbox, b.outbox, b, b.others())
            &&& aims_stay(b)
            &&& commit_step(node, b)
        }),
{
    crowned_stays(node);
    laws::leading_frame(node);
    let crowned = node.crowned();
    each_append(crowned, crowned.others());
    laws::sending_frame(crowned, crowned.others());
    committing_is_silent(crowned.broadcast_append().node);
    let b = node.become_leader().node;
    assert(b.store.last_index() == node.store.last_index() + 1);
    assert(b.next_index == crowned.next_index);
    assert forall|p: NodeId| b.voters.contains(p) implies #[trigger] aim(b, p)
        <= b.store.last_index() + 1 by {
        if p != node.config.id {
            assert(node.for_others((node.store.last_index() + 1) as u64).contains_key(p));
        }
    }
}

/// A request for a vote in an election, not for a pre-vote, by a candidate
/// with this log.
pub open spec fn asks(message: MessageView, term: Term, candidate: NodeId, log: Durable) -> bool {
    message matches MessageView::RequestVote(req) && !req.pre_vote && req.term == term
        && req.candidate_id == candidate && req.last_log_index == log.last_index()
        && req.last_log_term == log.last_term()
}

/// Mail that has nothing to do with votes in an election, nor with the log.
pub open spec fn idle_mail(message: MessageView) -> bool {
    match message {
        MessageView::RequestVote(req) => req.pre_vote,
        MessageView::RequestVoteResp(resp) => resp.pre_vote || !resp.vote_granted,
        _ => false,
    }
}

/// Mail of a node that stands for election: requests to voters, and what it
/// hands on if it has won.
pub open spec fn standing_mail(a: NodeState, b: NodeState, x: (NodeId, MessageView)) -> bool {
    ||| idle_mail(x.1)
    ||| asks(x.1, b.term(), b.config.id, a.store) && b.voters.contains(x.0)
    ||| hands_on(b.store, b.commit_index, x.1) && b.role == Role::Leader && aimed(b, x)
        && b.voters.contains(x.0) && x.0 != b.config.id
}

/// A fresh candidacy: in a new term, with the node's own vote, and won at once
/// if that decides.
pub open spec fn stands(a: NodeState, b: NodeState) -> bool {
    &&& b.config == a.config
    &&& b.voters == a.voters
    &&& b.term() == a.term() + 1
    &&& b.store.hs.voted_for == Some(a.config.id)
    &&& b.votes == a.own_vote()
    &&& b.role == Role::Candidate || b.role == Role::Leader
    &&& b.role == Role::Leader ==> b.votes.len() >= state::majority(b.voters.len())
    &&& b.role == Role::Leader ==> b.store.base == a.store.base && b.store.entries
        == a.store.entries.push(own_entry(a, b))
    &&& b.role == Role::Candidate ==> b.store.base == a.store.base && b.store.entries
        == a.store.entries
    &&& forall|x: (NodeId, MessageView)| #[trigger]
        b.outbox.contains(x) ==> a.outbox.contains(x) || standing_mail(a, b, x)
    &&& commit_step(a, b)
    &&& b.role == Role::Leader ==> aims_stay(b)
}

/// The last entry of `b`, at the place behind the last of `a`.
pub open spec fn own_entry(a: NodeState, b: NodeState) -> EntryView {
    EntryView {
        term: b.term(),
        index: (a.store.last_index() + 1) as u64,
        ..b.store.entries.last()
    }
}

pub(crate) proof fn asked_are_voters(node: NodeState)
    requires
        node.voters.finite(),
    ensures
        forall|i: int|
            0 <= i < node.others().len() ==> node.voters.contains(#[trigger] node.others()[i])
                && node.others()[i] != node.config.id,
{
    quorum_laws::has_listing(node.voters);
    let all = ids::ascending(node.voters);
    assert forall|i: int| 0 <= i < node.others().len() implies node.voters.contains(
        #[trigger] node.others()[i],
    ) && node.others()[i] != node.config.id by {
        all.lemma_filter_pred(state::except(node.config.id), i);
        all.lemma_filter_contains_rev(state::except(node.config.id), node.others()[i]);
        assert(all.to_set().contains(node.others()[i]));
    }
}

pub(crate) proof fn standing(node: NodeState)
    requires
        node.voters.finite(),
        node.term() < u64::MAX,
        node.store.wf(),
        node.store.last_index() < u64::MAX - 1,
    ensures
        stands(node, node.become_candidate().node),
{
    let term = (node.term() + 1) as u64;
    let asked = node.vote_request(term, false);
    let mid = NodeState { role: Role::Candidate, votes: node.own_vote(), ..node }
        .with_hard_state(HardState { current_term: term, voted_for: Some(node.config.id) })
        .reset_election_timer()
        .send_each(node.others(), asked);
    let b = node.become_candidate().node;
    let requests = node.others().map_values(|p: NodeId| (p, asked));
    asked_are_voters(node);
    assert(mid.outbox == node.outbox + requests);
    assert forall|x: (NodeId, MessageView)| #[trigger] mid.outbox.contains(x) implies
        node.outbox.contains(x) || (asks(x.1, term, node.config.id, node.store)
        && node.voters.contains(x.0)) by {
        let i = choose|i: int| 0 <= i < mid.outbox.len() && mid.outbox[i] == x;
        if i < node.outbox.len() {
            assert(node.outbox[i] == x);
        } else {
            assert(requests[i - node.outbox.len()] == x);
            assert(node.others()[i - node.outbox.len()] == x.0);
        }
    }
    if mid.votes.len() >= mid.quorum() {
        winning(mid);
        asked_are_voters(b);
        assert(b.store.entries =~= node.store.entries.push(mid.noop()));
        assert(b.store.entries.last() == mid.noop());
        assert(own_entry(node, b) == mid.noop());
    }
}

// ---- one event ----

/// A candidacy that began with this event.
pub open spec fn fresh(a: NodeState, b: NodeState) -> bool {
    &&& b.term() > a.term()
    &&& b.store.hs.voted_for == Some(b.config.id)
    &&& b.role == Role::Candidate || b.role == Role::Leader
    &&& b.voters == a.voters
    &&& b.votes == b.own_vote()
}

/// The voter whose vote an event brings to a candidate.
pub open spec fn vote_brought(a: NodeState, event: Event) -> Option<NodeId> {
    match event {
        Event::Step(from, MessageView::RequestVoteResp(resp)) => if !resp.pre_vote
            && resp.vote_granted && resp.term == a.term() {
            Some(from)
        } else {
            None
        },
        _ => None,
    }
}

/// The candidacy that `a` was in goes on in `b`, with the vote that the event
/// brings.
pub open spec fn goes_on(a: NodeState, event: Event, b: NodeState) -> bool {
    &&& a.role == Role::Candidate
    &&& b.term() == a.term()
    &&& b.voters == a.voters
    &&& b.votes == match vote_brought(a, event) {
        Some(v) => a.votes.insert(v),
        None => a.votes,
    }
}

/// How a role may change.
pub open spec fn role_step(a: NodeState, event: Event, b: NodeState) -> bool {
    &&& b.role == Role::Candidate ==> fresh(a, b) || goes_on(a, event, b)
    &&& b.role == Role::Leader && a.role != Role::Leader ==> {
        &&& fresh(a, b) || goes_on(a, event, b)
        &&& b.votes.len() >= state::majority(b.voters.len())
        &&& b.store.base == a.store.base
        &&& b.store.entries == a.store.entries.push(own_entry(a, b))
    }
    &&& b.role == Role::Leader && a.role == Role::Leader ==> b.term() == a.term()
}

/// A vote that an event makes the node grant.
pub open spec fn grants_vote(event: Event, b: NodeState, x: (NodeId, MessageView)) -> bool {
    match event {
        Event::Step(from, MessageView::RequestVote(req)) => {
            &&& !req.pre_vote
            &&& x == (from, MessageView::RequestVoteResp(
                RequestVoteResp { term: req.term, vote_granted: true, pre_vote: false },
            ))
            &&& b.term() == req.term
            &&& b.store.hs.voted_for == Some(req.candidate_id)
        },
        _ => false,
    }
}

/// The node leads, or led until this moment, in the term of `b`.
pub open spec fn leads(a: NodeState, b: NodeState) -> bool {
    b.role == Role::Leader || (a.role == Role::Leader && a.term() == b.term())
}

/// If the answer points anywhere, it points at what the request was sent from
/// or before it, and is of the request's term.
pub open spec fn points_back(req: AppendView, resp: AppendEntriesResp) -> bool {
    resp.conflict_index matches Some(k) ==> resp.term == req.term && k <= req.prev_log_index
}

/// An answer to a message that brings a log.
pub open spec fn log_reply(event: Event, x: (NodeId, MessageView)) -> bool {
    match event {
        Event::Step(from, MessageView::AppendEntries(req)) => {
            &&& x.0 == from
            &&& x.1 matches MessageView::AppendEntriesResp(resp) && points_back(req, resp)
        },
        Event::Step(from, MessageView::InstallSnapshot(_)) => {
            &&& x.0 == from
            &&& x.1 is InstallSnapshotResp
        },
        _ => false,
    }
}

/// The event brings an answer about the log.
pub open spec fn brings_answer(event: Event) -> bool {
    event matches Event::Step(_, message) && (message is AppendEntriesResp
        || message is InstallSnapshotResp)
}

/// The event brings an answer of the peer.
pub open spec fn answered(event: Event, peer: NodeId) -> bool {
    event matches Event::Step(from, message) && from == peer && (message is AppendEntriesResp
        || message is InstallSnapshotResp)
}

/// The peer is another voter, or one whose answer the event brings.
pub open spec fn concerns(event: Event, b: NodeState, peer: NodeId) -> bool {
    b.voters.contains(peer) && peer != b.config.id || answered(event, peer)
}

/// Nothing happened to where the node aims at the peer.
pub open spec fn aims_on(a: NodeState, event: Event, b: NodeState, p: NodeId) -> bool {
    &&& a.role == Role::Leader
    &&& aim(b, p) == aim(a, p)
    &&& b.voters.contains(p) ==> a.voters.contains(p)
    &&& answered(event, p) ==> b.outbox == a.outbox
}

/// Where a leader may aim after an event: where it aimed before, within its own
/// log, where an answer says, or behind what it believes that the peer holds.
pub open spec fn aim_step(a: NodeState, event: Event, b: NodeState) -> bool {
    leads(a, b) ==> forall|p: NodeId|
        {
            ||| #[trigger] aim(b, p) <= b.store.last_index() + 1
            ||| aims_on(a, event, b, p)
            ||| a.role != Role::Leader && !b.voters.contains(p) && !answered(event, p)
            ||| a.role == Role::Leader && told(b, event, p)
        }
}

/// The event brings an answer of the peer by which the leader aims.
pub open spec fn told(b: NodeState, event: Event, p: NodeId) -> bool {
    event matches Event::Step(from, MessageView::AppendEntriesResp(resp)) && from == p && resp.term
        == b.term() && {
        ||| resp.success && aim(b, p) == b.matched(p) + 1
        ||| resp.conflict_index matches Some(k) && aim(b, p) == k
    }
}

/// What an event may make a node send.
pub open spec fn new_mail(
    a: NodeState,
    event: Event,
    b: NodeState,
    x: (NodeId, MessageView),
) -> bool {
    ||| idle_mail(x.1)
    ||| fresh(a, b) && asks(x.1, b.term(), b.config.id, a.store) && b.voters.contains(x.0)
    ||| grants_vote(event, b, x)
    ||| log_reply(event, x)
    ||| hands_on(b.store, b.commit_index, x.1) && leads(a, b) && aimed(b, x) && concerns(
        event,
        b,
        x.0,
    )
}

pub open spec fn mail_step(a: NodeState, event: Event, b: NodeState) -> bool {
    forall|x: (NodeId, MessageView)| #[trigger]
        b.outbox.contains(x) ==> a.outbox.contains(x) || new_mail(a, event, b, x)
}

/// What an event may do to the log where it brings none: nothing, add one
/// entry of the leader's own, or move the snapshot up.
pub open spec fn log_step(a: NodeState, b: NodeState) -> bool {
    let (s, t) = (a.store, b.store);
    ||| t.base == s.base && t.entries == s.entries
    ||| {
        &&& t.base == s.base
        &&& t.entries == s.entries.push(own_entry(a, b))
        &&& leads(a, b)
    }
    ||| {
        &&& s.base.last_index < t.base.last_index <= s.last_index()
        &&& t.base.last_index <= a.commit_index
        &&& s.term(t.base.last_index) == Some(t.base.last_term)
        &&& t.entries == s.entries.skip(t.base.last_index - s.base.last_index)
    }
}

/// A majority holds the log of the node up to `index`, as far as it knows.
pub open spec fn believed(b: NodeState, index: LogIndex) -> bool {
    ids::tally(b.voters, state::holding(b.match_index, index as nat)) >= state::majority(
        b.voters.len(),
    )
}

/// What an event may commit where it brings no log: nothing, or what a leader
/// believes that a majority holds, and what is of its own term.
pub open spec fn commit_step(a: NodeState, b: NodeState) -> bool {
    b.commit_index == a.commit_index || {
        &&& b.commit_index > a.commit_index
        &&& leads(a, b)
        &&& b.voters.finite()
        &&& believed(b, b.commit_index)
        &&& b.store.term(b.commit_index) == Some(b.term())
        &&& b.voters.contains(b.config.id) ==> b.role == Role::Leader
    }
}

/// The event asks `a` for its vote, for `k`, whose log is far enough.
pub open spec fn deserves(a: NodeState, event: Event, b: NodeState, k: NodeId) -> bool {
    event matches Event::Step(_, MessageView::RequestVote(req)) && !req.pre_vote
        && req.candidate_id == k && req.term == b.term() && a.log_at_least(req)
}

/// Whom a node may vote for: whom it voted for before, itself, or whoever asks
/// for it and deserves it.
pub open spec fn vote_step(a: NodeState, event: Event, b: NodeState) -> bool {
    b.store.hs.voted_for matches Some(k) ==> {
        ||| a.term() == b.term() && a.store.hs.voted_for == Some(k)
        ||| k == b.config.id
        ||| deserves(a, event, b, k)
    }
}

pub(crate) proof fn replies(a: NodeState, event: Event, b: NodeState, x: (NodeId, MessageView))
    requires
        b.outbox == a.outbox.push(x),
        new_mail(a, event, b, x),
    ensures
        mail_step(a, event, b),
{
    pushed(a.outbox, x);
}

/// Everything that holds of an event that brings no log.
#[verifier::opaque]
pub open spec fn quiet_step(a: NodeState, event: Event, b: NodeState) -> bool {
    &&& role_step(a, event, b)
    &&& mail_step(a, event, b)
    &&& log_step(a, b)
    &&& commit_step(a, b)
    &&& vote_step(a, event, b)
    &&& aim_step(a, event, b)
}

pub(crate) proof fn prevote_step(a: NodeState, node: NodeState, event: Event)
    requires
        a.voters.finite(),
        a.term() < u64::MAX,
        a.store.wf(),
        a.store.last_index() < u64::MAX - 1,
        a.role != Role::Leader,
        !brings_answer(event),
        node == (NodeState { elapsed: node.elapsed, ..a }),
    ensures
        ({
            let b = node.start_prevote().node;
            &&& role_step(a, event, b)
            &&& mail_step(a, event, b)
            &&& log_step(a, b)
            &&& commit_step(a, b)
            &&& vote_step(a, event, b)
            &&& aim_step(a, event, b)
        }),
        node.start_prevote().node.config == a.config,
{
    let asked = node.vote_request((node.term() + 1) as u64, true);
    let requests = node.others().map_values(|p: NodeId| (p, asked));
    let mid = NodeState {
        role: Role::PreCandidate,
        leader: None,
        votes: node.own_vote(),
        ..node
    }.send_each(node.others(), asked).reset_election_timer();
    assert(mid.outbox == a.outbox + requests);
    assert forall|x: (NodeId, MessageView)| #[trigger] mid.outbox.contains(x) implies
        a.outbox.contains(x) || idle_mail(x.1) by {
        let i = choose|i: int| 0 <= i < mid.outbox.len() && mid.outbox[i] == x;
        if i < a.outbox.len() {
            assert(a.outbox[i] == x);
        } else {
            assert(requests[i - a.outbox.len()] == x);
        }
    }
    if mid.votes.len() >= mid.quorum() {
        standing(mid);
        stands_from(a, mid, event);
    }
}

/// A candidacy that follows from a node that differs from `a` in nothing that
/// matters.
pub(crate) proof fn stands_from(a: NodeState, mid: NodeState, event: Event)
    requires
        stands(mid, mid.become_candidate().node),
        mid.config == a.config,
        mid.voters == a.voters,
        mid.store == a.store,
        mid.commit_index == a.commit_index,
        a.role != Role::Leader,
        !brings_answer(event),
        forall|x: (NodeId, MessageView)| #[trigger]
            mid.outbox.contains(x) ==> a.outbox.contains(x) || idle_mail(x.1),
    ensures
        ({
            let b = mid.become_candidate().node;
            &&& role_step(a, event, b)
            &&& mail_step(a, event, b)
            &&& log_step(a, b)
            &&& commit_step(a, b)
            &&& vote_step(a, event, b)
            &&& aim_step(a, event, b)
        }),
{
    let b = mid.become_candidate().node;
    assert(fresh(a, b));
    if b.role == Role::Leader {
        assert(own_entry(a, b) == own_entry(mid, b));
    }
    assert forall|x: (NodeId, MessageView)| #[trigger] b.outbox.contains(x) implies
        a.outbox.contains(x) || new_mail(a, event, b, x) by {
        if !mid.outbox.contains(x) {
            assert(standing_mail(mid, b, x));
        }
    }
}

} // verus!
