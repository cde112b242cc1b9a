//! Replication, by what leaders send and what followers answer.

use vstd::prelude::*;

use crate::raft::node::election_laws;
use crate::raft::node::laws::{self, Event};
use crate::raft::node::state::{self, NodeState, Role};
use crate::raft::rpc::{AppendEntriesResp, AppendView, MessageView};
use crate::raft::storage::Durable;
use crate::raft::types::{EntryType, EntryView, LogIndex, NodeId, Term};

verus! {

/// The index of the last entry of the log.
pub open spec fn end_index(s: Durable) -> int {
    s.base.last_index + s.entries.len()
}

/// The term at an index, as far as the store knows it: of an entry behind the
/// snapshot, or of the last that the snapshot covers. Zero elsewhere.
pub open spec fn term_at(s: Durable, index: int) -> Term {
    if index <= 0 {
        0
    } else if index == s.base.last_index {
        s.base.last_term
    } else if s.base.last_index < index <= end_index(s) {
        s.entries[index - s.base.last_index - 1].term
    } else {
        0
    }
}

/// Where the leader believes that the log of the peer goes on.
pub open spec fn next_for(node: NodeState, peer: NodeId) -> int {
    if node.next_index.contains_key(peer) {
        node.next_index[peer] as int
    } else {
        1
    }
}

/// How much of the log the leader knows the peer to hold.
pub open spec fn known_of(node: NodeState, peer: NodeId) -> int {
    if node.match_index.contains_key(peer) {
        node.match_index[peer] as int
    } else {
        0
    }
}

/// The message tells the peer all that the leader has from where the peer's log
/// goes on, with the entry before that and what is committed; where that is no
/// longer in the log, it brings the snapshot.
pub open spec fn tells(node: NodeState, peer: NodeId, message: MessageView) -> bool {
    let (s, next) = (node.store, next_for(node, peer));
    if next <= s.base.last_index {
        &&& message matches MessageView::InstallSnapshot(req) && {
            &&& req.term == s.hs.current_term
            &&& req.leader_id == node.config.id
            &&& req.last_index == s.base.last_index
            &&& req.last_term == s.base.last_term
            &&& s.snapshot is Some
            &&& req.data == s.snapshot->0.data
            &&& req.config == s.snapshot->0.config
        }
    } else {
        &&& message matches MessageView::AppendEntries(req) && {
            &&& req.term == s.hs.current_term
            &&& req.leader_id == node.config.id
            &&& req.prev_log_index == next - 1
            &&& req.prev_log_term == term_at(s, next - 1)
            &&& req.leader_commit == node.commit_index
            &&& req.entries.len() == if next <= end_index(s) {
                end_index(s) - next + 1
            } else {
                0
            }
            &&& forall|k: int|
                0 <= k < req.entries.len() ==> #[trigger] req.entries[k] == s.entries[next + k
                    - s.base.last_index - 1]
        }
    }
}

/// One message goes to each of these peers, in turn, and each tells the peer what
/// it lacks.
pub open spec fn each_is_told(
    node: NodeState,
    before: Seq<(NodeId, MessageView)>,
    after: Seq<(NodeId, MessageView)>,
    peers: Seq<NodeId>,
) -> bool {
    &&& after.len() == before.len() + peers.len()
    &&& forall|i: int| 0 <= i < before.len() ==> #[trigger] after[i] == before[i]
    &&& forall|i: int|
        0 <= i < peers.len() ==> {
            &&& (#[trigger] after[before.len() + i]).0 == peers[i]
            &&& tells(node, peers[i], after[before.len() + i].1)
        }
}

/// One message that tells what the peer lacks goes to every other voter, and none
/// to anybody else.
pub open spec fn all_are_told(
    node: NodeState,
    before: Seq<(NodeId, MessageView)>,
    after: Seq<(NodeId, MessageView)>,
) -> bool {
    exists|peers: Seq<NodeId>|
        {
            &&& #[trigger] each_is_told(node, before, after, peers)
            &&& peers.no_duplicates()
            &&& forall|p: NodeId| #[trigger]
                peers.contains(p) <==> node.voters.contains(p) && p != node.config.id
        }
}

/// What is told depends on the log, on who the voters are, on what is committed
/// and on where the peers are believed to be.
pub(crate) proof fn told_alike(
    a: NodeState,
    b: NodeState,
    before: Seq<(NodeId, MessageView)>,
    after: Seq<(NodeId, MessageView)>,
)
    requires
        all_are_told(a, before, after),
        a.store == b.store,
        a.voters == b.voters,
        a.config == b.config,
        a.commit_index == b.commit_index,
        a.next_index == b.next_index,
    ensures
        all_are_told(b, before, after),
{
    let peers = choose|peers: Seq<NodeId>|
        {
            &&& #[trigger] each_is_told(a, before, after, peers)
            &&& peers.no_duplicates()
            &&& forall|p: NodeId| #[trigger]
                peers.contains(p) <==> a.voters.contains(p) && p != a.config.id
        };
    assert forall|i: int| 0 <= i < peers.len() implies (
    #[trigger] after[before.len() + i]).0 == peers[i] && tells(
        b,
        peers[i],
        after[before.len() + i].1,
    ) by {
        assert(tells(a, peers[i], after[before.len() + i].1));
    }
    assert(each_is_told(b, before, after, peers));
}

/// A leader aims at nobody from before the first entry.
pub open spec fn aims_high(node: NodeState) -> bool {
    forall|p: NodeId| #[trigger] next_for(node, p) >= 1
}

// ---- what leaders send ----

/// What a leader sends to one peer. A request for entries is counted as sent and
/// in flight, up to where it reaches; a snapshot is not. It fails only if there
/// is a snapshot to send that the store does not have.
pub proof fn a_peer_is_told_what_it_lacks(node: NodeState, peer: NodeId)
    requires
        node.wf(),
        node.has_room(),
        next_for(node, peer) >= 1,
    ensures
        ({
            let after = node.send_append(peer);
            let next = next_for(node, peer);
            &&& after.fault is Some <==> next <= node.store.base.last_index
                && node.store.snapshot is None
            &&& after.fault is Some ==> after.node == node
            &&& after.fault is None ==> {
                &&& after.node.outbox.len() == node.outbox.len() + 1
                &&& after.node.outbox.drop_last() == node.outbox
                &&& after.node.outbox.last().0 == peer
                &&& tells(node, peer, after.node.outbox.last().1)
                &&& after.node == (NodeState {
                    outbox: after.node.outbox,
                    inflight: after.node.inflight,
                    send_count: after.node.send_count,
                    ..node
                })
                &&& next <= node.store.base.last_index ==> after.node.inflight == node.inflight
                    && after.node.send_count == node.send_count
                &&& next > node.store.base.last_index ==> {
                    &&& after.node.queue(peer) == node.queue(peer).push(
                        (if next <= end_index(node.store) {
                            end_index(node.store)
                        } else {
                            next - 1
                        }) as u64,
                    )
                    &&& after.node.sent(peer) == node.sent(peer) + 1
                }
            }
        }),
{
    let after = node.send_append(peer);
    let (s, next) = (node.store, next_for(node, peer));
    assert(crate::raft::ids::value_or(node.send_count, peer, 0) < u64::MAX);
    if after.fault is None {
        assert(after.node.outbox.drop_last() =~= node.outbox);
        if next > s.base.last_index {
            let req = after.node.outbox.last().1->AppendEntries_0;
            assert(req.entries == s.from(next as u64));
            assert(s.term_or_zero((next - 1) as u64) == term_at(s, next - 1));
        }
    }
}

proof fn some_are_told(node: NodeState, peers: Seq<NodeId>)
    requires
        node.store.wf(),
        aims_high(node),
    ensures
        node.send_append_each(peers).fault is None ==> each_is_told(
            node,
            node.outbox,
            node.send_append_each(peers).node.outbox,
            peers,
        ),
    decreases peers.len(),
{
    if peers.len() > 0 && node.send_append_each(peers).fault is None {
        let before = node.send_append_each(peers.drop_last());
        some_are_told(node, peers.drop_last());
        laws::sending_frame(node, peers.drop_last());
        let peer = peers.last();
        let (mid, after) = (before.node, before.node.send_append(peer).node);
        assert(next_for(mid, peer) == next_for(node, peer));
        assert(next_for(node, peer) >= 1);
        let (s, next) = (mid.store, next_for(mid, peer));
        if next > s.base.last_index {
            assert(s.term_or_zero((next - 1) as u64) == term_at(s, next - 1));
        }
        assert(tells(node, peer, after.outbox.last().1));
        let (was, now) = (mid.outbox, after.outbox);
        assert(now == was.push(now.last()));
        assert forall|i: int| 0 <= i < peers.len() implies (#[trigger] now[node.outbox.len() + i]).0
            == peers[i] && tells(node, peers[i], now[node.outbox.len() + i].1) by {
            if i < peers.len() - 1 {
                assert(now[node.outbox.len() + i] == was[node.outbox.len() + i]);
                assert(peers.drop_last()[i] == peers[i]);
            }
        }
    }
}

/// A leader that turns to everybody sends every other voter one message, by which
/// it tells it what it lacks.
pub proof fn a_broadcast_reaches_every_other_voter(node: NodeState)
    requires
        node.wf(),
        aims_high(node),
        node.broadcast_append().fault is None,
    ensures
        all_are_told(node, node.outbox, node.broadcast_append().node.outbox),
{
    some_are_told(node, node.others());
    election_laws::others_are(node);
}

/// A leader turns to every other voter each time that as many ticks have passed
/// as it was told, and not in between.
pub proof fn a_leader_keeps_in_touch(node: NodeState)
    requires
        node.admits(Event::Tick),
        node.role == Role::Leader,
        aims_high(node),
        node.tick().fault is None,
    ensures
        ({
            let after = node.tick().node;
            &&& after.store == node.store
            &&& after.role == Role::Leader
            &&& node.heartbeat_elapsed + 1 < node.config.heartbeat_interval ==> {
                &&& after.outbox == node.outbox
                &&& after.heartbeat_elapsed == node.heartbeat_elapsed + 1
            }
            &&& node.heartbeat_elapsed + 1 >= node.config.heartbeat_interval ==> {
                &&& all_are_told(node, node.outbox, after.outbox)
                &&& after.heartbeat_elapsed == 0
            }
        }),
{
    let beat = NodeState { heartbeat_elapsed: 0, ..node };
    laws::sending_frame(beat, beat.others());
    if node.heartbeat_elapsed + 1 >= node.config.heartbeat_interval {
        assert(aims_high(beat)) by {
            assert forall|p: NodeId| #[trigger] next_for(beat, p) >= 1 by {
                assert(next_for(node, p) >= 1);
            }
        }
        a_broadcast_reaches_every_other_voter(beat);
        let peers = choose|peers: Seq<NodeId>|
            {
                &&& #[trigger] each_is_told(
                    beat,
                    beat.outbox,
                    beat.broadcast_append().node.outbox,
                    peers,
                )
                &&& peers.no_duplicates()
                &&& forall|p: NodeId| #[trigger]
                    peers.contains(p) <==> beat.voters.contains(p) && p != beat.config.id
            };
        let after = node.tick().node;
        assert(after.outbox == beat.broadcast_append().node.outbox);
        assert forall|i: int| 0 <= i < peers.len() implies (
        #[trigger] after.outbox[node.outbox.len() + i]).0 == peers[i] && tells(
            node,
            peers[i],
            after.outbox[node.outbox.len() + i].1,
        ) by {
            assert(tells(beat, peers[i], after.outbox[node.outbox.len() + i].1));
        }
        assert(each_is_told(node, node.outbox, after.outbox, peers));
    }
}

/// A command that is proposed to a leader stands at the end of its log, in its
/// term, as it was given, and the leader counts itself as holding it. Every other
/// voter is told of it. Who does not lead does nothing.
pub proof fn a_proposal_is_appended_and_told(node: NodeState, command: Seq<u8>)
    requires
        node.admits(Event::Propose(command)),
        aims_high(node),
    ensures
        ({
            let after = node.propose(command);
            let entry = EntryView {
                term: node.store.hs.current_term,
                index: (end_index(node.store) + 1) as u64,
                command,
                entry_type: EntryType::Normal,
            };
            &&& node.role != Role::Leader ==> after.node == node && after.fault is None
            &&& node.role == Role::Leader ==> {
                let s = after.node.store;
                &&& s.entries == node.store.entries.push(entry)
                &&& s.base == node.store.base
                &&& s.hs == node.store.hs
                &&& after.fault is None ==> {
                    let told = NodeState { store: s, ..node };
                    let told = NodeState {
                        next_index: node.next_index.insert(
                            node.config.id,
                            (entry.index + 1) as u64,
                        ),
                        ..told
                    };
                    &&& all_are_told(told, node.outbox, after.node.outbox)
                    &&& known_of(after.node, node.config.id) == entry.index
                }
            }
        }),
{
    if node.role == Role::Leader {
        let entry = EntryView {
            term: node.term(),
            index: (node.store.last_index() + 1) as u64,
            command,
            entry_type: EntryType::Normal,
        };
        let own = node.with_own_entry(entry);
        let after = node.propose(command).node;
        assert(own.store.entries =~= node.store.entries.push(entry));
        laws::sending_frame(own, own.others());
        let sent = own.broadcast_append();
        laws::commit_frame(sent.node);
        assert(sent.node.advance_commit().outbox == sent.node.outbox);
        assert(sent.node.advance_commit().match_index == sent.node.match_index);
        assert(aims_high(own)) by {
            assert forall|p: NodeId| #[trigger] next_for(own, p) >= 1 by {
                assert(next_for(node, p) >= 1);
            }
        }
        if sent.fault is None {
            assert(own.store.wf()) by {
                node.store.no_gap(seq![entry], 0);
                node.store.append_wf(seq![entry]);
            }
            some_are_told(own, own.others());
            election_laws::others_are(own);
            let told = NodeState {
                store: after.store,
                next_index: node.next_index.insert(node.config.id, (entry.index + 1) as u64),
                ..node
            };
            let peers = own.others();
            assert forall|i: int| 0 <= i < peers.len() implies (
            #[trigger] after.outbox[node.outbox.len() + i]).0 == peers[i] && tells(
                told,
                peers[i],
                after.outbox[node.outbox.len() + i].1,
            ) by {
                assert(tells(own, peers[i], after.outbox[node.outbox.len() + i].1));
            }
            assert(each_is_told(told, node.outbox, after.outbox, peers));
        }
    }
}

// ---- what followers do ----

/// What a follower answers to a request of entries: a leader of an earlier term
/// is refused, with the follower's own term. A request that starts behind the end
/// of the log is refused, and says where the log ends. One that starts behind an
/// entry of another term is refused, and names the first index of the run of that
/// term. In all of these the log stays as it is. Otherwise the entries are taken,
/// and what the leader has committed is, as far as the log reaches; never less
/// than before.
pub proof fn a_request_is_answered(node: NodeState, from: NodeId, req: AppendView)
    requires
        node.wf(),
        node.has_room_for(MessageView::AppendEntries(req)),
    ensures
        ({
            let after = node.step(from, MessageView::AppendEntries(req));
            let (s, t) = (node.store, after.node.store);
            let prev = req.prev_log_index as int;
            let reply = after.node.outbox.last();
            let told = |success: bool, conflict_index: Option<LogIndex>|
                {
                    &&& after.fault is None
                    &&& after.node.outbox.drop_last() == node.outbox
                    &&& reply == (
                        from,
                        MessageView::AppendEntriesResp(
                            AppendEntriesResp { term: t.hs.current_term, success, conflict_index },
                        ),
                    )
                };
            &&& req.term < s.hs.current_term ==> {
                &&& told(false, None)
                &&& after.node == (NodeState { outbox: after.node.outbox, ..node })
            }
            &&& req.term >= s.hs.current_term && prev > end_index(s) ==> {
                &&& told(false, Some((end_index(s) + 1) as u64))
                &&& t.entries == s.entries && t.base == s.base
                &&& after.node.commit_index == node.commit_index
            }
            &&& req.term >= s.hs.current_term && prev <= end_index(s) && term_at(s, prev)
                != req.prev_log_term ==> {
                &&& t.entries == s.entries && t.base == s.base
                &&& after.node.commit_index == node.commit_index
                &&& reply.1 matches MessageView::AppendEntriesResp(resp) && {
                    &&& resp.conflict_index matches Some(first) && {
                        &&& told(false, Some(first))
                        &&& first <= prev
                        &&& forall|i: int|
                            first <= i <= prev ==> #[trigger] term_at(s, i) == term_at(s, prev)
                        &&& first > 1 ==> term_at(s, first - 1) != term_at(s, prev)
                    }
                }
            }
            &&& req.term >= s.hs.current_term && prev <= end_index(s) && term_at(s, prev)
                == req.prev_log_term && after.fault is None ==> {
                let known = if req.leader_commit < end_index(t) {
                    req.leader_commit as int
                } else {
                    end_index(t)
                };
                &&& told(true, None)
                &&& after.node.commit_index == if known > node.commit_index {
                    known
                } else {
                    node.commit_index as int
                }
            }
        }),
{
    let following = node.become_follower(req.term, Some(req.leader_id));
    let (s, prev) = (node.store, req.prev_log_index);
    let after = node.step(from, MessageView::AppendEntries(req));
    assert(following.store.term_or_zero(prev) == term_at(s, prev as int));
    if after.fault is None {
        assert(after.node.outbox.drop_last() =~= node.outbox);
    }
    if req.term >= node.term() && prev <= following.store.last_index() {
        if term_at(s, prev as int) != req.prev_log_term {
            laws::a_conflict_covers_one_term(following.store, prev as nat);
            let first = state::first_of_term(
                following.store,
                following.store.term_or_zero(prev),
                prev as nat,
            );
            assert forall|i: int| first <= i <= prev implies #[trigger] term_at(s, i) == term_at(
                s,
                prev as int,
            ) by {
                assert(following.store.term_or_zero((i as nat) as u64) == term_at(s, i));
            }
            if first > 1 {
                assert(following.store.term_or_zero((first - 1) as u64) == term_at(s, first - 1));
            }
        } else {
            let adopted = following.adopt_entries(req.entries);
            assert(adopted.node.outbox == node.outbox);
            assert(adopted.node.commit_index == node.commit_index);
            let t = adopted.node.store;
            assert(t.base.last_index + t.entries.len() <= u64::MAX) by {
                adopted_is_short(following, req.entries);
            }
        }
    }
}

proof fn adopted_is_short(node: NodeState, entries: Seq<EntryView>)
    requires
        node.store.wf(),
        node.store.last_index() + entries.len() < u64::MAX,
    ensures
        ({
            let t = node.adopt_entries(entries).node.store;
            t.base.last_index + t.entries.len() < u64::MAX
        }),
{
    match state::first_new(node.store, entries, 0) {
        None => {},
        Some(k) => {
            let more = state::at_or_after(entries, entries[k].index);
            shorter_filter(entries, state::reaching(entries[k].index));
            assert(more.len() <= entries.len());
        },
    }
}

proof fn shorter_filter(q: Seq<EntryView>, keep: spec_fn(EntryView) -> bool)
    ensures
        q.filter(keep).len() <= q.len(),
    decreases q.len(),
{
    reveal(Seq::filter);
    if q.len() > 0 {
        shorter_filter(q.drop_last(), keep);
    }
}

/// Whether the log has an entry of the term at the index.
pub open spec fn carries(s: Durable, index: int, term: Term) -> bool {
    index > 0 && s.base.last_index <= index <= end_index(s) && term_at(s, index) == term
}

/// What a follower makes of entries that it takes. It keeps its log as it is if it
/// has all of them. Otherwise it keeps it up to the first that it lacks or
/// contradicts, and from there on has exactly what was sent, nothing behind it.
pub proof fn a_follower_takes_over_the_log(node: NodeState, from: NodeId, req: AppendView)
    requires
        node.wf(),
        node.has_room_for(MessageView::AppendEntries(req)),
        req.term >= node.store.hs.current_term,
        node.store.base.last_index <= req.prev_log_index <= end_index(node.store),
        term_at(node.store, req.prev_log_index as int) == req.prev_log_term,
        laws::consecutive(req.prev_log_index, req.entries),
    ensures
        ({
            let t = node.step(from, MessageView::AppendEntries(req)).node.store;
            let (s, prev, n) = (node.store, req.prev_log_index, req.entries.len());
            &&& t.base == s.base
            &&& (forall|j: int| #![trigger req.entries[j]]
                0 <= j < n ==> carries(s, prev + 1 + j, req.entries[j].term)) ==> t.entries
                == s.entries
            &&& forall|k: int| #![trigger req.entries[k]]
                {
                    &&& 0 <= k < n
                    &&& !carries(s, prev + 1 + k, req.entries[k].term)
                    &&& forall|j: int| #![trigger req.entries[j]]
                        0 <= j < k ==> carries(s, prev + 1 + j, req.entries[j].term)
                } ==> t.entries == s.entries.take(prev + k - s.base.last_index)
                    + req.entries.skip(k)
        }),
{
    let following = node.become_follower(req.term, Some(req.leader_id));
    let (s, prev, entries) = (node.store, req.prev_log_index, req.entries);
    laws::adopted_log(following, prev, entries);
    laws::known_before_new(following.store, entries, 0);
    assert(following.store.term_or_zero(prev) == term_at(s, prev as int));
    assert forall|j: int| #![trigger entries[j]] 0 <= j < entries.len() implies carries(
        s,
        prev + 1 + j,
        entries[j].term,
    ) == (following.store.term(entries[j].index) == Some(entries[j].term)) by {
        assert(entries[j].index == prev + 1 + j);
    }
    let t = node.step(from, MessageView::AppendEntries(req)).node.store;
    assert(t == following.adopt_entries(entries).node.store);
    match state::first_new(following.store, entries, 0) {
        None => {
            assert forall|k: int| #![trigger entries[k]] 0 <= k < entries.len() implies carries(
                s,
                prev + 1 + k,
                entries[k].term,
            ) by {}
        },
        Some(m) => {
            assert(!carries(s, prev + 1 + m, entries[m].term));
            assert forall|k: int| #![trigger entries[k]]
                0 <= k < entries.len() && !carries(s, prev + 1 + k, entries[k].term) && (forall|j: int|
                    #![trigger entries[j]]
                    0 <= j < k ==> carries(s, prev + 1 + j, entries[j].term)) implies k == m by {
                if k < m {
                    assert(following.store.term(entries[k].index) == Some(entries[k].term));
                }
                if m < k {
                    assert(carries(s, prev + 1 + m, entries[m].term));
                }
            }
        },
    }
}

// ---- what leaders make of answers ----

/// The voters that the leader knows to hold the log up to an index.
pub open spec fn holders(node: NodeState, index: int) -> Set<NodeId> {
    node.voters.filter(|p: NodeId| known_of(node, p) >= index)
}

/// More than half of the voters hold the log up to the index, and the entry there
/// is of the leader's own term.
pub open spec fn may_commit(node: NodeState, index: int) -> bool {
    &&& 2 * holders(node, index).len() > node.voters.len()
    &&& term_at(node.store, index) == node.store.hs.current_term
    &&& 0 < index <= end_index(node.store)
    &&& index >= node.store.base.last_index
}

/// The commit index is the highest that may be, and never goes back.
pub open spec fn has_committed(
    before: LogIndex,
    node: NodeState,
    commit: LogIndex,
) -> bool {
    &&& commit >= before
    &&& commit > before ==> may_commit(node, commit as int)
    &&& forall|i: int| commit < i <= end_index(node.store) ==> !#[trigger] may_commit(node, i)
}

pub(crate) proof fn commits_the_highest(node: NodeState)
    requires
        node.store.wf(),
        node.role == Role::Leader,
    ensures
        has_committed(node.commit_index, node, node.advance_commit().commit_index),
        node.advance_commit().store == node.store,
        node.advance_commit().match_index == node.match_index,
        node.advance_commit().next_index == node.next_index,
        node.advance_commit().ack_count == node.ack_count,
        node.advance_commit().voters == node.voters,
        node.advance_commit().outbox == node.outbox,
{
    laws::commit_bounds(node, node.store.last_index() as nat);
    laws::commit_frame(node);
    assert forall|i: int| 0 <= i <= end_index(node.store) implies #[trigger] may_commit(node, i)
        == (node.committable(i as nat)) by {
        let held = state::holding(node.match_index, i as nat);
        assert(node.voters.filter(held) =~= holders(node, i));
        assert(term_at(node.store, i) == node.store.term_or_zero(i as u64));
    }
    let commit = node.advance_commit().commit_index;
    if commit > node.commit_index {
        assert(node.committable(commit as nat));
        assert(may_commit(node, commit as int));
    }
    assert forall|i: int| commit < i <= end_index(node.store) implies !#[trigger] may_commit(
        node,
        i,
    ) by {
        assert(!node.committable(i as nat));
    }
}

/// What a leader makes of a success in its own term. It is credited to the oldest
/// request in flight: the peer holds the log up to where that reached, or further
/// if that was known before, the next message goes on from there, and the answer
/// counts once. Then all is committed that more than half of the voters hold, up
/// to the last entry of the leader's own term among it. Without a request in
/// flight nothing is credited.
pub proof fn a_success_is_credited(node: NodeState, from: NodeId, resp: AppendEntriesResp)
    requires
        node.wf(),
        node.has_room(),
        node.role == Role::Leader,
        resp.success,
        resp.term == node.store.hs.current_term,
    ensures
        ({
            let after = node.step(from, MessageView::AppendEntriesResp(resp));
            let (q, now) = (node.queue(from), after.node);
            &&& after.fault is None
            &&& now.store == node.store
            &&& now.outbox == node.outbox
            &&& q.len() == 0 ==> {
                &&& now.match_index == node.match_index
                &&& now.next_index == node.next_index
                &&& now.ack_count == node.ack_count
            }
            &&& q.len() > 0 ==> {
                let held = if known_of(node, from) > q[0] {
                    known_of(node, from)
                } else {
                    q[0] as int
                };
                &&& now.match_index == node.match_index.insert(from, held as u64)
                &&& now.next_index == node.next_index.insert(from, (held + 1) as u64)
                &&& now.ack(from) == node.ack(from) + 1
                &&& now.role == Role::Leader ==> now.queue(from) == q.skip(1)
            }
            &&& has_committed(
                node.commit_index,
                (NodeState { match_index: now.match_index, ..node }),
                now.commit_index,
            )
        }),
{
    let credited = node.acknowledged(from);
    assert(node.ack(from) + state::queue_of(node.inflight, from).len() <= node.sent(from));
    if node.queue(from).len() > 0 {
        assert(state::queue_of(node.inflight, from)[0] < u64::MAX);
    }
    commits_the_highest(credited);
    let plain = NodeState { match_index: credited.match_index, ..node };
    assert forall|i: int| #[trigger] may_commit(plain, i) == may_commit(credited, i) by {
        assert(holders(plain, i) =~= holders(credited, i));
    }
    let now = node.step(from, MessageView::AppendEntriesResp(resp)).node;
    assert(now.commit_index == credited.advance_commit().commit_index);
    if now.role == Role::Leader && node.queue(from).len() > 0 {
        assert(now.inflight == credited.inflight);
    }
}

/// What a leader makes of a refusal in its own term: it forgets what is in flight
/// to the peer, goes back to where the peer says that the logs part, or to the
/// start, and tells it what it lacks from there.
pub proof fn a_refusal_is_followed_up(node: NodeState, from: NodeId, resp: AppendEntriesResp)
    requires
        node.wf(),
        node.has_room(),
        node.role == Role::Leader,
        !resp.success,
        resp.term == node.store.hs.current_term,
    ensures
        ({
            let after = node.step(from, MessageView::AppendEntriesResp(resp));
            let back = match resp.conflict_index {
                Some(index) => if index > 1 {
                    index
                } else {
                    1
                },
                None => 1,
            };
            let aimed = NodeState { next_index: node.next_index.insert(from, back), ..node };
            &&& after.node.next_index == node.next_index.insert(from, back)
            &&& after.node.match_index == node.match_index
            &&& after.node.ack_count == node.ack_count
            &&& after.node.commit_index == node.commit_index
            &&& after.node.store == node.store
            &&& after.node.role == Role::Leader
            &&& after.fault is None ==> {
                &&& after.node.outbox.len() == node.outbox.len() + 1
                &&& after.node.outbox.drop_last() == node.outbox
                &&& after.node.outbox.last().0 == from
                &&& tells(aimed, from, after.node.outbox.last().1)
                &&& after.node.queue(from).len() <= 1
            }
        }),
{
    let back = match resp.conflict_index {
        Some(index) => if index > 1 {
            index
        } else {
            1
        },
        None => 1,
    };
    let backed = node.backed_up(from, back);
    let after = node.step(from, MessageView::AppendEntriesResp(resp));
    let (s, next) = (node.store, back as int);
    if after.fault is None {
        assert(after.node.outbox.drop_last() =~= node.outbox);
        if next > s.base.last_index {
            assert(s.term_or_zero((next - 1) as u64) == term_at(s, next - 1));
        }
    }
}

/// An answer of a later term makes a node follow; one of an earlier term, or to a
/// node that does not lead, changes nothing.
pub proof fn answers_of_other_terms(node: NodeState, from: NodeId, resp: AppendEntriesResp)
    requires
        node.wf(),
    ensures
        ({
            let after = node.step(from, MessageView::AppendEntriesResp(resp));
            &&& resp.term > node.store.hs.current_term ==> {
                &&& after.node.role == Role::Follower
                &&& after.node.store.hs.current_term == resp.term
                &&& after.node.store.hs.voted_for is None
                &&& after.node.store.entries == node.store.entries
                &&& after.node.outbox == node.outbox
            }
            &&& resp.term < node.store.hs.current_term || (resp.term
                == node.store.hs.current_term && node.role != Role::Leader) ==> after.node == node
        }),
{
}

} // verus!
