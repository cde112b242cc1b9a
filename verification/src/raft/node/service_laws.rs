//! Reads, membership changes and snapshots, by what they are asked and what they
//! leave.

use vstd::prelude::*;

use crate::error::Fault;
use crate::raft::node::laws::{self, Event};
use crate::raft::node::quorum_laws;
use crate::raft::node::replication_laws::{self, end_index, known_of, next_for, term_at};
use crate::raft::node::state::{self, ConfChange, NodeState, ReadToken, ReadView, Role};
use crate::raft::rpc::{AppendEntriesResp, InstallSnapshotResp, InstallView, MessageView};
use crate::raft::storage::Durable;
use crate::raft::types::{EntryType, EntryView, LogIndex, NodeId};

verus! {

// ---- reads ----

/// The voters that answered a request which was sent after the read began; the
/// node itself counts.
pub open spec fn answered_since(node: NodeState, read: ReadView) -> Set<NodeId> {
    node.voters.filter(
        |p: NodeId|
            p == node.config.id || (if node.ack_count.contains_key(p) {
                node.ack_count[p] as int
            } else {
                0
            }) > (if read.barrier.contains_key(p) {
                read.barrier[p] as int
            } else {
                0
            }),
    )
}

/// More than half of the voters answered since the read began, and the node has
/// applied all that was committed by then.
pub open spec fn may_answer(node: NodeState, read: ReadView) -> bool {
    &&& 2 * answered_since(node, read).len() > node.voters.len()
    &&& node.last_applied >= read.floor
}

/// Of these reads the ones that may be are answered, in turn, and the others go
/// on waiting, in turn.
pub open spec fn are_sorted_out(
    node: NodeState,
    reads: Seq<ReadView>,
    answered: Seq<ReadToken>,
    waiting: Seq<ReadView>,
) -> bool {
    &&& answered == reads.filter(|r: ReadView| may_answer(node, r)).map_values(
        |r: ReadView| r.token,
    )
    &&& waiting == reads.filter(|r: ReadView| !may_answer(node, r))
}

proof fn sorting_out(node: NodeState, reads: Seq<ReadView>)
    ensures
        are_sorted_out(node, reads, node.confirmed_tokens(reads), node.unconfirmed(reads)),
    decreases reads.len(),
{
    reveal(Seq::filter);
    let (yes, no) = (
        |r: ReadView| may_answer(node, r),
        |r: ReadView| !may_answer(node, r),
    );
    if reads.len() == 0 {
        assert(reads.filter(yes).map_values(|r: ReadView| r.token) =~= Seq::empty());
        assert(reads.filter(no) =~= Seq::empty());
    } else {
        let (rest, last) = (reads.drop_last(), reads.last());
        sorting_out(node, rest);
        let touched = state::in_touch(node.config.id, node.ack_count, last.barrier);
        assert(node.voters.filter(touched) =~= answered_since(node, last));
        assert(node.confirmed(last) == may_answer(node, last));
        assert(reads.filter(yes) == if may_answer(node, last) {
            rest.filter(yes).push(last)
        } else {
            rest.filter(yes)
        });
        assert(reads.filter(yes).map_values(|r: ReadView| r.token) =~= if may_answer(node, last) {
            rest.filter(yes).map_values(|r: ReadView| r.token).push(last.token)
        } else {
            rest.filter(yes).map_values(|r: ReadView| r.token)
        });
    }
}

/// What becomes of the reads that wait. A node that leads, and has applied an
/// entry of its own term, answers exactly those that may be answered; before that
/// it answers none. A node that does not lead drops them.
pub open spec fn reads_are_judged(
    before: Seq<ReadToken>,
    reads: Seq<ReadView>,
    node: NodeState,
) -> bool {
    if node.role != Role::Leader {
        node.reads_buf == before && node.pending_reads.len() == 0
    } else if node.readable_term != Some(node.store.hs.current_term) {
        node.reads_buf == before && node.pending_reads == reads
    } else {
        exists|answered: Seq<ReadToken>|
            node.reads_buf == before + answered && #[trigger] are_sorted_out(
                node,
                reads,
                answered,
                node.pending_reads,
            )
    }
}

pub(crate) proof fn releasing(node: NodeState)
    ensures
        reads_are_judged(node.reads_buf, node.pending_reads, node.release_reads()),
        node.release_reads() == (NodeState {
            reads_buf: node.release_reads().reads_buf,
            pending_reads: node.release_reads().pending_reads,
            ..node
        }),
{
    sorting_out(node, node.pending_reads);
    let after = node.release_reads();
    if node.role == Role::Leader && node.readable_term == Some(node.term()) {
        let (yes, no) = (
            |r: ReadView| may_answer(node, r),
            |r: ReadView| !may_answer(node, r),
        );
        let (yes2, no2) = (
            |r: ReadView| may_answer(after, r),
            |r: ReadView| !may_answer(after, r),
        );
        assert forall|r: ReadView| may_answer(node, r) == #[trigger] may_answer(after, r) by {
            assert(answered_since(node, r) =~= answered_since(after, r));
        }
        same_filter(node.pending_reads, yes, yes2);
        same_filter(node.pending_reads, no, no2);
        assert(are_sorted_out(
            after,
            node.pending_reads,
            node.confirmed_tokens(node.pending_reads),
            after.pending_reads,
        ));
    }
}

proof fn same_filter(q: Seq<ReadView>, a: spec_fn(ReadView) -> bool, b: spec_fn(ReadView) -> bool)
    requires
        forall|r: ReadView| #[trigger] a(r) == b(r),
    ensures
        q.filter(a) == q.filter(b),
    decreases q.len(),
{
    reveal(Seq::filter);
    if q.len() > 0 {
        same_filter(q.drop_last(), a, b);
    }
}

/// A read that a leader is asked for waits for everything that is committed by
/// then, and for answers to requests that are sent from then on: it takes down
/// how many it had sent to each peer, and turns to every other voter. Who does not
/// lead does nothing.
pub proof fn a_read_waits_for_a_majority(node: NodeState, token: ReadToken)
    requires
        node.admits(Event::ReadIndex(token)),
        replication_laws::aims_high(node),
    ensures
        ({
            let after = node.read_index(token);
            let read = ReadView { token, floor: node.commit_index, barrier: node.send_count };
            &&& node.role != Role::Leader ==> after.node == node && after.fault is None
            &&& node.role == Role::Leader && after.fault is None ==> {
                &&& replication_laws::all_are_told(node, node.outbox, after.node.outbox)
                &&& after.node.role == Role::Leader
                &&& after.node.store == node.store
                &&& after.node.commit_index == node.commit_index
                &&& reads_are_judged(
                    node.reads_buf,
                    node.pending_reads.push(read),
                    after.node,
                )
            }
        }),
{
    let read = ReadView { token, floor: node.commit_index, barrier: node.send_count };
    let asked = NodeState { pending_reads: node.pending_reads.push(read), ..node };
    let after = node.read_index(token);
    if node.role == Role::Leader && after.fault is None {
        laws::sending_frame(asked, asked.others());
        let sent = asked.broadcast_append().node;
        releasing(sent);
        assert(replication_laws::aims_high(asked)) by {
            assert forall|p: NodeId| #[trigger] next_for(asked, p) >= 1 by {
                assert(next_for(node, p) >= 1);
            }
        }
        replication_laws::a_broadcast_reaches_every_other_voter(asked);
        replication_laws::told_alike(asked, node, node.outbox, sent.outbox);
    }
}

/// Every success that a leader hears of decides over the reads that wait. Once it
/// has committed an entry, it can answer.
pub proof fn a_success_decides_over_reads(node: NodeState, from: NodeId, resp: AppendEntriesResp)
    requires
        node.wf(),
        node.has_room(),
        node.role == Role::Leader,
        resp.success,
        resp.term == node.store.hs.current_term,
        node.last_applied == node.commit_index,
        node.store.base.last_index <= node.commit_index,
    ensures
        ({
            let after = node.step(from, MessageView::AppendEntriesResp(resp)).node;
            &&& reads_are_judged(node.reads_buf, node.pending_reads, after)
            &&& after.last_applied == after.commit_index
            &&& after.commit_index > node.commit_index ==> after.readable_term == Some(
                node.store.hs.current_term,
            )
            &&& after.commit_index == node.commit_index ==> after.readable_term
                == node.readable_term
        }),
{
    let credited = node.acknowledged(from);
    committing_makes_readable(credited);
    releasing(credited.advance_commit());
}

/// A leader that commits has applied an entry of its own term.
proof fn committing_makes_readable(node: NodeState)
    requires
        node.store.wf(),
        node.role == Role::Leader,
        node.last_applied == node.commit_index,
        node.store.base.last_index <= node.commit_index,
        node.commit_index < u64::MAX,
    ensures
        ({
            let after = node.advance_commit();
            &&& after.last_applied == after.commit_index
            &&& after.commit_index > node.commit_index ==> after.readable_term == Some(node.term())
            &&& after.commit_index <= node.commit_index ==> after.readable_term
                == node.readable_term
            &&& after.reads_buf == node.reads_buf
            &&& after.pending_reads == node.pending_reads
            &&& after.store.hs == node.store.hs
        }),
{
    laws::commit_bounds(node, node.store.last_index() as nat);
    let commit = node.commit_up_to(node.store.last_index() as nat) as u64;
    let mid = NodeState { commit_index: commit, ..node };
    if commit > node.commit_index {
        let entries = mid.unapplied();
        assert(node.committable(commit as nat));
        assert(entries.len() == commit - node.commit_index);
        let last = entries[entries.len() - 1];
        assert(last == node.store.at(commit));
        assert(last.term == node.term());
        assert(state::has_term(entries, node.term()));
    }
}

// ---- membership ----

/// A membership change stands in the log behind an index.
pub open spec fn has_change_behind(s: Durable, index: int) -> bool {
    exists|i: int|
        0 <= i < s.entries.len() && s.base.last_index + 1 + i > index && (
        #[trigger] s.entries[i]).entry_type == EntryType::ConfigChange
}

/// The voters with one more, or one fewer.
pub open spec fn voters_with(voters: Set<NodeId>, change: ConfChange) -> Set<NodeId> {
    match change {
        ConfChange::AddVoter(id) => voters.insert(id),
        ConfChange::RemoveVoter(id) => voters.remove(id),
    }
}

proof fn change_behind(s: Durable, index: LogIndex)
    requires
        s.wf(),
        index < u64::MAX,
        s.base.last_index <= index,
    ensures
        state::has_config(s.from((index + 1) as u64)) == has_change_behind(s, index as int),
{
    let rest = s.from((index + 1) as u64);
    let cut = index - s.base.last_index;
    if state::has_config(rest) {
        let i = choose|i: int|
            0 <= i < rest.len() && (#[trigger] rest[i]).entry_type == EntryType::ConfigChange;
        assert(s.entries[i + cut] == rest[i]);
    }
    if has_change_behind(s, index as int) {
        let i = choose|i: int|
            0 <= i < s.entries.len() && s.base.last_index + 1 + i > index && (
            #[trigger] s.entries[i]).entry_type == EntryType::ConfigChange;
        assert(rest[i - cut] == s.entries[i]);
    }
}

/// A leader takes up a change of one voter exactly if it changes something and
/// no other change is in the log that is not committed. It is in force at once:
/// an entry at the end of the log says who the voters are, the node lives by it,
/// and all of them but the node itself are told. Of a new voter it knows nothing,
/// and tries it from the end of the log. Nobody else, and at no other time,
/// changes anything.
pub proof fn one_change_at_a_time(node: NodeState, change: ConfChange)
    requires
        node.admits(Event::ProposeConfChange(change)),
        node.voters.len() < u32::MAX,
        node.store.base.last_index <= node.commit_index <= end_index(node.store),
    ensures
        ({
            let after = node.propose_conf_change(change);
            let voters = voters_with(node.voters, change);
            let taken = {
                &&& node.role == Role::Leader
                &&& voters != node.voters
                &&& !has_change_behind(node.store, node.commit_index as int)
            };
            &&& !taken ==> after.node == node && after.fault is None
            &&& taken ==> {
                let s = after.node.store;
                &&& s.entries.len() == node.store.entries.len() + 1
                &&& s.entries.drop_last() == node.store.entries
                &&& s.base == node.store.base && s.hs == node.store.hs
                &&& s.entries.last().term == node.store.hs.current_term
                &&& s.entries.last().index == end_index(node.store) + 1
                &&& s.entries.last().entry_type == EntryType::ConfigChange
                &&& state::voters_of(s.entries.last().command) == Ok::<Set<NodeId>, Fault>(voters)
                &&& after.node.voters == voters
                &&& after.node.role == Role::Leader
                &&& after.node.commit_index == node.commit_index
                &&& change != ConfChange::AddVoter(node.config.id) ==> known_of(
                    after.node,
                    node.config.id,
                ) == s.entries.last().index
                &&& change matches ConfChange::AddVoter(id) ==> {
                    &&& known_of(after.node, id) == 0
                    &&& next_for(after.node, id) == s.entries.last().index + 1
                }
                &&& replication_laws::aims_high(node) && after.fault is None
                    ==> replication_laws::all_are_told(
                    after.node,
                    node.outbox,
                    after.node.outbox,
                )
                &&& has_change_behind(s, node.commit_index as int)
            }
        }),
{
    change_behind(node.store, node.commit_index);
    let voters = node.changed_voters(change);
    assert(voters == voters_with(node.voters, change));
    if node.accepts_change(change) {
        quorum_laws::a_change_is_live_at_once(node, change);
        quorum_laws::voters_round_trip(voters);
        let entry = EntryView {
            term: node.term(),
            index: (node.store.last_index() + 1) as u64,
            command: state::voters_bytes(voters),
            entry_type: EntryType::ConfigChange,
        };
        quorum_laws::config_of_push(node.store.entries, entry);
        let own = node.with_own_entry(entry).recompute_voters();
        let seeded = own.node.seeded(change);
        laws::sending_frame(seeded, seeded.others());
        let s = node.propose_conf_change(change).node.store;
        assert(s.entries =~= node.store.entries.push(entry));
        assert(s.entries.drop_last() =~= node.store.entries);
        assert(s.entries[s.entries.len() - 1] == entry);
        let after = node.propose_conf_change(change);
        if replication_laws::aims_high(node) && after.fault is None {
            assert(seeded.store.wf()) by {
                node.store.no_gap(seq![entry], 0);
                node.store.append_wf(seq![entry]);
            }
            assert(replication_laws::aims_high(seeded)) by {
                assert forall|p: NodeId| #[trigger] next_for(seeded, p) >= 1 by {
                    assert(next_for(node, p) >= 1);
                }
            }
            replication_laws::a_broadcast_reaches_every_other_voter(seeded);
            replication_laws::told_alike(seeded, after.node, node.outbox, after.node.outbox);
        }
    }
}

/// A leader that is no longer a voter stops leading when it commits, unless a
/// further change is on its way; otherwise a success leaves it leading.
pub proof fn a_removed_leader_steps_down(node: NodeState, from: NodeId, resp: AppendEntriesResp)
    requires
        node.wf(),
        node.has_room(),
        node.role == Role::Leader,
        resp.success,
        resp.term == node.store.hs.current_term,
        node.store.base.last_index <= node.commit_index,
    ensures
        ({
            let after = node.step(from, MessageView::AppendEntriesResp(resp)).node;
            &&& after.role == Role::Follower || after.role == Role::Leader
            &&& after.role == Role::Follower <==> {
                &&& after.commit_index > node.commit_index
                &&& !node.voters.contains(node.config.id)
                &&& !has_change_behind(node.store, after.commit_index as int)
            }
            &&& after.store.hs == node.store.hs
        }),
{
    let credited = node.acknowledged(from);
    laws::commit_bounds(credited, credited.store.last_index() as nat);
    let commit = credited.commit_up_to(credited.store.last_index() as nat) as u64;
    change_behind(node.store, commit);
}

/// Whom a store makes voters: those of the last membership change in its log; if
/// there is none, those that its snapshot records, and a snapshot that records
/// none is corrupt; without a snapshot, the peers that the node is started with.
pub proof fn the_last_change_counts(store: Durable, peers: Seq<NodeId>)
    ensures
        forall|i: int|
            0 <= i < store.entries.len() && (#[trigger] store.entries[i]).entry_type
                == EntryType::ConfigChange && (forall|j: int|
                i < j < store.entries.len() ==> (#[trigger] store.entries[j]).entry_type
                    == EntryType::Normal) ==> state::membership(store, peers) == state::voters_of(
                store.entries[i].command,
            ),
        (forall|i: int|
            0 <= i < store.entries.len() ==> (#[trigger] store.entries[i]).entry_type
                == EntryType::Normal) ==> match store.snapshot {
            None => state::membership(store, peers) == Ok::<Set<NodeId>, Fault>(peers.to_set()),
            Some(bytes) => if bytes.config.len() == 0 {
                state::membership(store, peers) is Err
            } else {
                state::membership(store, peers) == state::voters_of(bytes.config)
            },
        },
{
    last_config(store.entries);
}

proof fn last_config(entries: Seq<EntryView>)
    ensures
        forall|i: int|
            0 <= i < entries.len() && (#[trigger] entries[i]).entry_type == EntryType::ConfigChange
                && (forall|j: int|
                i < j < entries.len() ==> (#[trigger] entries[j]).entry_type == EntryType::Normal)
                ==> state::latest_config(entries) == Some(entries[i].command),
        (forall|i: int|
            0 <= i < entries.len() ==> (#[trigger] entries[i]).entry_type == EntryType::Normal)
            ==> state::latest_config(entries) is None,
    decreases entries.len(),
{
    if entries.len() > 0 {
        let rest = entries.drop_last();
        last_config(rest);
        let last = entries.len() - 1;
        assert forall|i: int|
            0 <= i < entries.len() && (#[trigger] entries[i]).entry_type == EntryType::ConfigChange
                && (forall|j: int|
                i < j < entries.len() ==> (#[trigger] entries[j]).entry_type
                    == EntryType::Normal) implies state::latest_config(entries) == Some(
            entries[i].command,
        ) by {
            if i < last {
                assert(entries[last].entry_type == EntryType::Normal);
                assert(rest[i] == entries[i]);
                assert forall|j: int| i < j < rest.len() implies (#[trigger] rest[j]).entry_type
                    == EntryType::Normal by {
                    assert(rest[j] == entries[j]);
                }
            }
        }
        if forall|i: int|
            0 <= i < entries.len() ==> (#[trigger] entries[i]).entry_type == EntryType::Normal {
            assert(entries[last].entry_type == EntryType::Normal);
            assert forall|j: int| 0 <= j < rest.len() implies (#[trigger] rest[j]).entry_type
                == EntryType::Normal by {
                assert(rest[j] == entries[j]);
            }
        }
    }
}

// ---- snapshots ----

/// What a node has applied it can put into a snapshot, up to an index behind the
/// one it has. The snapshot ends with the entry at that index, holds what was
/// given and who the voters are; the log keeps exactly what is behind it. Any
/// other index is refused, and then nothing changes.
pub proof fn applied_entries_can_be_compacted(node: NodeState, index: LogIndex, data: Seq<u8>)
    requires
        node.wf(),
        node.voters.len() <= u32::MAX,
    ensures
        ({
            let after = node.compact(index, data);
            let (s, t) = (node.store, after.node.store);
            &&& after.fault is None <==> s.base.last_index < index <= node.last_applied && index
                <= end_index(s)
            &&& after.fault is Some ==> after.node == node
            &&& after.fault is None ==> {
                &&& t.base.last_index == index
                &&& t.base.last_term == term_at(s, index as int)
                &&& t.entries == s.entries.skip(index - s.base.last_index)
                &&& t.hs == s.hs
                &&& t.snapshot is Some
                &&& t.snapshot->0.data == data
                &&& state::voters_of(t.snapshot->0.config) == Ok::<Set<NodeId>, Fault>(
                    node.voters,
                )
                &&& after.node == (NodeState { store: t, ..node })
            }
        }),
{
    quorum_laws::voters_round_trip(node.voters);
    let after = node.compact(index, data);
    if after.fault is None {
        let s = node.store;
        assert(after.node.store.entries =~= s.entries.skip(index - s.base.last_index));
    }
}

/// What a node makes of a snapshot of its leader. A leader of an earlier term is
/// answered and ignored. A snapshot that reaches no further than what the node
/// has committed, or than its own, changes nothing in the log. Any other takes
/// the place of what it covers: the log keeps what is behind it, all that it
/// covers counts as committed and applied, and the state is handed out to be
/// restored. The answer carries the node's term.
pub proof fn a_snapshot_takes_its_place(node: NodeState, from: NodeId, req: InstallView)
    requires
        node.wf(),
        node.has_room_for(MessageView::InstallSnapshot(req)),
    ensures
        ({
            let after = node.step(from, MessageView::InstallSnapshot(req));
            let (s, t) = (node.store, after.node.store);
            let answered = {
                &&& after.fault is None
                &&& after.node.outbox.drop_last() == node.outbox
                &&& after.node.outbox.last() == (
                    from,
                    MessageView::InstallSnapshotResp(
                        InstallSnapshotResp { term: t.hs.current_term },
                    ),
                )
            };
            &&& req.term < s.hs.current_term ==> answered && after.node == (NodeState {
                outbox: after.node.outbox,
                ..node
            })
            &&& req.term >= s.hs.current_term ==> {
                &&& after.node.role == Role::Follower
                &&& after.node.leader == Some(req.leader_id)
                &&& t.hs.current_term == req.term
                &&& after.node.elapsed == 0
                &&& if req.last_index <= s.base.last_index || req.last_index
                    <= node.commit_index {
                    &&& answered
                    &&& t.base == s.base && t.entries == s.entries && t.snapshot == s.snapshot
                    &&& after.node.commit_index == node.commit_index
                    &&& after.node.last_applied == node.last_applied
                    &&& after.node.restore_buf == node.restore_buf
                    &&& after.node.voters == node.voters
                } else {
                    &&& t.base.last_index == req.last_index
                    &&& t.base.last_term == req.last_term
                    &&& t.entries == if req.last_index < end_index(s) {
                        s.entries.skip(req.last_index - s.base.last_index)
                    } else {
                        Seq::empty()
                    }
                    &&& t.snapshot is Some
                    &&& t.snapshot->0.data == req.data
                    &&& t.snapshot->0.config == req.config
                    &&& after.node.commit_index == req.last_index
                    &&& after.node.last_applied == req.last_index
                    &&& after.fault is None ==> {
                        &&& answered
                        &&& after.node.restore_buf matches Some((meta, data)) && meta.last_index
                            == req.last_index && meta.last_term == req.last_term && data
                            == req.data
                        &&& state::membership(t, node.config.peers) == Ok::<Set<NodeId>, Fault>(
                            after.node.voters,
                        )
                    }
                    &&& after.fault is Some <==> state::voters_of(req.config) is Err
                        || state::membership(t, node.config.peers) is Err
                }
            }
        }),
{
    let after = node.step(from, MessageView::InstallSnapshot(req));
    if after.fault is None {
        assert(after.node.outbox.drop_last() =~= node.outbox);
    }
}

/// A leader that hears that its snapshot has arrived knows the peer to hold what
/// that covers, goes on from behind it, and tells the peer what is there. An
/// answer of a later term makes it follow.
pub proof fn a_snapshot_that_arrived_counts(
    node: NodeState,
    from: NodeId,
    resp: InstallSnapshotResp,
)
    requires
        node.wf(),
        node.has_room(),
    ensures
        ({
            let after = node.step(from, MessageView::InstallSnapshotResp(resp));
            let base = node.store.base.last_index;
            &&& resp.term > node.store.hs.current_term ==> {
                &&& after.node.role == Role::Follower
                &&& after.node.store.hs.current_term == resp.term
            }
            &&& resp.term <= node.store.hs.current_term && node.role != Role::Leader ==> after.node
                == node
            &&& resp.term <= node.store.hs.current_term && node.role == Role::Leader ==> {
                let aimed = NodeState {
                    next_index: node.next_index.insert(from, (base + 1) as u64),
                    ..node
                };
                &&& after.fault is None
                &&& known_of(after.node, from) == if known_of(node, from) > base {
                    known_of(node, from)
                } else {
                    base as int
                }
                &&& next_for(after.node, from) == base + 1
                &&& after.node.commit_index == node.commit_index
                &&& after.node.outbox.len() == node.outbox.len() + 1
                &&& after.node.outbox.drop_last() == node.outbox
                &&& after.node.outbox.last().0 == from
                &&& replication_laws::tells(aimed, from, after.node.outbox.last().1)
            }
        }),
{
    let after = node.step(from, MessageView::InstallSnapshotResp(resp));
    let s = node.store;
    if resp.term <= node.term() && node.role == Role::Leader {
        assert(after.node.outbox.drop_last() =~= node.outbox);
        assert(s.term_or_zero(s.base.last_index) == term_at(s, s.base.last_index as int));
    }
}

} // verus!
