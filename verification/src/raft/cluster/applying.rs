//! What a node hands out to be applied, over its whole life.

use vstd::prelude::*;

use crate::raft::cluster::ends;
use crate::raft::cluster::life;
use crate::raft::cluster::{self, Move};
use crate::raft::node::laws::{self, Event};
use crate::raft::node::state::{self, ConfChange, NodeState, ReadToken, ReadView, Role};
use crate::raft::rpc::{
    AppendEntriesResp, AppendView, InstallSnapshotResp, InstallView, MessageView, RequestVoteReq,
    RequestVoteResp,
};
use crate::raft::types::{EntryType, EntryView, LogIndex, NodeId};

verus! {

/// Everything that is committed has been handed out, and the snapshot covers
/// nothing else.
pub open spec fn caught_up(a: NodeState) -> bool {
    &&& a.last_applied == a.commit_index
    &&& a.store.base.last_index <= a.last_applied
}

/// `b` has handed out what `a` had, and behind it the entries that were
/// committed meanwhile, one by one, as they are in its log.
pub open spec fn hands_out(a: NodeState, b: NodeState) -> bool {
    let (was, now) = (a.apply_buf, b.apply_buf);
    &&& caught_up(b)
    &&& a.last_applied <= b.last_applied
    &&& now.len() == was.len() + (b.last_applied - a.last_applied)
    &&& forall|i: int| 0 <= i < was.len() ==> #[trigger] now[i] == was[i]
    &&& forall|i: int|
        was.len() <= i < now.len() ==> (#[trigger] now[i]).index == a.last_applied + 1 + (i
            - was.len())
    &&& forall|i: int|
        was.len() <= i < now.len() ==> b.store.holds((#[trigger] now[i]).index) && now[i]
            == b.store.at(now[i].index)
}

/// Nothing that matters here is different.
spec fn alike(a: NodeState, b: NodeState) -> bool {
    &&& b.apply_buf == a.apply_buf
    &&& b.last_applied == a.last_applied
    &&& b.commit_index == a.commit_index
    &&& b.store.base.last_index <= a.store.base.last_index || b.store.base.last_index
        <= a.last_applied
}

/// Handing out what was committed up to `commit`.
proof fn commit_hands_out(a: NodeState, commit: LogIndex)
    requires
        a.store.wf(),
        caught_up(a),
        a.commit_index <= commit,
        commit <= a.store.last_index() || commit == a.commit_index,
    ensures
        hands_out(a, (NodeState { commit_index: commit, ..a }).advance_apply()),
        (NodeState { commit_index: commit, ..a }).advance_apply().store == a.store,
{
    let node = NodeState { commit_index: commit, ..a };
    if a.last_applied < commit {
        let entries = node.unapplied();
        assert(entries.len() == commit - a.last_applied);
        assert(node.advance_apply().apply_buf == a.apply_buf + entries);
    }
}

proof fn advancing(a: NodeState)
    requires
        a.store.wf(),
        caught_up(a),
    ensures
        hands_out(a, a.advance_commit()),
{
    let last = a.store.last_index() as nat;
    laws::commit_bounds(a, last);
    if a.role == Role::Leader {
        commit_hands_out(a, a.commit_up_to(last) as u64);
    }
}

/// The same, for a node that differs in nothing that matters.
proof fn advancing_from(a: NodeState, mid: NodeState)
    requires
        mid.store.wf(),
        caught_up(a),
        alike(a, mid),
    ensures
        hands_out(a, mid.advance_commit()),
{
    advancing(mid);
}

proof fn leading(a: NodeState, mid: NodeState)
    requires
        mid.store.wf(),
        mid.store.last_index() < u64::MAX - 1,
        caught_up(a),
        alike(a, mid),
    ensures
        hands_out(a, mid.become_leader().node),
{
    let crowned = mid.crowned();
    laws::sending_frame(crowned, crowned.others());
    let sent = crowned.broadcast_append().node;
    assert(crowned.store.wf()) by {
        assert forall|i: int| 0 <= i < crowned.store.entries.len() implies (
        #[trigger] crowned.store.entries[i]).index == crowned.store.base.last_index + 1 + i by {
            if i < mid.store.entries.len() {
                assert(crowned.store.entries[i] == mid.store.entries[i]);
            }
        }
    }
    advancing_from(a, sent);
}

proof fn standing(a: NodeState, mid: NodeState)
    requires
        mid.store.wf(),
        mid.store.last_index() < u64::MAX - 1,
        caught_up(a),
        alike(a, mid),
    ensures
        hands_out(a, mid.become_candidate().node),
{
    let stood = mid.standing();
    if stood.votes.len() >= stood.quorum() {
        leading(a, stood);
    }
}

proof fn ticking(a: NodeState)
    requires
        a.admits(Event::Tick),
        caught_up(a),
    ensures
        hands_out(a, a.tick().node),
{
    if a.role == Role::Leader {
        let beat = NodeState { heartbeat_elapsed: 0, ..a };
        laws::sending_frame(beat, beat.others());
    } else {
        let waited = NodeState { elapsed: (a.elapsed + 1) as u64, ..a };
        if waited.elapsed >= waited.election_deadline {
            let asked = waited.asking();
            if asked.votes.len() >= asked.quorum() {
                standing(a, asked);
            }
        }
    }
}

proof fn answering(a: NodeState, from: NodeId, resp: RequestVoteResp)
    requires
        a.admits(Event::Step(from, MessageView::RequestVoteResp(resp))),
        caught_up(a),
    ensures
        hands_out(a, a.handle_vote_resp(from, resp).node),
{
    let counted = NodeState { votes: a.votes.insert(from), ..a };
    standing(a, counted);
    leading(a, counted);
}

/// What a leader sent leaves the log in order.
proof fn adopting(node: NodeState, entries: Seq<EntryView>)
    requires
        node.store.wf(),
        node.store.last_index() + entries.len() < u64::MAX,
    ensures
        node.adopt_entries(entries).node.store.wf(),
        node.adopt_entries(entries).node.store.base == node.store.base,
        alike(node, node.adopt_entries(entries).node),
{
    match state::first_new(node.store, entries, 0) {
        None => {},
        Some(k) => {
            let index = entries[k].index;
            let kept = if node.store.term(index) is Some {
                node.store.truncate(index)
            } else {
                node.store
            };
            let more = state::at_or_after(entries, index);
            node.store.kept_wf(index, node.store.base, Seq::empty(), Seq::empty());
            entries.lemma_filter_len(state::reaching(index));
            if kept.append_fault(more) is None {
                kept.append_wf(more);
            }
        },
    }
}

proof fn following(a: NodeState, from: NodeId, req: AppendView)
    requires
        a.admits(Event::Step(from, MessageView::AppendEntries(req))),
        caught_up(a),
    ensures
        hands_out(a, a.handle_append_entries(from, req).node),
{
    let node = a.become_follower(req.term, Some(req.leader_id));
    if req.term >= a.term() && req.prev_log_index <= node.store.last_index()
        && node.store.term_or_zero(req.prev_log_index) == req.prev_log_term {
        let adopted = node.adopt_entries(req.entries);
        adopting(node, req.entries);
        assert(alike(a, adopted.node));
        if adopted.fault is None {
            let last = adopted.node.store.last_index();
            let known = if req.leader_commit < last {
                req.leader_commit
            } else {
                last
            };
            commit_hands_out(adopted.node, if known > adopted.node.commit_index {
                known
            } else {
                adopted.node.commit_index
            });
        }
    }
}

proof fn crediting(a: NodeState, from: NodeId, resp: AppendEntriesResp)
    requires
        a.admits(Event::Step(from, MessageView::AppendEntriesResp(resp))),
        caught_up(a),
    ensures
        hands_out(a, a.handle_append_resp(from, resp).node),
{
    advancing_from(a, a.acknowledged(from));
    let next = match resp.conflict_index {
        Some(index) => if index > 1 {
            index
        } else {
            1
        },
        None => 1,
    };
    assert(alike(a, a.backed_up(from, next).send_append(from).node));
}

/// A leader that adds an entry and sends it on.
proof fn adding(a: NodeState, e: EntryView)
    requires
        a.admits(Event::Tick),
        caught_up(a),
        e.index == a.store.last_index() + 1,
    ensures
        hands_out(a, a.with_own_entry(e).broadcast_append().node),
        hands_out(a, a.with_own_entry(e).broadcast_append().node.advance_commit()),
{
    let own = a.with_own_entry(e);
    laws::sending_frame(own, own.others());
    assert(own.store.wf()) by {
        assert forall|i: int| 0 <= i < own.store.entries.len() implies (
        #[trigger] own.store.entries[i]).index == own.store.base.last_index + 1 + i by {
            if i < a.store.entries.len() {
                assert(own.store.entries[i] == a.store.entries[i]);
            }
        }
    }
    advancing_from(a, own.broadcast_append().node);
}

proof fn changing(a: NodeState, change: ConfChange)
    requires
        a.admits(Event::ProposeConfChange(change)),
        caught_up(a),
    ensures
        hands_out(a, a.propose_conf_change(change).node),
{
    let voting = a.with_own_entry(
        EntryView {
            term: a.term(),
            index: (a.store.last_index() + 1) as u64,
            command: state::voters_bytes(a.changed_voters(change)),
            entry_type: EntryType::ConfigChange,
        },
    ).recompute_voters();
    let seeded = voting.node.seeded(change);
    laws::sending_frame(seeded, seeded.others());
}

proof fn reading(a: NodeState, token: ReadToken)
    requires
        caught_up(a),
    ensures
        hands_out(a, a.read_index(token).node),
{
    let waiting = NodeState {
        pending_reads: a.pending_reads.push(
            ReadView { token, floor: a.commit_index, barrier: a.send_count },
        ),
        ..a
    };
    laws::sending_frame(waiting, waiting.others());
}

proof fn installing(a: NodeState, from: NodeId, req: InstallView)
    requires
        caught_up(a),
        !ends::installs(a, req),
    ensures
        hands_out(a, a.handle_install_snapshot(from, req).node),
{
}

proof fn told(a: NodeState, from: NodeId, resp: InstallSnapshotResp)
    requires
        caught_up(a),
    ensures
        hands_out(a, a.handle_install_snapshot_resp(from, resp).node),
{
    assert(alike(a, a.handle_install_snapshot_resp(from, resp).node));
}

proof fn asked(a: NodeState, from: NodeId, req: RequestVoteReq)
    requires
        caught_up(a),
    ensures
        hands_out(a, a.handle_request_vote(from, req)),
{
    assert(alike(a, a.handle_request_vote(from, req)));
}

/// The event installs a snapshot.
pub open spec fn installs(a: NodeState, event: Event) -> bool {
    event matches Event::Step(_, MessageView::InstallSnapshot(req)) && ends::installs(a, req)
}

/// Whatever happens but a snapshot: what is committed is handed out, in order.
pub proof fn an_event_hands_out(a: NodeState, event: Event)
    requires
        a.admits(event),
        caught_up(a),
        !installs(a, event),
        event !is Ready,
    ensures
        hands_out(a, cluster::outcome(a, event)),
{
    reveal(cluster::outcome);
    match event {
        Event::Tick => ticking(a),
        Event::Step(from, message) => match message {
            MessageView::RequestVote(req) => asked(a, from, req),
            MessageView::RequestVoteResp(resp) => answering(a, from, resp),
            MessageView::AppendEntries(req) => following(a, from, req),
            MessageView::AppendEntriesResp(resp) => crediting(a, from, resp),
            MessageView::InstallSnapshot(req) => installing(a, from, req),
            MessageView::InstallSnapshotResp(resp) => told(a, from, resp),
        },
        Event::Propose(command) => {
            adding(
                a,
                EntryView {
                    term: a.term(),
                    index: (a.store.last_index() + 1) as u64,
                    command,
                    entry_type: EntryType::Normal,
                },
            );
        },
        Event::ProposeConfChange(change) => changing(a, change),
        Event::ReadIndex(token) => reading(a, token),
        Event::Compact(index, data) => {},
        Event::Ready => {},
    }
}

proof fn a_ready_drains(a: NodeState)
    ensures
        cluster::outcome(a, Event::Ready) == a.drained(),
{
    reveal(cluster::outcome);
}

/// Neither a restart nor a snapshot from a leader is among the moves.
pub open spec fn undisturbed(start: NodeState, run: Seq<Move>) -> bool
    decreases run.len(),
{
    run.len() > 0 ==> {
        &&& undisturbed(start, run.drop_last())
        &&& run.last() matches Move::Happens(event) && !installs(
            life::lived(start, run.drop_last()),
            event,
        )
    }
}

/// What `ready` has handed out to be applied, one call after the other.
pub open spec fn handed_out(start: NodeState, run: Seq<Move>) -> Seq<EntryView>
    decreases run.len(),
{
    if run.len() == 0 {
        Seq::empty()
    } else {
        let before = handed_out(start, run.drop_last());
        if run.last() == Move::Happens(Event::Ready) {
            before + life::lived(start, run.drop_last()).apply_buf
        } else {
            before
        }
    }
}

/// What is handed out to be applied, call after call, are the entries behind
/// the snapshot that the node started with, one after the other: none is left
/// out, none comes twice, and none comes that is not committed. What is still
/// to be handed out continues that up to the commit index.
pub proof fn entries_are_handed_out_once(start: NodeState, run: Seq<Move>)
    requires
        life::liveable(start, run),
        undisturbed(start, run),
    ensures
        ({
            let node = life::lived(start, run);
            let out = handed_out(start, run);
            let rest = node.apply_buf;
            let base = start.store.base.last_index;
            &&& forall|i: int| 0 <= i < out.len() ==> (#[trigger] out[i]).index == base + 1 + i
            &&& forall|i: int|
                0 <= i < rest.len() ==> (#[trigger] rest[i]).index == base + 1 + out.len() + i
            &&& base + out.len() + rest.len() == node.last_applied
            &&& node.last_applied == node.commit_index
            &&& node.store.base.last_index <= node.last_applied
        }),
    decreases run.len(),
{
    if run.len() > 0 {
        let early = run.drop_last();
        let a = life::lived(start, early);
        let b = life::lived(start, run);
        entries_are_handed_out_once(start, early);
        let out = handed_out(start, early);
        let event = run.last()->Happens_0;
        if event is Ready {
            a_ready_drains(a);
            assert(b == a.drained());
            assert(handed_out(start, run) == out + a.apply_buf);
        } else {
            an_event_hands_out(a, event);
            assert(handed_out(start, run) == out);
            assert(hands_out(a, b));
            let (was, now) = (a.apply_buf, b.apply_buf);
            let base = start.store.base.last_index;
            assert forall|i: int| 0 <= i < now.len() implies (#[trigger] now[i]).index == base + 1
                + out.len() + i by {
                if i < was.len() {
                    assert(now[i] == was[i]);
                }
            }
        }
    }
}

/// What was handed out is gone: a second `ready` right after a first has
/// nothing to hand out, and the first changed nothing else.
pub proof fn a_second_ready_is_empty(node: NodeState)
    ensures
        node.drained().outbox.len() == 0,
        node.drained().apply_buf.len() == 0,
        node.drained().reads_buf.len() == 0,
        node.drained().restore_buf is None,
        node.drained().drained() == node.drained(),
        node.drained() == (NodeState {
            outbox: Seq::empty(),
            apply_buf: Seq::empty(),
            reads_buf: Seq::empty(),
            restore_buf: None,
            ..node
        }),
{
}

} // verus!
