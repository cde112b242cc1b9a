//! What a node answers of the reads that it was asked for, over its whole life.

use vstd::prelude::*;

use crate::raft::cluster::life;
use crate::raft::cluster::{self, Move};
use crate::raft::ids;
use crate::raft::node::laws::{self, Event};
use crate::raft::node::state::{self, ConfChange, NodeState, ReadToken, ReadView, Role};
use crate::raft::rpc::{AppendEntriesResp, AppendView, MessageView, RequestVoteResp};
use crate::raft::types::{EntryType, EntryView, NodeId, Term};

verus! {

/// The event is the answer of `p` that it follows the leader of `term`.
pub open spec fn affirms(event: Event, p: NodeId, term: Term) -> bool {
    event matches Event::Step(from, MessageView::AppendEntriesResp(resp)) && from == p
        && resp.success && resp.term == term
}

/// The event asks a leader for the read, and the read remembers what was
/// committed and sent by then.
pub open spec fn registers(a: NodeState, event: Event, read: ReadView) -> bool {
    &&& event == Event::ReadIndex(read.token)
    &&& a.role == Role::Leader
    &&& read.floor == a.commit_index
    &&& read.barrier == a.send_count
}

/// The read is waiting already, or is asked for now.
pub open spec fn pends(a: NodeState, event: Event, read: ReadView) -> bool {
    a.pending_reads.contains(read) || registers(a, event, read)
}

/// The read may be answered.
pub open spec fn answers(b: NodeState, read: ReadView) -> bool {
    &&& b.role == Role::Leader
    &&& b.readable_term == Some(b.term())
    &&& b.confirmed(read)
}

/// The same leadership, before and after.
pub open spec fn leads_on(a: NodeState, b: NodeState) -> bool {
    a.role == Role::Leader && b.role == Role::Leader && a.term() == b.term()
}

/// The term of which an entry was handed out is the one before, or none, or
/// that of an entry that is about to be handed out.
spec fn readable(a: NodeState, b: NodeState) -> bool {
    ||| b.readable_term == a.readable_term
    ||| b.readable_term is None
    ||| state::has_term(b.apply_buf, b.readable_term->0)
}

/// No read is answered, and those that wait go on waiting.
spec fn waits(a: NodeState, b: NodeState) -> bool {
    &&& b.pending_reads == a.pending_reads
    &&& b.reads_buf == a.reads_buf
    &&& forall|p: NodeId| #[trigger] b.ack(p) == a.ack(p)
    &&& b.role == Role::Leader ==> leads_on(a, b)
    &&& readable(a, b)
}

/// No read is answered, and none waits.
spec fn begins(a: NodeState, b: NodeState) -> bool {
    &&& b.role == Role::Leader ==> b.pending_reads.len() == 0
    &&& b.reads_buf == a.reads_buf
    &&& a.role != Role::Leader
    &&& forall|read: ReadView|
        #[trigger] b.pending_reads.contains(read) ==> a.pending_reads.contains(read)
    &&& readable(a, b)
}

/// What one event does to the reads.
#[verifier::opaque]
pub open spec fn reads_step(a: NodeState, event: Event, b: NodeState) -> bool {
    &&& forall|token: ReadToken| #[trigger]
        b.reads_buf.contains(token) ==> a.reads_buf.contains(token) || (leads_on(a, b) && b.voters
            == a.voters && exists|read: ReadView| #[trigger]
            pends(a, event, read) && read.token == token && answers(b, read))
    &&& forall|read: ReadView| #[trigger]
        b.pending_reads.contains(read) ==> pends(a, event, read)
    &&& b.role == Role::Leader && !leads_on(a, b) ==> b.pending_reads.len() == 0
    &&& leads_on(a, b) ==> forall|p: NodeId|
        (#[trigger] b.ack(p)) <= a.ack(p) || affirms(event, p, b.term())
    &&& b.readable_term == a.readable_term || b.readable_term is None || state::has_term(
        b.apply_buf,
        b.readable_term->0,
    )
}

proof fn waiting(a: NodeState, event: Event, b: NodeState)
    requires
        waits(a, b) || begins(a, b),
    ensures
        reads_step(a, event, b),
{
    reveal(reads_step);
}

/// The answered reads are among those that waited.
proof fn answered(node: NodeState, reads: Seq<ReadView>)
    ensures
        forall|token: ReadToken| #[trigger]
            node.confirmed_tokens(reads).contains(token) ==> exists|read: ReadView| #[trigger]
                reads.contains(read) && read.token == token && node.confirmed(read),
        forall|read: ReadView| #[trigger]
            node.unconfirmed(reads).contains(read) ==> reads.contains(read),
    decreases reads.len(),
{
    if reads.len() > 0 {
        let (early, last) = (reads.drop_last(), reads.last());
        answered(node, early);
        assert(reads.contains(last)) by {
            assert(reads[reads.len() - 1] == last);
        }
        assert forall|read: ReadView| #[trigger] early.contains(read) implies reads.contains(
            read,
        ) by {
            let i = early.index_of(read);
            assert(reads[i] == read);
        }
        let tokens = node.confirmed_tokens(reads);
        assert forall|token: ReadToken| #[trigger] tokens.contains(token) implies exists|
            read: ReadView,
        | #[trigger]
            reads.contains(read) && read.token == token && node.confirmed(read) by {
            let before = node.confirmed_tokens(early);
            let i = tokens.index_of(token);
            if i < before.len() {
                assert(before[i] == token);
                assert(before.contains(token));
                let read = choose|read: ReadView| #[trigger]
                    early.contains(read) && read.token == token && node.confirmed(read);
                assert(reads.contains(read));
            }
        }
        let left = node.unconfirmed(reads);
        assert forall|read: ReadView| #[trigger] left.contains(read) implies reads.contains(
            read,
        ) by {
            let before = node.unconfirmed(early);
            let i = left.index_of(read);
            if i < before.len() {
                assert(before[i] == read);
                assert(before.contains(read));
            }
        }
    }
}

/// The reads are looked at last.
proof fn releasing(a: NodeState, event: Event, mid: NodeState)
    requires
        mid.reads_buf == a.reads_buf,
        mid.role == Role::Leader ==> leads_on(a, mid) && mid.voters == a.voters
            || mid.pending_reads.len() == 0,
        forall|read: ReadView| #[trigger]
            mid.pending_reads.contains(read) ==> pends(a, event, read),
        leads_on(a, mid) ==> forall|p: NodeId|
            (#[trigger] mid.ack(p)) <= a.ack(p) || affirms(event, p, mid.term()),
        readable(a, mid),
    ensures
        reads_step(a, event, mid.release_reads()),
{
    reveal(reads_step);
    let b = mid.release_reads();
    let reads = mid.pending_reads;
    answered(mid, reads);
    let had = a.reads_buf;
    assert forall|token: ReadToken| #[trigger] b.reads_buf.contains(token) implies had.contains(
        token,
    ) || (leads_on(a, b) && b.voters == a.voters && exists|read: ReadView| #[trigger]
        pends(a, event, read) && read.token == token && answers(b, read)) by {
        let i = b.reads_buf.index_of(token);
        if i < a.reads_buf.len() {
            assert(a.reads_buf[i] == token);
        } else {
            let tokens = mid.confirmed_tokens(reads);
            assert(tokens[i - a.reads_buf.len()] == token);
            assert(tokens.contains(token));
            let read = choose|read: ReadView| #[trigger]
                reads.contains(read) && read.token == token && mid.confirmed(read);
            assert(pends(a, event, read));
            assert(b.confirmed(read));
        }
    }
    assert forall|p: NodeId| leads_on(a, b) implies (#[trigger] b.ack(p)) <= a.ack(p) || affirms(
        event,
        p,
        b.term(),
    ) by {
        assert(b.ack(p) == mid.ack(p));
    }
}

/// Committing answers no read.
proof fn committing(a: NodeState)
    ensures
        ({
            let b = a.advance_commit();
            &&& b.pending_reads == a.pending_reads
            &&& b.reads_buf == a.reads_buf
            &&& b.ack_count == a.ack_count
            &&& b.term() == a.term()
            &&& b.voters == a.voters
            &&& b.role == Role::Leader ==> a.role == Role::Leader
            &&& readable(a, b)
        }),
{
    let commit = a.commit_up_to(a.store.last_index() as nat) as u64;
    applying_is_readable(NodeState { commit_index: commit, ..a });
}

proof fn applying_is_readable(a: NodeState)
    ensures
        readable(a, a.advance_apply()),
{
    let b = a.advance_apply();
    let entries = a.unapplied();
    if a.last_applied < a.commit_index && state::has_term(entries, a.term()) {
        let i = choose|i: int| 0 <= i < entries.len() && (#[trigger] entries[i]).term == a.term();
        assert(b.apply_buf[a.apply_buf.len() + i] == entries[i]);
    }
}

proof fn leading(a: NodeState, mid: NodeState)
    requires
        a.role != Role::Leader,
        mid.reads_buf == a.reads_buf,
    ensures
        begins(a, mid.become_leader().node),
        mid.become_leader().node.role == Role::Leader
            ==> mid.become_leader().node.pending_reads.len() == 0,
        mid.become_leader().node.pending_reads.len() == 0,
{
    let crowned = mid.crowned();
    laws::sending_frame(crowned, crowned.others());
    let sent = crowned.broadcast_append().node;
    committing(sent);
    let b = mid.become_leader().node;
    if b.readable_term is Some {
        assert(readable(sent, b));
    }
}

proof fn standing(a: NodeState, mid: NodeState)
    requires
        a.role != Role::Leader,
        mid.reads_buf == a.reads_buf,
        mid.pending_reads == a.pending_reads,
        mid.readable_term == a.readable_term,
    ensures
        begins(a, mid.become_candidate().node),
{
    let stood = mid.standing();
    if stood.votes.len() >= stood.quorum() {
        leading(a, stood);
    }
}

proof fn ticking(a: NodeState)
    ensures
        reads_step(a, Event::Tick, a.tick().node),
{
    if a.role == Role::Leader {
        let beat = NodeState { heartbeat_elapsed: 0, ..a };
        laws::sending_frame(beat, beat.others());
        if a.heartbeat_elapsed + 1 >= a.config.heartbeat_interval {
            let sent = beat.broadcast_append();
            assert forall|p: NodeId| (#[trigger] sent.node.ack(p)) == a.ack(p) by {}
            if sent.fault is None {
                releasing(a, Event::Tick, sent.node);
            } else {
                waiting(a, Event::Tick, sent.node);
            }
        } else {
            let beaten = NodeState { heartbeat_elapsed: (a.heartbeat_elapsed + 1) as u64, ..a };
            assert forall|p: NodeId| (#[trigger] beaten.ack(p)) == a.ack(p) by {}
            releasing(a, Event::Tick, beaten);
        }
    } else {
        let waited = NodeState { elapsed: (a.elapsed + 1) as u64, ..a };
        if waited.elapsed >= waited.election_deadline {
            let asked = waited.asking();
            if asked.votes.len() >= asked.quorum() {
                standing(a, asked);
                let stood = asked.become_candidate();
                if stood.fault is None {
                    releasing(a, Event::Tick, stood.node);
                } else {
                    waiting(a, Event::Tick, stood.node);
                }
            } else {
                releasing(a, Event::Tick, asked);
            }
        } else {
            releasing(a, Event::Tick, waited);
        }
    }
}

proof fn voting(a: NodeState, from: NodeId, resp: RequestVoteResp)
    ensures
        ({
            let b = a.handle_vote_resp(from, resp).node;
            waits(a, b) || begins(a, b)
        }),
{
    let counted = NodeState { votes: a.votes.insert(from), ..a };
    if a.role != Role::Leader {
        standing(a, counted);
        leading(a, counted);
    }
}

proof fn following(a: NodeState, from: NodeId, req: AppendView)
    ensures
        waits(a, a.handle_append_entries(from, req).node),
{
    let node = a.become_follower(req.term, Some(req.leader_id));
    let adopted = node.adopt_entries(req.entries).node;
    let last = adopted.store.last_index();
    let known = if req.leader_commit < last {
        req.leader_commit
    } else {
        last
    };
    applying_is_readable(
        NodeState {
            commit_index: if known > adopted.commit_index {
                known
            } else {
                adopted.commit_index
            },
            ..adopted
        },
    );
}

proof fn crediting(a: NodeState, from: NodeId, resp: AppendEntriesResp)
    ensures
        reads_step(
            a,
            Event::Step(from, MessageView::AppendEntriesResp(resp)),
            a.handle_append_resp(from, resp).node,
        ),
{
    let event = Event::Step(from, MessageView::AppendEntriesResp(resp));
    if resp.term == a.term() && a.role == Role::Leader && resp.success {
        let acked = a.acknowledged(from);
        committing(acked);
        let mid = acked.advance_commit();
        assert forall|p: NodeId| (#[trigger] mid.ack(p)) <= a.ack(p) || affirms(
            event,
            p,
            mid.term(),
        ) by {
            if p != from {
                assert(acked.ack(p) == a.ack(p));
            }
        }
        releasing(a, event, mid);
    } else {
        waiting(a, event, a.handle_append_resp(from, resp).node);
    }
}

proof fn adding(a: NodeState, e: EntryView)
    ensures
        a.role == Role::Leader ==> waits(a, a.with_own_entry(e).broadcast_append().node),
        a.role == Role::Leader ==> waits(
            a,
            a.with_own_entry(e).broadcast_append().node.advance_commit(),
        ),
{
    let own = a.with_own_entry(e);
    laws::sending_frame(own, own.others());
    committing(own.broadcast_append().node);
}

proof fn changing(a: NodeState, change: ConfChange)
    ensures
        waits(a, a.propose_conf_change(change).node),
{
    let voting = a.with_own_entry(
        EntryView {
            term: a.term(),
            index: (a.store.last_index() + 1) as u64,
            command: state::voters_bytes(a.changed_voters(change)),
            entry_type: EntryType::ConfigChange,
        },
    ).recompute_voters();
    let seeded = voting.node.seeded(change);
    laws::sending_frame(seeded, seeded.others());
}

proof fn asking(a: NodeState, token: ReadToken)
    ensures
        reads_step(a, Event::ReadIndex(token), a.read_index(token).node),
{
    let event = Event::ReadIndex(token);
    if a.role == Role::Leader {
        let read = ReadView { token, floor: a.commit_index, barrier: a.send_count };
        let asked = NodeState { pending_reads: a.pending_reads.push(read), ..a };
        laws::sending_frame(asked, asked.others());
        let sent = asked.broadcast_append();
        let mid = sent.node;
        assert(registers(a, event, read));
        assert forall|r: ReadView| #[trigger] mid.pending_reads.contains(r) implies pends(
            a,
            event,
            r,
        ) by {
            let i = mid.pending_reads.index_of(r);
            if i < a.pending_reads.len() {
                assert(a.pending_reads[i] == r);
            }
        }
        assert forall|p: NodeId| (#[trigger] mid.ack(p)) == a.ack(p) by {}
        if sent.fault is None {
            releasing(a, event, mid);
        } else {
            reveal(reads_step);
        }
    } else {
        waiting(a, event, a);
    }
}

/// What every event does to the reads.
proof fn an_event_reads(a: NodeState, event: Event)
    requires
        a.admits(event),
    ensures
        reads_step(a, event, cluster::outcome(a, event)),
{
    reveal(cluster::outcome);
    let b = a.after(event).node;
    match event {
        Event::Tick => ticking(a),
        Event::Step(from, message) => match message {
            MessageView::RequestVote(req) => waiting(a, event, b),
            MessageView::RequestVoteResp(resp) => {
                voting(a, from, resp);
                waiting(a, event, b);
            },
            MessageView::AppendEntries(req) => {
                following(a, from, req);
                waiting(a, event, b);
            },
            MessageView::AppendEntriesResp(resp) => crediting(a, from, resp),
            MessageView::InstallSnapshot(req) => waiting(a, event, b),
            MessageView::InstallSnapshotResp(resp) => waiting(a, event, b),
        },
        Event::Propose(command) => {
            adding(
                a,
                EntryView {
                    term: a.term(),
                    index: (a.store.last_index() + 1) as u64,
                    command,
                    entry_type: EntryType::Normal,
                },
            );
            waiting(a, event, b);
        },
        Event::ProposeConfChange(change) => {
            changing(a, change);
            waiting(a, event, b);
        },
        Event::ReadIndex(token) => asking(a, token),
        Event::Compact(index, data) => waiting(a, event, b),
        Event::Ready => {
            reveal(reads_step);
        },
    }
}

// ---- a life ----

/// At move `m` of the run `p` answered that it follows the leader of `term`.
pub open spec fn affirmed_at(run: Seq<Move>, m: int, p: NodeId, term: Term) -> bool {
    &&& 0 <= m < run.len()
    &&& run[m] matches Move::Happens(event) && affirms(event, p, term)
}

/// The node itself, and whoever affirmed the leader of `term` from move `k` up
/// to move `n`.
pub open spec fn affirming(run: Seq<Move>, k: int, n: int, id: NodeId, term: Term) -> spec_fn(
    NodeId,
) -> bool {
    |p: NodeId| p == id || exists|m: int| k <= m < n && #[trigger] affirmed_at(run, m, p, term)
}

/// The node leads `term` all the time from moment `k` to moment `n`.
pub open spec fn leads_through(
    start: NodeState,
    run: Seq<Move>,
    k: int,
    n: int,
    term: Term,
) -> bool {
    forall|i: int|
        k <= i <= n ==> (#[trigger] life::moment(start, run, i)).role == Role::Leader
            && life::moment(start, run, i).term() == term
}

/// An entry of `term` was handed out to be applied, or was about to be, by
/// moment `n`.
pub open spec fn applied_by(start: NodeState, run: Seq<Move>, n: int, term: Term) -> bool {
    exists|m: int|
        0 <= m <= n && state::has_term((#[trigger] life::moment(start, run, m)).apply_buf, term)
}

/// The read was asked for at move `k`.
spec fn registered_at(start: NodeState, run: Seq<Move>, k: int, read: ReadView) -> bool {
    &&& 0 <= k < run.len()
    &&& run[k] == Move::Happens(Event::ReadIndex(read.token))
    &&& registers(life::moment(start, run, k), Event::ReadIndex(read.token), read)
}

/// The read was asked for at move `k` and answered at moment `n`: the node led
/// the same term all the time in between, had applied an entry of that term and
/// all that was committed when the read was asked for, and a majority of the
/// voters, the node itself counted, had affirmed it as leader in that time.
pub open spec fn answered_soundly(
    start: NodeState,
    run: Seq<Move>,
    k: int,
    n: int,
    token: ReadToken,
) -> bool {
    let (asked, at) = (life::moment(start, run, k), life::moment(start, run, n));
    &&& 0 <= k < n <= run.len()
    &&& run[k] == Move::Happens(Event::ReadIndex(token))
    &&& leads_through(start, run, k, n, asked.term())
    &&& applied_by(start, run, n, asked.term())
    &&& asked.commit_index <= at.last_applied
    &&& ids::tally(at.voters, affirming(run, k, n, at.config.id, asked.term())) >= at.quorum()
}

/// A start forgets the reads.
proof fn a_restart_reads(a: NodeState)
    requires
        cluster::restarted(a).fault is None,
    ensures
        cluster::restarted(a).node.role == Role::Follower,
        cluster::restarted(a).node.pending_reads.len() == 0,
        cluster::restarted(a).node.reads_buf.len() == 0,
        cluster::restarted(a).node.readable_term is None,
{
    reveal(cluster::restarted);
}

/// A move of a life, as far as the reads go.
proof fn one_move(start: NodeState, run: Seq<Move>, n: int)
    requires
        life::liveable(start, run),
        0 <= n < run.len(),
    ensures
        ({
            let (a, b) = (life::moment(start, run, n), life::moment(start, run, n + 1));
            match run[n] {
                Move::Happens(event) => a.wf() && reads_step(a, event, b),
                Move::Restarts => {
                    &&& b.role == Role::Follower
                    &&& b.pending_reads.len() == 0
                    &&& b.reads_buf.len() == 0
                    &&& b.readable_term is None
                },
            }
        }),
{
    life::next_moment(start, run, n);
    let a = life::moment(start, run, n);
    match run[n] {
        Move::Happens(event) => an_event_reads(a, event),
        Move::Restarts => a_restart_reads(a),
    }
}

proof fn first_moment(start: NodeState, run: Seq<Move>)
    requires
        life::liveable(start, run),
    ensures
        life::moment(start, run, 0) == start,
        start.role == Role::Follower,
        start.pending_reads.len() == 0,
        start.reads_buf.len() == 0,
        start.readable_term is None,
{
    life::early_life(start, run, 0);
}

/// A term is readable once an entry of it was applied.
proof fn readable_since(start: NodeState, run: Seq<Move>, n: int)
    requires
        life::liveable(start, run),
        0 <= n <= run.len(),
    ensures
        life::moment(start, run, n).readable_term matches Some(term) ==> applied_by(
            start,
            run,
            n,
            term,
        ),
    decreases n,
{
    if n == 0 {
        first_moment(start, run);
    } else {
        readable_since(start, run, n - 1);
        one_move(start, run, n - 1);
        let (a, b) = (life::moment(start, run, n - 1), life::moment(start, run, n));
        reveal(reads_step);
        if b.readable_term is Some {
            let term = b.readable_term->0;
            if b.readable_term == a.readable_term {
                let m = choose|m: int|
                    0 <= m <= n - 1 && state::has_term(
                        (#[trigger] life::moment(start, run, m)).apply_buf,
                        term,
                    );
                assert(state::has_term(life::moment(start, run, m).apply_buf, term));
            }
        }
    }
}

/// A read that a leader keeps waiting was asked for in this leadership.
proof fn waiting_since(start: NodeState, run: Seq<Move>, n: int, read: ReadView) -> (k: int)
    requires
        life::liveable(start, run),
        0 <= n <= run.len(),
        life::moment(start, run, n).role == Role::Leader,
        life::moment(start, run, n).pending_reads.contains(read),
    ensures
        0 <= k < n,
        registered_at(start, run, k, read),
        leads_through(start, run, k, n, life::moment(start, run, n).term()),
    decreases n,
{
    if n == 0 {
        first_moment(start, run);
        0
    } else {
        one_move(start, run, n - 1);
        let (a, b) = (life::moment(start, run, n - 1), life::moment(start, run, n));
        reveal(reads_step);
        let event = run[n - 1]->Happens_0;
        assert(run[n - 1] == Move::Happens(event));
        assert(leads_on(a, b));
        assert(pends(a, event, read));
        if a.pending_reads.contains(read) {
            waiting_since(start, run, n - 1, read)
        } else {
            n - 1
        }
    }
}

/// More answers were counted only where an answer came.
proof fn counted_answers_came(
    start: NodeState,
    run: Seq<Move>,
    k: int,
    n: int,
    p: NodeId,
    term: Term,
)
    requires
        life::liveable(start, run),
        0 <= k <= n <= run.len(),
        leads_through(start, run, k, n, term),
        life::moment(start, run, n).ack(p) > life::moment(start, run, k).ack(p),
    ensures
        exists|m: int| k <= m < n && #[trigger] affirmed_at(run, m, p, term),
    decreases n,
{
    one_move(start, run, n - 1);
    let (a, b) = (life::moment(start, run, n - 1), life::moment(start, run, n));
    reveal(reads_step);
    assert(leads_on(a, b));
    let event = run[n - 1]->Happens_0;
    if affirms(event, p, term) {
        assert(affirmed_at(run, n - 1, p, term));
    } else {
        counted_answers_came(start, run, k, n - 1, p, term);
    }
}

/// Whoever is counted for a read has answered since it was asked for.
proof fn contacts_affirmed(
    start: NodeState,
    run: Seq<Move>,
    k: int,
    n: int,
    read: ReadView,
    voters: Set<NodeId>,
)
    requires
        life::liveable(start, run),
        0 <= k < n <= run.len(),
        registered_at(start, run, k, read),
        leads_through(start, run, k, n, life::moment(start, run, k).term()),
        voters.finite(),
    ensures
        ({
            let (asked, at) = (life::moment(start, run, k), life::moment(start, run, n));
            ids::tally(voters, state::in_touch(at.config.id, at.ack_count, read.barrier))
                <= ids::tally(voters, affirming(run, k, n, at.config.id, asked.term()))
        }),
{
    let (asked, at) = (life::moment(start, run, k), life::moment(start, run, n));
    let touched = voters.filter(state::in_touch(at.config.id, at.ack_count, read.barrier));
    let affirmed = voters.filter(affirming(run, k, n, at.config.id, asked.term()));
    one_move(start, run, k);
    assert forall|p: NodeId| touched.contains(p) implies affirmed.contains(p) by {
        if p != at.config.id {
            assert(at.ack(p) > asked.sent(p));
            assert(state::queue_of(asked.inflight, p).len() >= 0);
            assert(asked.ack(p) <= asked.sent(p));
            counted_answers_came(start, run, k, n, p, asked.term());
        }
    }
    voters.lemma_len_filter(affirming(run, k, n, at.config.id, asked.term()));
    vstd::set_lib::lemma_len_subset(touched, affirmed);
}

/// A read is answered only soundly. Whatever is called on a node, and however
/// often it stops and starts again: a token that is handed out as answered was
/// asked for by a call while the node led; the node led that term all the time
/// since; an entry of that term was applied, and so was all that had been
/// committed when the read was asked for; and after that a majority of the
/// voters, the node itself counted, affirmed it as the leader of that term.
pub proof fn reads_are_answered_soundly(
    start: NodeState,
    run: Seq<Move>,
    n: int,
    token: ReadToken,
)
    requires
        life::liveable(start, run),
        0 <= n <= run.len(),
        life::moment(start, run, n).reads_buf.contains(token),
    ensures
        exists|k: int, r: int| r <= n && #[trigger] answered_soundly(start, run, k, r, token),
    decreases n,
{
    if n == 0 {
        first_moment(start, run);
    } else {
        one_move(start, run, n - 1);
        let (a, b) = (life::moment(start, run, n - 1), life::moment(start, run, n));
        reveal(reads_step);
        if a.reads_buf.contains(token) {
            reads_are_answered_soundly(start, run, n - 1, token);
            let (k, r) = choose|k: int, r: int|
                r <= n - 1 && #[trigger] answered_soundly(start, run, k, r, token);
            assert(r <= n && answered_soundly(start, run, k, r, token));
        } else {
            let event = run[n - 1]->Happens_0;
            let read = choose|read: ReadView| #[trigger]
                pends(a, event, read) && read.token == token && answers(b, read);
            let k = if a.pending_reads.contains(read) {
                waiting_since(start, run, n - 1, read)
            } else {
                n - 1
            };
            assert(registered_at(start, run, k, read));
            assert(life::moment(start, run, k).term() == a.term());
            assert(leads_through(start, run, k, n, a.term()));
            readable_since(start, run, n);
            contacts_affirmed(start, run, k, n, read, b.voters);
            assert(answered_soundly(start, run, k, n, token));
        }
    }
}

/// A node that does not lead answers no read, and with its next tick it forgets
/// those that waited.
pub proof fn a_tick_forgets_the_reads(a: NodeState)
    requires
        a.role != Role::Leader,
        a.tick().fault is None,
    ensures
        a.tick().node.pending_reads.len() == 0,
        a.tick().node.reads_buf == a.reads_buf,
{
    let waited = NodeState { elapsed: (a.elapsed + 1) as u64, ..a };
    let asked = waited.asking();
    standing(a, asked);
}

} // verus!
