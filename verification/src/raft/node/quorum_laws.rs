//! Majorities, membership on disk, and what they guarantee.

use vstd::prelude::*;

use crate::bytes;
use crate::error;
use crate::raft::ids;
use crate::raft::node::laws::{self, Event};
use crate::raft::node::state::{self, ConfChange, NodeState, Role};
use crate::raft::rpc::{AppendView, InstallView, MessageView, RequestVoteResp};
use crate::raft::types::{EntryType, EntryView, NodeId};

verus! {

/// `group` is a majority of `voters`.
pub open spec fn is_majority(group: Set<NodeId>, voters: Set<NodeId>) -> bool {
    group.subset_of(voters) && group.len() >= state::majority(voters.len())
}

/// Two majorities of the same voters have a voter in common.
pub proof fn majorities_meet(a: Set<NodeId>, b: Set<NodeId>, voters: Set<NodeId>)
    requires
        voters.finite(),
        is_majority(a, voters),
        is_majority(b, voters),
    ensures
        exists|p: NodeId| a.contains(p) && b.contains(p),
{
    majorities_meet_within(a, b, voters, voters, voters);
}

/// Subsets of `all` whose sizes add up to more than its own have a member in
/// common.
pub(crate) proof fn majorities_meet_within(
    a: Set<NodeId>,
    b: Set<NodeId>,
    va: Set<NodeId>,
    vb: Set<NodeId>,
    all: Set<NodeId>,
)
    requires
        all.finite(),
        is_majority(a, va),
        is_majority(b, vb),
        va.subset_of(all),
        vb.subset_of(all),
        state::majority(va.len()) + state::majority(vb.len()) > all.len(),
    ensures
        exists|p: NodeId| a.contains(p) && b.contains(p),
{
    if forall|p: NodeId| !(a.contains(p) && b.contains(p)) {
        vstd::set_lib::lemma_set_subset_finite(all, a);
        vstd::set_lib::lemma_set_subset_finite(all, b);
        assert(a.disjoint(b));
        vstd::set_lib::lemma_set_disjoint_lens(a, b);
        assert((a + b).subset_of(all));
        vstd::set_lib::lemma_len_subset(a + b, all);
    }
}

/// A majority before a single-server change and one after it have a voter in
/// common: there is no moment at which the two memberships could elect two
/// leaders independently.
pub proof fn majorities_meet_across_a_change(
    node: NodeState,
    change: ConfChange,
    before: Set<NodeId>,
    after: Set<NodeId>,
)
    requires
        node.voters.finite(),
        is_majority(before, node.voters),
        is_majority(after, node.changed_voters(change)),
    ensures
        exists|p: NodeId| before.contains(p) && after.contains(p),
{
    let (old_voters, new_voters) = (node.voters, node.changed_voters(change));
    match change {
        ConfChange::AddVoter(id) => {
            assert(old_voters.subset_of(new_voters));
            majorities_meet_within(before, after, old_voters, new_voters, new_voters);
        },
        ConfChange::RemoveVoter(id) => {
            assert(new_voters.subset_of(old_voters));
            majorities_meet_within(before, after, old_voters, new_voters, old_voters);
        },
    }
}

/// At most one candidate wins a term. `vote` says whom each node voted for in
/// the term, which a node never changes; two candidates that each have the
/// votes of a majority, of one membership or of two that differ by one change,
/// are the same.
pub proof fn one_winner_per_term(
    node: NodeState,
    change: Option<ConfChange>,
    vote: Map<NodeId, NodeId>,
    a: NodeId,
    for_a: Set<NodeId>,
    b: NodeId,
    for_b: Set<NodeId>,
)
    requires
        node.voters.finite(),
        is_majority(for_a, node.voters),
        match change {
            None => is_majority(for_b, node.voters),
            Some(change) => is_majority(for_b, node.changed_voters(change)),
        },
        forall|p: NodeId| for_a.contains(p) ==> vote.contains_key(p) && #[trigger] vote[p] == a,
        forall|p: NodeId| for_b.contains(p) ==> vote.contains_key(p) && #[trigger] vote[p] == b,
    ensures
        a == b,
{
    match change {
        None => majorities_meet(for_a, for_b, node.voters),
        Some(change) => majorities_meet_across_a_change(node, change, for_a, for_b),
    }
    let p = choose|p: NodeId| for_a.contains(p) && for_b.contains(p);
    assert(vote[p] == a);
    assert(vote[p] == b);
}

proof fn id_bytes_at(q: Seq<NodeId>, i: int)
    requires
        0 <= i < q.len(),
    ensures
        state::id_bytes(q).len() == 8 * q.len(),
        state::id_bytes(q).subrange(8 * i, 8 * i + 8) == bytes::le64(q[i]),
    decreases q.len(),
{
    let head = state::id_bytes(q.drop_last());
    bytes::le64_round_trip(q.last());
    if q.len() == 1 {
        assert(q.drop_last().len() == 0);
        assert(head.len() == 0);
    } else {
        id_bytes_at(q.drop_last(), if i < q.len() - 1 {
            i
        } else {
            0
        });
    }
    let all = head + bytes::le64(q.last());
    if i < q.len() - 1 {
        assert(all.subrange(8 * i, 8 * i + 8) =~= head.subrange(8 * i, 8 * i + 8));
    } else {
        assert(all.subrange(8 * i, 8 * i + 8) =~= bytes::le64(q.last()));
    }
}

/// A finite set of ids has an ascending listing.
pub(crate) proof fn has_listing(s: Set<NodeId>)
    requires
        s.finite(),
    ensures
        ids::lists(ids::ascending(s), s),
        ids::ascending(s).len() == s.len(),
    decreases s.len(),
{
    if s.len() == 0 {
        s.lemma_len0_is_empty();
        let q = Seq::<NodeId>::empty();
        assert(q.to_set() =~= s);
        assert(ids::lists(q, s));
        ids::ascending_is(q, s);
    } else {
        let r = |a: NodeId, b: NodeId| a <= b;
        let top = s.find_unique_maximal(r);
        s.find_unique_maximal_ensures(r);
        let rest = s.remove(top);
        has_listing(rest);
        let q = ids::ascending(rest).push(top);
        assert forall|i: int, j: int| 0 <= i < j < q.len() implies q[i] < q[j] by {
            if j == q.len() - 1 {
                assert(rest.contains(q[i])) by {
                    assert(ids::ascending(rest).to_set().contains(q[i]));
                }
                if top <= q[i] {
                    assert(r(top, q[i]));
                    assert(r(q[i], top));
                }
            }
        }
        assert(q.to_set() =~= s) by {
            ids::ascending(rest).lemma_push_to_set_commute(top);
            assert(rest.insert(top) =~= s);
        }
        assert(ids::lists(q, s));
        ids::ascending_is(q, s);
    }
}

/// A voter set reads back from its bytes.
pub proof fn voters_round_trip(voters: Set<NodeId>)
    requires
        voters.finite(),
        voters.len() <= u32::MAX,
    ensures
        state::voters_of(state::voters_bytes(voters)) == Ok::<Set<NodeId>, error::Fault>(voters),
        state::voters_bytes(voters).len() == 4 + 8 * voters.len(),
{
    has_listing(voters);
    let q = ids::ascending(voters);
    let count = voters.len() as u32;
    let all = state::voters_bytes(voters);
    bytes::le32_round_trip(count);
    if q.len() > 0 {
        id_bytes_at(q, 0);
    }
    assert(all.subrange(0, 4) =~= bytes::le32(count));
    assert(bytes::u32_at(all, 0) == count);
    let list = state::id_list(all, count as nat);
    assert forall|i: int| 0 <= i < list.len() implies list[i] == q[i] by {
        id_bytes_at(q, i);
        bytes::le64_round_trip(q[i]);
        assert(all.subrange(4 + 8 * i, 4 + 8 * i + 8) =~= state::id_bytes(q).subrange(
            8 * i,
            8 * i + 8,
        ));
    }
    assert(list =~= q);
}

/// The node lives by the membership that its store calls for.
pub open spec fn lives_by_its_store(node: NodeState) -> bool {
    state::membership(node.store, node.config.peers) == Ok::<Set<NodeId>, error::Fault>(
        node.voters,
    )
}

/// More voters than can be counted do not read back.
pub(crate) proof fn too_many_voters(voters: Set<NodeId>)
    requires
        voters.finite(),
        voters.len() > u32::MAX,
    ensures
        state::voters_of(state::voters_bytes(voters)) is Err,
{
    has_listing(voters);
    let q = ids::ascending(voters);
    let count = voters.len() as u32;
    bytes::le32_round_trip(count);
    id_bytes_at(q, 0);
}

pub(crate) proof fn config_of_push(entries: Seq<EntryView>, entry: EntryView)
    ensures
        state::latest_config(entries + seq![entry]) == if entry.entry_type
            == EntryType::ConfigChange {
            Some(entry.command)
        } else {
            state::latest_config(entries)
        },
{
    let all = entries + seq![entry];
    assert(all.drop_last() =~= entries);
    assert(all.last() == entry);
}

proof fn config_of_skip(entries: Seq<EntryView>, n: int)
    requires
        0 <= n <= entries.len(),
    ensures
        state::latest_config(entries.skip(n)) is Some ==> state::latest_config(entries)
            == state::latest_config(entries.skip(n)),
    decreases entries.len() - n,
{
    let rest = entries.skip(n);
    if rest.len() > 0 {
        assert(rest.last() == entries.last());
        assert(rest.drop_last() =~= entries.drop_last().skip(n));
        config_of_skip(entries.drop_last(), n);
    }
}

/// An accepted change is live as soon as it is appended, before it commits.
pub proof fn a_change_is_live_at_once(node: NodeState, change: ConfChange)
    requires
        node.wf(),
        node.accepts_change(change),
        node.voters.len() < u32::MAX,
    ensures
        node.propose_conf_change(change).node.voters == node.changed_voters(change),
        lives_by_its_store(node.propose_conf_change(change).node),
{
    let voters = node.changed_voters(change);
    assert(voters.finite() && voters.len() <= u32::MAX);
    voters_round_trip(voters);
    let entry = EntryView {
        term: node.term(),
        index: (node.store.last_index() + 1) as u64,
        command: state::voters_bytes(voters),
        entry_type: EntryType::ConfigChange,
    };
    config_of_push(node.store.entries, entry);
    let seeded = node.with_own_entry(entry).recompute_voters().node.seeded(change);
    laws::sending_frame(seeded, seeded.others());
}

/// The membership survives compaction: what a snapshot swallowed, it recorded.
pub proof fn compaction_keeps_the_membership(node: NodeState, index: u64, data: Seq<u8>)
    requires
        node.wf(),
        node.voters.len() <= u32::MAX,
        lives_by_its_store(node),
        node.compact(index, data).fault is None,
    ensures
        lives_by_its_store(node.compact(index, data).node),
{
    voters_round_trip(node.voters);
    let after = node.compact(index, data).node;
    assert(after.store.entries == node.store.entries.skip(index - node.store.base.last_index) || (
    after.store.entries.len() == 0 && index == node.store.last_index()));
    config_of_skip(node.store.entries, index - node.store.base.last_index);
}

/// A restart over the same store keeps the term, the vote, the log and the
/// membership, and commits nothing that the snapshot does not cover.
pub proof fn a_restart_keeps_what_was_stored(node: NodeState)
    requires
        lives_by_its_store(node),
    ensures
        ({
            let restarted = NodeState::started(node.config, node.store);
            &&& restarted.fault is None
            &&& restarted.node.store == node.store
            &&& restarted.node.voters == node.voters
            &&& restarted.node.role == Role::Follower
            &&& restarted.node.commit_index == node.store.base.last_index
            &&& lives_by_its_store(restarted.node)
        }),
{
}

proof fn leading_lives(node: NodeState)
    requires
        lives_by_its_store(node),
    ensures
        lives_by_its_store(node.become_leader().node),
{
    laws::leading_frame(node);
    config_of_push(node.store.entries, node.noop());
}

proof fn standing_lives(node: NodeState)
    requires
        lives_by_its_store(node),
    ensures
        lives_by_its_store(node.become_candidate().node),
{
    let term = (node.term() + 1) as u64;
    let standing = NodeState { role: Role::Candidate, votes: node.own_vote(), ..node }
        .with_hard_state(
            crate::raft::types::HardState {
                current_term: term,
                voted_for: Some(node.config.id),
            },
        ).reset_election_timer().send_each(node.others(), node.vote_request(term, false));
    leading_lives(standing);
}

proof fn tick_lives(node: NodeState)
    requires
        lives_by_its_store(node),
    ensures
        lives_by_its_store(node.tick().node),
{
    let beat = NodeState { heartbeat_elapsed: 0, ..node };
    laws::sending_frame(beat, beat.others());
    let waited = NodeState { elapsed: (node.elapsed + 1) as u64, ..node };
    let asked = NodeState {
        role: Role::PreCandidate,
        leader: None,
        votes: waited.own_vote(),
        ..waited
    }.send_each(
        waited.others(),
        waited.vote_request((waited.term() + 1) as u64, true),
    ).reset_election_timer();
    standing_lives(asked);
}

proof fn vote_resp_lives(node: NodeState, from: NodeId, resp: RequestVoteResp)
    requires
        lives_by_its_store(node),
    ensures
        lives_by_its_store(node.handle_vote_resp(from, resp).node),
{
    let counted = NodeState { votes: node.votes.insert(from), ..node };
    standing_lives(counted);
    leading_lives(counted);
}

proof fn append_lives(node: NodeState, from: NodeId, req: AppendView)
    requires
        lives_by_its_store(node),
        node.handle_append_entries(from, req).fault is None,
    ensures
        lives_by_its_store(node.handle_append_entries(from, req).node),
{
    let following = node.become_follower(req.term, Some(req.leader_id));
    assert(lives_by_its_store(following));
    let adopted = following.adopt_entries(req.entries);
    if adopted.fault is None {
        assert(lives_by_its_store(adopted.node));
    }
}

proof fn install_lives(node: NodeState, from: NodeId, req: InstallView)
    requires
        lives_by_its_store(node),
        node.handle_install_snapshot(from, req).fault is None,
    ensures
        lives_by_its_store(node.handle_install_snapshot(from, req).node),
{
    let following = node.become_follower(req.term, Some(req.leader_id));
    assert(lives_by_its_store(following));
    let installed = following.install(req);
    if installed.fault is None {
        assert(lives_by_its_store(installed.node));
    }
}

proof fn step_lives(node: NodeState, from: NodeId, message: MessageView)
    requires
        lives_by_its_store(node),
        node.step(from, message).fault is None,
    ensures
        lives_by_its_store(node.step(from, message).node),
{
    match message {
        MessageView::RequestVote(req) => {},
        MessageView::RequestVoteResp(resp) => vote_resp_lives(node, from, resp),
        MessageView::AppendEntries(req) => append_lives(node, from, req),
        MessageView::AppendEntriesResp(resp) => laws::commit_frame(node.acknowledged(from)),
        MessageView::InstallSnapshot(req) => install_lives(node, from, req),
        MessageView::InstallSnapshotResp(resp) => {},
    }
}

proof fn propose_lives(node: NodeState, command: Seq<u8>)
    requires
        lives_by_its_store(node),
    ensures
        lives_by_its_store(node.propose(command).node),
{
    let entry = EntryView {
        term: node.term(),
        index: (node.store.last_index() + 1) as u64,
        command,
        entry_type: EntryType::Normal,
    };
    let own = node.with_own_entry(entry);
    config_of_push(node.store.entries, entry);
    laws::sending_frame(own, own.others());
    laws::commit_frame(own.broadcast_append().node);
}

/// A node lives by the membership that its store calls for, whatever happens
/// to it: a change takes effect when it is appended, is undone when it is
/// truncated, and outlasts compaction, snapshots and restarts.
pub proof fn the_membership_follows_the_store(node: NodeState, event: Event)
    requires
        node.admits(event),
        node.voters.len() < u32::MAX,
        lives_by_its_store(node),
        node.after(event).fault is None,
    ensures
        lives_by_its_store(node.after(event).node),
{
    match event {
        Event::Tick => tick_lives(node),
        Event::Step(from, message) => step_lives(node, from, message),
        Event::Propose(command) => propose_lives(node, command),
        Event::ProposeConfChange(change) => {
            if node.accepts_change(change) {
                a_change_is_live_at_once(node, change);
            }
        },
        Event::ReadIndex(token) => {
            let asked = NodeState {
                pending_reads: node.pending_reads.push(
                    state::ReadView { token, floor: node.commit_index, barrier: node.send_count },
                ),
                ..node
            };
            laws::sending_frame(asked, asked.others());
        },
        Event::Compact(index, data) => compaction_keeps_the_membership(node, index, data),
        Event::Ready => {},
    }
}

/// Eight bytes of the list, the `k`-th after the count, say the id.
pub open spec fn lists_at(list: Seq<u8>, k: int, id: NodeId) -> bool {
    list.subrange(4 + 8 * k, 12 + 8 * k) == bytes::le64(id)
}

/// A list of voters is read exactly if it is as long as its first four bytes
/// say, at eight bytes for each; then the voters are those that it lists.
pub proof fn a_list_says_who_the_voters_are(list: Seq<u8>)
    ensures
        state::voters_of(list) is Ok <==> list.len() >= 4 && list.len() == 4 + 8 * bytes::number(
            list.take(4),
        ),
        state::voters_of(list) matches Ok(voters) ==> forall|id: NodeId| #[trigger]
            voters.contains(id) <==> exists|k: int|
                0 <= k < bytes::number(list.take(4)) && #[trigger] lists_at(list, k, id),
{
    if list.len() >= 4 {
        bytes::le_of_number(list.take(4));
        bytes::capacities();
        assert(list.subrange(0, 4) =~= list.take(4));
        let count = bytes::number(list.take(4));
        if let Ok(voters) = state::voters_of(list) {
            let ids = state::id_list(list, count);
            listed_ids(list, count);
            assert forall|id: NodeId| #[trigger] voters.contains(id) <==> exists|k: int|
                0 <= k < count && #[trigger] lists_at(list, k, id) by {
                if voters.contains(id) {
                    let k = choose|k: int| 0 <= k < ids.len() && ids[k] == id;
                    assert(lists_at(list, k, ids[k]));
                }
                if exists|k: int| 0 <= k < count && #[trigger] lists_at(list, k, id) {
                    let k = choose|k: int| 0 <= k < count && #[trigger] lists_at(list, k, id);
                    assert(lists_at(list, k, ids[k]));
                    bytes::le64_round_trip(id);
                    bytes::le64_round_trip(ids[k]);
                    assert(ids[k] == id);
                    assert(ids.contains(id));
                }
            }
        }
    }
}

proof fn listed_ids(list: Seq<u8>, n: nat)
    requires
        list.len() >= 4 + 8 * n,
    ensures
        state::id_list(list, n).len() == n,
        forall|k: int|
            0 <= k < n ==> lists_at(list, k, #[trigger] state::id_list(list, n)[k]),
{
    assert forall|k: int| 0 <= k < n implies lists_at(
        list,
        k,
        #[trigger] state::id_list(list, n)[k],
    ) by {
        bytes::le_of_number(list.subrange(4 + 8 * k, 12 + 8 * k));
        bytes::capacities();
    }
}

} // verus!
