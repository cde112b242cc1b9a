//! Whole clusters, driven message by message under faults: crashes, partitions,
//! lost appends, reordered delivery, compaction, changing membership.
//!
//! Every run is deterministic. Whatever the faults, no term has two leaders, no
//! two nodes apply different entries at one index, and the leader that the
//! cluster settles on holds everything that was ever committed.

use std::collections::{BTreeMap, BTreeSet};

use cairn::raft::node::{ConfChange, Config, RaftCore, Role, SplitMix64};
use cairn::raft::oplog::{Op, OpWriter, read_all};
use cairn::raft::rpc::Message;
use cairn::raft::storage::MemStorage;
use cairn::raft::types::{LogEntry, LogIndex, NodeId, SnapshotMeta, Term};

/// The harness's own source of randomness.
struct Picker(SplitMix64);

impl Picker {
    fn below(&mut self, n: usize) -> usize {
        (self.0.next_u64() % n as u64) as usize
    }
}

const MAX_ROUNDS: usize = 200;
const STABLE_ROUNDS_REQUIRED: usize = 2;

/// Applied entries as the payload of a snapshot.
fn pack(entries: &[LogEntry]) -> Vec<u8> {
    let mut w = OpWriter::create();
    for entry in entries {
        w.append(&Op::Append(entry.clone()));
    }
    w.take()
}

fn unpack(data: &[u8]) -> Vec<LogEntry> {
    read_all(data)
        .into_iter()
        .map(|op| match op {
            Op::Append(entry) => entry,
            other => panic!("a snapshot holds entries only, found {other:?}"),
        })
        .collect()
}

struct LeaderSnapshot {
    term: Term,
    leader: NodeId,
    applied: Vec<LogEntry>,
}

struct Cluster {
    ids: Vec<NodeId>,
    index_of: BTreeMap<NodeId, usize>,
    configs: Vec<Config>,
    nodes: Vec<Option<RaftCore<MemStorage>>>,
    crashed_storage: Vec<Option<MemStorage>>,
    inflight: Vec<(NodeId, NodeId, Message)>,
    applied: Vec<Vec<LogEntry>>,
    partitions: Option<(Vec<NodeId>, Vec<NodeId>)>,
    block_appends_to: BTreeSet<NodeId>,
    reorder: bool,
    rng: Picker,
    leader_observations: Vec<(Term, NodeId)>,
    leader_snapshots: Vec<LeaderSnapshot>,
    committed_by_index: BTreeMap<LogIndex, LogEntry>,
    non_fifo_deliveries: usize,
    election_timeout: u64,
    heartbeat_interval: u64,
    seed: u64,
    expected_voters: BTreeSet<NodeId>,
    restore_events: Vec<NodeId>,
}

impl Cluster {
    fn new(ids: &[NodeId], election_timeout: u64, heartbeat_interval: u64, seed: u64) -> Self {
        let mut index_of = BTreeMap::new();
        let mut configs = Vec::new();
        let mut nodes = Vec::new();
        for (idx, &id) in ids.iter().enumerate() {
            index_of.insert(id, idx);
            let config = Config {
                id,
                peers: ids.to_vec(),
                election_timeout,
                heartbeat_interval,
                seed,
            };
            let core = RaftCore::new(config.clone(), MemStorage::default())
                .expect("RaftCore::new must succeed with fresh MemStorage");
            configs.push(config);
            nodes.push(Some(core));
        }
        let n = ids.len();
        Cluster {
            ids: ids.to_vec(),
            index_of,
            configs,
            nodes,
            crashed_storage: (0..n).map(|_| None).collect(),
            inflight: Vec::new(),
            applied: (0..n).map(|_| Vec::new()).collect(),
            partitions: None,
            block_appends_to: BTreeSet::new(),
            reorder: false,
            rng: Picker(SplitMix64(seed ^ 0xA5A5_A5A5_A5A5_A5A5)),
            leader_observations: Vec::new(),
            leader_snapshots: Vec::new(),
            committed_by_index: BTreeMap::new(),
            non_fifo_deliveries: 0,
            election_timeout,
            heartbeat_interval,
            seed,
            expected_voters: ids.iter().copied().collect(),
            restore_events: Vec::new(),
        }
    }

    fn register_node(&mut self, id: NodeId, peers: Vec<NodeId>) {
        assert!(
            !self.index_of.contains_key(&id),
            "register_node({id}): a node with this id is already registered"
        );
        let config = Config {
            id,
            peers,
            election_timeout: self.election_timeout,
            heartbeat_interval: self.heartbeat_interval,
            seed: self.seed,
        };
        let core = RaftCore::new(config.clone(), MemStorage::default())
            .expect("RaftCore::new must succeed with fresh MemStorage");
        self.index_of.insert(id, self.ids.len());
        self.ids.push(id);
        self.configs.push(config);
        self.nodes.push(Some(core));
        self.crashed_storage.push(None);
        self.applied.push(Vec::new());
    }

    fn reachable(&self, a: NodeId, b: NodeId) -> bool {
        if a == b {
            return true;
        }
        match &self.partitions {
            None => true,
            Some((side_a, side_b)) => {
                (side_a.contains(&a) && side_a.contains(&b))
                    || (side_b.contains(&a) && side_b.contains(&b))
            }
        }
    }

    fn should_drop_on_send(&self, from: NodeId, to: NodeId, msg: &Message) -> bool {
        if !self.reachable(from, to) {
            return true;
        }
        if self.block_appends_to.contains(&to) && matches!(msg, Message::AppendEntries(_)) {
            return true;
        }
        false
    }

    fn record_applied(&mut self, idx: usize, entry: LogEntry) {
        let expected = self.applied[idx].len() as LogIndex + 1;
        if entry.index < expected {
            let prior = self.applied[idx][(entry.index - 1) as usize].clone();
            assert_eq!(
                prior, entry,
                "node {} re-applied index {} with DIFFERENT content after restart \
                 — state machine safety violation",
                self.ids[idx], entry.index
            );
            return;
        }
        assert_eq!(
            entry.index, expected,
            "node {} applied out of order or with a gap: expected index {expected}, got {}",
            self.ids[idx], entry.index
        );
        self.record_committed(entry.clone());
        self.applied[idx].push(entry);
    }

    fn record_committed(&mut self, entry: LogEntry) {
        match self.committed_by_index.get(&entry.index) {
            Some(existing) => assert_eq!(
                existing, &entry,
                "COMMITTED HISTORY CONFLICT at index {}: previously observed {existing:?}, now \
                 {entry:?} — two different entries committed at the same index \
                 (state machine safety violation)",
                entry.index
            ),
            None => {
                self.committed_by_index.insert(entry.index, entry);
            }
        }
    }

    fn record_leader_if_leading(&mut self, idx: usize) {
        let node = self.nodes[idx]
            .as_ref()
            .expect("node must be alive to record");
        if node.role() != Role::Leader {
            return;
        }
        let id = self.ids[idx];
        let term = node.current_term();
        self.leader_observations.push((term, id));
        self.leader_snapshots.push(LeaderSnapshot {
            term,
            leader: id,
            applied: self.applied[idx].clone(),
        });
    }

    fn drain_ready(&mut self, idx: usize) {
        let self_id = self.ids[idx];
        let ready = self.nodes[idx]
            .as_mut()
            .expect("drain_ready called on a crashed node")
            .ready();
        if let Some((meta, data)) = ready.restore {
            self.apply_restore(idx, meta, data);
        }
        for entry in ready.apply {
            self.record_applied(idx, entry);
        }
        for (to, msg) in ready.messages {
            if self.should_drop_on_send(self_id, to, &msg) {
                continue;
            }
            self.inflight.push((self_id, to, msg));
        }
        self.record_leader_if_leading(idx);
    }

    fn apply_restore(&mut self, idx: usize, meta: SnapshotMeta, data: Vec<u8>) {
        let snapshot = unpack(&data);
        assert_eq!(
            snapshot.len() as LogIndex,
            meta.last_index,
            "node {}: restored snapshot has {} entries but meta.last_index is {}",
            self.ids[idx],
            snapshot.len(),
            meta.last_index
        );
        for (k, entry) in snapshot.iter().enumerate() {
            assert_eq!(
                entry.index,
                k as LogIndex + 1,
                "node {}: restored snapshot is non-contiguous at position {k} (entry.index {})",
                self.ids[idx],
                entry.index
            );
        }
        let prior = self.applied[idx].clone();
        for k in 0..snapshot.len().min(prior.len()) {
            assert_eq!(
                snapshot[k],
                prior[k],
                "node {}: restored snapshot CONTRADICTS its own already-applied entry at index \
                 {} — state machine safety violation across a snapshot boundary",
                self.ids[idx],
                k + 1
            );
        }
        for entry in &snapshot {
            self.record_committed(entry.clone());
        }
        self.applied[idx] = snapshot;
        self.restore_events.push(self.ids[idx]);
    }

    fn restored_nodes(&self) -> &[NodeId] {
        &self.restore_events
    }

    fn tick_all(&mut self) {
        for idx in 0..self.nodes.len() {
            if self.nodes[idx].is_none() {
                continue;
            }
            self.nodes[idx]
                .as_mut()
                .expect("checked Some above")
                .tick()
                .expect("tick must not error");
            self.drain_ready(idx);
        }
    }

    fn deliver_one(&mut self) -> bool {
        if self.inflight.is_empty() {
            return false;
        }
        let pick = if self.reorder {
            self.rng.below(self.inflight.len())
        } else {
            0
        };
        if self.reorder && pick != 0 && self.inflight.len() > 1 {
            self.non_fifo_deliveries += 1;
        }
        let (from, to, msg) = self.inflight.remove(pick);
        let Some(&idx) = self.index_of.get(&to) else {
            return true;
        };
        if self.nodes[idx].is_none() {
            return true;
        }
        self.nodes[idx]
            .as_mut()
            .expect("checked Some above")
            .step(from, msg)
            .expect("step must not error");
        self.drain_ready(idx);
        true
    }

    fn deliver_all(&mut self) {
        let mut iterations = 0usize;
        while self.deliver_one() {
            iterations += 1;
            assert!(
                iterations < 1_000_000,
                "deliver_all did not converge — possible unbounded message amplification"
            );
        }
    }

    fn run(&mut self, rounds: usize) {
        for _ in 0..rounds {
            self.tick_all();
            self.deliver_all();
        }
    }

    fn propose_on(&mut self, id: NodeId, cmd: Vec<u8>) -> Option<LogIndex> {
        let idx = self.index_of[&id];
        let result = self.nodes[idx]
            .as_mut()
            .expect("propose target must be alive")
            .propose(cmd)
            .expect("propose must not error");
        self.drain_ready(idx);
        result
    }

    fn current_leaders_among(&self, subset: &[NodeId]) -> Vec<NodeId> {
        subset
            .iter()
            .copied()
            .filter(|id| {
                let idx = self.index_of[id];
                self.nodes[idx]
                    .as_ref()
                    .is_some_and(|n| n.role() == Role::Leader)
            })
            .collect()
    }

    fn current_leaders(&self) -> Vec<NodeId> {
        let ids = self.ids.clone();
        self.current_leaders_among(&ids)
    }

    fn current_term_of(&self, id: NodeId) -> Term {
        let idx = self.index_of[&id];
        self.nodes[idx]
            .as_ref()
            .expect("node must be alive")
            .current_term()
    }

    fn applied_of(&self, id: NodeId) -> &[LogEntry] {
        &self.applied[self.index_of[&id]]
    }

    fn crash(&mut self, id: NodeId) {
        let idx = self.index_of[&id];
        let node = self.nodes[idx].take().expect("crash target must be alive");
        self.crashed_storage[idx] = Some(node.into_storage());
    }

    fn restart(&mut self, id: NodeId) {
        let idx = self.index_of[&id];
        let storage = self.crashed_storage[idx]
            .take()
            .expect("restart target must be crashed");
        let core = RaftCore::new(self.configs[idx].clone(), storage)
            .expect("restart must succeed over retained storage");
        self.nodes[idx] = Some(core);
    }

    fn partition(&mut self, side_a: &[NodeId], side_b: &[NodeId]) {
        self.partitions = Some((side_a.to_vec(), side_b.to_vec()));
    }

    fn heal(&mut self) {
        self.partitions = None;
    }

    fn block_appends(&mut self, id: NodeId) {
        self.block_appends_to.insert(id);
    }

    fn unblock_appends(&mut self, id: NodeId) {
        self.block_appends_to.remove(&id);
    }

    fn set_reorder(&mut self, on: bool) {
        self.reorder = on;
    }

    fn non_fifo_deliveries(&self) -> usize {
        self.non_fifo_deliveries
    }

    fn compact_leader(&mut self, leader: NodeId, up_to: LogIndex) {
        let idx = self.index_of[&leader];
        let applied_prefix = &self.applied[idx];
        assert!(
            applied_prefix.len() as LogIndex >= up_to,
            "compact_leader({leader}, {up_to}): leader has only applied {} entries",
            applied_prefix.len()
        );
        let data = pack(&applied_prefix[..up_to as usize]);
        self.nodes[idx]
            .as_mut()
            .expect("compact_leader target must be alive")
            .compact(up_to, data)
            .expect("compact must succeed for a well-formed scenario — index out of range");
        self.drain_ready(idx);
    }

    fn propose_conf_change_on_current_leader(&mut self, change: ConfChange) {
        let expected: Vec<NodeId> = self.expected_voters.iter().copied().collect();
        for _ in 0..200 {
            if let Some(leader) = self.current_leaders_among(&expected).first().copied() {
                let idx = self.index_of[&leader];
                let result = self.nodes[idx]
                    .as_mut()
                    .expect("leader must be alive")
                    .propose_conf_change(change)
                    .expect("propose_conf_change must not error");
                self.drain_ready(idx);
                if result.is_some() {
                    return;
                }
            }
            self.run(1);
        }
        panic!("propose_conf_change({change:?}) never succeeded within budget");
    }

    fn add_voter(&mut self, id: NodeId) {
        let mut target = self.expected_voters.clone();
        target.insert(id);
        self.register_node(id, target.into_iter().collect());

        self.propose_conf_change_on_current_leader(ConfChange::AddVoter(id));
        self.expected_voters.insert(id);
        self.settle();
    }

    fn remove_voter(&mut self, id: NodeId) {
        self.propose_conf_change_on_current_leader(ConfChange::RemoveVoter(id));
        self.expected_voters.remove(&id);
        self.settle();
    }

    fn settle(&mut self) {
        self.heal();

        let mut stable_rounds = 0;
        for _ in 0..MAX_ROUNDS {
            let before: Vec<usize> = self.applied.iter().map(Vec::len).collect();
            self.tick_all();
            self.deliver_all();
            let after: Vec<usize> = self.applied.iter().map(Vec::len).collect();

            if after == before && self.inflight.is_empty() {
                stable_rounds += 1;
                if stable_rounds >= STABLE_ROUNDS_REQUIRED {
                    return;
                }
            } else {
                stable_rounds = 0;
            }
        }
        panic!(
            "cluster failed to settle within {MAX_ROUNDS} rounds — applied logs (or in-flight \
             messages) kept changing; the cluster never reached quiescence"
        );
    }

    fn assert_invariants(&self) {
        self.assert_election_safety();
        self.assert_log_agreement();
        self.assert_leader_completeness_pairwise();
    }

    fn assert_invariants_after_settle(&mut self) {
        self.settle();
        self.assert_invariants();
        self.assert_leader_completeness_containment();
        self.assert_membership_converged();
    }

    fn assert_election_safety(&self) {
        let mut seen: BTreeMap<Term, NodeId> = BTreeMap::new();
        for &(term, id) in &self.leader_observations {
            match seen.get(&term) {
                Some(&existing) if existing != id => panic!(
                    "ELECTION SAFETY VIOLATED: term {term} has two distinct leaders: \
                     {existing} and {id}"
                ),
                _ => {
                    seen.insert(term, id);
                }
            }
        }
    }

    fn assert_log_agreement(&self) {
        for i in 0..self.applied.len() {
            for j in (i + 1)..self.applied.len() {
                let a = &self.applied[i];
                let b = &self.applied[j];
                for k in 0..a.len().min(b.len()) {
                    assert_eq!(
                        a[k],
                        b[k],
                        "LOG MATCHING / STATE MACHINE SAFETY VIOLATED between node {} \
                         and node {} at applied index {}",
                        self.ids[i],
                        self.ids[j],
                        k + 1
                    );
                }
            }
        }
    }

    fn assert_leader_completeness_pairwise(&self) {
        for i in 0..self.leader_snapshots.len() {
            for j in (i + 1)..self.leader_snapshots.len() {
                let a = &self.leader_snapshots[i];
                let b = &self.leader_snapshots[j];
                for k in 0..a.applied.len().min(b.applied.len()) {
                    assert_eq!(
                        a.applied[k],
                        b.applied[k],
                        "LEADER COMPLETENESS VIOLATED: leader {} (term {}) and leader {} \
                         (term {}) disagree at applied index {}",
                        a.leader,
                        a.term,
                        b.leader,
                        b.term,
                        k + 1
                    );
                }
            }
        }
    }

    fn assert_leader_completeness_containment(&self) {
        let expected: Vec<NodeId> = self.expected_voters.iter().copied().collect();
        let leaders = self.current_leaders_among(&expected);
        assert_eq!(
            leaders.len(),
            1,
            "assert_leader_completeness_containment requires the cluster to have settled to \
             exactly one current leader among expected_voters {expected:?}; found {}: \
             {leaders:?}",
            leaders.len()
        );
        let leader = leaders[0];
        if let Err(violation) = check_containment(&self.committed_by_index, self.applied_of(leader))
        {
            panic!("LEADER COMPLETENESS VIOLATED for leader {leader}: {violation}");
        }
    }

    fn assert_membership_converged(&self) {
        for &id in &self.expected_voters {
            let idx = self.index_of[&id];
            let Some(node) = self.nodes[idx].as_ref() else {
                continue;
            };
            let live: BTreeSet<NodeId> = node.voters().into_iter().collect();
            assert_eq!(
                live, self.expected_voters,
                "node {id}'s live voter set has not converged to the expected membership \
                 {:?}, found {live:?}",
                self.expected_voters
            );
        }
    }
}

fn check_containment(
    committed: &BTreeMap<LogIndex, LogEntry>,
    leader_applied: &[LogEntry],
) -> Result<(), String> {
    for (&index, entry) in committed {
        let pos = (index - 1) as usize;
        match leader_applied.get(pos) {
            Some(actual) if actual == entry => {}
            Some(actual) => {
                return Err(format!(
                    "leader log MISMATCHES committed index {index}: expected {entry:?}, found \
                     {actual:?}"
                ));
            }
            None => {
                return Err(format!(
                    "leader log is MISSING committed index {index} ({entry:?}); leader's \
                     applied log has only {} entries",
                    leader_applied.len()
                ));
            }
        }
    }
    Ok(())
}

fn elect(cluster: &mut Cluster, subset: &[NodeId]) -> NodeId {
    for _ in 0..500 {
        cluster.run(1);
        let leaders = cluster.current_leaders_among(subset);
        if leaders.len() == 1 {
            return leaders[0];
        }
    }
    panic!("no stable leader emerged among {subset:?} within budget");
}

fn propose_on_current_leader(cluster: &mut Cluster, ids: &[NodeId], cmd: Vec<u8>) {
    for _ in 0..50 {
        if let Some(leader) = cluster.current_leaders_among(ids).first().copied() {
            if cluster.propose_on(leader, cmd.clone()).is_some() {
                return;
            }
        }
        cluster.run(1);
    }
    panic!("failed to propose {cmd:?} on any leader within budget");
}

fn non_empty_commands(entries: &[LogEntry]) -> Vec<Vec<u8>> {
    entries
        .iter()
        .filter(|e| !e.command.is_empty())
        .map(|e| e.command.clone())
        .collect()
}

const IDS: [NodeId; 3] = [1, 2, 3];

#[test]
fn clean_election_and_replication() {
    let mut cluster = Cluster::new(&IDS, 10, 3, 1);
    let leader = elect(&mut cluster, &IDS);

    for cmd in [b"a".to_vec(), b"b".to_vec(), b"c".to_vec()] {
        propose_on_current_leader(&mut cluster, &IDS, cmd);
        cluster.run(20);
    }
    cluster.run(30);

    assert_eq!(
        cluster.current_leaders(),
        vec![leader],
        "exactly one leader must remain, and it must be the one originally elected"
    );

    let expected = vec![b"a".to_vec(), b"b".to_vec(), b"c".to_vec()];
    for &id in &IDS {
        assert_eq!(
            non_empty_commands(cluster.applied_of(id)),
            expected,
            "node {id} must apply all proposed commands, in order"
        );
    }

    cluster.assert_invariants_after_settle();
}

#[test]
fn leader_crash_reelection() {
    let mut cluster = Cluster::new(&IDS, 10, 3, 2);
    let leader1 = elect(&mut cluster, &IDS);
    let term1 = cluster.current_term_of(leader1);

    propose_on_current_leader(&mut cluster, &IDS, b"before-crash".to_vec());
    cluster.run(20);

    cluster.crash(leader1);

    let survivors: Vec<NodeId> = IDS.into_iter().filter(|&id| id != leader1).collect();
    let leader2 = elect(&mut cluster, &survivors);
    assert_ne!(
        leader2, leader1,
        "the crashed leader cannot be the new leader"
    );
    let term2 = cluster.current_term_of(leader2);
    assert!(
        term2 > term1,
        "reelection must occur in a strictly higher term (was {term1}, now {term2})"
    );

    propose_on_current_leader(&mut cluster, &survivors, b"after-crash".to_vec());
    cluster.run(30);

    for &id in &survivors {
        assert!(
            non_empty_commands(cluster.applied_of(id)).contains(&b"after-crash".to_vec()),
            "surviving node {id} must replicate the post-crash command"
        );
    }

    cluster.assert_invariants_after_settle();
}

#[test]
fn partition_and_heal() {
    let mut cluster = Cluster::new(&IDS, 10, 3, 3);
    elect(&mut cluster, &IDS);

    let majority = [1, 2];
    let minority = [3];
    cluster.partition(&majority, &minority);
    cluster.run(30);

    let majority_leader = elect(&mut cluster, &majority);
    propose_on_current_leader(&mut cluster, &majority, b"majority-write".to_vec());
    cluster.run(30);

    assert!(
        !non_empty_commands(cluster.applied_of(3)).contains(&b"majority-write".to_vec()),
        "minority node must not see the majority-only write while still partitioned"
    );
    assert!(
        non_empty_commands(cluster.applied_of(majority_leader))
            .contains(&b"majority-write".to_vec()),
        "majority side must have committed its own write"
    );

    cluster.heal();
    cluster.run(60);

    for &id in &IDS {
        assert!(
            non_empty_commands(cluster.applied_of(id)).contains(&b"majority-write".to_vec()),
            "node {id} must catch up on the majority write once healed"
        );
    }

    cluster.assert_invariants_after_settle();
}

#[test]
fn dropped_appends_backup() {
    let mut cluster = Cluster::new(&IDS, 10, 3, 4);
    let leader = elect(&mut cluster, &IDS);
    let target = IDS.into_iter().find(|&id| id != leader).unwrap();
    let other = IDS
        .into_iter()
        .find(|&id| id != leader && id != target)
        .unwrap();

    cluster.block_appends(target);

    for i in 0..5 {
        propose_on_current_leader(&mut cluster, &[leader], format!("cmd-{i}").into_bytes());
        cluster.run(10);
    }

    assert!(
        cluster.applied_of(target).len() < cluster.applied_of(other).len(),
        "the blocked follower must have fallen behind while its inbound appends were dropped"
    );

    cluster.unblock_appends(target);
    cluster.run(60);

    assert_eq!(
        cluster.applied_of(target).len(),
        cluster.applied_of(other).len(),
        "the blocked follower must converge via conflict back-up once appends are allowed again"
    );
    cluster.assert_invariants_after_settle();
}

#[test]
fn reordered_delivery() {
    let mut cluster = Cluster::new(&IDS, 10, 3, 5);
    cluster.set_reorder(true);

    elect(&mut cluster, &IDS);
    for cmd in [b"x".to_vec(), b"y".to_vec(), b"z".to_vec()] {
        propose_on_current_leader(&mut cluster, &IDS, cmd);
        cluster.run(20);
    }
    cluster.run(40);

    assert_eq!(
        cluster.current_leaders().len(),
        1,
        "a leader must still be identifiable despite reordered delivery"
    );
    for &id in &IDS {
        assert!(
            !cluster.applied_of(id).is_empty(),
            "node {id} must make progress despite reordered message delivery"
        );
    }
    assert!(
        cluster.non_fifo_deliveries() > 0,
        "reordered_delivery must actually exercise a non-FIFO delivery at least once — a \
         3-node cluster's leader fans AppendEntries out to 2 followers per round, so multiple \
         messages should genuinely be in flight at once; if this fails, the queue never had \
         more than one candidate and the scenario isn't testing what it claims to"
    );

    cluster.assert_invariants_after_settle();
}

#[test]
fn restart_persistence() {
    let mut cluster = Cluster::new(&IDS, 10, 3, 6);
    let leader = elect(&mut cluster, &IDS);
    let follower = IDS.into_iter().find(|&id| id != leader).unwrap();

    propose_on_current_leader(&mut cluster, &IDS, b"one".to_vec());
    cluster.run(20);
    propose_on_current_leader(&mut cluster, &IDS, b"two".to_vec());
    cluster.run(20);

    let before_crash = cluster.applied_of(follower).to_vec();
    assert!(
        !before_crash.is_empty(),
        "follower must have applied something before crash for this scenario to be meaningful"
    );

    cluster.crash(follower);
    cluster.restart(follower);

    cluster.run(40);

    let after_restart = cluster.applied_of(follower);
    assert!(
        after_restart.len() >= before_crash.len(),
        "restart must not lose any previously-applied entry"
    );
    assert_eq!(
        &after_restart[..before_crash.len()],
        &before_crash[..],
        "the restarted node's applied prefix must match its pre-crash history exactly"
    );

    propose_on_current_leader(&mut cluster, &IDS, b"three".to_vec());
    cluster.run(30);

    assert!(
        non_empty_commands(cluster.applied_of(follower)).contains(&b"three".to_vec()),
        "restarted node must continue replicating new commands"
    );

    cluster.assert_invariants_after_settle();
}

const IDS5: [NodeId; 5] = [1, 2, 3, 4, 5];

#[test]
fn snapshot_catch_up() {
    let mut cluster = Cluster::new(&IDS, 10, 3, 7);
    elect(&mut cluster, &IDS);

    let majority = [1, 2];
    let minority = [3];
    cluster.partition(&majority, &minority);
    cluster.run(30);

    let majority_leader = elect(&mut cluster, &majority);
    for cmd in [
        b"s1".to_vec(),
        b"s2".to_vec(),
        b"s3".to_vec(),
        b"s4".to_vec(),
    ] {
        propose_on_current_leader(&mut cluster, &majority, cmd);
        cluster.run(20);
    }

    let leader_applied_len = cluster.applied_of(majority_leader).len() as LogIndex;
    assert!(
        leader_applied_len >= 4,
        "scenario setup needs a non-trivial committed prefix to compact away"
    );

    cluster.compact_leader(majority_leader, leader_applied_len);

    assert!(
        !cluster.restored_nodes().contains(&3),
        "node 3 must not have restored anything yet — it's still partitioned away"
    );

    cluster.heal();
    cluster.run(60);

    assert!(
        cluster.restored_nodes().contains(&3),
        "node 3 must have genuinely installed a leader snapshot (Ready.restore) to converge — \
         its needed entries were structurally compacted away, so ordinary AppendEntries \
         conflict-backup alone could not have gotten it there"
    );
    assert_eq!(
        cluster.applied_of(3),
        cluster.applied_of(majority_leader),
        "node 3 must converge to exactly the majority leader's applied state after healing"
    );

    cluster.assert_invariants_after_settle();
}

#[test]
fn grow_three_to_five() {
    let mut cluster = Cluster::new(&IDS, 10, 3, 8);
    elect(&mut cluster, &IDS);

    propose_on_current_leader(&mut cluster, &IDS, b"before-grow".to_vec());
    cluster.run(20);

    cluster.add_voter(4);
    let voters4: Vec<NodeId> = vec![1, 2, 3, 4];
    propose_on_current_leader(&mut cluster, &voters4, b"after-4".to_vec());
    cluster.run(20);

    cluster.add_voter(5);
    let voters5: Vec<NodeId> = vec![1, 2, 3, 4, 5];
    propose_on_current_leader(&mut cluster, &voters5, b"after-5".to_vec());
    cluster.run(30);

    for &id in &voters5 {
        let cmds = non_empty_commands(cluster.applied_of(id));
        assert!(
            cmds.contains(&b"before-grow".to_vec()),
            "node {id} must have the pre-growth command"
        );
        assert!(
            cmds.contains(&b"after-4".to_vec()),
            "node {id} must have the command proposed after growing to 4"
        );
        assert!(
            cmds.contains(&b"after-5".to_vec()),
            "node {id} must have the command proposed after growing to 5"
        );
    }

    cluster.assert_invariants_after_settle();
}

#[test]
fn shrink_five_to_three() {
    let mut cluster = Cluster::new(&IDS5, 10, 3, 9);
    elect(&mut cluster, &IDS5);

    propose_on_current_leader(&mut cluster, &IDS5, b"before-shrink".to_vec());
    cluster.run(20);

    let leader_before = cluster.current_leaders_among(&IDS5)[0];
    let first_removed = IDS5.into_iter().find(|&id| id != leader_before).unwrap();
    cluster.remove_voter(first_removed);

    let remaining4: Vec<NodeId> = IDS5.into_iter().filter(|&id| id != first_removed).collect();
    propose_on_current_leader(&mut cluster, &remaining4, b"after-first-remove".to_vec());
    cluster.run(20);

    let leader_to_remove = cluster.current_leaders_among(&remaining4)[0];
    cluster.remove_voter(leader_to_remove);

    let remaining3: Vec<NodeId> = remaining4
        .into_iter()
        .filter(|&id| id != leader_to_remove)
        .collect();
    let new_leader = elect(&mut cluster, &remaining3);
    assert_eq!(
        cluster.current_leaders(),
        vec![new_leader],
        "removing the leader must force a clean re-election among the remaining 3: exactly one \
         leader cluster-wide, and it must be the newly elected node, not the removed one"
    );

    propose_on_current_leader(&mut cluster, &remaining3, b"after-leader-remove".to_vec());
    cluster.run(30);

    for &id in &remaining3 {
        let cmds = non_empty_commands(cluster.applied_of(id));
        assert!(cmds.contains(&b"before-shrink".to_vec()));
        assert!(cmds.contains(&b"after-first-remove".to_vec()));
        assert!(cmds.contains(&b"after-leader-remove".to_vec()));
    }

    cluster.assert_invariants_after_settle();
}

#[test]
fn kill_and_replace() {
    let mut cluster = Cluster::new(&IDS, 10, 3, 10);
    let leader = elect(&mut cluster, &IDS);

    for cmd in [b"k1".to_vec(), b"k2".to_vec(), b"k3".to_vec()] {
        propose_on_current_leader(&mut cluster, &IDS, cmd);
        cluster.run(20);
    }

    let victim = IDS.into_iter().find(|&id| id != leader).unwrap();
    cluster.crash(victim);

    let current_leader = cluster
        .current_leaders_among(&IDS)
        .first()
        .copied()
        .expect("a leader must still be up with only a non-leader crashed");
    let leader_applied_len = cluster.applied_of(current_leader).len() as LogIndex;
    cluster.compact_leader(current_leader, leader_applied_len);

    cluster.remove_voter(victim);

    let replacement: NodeId = 4;
    cluster.add_voter(replacement);

    assert!(
        cluster.restored_nodes().contains(&replacement),
        "the replacement node must have caught up via a genuine InstallSnapshot — everything it \
         needed was compacted away before it ever joined, so ordinary AppendEntries \
         conflict-backup alone could not have gotten it there"
    );

    let remaining: Vec<NodeId> = IDS
        .into_iter()
        .filter(|&id| id != victim)
        .chain(std::iter::once(replacement))
        .collect();
    propose_on_current_leader(&mut cluster, &remaining, b"after-replace".to_vec());
    cluster.run(30);

    for &id in &remaining {
        assert!(
            non_empty_commands(cluster.applied_of(id)).contains(&b"after-replace".to_vec()),
            "node {id} must replicate the post-replacement command"
        );
    }

    cluster.assert_invariants_after_settle();
}

fn run_scenario(seed: u64) -> (NodeId, Vec<Vec<LogEntry>>) {
    let mut cluster = Cluster::new(&IDS, 10, 3, seed);
    let leader = elect(&mut cluster, &IDS);
    for cmd in [b"a".to_vec(), b"b".to_vec(), b"c".to_vec()] {
        propose_on_current_leader(&mut cluster, &IDS, cmd);
        cluster.run(20);
    }
    cluster.run(30);
    cluster.assert_invariants_after_settle();
    let histories = IDS
        .iter()
        .map(|&id| cluster.applied_of(id).to_vec())
        .collect();
    (leader, histories)
}

#[test]
fn determinism() {
    let run1 = run_scenario(42);
    let run2 = run_scenario(42);
    assert_eq!(
        run1, run2,
        "the same seed must produce an identical observable history \
         (same leader, same applied logs) on every run"
    );
}

#[test]
fn containment_check_detects_a_lost_committed_entry() {
    let mut committed = BTreeMap::new();
    committed.insert(1, LogEntry::normal(1, 1, b"a".to_vec()));
    committed.insert(2, LogEntry::normal(1, 2, b"b".to_vec()));
    committed.insert(3, LogEntry::normal(2, 3, b"c".to_vec()));

    let leader_missing_committed_entries = vec![LogEntry::normal(1, 1, b"a".to_vec())];

    let result = check_containment(&committed, &leader_missing_committed_entries);
    assert!(
        result.is_err(),
        "containment check MUST detect a leader whose applied log is missing a committed entry, \
         got Ok(()) instead: {result:?}"
    );

    let leader_with_everything = vec![
        LogEntry::normal(1, 1, b"a".to_vec()),
        LogEntry::normal(1, 2, b"b".to_vec()),
        LogEntry::normal(2, 3, b"c".to_vec()),
    ];
    assert!(
        check_containment(&committed, &leader_with_everything).is_ok(),
        "containment check must NOT flag a leader log that actually contains everything \
         committed"
    );
}

#[test]
fn containment_check_is_discriminating_on_real_scenario_data() {
    let mut cluster = Cluster::new(&IDS, 10, 3, 100);
    elect(&mut cluster, &IDS);
    for cmd in [b"a".to_vec(), b"b".to_vec(), b"c".to_vec()] {
        propose_on_current_leader(&mut cluster, &IDS, cmd);
        cluster.run(20);
    }
    cluster.settle();

    let leaders = cluster.current_leaders();
    assert_eq!(
        leaders.len(),
        1,
        "scenario setup must settle to exactly one leader"
    );
    let leader = leaders[0];

    check_containment(&cluster.committed_by_index, cluster.applied_of(leader))
        .expect("a healthy, settled cluster's leader must contain everything committed");

    let mut truncated = cluster.applied_of(leader).to_vec();
    truncated
        .pop()
        .expect("leader must have applied at least one entry for this scenario to be meaningful");
    let result = check_containment(&cluster.committed_by_index, &truncated);
    assert!(
        result.is_err(),
        "containment check must detect a leader log with a committed entry artificially \
         removed, got Ok(()) instead: {result:?}"
    );
}
