//! A network between nodes of one process, with faults to order: links that
//! are cut, messages that are lost, deliveries that are delayed.

use std::collections::{BTreeMap, BTreeSet};

use vstd::prelude::*;
use vstd::std_specs::btree::*;
use vstd::string::*;

use crate::error::{self, io_error, Error, Fault, IoFault, IoKind, Result};
use crate::raft::types::NodeId;
use crate::text::{self, push_decimal};

verus! {

broadcast use {vstd::std_specs::btree::group_btree_axioms, vstd::laws_cmp::group_laws_cmp};

/// The faults of a network, and the number of the next delivery.
pub struct InMemoryNetwork {
    node_ids: BTreeSet<NodeId>,
    partitions: BTreeSet<u128>,
    drops: BTreeMap<u128, u64>,
    delays: BTreeMap<u128, u128>,
    next_sequence: u128,
}

/// The number that stands for a pair of nodes.
spec fn pair_key(a: u64, b: u64) -> u128 {
    (a * 0x1_0000_0000_0000_0000 + b) as u128
}

/// Other links have other keys.
proof fn pair_keys_differ()
    ensures
        forall|a: u64, b: u64, c: u64, d: u64|
            #![trigger pair_key(a, b), pair_key(c, d)]
            pair_key(a, b) == pair_key(c, d) <==> a == c && b == d,
{
}

fn key_of(a: NodeId, b: NodeId) -> (k: u128)
    ensures
        k == pair_key(a, b),
{
    a as u128 * 0x1_0000_0000_0000_0000 + b as u128
}

#[verifier::ext_equal]
pub struct NetworkView {
    pub node_ids: Set<u64>,
    /// Pairs that are cut off from each other, the smaller id first.
    pub partitions: Set<(u64, u64)>,
    /// How many messages from the first to the second will be lost.
    pub drops: Map<(u64, u64), u64>,
    /// Delays from the first to the second, in nanoseconds.
    pub delays: Map<(u64, u64), u128>,
    pub next_sequence: u128,
}

/// A pair in one order, whichever way round it is named.
pub open spec fn partition_key(a: u64, b: u64) -> (u64, u64) {
    if a <= b {
        (a, b)
    } else {
        (b, a)
    }
}

pub open spec fn unknown_node(id: u64) -> Fault {
    error::io_fault(IoKind::InvalidInput, "unknown node id "@ + text::decimal(id as nat) + ""@)
}

pub open spec fn link_text(from: u64, to: u64) -> Seq<char> {
    text::decimal(from as nat) + " -> "@ + text::decimal(to as nat)
}

/// What becomes of a message at the moment of sending.
#[derive(Clone, Copy, Debug, PartialEq, Eq, Structural)]
pub enum Route {
    /// It is lost; the sender does not learn of it.
    Lost,
    /// It is to be delivered after so many nanoseconds.
    After(u128),
}

/// When a delivery is due, in nanoseconds, and its place among all.
#[derive(Clone, Copy, Debug, PartialEq, Eq, Structural)]
pub struct Ticket {
    pub deadline: u128,
    pub sequence: u128,
}

impl NetworkView {
    /// The first of the two that is not a node, if any.
    pub open spec fn stranger(self, a: u64, b: u64) -> Option<u64> {
        if !self.node_ids.contains(a) {
            Some(a)
        } else if !self.node_ids.contains(b) {
            Some(b)
        } else {
            None
        }
    }

    pub open spec fn cut(self, a: u64, b: u64) -> bool {
        self.partitions.contains(partition_key(a, b))
    }

    /// The network with the two cut off from each other.
    pub open spec fn partitioned(self, a: u64, b: u64) -> NetworkView {
        NetworkView { partitions: self.partitions.insert(partition_key(a, b)), ..self }
    }

    pub open spec fn healed(self) -> NetworkView {
        NetworkView { partitions: Set::empty(), ..self }
    }

    /// How many messages from `from` to `to` are still to be lost.
    pub open spec fn due_drops(self, from: u64, to: u64) -> nat {
        if self.drops.contains_key((from, to)) {
            self.drops[(from, to)] as nat
        } else {
            0
        }
    }

    pub open spec fn dropping(self, from: u64, to: u64) -> NetworkView {
        NetworkView {
            drops: self.drops.insert((from, to), (self.due_drops(from, to) + 1) as u64),
            ..self
        }
    }

    /// The network with one loss from `from` to `to` used up.
    pub open spec fn dropped(self, from: u64, to: u64) -> NetworkView {
        NetworkView {
            drops: if self.due_drops(from, to) == 1 {
                self.drops.remove((from, to))
            } else {
                self.drops.insert((from, to), (self.due_drops(from, to) - 1) as u64)
            },
            ..self
        }
    }

    pub open spec fn delay(self, from: u64, to: u64) -> u128 {
        if self.delays.contains_key((from, to)) {
            self.delays[(from, to)]
        } else {
            0
        }
    }

    pub open spec fn delayed(self, from: u64, to: u64, delay: u128) -> NetworkView {
        NetworkView {
            delays: if delay == 0 {
                self.delays.remove((from, to))
            } else {
                self.delays.insert((from, to), delay)
            },
            ..self
        }
    }

    /// Losses and delays that are listed are there.
    pub open spec fn wf(self) -> bool {
        &&& forall|l: (u64, u64)| #[trigger] self.drops.contains_key(l) ==> self.drops[l] > 0
        &&& forall|l: (u64, u64)| #[trigger] self.delays.contains_key(l) ==> self.delays[l] > 0
    }

    /// What sending comes to, and the network behind it. A message to a node
    /// that has gone is refused; over a cut link, or where a loss is due, it
    /// vanishes.
    pub open spec fn routed(self, from: u64, to: u64, closed: bool) -> (
        NetworkView,
        core::result::Result<Route, Fault>,
    ) {
        if !self.node_ids.contains(to) {
            (self, Err(unknown_node(to)))
        } else if closed {
            (self, Err(closed_node(to)))
        } else if self.cut(from, to) {
            (self, Ok(Route::Lost))
        } else if self.due_drops(from, to) > 0 {
            (self.dropped(from, to), Ok(Route::Lost))
        } else {
            (self, Ok(Route::After(self.delay(from, to))))
        }
    }

    pub open spec fn advanced(self) -> NetworkView {
        NetworkView { next_sequence: (self.next_sequence + 1) as u128, ..self }
    }
}

/// The network of the given nodes, without faults.
pub open spec fn fresh(node_ids: Seq<u64>, seed: u64) -> NetworkView {
    NetworkView {
        node_ids: node_ids.to_set(),
        partitions: Set::empty(),
        drops: Map::empty(),
        delays: Map::empty(),
        next_sequence: seed as u128,
    }
}

/// The first id that stands in `ids` a second time.
pub open spec fn first_repeat(ids: Seq<u64>) -> Option<u64>
    decreases ids.len(),
{
    if ids.len() == 0 {
        None
    } else {
        match first_repeat(ids.drop_last()) {
            Some(id) => Some(id),
            None => if ids.drop_last().contains(ids.last()) {
                Some(ids.last())
            } else {
                None
            },
        }
    }
}

pub open spec fn closed_node(id: u64) -> Fault {
    error::io_fault(
        IoKind::BrokenPipe,
        "destination node "@ + text::decimal(id as nat) + " is closed"@,
    )
}

// ---- laws ----

/// Ids are refused exactly where one stands twice.
pub proof fn a_repeat_is_found(ids: Seq<u64>)
    ensures
        first_repeat(ids) is None <==> ids.no_duplicates(),
    decreases ids.len(),
{
    if ids.len() > 0 {
        let front = ids.drop_last();
        a_repeat_is_found(front);
        if ids.no_duplicates() {
            assert forall|i: int, j: int| 0 <= i < front.len() && 0 <= j < front.len() && i
                != j implies front[i] != front[j] by {
                assert(ids[i] != ids[j]);
            }
            if front.contains(ids.last()) {
                let i = choose|i: int| 0 <= i < front.len() && front[i] == ids.last();
                assert(ids[i] == ids[ids.len() - 1]);
            }
        } else if first_repeat(ids) is None {
            assert forall|i: int, j: int| 0 <= i < ids.len() && 0 <= j < ids.len() && i
                != j implies ids[i] != ids[j] by {
                if i < front.len() && j < front.len() {
                    assert(front[i] != front[j]);
                } else if i < front.len() {
                    assert(front.contains(front[i]));
                } else {
                    assert(front.contains(front[j]));
                }
            }
        }
    }
}

/// A message is refused if its receiver is unknown or gone. Any other is lost
/// if the two are cut off from each other or a loss is due from one to the
/// other; else it arrives after the delay that is set between them, or at once.
/// Sending uses up a loss that was due and the link let it meet, and changes
/// nothing else.
pub proof fn what_becomes_of_a_message(n: NetworkView, from: u64, to: u64, closed: bool)
    requires
        n.wf(),
    ensures
        ({
            let (after, sent) = n.routed(from, to, closed);
            let cut = n.partitions.contains((from, to)) && from <= to || n.partitions.contains(
                (to, from),
            ) && to <= from;
            let due = n.drops.contains_key((from, to));
            &&& sent is Err <==> !n.node_ids.contains(to) || closed
            &&& sent matches Ok(route) ==> match route {
                Route::Lost => cut || due,
                Route::After(d) => !cut && !due && d == if n.delays.contains_key((from, to)) {
                    n.delays[(from, to)]
                } else {
                    0
                },
            }
            &&& (NetworkView { drops: n.drops, ..after }) == n
            &&& after.due_drops(from, to) == if sent is Ok && !cut && due {
                n.drops[(from, to)] - 1
            } else {
                n.due_drops(from, to) as int
            }
            &&& forall|l: (u64, u64)|
                l != (from, to) ==> (#[trigger] after.drops.contains_key(l)
                    <==> n.drops.contains_key(l)) && (n.drops.contains_key(l) ==> after.drops[l]
                    == n.drops[l])
        }),
{
    if n.drops.contains_key((from, to)) {
        assert(n.drops[(from, to)] > 0);
    }
}

/// A cut works both ways, and only between the two.
pub proof fn a_partition_works_both_ways(n: NetworkView, a: u64, b: u64, c: u64, d: u64)
    ensures
        n.partitioned(a, b).cut(a, b),
        n.partitioned(a, b).cut(b, a),
        partition_key(c, d) != partition_key(a, b) ==> n.partitioned(a, b).cut(c, d) == n.cut(
            c,
            d,
        ),
{
}

/// Messages over a cut link are lost until the network heals, and then arrive
/// as before. Cutting and healing change nothing else.
pub proof fn a_partition_blocks_until_healed(n: NetworkView, a: u64, b: u64)
    requires
        n.node_ids.contains(b),
        n.partitions == Set::<(u64, u64)>::empty(),
    ensures
        n.partitioned(a, b).routed(a, b, false) == (
            n.partitioned(a, b),
            Ok::<Route, Fault>(Route::Lost),
        ),
        n.partitioned(a, b).healed() == n,
{
    assert(n.partitioned(a, b).healed() =~= n);
}

/// One loss costs one message in one direction, and leaves no trace.
pub proof fn a_drop_costs_one_message(n: NetworkView, from: u64, to: u64, c: u64, d: u64)
    requires
        n.wf(),
        n.node_ids.contains(to),
        !n.cut(from, to),
        n.due_drops(from, to) < u64::MAX,
    ensures
        n.dropping(from, to).routed(from, to, false) == (n, Ok::<Route, Fault>(Route::Lost)),
        (c, d) != (from, to) ==> n.dropping(from, to).routed(c, d, false).1 == n.routed(
            c,
            d,
            false,
        ).1,
{
    let m = n.dropping(from, to);
    assert(m.dropped(from, to) =~= n) by {
        if n.drops.contains_key((from, to)) {
            assert(m.dropped(from, to).drops =~= n.drops);
        } else {
            assert(m.dropped(from, to).drops =~= n.drops);
        }
    }
}

/// A delay applies in one direction, and a delay of nothing lifts it.
pub proof fn a_delay_has_a_direction(
    n: NetworkView,
    from: u64,
    to: u64,
    delay: u128,
    c: u64,
    d: u64,
)
    ensures
        n.delayed(from, to, delay).delay(from, to) == delay,
        (c, d) != (from, to) ==> n.delayed(from, to, delay).delay(c, d) == n.delay(c, d),
{
}

// ---- the network ----

impl View for InMemoryNetwork {
    type V = NetworkView;

    closed spec fn view(&self) -> NetworkView {
        NetworkView {
            node_ids: self.node_ids@,
            partitions: Set::new(|l: (u64, u64)| self.partitions@.contains(pair_key(l.0, l.1))),
            drops: Map::new(
                |l: (u64, u64)| self.drops@.contains_key(pair_key(l.0, l.1)),
                |l: (u64, u64)| self.drops@[pair_key(l.0, l.1)],
            ),
            delays: Map::new(
                |l: (u64, u64)| self.delays@.contains_key(pair_key(l.0, l.1)),
                |l: (u64, u64)| self.delays@[pair_key(l.0, l.1)],
            ),
            next_sequence: self.next_sequence,
        }
    }
}

fn numbered(kind: IoKind, before: &str, n: u64, after: &str) -> (e: Error)
    ensures
        e@ == error::io_fault(kind, before@ + text::decimal(n as nat) + after@),
{
    let mut message = before.to_owned();
    push_decimal(&mut message, n);
    message.append(after);
    Error::Io(IoFault { kind, message })
}

fn on_link(kind: IoKind, before: &str, from: u64, to: u64) -> (e: Error)
    ensures
        e@ == error::io_fault(kind, before@ + link_text(from, to)),
{
    let mut message = before.to_owned();
    push_decimal(&mut message, from);
    message.append(" -> ");
    push_decimal(&mut message, to);
    assert(message@ =~= before@ + link_text(from, to));
    Error::Io(IoFault { kind, message })
}

/// The destination of a delivery has gone.
pub fn closed_destination(id: NodeId) -> (e: Error)
    ensures
        e@ == closed_node(id),
{
    numbered(IoKind::BrokenPipe, "destination node ", id, " is closed")
}

/// The destination of a delivery is not known.
pub fn unknown_destination(id: NodeId) -> (e: Error)
    ensures
        e@ == error::io_fault(
            IoKind::InvalidInput,
            "unknown destination node "@ + text::decimal(id as nat) + ""@,
        ),
{
    numbered(IoKind::InvalidInput, "unknown destination node ", id, "")
}

impl InMemoryNetwork {
    #[verifier::type_invariant]
    spec fn inv(self) -> bool {
        &&& forall|k: u128| #[trigger] self.drops@.contains_key(k) ==> self.drops@[k] > 0
        &&& forall|k: u128| #[trigger] self.delays@.contains_key(k) ==> self.delays@[k] > 0
    }

    /// A network of the given nodes, whose deliveries are numbered from `seed`
    /// on.
    pub fn cluster(node_ids: &[NodeId], seed: u64) -> (r: Result<InMemoryNetwork>)
        ensures
            match r {
                Ok(network) => first_repeat(node_ids@) is None && network@ == fresh(
                    node_ids@,
                    seed,
                ) && network@.wf(),
                Err(e) => first_repeat(node_ids@) matches Some(id) && e@ == error::io_fault(
                    IoKind::InvalidInput,
                    "duplicate node id "@ + text::decimal(id as nat) + ""@,
                ),
            },
    {
        let mut members: BTreeSet<NodeId> = BTreeSet::new();
        let mut i: usize = 0;
        assert(members@ =~= node_ids@.take(0).to_set());
        while i < node_ids.len()
            invariant
                i <= node_ids@.len(),
                members@ == node_ids@.take(i as int).to_set(),
                first_repeat(node_ids@.take(i as int)) is None,
            decreases node_ids@.len() - i,
        {
            let id: u64 = node_ids[i];
            let ghost front = node_ids@.take(i as int);
            let ghost next = node_ids@.take(i + 1);
            proof {
                assert(next.drop_last() =~= front);
                assert(next.last() == id);
                assert(members@.contains(id) == front.contains(id));
            }
            if !members.insert(id) {
                proof {
                    repeats_stay(node_ids@, i + 1);
                }
                return Err(numbered(IoKind::InvalidInput, "duplicate node id ", id, ""));
            }
            proof {
                assert(next =~= front.push(id));
                assert(members@ =~= next.to_set()) by {
                    broadcast use vstd::seq_lib::group_seq_properties;

                }
            }
            i = i + 1;
        }
        assert(node_ids@.take(i as int) =~= node_ids@);
        let network = InMemoryNetwork {
            node_ids: members,
            partitions: BTreeSet::new(),
            drops: BTreeMap::new(),
            delays: BTreeMap::new(),
            next_sequence: seed as u128,
        };
        assert(network@ =~= fresh(node_ids@, seed));
        Ok(network)
    }

    fn validate_nodes(&self, a: NodeId, b: NodeId) -> (r: Result<()>)
        ensures
            match r {
                Ok(_) => self@.stranger(a, b) is None,
                Err(e) => self@.stranger(a, b) matches Some(id) && e@ == unknown_node(id),
            },
    {
        if !self.node_ids.contains(&a) {
            return Err(numbered(IoKind::InvalidInput, "unknown node id ", a, ""));
        }
        if !self.node_ids.contains(&b) {
            return Err(numbered(IoKind::InvalidInput, "unknown node id ", b, ""));
        }
        Ok(())
    }

    /// Cuts two nodes off from each other.
    pub fn partition(&mut self, a: NodeId, b: NodeId) -> (r: Result<()>)
        ensures
            match r {
                Ok(_) => old(self)@.stranger(a, b) is None && final(self)@ == old(
                    self,
                )@.partitioned(a, b),
                Err(e) => final(self)@ == old(self)@ && (old(self)@.stranger(a, b) matches Some(id)
                    && e@ == unknown_node(id)),
            },
    {
        match self.validate_nodes(a, b) {
            Ok(_) => {},
            Err(e) => return Err(e),
        }
        proof {
            use_type_invariant(&*self);
        }
        let key: u128 = if a <= b { key_of(a, b) } else { key_of(b, a) };
        let mut partitions: BTreeSet<u128> = BTreeSet::new();
        core::mem::swap(&mut partitions, &mut self.partitions);
        partitions.insert(key);
        self.partitions = partitions;
        proof {
            pair_keys_differ();
            assert(self@ =~= old(self)@.partitioned(a, b));
        }
        Ok(())
    }

    /// Lifts every cut.
    pub fn heal(&mut self)
        ensures
            final(self)@ == old(self)@.healed(),
    {
        proof {
            use_type_invariant(&*self);
        }
        self.partitions = BTreeSet::new();
        assert(self@ =~= old(self)@.healed());
    }

    /// Has the next message from `from` to `to` lost, after those that are to
    /// be lost already.
    pub fn drop_next(&mut self, from: NodeId, to: NodeId) -> (r: Result<()>)
        ensures
            match r {
                Ok(_) => old(self)@.stranger(from, to) is None && old(self)@.due_drops(from, to)
                    < u64::MAX && final(self)@ == old(self)@.dropping(from, to),
                Err(e) => final(self)@ == old(self)@ && match old(self)@.stranger(from, to) {
                    Some(id) => e@ == unknown_node(id),
                    None => old(self)@.due_drops(from, to) == u64::MAX && e@ == error::io_fault(
                        IoKind::Other,
                        "drop counter exhausted for "@ + link_text(from, to),
                    ),
                },
            },
    {
        match self.validate_nodes(from, to) {
            Ok(_) => {},
            Err(e) => return Err(e),
        }
        proof {
            use_type_invariant(&*self);
        }
        let key: u128 = key_of(from, to);
        let count: u64 = match self.drops.get(&key) {
            Some(count) => *count,
            None => 0,
        };
        if count == u64::MAX {
            return Err(on_link(IoKind::Other, "drop counter exhausted for ", from, to));
        }
        let mut drops: BTreeMap<u128, u64> = BTreeMap::new();
        core::mem::swap(&mut drops, &mut self.drops);
        drops.insert(key, count + 1);
        self.drops = drops;
        proof {
            pair_keys_differ();
            assert(self@ =~= old(self)@.dropping(from, to));
        }
        Ok(())
    }

    /// Delays messages from `from` to `to` by so many nanoseconds; none lifts
    /// the delay.
    pub fn set_delay(&mut self, from: NodeId, to: NodeId, delay: u128) -> (r: Result<()>)
        ensures
            match r {
                Ok(_) => old(self)@.stranger(from, to) is None && final(self)@ == old(
                    self,
                )@.delayed(from, to, delay),
                Err(e) => final(self)@ == old(self)@ && (old(self)@.stranger(from, to) matches Some(
                    id,
                ) && e@ == unknown_node(id)),
            },
    {
        match self.validate_nodes(from, to) {
            Ok(_) => {},
            Err(e) => return Err(e),
        }
        proof {
            use_type_invariant(&*self);
        }
        let key: u128 = key_of(from, to);
        let mut delays: BTreeMap<u128, u128> = BTreeMap::new();
        core::mem::swap(&mut delays, &mut self.delays);
        if delay == 0 {
            delays.remove(&key);
        } else {
            delays.insert(key, delay);
        }
        self.delays = delays;
        proof {
            pair_keys_differ();
            assert(self@ =~= old(self)@.delayed(from, to, delay));
        }
        Ok(())
    }

    /// What becomes of a message that `from` sends to `to`, which has gone if
    /// `closed`.
    pub fn route(&mut self, from: NodeId, to: NodeId, closed: bool) -> (r: Result<Route>)
        ensures
            final(self)@ == old(self)@.routed(from, to, closed).0,
            match r {
                Ok(route) => old(self)@.routed(from, to, closed).1 == Ok::<Route, Fault>(route),
                Err(e) => old(self)@.routed(from, to, closed).1 == Err::<Route, Fault>(e@),
            },
    {
        proof {
            use_type_invariant(&*self);
        }
        if !self.node_ids.contains(&to) {
            return Err(numbered(IoKind::InvalidInput, "unknown node id ", to, ""));
        }
        if closed {
            return Err(closed_destination(to));
        }
        let cut: u128 = if from <= to { key_of(from, to) } else { key_of(to, from) };
        if self.partitions.contains(&cut) {
            return Ok(Route::Lost);
        }
        let key: u128 = key_of(from, to);
        let count: u64 = match self.drops.get(&key) {
            Some(count) => *count,
            None => 0,
        };
        if count > 0 {
            let mut drops: BTreeMap<u128, u64> = BTreeMap::new();
            core::mem::swap(&mut drops, &mut self.drops);
            if count == 1 {
                drops.remove(&key);
            } else {
                drops.insert(key, count - 1);
            }
            self.drops = drops;
            proof {
                pair_keys_differ();
                assert(self@ =~= old(self)@.dropped(from, to));
            }
            return Ok(Route::Lost);
        }
        let delay: u128 = match self.delays.get(&key) {
            Some(delay) => *delay,
            None => 0,
        };
        Ok(Route::After(delay))
    }

    /// Numbers a delivery that is due at `deadline`, where that moment can be
    /// told.
    pub fn ticket(&mut self, from: NodeId, to: NodeId, deadline: Option<u128>) -> (r: Result<
        Ticket,
    >)
        ensures
            match r {
                Ok(ticket) => deadline == Some(ticket.deadline) && old(self)@.next_sequence
                    < u128::MAX && ticket.sequence == old(self)@.next_sequence && final(self)@
                    == old(self)@.advanced(),
                Err(e) => final(self)@ == old(self)@ && if deadline is None {
                    e@ == error::io_fault(
                        IoKind::InvalidInput,
                        "delay is too large for "@ + link_text(from, to),
                    )
                } else {
                    old(self)@.next_sequence == u128::MAX && e@ == error::io_fault(
                        IoKind::Other,
                        "in-memory transport sequence exhausted"@,
                    )
                },
            },
    {
        proof {
            use_type_invariant(&*self);
        }
        let deadline: u128 = match deadline {
            Some(deadline) => deadline,
            None => return Err(on_link(IoKind::InvalidInput, "delay is too large for ", from, to)),
        };
        if self.next_sequence == u128::MAX {
            return Err(io_error(IoKind::Other, "in-memory transport sequence exhausted"));
        }
        let sequence: u128 = self.next_sequence;
        self.next_sequence = sequence + 1;
        assert(self@ =~= old(self)@.advanced());
        Ok(Ticket { deadline, sequence })
    }
}

proof fn repeats_stay(ids: Seq<u64>, k: int)
    requires
        0 <= k <= ids.len(),
        first_repeat(ids.take(k)) is Some,
    ensures
        first_repeat(ids) == first_repeat(ids.take(k)),
    decreases ids.len() - k,
{
    if k == ids.len() {
        assert(ids.take(k) =~= ids);
    } else {
        assert(ids.take(k + 1).drop_last() =~= ids.take(k));
        repeats_stay(ids, k + 1);
    }
}

} // verus!
