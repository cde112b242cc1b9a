//! The order in which an in-memory network delivers, and the decisions of the
//! task that does it.
//!
//! The task is a loop. It asks what to do, does it, and reports what came of
//! it. Deliveries that are due go first, one at a time. Then new ones are
//! collected, a limited number of them, so that a stream of arrivals cannot
//! hold up what is due.

use vstd::prelude::*;
use vstd::multiset::Multiset;
use vstd::string::*;

use crate::error::{self, io_error, Error, IoKind};
use crate::raft::rpc::Message;
use crate::raft::types::NodeId;

verus! {

/// How many deliveries are collected before the task yields.
pub const MAX_INCOMING_BATCH: usize = 64;

/// A message on its way, with what tells its sender that it has arrived.
pub struct ScheduledDelivery<A> {
    pub deadline: u128,
    pub sequence: u128,
    pub from: NodeId,
    pub to: NodeId,
    pub message: Message,
    pub acknowledgement: A,
}

impl<A> ScheduledDelivery<A> {
    /// This delivery is to be made no later than the other: the earlier
    /// deadline goes first, then the smaller number.
    pub open spec fn goes_before(self, other: ScheduledDelivery<A>) -> bool {
        self.deadline < other.deadline || (self.deadline == other.deadline && self.sequence
            <= other.sequence)
    }
}

/// What the task found.
pub enum Event<A> {
    /// A new turn: whether the input is closed, and what time it is.
    Turn(bool, u128),
    /// An arrival.
    Arrival(ScheduledDelivery<A>),
    /// Nothing has arrived.
    Nothing,
    /// Nothing will arrive any more.
    Disconnected,
}

/// What the task is to do.
pub enum Action<A> {
    /// Make this delivery, yield, and take a new turn.
    Deliver(ScheduledDelivery<A>),
    /// See whether anything has arrived, without waiting.
    Poll,
    /// Yield, and take a new turn.
    Yield,
    /// Wait for an arrival.
    Wait,
    /// Wait for an arrival until the given time, and take a new turn then.
    WaitUntil(u128),
    /// Take a new turn.
    Again,
    /// Fail what is in the input and then everything pending, and stop.
    Stop,
}

/// Where the task is in its loop.
#[derive(Clone, Copy, Debug, PartialEq, Eq, Structural)]
pub enum Phase {
    /// At the top.
    Top,
    /// Collecting; so many deliveries have been taken.
    Collecting(usize),
    /// Waiting for an arrival.
    Waiting,
    /// Stopped.
    Stopped,
}

pub ghost struct SchedulerState<A> {
    /// The deliveries to make, in the order in which they will be made.
    pub pending: Seq<ScheduledDelivery<A>>,
    pub phase: Phase,
}

/// Everything is to be made no later than what stands behind it.
pub open spec fn in_order<A>(s: Seq<ScheduledDelivery<A>>) -> bool {
    forall|i: int, j: int| 0 <= i < j < s.len() ==> s[i].goes_before(s[j])
}

/// How many deliveries go before a new one.
pub open spec fn place<A>(s: Seq<ScheduledDelivery<A>>, d: ScheduledDelivery<A>) -> nat
    decreases s.len(),
{
    if s.len() == 0 {
        0
    } else if s.last().goes_before(d) {
        s.len()
    } else {
        place(s.drop_last(), d)
    }
}

/// The deliveries with a new one in its place.
pub open spec fn queued<A>(s: Seq<ScheduledDelivery<A>>, d: ScheduledDelivery<A>) -> Seq<
    ScheduledDelivery<A>,
> {
    s.insert(place(s, d) as int, d)
}

impl<A> SchedulerState<A> {
    pub open spec fn at(self, phase: Phase) -> SchedulerState<A> {
        SchedulerState { phase, ..self }
    }

    pub open spec fn with(self, d: ScheduledDelivery<A>, phase: Phase) -> SchedulerState<A> {
        SchedulerState { pending: queued(self.pending, d), phase }
    }

    /// The first delivery is due.
    pub open spec fn due(self, now: u128) -> bool {
        self.pending.len() > 0 && self.pending[0].deadline <= now
    }

    /// What follows the collecting.
    pub open spec fn settle(self) -> (SchedulerState<A>, Action<A>) {
        (
            self.at(Phase::Waiting),
            if self.pending.len() == 0 {
                Action::Wait
            } else {
                Action::WaitUntil(self.pending[0].deadline)
            },
        )
    }

    pub open spec fn step(self, event: Event<A>) -> (SchedulerState<A>, Action<A>) {
        match self.phase {
            Phase::Stopped => (self, Action::Stop),
            Phase::Top => match event {
                Event::Turn(closed, now) => if closed {
                    (self.at(Phase::Stopped), Action::Stop)
                } else if self.due(now) {
                    (
                        SchedulerState { pending: self.pending.skip(1), ..self },
                        Action::Deliver(self.pending[0]),
                    )
                } else {
                    (self.at(Phase::Collecting(0)), Action::Poll)
                },
                Event::Arrival(d) => (self.with(d, Phase::Top), Action::Again),
                Event::Nothing => (self, Action::Again),
                Event::Disconnected => (self.at(Phase::Stopped), Action::Stop),
            },
            Phase::Collecting(taken) => match event {
                Event::Arrival(d) => if taken + 1 >= 64 {
                    (self.with(d, Phase::Top), Action::Yield)
                } else {
                    (self.with(d, Phase::Collecting((taken + 1) as usize)), Action::Poll)
                },
                Event::Nothing => self.settle(),
                Event::Disconnected => (self.at(Phase::Stopped), Action::Stop),
                Event::Turn(_, _) => (self.at(Phase::Top), Action::Again),
            },
            Phase::Waiting => match event {
                Event::Arrival(d) => (self.with(d, Phase::Top), Action::Again),
                Event::Disconnected => (self.at(Phase::Stopped), Action::Stop),
                _ => (self.at(Phase::Top), Action::Again),
            },
        }
    }

    /// What has arrived with an event.
    pub open spec fn arrived(event: Event<A>) -> Multiset<ScheduledDelivery<A>> {
        match event {
            Event::Arrival(d) => Multiset::singleton(d),
            _ => Multiset::empty(),
        }
    }

    /// What leaves with an action.
    pub open spec fn delivered(action: Action<A>) -> Multiset<ScheduledDelivery<A>> {
        match action {
            Action::Deliver(d) => Multiset::singleton(d),
            _ => Multiset::empty(),
        }
    }
}

// ---- laws ----

proof fn place_is<A>(s: Seq<ScheduledDelivery<A>>, d: ScheduledDelivery<A>)
    requires
        in_order(s),
    ensures
        place(s, d) <= s.len(),
        forall|i: int| 0 <= i < place(s, d) ==> (#[trigger] s[i]).goes_before(d),
        forall|i: int| place(s, d) <= i < s.len() ==> !(#[trigger] s[i]).goes_before(d),
    decreases s.len(),
{
    if s.len() > 0 {
        let front = s.drop_last();
        assert(in_order(front));
        place_is(front, d);
        assert forall|i: int| 0 <= i < front.len() implies front[i] == s[i] by {}
        if s.last().goes_before(d) {
            assert forall|i: int| 0 <= i < place(s, d) implies (#[trigger] s[i]).goes_before(
                d,
            ) by {
                if i < s.len() - 1 {
                    assert(s[i].goes_before(s[s.len() - 1]));
                }
            }
        } else {
            assert forall|i: int| 0 <= i < place(s, d) implies (#[trigger] s[i]).goes_before(
                d,
            ) by {
                assert(front[i].goes_before(d));
            }
            assert forall|i: int| place(s, d) <= i < s.len() implies !(
            #[trigger] s[i]).goes_before(d) by {
                if i < front.len() {
                    assert(!front[i].goes_before(d));
                }
            }
        }
    }
}

/// A sequence holds what is left without an item, and the item.
proof fn taken_from<T>(s: Seq<T>, i: int)
    requires
        0 <= i < s.len(),
    ensures
        s.to_multiset() == s.remove(i).to_multiset().insert(s[i]),
{
    broadcast use vstd::seq_lib::group_to_multiset_ensures;
    broadcast use vstd::multiset::group_multiset_axioms;

    assert(s.contains(s[i]));
    assert(s.to_multiset().count(s[i]) > 0);
    assert(s.to_multiset() =~= s.remove(i).to_multiset().insert(s[i]));
}

proof fn queued_keeps_order<A>(s: Seq<ScheduledDelivery<A>>, d: ScheduledDelivery<A>)
    requires
        in_order(s),
    ensures
        in_order(queued(s, d)),
        queued(s, d).to_multiset() == s.to_multiset().insert(d),
        queued(s, d).len() == s.len() + 1,
{
    place_is(s, d);
    let q = queued(s, d);
    let p = place(s, d) as int;
    assert forall|i: int, j: int| 0 <= i < j < q.len() implies q[i].goes_before(q[j]) by {
        let si = if i < p { s[i] } else { s[i - 1] };
        let sj = if j < p { s[j] } else { s[j - 1] };
        if i < p && j < p {
            assert(s[i].goes_before(s[j]));
        } else if i < p && j > p {
            assert(s[i].goes_before(s[j - 1]));
        } else if i > p {
            assert(s[i - 1].goes_before(s[j - 1]));
        } else if i == p {
            assert(!s[j - 1].goes_before(d));
        }
    }
    taken_from(q, p);
    assert(q.remove(p) =~= s);
}

/// Whatever happens, deliveries stay in order, and none is lost or made twice:
/// what was pending or has arrived is pending still or is being made.
pub proof fn nothing_is_lost<A>(s: SchedulerState<A>, event: Event<A>)
    requires
        in_order(s.pending),
        s.phase != Phase::Stopped,
    ensures
        in_order(s.step(event).0.pending),
        s.step(event).0.pending.to_multiset().add(SchedulerState::delivered(s.step(event).1))
            == s.pending.to_multiset().add(SchedulerState::arrived(event)),
{
    let (t, action) = s.step(event);
    match event {
        Event::Arrival(d) => {
            queued_keeps_order(s.pending, d);
            assert(s.pending.to_multiset().insert(d) =~= s.pending.to_multiset().add(
                Multiset::singleton(d),
            ));
        },
        _ => {},
    }
    if let Action::Deliver(d) = action {
        assert(s.pending =~= seq![d] + t.pending);
        assert(s.pending.remove(0) =~= t.pending);
        taken_from(s.pending, 0);
        assert forall|i: int, j: int| 0 <= i < j < t.pending.len() implies t.pending[i].goes_before(
            t.pending[j],
        ) by {
            assert(s.pending[i + 1].goes_before(s.pending[j + 1]));
        }
        assert(t.pending.to_multiset().add(Multiset::singleton(d)) =~= s.pending.to_multiset());
    }
    assert(s.step(event).0.pending.to_multiset().add(SchedulerState::delivered(s.step(event).1))
        =~= s.pending.to_multiset().add(SchedulerState::arrived(event)));
}

/// A delivery is made when it is due, and not before any that is to go first.
pub proof fn the_earliest_goes_first<A>(s: SchedulerState<A>, closed: bool, now: u128, i: int)
    requires
        in_order(s.pending),
        0 <= i < s.pending.len(),
    ensures
        s.step(Event::Turn(closed, now)).1 matches Action::Deliver(d) ==> d.deadline <= now
            && d.goes_before(s.pending[i]),
        s.phase == Phase::Top && !closed && s.pending[i].deadline <= now ==> s.step(
            Event::Turn(closed, now),
        ).1 is Deliver,
{
    if i > 0 {
        assert(s.pending[0].goes_before(s.pending[i]));
    }
}

/// However much arrives, the task is back at the top, where what is due is
/// delivered, after a limited number of arrivals.
pub proof fn arrivals_cannot_hold_up<A>(s: SchedulerState<A>, d: ScheduledDelivery<A>)
    requires
        s.phase matches Phase::Collecting(taken) ==> taken < 64,
    ensures
        match s.step(Event::Arrival(d)).0.phase {
            Phase::Collecting(taken) => taken < 64 && s.phase == Phase::Collecting(
                (taken - 1) as usize,
            ),
            phase => phase == Phase::Top || phase == Phase::Stopped,
        },
{
}

// ---- the scheduler ----

/// What is pending, and where the task is in its loop.
pub struct Scheduler<A> {
    /// The deliveries to make, the next one last.
    pending: Vec<ScheduledDelivery<A>>,
    phase: Phase,
}

impl<A> View for Scheduler<A> {
    type V = SchedulerState<A>;

    closed spec fn view(&self) -> SchedulerState<A> {
        SchedulerState { pending: self.pending@.reverse(), phase: self.phase }
    }
}

impl<A> Scheduler<A> {
    #[verifier::type_invariant]
    spec fn inv(self) -> bool {
        in_order(self.pending@.reverse())
    }

    pub fn new() -> (r: Scheduler<A>)
        ensures
            r@.pending.len() == 0,
            r@.phase == Phase::Top,
    {
        Scheduler { pending: Vec::new(), phase: Phase::Top }
    }

    /// Puts a delivery in its place.
    fn push(&mut self, d: ScheduledDelivery<A>, phase: Phase)
        ensures
            final(self)@ == old(self)@.with(d, phase),
    {
        proof {
            use_type_invariant(&*self);
        }
        let ghost order = self.pending@.reverse();
        let mut at: usize = self.pending.len();
        proof {
            place_is(order, d);
        }
        while at > 0 && (self.pending[at - 1].deadline < d.deadline || (self.pending[at
            - 1].deadline == d.deadline && self.pending[at - 1].sequence <= d.sequence))
            invariant
                at <= self.pending@.len(),
                order == self.pending@.reverse(),
                forall|i: int|
                    0 <= i < order.len() - at ==> (#[trigger] order[i]).goes_before(d),
                self@ == old(self)@,
            ensures
                at <= self.pending@.len(),
                forall|i: int|
                    0 <= i < order.len() - at ==> (#[trigger] order[i]).goes_before(d),
                at > 0 ==> !order[order.len() - at].goes_before(d),
            decreases at,
        {
            assert(order[order.len() - at] == self.pending@[at - 1]);
            at = at - 1;
        }
        proof {
            if at > 0 {
                assert(order[order.len() - at] == self.pending@[at - 1]);
            }
            let p = place(order, d) as int;
            if p > order.len() - at {
                assert(order[order.len() - at].goes_before(d));
            } else if p < order.len() - at {
                assert(order[p].goes_before(d));
            }
            queued_keeps_order(order, d);
        }
        let mut pending: Vec<ScheduledDelivery<A>> = Vec::new();
        core::mem::swap(&mut pending, &mut self.pending);
        pending.insert(at, d);
        assert(pending@.reverse() =~= queued(order, d));
        self.pending = pending;
        self.phase = phase;
    }

    /// What to do, given what was found.
    pub fn step(&mut self, event: Event<A>) -> (action: Action<A>)
        ensures
            (final(self)@, action) == old(self)@.step(event),
    {
        proof {
            use_type_invariant(&*self);
        }
        match self.phase {
            Phase::Stopped => Action::Stop,
            Phase::Top => match event {
                Event::Turn(closed, now) => self.turn(closed, now),
                Event::Arrival(d) => {
                    self.push(d, Phase::Top);
                    Action::Again
                },
                Event::Nothing => Action::Again,
                Event::Disconnected => {
                    self.phase = Phase::Stopped;
                    Action::Stop
                },
            },
            Phase::Collecting(taken) => match event {
                Event::Arrival(d) => if taken >= MAX_INCOMING_BATCH - 1 {
                    self.push(d, Phase::Top);
                    Action::Yield
                } else {
                    self.push(d, Phase::Collecting(taken + 1));
                    Action::Poll
                },
                Event::Nothing => {
                    self.phase = Phase::Waiting;
                    let count: usize = self.pending.len();
                    if count == 0 {
                        Action::Wait
                    } else {
                        Action::WaitUntil(self.pending[count - 1].deadline)
                    }
                },
                Event::Disconnected => {
                    self.phase = Phase::Stopped;
                    Action::Stop
                },
                Event::Turn(_, _) => {
                    self.phase = Phase::Top;
                    Action::Again
                },
            },
            Phase::Waiting => match event {
                Event::Arrival(d) => {
                    self.push(d, Phase::Top);
                    Action::Again
                },
                Event::Disconnected => {
                    self.phase = Phase::Stopped;
                    Action::Stop
                },
                _ => {
                    self.phase = Phase::Top;
                    Action::Again
                },
            },
        }
    }

    /// A new turn, at the top of the loop.
    fn turn(&mut self, closed: bool, now: u128) -> (action: Action<A>)
        requires
            old(self)@.phase == Phase::Top,
        ensures
            (final(self)@, action) == old(self)@.step(Event::Turn(closed, now)),
    {
        proof {
            use_type_invariant(&*self);
        }
        if closed {
            self.phase = Phase::Stopped;
            return Action::Stop;
        }
        let count: usize = self.pending.len();
        if count > 0 && self.pending[count - 1].deadline <= now {
            let mut pending: Vec<ScheduledDelivery<A>> = Vec::new();
            core::mem::swap(&mut pending, &mut self.pending);
            let ghost order = pending@.reverse();
            match pending.pop() {
                Some(d) => {
                    assert(pending@.reverse() =~= order.skip(1));
                    assert(in_order(pending@.reverse())) by {
                        assert forall|i: int, j: int|
                            0 <= i < j < order.skip(1).len() implies order.skip(1)[i].goes_before(
                            order.skip(1)[j],
                        ) by {
                            assert(order[i + 1].goes_before(order[j + 1]));
                        }
                    }
                    self.pending = pending;
                    return Action::Deliver(d);
                },
                None => {},
            }
        }
        self.phase = Phase::Collecting(0);
        Action::Poll
    }

    /// Everything pending, in order: what to fail when the task stops.
    pub fn drain(self) -> (r: Vec<ScheduledDelivery<A>>)
        ensures
            r@ == self@.pending,
    {
        let mut pending = self.pending;
        let ghost order = pending@.reverse();
        let mut out: Vec<ScheduledDelivery<A>> = Vec::new();
        while pending.len() > 0
            invariant
                out@ + pending@.reverse() == order,
            decreases pending@.len(),
        {
            match pending.pop() {
                Some(d) => {
                    out.push(d);
                    assert(out@ + pending@.reverse() =~= order);
                },
                None => {},
            }
        }
        assert(out@ =~= order);
        out
    }
}

/// The scheduler's input has closed before the delivery was made.
pub fn closed_input() -> (e: Error)
    ensures
        e@ == error::io_fault(
            IoKind::BrokenPipe,
            "in-memory transport scheduler input is closed"@,
        ),
{
    io_error(IoKind::BrokenPipe, "in-memory transport scheduler input is closed")
}

/// The scheduler takes no deliveries any more.
pub fn closed_scheduler() -> (e: Error)
    ensures
        e@ == error::io_fault(IoKind::BrokenPipe, "in-memory transport scheduler is closed"@),
{
    io_error(IoKind::BrokenPipe, "in-memory transport scheduler is closed")
}

/// The scheduler has stopped before the delivery was made.
pub fn stopped_scheduler() -> (e: Error)
    ensures
        e@ == error::io_fault(
            IoKind::BrokenPipe,
            "in-memory transport scheduler stopped before delivery"@,
        ),
{
    io_error(IoKind::BrokenPipe, "in-memory transport scheduler stopped before delivery")
}

} // verus!
