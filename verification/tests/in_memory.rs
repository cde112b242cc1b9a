//! The network in memory, on a clock of its own.

use std::collections::{BTreeMap, VecDeque};

use cairn::error::{Error, IoKind, Result};
use cairn::raft::rpc::{Message, RequestVoteResp};
use cairn::raft::transport::in_memory::{
    closed_destination, unknown_destination, InMemoryNetwork, Route,
};
use cairn::raft::transport::scheduler::{
    closed_input, closed_scheduler, stopped_scheduler, Action, Event, ScheduledDelivery, Scheduler,
};
use cairn::raft::types::NodeId;

const MILLISECOND: u128 = 1_000_000;

fn message(term: u64) -> Message {
    Message::RequestVoteResp(RequestVoteResp {
        term,
        vote_granted: true,
        pre_vote: false,
    })
}

/// The nodes' inboxes, and the task that fills them.
struct Net {
    network: InMemoryNetwork,
    scheduler: Scheduler<u64>,
    incoming: VecDeque<ScheduledDelivery<u64>>,
    inboxes: BTreeMap<NodeId, VecDeque<(NodeId, Message)>>,
    acknowledged: Vec<u64>,
    now: u128,
    sent: u64,
}

impl Net {
    fn cluster(ids: &[NodeId], seed: u64) -> Result<Net> {
        Ok(Net {
            network: InMemoryNetwork::cluster(ids, seed)?,
            scheduler: Scheduler::new(),
            incoming: VecDeque::new(),
            inboxes: ids.iter().map(|&id| (id, VecDeque::new())).collect(),
            acknowledged: Vec::new(),
            now: 0,
            sent: 0,
        })
    }

    /// Hands a message over; `None` where it is lost.
    fn hand_over(&mut self, from: NodeId, to: NodeId, message: Message) -> Result<Option<u64>> {
        let closed = !self.inboxes.contains_key(&to);
        let delay = match self.network.route(from, to, closed)? {
            Route::Lost => return Ok(None),
            Route::After(delay) => delay,
        };
        let ticket = self.network.ticket(from, to, self.now.checked_add(delay))?;
        self.sent += 1;
        self.incoming.push_back(ScheduledDelivery {
            deadline: ticket.deadline,
            sequence: ticket.sequence,
            from,
            to,
            message,
            acknowledgement: self.sent,
        });
        Ok(Some(self.sent))
    }

    /// Sends, and waits until the message has arrived.
    fn send(&mut self, from: NodeId, to: NodeId, message: Message) -> Result<()> {
        if let Some(id) = self.hand_over(from, to, message)? {
            while !self.acknowledged.contains(&id) {
                self.run();
                self.now += MILLISECOND;
            }
        }
        Ok(())
    }

    /// Runs the task until it waits.
    fn run(&mut self) {
        let mut event = Event::Turn(false, self.now);
        loop {
            match self.scheduler.step(event) {
                Action::Deliver(delivery) => {
                    self.inboxes
                        .get_mut(&delivery.to)
                        .unwrap()
                        .push_back((delivery.from, delivery.message));
                    self.acknowledged.push(delivery.acknowledgement);
                    event = Event::Turn(false, self.now);
                }
                Action::Poll => {
                    event = match self.incoming.pop_front() {
                        Some(delivery) => Event::Arrival(delivery),
                        None => Event::Nothing,
                    };
                }
                Action::Yield | Action::Again => event = Event::Turn(false, self.now),
                Action::Wait => {
                    assert!(matches!(self.scheduler.step(Event::Nothing), Action::Again));
                    return;
                }
                Action::WaitUntil(deadline) if deadline > self.now => {
                    assert!(matches!(self.scheduler.step(Event::Nothing), Action::Again));
                    return;
                }
                Action::WaitUntil(_) => event = Event::Nothing,
                Action::Stop => panic!("the task stopped"),
            }
        }
    }

    fn recv(&mut self, id: NodeId) -> Option<(NodeId, Message)> {
        self.run();
        self.inboxes.get_mut(&id).unwrap().pop_front()
    }
}

fn fault<T>(result: Result<T>) -> (IoKind, String) {
    match result {
        Err(Error::Io(fault)) => (fault.kind, fault.message),
        _ => panic!("expected a failed operation"),
    }
}

#[test]
fn delivers_messages_between_three_nodes() {
    let mut net = Net::cluster(&[1, 2, 3], 17).unwrap();

    net.send(1, 2, message(12)).unwrap();
    net.send(1, 3, message(13)).unwrap();

    assert_eq!(net.recv(2), Some((1, message(12))));
    assert_eq!(net.recv(3), Some((1, message(13))));
}

#[test]
fn partition_blocks_delivery_until_healed() {
    let mut net = Net::cluster(&[1, 2], 23).unwrap();

    net.network.partition(1, 2).unwrap();
    net.send(1, 2, message(21)).unwrap();
    net.now += 10 * MILLISECOND;
    assert_eq!(net.recv(2), None);
    net.send(2, 1, message(20)).unwrap();
    assert_eq!(net.recv(1), None);

    net.network.heal();
    net.send(1, 2, message(22)).unwrap();
    assert_eq!(net.recv(2), Some((1, message(22))));
}

#[test]
fn drops_exactly_one_message_in_the_configured_direction() {
    let mut net = Net::cluster(&[1, 2], 29).unwrap();

    net.network.drop_next(1, 2).unwrap();
    net.send(1, 2, message(31)).unwrap();
    net.send(1, 2, message(32)).unwrap();
    net.send(2, 1, message(33)).unwrap();

    assert_eq!(net.recv(2), Some((1, message(32))));
    assert_eq!(net.recv(1), Some((2, message(33))));
}

#[test]
fn applies_directional_delay_before_delivery() {
    let mut net = Net::cluster(&[1, 2], 37).unwrap();

    net.network.set_delay(1, 2, 30 * MILLISECOND).unwrap();
    net.hand_over(1, 2, message(41)).unwrap();

    net.now += 5 * MILLISECOND;
    assert_eq!(net.recv(2), None);
    net.now += 25 * MILLISECOND;
    assert_eq!(net.recv(2), Some((1, message(41))));

    net.hand_over(2, 1, message(42)).unwrap();
    assert_eq!(net.recv(1), Some((2, message(42))));
    net.network.set_delay(1, 2, 0).unwrap();
    net.hand_over(1, 2, message(43)).unwrap();
    assert_eq!(net.recv(2), Some((1, message(43))));
}

#[test]
fn rejects_duplicate_and_unknown_node_ids() {
    assert!(matches!(Net::cluster(&[1, 1], 43), Err(Error::Io(_))));

    let mut net = Net::cluster(&[1, 2], 47).unwrap();

    assert!(matches!(net.network.partition(1, 3), Err(Error::Io(_))));
    assert!(matches!(net.network.drop_next(3, 1), Err(Error::Io(_))));
    assert!(matches!(
        net.network.set_delay(1, 3, MILLISECOND),
        Err(Error::Io(_))
    ));
    assert!(matches!(net.send(1, 3, message(51)), Err(Error::Io(_))));
}

#[test]
fn sending_to_a_closed_destination_returns_an_io_error() {
    let mut net = Net::cluster(&[1, 2], 53).unwrap();
    net.inboxes.remove(&2);

    assert!(matches!(net.send(1, 2, message(61)), Err(Error::Io(_))));
}

#[test]
fn refusals_have_their_texts() {
    assert_eq!(
        fault(InMemoryNetwork::cluster(&[4, 9, 9, 4], 0)),
        (IoKind::InvalidInput, "duplicate node id 9".to_string())
    );
    let mut network = InMemoryNetwork::cluster(&[1, 2], 0).unwrap();
    assert_eq!(
        fault(network.partition(5, 6)),
        (IoKind::InvalidInput, "unknown node id 5".to_string())
    );
    assert_eq!(
        fault(network.route(1, 6, false)),
        (IoKind::InvalidInput, "unknown node id 6".to_string())
    );
    assert_eq!(
        fault(network.route(1, 2, true)),
        (IoKind::BrokenPipe, "destination node 2 is closed".to_string())
    );
    assert_eq!(
        fault(network.ticket(1, 2, None)),
        (
            IoKind::InvalidInput,
            "delay is too large for 1 -> 2".to_string()
        )
    );
    assert_eq!(
        fault::<()>(Err(closed_destination(2))).1,
        "destination node 2 is closed"
    );
    assert_eq!(
        fault::<()>(Err(unknown_destination(12))),
        (
            IoKind::InvalidInput,
            "unknown destination node 12".to_string()
        )
    );
    assert_eq!(
        fault::<()>(Err(closed_input())).1,
        "in-memory transport scheduler input is closed"
    );
    assert_eq!(
        fault::<()>(Err(closed_scheduler())).1,
        "in-memory transport scheduler is closed"
    );
    assert_eq!(
        fault::<()>(Err(stopped_scheduler())),
        (
            IoKind::BrokenPipe,
            "in-memory transport scheduler stopped before delivery".to_string()
        )
    );
}

#[test]
fn deliveries_are_numbered_from_the_seed_on() {
    let mut network = InMemoryNetwork::cluster(&[1, 2], 7).unwrap();
    assert_eq!(network.ticket(1, 2, Some(5)).unwrap().sequence, 7);
    assert_eq!(network.ticket(2, 1, Some(4)).unwrap().sequence, 8);
    assert!(network.ticket(2, 1, None).is_err());
    assert_eq!(network.ticket(2, 1, Some(3)).unwrap().sequence, 9);
}

fn delivery(deadline: u128, sequence: u128) -> ScheduledDelivery<u64> {
    ScheduledDelivery {
        deadline,
        sequence,
        from: 1,
        to: 2,
        message: message(71),
        acknowledgement: 0,
    }
}

#[test]
fn deliveries_go_by_deadline_and_then_by_number() {
    let mut scheduler = Scheduler::new();
    assert!(matches!(scheduler.step(Event::Turn(false, 0)), Action::Poll));
    for (deadline, sequence) in [(30, 1), (10, 2), (20, 3), (10, 4), (20, 0)] {
        assert!(matches!(
            scheduler.step(Event::Arrival(delivery(deadline, sequence))),
            Action::Poll
        ));
    }
    assert!(matches!(
        scheduler.step(Event::Nothing),
        Action::WaitUntil(10)
    ));
    assert!(matches!(scheduler.step(Event::Nothing), Action::Again));
    let mut order = Vec::new();
    while let Action::Deliver(d) = scheduler.step(Event::Turn(false, 25)) {
        order.push((d.deadline, d.sequence));
    }
    assert_eq!(order, vec![(10, 2), (10, 4), (20, 0), (20, 3)]);
    let left: Vec<_> = scheduler.drain().iter().map(|d| d.sequence).collect();
    assert_eq!(left, vec![1]);
}

#[test]
fn scheduler_yields_between_batches() {
    let mut scheduler = Scheduler::new();
    assert!(matches!(scheduler.step(Event::Turn(false, 0)), Action::Poll));
    for sequence in 0..63 {
        let deadline = if sequence == 0 { 0 } else { 60_000 };
        assert!(matches!(
            scheduler.step(Event::Arrival(delivery(deadline, sequence))),
            Action::Poll
        ));
    }
    assert!(matches!(
        scheduler.step(Event::Arrival(delivery(60_000, 63))),
        Action::Yield
    ));
    match scheduler.step(Event::Turn(false, 0)) {
        Action::Deliver(d) => assert_eq!(d.sequence, 0),
        _ => panic!("what is due goes first"),
    }
}

#[test]
fn pending_deliveries_are_handed_back_when_the_input_closes() {
    let mut scheduler = Scheduler::new();
    assert!(matches!(scheduler.step(Event::Turn(false, 0)), Action::Poll));
    assert!(matches!(
        scheduler.step(Event::Arrival(delivery(60_000, 0))),
        Action::Poll
    ));
    assert!(matches!(
        scheduler.step(Event::Disconnected),
        Action::Stop
    ));
    assert_eq!(scheduler.drain().len(), 1);

    let mut scheduler: Scheduler<u64> = Scheduler::new();
    assert!(matches!(scheduler.step(Event::Turn(true, 0)), Action::Stop));
    assert!(matches!(scheduler.step(Event::Nothing), Action::Stop));
}
