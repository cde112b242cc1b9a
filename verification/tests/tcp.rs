//! The rules of the TCP transport.

use cairn::error::{Error, IoKind};
use cairn::raft::transport::tcp::{inbound_permits, AcceptFailurePolicy, INBOUND_BYTE_BUDGET};

#[test]
fn accept_failure_policy_backs_off_but_never_gives_up() {
    let mut policy = AcceptFailurePolicy::new();
    let delays: Vec<_> = (0..8).map(|_| policy.next_delay()).collect();

    assert_eq!(delays, vec![10, 20, 40, 80, 160, 320, 640, 1000]);

    for _ in 0..100 {
        assert_eq!(policy.next_delay(), 1000);
    }

    policy.reset();
    assert_eq!(policy.next_delay(), 10);
}

#[test]
fn a_frame_takes_its_length_or_the_whole_budget() {
    assert_eq!(inbound_permits(0, INBOUND_BYTE_BUDGET).unwrap(), 0);
    assert_eq!(inbound_permits(100, INBOUND_BYTE_BUDGET).unwrap(), 100);
    assert_eq!(
        inbound_permits(INBOUND_BYTE_BUDGET + 1, INBOUND_BYTE_BUDGET).unwrap(),
        16 * 1024 * 1024
    );
    match inbound_permits(usize::MAX, usize::MAX) {
        Err(Error::Io(fault)) => {
            assert_eq!(fault.kind, IoKind::InvalidInput);
            assert_eq!(
                fault.message,
                "inbound byte budget exceeds semaphore permit range"
            );
        }
        other => panic!("expected a refusal, got {other:?}"),
    }
}
