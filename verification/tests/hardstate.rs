//! The term and the vote on disk.

use cairn::raft::hardstate::{load_hard_state, save_hard_state};
use cairn::raft::types::HardState;

#[test]
fn save_then_load_roundtrips() {
    let hs = HardState {
        current_term: 7,
        voted_for: Some(3),
    };
    let file = save_hard_state(&hs);
    assert_eq!(load_hard_state(Some(&file)), hs);
}

#[test]
fn missing_file_loads_default() {
    assert_eq!(load_hard_state(None), HardState::default());
}

#[test]
fn no_vote_roundtrips() {
    let hs = HardState {
        current_term: 2,
        voted_for: None,
    };
    let file = save_hard_state(&hs);
    assert_eq!(load_hard_state(Some(&file)), hs);
}
