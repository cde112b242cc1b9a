//! Entries and hard state.

use cairn::raft::types::{EntryType, HardState, LogEntry};

#[test]
fn hard_state_default_is_term0_no_vote() {
    let hs = HardState::default();
    assert_eq!(hs.current_term, 0);
    assert_eq!(hs.voted_for, None);
}

#[test]
fn log_entry_holds_command_bytes() {
    let e = LogEntry::normal(2, 5, b"set x".to_vec());
    assert_eq!(e.term, 2);
    assert_eq!(e.index, 5);
    assert_eq!(e.command, b"set x");
    assert_eq!(e.entry_type, EntryType::Normal);
}

#[test]
fn entry_type_default_is_normal() {
    assert_eq!(EntryType::default(), EntryType::Normal);
}

#[test]
fn constructors_set_the_matching_entry_type() {
    let normal = LogEntry::normal(1, 1, vec![]);
    let config_change = LogEntry::config_change(1, 2, vec![]);
    assert_eq!(normal.entry_type, EntryType::Normal);
    assert_eq!(config_change.entry_type, EntryType::ConfigChange);
}
