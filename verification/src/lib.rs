//! Local key-value storage and single-group consensus, written as pure state
//! machines: every file, socket and clock stays with the caller.

pub mod bytes;
pub mod error;
pub mod frame;
pub mod kv;
pub mod raft;
pub mod text;
