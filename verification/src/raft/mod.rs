//! Single-group consensus.

pub mod cluster;
pub mod hardstate;
pub mod ids;
pub mod lincheck;
pub mod lincheck_laws;
pub mod log;
pub mod node;
pub mod oplog;
pub mod rpc;
pub mod storage;
pub mod transport;
pub mod types;
