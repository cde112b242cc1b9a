//! Getting messages from node to node.

pub mod codec;
pub mod codec_laws;
pub mod in_memory;
pub mod intake;
pub mod scheduler;
pub mod tcp;
