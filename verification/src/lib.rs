//! murmur: a distributed, strongly consistent key/value store whose replicas
//! are kept identical by Raft.

pub mod app;
pub mod clerk;
pub mod codec;
pub mod command;
pub mod proto;
pub mod raft;
pub mod status;
pub mod store;
pub mod wire;
