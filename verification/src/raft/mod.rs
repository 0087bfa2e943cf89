//! murmur's Raft implementation.
//!
//! Log indices are 1-based. Index 0 is the synthetic position "before the first
//! entry" and always has term 0.

pub mod clock;
pub mod cluster;
pub mod config;
pub mod consensus;
pub mod durability_laws;
pub mod election_laws;
pub mod induction;
pub mod laws;
pub mod life;
pub mod model;
pub mod node;
pub mod replication_laws;
pub mod rpc;
pub mod safety;
pub mod storage;
pub mod transport;
pub mod types;

pub use clock::{Duration, Instant};
pub use config::{parse_peer, ClusterConfig, Peer, PeerError, Timing};
pub use consensus::ConsensusModule;
pub use node::{fold_pre_vote, outbound, Driver, Outbound, Step, TICK_MILLIS};
pub use rpc::{
    AppendEntriesArgs, AppendEntriesReply, InstallSnapshotArgs, InstallSnapshotReply,
    RequestVoteArgs, RequestVoteReply,
};
pub use storage::{InMemoryStorage, PersistentState, RaftStorage, StorageError};
pub use transport::RaftService;
pub use types::{Applied, Apply, Log, LogEntry, LogIndex, NodeId, Role, Snapshot, Term};
