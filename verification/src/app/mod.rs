//! The application layer that turns a Raft node into a replicated key/value
//! service: every request becomes a command, goes through the log, and is applied
//! to each node's local store once it commits.
//!
//! Reads go through the log just like writes. That buys linearizability (a read
//! observes a definite point in the committed order) at the cost of a consensus
//! round.
//!
//! A node that restarts reloads its snapshot and applies the committed tail again
//! on top of what the engine already holds. A restore only resets the keys that
//! the snapshot or the key directory names, so a key that first appeared after the
//! snapshot, by an append, can have that append applied twice across a crash.

pub mod directory;
pub mod image;
pub mod laws;
pub mod machine;
pub mod machine_laws;
pub mod outcome;
pub mod receipt;
pub mod sessions;

pub use image::{Pair, Reset};
pub use machine::{appended, Effect, Machine, SNAPSHOT_THRESHOLD};
pub use outcome::{
    append_response, done_response, found, get_response, settle, Failure, GetResponse, Outcome,
    Refusal, Wait, COMMIT_TIMEOUT_MILLIS,
};
pub use receipt::{assign_client_id, propose, receipt_of, Receipt};
pub use sessions::Session;
