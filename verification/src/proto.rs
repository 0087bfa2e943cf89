//! The messages of murmur's gRPC services, as plain values.

use vstd::prelude::*;

use crate::raft::rpc::{AppendView, InstallView, RequestVoteArgs, RequestVoteReply};
use crate::raft::types::EntryView;

pub use crate::command::{Command, Op};

verus! {

// ---- Raft, node to node ----
/// One log entry.
#[derive(Clone, Debug, PartialEq, Eq)]
pub struct LogEntry {
    pub term: u64,
    pub command: Vec<u8>,
}

impl View for LogEntry {
    type V = EntryView;

    open spec fn view(&self) -> EntryView {
        EntryView { term: self.term, command: self.command@ }
    }
}

/// The entries that a run of [`LogEntry`] values stands for.
pub open spec fn entries_view(entries: Seq<LogEntry>) -> Seq<EntryView> {
    Seq::new(entries.len(), |i: int| entries[i]@)
}

#[derive(Clone, Copy, Debug, PartialEq, Eq)]
pub struct RequestVoteRequest {
    pub term: u64,
    pub candidate_id: u64,
    pub last_log_index: u64,
    pub last_log_term: u64,
    pub pre_vote: bool,
}

impl View for RequestVoteRequest {
    type V = RequestVoteArgs;

    open spec fn view(&self) -> RequestVoteArgs {
        RequestVoteArgs {
            term: self.term,
            candidate_id: self.candidate_id,
            last_log_index: self.last_log_index,
            last_log_term: self.last_log_term,
            pre_vote: self.pre_vote,
        }
    }
}

#[derive(Clone, Copy, Debug, PartialEq, Eq)]
pub struct RequestVoteResponse {
    pub term: u64,
    pub vote_granted: bool,
}

impl View for RequestVoteResponse {
    type V = RequestVoteReply;

    open spec fn view(&self) -> RequestVoteReply {
        RequestVoteReply { term: self.term, vote_granted: self.vote_granted }
    }
}

#[derive(Clone, Debug, PartialEq, Eq)]
pub struct AppendEntriesRequest {
    pub term: u64,
    pub leader_id: u64,
    pub prev_log_index: u64,
    pub prev_log_term: u64,
    pub entries: Vec<LogEntry>,
    pub leader_commit: u64,
}

impl View for AppendEntriesRequest {
    type V = AppendView;

    open spec fn view(&self) -> AppendView {
        AppendView {
            term: self.term,
            leader_id: self.leader_id,
            prev_log_index: self.prev_log_index,
            prev_log_term: self.prev_log_term,
            entries: entries_view(self.entries@),
            leader_commit: self.leader_commit,
        }
    }
}

/// A response that carries a conflict hint only where `has_conflict` is set.
#[derive(Clone, Copy, Debug, PartialEq, Eq)]
pub struct AppendEntriesResponse {
    pub term: u64,
    pub success: bool,
    pub has_conflict: bool,
    pub conflict_index: u64,
    pub conflict_term: u64,
}

#[derive(Clone, Debug, PartialEq, Eq)]
pub struct InstallSnapshotRequest {
    pub term: u64,
    pub leader_id: u64,
    pub last_included_index: u64,
    pub last_included_term: u64,
    pub data: Vec<u8>,
}

impl View for InstallSnapshotRequest {
    type V = InstallView;

    open spec fn view(&self) -> InstallView {
        InstallView {
            term: self.term,
            leader_id: self.leader_id,
            last_included_index: self.last_included_index,
            last_included_term: self.last_included_term,
            data: self.data@,
        }
    }
}

#[derive(Clone, Copy, Debug, PartialEq, Eq)]
pub struct InstallSnapshotResponse {
    pub term: u64,
}

} // verus!
