//! The Raft RPCs as plain values: RequestVote, AppendEntries and
//! InstallSnapshot, independent of any wire format.

use vstd::prelude::*;

use super::types::{copy_entries, EntryView, LogEntry, LogIndex, NodeId, Term};

verus! {

/// Sent by a candidate to gather votes for a new term, or, as a pre-vote, to
/// ask whether it would get them.
#[derive(Clone, Copy, Debug, PartialEq, Eq)]
pub struct RequestVoteArgs {
    /// Candidate's term; for a pre-vote, the term it would run in.
    pub term: Term,
    /// Candidate requesting the vote.
    pub candidate_id: NodeId,
    /// Index of the candidate's last log entry.
    pub last_log_index: LogIndex,
    /// Term of the candidate's last log entry.
    pub last_log_term: Term,
    /// Whether this only probes for a vote without asking for it.
    pub pre_vote: bool,
}

/// A voter's response to [`RequestVoteArgs`].
#[derive(Clone, Copy, Debug, PartialEq, Eq)]
pub struct RequestVoteReply {
    /// Voter's current term, so a stale candidate can step down.
    pub term: Term,
    /// Whether the candidate received this node's vote.
    pub vote_granted: bool,
}

/// Sent by the leader to replicate entries and as a heartbeat. An empty
/// `entries` list is a pure heartbeat.
#[derive(Debug, PartialEq, Eq)]
pub struct AppendEntriesArgs {
    /// Leader's term.
    pub term: Term,
    /// So followers can redirect clients to the current leader.
    pub leader_id: NodeId,
    /// Index immediately preceding the new entries; the follower must already
    /// hold a matching entry here.
    pub prev_log_index: LogIndex,
    /// Term of the entry at `prev_log_index`.
    pub prev_log_term: Term,
    /// New entries to store (empty for a heartbeat).
    pub entries: Vec<LogEntry>,
    /// Leader's commit index, letting the follower advance its own.
    pub leader_commit: LogIndex,
}

/// What an [`AppendEntriesArgs`] stands for.
#[verifier::ext_equal]
pub struct AppendView {
    pub term: Term,
    pub leader_id: NodeId,
    pub prev_log_index: LogIndex,
    pub prev_log_term: Term,
    pub entries: Seq<EntryView>,
    pub leader_commit: LogIndex,
}

impl View for AppendEntriesArgs {
    type V = AppendView;

    open spec fn view(&self) -> AppendView {
        AppendView {
            term: self.term,
            leader_id: self.leader_id,
            prev_log_index: self.prev_log_index,
            prev_log_term: self.prev_log_term,
            entries: super::types::entries_view(self.entries@),
            leader_commit: self.leader_commit,
        }
    }
}

impl Clone for AppendEntriesArgs {
    fn clone(&self) -> (r: Self)
        ensures
            r@ == self@,
    {
        AppendEntriesArgs {
            term: self.term,
            leader_id: self.leader_id,
            prev_log_index: self.prev_log_index,
            prev_log_term: self.prev_log_term,
            entries: copy_entries(self.entries.as_slice()),
            leader_commit: self.leader_commit,
        }
    }
}

impl AppendView {
    /// Index of the last entry that the message carries, or `prev_log_index` if
    /// it carries none: how far an accepting follower agrees with the leader.
    pub open spec fn last_index(self) -> int {
        self.prev_log_index + self.entries.len()
    }
}

/// A follower's response to [`AppendEntriesArgs`].
#[derive(Clone, Copy, Debug, PartialEq, Eq)]
pub struct AppendEntriesReply {
    /// Follower's current term, so a stale leader can step down.
    pub term: Term,
    /// True if the follower's log matched and it accepted the entries.
    pub success: bool,
    /// Fast-backtracking hint used when `success` is false, so the leader can
    /// skip a whole conflicting term in one round trip. `None` means "no hint,
    /// fall back to a single decrement".
    pub conflict_index: Option<LogIndex>,
    /// The conflicting term at `conflict_index`, paired with it for the hint.
    pub conflict_term: Option<Term>,
}

impl AppendEntriesReply {
    /// A plain success carrying the responder's term.
    pub fn success(term: Term) -> (r: Self)
        ensures
            r == Self::spec_success(term),
    {
        Self { term, success: true, conflict_index: None, conflict_term: None }
    }

    /// A rejection with no backtracking hint (e.g. stale term).
    pub fn rejected(term: Term) -> (r: Self)
        ensures
            r == Self::spec_rejected(term),
    {
        Self { term, success: false, conflict_index: None, conflict_term: None }
    }

    /// A success carrying `term` and no hint.
    pub open spec fn spec_success(term: Term) -> Self {
        AppendEntriesReply { term, success: true, conflict_index: None, conflict_term: None }
    }

    /// A rejection carrying `term` and no hint.
    pub open spec fn spec_rejected(term: Term) -> Self {
        AppendEntriesReply { term, success: false, conflict_index: None, conflict_term: None }
    }
}

/// Sent by the leader to a follower whose needed entries have been compacted
/// away: the state-machine image that replaces them.
#[derive(Debug, PartialEq, Eq)]
pub struct InstallSnapshotArgs {
    /// Leader's term.
    pub term: Term,
    /// So followers can redirect clients to the current leader.
    pub leader_id: NodeId,
    /// Index of the last entry that the image covers.
    pub last_included_index: LogIndex,
    /// Term of that entry.
    pub last_included_term: Term,
    /// The image, opaque to Raft.
    pub data: Vec<u8>,
}

/// What an [`InstallSnapshotArgs`] stands for.
#[verifier::ext_equal]
pub struct InstallView {
    pub term: Term,
    pub leader_id: NodeId,
    pub last_included_index: LogIndex,
    pub last_included_term: Term,
    pub data: Seq<u8>,
}

impl View for InstallSnapshotArgs {
    type V = InstallView;

    open spec fn view(&self) -> InstallView {
        InstallView {
            term: self.term,
            leader_id: self.leader_id,
            last_included_index: self.last_included_index,
            last_included_term: self.last_included_term,
            data: self.data@,
        }
    }
}

/// A follower's response to [`InstallSnapshotArgs`].
#[derive(Clone, Copy, Debug, PartialEq, Eq)]
pub struct InstallSnapshotReply {
    /// Follower's current term, so a stale leader can step down.
    pub term: Term,
}

} // verus!
