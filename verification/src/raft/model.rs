//! The state of one Raft node as a mathematical value, and how each event
//! changes it.
//!
//! The contracts of [`super::consensus`] are stated over these functions, and
//! the safety of a whole cluster is proved over them too.

use vstd::prelude::*;

use super::clock::Instant;
use super::config::Timing;
use super::rpc::{
    AppendEntriesReply, AppendView, InstallSnapshotReply, InstallView, RequestVoteArgs,
    RequestVoteReply,
};
use super::storage::PersistentView;
use super::types::{
    ApplyView, EntryView, LogIndex, LogView, NodeId, Role, SnapshotView, Term,
};

verus! {

impl LogView {
    /// The log-consistency check: the log holds `prev` at term `prev_term`, or
    /// its snapshot already covers `prev`.
    pub open spec fn matches(self, prev: LogIndex, prev_term: Term) -> bool {
        prev <= self.snapshot_index || self.term_at(prev as int) == Some(prev_term)
    }

    /// The `k`th of the `entries` that follow `prev` is one that the log already
    /// has: its snapshot covers it, or it holds an entry of that term there.
    pub open spec fn has_already(self, prev: LogIndex, entries: Seq<EntryView>, k: int) -> bool {
        let index = prev + 1 + k;
        index <= self.snapshot_index || self.term_at(index) == Some(entries[k].term)
    }

    /// `k` is how many of the leading `entries` the log already has.
    pub open spec fn is_agreed(self, prev: LogIndex, entries: Seq<EntryView>, k: int) -> bool {
        &&& 0 <= k <= entries.len()
        &&& forall|j: int| 0 <= j < k ==> #[trigger] self.has_already(prev, entries, j)
        &&& k < entries.len() ==> !self.has_already(prev, entries, k)
    }

    /// The log after storing the `entries` that follow `prev`: entries it already
    /// has are left alone; from the first it lacks or contradicts on, its own
    /// suffix is erased and theirs put in its place.
    pub open spec fn splice(self, prev: LogIndex, entries: Seq<EntryView>) -> Self {
        let k = choose|k: int| self.is_agreed(prev, entries, k);
        if k == entries.len() {
            self
        } else {
            let kept = self.truncate_after(prev + k);
            LogView { entries: kept.entries + entries.skip(k), ..kept }
        }
    }

    /// Whether a log ending at `last_index` with term `last_term` is at least as
    /// up-to-date as this one: compare the last terms, then the lengths.
    pub open spec fn is_covered_by(self, last_index: LogIndex, last_term: Term) -> bool {
        ||| last_term > self.last_term()
        ||| last_term == self.last_term() && last_index >= self.last_index()
    }
}

/// The state of one node.
#[verifier::ext_equal]
pub struct NodeView {
    pub id: NodeId,
    pub peers: Seq<NodeId>,
    pub timing: Timing,
    // Persistent.
    pub current_term: Term,
    pub voted_for: Option<NodeId>,
    pub log: LogView,
    pub snapshot: Option<Seq<u8>>,
    // Volatile.
    pub role: Role,
    pub leader_id: Option<NodeId>,
    pub commit_index: LogIndex,
    pub last_applied: LogIndex,
    pub next_index: Map<NodeId, LogIndex>,
    pub match_index: Map<NodeId, LogIndex>,
    pub votes: Set<NodeId>,
    pub pre_candidate: bool,
    pub pre_votes: Set<NodeId>,
    pub last_leader_contact: Instant,
    pub pending_snapshot: Option<SnapshotView>,
    pub election_deadline: Instant,
}

impl NodeView {
    /// What holds of every node at all times.
    pub open spec fn wf(self) -> bool {
        &&& self.log.wf()
        &&& self.timing.wf()
        &&& forall|p: NodeId| #[trigger]
            self.next_index.contains_key(p) ==> self.next_index[p] >= 1
        &&& forall|p: NodeId| #[trigger]
            self.match_index.contains_key(p) ==> self.match_index[p] < LogIndex::MAX
    }

    /// The cursors are in order: everything that the snapshot covers is applied,
    /// everything applied is committed, and everything committed is in the log.
    pub open spec fn in_order(self) -> bool {
        self.log.snapshot_index <= self.last_applied <= self.commit_index
            <= self.log.last_index()
    }

    /// Nodes that make a majority of the cluster (the peers plus this node).
    pub open spec fn quorum(self) -> nat {
        (self.peers.len() + 1) / 2 + 1
    }

    /// The part of the state that must survive a crash.
    pub open spec fn persistent(self) -> PersistentView {
        PersistentView {
            current_term: self.current_term,
            voted_for: self.voted_for,
            log: self.log,
            snapshot: self.snapshot,
        }
    }

    /// A node that starts from persisted state: a follower whose cursors stand at
    /// the snapshot boundary, with the snapshot queued for the state machine.
    pub open spec fn restored(
        id: NodeId,
        peers: Seq<NodeId>,
        timing: Timing,
        persisted: PersistentView,
        now: Instant,
        deadline: Instant,
    ) -> Self {
        NodeView {
            id,
            peers,
            timing,
            current_term: persisted.current_term,
            voted_for: persisted.voted_for,
            log: persisted.log,
            snapshot: persisted.snapshot,
            role: Role::Follower,
            leader_id: None,
            commit_index: persisted.log.snapshot_index,
            last_applied: persisted.log.snapshot_index,
            next_index: Map::empty(),
            match_index: Map::empty(),
            votes: Set::empty(),
            pre_candidate: false,
            pre_votes: Set::empty(),
            last_leader_contact: now,
            pending_snapshot: match persisted.snapshot {
                Some(data) => Some(
                    SnapshotView {
                        last_included_index: persisted.log.snapshot_index,
                        last_included_term: persisted.log.snapshot_term,
                        data,
                    },
                ),
                None => None,
            },
            election_deadline: deadline,
        }
    }

    // ---- role transitions ----
    /// Revert to follower at `term`, forgetting any vote if the term is newer.
    pub open spec fn step_down(self, term: Term) -> Self {
        let newer = term > self.current_term;
        NodeView {
            current_term: if newer {
                term
            } else {
                self.current_term
            },
            voted_for: if newer {
                None
            } else {
                self.voted_for
            },
            role: Role::Follower,
            votes: Set::empty(),
            pre_candidate: false,
            pre_votes: Set::empty(),
            ..self
        }
    }

    /// A reply from a newer term: step down, and no leader is known.
    pub open spec fn superseded(self, term: Term) -> Self {
        NodeView { leader_id: None, ..self.step_down(term) }
    }

    /// Take up leadership: assume that every peer's log ends where ours does.
    pub open spec fn become_leader(self) -> Self {
        NodeView {
            role: Role::Leader,
            leader_id: Some(self.id),
            pre_candidate: false,
            pre_votes: Set::empty(),
            next_index: Map::new(
                |p: NodeId| self.peers.contains(p),
                |p: NodeId| (self.log.last_index() + 1) as LogIndex,
            ),
            match_index: Map::new(|p: NodeId| self.peers.contains(p), |p: NodeId| 0),
            ..self
        }
    }

    /// Take up leadership if a majority has voted for us.
    pub open spec fn maybe_become_leader(self) -> Self {
        if self.role == Role::Candidate && self.votes.len() >= self.quorum() {
            self.become_leader()
        } else {
            self
        }
    }

    // ---- candidate side ----
    /// Probe for votes in the next term without adopting it.
    pub open spec fn start_pre_election(self, deadline: Instant) -> (Self, RequestVoteArgs) {
        (
            NodeView {
                pre_candidate: true,
                pre_votes: Set::empty().insert(self.id),
                election_deadline: deadline,
                ..self
            },
            RequestVoteArgs {
                term: (self.current_term + 1) as Term,
                candidate_id: self.id,
                last_log_index: self.log.last_index() as LogIndex,
                last_log_term: self.log.last_term(),
                pre_vote: true,
            },
        )
    }

    /// Fold in a pre-vote reply.
    pub open spec fn on_pre_vote_reply(self, from: NodeId, reply: RequestVoteReply) -> Self {
        if reply.term > self.current_term {
            self.superseded(reply.term)
        } else if self.pre_candidate && reply.vote_granted {
            NodeView { pre_votes: self.pre_votes.insert(from), ..self }
        } else {
            self
        }
    }

    /// A majority has pledged a pre-vote.
    pub open spec fn pre_vote_succeeded(self) -> bool {
        self.pre_candidate && self.pre_votes.len() >= self.quorum()
    }

    /// This node as a candidate for the next term, holding its own vote.
    pub open spec fn as_candidate(self, deadline: Instant) -> Self {
        NodeView {
            pre_candidate: false,
            pre_votes: Set::empty(),
            role: Role::Candidate,
            current_term: (self.current_term + 1) as Term,
            voted_for: Some(self.id),
            leader_id: None,
            votes: Set::empty().insert(self.id),
            election_deadline: deadline,
            ..self
        }
    }

    /// Campaign for the next term.
    pub open spec fn start_election(self, deadline: Instant) -> (Self, RequestVoteArgs) {
        (
            self.as_candidate(deadline).maybe_become_leader(),
            RequestVoteArgs {
                term: (self.current_term + 1) as Term,
                candidate_id: self.id,
                last_log_index: self.log.last_index() as LogIndex,
                last_log_term: self.log.last_term(),
                pre_vote: false,
            },
        )
    }

    /// Fold in a vote.
    pub open spec fn on_vote_reply(self, from: NodeId, reply: RequestVoteReply) -> Self {
        if reply.term > self.current_term {
            self.superseded(reply.term)
        } else if self.role == Role::Candidate && reply.term == self.current_term
            && reply.vote_granted {
            NodeView { votes: self.votes.insert(from), ..self }.maybe_become_leader()
        } else {
            self
        }
    }

    // ---- voter side ----
    /// A leader is known to be live: this node leads, or heard one recently.
    pub open spec fn leader_is_live(self, now: Instant) -> bool {
        ||| self.role == Role::Leader
        ||| now.elapsed_since(self.last_leader_contact) < self.timing.election_min.nanos
    }

    /// The answer to a pre-vote.
    pub open spec fn pre_vote_reply(self, args: RequestVoteArgs, now: Instant) -> RequestVoteReply {
        RequestVoteReply {
            term: self.current_term,
            vote_granted: args.term >= self.current_term && !self.leader_is_live(now)
                && self.log.is_covered_by(args.last_log_index, args.last_log_term),
        }
    }

    /// This node may still vote for `candidate` in the current term.
    pub open spec fn free_to_vote(self, candidate: NodeId) -> bool {
        self.voted_for is None || self.voted_for == Some(candidate)
    }

    /// Answer a request for a vote, or a pre-vote.
    pub open spec fn on_request_vote(
        self,
        args: RequestVoteArgs,
        now: Instant,
        deadline: Instant,
    ) -> (Self, RequestVoteReply) {
        if args.pre_vote {
            (self, self.pre_vote_reply(args, now))
        } else if args.term < self.current_term {
            (self, RequestVoteReply { term: self.current_term, vote_granted: false })
        } else {
            let s = if args.term > self.current_term {
                self.step_down(args.term)
            } else {
                self
            };
            if s.free_to_vote(args.candidate_id) && s.log.is_covered_by(
                args.last_log_index,
                args.last_log_term,
            ) {
                (
                    NodeView {
                        voted_for: Some(args.candidate_id),
                        election_deadline: deadline,
                        ..s
                    },
                    RequestVoteReply { term: s.current_term, vote_granted: true },
                )
            } else {
                (s, RequestVoteReply { term: s.current_term, vote_granted: false })
            }
        }
    }

    // ---- follower side ----
    /// Yield to the leader of `term`, which is at least ours, and re-arm the timer.
    pub open spec fn follow(
        self,
        term: Term,
        leader: NodeId,
        now: Instant,
        deadline: Instant,
    ) -> Self {
        NodeView {
            leader_id: Some(leader),
            last_leader_contact: now,
            election_deadline: deadline,
            ..self.step_down(term)
        }
    }

    /// The rejection of a failed consistency check at `prev`: the first missing
    /// index if the log is too short, else the conflicting term and where it
    /// starts.
    pub open spec fn append_conflict(self, prev: LogIndex) -> AppendEntriesReply {
        match self.log.term_at(prev as int) {
            None => AppendEntriesReply {
                term: self.current_term,
                success: false,
                conflict_index: Some((self.log.last_index() + 1) as LogIndex),
                conflict_term: None,
            },
            Some(term) => AppendEntriesReply {
                term: self.current_term,
                success: false,
                conflict_index: self.log.first_index_of_term(term),
                conflict_term: Some(term),
            },
        }
    }

    /// Store the leader's entries and learn its commit index.
    pub open spec fn accept(self, args: AppendView) -> Self {
        let log = self.log.splice(args.prev_log_index, args.entries);
        NodeView {
            log,
            commit_index: if args.leader_commit > self.commit_index {
                if args.leader_commit <= log.last_index() {
                    args.leader_commit
                } else {
                    log.last_index() as LogIndex
                }
            } else {
                self.commit_index
            },
            ..self
        }
    }

    /// Answer an AppendEntries.
    pub open spec fn on_append_entries(
        self,
        args: AppendView,
        now: Instant,
        deadline: Instant,
    ) -> (Self, AppendEntriesReply) {
        if args.term < self.current_term {
            (self, AppendEntriesReply::spec_rejected(self.current_term))
        } else {
            let s = self.follow(args.term, args.leader_id, now, deadline);
            if s.log.matches(args.prev_log_index, args.prev_log_term) {
                (s.accept(args), AppendEntriesReply::spec_success(s.current_term))
            } else {
                (s, s.append_conflict(args.prev_log_index))
            }
        }
    }

    /// Install a snapshot through index `index`: the log keeps its tail where its
    /// entry at the boundary agrees with the snapshot and is dropped where it does
    /// not, and the state machine is to take over from the snapshot. What was
    /// committed in a tail that is kept stays committed.
    pub open spec fn install(self, index: LogIndex, term: Term, data: Seq<u8>) -> Self {
        NodeView {
            log: self.log.compact(index, term),
            snapshot: Some(data),
            commit_index: if self.log.term_at(index as int) == Some(term) && self.commit_index
                > index {
                self.commit_index
            } else {
                index
            },
            last_applied: index,
            pending_snapshot: Some(
                SnapshotView { last_included_index: index, last_included_term: term, data },
            ),
            ..self
        }
    }

    /// Answer an InstallSnapshot. It is stale, and installs nothing, where the
    /// state machine has already applied what it covers.
    pub open spec fn on_install_snapshot(
        self,
        args: InstallView,
        now: Instant,
        deadline: Instant,
    ) -> (Self, InstallSnapshotReply) {
        if args.term < self.current_term {
            (self, InstallSnapshotReply { term: self.current_term })
        } else {
            let s = self.follow(args.term, args.leader_id, now, deadline);
            (
                if args.last_included_index <= s.last_applied {
                    s
                } else {
                    s.install(args.last_included_index, args.last_included_term, args.data)
                },
                InstallSnapshotReply { term: s.current_term },
            )
        }
    }

    // ---- leader side ----
    /// The next index to send `peer`.
    pub open spec fn next_for(self, peer: NodeId) -> LogIndex {
        if self.next_index.contains_key(peer) {
            self.next_index[peer]
        } else {
            (self.log.last_index() + 1) as LogIndex
        }
    }

    /// The highest index that `peer` is known to hold.
    pub open spec fn matched(self, peer: NodeId) -> LogIndex {
        if self.match_index.contains_key(peer) {
            self.match_index[peer]
        } else {
            0
        }
    }

    /// Replicating to `peer` takes a snapshot: its next entry was compacted away.
    pub open spec fn needs_snapshot(self, peer: NodeId) -> bool {
        &&& self.role == Role::Leader
        &&& self.snapshot is Some
        &&& (if self.next_index.contains_key(peer) {
            self.next_index[peer]
        } else {
            1
        }) <= self.log.snapshot_index
    }

    /// The AppendEntries for `peer`: everything from its next index on.
    pub open spec fn append_args_for(self, peer: NodeId) -> AppendView {
        let prev = (self.next_for(peer) - 1) as LogIndex;
        AppendView {
            term: self.current_term,
            leader_id: self.id,
            prev_log_index: prev,
            prev_log_term: match self.log.term_at(prev as int) {
                Some(term) => term,
                None => 0,
            },
            entries: self.log.entries_after(prev as int),
            leader_commit: self.commit_index,
        }
    }

    /// The InstallSnapshot that carries this node's snapshot.
    pub open spec fn install_snapshot_args(self) -> InstallView {
        InstallView {
            term: self.current_term,
            leader_id: self.id,
            last_included_index: self.log.snapshot_index,
            last_included_term: self.log.snapshot_term,
            data: match self.snapshot {
                Some(data) => data,
                None => Seq::empty(),
            },
        }
    }

    /// How many nodes are known to store index `n`: this one, and every peer whose
    /// match index has reached it.
    pub open spec fn replicas(self, n: int) -> nat {
        1 + self.peers.filter(|p: NodeId| self.matched(p) >= n).len()
    }

    /// Index `n` may be committed: its entry is of the current term and stored on
    /// a majority.
    pub open spec fn committable(self, n: int) -> bool {
        self.log.term_at(n) == Some(self.current_term) && self.replicas(n) >= self.quorum()
    }

    /// `n` is where the commit index moves to: the highest committable index, or
    /// where it stood if nothing past it is committable.
    pub open spec fn is_next_commit(self, n: LogIndex) -> bool {
        &&& self.commit_index <= n
        &&& n > self.commit_index ==> n <= self.log.last_index() && self.committable(n as int)
        &&& forall|m: int| n < m <= self.log.last_index() ==> !#[trigger] self.committable(m)
    }

    /// Move the commit index to the highest committable index.
    pub open spec fn advance_commit(self) -> Self {
        NodeView { commit_index: choose|n: LogIndex| self.is_next_commit(n), ..self }
    }

    /// Append a client command to the leader's log.
    pub open spec fn submit_command(self, command: Seq<u8>) -> Self {
        NodeView {
            log: self.log.append(EntryView { term: self.current_term, command }),
            ..self
        }.advance_commit()
    }

    /// The peer is known to hold everything through `index`.
    pub open spec fn note_match(self, peer: NodeId, index: LogIndex) -> Self {
        let matched = if self.matched(peer) >= index {
            self.matched(peer)
        } else {
            index
        };
        NodeView {
            match_index: self.match_index.insert(peer, matched),
            next_index: self.next_index.insert(peer, (matched + 1) as LogIndex),
            ..self
        }.advance_commit()
    }

    /// Where to resume replicating to `peer` after it rejected us with `reply`.
    pub open spec fn next_index_after_conflict(
        self,
        peer: NodeId,
        reply: AppendEntriesReply,
    ) -> LogIndex {
        match (reply.conflict_term, reply.conflict_index) {
            (Some(term), Some(conflict_index)) => match self.log.last_index_of_term(term) {
                Some(last) => (last + 1) as LogIndex,
                None => conflict_index,
            },
            (None, Some(conflict_index)) => conflict_index,
            _ => {
                let next = if self.next_index.contains_key(peer) {
                    self.next_index[peer]
                } else {
                    1
                };
                if next == 0 {
                    0
                } else {
                    (next - 1) as LogIndex
                }
            },
        }
    }

    /// Resume replicating to `peer` where its rejection tells us to.
    pub open spec fn back_off(self, peer: NodeId, reply: AppendEntriesReply) -> Self {
        let next = self.next_index_after_conflict(peer, reply);
        NodeView {
            next_index: self.next_index.insert(
                peer,
                if next >= 1 {
                    next
                } else {
                    1
                },
            ),
            ..self
        }
    }

    /// Fold in the reply to an AppendEntries that reached through `match_hint`.
    pub open spec fn on_append_reply(
        self,
        peer: NodeId,
        reply: AppendEntriesReply,
        match_hint: LogIndex,
    ) -> Self {
        if reply.term > self.current_term {
            self.superseded(reply.term)
        } else if self.role != Role::Leader || reply.term != self.current_term {
            self
        } else if reply.success {
            self.note_match(peer, match_hint)
        } else {
            self.back_off(peer, reply)
        }
    }

    /// Fold in the reply to an InstallSnapshot through `last_included_index`.
    pub open spec fn on_install_reply(
        self,
        peer: NodeId,
        reply: InstallSnapshotReply,
        last_included_index: LogIndex,
    ) -> Self {
        if reply.term > self.current_term {
            self.superseded(reply.term)
        } else if self.role != Role::Leader || reply.term != self.current_term {
            self
        } else {
            self.note_match(peer, last_included_index)
        }
    }

    // ---- state machine side ----
    /// Compact the log against the state machine's image through `index`. A stale
    /// index, or one not yet applied, is ignored.
    pub open spec fn take_snapshot(self, index: LogIndex, data: Seq<u8>) -> Self {
        if index <= self.log.snapshot_index || index > self.last_applied {
            self
        } else {
            NodeView {
                log: self.log.compact(index, self.log.term_at(index as int)->0),
                snapshot: Some(data),
                ..self
            }
        }
    }

    /// The committed entry at `index`, as handed to the state machine.
    pub open spec fn command_at(self, index: int) -> ApplyView {
        ApplyView::Command {
            index: index as LogIndex,
            term: self.log.entry(index).term,
            command: self.log.entry(index).command,
        }
    }

    /// What the state machine is due: a pending snapshot first, then every entry
    /// that is committed but not yet applied, in order.
    pub open spec fn due(self) -> Seq<ApplyView> {
        let reset = match self.pending_snapshot {
            Some(s) => seq![ApplyView::Snapshot(s)],
            None => Seq::empty(),
        };
        let fresh = if self.last_applied < self.commit_index {
            (self.commit_index - self.last_applied) as nat
        } else {
            0
        };
        reset + Seq::new(fresh, |i: int| self.command_at(self.last_applied + 1 + i))
    }

    /// Hand over what is due.
    pub open spec fn take_applies(self) -> Self {
        NodeView {
            pending_snapshot: None,
            last_applied: if self.last_applied < self.commit_index {
                self.commit_index
            } else {
                self.last_applied
            },
            ..self
        }
    }
}

/// The leading run of entries that a log already has is determined.
pub proof fn lemma_agreed_unique(log: LogView, prev: LogIndex, entries: Seq<EntryView>, k: int)
    requires
        log.is_agreed(prev, entries, k),
    ensures
        (choose|j: int| log.is_agreed(prev, entries, j)) == k,
{
    let j = choose|j: int| log.is_agreed(prev, entries, j);
    assert(log.is_agreed(prev, entries, j));
    if j < k {
        assert(log.has_already(prev, entries, j));
    } else if k < j {
        assert(log.has_already(prev, entries, k));
    }
}

/// Every run of entries has a leading part that a log already has.
pub proof fn lemma_agreed_exists(log: LogView, prev: LogIndex, entries: Seq<EntryView>)
    ensures
        exists|k: int| log.is_agreed(prev, entries, k),
{
    lemma_agreed_from(log, prev, entries, 0);
}

proof fn lemma_agreed_from(log: LogView, prev: LogIndex, entries: Seq<EntryView>, from: int)
    requires
        0 <= from <= entries.len(),
        forall|j: int| 0 <= j < from ==> #[trigger] log.has_already(prev, entries, j),
    ensures
        exists|k: int| log.is_agreed(prev, entries, k),
    decreases entries.len() - from,
{
    if from < entries.len() && log.has_already(prev, entries, from) {
        lemma_agreed_from(log, prev, entries, from + 1);
    } else {
        assert(log.is_agreed(prev, entries, from));
    }
}

/// The highest committable index is determined.
pub proof fn lemma_next_commit_unique(node: NodeView, n: LogIndex)
    requires
        node.is_next_commit(n),
    ensures
        node.advance_commit().commit_index == n,
{
    let m = choose|m: LogIndex| node.is_next_commit(m);
    assert(node.is_next_commit(m));
    if m < n {
        assert(node.committable(n as int));
    } else if n < m {
        assert(node.committable(m as int));
    }
}

/// Moving the commit index never moves it back, and only to a committable index.
pub proof fn lemma_advance_commit(node: NodeView)
    requires
        node.log.wf(),
    ensures
        node.is_next_commit(node.advance_commit().commit_index),
{
    lemma_next_commit_from(node, node.log.last_index());
}

proof fn lemma_next_commit_from(node: NodeView, from: int)
    requires
        from <= node.log.last_index() < LogIndex::MAX,
        forall|m: int| from < m <= node.log.last_index() ==> !#[trigger] node.committable(m),
    ensures
        node.is_next_commit(node.advance_commit().commit_index),
    decreases from - node.commit_index,
{
    if from <= node.commit_index {
        assert(node.is_next_commit(node.commit_index));
    } else if node.committable(from) {
        assert(node.is_next_commit(from as LogIndex));
    } else {
        lemma_next_commit_from(node, from - 1);
    }
}

} // verus!
