//! The Raft consensus state machine: synchronous, single-threaded, and free of
//! any I/O but the storage handed to it.
//!
//! Everything here mutates in-process state and returns values; the driver owns
//! all timers and networking.

use std::collections::{HashMap, HashSet};

use vstd::prelude::*;

use super::clock::Instant;
use super::config::Timing;
use super::model::{
    NodeView,
};
use super::rpc::{
    AppendEntriesArgs, AppendEntriesReply, InstallSnapshotArgs, InstallSnapshotReply,
    RequestVoteArgs, RequestVoteReply,
};
use super::storage::{PersistentState, PersistentView, RaftStorage, StorageError};
use super::types::{
    copy_bytes, copy_entries, copy_optional_bytes, Applied,
    Apply, ApplyView, Log, LogEntry, LogIndex, NodeId, Role, Snapshot,
    SnapshotView, Term,
};

verus! {

broadcast use vstd::std_specs::hash::group_hash_axioms;

/// One node's consensus state. Persistent state is mirrored to `storage`.
pub struct ConsensusModule<S: RaftStorage + ?Sized = dyn RaftStorage> {
    id: NodeId,
    peers: Vec<NodeId>,
    quorum: usize,
    storage: Box<S>,
    timing: Timing,
    // Persistent state.
    current_term: Term,
    voted_for: Option<NodeId>,
    log: Log,
    /// The opaque state-machine snapshot the log was last compacted against. Its
    /// index and term live on `log` as the snapshot boundary.
    snapshot: Option<Vec<u8>>,
    // Volatile state on all nodes.
    role: Role,
    leader_id: Option<NodeId>,
    commit_index: LogIndex,
    /// How far the apply cursor has advanced.
    last_applied: LogIndex,
    // Volatile state on the leader, reset on each election win.
    next_index: HashMap<NodeId, LogIndex>,
    match_index: HashMap<NodeId, LogIndex>,
    // Volatile state on a candidate.
    votes: HashSet<NodeId>,
    // Volatile state while pre-campaigning.
    pre_candidate: bool,
    pre_votes: HashSet<NodeId>,
    /// When we last heard from a valid leader.
    last_leader_contact: Instant,
    /// A snapshot waiting to be handed to the state machine.
    pending_snapshot: Option<Snapshot>,
    /// When the current election timeout expires (meaningful off the leader).
    election_deadline: Instant,
    /// Whether the last save succeeded, so that `storage` mirrors this state.
    synced: bool,
    /// The failed saves that nobody has collected yet.
    save_failures: Vec<StorageError>,
}

/// What an optional [`Snapshot`] stands for.
pub open spec fn snapshot_view(snapshot: Option<Snapshot>) -> Option<SnapshotView> {
    match snapshot {
        Some(s) => Some(s@),
        None => None,
    }
}

impl<S: RaftStorage + ?Sized> View for ConsensusModule<S> {
    type V = NodeView;

    closed spec fn view(&self) -> NodeView {
        NodeView {
            id: self.id,
            peers: self.peers@,
            timing: self.timing,
            current_term: self.current_term,
            voted_for: self.voted_for,
            log: self.log@,
            snapshot: super::types::bytes_view(self.snapshot),
            role: self.role,
            leader_id: self.leader_id,
            commit_index: self.commit_index,
            last_applied: self.last_applied,
            next_index: self.next_index@,
            match_index: self.match_index@,
            votes: self.votes@,
            pre_candidate: self.pre_candidate,
            pre_votes: self.pre_votes@,
            last_leader_contact: self.last_leader_contact,
            pending_snapshot: snapshot_view(self.pending_snapshot),
            election_deadline: self.election_deadline,
        }
    }
}

impl<S: RaftStorage + ?Sized> ConsensusModule<S> {
    /// What stable storage holds.
    pub closed spec fn stored(&self) -> PersistentView {
        self.storage.stored()
    }

    /// The last save succeeded.
    pub closed spec fn synced(&self) -> bool {
        self.synced
    }

    /// The failed saves that nobody has collected yet.
    pub closed spec fn failures(&self) -> Seq<StorageError> {
        self.save_failures@
    }

    /// The cached majority size is that of the cluster.
    closed spec fn quorum_ok(&self) -> bool {
        self.quorum == self@.quorum()
    }

    /// The node's state is well formed, and stable storage mirrors it unless a
    /// save has failed.
    pub closed spec fn wf(&self) -> bool {
        &&& self@.wf()
        &&& self.quorum_ok()
        &&& self.synced() ==> self.stored() == self@.persistent()
    }

    /// What a well-formed node is.
    pub proof fn lemma_wf(&self)
        requires
            self.wf(),
        ensures
            self@.wf(),
            self.synced() ==> self.stored() == self@.persistent(),
    {
    }

    /// Failed saves are reported: none is forgotten, and if none was added then
    /// storage still mirrors the state if it did `before`.
    pub open spec fn keeps(&self, before: &Self) -> bool {
        &&& before.failures().is_prefix_of(self.failures())
        &&& self.failures() == before.failures() && before.synced() ==> self.synced()
    }

    /// The state was saved: storage mirrors it, unless a failed save was added.
    pub open spec fn saves(&self, before: &Self) -> bool {
        &&& before.failures().is_prefix_of(self.failures())
        &&& self.failures() == before.failures() ==> self.synced()
    }

    /// What it means that a call has saved: unless it has reported a failure, storage then
    /// holds the node's term, vote, log and snapshot, each as it is. The same goes for a
    /// call that has nothing to save, where storage held them before.
    pub proof fn saved_state_is_stored(&self, before: &Self)
        requires
            self.wf(),
            self.failures().len() == before.failures().len(),
            self.saves(before) || self.keeps(before) && before.synced(),
        ensures
            self.stored().current_term == self@.current_term,
            self.stored().voted_for == self@.voted_for,
            self.stored().log == self@.log,
            self.stored().snapshot == self@.snapshot,
    {
        assert(before.failures() =~= self.failures());
    }

    /// No failure to save is ever forgotten: a call adds to the reports, if anything.
    pub proof fn failures_are_kept(&self, before: &Self, k: int)
        requires
            self.saves(before) || self.keeps(before),
            0 <= k < before.failures().len(),
        ensures
            k < self.failures().len(),
            self.failures()[k] == before.failures()[k],
    {
    }

    /// What is saved after some steps that reported their failures is saved.
    proof fn lemma_saves_after(&self, between: &Self, before: &Self)
        requires
            before.failures().is_prefix_of(between.failures()),
            between.failures().is_prefix_of(self.failures()),
        ensures
            before.failures().is_prefix_of(self.failures()),
            self.failures() == before.failures() ==> self.failures() == between.failures(),
    {
        assert(before.failures() =~= self.failures().take(before.failures().len() as int));
        if self.failures() == before.failures() {
            assert(self.failures() =~= between.failures());
        }
    }

    /// Storage was not touched.
    closed spec fn same_store(&self, before: &Self) -> bool {
        &&& self.stored() == before.stored()
        &&& self.synced() == before.synced()
        &&& self.failures() == before.failures()
        &&& self.quorum == before.quorum
    }

    /// Build a node, restoring any persisted term, vote, log and snapshot from
    /// `storage` and arming a fresh randomized election timeout relative to `now`.
    /// Fails exactly when the load does, with its error.
    pub fn new(
        id: NodeId,
        peers: Vec<NodeId>,
        storage: Box<S>,
        timing: Timing,
        now: Instant,
    ) -> (r: Result<Self, StorageError>)
        requires
            timing.wf(),
            timing.can_arm(now),
        ensures
            r matches Ok(cm) ==> {
                &&& cm.wf()
                &&& cm.synced()
                &&& cm.failures().len() == 0
                &&& cm.stored() == storage.stored()
                &&& cm@ == NodeView::restored(
                    id,
                    peers@,
                    timing,
                    storage.stored(),
                    now,
                    cm@.election_deadline,
                )
                &&& timing.may_expire(now, cm@.election_deadline)
            },
            r is Ok ==> exists|p: PersistentState|
                #![trigger p.view()]
                call_ensures(S::load, (&*storage,), Ok::<PersistentState, StorageError>(p)) && p@
                    == storage.stored(),
            r matches Err(e) ==> call_ensures(
                S::load,
                (&*storage,),
                Err::<PersistentState, StorageError>(e),
            ),
    {
        match storage.load() {
            Ok(persisted) => Ok(Self::restore(id, peers, storage, persisted, timing, now)),
            Err(e) => Err(e),
        }
    }

    /// Build a node from the state that `storage` holds, already loaded.
    pub fn restore(
        id: NodeId,
        peers: Vec<NodeId>,
        storage: Box<S>,
        persisted: PersistentState,
        timing: Timing,
        now: Instant,
    ) -> (r: Self)
        requires
            storage.stored() == persisted@,
            persisted.wf(),
            timing.wf(),
            timing.can_arm(now),
        ensures
            r.wf(),
            r.synced(),
            r.failures().len() == 0,
            r.stored() == persisted@,
            r@ == NodeView::restored(id, peers@, timing, persisted@, now, r@.election_deadline),
            timing.may_expire(now, r@.election_deadline),
    {
        // Half the cluster, rounded down, plus one.
        let n: usize = peers.len();
        let quorum: usize = n / 2 + n % 2 + 1;
        // Everything the snapshot covers is already committed and applied.
        let base: LogIndex = persisted.log.snapshot_index();
        // The state machine must restore from the snapshot what the compacted log
        // can no longer replay.
        let pending_snapshot = match &persisted.snapshot {
            Some(data) => Some(
                Snapshot {
                    last_included_index: persisted.log.snapshot_index(),
                    last_included_term: persisted.log.snapshot_term(),
                    data: copy_bytes(data),
                },
            ),
            None => None,
        };
        let mut cm = Self {
            id,
            peers,
            quorum,
            storage,
            timing,
            current_term: persisted.current_term,
            voted_for: persisted.voted_for,
            log: persisted.log,
            snapshot: persisted.snapshot,
            role: Role::Follower,
            leader_id: None,
            commit_index: base,
            last_applied: base,
            next_index: HashMap::new(),
            match_index: HashMap::new(),
            votes: HashSet::new(),
            pre_candidate: false,
            pre_votes: HashSet::new(),
            last_leader_contact: now,
            pending_snapshot,
            election_deadline: now,
            synced: true,
            save_failures: Vec::new(),
        };
        assert(cm@ == NodeView::restored(id, peers@, timing, persisted@, now, now));
        cm.reset_election_deadline(now);
        cm
    }

    // ---- observation ----
    pub fn role(&self) -> (r: Role)
        ensures
            r == self@.role,
    {
        self.role
    }

    pub fn current_term(&self) -> (r: Term)
        ensures
            r == self@.current_term,
    {
        self.current_term
    }

    pub fn voted_for(&self) -> (r: Option<NodeId>)
        ensures
            r == self@.voted_for,
    {
        self.voted_for
    }

    pub fn leader_id(&self) -> (r: Option<NodeId>)
        ensures
            r == self@.leader_id,
    {
        self.leader_id
    }

    pub fn commit_index(&self) -> (r: LogIndex)
        ensures
            r == self@.commit_index,
    {
        self.commit_index
    }

    pub fn last_applied(&self) -> (r: LogIndex)
        ensures
            r == self@.last_applied,
    {
        self.last_applied
    }

    pub fn last_log_index(&self) -> (r: LogIndex)
        requires
            self.wf(),
        ensures
            r == self@.log.last_index(),
    {
        self.log.last_index()
    }

    /// Borrow the log entries held in the tail.
    pub fn log_entries(&self) -> (r: &[LogEntry])
        ensures
            super::types::entries_view(r@) == self@.log.entries,
    {
        self.log.entries()
    }

    pub fn is_leader(&self) -> (r: bool)
        ensures
            r == (self@.role == Role::Leader),
    {
        self.role == Role::Leader
    }

    pub fn timing(&self) -> (r: Timing)
        ensures
            r == self@.timing,
    {
        self.timing
    }

    pub fn peer_ids(&self) -> (r: &[NodeId])
        ensures
            r@ == self@.peers,
    {
        self.peers.as_slice()
    }

    /// Highest index the state machine has captured in a snapshot (0 if none).
    pub fn snapshot_index(&self) -> (r: LogIndex)
        ensures
            r == self@.log.snapshot_index,
    {
        self.log.snapshot_index()
    }

    /// Term of the entry at the boundary the log was compacted through.
    pub fn snapshot_term(&self) -> (r: Term)
        ensures
            r == self@.log.snapshot_term,
    {
        self.log.snapshot_term()
    }

    /// Entries physically held in the log tail.
    pub fn raft_log_len(&self) -> (r: usize)
        ensures
            r == self@.log.entries.len(),
    {
        self.log.len()
    }

    /// Whether stable storage mirrors this node's persistent state.
    pub fn is_synced(&self) -> (r: bool)
        ensures
            r == self.synced(),
    {
        self.synced
    }

    /// Whether replicating to `peer` requires an InstallSnapshot: true once the
    /// peer's next needed entry has been compacted away.
    pub fn needs_snapshot(&self, peer: NodeId) -> (r: bool)
        ensures
            r == self@.needs_snapshot(peer),
    {
        let next: LogIndex = match self.next_index.get(&peer) {
            Some(next) => *next,
            None => 1,
        };
        self.role == Role::Leader && self.snapshot.is_some() && next <= self.log.snapshot_index()
    }

    /// Collect the errors of failed saves, oldest first, for the driver to report.
    pub fn take_save_failures(&mut self) -> (r: Vec<StorageError>)
        requires
            old(self).wf(),
        ensures
            final(self).wf(),
            r@ == old(self).failures(),
            final(self).failures().len() == 0,
            final(self)@ == old(self)@,
            final(self).synced() == old(self).synced(),
            final(self).stored() == old(self).stored(),
    {
        let mut taken: Vec<StorageError> = Vec::new();
        std::mem::swap(&mut taken, &mut self.save_failures);
        assert(self@ == old(self)@);
        taken
    }

    // ---- persistence ----
    /// Mirror the persistent state to storage. A failed save is kept for the
    /// driver to report: it means safety may be violated after a crash.
    fn persist(&mut self)
        requires
            old(self)@.wf(),
            old(self).quorum_ok(),
        ensures
            final(self).wf(),
            final(self)@ == old(self)@,
            final(self).saves(old(self)),
    {
        let state = PersistentState {
            current_term: self.current_term,
            voted_for: self.voted_for,
            log: self.log.clone(),
            snapshot: copy_optional_bytes(&self.snapshot),
        };
        assert(state@ == self@.persistent());
        match self.storage.save(&state) {
            Ok(()) => {
                self.synced = true;
            },
            Err(e) => {
                self.synced = false;
                self.save_failures.push(e);
                assert(self.failures() == old(self).failures().push(e));
            },
        }
        assert(self@ == old(self)@);
    }

    // ---- election timer ----
    fn reset_election_deadline(&mut self, now: Instant)
        requires
            old(self)@.timing.wf(),
            old(self)@.timing.can_arm(now),
        ensures
            final(self)@ == (NodeView {
                election_deadline: final(self)@.election_deadline,
                ..old(self)@
            }),
            old(self)@.timing.may_expire(now, final(self)@.election_deadline),
            final(self).same_store(old(self)),
    {
        let timeout = self.timing.random_election_timeout();
        self.election_deadline = now.plus(timeout);
    }

    /// True when a non-leader has heard nothing from a leader or candidate in time
    /// and should start its own election.
    pub fn election_timed_out(&self, now: Instant) -> (r: bool)
        ensures
            r == (self@.role != Role::Leader && now.nanos >= self@.election_deadline.nanos),
    {
        self.role != Role::Leader && now.nanos >= self.election_deadline.nanos
    }

    // ---- role transitions ----
    /// Revert to follower at `term`. If `term` is strictly newer, adopt it and
    /// forget any vote.
    fn step_down(&mut self, term: Term)
        requires
            old(self).wf(),
        ensures
            final(self).wf(),
            final(self)@ == old(self)@.step_down(term),
            final(self).keeps(old(self)),
            term > old(self)@.current_term ==> final(self).saves(old(self)),
    {
        let newer: bool = term > self.current_term;
        if newer {
            self.current_term = term;
            self.voted_for = None;
        }
        self.role = Role::Follower;
        self.votes.clear();
        self.abandon_pre_election();
        assert(self@ == old(self)@.step_down(term));
        if newer {
            self.persist();
        }
    }

    /// Drop any in-flight pre-election.
    fn abandon_pre_election(&mut self)
        ensures
            final(self)@ == (NodeView {
                pre_candidate: false,
                pre_votes: Set::empty(),
                ..old(self)@
            }),
            final(self).same_store(old(self)),
    {
        self.pre_candidate = false;
        self.pre_votes.clear();
    }

    fn become_leader(&mut self)
        requires
            old(self).wf(),
        ensures
            final(self).wf(),
            final(self)@ == old(self)@.become_leader(),
            final(self).same_store(old(self)),
    {
        self.role = Role::Leader;
        self.leader_id = Some(self.id);
        self.abandon_pre_election();
        // Optimistically assume peers match our log, then let rejections walk
        // `next_index` back.
        let next: LogIndex = self.log.last_index() + 1;
        self.next_index.clear();
        self.match_index.clear();
        let ghost before = *self;
        let mut i: usize = 0;
        while i < self.peers.len()
            invariant
                i <= self.peers.len(),
                self.peers == before.peers,
                self.same_store(&before),
                self@ == (NodeView {
                    next_index: self.next_index@,
                    match_index: self.match_index@,
                    ..before@
                }),
                self.next_index@ =~= Map::new(
                    |p: NodeId| self.peers@.take(i as int).contains(p),
                    |p: NodeId| next,
                ),
                self.match_index@ =~= Map::new(
                    |p: NodeId| self.peers@.take(i as int).contains(p),
                    |p: NodeId| 0,
                ),
            decreases self.peers.len() - i,
        {
            let peer: NodeId = self.peers[i];
            let ghost done = self.peers@.take(i as int);
            self.next_index.insert(peer, next);
            self.match_index.insert(peer, 0);
            i += 1;
            proof {
                assert(self.peers@.take(i as int) =~= done.push(peer));
                assert forall|p: NodeId| #[trigger] done.push(peer).contains(p) <==> done.contains(p)
                    || p == peer by {
                    if done.contains(p) {
                        let j = choose|j: int| 0 <= j < done.len() && done[j] == p;
                        assert(done.push(peer)[j] == p);
                    }
                    assert(done.push(peer)[done.len() as int] == peer);
                }
            }
        }
        assert(self.peers@.take(i as int) =~= self.peers@);
        assert(self@ =~= old(self)@.become_leader());
    }

    fn maybe_become_leader(&mut self)
        requires
            old(self).wf(),
        ensures
            final(self).wf(),
            final(self)@ == old(self)@.maybe_become_leader(),
            final(self).same_store(old(self)),
    {
        if self.role == Role::Candidate && self.votes.len() >= self.quorum {
            self.become_leader();
        }
    }

    // ---- candidate side ----
    /// Begin a *pre-election*: probe whether a majority would vote for us in the
    /// next term, without adopting it. Nothing here is persisted or increments the
    /// term.
    pub fn start_pre_election(&mut self, now: Instant) -> (r: RequestVoteArgs)
        requires
            old(self).wf(),
            old(self)@.current_term < Term::MAX,
            old(self)@.timing.can_arm(now),
        ensures
            final(self).wf(),
            (final(self)@, r) == old(self)@.start_pre_election(final(self)@.election_deadline),
            old(self)@.timing.may_expire(now, final(self)@.election_deadline),
            final(self).stored() == old(self).stored(),
            final(self).synced() == old(self).synced(),
            final(self).failures() == old(self).failures(),
    {
        self.pre_candidate = true;
        self.pre_votes.clear();
        self.pre_votes.insert(self.id);
        self.reset_election_deadline(now);
        assert(self@ =~= old(self)@.start_pre_election(self@.election_deadline).0);
        RequestVoteArgs {
            // The term we *would* run in, so voters compare against it.
            term: self.current_term + 1,
            candidate_id: self.id,
            last_log_index: self.log.last_index(),
            last_log_term: self.log.last_term(),
            pre_vote: true,
        }
    }

    /// Fold a pre-vote reply into pre-candidate state. A higher term means a real
    /// leadership exists we must yield to; otherwise a grant is tallied.
    pub fn record_pre_vote_reply(&mut self, from: NodeId, reply: RequestVoteReply)
        requires
            old(self).wf(),
        ensures
            final(self).wf(),
            final(self)@ == old(self)@.on_pre_vote_reply(from, reply),
            final(self).keeps(old(self)),
            reply.term > old(self)@.current_term ==> final(self).saves(old(self)),
    {
        if reply.term > self.current_term {
            self.step_down(reply.term);
            self.leader_id = None;
            return;
        }
        if self.pre_candidate && reply.vote_granted {
            self.pre_votes.insert(from);
        }
    }

    /// Whether we are pre-campaigning and a majority has pledged a pre-vote.
    pub fn pre_vote_succeeded(&self) -> (r: bool)
        requires
            self.wf(),
        ensures
            r == self@.pre_vote_succeeded(),
    {
        self.pre_candidate && self.pre_votes.len() >= self.quorum
    }

    /// Transition to candidate for a new term and produce the RequestVote to
    /// broadcast. Votes for self immediately (which is enough to win a single-node
    /// cluster).
    pub fn start_election(&mut self, now: Instant) -> (r: RequestVoteArgs)
        requires
            old(self).wf(),
            old(self)@.current_term < Term::MAX,
            old(self)@.timing.can_arm(now),
        ensures
            final(self).wf(),
            (final(self)@, r) == old(self)@.start_election(final(self)@.election_deadline),
            old(self)@.timing.may_expire(now, final(self)@.election_deadline),
            final(self).saves(old(self)),
    {
        self.abandon_pre_election();
        self.role = Role::Candidate;
        self.current_term = self.current_term + 1;
        self.voted_for = Some(self.id);
        self.leader_id = None;
        self.votes.clear();
        self.votes.insert(self.id);
        self.reset_election_deadline(now);
        assert(self@ =~= old(self)@.as_candidate(self@.election_deadline));
        self.persist();
        self.maybe_become_leader();
        RequestVoteArgs {
            term: self.current_term,
            candidate_id: self.id,
            last_log_index: self.log.last_index(),
            last_log_term: self.log.last_term(),
            pre_vote: false,
        }
    }

    /// Fold a RequestVote reply into candidate state, possibly winning the
    /// election or stepping down on a newer term.
    pub fn record_vote_reply(&mut self, from: NodeId, reply: RequestVoteReply)
        requires
            old(self).wf(),
        ensures
            final(self).wf(),
            final(self)@ == old(self)@.on_vote_reply(from, reply),
            final(self).keeps(old(self)),
            reply.term > old(self)@.current_term ==> final(self).saves(old(self)),
    {
        if reply.term > self.current_term {
            self.step_down(reply.term);
            self.leader_id = None;
            return;
        }
        // Ignore late replies from an election we've already left.
        if self.role != Role::Candidate || reply.term != self.current_term {
            return;
        }
        if reply.vote_granted {
            self.votes.insert(from);
            self.maybe_become_leader();
        }
    }

    // ---- voter side ----
    /// Is a candidate's log at least as up-to-date as ours? Compare the last
    /// entry's term first, then length.
    fn log_is_up_to_date(&self, last_log_index: LogIndex, last_log_term: Term) -> (r: bool)
        requires
            self@.log.wf(),
        ensures
            r == self@.log.is_covered_by(last_log_index, last_log_term),
    {
        last_log_term > self.log.last_term() || (last_log_term == self.log.last_term()
            && last_log_index >= self.log.last_index())
    }

    /// Answer a vote request. A pre-vote is answered without touching any state:
    /// granted only if we have heard from no leader for a full election timeout,
    /// the proposed term isn't stale, and the candidate's log is up-to-date.
    pub fn handle_request_vote(&mut self, args: RequestVoteArgs, now: Instant) -> (r:
        RequestVoteReply)
        requires
            old(self).wf(),
            old(self)@.timing.can_arm(now),
        ensures
            final(self).wf(),
            (final(self)@, r) == old(self)@.on_request_vote(
                args,
                now,
                final(self)@.election_deadline,
            ),
            !args.pre_vote && r.vote_granted ==> old(self)@.timing.may_expire(
                now,
                final(self)@.election_deadline,
            ),
            final(self).keeps(old(self)),
            !args.pre_vote && r.vote_granted ==> final(self).saves(old(self)),
            !args.pre_vote && args.term > old(self)@.current_term ==> final(self).saves(old(self)),
            args.pre_vote ==> final(self).stored() == old(self).stored() && final(self).synced()
                == old(self).synced() && final(self).failures() == old(self).failures(),
    {
        if args.pre_vote {
            let leader_is_live: bool = self.role == Role::Leader
                || now.saturating_duration_since(self.last_leader_contact).nanos
                < self.timing.election_min.nanos;
            let grant: bool = args.term >= self.current_term && !leader_is_live
                && self.log_is_up_to_date(args.last_log_index, args.last_log_term);
            return RequestVoteReply { term: self.current_term, vote_granted: grant };
        }
        if args.term < self.current_term {
            return RequestVoteReply { term: self.current_term, vote_granted: false };
        }
        if args.term > self.current_term {
            self.step_down(args.term);
        }
        let ghost stepped = *self;
        let up_to_date: bool = self.log_is_up_to_date(args.last_log_index, args.last_log_term);
        let free_to_vote: bool = match self.voted_for {
            None => true,
            Some(candidate) => candidate == args.candidate_id,
        };

        if free_to_vote && up_to_date {
            self.voted_for = Some(args.candidate_id);
            self.reset_election_deadline(now);  // granting a vote is "hearing from" a candidate
            let ghost granted = *self;
            assert(granted@ =~= NodeView {
                voted_for: Some(args.candidate_id),
                election_deadline: granted@.election_deadline,
                ..stepped@
            });
            self.persist();
            proof {
                self.lemma_saves_after(&stepped, old(self));
            }
            RequestVoteReply { term: self.current_term, vote_granted: true }
        } else {
            RequestVoteReply { term: self.current_term, vote_granted: false }
        }
    }

    // ---- follower side ----
    /// Yield to the leader of `term`: adopt its term if newer, and in any case
    /// become its follower and re-arm the election timer.
    fn follow(&mut self, term: Term, leader: NodeId, now: Instant)
        requires
            old(self).wf(),
            old(self)@.timing.can_arm(now),
            term >= old(self)@.current_term,
        ensures
            final(self).wf(),
            final(self)@ == old(self)@.follow(term, leader, now, final(self)@.election_deadline),
            old(self)@.timing.may_expire(now, final(self)@.election_deadline),
            final(self).keeps(old(self)),
            term > old(self)@.current_term ==> final(self).saves(old(self)),
    {
        if term > self.current_term {
            self.step_down(term);
        } else {
            self.role = Role::Follower;
            self.votes.clear();
            self.abandon_pre_election();
        }
        assert(self@ =~= old(self)@.step_down(term));
        self.leader_id = Some(leader);
        self.last_leader_contact = now;
        self.reset_election_deadline(now);
    }

    /// Receive an AppendEntries: yield to its leader, check that our log holds what
    /// precedes the entries, splice them in, and learn the leader's commit index.
    pub fn handle_append_entries(&mut self, args: AppendEntriesArgs, now: Instant) -> (r:
        AppendEntriesReply)
        requires
            old(self).wf(),
            old(self)@.timing.can_arm(now),
            old(self)@.log.last_index() + args.entries.len() < LogIndex::MAX,
        ensures
            final(self).wf(),
            (final(self)@, r) == old(self)@.on_append_entries(
                args@,
                now,
                final(self)@.election_deadline,
            ),
            args.term >= old(self)@.current_term ==> old(self)@.timing.may_expire(
                now,
                final(self)@.election_deadline,
            ),
            final(self).keeps(old(self)),
            r.success && args.entries.len() > 0 ==> final(self).saves(old(self)),
            args.term > old(self)@.current_term ==> final(self).saves(old(self)),
    {
        if args.term < self.current_term {
            return AppendEntriesReply::rejected(self.current_term);
        }
        self.follow(args.term, args.leader_id, now);
        let ghost followed = *self;

        // A prev_log_index at or below our snapshot boundary is covered by the
        // snapshot, so it matches by construction.
        if args.prev_log_index > self.log.snapshot_index() {
            let matching: bool = match self.log.term_at(args.prev_log_index) {
                Some(term) => term == args.prev_log_term,
                None => false,
            };
            if !matching {
                return self.append_conflict(args.prev_log_index);
            }
        }
        let had_entries: bool = args.entries.len() > 0;
        self.splice(args.prev_log_index, args.entries);
        if had_entries {
            self.persist();
        }
        assert(self@.log == followed@.log.splice(args.prev_log_index, args@.entries));
        if args.leader_commit > self.commit_index {
            let last: LogIndex = self.log.last_index();
            self.commit_index = if args.leader_commit <= last {
                args.leader_commit
            } else {
                last
            };
        }
        proof {
            assert(self@ == followed@.accept(args@));
            self.lemma_saves_after(&followed, old(self));
        }
        AppendEntriesReply::success(self.current_term)
    }

    /// Splice in the leader's entries: skip any prefix already absorbed by our
    /// snapshot or that we already agree on, truncate the first conflict and
    /// everything after it, then append.
    fn splice(&mut self, prev: LogIndex, entries: Vec<LogEntry>)
        requires
            old(self).wf(),
            old(self)@.log.last_index() + entries.len() < LogIndex::MAX,
            prev <= old(self)@.log.last_index(),
        ensures
            final(self)@.wf(),
            final(self).quorum_ok(),
            final(self)@ == (NodeView {
                log: old(self)@.log.splice(prev, super::types::entries_view(entries@)),
                ..old(self)@
            }),
            entries.len() == 0 ==> final(self)@ == old(self)@,
            final(self).same_store(old(self)),
    {
        let ghost sent = super::types::entries_view(entries@);
        let ghost log = self@.log;
        let mut entries = entries;
        let n: usize = entries.len();
        let mut k: usize = 0;
        let mut agreeing: bool = true;
        while agreeing && k < n
            invariant
                k <= n,
                n == entries.len(),
                self == old(self),
                self.wf(),
                log == self@.log,
                sent == super::types::entries_view(entries@),
                prev + n < LogIndex::MAX,
                forall|j: int| 0 <= j < k ==> #[trigger] log.has_already(prev, sent, j),
                !agreeing ==> k < n && !log.has_already(prev, sent, k as int),
            decreases n - k + (if agreeing {
                1int
            } else {
                0
            }),
        {
            let index: LogIndex = prev + 1 + k as u64;
            let have: bool = index <= self.log.snapshot_index() || match self.log.term_at(index) {
                Some(term) => term == entries[k].term,
                None => false,
            };
            assert(have == log.has_already(prev, sent, k as int));
            if have {
                k += 1;
            } else {
                agreeing = false;
            }
        }
        proof {
            assert(log.is_agreed(prev, sent, k as int));
            super::model::lemma_agreed_unique(log, prev, sent, k as int);
            if k > 0 {
                assert(log.has_already(prev, sent, k - 1));
            }
        }
        if k < n {
            let fresh = entries.split_off(k);
            self.log.truncate_after(prev + k as u64);
            assert(super::types::entries_view(fresh@) =~= sent.skip(k as int));
            self.log.extend(fresh);
            assert(self@.log =~= log.splice(prev, sent));
        }
    }

    /// Build the rejection for a failed consistency check, carrying a hint that
    /// tells the leader where our disagreement begins.
    fn append_conflict(&self, prev_log_index: LogIndex) -> (r: AppendEntriesReply)
        requires
            self.wf(),
        ensures
            r == self@.append_conflict(prev_log_index),
    {
        match self.log.term_at(prev_log_index) {
            None => AppendEntriesReply {
                term: self.current_term,
                success: false,
                conflict_index: Some(self.log.last_index() + 1),
                conflict_term: None,
            },
            Some(conflict_term) => AppendEntriesReply {
                term: self.current_term,
                success: false,
                conflict_index: self.log.first_index_of_term(conflict_term),
                conflict_term: Some(conflict_term),
            },
        }
    }

    // ---- leader side ----
    /// Build the AppendEntries to send `peer`, based on where we believe the peer's
    /// log ends.
    pub fn append_args_for(&self, peer: NodeId) -> (r: AppendEntriesArgs)
        requires
            self.wf(),
        ensures
            r@ == self@.append_args_for(peer),
    {
        let next: LogIndex = match self.next_index.get(&peer) {
            Some(next) => *next,
            None => self.log.last_index() + 1,
        };
        assert(next == self@.next_for(peer));
        let prev_log_index: LogIndex = next - 1;
        let prev_log_term: Term = match self.log.term_at(prev_log_index) {
            Some(term) => term,
            None => 0,
        };
        AppendEntriesArgs {
            term: self.current_term,
            leader_id: self.id,
            prev_log_index,
            prev_log_term,
            entries: copy_entries(self.log.entries_after(prev_log_index)),
            leader_commit: self.commit_index,
        }
    }

    /// Append a client command to the leader's log and return its index, or `None`
    /// if this node is not the leader. The entry is stamped with the current term
    /// and persisted before we return.
    pub fn submit_command(&mut self, command: Vec<u8>) -> (r: Option<LogIndex>)
        requires
            old(self).wf(),
            old(self)@.log.last_index() + 1 < LogIndex::MAX,
        ensures
            final(self).wf(),
            match r {
                Some(index) => {
                    &&& old(self)@.role == Role::Leader
                    &&& index == old(self)@.log.last_index() + 1
                    &&& final(self)@ == old(self)@.submit_command(command@)
                    &&& final(self).saves(old(self))
                },
                None => {
                    &&& old(self)@.role != Role::Leader
                    &&& *final(self) == *old(self)
                },
            },
    {
        if self.role != Role::Leader {
            return None;
        }
        let index: LogIndex = self.log.append(LogEntry::new(self.current_term, command));
        self.persist();
        // Covers a single-node cluster: the entry is already on a majority.
        self.maybe_advance_commit();
        Some(index)
    }

    /// Handle an AppendEntries reply: step down on a higher term, else on success
    /// advance our view of the peer's log and recompute the commit index, and on
    /// rejection back `next_index` up.
    ///
    /// `match_hint` is how far *this* message would have advanced the peer if
    /// accepted.
    pub fn handle_append_reply(
        &mut self,
        peer: NodeId,
        reply: AppendEntriesReply,
        match_hint: LogIndex,
    )
        requires
            old(self).wf(),
            match_hint < LogIndex::MAX,
        ensures
            final(self).wf(),
            final(self)@ == old(self)@.on_append_reply(peer, reply, match_hint),
            final(self).keeps(old(self)),
            reply.term > old(self)@.current_term ==> final(self).saves(old(self)),
    {
        if reply.term > self.current_term {
            self.step_down(reply.term);
            self.leader_id = None;
            return;
        }
        // Ignore replies to a message from a term we've since left.
        if self.role != Role::Leader || reply.term != self.current_term {
            return;
        }
        if reply.success {
            self.note_match(peer, match_hint);
        } else {
            let next: LogIndex = self.next_index_after_conflict(peer, &reply);
            let next: LogIndex = if next >= 1 {
                next
            } else {
                1
            };
            self.next_index.insert(peer, next);
        }
    }

    /// Advance our view of `peer` to `index` and recompute the commit index.
    /// `match_index` only ever moves forward: a delayed reply must not rewind it.
    fn note_match(&mut self, peer: NodeId, index: LogIndex)
        requires
            old(self).wf(),
            index < LogIndex::MAX,
        ensures
            final(self).wf(),
            final(self)@ == old(self)@.note_match(peer, index),
            final(self).same_store(old(self)),
    {
        let known: LogIndex = match self.match_index.get(&peer) {
            Some(known) => *known,
            None => 0,
        };
        let matched: LogIndex = if known >= index {
            known
        } else {
            index
        };
        self.match_index.insert(peer, matched);
        self.next_index.insert(peer, matched + 1);
        self.maybe_advance_commit();
    }

    /// Where to resume replicating to a follower that rejected us, decoded from its
    /// conflict hint: just past our last entry of its conflicting term if we hold
    /// that term, else at the index it names, else one step back.
    fn next_index_after_conflict(&self, peer: NodeId, reply: &AppendEntriesReply) -> (r: LogIndex)
        requires
            self.wf(),
        ensures
            r == self@.next_index_after_conflict(peer, *reply),
    {
        match (reply.conflict_term, reply.conflict_index) {
            (Some(term), Some(conflict_index)) => match self.log.last_index_of_term(term) {
                Some(last) => last + 1,
                None => conflict_index,
            },
            (None, Some(conflict_index)) => conflict_index,
            _ => {
                let next: LogIndex = match self.next_index.get(&peer) {
                    Some(next) => *next,
                    None => 1,
                };
                if next == 0 {
                    0
                } else {
                    next - 1
                }
            },
        }
    }

    // ---- snapshotting / log compaction ----
    /// Compact the log against a state-machine snapshot the application has
    /// captured through `index`. A stale or not-yet-applied `index` is ignored.
    pub fn snapshot(&mut self, index: LogIndex, data: Vec<u8>)
        requires
            old(self).wf(),
            old(self)@.log.snapshot_index < index <= old(self)@.last_applied ==> index
                <= old(self)@.log.last_index(),
        ensures
            final(self).wf(),
            final(self)@ == old(self)@.take_snapshot(index, data@),
            final(self).keeps(old(self)),
            old(self)@.log.snapshot_index < index <= old(self)@.last_applied ==> final(self).saves(
                old(self),
            ),
    {
        if index <= self.log.snapshot_index() || index > self.last_applied {
            return;
        }
        match self.log.term_at(index) {
            Some(term) => {
                self.log.compact(index, term);
                self.snapshot = Some(data);
                self.persist();
            },
            None => {},
        }
    }

    /// Build the InstallSnapshot to catch `peer` up. Only meaningful when
    /// [`needs_snapshot`](Self::needs_snapshot) is true, so a snapshot exists.
    pub fn install_snapshot_args(&self, _peer: NodeId) -> (r: InstallSnapshotArgs)
        ensures
            r@ == self@.install_snapshot_args(),
    {
        InstallSnapshotArgs {
            term: self.current_term,
            leader_id: self.id,
            last_included_index: self.log.snapshot_index(),
            last_included_term: self.log.snapshot_term(),
            data: match &self.snapshot {
                Some(data) => copy_bytes(data),
                None => Vec::new(),
            },
        }
    }

    /// Receive an InstallSnapshot from the leader: adopt its term, replace our log
    /// prefix with the snapshot, and queue it for the state machine, unless it is
    /// stale: the state machine has applied at least that far already. Entries past
    /// the snapshot that were committed, and that the log keeps, stay committed.
    pub fn handle_install_snapshot(&mut self, args: InstallSnapshotArgs, now: Instant) -> (r:
        InstallSnapshotReply)
        requires
            old(self).wf(),
            old(self)@.timing.can_arm(now),
            args.last_included_index < LogIndex::MAX,
        ensures
            final(self).wf(),
            (final(self)@, r) == old(self)@.on_install_snapshot(
                args@,
                now,
                final(self)@.election_deadline,
            ),
            args.term >= old(self)@.current_term ==> old(self)@.timing.may_expire(
                now,
                final(self)@.election_deadline,
            ),
            final(self).keeps(old(self)),
            args.term >= old(self)@.current_term && args.last_included_index
                > old(self)@.last_applied ==> final(self).saves(old(self)),
            args.term > old(self)@.current_term ==> final(self).saves(old(self)),
    {
        if args.term < self.current_term {
            return InstallSnapshotReply { term: self.current_term };
        }
        self.follow(args.term, args.leader_id, now);
        let ghost followed = *self;

        // Stale: everything this snapshot covers has been applied.
        if args.last_included_index <= self.last_applied {
            return InstallSnapshotReply { term: self.current_term };
        }
        let agrees: bool = match self.log.term_at(args.last_included_index) {
            Some(t) => t == args.last_included_term,
            None => false,
        };
        self.log.compact(args.last_included_index, args.last_included_term);
        self.snapshot = Some(copy_bytes(&args.data));
        if !agrees || self.commit_index < args.last_included_index {
            self.commit_index = args.last_included_index;
        }
        self.last_applied = args.last_included_index;
        self.persist();
        proof {
            self.lemma_saves_after(&followed, old(self));
        }

        // Hand the snapshot to the state machine on the next drain.
        self.pending_snapshot = Some(
            Snapshot {
                last_included_index: args.last_included_index,
                last_included_term: args.last_included_term,
                data: args.data,
            },
        );
        InstallSnapshotReply { term: self.current_term }
    }

    /// Fold an InstallSnapshot reply into leader state: step down on a higher term,
    /// otherwise advance our view of the peer to the snapshot we just shipped.
    pub fn handle_install_snapshot_reply(
        &mut self,
        peer: NodeId,
        reply: InstallSnapshotReply,
        last_included_index: LogIndex,
    )
        requires
            old(self).wf(),
            last_included_index < LogIndex::MAX,
        ensures
            final(self).wf(),
            final(self)@ == old(self)@.on_install_reply(peer, reply, last_included_index),
            final(self).keeps(old(self)),
            reply.term > old(self)@.current_term ==> final(self).saves(old(self)),
    {
        if reply.term > self.current_term {
            self.step_down(reply.term);
            self.leader_id = None;
            return;
        }
        if self.role != Role::Leader || reply.term != self.current_term {
            return;
        }
        self.note_match(peer, last_included_index);
    }

    /// Advance `commit_index` to the highest log index replicated on a majority
    /// whose entry is of the current term.
    fn maybe_advance_commit(&mut self)
        requires
            old(self).wf(),
        ensures
            final(self).wf(),
            final(self)@ == old(self)@.advance_commit(),
            final(self).same_store(old(self)),
    {
        let mut n: LogIndex = self.log.last_index();
        while n > self.commit_index
            invariant
                self == old(self),
                self.wf(),
                n <= self@.log.last_index(),
                forall|m: int|
                    n < m <= self@.log.last_index() ==> !#[trigger] self@.committable(m),
            decreases n,
        {
            let current: bool = match self.log.term_at(n) {
                Some(term) => term == self.current_term,
                None => false,
            };
            if current && self.is_replicated_on_majority(n) {
                proof {
                    assert(self@.is_next_commit(n));
                    super::model::lemma_next_commit_unique(self@, n);
                }
                self.commit_index = n;
                return;
            }
            n -= 1;
        }
        proof {
            assert(self@.is_next_commit(self.commit_index));
            super::model::lemma_next_commit_unique(self@, self.commit_index);
        }
    }

    /// True if index `n` is stored on a majority of the cluster (this leader plus
    /// every peer whose `match_index` has reached `n`).
    fn is_replicated_on_majority(&self, n: LogIndex) -> (r: bool)
        requires
            self.wf(),
        ensures
            r == (self@.replicas(n as int) >= self@.quorum()),
    {
        let ghost stores = |p: NodeId| self@.matched(p) >= n;
        let mut replicas: usize = 0;  // besides this leader, which holds it by definition
        let mut i: usize = 0;
        while i < self.peers.len()
            invariant
                i <= self.peers.len(),
                replicas <= i,
                stores == (|p: NodeId| self@.matched(p) >= n),
                replicas == self.peers@.take(i as int).filter(stores).len(),
            decreases self.peers.len() - i,
        {
            let matched: LogIndex = match self.match_index.get(&self.peers[i]) {
                Some(matched) => *matched,
                None => 0,
            };
            proof {
                reveal(Seq::filter);
                assert(self.peers@.take(i + 1).drop_last() =~= self.peers@.take(i as int));
                assert(matched == self@.matched(self.peers@[i as int]));
            }
            if matched >= n {
                replicas += 1;
            }
            i += 1;
        }
        assert(self.peers@.take(i as int) =~= self.peers@);
        replicas >= self.quorum - 1
    }

    /// Drain everything the state machine should apply next, in strict order: a
    /// pending snapshot first, then every entry that has become committed but not
    /// yet applied, advancing the apply cursor.
    pub fn take_applies(&mut self) -> (r: Vec<Apply>)
        requires
            old(self).wf(),
            old(self)@.last_applied < old(self)@.commit_index ==> {
                &&& old(self)@.log.snapshot_index <= old(self)@.last_applied
                &&& old(self)@.commit_index <= old(self)@.log.last_index()
            },
        ensures
            final(self).wf(),
            super::types::applies_view(r@) == old(self)@.due(),
            final(self)@ == old(self)@.take_applies(),
            final(self).stored() == old(self).stored(),
            final(self).synced() == old(self).synced(),
            final(self).failures() == old(self).failures(),
    {
        let mut out: Vec<Apply> = Vec::new();
        // A snapshot supersedes the prefix it covers, so it goes first.
        let pending = self.pending_snapshot.take();
        match pending {
            Some(snapshot) => {
                out.push(Apply::Snapshot(snapshot));
            },
            None => {},
        }
        let ghost reset = super::types::applies_view(out@);
        assert(reset =~= match old(self)@.pending_snapshot {
            Some(s) => seq![ApplyView::Snapshot(s)],
            None => Seq::empty(),
        });
        while self.last_applied < self.commit_index
            invariant
                self.wf(),
                self.same_store(old(self)),
                old(self)@.last_applied <= self.last_applied,
                self.last_applied <= self.commit_index || self.last_applied == old(
                    self,
                )@.last_applied,
                self.last_applied < self.commit_index ==> {
                    &&& self@.log.snapshot_index <= self.last_applied
                    &&& self.commit_index <= self@.log.last_index()
                },
                self@ == (NodeView {
                    pending_snapshot: None,
                    last_applied: self.last_applied,
                    ..old(self)@
                }),
                super::types::applies_view(out@) == reset + Seq::new(
                    (self.last_applied - old(self)@.last_applied) as nat,
                    |i: int| old(self)@.command_at(old(self)@.last_applied + 1 + i),
                ),
            decreases self.commit_index - self.last_applied,
        {
            let ghost before = *self;
            let ghost sent = super::types::applies_view(out@);
            self.last_applied = self.last_applied + 1;
            assert(self@ == NodeView { last_applied: self.last_applied, ..before@ });
            assert(self.wf());
            match self.log.get(self.last_applied) {
                Some(entry) => {
                    let item = Apply::Command(
                        Applied {
                            index: self.last_applied,
                            term: entry.term,
                            command: copy_bytes(&entry.command),
                        },
                    );
                    assert(item@ == old(self)@.command_at(self.last_applied as int));
                    out.push(item);
                    assert(super::types::applies_view(out@) =~= sent.push(item@));
                },
                None => {},
            }
            assert(super::types::applies_view(out@) =~= reset + Seq::new(
                (self.last_applied - old(self)@.last_applied) as nat,
                |i: int| old(self)@.command_at(old(self)@.last_applied + 1 + i),
            ));
        }
        out
    }
}

} // verus!
