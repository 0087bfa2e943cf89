//! What a live node does next: the decisions of the driver that owns a node's
//! timers and network.
//!
//! The driver wakes every [`TICK_MILLIS`], asks [`Driver::tick`] what to do, and
//! sends what comes back. Replies are folded in as they arrive.

use vstd::prelude::*;

use super::clock::Instant;
use super::consensus::ConsensusModule;
use super::model::NodeView;
use super::rpc::{AppendEntriesArgs, InstallSnapshotArgs, RequestVoteArgs, RequestVoteReply};
use super::storage::RaftStorage;
use super::types::{LogIndex, NodeId, Role, Term};

verus! {

/// How often, in milliseconds, the driver wakes to check timers. Must be well
/// under the heartbeat interval so heartbeats and election checks fire promptly.
pub const TICK_MILLIS: u64 = 15;

/// One tick's worth of work.
#[derive(Clone, Copy, Debug, PartialEq, Eq)]
pub enum Step {
    /// Send every peer this pre-vote request.
    PreElection(RequestVoteArgs),
    /// Send every peer this vote request.
    Election(RequestVoteArgs),
    /// Send every peer what [`outbound`] gives for it.
    Heartbeat,
    Idle,
}

/// The driver's own state.
#[derive(Clone, Copy, Debug, PartialEq, Eq)]
pub struct Driver {
    /// When the last heartbeat went out, if one ever did.
    pub last_heartbeat: Option<Instant>,
}

impl NodeView {
    /// Work is due for a leader that sent its last heartbeat at `last`.
    pub open spec fn heartbeat_due(self, last: Option<Instant>, now: Instant) -> bool {
        match last {
            Some(last) => now.elapsed_since(last) >= self.timing.heartbeat.nanos,
            None => true,
        }
    }

    /// The election timer has run out.
    pub open spec fn timed_out(self, now: Instant) -> bool {
        self.role != Role::Leader && now.nanos >= self.election_deadline.nanos
    }

    /// What a tick at `now` makes of the node, and the step to take. `probe` and
    /// `campaign` are where the timer is armed to by a pre-election and by an
    /// election.
    pub open spec fn on_tick(
        self,
        last: Option<Instant>,
        now: Instant,
        probe: Instant,
        campaign: Instant,
    ) -> (Self, Step) {
        if self.role == Role::Leader {
            if self.heartbeat_due(last, now) {
                (self, Step::Heartbeat)
            } else {
                (self, Step::Idle)
            }
        } else if self.timed_out(now) {
            let (n, args) = self.start_pre_election(probe);
            if n.pre_vote_succeeded() {
                let (n, args) = n.start_election(campaign);
                (n, Step::Election(args))
            } else {
                (n, Step::PreElection(args))
            }
        } else {
            (self, Step::Idle)
        }
    }

    /// What a pre-vote reply makes of the node, and the vote request to send if a
    /// majority of pre-votes is now in. `campaign` is where the timer is armed to by
    /// an election.
    pub open spec fn on_pre_vote(
        self,
        from: NodeId,
        reply: RequestVoteReply,
        campaign: Instant,
    ) -> (Self, Option<RequestVoteArgs>) {
        let n = self.on_pre_vote_reply(from, reply);
        if n.pre_vote_succeeded() {
            let (n, args) = n.start_election(campaign);
            (n, Some(args))
        } else {
            (n, None)
        }
    }
}

impl Driver {
    /// A driver that has sent nothing: its first heartbeat fires as soon as it
    /// leads.
    pub fn new() -> (r: Self)
        ensures
            r.last_heartbeat is None,
    {
        Driver { last_heartbeat: None }
    }

    /// Decide what to do at `now`. A node whose timer has run out first probes for
    /// votes, and campaigns for real only on a majority of pre-votes, which a
    /// single-node cluster has at once.
    pub fn tick<S: RaftStorage + ?Sized>(
        &mut self,
        core: &mut ConsensusModule<S>,
        now: Instant,
    ) -> (r: Step)
        requires
            old(core).wf(),
            old(core)@.current_term < Term::MAX,
            old(core)@.timing.can_arm(now),
        ensures
            final(core).wf(),
            exists|probe: Instant|
                (final(core)@, r) == #[trigger] old(core)@.on_tick(
                    old(self).last_heartbeat,
                    now,
                    probe,
                    final(core)@.election_deadline,
                ) && (r is PreElection ==> probe == final(core)@.election_deadline),
            final(self).last_heartbeat == (if r is Heartbeat {
                Some(now)
            } else {
                old(self).last_heartbeat
            }),
            r is PreElection || r is Election ==> old(core)@.timing.may_expire(
                now,
                final(core)@.election_deadline,
            ),
            r is Election ==> final(core).saves(old(core)),
            !(r is Election) ==> final(core).stored() == old(core).stored() && final(core).synced()
                == old(core).synced() && final(core).failures() == old(core).failures(),
    {
        if core.is_leader() {
            let due: bool = match self.last_heartbeat {
                Some(last) => now.saturating_duration_since(last).nanos >= core.timing(
                ).heartbeat.nanos,
                None => true,
            };
            proof {
                assert(core@ == old(core)@.on_tick(
                    self.last_heartbeat,
                    now,
                    core@.election_deadline,
                    core@.election_deadline,
                ).0);
            }
            if due {
                self.last_heartbeat = Some(now);
                Step::Heartbeat
            } else {
                Step::Idle
            }
        } else if core.election_timed_out(now) {
            let probe_args = core.start_pre_election(now);
            let ghost probe = core@.election_deadline;
            if core.pre_vote_succeeded() {
                let args = core.start_election(now);
                proof {
                    assert(core@ == old(core)@.on_tick(
                        self.last_heartbeat,
                        now,
                        probe,
                        core@.election_deadline,
                    ).0);
                }
                Step::Election(args)
            } else {
                proof {
                    assert(core@ == old(core)@.on_tick(
                        self.last_heartbeat,
                        now,
                        probe,
                        core@.election_deadline,
                    ).0);
                }
                Step::PreElection(probe_args)
            }
        } else {
            proof {
                assert(core@ == old(core)@.on_tick(
                    self.last_heartbeat,
                    now,
                    core@.election_deadline,
                    core@.election_deadline,
                ).0);
            }
            Step::Idle
        }
    }
}

impl Default for Driver {
    fn default() -> (r: Self)
        ensures
            r.last_heartbeat is None,
    {
        Driver::new()
    }
}

/// Fold in a pre-vote reply, and campaign for real if a majority of pre-votes is
/// now in: then every peer is to be sent the vote request that comes back.
pub fn fold_pre_vote<S: RaftStorage + ?Sized>(
    core: &mut ConsensusModule<S>,
    from: NodeId,
    reply: RequestVoteReply,
    now: Instant,
) -> (r: Option<RequestVoteArgs>)
    requires
        old(core).wf(),
        old(core)@.current_term < Term::MAX,
        old(core)@.timing.can_arm(now),
    ensures
        final(core).wf(),
        (final(core)@, r) == old(core)@.on_pre_vote(from, reply, final(core)@.election_deadline),
        r is Some ==> old(core)@.timing.may_expire(now, final(core)@.election_deadline),
        r is Some || reply.term > old(core)@.current_term ==> final(core).saves(old(core)),
        final(core).keeps(old(core)),
{
    core.record_pre_vote_reply(from, reply);
    if core.pre_vote_succeeded() {
        Some(core.start_election(now))
    } else {
        None
    }
}

/// What the leader sends a peer.
#[derive(Debug, PartialEq, Eq)]
pub enum Outbound {
    /// The entries it lacks, and the index through which it agrees with us once it
    /// has accepted them.
    Append { args: AppendEntriesArgs, match_hint: LogIndex },
    /// The snapshot, since the entries it lacks have been compacted away.
    Install { args: InstallSnapshotArgs },
}

/// The message for `peer`.
pub fn outbound<S: RaftStorage + ?Sized>(core: &ConsensusModule<S>, peer: NodeId) -> (r: Outbound)
    requires
        core.wf(),
    ensures
        match r {
            Outbound::Append { args, match_hint } => {
                &&& !core@.needs_snapshot(peer)
                &&& args@ == core@.append_args_for(peer)
                &&& match_hint == args@.last_index()
            },
            Outbound::Install { args } => {
                &&& core@.needs_snapshot(peer)
                &&& args@ == core@.install_snapshot_args()
            },
        },
{
    if core.needs_snapshot(peer) {
        Outbound::Install { args: core.install_snapshot_args(peer) }
    } else {
        let args = core.append_args_for(peer);
        proof {
            core.lemma_wf();
            assert(args.entries@.len() == args@.entries.len());
        }
        let match_hint: LogIndex = args.prev_log_index + args.entries.len() as u64;
        Outbound::Append { args, match_hint }
    }
}

} // verus!
