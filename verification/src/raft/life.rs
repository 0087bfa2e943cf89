//! One node through any calls, in any order and with any arguments within their
//! contracts: whatever the network, its peers or its state machine make of it.

use vstd::prelude::*;

use super::clock::Instant;
use super::cluster::{Cluster, Event};
use super::model::NodeView;
use super::types::{LogIndex, NodeId, Role, Term};

verus! {

impl NodeView {
    /// The node after a call.
    pub open spec fn after(self, e: Event) -> Self {
        match e {
            Event::PreElection { deadline, .. } => self.start_pre_election(deadline).0,
            Event::Election { deadline, .. } => self.start_election(deadline).0,
            Event::OnVote { args, now, deadline } => self.on_request_vote(args, now, deadline).0,
            Event::OnVoteReply { from, pre_vote, reply } => if pre_vote {
                self.on_pre_vote_reply(from, reply)
            } else {
                self.on_vote_reply(from, reply)
            },
            Event::Submit { command } => if self.role == Role::Leader {
                self.submit_command(command)
            } else {
                self
            },
            Event::SendAppend { .. } => self,
            Event::OnAppend { args, now, deadline } => self.on_append_entries(
                args,
                now,
                deadline,
            ).0,
            Event::OnAppendReply { from, match_hint, reply } => self.on_append_reply(
                from,
                reply,
                match_hint,
            ),
            Event::SendInstall { .. } => self,
            Event::OnInstall { args, now, deadline } => self.on_install_snapshot(
                args,
                now,
                deadline,
            ).0,
            Event::OnInstallReply { from, last_included_index, reply } => self.on_install_reply(
                from,
                reply,
                last_included_index,
            ),
            Event::Compact { index, data } => self.take_snapshot(index, data),
            Event::TakeApplies => self.take_applies(),
            Event::Restart { now, deadline } => NodeView::restored(
                self.id,
                self.peers,
                self.timing,
                self.persistent(),
                now,
                deadline,
            ),
        }
    }

    /// The call grants a real vote, to this candidate.
    pub open spec fn votes_for(self, e: Event, candidate: NodeId) -> bool {
        e matches Event::OnVote { args, now, deadline } && !args.pre_vote && args.candidate_id
            == candidate && self.on_request_vote(args, now, deadline).1.vote_granted
    }

    /// The call arms the election timer: a campaign or a probe for one, word from a
    /// leader whose term is not past (whether or not the logs agree), a granted
    /// vote, and the start of a node.
    pub open spec fn arms(self, e: Event) -> bool {
        match e {
            Event::PreElection { .. } => true,
            Event::Election { .. } => true,
            Event::OnVote { args, .. } => self.votes_for(e, args.candidate_id),
            Event::OnAppend { args, .. } => args.term >= self.current_term,
            Event::OnInstall { args, .. } => args.term >= self.current_term,
            Event::Restart { .. } => true,
            _ => false,
        }
    }

    /// The call is within the contract of the operation that it runs, and where it
    /// arms the election timer, `deadline` is one that may be drawn.
    pub open spec fn allowed(self, e: Event) -> bool {
        &&& self.arms(e) ==> self.timing.may_expire(e.moment(), e.expiry())
        &&& match e {
            Event::PreElection { .. } => self.current_term < Term::MAX,
            Event::Election { .. } => self.current_term < Term::MAX,
            Event::Submit { .. } => self.log.last_index() + 1 < LogIndex::MAX,
            Event::OnAppend { args, .. } => self.log.last_index() + args.entries.len()
                < LogIndex::MAX,
            Event::OnAppendReply { match_hint, .. } => match_hint < LogIndex::MAX,
            Event::OnInstall { args, .. } => args.last_included_index < LogIndex::MAX,
            Event::OnInstallReply { last_included_index, .. } => last_included_index
                < LogIndex::MAX,
            Event::Compact { index, .. } => self.log.snapshot_index < index <= self.last_applied
                ==> index <= self.log.last_index(),
            Event::TakeApplies => self.last_applied < self.commit_index ==> {
                &&& self.log.snapshot_index <= self.last_applied
                &&& self.commit_index <= self.log.last_index()
            },
            _ => true,
        }
    }

    /// The call brings no entry that contradicts what the node has committed.
    pub open spec fn spares_committed(self, e: Event) -> bool {
        e matches Event::OnAppend { args, .. } ==> forall|k: int|
            0 <= k < args.entries.len() && args.prev_log_index + 1 + k <= self.commit_index
                ==> #[trigger] self.log.has_already(args.prev_log_index, args.entries, k)
    }

    /// The call contradicts nothing that the node has committed: where it brings
    /// entries, or a snapshot that ends before the last committed entry and was not
    /// applied yet, they agree with the log as far as that is committed.
    pub open spec fn respects(self, e: Event) -> bool {
        &&& self.spares_committed(e)
        &&& e matches Event::OnInstall { args, .. } ==> (self.last_applied
            < args.last_included_index < self.commit_index ==> self.log.term_at(
            args.last_included_index as int,
        ) == Some(args.last_included_term))
    }
}

impl Event {
    /// When the call is made, where that matters to it.
    pub open spec fn moment(self) -> Instant {
        match self {
            Event::PreElection { now, .. } => now,
            Event::Election { now, .. } => now,
            Event::OnVote { now, .. } => now,
            Event::OnAppend { now, .. } => now,
            Event::OnInstall { now, .. } => now,
            Event::Restart { now, .. } => now,
            _ => Instant { nanos: 0 },
        }
    }

    /// Where the call sets the election timer to, if it arms it.
    pub open spec fn expiry(self) -> Instant {
        match self {
            Event::PreElection { deadline, .. } => deadline,
            Event::Election { deadline, .. } => deadline,
            Event::OnVote { deadline, .. } => deadline,
            Event::OnAppend { deadline, .. } => deadline,
            Event::OnInstall { deadline, .. } => deadline,
            Event::Restart { deadline, .. } => deadline,
            _ => Instant { nanos: 0 },
        }
    }

    /// The term in a message or a reply, but for a request for a pre-vote, which
    /// speaks of a term that nobody has adopted.
    pub open spec fn carried_term(self) -> Option<Term> {
        match self {
            Event::OnVote { args, .. } => if args.pre_vote {
                None
            } else {
                Some(args.term)
            },
            Event::OnVoteReply { reply, .. } => Some(reply.term),
            Event::OnAppend { args, .. } => Some(args.term),
            Event::OnAppendReply { reply, .. } => Some(reply.term),
            Event::OnInstall { args, .. } => Some(args.term),
            Event::OnInstallReply { reply, .. } => Some(reply.term),
            _ => None,
        }
    }
}

/// The `k`th of the calls is allowed, and makes the next state of the last.
pub open spec fn is_step(nodes: Seq<NodeView>, calls: Seq<Event>, k: int) -> bool {
    &&& nodes[k].allowed(calls[k])
    &&& nodes[k + 1] == nodes[k].after(calls[k])
}

/// `nodes` are the states of one node through `calls`, crashes and restarts among
/// them; its saves are taken to succeed.
pub open spec fn is_life(nodes: Seq<NodeView>, calls: Seq<Event>) -> bool {
    &&& nodes.len() == calls.len() + 1
    &&& forall|k: int| 0 <= k < calls.len() ==> #[trigger] is_step(nodes, calls, k)
}

/// What happens at a node of a cluster is a call on that node, and leaves the
/// others alone.
pub proof fn clusters_step_their_nodes(c: Cluster, i: NodeId, e: Event, j: NodeId)
    requires
        c.enabled(i, e),
        c.nodes.contains_key(j),
    ensures
        c.after(i, e).nodes[j] == (if j == i {
            c.nodes[i].after(e)
        } else {
            c.nodes[j]
        }),
{
}

} // verus!
