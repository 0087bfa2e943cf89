//! A whole cluster as a mathematical value: its nodes, the messages they have
//! sent, and the events that may happen next.
//!
//! Every event runs one operation of [`super::consensus`] on one node, within
//! that operation's contract. The network may lose, delay, repeat and reorder
//! messages at will: a message once sent may be received any number of times,
//! at any later moment, or never. A node may crash at any moment and restart
//! from what it saved; saves are taken to succeed.

use vstd::prelude::*;

use super::clock::Instant;
use super::model::NodeView;
use super::rpc::{
    AppendEntriesReply, AppendView, InstallSnapshotReply, InstallView, RequestVoteArgs,
    RequestVoteReply,
};
use super::storage::PersistentView;
use super::types::{LogIndex, NodeId, Role, Term};

verus! {

/// A message on the network.
pub enum Message {
    /// A vote or pre-vote request, sent to everyone.
    Vote(RequestVoteArgs),
    /// The answer to a vote or pre-vote request.
    VoteReply { from: NodeId, to: NodeId, pre_vote: bool, reply: RequestVoteReply },
    /// An AppendEntries.
    Append { to: NodeId, args: AppendView },
    /// The answer to an AppendEntries that reached through `match_hint`.
    AppendReply { from: NodeId, to: NodeId, match_hint: LogIndex, reply: AppendEntriesReply },
    /// An InstallSnapshot.
    Install { to: NodeId, args: InstallView },
    /// The answer to an InstallSnapshot through `last_included_index`.
    InstallReply {
        from: NodeId,
        to: NodeId,
        last_included_index: LogIndex,
        reply: InstallSnapshotReply,
    },
}

/// Something that happens at one node.
pub enum Event {
    /// The election timer fires: probe for votes.
    PreElection { now: Instant, deadline: Instant },
    /// Campaign for real.
    Election { now: Instant, deadline: Instant },
    /// A vote or pre-vote request arrives.
    OnVote { args: RequestVoteArgs, now: Instant, deadline: Instant },
    /// A vote or pre-vote arrives.
    OnVoteReply { from: NodeId, pre_vote: bool, reply: RequestVoteReply },
    /// A client proposes a command.
    Submit { command: Seq<u8> },
    /// The leader sends a peer the entries it lacks.
    SendAppend { peer: NodeId },
    /// An AppendEntries arrives.
    OnAppend { args: AppendView, now: Instant, deadline: Instant },
    /// The answer to an AppendEntries arrives.
    OnAppendReply { from: NodeId, match_hint: LogIndex, reply: AppendEntriesReply },
    /// The leader sends a peer its snapshot.
    SendInstall { peer: NodeId },
    /// An InstallSnapshot arrives.
    OnInstall { args: InstallView, now: Instant, deadline: Instant },
    /// The answer to an InstallSnapshot arrives.
    OnInstallReply { from: NodeId, last_included_index: LogIndex, reply: InstallSnapshotReply },
    /// The state machine hands over a snapshot.
    Compact { index: LogIndex, data: Seq<u8> },
    /// The state machine takes what is due.
    TakeApplies,
    /// The node crashes and restarts from what it saved.
    Restart { now: Instant, deadline: Instant },
}

/// The nodes of a cluster and everything they have sent.
#[verifier::ext_equal]
pub struct Cluster {
    pub nodes: Map<NodeId, NodeView>,
    pub sent: Set<Message>,
}

impl Cluster {
    /// The ids of the nodes.
    pub open spec fn members(self) -> Set<NodeId> {
        self.nodes.dom()
    }

    /// A node that starts for the first time in this cluster: it knows every other
    /// node as a peer, and nothing else.
    pub open spec fn fresh(self, i: NodeId) -> bool {
        let n = self.nodes[i];
        &&& n.id == i
        &&& n.peers.no_duplicates()
        &&& n.peers.to_set() == self.members().remove(i)
        &&& n.timing.wf()
        &&& n == NodeView::restored(
            i,
            n.peers,
            n.timing,
            PersistentView::initial(),
            n.last_leader_contact,
            n.election_deadline,
        )
    }

    /// A cluster whose nodes all start for the first time.
    pub open spec fn initial(self) -> bool {
        &&& self.members().finite()
        &&& self.sent == Set::<Message>::empty()
        &&& forall|i: NodeId| #[trigger] self.nodes.contains_key(i) ==> self.fresh(i)
    }

    /// The cluster after node `i` has changed to `n`.
    pub open spec fn with(self, i: NodeId, n: NodeView) -> Self {
        Cluster { nodes: self.nodes.insert(i, n), ..self }
    }

    /// The cluster after `m` was sent.
    pub open spec fn sending(self, m: Message) -> Self {
        Cluster { sent: self.sent.insert(m), ..self }
    }

    /// Event `e` may happen at node `i`: the messages it needs were sent, and the
    /// operation that it runs is called within its contract.
    pub open spec fn enabled(self, i: NodeId, e: Event) -> bool {
        let n = self.nodes[i];
        &&& self.nodes.contains_key(i)
        &&& match e {
            Event::PreElection { .. } => n.current_term < Term::MAX,
            Event::Election { .. } => n.current_term < Term::MAX,
            Event::OnVote { args, .. } => {
                &&& self.sent.contains(Message::Vote(args))
                &&& args.candidate_id != i
            },
            Event::OnVoteReply { from, pre_vote, reply } => self.sent.contains(
                Message::VoteReply { from, to: i, pre_vote, reply },
            ),
            Event::Submit { .. } => {
                &&& n.role == Role::Leader
                &&& n.log.last_index() + 1 < LogIndex::MAX
            },
            Event::SendAppend { peer } => {
                &&& n.role == Role::Leader
                &&& n.peers.contains(peer)
                &&& !n.needs_snapshot(peer)
            },
            Event::OnAppend { args, .. } => {
                &&& self.sent.contains(Message::Append { to: i, args })
                &&& n.log.last_index() + args.entries.len() < LogIndex::MAX
            },
            Event::OnAppendReply { from, match_hint, reply } => {
                &&& self.sent.contains(
                    Message::AppendReply { from, to: i, match_hint, reply },
                )
                &&& match_hint < LogIndex::MAX
            },
            Event::SendInstall { peer } => {
                &&& n.peers.contains(peer)
                &&& n.needs_snapshot(peer)
            },
            Event::OnInstall { args, .. } => {
                &&& self.sent.contains(Message::Install { to: i, args })
                &&& args.last_included_index < LogIndex::MAX
            },
            Event::OnInstallReply { from, last_included_index, reply } => {
                &&& self.sent.contains(
                    Message::InstallReply { from, to: i, last_included_index, reply },
                )
                &&& last_included_index < LogIndex::MAX
            },
            Event::Compact { .. } => true,
            Event::TakeApplies => true,
            Event::Restart { .. } => true,
        }
    }

    /// The cluster after event `e` has happened at node `i`.
    pub open spec fn after(self, i: NodeId, e: Event) -> Self {
        let n = self.nodes[i];
        match e {
            Event::PreElection { deadline, .. } => {
                let (n2, args) = n.start_pre_election(deadline);
                self.with(i, n2).sending(Message::Vote(args))
            },
            Event::Election { deadline, .. } => {
                let (n2, args) = n.start_election(deadline);
                self.with(i, n2).sending(Message::Vote(args))
            },
            Event::OnVote { args, now, deadline } => {
                let (n2, reply) = n.on_request_vote(args, now, deadline);
                self.with(i, n2).sending(
                    Message::VoteReply {
                        from: i,
                        to: args.candidate_id,
                        pre_vote: args.pre_vote,
                        reply,
                    },
                )
            },
            Event::OnVoteReply { from, pre_vote, reply } => if pre_vote {
                self.with(i, n.on_pre_vote_reply(from, reply))
            } else {
                self.with(i, n.on_vote_reply(from, reply))
            },
            Event::Submit { command } => self.with(i, n.submit_command(command)),
            Event::SendAppend { peer } => self.sending(
                Message::Append { to: peer, args: n.append_args_for(peer) },
            ),
            Event::OnAppend { args, now, deadline } => {
                let (n2, reply) = n.on_append_entries(args, now, deadline);
                self.with(i, n2).sending(
                    Message::AppendReply {
                        from: i,
                        to: args.leader_id,
                        match_hint: args.last_index() as LogIndex,
                        reply,
                    },
                )
            },
            Event::OnAppendReply { from, match_hint, reply } => self.with(
                i,
                n.on_append_reply(from, reply, match_hint),
            ),
            Event::SendInstall { peer } => self.sending(
                Message::Install { to: peer, args: n.install_snapshot_args() },
            ),
            Event::OnInstall { args, now, deadline } => {
                let (n2, reply) = n.on_install_snapshot(args, now, deadline);
                self.with(i, n2).sending(
                    Message::InstallReply {
                        from: i,
                        to: args.leader_id,
                        last_included_index: args.last_included_index,
                        reply,
                    },
                )
            },
            Event::OnInstallReply { from, last_included_index, reply } => self.with(
                i,
                n.on_install_reply(from, reply, last_included_index),
            ),
            Event::Compact { index, data } => self.with(i, n.take_snapshot(index, data)),
            Event::TakeApplies => self.with(i, n.take_applies()),
            Event::Restart { now, deadline } => self.with(
                i,
                NodeView::restored(n.id, n.peers, n.timing, n.persistent(), now, deadline),
            ),
        }
    }

    /// Some event takes this cluster to `next`.
    pub open spec fn steps_to(self, next: Cluster) -> bool {
        exists|i: NodeId, e: Event| #[trigger] self.enabled(i, e) && next == self.after(i, e)
    }
}

/// State `s` leads to the next.
pub open spec fn is_step(states: Seq<Cluster>, s: int) -> bool {
    states[s].steps_to(states[s + 1])
}

/// A run of a cluster: it starts fresh, and each state leads to the next.
pub open spec fn is_run(states: Seq<Cluster>) -> bool {
    &&& states.len() > 0
    &&& states[0].initial()
    &&& forall|s: int| 0 <= s < states.len() - 1 ==> #[trigger] is_step(states, s)
}

} // verus!
