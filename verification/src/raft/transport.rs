//! The wire boundary for Raft: the conversions between wire ([`crate::proto`])
//! and logical ([`super::rpc`]) messages, and the service that answers incoming
//! RPCs. Isolating conversions here keeps [`super::consensus`] free of any wire
//! types.

use vstd::prelude::*;

use crate::proto;

use super::clock::Instant;
use super::cluster::Cluster;
use super::consensus::ConsensusModule;
use super::model::NodeView;
use super::rpc::{
    AppendEntriesArgs, AppendEntriesReply, InstallSnapshotArgs, InstallSnapshotReply,
    RequestVoteArgs, RequestVoteReply,
};
use super::storage::RaftStorage;
use super::types::{copy_bytes, LogEntry, LogIndex, NodeId};

verus! {

// ---- wire <-> logical conversions ----
/// Entries as the wire carries them.
pub fn entries_to_pb(entries: &[LogEntry]) -> (r: Vec<proto::LogEntry>)
    ensures
        proto::entries_view(r@) == super::types::entries_view(entries@),
{
    let mut r: Vec<proto::LogEntry> = Vec::new();
    let mut i: usize = 0;
    while i < entries.len()
        invariant
            i <= entries.len(),
            r.len() == i,
            forall|j: int| 0 <= j < i ==> (#[trigger] r@[j])@ == entries@[j]@,
        decreases entries.len() - i,
    {
        r.push(
            proto::LogEntry { term: entries[i].term, command: copy_bytes(&entries[i].command) },
        );
        i += 1;
    }
    assert(proto::entries_view(r@) =~= super::types::entries_view(entries@));
    r
}

/// Entries as the wire carried them.
pub fn entries_from_pb(entries: Vec<proto::LogEntry>) -> (r: Vec<LogEntry>)
    ensures
        super::types::entries_view(r@) == proto::entries_view(entries@),
        r.len() == entries.len(),
{
    let mut r: Vec<LogEntry> = Vec::new();
    let mut i: usize = 0;
    while i < entries.len()
        invariant
            i <= entries.len(),
            r.len() == i,
            forall|j: int| 0 <= j < i ==> (#[trigger] r@[j])@ == entries@[j]@,
        decreases entries.len() - i,
    {
        r.push(LogEntry { term: entries[i].term, command: copy_bytes(&entries[i].command) });
        i += 1;
    }
    assert(super::types::entries_view(r@) =~= proto::entries_view(entries@));
    r
}

pub fn vote_req_to_pb(a: &RequestVoteArgs) -> (r: proto::RequestVoteRequest)
    ensures
        r@ == *a,
{
    proto::RequestVoteRequest {
        term: a.term,
        candidate_id: a.candidate_id,
        last_log_index: a.last_log_index,
        last_log_term: a.last_log_term,
        pre_vote: a.pre_vote,
    }
}

pub fn vote_req_from_pb(r: proto::RequestVoteRequest) -> (a: RequestVoteArgs)
    ensures
        a == r@,
{
    RequestVoteArgs {
        term: r.term,
        candidate_id: r.candidate_id,
        last_log_index: r.last_log_index,
        last_log_term: r.last_log_term,
        pre_vote: r.pre_vote,
    }
}

pub fn vote_reply_to_pb(a: &RequestVoteReply) -> (r: proto::RequestVoteResponse)
    ensures
        r@ == *a,
{
    proto::RequestVoteResponse { term: a.term, vote_granted: a.vote_granted }
}

pub fn vote_reply_from_pb(r: proto::RequestVoteResponse) -> (a: RequestVoteReply)
    ensures
        a == r@,
{
    RequestVoteReply { term: r.term, vote_granted: r.vote_granted }
}

pub fn append_req_to_pb(a: &AppendEntriesArgs) -> (r: proto::AppendEntriesRequest)
    ensures
        r@ == a@,
{
    proto::AppendEntriesRequest {
        term: a.term,
        leader_id: a.leader_id,
        prev_log_index: a.prev_log_index,
        prev_log_term: a.prev_log_term,
        entries: entries_to_pb(a.entries.as_slice()),
        leader_commit: a.leader_commit,
    }
}

pub fn append_req_from_pb(r: proto::AppendEntriesRequest) -> (a: AppendEntriesArgs)
    ensures
        a@ == r@,
        a.entries.len() == r.entries.len(),
{
    AppendEntriesArgs {
        term: r.term,
        leader_id: r.leader_id,
        prev_log_index: r.prev_log_index,
        prev_log_term: r.prev_log_term,
        entries: entries_from_pb(r.entries),
        leader_commit: r.leader_commit,
    }
}

/// A reply as the wire carries it: without the hint's term where it has none.
pub open spec fn append_reply_on_wire(a: AppendEntriesReply) -> proto::AppendEntriesResponse {
    proto::AppendEntriesResponse {
        term: a.term,
        success: a.success,
        has_conflict: a.conflict_index is Some,
        conflict_index: match a.conflict_index {
            Some(index) => index,
            None => 0,
        },
        conflict_term: match a.conflict_term {
            Some(term) => term,
            None => 0,
        },
    }
}

/// The reply that the wire carried.
pub open spec fn append_reply_off_wire(r: proto::AppendEntriesResponse) -> AppendEntriesReply {
    AppendEntriesReply {
        term: r.term,
        success: r.success,
        conflict_index: if r.has_conflict {
            Some(r.conflict_index)
        } else {
            None
        },
        conflict_term: if r.has_conflict {
            Some(r.conflict_term)
        } else {
            None
        },
    }
}

pub fn append_reply_to_pb(a: &AppendEntriesReply) -> (r: proto::AppendEntriesResponse)
    ensures
        r == append_reply_on_wire(*a),
{
    proto::AppendEntriesResponse {
        term: a.term,
        success: a.success,
        has_conflict: a.conflict_index.is_some(),
        conflict_index: match a.conflict_index {
            Some(index) => index,
            None => 0,
        },
        conflict_term: match a.conflict_term {
            Some(term) => term,
            None => 0,
        },
    }
}

pub fn append_reply_from_pb(r: proto::AppendEntriesResponse) -> (a: AppendEntriesReply)
    ensures
        a == append_reply_off_wire(r),
{
    AppendEntriesReply {
        term: r.term,
        success: r.success,
        conflict_index: if r.has_conflict {
            Some(r.conflict_index)
        } else {
            None
        },
        conflict_term: if r.has_conflict {
            Some(r.conflict_term)
        } else {
            None
        },
    }
}

pub fn install_req_to_pb(a: &InstallSnapshotArgs) -> (r: proto::InstallSnapshotRequest)
    ensures
        r@ == a@,
{
    proto::InstallSnapshotRequest {
        term: a.term,
        leader_id: a.leader_id,
        last_included_index: a.last_included_index,
        last_included_term: a.last_included_term,
        data: copy_bytes(&a.data),
    }
}

pub fn install_req_from_pb(r: proto::InstallSnapshotRequest) -> (a: InstallSnapshotArgs)
    ensures
        a@ == r@,
{
    InstallSnapshotArgs {
        term: r.term,
        leader_id: r.leader_id,
        last_included_index: r.last_included_index,
        last_included_term: r.last_included_term,
        data: r.data,
    }
}

pub fn install_reply_to_pb(a: &InstallSnapshotReply) -> (r: proto::InstallSnapshotResponse)
    ensures
        r.term == a.term,
{
    proto::InstallSnapshotResponse { term: a.term }
}

pub fn install_reply_from_pb(r: proto::InstallSnapshotResponse) -> (a: InstallSnapshotReply)
    ensures
        a.term == r.term,
{
    InstallSnapshotReply { term: r.term }
}

// ---- inbound: answer the Raft RPCs from the consensus module ----
/// The inbound service: every incoming RPC is applied to the consensus module
/// synchronously, and its reply goes back.
pub struct RaftService<S: RaftStorage + ?Sized = dyn RaftStorage> {
    pub core: ConsensusModule<S>,
}

impl<S: RaftStorage + ?Sized> RaftService<S> {
    pub fn new(core: ConsensusModule<S>) -> (r: Self)
        ensures
            r.core == core,
    {
        Self { core }
    }

    /// Answer a vote or pre-vote request.
    pub fn request_vote(&mut self, request: proto::RequestVoteRequest, now: Instant) -> (r:
        proto::RequestVoteResponse)
        requires
            old(self).core.wf(),
            old(self).core@.timing.can_arm(now),
        ensures
            final(self).core.wf(),
            (final(self).core@, r@) == old(self).core@.on_request_vote(
                request@,
                now,
                final(self).core@.election_deadline,
            ),
            !request.pre_vote && r.vote_granted ==> old(self).core@.timing.may_expire(
                now,
                final(self).core@.election_deadline,
            ),
            final(self).core.keeps(&old(self).core),
            !request.pre_vote && (r.vote_granted || request.term > old(self).core@.current_term)
                ==> final(self).core.saves(&old(self).core),
    {
        let args = vote_req_from_pb(request);
        let reply = self.core.handle_request_vote(args, now);
        vote_reply_to_pb(&reply)
    }

    /// Answer an AppendEntries. Refused, with nothing changed, if the log could
    /// outgrow the range of indices.
    pub fn append_entries(&mut self, request: proto::AppendEntriesRequest, now: Instant) -> (r:
        Option<proto::AppendEntriesResponse>)
        requires
            old(self).core.wf(),
            old(self).core@.timing.can_arm(now),
        ensures
            final(self).core.wf(),
            r is Some <==> old(self).core@.log.last_index() + request.entries.len()
                < LogIndex::MAX,
            r is None ==> *final(self) == *old(self),
            r matches Some(response) ==> {
                let (n, reply) = old(self).core@.on_append_entries(
                    request@,
                    now,
                    final(self).core@.election_deadline,
                );
                &&& final(self).core@ == n
                &&& response == append_reply_on_wire(reply)
                &&& request.term >= old(self).core@.current_term
                    ==> old(self).core@.timing.may_expire(now, final(self).core@.election_deadline)
                &&& final(self).core.keeps(&old(self).core)
                &&& response.success && request.entries.len() > 0 || request.term
                    > old(self).core@.current_term ==> final(self).core.saves(&old(self).core)
            },
    {
        let last: LogIndex = self.core.last_log_index();
        proof {
            self.core.lemma_wf();
        }
        if request.entries.len() as u64 >= LogIndex::MAX - last {
            return None;
        }
        let args = append_req_from_pb(request);
        let reply = self.core.handle_append_entries(args, now);
        Some(append_reply_to_pb(&reply))
    }

    /// Answer an InstallSnapshot. Refused, with nothing changed, if the snapshot ends
    /// at an index past the range of a log.
    pub fn install_snapshot(&mut self, request: proto::InstallSnapshotRequest, now: Instant) -> (r:
        Option<proto::InstallSnapshotResponse>)
        requires
            old(self).core.wf(),
            old(self).core@.timing.can_arm(now),
        ensures
            final(self).core.wf(),
            r is Some <==> request.last_included_index < LogIndex::MAX,
            r is None ==> *final(self) == *old(self),
            r matches Some(response) ==> {
                let (n, reply) = old(self).core@.on_install_snapshot(
                    request@,
                    now,
                    final(self).core@.election_deadline,
                );
                &&& final(self).core@ == n
                &&& response.term == reply.term
                &&& request.term >= old(self).core@.current_term
                    ==> old(self).core@.timing.may_expire(now, final(self).core@.election_deadline)
                &&& final(self).core.keeps(&old(self).core)
                &&& request.term > old(self).core@.current_term || request.term
                    == old(self).core@.current_term && request.last_included_index
                    > old(self).core@.last_applied ==> final(self).core.saves(&old(self).core)
            },
    {
        if request.last_included_index == LogIndex::MAX {
            return None;
        }
        let args = install_req_from_pb(request);
        let reply = self.core.handle_install_snapshot(args, now);
        Some(install_reply_to_pb(&reply))
    }
}

// ---- laws ----
/// A reply comes off the wire as it was sent, but for a hint without a term,
/// which comes back with term 0.
pub proof fn append_replies_round_trip(a: AppendEntriesReply)
    requires
        a.conflict_index is None ==> a.conflict_term is None,
    ensures
        append_reply_off_wire(append_reply_on_wire(a)) == (AppendEntriesReply {
            conflict_term: match (a.conflict_index, a.conflict_term) {
                (Some(index), None) => Some(0),
                _ => a.conflict_term,
            },
            ..a
        }),
{
}

/// What the wire makes of a reply is of no consequence to the leader: whether it
/// gets the reply as it was sent or as it came off the wire, it goes on in the same
/// way, as long as its log holds no entry of term 0.
pub proof fn the_wire_does_not_change_a_reply(
    n: NodeView,
    peer: NodeId,
    a: AppendEntriesReply,
    match_hint: LogIndex,
)
    requires
        !n.log.has_term(0),
        a.conflict_index is None ==> a.conflict_term is None,
    ensures
        n.on_append_reply(peer, append_reply_off_wire(append_reply_on_wire(a)), match_hint)
            == n.on_append_reply(peer, a, match_hint),
{
}

/// In a running cluster the wire is of no consequence to any reply: no log there
/// holds an entry of term 0.
pub proof fn replies_survive_the_wire(
    states: Seq<Cluster>,
    s: int,
    i: NodeId,
    peer: NodeId,
    a: AppendEntriesReply,
    match_hint: LogIndex,
)
    requires
        super::cluster::is_run(states),
        0 <= s < states.len(),
        states[s].nodes.contains_key(i),
        a.conflict_index is None ==> a.conflict_term is None,
    ensures
        states[s].nodes[i].on_append_reply(
            peer,
            append_reply_off_wire(append_reply_on_wire(a)),
            match_hint,
        ) == states[s].nodes[i].on_append_reply(peer, a, match_hint),
{
    let n = states[s].nodes[i];
    if n.log.has_term(0) {
        let k = choose|k: int| n.log.holds(k) && (#[trigger] n.log.entry(k)).term == 0;
        super::safety::entries_have_a_term(states, s, i, k);
    }
    the_wire_does_not_change_a_reply(n, peer, a, match_hint);
}

/// The wire carries each field of a request and of an answer under its own name.
pub proof fn messages_carry_their_fields(
    vote: proto::RequestVoteRequest,
    voted: proto::RequestVoteResponse,
    append: proto::AppendEntriesRequest,
    install: proto::InstallSnapshotRequest,
    k: int,
)
    ensures
        vote@.term == vote.term,
        vote@.candidate_id == vote.candidate_id,
        vote@.last_log_index == vote.last_log_index,
        vote@.last_log_term == vote.last_log_term,
        vote@.pre_vote == vote.pre_vote,
        voted@.term == voted.term,
        voted@.vote_granted == voted.vote_granted,
        append@.term == append.term,
        append@.leader_id == append.leader_id,
        append@.prev_log_index == append.prev_log_index,
        append@.prev_log_term == append.prev_log_term,
        append@.leader_commit == append.leader_commit,
        append@.entries.len() == append.entries@.len(),
        0 <= k < append.entries@.len() ==> append@.entries[k].term == append.entries@[k].term
            && append@.entries[k].command == append.entries@[k].command@,
        install@.term == install.term,
        install@.leader_id == install.leader_id,
        install@.last_included_index == install.last_included_index,
        install@.last_included_term == install.last_included_term,
        install@.data == install.data@,
{
}

/// So does an answer to an AppendEntries: whether it succeeded, and where the leader is to
/// go on, if it says so.
pub proof fn append_replies_carry_their_fields(a: AppendEntriesReply)
    ensures
        ({
            let sent = append_reply_on_wire(a);
            let received = append_reply_off_wire(sent);
            &&& sent.term == a.term
            &&& sent.success == a.success
            &&& sent.has_conflict <==> a.conflict_index is Some
            &&& a.conflict_index matches Some(index) ==> sent.conflict_index == index
            &&& a.conflict_term matches Some(term) ==> sent.conflict_term == term
            &&& received.term == a.term
            &&& received.success == a.success
            &&& received.conflict_index == a.conflict_index
            &&& a.conflict_index is Some && a.conflict_term is Some ==> received.conflict_term
                == a.conflict_term
        }),
{
}

/// A request for a vote and its answer come off the wire as they were sent.
pub proof fn votes_go_over_the_wire(
    args: &RequestVoteArgs,
    request: proto::RequestVoteRequest,
    received: RequestVoteArgs,
    reply: &RequestVoteReply,
    response: proto::RequestVoteResponse,
    answer: RequestVoteReply,
)
    requires
        call_ensures(vote_req_to_pb, (args,), request),
        call_ensures(vote_req_from_pb, (request,), received),
        call_ensures(vote_reply_to_pb, (reply,), response),
        call_ensures(vote_reply_from_pb, (response,), answer),
    ensures
        received == *args,
        answer == *reply,
        request.term == args.term,
        request.candidate_id == args.candidate_id,
        request.last_log_index == args.last_log_index,
        request.last_log_term == args.last_log_term,
        request.pre_vote == args.pre_vote,
        response.term == reply.term,
        response.vote_granted == reply.vote_granted,
{
}

/// Entries come off the wire as they were sent, all of them and in order, and so does the
/// rest of the message.
pub proof fn entries_go_over_the_wire(
    args: &AppendEntriesArgs,
    request: proto::AppendEntriesRequest,
    received: AppendEntriesArgs,
    reply: &AppendEntriesReply,
    response: proto::AppendEntriesResponse,
    answer: AppendEntriesReply,
    k: int,
)
    requires
        call_ensures(append_req_to_pb, (args,), request),
        call_ensures(append_req_from_pb, (request,), received),
        call_ensures(append_reply_to_pb, (reply,), response),
        call_ensures(append_reply_from_pb, (response,), answer),
        0 <= k < args.entries@.len(),
    ensures
        received@ == args@,
        request.term == args.term,
        request.leader_id == args.leader_id,
        request.prev_log_index == args.prev_log_index,
        request.prev_log_term == args.prev_log_term,
        request.leader_commit == args.leader_commit,
        request.entries@.len() == args.entries@.len(),
        request.entries@[k].term == args.entries@[k].term,
        request.entries@[k].command@ == args.entries@[k].command@,
        answer.term == reply.term,
        answer.success == reply.success,
        answer.conflict_index == reply.conflict_index,
        reply.conflict_index is Some && reply.conflict_term is Some ==> answer.conflict_term
            == reply.conflict_term,
{
    assert(request@.entries.len() == request.entries@.len());
    assert(args@.entries.len() == args.entries@.len());
    assert(request@.entries[k] == request.entries@[k]@);
    assert(args@.entries[k] == args.entries@[k]@);
}

/// A snapshot comes off the wire as it was sent, and so does its answer.
pub proof fn snapshots_go_over_the_wire(
    args: &InstallSnapshotArgs,
    request: proto::InstallSnapshotRequest,
    received: InstallSnapshotArgs,
    reply: &InstallSnapshotReply,
    response: proto::InstallSnapshotResponse,
    answer: InstallSnapshotReply,
)
    requires
        call_ensures(install_req_to_pb, (args,), request),
        call_ensures(install_req_from_pb, (request,), received),
        call_ensures(install_reply_to_pb, (reply,), response),
        call_ensures(install_reply_from_pb, (response,), answer),
    ensures
        received@ == args@,
        request.term == args.term,
        request.leader_id == args.leader_id,
        request.last_included_index == args.last_included_index,
        request.last_included_term == args.last_included_term,
        request.data@ == args.data@,
        answer == *reply,
        response.term == reply.term,
{
}

/// A vote that a service gives is its node's, and on storage by then, unless a failure to
/// save is reported.
pub proof fn services_give_their_nodes_vote<S: RaftStorage + ?Sized>(
    service: &mut RaftService<S>,
    request: proto::RequestVoteRequest,
    now: Instant,
    r: proto::RequestVoteResponse,
)
    requires
        call_ensures(RaftService::<S>::request_vote, (service, request, now), r),
        !request.pre_vote,
        old(service).core.failures().len() == final(service).core.failures().len(),
    ensures
        r.term == final(service).core@.current_term,
        r.vote_granted ==> request.term == r.term && final(service).core@.voted_for == Some(
            request.candidate_id,
        ) && final(service).core.stored().voted_for == Some(request.candidate_id),
        r.vote_granted ==> final(service).core.stored().current_term == request.term,
        request.term > old(service).core@.current_term
            ==> final(service).core.stored().current_term == request.term,
{
    if r.vote_granted || request.term > old(service).core@.current_term {
        final(service).core.saved_state_is_stored(&old(service).core);
    }
}

/// A service answers for its node: where it confirms entries, its node follows their leader
/// and has its log on storage, unless a failure to save is reported; a sender of an older
/// term is turned down, and told the node's. A message that no log could take in is refused.
pub proof fn services_confirm_what_is_stored<S: RaftStorage + ?Sized>(
    service: &mut RaftService<S>,
    request: proto::AppendEntriesRequest,
    now: Instant,
    r: Option<proto::AppendEntriesResponse>,
)
    requires
        call_ensures(RaftService::<S>::append_entries, (service, request, now), r),
        old(service).core.failures().len() == final(service).core.failures().len(),
    ensures
        r is None <==> old(service).core@.log.snapshot_index
            + old(service).core@.log.entries.len() + request.entries@.len() >= LogIndex::MAX,
        r is None ==> *final(service) == *old(service),
        r matches Some(x) ==> {
            &&& x.term == final(service).core@.current_term
            &&& request.term < old(service).core@.current_term ==> !x.success
                && final(service).core@ == old(service).core@
            &&& x.success ==> final(service).core@.leader_id == Some(request.leader_id)
            &&& x.success && request.entries@.len() > 0 ==> final(service).core.stored().log
                == final(service).core@.log
            &&& x.success ==> !x.has_conflict
        },
{
    if r matches Some(x) && x.success && request.entries@.len() > 0 {
        final(service).core.saved_state_is_stored(&old(service).core);
    }
}

/// So it does for a snapshot: the answer shows the node's term, and a snapshot that goes
/// past what was applied is on storage by then, unless a failure to save is reported.
pub proof fn services_store_what_they_install<S: RaftStorage + ?Sized>(
    service: &mut RaftService<S>,
    request: proto::InstallSnapshotRequest,
    now: Instant,
    r: Option<proto::InstallSnapshotResponse>,
)
    requires
        call_ensures(RaftService::<S>::install_snapshot, (service, request, now), r),
        old(service).core.failures().len() == final(service).core.failures().len(),
    ensures
        r is None <==> request.last_included_index == LogIndex::MAX,
        r is None ==> *final(service) == *old(service),
        r matches Some(x) ==> {
            &&& x.term == final(service).core@.current_term
            &&& request.term >= old(service).core@.current_term && request.last_included_index
                > old(service).core@.last_applied ==> final(service).core.stored().snapshot == Some(
                request.data@,
            )
        },
{
    if r is Some && request.term >= old(service).core@.current_term && request.last_included_index
        > old(service).core@.last_applied {
        final(service).core.saved_state_is_stored(&old(service).core);
    }
}

} // verus!
