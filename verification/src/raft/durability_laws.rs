//! What a node has on stable storage by the time it answers: said of what its calls are
//! handed, of what they hand back, and of what storage holds.
//!
//! Storage can fail. A call that could not save adds to the failures that the node
//! reports, so each law speaks of a call that has added none.

use vstd::prelude::*;

use super::clock::Instant;
use super::consensus::ConsensusModule;
use super::node::{Driver, Outbound, Step};
use super::rpc::{
    AppendEntriesArgs, AppendEntriesReply, InstallSnapshotArgs, InstallSnapshotReply,
    RequestVoteArgs, RequestVoteReply,
};
use super::storage::{InMemoryStorage, PersistentState, RaftStorage, StorageError};
use super::types::{LogEntry, LogIndex, NodeId, Role, Term};

verus! {

/// Storage holds the node's term, vote, log and snapshot, each as it is.
pub open spec fn mirrored<S: RaftStorage + ?Sized>(core: &ConsensusModule<S>) -> bool {
    &&& core.stored().current_term == core@.current_term
    &&& core.stored().voted_for == core@.voted_for
    &&& core.stored().log == core@.log
    &&& core.stored().snapshot == core@.snapshot
}

/// Between the two states no failure to save was reported.
pub open spec fn no_failure<S: RaftStorage + ?Sized>(
    before: &ConsensusModule<S>,
    after: &ConsensusModule<S>,
) -> bool {
    before.failures().len() == after.failures().len()
}

proof fn lemma_mirrored<S: RaftStorage + ?Sized>(
    before: &ConsensusModule<S>,
    after: &ConsensusModule<S>,
)
    requires
        after.wf(),
        no_failure(before, after),
        after.saves(before) || after.keeps(before) && before.synced(),
    ensures
        mirrored(after),
{
    after.saved_state_is_stored(before);
}

/// A vote is on storage before it is given, with the term that it is for: whoever asks the
/// node after a crash finds it bound by its vote.
pub proof fn votes_are_stored_before_they_are_given<S: RaftStorage + ?Sized>(
    core: &mut ConsensusModule<S>,
    args: RequestVoteArgs,
    now: Instant,
    r: RequestVoteReply,
)
    requires
        call_ensures(ConsensusModule::<S>::handle_request_vote, (core, args, now), r),
        !args.pre_vote,
        no_failure(old(core), final(core)),
    ensures
        r.vote_granted ==> final(core).stored().voted_for == Some(args.candidate_id),
        r.vote_granted ==> final(core).stored().current_term == args.term,
        r.vote_granted || args.term > old(core)@.current_term ==> mirrored(final(core)),
        args.term > old(core)@.current_term ==> final(core).stored().current_term == args.term,
        old(core).synced() ==> mirrored(final(core)),
{
    if r.vote_granted || args.term > old(core)@.current_term || old(core).synced() {
        lemma_mirrored(old(core), final(core));
    }
}

/// A pledge binds nobody: nothing of it is stored.
pub proof fn pledges_are_not_stored<S: RaftStorage + ?Sized>(
    core: &mut ConsensusModule<S>,
    args: RequestVoteArgs,
    now: Instant,
    r: RequestVoteReply,
)
    requires
        call_ensures(ConsensusModule::<S>::handle_request_vote, (core, args, now), r),
        args.pre_vote,
    ensures
        final(core).stored() == old(core).stored(),
        final(core).failures() == old(core).failures(),
        final(core).synced() == old(core).synced(),
{
}

/// A candidate has voted for itself, in a term of its own, on storage, before it asks
/// anybody for a vote.
pub proof fn candidates_are_stored_before_they_ask<S: RaftStorage + ?Sized>(
    core: &mut ConsensusModule<S>,
    now: Instant,
    r: RequestVoteArgs,
)
    requires
        call_ensures(ConsensusModule::<S>::start_election, (core, now), r),
        old(core)@.current_term < Term::MAX,
        no_failure(old(core), final(core)),
    ensures
        final(core).stored().voted_for == Some(old(core)@.id),
        final(core).stored().current_term == old(core)@.current_term + 1,
        r.term == final(core).stored().current_term,
        r.candidate_id == old(core)@.id,
        !r.pre_vote,
        mirrored(final(core)),
{
    lemma_mirrored(old(core), final(core));
}

/// What a follower confirms is on storage by then, and so is the term of whoever sent it:
/// the log that it answers for is the log that a crash leaves it.
pub proof fn entries_are_stored_before_they_are_confirmed<S: RaftStorage + ?Sized>(
    core: &mut ConsensusModule<S>,
    args: AppendEntriesArgs,
    now: Instant,
    r: AppendEntriesReply,
)
    requires
        call_ensures(ConsensusModule::<S>::handle_append_entries, (core, args, now), r),
        no_failure(old(core), final(core)),
    ensures
        r.success && args.entries@.len() > 0 ==> mirrored(final(core)),
        args.term > old(core)@.current_term ==> mirrored(final(core)),
        args.term > old(core)@.current_term ==> final(core).stored().current_term == args.term,
        old(core).synced() ==> mirrored(final(core)),
{
    if r.success && args.entries@.len() > 0 || args.term > old(core)@.current_term
        || old(core).synced() {
        lemma_mirrored(old(core), final(core));
    }
}

/// A command that a leader has taken in is on storage, last in its log and stamped with its
/// term, at the index that the caller is told. A node that does not lead says so, and is as
/// it was.
pub proof fn commands_are_stored_before_they_are_sent<S: RaftStorage + ?Sized>(
    core: &mut ConsensusModule<S>,
    command: Vec<u8>,
    r: Option<LogIndex>,
)
    requires
        call_ensures(ConsensusModule::<S>::submit_command, (core, command), r),
        no_failure(old(core), final(core)),
    ensures
        r is Some <==> old(core)@.role == Role::Leader,
        r is None ==> *final(core) == *old(core),
        r matches Some(index) ==> {
            let log = final(core).stored().log;
            &&& mirrored(final(core))
            &&& log.entries.len() == old(core)@.log.entries.len() + 1
            &&& log.snapshot_index + log.entries.len() == index
            &&& log.entries[log.entries.len() - 1].term == old(core)@.current_term
            &&& log.entries[log.entries.len() - 1].command == command@
        },
{
    if r is Some {
        lemma_mirrored(old(core), final(core));
    }
}

/// A snapshot that the state machine has handed over replaces on storage what it covers.
pub proof fn snapshots_are_stored<S: RaftStorage + ?Sized>(
    core: &mut ConsensusModule<S>,
    index: LogIndex,
    data: Vec<u8>,
    r: (),
)
    requires
        call_ensures(ConsensusModule::<S>::snapshot, (core, index, data), r),
        old(core).wf(),
        no_failure(old(core), final(core)),
        old(core)@.log.snapshot_index < index <= old(core)@.last_applied,
        index <= old(core)@.log.snapshot_index + old(core)@.log.entries.len(),
    ensures
        mirrored(final(core)),
        final(core).stored().snapshot == Some(data@),
        final(core).stored().log.snapshot_index == index,
{
    old(core).lemma_wf();
    lemma_mirrored(old(core), final(core));
}

/// A snapshot that a leader has sent, and that goes past what was applied, is on storage
/// before the leader is answered; and so is the leader's term, if it is a newer one.
pub proof fn installed_snapshots_are_stored<S: RaftStorage + ?Sized>(
    core: &mut ConsensusModule<S>,
    args: InstallSnapshotArgs,
    now: Instant,
    r: InstallSnapshotReply,
)
    requires
        call_ensures(ConsensusModule::<S>::handle_install_snapshot, (core, args, now), r),
        args.term >= old(core)@.current_term,
        no_failure(old(core), final(core)),
    ensures
        args.last_included_index > old(core)@.last_applied ==> mirrored(final(core)),
        args.last_included_index > old(core)@.last_applied ==> final(core).stored().snapshot == Some(
            args.data@,
        ),
        args.term > old(core)@.current_term ==> mirrored(final(core)),
        args.term > old(core)@.current_term ==> final(core).stored().current_term == args.term,
        old(core).synced() ==> mirrored(final(core)),
{
    if args.last_included_index > old(core)@.last_applied || args.term > old(core)@.current_term
        || old(core).synced() {
        lemma_mirrored(old(core), final(core));
    }
}

/// A newer term that a reply shows is on storage before anything else is done in it,
/// whatever was replied to; and a reply that shows none leaves storage as good as it was.
pub proof fn newer_terms_are_stored<S: RaftStorage + ?Sized>(
    voted: &mut ConsensusModule<S>,
    pledged: &mut ConsensusModule<S>,
    appended: &mut ConsensusModule<S>,
    installed: &mut ConsensusModule<S>,
    from: NodeId,
    vote: RequestVoteReply,
    append: AppendEntriesReply,
    install: InstallSnapshotReply,
    index: LogIndex,
    r: (),
)
    requires
        call_ensures(ConsensusModule::<S>::record_vote_reply, (voted, from, vote), r),
        call_ensures(ConsensusModule::<S>::record_pre_vote_reply, (pledged, from, vote), r),
        call_ensures(ConsensusModule::<S>::handle_append_reply, (appended, from, append, index), r),
        call_ensures(
            ConsensusModule::<S>::handle_install_snapshot_reply,
            (installed, from, install, index),
            r,
        ),
        no_failure(old(voted), final(voted)),
        no_failure(old(pledged), final(pledged)),
        no_failure(old(appended), final(appended)),
        no_failure(old(installed), final(installed)),
    ensures
        vote.term > old(voted)@.current_term ==> mirrored(final(voted)),
        vote.term > old(voted)@.current_term ==> final(voted).stored().current_term == vote.term,
        vote.term > old(pledged)@.current_term ==> mirrored(final(pledged)),
        vote.term > old(pledged)@.current_term ==> final(pledged).stored().current_term
            == vote.term,
        append.term > old(appended)@.current_term ==> mirrored(final(appended)),
        append.term > old(appended)@.current_term ==> final(appended).stored().current_term
            == append.term,
        install.term > old(installed)@.current_term ==> mirrored(final(installed)),
        install.term > old(installed)@.current_term ==> final(installed).stored().current_term
            == install.term,
        old(voted).synced() ==> mirrored(final(voted)),
        old(pledged).synced() ==> mirrored(final(pledged)),
        old(appended).synced() ==> mirrored(final(appended)),
        old(installed).synced() ==> mirrored(final(installed)),
{
    if vote.term > old(voted)@.current_term || old(voted).synced() {
        lemma_mirrored(old(voted), final(voted));
    }
    if vote.term > old(pledged)@.current_term || old(pledged).synced() {
        lemma_mirrored(old(pledged), final(pledged));
    }
    if append.term > old(appended)@.current_term || old(appended).synced() {
        lemma_mirrored(old(appended), final(appended));
    }
    if install.term > old(installed)@.current_term || old(installed).synced() {
        lemma_mirrored(old(installed), final(installed));
    }
}

/// What storage holds is what a node is built from: one that is built from the storage of
/// another, which mirrored it, has the other's term, vote, log and snapshot.
pub proof fn nodes_are_built_from_what_is_stored<S: RaftStorage + ?Sized>(
    id: NodeId,
    peers: Vec<NodeId>,
    storage: Box<S>,
    persisted: PersistentState,
    timing: super::config::Timing,
    now: Instant,
    r: ConsensusModule<S>,
)
    requires
        call_ensures(
            ConsensusModule::<S>::restore,
            (id, peers, storage, persisted, timing, now),
            r,
        ),
    ensures
        r@.current_term == persisted@.current_term,
        r@.voted_for == persisted@.voted_for,
        r@.log == persisted@.log,
        r@.snapshot == persisted@.snapshot,
        r@.id == id,
        r@.peers == peers@,
        r@.timing == timing,
        r@.role == Role::Follower,
        r@.leader_id is None,
        r.failures().len() == 0,
        r.stored() == persisted@,
        now.nanos + timing.election_min.nanos <= r@.election_deadline.nanos,
        r@.election_deadline.nanos <= now.nanos + timing.election_max.nanos,
{
}

/// What was saved in memory is what is loaded from it, and saving and loading never fail.
pub proof fn what_is_saved_is_loaded(
    made: InMemoryStorage,
    storage: &mut InMemoryStorage,
    state: &PersistentState,
    saved: Result<(), StorageError>,
    loaded: Result<PersistentState, StorageError>,
)
    requires
        call_ensures(InMemoryStorage::new, (), made),
        call_ensures(InMemoryStorage::save, (storage, state), saved),
        call_ensures(InMemoryStorage::load, (final(storage),), loaded),
    ensures
        saved is Ok,
        loaded is Ok && loaded->Ok_0@ == state@,
        made.stored().current_term == 0,
        made.stored().voted_for is None,
        made.stored().log.entries.len() == 0,
        made.stored().log.snapshot_index == 0,
        made.stored().snapshot is None,
{
}

/// A state comes back from its bytes as it was.
pub proof fn states_come_back_from_their_bytes(
    state: &PersistentState,
    bytes: Vec<u8>,
    input: &[u8],
    r: Result<PersistentState, StorageError>,
)
    requires
        state.wf(),
        forall|i: int|
            0 <= i < state@.log.entries.len() ==> (#[trigger] state@.log.entries[i]).command.len()
                <= usize::MAX,
        state@.snapshot matches Some(s) ==> s.len() <= usize::MAX,
        call_ensures(PersistentState::to_bytes, (state,), bytes),
        input@ == bytes@,
        call_ensures(PersistentState::from_bytes, (input,), r),
    ensures
        r is Ok && r->Ok_0@ == state@,
{
    super::storage::states_round_trip(state@);
}

/// Failed saves are handed to whoever asks for them, all of them and in order, and then no
/// more; the node is as it was.
pub proof fn failures_are_reported_once<S: RaftStorage + ?Sized>(
    core: &mut ConsensusModule<S>,
    r: Vec<StorageError>,
)
    requires
        call_ensures(ConsensusModule::<S>::take_save_failures, (core,), r),
    ensures
        r@ == old(core).failures(),
        final(core).failures().len() == 0,
        final(core)@ == old(core)@,
        final(core).stored() == old(core).stored(),
        final(core).synced() == old(core).synced(),
{
}

// ---- what a node says of itself ----
/// What a node says of itself is so.
pub proof fn nodes_say_what_they_hold<S: RaftStorage + ?Sized>(
    core: &ConsensusModule<S>,
    now: Instant,
    role: Role,
    term: Term,
    vote: Option<NodeId>,
    leader: Option<NodeId>,
    commit: LogIndex,
    applied: LogIndex,
    last: LogIndex,
    leads: bool,
    late: bool,
)
    requires
        call_ensures(ConsensusModule::<S>::role, (core,), role),
        call_ensures(ConsensusModule::<S>::current_term, (core,), term),
        call_ensures(ConsensusModule::<S>::voted_for, (core,), vote),
        call_ensures(ConsensusModule::<S>::leader_id, (core,), leader),
        call_ensures(ConsensusModule::<S>::commit_index, (core,), commit),
        call_ensures(ConsensusModule::<S>::last_applied, (core,), applied),
        call_ensures(ConsensusModule::<S>::last_log_index, (core,), last),
        call_ensures(ConsensusModule::<S>::is_leader, (core,), leads),
        call_ensures(ConsensusModule::<S>::election_timed_out, (core, now), late),
    ensures
        role == core@.role,
        term == core@.current_term,
        vote == core@.voted_for,
        leader == core@.leader_id,
        commit == core@.commit_index,
        applied == core@.last_applied,
        last == core@.log.snapshot_index + core@.log.entries.len(),
        leads <==> role == Role::Leader,
        late <==> !leads && core@.election_deadline.nanos <= now.nanos,
{
}

/// What a node says of its log, its peers and its timing is so.
pub proof fn nodes_say_what_their_log_holds<S: RaftStorage + ?Sized>(
    core: &ConsensusModule<S>,
    entries: &[LogEntry],
    boundary: LogIndex,
    boundary_term: Term,
    len: usize,
    peers: &[NodeId],
    timing: super::config::Timing,
    synced: bool,
    k: int,
)
    requires
        call_ensures(ConsensusModule::<S>::log_entries, (core,), entries),
        call_ensures(ConsensusModule::<S>::snapshot_index, (core,), boundary),
        call_ensures(ConsensusModule::<S>::snapshot_term, (core,), boundary_term),
        call_ensures(ConsensusModule::<S>::raft_log_len, (core,), len),
        call_ensures(ConsensusModule::<S>::peer_ids, (core,), peers),
        call_ensures(ConsensusModule::<S>::timing, (core,), timing),
        call_ensures(ConsensusModule::<S>::is_synced, (core,), synced),
        0 <= k < core@.log.entries.len(),
    ensures
        entries@.len() == core@.log.entries.len(),
        entries@[k].term == core@.log.entries[k].term,
        entries@[k].command@ == core@.log.entries[k].command,
        boundary == core@.log.snapshot_index,
        boundary_term == core@.log.snapshot_term,
        len == core@.log.entries.len(),
        peers@ == core@.peers,
        timing == core@.timing,
        synced == core.synced(),
{
    assert(super::types::entries_view(entries@)[k] == entries@[k]@);
    assert(super::types::entries_view(entries@).len() == entries@.len());
}

// ---- what the driver sends ----
/// A leader that has just sent a heartbeat does not send another until an interval has
/// passed, and then it does. A step that is no heartbeat does not put the next one off.
pub proof fn heartbeats_keep_their_distance<S: RaftStorage + ?Sized>(
    first: &mut Driver,
    core: &mut ConsensusModule<S>,
    now: Instant,
    a: Step,
    second: &mut Driver,
    same: &mut ConsensusModule<S>,
    later: Instant,
    b: Step,
)
    requires
        call_ensures(Driver::tick::<S>, (first, core, now), a),
        *old(second) == *final(first),
        *old(same) == *final(core),
        call_ensures(Driver::tick::<S>, (second, same, later), b),
        old(core)@.role == Role::Leader,
        now.nanos <= later.nanos,
        old(core)@.timing.heartbeat.nanos > 0,
    ensures
        old(first).last_heartbeat is None ==> a is Heartbeat,
        a is Heartbeat ==> (b is Heartbeat <==> later.nanos - now.nanos
            >= old(core)@.timing.heartbeat.nanos),
        !(a is Heartbeat) ==> final(first).last_heartbeat == old(first).last_heartbeat,
        a is Heartbeat || a is Idle,
        final(core)@ == old(core)@,
{
}

/// A driver that has sent nothing sends at once.
pub proof fn new_drivers_have_sent_nothing(r: Driver)
    requires
        call_ensures(Driver::new, (), r),
    ensures
        r.last_heartbeat is None,
{
}

/// What goes to a peer: the snapshot if the peer needs it, and then nothing else; if not,
/// the entries that it lacks. How far the peer agrees once it has accepted them is as many
/// entries behind the one that they build on as the message carries.
pub proof fn peers_are_sent_what_they_lack<S: RaftStorage + ?Sized>(
    core: &ConsensusModule<S>,
    peer: NodeId,
    r: Outbound,
)
    requires
        core.wf(),
        call_ensures(super::node::outbound::<S>, (core, peer), r),
    ensures
        r is Install <==> core@.role == Role::Leader && core@.snapshot is Some && (
        core@.next_index.contains_key(peer) && core@.next_index[peer] <= core@.log.snapshot_index
            || !core@.next_index.contains_key(peer) && 1 <= core@.log.snapshot_index),
        r matches Outbound::Append { args, match_hint } ==> match_hint == args.prev_log_index
            + args.entries@.len() && args.term == core@.current_term && args.leader_id == core@.id
            && args.leader_commit == core@.commit_index,
        r matches Outbound::Install { args } ==> args.term == core@.current_term && args.leader_id
            == core@.id && args.last_included_index == core@.log.snapshot_index
            && args.last_included_term == core@.log.snapshot_term && core@.snapshot == Some(
            args.data@,
        ),
{
    core.lemma_wf();
    super::replication_laws::snapshots_go_to_peers_that_need_them(core@, peer);
    super::replication_laws::leaders_send_all_that_a_peer_lacks(core@, peer);
}

} // verus!
