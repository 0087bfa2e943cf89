//! What holds of one node, whatever its cluster does.

use vstd::prelude::*;

use super::clock::Instant;
use super::cluster::Event;
use super::model::NodeView;
use super::rpc::{
    AppendEntriesReply, AppendView, InstallView, RequestVoteArgs, RequestVoteReply,
};
use super::types::{ApplyView, EntryView, LogIndex, LogView, NodeId, Role, Term};

verus! {

/// Answering a pre-vote changes nothing, granted or not.
pub proof fn pre_votes_change_nothing(
    n: NodeView,
    args: RequestVoteArgs,
    now: Instant,
    deadline: Instant,
)
    requires
        args.pre_vote,
    ensures
        n.on_request_vote(args, now, deadline).0 == n,
{
}

/// A node that leads, or heard its leader within the shortest election timeout,
/// grants no pre-vote: a stray node cannot depose a healthy leader.
pub proof fn a_live_leader_is_protected(
    n: NodeView,
    args: RequestVoteArgs,
    now: Instant,
    deadline: Instant,
)
    requires
        args.pre_vote,
        n.leader_is_live(now),
    ensures
        !n.on_request_vote(args, now, deadline).1.vote_granted,
{
}

/// Probing for votes touches nothing that is persisted: a node that cannot win
/// never inflates its term.
pub proof fn probing_keeps_the_term(n: NodeView, deadline: Instant)
    ensures
        n.start_pre_election(deadline).0.persistent() == n.persistent(),
        n.start_pre_election(deadline).0.role == n.role,
{
}

/// A candidate whose log is behind the voter's gets neither its vote nor its
/// pre-vote.
pub proof fn a_stale_log_gets_no_vote(
    n: NodeView,
    args: RequestVoteArgs,
    now: Instant,
    deadline: Instant,
)
    requires
        !n.log.is_covered_by(args.last_log_index, args.last_log_term),
    ensures
        !n.on_request_vote(args, now, deadline).1.vote_granted,
{
}

/// Having granted its vote, a node refuses every other candidate of that term.
pub proof fn a_vote_is_exclusive(
    n: NodeView,
    args: RequestVoteArgs,
    now: Instant,
    deadline: Instant,
    other: RequestVoteArgs,
    later: Instant,
    other_deadline: Instant,
)
    requires
        !args.pre_vote,
        n.on_request_vote(args, now, deadline).1.vote_granted,
        !other.pre_vote,
        other.term == args.term,
        other.candidate_id != args.candidate_id,
    ensures
        !n.on_request_vote(args, now, deadline).0.on_request_vote(
            other,
            later,
            other_deadline,
        ).1.vote_granted,
{
}

/// A vote request, an AppendEntries or an InstallSnapshot of an older term is
/// turned down and changes nothing.
pub proof fn stale_terms_are_rejected(
    n: NodeView,
    vote: RequestVoteArgs,
    append: AppendView,
    install: InstallView,
    now: Instant,
    deadline: Instant,
)
    ensures
        vote.term < n.current_term ==> {
            let (after, reply) = n.on_request_vote(vote, now, deadline);
            after == n && !reply.vote_granted && reply.term == n.current_term
        },
        append.term < n.current_term ==> {
            let (after, reply) = n.on_append_entries(append, now, deadline);
            after == n && !reply.success && reply.term == n.current_term
        },
        install.term < n.current_term ==> {
            let (after, reply) = n.on_install_snapshot(install, now, deadline);
            after == n && reply.term == n.current_term
        },
{
}

/// Any RPC or reply of a newer term makes a node a follower of that term.
pub proof fn a_newer_term_makes_a_follower(
    n: NodeView,
    append: AppendView,
    install: InstallView,
    from: NodeId,
    reply: RequestVoteReply,
    now: Instant,
    deadline: Instant,
)
    ensures
        append.term > n.current_term ==> {
            let after = n.on_append_entries(append, now, deadline).0;
            after.role == Role::Follower && after.current_term == append.term && after.leader_id
                == Some(append.leader_id)
        },
        install.term > n.current_term ==> {
            let after = n.on_install_snapshot(install, now, deadline).0;
            after.role == Role::Follower && after.current_term == install.term && after.leader_id
                == Some(install.leader_id)
        },
        reply.term > n.current_term ==> {
            let after = n.on_vote_reply(from, reply);
            after.role == Role::Follower && after.current_term == reply.term && after.leader_id
                is None
        },
{
}

/// After storing the entries that follow `prev`, a log has every one of them.
pub proof fn spliced_logs_have_the_entries(
    log: LogView,
    prev: LogIndex,
    entries: Seq<EntryView>,
    k: int,
)
    requires
        log.wf(),
        prev <= log.last_index(),
        0 <= k < entries.len(),
    ensures
        log.splice(prev, entries).has_already(prev, entries, k),
{
    super::model::lemma_agreed_exists(log, prev, entries);
    let agreed = choose|k: int| log.is_agreed(prev, entries, k);
    if agreed == entries.len() {
        assert(log.has_already(prev, entries, k));
    } else {
        let after = log.splice(prev, entries);
        let index = prev + 1 + k;
        assert(!log.has_already(prev, entries, agreed));
        if k < agreed {
            assert(log.has_already(prev, entries, k));
            if index > log.snapshot_index {
                assert(after.entries[index - log.snapshot_index - 1]
                    == log.entries[index - log.snapshot_index - 1]);
            }
        } else if index > log.snapshot_index {
            if agreed > 0 {
                assert(log.has_already(prev, entries, agreed - 1));
            }
            assert(after.entries[index - log.snapshot_index - 1] == entries[k]);
        }
    }
}

/// Receiving the same entries a second time changes the log no further.
pub proof fn repeated_entries_change_nothing(
    log: LogView,
    prev: LogIndex,
    entries: Seq<EntryView>,
)
    requires
        log.wf(),
        prev <= log.last_index(),
    ensures
        log.splice(prev, entries).splice(prev, entries) == log.splice(prev, entries),
{
    let after = log.splice(prev, entries);
    assert forall|k: int| 0 <= k < entries.len() implies #[trigger] after.has_already(
        prev,
        entries,
        k,
    ) by {
        spliced_logs_have_the_entries(log, prev, entries, k);
    }
    assert(after.is_agreed(prev, entries, entries.len() as int));
    super::model::lemma_agreed_unique(after, prev, entries, entries.len() as int);
}

/// Only the entries that contradict the leader's are erased: entries that a log
/// already has stay as they are, whatever follows them.
pub proof fn agreeing_entries_stay(log: LogView, prev: LogIndex, entries: Seq<EntryView>)
    requires
        forall|k: int| 0 <= k < entries.len() ==> #[trigger] log.has_already(prev, entries, k),
    ensures
        log.splice(prev, entries) == log,
{
    assert(log.is_agreed(prev, entries, entries.len() as int));
    super::model::lemma_agreed_unique(log, prev, entries, entries.len() as int);
}

/// A snapshot drops what it covers and nothing else: the log ends where it did,
/// and every entry past the snapshot is the same.
pub proof fn snapshots_keep_the_tail(n: NodeView, index: LogIndex, data: Seq<u8>, k: int)
    requires
        n.wf(),
        n.log.snapshot_index < index <= n.last_applied,
        index <= n.log.last_index(),
        index < k <= n.log.last_index(),
    ensures
        n.take_snapshot(index, data).log.snapshot_index == index,
        n.take_snapshot(index, data).log.last_index() == n.log.last_index(),
        n.take_snapshot(index, data).log.holds(k),
        n.take_snapshot(index, data).log.entry(k) == n.log.entry(k),
{
}

/// A node that restarts from a snapshot hands it to the state machine before
/// anything else, and replays none of what it covers.
pub proof fn a_restart_delivers_the_snapshot(n: NodeView, now: Instant, deadline: Instant)
    requires
        n.snapshot is Some,
    ensures
        ({
            let r = NodeView::restored(
                n.id,
                n.peers,
                n.timing,
                n.persistent(),
                now,
                deadline,
            );
            &&& r.persistent() == n.persistent()
            &&& r.due().len() == 1
            &&& r.due()[0] matches super::types::ApplyView::Snapshot(s)
            &&& s.last_included_index == n.log.snapshot_index
            &&& s.data == n.snapshot->Some_0
            &&& r.last_applied == n.log.snapshot_index
        }),
{
}

/// Handing over what is due hands it over once.
pub proof fn applies_are_handed_over_once(n: NodeView)
    requires
        n.in_order(),
    ensures
        n.take_applies().due().len() == 0,
{
}

/// A single-node cluster elects itself as soon as its timer runs out.
pub proof fn a_lone_node_elects_itself(
    n: NodeView,
    last: Option<Instant>,
    now: Instant,
    probe: Instant,
    campaign: Instant,
)
    requires
        n.peers.len() == 0,
        n.timed_out(now),
        n.current_term < Term::MAX,
    ensures
        n.on_tick(last, now, probe, campaign).0.role == Role::Leader,
        n.on_tick(last, now, probe, campaign).0.current_term == n.current_term + 1,
        n.on_tick(last, now, probe, campaign).1 is Election,
{
    assert(Set::<NodeId>::empty().insert(n.id).len() == 1);
}

/// A single-node cluster commits a command as soon as it is proposed.
pub proof fn a_lone_leader_commits_at_once(n: NodeView, command: Seq<u8>)
    requires
        n.wf(),
        n.in_order(),
        n.peers.len() == 0,
        n.log.last_index() + 1 < LogIndex::MAX,
    ensures
        n.submit_command(command).commit_index == n.log.last_index() + 1,
{
    let a = NodeView {
        log: n.log.append(EntryView { term: n.current_term, command }),
        ..n
    };
    let last = a.log.last_index() as LogIndex;
    assert(a.peers.filter(|p: NodeId| a.matched(p) >= last as int) =~= Seq::empty()) by {
        reveal(Seq::filter);
    }
    assert(a.committable(last as int));
    assert(a.is_next_commit(last));
    super::model::lemma_next_commit_unique(a, last);
}

/// A follower that hears nothing keeps still for the shortest election timeout,
/// and campaigns after the longest.
pub proof fn timers_keep_to_their_range(n: NodeView, armed: Instant, now: Instant)
    requires
        n.role != Role::Leader,
        n.timing.may_expire(armed, n.election_deadline),
    ensures
        now.nanos < armed.nanos + n.timing.election_min.nanos ==> !n.timed_out(now),
        now.nanos >= armed.nanos + n.timing.election_max.nanos ==> n.timed_out(now),
{
}

/// A heartbeat puts off the election: its receiver follows the leader and keeps
/// still for another timeout.
pub proof fn heartbeats_put_off_elections(
    n: NodeView,
    args: AppendView,
    now: Instant,
    deadline: Instant,
)
    requires
        args.term >= n.current_term,
        n.timing.may_expire(now, deadline),
        n.timing.election_min.nanos > 0,
    ensures
        n.on_append_entries(args, now, deadline).0.role == Role::Follower,
        n.on_append_entries(args, now, deadline).0.election_deadline == deadline,
        !n.on_append_entries(args, now, deadline).0.timed_out(now),
{
}

/// A node that probes for votes itself still answers the probes of others as
/// before, so that it helps to elect a better candidate.
pub proof fn a_pre_candidate_still_pledges(
    n: NodeView,
    probe: Instant,
    args: RequestVoteArgs,
    now: Instant,
    deadline: Instant,
)
    requires
        args.pre_vote,
    ensures
        n.start_pre_election(probe).0.on_request_vote(args, now, deadline).1 == n.on_request_vote(
            args,
            now,
            deadline,
        ).1,
{
}

/// A leader commits by counting replicas only what is of its own term: where the
/// commit index moves, the entry there is of the current term and on a majority.
pub proof fn only_the_current_term_commits_by_count(n: NodeView)
    requires
        n.wf(),
        n.advance_commit().commit_index != n.commit_index,
    ensures
        n.log.term_at(n.advance_commit().commit_index as int) == Some(n.current_term),
        n.replicas(n.advance_commit().commit_index as int) >= n.quorum(),
{
    super::model::lemma_advance_commit(n);
}

/// While a leader leads, what it knows a peer to hold only ever grows: a delayed
/// reply does not rewind it.
pub proof fn the_match_index_only_moves_forward(
    n: NodeView,
    from: NodeId,
    reply: AppendEntriesReply,
    match_hint: LogIndex,
    peer: NodeId,
)
    requires
        reply.term <= n.current_term,
    ensures
        n.on_append_reply(from, reply, match_hint).matched(peer) >= n.matched(peer),
{
}

// ---- one node's life ----
/// A term never decreases through a life.
proof fn lemma_term_grows(nodes: Seq<NodeView>, calls: Seq<Event>, a: int, b: int)
    requires
        super::life::is_life(nodes, calls),
        0 <= a <= b <= calls.len(),
    ensures
        nodes[a].current_term <= nodes[b].current_term,
        nodes[a].id == nodes[b].id,
    decreases b - a,
{
    if a < b {
        lemma_term_grows(nodes, calls, a, b - 1);
        assert(super::life::is_step(nodes, calls, b - 1));
    }
}

/// A vote, once cast, stands while the term lasts.
proof fn lemma_vote_stands(
    nodes: Seq<NodeView>,
    calls: Seq<Event>,
    a: int,
    b: int,
    candidate: NodeId,
)
    requires
        super::life::is_life(nodes, calls),
        0 <= a <= b <= calls.len(),
        nodes[a].voted_for == Some(candidate),
        nodes[a].current_term == nodes[b].current_term,
    ensures
        nodes[b].voted_for == Some(candidate),
    decreases b - a,
{
    if a < b {
        lemma_term_grows(nodes, calls, a, b - 1);
        lemma_term_grows(nodes, calls, b - 1, b);
        lemma_vote_stands(nodes, calls, a, b - 1, candidate);
        assert(super::life::is_step(nodes, calls, b - 1));
    }
}

/// A node grants at most one candidate its vote in a term, whatever it is called
/// with before, in between and after, and however often it restarts.
pub proof fn one_vote_per_term_and_life(
    nodes: Seq<NodeView>,
    calls: Seq<Event>,
    a: int,
    b: int,
    first: NodeId,
    second: NodeId,
)
    requires
        super::life::is_life(nodes, calls),
        0 <= a <= b < calls.len(),
        nodes[a].votes_for(calls[a], first),
        nodes[b].votes_for(calls[b], second),
        calls[a]->OnVote_args.term == calls[b]->OnVote_args.term,
    ensures
        first == second,
{
    if a < b {
        assert(super::life::is_step(nodes, calls, a));
        assert(super::life::is_step(nodes, calls, b));
        lemma_term_grows(nodes, calls, a + 1, b);
        lemma_vote_stands(nodes, calls, a + 1, b, first);
    }
}

/// A node that has campaigned for a term, and so has voted for itself, grants no
/// other candidate its vote in that term, after a restart neither.
pub proof fn candidates_vote_for_themselves(
    nodes: Seq<NodeView>,
    calls: Seq<Event>,
    a: int,
    b: int,
    candidate: NodeId,
)
    requires
        super::life::is_life(nodes, calls),
        0 <= a < b < calls.len(),
        calls[a] is Election,
        nodes[b].votes_for(calls[b], candidate),
        calls[b]->OnVote_args.term == nodes[a].current_term + 1,
    ensures
        candidate == nodes[a].id,
{
    assert(super::life::is_step(nodes, calls, a));
    assert(super::life::is_step(nodes, calls, b));
    lemma_term_grows(nodes, calls, a + 1, b);
    lemma_vote_stands(nodes, calls, a + 1, b, nodes[a].id);
}

/// What a log has, once it has taken over entries that agree with it through
/// `upto`, still reaches there.
proof fn lemma_splice_keeps(
    log: LogView,
    prev: LogIndex,
    prev_term: Term,
    entries: Seq<EntryView>,
    upto: int,
)
    requires
        log.wf(),
        log.matches(prev, prev_term),
        log.last_index() + entries.len() < LogIndex::MAX,
        log.snapshot_index <= upto <= log.last_index(),
        forall|k: int|
            0 <= k < entries.len() && prev + 1 + k <= upto ==> #[trigger] log.has_already(
                prev,
                entries,
                k,
            ),
    ensures
        log.splice(prev, entries).wf(),
        log.splice(prev, entries).snapshot_index == log.snapshot_index,
        upto <= log.splice(prev, entries).last_index(),
{
    super::model::lemma_agreed_exists(log, prev, entries);
    let k = choose|k: int| log.is_agreed(prev, entries, k);
    assert(log.is_agreed(prev, entries, k));
    if k > 0 {
        assert(log.has_already(prev, entries, k - 1));
    }
    if k < entries.len() {
        assert(!log.has_already(prev, entries, k));
        let cut = prev + k;
        assert(log.snapshot_index <= cut <= log.last_index());
        assert(log.truncate_after(cut).entries.len() == cut - log.snapshot_index);
    }
}

/// A call that brings no entry against a committed one keeps the cursors in order:
/// snapshot, applied, committed, last entry. It takes neither the snapshot back nor
/// what is applied, and where it contradicts nothing committed, what is committed
/// neither; but for a restart, which resumes what is applied and committed at the
/// snapshot.
pub proof fn calls_keep_the_cursors_in_order(n: NodeView, e: Event)
    requires
        n.wf(),
        n.in_order(),
        n.allowed(e),
        n.spares_committed(e),
    ensures
        n.after(e).wf(),
        n.after(e).in_order(),
        n.log.snapshot_index <= n.after(e).log.snapshot_index,
        !(e is Restart) ==> n.last_applied <= n.after(e).last_applied,
        !(e is Restart) && n.respects(e) ==> n.commit_index <= n.after(e).commit_index,
{
    match e {
        Event::Submit { command } => super::model::lemma_advance_commit(
            NodeView { log: n.log.append(EntryView { term: n.current_term, command }), ..n },
        ),
        Event::OnAppend { args, .. } => if args.term >= n.current_term && n.log.matches(
            args.prev_log_index,
            args.prev_log_term,
        ) {
            lemma_splice_keeps(
                n.log,
                args.prev_log_index,
                args.prev_log_term,
                args.entries,
                n.commit_index as int,
            );
        },
        Event::OnAppendReply { from, match_hint, .. } => lemma_note_match_in_order(
            n,
            from,
            match_hint,
        ),
        Event::OnInstallReply { from, last_included_index, .. } => lemma_note_match_in_order(
            n,
            from,
            last_included_index,
        ),
        _ => {},
    }
}

/// What a peer is known to hold moves the commit index within the log.
proof fn lemma_note_match_in_order(n: NodeView, peer: NodeId, index: LogIndex)
    requires
        n.wf(),
        n.in_order(),
        index < LogIndex::MAX,
    ensures
        n.note_match(peer, index).wf(),
        n.note_match(peer, index).in_order(),
        n.commit_index <= n.note_match(peer, index).commit_index,
{
    let matched = if n.matched(peer) >= index {
        n.matched(peer)
    } else {
        index
    };
    super::model::lemma_advance_commit(
        NodeView {
            match_index: n.match_index.insert(peer, matched),
            next_index: n.next_index.insert(peer, (matched + 1) as LogIndex),
            ..n
        },
    );
}

/// Through calls that bring no entry against a committed one, the cursors of a node
/// stay in order and its snapshot never moves back. Between restarts, neither does
/// what it has applied, nor, where no call contradicts what is committed, what it has
/// committed.
pub proof fn cursors_only_advance(nodes: Seq<NodeView>, calls: Seq<Event>, a: int, b: int)
    requires
        super::life::is_life(nodes, calls),
        0 <= a <= b <= calls.len(),
        nodes[a].wf(),
        nodes[a].in_order(),
        forall|k: int| a <= k < b ==> (#[trigger] nodes[k]).spares_committed(calls[k]),
    ensures
        nodes[b].wf(),
        nodes[b].in_order(),
        nodes[a].log.snapshot_index <= nodes[b].log.snapshot_index,
        (forall|k: int| a <= k < b ==> !(#[trigger] calls[k] is Restart)) ==> {
            &&& nodes[a].last_applied <= nodes[b].last_applied
            &&& (forall|k: int| a <= k < b ==> (#[trigger] nodes[k]).respects(calls[k]))
                ==> nodes[a].commit_index <= nodes[b].commit_index
        },
    decreases b - a,
{
    if a < b {
        cursors_only_advance(nodes, calls, a, b - 1);
        let n = nodes[b - 1];
        let e = calls[b - 1];
        assert(super::life::is_step(nodes, calls, b - 1));
        assert(n.spares_committed(e));
        calls_keep_the_cursors_in_order(n, e);
    }
}

/// Between two handovers, the apply cursor stays, or a snapshot moves it on and waits.
proof fn lemma_cursor_waits(nodes: Seq<NodeView>, calls: Seq<Event>, a: int, b: int)
    requires
        super::life::is_life(nodes, calls),
        0 <= a < b <= calls.len(),
        calls[a] is TakeApplies,
        nodes[a].wf(),
        nodes[a].in_order(),
        forall|k: int| a <= k < b ==> (#[trigger] nodes[k]).spares_committed(calls[k]),
        forall|k: int|
            a < k < b ==> !(#[trigger] calls[k] is TakeApplies) && !(calls[k] is Restart),
    ensures
        nodes[b].wf(),
        nodes[b].in_order(),
        match nodes[b].pending_snapshot {
            None => nodes[b].last_applied == nodes[a].commit_index,
            Some(p) => p.last_included_index == nodes[b].last_applied && nodes[b].last_applied
                > nodes[a].commit_index,
        },
    decreases b - a,
{
    let n = nodes[b - 1];
    let e = calls[b - 1];
    assert(super::life::is_step(nodes, calls, b - 1));
    if b - 1 > a {
        lemma_cursor_waits(nodes, calls, a, b - 1);
    }
    assert(n.spares_committed(e));
    calls_keep_the_cursors_in_order(n, e);
    if b - 1 > a {
        lemma_cursor_moves(n, e);
    }
}

/// What moves the apply cursor, but for a handover and a restart.
proof fn lemma_cursor_moves(n: NodeView, e: Event)
    requires
        !(e is TakeApplies),
        !(e is Restart),
    ensures
        ({
            let n2 = n.after(e);
            ||| n2.last_applied == n.last_applied && n2.pending_snapshot == n.pending_snapshot
            ||| n2.last_applied > n.last_applied && (n2.pending_snapshot matches Some(p)
                && p.last_included_index == n2.last_applied)
        }),
{
}

/// Entries reach the state machine in order, none skipped and none twice: a handover
/// goes on right after the last entry of the one before, or, where a snapshot was
/// installed in between, with that snapshot, which covers all that is left out, and
/// right after it.
pub proof fn handovers_continue_each_other(nodes: Seq<NodeView>, calls: Seq<Event>, a: int, b: int)
    requires
        super::life::is_life(nodes, calls),
        0 <= a < b < calls.len(),
        calls[a] is TakeApplies,
        calls[b] is TakeApplies,
        nodes[a].wf(),
        nodes[a].in_order(),
        forall|k: int| a <= k < b ==> (#[trigger] nodes[k]).spares_committed(calls[k]),
        forall|k: int|
            a < k < b ==> !(#[trigger] calls[k] is TakeApplies) && !(calls[k] is Restart),
    ensures
        ({
            let (x, y) = (nodes[a], nodes[b]);
            let (from, items) = match y.pending_snapshot {
                None => (x.commit_index as int, y.due()),
                Some(p) => (p.last_included_index as int, y.due().skip(1)),
            };
            &&& x.commit_index <= from <= y.commit_index
            &&& y.pending_snapshot matches Some(p) ==> y.due()[0] == ApplyView::Snapshot(p)
            &&& items == Seq::new(
                (y.commit_index - from) as nat,
                |k: int| y.command_at(from + 1 + k),
            )
            &&& forall|k: int|
                0 <= k < x.due().len() ==> ((#[trigger] x.due()[k]) matches ApplyView::Command {
                    index,
                    ..
                } ==> index <= x.commit_index)
        }),
{
    lemma_cursor_waits(nodes, calls, a, b);
    let y = nodes[b];
    let from = y.last_applied as int;
    let fresh = Seq::new((y.commit_index - from) as nat, |k: int| y.command_at(from + 1 + k));
    match y.pending_snapshot {
        None => assert(y.due() =~= fresh),
        Some(p) => assert(y.due().skip(1) =~= fresh),
    }
}

/// What a call makes of a node's term: a message or a reply raises it to the term
/// that it carries, if that is newer; a campaign raises it by one; nothing else
/// changes it. A node that learns of a newer term follows, its old vote forgotten:
/// if it has voted, then for the candidate that told it of the term.
pub proof fn terms_follow_the_messages(n: NodeView, e: Event)
    requires
        n.allowed(e),
    ensures
        n.after(e).current_term == match e.carried_term() {
            Some(term) => if term > n.current_term {
                term as int
            } else {
                n.current_term as int
            },
            None => if e is Election {
                n.current_term + 1
            } else {
                n.current_term as int
            },
        },
        e.carried_term() matches Some(term) && term > n.current_term ==> {
            &&& n.after(e).role == Role::Follower
            &&& n.after(e).voted_for matches Some(candidate) ==> n.votes_for(e, candidate)
        },
{
}

/// A call that arms the election timer sets it between the shortest and the longest
/// timeout from then on; every other call, a denied vote, a pre-vote and a stale
/// message among them, leaves it alone.
pub proof fn only_arming_calls_move_the_deadline(n: NodeView, e: Event)
    requires
        n.allowed(e),
    ensures
        n.arms(e) ==> {
            let set = n.after(e).election_deadline.nanos;
            &&& e.moment().nanos + n.timing.election_min.nanos <= set
            &&& set <= e.moment().nanos + n.timing.election_max.nanos
        },
        !n.arms(e) ==> n.after(e).election_deadline == n.election_deadline,
        n.after(e).timing == n.timing,
{
}

/// From a call that arms the election timer until the next one that does, a node
/// times out at one moment, between the shortest and the longest timeout from the
/// call, unless it leads: a leader never times out.
pub proof fn timers_run_out_once(
    nodes: Seq<NodeView>,
    calls: Seq<Event>,
    a: int,
    b: int,
    x: Instant,
)
    requires
        super::life::is_life(nodes, calls),
        0 <= a < b <= calls.len(),
        nodes[a].arms(calls[a]),
        forall|k: int| a < k < b ==> !(#[trigger] nodes[k]).arms(calls[k]),
    ensures
        ({
            let set = nodes[a + 1].election_deadline.nanos;
            let (now, timing) = (calls[a].moment().nanos, nodes[a].timing);
            &&& now + timing.election_min.nanos <= set <= now + timing.election_max.nanos
            &&& nodes[b].election_deadline.nanos == set
            &&& nodes[b].role == Role::Leader ==> !nodes[b].timed_out(x)
            &&& nodes[b].role != Role::Leader ==> (nodes[b].timed_out(x) <==> x.nanos >= set)
        }),
    decreases b - a,
{
    assert(super::life::is_step(nodes, calls, a));
    only_arming_calls_move_the_deadline(nodes[a], calls[a]);
    if b > a + 1 {
        timers_run_out_once(nodes, calls, a, b - 1, x);
        assert(super::life::is_step(nodes, calls, b - 1));
        assert(!nodes[b - 1].arms(calls[b - 1]));
        only_arming_calls_move_the_deadline(nodes[b - 1], calls[b - 1]);
    }
}

} // verus!
