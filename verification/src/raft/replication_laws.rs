//! What replication promises, said of what goes into a call and what comes out of it:
//! what a follower accepts and stores, what a leader sends, what it commits, and what
//! becomes of a log that is compacted.

use vstd::prelude::*;

use super::clock::Instant;
use super::model::NodeView;
use super::rpc::{AppendEntriesReply, AppendView, InstallSnapshotReply, InstallView};
use super::types::{ApplyView, EntryView, LogIndex, LogView, NodeId, Role, SnapshotView, Term};

verus! {

// ---- what a log holds ----
/// The log holds `entry` at `index`, in its tail.
pub open spec fn has_entry(log: LogView, index: int, entry: EntryView) -> bool {
    &&& log.snapshot_index < index <= log.snapshot_index + log.entries.len()
    &&& log.entries[index - log.snapshot_index - 1] == entry
}

/// The log holds an entry of this term at `index`, in its tail.
pub open spec fn has_term_at(log: LogView, index: int, term: Term) -> bool {
    &&& log.snapshot_index < index <= log.snapshot_index + log.entries.len()
    &&& log.entries[index - log.snapshot_index - 1].term == term
}

/// A log knows the term of the entry at an index exactly where it has the entry, at its
/// snapshot's end, and before the first entry, where it is 0.
pub proof fn logs_know_the_terms_they_hold(log: LogView, index: int)
    requires
        log.wf(),
        index >= 0,
    ensures
        ({
            let last = log.snapshot_index + log.entries.len();
            &&& log.snapshot_index < index <= last ==> log.term_at(index) == Some(
                log.entries[index - log.snapshot_index - 1].term,
            )
            &&& index == log.snapshot_index ==> log.term_at(index) == Some(log.snapshot_term)
            &&& index == 0 ==> log.term_at(index) == Some(0u64)
            &&& 0 < index < log.snapshot_index ==> log.term_at(index) is None
            &&& index > last ==> log.term_at(index) is None
            &&& log.holds(index) <==> log.snapshot_index < index <= last
            &&& log.snapshot_index < index <= last ==> has_entry(log, index, log.entry(index))
        }),
{
}

/// Where a log ends.
pub proof fn logs_end_with_their_last_entry(log: LogView)
    ensures
        log.last_index() == log.snapshot_index + log.entries.len(),
        log.entries.len() > 0 ==> log.last_term() == log.entries[log.entries.len() - 1].term,
        log.entries.len() == 0 ==> log.last_term() == log.snapshot_term,
{
}

/// Cutting a log in two loses nothing: what is kept through an index, and what comes
/// after it, make up the log; and nothing of it is kept past the index.
pub proof fn logs_can_be_cut_in_two(log: LogView, index: int)
    ensures
        log.truncate_after(index).entries + log.entries_after(index) == log.entries,
        log.truncate_after(index).snapshot_index == log.snapshot_index,
        log.truncate_after(index).snapshot_term == log.snapshot_term,
        index >= log.snapshot_index ==> log.snapshot_index + log.truncate_after(
            index,
        ).entries.len() == (if index <= log.snapshot_index + log.entries.len() {
            index
        } else {
            log.snapshot_index + log.entries.len()
        }),
        index <= log.snapshot_index ==> log.truncate_after(index).entries.len() == 0,
{
    assert(log.truncate_after(index).entries + log.entries_after(index) =~= log.entries);
}

/// An entry that is appended goes behind all others, which stay.
pub proof fn appended_entries_go_last(log: LogView, entry: EntryView, index: int, other: EntryView)
    ensures
        has_entry(log.append(entry), log.snapshot_index + log.entries.len() + 1, entry),
        has_entry(log, index, other) ==> has_entry(log.append(entry), index, other),
        log.append(entry).entries.len() == log.entries.len() + 1,
        log.append(entry).snapshot_index == log.snapshot_index,
        log.append(entry).snapshot_term == log.snapshot_term,
{
}

/// A log that is compacted through `index` starts behind it. It keeps what follows where
/// it has the entry at `index` with that term, and nothing otherwise; and a boundary that
/// it has already reached leaves it as it is.
pub proof fn compacted_logs_start_behind_the_boundary(log: LogView, index: LogIndex, term: Term)
    requires
        log.wf(),
    ensures
        index <= log.snapshot_index ==> log.compact(index, term) == log,
        index > log.snapshot_index ==> {
            let after = log.compact(index, term);
            &&& after.snapshot_index == index
            &&& after.snapshot_term == term
            &&& has_term_at(log, index as int, term) ==> after.entries == log.entries.subrange(
                index - log.snapshot_index,
                log.entries.len() as int,
            )
            &&& !has_term_at(log, index as int, term) ==> after.entries.len() == 0
        },
{
    if index > log.snapshot_index && has_term_at(log, index as int, term) {
        assert(log.compact(index, term).entries =~= log.entries.subrange(
            index - log.snapshot_index,
            log.entries.len() as int,
        ));
    }
}

/// A node that has never stored anything has an empty log, no term and no vote.
pub proof fn new_nodes_know_nothing()
    ensures
        ({
            let state = super::storage::PersistentView::initial();
            &&& state.current_term == 0
            &&& state.voted_for is None
            &&& state.snapshot is None
            &&& state.log.snapshot_index == 0
            &&& state.log.snapshot_term == 0
            &&& state.log.entries.len() == 0
        }),
{
}

/// How far a message reaches: through the last of its entries.
pub proof fn messages_reach_their_last_entry(args: AppendView)
    ensures
        args.last_index() == args.prev_log_index + args.entries.len(),
{
}

/// A log finds the first and the last place at which it holds a term, wherever it
/// holds it at all.
pub proof fn logs_find_the_ends_of_a_term(log: LogView, term: Term, index: int)
    requires
        log.wf(),
        has_term_at(log, index, term),
    ensures
        log.first_index_of_term(term) matches Some(first) && has_term_at(log, first as int, term)
            && first <= index,
        log.last_index_of_term(term) matches Some(last) && has_term_at(log, last as int, term)
            && index <= last,
{
    assert(log.holds(index) && log.entry(index).term == term);
    super::types::lemma_first_of_term(log, term, index as LogIndex);
    super::types::lemma_last_of_term(log, term, index as LogIndex);
    let last = log.last_index_of_term(term)->Some_0;
    if last < index {
        assert(log.entry(index).term != term);
    }
}

/// A log that holds a term nowhere finds it nowhere.
pub proof fn logs_find_no_other_term(log: LogView, term: Term)
    requires
        forall|index: int| !#[trigger] has_term_at(log, index, term),
    ensures
        log.first_index_of_term(term) is None,
        log.last_index_of_term(term) is None,
{
    if log.has_term(term) {
        let j = choose|j: int| log.holds(j) && (#[trigger] log.entry(j)).term == term;
        assert(has_term_at(log, j, term));
    }
}

// ---- what a follower accepts ----
/// An AppendEntries is accepted exactly where its term is not past and the entry that it
/// builds on is there: covered by the snapshot, or held with the very term that the
/// leader says.
pub proof fn entries_are_accepted_where_they_fit(
    n: NodeView,
    args: AppendView,
    now: Instant,
    deadline: Instant,
)
    requires
        n.log.wf(),
    ensures
        n.on_append_entries(args, now, deadline).1.success <==> args.term >= n.current_term && (
        args.prev_log_index <= n.log.snapshot_index || has_term_at(
            n.log,
            args.prev_log_index as int,
            args.prev_log_term,
        )),
        n.on_append_entries(args, now, deadline).1.term == (if args.term > n.current_term {
            args.term
        } else {
            n.current_term
        }),
{
}

/// The `k`th of the entries is one that the log lacks or contradicts.
pub open spec fn differs(log: LogView, prev: LogIndex, entries: Seq<EntryView>, k: int) -> bool {
    let index = prev + 1 + k;
    index > log.snapshot_index && !has_term_at(log, index, entries[k].term)
}

/// What an accepted AppendEntries leaves in the log. Where the log already agrees with
/// every entry that was sent, it stays as it is, with all that follows. Otherwise it
/// ends with the last entry that was sent; from the first on which they differ, it has
/// the leader's entries, and before that its own.
#[verifier::rlimit(40)]
pub proof fn accepted_entries_are_stored(
    n: NodeView,
    args: AppendView,
    now: Instant,
    deadline: Instant,
    first: int,
)
    requires
        n.log.wf(),
        n.on_append_entries(args, now, deadline).1.success,
        0 <= first <= args.entries.len(),
        forall|k: int| 0 <= k < first ==> !#[trigger] differs(
            n.log,
            args.prev_log_index,
            args.entries,
            k,
        ),
        first < args.entries.len() ==> differs(n.log, args.prev_log_index, args.entries, first),
    ensures
        ({
            let after = n.on_append_entries(args, now, deadline).0.log;
            &&& after.snapshot_index == n.log.snapshot_index
            &&& after.snapshot_term == n.log.snapshot_term
            &&& first == args.entries.len() ==> after == n.log
            &&& first < args.entries.len() ==> {
                &&& after.snapshot_index + after.entries.len() == args.prev_log_index
                    + args.entries.len()
                &&& forall|k: int|
                    first <= k < args.entries.len() ==> has_entry(
                        after,
                        args.prev_log_index + 1 + k,
                        #[trigger] args.entries[k],
                    )
                &&& forall|at: int|
                    0 <= at && n.log.snapshot_index + at < args.prev_log_index + first
                        ==> #[trigger] after.entries[at] == n.log.entries[at]
            }
        }),
{
    let (log, prev, entries) = (n.log, args.prev_log_index, args.entries);
    assert forall|k: int| 0 <= k < first implies #[trigger] log.has_already(prev, entries, k) by {
        assert(!differs(log, prev, entries, k));
    }
    if first < entries.len() {
        assert(!log.has_already(prev, entries, first));
    }
    assert(log.is_agreed(prev, entries, first));
    super::model::lemma_agreed_unique(log, prev, entries, first);
    if first < entries.len() {
        let cut = prev + first;
        if first > 0 {
            assert(!differs(log, prev, entries, first - 1));
        }
        assert(log.snapshot_index <= cut <= log.snapshot_index + log.entries.len());
        let kept = log.truncate_after(cut);
        assert(kept.entries.len() == cut - log.snapshot_index);
        let after = log.splice(prev, entries);
        assert(after.entries == kept.entries + entries.skip(first));
    }
}

/// Every entry that was sent and accepted is in the log, as one of the leader's term for
/// it, unless the snapshot covers its index.
#[verifier::rlimit(40)]
pub proof fn every_accepted_entry_is_there(
    n: NodeView,
    args: AppendView,
    now: Instant,
    deadline: Instant,
    k: int,
)
    requires
        n.log.wf(),
        n.on_append_entries(args, now, deadline).1.success,
        0 <= k < args.entries.len(),
        args.prev_log_index + 1 + k > n.log.snapshot_index,
    ensures
        has_term_at(
            n.on_append_entries(args, now, deadline).0.log,
            args.prev_log_index + 1 + k,
            args.entries[k].term,
        ),
{
    let first = lemma_first_difference(n.log, args.prev_log_index, args.entries, 0);
    accepted_entries_are_stored(n, args, now, deadline, first);
    let index = args.prev_log_index + 1 + k;
    if k < first {
        assert(!differs(n.log, args.prev_log_index, args.entries, k));
        if first < args.entries.len() {
            let after = n.on_append_entries(args, now, deadline).0.log;
            let at = index - n.log.snapshot_index - 1;
            assert(after.entries[at] == n.log.entries[at]);
        }
    } else {
        let after = n.on_append_entries(args, now, deadline).0.log;
        assert(has_entry(after, index, args.entries[k]));
    }
}

proof fn lemma_first_difference(
    log: LogView,
    prev: LogIndex,
    entries: Seq<EntryView>,
    from: int,
) -> (first: int)
    requires
        0 <= from <= entries.len(),
        forall|k: int| 0 <= k < from ==> !#[trigger] differs(log, prev, entries, k),
    ensures
        0 <= first <= entries.len(),
        forall|k: int| 0 <= k < first ==> !#[trigger] differs(log, prev, entries, k),
        first < entries.len() ==> differs(log, prev, entries, first),
    decreases entries.len() - from,
{
    if from == entries.len() || differs(log, prev, entries, from) {
        from
    } else {
        lemma_first_difference(log, prev, entries, from + 1)
    }
}

/// A follower learns from an accepted AppendEntries what the leader has committed, as far
/// as its own log reaches, and forgets nothing that it knew. What it has applied, and its
/// snapshot, are not touched; nor is anything but its allegiance where it rejects.
pub proof fn followers_learn_what_is_committed(
    n: NodeView,
    args: AppendView,
    now: Instant,
    deadline: Instant,
)
    requires
        n.log.wf(),
        args.term >= n.current_term,
    ensures
        ({
            let (after, reply) = n.on_append_entries(args, now, deadline);
            let last = after.log.snapshot_index + after.log.entries.len();
            &&& reply.success && args.leader_commit <= n.commit_index ==> after.commit_index
                == n.commit_index
            &&& reply.success && n.commit_index < args.leader_commit <= last
                ==> after.commit_index == args.leader_commit
            &&& reply.success && args.leader_commit > n.commit_index && args.leader_commit > last
                ==> after.commit_index == last as LogIndex
            &&& !reply.success ==> after.log == n.log && after.commit_index == n.commit_index
            &&& after.last_applied == n.last_applied
            &&& after.snapshot == n.snapshot
            &&& after.pending_snapshot == n.pending_snapshot
            &&& after.id == n.id
            &&& after.peers == n.peers
            &&& after.timing == n.timing
            &&& after.last_leader_contact == now
        }),
{
}

/// What a rejection tells the leader: where the follower's log ends, if it does not reach
/// the entry that was built on; else the term that it has there, and where its entries of
/// that term begin, so that the leader can skip them all at once.
pub proof fn rejections_tell_where_to_go_on(
    n: NodeView,
    args: AppendView,
    now: Instant,
    deadline: Instant,
)
    requires
        n.log.wf(),
        args.term >= n.current_term,
        !n.on_append_entries(args, now, deadline).1.success,
    ensures
        ({
            let reply = n.on_append_entries(args, now, deadline).1;
            let prev = args.prev_log_index as int;
            let last = n.log.snapshot_index + n.log.entries.len();
            &&& prev > last ==> reply.conflict_term is None && (reply.conflict_index matches Some(
                index,
            ) && index == last + 1)
            &&& prev <= last ==> {
                let term = n.log.entries[prev - n.log.snapshot_index - 1].term;
                &&& reply.conflict_term == Some(term)
                &&& reply.conflict_index matches Some(index) && has_term_at(
                    n.log,
                    index as int,
                    term,
                ) && index <= prev && (forall|k: int|
                    n.log.snapshot_index < k < index ==> !#[trigger] has_term_at(n.log, k, term))
            }
        }),
{
    let prev = args.prev_log_index as int;
    let last = n.log.snapshot_index + n.log.entries.len();
    if prev <= last {
        let term = n.log.entries[prev - n.log.snapshot_index - 1].term;
        assert(n.log.holds(prev) && n.log.entry(prev).term == term);
        super::types::lemma_first_of_term(n.log, term, args.prev_log_index);
        let first = n.log.first_index_of_term(term)->Some_0;
        assert(n.log.is_first_of_term(first, term));
        assert forall|k: int| n.log.snapshot_index < k < first implies !#[trigger] has_term_at(
            n.log,
            k,
            term,
        ) by {
            assert(n.log.entry(k).term != term);
        }
    }
}

// ---- what a leader sends ----
/// A leader sends a peer everything past the entry that it takes the peer to have, with
/// the index and term of that entry, and what it has committed.
pub proof fn leaders_send_all_that_a_peer_lacks(n: NodeView, peer: NodeId)
    requires
        n.wf(),
    ensures
        ({
            let args = n.append_args_for(peer);
            let last = n.log.snapshot_index + n.log.entries.len();
            let next = if n.next_index.contains_key(peer) {
                n.next_index[peer] as int
            } else {
                last + 1
            };
            &&& args.term == n.current_term
            &&& args.leader_id == n.id
            &&& args.leader_commit == n.commit_index
            &&& args.prev_log_index == next - 1
            &&& n.log.snapshot_index < next <= last + 1 ==> {
                &&& next - 1 + args.entries.len() == last
                &&& forall|k: int|
                    0 <= k < args.entries.len() ==> has_entry(
                        n.log,
                        next + k,
                        #[trigger] args.entries[k],
                    )
                &&& args.prev_log_term == (if next - 1 == n.log.snapshot_index {
                    n.log.snapshot_term
                } else {
                    n.log.entries[next - 2 - n.log.snapshot_index].term
                })
            }
        }),
{
}

/// A leader that has just been elected takes every peer for as far as itself, and knows
/// none to hold anything: it starts with an empty message behind its last entry.
pub proof fn new_leaders_start_behind_their_last_entry(n: NodeView, peer: NodeId)
    requires
        n.wf(),
        n.peers.contains(peer),
    ensures
        ({
            let after = n.become_leader();
            let args = after.append_args_for(peer);
            &&& after.role == Role::Leader
            &&& after.leader_id == Some(n.id)
            &&& args.prev_log_index == n.log.snapshot_index + n.log.entries.len()
            &&& args.entries.len() == 0
            &&& after.match_index.contains_key(peer)
            &&& after.match_index[peer] == 0
            &&& after.log == n.log
            &&& after.current_term == n.current_term
            &&& after.voted_for == n.voted_for
            &&& after.commit_index == n.commit_index
            &&& after.last_applied == n.last_applied
        }),
{
}

/// A leader has to send its snapshot exactly where the next entry for the peer is one
/// that it has compacted away; and sends it whole.
pub proof fn snapshots_go_to_peers_that_need_them(n: NodeView, peer: NodeId)
    requires
        n.wf(),
    ensures
        n.needs_snapshot(peer) <==> n.role == Role::Leader && n.snapshot is Some && (
        n.next_index.contains_key(peer) && n.next_index[peer] <= n.log.snapshot_index
            || !n.next_index.contains_key(peer) && 1 <= n.log.snapshot_index),
        n.snapshot matches Some(data) ==> n.install_snapshot_args() == (InstallView {
            term: n.current_term,
            leader_id: n.id,
            last_included_index: n.log.snapshot_index,
            last_included_term: n.log.snapshot_term,
            data,
        }),
{
}

/// Replication goes on where a peer has confirmed: after a success that reaches through
/// `hint`, the next message builds on the furthest entry that the peer has ever confirmed,
/// and what the leader knows of other peers is as it was.
pub proof fn replication_goes_on_where_a_peer_has_confirmed(
    n: NodeView,
    peer: NodeId,
    other: NodeId,
    hint: LogIndex,
    reply: AppendEntriesReply,
    installed: InstallSnapshotReply,
)
    requires
        n.wf(),
        n.role == Role::Leader,
        hint < LogIndex::MAX,
        other != peer,
        reply.term == n.current_term,
        reply.success,
        installed.term == n.current_term,
    ensures
        ({
            let confirmed = if n.match_index.contains_key(peer) && n.match_index[peer] >= hint {
                n.match_index[peer]
            } else {
                hint
            };
            let after = n.on_append_reply(peer, reply, hint);
            let reset = n.on_install_reply(peer, installed, hint);
            &&& after.match_index.contains_key(peer)
            &&& after.match_index[peer] == confirmed
            &&& after.append_args_for(peer).prev_log_index == confirmed
            &&& after.append_args_for(other).prev_log_index == n.append_args_for(
                other,
            ).prev_log_index
            &&& after.match_index.contains_key(other) == n.match_index.contains_key(other)
            &&& n.match_index.contains_key(other) ==> after.match_index[other]
                == n.match_index[other]
            &&& reset == after
            &&& after.role == Role::Leader
            &&& after.log == n.log
            &&& after.current_term == n.current_term
            &&& after.last_applied == n.last_applied
        }),
{
}

/// Where replication resumes after a rejection: past the leader's own last entry of the
/// term that is in the way, if it has one of that term; else where the follower says; one
/// further back if it says nothing; and never before the first entry. Nothing that the
/// peer has confirmed is forgotten, and nothing is committed.
pub proof fn replication_resumes_where_the_rejection_says(
    n: NodeView,
    peer: NodeId,
    hint: LogIndex,
    reply: AppendEntriesReply,
)
    requires
        n.wf(),
        n.role == Role::Leader,
        reply.term == n.current_term,
        !reply.success,
    ensures
        ({
            let after = n.on_append_reply(peer, reply, hint);
            let prev = after.append_args_for(peer).prev_log_index as int;
            &&& after == (NodeView { next_index: after.next_index, ..n })
            &&& forall|other: NodeId|
                other != peer && n.next_index.contains_key(other) ==> after.next_index.contains_key(
                    other,
                ) && #[trigger] after.next_index[other] == n.next_index[other]
            &&& match (reply.conflict_term, reply.conflict_index) {
                (Some(term), Some(index)) => {
                    &&& (forall|k: int| !#[trigger] has_term_at(n.log, k, term)) ==> prev == (
                    if index >= 1 {
                        index - 1
                    } else {
                        0
                    })
                    &&& forall|k: int| #[trigger]
                        has_term_at(n.log, k, term) ==> has_term_at(n.log, prev, term) && k
                            <= prev
                },
                (None, Some(index)) => prev == (if index >= 1 {
                    index - 1
                } else {
                    0
                }),
                (_, None) => n.next_index.contains_key(peer) ==> prev == (if n.next_index[peer]
                    >= 2 {
                    n.next_index[peer] - 2
                } else {
                    0
                }),
            }
        }),
{
    match (reply.conflict_term, reply.conflict_index) {
        (Some(term), Some(index)) => {
            if forall|k: int| !#[trigger] has_term_at(n.log, k, term) {
                logs_find_no_other_term(n.log, term);
            }
            assert forall|k: int| #[trigger] has_term_at(n.log, k, term) implies has_term_at(
                n.log,
                n.on_append_reply(peer, reply, hint).append_args_for(peer).prev_log_index as int,
                term,
            ) && k <= n.on_append_reply(peer, reply, hint).append_args_for(peer).prev_log_index by {
                logs_find_the_ends_of_a_term(n.log, term, k);
            }
        },
        _ => {},
    }
}

/// A reply of a past term, or one that reaches a node which does not lead, is of no
/// consequence; one of a newer term ends the leadership.
pub proof fn stale_replies_change_nothing(
    n: NodeView,
    peer: NodeId,
    hint: LogIndex,
    reply: AppendEntriesReply,
    installed: InstallSnapshotReply,
)
    ensures
        reply.term < n.current_term || reply.term == n.current_term && n.role != Role::Leader
            ==> n.on_append_reply(peer, reply, hint) == n,
        installed.term < n.current_term || installed.term == n.current_term && n.role
            != Role::Leader ==> n.on_install_reply(peer, installed, hint) == n,
        reply.term > n.current_term ==> {
            let after = n.on_append_reply(peer, reply, hint);
            &&& after.role == Role::Follower
            &&& after.current_term == reply.term
            &&& after.voted_for is None
            &&& after.leader_id is None
            &&& after.log == n.log
            &&& after.commit_index == n.commit_index
        },
        installed.term > n.current_term ==> {
            let after = n.on_install_reply(peer, installed, hint);
            &&& after.role == Role::Follower
            &&& after.current_term == installed.term
            &&& after.voted_for is None
            &&& after.leader_id is None
            &&& after.log == n.log
            &&& after.commit_index == n.commit_index
        },
{
}

// ---- what a leader commits ----
/// The peers that are known to hold the entry at `index`.
pub open spec fn holders(peers: Seq<NodeId>, matches: Map<NodeId, LogIndex>, index: int) -> Seq<
    NodeId,
> {
    peers.filter(|p: NodeId| matches.contains_key(p) && matches[p] >= index)
}

/// The leader with these peers, and so many of them as are known to hold the entry at
/// `index`, make more than half of the cluster.
pub open spec fn on_more_than_half(
    peers: Seq<NodeId>,
    matches: Map<NodeId, LogIndex>,
    index: int,
) -> bool {
    2 * (1 + holders(peers, matches, index).len()) > peers.len() + 1
}

/// What a leader commits: with `commit` before, `after` is the last index, past `commit`,
/// of an entry of the leader's term that is on more than half of the cluster; or `commit`
/// still, where there is none.
pub open spec fn commits_what_a_majority_holds(
    n: NodeView,
    log: LogView,
    matches: Map<NodeId, LogIndex>,
    after: LogIndex,
) -> bool {
    &&& after >= n.commit_index
    &&& forall|k: int|
        n.commit_index < k && #[trigger] has_term_at(log, k, n.current_term) && on_more_than_half(
            n.peers,
            matches,
            k,
        ) ==> after >= k
    &&& after > n.commit_index ==> has_term_at(log, after as int, n.current_term)
        && on_more_than_half(n.peers, matches, after as int)
}

proof fn lemma_advance(n: NodeView)
    requires
        n.wf(),
        n.in_order(),
    ensures
        commits_what_a_majority_holds(n, n.log, n.match_index, n.advance_commit().commit_index),
        n.advance_commit() == (NodeView {
            commit_index: n.advance_commit().commit_index,
            ..n
        }),
{
    let after = n.advance_commit().commit_index;
    super::model::lemma_advance_commit(n);
    assert forall|k: int|
        n.commit_index < k && #[trigger] has_term_at(n.log, k, n.current_term)
            && on_more_than_half(n.peers, n.match_index, k) implies after >= k by {
        lemma_replicas(n, k);
        assert(n.committable(k));
    }
    if after > n.commit_index {
        lemma_replicas(n, after as int);
    }
}

proof fn lemma_replicas(n: NodeView, k: int)
    requires
        k > 0,
    ensures
        n.replicas(k) == 1 + holders(n.peers, n.match_index, k).len(),
        n.replicas(k) >= n.quorum() <==> on_more_than_half(n.peers, n.match_index, k),
{
    let f = |p: NodeId| n.matched(p) >= k;
    let g = |p: NodeId| n.match_index.contains_key(p) && n.match_index[p] >= k;
    assert(f =~= g);
}

/// Commit progress and commit safety: once a leader learns that a peer holds everything
/// through `hint`, everything is committed through the last entry of the leader's own term
/// that it and the peers known to hold it make more than half of the cluster for, and
/// nothing past it.
pub proof fn confirmations_commit_what_a_majority_holds(
    n: NodeView,
    peer: NodeId,
    hint: LogIndex,
    reply: AppendEntriesReply,
    installed: InstallSnapshotReply,
)
    requires
        n.wf(),
        n.in_order(),
        n.role == Role::Leader,
        hint < LogIndex::MAX,
        reply.term == n.current_term,
        reply.success,
        installed.term == n.current_term,
    ensures
        ({
            let after = n.on_append_reply(peer, reply, hint);
            commits_what_a_majority_holds(n, n.log, after.match_index, after.commit_index)
        }),
        ({
            let after = n.on_install_reply(peer, installed, hint);
            commits_what_a_majority_holds(n, n.log, after.match_index, after.commit_index)
        }),
{
    let matched = if n.matched(peer) >= hint {
        n.matched(peer)
    } else {
        hint
    };
    let told = NodeView {
        match_index: n.match_index.insert(peer, matched),
        next_index: n.next_index.insert(peer, (matched + 1) as LogIndex),
        ..n
    };
    lemma_advance(told);
}

/// An entry that every member of a majority has confirmed is committed, whichever of the
/// confirmations comes last: stated of the node that has just learned of it.
pub proof fn a_confirmed_entry_is_committed(
    n: NodeView,
    peer: NodeId,
    hint: LogIndex,
    reply: AppendEntriesReply,
    index: int,
)
    requires
        n.wf(),
        n.in_order(),
        n.role == Role::Leader,
        hint < LogIndex::MAX,
        reply.term == n.current_term,
        reply.success,
        n.commit_index < index <= n.log.snapshot_index + n.log.entries.len(),
        n.log.entries[index - n.log.snapshot_index - 1].term == n.current_term,
        2 * (1 + n.peers.filter(
            |p: NodeId|
                if p == peer && hint >= index {
                    true
                } else {
                    n.match_index.contains_key(p) && n.match_index[p] >= index
                },
        ).len()) > n.peers.len() + 1,
    ensures
        n.on_append_reply(peer, reply, hint).commit_index >= index,
{
    confirmations_commit_what_a_majority_holds(
        n,
        peer,
        hint,
        reply,
        InstallSnapshotReply { term: n.current_term },
    );
    let after = n.on_append_reply(peer, reply, hint);
    let f = |p: NodeId|
        if p == peer && hint >= index {
            true
        } else {
            n.match_index.contains_key(p) && n.match_index[p] >= index
        };
    let g = |p: NodeId| after.match_index.contains_key(p) && after.match_index[p] >= index;
    assert forall|p: NodeId| #[trigger] f(p) == g(p) by {}
    assert(f =~= g);
    assert(has_term_at(n.log, index, n.current_term));
    assert(on_more_than_half(n.peers, after.match_index, index));
}

/// A command that is submitted to a leader becomes the last entry of its log, of its
/// term; it is committed at once where the leader alone is a majority.
pub proof fn submitted_commands_go_last(n: NodeView, command: Seq<u8>)
    requires
        n.wf(),
        n.in_order(),
        n.log.last_index() + 1 < LogIndex::MAX,
    ensures
        ({
            let after = n.submit_command(command);
            &&& after.log.entries == n.log.entries.push(
                EntryView { term: n.current_term, command },
            )
            &&& after.log.snapshot_index == n.log.snapshot_index
            &&& after.log.snapshot_term == n.log.snapshot_term
            &&& commits_what_a_majority_holds(n, after.log, n.match_index, after.commit_index)
            &&& after == (NodeView { log: after.log, commit_index: after.commit_index, ..n })
        }),
{
    lemma_advance(
        NodeView { log: n.log.append(EntryView { term: n.current_term, command }), ..n },
    );
}

/// One round of replication: where a follower accepts what the leader has for it, it has
/// the leader's last entry too, and learns of everything that the leader has committed;
/// and the leader, told of the success, knows that the follower has it all.
pub proof fn one_round_brings_a_follower_up_to_date(
    lead: NodeView,
    f: NodeView,
    now: Instant,
    deadline: Instant,
)
    requires
        lead.wf(),
        lead.in_order(),
        f.wf(),
        f.in_order(),
        lead.role == Role::Leader,
        lead.next_index.contains_key(f.id),
        lead.log.snapshot_index < lead.next_index[f.id] <= lead.log.snapshot_index
            + lead.log.entries.len() + 1,
        f.log.last_index() + lead.log.entries.len() < LogIndex::MAX,
        f.on_append_entries(lead.append_args_for(f.id), now, deadline).1.success,
    ensures
        ({
            let args = lead.append_args_for(f.id);
            let (after, reply) = f.on_append_entries(args, now, deadline);
            let last = lead.log.snapshot_index + lead.log.entries.len();
            let hint = (args.prev_log_index + args.entries.len()) as LogIndex;
            &&& hint == last
            &&& after.log.snapshot_index + after.log.entries.len() >= last || last
                <= f.log.snapshot_index
            &&& after.commit_index >= lead.commit_index
            &&& reply.term == lead.current_term ==> {
                let told = lead.on_append_reply(f.id, reply, hint);
                told.match_index.contains_key(f.id) && told.match_index[f.id] >= last
            }
        }),
{
    let args = lead.append_args_for(f.id);
    leaders_send_all_that_a_peer_lacks(lead, f.id);
    let first = lemma_first_difference(f.log, args.prev_log_index, args.entries, 0);
    accepted_entries_are_stored(f, args, now, deadline, first);
    if args.entries.len() > 0 && lead.log.last_index() > f.log.snapshot_index {
        every_accepted_entry_is_there(f, args, now, deadline, args.entries.len() - 1);
    }
    entries_are_accepted_where_they_fit(f, args, now, deadline);
}

// ---- snapshots ----
/// A snapshot that the state machine hands over is taken exactly where it goes past the
/// last and covers nothing that was not applied. The log then starts behind it, with all
/// the entries past it as they were; the boundary has the term of the entry that was
/// there; and nothing else changes.
pub proof fn snapshots_replace_what_they_cover(n: NodeView, index: LogIndex, data: Seq<u8>)
    requires
        n.wf(),
        n.last_applied <= n.log.snapshot_index + n.log.entries.len(),
    ensures
        ({
            let after = n.take_snapshot(index, data);
            let cut = index - n.log.snapshot_index;
            &&& !(n.log.snapshot_index < index <= n.last_applied) ==> after == n
            &&& n.log.snapshot_index < index <= n.last_applied ==> after == (NodeView {
                log: LogView {
                    snapshot_index: index,
                    snapshot_term: n.log.entries[cut - 1].term,
                    entries: n.log.entries.subrange(cut, n.log.entries.len() as int),
                },
                snapshot: Some(data),
                ..n
            })
        }),
{
    let cut = index - n.log.snapshot_index;
    if n.log.snapshot_index < index <= n.last_applied {
        assert(n.take_snapshot(index, data).log.entries =~= n.log.entries.subrange(
            cut,
            n.log.entries.len() as int,
        ));
    }
}

/// A snapshot from the leader is installed exactly where it covers more than was applied.
/// The node then resumes behind it, hands it to the state machine, and keeps of its log
/// what follows, if it has the snapshot's last entry with the same term; else nothing.
/// What was committed in a tail that is kept stays so.
pub proof fn installed_snapshots_replace_what_they_cover(
    n: NodeView,
    args: InstallView,
    now: Instant,
    deadline: Instant,
)
    requires
        n.wf(),
        n.in_order(),
        args.term >= n.current_term,
        args.last_included_index < LogIndex::MAX,
    ensures
        ({
            let (after, reply) = n.on_install_snapshot(args, now, deadline);
            let index = args.last_included_index;
            let cut = index - n.log.snapshot_index;
            let kept = has_term_at(n.log, index as int, args.last_included_term);
            &&& reply.term == args.term
            &&& after.last_leader_contact == now
            &&& index <= n.last_applied ==> {
                &&& after.log == n.log
                &&& after.snapshot == n.snapshot
                &&& after.commit_index == n.commit_index
                &&& after.last_applied == n.last_applied
                &&& after.pending_snapshot == n.pending_snapshot
            }
            &&& index > n.last_applied ==> {
                &&& after.log.snapshot_index == index
                &&& after.log.snapshot_term == args.last_included_term
                &&& after.log.entries == (if kept {
                    n.log.entries.subrange(cut, n.log.entries.len() as int)
                } else {
                    Seq::<EntryView>::empty()
                })
                &&& after.snapshot == Some(args.data)
                &&& after.last_applied == index
                &&& after.commit_index == (if kept && n.commit_index > index {
                    n.commit_index
                } else {
                    index
                })
                &&& after.pending_snapshot == Some(
                    SnapshotView {
                        last_included_index: index,
                        last_included_term: args.last_included_term,
                        data: args.data,
                    },
                )
            }
        }),
{
    let index = args.last_included_index;
    let cut = index - n.log.snapshot_index;
    if index > n.last_applied && has_term_at(n.log, index as int, args.last_included_term) {
        assert(n.on_install_snapshot(args, now, deadline).0.log.entries
            =~= n.log.entries.subrange(cut, n.log.entries.len() as int));
    }
}

/// What a crash leaves: term, vote, log and snapshot are as they were; the node follows
/// nobody yet, resumes at its snapshot, and has the snapshot to hand over, if it has one.
pub proof fn restarts_resume_what_was_saved(n: NodeView, now: Instant, deadline: Instant)
    ensures
        ({
            let after = NodeView::restored(
                n.id,
                n.peers,
                n.timing,
                n.persistent(),
                now,
                deadline,
            );
            &&& after.id == n.id
            &&& after.peers == n.peers
            &&& after.timing == n.timing
            &&& after.current_term == n.current_term
            &&& after.voted_for == n.voted_for
            &&& after.log == n.log
            &&& after.snapshot == n.snapshot
            &&& after.role == Role::Follower
            &&& after.leader_id is None
            &&& after.commit_index == n.log.snapshot_index
            &&& after.last_applied == n.log.snapshot_index
            &&& after.votes == Set::<NodeId>::empty()
            &&& !after.pre_candidate
            &&& after.last_leader_contact == now
            &&& after.election_deadline == deadline
            &&& after.pending_snapshot is Some <==> n.snapshot is Some
            &&& n.snapshot matches Some(data) ==> after.pending_snapshot == Some(
                SnapshotView {
                    last_included_index: n.log.snapshot_index,
                    last_included_term: n.log.snapshot_term,
                    data,
                },
            )
        }),
{
}

/// What the state machine is handed: a snapshot that waits comes first, then every entry
/// that is committed and was not handed over, one by one and as the log has it. After
/// that, all that is committed counts as applied, and nothing waits.
pub proof fn what_is_committed_is_handed_over(n: NodeView, k: int)
    requires
        n.wf(),
        n.in_order(),
    ensures
        ({
            let items = n.due();
            let ahead: int = if n.pending_snapshot is Some {
                1
            } else {
                0
            };
            let after = n.take_applies();
            &&& items.len() == ahead + n.commit_index - n.last_applied
            &&& n.pending_snapshot matches Some(p) ==> items[0] == ApplyView::Snapshot(p)
            &&& n.last_applied < k <= n.commit_index ==> {
                let entry = n.log.entries[k - n.log.snapshot_index - 1];
                items[ahead + k - n.last_applied - 1] == (ApplyView::Command {
                    index: k as LogIndex,
                    term: entry.term,
                    command: entry.command,
                })
            }
            &&& after.last_applied == n.commit_index
            &&& after.pending_snapshot is None
            &&& after == (NodeView {
                last_applied: after.last_applied,
                pending_snapshot: None,
                ..n
            })
        }),
{
}

} // verus!
