//! The consensus state machine: elections, replication, repair, snapshots and
//! pre-votes.

use murmur::raft::{
    AppendEntriesArgs, AppendEntriesReply, Applied, Apply, ConsensusModule, InMemoryStorage,
    InstallSnapshotArgs, InstallSnapshotReply, Instant, Log, LogEntry, LogIndex, NodeId,
    PersistentState, RaftStorage, RequestVoteArgs, RequestVoteReply, Role, Snapshot, Term,
    Timing,
};

fn now() -> Instant {
    Instant { nanos: 1_000_000_000 }
}

fn module(id: NodeId, peers: Vec<NodeId>) -> ConsensusModule<InMemoryStorage> {
    ConsensusModule::new(
        id,
        peers,
        Box::new(InMemoryStorage::new()),
        Timing::default(),
        now(),
    )
    .unwrap()
}

/// Keep only the command applies (dropping any snapshot deliveries), so tests
/// that care about committed entries can address them positionally.
fn commands(applies: Vec<Apply>) -> Vec<Applied> {
    applies
        .into_iter()
        .filter_map(|a| match a {
            Apply::Command(c) => Some(c),
            Apply::Snapshot(_) => None,
        })
        .collect()
}

#[test]
fn starting_an_election_bumps_term_and_self_votes() {
    let mut cm = module(1, vec![2, 3]);
    let args = cm.start_election(now());
    assert_eq!(args.term, 1);
    assert_eq!(cm.role(), Role::Candidate);
    assert_eq!(cm.current_term(), 1);
    // Self-vote alone is not a majority of 3.
    assert!(!cm.is_leader());
}

#[test]
fn majority_votes_win_leadership() {
    let mut cm = module(1, vec![2, 3]);
    cm.start_election(now());
    cm.record_vote_reply(2, RequestVoteReply { term: 1, vote_granted: true });
    // Two of three (self + node 2) is a majority.
    assert!(cm.is_leader());
    assert_eq!(cm.leader_id(), Some(1));
}

#[test]
fn a_node_votes_once_per_term() {
    let mut cm = module(1, vec![2, 3]);
    let now = now();
    let granted = cm.handle_request_vote(
        RequestVoteArgs { term: 5, candidate_id: 2, last_log_index: 0, last_log_term: 0, pre_vote: false },
        now,
    );
    assert!(granted.vote_granted);
    // A different candidate in the same term is refused.
    let refused = cm.handle_request_vote(
        RequestVoteArgs { term: 5, candidate_id: 3, last_log_index: 0, last_log_term: 0, pre_vote: false },
        now,
    );
    assert!(!refused.vote_granted);
}

#[test]
fn higher_term_makes_a_leader_step_down() {
    let mut cm = module(1, vec![2, 3]);
    cm.start_election(now());
    cm.record_vote_reply(2, RequestVoteReply { term: 1, vote_granted: true });
    assert!(cm.is_leader());

    // A heartbeat from a newer term forces us back to follower.
    let reply = cm.handle_append_entries(
        AppendEntriesArgs {
            term: 2,
            leader_id: 3,
            prev_log_index: 0,
            prev_log_term: 0,
            entries: vec![],
            leader_commit: 0,
        },
        now(),
    );
    assert!(reply.success);
    assert_eq!(cm.role(), Role::Follower);
    assert_eq!(cm.current_term(), 2);
    assert_eq!(cm.leader_id(), Some(3));
}

/// Drive `cm` to leadership of a 3-node cluster (self + one granted vote).
fn elect_leader(cm: &mut ConsensusModule<InMemoryStorage>) {
    cm.start_election(now());
    cm.record_vote_reply(2, RequestVoteReply { term: cm.current_term(), vote_granted: true });
    assert!(cm.is_leader());
}

/// Build a module whose persisted log already holds `terms`, at `current_term`.
fn module_with_log(id: NodeId, peers: Vec<NodeId>, current_term: Term, terms: &[Term]) -> ConsensusModule<InMemoryStorage> {
    let mut storage = InMemoryStorage::new();
    let log = Log::from_entries(terms.iter().map(|&t| LogEntry::new(t, vec![])).collect());
    storage
        .save(&PersistentState { current_term, voted_for: None, log, snapshot: None })
        .unwrap();
    ConsensusModule::new(id, peers, Box::new(storage), Timing::default(), now()).unwrap()
}

#[test]
fn only_the_leader_accepts_commands() {
    let mut cm = module(1, vec![2, 3]);
    assert_eq!(cm.submit_command(b"noop".to_vec()), None); // follower rejects
    elect_leader(&mut cm);
    assert_eq!(cm.submit_command(b"set x=1".to_vec()), Some(1));
    assert_eq!(cm.last_log_index(), 1);
}

#[test]
fn commit_advances_once_a_majority_matches() {
    let mut cm = module(1, vec![2, 3]);
    elect_leader(&mut cm);
    cm.submit_command(b"a".to_vec());
    // Only the leader holds it: no majority yet.
    assert_eq!(cm.commit_index(), 0);

    // One peer acknowledges -> two of three hold it -> committed.
    cm.handle_append_reply(2, AppendEntriesReply::success(cm.current_term()), 1);
    assert_eq!(cm.commit_index(), 1);

    // The committed entry drains exactly once, in order.
    let applied = commands(cm.take_applies());
    assert_eq!(applied.len(), 1);
    assert_eq!(applied[0].index, 1);
    assert_eq!(applied[0].command, b"a");
    assert!(cm.take_applies().is_empty());
}

#[test]
fn a_leader_never_commits_a_prior_term_by_count_alone() {
    // Log holds one entry from term 1; we win term 2 with it already present.
    let mut cm = module_with_log(1, vec![2, 3], 1, &[1]);
    elect_leader(&mut cm); // now term 2, leader, log = [t1]

    // A majority replicates the old entry — but §5.4.2 forbids committing it
    // on replica count alone, so commit stays put.
    cm.handle_append_reply(2, AppendEntriesReply::success(cm.current_term()), 1);
    assert_eq!(cm.commit_index(), 0);

    // Appending and committing a current-term entry carries the old one with it.
    cm.submit_command(b"t2".to_vec()); // index 2, term 2
    cm.handle_append_reply(2, AppendEntriesReply::success(cm.current_term()), 2);
    assert_eq!(cm.commit_index(), 2);
    assert_eq!(commands(cm.take_applies()).len(), 2); // indices 1 and 2 both apply now
}

#[test]
fn rejected_append_backs_off_next_index() {
    // Two pre-existing entries, so on election next_index[peer] starts at 3.
    let mut cm = module_with_log(1, vec![2, 3], 5, &[5, 5]);
    elect_leader(&mut cm);
    assert_eq!(cm.append_args_for(2).prev_log_index, 2); // next_index[2] == 3

    let rejection = AppendEntriesReply::rejected(cm.current_term());
    cm.handle_append_reply(2, rejection.clone(), 0);
    // One decrement per rejection; floors at 1 (prev_log_index 0), never below.
    assert_eq!(cm.append_args_for(2).prev_log_index, 1);
    cm.handle_append_reply(2, rejection.clone(), 0);
    assert_eq!(cm.append_args_for(2).prev_log_index, 0);
    cm.handle_append_reply(2, rejection, 0);
    assert_eq!(cm.append_args_for(2).prev_log_index, 0); // stays at the floor
}

// ---- log-repair ----

#[test]
fn follower_hints_its_length_when_log_is_too_short() {
    // Follower holds one entry; leader probes an index beyond it.
    let mut f = module_with_log(2, vec![1, 3], 1, &[1]);
    let reply = f.handle_append_entries(
        AppendEntriesArgs {
            term: 1,
            leader_id: 1,
            prev_log_index: 3,
            prev_log_term: 1,
            entries: vec![],
            leader_commit: 0,
        },
        now(),
    );
    assert!(!reply.success);
    assert_eq!(reply.conflict_index, Some(2)); // first index we lack
    assert_eq!(reply.conflict_term, None); // length hint carries no term
}

#[test]
fn follower_hints_the_whole_conflicting_term() {
    // Terms 1,1,2,2 — a probe that mismatches at index 4 should rewind the
    // leader to the *start* of the conflicting term (index 3), not index 4.
    let mut f = module_with_log(2, vec![1, 3], 2, &[1, 1, 2, 2]);
    let reply = f.handle_append_entries(
        AppendEntriesArgs {
            term: 5,
            leader_id: 1,
            prev_log_index: 4,
            prev_log_term: 9, // we have term 2 there, not 9
            entries: vec![],
            leader_commit: 0,
        },
        now(),
    );
    assert!(!reply.success);
    assert_eq!(reply.conflict_term, Some(2));
    assert_eq!(reply.conflict_index, Some(3)); // first index of term 2
}

#[test]
fn leader_skips_past_its_own_copy_of_a_shared_term() {
    // Leader log terms 4,4,5: it shares term 4 with the follower.
    let mut cm = module_with_log(1, vec![2, 3], 5, &[4, 4, 5]);
    elect_leader(&mut cm);
    let term = cm.current_term();
    // Follower reports a conflict on term 4 starting at index 2.
    cm.handle_append_reply(
        2,
        AppendEntriesReply {
            term,
            success: false,
            conflict_index: Some(2),
            conflict_term: Some(4),
        },
        0,
    );
    // We hold term 4 through index 2, so resume at index 3 (prev_log_index 2).
    assert_eq!(cm.append_args_for(2).prev_log_index, 2);
}

#[test]
fn leader_adopts_follower_index_for_a_term_it_lacks() {
    let mut cm = module_with_log(1, vec![2, 3], 5, &[4, 4, 5]);
    elect_leader(&mut cm);
    let term = cm.current_term();
    // Conflict on term 9, which the leader has never seen.
    cm.handle_append_reply(
        2,
        AppendEntriesReply {
            term,
            success: false,
            conflict_index: Some(2),
            conflict_term: Some(9),
        },
        0,
    );
    // Fall all the way back to the follower's first index of that term.
    assert_eq!(cm.append_args_for(2).prev_log_index, 1); // next_index == 2
}

/// Replay one leader↔follower AppendEntries exchange at a time until the
/// follower accepts, mirroring what the driver does over the wire.
fn repair_until_success(leader: &mut ConsensusModule<InMemoryStorage>, follower: &mut ConsensusModule<InMemoryStorage>, follower_id: NodeId) {
    for _ in 0..64 {
        let args = leader.append_args_for(follower_id);
        let match_hint = args.prev_log_index + args.entries.len() as u64;
        let reply = follower.handle_append_entries(args, now());
        let success = reply.success;
        leader.handle_append_reply(follower_id, reply, match_hint);
        if success {
            return;
        }
    }
    panic!("logs did not converge within the round budget");
}

#[test]
fn a_divergent_follower_converges_to_the_leaders_log() {
    // Raft paper, Figure 7, case (f): the follower has a long divergent tail
    // (terms 2 and 3) that must be erased and replaced by the leader's.
    let mut leader = module_with_log(1, vec![2], 6, &[1, 1, 1, 4, 4, 5, 5, 6, 6, 6]);
    elect_leader(&mut leader);
    let mut follower = module_with_log(2, vec![1], 3, &[1, 1, 1, 2, 2, 2, 3, 3, 3, 3, 3]);

    repair_until_success(&mut leader, &mut follower, 2);

    // Byte-for-byte identical logs: the conflicting suffix is gone and the
    // leader's entries (now at the leader's election term) are in place.
    assert_eq!(follower.log_entries(), leader.log_entries());
}

#[test]
fn stale_term_rpcs_are_rejected() {
    let mut cm = module(1, vec![2, 3]);
    cm.start_election(now()); // now at term 1
    let vote = cm.handle_request_vote(
        RequestVoteArgs { term: 0, candidate_id: 2, last_log_index: 0, last_log_term: 0, pre_vote: false },
        now(),
    );
    assert!(!vote.vote_granted);
    let append = cm.handle_append_entries(
        AppendEntriesArgs {
            term: 0,
            leader_id: 2,
            prev_log_index: 0,
            prev_log_term: 0,
            entries: vec![],
            leader_commit: 0,
        },
        now(),
    );
    assert!(!append.success);
}

// ---- snapshotting / compaction ----

#[test]
fn snapshotting_compacts_the_log_and_keeps_serving() {
    let mut cm = module(1, vec![2, 3]);
    elect_leader(&mut cm); // term 1
    for cmd in [b"a", b"b", b"c"] {
        cm.submit_command(cmd.to_vec());
    }
    // A majority replicates through index 3, committing and applying it.
    cm.handle_append_reply(2, AppendEntriesReply::success(cm.current_term()), 3);
    assert_eq!(cm.commit_index(), 3);
    assert_eq!(commands(cm.take_applies()).len(), 3);

    // Snapshot through index 2: the tail shrinks but absolute indexing holds.
    cm.snapshot(2, b"snap@2".to_vec());
    assert_eq!(cm.snapshot_index(), 2);
    assert_eq!(cm.raft_log_len(), 1); // only index 3 survives in the tail
    assert_eq!(cm.last_log_index(), 3);

    // The leader keeps appending and committing on top of the compacted log.
    cm.submit_command(b"d".to_vec()); // index 4
    cm.handle_append_reply(2, AppendEntriesReply::success(cm.current_term()), 4);
    assert_eq!(cm.commit_index(), 4);
    assert_eq!(commands(cm.take_applies()).len(), 1); // just index 4
}

#[test]
fn snapshotting_an_unapplied_or_stale_index_is_ignored() {
    let mut cm = module(1, vec![2, 3]);
    elect_leader(&mut cm);
    cm.submit_command(b"a".to_vec()); // index 1, not yet applied
    cm.snapshot(1, b"x".to_vec()); // index 1 > last_applied (0): ignored
    assert_eq!(cm.snapshot_index(), 0);
    assert_eq!(cm.raft_log_len(), 1);
}

#[test]
fn a_follower_installs_a_snapshot_and_queues_it_for_apply() {
    // Follower holds a short two-entry log the leader has long since compacted.
    let mut f = module_with_log(2, vec![1, 3], 4, &[1, 1]);
    let reply = f.handle_install_snapshot(
        InstallSnapshotArgs {
            term: 5,
            leader_id: 1,
            last_included_index: 6,
            last_included_term: 4,
            data: b"leader-state".to_vec(),
        },
        now(),
    );
    assert_eq!(reply.term, 5); // adopted the leader's newer term
    assert_eq!(f.current_term(), 5);
    assert_eq!(f.leader_id(), Some(1));
    // The snapshot supersedes the whole short log; cursors jump to its boundary.
    assert_eq!(f.snapshot_index(), 6);
    assert_eq!(f.last_log_index(), 6);
    assert_eq!(f.commit_index(), 6);
    assert_eq!(f.last_applied(), 6);

    // It is delivered exactly once, with no stale command trailing it.
    let applies = f.take_applies();
    assert_eq!(applies.len(), 1);
    match &applies[0] {
        Apply::Snapshot(s) => {
            assert_eq!(s.last_included_index, 6);
            assert_eq!(s.data, b"leader-state");
        }
        other => panic!("expected a snapshot delivery, got {other:?}"),
    }
}

#[test]
fn a_stale_snapshot_is_rejected_without_regressing() {
    // We have already committed and applied through index 3.
    let mut cm = module(1, vec![2, 3]);
    elect_leader(&mut cm);
    for cmd in [b"a", b"b", b"c"] {
        cm.submit_command(cmd.to_vec());
    }
    cm.handle_append_reply(2, AppendEntriesReply::success(cm.current_term()), 3);
    commands(cm.take_applies());
    assert_eq!(cm.commit_index(), 3);

    // A snapshot only reaching index 2 must not roll our applied state back.
    cm.handle_install_snapshot(
        InstallSnapshotArgs {
            term: cm.current_term(),
            leader_id: 1,
            last_included_index: 2,
            last_included_term: 1,
            data: b"old".to_vec(),
        },
        now(),
    );
    assert_eq!(cm.commit_index(), 3);
    assert_eq!(cm.snapshot_index(), 0); // nothing compacted
    assert!(cm.take_applies().is_empty()); // no spurious re-delivery
}

#[test]
fn install_snapshot_reply_advances_the_peer_view() {
    let mut cm = module(1, vec![2, 3]);
    elect_leader(&mut cm);
    // We shipped peer 2 a snapshot through index 7; the reply moves its cursor.
    cm.handle_install_snapshot_reply(2, InstallSnapshotReply { term: cm.current_term() }, 7);
    assert_eq!(cm.append_args_for(2).prev_log_index, 7); // next_index[2] == 8
}

#[test]
fn a_restart_with_a_snapshot_replays_no_prefix_and_delivers_it() {
    let mut storage = InMemoryStorage::new();
    let log = Log::from_parts(5, 3, vec![LogEntry::new(3, b"tail".to_vec())]);
    storage
        .save(&PersistentState {
            current_term: 4,
            voted_for: Some(1),
            log,
            snapshot: Some(b"restored-image".to_vec()),
        })
        .unwrap();
    let mut cm =
        ConsensusModule::new(2, vec![1, 3], Box::new(storage), Timing::default(), now())
            .unwrap();

    // Cursors resume at the snapshot boundary — the compacted prefix, which no
    // longer exists, is never replayed.
    assert_eq!(cm.snapshot_index(), 5);
    assert_eq!(cm.commit_index(), 5);
    assert_eq!(cm.last_applied(), 5);
    assert_eq!(cm.last_log_index(), 6);

    // The loaded snapshot is delivered so the app can restore volatile state.
    let applies = cm.take_applies();
    assert_eq!(applies.len(), 1);
    assert!(matches!(applies[0], Apply::Snapshot(_)));
}

// ---- pre-vote / anti-disruption ----

fn pre_vote(term: Term, candidate: NodeId, last_index: LogIndex, last_term: Term) -> RequestVoteArgs {
    RequestVoteArgs {
        term,
        candidate_id: candidate,
        last_log_index: last_index,
        last_log_term: last_term,
        pre_vote: true,
    }
}

#[test]
fn a_pre_vote_is_denied_while_a_leader_is_live_and_changes_nothing() {
    let mut cm = module(1, vec![2, 3]);
    // A heartbeat from leader 2 resets our election timer: we hear a leader.
    cm.handle_append_entries(
        AppendEntriesArgs {
            term: 4,
            leader_id: 2,
            prev_log_index: 0,
            prev_log_term: 0,
            entries: vec![],
            leader_commit: 0,
        },
        now(),
    );
    assert_eq!(cm.current_term(), 4);

    // A pre-vote arriving now is refused (our timer hasn't expired), and it
    // must not perturb our term, vote, or role.
    let reply = cm.handle_request_vote(pre_vote(5, 3, 0, 0), now());
    assert!(!reply.vote_granted);
    assert_eq!(reply.term, 4);
    assert_eq!(cm.current_term(), 4); // no term inflation from the probe
    assert_eq!(cm.role(), Role::Follower);
}

#[test]
fn a_pre_vote_is_granted_once_the_leader_is_gone() {
    let mut cm = module(1, vec![2, 3]);
    // Simulate the election timer having expired by asking with a future `now`.
    let later = Instant { nanos: now().nanos + 10_000_000_000 };
    let reply = cm.handle_request_vote(pre_vote(1, 2, 0, 0), later);
    assert!(reply.vote_granted);
    assert_eq!(cm.current_term(), 0); // still no state change — a grant is a promise
    assert_eq!(cm.voted_for(), None);
}

#[test]
fn a_pre_vote_from_a_stale_log_is_denied() {
    // We hold two entries; a pre-candidate with an empty log is not up-to-date,
    // so it is denied even though our timer has expired.
    let mut cm = module_with_log(1, vec![2, 3], 5, &[5, 5]);
    let later = Instant { nanos: now().nanos + 10_000_000_000 };
    let reply = cm.handle_request_vote(pre_vote(6, 2, 0, 0), later);
    assert!(!reply.vote_granted);
}

#[test]
fn a_pre_vote_majority_promotes_to_a_real_election() {
    let mut cm = module(1, vec![2, 3]);
    cm.start_pre_election(now());
    assert!(!cm.pre_vote_succeeded()); // only our own pre-vote so far
    assert_eq!(cm.current_term(), 0); // pre-campaigning never bumps the term

    cm.record_pre_vote_reply(2, RequestVoteReply { term: 0, vote_granted: true });
    assert!(cm.pre_vote_succeeded()); // self + node 2 is a majority of three

    // Only the real election that follows advances the term and self-votes.
    let args = cm.start_election(now());
    assert_eq!(args.term, 1);
    assert!(!args.pre_vote);
    assert_eq!(cm.current_term(), 1);
    assert_eq!(cm.role(), Role::Candidate);
}

#[test]
fn a_pre_candidate_yields_to_a_higher_term() {
    let mut cm = module(1, vec![2, 3]);
    cm.start_pre_election(now());
    // A reply revealing a newer term means real leadership exists elsewhere.
    cm.record_pre_vote_reply(2, RequestVoteReply { term: 7, vote_granted: false });
    assert_eq!(cm.current_term(), 7);
    assert!(!cm.pre_vote_succeeded());
    assert_eq!(cm.role(), Role::Follower);
}

/// Node 2 of three, with entries of term 1 through `last`, committed but not
/// handed to the state machine.
fn committed_follower(last: u64) -> ConsensusModule<InMemoryStorage> {
    let mut f = module(2, vec![1, 3]);
    let reply = f.handle_append_entries(
        AppendEntriesArgs {
            term: 1,
            leader_id: 1,
            prev_log_index: 0,
            prev_log_term: 0,
            entries: (0..last).map(|_| LogEntry::new(1, vec![])).collect(),
            leader_commit: last,
        },
        now(),
    );
    assert!(reply.success);
    assert_eq!((f.commit_index(), f.last_applied()), (last, 0));
    f
}

fn install(index: LogIndex, term: Term) -> InstallSnapshotArgs {
    InstallSnapshotArgs {
        term: 1,
        leader_id: 1,
        last_included_index: index,
        last_included_term: term,
        data: vec![7],
    }
}

#[test]
fn a_snapshot_of_what_is_committed_but_not_applied_is_installed() {
    let mut f = committed_follower(2);
    f.handle_install_snapshot(install(2, 1), now());
    assert_eq!(f.snapshot_index(), 2);
    assert_eq!(f.last_applied(), 2);
    assert_eq!(f.commit_index(), 2);
    assert_eq!(
        f.take_applies(),
        vec![Apply::Snapshot(Snapshot {
            last_included_index: 2,
            last_included_term: 1,
            data: vec![7],
        })]
    );
    // Once it is applied, the same snapshot is stale.
    f.handle_install_snapshot(install(2, 1), now());
    assert!(f.take_applies().is_empty());
}

#[test]
fn what_is_committed_past_a_snapshot_stays_committed() {
    let mut f = committed_follower(4);
    f.handle_install_snapshot(install(2, 1), now());
    assert_eq!((f.snapshot_index(), f.last_applied()), (2, 2));
    assert_eq!((f.commit_index(), f.last_log_index()), (4, 4));
    let applies = f.take_applies();
    assert_eq!(applies.len(), 3);
    assert!(matches!(applies[0], Apply::Snapshot(_)));
    let indices: Vec<LogIndex> = commands(applies).iter().map(|c| c.index).collect();
    assert_eq!(indices, vec![3, 4]);

    // A snapshot that contradicts the log replaces all of it.
    let mut f = committed_follower(4);
    f.handle_install_snapshot(install(2, 9), now());
    assert_eq!((f.snapshot_index(), f.snapshot_term(), f.last_log_index()), (2, 9, 2));
    assert_eq!((f.commit_index(), f.last_applied()), (2, 2));
}

#[test]
fn a_contradicting_snapshot_through_the_commit_index_moves_nothing_back() {
    let mut f = committed_follower(4);
    f.handle_install_snapshot(install(4, 9), now());
    assert_eq!((f.snapshot_index(), f.last_applied()), (4, 4));
    assert_eq!((f.commit_index(), f.last_log_index()), (4, 4));
}

#[test]
fn handovers_continue_where_the_last_ended() {
    let mut f = committed_follower(2);
    let indices = |applies: Vec<Apply>| -> Vec<LogIndex> {
        commands(applies).iter().map(|c| c.index).collect()
    };
    assert_eq!(indices(f.take_applies()), vec![1, 2]);
    assert!(f.take_applies().is_empty());
    let more = |prev: LogIndex, n: u64| AppendEntriesArgs {
        term: 1,
        leader_id: 1,
        prev_log_index: prev,
        prev_log_term: 1,
        entries: (0..n).map(|_| LogEntry::new(1, vec![])).collect(),
        leader_commit: prev + n,
    };
    f.handle_append_entries(more(2, 3), now());
    assert_eq!(indices(f.take_applies()), vec![3, 4, 5]);
    // A snapshot covers what it skips.
    f.handle_install_snapshot(install(9, 1), now());
    f.handle_append_entries(more(9, 1), now());
    let applies = f.take_applies();
    assert!(matches!(&applies[0], Apply::Snapshot(s) if s.last_included_index == 9));
    assert_eq!(indices(applies), vec![10]);
}

#[test]
fn a_superseded_leader_appends_in_vain() {
    let mut old = module(1, vec![2, 3]);
    elect_leader(&mut old);
    let mut new = module(2, vec![1, 3]);
    new.handle_append_entries(old.append_args_for(2), now());
    new.start_election(now());
    new.record_vote_reply(3, RequestVoteReply { term: 2, vote_granted: true });
    assert_eq!(new.submit_command(b"write".to_vec()), Some(1));
    new.handle_append_reply(3, AppendEntriesReply::success(2), 1);
    assert_eq!(new.commit_index(), 1);

    // The old leader still takes commands, where the write already is.
    assert_eq!(old.submit_command(b"read".to_vec()), Some(1));
    assert!(old.handle_append_entries(new.append_args_for(1), now()).success);
    let applied = commands(old.take_applies());
    assert_eq!(applied.len(), 1);
    assert_eq!(applied[0].command, b"write".to_vec());
    // What the new one takes comes after.
    assert_eq!(new.submit_command(b"read".to_vec()), Some(2));
}
