//! One node: its driver, its timers and the promises it keeps by itself.

use murmur::raft::{
    fold_pre_vote, outbound, parse_peer, AppendEntriesArgs, AppendEntriesReply, Apply,
    ClusterConfig, ConsensusModule, Driver, Duration, InMemoryStorage, InstallSnapshotArgs,
    Instant, Log, LogEntry, Outbound, Peer, PeerError, PersistentState, RaftStorage,
    RequestVoteArgs, RequestVoteReply, Role, Step, StorageError, Timing,
};
use murmur::raft::storage::PersistentView;

const MILLI: u64 = 1_000_000;

fn at(millis: u64) -> Instant {
    Instant { nanos: millis * MILLI }
}

fn node(id: u64, peers: Vec<u64>) -> ConsensusModule<InMemoryStorage> {
    ConsensusModule::new(id, peers, Box::new(InMemoryStorage::new()), Timing::default(), at(0))
        .unwrap()
}

fn vote(term: u64, candidate_id: u64, pre_vote: bool) -> RequestVoteArgs {
    RequestVoteArgs { term, candidate_id, last_log_index: 0, last_log_term: 0, pre_vote }
}

fn heartbeat(term: u64, leader_id: u64) -> AppendEntriesArgs {
    AppendEntriesArgs {
        term,
        leader_id,
        prev_log_index: 0,
        prev_log_term: 0,
        entries: vec![],
        leader_commit: 0,
    }
}

fn entries(terms: &[u64]) -> Vec<LogEntry> {
    terms.iter().map(|t| LogEntry::new(*t, vec![*t as u8])).collect()
}

#[test]
fn timing_defaults() {
    let timing = Timing::default();
    assert_eq!(timing.election_min, Duration::from_millis(150));
    assert_eq!(timing.election_max, Duration::from_millis(300));
    assert_eq!(timing.heartbeat, Duration::from_millis(50));
}

#[test]
fn election_timeouts_are_drawn_from_their_range() {
    let timing = Timing::default();
    let mut seen = std::collections::BTreeSet::new();
    for _ in 0..500 {
        let drawn = timing.random_election_timeout();
        assert!((150..=300).contains(&drawn.as_millis()));
        assert_eq!(drawn.nanos % MILLI, 0);
        seen.insert(drawn.as_millis());
    }
    assert!(seen.len() > 20);
    let fixed = Timing {
        election_min: Duration::from_millis(7),
        election_max: Duration::from_millis(7),
        heartbeat: Duration::from_millis(1),
    };
    assert_eq!(fixed.random_election_timeout(), Duration::from_millis(7));
}

#[test]
fn election_timeouts_keep_to_bounds_between_milliseconds() {
    let half = Duration { nanos: 150 * MILLI + MILLI / 2 };
    let narrow = Timing { election_min: half, election_max: half, ..Timing::default() };
    assert_eq!(narrow.random_election_timeout(), half);
    let wide = Timing {
        election_min: half,
        election_max: Duration { nanos: 152 * MILLI + 1 },
        ..Timing::default()
    };
    let mut seen = std::collections::BTreeSet::new();
    for _ in 0..200 {
        seen.insert(wide.random_election_timeout().nanos);
    }
    assert_eq!(seen.into_iter().collect::<Vec<u64>>(), vec![half.nanos, 151 * MILLI, 152 * MILLI]);
    let cm = ConsensusModule::new(1, vec![2], Box::new(InMemoryStorage::new()), narrow, at(0));
    let cm = cm.unwrap();
    assert!(!cm.election_timed_out(Instant { nanos: half.nanos - 1 }));
    assert!(cm.election_timed_out(Instant { nanos: half.nanos }));
}

#[test]
fn every_draw_has_its_timeout() {
    let timing = Timing {
        election_min: Duration { nanos: 150 * MILLI + 1 },
        election_max: Duration { nanos: 152 * MILLI },
        ..Timing::default()
    };
    assert_eq!(timing.timeout_of(150), timing.election_min);
    assert_eq!(timing.timeout_of(151), Duration::from_millis(151));
    assert_eq!(timing.timeout_of(152), timing.election_max);
    assert_eq!(Timing::default().timeout_of(150), Duration::from_millis(150));
}

/// Where a node's election timer stands, found by bisection.
fn deadline(cm: &ConsensusModule<InMemoryStorage>) -> u64 {
    let (mut lo, mut hi) = (0, 1 << 40);
    while lo < hi {
        let mid = (lo + hi) / 2;
        if cm.election_timed_out(Instant { nanos: mid }) {
            hi = mid;
        } else {
            lo = mid + 1;
        }
    }
    lo
}

#[test]
fn only_some_calls_arm_the_election_timer() {
    let mut cm = node(1, vec![2, 3]);
    let in_range = |set: u64, now: u64| (now + 150) * MILLI <= set && set <= (now + 300) * MILLI;
    let first = deadline(&cm);
    assert!(in_range(first, 0));
    // Pre-votes, stale messages and denied votes do not.
    cm.handle_request_vote(vote(9, 2, true), at(1000));
    assert_eq!(deadline(&cm), first);
    assert!(cm.handle_request_vote(vote(2, 2, false), at(1000)).vote_granted);
    let granted = deadline(&cm);
    assert!(in_range(granted, 1000));
    assert!(!cm.handle_request_vote(vote(2, 3, false), at(2000)).vote_granted);
    cm.handle_append_entries(heartbeat(1, 3), at(2000));
    assert_eq!(deadline(&cm), granted);
    // Word from a leader does, also where the logs do not agree.
    let mut ahead = heartbeat(2, 2);
    ahead.prev_log_index = 5;
    assert!(!cm.handle_append_entries(ahead, at(3000)).success);
    assert!(in_range(deadline(&cm), 3000));
    cm.start_pre_election(at(5000));
    assert!(in_range(deadline(&cm), 5000));
    cm.start_election(at(7000));
    assert!(in_range(deadline(&cm), 7000));
    // A leader never times out.
    cm.record_vote_reply(2, RequestVoteReply { term: 3, vote_granted: true });
    assert!(!cm.election_timed_out(at(1_000_000)));
}

#[test]
fn timers_never_fire_early_and_always_in_the_end() {
    for _ in 0..50 {
        let cm = node(1, vec![2, 3]);
        assert!(!cm.election_timed_out(at(149)));
        assert!(cm.election_timed_out(at(300)));
    }
}

#[test]
fn a_heartbeat_puts_off_the_election() {
    let mut cm = node(1, vec![2, 3]);
    cm.handle_append_entries(heartbeat(1, 2), at(1000));
    assert!(!cm.election_timed_out(at(1149)));
    assert!(cm.election_timed_out(at(1300)));
    assert_eq!(cm.leader_id(), Some(2));
}

#[test]
fn a_lone_node_elects_itself_and_commits_at_once() {
    let mut cm = node(1, vec![]);
    let mut driver = Driver::new();
    assert_eq!(driver.tick(&mut cm, at(100)), Step::Idle);
    match driver.tick(&mut cm, at(400)) {
        Step::Election(args) => assert_eq!(args, vote(1, 1, false)),
        other => panic!("expected an election, got {other:?}"),
    }
    assert!(cm.is_leader());
    assert_eq!(cm.submit_command(b"x".to_vec()), Some(1));
    assert_eq!(cm.commit_index(), 1);
    let applies = cm.take_applies();
    assert_eq!(applies.len(), 1);
    assert!(cm.take_applies().is_empty());
}

#[test]
fn the_driver_probes_before_it_campaigns() {
    let mut cm = node(1, vec![2, 3]);
    let mut driver = Driver::default();
    match driver.tick(&mut cm, at(400)) {
        Step::PreElection(args) => assert_eq!(args, vote(1, 1, true)),
        other => panic!("expected a pre-election, got {other:?}"),
    }
    assert_eq!(cm.current_term(), 0);
    // Denied: nothing happens. Granted: a majority, so the campaign starts.
    let denied = RequestVoteReply { term: 0, vote_granted: false };
    assert_eq!(fold_pre_vote(&mut cm, 2, denied, at(401)), None);
    let granted = RequestVoteReply { term: 0, vote_granted: true };
    let args = fold_pre_vote(&mut cm, 2, granted, at(402)).unwrap();
    assert_eq!(args, vote(1, 1, false));
    assert_eq!(cm.role(), Role::Candidate);
    // Late pre-votes are of no account.
    assert_eq!(fold_pre_vote(&mut cm, 3, granted, at(403)), None);
    assert_eq!(cm.current_term(), 1);
}

#[test]
fn heartbeats_fire_at_once_and_then_at_their_interval() {
    let mut cm = node(1, vec![]);
    let mut driver = Driver::new();
    driver.tick(&mut cm, at(400));
    assert!(cm.is_leader());
    assert_eq!(driver.tick(&mut cm, at(401)), Step::Heartbeat);
    assert_eq!(driver.tick(&mut cm, at(450)), Step::Idle);
    assert_eq!(driver.tick(&mut cm, at(451)), Step::Heartbeat);
    assert_eq!(driver.last_heartbeat, Some(at(451)));
}

#[test]
fn the_leader_sends_entries_or_its_snapshot() {
    let mut cm = node(1, vec![2, 3]);
    cm.start_election(at(1));
    cm.record_vote_reply(2, RequestVoteReply { term: 1, vote_granted: true });
    cm.submit_command(b"a".to_vec());
    cm.submit_command(b"b".to_vec());
    match outbound(&cm, 2) {
        Outbound::Append { args, match_hint } => {
            assert_eq!(args.prev_log_index, 0);
            assert_eq!(args.entries.len(), 2);
            assert_eq!(match_hint, 2);
        }
        other => panic!("expected entries, got {other:?}"),
    }
    cm.handle_append_reply(2, AppendEntriesReply::success(1), 2);
    cm.take_applies();
    cm.snapshot(2, b"image".to_vec());
    // Peer 2 has it all; peer 3 needs what is gone.
    assert!(!cm.needs_snapshot(2));
    assert!(cm.needs_snapshot(3));
    match outbound(&cm, 3) {
        Outbound::Install { args } => assert_eq!(
            args,
            InstallSnapshotArgs {
                term: 1,
                leader_id: 1,
                last_included_index: 2,
                last_included_term: 1,
                data: b"image".to_vec(),
            }
        ),
        other => panic!("expected a snapshot, got {other:?}"),
    }
}

#[test]
fn a_delayed_reply_does_not_rewind_a_peer() {
    let mut cm = node(1, vec![2, 3]);
    cm.start_election(at(1));
    cm.record_vote_reply(2, RequestVoteReply { term: 1, vote_granted: true });
    for _ in 0..3 {
        cm.submit_command(vec![]);
    }
    cm.handle_append_reply(2, AppendEntriesReply::success(1), 3);
    cm.handle_append_reply(2, AppendEntriesReply::success(1), 1);
    assert_eq!(cm.append_args_for(2).prev_log_index, 3);
    assert_eq!(cm.commit_index(), 3);
}

#[test]
fn a_probe_touches_nothing_that_is_persisted() {
    let mut cm = node(1, vec![2, 3]);
    cm.handle_request_vote(vote(3, 2, false), at(1));
    cm.start_pre_election(at(500));
    assert_eq!(cm.current_term(), 3);
    assert_eq!(cm.voted_for(), Some(2));
    assert_eq!(cm.role(), Role::Follower);
    // Nor does answering one.
    let reply = cm.handle_request_vote(vote(9, 3, true), at(9000));
    assert!(reply.vote_granted);
    assert_eq!(reply.term, 3);
    assert_eq!(cm.current_term(), 3);
    assert_eq!(cm.voted_for(), Some(2));
}

#[test]
fn a_pre_candidate_still_pledges_to_others() {
    let mut cm = node(1, vec![2, 3]);
    cm.start_pre_election(at(500));
    assert!(cm.handle_request_vote(vote(1, 2, true), at(501)).vote_granted);
}

#[test]
fn a_leader_grants_no_pre_votes() {
    let mut cm = node(1, vec![]);
    cm.start_election(at(1));
    assert!(cm.is_leader());
    assert!(!cm.handle_request_vote(vote(9, 3, true), at(90_000)).vote_granted);
}

#[test]
fn stale_terms_change_nothing() {
    let mut cm = node(1, vec![2, 3]);
    cm.handle_append_entries(heartbeat(5, 2), at(1));
    let install = InstallSnapshotArgs {
        term: 4,
        leader_id: 3,
        last_included_index: 9,
        last_included_term: 4,
        data: vec![],
    };
    assert_eq!(cm.handle_install_snapshot(install, at(2)).term, 5);
    assert_eq!(cm.handle_append_entries(heartbeat(4, 3), at(2)), AppendEntriesReply::rejected(5));
    assert!(!cm.handle_request_vote(vote(4, 3, false), at(2)).vote_granted);
    assert_eq!(cm.leader_id(), Some(2));
    assert_eq!(cm.current_term(), 5);
    assert_eq!(cm.commit_index(), 0);
    assert_eq!(cm.snapshot_index(), 0);
}

#[test]
fn repeated_and_shorter_appends_leave_the_log() {
    let mut cm = node(2, vec![1, 3]);
    let full = AppendEntriesArgs {
        term: 2,
        leader_id: 1,
        prev_log_index: 0,
        prev_log_term: 0,
        entries: entries(&[1, 1, 2]),
        leader_commit: 1,
    };
    assert!(cm.handle_append_entries(full.clone(), at(1)).success);
    let log = cm.log_entries().to_vec();
    assert!(cm.handle_append_entries(full, at(2)).success);
    assert_eq!(cm.log_entries(), &log[..]);
    // A delayed message with fewer entries erases nothing.
    let short = AppendEntriesArgs {
        term: 2,
        leader_id: 1,
        prev_log_index: 0,
        prev_log_term: 0,
        entries: entries(&[1]),
        leader_commit: 3,
    };
    assert!(cm.handle_append_entries(short, at(3)).success);
    assert_eq!(cm.log_entries(), &log[..]);
    assert_eq!(cm.commit_index(), 3);
}

#[test]
fn a_contradiction_erases_the_rest_of_the_log() {
    let mut cm = node(2, vec![1, 3]);
    let mut first = heartbeat(1, 1);
    first.entries = entries(&[1, 1, 1]);
    cm.handle_append_entries(first, at(1));
    let mut second = heartbeat(2, 3);
    second.prev_log_index = 1;
    second.prev_log_term = 1;
    second.entries = entries(&[2]);
    assert!(cm.handle_append_entries(second, at(2)).success);
    assert_eq!(cm.log_entries(), &entries(&[1, 2])[..]);
}

#[test]
fn a_restart_resumes_from_what_was_saved() {
    let mut storage = InMemoryStorage::default();
    storage
        .save(&PersistentState {
            current_term: 6,
            voted_for: Some(3),
            log: Log::from_parts(4, 2, entries(&[5, 6])),
            snapshot: Some(b"image".to_vec()),
        })
        .unwrap();
    let mut cm =
        ConsensusModule::new(1, vec![2, 3], Box::new(storage), Timing::default(), at(0)).unwrap();
    assert_eq!(cm.current_term(), 6);
    assert_eq!(cm.voted_for(), Some(3));
    assert_eq!(cm.last_log_index(), 6);
    assert_eq!(cm.snapshot_term(), 2);
    let applies = cm.take_applies();
    assert_eq!(applies.len(), 1);
    match &applies[0] {
        Apply::Snapshot(s) => assert_eq!((s.last_included_index, s.last_included_term), (4, 2)),
        other => panic!("expected the snapshot, got {other:?}"),
    }
    // Its vote of term 6 is spent.
    let mut args = vote(6, 2, false);
    args.last_log_index = 9;
    args.last_log_term = 6;
    assert!(!cm.handle_request_vote(args, at(1)).vote_granted);
}

/// The node, started again from what it has saved.
fn restarted(cm: &ConsensusModule<InMemoryStorage>) -> ConsensusModule<InMemoryStorage> {
    let mut storage = InMemoryStorage::new();
    storage
        .save(&PersistentState {
            current_term: cm.current_term(),
            voted_for: cm.voted_for(),
            log: Log::from_parts(0, 0, vec![]),
            snapshot: None,
        })
        .unwrap();
    ConsensusModule::new(1, vec![2, 3], Box::new(storage), Timing::default(), at(0)).unwrap()
}

#[test]
fn a_restart_does_not_free_the_vote() {
    let mut cm = node(1, vec![2, 3]);
    assert!(cm.handle_request_vote(vote(4, 2, false), at(1)).vote_granted);
    let mut cm = restarted(&cm);
    assert!(!cm.handle_request_vote(vote(4, 3, false), at(1)).vote_granted);
    assert!(cm.handle_request_vote(vote(4, 2, false), at(1)).vote_granted);
    // A candidate has spent its vote on itself.
    cm.start_election(at(2));
    let mut cm = restarted(&cm);
    assert!(!cm.handle_request_vote(vote(5, 2, false), at(3)).vote_granted);
    // A newer term frees it.
    assert!(cm.handle_request_vote(vote(6, 3, false), at(3)).vote_granted);
}

#[test]
fn terms_follow_what_messages_carry() {
    let mut cm = node(1, vec![2, 3]);
    cm.start_election(at(1));
    assert_eq!(cm.current_term(), 1);
    cm.handle_request_vote(vote(8, 2, true), at(2));
    assert_eq!((cm.current_term(), cm.role()), (1, Role::Candidate));
    cm.record_pre_vote_reply(2, RequestVoteReply { term: 3, vote_granted: false });
    assert_eq!((cm.current_term(), cm.role(), cm.voted_for()), (3, Role::Follower, None));
    cm.handle_append_entries(heartbeat(2, 2), at(3));
    assert_eq!(cm.current_term(), 3);
    assert!(cm.handle_request_vote(vote(5, 3, false), at(4)).vote_granted);
    assert_eq!((cm.current_term(), cm.voted_for()), (5, Some(3)));
    cm.handle_append_reply(2, AppendEntriesReply::success(7), 0);
    assert_eq!((cm.current_term(), cm.voted_for()), (7, None));
}

/// Storage that fails when it is told to.
struct Flaky {
    inner: InMemoryStorage,
    broken: bool,
    unreadable: bool,
}

impl RaftStorage for Flaky {
    /// Stands in contracts only.
    fn stored(&self) -> PersistentView {
        unreachable!()
    }

    fn load(&self) -> Result<PersistentState, StorageError> {
        if self.unreadable {
            Err(StorageError { message: "unreadable".to_string() })
        } else {
            self.inner.load()
        }
    }

    fn save(&mut self, state: &PersistentState) -> Result<(), StorageError> {
        if self.broken {
            Err(StorageError { message: "disk full".to_string() })
        } else {
            self.inner.save(state)
        }
    }
}

#[test]
fn storage_failures_are_reported() {
    let unreadable = Flaky { inner: InMemoryStorage::new(), broken: false, unreadable: true };
    let r = ConsensusModule::new(1, vec![2], Box::new(unreadable), Timing::default(), at(0));
    assert_eq!(r.err(), Some(StorageError { message: "unreadable".to_string() }));

    let broken = Flaky { inner: InMemoryStorage::new(), broken: true, unreadable: false };
    let mut cm =
        ConsensusModule::new(1, vec![2], Box::new(broken), Timing::default(), at(0)).unwrap();
    assert!(cm.is_synced());
    cm.start_election(at(1));
    assert!(!cm.is_synced());
    assert_eq!(cm.take_save_failures(), vec![StorageError { message: "disk full".to_string() }]);
    assert!(cm.take_save_failures().is_empty());
}

#[test]
fn a_storage_object_can_stand_behind_the_trait() {
    let storage: Box<dyn RaftStorage> = Box::new(InMemoryStorage::new());
    let mut cm = ConsensusModule::new(1, vec![2, 3], storage, Timing::default(), at(0)).unwrap();
    assert_eq!(cm.start_election(at(1)).term, 1);
}

#[test]
fn cluster_configuration() {
    let config = ClusterConfig {
        id: 1,
        peers: vec![
            Peer { id: 2, addr: "127.0.0.1:6002".to_string() },
            Peer { id: 3, addr: "127.0.0.1:6003".to_string() },
        ],
    };
    assert_eq!(config.cluster_size(), 3);
    assert_eq!(config.peer_ids(), vec![2, 3]);
}

#[test]
fn peers_are_parsed() {
    let peer = parse_peer("2@127.0.0.1:6002").unwrap();
    assert_eq!((peer.id, peer.addr.as_str()), (2, "127.0.0.1:6002"));
    let odd = parse_peer("+007@a@b").unwrap();
    assert_eq!((odd.id, odd.addr.as_str()), (7, "a@b"));
    let greatest = parse_peer("18446744073709551615@").unwrap();
    assert_eq!((greatest.id, greatest.addr.as_str()), (u64::MAX, ""));
}

#[test]
fn bad_peers_are_turned_down() {
    for text in ["", "2", "127.0.0.1:6002"] {
        assert_eq!(parse_peer(text).err(), Some(PeerError::NoSeparator));
    }
    for text in
        ["@h:1", "+@h", "-1@h", "x@h", "1x@h", " 1@h", "++1@h", "18446744073709551616@h", "\u{663}@h"]
    {
        assert_eq!(parse_peer(text).err(), Some(PeerError::BadId));
    }
}
