//! The wire boundary of Raft.

use murmur::proto;
use murmur::raft::transport::{
    append_reply_from_pb, append_reply_to_pb, append_req_from_pb, append_req_to_pb,
    install_reply_from_pb, install_reply_to_pb, install_req_from_pb, install_req_to_pb,
    vote_reply_from_pb, vote_reply_to_pb, vote_req_from_pb, vote_req_to_pb,
};
use murmur::raft::{
    AppendEntriesArgs, AppendEntriesReply, ConsensusModule, InMemoryStorage, InstallSnapshotArgs,
    InstallSnapshotReply, Instant, Log, LogEntry, PersistentState, RaftService, RaftStorage,
    RequestVoteArgs, RequestVoteReply, Timing,
};

fn at(millis: u64) -> Instant {
    Instant { nanos: millis * 1_000_000 }
}

fn service(storage: InMemoryStorage) -> RaftService<InMemoryStorage> {
    let core =
        ConsensusModule::new(1, vec![2, 3], Box::new(storage), Timing::default(), at(0)).unwrap();
    RaftService::new(core)
}

#[test]
fn requests_survive_the_wire() {
    let vote = RequestVoteArgs {
        term: 7,
        candidate_id: 2,
        last_log_index: 9,
        last_log_term: 6,
        pre_vote: true,
    };
    assert_eq!(vote_req_from_pb(vote_req_to_pb(&vote)), vote);
    let append = AppendEntriesArgs {
        term: 7,
        leader_id: 2,
        prev_log_index: 3,
        prev_log_term: 4,
        entries: vec![LogEntry::new(5, b"x".to_vec()), LogEntry::new(7, vec![])],
        leader_commit: 2,
    };
    assert_eq!(append_req_from_pb(append_req_to_pb(&append)), append);
    let install = InstallSnapshotArgs {
        term: 7,
        leader_id: 2,
        last_included_index: 3,
        last_included_term: 4,
        data: b"image".to_vec(),
    };
    assert_eq!(install_req_from_pb(install_req_to_pb(&install)), install);
}

#[test]
fn replies_come_off_the_wire() {
    let vote = RequestVoteReply { term: 7, vote_granted: true };
    assert_eq!(vote_reply_from_pb(vote_reply_to_pb(&vote)), vote);
    let install = InstallSnapshotReply { term: 7 };
    assert_eq!(install_reply_from_pb(install_reply_to_pb(&install)), install);
    for reply in [
        AppendEntriesReply::success(7),
        AppendEntriesReply::rejected(7),
        AppendEntriesReply {
            term: 7,
            success: false,
            conflict_index: Some(3),
            conflict_term: Some(2),
        },
    ] {
        assert_eq!(append_reply_from_pb(append_reply_to_pb(&reply)), reply);
    }
}

#[test]
fn a_hint_without_a_term_serves_the_leader_as_well() {
    let hint = AppendEntriesReply {
        term: 5,
        success: false,
        conflict_index: Some(2),
        conflict_term: None,
    };
    let off_wire = append_reply_from_pb(append_reply_to_pb(&hint));
    assert_eq!(off_wire.conflict_term, Some(0));
    let mut prevs = Vec::new();
    for reply in [hint, off_wire] {
        let mut storage = InMemoryStorage::new();
        let log = Log::from_entries((0..4).map(|_| LogEntry::new(4, vec![])).collect());
        storage
            .save(&PersistentState { current_term: 4, voted_for: None, log, snapshot: None })
            .unwrap();
        let mut cm =
            ConsensusModule::new(1, vec![2, 3], Box::new(storage), Timing::default(), at(0))
                .unwrap();
        cm.start_election(at(1));
        cm.record_vote_reply(2, RequestVoteReply { term: 5, vote_granted: true });
        cm.handle_append_reply(2, reply, 0);
        prevs.push(cm.append_args_for(2).prev_log_index);
    }
    assert_eq!(prevs, vec![1, 1]);
}

#[test]
fn the_service_answers_requests() {
    let mut s = service(InMemoryStorage::new());
    let vote = proto::RequestVoteRequest {
        term: 2,
        candidate_id: 3,
        last_log_index: 0,
        last_log_term: 0,
        pre_vote: false,
    };
    let granted = s.request_vote(vote, at(1));
    assert_eq!(granted, proto::RequestVoteResponse { term: 2, vote_granted: true });
    let append = proto::AppendEntriesRequest {
        term: 2,
        leader_id: 3,
        prev_log_index: 4,
        prev_log_term: 1,
        entries: vec![],
        leader_commit: 0,
    };
    assert_eq!(
        s.append_entries(append, at(2)),
        Some(proto::AppendEntriesResponse {
            term: 2,
            success: false,
            has_conflict: true,
            conflict_index: 1,
            conflict_term: 0,
        })
    );
    let install = proto::InstallSnapshotRequest {
        term: 3,
        leader_id: 2,
        last_included_index: 4,
        last_included_term: 1,
        data: b"image".to_vec(),
    };
    assert_eq!(
        s.install_snapshot(install, at(3)),
        Some(proto::InstallSnapshotResponse { term: 3 })
    );
    assert_eq!(s.core.snapshot_index(), 4);
}

#[test]
fn requests_past_the_range_of_indices_are_refused() {
    let mut storage = InMemoryStorage::new();
    let log = Log::from_parts(u64::MAX - 2, 1, vec![]);
    storage
        .save(&PersistentState { current_term: 1, voted_for: None, log, snapshot: Some(vec![]) })
        .unwrap();
    let mut s = service(storage);
    let entry = proto::LogEntry { term: 9, command: vec![] };
    let append = proto::AppendEntriesRequest {
        term: 9,
        leader_id: 2,
        prev_log_index: u64::MAX - 2,
        prev_log_term: 1,
        entries: vec![entry.clone(), entry],
        leader_commit: 0,
    };
    assert_eq!(s.append_entries(append, at(1)), None);
    let install = proto::InstallSnapshotRequest {
        term: 9,
        leader_id: 2,
        last_included_index: u64::MAX,
        last_included_term: 1,
        data: vec![],
    };
    assert_eq!(s.install_snapshot(install, at(1)), None);
    assert_eq!(s.core.current_term(), 1);
}
