//! The client's decisions.

use murmur::app::Refusal;
use murmur::clerk::{retryable, Clerk, Next, Reply};
use murmur::raft::Instant;
use murmur::status::Code;

fn at(millis: u64) -> Instant {
    Instant { nanos: millis * 1_000_000 }
}

fn clerk(n: usize) -> Clerk {
    Clerk::new((0..n).map(|i| format!("node{i}")).collect()).unwrap()
}

#[test]
fn a_clerk_needs_an_endpoint() {
    assert!(Clerk::new(Vec::new()).is_none());
    assert_eq!(clerk(1).endpoint(), "node0");
}

#[test]
fn registration_moves_on_until_a_node_answers() {
    let mut c = clerk(3);
    assert_eq!(c.client_id(), 0);
    let deadline = Clerk::deadline(at(0));
    assert_eq!(deadline, at(10_000));
    assert_eq!(c.on_register(None, deadline, at(1)), Next::Retry);
    assert_eq!(c.endpoint(), "node1");
    assert_eq!(c.on_register(Some(77), deadline, at(2)), Next::Return);
    assert_eq!(c.client_id(), 77);
    // The node that answered is tried first from now on.
    assert_eq!(c.current(), 1);
    assert_eq!(c.on_register(None, deadline, at(10_000)), Next::TimedOut);
}

#[test]
fn a_retry_reuses_the_seq_and_tries_the_next_node() {
    let mut c = clerk(3);
    c.on_register(Some(5), at(10_000), at(0));
    let attempt = c.begin(at(0));
    assert_eq!((attempt.client_id, attempt.seq, attempt.deadline), (5, 1, at(10_000)));
    let mut visited = vec![c.current()];
    for reply in [
        Reply::Unreachable,
        Reply::Failed(Code::FailedPrecondition),
        Reply::Failed(Code::Unavailable),
    ] {
        assert_eq!(c.on_reply(reply, &attempt, at(100)), Next::Retry);
        visited.push(c.current());
    }
    // Everyone gets a turn, then it starts over.
    assert_eq!(visited, vec![0, 1, 2, 0]);
    assert_eq!(c.on_reply(Reply::Done, &attempt, at(20_000)), Next::Return);
    // Only a new operation takes a new seq.
    assert_eq!(c.seq(), 1);
    assert_eq!(c.begin(at(0)).seq, 2);
    assert_eq!(c.seq(), 2);
}

#[test]
fn other_errors_and_the_deadline_end_an_operation() {
    let mut c = clerk(2);
    let attempt = c.begin(at(0));
    assert_eq!(c.on_reply(Reply::Failed(Code::Internal), &attempt, at(1)), Next::Fail);
    assert_eq!(c.on_reply(Reply::Unreachable, &attempt, at(9_999)), Next::Retry);
    assert_eq!(c.on_reply(Reply::Unreachable, &attempt, at(10_000)), Next::TimedOut);
    assert_eq!(c.current(), 1);
}

#[test]
fn only_two_codes_are_retryable() {
    let all = [
        Code::Success,
        Code::Cancelled,
        Code::Unknown,
        Code::InvalidArgument,
        Code::DeadlineExceeded,
        Code::NotFound,
        Code::AlreadyExists,
        Code::PermissionDenied,
        Code::ResourceExhausted,
        Code::FailedPrecondition,
        Code::Aborted,
        Code::OutOfRange,
        Code::Unimplemented,
        Code::Internal,
        Code::Unavailable,
        Code::DataLoss,
        Code::Unauthenticated,
    ];
    let some: Vec<Code> = all.into_iter().filter(|c| retryable(*c)).collect();
    assert_eq!(some, vec![Code::FailedPrecondition, Code::Unavailable]);
}

#[test]
fn refusals_are_worth_retrying() {
    assert!(retryable(Refusal::NotLeader(None).code()));
    assert!(retryable(Refusal::NotLeader(Some(3)).code()));
    assert!(retryable(Refusal::TimedOut.code()));
}
