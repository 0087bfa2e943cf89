//! What becomes of a command, and what the client is told of it.

use vstd::prelude::*;

use crate::raft::types::{copy_optional_bytes, NodeId};
use crate::status::Code;
use crate::store::{StoreError, StoreErrorView};

verus! {

/// Why a command failed.
#[derive(Debug)]
pub enum Failure {
    /// The engine rejected the operation.
    Store(StoreError),
    /// The command's number stands for no operation.
    UnknownOp(i32),
}

/// What a [`Failure`] stands for.
pub enum FailureView {
    Store(StoreErrorView),
    UnknownOp(i32),
}

impl View for Failure {
    type V = FailureView;

    open spec fn view(&self) -> FailureView {
        match self {
            Failure::Store(e) => FailureView::Store(e@),
            Failure::UnknownOp(op) => FailureView::UnknownOp(*op),
        }
    }
}

impl Clone for Failure {
    fn clone(&self) -> (r: Self)
        ensures
            r@ == self@,
    {
        match self {
            Failure::Store(e) => Failure::Store(e.clone()),
            Failure::UnknownOp(op) => Failure::UnknownOp(*op),
        }
    }
}

/// The result of applying one command to the state machine.
#[derive(Debug)]
pub enum Outcome {
    /// The value found by a read (`None` if absent), or left by an append.
    Value(Option<Vec<u8>>),
    /// A write applied successfully.
    Done,
    /// Nothing was applied.
    Failed(Failure),
}

/// What an [`Outcome`] stands for.
pub enum OutcomeView {
    Value(Option<Seq<u8>>),
    Done,
    Failed(FailureView),
}

impl View for Outcome {
    type V = OutcomeView;

    open spec fn view(&self) -> OutcomeView {
        match self {
            Outcome::Value(v) => OutcomeView::Value(crate::raft::types::bytes_view(*v)),
            Outcome::Done => OutcomeView::Done,
            Outcome::Failed(why) => OutcomeView::Failed(why@),
        }
    }
}

impl Clone for Outcome {
    fn clone(&self) -> (r: Self)
        ensures
            r@ == self@,
    {
        match self {
            Outcome::Value(v) => Outcome::Value(copy_optional_bytes(v)),
            Outcome::Done => Outcome::Done,
            Outcome::Failed(why) => Outcome::Failed(why.clone()),
        }
    }
}

/// The answer to a client's read.
#[derive(Clone, Debug, PartialEq, Eq)]
pub struct GetResponse {
    pub found: bool,
    /// The value, empty if none was found.
    pub value: Vec<u8>,
}

/// The answer for a value that was found, or for none. An empty value is found.
pub fn found(value: Option<Vec<u8>>) -> (r: GetResponse)
    ensures
        r.found == (value is Some),
        r.value@ == (match value {
            Some(v) => v@,
            None => Seq::empty(),
        }),
{
    match value {
        Some(value) => GetResponse { found: true, value },
        None => GetResponse { found: false, value: Vec::new() },
    }
}

/// The answer to a read with this outcome. A read never ends in `Done`.
pub fn get_response(outcome: Outcome) -> (r: Result<GetResponse, Failure>)
    ensures
        match outcome@ {
            OutcomeView::Value(value) => r matches Ok(x) && x.found == (value is Some) && x.value@
                == (match value {
                Some(v) => v,
                None => Seq::empty(),
            }),
            OutcomeView::Done => r matches Ok(x) && !x.found && x.value@.len() == 0,
            OutcomeView::Failed(why) => r matches Err(e) && e@ == why,
        },
{
    match outcome {
        Outcome::Value(value) => Ok(found(value)),
        Outcome::Done => Ok(found(None)),
        Outcome::Failed(why) => Err(why),
    }
}

/// The answer to a write or a removal with this outcome.
pub fn done_response(outcome: Outcome) -> (r: Result<(), Failure>)
    ensures
        match outcome@ {
            OutcomeView::Failed(why) => r matches Err(e) && e@ == why,
            _ => r is Ok,
        },
{
    match outcome {
        Outcome::Failed(why) => Err(why),
        _ => Ok(()),
    }
}

/// The answer to an append with this outcome: the value after the append.
pub fn append_response(outcome: Outcome) -> (r: Result<Vec<u8>, Failure>)
    ensures
        match outcome@ {
            OutcomeView::Value(Some(value)) => r matches Ok(v) && v@ == value,
            OutcomeView::Failed(why) => r matches Err(e) && e@ == why,
            _ => r matches Ok(v) && v@.len() == 0,
        },
{
    match outcome {
        Outcome::Value(Some(value)) => Ok(value),
        Outcome::Failed(why) => Err(why),
        _ => Ok(Vec::new()),
    }
}

/// How long, in milliseconds, a client request waits for its entry to commit
/// before giving up. A healthy leader commits in well under this; exceeding it
/// usually means we lost leadership after proposing, so the client should retry.
pub const COMMIT_TIMEOUT_MILLIS: u64 = 3_000;

/// What a refused client is to do.
#[derive(Clone, Copy, Debug, PartialEq, Eq, Structural)]
pub enum Refusal {
    /// This node does not lead: ask the leader, named if it is known.
    NotLeader(Option<NodeId>),
    /// The command was not committed in time: ask again.
    TimedOut,
}

impl Refusal {
    /// The code that the client gets.
    pub open spec fn spec_code(self) -> Code {
        match self {
            Refusal::NotLeader(_) => Code::FailedPrecondition,
            Refusal::TimedOut => Code::Unavailable,
        }
    }

    /// The code that the client gets.
    pub fn code(&self) -> (r: Code)
        ensures
            r == self.spec_code(),
    {
        match self {
            Refusal::NotLeader(_) => Code::FailedPrecondition,
            Refusal::TimedOut => Code::Unavailable,
        }
    }

    /// What the client is told.
    pub fn message(&self) -> (r: &'static str)
        ensures
            r@ == (match *self {
                Refusal::NotLeader(_) => "not leader"@,
                Refusal::TimedOut => "command not committed in time; retry"@,
            }),
    {
        match self {
            Refusal::NotLeader(_) => "not leader",
            Refusal::TimedOut => "command not committed in time; retry",
        }
    }
}

/// How a proposal ended.
#[derive(Debug)]
pub enum Wait {
    /// It was refused: this node does not lead.
    Refused,
    /// Its entry was applied.
    Applied(Outcome),
    /// Its entry was not applied in time, or the apply loop is gone.
    Expired,
}

/// What a client is told of a proposal that ended in this way on a node that
/// takes `leader_id` for the leader.
pub fn settle(wait: Wait, leader_id: Option<NodeId>) -> (r: Result<Outcome, Refusal>)
    ensures
        r matches Ok(outcome) <==> wait is Applied,
        r matches Ok(outcome) ==> outcome == wait->Applied_0,
        wait is Refused ==> r == Err::<Outcome, Refusal>(Refusal::NotLeader(leader_id)),
        wait is Expired ==> r == Err::<Outcome, Refusal>(Refusal::TimedOut),
{
    match wait {
        Wait::Refused => Err(Refusal::NotLeader(leader_id)),
        Wait::Applied(outcome) => Ok(outcome),
        Wait::Expired => Err(Refusal::TimedOut),
    }
}

// ---- laws ----
/// What became of a read can be told from its answer: a value if one is found, and that
/// value; nothing if none is; and a failure is answered with itself, and by nothing else.
pub proof fn reads_are_answered_with_what_they_found(
    outcome: Outcome,
    r: Result<GetResponse, Failure>,
)
    requires
        call_ensures(get_response, (outcome,), r),
    ensures
        r is Err <==> outcome@ is Failed,
        r matches Err(e) ==> outcome@ == OutcomeView::Failed(e@),
        r matches Ok(x) ==> x.found ==> outcome@ == OutcomeView::Value(Some(x.value@)),
        r matches Ok(x) ==> !x.found ==> x.value@.len() == 0 && (outcome@ == OutcomeView::Value(None)
            || outcome@ is Done),
{
}

/// A value is found if and only if there is one, though it be empty, and is answered as it
/// is.
pub proof fn empty_values_are_found(value: Option<Vec<u8>>, r: GetResponse)
    requires
        call_ensures(found, (value,), r),
    ensures
        r.found <==> value is Some,
        value matches Some(v) ==> r.value@ == v@,
        value is None ==> r.value@.len() == 0,
{
}

/// A write, a removal or an append that failed is answered with its failure, and no other
/// is. An append is answered with the value that it left.
pub proof fn mutations_are_answered_with_what_they_did(
    outcome: Outcome,
    done: Result<(), Failure>,
    appended: Result<Vec<u8>, Failure>,
)
    requires
        call_ensures(done_response, (outcome,), done),
        call_ensures(append_response, (outcome,), appended),
    ensures
        done is Err <==> outcome@ is Failed,
        done matches Err(e) ==> outcome@ == OutcomeView::Failed(e@),
        appended is Err <==> outcome@ is Failed,
        appended matches Err(e) ==> outcome@ == OutcomeView::Failed(e@),
        outcome@ matches OutcomeView::Value(Some(v)) ==> appended is Ok && appended->Ok_0@ == v,
        appended matches Ok(x) ==> x@.len() > 0 ==> outcome@ == OutcomeView::Value(Some(x@)),
{
}

/// A client gets the outcome of its command if and only if the command was applied; else
/// it is told whether to turn to the leader, as far as that is known, or to ask again.
pub proof fn only_applied_commands_have_an_outcome(
    wait: Wait,
    leader_id: Option<NodeId>,
    r: Result<Outcome, Refusal>,
    code: Code,
)
    requires
        call_ensures(settle, (wait, leader_id), r),
        r matches Err(refusal) ==> call_ensures(Refusal::code, (&refusal,), code),
    ensures
        r is Ok <==> wait is Applied,
        r matches Ok(outcome) ==> wait == Wait::Applied(outcome),
        wait is Refused ==> r is Err && r->Err_0 == Refusal::NotLeader(leader_id) && code
            == Code::FailedPrecondition,
        wait is Expired ==> r is Err && r->Err_0 == Refusal::TimedOut && code
            == Code::Unavailable,
{
}

} // verus!
