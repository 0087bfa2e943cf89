//! The decisions of a client that gets exactly-once semantics from a cluster.
//!
//! The clerk registers once to obtain a `client_id`, then stamps every mutation
//! with that id and a monotonically increasing `seq`. Crucially, a retried
//! operation *reuses the same `seq`*: combined with the server-side dedup table,
//! that makes each logical operation take effect exactly once even though the
//! clerk may resend it to several nodes before one commits it.
//!
//! Leader discovery is by round-robin: the clerk remembers whichever node last
//! accepted a request and tries it first, falling through the rest on a
//! not-leader / unavailable error until one succeeds or a budget elapses.

use vstd::prelude::*;

use crate::app::outcome::Refusal;
use crate::raft::clock::{Instant, NANOS_PER_MILLI};
use crate::status::Code;

verus! {

/// How long, in milliseconds, a single logical operation may spend retrying
/// across nodes.
pub const RETRY_BUDGET_MILLIS: u64 = 10_000;

/// The budget in nanoseconds.
pub const RETRY_BUDGET_NANOS: u64 = RETRY_BUDGET_MILLIS * NANOS_PER_MILLI;

/// Pause, in milliseconds, between retry attempts, giving an election time to
/// settle.
pub const RETRY_PAUSE_MILLIS: u64 = 50;

/// A not-leader or transient-unavailable error is worth retrying elsewhere;
/// anything else (e.g. an engine failure) is surfaced to the caller.
pub open spec fn is_retryable(code: Code) -> bool {
    code == Code::FailedPrecondition || code == Code::Unavailable
}

/// Whether an error with this code is worth retrying elsewhere.
pub fn retryable(code: Code) -> (r: bool)
    ensures
        r == is_retryable(code),
{
    match code {
        Code::FailedPrecondition | Code::Unavailable => true,
        _ => false,
    }
}

/// One logical operation, however often it is sent.
#[derive(Clone, Copy, Debug, PartialEq, Eq, Structural)]
pub struct Attempt {
    pub client_id: u64,
    pub seq: u64,
    /// When to give up.
    pub deadline: Instant,
}

/// What came of sending an operation to the current node.
#[derive(Clone, Copy, Debug, PartialEq, Eq, Structural)]
pub enum Reply {
    /// The node could not be reached.
    Unreachable,
    /// The node answered with an error.
    Failed(Code),
    /// The node answered.
    Done,
}

/// What to do next with an operation.
#[derive(Clone, Copy, Debug, PartialEq, Eq, Structural)]
pub enum Next {
    /// Hand the answer to the caller.
    Return,
    /// Hand the error to the caller.
    Fail,
    /// Give up: the budget is spent.
    TimedOut,
    /// Pause, then send it to the node that is now current.
    Retry,
}

/// A client of a cluster.
#[derive(Debug)]
pub struct Clerk {
    endpoints: Vec<String>,
    /// Index of the node we currently believe is leader; tried first.
    leader: usize,
    client_id: u64,
    seq: u64,
}

/// What a [`Clerk`] stands for.
#[verifier::ext_equal]
pub struct ClerkView {
    pub endpoints: Seq<String>,
    pub leader: int,
    pub client_id: u64,
    pub seq: u64,
}

impl View for Clerk {
    type V = ClerkView;

    closed spec fn view(&self) -> ClerkView {
        ClerkView {
            endpoints: self.endpoints@,
            leader: self.leader as int,
            client_id: self.client_id,
            seq: self.seq,
        }
    }
}

impl ClerkView {
    /// The current node is one of the cluster's.
    pub open spec fn wf(self) -> bool {
        0 <= self.leader < self.endpoints.len()
    }

    /// The clerk after it has moved on to the next node.
    pub open spec fn rotated(self) -> Self {
        ClerkView { leader: (self.leader + 1) % (self.endpoints.len() as int), ..self }
    }

    /// The clerk after it has moved on `n` times.
    pub open spec fn rotated_by(self, n: nat) -> Self
        decreases n,
    {
        if n == 0 {
            self
        } else {
            self.rotated_by((n - 1) as nat).rotated()
        }
    }

    /// The clerk once the budget is tested: it gives up at the deadline, else moves
    /// on to the next node.
    pub open spec fn again(self, deadline: Instant, now: Instant) -> (Self, Next) {
        if now.nanos < deadline.nanos {
            (self.rotated(), Next::Retry)
        } else {
            (self, Next::TimedOut)
        }
    }

    /// The clerk after a reply, and what to do next.
    pub open spec fn on_reply(self, reply: Reply, deadline: Instant, now: Instant) -> (Self, Next) {
        match reply {
            Reply::Done => (self, Next::Return),
            Reply::Failed(code) => if is_retryable(code) {
                self.again(deadline, now)
            } else {
                (self, Next::Fail)
            },
            Reply::Unreachable => self.again(deadline, now),
        }
    }
}

impl Clerk {
    /// A clerk for a cluster, given every node's address: none for a cluster
    /// without nodes. It still has to register.
    pub fn new(endpoints: Vec<String>) -> (r: Option<Self>)
        ensures
            r is Some <==> endpoints.len() > 0,
            r matches Some(clerk) ==> clerk@.wf() && clerk@ == (ClerkView {
                endpoints: endpoints@,
                leader: 0,
                client_id: 0,
                seq: 0,
            }),
    {
        if endpoints.len() == 0 {
            None
        } else {
            Some(Clerk { endpoints, leader: 0, client_id: 0, seq: 0 })
        }
    }

    /// The id assigned to this clerk at registration; 0 before.
    pub fn client_id(&self) -> (r: u64)
        ensures
            r == self@.client_id,
    {
        self.client_id
    }

    /// The `seq` of the last operation that was begun; 0 before the first.
    pub fn seq(&self) -> (r: u64)
        ensures
            r == self@.seq,
    {
        self.seq
    }

    /// Position of the node to send to.
    pub fn current(&self) -> (r: usize)
        ensures
            r == self@.leader,
    {
        self.leader
    }

    /// Address of the node to send to.
    pub fn endpoint(&self) -> (r: &String)
        requires
            self@.wf(),
        ensures
            *r == self@.endpoints[self@.leader],
    {
        &self.endpoints[self.leader]
    }

    /// When an operation that starts at `now` gives up.
    pub fn deadline(now: Instant) -> (r: Instant)
        requires
            now.nanos + RETRY_BUDGET_NANOS <= u64::MAX,
        ensures
            r.nanos == now.nanos + RETRY_BUDGET_NANOS,
    {
        Instant { nanos: now.nanos + RETRY_BUDGET_NANOS }
    }

    /// Fold in what a registration came to: the id that the current node assigned,
    /// if it answered. Any failure is worth retrying elsewhere.
    pub fn on_register(&mut self, assigned: Option<u64>, deadline: Instant, now: Instant) -> (r:
        Next)
        requires
            old(self)@.wf(),
        ensures
            final(self)@.wf(),
            match assigned {
                Some(id) => r == Next::Return && final(self)@ == (ClerkView {
                    client_id: id,
                    ..old(self)@
                }),
                None => (final(self)@, r) == old(self)@.again(deadline, now),
            },
    {
        match assigned {
            Some(id) => {
                self.client_id = id;
                Next::Return
            },
            None => self.again(deadline, now),
        }
    }

    /// Start one logical operation with a fresh `seq`.
    pub fn begin(&mut self, now: Instant) -> (r: Attempt)
        requires
            old(self)@.wf(),
            old(self)@.seq < u64::MAX,
            now.nanos + RETRY_BUDGET_NANOS <= u64::MAX,
        ensures
            final(self)@ == (ClerkView { seq: (old(self)@.seq + 1) as u64, ..old(self)@ }),
            r.client_id == old(self)@.client_id,
            r.seq == old(self)@.seq + 1,
            r.deadline.nanos == now.nanos + RETRY_BUDGET_NANOS,
    {
        self.seq = self.seq + 1;
        Attempt { client_id: self.client_id, seq: self.seq, deadline: Clerk::deadline(now) }
    }

    /// Fold in what became of an attempt. A retry is sent with the same `attempt`.
    pub fn on_reply(&mut self, reply: Reply, attempt: &Attempt, now: Instant) -> (r: Next)
        requires
            old(self)@.wf(),
        ensures
            final(self)@.wf(),
            (final(self)@, r) == old(self)@.on_reply(reply, attempt.deadline, now),
    {
        match reply {
            Reply::Done => Next::Return,
            Reply::Failed(code) => if retryable(code) {
                self.again(attempt.deadline, now)
            } else {
                Next::Fail
            },
            Reply::Unreachable => self.again(attempt.deadline, now),
        }
    }

    /// Give up at the deadline, else move on to the next node.
    fn again(&mut self, deadline: Instant, now: Instant) -> (r: Next)
        requires
            old(self)@.wf(),
        ensures
            final(self)@.wf(),
            (final(self)@, r) == old(self)@.again(deadline, now),
    {
        if now.nanos >= deadline.nanos {
            return Next::TimedOut;
        }
        let n: usize = self.endpoints.len();
        let next: usize = self.leader + 1;
        self.leader = if next == n {
            0
        } else {
            next
        };
        proof {
            if next < n {
                vstd::arithmetic::div_mod::lemma_small_mod(next as nat, n as nat);
            } else {
                vstd::arithmetic::div_mod::lemma_mod_self_0(n as int);
            }
        }
        Next::Retry
    }
}

// ---- laws ----
/// A retry leaves the clerk's `seq` and id alone: what is resent carries the same
/// stamp.
pub proof fn retries_reuse_the_seq(c: ClerkView, reply: Reply, deadline: Instant, now: Instant)
    ensures
        c.on_reply(reply, deadline, now).0.seq == c.seq,
        c.on_reply(reply, deadline, now).0.client_id == c.client_id,
{
}

proof fn lemma_rotated(c: ClerkView, n: nat)
    requires
        c.wf(),
    ensures
        c.rotated_by(n).wf(),
        c.rotated_by(n).endpoints == c.endpoints,
        c.rotated_by(n).leader == (c.leader + n) % (c.endpoints.len() as int),
    decreases n,
{
    let m = c.endpoints.len() as int;
    if n == 0 {
        vstd::arithmetic::div_mod::lemma_small_mod(c.leader as nat, m as nat);
    } else {
        lemma_rotated(c, (n - 1) as nat);
        vstd::arithmetic::div_mod::lemma_add_mod_noop_right(1, c.leader + n - 1, m);
        vstd::arithmetic::div_mod::lemma_mod_bound(c.leader + n, m);
    }
}

/// Round robin: within as many retries as there are nodes, every node is tried,
/// and the clerk is back where it began.
pub proof fn every_node_gets_its_turn(c: ClerkView, target: int)
    requires
        c.wf(),
        0 <= target < c.endpoints.len(),
    ensures
        exists|n: nat| n < c.endpoints.len() && (#[trigger] c.rotated_by(n)).leader == target,
        c.rotated_by(c.endpoints.len()) == c,
{
    let m = c.endpoints.len() as int;
    let n = if target >= c.leader {
        (target - c.leader) as nat
    } else {
        (target - c.leader + m) as nat
    };
    lemma_rotated(c, n);
    vstd::arithmetic::div_mod::lemma_small_mod(target as nat, m as nat);
    if target < c.leader {
        vstd::arithmetic::div_mod::lemma_mod_add_multiples_vanish(target, m);
    }
    assert(c.rotated_by(n).leader == target);
    lemma_rotated(c, m as nat);
    vstd::arithmetic::div_mod::lemma_small_mod(c.leader as nat, m as nat);
    vstd::arithmetic::div_mod::lemma_mod_add_multiples_vanish(c.leader, m);
    lemma_rotation_keeps(c, m as nat);
}

proof fn lemma_rotation_keeps(c: ClerkView, n: nat)
    ensures
        c.rotated_by(n) == (ClerkView { leader: c.rotated_by(n).leader, ..c }),
    decreases n,
{
    if n > 0 {
        lemma_rotation_keeps(c, (n - 1) as nat);
    }
}

/// A node that refuses a request, because it does not lead or could not commit in
/// time, makes the clerk try elsewhere rather than fail.
pub proof fn refusals_are_retried(refusal: Refusal)
    ensures
        is_retryable(refusal.spec_code()),
{
}

/// What a clerk does with a reply. An answer is handed on, and so is an error that is
/// not of a node that does not lead or cannot be used now; the clerk stays with the node
/// that gave it. Where that node cannot be reached or says to try elsewhere, the clerk
/// moves on to the next in the ring and tries again, unless its time is up: then it
/// stays, and gives up.
pub proof fn replies_are_handed_on_or_retried(
    c: ClerkView,
    reply: Reply,
    deadline: Instant,
    now: Instant,
)
    requires
        c.wf(),
    ensures
        ({
            let (after, next) = c.on_reply(reply, deadline, now);
            let elsewhere = match reply {
                Reply::Unreachable => true,
                Reply::Failed(code) => code == Code::FailedPrecondition || code
                    == Code::Unavailable,
                Reply::Done => false,
            };
            &&& reply is Done ==> next == Next::Return
            &&& reply is Failed && !elsewhere ==> next == Next::Fail
            &&& elsewhere && now.nanos < deadline.nanos ==> next == Next::Retry
            &&& elsewhere && now.nanos >= deadline.nanos ==> next == Next::TimedOut
            &&& next != Next::Retry ==> after == c
            &&& next == Next::Retry ==> after == (ClerkView {
                leader: if c.leader + 1 < c.endpoints.len() {
                    c.leader + 1
                } else {
                    0
                },
                ..c
            })
        }),
{
    let n = c.endpoints.len() as int;
    if c.leader + 1 < n {
        vstd::arithmetic::div_mod::lemma_small_mod((c.leader + 1) as nat, n as nat);
    } else {
        vstd::arithmetic::div_mod::lemma_mod_self_0(n);
    }
}

/// A clerk that was refused by some nodes and then answered, one reply after the other.
pub open spec fn after_refusals(
    c: ClerkView,
    refusals: Seq<Reply>,
    deadline: Instant,
    now: Instant,
) -> ClerkView
    decreases refusals.len(),
{
    if refusals.len() == 0 {
        c
    } else {
        after_refusals(c, refusals.drop_last(), deadline, now).on_reply(
            refusals.last(),
            deadline,
            now,
        ).0
    }
}

/// The leader is remembered: whatever it took to find it, a clerk that gets its answer
/// sends the next operation, and every one after it, to the node that answered first.
pub proof fn the_node_that_answered_is_tried_first(
    c: ClerkView,
    refusals: Seq<Reply>,
    deadline: Instant,
    now: Instant,
    done: Instant,
    later_deadline: Instant,
    later: Instant,
)
    ensures
        ({
            let found = after_refusals(c, refusals, deadline, now);
            let answered = found.on_reply(Reply::Done, deadline, done).0;
            let again = answered.on_reply(Reply::Done, later_deadline, later).0;
            &&& answered.leader == found.leader
            &&& again.leader == found.leader
            &&& answered.endpoints == found.endpoints
        }),
{
}

/// Every node that says to try elsewhere, one after the other, moves the clerk once
/// round the ring, and no further, while its time lasts.
pub proof fn refusals_move_round_the_ring(
    c: ClerkView,
    refusals: Seq<Reply>,
    deadline: Instant,
    now: Instant,
)
    requires
        c.wf(),
        now.nanos < deadline.nanos,
        forall|k: int|
            0 <= k < refusals.len() ==> #[trigger] refusals[k] == Reply::Unreachable || refusals[k]
                == Reply::Failed(Code::Unavailable) || refusals[k] == Reply::Failed(
                Code::FailedPrecondition,
            ),
    ensures
        after_refusals(c, refusals, deadline, now) == c.rotated_by(refusals.len()),
        after_refusals(c, refusals, deadline, now).leader == (c.leader + refusals.len())
            % (c.endpoints.len() as int),
        after_refusals(c, refusals, deadline, now).seq == c.seq,
        after_refusals(c, refusals, deadline, now).client_id == c.client_id,
    decreases refusals.len(),
{
    lemma_rotated(c, refusals.len());
    lemma_rotation_keeps(c, refusals.len());
    if refusals.len() > 0 {
        let front = refusals.drop_last();
        assert forall|k: int| 0 <= k < front.len() implies #[trigger] front[k] == Reply::Unreachable
            || front[k] == Reply::Failed(Code::Unavailable) || front[k] == Reply::Failed(
            Code::FailedPrecondition,
        ) by {
            assert(front[k] == refusals[k]);
        }
        refusals_move_round_the_ring(c, front, deadline, now);
        assert(refusals.last() == refusals[refusals.len() - 1]);
    }
}

/// A client that is refused is told which way: a node that does not lead says so with one
/// code, whoever leads, and a command that was not committed in time with another.
pub proof fn refusals_have_their_codes(refusal: Refusal)
    ensures
        refusal is NotLeader ==> refusal.spec_code() == Code::FailedPrecondition,
        refusal is TimedOut ==> refusal.spec_code() == Code::Unavailable,
{
}

/// Each operation gets the next `seq`, and the id of its clerk: of two that a clerk begins
/// one after the other, whatever replies come in between, the later has the greater `seq`.
/// Each has its whole budget from when it begins.
pub proof fn operations_are_stamped_in_order(
    first: &mut Clerk,
    now: Instant,
    a: Attempt,
    replied: &mut Clerk,
    reply: Reply,
    at: Instant,
    next: Next,
    second: &mut Clerk,
    later: Instant,
    b: Attempt,
)
    requires
        call_ensures(Clerk::begin, (first, now), a),
        call_ensures(Clerk::on_reply, (replied, reply, &a, at), next),
        call_ensures(Clerk::begin, (second, later), b),
        old(replied)@ == final(first)@,
        old(second)@ == final(replied)@,
        old(first)@.seq < u64::MAX - 1,
    ensures
        a.seq > old(first)@.seq,
        a.seq == final(first)@.seq,
        b.seq == a.seq + 1,
        b.client_id == a.client_id,
        a.client_id == old(first)@.client_id,
        a.deadline.nanos == now.nanos + RETRY_BUDGET_NANOS,
        b.deadline.nanos == later.nanos + RETRY_BUDGET_NANOS,
        final(first)@.leader == old(first)@.leader,
        final(first)@.endpoints == old(first)@.endpoints,
{
}

/// A new clerk has every node to turn to, and starts with the first. Once a node has
/// assigned it an id, what it begins carries that id; its first operation is number one.
pub proof fn registered_clerks_stamp_their_id(
    endpoints: Vec<String>,
    made: Option<Clerk>,
    clerk: &mut Clerk,
    id: u64,
    deadline: Instant,
    at: Instant,
    next: Next,
    registered: &mut Clerk,
    now: Instant,
    a: Attempt,
)
    requires
        call_ensures(Clerk::new, (endpoints,), made),
        made == Some(*old(clerk)),
        call_ensures(Clerk::on_register, (clerk, Some(id), deadline, at), next),
        old(registered)@ == final(clerk)@,
        call_ensures(Clerk::begin, (registered, now), a),
    ensures
        old(clerk)@.endpoints == endpoints@,
        old(clerk)@.leader == 0,
        next == Next::Return,
        a.client_id == id,
        a.seq == 1,
        final(clerk)@.leader == 0,
        final(clerk)@.endpoints == endpoints@,
{
}

/// A registration that came to nothing is tried with the next node in the ring while its
/// time lasts, and given up after; the clerk stays unregistered.
pub proof fn registrations_are_retried_elsewhere(
    clerk: &mut Clerk,
    deadline: Instant,
    now: Instant,
    next: Next,
)
    requires
        old(clerk)@.wf(),
        call_ensures(Clerk::on_register, (clerk, None::<u64>, deadline, now), next),
    ensures
        next == Next::Retry <==> now.nanos < deadline.nanos,
        next == Next::TimedOut <==> now.nanos >= deadline.nanos,
        next == Next::Retry ==> final(clerk)@.leader == (if old(clerk)@.leader + 1 < old(
            clerk,
        )@.endpoints.len() {
            old(clerk)@.leader + 1
        } else {
            0
        }),
        next == Next::TimedOut ==> final(clerk)@ == old(clerk)@,
        final(clerk)@.client_id == old(clerk)@.client_id,
        final(clerk)@.seq == old(clerk)@.seq,
        final(clerk)@.endpoints == old(clerk)@.endpoints,
{
    let n = old(clerk)@.endpoints.len() as int;
    let at = old(clerk)@.leader;
    if at + 1 < n {
        vstd::arithmetic::div_mod::lemma_small_mod((at + 1) as nat, n as nat);
    } else {
        vstd::arithmetic::div_mod::lemma_mod_self_0(n);
    }
}

/// What a clerk says of itself is so: the node it sends to is its current one, at that
/// node's address, and its id and `seq` are those that it stamps.
pub proof fn clerks_send_to_their_current_node(
    clerk: &Clerk,
    current: usize,
    endpoint: &String,
    client_id: u64,
    seq: u64,
)
    requires
        call_ensures(Clerk::current, (clerk,), current),
        call_ensures(Clerk::endpoint, (clerk,), endpoint),
        call_ensures(Clerk::client_id, (clerk,), client_id),
        call_ensures(Clerk::seq, (clerk,), seq),
    ensures
        current == clerk@.leader,
        *endpoint == clerk@.endpoints[current as int],
        client_id == clerk@.client_id,
        seq == clerk@.seq,
{
}

/// Of all codes, two are worth a retry: that of a node that does not lead, and that of one
/// that cannot be used now.
pub proof fn two_codes_are_retried(code: Code, r: bool)
    requires
        call_ensures(retryable, (code,), r),
    ensures
        r <==> code == Code::FailedPrecondition || code == Code::Unavailable,
{
}

} // verus!
