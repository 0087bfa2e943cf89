//! Why a cluster is safe: a record of what a run has done, the facts that hold of
//! every state that a run can reach, and why every event keeps them.

use vstd::prelude::*;

use super::clock::Instant;
use super::cluster::{Cluster, Event, Message};
use super::model::NodeView;
use super::types::{EntryView, LogIndex, LogView, NodeId, Role, Term};

verus! {

// ---- the record of a run ----
/// One node's leadership of one term.
#[verifier::ext_equal]
pub struct Reign {
    pub leader: NodeId,
    /// The nodes whose votes won the election.
    pub electors: Set<NodeId>,
    /// The leader's log when it was elected.
    pub base: Seq<EntryView>,
    /// The leader's log as it grew during the term.
    pub log: Seq<EntryView>,
}

/// One node's vote in one term.
#[verifier::ext_equal]
pub struct Ballot {
    pub candidate: NodeId,
    /// The voter's log when it voted.
    pub log: Seq<EntryView>,
}

/// What a run has done so far, beyond what its state still shows.
#[verifier::ext_equal]
pub struct History {
    pub reigns: Map<Term, Reign>,
    pub ballots: Map<(Term, NodeId), Ballot>,
    /// The log with which a node campaigned for a term.
    pub campaigns: Map<(Term, NodeId), Seq<EntryView>>,
    /// How far a node has confirmed to hold the log of a term's leader.
    pub acks: Map<(Term, NodeId), int>,
    /// The whole log of each node, including the prefix it has compacted away.
    pub full: Map<NodeId, Seq<EntryView>>,
}

/// Terms never decrease along a log.
pub(super) open spec fn sorted(s: Seq<EntryView>) -> bool {
    forall|a: int, b: int| 0 <= a <= b < s.len() ==> (#[trigger] s[a]).term <= (#[trigger] s[b]).term
}

/// Every term in the log is at most `t`.
pub(super) open spec fn within(s: Seq<EntryView>, t: int) -> bool {
    forall|a: int| 0 <= a < s.len() ==> (#[trigger] s[a]).term <= t
}

/// `a` and `b` agree on the first `n` entries.
pub(super) open spec fn share(a: Seq<EntryView>, b: Seq<EntryView>, n: int) -> bool {
    &&& 0 <= n <= a.len()
    &&& n <= b.len()
    &&& a.take(n) == b.take(n)
}

/// Term of the last entry of a whole log.
pub(super) open spec fn tail_term(s: Seq<EntryView>) -> Term {
    if s.len() == 0 {
        0
    } else {
        s.last().term
    }
}

/// Log `a` is at least as up-to-date as log `b`.
pub(super) open spec fn covers(a: Seq<EntryView>, b: Seq<EntryView>) -> bool {
    ||| tail_term(a) > tail_term(b)
    ||| tail_term(a) == tail_term(b) && a.len() >= b.len()
}

/// `full` is the whole log of which `log` holds the tail.
pub(super) open spec fn rep(log: LogView, full: Seq<EntryView>) -> bool {
    &&& log.wf()
    &&& full.len() == log.last_index()
    &&& log.entries == full.skip(log.snapshot_index as int)
    &&& log.snapshot_index > 0 ==> full[log.snapshot_index - 1].term == log.snapshot_term
}

impl History {
    /// Through position `k`, `s` is the log of the leader of its `k`th term.
    pub(super) open spec fn backs(self, s: Seq<EntryView>, k: int) -> bool {
        let t = s[k].term;
        &&& self.reigns.contains_key(t)
        &&& share(s, self.reigns[t].log, k + 1)
    }

    /// Every prefix of `s` comes from the leader of its last term.
    pub(super) open spec fn traced(self, s: Seq<EntryView>) -> bool {
        forall|k: int| 0 <= k < s.len() ==> #[trigger] self.backs(s, k)
    }

    /// `s` holds the first `n` entries of the leader of term `t`.
    pub(super) open spec fn retains(self, s: Seq<EntryView>, t: Term, n: int) -> bool {
        share(s, self.reigns[t].log, n)
    }

    /// The leader of `u` was elected without the first `n` entries of term `t`.
    pub(super) open spec fn overrules(self, u: Term, t: Term, n: int) -> bool {
        &&& t < u
        &&& self.reigns.contains_key(u)
        &&& !self.retains(self.reigns[u].base, t, n)
    }

    /// `s` still holds the first `n` entries of term `t`, unless a leader up to
    /// `bound` was elected without them.
    pub(super) open spec fn kept(self, s: Seq<EntryView>, t: Term, n: int, bound: int) -> bool {
        ||| self.retains(s, t, n)
        ||| exists|u: Term| u <= bound && #[trigger] self.overrules(u, t, n)
    }

    /// Node `v` has confirmed to hold the first `n` entries of term `t`.
    pub(super) open spec fn acked(self, v: NodeId, t: Term, n: int) -> bool {
        self.acks.contains_key((t, v)) && n <= self.acks[(t, v)]
    }

    /// `q` is a majority that has confirmed the first `n` entries of term `t`.
    pub(super) open spec fn stored_by(self, members: Set<NodeId>, q: Set<NodeId>, t: Term, n: int) -> bool {
        &&& q.subset_of(members)
        &&& q.len() >= members.len() / 2 + 1
        &&& forall|v: NodeId| #[trigger] q.contains(v) ==> self.acked(v, t, n)
    }

    /// The first `n` entries of term `t` are committed by the leader of `t`.
    pub(super) open spec fn committed(self, members: Set<NodeId>, t: Term, n: int) -> bool {
        &&& self.reigns.contains_key(t)
        &&& 1 <= n <= self.reigns[t].log.len()
        &&& self.reigns[t].log[n - 1].term == t
        &&& exists|q: Set<NodeId>| #[trigger] self.stored_by(members, q, t, n)
    }

    /// The first `n` entries of `s` are committed by a leader up to `bound`.
    pub(super) open spec fn settled(self, members: Set<NodeId>, s: Seq<EntryView>, n: int, bound: Term) -> bool {
        &&& 0 <= n <= s.len()
        &&& n > 0 ==> exists|t: Term, m: int| #[trigger]
            self.committed(members, t, m) && t <= bound && n <= m && self.retains(s, t, n)
    }
}

// ---- what holds of every reachable state ----
/// Facts about node `i` as it stands.
pub(super) open spec fn node_ok(c: Cluster, h: History, i: NodeId) -> bool {
    let n = c.nodes[i];
    let full = h.full[i];
    &&& n.id == i
    &&& n.peers.no_duplicates()
    &&& n.peers.to_set() == c.members().remove(i)
    &&& n.wf()
    &&& n.in_order()
    &&& n.log.snapshot_index > 0 ==> n.snapshot is Some
    &&& rep(n.log, full)
    &&& sorted(full)
    &&& h.traced(full)
    &&& within(full, n.current_term as int)
    &&& h.settled(c.members(), full, n.commit_index as int, n.current_term)
    &&& n.voted_for matches Some(candidate) ==> {
        &&& h.ballots.contains_key((n.current_term, i))
        &&& h.ballots[(n.current_term, i)].candidate == candidate
    }
    &&& n.role == Role::Candidate ==> candidate_ok(c, h, i)
    &&& n.role == Role::Leader ==> leader_ok(c, h, i)
}

/// Facts about a candidate.
pub(super) open spec fn candidate_ok(c: Cluster, h: History, i: NodeId) -> bool {
    let n = c.nodes[i];
    let t = n.current_term;
    &&& h.campaigns.contains_key((t, i))
    &&& h.campaigns[(t, i)] == h.full[i]
    &&& n.votes.subset_of(c.members())
    &&& forall|v: NodeId| #[trigger]
        n.votes.contains(v) ==> h.ballots.contains_key((t, v)) && h.ballots[(t, v)].candidate == i
    &&& h.reigns.contains_key(t) ==> h.reigns[t].leader != i
}

/// Facts about a leader.
pub(super) open spec fn leader_ok(c: Cluster, h: History, i: NodeId) -> bool {
    let n = c.nodes[i];
    let t = n.current_term;
    &&& h.reigns.contains_key(t)
    &&& h.reigns[t].leader == i
    &&& h.reigns[t].log == h.full[i]
    &&& h.acks.contains_key((t, i))
    &&& h.acks[(t, i)] == h.full[i].len()
    &&& forall|p: NodeId| #[trigger]
        n.match_index.contains_key(p) ==> {
            ||| n.match_index[p] <= n.log.snapshot_index
            ||| h.acked(p, t, n.match_index[p] as int)
        }
    &&& forall|p: NodeId| #[trigger]
        n.next_index.contains_key(p) ==> n.next_index[p] <= n.log.last_index() + 1
}

/// Facts about the vote of `v` in term `t`.
pub(super) open spec fn ballot_ok(c: Cluster, h: History, t: Term, v: NodeId) -> bool {
    let b = h.ballots[(t, v)];
    &&& c.nodes.contains_key(b.candidate)
    &&& t <= c.nodes[v].current_term
    &&& t == c.nodes[v].current_term ==> c.nodes[v].voted_for == Some(b.candidate)
    &&& h.campaigns.contains_key((t, b.candidate))
    &&& covers(h.campaigns[(t, b.candidate)], b.log)
    &&& sorted(b.log)
    &&& h.traced(b.log)
    &&& forall|u: Term, n: int| u < t && #[trigger] h.acked(v, u, n) && 0 <= n ==> h.kept(
        b.log,
        u,
        n,
        t as int,
    )
}

/// Facts about the campaign of `v` for term `t`.
pub(super) open spec fn campaign_ok(c: Cluster, h: History, t: Term, v: NodeId) -> bool {
    let s = h.campaigns[(t, v)];
    &&& 1 <= t <= c.nodes[v].current_term
    &&& sorted(s)
    &&& h.traced(s)
    &&& within(s, t - 1)
}

/// Facts about what `v` has confirmed of term `t`.
pub(super) open spec fn ack_ok(c: Cluster, h: History, t: Term, v: NodeId) -> bool {
    let m = h.acks[(t, v)];
    &&& t <= c.nodes[v].current_term
    &&& h.reigns.contains_key(t)
    &&& 0 <= m <= h.reigns[t].log.len()
    &&& forall|n: int| 0 <= n <= m ==> #[trigger] h.kept(
        h.full[v],
        t,
        n,
        c.nodes[v].current_term as int,
    )
}

/// Everything that is recorded of node `i`.
#[verifier::opaque]
pub(super) open spec fn own_ok(c: Cluster, h: History, i: NodeId) -> bool {
    &&& h.full.contains_key(i)
    &&& node_ok(c, h, i)
    &&& forall|t: Term| h.ballots.contains_key((t, i)) ==> #[trigger] ballot_ok(c, h, t, i)
    &&& forall|t: Term| h.campaigns.contains_key((t, i)) ==> #[trigger] campaign_ok(c, h, t, i)
    &&& forall|t: Term| h.acks.contains_key((t, i)) ==> #[trigger] ack_ok(c, h, t, i)
}

/// Facts about the leadership of term `t`.
#[verifier::opaque]
pub(super) open spec fn reign_ok(c: Cluster, h: History, t: Term) -> bool {
    let r = h.reigns[t];
    &&& c.nodes.contains_key(r.leader)
    &&& r.electors.subset_of(c.members())
    &&& r.electors.len() >= c.members().len() / 2 + 1
    &&& h.campaigns.contains_key((t, r.leader))
    &&& h.campaigns[(t, r.leader)] == r.base
    &&& share(r.base, r.log, r.base.len() as int)
    &&& within(r.base, t - 1)
    &&& forall|k: int| r.base.len() <= k < r.log.len() ==> (#[trigger] r.log[k]).term == t
    &&& sorted(r.log)
    &&& h.traced(r.log)
    &&& forall|v: NodeId| #[trigger]
        r.electors.contains(v) ==> {
            &&& h.ballots.contains_key((t, v))
            &&& h.ballots[(t, v)].candidate == r.leader
            &&& forall|u: Term, n: int|
                u < t && #[trigger] h.acked(v, u, n) && 0 <= n ==> h.kept(
                    h.ballots[(t, v)].log,
                    u,
                    n,
                    t - 1,
                )
        }
}

/// Facts about a message.
#[verifier::opaque]
pub(super) open spec fn msg_ok(c: Cluster, h: History, m: Message) -> bool {
    match m {
        Message::Vote(args) => {
            &&& c.nodes.contains_key(args.candidate_id)
            &&& !args.pre_vote ==> {
                let k = (args.term, args.candidate_id);
                &&& h.campaigns.contains_key(k)
                &&& args.last_log_index == h.campaigns[k].len()
                &&& args.last_log_term == tail_term(h.campaigns[k])
            }
        },
        Message::VoteReply { from, to, pre_vote, reply } => {
            !pre_vote && reply.vote_granted ==> {
                &&& c.nodes.contains_key(from)
                &&& h.ballots.contains_key((reply.term, from))
                &&& h.ballots[(reply.term, from)].candidate == to
            }
        },
        Message::Append { to, args } => {
            let r = h.reigns[args.term];
            &&& h.reigns.contains_key(args.term)
            &&& r.leader == args.leader_id
            &&& to != r.leader
            &&& args.last_index() <= r.log.len()
            &&& args.entries == r.log.subrange(args.prev_log_index as int, args.last_index())
            &&& args.prev_log_index > 0 ==> args.prev_log_term == r.log[args.prev_log_index
                - 1].term
            &&& args.leader_commit <= args.last_index()
            &&& h.settled(c.members(), r.log, args.leader_commit as int, args.term)
        },
        Message::AppendReply { from, to, match_hint, reply } => {
            &&& reply.success ==> h.acked(from, reply.term, match_hint as int)
            &&& reply.conflict_index matches Some(ci) ==> {
                &&& h.reigns.contains_key(reply.term)
                &&& ci <= h.reigns[reply.term].log.len() + 1
            }
        },
        Message::Install { to, args } => {
            let r = h.reigns[args.term];
            let s = args.last_included_index;
            &&& h.reigns.contains_key(args.term)
            &&& r.leader == args.leader_id
            &&& to != r.leader
            &&& c.nodes.contains_key(r.leader)
            &&& 0 < s <= c.nodes[r.leader].log.snapshot_index
            &&& s <= r.log.len()
            &&& args.last_included_term == r.log[s - 1].term
            &&& h.settled(c.members(), r.log, s as int, args.term)
        },
        Message::InstallReply { from, to, last_included_index, reply } => {
            &&& c.nodes.contains_key(to)
            &&& last_included_index <= c.nodes[to].log.snapshot_index
        },
    }
}

/// What holds of every reachable state, with the record `h` of the run.
pub(super) open spec fn inv(c: Cluster, h: History) -> bool {
    &&& c.members().finite()
    &&& forall|i: NodeId| c.nodes.contains_key(i) ==> #[trigger] own_ok(c, h, i)
    &&& forall|t: Term| h.reigns.contains_key(t) ==> #[trigger] reign_ok(c, h, t)
    &&& forall|m: Message| c.sent.contains(m) ==> #[trigger] msg_ok(c, h, m)
    &&& forall|t: Term, v: NodeId| #[trigger]
        h.ballots.contains_key((t, v)) ==> c.nodes.contains_key(v)
    &&& forall|t: Term, v: NodeId| #[trigger]
        h.campaigns.contains_key((t, v)) ==> c.nodes.contains_key(v)
    &&& forall|t: Term, v: NodeId| #[trigger]
        h.acks.contains_key((t, v)) ==> c.nodes.contains_key(v)
}

// ---- growth of the record ----
/// The record `h2` keeps everything in `h`.
pub(super) open spec fn extends(h: History, h2: History) -> bool {
    &&& forall|t: Term| #[trigger]
        h.reigns.contains_key(t) ==> {
            &&& h2.reigns.contains_key(t)
            &&& h2.reigns[t].leader == h.reigns[t].leader
            &&& h2.reigns[t].electors == h.reigns[t].electors
            &&& h2.reigns[t].base == h.reigns[t].base
            &&& share(h.reigns[t].log, h2.reigns[t].log, h.reigns[t].log.len() as int)
        }
    &&& forall|k: (Term, NodeId)| #[trigger]
        h.ballots.contains_key(k) ==> h2.ballots.contains_key(k) && h2.ballots[k] == h.ballots[k]
    &&& forall|k: (Term, NodeId)| #[trigger]
        h.campaigns.contains_key(k) ==> h2.campaigns.contains_key(k) && h2.campaigns[k]
            == h.campaigns[k]
    &&& forall|k: (Term, NodeId)| #[trigger]
        h.acks.contains_key(k) ==> h2.acks.contains_key(k) && h.acks[k] <= h2.acks[k]
}

/// Only node `i` and what is recorded of it have changed, and nothing recorded
/// was lost.
pub(super) open spec fn calm(c: Cluster, h: History, c2: Cluster, h2: History, i: NodeId) -> bool {
    &&& c.nodes.contains_key(i)
    &&& c2.nodes.dom() == c.nodes.dom()
    &&& forall|j: NodeId| #[trigger]
        c.nodes.contains_key(j) && j != i ==> c2.nodes[j] == c.nodes[j] && h2.full[j] == h.full[j]
            && h2.full.contains_key(j) == h.full.contains_key(j)
    &&& c.nodes[i].current_term <= c2.nodes[i].current_term
    &&& c.nodes[i].log.snapshot_index <= c2.nodes[i].log.snapshot_index
    &&& extends(h, h2)
    &&& forall|t: Term| #[trigger]
        h2.reigns.contains_key(t) && h2.reigns[t].leader != i ==> h.reigns.contains_key(t)
            && h2.reigns[t] == h.reigns[t]
    &&& forall|t: Term, v: NodeId| #[trigger]
        h2.ballots.contains_key((t, v)) && v != i ==> h.ballots.contains_key((t, v))
    &&& forall|t: Term, v: NodeId| #[trigger]
        h2.campaigns.contains_key((t, v)) && v != i ==> h.campaigns.contains_key((t, v))
    &&& forall|t: Term, v: NodeId| #[trigger]
        h2.acks.contains_key((t, v)) && (v != i || t < c.nodes[i].current_term)
            ==> h.acks.contains_key((t, v)) && h2.acks[(t, v)] == h.acks[(t, v)]
}

/// A node's log keeps, from `h` to `h2`, every prefix that a leader up to its
/// term had committed.
pub(super) open spec fn remembers(c: Cluster, h: History, h2: History) -> bool {
    forall|j: NodeId, n: int, b: Term|
        c.nodes.contains_key(j) && b <= c.nodes[j].current_term && #[trigger] h.settled(
            c.members(),
            h.full[j],
            n,
            b,
        ) ==> h2.settled(c.members(), h2.full[j], n, b)
}

proof fn lemma_share_stable(s: Seq<EntryView>, a: Seq<EntryView>, b: Seq<EntryView>, n: int)
    requires
        share(a, b, a.len() as int),
        0 <= n <= a.len(),
    ensures
        share(s, a, n) <==> share(s, b, n),
        a.take(n) == b.take(n),
{
    assert(a.take(n) =~= b.take(n)) by {
        assert forall|k: int| 0 <= k < n implies a[k] == b[k] by {
            assert(a.take(a.len() as int)[k] == b.take(a.len() as int)[k]);
        }
    }
}

/// Agreeing on `n` entries is agreeing on fewer.
proof fn lemma_share_less(a: Seq<EntryView>, b: Seq<EntryView>, n: int, m: int)
    requires
        share(a, b, n),
        0 <= m <= n,
    ensures
        share(a, b, m),
        forall|k: int| 0 <= k < n ==> a[k] == b[k],
{
    assert forall|k: int| 0 <= k < n implies a[k] == b[k] by {
        assert(a.take(n)[k] == b.take(n)[k]);
    }
    assert(a.take(m) =~= b.take(m));
}

proof fn lemma_share_trans(a: Seq<EntryView>, b: Seq<EntryView>, d: Seq<EntryView>, n: int)
    requires
        share(a, b, n),
        share(b, d, n),
    ensures
        share(a, d, n),
        share(d, a, n),
{
}

pub(super) proof fn lemma_traced_stable(h: History, h2: History, s: Seq<EntryView>)
    requires
        extends(h, h2),
        h.traced(s),
    ensures
        h2.traced(s),
{
    assert forall|k: int| 0 <= k < s.len() implies #[trigger] h2.backs(s, k) by {
        assert(h.backs(s, k));
        let t = s[k].term;
        lemma_share_stable(s, h.reigns[t].log, h2.reigns[t].log, k + 1);
    }
}

proof fn lemma_kept_stable(
    h: History,
    h2: History,
    s: Seq<EntryView>,
    t: Term,
    n: int,
    b: int,
    b2: int,
)
    requires
        extends(h, h2),
        h.reigns.contains_key(t),
        0 <= n <= h.reigns[t].log.len(),
        h.kept(s, t, n, b),
        b <= b2,
    ensures
        h2.kept(s, t, n, b2),
{
    lemma_share_stable(s, h.reigns[t].log, h2.reigns[t].log, n);
    if !h.retains(s, t, n) {
        let u = choose|u: Term| u <= b && #[trigger] h.overrules(u, t, n);
        lemma_share_stable(h.reigns[u].base, h.reigns[t].log, h2.reigns[t].log, n);
        assert(h2.overrules(u, t, n));
    }
}

proof fn lemma_committed_stable(h: History, h2: History, members: Set<NodeId>, t: Term, n: int)
    requires
        extends(h, h2),
        h.committed(members, t, n),
    ensures
        h2.committed(members, t, n),
{
    let q = choose|q: Set<NodeId>| #[trigger] h.stored_by(members, q, t, n);
    assert forall|v: NodeId| #[trigger] q.contains(v) implies h2.acked(v, t, n) by {
        assert(h.acked(v, t, n));
    }
    assert(h2.stored_by(members, q, t, n));
    let (a, b) = (h.reigns[t].log, h2.reigns[t].log);
    assert(a.take(a.len() as int)[n - 1] == b.take(a.len() as int)[n - 1]);
}

pub(super) proof fn lemma_settled_stable(
    h: History,
    h2: History,
    members: Set<NodeId>,
    s: Seq<EntryView>,
    s2: Seq<EntryView>,
    n: int,
    b: Term,
    b2: Term,
)
    requires
        extends(h, h2),
        h.settled(members, s, n, b),
        share(s, s2, n),
        b <= b2,
    ensures
        h2.settled(members, s2, n, b2),
{
    if n > 0 {
        let (t, m) = choose|t: Term, m: int| #[trigger]
            h.committed(members, t, m) && t <= b && n <= m && h.retains(s, t, n);
        lemma_committed_stable(h, h2, members, t, m);
        lemma_share_stable(s, h.reigns[t].log, h2.reigns[t].log, n);
        assert(h2.retains(s2, t, n));
    }
}

/// What was sent stays true as the run goes on.
#[verifier::rlimit(40)]
proof fn lemma_msg_stable(c: Cluster, h: History, c2: Cluster, h2: History, i: NodeId, m: Message)
    requires
        calm(c, h, c2, h2, i),
        msg_ok(c, h, m),
    ensures
        msg_ok(c2, h2, m),
{
    reveal(msg_ok);
    match m {
        Message::Vote(args) => {},
        Message::VoteReply { from, to, pre_vote, reply } => {},
        Message::Append { to, args } => {
            let (a, b) = (h.reigns[args.term].log, h2.reigns[args.term].log);
            lemma_share_less(a, b, a.len() as int, a.len() as int);
            assert(args.entries =~= b.subrange(args.prev_log_index as int, args.last_index()));
            lemma_share_less(a, b, a.len() as int, args.leader_commit as int);
            lemma_settled_stable(
                h,
                h2,
                c.members(),
                a,
                b,
                args.leader_commit as int,
                args.term,
                args.term,
            );
        },
        Message::AppendReply { from, to, match_hint, reply } => {},
        Message::Install { to, args } => {
            let s = args.last_included_index as int;
            let (a, b) = (h.reigns[args.term].log, h2.reigns[args.term].log);
            lemma_share_less(a, b, a.len() as int, s);
            lemma_settled_stable(h, h2, c.members(), a, b, s, args.term, args.term);
            assert(c.nodes.contains_key(h.reigns[args.term].leader));
        },
        Message::InstallReply { from, to, last_included_index, reply } => {
            assert(c.nodes.contains_key(to));
        },
    }
}

/// A leadership that did not change stays as recorded.
#[verifier::rlimit(40)]
proof fn lemma_reign_stable(c: Cluster, h: History, c2: Cluster, h2: History, i: NodeId, t: Term)
    requires
        inv(c, h),
        calm(c, h, c2, h2, i),
        h.reigns.contains_key(t),
        h2.reigns[t] == h.reigns[t],
    ensures
        reign_ok(c2, h2, t),
{
    reveal(reign_ok);
    assert(reign_ok(c, h, t));
    let r = h.reigns[t];
    lemma_traced_stable(h, h2, r.log);
    assert forall|v: NodeId| #[trigger] r.electors.contains(v) implies {
        &&& h2.ballots.contains_key((t, v))
        &&& h2.ballots[(t, v)].candidate == r.leader
        &&& forall|u: Term, n: int|
            u < t && #[trigger] h2.acked(v, u, n) && 0 <= n ==> h2.kept(
                h2.ballots[(t, v)].log,
                u,
                n,
                t - 1,
            )
    } by {
        assert(h.ballots.contains_key((t, v)));
        assert(c.nodes.contains_key(v));
        assert forall|u: Term, n: int| u < t && #[trigger] h2.acked(v, u, n) && 0 <= n implies h2.kept(
            h2.ballots[(t, v)].log,
            u,
            n,
            t - 1,
        ) by {
            reveal(own_ok);
            assert(own_ok(c, h, v));
            assert(ballot_ok(c, h, t, v));
            assert(h2.acks.contains_key((u, v)));
            assert(h.acked(v, u, n));
            assert(ack_ok(c, h, u, v));
            lemma_kept_stable(h, h2, h.ballots[(t, v)].log, u, n, t - 1, t - 1);
        }
    }
}

/// What is recorded of the other nodes stays as it was.
#[verifier::rlimit(40)]
proof fn lemma_own_stable(c: Cluster, h: History, c2: Cluster, h2: History, i: NodeId, j: NodeId)
    requires
        inv(c, h),
        calm(c, h, c2, h2, i),
        c.nodes.contains_key(j),
        j != i,
    ensures
        own_ok(c2, h2, j),
{
    reveal(own_ok);
    assert(own_ok(c, h, j));
    let n = c.nodes[j];
    let full = h.full[j];
    assert(c2.nodes[j] == n);
    lemma_traced_stable(h, h2, full);
    lemma_settled_stable(
        h,
        h2,
        c.members(),
        full,
        full,
        n.commit_index as int,
        n.current_term,
        n.current_term,
    );
    if n.role == Role::Leader {
        assert(h2.reigns[n.current_term] == h.reigns[n.current_term]);
        assert forall|p: NodeId| #[trigger] n.match_index.contains_key(p) implies {
            ||| n.match_index[p] <= n.log.snapshot_index
            ||| h2.acked(p, n.current_term, n.match_index[p] as int)
        } by {
            if !(n.match_index[p] <= n.log.snapshot_index) {
                assert(h.acked(p, n.current_term, n.match_index[p] as int));
            }
        }
        assert(h.acks.contains_key((n.current_term, j)));
        assert(h2.acks.contains_key((n.current_term, j)));
    }
    if n.role == Role::Candidate {
        assert(h2.reigns.contains_key(n.current_term) ==> h2.reigns[n.current_term].leader != j);
    }
    assert(node_ok(c2, h2, j));
    assert forall|t: Term| h2.ballots.contains_key((t, j)) implies #[trigger] ballot_ok(
        c2,
        h2,
        t,
        j,
    ) by {
        assert(ballot_ok(c, h, t, j));
        let b = h.ballots[(t, j)];
        lemma_traced_stable(h, h2, b.log);
        assert forall|u: Term, n: int| u < t && #[trigger] h2.acked(j, u, n) && 0 <= n implies h2.kept(
            b.log,
            u,
            n,
            t as int,
        ) by {
            assert(h2.acks.contains_key((u, j)));
            assert(h.acked(j, u, n));
            assert(ack_ok(c, h, u, j));
            lemma_kept_stable(h, h2, b.log, u, n, t as int, t as int);
        }
    }
    assert forall|t: Term| h2.campaigns.contains_key((t, j)) implies #[trigger] campaign_ok(
        c2,
        h2,
        t,
        j,
    ) by {
        assert(campaign_ok(c, h, t, j));
        lemma_traced_stable(h, h2, h.campaigns[(t, j)]);
    }
    assert forall|t: Term| h2.acks.contains_key((t, j)) implies #[trigger] ack_ok(c2, h2, t, j) by {
        assert(ack_ok(c, h, t, j));
        assert(h2.acks[(t, j)] == h.acks[(t, j)]);
        assert forall|n: int| 0 <= n <= h2.acks[(t, j)] implies #[trigger] h2.kept(
            full,
            t,
            n,
            c2.nodes[j].current_term as int,
        ) by {
            assert(h.kept(full, t, n, c.nodes[j].current_term as int));
            lemma_kept_stable(
                h,
                h2,
                full,
                t,
                n,
                c.nodes[j].current_term as int,
                c2.nodes[j].current_term as int,
            );
        }
    }
}

/// A step that only touches node `i` keeps everything, if it keeps what is
/// recorded of `i` and of its own leaderships.
#[verifier::rlimit(40)]
proof fn lemma_calm(c: Cluster, h: History, c2: Cluster, h2: History, i: NodeId)
    requires
        inv(c, h),
        calm(c, h, c2, h2, i),
        c2.sent == c.sent,
        own_ok(c2, h2, i),
        forall|t: Term|
            h2.reigns.contains_key(t) && !(h.reigns.contains_key(t) && h2.reigns[t] == h.reigns[t])
                ==> #[trigger] reign_ok(c2, h2, t),
    ensures
        inv(c2, h2),
{
    assert forall|j: NodeId| c2.nodes.contains_key(j) implies #[trigger] own_ok(c2, h2, j) by {
        if j != i {
            assert(c.nodes.contains_key(j));
            lemma_own_stable(c, h, c2, h2, i, j);
        }
    }
    assert forall|t: Term| h2.reigns.contains_key(t) implies #[trigger] reign_ok(c2, h2, t) by {
        if h.reigns.contains_key(t) && h2.reigns[t] == h.reigns[t] {
            lemma_reign_stable(c, h, c2, h2, i, t);
        }
    }
    assert forall|m: Message| c2.sent.contains(m) implies #[trigger] msg_ok(c2, h2, m) by {
        lemma_msg_stable(c, h, c2, h2, i, m);
    }
    assert forall|t: Term, v: NodeId| #[trigger] h2.ballots.contains_key((t, v)) implies c2.nodes.contains_key(
    v) by {
        if v != i {
            assert(h.ballots.contains_key((t, v)));
        }
    }
    assert forall|t: Term, v: NodeId| #[trigger] h2.campaigns.contains_key((t, v)) implies c2.nodes.contains_key(
    v) by {
        if v != i {
            assert(h.campaigns.contains_key((t, v)));
        }
    }
    assert forall|t: Term, v: NodeId| #[trigger] h2.acks.contains_key((t, v)) implies c2.nodes.contains_key(
    v) by {
        if v != i {
            assert(h.acks.contains_key((t, v)));
        }
    }
}

// ---- majorities and leaders' logs ----
/// Two majorities have a node in common.
pub(super) proof fn lemma_majorities_meet(members: Set<NodeId>, a: Set<NodeId>, b: Set<NodeId>)
    requires
        members.finite(),
        a.subset_of(members),
        b.subset_of(members),
        a.len() >= members.len() / 2 + 1,
        b.len() >= members.len() / 2 + 1,
    ensures
        exists|v: NodeId| a.contains(v) && b.contains(v),
{
    vstd::set_lib::lemma_len_subset(a, members);
    vstd::set_lib::lemma_len_subset(b, members);
    vstd::set_lib::lemma_set_intersect_union_lens(a, b);
    vstd::set_lib::lemma_len_subset(a + b, members);
    assert(a.intersect(b).len() > 0);
    let v = a.intersect(b).choose();
    assert(a.intersect(b).contains(v));
}

/// Two traced logs with the same term at a position agree through it.
pub(super) proof fn lemma_matching(h: History, a: Seq<EntryView>, b: Seq<EntryView>, k: int)
    requires
        h.traced(a),
        h.traced(b),
        0 <= k < a.len(),
        k < b.len(),
        a[k].term == b[k].term,
    ensures
        share(a, b, k + 1),
{
    assert(h.backs(a, k));
    assert(h.backs(b, k));
}

/// A committed entry is in the log of every later leader when it is elected.
#[verifier::rlimit(40)]
pub(super) proof fn lemma_complete(c: Cluster, h: History, t: Term, n: int, u: Term)
    requires
        inv(c, h),
        h.committed(c.members(), t, n),
        t < u,
        h.reigns.contains_key(u),
    ensures
        h.retains(h.reigns[u].base, t, n),
    decreases u,
{
    reveal(reign_ok);
    assert(reign_ok(c, h, t));
    assert(reign_ok(c, h, u));
    let r = h.reigns[u];
    let log = h.reigns[t].log;
    let q = choose|q: Set<NodeId>| #[trigger] h.stored_by(c.members(), q, t, n);
    lemma_majorities_meet(c.members(), q, r.electors);
    let v = choose|v: NodeId| q.contains(v) && r.electors.contains(v);
    assert(q.contains(v) && r.electors.contains(v));
    let b = h.ballots[(u, v)];
    assert(h.acked(v, t, n));
    assert(h.kept(b.log, t, n, u - 1));
    if !h.retains(b.log, t, n) {
        let w = choose|w: Term| w <= u - 1 && #[trigger] h.overrules(w, t, n);
        lemma_complete(c, h, t, n, w);
    }
    lemma_share_less(b.log, log, n, n);
    reveal(own_ok);
    assert(h.ballots.contains_key((u, v)));
    assert(own_ok(c, h, v));
    assert(ballot_ok(c, h, u, v));
    assert(own_ok(c, h, r.leader));
    assert(campaign_ok(c, h, u, r.leader));
    let last = b.log.len() - 1;
    assert(b.log[n - 1].term <= b.log[last].term);
    assert(tail_term(b.log) >= t);
    if tail_term(r.base) == tail_term(b.log) {
        let x = tail_term(b.log);
        lemma_share_less(r.base, r.log, r.base.len() as int, r.base.len() as int);
        assert(h.backs(b.log, last));
        assert(h.backs(r.base, r.base.len() - 1));
        lemma_share_less(r.base, h.reigns[x].log, r.base.len() as int, n);
        lemma_share_less(b.log, h.reigns[x].log, b.log.len() as int, n);
    } else {
        let x = tail_term(r.base);
        let m = r.base.len() as int;
        assert(h.backs(r.base, m - 1));
        assert(x <= u - 1);
        lemma_complete(c, h, t, n, x);
        assert(reign_ok(c, h, x));
        let lx = h.reigns[x].log;
        let bx = h.reigns[x].base;
        lemma_share_less(bx, lx, bx.len() as int, n);
        lemma_share_trans(log, bx, lx, n);
        lemma_share_less(lx, log, n, n);
        lemma_share_less(r.base, lx, m, m);
        if m < n {
            assert(lx[m - 1].term <= lx[n - 1].term);
        }
        lemma_share_less(r.base, lx, m, n);
    }
}

/// What is settled by a leader up to `b` is in the log of every leader from `b`
/// on.
pub(super) proof fn lemma_settled_in_reign(
    c: Cluster,
    h: History,
    s: Seq<EntryView>,
    n: int,
    b: Term,
    u: Term,
)
    requires
        inv(c, h),
        h.settled(c.members(), s, n, b),
        b <= u,
        h.reigns.contains_key(u),
    ensures
        share(s, h.reigns[u].log, n),
{
    if n > 0 {
        let (t, m) = choose|t: Term, m: int| #[trigger]
            h.committed(c.members(), t, m) && t <= b && n <= m && h.retains(s, t, n);
        if t < u {
            lemma_complete(c, h, t, m, u);
            reveal(reign_ok);
            assert(reign_ok(c, h, u));
            let r = h.reigns[u];
            lemma_share_less(r.base, h.reigns[t].log, m, n);
            lemma_share_less(r.base, r.log, r.base.len() as int, n);
        }
    } else {
        assert(s.take(0) =~= h.reigns[u].log.take(0));
    }
}

// ---- a node's log and the whole log behind it ----
/// The terms that a log shows are those of the whole log.
pub(super) proof fn lemma_rep_terms(log: LogView, full: Seq<EntryView>)
    requires
        rep(log, full),
    ensures
        log.last_term() == tail_term(full),
        forall|k: int|
            0 < k && log.snapshot_index <= k <= full.len() ==> #[trigger] log.term_at(k) == Some(
                full[k - 1].term,
            ),
        forall|k: int| log.holds(k) ==> #[trigger] log.entry(k) == full[k - 1],
{
    assert forall|k: int| log.holds(k) implies #[trigger] log.entry(k) == full[k - 1] by {
        assert(full.skip(log.snapshot_index as int)[k - log.snapshot_index - 1] == full[k - 1]);
    }
    if log.entries.len() > 0 {
        assert(log.entry(log.last_index()) == full[full.len() - 1]);
    }
}

// ---- steps that leave the record as it is ----
/// A change of node `i` that keeps its term, its vote and its whole log.
proof fn lemma_local(c: Cluster, h: History, i: NodeId, n2: NodeView)
    requires
        inv(c, h),
        c.nodes.contains_key(i),
        n2.current_term == c.nodes[i].current_term,
        n2.voted_for == c.nodes[i].voted_for,
        n2.log.snapshot_index >= c.nodes[i].log.snapshot_index,
        node_ok(c.with(i, n2), h, i),
    ensures
        inv(c.with(i, n2), h),
{
    let c2 = c.with(i, n2);
    assert(c2.nodes.dom() =~= c.nodes.dom());
    lemma_share_self(h);
    assert(own_ok(c2, h, i)) by {
        reveal(own_ok);
        assert(own_ok(c, h, i));
        assert forall|t: Term| h.ballots.contains_key((t, i)) implies #[trigger] ballot_ok(
            c2,
            h,
            t,
            i,
        ) by {
            assert(ballot_ok(c, h, t, i));
        }
        assert forall|t: Term| h.campaigns.contains_key((t, i)) implies #[trigger] campaign_ok(
            c2,
            h,
            t,
            i,
        ) by {
            assert(campaign_ok(c, h, t, i));
        }
        assert forall|t: Term| h.acks.contains_key((t, i)) implies #[trigger] ack_ok(c2, h, t, i) by {
            assert(ack_ok(c, h, t, i));
        }
    }
    lemma_calm(c, h, c2, h, i);
}

/// A record extends itself.
proof fn lemma_share_self(h: History)
    ensures
        extends(h, h),
{
}

/// Nothing that safety rests on has changed.
pub(super) open spec fn same_core(n: NodeView, n2: NodeView) -> bool {
    &&& n2.id == n.id
    &&& n2.peers == n.peers
    &&& n2.timing == n.timing
    &&& n2.current_term == n.current_term
    &&& n2.voted_for == n.voted_for
    &&& n2.log == n.log
    &&& n2.snapshot == n.snapshot
    &&& n2.role == n.role
    &&& n2.commit_index == n.commit_index
    &&& n2.next_index == n.next_index
    &&& n2.match_index == n.match_index
    &&& n2.votes == n.votes
    &&& n.last_applied <= n2.last_applied <= n.commit_index
}

/// A change that safety does not rest on.
proof fn lemma_quiet(c: Cluster, h: History, i: NodeId, n2: NodeView)
    requires
        inv(c, h),
        c.nodes.contains_key(i),
        same_core(c.nodes[i], n2),
    ensures
        inv(c.with(i, n2), h),
{
    reveal(own_ok);
    assert(own_ok(c, h, i));
    assert(c.with(i, n2).nodes.dom() =~= c.nodes.dom());
    lemma_local(c, h, i, n2);
}

/// Reverting to follower at a term at least ours.
#[verifier::rlimit(40)]
proof fn lemma_step_down(c: Cluster, h: History, i: NodeId, term: Term)
    requires
        inv(c, h),
        c.nodes.contains_key(i),
    ensures
        inv(c.with(i, c.nodes[i].step_down(term)), h),
{
    let n = c.nodes[i];
    let n2 = n.step_down(term);
    let c2 = c.with(i, n2);
    assert(c2.nodes.dom() =~= c.nodes.dom());
    lemma_share_self(h);
    reveal(own_ok);
    assert(own_ok(c, h, i));
    lemma_settled_stable(
        h,
        h,
        c.members(),
        h.full[i],
        h.full[i],
        n.commit_index as int,
        n.current_term,
        n2.current_term,
    );
    assert forall|t: Term| h.ballots.contains_key((t, i)) implies #[trigger] ballot_ok(
        c2,
        h,
        t,
        i,
    ) by {
        assert(ballot_ok(c, h, t, i));
    }
    assert forall|t: Term| h.campaigns.contains_key((t, i)) implies #[trigger] campaign_ok(
        c2,
        h,
        t,
        i,
    ) by {
        assert(campaign_ok(c, h, t, i));
    }
    assert forall|t: Term| h.acks.contains_key((t, i)) implies #[trigger] ack_ok(c2, h, t, i) by {
        assert(ack_ok(c, h, t, i));
        assert forall|k: int| 0 <= k <= h.acks[(t, i)] implies #[trigger] h.kept(
            h.full[i],
            t,
            k,
            n2.current_term as int,
        ) by {
            assert(h.kept(h.full[i], t, k, n.current_term as int));
        }
    }
    assert(node_ok(c2, h, i));
    lemma_calm(c, h, c2, h, i);
}

/// A message that is true may be sent.
proof fn lemma_send(c: Cluster, h: History, m: Message)
    requires
        inv(c, h),
        msg_ok(c, h, m),
    ensures
        inv(c.sending(m), h),
{
    let c2 = c.sending(m);
    assert forall|j: NodeId| c2.nodes.contains_key(j) implies #[trigger] own_ok(c2, h, j) by {
        reveal(own_ok);
        assert(own_ok(c, h, j));
        assert forall|t: Term| h.ballots.contains_key((t, j)) implies #[trigger] ballot_ok(
            c2,
            h,
            t,
            j,
        ) by {
            assert(ballot_ok(c, h, t, j));
        }
        assert forall|t: Term| h.campaigns.contains_key((t, j)) implies #[trigger] campaign_ok(
            c2,
            h,
            t,
            j,
        ) by {
            assert(campaign_ok(c, h, t, j));
        }
        assert forall|t: Term| h.acks.contains_key((t, j)) implies #[trigger] ack_ok(c2, h, t, j) by {
            assert(ack_ok(c, h, t, j));
        }
    }
    assert forall|t: Term| h.reigns.contains_key(t) implies #[trigger] reign_ok(c2, h, t) by {
        reveal(reign_ok);
        assert(reign_ok(c, h, t));
    }
    assert forall|x: Message| c2.sent.contains(x) implies #[trigger] msg_ok(c2, h, x) by {
        reveal(msg_ok);
        assert(msg_ok(c, h, x));
    }
}

// ---- elections ----
/// The majority that a node counts to is a majority of the cluster.
proof fn lemma_quorum(c: Cluster, h: History, i: NodeId)
    requires
        inv(c, h),
        c.nodes.contains_key(i),
    ensures
        c.nodes[i].quorum() == c.members().len() / 2 + 1,
        !c.nodes[i].peers.contains(i),
{
    reveal(own_ok);
    assert(own_ok(c, h, i));
    let peers = c.nodes[i].peers;
    peers.unique_seq_to_set();
    assert(!peers.to_set().contains(i));
    assert(c.members().contains(i));
}

/// A node that has not voted in its term votes for a candidate whose log is at
/// least as up-to-date as its own.
#[verifier::rlimit(40)]
proof fn lemma_vote(c: Cluster, h: History, i: NodeId, candidate: NodeId, n2: NodeView) -> (h2:
    History)
    requires
        inv(c, h),
        c.nodes.contains_key(i),
        c.nodes.contains_key(candidate),
        c.nodes[i].voted_for is None,
        h.campaigns.contains_key((c.nodes[i].current_term, candidate)),
        covers(h.campaigns[(c.nodes[i].current_term, candidate)], h.full[i]),
        n2 == (NodeView { voted_for: Some(candidate), ..c.nodes[i] }),
    ensures
        inv(c.with(i, n2), h2),
        extends(h, h2),
        h2.full == h.full,
        h2.ballots.contains_key((n2.current_term, i)),
        h2.ballots[(n2.current_term, i)].candidate == candidate,
{
    let n = c.nodes[i];
    let t = n.current_term;
    let b = Ballot { candidate, log: h.full[i] };
    let h2 = History { ballots: h.ballots.insert((t, i), b), ..h };
    let c2 = c.with(i, n2);
    assert(c2.nodes.dom() =~= c.nodes.dom());
    reveal(own_ok);
    assert(own_ok(c, h, i));
    if h.ballots.contains_key((t, i)) {
        assert(ballot_ok(c, h, t, i));
    }
    assert(extends(h, h2));
    lemma_traced_stable(h, h2, h.full[i]);
    lemma_settled_stable(h, h2, c.members(), h.full[i], h.full[i], n.commit_index as int, t, t);
    assert forall|x: Term| h2.ballots.contains_key((x, i)) implies #[trigger] ballot_ok(
        c2,
        h2,
        x,
        i,
    ) by {
        if x != t {
            assert(ballot_ok(c, h, x, i));
        }
        let s = h2.ballots[(x, i)].log;
        lemma_traced_stable(h, h2, s);
        assert forall|u: Term, k: int| u < x && #[trigger] h2.acked(i, u, k) && 0 <= k implies h2.kept(
            s,
            u,
            k,
            x as int,
        ) by {
            assert(h.acked(i, u, k));
            assert(ack_ok(c, h, u, i));
            if x == t {
                assert(h.kept(s, u, k, t as int));
            }
            lemma_kept_stable(h, h2, s, u, k, x as int, x as int);
        }
    }
    assert forall|x: Term| h2.campaigns.contains_key((x, i)) implies #[trigger] campaign_ok(
        c2,
        h2,
        x,
        i,
    ) by {
        assert(campaign_ok(c, h, x, i));
        lemma_traced_stable(h, h2, h.campaigns[(x, i)]);
    }
    assert forall|x: Term| h2.acks.contains_key((x, i)) implies #[trigger] ack_ok(c2, h2, x, i) by {
        assert(ack_ok(c, h, x, i));
        assert forall|k: int| 0 <= k <= h2.acks[(x, i)] implies #[trigger] h2.kept(
            h2.full[i],
            x,
            k,
            t as int,
        ) by {
            assert(h.kept(h.full[i], x, k, t as int));
            lemma_kept_stable(h, h2, h.full[i], x, k, t as int, t as int);
        }
    }
    if n.role == Role::Leader {
        assert(leader_ok(c2, h2, i)) by {
            assert forall|p: NodeId| #[trigger] n.match_index.contains_key(p) implies {
                ||| n.match_index[p] <= n.log.snapshot_index
                ||| h2.acked(p, t, n.match_index[p] as int)
            } by {
                if !(n.match_index[p] <= n.log.snapshot_index) {
                    assert(h.acked(p, t, n.match_index[p] as int));
                }
            }
        }
    }
    assert(node_ok(c2, h2, i));
    lemma_calm(c, h, c2, h2, i);
    h2
}

/// A node campaigns for the next term.
#[verifier::rlimit(40)]
proof fn lemma_campaign(c: Cluster, h: History, i: NodeId, n2: NodeView) -> (h2: History)
    requires
        inv(c, h),
        c.nodes.contains_key(i),
        c.nodes[i].current_term < Term::MAX,
        n2 == c.nodes[i].as_candidate(n2.election_deadline),
    ensures
        inv(c.with(i, n2), h2),
        extends(h, h2),
        h2.full == h.full,
        h2.campaigns.contains_key((n2.current_term, i)),
        h2.campaigns[(n2.current_term, i)] == h.full[i],
{
    let n = c.nodes[i];
    let t = n2.current_term;
    let full = h.full[i];
    let h2 = History {
        ballots: h.ballots.insert((t, i), Ballot { candidate: i, log: full }),
        campaigns: h.campaigns.insert((t, i), full),
        ..h
    };
    let c2 = c.with(i, n2);
    assert(c2.nodes.dom() =~= c.nodes.dom());
    reveal(own_ok);
    assert(own_ok(c, h, i));
    if h.ballots.contains_key((t, i)) {
        assert(ballot_ok(c, h, t, i));
    }
    if h.campaigns.contains_key((t, i)) {
        assert(campaign_ok(c, h, t, i));
    }
    if h.reigns.contains_key(t) {
        reveal(reign_ok);
        assert(reign_ok(c, h, t));
    }
    assert(extends(h, h2));
    lemma_traced_stable(h, h2, full);
    lemma_settled_stable(
        h,
        h2,
        c.members(),
        full,
        full,
        n.commit_index as int,
        n.current_term,
        t,
    );
    assert forall|x: Term| h2.ballots.contains_key((x, i)) implies #[trigger] ballot_ok(
        c2,
        h2,
        x,
        i,
    ) by {
        if x != t {
            assert(ballot_ok(c, h, x, i));
        }
        let s = h2.ballots[(x, i)].log;
        lemma_traced_stable(h, h2, s);
        assert forall|u: Term, k: int| u < x && #[trigger] h2.acked(i, u, k) && 0 <= k implies h2.kept(
            s,
            u,
            k,
            x as int,
        ) by {
            assert(h.acked(i, u, k));
            assert(ack_ok(c, h, u, i));
            if x == t {
                assert(h.kept(s, u, k, n.current_term as int));
                lemma_kept_stable(h, h2, s, u, k, n.current_term as int, x as int);
            } else {
                lemma_kept_stable(h, h2, s, u, k, x as int, x as int);
            }
        }
    }
    assert forall|x: Term| h2.campaigns.contains_key((x, i)) implies #[trigger] campaign_ok(
        c2,
        h2,
        x,
        i,
    ) by {
        if x != t {
            assert(campaign_ok(c, h, x, i));
            lemma_traced_stable(h, h2, h.campaigns[(x, i)]);
        }
    }
    assert forall|x: Term| h2.acks.contains_key((x, i)) implies #[trigger] ack_ok(c2, h2, x, i) by {
        assert(ack_ok(c, h, x, i));
        assert forall|k: int| 0 <= k <= h2.acks[(x, i)] implies #[trigger] h2.kept(
            full,
            x,
            k,
            t as int,
        ) by {
            assert(h.kept(full, x, k, n.current_term as int));
            lemma_kept_stable(h, h2, full, x, k, n.current_term as int, t as int);
        }
    }
    assert(candidate_ok(c2, h2, i));
    assert(node_ok(c2, h2, i));
    lemma_calm(c, h, c2, h2, i);
    h2
}

/// A candidate counts another vote.
proof fn lemma_count_vote(c: Cluster, h: History, i: NodeId, from: NodeId, n2: NodeView)
    requires
        inv(c, h),
        c.nodes.contains_key(i),
        c.nodes[i].role == Role::Candidate,
        c.nodes.contains_key(from),
        h.ballots.contains_key((c.nodes[i].current_term, from)),
        h.ballots[(c.nodes[i].current_term, from)].candidate == i,
        n2 == (NodeView { votes: c.nodes[i].votes.insert(from), ..c.nodes[i] }),
    ensures
        inv(c.with(i, n2), h),
{
    reveal(own_ok);
    assert(own_ok(c, h, i));
    let c2 = c.with(i, n2);
    assert(c2.nodes.dom() =~= c.nodes.dom());
    assert(candidate_ok(c2, h, i));
    lemma_local(c, h, i, n2);
}

/// A candidate with a majority of votes becomes the leader of its term, which
/// has no other.
#[verifier::rlimit(40)]
proof fn lemma_win(c: Cluster, h: History, i: NodeId) -> (h2: History)
    requires
        inv(c, h),
        c.nodes.contains_key(i),
        c.nodes[i].role == Role::Candidate,
        c.nodes[i].votes.len() >= c.nodes[i].quorum(),
    ensures
        inv(c.with(i, c.nodes[i].become_leader()), h2),
        extends(h, h2),
        h2.full == h.full,
{
    let n = c.nodes[i];
    let t = n.current_term;
    let full = h.full[i];
    let n2 = n.become_leader();
    let c2 = c.with(i, n2);
    let r = Reign { leader: i, electors: n.votes, base: full, log: full };
    let h2 = History {
        reigns: h.reigns.insert(t, r),
        acks: h.acks.insert((t, i), full.len() as int),
        ..h
    };
    assert(c2.nodes.dom() =~= c.nodes.dom());
    lemma_quorum(c, h, i);
    reveal(own_ok);
    assert(own_ok(c, h, i));
    if h.reigns.contains_key(t) {
        reveal(reign_ok);
        assert(reign_ok(c, h, t));
        lemma_majorities_meet(c.members(), n.votes, h.reigns[t].electors);
        let v = choose|v: NodeId| n.votes.contains(v) && h.reigns[t].electors.contains(v);
        assert(n.votes.contains(v) && h.reigns[t].electors.contains(v));
        assert(false);
    }
    if h.acks.contains_key((t, i)) {
        assert(ack_ok(c, h, t, i));
        assert(false);
    }
    assert(extends(h, h2));
    lemma_traced_stable(h, h2, full);
    lemma_settled_stable(h, h2, c.members(), full, full, n.commit_index as int, t, t);
    assert(campaign_ok(c, h, t, i));
    assert forall|x: Term| h2.ballots.contains_key((x, i)) implies #[trigger] ballot_ok(
        c2,
        h2,
        x,
        i,
    ) by {
        assert(ballot_ok(c, h, x, i));
        let s = h2.ballots[(x, i)].log;
        lemma_traced_stable(h, h2, s);
        assert forall|u: Term, k: int| u < x && #[trigger] h2.acked(i, u, k) && 0 <= k implies h2.kept(
            s,
            u,
            k,
            x as int,
        ) by {
            assert(h.acked(i, u, k));
            assert(ack_ok(c, h, u, i));
            lemma_kept_stable(h, h2, s, u, k, x as int, x as int);
        }
    }
    assert forall|x: Term| h2.campaigns.contains_key((x, i)) implies #[trigger] campaign_ok(
        c2,
        h2,
        x,
        i,
    ) by {
        assert(campaign_ok(c, h, x, i));
        lemma_traced_stable(h, h2, h.campaigns[(x, i)]);
    }
    assert forall|x: Term| h2.acks.contains_key((x, i)) implies #[trigger] ack_ok(c2, h2, x, i) by {
        if x != t {
            assert(ack_ok(c, h, x, i));
            assert forall|k: int| 0 <= k <= h2.acks[(x, i)] implies #[trigger] h2.kept(
                full,
                x,
                k,
                t as int,
            ) by {
                assert(h.kept(full, x, k, t as int));
                lemma_kept_stable(h, h2, full, x, k, t as int, t as int);
            }
        } else {
            assert forall|k: int| 0 <= k <= h2.acks[(x, i)] implies #[trigger] h2.kept(
                full,
                x,
                k,
                t as int,
            ) by {
                assert(h2.retains(full, x, k));
            }
        }
    }
    assert(leader_ok(c2, h2, i));
    assert(node_ok(c2, h2, i));
    assert(reign_ok(c2, h2, t)) by {
        reveal(reign_ok);
        assert forall|v: NodeId| #[trigger] r.electors.contains(v) implies {
            &&& h2.ballots.contains_key((t, v))
            &&& h2.ballots[(t, v)].candidate == r.leader
            &&& forall|u: Term, k: int|
                u < t && #[trigger] h2.acked(v, u, k) && 0 <= k ==> h2.kept(
                    h2.ballots[(t, v)].log,
                    u,
                    k,
                    t - 1,
                )
        } by {
            assert(h.ballots.contains_key((t, v)));
            assert(own_ok(c, h, v));
            assert(ballot_ok(c, h, t, v));
            let s = h.ballots[(t, v)].log;
            assert forall|u: Term, k: int| u < t && #[trigger] h2.acked(v, u, k) && 0 <= k implies h2.kept(
                s,
                u,
                k,
                t - 1,
            ) by {
                assert(h.acked(v, u, k));
                assert(ack_ok(c, h, u, v));
                assert(h.kept(s, u, k, t as int));
                if !h.retains(s, u, k) {
                    let w = choose|w: Term| w <= t as int && #[trigger] h.overrules(w, u, k);
                    assert(w <= t - 1);
                }
                lemma_kept_stable(h, h2, s, u, k, t - 1, t - 1);
            }
        }
    }
    lemma_calm(c, h, c2, h2, i);
    h2
}

// ---- replication ----
/// What a log keeps, a longer log keeps.
proof fn lemma_kept_longer(
    h: History,
    s: Seq<EntryView>,
    s2: Seq<EntryView>,
    t: Term,
    n: int,
    b: int,
)
    requires
        h.kept(s, t, n, b),
        share(s, s2, s.len() as int),
    ensures
        h.kept(s2, t, n, b),
{
    if h.retains(s, t, n) {
        lemma_share_less(s, s2, s.len() as int, n);
        assert(h.retains(s2, t, n));
    }
}

/// A prefix of a traced log is traced.
proof fn lemma_traced_take(h: History, s: Seq<EntryView>, n: int)
    requires
        h.traced(s),
        0 <= n <= s.len(),
    ensures
        h.traced(s.take(n)),
{
    assert forall|k: int| 0 <= k < n implies #[trigger] h.backs(s.take(n), k) by {
        assert(h.backs(s, k));
        assert(s.take(n).take(k + 1) =~= s.take(k + 1));
    }
}

/// The leader adds a command to its log.
#[verifier::rlimit(40)]
proof fn lemma_submit(c: Cluster, h: History, i: NodeId, e: EntryView, n2: NodeView) -> (h2:
    History)
    requires
        inv(c, h),
        c.nodes.contains_key(i),
        c.nodes[i].role == Role::Leader,
        c.nodes[i].log.last_index() + 1 < LogIndex::MAX,
        e.term == c.nodes[i].current_term,
        n2 == (NodeView { log: c.nodes[i].log.append(e), ..c.nodes[i] }),
    ensures
        inv(c.with(i, n2), h2),
        extends(h, h2),
        remembers(c, h, h2),
{
    let n = c.nodes[i];
    let t = n.current_term;
    let full = h.full[i];
    let full2 = full.push(e);
    let r = h.reigns[t];
    let r2 = Reign { log: full2, ..r };
    let h2 = History {
        reigns: h.reigns.insert(t, r2),
        acks: h.acks.insert((t, i), full2.len() as int),
        full: h.full.insert(i, full2),
        ..h
    };
    let c2 = c.with(i, n2);
    assert(c2.nodes.dom() =~= c.nodes.dom());
    reveal(own_ok);
    assert(own_ok(c, h, i));
    assert(share(full, full2, full.len() as int)) by {
        assert(full.take(full.len() as int) =~= full2.take(full.len() as int));
    }
    assert(extends(h, h2)) by {
        assert forall|k: (Term, NodeId)| #[trigger] h.acks.contains_key(k) implies h2.acks.contains_key(
        k) && h.acks[k] <= h2.acks[k] by {}
    }
    assert(h2.traced(full2)) by {
        assert forall|k: int| 0 <= k < full2.len() implies #[trigger] h2.backs(full2, k) by {
            if k < full.len() {
                assert(h.backs(full, k));
                let x = full[k].term;
                lemma_share_stable(full, h.reigns[x].log, h2.reigns[x].log, k + 1);
                assert(full2.take(k + 1) =~= full.take(k + 1));
            }
        }
    }
    assert(rep(n2.log, full2)) by {
        assert(n2.log.entries =~= full2.skip(n.log.snapshot_index as int));
    }
    lemma_share_less(full, full2, full.len() as int, n.commit_index as int);
    lemma_settled_stable(h, h2, c.members(), full, full2, n.commit_index as int, t, t);
    assert forall|x: Term| h2.ballots.contains_key((x, i)) implies #[trigger] ballot_ok(
        c2,
        h2,
        x,
        i,
    ) by {
        assert(ballot_ok(c, h, x, i));
        let s = h2.ballots[(x, i)].log;
        lemma_traced_stable(h, h2, s);
        assert forall|u: Term, k: int| u < x && #[trigger] h2.acked(i, u, k) && 0 <= k implies h2.kept(
            s,
            u,
            k,
            x as int,
        ) by {
            assert(h.acked(i, u, k));
            assert(ack_ok(c, h, u, i));
            lemma_kept_stable(h, h2, s, u, k, x as int, x as int);
        }
    }
    assert forall|x: Term| h2.campaigns.contains_key((x, i)) implies #[trigger] campaign_ok(
        c2,
        h2,
        x,
        i,
    ) by {
        assert(campaign_ok(c, h, x, i));
        lemma_traced_stable(h, h2, h.campaigns[(x, i)]);
    }
    assert forall|x: Term| h2.acks.contains_key((x, i)) implies #[trigger] ack_ok(c2, h2, x, i) by {
        if x != t {
            assert(ack_ok(c, h, x, i));
            assert forall|k: int| 0 <= k <= h2.acks[(x, i)] implies #[trigger] h2.kept(
                full2,
                x,
                k,
                t as int,
            ) by {
                assert(h.kept(full, x, k, t as int));
                lemma_kept_stable(h, h2, full, x, k, t as int, t as int);
                lemma_kept_longer(h2, full, full2, x, k, t as int);
            }
        } else {
            assert forall|k: int| 0 <= k <= h2.acks[(x, i)] implies #[trigger] h2.kept(
                full2,
                x,
                k,
                t as int,
            ) by {
                assert(h2.retains(full2, x, k));
            }
        }
    }
    assert(leader_ok(c2, h2, i)) by {
        assert forall|p: NodeId| #[trigger] n2.match_index.contains_key(p) implies {
            ||| n2.match_index[p] <= n2.log.snapshot_index
            ||| h2.acked(p, t, n2.match_index[p] as int)
        } by {
            if !(n.match_index[p] <= n.log.snapshot_index) {
                assert(h.acked(p, t, n.match_index[p] as int));
            }
        }
    }
    assert(node_ok(c2, h2, i));
    assert(reign_ok(c2, h2, t)) by {
        reveal(reign_ok);
        assert(reign_ok(c, h, t));
        lemma_share_less(full, full2, full.len() as int, r.base.len() as int);
        lemma_share_trans(r.base, r.log, full2, r.base.len() as int);
        assert forall|v: NodeId| #[trigger] r.electors.contains(v) implies {
            &&& h2.ballots.contains_key((t, v))
            &&& h2.ballots[(t, v)].candidate == r.leader
            &&& forall|u: Term, k: int|
                u < t && #[trigger] h2.acked(v, u, k) && 0 <= k ==> h2.kept(
                    h2.ballots[(t, v)].log,
                    u,
                    k,
                    t - 1,
                )
        } by {
            assert(h.ballots.contains_key((t, v)));
            let s = h.ballots[(t, v)].log;
            assert forall|u: Term, k: int| u < t && #[trigger] h2.acked(v, u, k) && 0 <= k implies h2.kept(
                s,
                u,
                k,
                t - 1,
            ) by {
                assert(h.acked(v, u, k));
                assert(own_ok(c, h, v));
                assert(ack_ok(c, h, u, v));
                lemma_kept_stable(h, h2, s, u, k, t - 1, t - 1);
            }
        }
    }
    assert forall|j: NodeId, m: int, b: Term|
        c.nodes.contains_key(j) && b <= c.nodes[j].current_term && #[trigger] h.settled(
            c.members(),
            h.full[j],
            m,
            b,
        ) implies h2.settled(c.members(), h2.full[j], m, b) by {
        if j == i {
            lemma_share_less(full, full2, full.len() as int, m);
        }
        lemma_settled_stable(h, h2, c.members(), h.full[j], h2.full[j], m, b, b);
    }
    lemma_calm(c, h, c2, h2, i);
    h2
}

/// A log that stores a leader's entries ends up with that leader's log through
/// the last of them, and loses nothing on which it agreed with the leader.
#[verifier::rlimit(40)]
proof fn lemma_splice(
    h: History,
    log: LogView,
    full: Seq<EntryView>,
    lead: Seq<EntryView>,
    prev: LogIndex,
    entries: Seq<EntryView>,
) -> (full2: Seq<EntryView>)
    requires
        rep(log, full),
        h.traced(full),
        h.traced(lead),
        prev + entries.len() <= lead.len(),
        entries == lead.subrange(prev as int, prev + entries.len()),
        share(full, lead, log.snapshot_index as int),
        prev > log.snapshot_index ==> share(full, lead, prev as int),
        log.last_index() + entries.len() < LogIndex::MAX,
    ensures
        rep(log.splice(prev, entries), full2),
        log.splice(prev, entries).snapshot_index == log.snapshot_index,
        share(full2, lead, prev + entries.len()),
        full2 == full || full2 == lead.take(prev + entries.len()),
        forall|n: int| #[trigger] share(full, lead, n) ==> share(full2, lead, n),
{
    super::model::lemma_agreed_exists(log, prev, entries);
    let k = choose|k: int| log.is_agreed(prev, entries, k);
    assert(log.is_agreed(prev, entries, k));
    let end = prev + entries.len();
    lemma_rep_terms(log, full);
    // The leading entries that the log has are the leader's.
    if k > 0 && prev + k > log.snapshot_index {
        assert(log.has_already(prev, entries, k - 1));
        assert(log.term_at(prev + k) == Some(entries[k - 1].term));
        assert(entries[k - 1] == lead[prev + k - 1]);
        lemma_matching(h, full, lead, prev + k - 1);
    }
    if k == entries.len() {
        if end <= log.snapshot_index {
            lemma_share_less(full, lead, log.snapshot_index as int, end);
        }
        full
    } else {
        let cut = prev + k;
        assert(!log.has_already(prev, entries, k));
        assert(cut >= log.snapshot_index);
        assert(share(full, lead, cut));
        lemma_share_less(full, lead, cut, cut);
        let full2 = lead.take(end);
        let kept = log.truncate_after(cut);
        let log2 = log.splice(prev, entries);
        assert(kept.entries =~= full.subrange(log.snapshot_index as int, cut));
        assert(log2.entries =~= full2.skip(log.snapshot_index as int)) by {
            assert forall|x: int| 0 <= x < end - log.snapshot_index implies #[trigger] log2.entries[x]
                == lead[x + log.snapshot_index] by {
                if x < cut - log.snapshot_index {
                    assert(kept.entries[x] == full[x + log.snapshot_index]);
                } else {
                    let y = x - (cut - log.snapshot_index) + k;
                    assert(log2.entries[x] == entries[y]);
                }
            }
        }
        assert(rep(log2, full2));
        assert(full2.take(end) =~= lead.take(end));
        assert forall|n: int| #[trigger] share(full, lead, n) implies share(full2, lead, n) by {
            if n > cut {
                lemma_share_less(full, lead, n, n);
                assert(full[cut] == lead[cut]);
                assert(log.term_at(cut + 1) == Some(full[cut].term));
                assert(entries[k] == lead[cut]);
                assert(false);
            }
            assert(full2.take(n) =~= lead.take(n));
        }
        full2
    }
}

/// The log of a reign holds no term past it.
proof fn lemma_reign_within(c: Cluster, h: History, t: Term)
    requires
        inv(c, h),
        h.reigns.contains_key(t),
    ensures
        within(h.reigns[t].log, t as int),
        sorted(h.reigns[t].log),
        h.traced(h.reigns[t].log),
{
    reveal(reign_ok);
    assert(reign_ok(c, h, t));
    let r = h.reigns[t];
    assert forall|a: int| 0 <= a < r.log.len() implies (#[trigger] r.log[a]).term <= t by {
        if a < r.base.len() {
            lemma_share_less(r.base, r.log, r.base.len() as int, r.base.len() as int);
            assert(r.base[a].term <= t - 1);
        }
    }
}

/// A follower of the leader of its term takes over a log that agrees with the
/// leader's wherever its own did, through `ack` at least.
#[verifier::rlimit(40)]
proof fn lemma_adopt(
    c: Cluster,
    h: History,
    i: NodeId,
    n2: NodeView,
    full2: Seq<EntryView>,
    ack: int,
) -> (h2: History)
    requires
        inv(c, h),
        c.nodes.contains_key(i),
        c.nodes[i].role == Role::Follower,
        h.reigns.contains_key(c.nodes[i].current_term),
        ({
            let n = c.nodes[i];
            let lead = h.reigns[n.current_term].log;
            &&& 0 <= ack
            &&& share(full2, lead, ack)
            &&& full2 == h.full[i] || full2 == lead.take(full2.len() as int)
            &&& full2.len() <= lead.len() || full2 == h.full[i]
            &&& forall|m: int| #[trigger] share(h.full[i], lead, m) ==> share(full2, lead, m)
            &&& n2.id == n.id
            &&& n2.peers == n.peers
            &&& n2.wf()
            &&& n2.in_order()
            &&& n2.role == n.role
            &&& n2.current_term == n.current_term
            &&& n2.voted_for == n.voted_for
            &&& n.log.snapshot_index <= n2.log.snapshot_index
            &&& n2.log.snapshot_index > 0 ==> n2.snapshot is Some
            &&& rep(n2.log, full2)
            &&& h.settled(c.members(), full2, n2.commit_index as int, n.current_term)
        }),
    ensures
        inv(c.with(i, n2), h2),
        extends(h, h2),
        remembers(c, h, h2),
        h2.acked(i, n2.current_term, ack),
{
    let n = c.nodes[i];
    let t = n.current_term;
    let full = h.full[i];
    let lead = h.reigns[t].log;
    let had = if h.acks.contains_key((t, i)) {
        h.acks[(t, i)]
    } else {
        0
    };
    let most = if had >= ack {
        had
    } else {
        ack
    };
    let h2 = History {
        acks: h.acks.insert((t, i), most),
        full: h.full.insert(i, full2),
        ..h
    };
    let c2 = c.with(i, n2);
    assert(c2.nodes.dom() =~= c.nodes.dom());
    reveal(own_ok);
    assert(own_ok(c, h, i));
    assert(extends(h, h2));
    lemma_reign_within(c, h, t);
    assert(sorted(full2) && within(full2, t as int) && h.traced(full2)) by {
        if full2 != full {
            lemma_traced_take(h, lead, full2.len() as int);
        }
    }
    lemma_traced_stable(h, h2, full2);
    lemma_settled_stable(h, h2, c.members(), full2, full2, n2.commit_index as int, t, t);
    assert forall|x: Term| h2.ballots.contains_key((x, i)) implies #[trigger] ballot_ok(
        c2,
        h2,
        x,
        i,
    ) by {
        assert(ballot_ok(c, h, x, i));
        let s = h2.ballots[(x, i)].log;
        lemma_traced_stable(h, h2, s);
        assert forall|u: Term, k: int| u < x && #[trigger] h2.acked(i, u, k) && 0 <= k implies h2.kept(
            s,
            u,
            k,
            x as int,
        ) by {
            assert(h.acked(i, u, k));
            assert(ack_ok(c, h, u, i));
            lemma_kept_stable(h, h2, s, u, k, x as int, x as int);
        }
    }
    assert forall|x: Term| h2.campaigns.contains_key((x, i)) implies #[trigger] campaign_ok(
        c2,
        h2,
        x,
        i,
    ) by {
        assert(campaign_ok(c, h, x, i));
        lemma_traced_stable(h, h2, h.campaigns[(x, i)]);
    }
    assert forall|x: Term| h2.acks.contains_key((x, i)) implies #[trigger] ack_ok(c2, h2, x, i) by {
        if h.acks.contains_key((x, i)) {
            assert(ack_ok(c, h, x, i));
        }
        assert forall|k: int| 0 <= k <= h2.acks[(x, i)] implies #[trigger] h2.kept(
            full2,
            x,
            k,
            t as int,
        ) by {
            if x == t && k <= ack {
                lemma_share_less(full2, lead, ack, k);
                assert(h2.retains(full2, x, k));
            } else if x == t && !h.acks.contains_key((x, i)) {
            } else {
                assert(h.kept(full, x, k, t as int));
                lemma_kept_adopt(c, h, i, full2, x, k);
                lemma_kept_stable(h, h2, full2, x, k, t as int, t as int);
            }
        }
    }
    assert(node_ok(c2, h2, i));
    assert forall|j: NodeId, m: int, b: Term|
        c.nodes.contains_key(j) && b <= c.nodes[j].current_term && #[trigger] h.settled(
            c.members(),
            h.full[j],
            m,
            b,
        ) implies h2.settled(c.members(), h2.full[j], m, b) by {
        if j == i {
            lemma_settled_in_reign(c, h, full, m, b, t);
            assert(share(full2, lead, m));
            lemma_share_trans(full, lead, full2, m);
        }
        lemma_settled_stable(h, h2, c.members(), h.full[j], h2.full[j], m, b, b);
    }
    lemma_calm(c, h, c2, h2, i);
    h2
}

/// What a follower keeps, it keeps when it takes over its leader's log.
proof fn lemma_kept_adopt(
    c: Cluster,
    h: History,
    i: NodeId,
    full2: Seq<EntryView>,
    x: Term,
    k: int,
)
    requires
        inv(c, h),
        c.nodes.contains_key(i),
        h.reigns.contains_key(c.nodes[i].current_term),
        x <= c.nodes[i].current_term,
        h.kept(h.full[i], x, k, c.nodes[i].current_term as int),
        forall|m: int| #[trigger]
            share(h.full[i], h.reigns[c.nodes[i].current_term].log, m) ==> share(
                full2,
                h.reigns[c.nodes[i].current_term].log,
                m,
            ),
    ensures
        h.kept(full2, x, k, c.nodes[i].current_term as int),
{
    let t = c.nodes[i].current_term;
    let lead = h.reigns[t].log;
    let full = h.full[i];
    if h.retains(full, x, k) {
        if x == t {
            assert(share(full2, lead, k));
            assert(h.retains(full2, x, k));
        } else if h.overrules(t, x, k) {
        } else {
            reveal(reign_ok);
            assert(reign_ok(c, h, t));
            let base = h.reigns[t].base;
            lemma_share_less(base, lead, base.len() as int, k);
            lemma_share_trans(h.reigns[x].log, base, lead, k);
            assert(share(full, lead, k));
            assert(share(full2, lead, k));
            assert(h.retains(full2, x, k));
        }
    }
}

/// A follower accepts its leader's entries.
#[verifier::rlimit(40)]
proof fn lemma_accept(c: Cluster, h: History, i: NodeId, m: Message) -> (h2: History)
    requires
        inv(c, h),
        c.nodes.contains_key(i),
        c.nodes[i].role == Role::Follower,
        msg_ok(c, h, m),
        m matches Message::Append { to, args } && {
            &&& args.term == c.nodes[i].current_term
            &&& c.nodes[i].log.matches(args.prev_log_index, args.prev_log_term)
            &&& c.nodes[i].log.last_index() + args.entries.len() < LogIndex::MAX
        },
    ensures
        inv(c.with(i, c.nodes[i].accept(m->Append_args)), h2),
        extends(h, h2),
        remembers(c, h, h2),
        h2.acked(i, m->Append_args.term, m->Append_args.last_index()),
{
    let args = m->Append_args;
    let n = c.nodes[i];
    let n2 = n.accept(args);
    let t = n.current_term;
    let full = h.full[i];
    reveal(msg_ok);
    let lead = h.reigns[t].log;
    assert(rep(n.log, full) && node_ok(c, h, i)) by {
        reveal(own_ok);
        assert(own_ok(c, h, i));
    }
    lemma_rep_terms(n.log, full);
    lemma_reign_within(c, h, t);
    lemma_settled_in_reign(c, h, full, n.commit_index as int, t, t);
    lemma_share_less(full, lead, n.commit_index as int, n.log.snapshot_index as int);
    if args.prev_log_index > n.log.snapshot_index {
        lemma_matching(h, full, lead, args.prev_log_index - 1);
    }
    let full2 = lemma_splice(h, n.log, full, lead, args.prev_log_index, args.entries);
    assert(share(full2, lead, n.commit_index as int));
    lemma_share_less(full2, lead, args.last_index(), args.leader_commit as int);
    assert(n2.commit_index >= n.commit_index);
    assert(h.settled(c.members(), full2, n2.commit_index as int, t)) by {
        lemma_share_self(h);
        if args.leader_commit > n.commit_index {
            lemma_settled_stable(
                h,
                h,
                c.members(),
                lead,
                full2,
                args.leader_commit as int,
                t,
                t,
            );
        } else {
            lemma_share_trans(full, lead, full2, n.commit_index as int);
            lemma_settled_stable(h, h, c.members(), full, full2, n.commit_index as int, t, t);
        }
    }
    lemma_adopt(c, h, i, n2, full2, args.last_index())
}

/// A follower installs its leader's snapshot.
#[verifier::rlimit(40)]
proof fn lemma_install(c: Cluster, h: History, i: NodeId, m: Message, n2: NodeView) -> (h2:
    History)
    requires
        inv(c, h),
        c.nodes.contains_key(i),
        c.nodes[i].role == Role::Follower,
        msg_ok(c, h, m),
        m matches Message::Install { to, args } && {
            &&& args.term == c.nodes[i].current_term
            &&& args.last_included_index > c.nodes[i].last_applied
            &&& args.last_included_index < LogIndex::MAX
            &&& n2 == c.nodes[i].install(
                args.last_included_index,
                args.last_included_term,
                args.data,
            )
        },
    ensures
        inv(c.with(i, n2), h2),
        extends(h, h2),
        remembers(c, h, h2),
{
    let args = m->Install_args;
    let n = c.nodes[i];
    let t = n.current_term;
    let s = args.last_included_index;
    let full = h.full[i];
    reveal(msg_ok);
    let lead = h.reigns[t].log;
    assert(rep(n.log, full) && node_ok(c, h, i)) by {
        reveal(own_ok);
        assert(own_ok(c, h, i));
    }
    lemma_rep_terms(n.log, full);
    lemma_reign_within(c, h, t);
    lemma_share_self(h);
    lemma_settled_in_reign(c, h, full, n.commit_index as int, t, t);
    if n.log.term_at(s as int) == Some(args.last_included_term) {
        lemma_matching(h, full, lead, s - 1);
        lemma_share_less(full, lead, s as int, 0);
        assert(n2.log.entries =~= full.skip(s as int));
        lemma_settled_stable(h, h, c.members(), lead, full, s as int, t, t);
        lemma_adopt(c, h, i, n2, full, 0)
    } else {
        if s <= n.commit_index {
            lemma_share_less(full, lead, n.commit_index as int, s as int);
            assert(full.take(s as int)[s - 1] == lead.take(s as int)[s - 1]);
            assert(false);
        }
        let full2 = lead.take(s as int);
        assert(n2.log.entries =~= full2.skip(s as int));
        assert(share(lead, full2, s as int)) by {
            assert(full2.take(s as int) =~= lead.take(s as int));
        }
        lemma_settled_stable(h, h, c.members(), lead, full2, s as int, t, t);
        assert forall|k: int| #[trigger] share(full, lead, k) implies share(full2, lead, k) by {
            if k >= s {
                lemma_share_less(full, lead, k, k);
                assert(full[s - 1] == lead[s - 1]);
                assert(n.log.term_at(s as int) == Some(full[s - 1].term));
                assert(false);
            }
            assert(full2.take(k) =~= lead.take(k));
        }
        assert(share(full2, lead, 0)) by {
            assert(full2.take(0) =~= lead.take(0));
        }
        lemma_adopt(c, h, i, n2, full2, 0)
    }
}

/// A filtered sequence repeats nothing that the sequence does not.
proof fn lemma_filter_distinct(s: Seq<NodeId>, f: spec_fn(NodeId) -> bool)
    requires
        s.no_duplicates(),
    ensures
        s.filter(f).no_duplicates(),
        forall|p: NodeId| #[trigger] s.filter(f).contains(p) ==> s.contains(p) && f(p),
    decreases s.len(),
{
    reveal(Seq::filter);
    if s.len() > 0 {
        let rest = s.drop_last();
        lemma_filter_distinct(rest, f);
        assert(!rest.contains(s.last()));
        let out = s.filter(f);
        assert forall|p: NodeId| #[trigger] out.contains(p) implies s.contains(p) && f(p) by {
            let k = choose|k: int| 0 <= k < out.len() && out[k] == p;
            if k < rest.filter(f).len() {
                assert(rest.filter(f)[k] == p);
                assert(rest.filter(f).contains(p));
                let j = choose|j: int| 0 <= j < rest.len() && rest[j] == p;
                assert(s[j] == p);
            } else {
                assert(s[s.len() - 1] == p);
            }
        }
        if f(s.last()) {
            assert forall|a: int, b: int| 0 <= a < b < out.len() implies out[a] != out[b] by {
                assert(rest.filter(f).contains(out[a]));
            }
        }
    }
}

/// The leader moves its commit index to what a majority stores.
#[verifier::rlimit(40)]
proof fn lemma_commit(c: Cluster, h: History, i: NodeId)
    requires
        inv(c, h),
        c.nodes.contains_key(i),
        c.nodes[i].role == Role::Leader,
    ensures
        inv(c.with(i, c.nodes[i].advance_commit()), h),
{
    let n = c.nodes[i];
    let t = n.current_term;
    let n2 = n.advance_commit();
    let m = n2.commit_index as int;
    let c2 = c.with(i, n2);
    assert(c2.nodes.dom() =~= c.nodes.dom());
    assert(node_ok(c, h, i)) by {
        reveal(own_ok);
        assert(own_ok(c, h, i));
    }
    super::model::lemma_advance_commit(n);
    lemma_quorum(c, h, i);
    if m > n.commit_index {
        let full = h.full[i];
        lemma_rep_terms(n.log, full);
        let stores = |p: NodeId| n.matched(p) >= m;
        let f = n.peers.filter(stores);
        lemma_filter_distinct(n.peers, stores);
        f.unique_seq_to_set();
        vstd::seq_lib::seq_to_set_is_finite(f);
        let q = f.to_set().insert(i);
        assert(!f.to_set().contains(i));
        assert(q.len() == n.replicas(m));
        assert forall|v: NodeId| #[trigger] q.contains(v) implies c.members().contains(v)
            && h.acked(v, t, m) by {
            if v != i {
                assert(f.contains(v));
                assert(n.peers.to_set().contains(v));
                assert(n.match_index.contains_key(v));
            }
        }
        assert(h.stored_by(c.members(), q, t, m));
        assert(h.committed(c.members(), t, m));
        assert(h.retains(full, t, m));
    }
    assert(leader_ok(c2, h, i));
    lemma_local(c, h, i, n2);
}

/// A node compacts its log.
#[verifier::rlimit(40)]
proof fn lemma_compact(c: Cluster, h: History, i: NodeId, index: LogIndex, n2: NodeView)
    requires
        inv(c, h),
        c.nodes.contains_key(i),
        c.nodes[i].log.snapshot_index < index <= c.nodes[i].last_applied,
        n2.snapshot is Some,
        n2 == (NodeView {
            log: c.nodes[i].log.compact(index, c.nodes[i].log.term_at(index as int)->0),
            snapshot: n2.snapshot,
            ..c.nodes[i]
        }),
    ensures
        inv(c.with(i, n2), h),
{
    let n = c.nodes[i];
    let c2 = c.with(i, n2);
    let full = h.full[i];
    assert(c2.nodes.dom() =~= c.nodes.dom());
    assert(node_ok(c, h, i)) by {
        reveal(own_ok);
        assert(own_ok(c, h, i));
    }
    lemma_rep_terms(n.log, full);
    assert(n2.log.entries =~= full.skip(index as int));
    assert(rep(n2.log, full));
    if n.role == Role::Leader {
        assert(leader_ok(c2, h, i));
    }
    lemma_local(c, h, i, n2);
}

/// A prefix of what is settled is settled.
pub(super) proof fn lemma_settled_less(
    h: History,
    members: Set<NodeId>,
    s: Seq<EntryView>,
    n: int,
    k: int,
    b: Term,
)
    requires
        h.settled(members, s, n, b),
        0 <= k <= n,
    ensures
        h.settled(members, s, k, b),
{
    if k > 0 {
        let (t, m) = choose|t: Term, m: int| #[trigger]
            h.committed(members, t, m) && t <= b && n <= m && h.retains(s, t, n);
        lemma_share_less(s, h.reigns[t].log, n, k);
        assert(h.retains(s, t, k));
    }
}

/// A node restarts from what it saved.
#[verifier::rlimit(40)]
proof fn lemma_restart(c: Cluster, h: History, i: NodeId, n2: NodeView)
    requires
        inv(c, h),
        c.nodes.contains_key(i),
        n2 == NodeView::restored(
            c.nodes[i].id,
            c.nodes[i].peers,
            c.nodes[i].timing,
            c.nodes[i].persistent(),
            n2.last_leader_contact,
            n2.election_deadline,
        ),
    ensures
        inv(c.with(i, n2), h),
{
    let n = c.nodes[i];
    let full = h.full[i];
    assert(c.with(i, n2).nodes.dom() =~= c.nodes.dom());
    assert(node_ok(c, h, i)) by {
        reveal(own_ok);
        assert(own_ok(c, h, i));
    }
    lemma_settled_less(
        h,
        c.members(),
        full,
        n.commit_index as int,
        n.log.snapshot_index as int,
        n.current_term,
    );
    lemma_local(c, h, i, n2);
}

// ---- every event ----
/// A record that keeps each node's log keeps what it has committed.
proof fn lemma_remembers(c: Cluster, h: History, h2: History)
    requires
        inv(c, h),
        extends(h, h2),
        h2.full == h.full,
    ensures
        remembers(c, h, h2),
{
    assert forall|j: NodeId, n: int, b: Term|
        c.nodes.contains_key(j) && b <= c.nodes[j].current_term && #[trigger] h.settled(
            c.members(),
            h.full[j],
            n,
            b,
        ) implies h2.settled(c.members(), h2.full[j], n, b) by {
        lemma_settled_stable(h, h2, c.members(), h.full[j], h.full[j], n, b, b);
    }
}

proof fn lemma_with_twice(c: Cluster, i: NodeId, a: NodeView, b: NodeView)
    ensures
        c.with(i, a).with(i, b) == c.with(i, b),
        c.with(i, a).nodes[i] == a,
        c.with(i, a).nodes.contains_key(i),
        c.nodes.contains_key(i) ==> c.with(i, c.nodes[i]) == c,
        c.nodes.contains_key(i) ==> c.with(i, a).members() == c.members(),
{
    assert(c.with(i, a).with(i, b).nodes =~= c.with(i, b).nodes);
    if c.nodes.contains_key(i) {
        assert(c.with(i, c.nodes[i]).nodes =~= c.nodes);
        assert(c.with(i, a).members() =~= c.members());
    }
}

/// Steps of one node one after the other.
proof fn lemma_extends_trans(a: History, b: History, d: History)
    requires
        extends(a, b),
        extends(b, d),
    ensures
        extends(a, d),
{
    assert forall|t: Term| #[trigger] a.reigns.contains_key(t) implies share(
        a.reigns[t].log,
        d.reigns[t].log,
        a.reigns[t].log.len() as int,
    ) by {
        assert(b.reigns.contains_key(t));
        let n = a.reigns[t].log.len() as int;
        lemma_share_less(b.reigns[t].log, d.reigns[t].log, b.reigns[t].log.len() as int, n);
    }
    assert forall|k: (Term, NodeId)| #[trigger] a.ballots.contains_key(k) implies d.ballots.contains_key(
    k) && d.ballots[k] == a.ballots[k] by {
        assert(b.ballots.contains_key(k));
    }
    assert forall|k: (Term, NodeId)| #[trigger] a.campaigns.contains_key(k) implies d.campaigns.contains_key(
    k) && d.campaigns[k] == a.campaigns[k] by {
        assert(b.campaigns.contains_key(k));
    }
    assert forall|k: (Term, NodeId)| #[trigger] a.acks.contains_key(k) implies d.acks.contains_key(
    k) && a.acks[k] <= d.acks[k] by {
        assert(b.acks.contains_key(k));
    }
}

/// A reply from a newer term.
proof fn lemma_superseded(c: Cluster, h: History, i: NodeId, term: Term)
    requires
        inv(c, h),
        c.nodes.contains_key(i),
    ensures
        inv(c.with(i, c.nodes[i].superseded(term)), h),
{
    let a = c.nodes[i].step_down(term);
    let b = c.nodes[i].superseded(term);
    lemma_step_down(c, h, i, term);
    lemma_with_twice(c, i, a, b);
    assert(node_ok(c, h, i)) by {
        reveal(own_ok);
        assert(own_ok(c, h, i));
    }
    lemma_quiet(c.with(i, a), h, i, b);
}

/// Yielding to a leader.
proof fn lemma_follow(c: Cluster, h: History, i: NodeId, n2: NodeView, term: Term, leader: NodeId)
    requires
        inv(c, h),
        c.nodes.contains_key(i),
        n2 == c.nodes[i].follow(term, leader, n2.last_leader_contact, n2.election_deadline),
    ensures
        inv(c.with(i, n2), h),
{
    let a = c.nodes[i].step_down(term);
    lemma_step_down(c, h, i, term);
    lemma_with_twice(c, i, a, n2);
    assert(node_ok(c, h, i)) by {
        reveal(own_ok);
        assert(own_ok(c, h, i));
    }
    lemma_quiet(c.with(i, a), h, i, n2);
}

#[verifier::rlimit(40)]
proof fn lemma_on_election(c: Cluster, h: History, i: NodeId, e: Event) -> (h2: History)
    requires
        inv(c, h),
        c.enabled(i, e),
        e is Election,
    ensures
        inv(c.after(i, e), h2),
        extends(h, h2),
        remembers(c, h, h2),
{
    let n = c.nodes[i];
    let deadline = e->Election_deadline;
    let a = n.as_candidate(deadline);
    let c1 = c.with(i, a);
    let h1 = lemma_campaign(c, h, i, a);
    let b = a.maybe_become_leader();
    lemma_with_twice(c, i, a, b);
    let c2 = c.with(i, b);
    let h2 = if a.role == Role::Candidate && a.votes.len() >= a.quorum() {
        let h2 = lemma_win(c1, h1, i);
        lemma_extends_trans(h, h1, h2);
        h2
    } else {
        lemma_with_twice(c, i, a, a);
        h1
    };
    assert(node_ok(c, h, i)) by {
        reveal(own_ok);
        assert(own_ok(c, h, i));
    }
    lemma_rep_terms(n.log, h.full[i]);
    let m = Message::Vote(n.start_election(deadline).1);
    assert(msg_ok(c2, h2, m)) by {
        reveal(msg_ok);
        assert(h2.campaigns.contains_key((a.current_term, i)));
    }
    lemma_send(c2, h2, m);
    lemma_remembers(c, h, h2);
    h2
}

#[verifier::rlimit(40)]
proof fn lemma_on_vote(c: Cluster, h: History, i: NodeId, e: Event) -> (h2: History)
    requires
        inv(c, h),
        c.enabled(i, e),
        e is OnVote,
    ensures
        inv(c.after(i, e), h2),
        extends(h, h2),
        remembers(c, h, h2),
{
    let n = c.nodes[i];
    let (args, now, deadline) = match e {
        Event::OnVote { args, now, deadline } => (args, now, deadline),
        _ => arbitrary(),
    };
    let (n2, reply) = n.on_request_vote(args, now, deadline);
    let m = Message::VoteReply {
        from: i,
        to: args.candidate_id,
        pre_vote: args.pre_vote,
        reply,
    };
    let c2 = c.with(i, n2);
    let asked = Message::Vote(args);
    assert(msg_ok(c, h, asked));
    lemma_with_twice(c, i, n, n2);
    lemma_share_self(h);
    if args.pre_vote || args.term < n.current_term {
        assert(msg_ok(c, h, m)) by {
            reveal(msg_ok);
        }
        lemma_send(c, h, m);
        lemma_remembers(c, h, h);
        h
    } else {
        let s = if args.term > n.current_term {
            n.step_down(args.term)
        } else {
            n
        };
        let c1 = c.with(i, s);
        lemma_with_twice(c, i, s, n2);
        if args.term > n.current_term {
            lemma_step_down(c, h, i, args.term);
        }
        assert(inv(c1, h));
        assert(node_ok(c1, h, i)) by {
            reveal(own_ok);
            assert(own_ok(c1, h, i));
        }
        lemma_rep_terms(s.log, h.full[i]);
        if reply.vote_granted {
            let voted = NodeView { voted_for: Some(args.candidate_id), ..s };
            let h2 = if s.voted_for is None {
                assert(covers(h.campaigns[(args.term, args.candidate_id)], h.full[i])
                    && h.campaigns.contains_key((args.term, args.candidate_id))
                    && c.nodes.contains_key(args.candidate_id)) by {
                    reveal(msg_ok);
                }
                lemma_vote(c1, h, i, args.candidate_id, voted)
            } else {
                assert(voted == s);
                h
            };
            lemma_with_twice(c, i, s, voted);
            lemma_with_twice(c, i, voted, n2);
            lemma_quiet(c.with(i, voted), h2, i, n2);
            assert(msg_ok(c2, h2, m)) by {
                reveal(msg_ok);
            }
            lemma_send(c2, h2, m);
            lemma_remembers(c, h, h2);
            h2
        } else {
            assert(msg_ok(c2, h, m)) by {
                reveal(msg_ok);
            }
            lemma_send(c2, h, m);
            lemma_remembers(c, h, h);
            h
        }
    }
}

#[verifier::rlimit(40)]
proof fn lemma_on_vote_reply(c: Cluster, h: History, i: NodeId, e: Event) -> (h2: History)
    requires
        inv(c, h),
        c.enabled(i, e),
        e is OnVoteReply,
    ensures
        inv(c.after(i, e), h2),
        extends(h, h2),
        remembers(c, h, h2),
{
    let n = c.nodes[i];
    let (from, pre_vote, reply) = match e {
        Event::OnVoteReply { from, pre_vote, reply } => (from, pre_vote, reply),
        _ => arbitrary(),
    };
    lemma_share_self(h);
    lemma_remembers(c, h, h);
    lemma_with_twice(c, i, n, n);
    assert(node_ok(c, h, i)) by {
        reveal(own_ok);
        assert(own_ok(c, h, i));
    }
    if reply.term > n.current_term {
        lemma_superseded(c, h, i, reply.term);
        h
    } else if pre_vote {
        lemma_quiet(c, h, i, n.on_pre_vote_reply(from, reply));
        h
    } else if n.role == Role::Candidate && reply.term == n.current_term && reply.vote_granted {
        let got = Message::VoteReply { from, to: i, pre_vote, reply };
        assert(msg_ok(c, h, got));
        let a = NodeView { votes: n.votes.insert(from), ..n };
        assert(c.nodes.contains_key(from) && h.ballots.contains_key((reply.term, from))
            && h.ballots[(reply.term, from)].candidate == i) by {
            reveal(msg_ok);
        }
        lemma_count_vote(c, h, i, from, a);
        let b = a.maybe_become_leader();
        lemma_with_twice(c, i, a, b);
        if a.votes.len() >= a.quorum() {
            let h2 = lemma_win(c.with(i, a), h, i);
            lemma_remembers(c, h, h2);
            h2
        } else {
            h
        }
    } else {
        h
    }
}

#[verifier::rlimit(40)]
proof fn lemma_on_submit(c: Cluster, h: History, i: NodeId, e: Event) -> (h2: History)
    requires
        inv(c, h),
        c.enabled(i, e),
        e is Submit,
    ensures
        inv(c.after(i, e), h2),
        extends(h, h2),
        remembers(c, h, h2),
{
    let n = c.nodes[i];
    let entry = EntryView { term: n.current_term, command: e->Submit_command };
    let a = NodeView { log: n.log.append(entry), ..n };
    let h2 = lemma_submit(c, h, i, entry, a);
    lemma_commit(c.with(i, a), h2, i);
    lemma_with_twice(c, i, a, a.advance_commit());
    h2
}

#[verifier::rlimit(40)]
proof fn lemma_on_send_append(c: Cluster, h: History, i: NodeId, e: Event)
    requires
        inv(c, h),
        c.enabled(i, e),
        e is SendAppend,
    ensures
        inv(c.after(i, e), h),
{
    let n = c.nodes[i];
    let peer = e->SendAppend_peer;
    let args = n.append_args_for(peer);
    let m = Message::Append { to: peer, args };
    assert(node_ok(c, h, i)) by {
        reveal(own_ok);
        assert(own_ok(c, h, i));
    }
    let full = h.full[i];
    lemma_rep_terms(n.log, full);
    lemma_quorum(c, h, i);
    let prev = args.prev_log_index as int;
    assert(n.next_for(peer) >= 1);
    assert(n.log.snapshot_index <= prev <= n.log.last_index());
    assert(args.entries =~= full.subrange(prev, full.len() as int));
    assert(msg_ok(c, h, m)) by {
        reveal(msg_ok);
    }
    lemma_send(c, h, m);
}

#[verifier::rlimit(40)]
proof fn lemma_on_append(c: Cluster, h: History, i: NodeId, e: Event) -> (h2: History)
    requires
        inv(c, h),
        c.enabled(i, e),
        e is OnAppend,
    ensures
        inv(c.after(i, e), h2),
        extends(h, h2),
        remembers(c, h, h2),
{
    let n = c.nodes[i];
    let (args, now, deadline) = match e {
        Event::OnAppend { args, now, deadline } => (args, now, deadline),
        _ => arbitrary(),
    };
    let (n2, reply) = n.on_append_entries(args, now, deadline);
    let got = Message::Append { to: i, args };
    let m = Message::AppendReply {
        from: i,
        to: args.leader_id,
        match_hint: args.last_index() as LogIndex,
        reply,
    };
    let c2 = c.with(i, n2);
    assert(msg_ok(c, h, got));
    lemma_share_self(h);
    lemma_remembers(c, h, h);
    lemma_with_twice(c, i, n, n);
    if args.term < n.current_term {
        assert(msg_ok(c, h, m)) by {
            reveal(msg_ok);
        }
        lemma_send(c, h, m);
        h
    } else {
        let a = n.follow(args.term, args.leader_id, now, deadline);
        let c1 = c.with(i, a);
        lemma_follow(c, h, i, a, args.term, args.leader_id);
        lemma_with_twice(c, i, a, n2);
        assert(msg_ok(c1, h, got));
        assert(node_ok(c1, h, i)) by {
            reveal(own_ok);
            assert(own_ok(c1, h, i));
        }
        lemma_rep_terms(a.log, h.full[i]);
        if a.log.matches(args.prev_log_index, args.prev_log_term) {
            let h2 = lemma_accept(c1, h, i, got);
            assert(args.last_index() <= LogIndex::MAX);
            assert(msg_ok(c2, h2, m)) by {
                reveal(msg_ok);
            }
            lemma_send(c2, h2, m);
            assert(remembers(c, h, h2)) by {
                assert forall|j: NodeId, n: int, b: Term|
                    c.nodes.contains_key(j) && b <= c.nodes[j].current_term && #[trigger] h.settled(
                        c.members(),
                        h.full[j],
                        n,
                        b,
                    ) implies h2.settled(c.members(), h2.full[j], n, b) by {
                    assert(c1.nodes.contains_key(j));
                }
            }
            h2
        } else {
            let prev = args.prev_log_index;
            match a.log.term_at(prev as int) {
                Some(term) => {
                    super::types::lemma_first_of_term(a.log, term, prev);
                },
                None => {},
            }
            assert(msg_ok(c1, h, m)) by {
                reveal(msg_ok);
            }
            lemma_send(c1, h, m);
            h
        }
    }
}

/// The leader learns how far a peer holds its log.
#[verifier::rlimit(40)]
proof fn lemma_note_match(c: Cluster, h: History, i: NodeId, peer: NodeId, index: LogIndex)
    requires
        inv(c, h),
        c.nodes.contains_key(i),
        c.nodes[i].role == Role::Leader,
        index < LogIndex::MAX,
        index <= c.nodes[i].log.snapshot_index || h.acked(
            peer,
            c.nodes[i].current_term,
            index as int,
        ),
    ensures
        inv(c.with(i, c.nodes[i].note_match(peer, index)), h),
{
    let n = c.nodes[i];
    let t = n.current_term;
    let matched = if n.matched(peer) >= index {
        n.matched(peer)
    } else {
        index
    };
    let a = NodeView {
        match_index: n.match_index.insert(peer, matched),
        next_index: n.next_index.insert(peer, (matched + 1) as LogIndex),
        ..n
    };
    let c1 = c.with(i, a);
    lemma_with_twice(c, i, a, n.note_match(peer, index));
    assert(node_ok(c, h, i)) by {
        reveal(own_ok);
        assert(own_ok(c, h, i));
    }
    assert(matched <= n.log.snapshot_index || h.acked(peer, t, matched as int));
    assert(matched <= n.log.last_index()) by {
        if !(matched <= n.log.snapshot_index) {
            reveal(own_ok);
            assert(own_ok(c, h, peer));
            assert(ack_ok(c, h, t, peer));
        }
    }
    assert(leader_ok(c1, h, i));
    lemma_local(c, h, i, a);
    lemma_commit(c1, h, i);
}

#[verifier::rlimit(40)]
proof fn lemma_on_append_reply(c: Cluster, h: History, i: NodeId, e: Event)
    requires
        inv(c, h),
        c.enabled(i, e),
        e is OnAppendReply,
    ensures
        inv(c.after(i, e), h),
{
    let n = c.nodes[i];
    let (from, match_hint, reply) = match e {
        Event::OnAppendReply { from, match_hint, reply } => (from, match_hint, reply),
        _ => arbitrary(),
    };
    let got = Message::AppendReply { from, to: i, match_hint, reply };
    assert(msg_ok(c, h, got));
    lemma_with_twice(c, i, n, n);
    if reply.term > n.current_term {
        lemma_superseded(c, h, i, reply.term);
    } else if n.role != Role::Leader || reply.term != n.current_term {
    } else if reply.success {
        assert(h.acked(from, reply.term, match_hint as int)) by {
            reveal(msg_ok);
        }
        lemma_note_match(c, h, i, from, match_hint);
    } else {
        assert(node_ok(c, h, i)) by {
            reveal(own_ok);
            assert(own_ok(c, h, i));
        }
        let n2 = n.back_off(from, reply);
        let next = n.next_index_after_conflict(from, reply);
        assert(next <= n.log.last_index() + 1) by {
            reveal(msg_ok);
            match (reply.conflict_term, reply.conflict_index) {
                (Some(term), Some(ci)) => {
                    if n.log.has_term(term) {
                        let k = choose|k: int|
                            n.log.holds(k) && (#[trigger] n.log.entry(k)).term == term;
                        super::types::lemma_last_of_term(n.log, term, k as LogIndex);
                    }
                },
                _ => {},
            }
        }
        let c2 = c.with(i, n2);
        assert(c2.nodes.dom() =~= c.nodes.dom());
        assert(leader_ok(c2, h, i));
        lemma_local(c, h, i, n2);
    }
}

#[verifier::rlimit(40)]
proof fn lemma_on_send_install(c: Cluster, h: History, i: NodeId, e: Event)
    requires
        inv(c, h),
        c.enabled(i, e),
        e is SendInstall,
    ensures
        inv(c.after(i, e), h),
{
    let n = c.nodes[i];
    let peer = e->SendInstall_peer;
    let m = Message::Install { to: peer, args: n.install_snapshot_args() };
    assert(node_ok(c, h, i)) by {
        reveal(own_ok);
        assert(own_ok(c, h, i));
    }
    lemma_quorum(c, h, i);
    lemma_settled_less(
        h,
        c.members(),
        h.full[i],
        n.commit_index as int,
        n.log.snapshot_index as int,
        n.current_term,
    );
    assert(msg_ok(c, h, m)) by {
        reveal(msg_ok);
    }
    lemma_send(c, h, m);
}

#[verifier::rlimit(40)]
proof fn lemma_on_install(c: Cluster, h: History, i: NodeId, e: Event) -> (h2: History)
    requires
        inv(c, h),
        c.enabled(i, e),
        e is OnInstall,
    ensures
        inv(c.after(i, e), h2),
        extends(h, h2),
        remembers(c, h, h2),
{
    let n = c.nodes[i];
    let (args, now, deadline) = match e {
        Event::OnInstall { args, now, deadline } => (args, now, deadline),
        _ => arbitrary(),
    };
    let (n2, reply) = n.on_install_snapshot(args, now, deadline);
    let got = Message::Install { to: i, args };
    let m = Message::InstallReply {
        from: i,
        to: args.leader_id,
        last_included_index: args.last_included_index,
        reply,
    };
    let c2 = c.with(i, n2);
    assert(msg_ok(c, h, got));
    lemma_share_self(h);
    lemma_remembers(c, h, h);
    lemma_with_twice(c, i, n, n);
    assert(msg_ok(c2, h, m)) by {
        reveal(msg_ok);
    }
    if args.term < n.current_term {
        lemma_send(c, h, m);
        h
    } else {
        let a = n.follow(args.term, args.leader_id, now, deadline);
        let c1 = c.with(i, a);
        lemma_follow(c, h, i, a, args.term, args.leader_id);
        lemma_with_twice(c, i, a, n2);
        assert(msg_ok(c1, h, got));
        if args.last_included_index <= a.last_applied {
            lemma_send(c1, h, m);
            h
        } else {
            let h2 = lemma_install(c1, h, i, got, n2);
            assert(msg_ok(c2, h2, m)) by {
                reveal(msg_ok);
            }
            lemma_send(c2, h2, m);
            assert(remembers(c, h, h2)) by {
                assert forall|j: NodeId, n: int, b: Term|
                    c.nodes.contains_key(j) && b <= c.nodes[j].current_term && #[trigger] h.settled(
                        c.members(),
                        h.full[j],
                        n,
                        b,
                    ) implies h2.settled(c.members(), h2.full[j], n, b) by {
                    assert(c1.nodes.contains_key(j));
                }
            }
            h2
        }
    }
}

#[verifier::rlimit(40)]
proof fn lemma_on_install_reply(c: Cluster, h: History, i: NodeId, e: Event)
    requires
        inv(c, h),
        c.enabled(i, e),
        e is OnInstallReply,
    ensures
        inv(c.after(i, e), h),
{
    let n = c.nodes[i];
    let (from, index, reply) = match e {
        Event::OnInstallReply { from, last_included_index, reply } => (
            from,
            last_included_index,
            reply,
        ),
        _ => arbitrary(),
    };
    let got = Message::InstallReply { from, to: i, last_included_index: index, reply };
    assert(msg_ok(c, h, got));
    lemma_with_twice(c, i, n, n);
    if reply.term > n.current_term {
        lemma_superseded(c, h, i, reply.term);
    } else if n.role != Role::Leader || reply.term != n.current_term {
    } else {
        assert(index <= n.log.snapshot_index) by {
            reveal(msg_ok);
        }
        lemma_note_match(c, h, i, from, index);
    }
}

/// Every event keeps what holds of the cluster.
#[verifier::rlimit(40)]
pub(super) proof fn lemma_event(c: Cluster, h: History, i: NodeId, e: Event) -> (h2: History)
    requires
        inv(c, h),
        c.enabled(i, e),
    ensures
        inv(c.after(i, e), h2),
        extends(h, h2),
        remembers(c, h, h2),
{
    let n = c.nodes[i];
    lemma_share_self(h);
    lemma_remembers(c, h, h);
    lemma_with_twice(c, i, n, n);
    assert(node_ok(c, h, i)) by {
        reveal(own_ok);
        assert(own_ok(c, h, i));
    }
    match e {
        Event::PreElection { deadline, .. } => {
            let (n2, args) = n.start_pre_election(deadline);
            lemma_quiet(c, h, i, n2);
            let c2 = c.with(i, n2);
            let m = Message::Vote(args);
            assert(msg_ok(c2, h, m)) by {
                reveal(msg_ok);
            }
            lemma_send(c2, h, m);
            h
        },
        Event::Election { .. } => lemma_on_election(c, h, i, e),
        Event::OnVote { .. } => lemma_on_vote(c, h, i, e),
        Event::OnVoteReply { .. } => lemma_on_vote_reply(c, h, i, e),
        Event::Submit { .. } => lemma_on_submit(c, h, i, e),
        Event::SendAppend { .. } => {
            lemma_on_send_append(c, h, i, e);
            h
        },
        Event::OnAppend { .. } => lemma_on_append(c, h, i, e),
        Event::OnAppendReply { .. } => {
            lemma_on_append_reply(c, h, i, e);
            h
        },
        Event::SendInstall { .. } => {
            lemma_on_send_install(c, h, i, e);
            h
        },
        Event::OnInstall { .. } => lemma_on_install(c, h, i, e),
        Event::OnInstallReply { .. } => {
            lemma_on_install_reply(c, h, i, e);
            h
        },
        Event::Compact { index, data } => {
            if n.log.snapshot_index < index <= n.last_applied {
                lemma_compact(c, h, i, index, n.take_snapshot(index, data));
            }
            h
        },
        Event::TakeApplies => {
            lemma_quiet(c, h, i, n.take_applies());
            h
        },
        Event::Restart { now, deadline } => {
            lemma_restart(
                c,
                h,
                i,
                NodeView::restored(n.id, n.peers, n.timing, n.persistent(), now, deadline),
            );
            h
        },
    }
}

// ---- whole runs ----
/// Before anything has happened.
pub(super) open spec fn blank(c: Cluster) -> History {
    History {
        reigns: Map::empty(),
        ballots: Map::empty(),
        campaigns: Map::empty(),
        acks: Map::empty(),
        full: Map::new(|i: NodeId| c.nodes.contains_key(i), |i: NodeId| Seq::<EntryView>::empty()),
    }
}

/// What holds of every reachable state holds at the start.
proof fn lemma_init(c: Cluster)
    requires
        c.initial(),
    ensures
        inv(c, blank(c)),
{
    let h = blank(c);
    assert forall|i: NodeId| c.nodes.contains_key(i) implies #[trigger] own_ok(c, h, i) by {
        reveal(own_ok);
        assert(c.fresh(i));
        let n = c.nodes[i];
        assert(n.log.entries =~= h.full[i].skip(n.log.snapshot_index as int));
        assert(node_ok(c, h, i));
    }
}

/// The record of a run up to state `s`.
pub(super) open spec fn record(states: Seq<Cluster>, s: int) -> History
    decreases s,
{
    if s <= 0 {
        blank(states[0])
    } else {
        choose|h: History| #[trigger]
            inv(states[s], h) && extends(record(states, s - 1), h) && remembers(
                states[s - 1],
                record(states, s - 1),
                h,
            )
    }
}

/// The nodes of a cluster stay the same and no node's term goes back.
pub(super) proof fn lemma_after(c: Cluster, i: NodeId, e: Event)
    requires
        c.enabled(i, e),
    ensures
        c.after(i, e).members() == c.members(),
        forall|j: NodeId| #[trigger]
            c.nodes.contains_key(j) ==> c.nodes[j].current_term <= c.after(i, e).nodes[j].current_term,
{
    assert(c.after(i, e).members() =~= c.members());
}

pub(super) proof fn lemma_record(states: Seq<Cluster>, s: int)
    requires
        super::cluster::is_run(states),
        0 <= s < states.len(),
    ensures
        inv(states[s], record(states, s)),
        s > 0 ==> extends(record(states, s - 1), record(states, s)) && remembers(
            states[s - 1],
            record(states, s - 1),
            record(states, s),
        ),
    decreases s,
{
    if s == 0 {
        lemma_init(states[0]);
    } else {
        lemma_record(states, s - 1);
        assert(super::cluster::is_step(states, s - 1));
        let (i, e) = choose|i: NodeId, e: Event| #[trigger]
            states[s - 1].enabled(i, e) && states[s] == states[s - 1].after(i, e);
        let h = lemma_event(states[s - 1], record(states, s - 1), i, e);
        assert(inv(states[s], h));
    }
}

/// From one state of a run to a later one.
#[verifier::rlimit(40)]
pub(super) proof fn lemma_later(states: Seq<Cluster>, s: int, t: int)
    requires
        super::cluster::is_run(states),
        0 <= s <= t < states.len(),
    ensures
        inv(states[s], record(states, s)),
        inv(states[t], record(states, t)),
        extends(record(states, s), record(states, t)),
        remembers(states[s], record(states, s), record(states, t)),
        states[t].members() == states[s].members(),
        forall|j: NodeId| #[trigger]
            states[s].nodes.contains_key(j) ==> states[s].nodes[j].current_term
                <= states[t].nodes[j].current_term,
    decreases t - s,
{
    lemma_record(states, s);
    lemma_record(states, t);
    if s == t {
        lemma_share_self(record(states, s));
        lemma_remembers(states[s], record(states, s), record(states, s));
    } else {
        lemma_later(states, s, t - 1);
        assert(super::cluster::is_step(states, t - 1));
        let (i, e) = choose|i: NodeId, e: Event| #[trigger]
            states[t - 1].enabled(i, e) && states[t] == states[t - 1].after(i, e);
        lemma_after(states[t - 1], i, e);
        let (c, b) = (states[s], states[t - 1]);
        let (h, h1, h2) = (record(states, s), record(states, t - 1), record(states, t));
        lemma_extends_trans(h, h1, h2);
        assert forall|j: NodeId| #[trigger] c.nodes.contains_key(j) implies c.nodes[j].current_term
            <= states[t].nodes[j].current_term by {
            assert(b.members().contains(j));
            assert(b.nodes.contains_key(j));
        }
        assert forall|j: NodeId, n: int, d: Term|
            c.nodes.contains_key(j) && d <= c.nodes[j].current_term && #[trigger] h.settled(
                c.members(),
                h.full[j],
                n,
                d,
            ) implies h2.settled(c.members(), h2.full[j], n, d) by {
            assert(b.members().contains(j));
            assert(b.nodes.contains_key(j));
            assert(h1.settled(b.members(), h1.full[j], n, d));
        }
    }
}

/// Node `i` as the record shows it.
pub(super) proof fn lemma_node(c: Cluster, h: History, i: NodeId)
    requires
        inv(c, h),
        c.nodes.contains_key(i),
    ensures
        node_ok(c, h, i),
{
    reveal(own_ok);
    assert(own_ok(c, h, i));
}

/// What a log holds at `k` is what the whole log has there.
pub(super) proof fn lemma_rep_entry(log: LogView, full: Seq<EntryView>, k: int)
    requires
        rep(log, full),
        log.holds(k),
    ensures
        log.entry(k) == full[k - 1],
{
}

/// Two logs agree on what both have committed.
pub(super) proof fn lemma_settled_agree(
    c: Cluster,
    h: History,
    a: Seq<EntryView>,
    b: Seq<EntryView>,
    n: int,
    bound_a: Term,
    bound_b: Term,
)
    requires
        inv(c, h),
        n > 0,
        h.settled(c.members(), a, n, bound_a),
        h.settled(c.members(), b, n, bound_b),
    ensures
        share(a, b, n),
{
    let (t, m) = choose|t: Term, m: int| #[trigger]
        h.committed(c.members(), t, m) && t <= bound_a && n <= m && h.retains(a, t, n);
    let (u, k) = choose|u: Term, k: int| #[trigger]
        h.committed(c.members(), u, k) && u <= bound_b && n <= k && h.retains(b, u, n);
    assert(h.settled(c.members(), a, n, t));
    assert(h.settled(c.members(), b, n, u));
    if t <= u {
        lemma_settled_in_reign(c, h, a, n, t, u);
    } else {
        lemma_settled_in_reign(c, h, b, n, u, t);
    }
}

/// A follower that accepts what the leader has for it holds the leader's log.
#[verifier::rlimit(40)]
pub(super) proof fn lemma_acceptance(c: Cluster, h: History, i: NodeId, j: NodeId, e: Event) -> (h2: History)
    requires
        inv(c, h),
        c.nodes.contains_key(i),
        c.nodes[i].role == Role::Leader,
        c.nodes[i].peers.contains(j),
        !c.nodes[i].needs_snapshot(j),
        e is OnAppend,
        e->OnAppend_args == c.nodes[i].append_args_for(j),
        c.nodes[j].log.last_index() + e->OnAppend_args.entries.len() < LogIndex::MAX,
        c.nodes[j].on_append_entries(
            e->OnAppend_args,
            e->OnAppend_now,
            e->OnAppend_deadline,
        ).1.success,
    ensures
        ({
            let after = c.nodes[j].on_append_entries(
                e->OnAppend_args,
                e->OnAppend_now,
                e->OnAppend_deadline,
            ).0;
            &&& rep(after.log, h2.full[j])
            &&& share(h.full[i], h2.full[j], h.full[i].len() as int)
        }),
{
    lemma_node(c, h, i);
    assert(c.members().remove(i).contains(j)) by {
        assert(c.nodes[i].peers.to_set().contains(j));
    }
    let n = c.nodes[i];
    let t = n.current_term;
    let args = n.append_args_for(j);
    let send = Event::SendAppend { peer: j };
    lemma_on_send_append(c, h, i, send);
    let c1 = c.after(i, send);
    let h2 = lemma_on_append(c1, h, j, e);
    let c2 = c1.after(j, e);
    lemma_node(c2, h2, j);
    lemma_rep_terms(n.log, h.full[i]);
    let last = n.log.last_index();
    let answer = Message::AppendReply {
        from: j,
        to: args.leader_id,
        match_hint: args.last_index() as LogIndex,
        reply: c.nodes[j].on_append_entries(args, e->OnAppend_now, e->OnAppend_deadline).1,
    };
    assert(c2.sent.contains(answer));
    assert(msg_ok(c2, h2, answer));
    assert(args.last_index() == last);
    assert(h2.acked(j, t, last)) by {
        reveal(msg_ok);
    }
    assert(ack_ok(c2, h2, t, j)) by {
        reveal(own_ok);
        assert(own_ok(c2, h2, j));
    }
    assert(h2.kept(h2.full[j], t, last, t as int));
    assert(h2.retains(h2.full[j], t, last));
    assert(share(h.reigns[t].log, h2.reigns[t].log, last));
    h2
}

pub(super) proof fn lemma_note_match_commits(n: NodeView, peer: NodeId, index: LogIndex)
    requires
        n.wf(),
    ensures
        n.note_match(peer, index).commit_index >= n.commit_index,
{
    let matched = if n.matched(peer) >= index {
        n.matched(peer)
    } else {
        index
    };
    super::model::lemma_advance_commit(
        NodeView {
            match_index: n.match_index.insert(peer, matched),
            next_index: n.next_index.insert(peer, (matched + 1) as LogIndex),
            ..n
        },
    );
}

} // verus!
