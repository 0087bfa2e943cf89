//! What a cluster promises, over every run: the network may lose, delay, repeat
//! and reorder messages, and nodes may crash and restart, as they please. A node's
//! saves are taken to succeed, as everywhere in [`super::cluster`].

use vstd::prelude::*;

use super::clock::Instant;
use super::cluster::{Cluster, Event, Message};
use super::induction;
use super::model::NodeView;
use super::rpc::InstallView;
use super::types::{EntryView, LogIndex, NodeId, Role, Term};

verus! {

/// Every state of a run keeps its nodes well formed, with their cursors in
/// order: snapshot, applied, committed, last entry. Handing over what is due and
/// taking a snapshot are therefore always possible.
pub proof fn cursors_stay_in_order(states: Seq<Cluster>, s: int, i: NodeId)
    requires
        super::cluster::is_run(states),
        0 <= s < states.len(),
        states[s].nodes.contains_key(i),
    ensures
        states[s].nodes[i].wf(),
        states[s].nodes[i].in_order(),
        states[s].nodes[i].log.snapshot_index > 0 ==> states[s].nodes[i].snapshot is Some,
{
    induction::lemma_record(states, s);
    induction::lemma_node(states[s], induction::record(states, s), i);
}

/// A node's term never decreases, across crashes too.
pub proof fn terms_never_decrease(states: Seq<Cluster>, s: int, t: int, i: NodeId)
    requires
        super::cluster::is_run(states),
        0 <= s <= t < states.len(),
        states[s].nodes.contains_key(i),
    ensures
        states[t].nodes.contains_key(i),
        states[s].nodes[i].current_term <= states[t].nodes[i].current_term,
{
    induction::lemma_later(states, s, t);
    assert(states[t].members().contains(i));
}

/// A node votes for at most one candidate in a term, across crashes too.
pub proof fn one_vote_per_term(states: Seq<Cluster>, s: int, t: int, i: NodeId)
    requires
        super::cluster::is_run(states),
        0 <= s <= t < states.len(),
        states[s].nodes.contains_key(i),
        states[s].nodes[i].current_term == states[t].nodes[i].current_term,
        states[s].nodes[i].voted_for is Some,
    ensures
        states[t].nodes[i].voted_for == states[s].nodes[i].voted_for,
{
    induction::lemma_later(states, s, t);
    induction::lemma_node(states[s], induction::record(states, s), i);
    let k = (states[s].nodes[i].current_term, i);
    assert(induction::record(states, s).ballots.contains_key(k));
    assert(induction::record(states, t).ballots.contains_key(k));
    assert(states[t].members().contains(i));
    reveal(induction::own_ok);
    assert(induction::own_ok(states[t], induction::record(states, t), i));
    assert(induction::ballot_ok(states[t], induction::record(states, t), k.0, i));
}

/// Election safety: a term has at most one leader in the whole run.
pub proof fn one_leader_per_term(states: Seq<Cluster>, s: int, t: int, i: NodeId, j: NodeId)
    requires
        super::cluster::is_run(states),
        0 <= s < states.len(),
        0 <= t < states.len(),
        states[s].nodes.contains_key(i),
        states[t].nodes.contains_key(j),
        states[s].nodes[i].role == Role::Leader,
        states[t].nodes[j].role == Role::Leader,
        states[s].nodes[i].current_term == states[t].nodes[j].current_term,
    ensures
        i == j,
{
    if s <= t {
        induction::lemma_later(states, s, t);
    } else {
        induction::lemma_later(states, t, s);
    }
    induction::lemma_node(states[s], induction::record(states, s), i);
    induction::lemma_node(states[t], induction::record(states, t), j);
    let term = states[s].nodes[i].current_term;
    assert(induction::record(states, s).reigns.contains_key(term));
    assert(induction::record(states, t).reigns.contains_key(term));
}

// ---- whole logs ----
/// In state `s` node `i` holds `entry` at `index`, committed.
pub open spec fn commits(
    states: Seq<Cluster>,
    s: int,
    i: NodeId,
    index: int,
    entry: EntryView,
) -> bool {
    let n = states[s].nodes[i];
    &&& 0 <= s < states.len()
    &&& states[s].nodes.contains_key(i)
    &&& index <= n.commit_index
    &&& n.log.holds(index)
    &&& n.log.entry(index) == entry
}

/// Some node, at some moment of the run, holds `entry` at `index`, committed.
pub open spec fn decides(states: Seq<Cluster>, index: int, entry: EntryView) -> bool {
    exists|s: int, i: NodeId| #[trigger] commits(states, s, i, index, entry)
}

/// What the run decides at `index`.
pub open spec fn decided(states: Seq<Cluster>, index: int) -> EntryView {
    choose|entry: EntryView| decides(states, index, entry)
}

/// The whole log of node `i` in state `s`: the entries that it still holds, behind
/// those that it has compacted away, which are the ones that the run has committed.
pub open spec fn whole_log(states: Seq<Cluster>, s: int, i: NodeId) -> Seq<EntryView> {
    let log = states[s].nodes[i].log;
    Seq::new(
        log.last_index() as nat,
        |k: int|
            if log.holds(k + 1) {
                log.entry(k + 1)
            } else {
                decided(states, k + 1)
            },
    )
}

/// What is committed was committed, at first, by a node that held it.
proof fn lemma_decided(states: Seq<Cluster>, s: int, i: NodeId, index: int) -> (entry: EntryView)
    requires
        super::cluster::is_run(states),
        0 <= s < states.len(),
        states[s].nodes.contains_key(i),
        1 <= index <= states[s].nodes[i].commit_index,
    ensures
        decides(states, index, entry),
    decreases s,
{
    cursors_stay_in_order(states, s, i);
    let n = states[s].nodes[i];
    if n.log.holds(index) {
        assert(commits(states, s, i, index, n.log.entry(index)));
        n.log.entry(index)
    } else {
        assert(s > 0) by {
            if s == 0 {
                assert(states[0].fresh(i));
            }
        }
        let c = states[s - 1];
        let h = induction::record(states, s - 1);
        induction::lemma_record(states, s - 1);
        assert(super::cluster::is_step(states, s - 1));
        let (j, e) = choose|j: NodeId, e: Event| #[trigger]
            c.enabled(j, e) && states[s] == c.after(j, e);
        induction::lemma_after(c, j, e);
        assert(c.members().contains(i));
        cursors_stay_in_order(states, s - 1, i);
        if index <= c.nodes[i].commit_index {
            lemma_decided(states, s - 1, i, index)
        } else {
            assert(e is OnInstall && i == j);
            let leader = e->OnInstall_args.leader_id;
            assert(induction::msg_ok(
                c,
                h,
                Message::Install { to: i, args: e->OnInstall_args },
            ));
            reveal(induction::msg_ok);
            cursors_stay_in_order(states, s - 1, leader);
            lemma_decided(states, s - 1, leader, index)
        }
    }
}

/// The record of a run agrees on what two nodes, at two moments, have committed.
proof fn lemma_records_agree(states: Seq<Cluster>, s: int, t: int, i: NodeId, j: NodeId, n: int)
    requires
        super::cluster::is_run(states),
        0 <= s < states.len(),
        0 <= t < states.len(),
        states[s].nodes.contains_key(i),
        states[t].nodes.contains_key(j),
        0 <= n <= states[s].nodes[i].commit_index,
        n <= states[t].nodes[j].commit_index,
    ensures
        induction::share(
            induction::record(states, s).full[i],
            induction::record(states, t).full[j],
            n,
        ),
    decreases (if s > t {
        1int
    } else {
        0int
    }),
{
    if s > t {
        lemma_records_agree(states, t, s, j, i, n);
    } else {
        induction::lemma_later(states, s, t);
        let (h, h2) = (induction::record(states, s), induction::record(states, t));
        let (a, b) = (states[s].nodes[i], states[t].nodes[j]);
        let m = states[t].members();
        induction::lemma_node(states[s], h, i);
        induction::lemma_node(states[t], h2, j);
        let (u, v) = (h.full[i], h2.full[j]);
        if n > 0 {
            induction::lemma_settled_less(h, m, u, a.commit_index as int, n, a.current_term);
            induction::lemma_settled_less(h2, m, v, b.commit_index as int, n, b.current_term);
            induction::lemma_settled_stable(h, h2, m, u, u, n, a.current_term, a.current_term);
            induction::lemma_settled_agree(
                states[t],
                h2,
                u,
                v,
                n,
                a.current_term,
                b.current_term,
            );
        } else {
            assert(u.take(0) =~= v.take(0));
        }
    }
}

/// What the run decides at an index is what the record shows there of every node
/// that has committed so far.
proof fn lemma_decided_entry(
    states: Seq<Cluster>,
    s: int,
    i: NodeId,
    index: int,
    entry: EntryView,
)
    requires
        super::cluster::is_run(states),
        0 <= s < states.len(),
        states[s].nodes.contains_key(i),
        1 <= index <= states[s].nodes[i].commit_index,
        decides(states, index, entry),
    ensures
        index <= induction::record(states, s).full[i].len(),
        entry == induction::record(states, s).full[i][index - 1],
{
    let (t, j) = choose|t: int, j: NodeId| #[trigger] commits(states, t, j, index, entry);
    lemma_records_agree(states, s, t, i, j, index);
    let (full, other) = (induction::record(states, s).full[i], induction::record(states, t).full[j]);
    induction::lemma_record(states, t);
    induction::lemma_node(states[t], induction::record(states, t), j);
    induction::lemma_rep_entry(states[t].nodes[j].log, other, index);
    assert(full.take(index)[index - 1] == other.take(index)[index - 1]);
}

/// The whole log is the one that the record of the run shows.
proof fn lemma_whole_log(states: Seq<Cluster>, s: int, i: NodeId)
    requires
        super::cluster::is_run(states),
        0 <= s < states.len(),
        states[s].nodes.contains_key(i),
    ensures
        whole_log(states, s, i) == induction::record(states, s).full[i],
        states[s].nodes[i].commit_index <= whole_log(states, s, i).len(),
{
    let n = states[s].nodes[i];
    let (whole, full) = (whole_log(states, s, i), induction::record(states, s).full[i]);
    assert(induction::rep(n.log, full) && n.in_order()) by {
        induction::lemma_record(states, s);
        induction::lemma_node(states[s], induction::record(states, s), i);
    }
    assert forall|k: int| 0 <= k < full.len() implies whole[k] == #[trigger] full[k] by {
        let index = k + 1;
        if n.log.holds(index) {
            induction::lemma_rep_entry(n.log, full, index);
        } else {
            let witness = lemma_decided(states, s, i, index);
            lemma_decided_entry(states, s, i, index, decided(states, index));
        }
    }
    assert(whole =~= full);
}

/// Every entry that a node has committed is one that the run decides, also where
/// the node has compacted it away since; and the run decides no other at its index.
pub proof fn what_is_committed_is_decided(
    states: Seq<Cluster>,
    s: int,
    i: NodeId,
    index: int,
    entry: EntryView,
)
    requires
        super::cluster::is_run(states),
        0 <= s < states.len(),
        states[s].nodes.contains_key(i),
        1 <= index <= states[s].nodes[i].commit_index,
    ensures
        index <= whole_log(states, s, i).len(),
        decides(states, index, entry) <==> entry == whole_log(states, s, i)[index - 1],
{
    lemma_whole_log(states, s, i);
    let found = lemma_decided(states, s, i, index);
    lemma_decided_entry(states, s, i, index, found);
    if decides(states, index, entry) {
        lemma_decided_entry(states, s, i, index, entry);
    }
}

/// What two nodes, at any two moments, have committed is the same sequence of
/// entries, as far as both have committed it: whatever they have compacted away,
/// and however they came by it.
pub proof fn committed_prefixes_agree(
    states: Seq<Cluster>,
    s: int,
    t: int,
    i: NodeId,
    j: NodeId,
    n: int,
)
    requires
        super::cluster::is_run(states),
        0 <= s < states.len(),
        0 <= t < states.len(),
        states[s].nodes.contains_key(i),
        states[t].nodes.contains_key(j),
        0 <= n <= states[s].nodes[i].commit_index,
        n <= states[t].nodes[j].commit_index,
    ensures
        n <= whole_log(states, s, i).len(),
        n <= whole_log(states, t, j).len(),
        whole_log(states, s, i).take(n) == whole_log(states, t, j).take(n),
{
    lemma_whole_log(states, s, i);
    lemma_whole_log(states, t, j);
    lemma_records_agree(states, s, t, i, j, n);
}

/// Log matching: where two logs, at any two moments, hold entries of the same
/// term at the same index, they are identical through that index.
pub proof fn logs_match(states: Seq<Cluster>, s: int, t: int, i: NodeId, j: NodeId, index: int)
    requires
        super::cluster::is_run(states),
        0 <= s < states.len(),
        0 <= t < states.len(),
        states[s].nodes.contains_key(i),
        states[t].nodes.contains_key(j),
        states[s].nodes[i].log.holds(index),
        states[t].nodes[j].log.holds(index),
        states[s].nodes[i].log.entry(index).term == states[t].nodes[j].log.entry(index).term,
    ensures
        whole_log(states, s, i).take(index) == whole_log(states, t, j).take(index),
{
    if s > t {
        logs_match_ordered(states, t, s, j, i, index);
    } else {
        logs_match_ordered(states, s, t, i, j, index);
    }
}

proof fn logs_match_ordered(
    states: Seq<Cluster>,
    s: int,
    t: int,
    i: NodeId,
    j: NodeId,
    index: int,
)
    requires
        super::cluster::is_run(states),
        0 <= s <= t < states.len(),
        states[s].nodes.contains_key(i),
        states[t].nodes.contains_key(j),
        states[s].nodes[i].log.holds(index),
        states[t].nodes[j].log.holds(index),
        states[s].nodes[i].log.entry(index).term == states[t].nodes[j].log.entry(index).term,
    ensures
        whole_log(states, s, i).take(index) == whole_log(states, t, j).take(index),
{
    induction::lemma_later(states, s, t);
    let (h, h2) = (induction::record(states, s), induction::record(states, t));
    induction::lemma_node(states[s], h, i);
    induction::lemma_node(states[t], h2, j);
    lemma_whole_log(states, s, i);
    lemma_whole_log(states, t, j);
    let (a, b) = (h.full[i], h2.full[j]);
    induction::lemma_traced_stable(h, h2, a);
    induction::lemma_rep_entry(states[s].nodes[i].log, a, index);
    induction::lemma_rep_entry(states[t].nodes[j].log, b, index);
    induction::lemma_matching(h2, a, b, index - 1);
}

/// Leader completeness: what a node has committed is in the log of every later
/// leader whose term is at least that node's.
pub proof fn leaders_hold_what_is_committed(
    states: Seq<Cluster>,
    s: int,
    t: int,
    i: NodeId,
    j: NodeId,
    n: int,
)
    requires
        super::cluster::is_run(states),
        0 <= s <= t < states.len(),
        states[s].nodes.contains_key(i),
        states[t].nodes.contains_key(j),
        0 <= n <= states[s].nodes[i].commit_index,
        states[t].nodes[j].role == Role::Leader,
        states[s].nodes[i].current_term <= states[t].nodes[j].current_term,
    ensures
        n <= whole_log(states, t, j).len(),
        whole_log(states, t, j).take(n) == whole_log(states, s, i).take(n),
{
    induction::lemma_later(states, s, t);
    let (h, h2) = (induction::record(states, s), induction::record(states, t));
    let (a, b) = (states[s].nodes[i], states[t].nodes[j]);
    let m = states[s].members();
    induction::lemma_node(states[s], h, i);
    induction::lemma_node(states[t], h2, j);
    lemma_whole_log(states, s, i);
    lemma_whole_log(states, t, j);
    let full = h.full[i];
    induction::lemma_settled_less(h, m, full, a.commit_index as int, n, a.current_term);
    induction::lemma_settled_stable(h, h2, m, full, full, n, a.current_term, a.current_term);
    induction::lemma_settled_in_reign(states[t], h2, full, n, a.current_term, b.current_term);
}

/// What a node has committed stays in its log, or in its snapshot, for good:
/// neither a crash nor a new leader removes it.
pub proof fn committed_entries_are_never_lost(
    states: Seq<Cluster>,
    s: int,
    t: int,
    i: NodeId,
    n: int,
)
    requires
        super::cluster::is_run(states),
        0 <= s <= t < states.len(),
        states[s].nodes.contains_key(i),
        0 <= n <= states[s].nodes[i].commit_index,
    ensures
        n <= whole_log(states, t, i).len(),
        whole_log(states, t, i).take(n) == whole_log(states, s, i).take(n),
{
    induction::lemma_later(states, s, t);
    let (h, h2) = (induction::record(states, s), induction::record(states, t));
    let a = states[s].nodes[i];
    let c = states[t];
    assert(c.members().contains(i));
    induction::lemma_node(states[s], h, i);
    lemma_whole_log(states, s, i);
    lemma_whole_log(states, t, i);
    let (u, v) = (h.full[i], h2.full[i]);
    induction::lemma_settled_less(h, c.members(), u, a.commit_index as int, n, a.current_term);
    assert(h2.settled(c.members(), v, n, a.current_term));
    induction::lemma_settled_stable(
        h,
        h2,
        c.members(),
        u,
        u,
        n,
        a.current_term,
        a.current_term,
    );
    if n > 0 {
        induction::lemma_settled_agree(c, h2, u, v, n, a.current_term, a.current_term);
    } else {
        assert(u.take(0) =~= v.take(0));
    }
}

/// In state `s`, node `v` stores what node `i` has at `index`, in its log or in its
/// snapshot.
pub open spec fn stores(states: Seq<Cluster>, s: int, v: NodeId, i: NodeId, index: int) -> bool {
    let (a, b) = (whole_log(states, s, v), whole_log(states, s, i));
    &&& states[s].nodes.contains_key(v)
    &&& 1 <= index <= a.len()
    &&& index <= b.len()
    &&& a[index - 1] == b[index - 1]
}

/// `q` is a majority of the nodes, each of which stores what node `i` has at
/// `index`.
pub open spec fn stored_on(
    states: Seq<Cluster>,
    s: int,
    q: Set<NodeId>,
    i: NodeId,
    index: int,
) -> bool {
    &&& q.subset_of(states[s].members())
    &&& q.len() >= states[s].members().len() / 2 + 1
    &&& forall|v: NodeId| #[trigger] q.contains(v) ==> stores(states, s, v, i, index)
}

/// What any node has committed is, at that moment, on a majority of the nodes.
pub proof fn committed_entries_are_on_a_majority(
    states: Seq<Cluster>,
    s: int,
    i: NodeId,
    index: int,
)
    requires
        super::cluster::is_run(states),
        0 <= s < states.len(),
        states[s].nodes.contains_key(i),
        1 <= index <= states[s].nodes[i].commit_index,
    ensures
        exists|q: Set<NodeId>| #[trigger] stored_on(states, s, q, i, index),
{
    let c = states[s];
    let h = induction::record(states, s);
    induction::lemma_record(states, s);
    induction::lemma_node(c, h, i);
    let (n, full) = (c.nodes[i], h.full[i]);
    let (t, m) = choose|t: Term, m: int| #[trigger]
        h.committed(c.members(), t, m) && t <= n.current_term && n.commit_index <= m && h.retains(
            full,
            t,
            n.commit_index as int,
        );
    let lead = h.reigns[t].log;
    let q = choose|q: Set<NodeId>| #[trigger] h.stored_by(c.members(), q, t, m);
    lemma_whole_log(states, s, i);
    assert forall|v: NodeId| #[trigger] q.contains(v) implies stores(states, s, v, i, index) by {
        assert(h.acked(v, t, m));
        assert(c.members().contains(v));
        induction::lemma_node(c, h, v);
        reveal(induction::own_ok);
        assert(induction::own_ok(c, h, v));
        assert(induction::ack_ok(c, h, t, v));
        assert(h.kept(h.full[v], t, m, c.nodes[v].current_term as int));
        if !h.retains(h.full[v], t, m) {
            let u = choose|u: Term| u <= c.nodes[v].current_term && #[trigger] h.overrules(u, t, m);
            induction::lemma_complete(c, h, t, m, u);
        }
        lemma_whole_log(states, s, v);
        let k = n.commit_index as int;
        assert(h.full[v].take(m)[index - 1] == lead.take(m)[index - 1]);
        assert(full.take(k)[index - 1] == lead.take(k)[index - 1]);
    }
    assert(stored_on(states, s, q, i, index));
}

/// A committed write survives the loss of a minority: whichever majority of the
/// nodes is left, one of them stores it.
pub proof fn committed_entries_survive_the_loss_of_a_minority(
    states: Seq<Cluster>,
    s: int,
    i: NodeId,
    index: int,
    left: Set<NodeId>,
)
    requires
        super::cluster::is_run(states),
        0 <= s < states.len(),
        states[s].nodes.contains_key(i),
        1 <= index <= states[s].nodes[i].commit_index,
        left.subset_of(states[s].members()),
        left.len() >= states[s].members().len() / 2 + 1,
    ensures
        exists|v: NodeId| left.contains(v) && #[trigger] stores(states, s, v, i, index),
{
    let c = states[s];
    committed_entries_are_on_a_majority(states, s, i, index);
    let q = choose|q: Set<NodeId>| #[trigger] stored_on(states, s, q, i, index);
    induction::lemma_record(states, s);
    induction::lemma_majorities_meet(c.members(), left, q);
    let v = choose|v: NodeId| left.contains(v) && q.contains(v);
    assert(stores(states, s, v, i, index));
}

/// State machine safety: no two nodes, at any two moments, commit different
/// entries at the same index.
pub proof fn committed_entries_agree(
    states: Seq<Cluster>,
    s: int,
    t: int,
    i: NodeId,
    j: NodeId,
    index: int,
)
    requires
        super::cluster::is_run(states),
        0 <= s < states.len(),
        0 <= t < states.len(),
        states[s].nodes.contains_key(i),
        states[t].nodes.contains_key(j),
        index <= states[s].nodes[i].commit_index,
        index <= states[t].nodes[j].commit_index,
        states[s].nodes[i].log.holds(index),
        states[t].nodes[j].log.holds(index),
    ensures
        states[s].nodes[i].log.entry(index) == states[t].nodes[j].log.entry(index),
{
    committed_prefixes_agree(states, s, t, i, j, index);
    let (a, b) = (whole_log(states, s, i), whole_log(states, t, j));
    assert(a.take(index)[index - 1] == b.take(index)[index - 1]);
}

/// Real-time order: what a leader appends to its log once an entry is committed
/// comes after that entry, if it is ever committed itself. A leader that was
/// superseded without knowing may still append before it, but then in vain.
pub proof fn what_is_submitted_later_commits_later(
    states: Seq<Cluster>,
    s: int,
    i: NodeId,
    index: int,
    t: int,
    j: NodeId,
    entry: EntryView,
)
    requires
        super::cluster::is_run(states),
        0 <= s <= t < states.len(),
        states[s].nodes.contains_key(i),
        1 <= index <= states[s].nodes[i].commit_index,
        states[t].nodes.contains_key(j),
        states[t].nodes[j].role == Role::Leader,
        entry.term == states[t].nodes[j].current_term,
        decides(states, states[t].nodes[j].log.last_index() + 1, entry),
    ensures
        index < states[t].nodes[j].log.last_index() + 1,
{
    let (n, lead) = (states[s].nodes[i], states[t].nodes[j]);
    let next = lead.log.last_index() + 1;
    if index >= next {
        if n.current_term <= lead.current_term {
            leaders_hold_what_is_committed(states, s, t, i, j, index);
        } else {
            what_is_committed_is_decided(states, s, i, next, entry);
            lemma_whole_log(states, s, i);
            induction::lemma_later(states, s, t);
            let (h, h2) = (induction::record(states, s), induction::record(states, t));
            induction::lemma_node(states[s], h, i);
            induction::lemma_node(states[t], h2, j);
            assert(h.backs(h.full[i], next - 1));
            assert(h.reigns.contains_key(lead.current_term));
            assert(h2.reigns[lead.current_term].log == h2.full[j]);
        }
    }
}

/// A leader's log only grows: once it has appended an entry at an index, no leader
/// of that term, itself after a crash included, appends another there.
pub proof fn a_term_fills_each_index_once(
    states: Seq<Cluster>,
    s: int,
    t: int,
    i: NodeId,
    j: NodeId,
    command: Seq<u8>,
)
    requires
        super::cluster::is_run(states),
        0 <= s < t < states.len(),
        states[s].enabled(i, Event::Submit { command }),
        states[s + 1] == states[s].after(i, Event::Submit { command }),
        states[t].nodes.contains_key(j),
        states[t].nodes[j].role == Role::Leader,
        states[s].nodes[i].current_term == states[t].nodes[j].current_term,
    ensures
        i == j,
        states[s].nodes[i].log.last_index() < states[t].nodes[j].log.last_index(),
{
    one_leader_per_term(states, s, t, i, j);
    let term = states[s].nodes[i].current_term;
    lemma_appended(states, s, i, command);
    induction::lemma_later(states, s + 1, t);
    induction::lemma_node(states[t], induction::record(states, t), j);
    assert(induction::record(states, s + 1).reigns.contains_key(term));
}

/// What a leader has just appended ends the log of its term.
proof fn lemma_appended(states: Seq<Cluster>, s: int, i: NodeId, command: Seq<u8>)
    requires
        super::cluster::is_run(states),
        0 <= s < states.len() - 1,
        states[s].enabled(i, Event::Submit { command }),
        states[s + 1] == states[s].after(i, Event::Submit { command }),
    ensures
        ({
            let term = states[s].nodes[i].current_term;
            let index = states[s].nodes[i].log.last_index() + 1;
            let h = induction::record(states, s + 1);
            &&& h.reigns.contains_key(term)
            &&& h.reigns[term].log.len() == index
            &&& h.reigns[term].log[index - 1] == (EntryView { term, command })
        }),
{
    let h = induction::record(states, s + 1);
    let (n, n2) = (states[s].nodes[i], states[s + 1].nodes[i]);
    let index = n.log.last_index() + 1;
    induction::lemma_record(states, s);
    induction::lemma_node(states[s], induction::record(states, s), i);
    induction::lemma_record(states, s + 1);
    induction::lemma_node(states[s + 1], h, i);
    assert(n2.log.holds(index) && n2.log.entry(index) == (EntryView {
        term: n.current_term,
        command,
    }));
    induction::lemma_rep_entry(n2.log, h.full[i], index);
}

/// An entry of a leader's term, at the index where that leader appended a command,
/// is that command, in whichever log and at whatever moment.
pub proof fn what_a_leader_appends_stays_its_own(
    states: Seq<Cluster>,
    s: int,
    i: NodeId,
    command: Seq<u8>,
    u: int,
    v: NodeId,
)
    requires
        super::cluster::is_run(states),
        0 <= s < states.len() - 1,
        states[s].enabled(i, Event::Submit { command }),
        states[s + 1] == states[s].after(i, Event::Submit { command }),
        0 <= u < states.len(),
        states[u].nodes.contains_key(v),
        states[s].nodes[i].log.last_index() < whole_log(states, u, v).len(),
        whole_log(states, u, v)[states[s].nodes[i].log.last_index()].term
            == states[s].nodes[i].current_term,
    ensures
        whole_log(states, u, v)[states[s].nodes[i].log.last_index()].command == command,
{
    let term = states[s].nodes[i].current_term;
    let at = states[s].nodes[i].log.last_index();
    lemma_appended(states, s, i, command);
    lemma_whole_log(states, u, v);
    let (h, h2) = (induction::record(states, u), induction::record(states, s + 1));
    induction::lemma_record(states, u);
    induction::lemma_node(states[u], h, v);
    let full = h.full[v];
    assert(h.backs(full, at));
    assert(full.take(at + 1)[at] == h.reigns[term].log.take(at + 1)[at]);
    if u <= s {
        induction::lemma_later(states, u, s);
        let h1 = induction::record(states, s);
        induction::lemma_node(states[s], h1, i);
        assert(h1.reigns.contains_key(term));
        assert(h1.reigns[term].log == h1.full[i]);
    } else {
        induction::lemma_later(states, s + 1, u);
        assert(h2.reigns[term].log.take(at + 1)[at] == h.reigns[term].log.take(at + 1)[at]);
    }
}

/// Two state machines that are due the command at the same index, at any two
/// moments, are due the same command.
pub proof fn applied_commands_agree(
    states: Seq<Cluster>,
    s: int,
    t: int,
    i: NodeId,
    j: NodeId,
    index: int,
)
    requires
        super::cluster::is_run(states),
        0 <= s < states.len(),
        0 <= t < states.len(),
        states[s].nodes.contains_key(i),
        states[t].nodes.contains_key(j),
        states[s].nodes[i].last_applied < index <= states[s].nodes[i].commit_index,
        states[t].nodes[j].last_applied < index <= states[t].nodes[j].commit_index,
    ensures
        states[s].nodes[i].command_at(index) == states[t].nodes[j].command_at(index),
{
    cursors_stay_in_order(states, s, i);
    cursors_stay_in_order(states, t, j);
    committed_entries_agree(states, s, t, i, j, index);
}

/// Repair makes progress: when a follower turns down the AppendEntries that the
/// leader has for it, the leader's next index for it moves back, to where the
/// follower's log ends; or, past the whole of a divergent term at once, to where
/// the follower's entries of that term start, or the leader's end.
#[verifier::rlimit(40)]
pub proof fn rejections_move_the_leader_back(
    states: Seq<Cluster>,
    s: int,
    i: NodeId,
    j: NodeId,
    now: Instant,
    deadline: Instant,
    match_hint: LogIndex,
)
    requires
        super::cluster::is_run(states),
        0 <= s < states.len(),
        states[s].nodes.contains_key(i),
        states[s].nodes[i].peers.contains(j),
        states[s].nodes[i].role == Role::Leader,
        !states[s].nodes[i].needs_snapshot(j),
        states[s].nodes[j].current_term <= states[s].nodes[i].current_term,
        !states[s].nodes[j].on_append_entries(
            states[s].nodes[i].append_args_for(j),
            now,
            deadline,
        ).1.success,
    ensures
        ({
            let reply = states[s].nodes[j].on_append_entries(
                states[s].nodes[i].append_args_for(j),
                now,
                deadline,
            ).1;
            let next = states[s].nodes[i].on_append_reply(j, reply, match_hint).next_for(j);
            let prev = states[s].nodes[i].append_args_for(j).prev_log_index as int;
            let (lead, log) = (states[s].nodes[i].log, states[s].nodes[j].log);
            &&& next < states[s].nodes[i].next_for(j)
            &&& match log.term_at(prev) {
                None => next == log.last_index() + 1,
                Some(term) => if lead.has_term(term) {
                    lead.is_last_of_term((next - 1) as LogIndex, term)
                } else {
                    log.is_first_of_term(next, term)
                },
            }
        }),
{
    let c = states[s];
    let h = induction::record(states, s);
    induction::lemma_record(states, s);
    induction::lemma_node(c, h, i);
    assert(c.members().remove(i).contains(j)) by {
        assert(c.nodes[i].peers.to_set().contains(j));
    }
    induction::lemma_node(c, h, j);
    let (n, f) = (c.nodes[i], c.nodes[j]);
    let (lead, full) = (h.full[i], h.full[j]);
    let args = n.append_args_for(j);
    let prev = args.prev_log_index as int;
    induction::lemma_rep_terms(n.log, lead);
    induction::lemma_rep_terms(f.log, full);
    assert(n.log.snapshot_index <= prev <= n.log.last_index());
    assert(prev > f.log.snapshot_index);
    let (_, reply) = f.on_append_entries(args, now, deadline);
    match f.log.term_at(prev) {
        None => {},
        Some(term) => {
            super::types::lemma_first_of_term(f.log, term, prev as LogIndex);
            if n.log.has_term(term) {
                let k = choose|k: int| n.log.holds(k) && (#[trigger] n.log.entry(k)).term == term;
                super::types::lemma_last_of_term(n.log, term, k as LogIndex);
                let last = n.log.last_index_of_term(term)->Some_0;
                assert(n.log.is_last_of_term(last, term));
                if last >= prev {
                    induction::lemma_rep_entry(n.log, lead, last as int);
                    induction::lemma_rep_entry(f.log, full, prev);
                    assert(h.backs(lead, last - 1));
                    assert(h.backs(full, prev - 1));
                    let reign = h.reigns[term].log;
                    assert(lead.take(last as int)[prev - 1] == reign.take(last as int)[prev - 1]);
                    assert(full.take(prev)[prev - 1] == reign.take(prev)[prev - 1]);
                    assert(lead[prev - 1].term == term);
                }
            }
        },
    }
}

/// Replication replicates: when a follower accepts the AppendEntries that the
/// leader has for it, its log holds everything that the leader's does.
#[verifier::rlimit(40)]
pub proof fn acceptance_copies_the_leaders_log(
    states: Seq<Cluster>,
    s: int,
    i: NodeId,
    j: NodeId,
    now: Instant,
    deadline: Instant,
    index: int,
)
    requires
        super::cluster::is_run(states),
        0 <= s < states.len(),
        states[s].nodes.contains_key(i),
        states[s].nodes[i].peers.contains(j),
        states[s].nodes[i].role == Role::Leader,
        !states[s].nodes[i].needs_snapshot(j),
        states[s].nodes[j].log.last_index() + states[s].nodes[i].append_args_for(j).entries.len()
            < LogIndex::MAX,
        states[s].nodes[j].on_append_entries(
            states[s].nodes[i].append_args_for(j),
            now,
            deadline,
        ).1.success,
        1 <= index <= states[s].nodes[i].log.last_index(),
    ensures
        ({
            let after = states[s].nodes[j].on_append_entries(
                states[s].nodes[i].append_args_for(j),
                now,
                deadline,
            ).0;
            &&& index <= after.log.last_index()
            &&& after.log.holds(index) && states[s].nodes[i].log.holds(index)
                ==> after.log.entry(index) == states[s].nodes[i].log.entry(index)
        }),
{
    let c = states[s];
    let h = induction::record(states, s);
    induction::lemma_record(states, s);
    induction::lemma_node(c, h, i);
    let n = c.nodes[i];
    let args = n.append_args_for(j);
    let h2 = induction::lemma_acceptance(c, h, i, j, Event::OnAppend { args, now, deadline });
    let after = c.nodes[j].on_append_entries(args, now, deadline).0;
    let last = h.full[i].len() as int;
    if after.log.holds(index) && n.log.holds(index) {
        induction::lemma_rep_entry(after.log, h2.full[j], index);
        induction::lemma_rep_entry(n.log, h.full[i], index);
        assert(h2.full[j].take(last)[index - 1] == h.full[i].take(last)[index - 1]);
    }
}

/// While a node runs, its commit index never moves back, whatever it receives, nor
/// does what its state machine has applied. (Both are volatile: a restart resumes
/// them at the snapshot.)
#[verifier::rlimit(40)]
pub proof fn cursors_never_move_back(states: Seq<Cluster>, s: int, i: NodeId, e: Event)
    requires
        super::cluster::is_run(states),
        0 <= s < states.len(),
        states[s].enabled(i, e),
        !(e is Restart),
    ensures
        states[s].nodes[i].commit_index <= states[s].after(i, e).nodes[i].commit_index,
        states[s].nodes[i].last_applied <= states[s].after(i, e).nodes[i].last_applied,
{
    let c = states[s];
    let h = induction::record(states, s);
    induction::lemma_record(states, s);
    induction::lemma_node(c, h, i);
    let n = c.nodes[i];
    let h2 = induction::lemma_event(c, h, i, e);
    let c2 = c.after(i, e);
    induction::lemma_after(c, i, e);
    assert(c2.members().contains(i));
    induction::lemma_node(c2, h2, i);
    assert(h2.settled(c.members(), h2.full[i], n.commit_index as int, n.current_term));
    match e {
        Event::Submit { command } => super::model::lemma_advance_commit(
            NodeView { log: n.log.append(EntryView { term: n.current_term, command }), ..n },
        ),
        Event::OnAppendReply { from, match_hint, reply } => induction::lemma_note_match_commits(
            n,
            from,
            match_hint,
        ),
        Event::OnInstallReply { from, last_included_index, reply } => induction::lemma_note_match_commits(
            n,
            from,
            last_included_index,
        ),
        _ => {},
    }
}

/// Every entry was made by a leader, whose term is not 0.
pub proof fn entries_have_a_term(states: Seq<Cluster>, s: int, i: NodeId, index: int)
    requires
        super::cluster::is_run(states),
        0 <= s < states.len(),
        states[s].nodes.contains_key(i),
        states[s].nodes[i].log.holds(index),
    ensures
        states[s].nodes[i].log.entry(index).term >= 1,
{
    let c = states[s];
    let h = induction::record(states, s);
    induction::lemma_record(states, s);
    induction::lemma_node(c, h, i);
    induction::lemma_rep_entry(c.nodes[i].log, h.full[i], index);
    assert(h.backs(h.full[i], index - 1));
    let t = h.full[i][index - 1].term;
    assert(induction::reign_ok(c, h, t));
    reveal(induction::reign_ok);
    reveal(induction::own_ok);
    assert(induction::own_ok(c, h, h.reigns[t].leader));
    assert(induction::campaign_ok(c, h, t, h.reigns[t].leader));
}

// ---- snapshots ----
/// Every snapshot that a state machine hands over in the run is the image of what
/// it has applied: of the first entries of its node's whole log, through the
/// snapshot's index. (One that is stale, or runs ahead of what was applied, is
/// turned down and does not matter.)
pub open spec fn compactions_show(
    states: Seq<Cluster>,
    image: spec_fn(Seq<EntryView>) -> Seq<u8>,
) -> bool {
    forall|s: int, i: NodeId, index: LogIndex, data: Seq<u8>|
        0 <= s < states.len() - 1 && #[trigger] states[s].enabled(i, Event::Compact { index, data })
            && states[s + 1] == states[s].after(i, Event::Compact { index, data })
            && states[s].nodes[i].log.snapshot_index < index <= states[s].nodes[i].last_applied
            ==> data == image(whole_log(states, s, i).take(index as int))
}

/// `data` is the image of the first `index` entries that some node has committed.
pub open spec fn genuine(
    states: Seq<Cluster>,
    image: spec_fn(Seq<EntryView>) -> Seq<u8>,
    index: int,
    data: Seq<u8>,
) -> bool {
    exists|t: int, j: NodeId|
        #![trigger whole_log(states, t, j)]
        0 <= t < states.len() && states[t].nodes.contains_key(j) && 0 < index
            <= states[t].nodes[j].commit_index && data == image(
            whole_log(states, t, j).take(index),
        )
}

/// Some node of the cluster holds `data` as its snapshot through `index`, saved or
/// waiting for its state machine, or it was sent to a node in an InstallSnapshot.
pub open spec fn carries(c: Cluster, index: int, data: Seq<u8>) -> bool {
    ||| exists|i: NodeId| #[trigger]
        c.nodes.contains_key(i) && c.nodes[i].log.snapshot_index == index && c.nodes[i].snapshot
            == Some(data)
    ||| exists|i: NodeId| #[trigger]
        c.nodes.contains_key(i) && (c.nodes[i].pending_snapshot matches Some(p)
            && p.last_included_index == index && p.data == data)
    ||| exists|to: NodeId, args: InstallView| #[trigger]
        c.sent.contains(Message::Install { to, args }) && args.last_included_index == index
            && args.data == data
}

/// The snapshots of a node are genuine.
spec fn holds_genuine(
    states: Seq<Cluster>,
    image: spec_fn(Seq<EntryView>) -> Seq<u8>,
    n: NodeView,
) -> bool {
    &&& n.snapshot matches Some(data) ==> genuine(
        states,
        image,
        n.log.snapshot_index as int,
        data,
    )
    &&& n.pending_snapshot matches Some(p) ==> genuine(
        states,
        image,
        p.last_included_index as int,
        p.data,
    )
}

/// The snapshots that were sent are genuine.
spec fn sent_genuine(
    states: Seq<Cluster>,
    image: spec_fn(Seq<EntryView>) -> Seq<u8>,
    c: Cluster,
) -> bool {
    forall|to: NodeId, args: InstallView| #[trigger]
        c.sent.contains(Message::Install { to, args }) ==> genuine(
            states,
            image,
            args.last_included_index as int,
            args.data,
        )
}

/// What an event other than those that handle snapshots does to them: nothing.
proof fn lemma_snapshots_untouched(c: Cluster, i: NodeId, e: Event)
    requires
        c.enabled(i, e),
        !(e is SendInstall || e is OnInstall || e is Compact || e is TakeApplies || e is Restart),
    ensures
        c.after(i, e).nodes[i].snapshot == c.nodes[i].snapshot,
        c.after(i, e).nodes[i].pending_snapshot == c.nodes[i].pending_snapshot,
        c.after(i, e).nodes[i].log.snapshot_index == c.nodes[i].log.snapshot_index,
        forall|to: NodeId, args: InstallView| #[trigger]
            c.after(i, e).sent.contains(Message::Install { to, args }) ==> c.sent.contains(
                Message::Install { to, args },
            ),
{
}

/// Every step keeps the snapshots genuine.
proof fn lemma_step_genuine(
    states: Seq<Cluster>,
    image: spec_fn(Seq<EntryView>) -> Seq<u8>,
    s: int,
    i: NodeId,
    e: Event,
)
    requires
        super::cluster::is_run(states),
        compactions_show(states, image),
        0 <= s < states.len() - 1,
        states[s].enabled(i, e),
        states[s + 1] == states[s].after(i, e),
        holds_genuine(states, image, states[s].nodes[i]),
        sent_genuine(states, image, states[s]),
    ensures
        holds_genuine(states, image, states[s + 1].nodes[i]),
        sent_genuine(states, image, states[s + 1]),
{
    let c = states[s];
    cursors_stay_in_order(states, s, i);
    match e {
        Event::Compact { index, data } => {
            if c.nodes[i].log.snapshot_index < index <= c.nodes[i].last_applied {
                assert(data == image(whole_log(states, s, i).take(index as int)));
                assert(genuine(states, image, index as int, data));
            }
        },
        Event::OnInstall { args, .. } => {
            assert(c.sent.contains(Message::Install { to: i, args }));
        },
        Event::SendInstall { peer } => {
            let m = Message::Install { to: peer, args: c.nodes[i].install_snapshot_args() };
            assert(states[s + 1].sent.contains(m));
            induction::lemma_record(states, s + 1);
            assert(induction::msg_ok(states[s + 1], induction::record(states, s + 1), m));
            reveal(induction::msg_ok);
            assert(c.nodes[i].snapshot is Some);
        },
        Event::TakeApplies => {},
        Event::Restart { .. } => {},
        _ => {
            lemma_snapshots_untouched(c, i, e);
        },
    }
}

proof fn lemma_genuine(
    states: Seq<Cluster>,
    image: spec_fn(Seq<EntryView>) -> Seq<u8>,
    s: int,
)
    requires
        super::cluster::is_run(states),
        compactions_show(states, image),
        0 <= s < states.len(),
    ensures
        forall|i: NodeId| #[trigger]
            states[s].nodes.contains_key(i) ==> holds_genuine(states, image, states[s].nodes[i]),
        sent_genuine(states, image, states[s]),
    decreases s,
{
    if s == 0 {
        assert forall|i: NodeId| #[trigger] states[s].nodes.contains_key(i) implies holds_genuine(
            states,
            image,
            states[s].nodes[i],
        ) by {
            assert(states[0].fresh(i));
        }
    } else {
        lemma_genuine(states, image, s - 1);
        let c = states[s - 1];
        assert(super::cluster::is_step(states, s - 1));
        let (i, e) = choose|i: NodeId, e: Event| #[trigger]
            c.enabled(i, e) && states[s] == c.after(i, e);
        lemma_step_genuine(states, image, s - 1, i, e);
        induction::lemma_after(c, i, e);
        assert forall|j: NodeId| #[trigger] states[s].nodes.contains_key(j) implies holds_genuine(
            states,
            image,
            states[s].nodes[j],
        ) by {
            assert(c.members().contains(j));
            assert(c.nodes.contains_key(j));
        }
    }
}

/// Where every state machine hands over the image of what it has applied, every
/// snapshot through `index` that a node holds, hands to its state machine or sends
/// to another is the image of the first `index` entries that any node has
/// committed: a replica that starts from it starts from what the others had.
pub proof fn snapshots_show_what_is_committed(
    states: Seq<Cluster>,
    image: spec_fn(Seq<EntryView>) -> Seq<u8>,
    s: int,
    index: int,
    data: Seq<u8>,
    t: int,
    j: NodeId,
)
    requires
        super::cluster::is_run(states),
        compactions_show(states, image),
        0 <= s < states.len(),
        carries(states[s], index, data),
        0 <= t < states.len(),
        states[t].nodes.contains_key(j),
        index <= states[t].nodes[j].commit_index,
    ensures
        data == image(whole_log(states, t, j).take(index)),
{
    lemma_genuine(states, image, s);
    assert(genuine(states, image, index, data));
    let (u, v) = choose|u: int, v: NodeId|
        #![trigger whole_log(states, u, v)]
        0 <= u < states.len() && states[u].nodes.contains_key(v) && 0 < index
            <= states[u].nodes[v].commit_index && data == image(
            whole_log(states, u, v).take(index),
        );
    committed_prefixes_agree(states, u, t, v, j, index);
}

/// A snapshot that waits for the state machine ends where the machine is to resume:
/// it is the state of everything that counts as applied.
pub proof fn pending_snapshots_end_at_the_apply_cursor(states: Seq<Cluster>, s: int, i: NodeId)
    requires
        super::cluster::is_run(states),
        0 <= s < states.len(),
        states[s].nodes.contains_key(i),
    ensures
        states[s].nodes[i].pending_snapshot matches Some(p) ==> p.last_included_index
            == states[s].nodes[i].last_applied,
    decreases s,
{
    if s == 0 {
        assert(states[0].fresh(i));
    } else {
        let c = states[s - 1];
        assert(super::cluster::is_step(states, s - 1));
        let (j, e) = choose|j: NodeId, e: Event| #[trigger]
            c.enabled(j, e) && states[s] == c.after(j, e);
        induction::lemma_after(c, j, e);
        assert(c.members().contains(i));
        pending_snapshots_end_at_the_apply_cursor(states, s - 1, i);
        super::life::clusters_step_their_nodes(c, j, e, i);
    }
}

} // verus!
