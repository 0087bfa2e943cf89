//! What elections promise, said of what goes into a call and what comes out of it:
//! who gets a vote or a pre-vote, who wins, and when a node campaigns.

use vstd::prelude::*;

use super::clock::Instant;
use super::cluster::Event;
use super::model::NodeView;
use super::node::Step;
use super::rpc::{AppendView, InstallView, RequestVoteArgs, RequestVoteReply};
use super::types::{EntryView, NodeId, Role, Term};

verus! {

// ---- votes ----
/// A log that ends at `index` with term `term` is at least as up-to-date as one
/// that ends in `entries`, behind a snapshot through `base` whose last entry had
/// term `base_term`: its last term is newer, or the same and it is as long.
pub open spec fn outdoes(
    index: int,
    term: Term,
    base: int,
    base_term: Term,
    entries: Seq<EntryView>,
) -> bool {
    let last_term = if entries.len() > 0 {
        entries[entries.len() - 1].term
    } else {
        base_term
    };
    term > last_term || (term == last_term && index >= base + entries.len())
}

/// Who gets a vote. In a term that is newer than the voter's: exactly the candidate
/// whose log is up-to-date, whatever the voter was or did before. In the voter's own
/// term: only if the voter has not voted for another. In an older term: nobody.
pub proof fn up_to_date_candidates_get_the_vote(
    n: NodeView,
    args: RequestVoteArgs,
    now: Instant,
    deadline: Instant,
)
    requires
        !args.pre_vote,
    ensures
        ({
            let up_to_date = outdoes(
                args.last_log_index as int,
                args.last_log_term,
                n.log.snapshot_index as int,
                n.log.snapshot_term,
                n.log.entries,
            );
            let granted = n.on_request_vote(args, now, deadline).1.vote_granted;
            &&& args.term > n.current_term ==> (granted <==> up_to_date)
            &&& args.term == n.current_term ==> (granted <==> up_to_date && (match n.voted_for {
                Some(candidate) => candidate == args.candidate_id,
                None => true,
            }))
            &&& args.term < n.current_term ==> !granted
        }),
{
}

/// What a vote request leaves behind: the newer of the two terms, which the reply
/// carries too; the vote, where it was granted; a follower, where the term was newer.
/// The log and what is committed and applied are not touched.
pub proof fn vote_requests_touch_only_the_vote(
    n: NodeView,
    args: RequestVoteArgs,
    now: Instant,
    deadline: Instant,
)
    requires
        !args.pre_vote,
    ensures
        ({
            let (after, reply) = n.on_request_vote(args, now, deadline);
            &&& after.current_term == (if args.term > n.current_term {
                args.term
            } else {
                n.current_term
            })
            &&& reply.term == after.current_term
            &&& reply.vote_granted ==> after.voted_for == Some(args.candidate_id)
            &&& !reply.vote_granted && args.term <= n.current_term ==> after == n
            &&& !reply.vote_granted && args.term > n.current_term ==> after.voted_for is None
            &&& args.term > n.current_term ==> after.role == Role::Follower
            &&& args.term <= n.current_term ==> after.role == n.role && after.votes == n.votes
                && after.pre_candidate == n.pre_candidate && after.pre_votes == n.pre_votes
            &&& args.term > n.current_term ==> !after.pre_candidate && after.votes == Set::<
                NodeId,
            >::empty()
            &&& after.id == n.id
            &&& after.peers == n.peers
            &&& after.log == n.log
            &&& after.snapshot == n.snapshot
            &&& after.commit_index == n.commit_index
            &&& after.last_applied == n.last_applied
            &&& after.pending_snapshot == n.pending_snapshot
            &&& after.next_index == n.next_index
            &&& after.match_index == n.match_index
            &&& after.last_leader_contact == n.last_leader_contact
            &&& after.leader_id == n.leader_id
            &&& after.election_deadline == (if reply.vote_granted {
                deadline
            } else {
                n.election_deadline
            })
        }),
{
}

/// Of two nodes that ask for each other's vote, with what each shows of its log and in
/// a term that is new to both, at least one gets it: their logs cannot block each other
/// for good.
pub proof fn of_two_candidates_one_gets_the_others_vote(
    a: NodeView,
    b: NodeView,
    term: Term,
    campaign: Instant,
    now: Instant,
    deadline: Instant,
)
    requires
        a.log.wf(),
        b.log.wf(),
        a.current_term < term,
        b.current_term < term,
    ensures
        ({
            let from_a = RequestVoteArgs { term, ..a.start_election(campaign).1 };
            let from_b = RequestVoteArgs { term, ..b.start_election(campaign).1 };
            ||| b.on_request_vote(from_a, now, deadline).1.vote_granted
            ||| a.on_request_vote(from_b, now, deadline).1.vote_granted
        }),
{
}

/// A node may be asked again: a vote, once granted, is granted again to the same
/// candidate with the same log in the same term, since the answer may have been lost.
pub proof fn a_lost_vote_can_be_asked_for_again(
    n: NodeView,
    args: RequestVoteArgs,
    now: Instant,
    deadline: Instant,
    later: Instant,
    later_deadline: Instant,
)
    requires
        !args.pre_vote,
        n.on_request_vote(args, now, deadline).1.vote_granted,
    ensures
        n.on_request_vote(args, now, deadline).0.on_request_vote(
            args,
            later,
            later_deadline,
        ).1.vote_granted,
{
}

// ---- pre-votes ----
/// The node that has heard a leader: the one that an AppendEntries, or an
/// InstallSnapshot, of a term that is not past has left behind.
pub open spec fn heard(n: NodeView, e: Event) -> bool {
    match e {
        Event::OnAppend { args, .. } => args.term >= n.current_term,
        Event::OnInstall { args, .. } => args.term >= n.current_term,
        _ => false,
    }
}

/// A healthy leader cannot be disturbed: a node that has word from a leader at `now`
/// grants no pre-vote before the shortest election timeout has passed since, to
/// whomever and for whatever term. The same goes for a node that starts at `now`.
pub proof fn no_pre_vote_while_the_leader_is_heard(
    n: NodeView,
    append: AppendView,
    install: InstallView,
    now: Instant,
    deadline: Instant,
    probe: RequestVoteArgs,
    later: Instant,
    later_deadline: Instant,
)
    requires
        probe.pre_vote,
        now.nanos <= later.nanos < now.nanos + n.timing.election_min.nanos,
    ensures
        append.term >= n.current_term ==> !n.on_append_entries(
            append,
            now,
            deadline,
        ).0.on_request_vote(probe, later, later_deadline).1.vote_granted,
        install.term >= n.current_term ==> !n.on_install_snapshot(
            install,
            now,
            deadline,
        ).0.on_request_vote(probe, later, later_deadline).1.vote_granted,
        !NodeView::restored(
            n.id,
            n.peers,
            n.timing,
            n.persistent(),
            now,
            deadline,
        ).on_request_vote(probe, later, later_deadline).1.vote_granted,
{
}

/// The time of the last word from a leader stands until the next such word.
proof fn lemma_contact_stands(nodes: Seq<NodeView>, calls: Seq<Event>, a: int, b: int)
    requires
        super::life::is_life(nodes, calls),
        0 <= a <= b <= calls.len(),
        forall|k: int|
            a <= k < b ==> !heard(#[trigger] nodes[k], calls[k]) && !(calls[k] is Restart),
    ensures
        nodes[b].last_leader_contact == nodes[a].last_leader_contact,
        nodes[b].timing == nodes[a].timing,
    decreases b - a,
{
    if a < b {
        lemma_contact_stands(nodes, calls, a, b - 1);
        assert(super::life::is_step(nodes, calls, b - 1));
        assert(!heard(nodes[b - 1], calls[b - 1]));
    }
}

/// A pre-vote goes by the last word from a leader, whatever else happens in between:
/// votes, probes and campaigns of this node and of others neither shield a leader that
/// is gone nor expose one that is there. Within the shortest election timeout of that
/// word no pre-vote is granted. After it, a node that does not lead grants it to every
/// candidate with an up-to-date log for a term that is not past.
pub proof fn pre_votes_go_by_the_last_word_from_a_leader(
    nodes: Seq<NodeView>,
    calls: Seq<Event>,
    a: int,
    b: int,
    probe: RequestVoteArgs,
    later: Instant,
    deadline: Instant,
)
    requires
        super::life::is_life(nodes, calls),
        0 <= a < b <= calls.len(),
        heard(nodes[a], calls[a]),
        forall|k: int|
            a < k < b ==> !heard(#[trigger] nodes[k], calls[k]) && !(calls[k] is Restart),
        probe.pre_vote,
    ensures
        ({
            let heard_at = match calls[a] {
                Event::OnAppend { now, .. } => now.nanos as int,
                Event::OnInstall { now, .. } => now.nanos as int,
                _ => 0,
            };
            let n = nodes[b];
            let granted = n.on_request_vote(probe, later, deadline).1.vote_granted;
            let gone = later.nanos >= heard_at + n.timing.election_min.nanos;
            &&& !gone && n.timing.election_min.nanos > 0 ==> !granted
            &&& gone && n.role != Role::Leader ==> (granted <==> probe.term >= n.current_term
                && outdoes(
                probe.last_log_index as int,
                probe.last_log_term,
                n.log.snapshot_index as int,
                n.log.snapshot_term,
                n.log.entries,
            ))
            &&& n.role == Role::Leader ==> !granted
        }),
{
    assert(super::life::is_step(nodes, calls, a));
    lemma_contact_stands(nodes, calls, a + 1, b);
}

/// A pre-vote is answered with the voter's own term, and costs it nothing.
pub proof fn pre_votes_are_answered_with_the_voters_term(
    n: NodeView,
    probe: RequestVoteArgs,
    now: Instant,
    deadline: Instant,
)
    requires
        probe.pre_vote,
    ensures
        n.on_request_vote(probe, now, deadline).0 == n,
        n.on_request_vote(probe, now, deadline).1.term == n.current_term,
{
}

// ---- what a candidate asks for ----
/// A campaign is for the next term, in which the node has then voted for itself; a
/// probe is for the next term too, but leaves the term, the vote and the role alone.
/// Both show where the node's log ends, and arm its timer.
pub proof fn candidates_show_where_their_log_ends(n: NodeView, deadline: Instant)
    requires
        n.log.wf(),
        n.current_term < Term::MAX,
    ensures
        ({
            let (probing, probe) = n.start_pre_election(deadline);
            let (running, args) = n.start_election(deadline);
            let last_term = if n.log.entries.len() > 0 {
                n.log.entries[n.log.entries.len() - 1].term
            } else {
                n.log.snapshot_term
            };
            &&& probe.pre_vote
            &&& !args.pre_vote
            &&& probe.term == n.current_term + 1
            &&& args.term == n.current_term + 1
            &&& probe.candidate_id == n.id
            &&& args.candidate_id == n.id
            &&& probe.last_log_index == n.log.snapshot_index + n.log.entries.len()
            &&& args.last_log_index == n.log.snapshot_index + n.log.entries.len()
            &&& probe.last_log_term == last_term
            &&& args.last_log_term == last_term
            &&& probing == (NodeView {
                pre_candidate: true,
                pre_votes: probing.pre_votes,
                election_deadline: deadline,
                ..n
            })
            &&& running.current_term == n.current_term + 1
            &&& running.voted_for == Some(n.id)
            &&& running.election_deadline == deadline
            &&& running.log == n.log
            &&& running.snapshot == n.snapshot
            &&& running.commit_index == n.commit_index
            &&& running.last_applied == n.last_applied
            &&& running.pending_snapshot == n.pending_snapshot
            &&& running.last_leader_contact == n.last_leader_contact
            &&& running.id == n.id
            &&& running.peers == n.peers
            &&& running.timing == n.timing
            &&& !running.pre_candidate
        }),
{
}

// ---- who wins ----
/// A node that campaigns, after it was granted the votes of `voters`, one by one.
pub open spec fn polled(n: NodeView, deadline: Instant, voters: Seq<NodeId>) -> NodeView
    decreases voters.len(),
{
    if voters.len() == 0 {
        n.start_election(deadline).0
    } else {
        let before = polled(n, deadline, voters.drop_last());
        before.on_vote_reply(
            voters.last(),
            RequestVoteReply { term: (n.current_term + 1) as Term, vote_granted: true },
        )
    }
}

proof fn lemma_last_voter(voters: Seq<NodeId>)
    requires
        voters.len() > 0,
    ensures
        voters.to_set() == voters.drop_last().to_set().insert(voters.last()),
{
    let front = voters.drop_last();
    assert forall|v: NodeId| voters.contains(v) <==> front.contains(v) || v == voters.last() by {
        if voters.contains(v) && v != voters.last() {
            let k = choose|k: int| 0 <= k < voters.len() && voters[k] == v;
            assert(front[k] == v);
        }
        if front.contains(v) {
            let k = choose|k: int| 0 <= k < front.len() && front[k] == v;
            assert(voters[k] == v);
        }
        assert(voters[voters.len() - 1] == voters.last());
    }
    assert(voters.to_set() =~= front.to_set().insert(voters.last()));
}

proof fn lemma_tally(voters: Seq<NodeId>, id: NodeId)
    ensures
        voters.to_set().finite(),
        voters.to_set().insert(id).finite(),
    decreases voters.len(),
{
    vstd::seq_lib::seq_to_set_is_finite(voters);
}

/// A candidate wins exactly with the votes of more than half of the cluster, its own
/// among them, however often and in whatever order they arrive: it leads then, in the
/// term it campaigned for, and is a candidate for that term until then. As a leader it
/// takes every peer to have its whole log, and knows none to hold anything of it.
pub proof fn a_majority_of_votes_wins(n: NodeView, deadline: Instant, voters: Seq<NodeId>)
    requires
        n.log.wf(),
        n.current_term < Term::MAX,
    ensures
        ({
            let after = polled(n, deadline, voters);
            let supporters = voters.to_set().insert(n.id);
            &&& after.current_term == n.current_term + 1
            &&& after.role == (if 2 * supporters.len() > n.peers.len() + 1 {
                Role::Leader
            } else {
                Role::Candidate
            })
            &&& after.voted_for == Some(n.id)
            &&& after.log == n.log
            &&& after.commit_index == n.commit_index
            &&& after.last_applied == n.last_applied
            &&& after.leader_id == (if after.role == Role::Leader {
                Some(n.id)
            } else {
                None
            })
            &&& after.role == Role::Leader ==> forall|p: NodeId| #[trigger]
                n.peers.contains(p) ==> {
                    &&& after.next_index.contains_key(p)
                    &&& after.next_index[p] == n.log.snapshot_index + n.log.entries.len() + 1
                    &&& after.match_index.contains_key(p)
                    &&& after.match_index[p] == 0
                }
        }),
{
    lemma_poll(n, deadline, voters);
}

proof fn lemma_poll(n: NodeView, deadline: Instant, voters: Seq<NodeId>)
    requires
        n.log.wf(),
        n.current_term < Term::MAX,
    ensures
        ({
            let after = polled(n, deadline, voters);
            let supporters = voters.to_set().insert(n.id);
            &&& after.current_term == n.current_term + 1
            &&& after.voted_for == Some(n.id)
            &&& after.log == n.log
            &&& after.peers == n.peers
            &&& after.id == n.id
            &&& after.commit_index == n.commit_index
            &&& after.last_applied == n.last_applied
            &&& if 2 * supporters.len() > n.peers.len() + 1 {
                &&& after.role == Role::Leader
                &&& after.leader_id == Some(n.id)
                &&& forall|p: NodeId| #[trigger]
                    n.peers.contains(p) ==> {
                        &&& after.next_index.contains_key(p)
                        &&& after.next_index[p] == n.log.last_index() + 1
                        &&& after.match_index.contains_key(p)
                        &&& after.match_index[p] == 0
                    }
            } else {
                after.role == Role::Candidate && after.votes == supporters && after.leader_id
                    is None
            }
        }),
    decreases voters.len(),
{
    lemma_tally(voters, n.id);
    if voters.len() == 0 {
        assert(voters.to_set() =~= Set::<NodeId>::empty());
        assert(Set::<NodeId>::empty().insert(n.id).len() == 1);
    } else {
        let front = voters.drop_last();
        lemma_poll(n, deadline, front);
        lemma_tally(front, n.id);
        lemma_last_voter(voters);
        let (few, many) = (front.to_set().insert(n.id), voters.to_set().insert(n.id));
        assert(many =~= few.insert(voters.last()));
        assert(few.len() <= many.len());
    }
}

/// A vote that was denied, is of another term, or reaches a node that no longer is a
/// candidate changes nothing; one from a newer term ends the campaign.
pub proof fn other_replies_elect_nobody(n: NodeView, from: NodeId, reply: RequestVoteReply)
    ensures
        reply.term <= n.current_term && (!reply.vote_granted || reply.term < n.current_term
            || n.role != Role::Candidate) ==> n.on_vote_reply(from, reply) == n,
        reply.term > n.current_term ==> {
            let after = n.on_vote_reply(from, reply);
            &&& after.current_term == reply.term
            &&& after.role == Role::Follower
            &&& after.voted_for is None
            &&& after.leader_id is None
            &&& after.log == n.log
            &&& after.commit_index == n.commit_index
            &&& after.last_applied == n.last_applied
        },
{
}

/// A node that probes, after it was pledged the pre-votes of `voters`, one by one, by
/// replies that carry no newer term.
pub open spec fn pledged(n: NodeView, deadline: Instant, voters: Seq<NodeId>) -> NodeView
    decreases voters.len(),
{
    if voters.len() == 0 {
        n.start_pre_election(deadline).0
    } else {
        pledged(n, deadline, voters.drop_last()).on_pre_vote_reply(
            voters.last(),
            RequestVoteReply { term: n.current_term, vote_granted: true },
        )
    }
}

proof fn lemma_pledged(n: NodeView, deadline: Instant, voters: Seq<NodeId>)
    ensures
        pledged(n, deadline, voters) == (NodeView {
            pre_candidate: true,
            pre_votes: voters.to_set().insert(n.id),
            election_deadline: deadline,
            ..n
        }),
    decreases voters.len(),
{
    if voters.len() == 0 {
        assert(voters.to_set() =~= Set::<NodeId>::empty());
    } else {
        lemma_pledged(n, deadline, voters.drop_last());
        lemma_last_voter(voters);
        assert(voters.to_set().insert(n.id) =~= voters.drop_last().to_set().insert(n.id).insert(
            voters.last(),
        ));
    }
}

/// A probe succeeds exactly with the pledges of more than half of the cluster, its own
/// among them; pledges of an earlier probe do not count. Until then neither the term
/// nor the role nor the vote of the node has changed: a node that cannot win never
/// inflates its term.
pub proof fn a_majority_of_pledges_is_needed(n: NodeView, deadline: Instant, voters: Seq<NodeId>)
    ensures
        pledged(n, deadline, voters).pre_vote_succeeded() <==> 2 * voters.to_set().insert(
            n.id,
        ).len() > n.peers.len() + 1,
        pledged(n, deadline, voters).current_term == n.current_term,
        pledged(n, deadline, voters).role == n.role,
        pledged(n, deadline, voters).voted_for == n.voted_for,
        pledged(n, deadline, voters).log == n.log,
{
    lemma_pledged(n, deadline, voters);
}

/// The reply that completes the majority of pledges, and only that one, makes the node
/// campaign: for the next term, with the request that it then has to send.
pub proof fn the_last_pledge_starts_the_campaign(
    n: NodeView,
    probe: Instant,
    voters: Seq<NodeId>,
    from: NodeId,
    campaign: Instant,
)
    requires
        n.log.wf(),
        n.current_term < Term::MAX,
    ensures
        ({
            let reply = RequestVoteReply { term: n.current_term, vote_granted: true };
            let (after, sent) = pledged(n, probe, voters).on_pre_vote(from, reply, campaign);
            let enough = 2 * voters.to_set().insert(n.id).insert(from).len() > n.peers.len() + 1;
            &&& sent is Some <==> enough
            &&& enough ==> {
                &&& after.current_term == n.current_term + 1
                &&& after.voted_for == Some(n.id)
                &&& after.election_deadline == campaign
                &&& !after.pre_candidate
                &&& sent->Some_0.term == n.current_term + 1
                &&& sent->Some_0.candidate_id == n.id
                &&& !sent->Some_0.pre_vote
                &&& sent->Some_0.last_log_index == n.log.snapshot_index + n.log.entries.len()
            }
            &&& !enough ==> after.current_term == n.current_term && after.role == n.role
                && after.voted_for == n.voted_for && after.pre_votes.contains(from)
        }),
{
    lemma_pledged(n, probe, voters);
}

/// A pledge that was denied counts for nothing, and a newer term in the reply ends the
/// probe: there is a leadership to yield to.
pub proof fn denied_pledges_count_for_nothing(n: NodeView, from: NodeId, reply: RequestVoteReply)
    ensures
        reply.term <= n.current_term && !reply.vote_granted ==> n.on_pre_vote_reply(from, reply)
            == n,
        reply.term <= n.current_term && !n.pre_candidate ==> n.on_pre_vote_reply(from, reply) == n,
        reply.term > n.current_term ==> {
            let after = n.on_pre_vote_reply(from, reply);
            &&& after.current_term == reply.term
            &&& after.role == Role::Follower
            &&& after.voted_for is None
            &&& !after.pre_candidate
            &&& after.leader_id is None
            &&& !after.pre_vote_succeeded()
        },
{
}

/// A pledge counts while its node probes, whatever older term the voter is in, and once for
/// each voter; and pledges make nobody campaign who does not probe.
pub proof fn pledges_count_while_their_node_probes(
    n: NodeView,
    from: NodeId,
    reply: RequestVoteReply,
    other: NodeId,
)
    requires
        n.pre_candidate,
        reply.vote_granted,
        reply.term <= n.current_term,
    ensures
        ({
            let after = n.on_pre_vote_reply(from, reply);
            &&& after.pre_candidate
            &&& after.pre_votes.contains(from)
            &&& other != from ==> (after.pre_votes.contains(other) <==> n.pre_votes.contains(other))
            &&& after.on_pre_vote_reply(from, reply) == after
            &&& (NodeView { pre_votes: n.pre_votes, ..after }) == n
            &&& !(NodeView { pre_candidate: false, ..after }).pre_vote_succeeded()
        }),
{
    let after = n.on_pre_vote_reply(from, reply);
    assert(after.pre_votes.insert(from) =~= after.pre_votes);
}

/// A candidate whom the last vote makes a leader gives up whatever probe it had begun, and
/// with it every pledge: it will not campaign against itself.
pub proof fn winners_stop_probing(n: NodeView, from: NodeId, reply: RequestVoteReply)
    requires
        n.role == Role::Candidate,
        n.on_vote_reply(from, reply).role == Role::Leader,
    ensures
        ({
            let after = n.on_vote_reply(from, reply);
            &&& !after.pre_candidate
            &&& after.pre_votes == Set::<NodeId>::empty()
            &&& !after.pre_vote_succeeded()
            &&& after.current_term == n.current_term
            &&& after.leader_id == Some(n.id)
        }),
{
}

/// A leader that is heard, and a newer term, end a campaign and a probe alike.
pub proof fn a_leader_ends_every_campaign(
    n: NodeView,
    append: AppendView,
    install: InstallView,
    now: Instant,
    deadline: Instant,
)
    ensures
        append.term >= n.current_term ==> {
            let after = n.on_append_entries(append, now, deadline).0;
            &&& after.role == Role::Follower
            &&& after.current_term == append.term
            &&& after.leader_id == Some(append.leader_id)
            &&& !after.pre_vote_succeeded()
            &&& !after.pre_candidate
            &&& after.votes == Set::<NodeId>::empty()
            &&& append.term == n.current_term ==> after.voted_for == n.voted_for
            &&& append.term > n.current_term ==> after.voted_for is None
        },
        install.term >= n.current_term ==> {
            let after = n.on_install_snapshot(install, now, deadline).0;
            &&& after.role == Role::Follower
            &&& after.current_term == install.term
            &&& after.leader_id == Some(install.leader_id)
            &&& !after.pre_vote_succeeded()
            &&& !after.pre_candidate
            &&& after.votes == Set::<NodeId>::empty()
            &&& install.term == n.current_term ==> after.voted_for == n.voted_for
            &&& install.term > n.current_term ==> after.voted_for is None
        },
{
}

// ---- timers ----
/// Where a call leaves the election timer: at `deadline` where it starts the node, is a
/// probe or a campaign of its own, grants a vote, or is word from a leader whose term
/// is not past; where it was, otherwise.
pub proof fn timers_are_armed_by_leaders_votes_and_campaigns(
    n: NodeView,
    vote: RequestVoteArgs,
    append: AppendView,
    install: InstallView,
    from: NodeId,
    reply: RequestVoteReply,
    now: Instant,
    deadline: Instant,
)
    ensures
        n.start_pre_election(deadline).0.election_deadline == deadline,
        n.start_election(deadline).0.election_deadline == deadline,
        n.on_append_entries(append, now, deadline).0.election_deadline == (if append.term
            >= n.current_term {
            deadline
        } else {
            n.election_deadline
        }),
        n.on_install_snapshot(install, now, deadline).0.election_deadline == (if install.term
            >= n.current_term {
            deadline
        } else {
            n.election_deadline
        }),
        n.on_request_vote(vote, now, deadline).0.election_deadline == (if !vote.pre_vote
            && n.on_request_vote(vote, now, deadline).1.vote_granted {
            deadline
        } else {
            n.election_deadline
        }),
        n.on_vote_reply(from, reply).election_deadline == n.election_deadline,
        n.on_pre_vote_reply(from, reply).election_deadline == n.election_deadline,
        n.take_applies().election_deadline == n.election_deadline,
{
}

/// What a node does when its driver looks in. A leader sends heartbeats, the first at
/// once and the others an interval apart, and nothing else happens to it. Any other
/// node keeps still until its timer runs out; then it probes for votes, and its term
/// and vote are as they were, unless it is alone: then it campaigns, and leads.
pub proof fn ticks_do_what_is_due(
    n: NodeView,
    last: Option<Instant>,
    now: Instant,
    probe: Instant,
    campaign: Instant,
)
    requires
        n.log.wf(),
        n.current_term < Term::MAX,
    ensures
        ({
            let (after, step) = n.on_tick(last, now, probe, campaign);
            let late = now.nanos >= n.election_deadline.nanos;
            &&& n.role == Role::Leader ==> after == n && step == (match last {
                Some(sent) => if now.nanos - sent.nanos >= n.timing.heartbeat.nanos
                    || n.timing.heartbeat.nanos == 0 {
                    Step::Heartbeat
                } else {
                    Step::Idle
                },
                None => Step::Heartbeat,
            })
            &&& n.role != Role::Leader && !late ==> after == n && step == Step::Idle
            &&& n.role != Role::Leader && late && n.peers.len() > 0 ==> {
                &&& step == Step::PreElection(
                    RequestVoteArgs {
                        term: (n.current_term + 1) as Term,
                        candidate_id: n.id,
                        last_log_index: (n.log.snapshot_index + n.log.entries.len()) as u64,
                        last_log_term: if n.log.entries.len() > 0 {
                            n.log.entries[n.log.entries.len() - 1].term
                        } else {
                            n.log.snapshot_term
                        },
                        pre_vote: true,
                    },
                )
                &&& after.current_term == n.current_term
                &&& after.voted_for == n.voted_for
                &&& after.role == n.role
                &&& after.log == n.log
                &&& after.election_deadline == probe
            }
            &&& n.role != Role::Leader && late && n.peers.len() == 0 ==> {
                &&& step is Election
                &&& after.role == Role::Leader
                &&& after.current_term == n.current_term + 1
            }
        }),
{
    assert(Set::<NodeId>::empty().insert(n.id).len() == 1);
}

} // verus!
