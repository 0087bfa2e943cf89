//! Whole clusters, driven message by message: what Raft promises holds at every
//! step of runs that lose, repeat, delay and reorder messages and crash nodes.

use std::collections::BTreeMap;

use murmur::raft::{
    fold_pre_vote, outbound, AppendEntriesReply, Apply, ConsensusModule, Driver, InMemoryStorage,
    InstallSnapshotReply, Instant, Log, LogEntry, Outbound, PersistentState, RaftStorage,
    RequestVoteArgs, RequestVoteReply, Role, Step, Timing,
};

const MILLI: u64 = 1_000_000;

enum Packet {
    Vote(RequestVoteArgs),
    VoteReply(RequestVoteReply, bool),
    Send(Outbound),
    AppendReply(AppendEntriesReply, u64),
    InstallReply(InstallSnapshotReply, u64),
}

struct Node {
    core: ConsensusModule<InMemoryStorage>,
    driver: Driver,
    peers: Vec<u64>,
    /// Commands applied, by index.
    applied: BTreeMap<u64, Vec<u8>>,
    /// Highest index covered by a snapshot that was delivered.
    reset_to: u64,
}

fn start(id: u64, peers: Vec<u64>, storage: InMemoryStorage, now: Instant) -> Node {
    let core =
        ConsensusModule::new(id, peers.clone(), Box::new(storage), Timing::default(), now).unwrap();
    Node { core, driver: Driver::new(), peers, applied: BTreeMap::new(), reset_to: 0 }
}

/// What a node would find on disk.
fn saved(core: &ConsensusModule<InMemoryStorage>, snapshot: Option<Vec<u8>>) -> InMemoryStorage {
    assert!(core.is_synced());
    let mut storage = InMemoryStorage::new();
    let boundary_term = if core.snapshot_index() == 0 { 0 } else { core.snapshot_term() };
    storage
        .save(&PersistentState {
            current_term: core.current_term(),
            voted_for: core.voted_for(),
            log: Log::from_parts(
                core.snapshot_index(),
                boundary_term,
                core.log_entries().to_vec(),
            ),
            snapshot,
        })
        .unwrap();
    storage
}

/// Whether a node holds `command` at `index`, or has compacted it away.
fn stores(core: &ConsensusModule<InMemoryStorage>, index: u64, command: &[u8]) -> bool {
    if index <= core.snapshot_index() {
        return true;
    }
    let k = (index - core.snapshot_index() - 1) as usize;
    core.log_entries().get(k).is_some_and(|e| e.command == command)
}

struct Sim {
    nodes: BTreeMap<u64, Node>,
    wire: Vec<(u64, u64, Packet)>,
    now: u64,
    seed: u64,
    /// Who led each term.
    leaders: BTreeMap<u64, u64>,
    /// Whom each node voted for in each term.
    votes: BTreeMap<(u64, u64), u64>,
    /// The term, commit index and applied index last seen of each node.
    seen: BTreeMap<u64, (u64, u64, u64)>,
    /// The command committed at each index.
    committed: BTreeMap<u64, Vec<u8>>,
    proposed: u64,
}

impl Sim {
    fn new(n: u64, seed: u64) -> Sim {
        let mut nodes = BTreeMap::new();
        for id in 1..=n {
            let peers: Vec<u64> = (1..=n).filter(|p| *p != id).collect();
            nodes.insert(id, start(id, peers, InMemoryStorage::new(), Instant { nanos: 0 }));
        }
        Sim {
            nodes,
            wire: Vec::new(),
            now: 0,
            seed,
            leaders: BTreeMap::new(),
            votes: BTreeMap::new(),
            seen: BTreeMap::new(),
            committed: BTreeMap::new(),
            proposed: 0,
        }
    }

    fn random(&mut self, below: u64) -> u64 {
        self.seed = self.seed.wrapping_mul(6364136223846793005).wrapping_add(1442695040888963407);
        (self.seed >> 33) % below
    }

    fn at(&self) -> Instant {
        Instant { nanos: self.now }
    }

    fn tick(&mut self, id: u64) {
        let now = self.at();
        let node = self.nodes.get_mut(&id).unwrap();
        match node.driver.tick(&mut node.core, now) {
            Step::PreElection(args) | Step::Election(args) => {
                for peer in node.peers.clone() {
                    self.wire.push((id, peer, Packet::Vote(args)));
                }
            }
            Step::Heartbeat => {
                for peer in node.peers.clone() {
                    let message = outbound(&node.core, peer);
                    self.wire.push((id, peer, Packet::Send(message)));
                }
            }
            Step::Idle => {}
        }
    }

    /// Hand packet `k` to its receiver; keep it on the wire if `again`.
    fn deliver(&mut self, k: usize, again: bool) {
        let now = self.at();
        let (from, to, packet) = self.wire.swap_remove(k);
        let node = self.nodes.get_mut(&to).unwrap();
        match packet {
            Packet::Vote(args) => {
                let reply = node.core.handle_request_vote(args, now);
                self.wire.push((to, from, Packet::VoteReply(reply, args.pre_vote)));
                if again {
                    self.wire.push((from, to, Packet::Vote(args)));
                }
            }
            Packet::VoteReply(reply, true) => {
                if let Some(args) = fold_pre_vote(&mut node.core, from, reply, now) {
                    for peer in node.peers.clone() {
                        self.wire.push((to, peer, Packet::Vote(args)));
                    }
                }
            }
            Packet::VoteReply(reply, false) => node.core.record_vote_reply(from, reply),
            Packet::Send(Outbound::Append { args, match_hint }) => {
                if again {
                    let copy = Outbound::Append { args: args.clone(), match_hint };
                    self.wire.push((from, to, Packet::Send(copy)));
                }
                let reply = node.core.handle_append_entries(args, now);
                self.wire.push((to, from, Packet::AppendReply(reply, match_hint)));
            }
            Packet::Send(Outbound::Install { args }) => {
                let last = args.last_included_index;
                let reply = node.core.handle_install_snapshot(args, now);
                self.wire.push((to, from, Packet::InstallReply(reply, last)));
            }
            Packet::AppendReply(reply, match_hint) => {
                node.core.handle_append_reply(from, reply, match_hint);
                if again {
                    self.wire.push((from, to, Packet::AppendReply(reply, match_hint)));
                }
            }
            Packet::InstallReply(reply, last) => {
                node.core.handle_install_snapshot_reply(from, reply, last);
            }
        }
    }

    fn propose(&mut self, id: u64) {
        self.proposed += 1;
        let command = format!("c{}", self.proposed).into_bytes();
        self.nodes.get_mut(&id).unwrap().core.submit_command(command);
    }

    fn drain(&mut self, id: u64) {
        let node = self.nodes.get_mut(&id).unwrap();
        for item in node.core.take_applies() {
            match item {
                Apply::Snapshot(s) => node.reset_to = s.last_included_index,
                Apply::Command(c) => {
                    let known =
                        self.committed.entry(c.index).or_insert_with(|| c.command.clone());
                    assert_eq!(known, &c.command);
                    node.applied.insert(c.index, c.command);
                }
            }
        }
    }

    fn compact(&mut self, id: u64) {
        let node = self.nodes.get_mut(&id).unwrap();
        let at = node.core.last_applied();
        node.core.snapshot(at, format!("image@{at}").into_bytes());
    }

    fn restart(&mut self, id: u64) {
        let now = self.at();
        let node = &self.nodes[&id];
        let image = if node.core.snapshot_index() > 0 {
            Some(format!("image@{}", node.core.snapshot_index()).into_bytes())
        } else {
            None
        };
        let storage = saved(&node.core, image);
        let peers = node.peers.clone();
        let applied = node.applied.clone();
        let mut fresh = start(id, peers, storage, now);
        fresh.applied = applied;
        self.nodes.insert(id, fresh);
        // Cursors are volatile; terms are not.
        if let Some(seen) = self.seen.get_mut(&id) {
            seen.1 = 0;
            seen.2 = 0;
        }
    }

    /// Everything that must hold at every moment.
    fn check(&mut self) {
        let ids: Vec<u64> = self.nodes.keys().copied().collect();
        for id in &ids {
            let core = &self.nodes[id].core;
            // Cursors stay in order.
            assert!(core.snapshot_index() <= core.last_applied());
            assert!(core.last_applied() <= core.commit_index());
            assert!(core.commit_index() <= core.last_log_index());
            // Terms and, while the node runs, its cursors never move back.
            let fresh = (core.current_term(), core.commit_index(), core.last_applied());
            if let Some(seen) = self.seen.insert(*id, fresh) {
                assert!(seen.0 <= fresh.0 && seen.1 <= fresh.1 && seen.2 <= fresh.2);
            }
            // One vote per term.
            if let Some(candidate) = core.voted_for() {
                let vote = self.votes.entry((*id, core.current_term())).or_insert(candidate);
                assert_eq!(*vote, candidate);
            }
            // One leader per term, in the whole run.
            if core.role() == Role::Leader {
                let leader = self.leaders.entry(core.current_term()).or_insert(*id);
                assert_eq!(leader, id, "two leaders in term {}", core.current_term());
            }
            // No entry of term 0, and terms never decrease along a log.
            for pair in core.log_entries().windows(2) {
                assert!(pair[0].term <= pair[1].term);
            }
            assert!(core.log_entries().iter().all(|e| e.term >= 1));
            // What is committed at an index is committed for good.
            let base = core.snapshot_index();
            for (k, entry) in core.log_entries().iter().enumerate() {
                let index = base + 1 + k as u64;
                if index <= core.commit_index() {
                    let known =
                        self.committed.entry(index).or_insert_with(|| entry.command.clone());
                    assert_eq!(known, &entry.command);
                }
            }
            // What was applied is what was committed.
            for (index, command) in &self.nodes[id].applied {
                assert_eq!(self.committed.get(index), Some(command));
            }
        }
        // What is committed is on a majority, now and for good.
        for (index, command) in &self.committed {
            let stored = self.nodes.values().filter(|n| stores(&n.core, *index, command)).count();
            assert!(stored > self.nodes.len() / 2, "index {index} is on {stored} nodes");
        }
        // Logs match: the same term at the same index, the same entries before.
        for a in &ids {
            for b in &ids {
                self.check_match(*a, *b);
            }
        }
        // Every leader of the newest term holds what is committed.
        let newest = ids.iter().map(|id| self.nodes[id].core.current_term()).max().unwrap();
        for id in &ids {
            let core = &self.nodes[id].core;
            if core.role() == Role::Leader && core.current_term() == newest {
                let last = self.committed.keys().next_back().copied().unwrap_or(0);
                assert!(core.last_log_index() >= last);
            }
        }
    }

    fn check_match(&self, a: u64, b: u64) {
        let (a, b) = (&self.nodes[&a].core, &self.nodes[&b].core);
        let from = a.snapshot_index().max(b.snapshot_index());
        let to = a.last_log_index().min(b.last_log_index());
        let mut agreed = false;
        for index in ((from + 1)..=to).rev() {
            let x = &a.log_entries()[(index - a.snapshot_index() - 1) as usize];
            let y = &b.log_entries()[(index - b.snapshot_index() - 1) as usize];
            if x.term == y.term {
                agreed = true;
            }
            if agreed {
                assert_eq!(x, y);
            }
        }
    }

    /// One random event.
    fn step(&mut self, nodes: u64) {
        let id = 1 + self.random(nodes);
        match self.random(100) {
            0..=24 => {
                let ahead = 10 + self.random(20);
                self.now += ahead * MILLI;
                self.tick(id);
            }
            25..=79 => {
                if !self.wire.is_empty() {
                    let k = self.random(self.wire.len() as u64) as usize;
                    let again = self.random(10) == 0;
                    self.deliver(k, again);
                }
            }
            80..=84 => {
                if !self.wire.is_empty() {
                    let k = self.random(self.wire.len() as u64) as usize;
                    self.wire.swap_remove(k);
                }
            }
            85..=92 => self.propose(id),
            93..=96 => self.drain(id),
            97 => {
                self.drain(id);
                self.compact(id);
            }
            98 => {
                self.drain(id);
                self.restart(id);
            }
            _ => {
                // The backlog of a network that was down.
                while self.wire.len() > 40 {
                    self.wire.swap_remove(0);
                }
            }
        }
    }

    /// Run without faults until everyone has committed what the leader has.
    fn settle(&mut self) {
        for _ in 0..4000 {
            self.now += 15 * MILLI;
            let ids: Vec<u64> = self.nodes.keys().copied().collect();
            for id in &ids {
                self.tick(*id);
            }
            while !self.wire.is_empty() {
                self.deliver(0, false);
            }
            for id in &ids {
                self.drain(*id);
            }
            let lasts: Vec<u64> = ids.iter().map(|id| self.nodes[id].core.commit_index()).collect();
            if let Some(leader) = ids.iter().find(|id| self.nodes[id].core.is_leader()) {
                let leader = *leader;
                let last = self.nodes[&leader].core.last_log_index();
                if last > 0 && lasts.iter().all(|c| *c == last) {
                    return;
                }
                if self.nodes[&leader].core.commit_index() < last || last == 0 {
                    // Entries of older terms commit only beneath one of this term.
                    self.propose(leader);
                }
            }
        }
        panic!("the cluster did not settle");
    }
}

#[test]
fn random_runs_of_three_nodes_keep_every_promise() {
    for seed in 1..=6 {
        let mut sim = Sim::new(3, seed);
        for _ in 0..3000 {
            sim.step(3);
            sim.check();
        }
        sim.settle();
        sim.check();
        assert!(!sim.committed.is_empty());
    }
}

#[test]
fn random_runs_of_five_nodes_keep_every_promise() {
    for seed in 11..=13 {
        let mut sim = Sim::new(5, seed);
        for _ in 0..3000 {
            sim.step(5);
            sim.check();
        }
        sim.settle();
        sim.check();
        assert!(!sim.committed.is_empty());
    }
}

#[test]
fn every_replica_applies_the_same_commands_in_the_same_order() {
    let mut sim = Sim::new(3, 99);
    sim.settle();
    let leader = *sim.nodes.iter().find(|(_, n)| n.core.is_leader()).unwrap().0;
    for _ in 0..5 {
        sim.propose(leader);
    }
    sim.settle();
    let first: Vec<Vec<u8>> = sim.nodes[&1].applied.values().cloned().collect();
    assert!(first.len() >= 6);
    for node in sim.nodes.values() {
        let applied: Vec<Vec<u8>> = node.applied.values().cloned().collect();
        assert_eq!(applied, first);
    }
}

#[test]
fn committed_entries_survive_a_restart_of_every_node() {
    let mut sim = Sim::new(3, 7);
    sim.settle();
    let leader = *sim.nodes.iter().find(|(_, n)| n.core.is_leader()).unwrap().0;
    sim.propose(leader);
    sim.settle();
    let before = sim.committed.clone();
    let terms: Vec<u64> = sim.nodes.values().map(|n| n.core.current_term()).collect();
    sim.check();
    for id in 1..=3 {
        sim.restart(id);
    }
    // Terms and votes outlive the crash.
    for (id, term) in (1..=3).zip(terms) {
        assert_eq!(sim.nodes[&id].core.current_term(), term);
    }
    sim.settle();
    sim.check();
    for (index, command) in before {
        assert_eq!(sim.committed[&index], command);
        for node in sim.nodes.values() {
            assert!(node.core.last_log_index() >= index);
        }
    }
}

#[test]
fn a_laggard_is_caught_up_by_a_snapshot() {
    let mut sim = Sim::new(3, 21);
    sim.settle();
    let leader = *sim.nodes.iter().find(|(_, n)| n.core.is_leader()).unwrap().0;
    let laggard = *sim.nodes.keys().find(|id| **id != leader).unwrap();
    // The laggard is cut off while the others commit and compact.
    for _ in 0..10 {
        sim.propose(leader);
    }
    for _ in 0..20 {
        sim.now += 50 * MILLI;
        for id in 1..=3 {
            if id != laggard {
                sim.tick(id);
            }
        }
        while !sim.wire.is_empty() {
            if sim.wire[0].1 == laggard {
                sim.wire.swap_remove(0);
            } else {
                sim.deliver(0, false);
            }
        }
    }
    sim.drain(leader);
    sim.compact(leader);
    let boundary = sim.nodes[&leader].core.snapshot_index();
    assert!(boundary > sim.nodes[&laggard].core.last_log_index());
    sim.check();
    sim.settle();
    sim.check();
    assert!(sim.nodes[&laggard].core.snapshot_index() >= boundary);
    assert_eq!(sim.nodes[&laggard].reset_to, boundary);
}

#[test]
fn a_rejection_moves_the_leader_back_past_a_whole_term() {
    // The leader holds terms 1 1 1 4, the follower 1 1 1 2 2 2.
    let mut storage = InMemoryStorage::new();
    let log = |terms: &[u64]| {
        Log::from_entries(terms.iter().map(|t| LogEntry::new(*t, vec![*t as u8])).collect())
    };
    storage
        .save(&PersistentState {
            current_term: 4,
            voted_for: None,
            log: log(&[1, 1, 1, 4, 4, 4]),
            snapshot: None,
        })
        .unwrap();
    let mut leader = start(1, vec![2], storage, Instant { nanos: 0 });
    let mut other = InMemoryStorage::new();
    other
        .save(&PersistentState {
            current_term: 2,
            voted_for: None,
            log: log(&[1, 1, 1, 2, 2, 2]),
            snapshot: None,
        })
        .unwrap();
    let mut follower = start(2, vec![1], other, Instant { nanos: 0 });
    leader.core.start_election(Instant { nanos: 0 });
    leader.core.record_vote_reply(2, RequestVoteReply { term: 5, vote_granted: true });
    assert!(leader.core.is_leader());

    let mut nexts = vec![leader.core.append_args_for(2).prev_log_index + 1];
    loop {
        let args = leader.core.append_args_for(2);
        let hint = args.prev_log_index + args.entries.len() as u64;
        let reply = follower.core.handle_append_entries(args, Instant { nanos: 0 });
        leader.core.handle_append_reply(2, reply, hint);
        if reply.success {
            break;
        }
        nexts.push(leader.core.append_args_for(2).prev_log_index + 1);
    }
    // One round trip takes it from past the end to the first of term 2.
    assert_eq!(nexts, vec![7, 4]);
    assert_eq!(leader.core.log_entries(), follower.core.log_entries());
}
