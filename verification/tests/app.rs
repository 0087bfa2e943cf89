//! The replicated state machine, driven against a store in memory.

use std::collections::BTreeMap;

use murmur::app::{
    append_response, assign_client_id, done_response, found, get_response, propose, receipt_of,
    settle, Effect, Failure, GetResponse, Machine, Outcome, Receipt, Refusal, Reset, Wait,
    SNAPSHOT_THRESHOLD,
};
use murmur::command::{append, delete, encode, get, put, Command};
use murmur::raft::{
    AppendEntriesArgs, AppendEntriesReply, Apply, ConsensusModule, InMemoryStorage, Instant,
    RequestVoteReply, Timing,
};
use murmur::store::StoreError;

type Store = BTreeMap<Vec<u8>, Vec<u8>>;

fn run(m: &mut Machine, store: &mut Store, command: Command) -> Outcome {
    let mut effect = m.deliver(&encode(&command)).unwrap();
    loop {
        effect = match effect {
            Effect::Reply(outcome) => return outcome,
            Effect::Read { key } => m.on_read(Ok(store.get(&key).cloned())),
            Effect::Write { key, value } => {
                store.insert(key, value);
                m.on_write(Ok(()))
            }
            Effect::Remove { key } => {
                store.remove(&key);
                m.on_write(Ok(()))
            }
        };
    }
}

fn value(outcome: Outcome) -> Option<Vec<u8>> {
    match outcome {
        Outcome::Value(v) => v,
        other => panic!("expected a value, got {other:?}"),
    }
}

fn listed(m: &Machine) -> Vec<Vec<u8>> {
    m.keys().to_vec()
}

#[test]
fn ordinary_traffic() {
    let (mut m, mut store) = (Machine::new(), Store::new());
    assert_eq!(value(run(&mut m, &mut store, get(b"greeting".to_vec()))), None);
    let outcome = run(&mut m, &mut store, put(b"greeting".to_vec(), b"he".to_vec(), 9, 1));
    assert!(matches!(outcome, Outcome::Done));
    let after = run(&mut m, &mut store, append(b"greeting".to_vec(), b"llo".to_vec(), 9, 2));
    assert_eq!(value(after), Some(b"hello".to_vec()));
    let read = run(&mut m, &mut store, get(b"greeting".to_vec()));
    assert_eq!(value(read), Some(b"hello".to_vec()));
    assert_eq!(listed(&m), vec![b"greeting".to_vec()]);
    let outcome = run(&mut m, &mut store, delete(b"greeting".to_vec(), 9, 3));
    assert!(matches!(outcome, Outcome::Done));
    assert_eq!(value(run(&mut m, &mut store, get(b"greeting".to_vec()))), None);
    assert!(listed(&m).is_empty());
    assert!(store.is_empty());
}

#[test]
fn a_duplicate_append_is_applied_once_and_answered_alike() {
    let (mut m, mut store) = (Machine::new(), Store::new());
    let dup = append(b"log".to_vec(), b"X".to_vec(), 777, 1);
    assert_eq!(value(run(&mut m, &mut store, dup.clone())), Some(b"X".to_vec()));
    // Another client's commands in between do not matter.
    run(&mut m, &mut store, append(b"log".to_vec(), b"-".to_vec(), 5, 8));
    assert_eq!(value(run(&mut m, &mut store, dup)), Some(b"X".to_vec()));
    assert_eq!(store[&b"log".to_vec()], b"X-".to_vec());
    // A genuinely new seq does append again.
    let next = run(&mut m, &mut store, append(b"log".to_vec(), b"Y".to_vec(), 777, 2));
    assert_eq!(value(next), Some(b"X-Y".to_vec()));
    // What is older than the last mutation is a duplicate too.
    run(&mut m, &mut store, delete(b"log".to_vec(), 777, 1));
    assert_eq!(store[&b"log".to_vec()], b"X-Y".to_vec());
}

#[test]
fn a_late_duplicate_changes_nothing() {
    let (mut m, mut store) = (Machine::new(), Store::new());
    let late = append(b"log".to_vec(), b"X".to_vec(), 777, 1);
    run(&mut m, &mut store, late.clone());
    run(&mut m, &mut store, append(b"log".to_vec(), b"Y".to_vec(), 777, 2));
    run(&mut m, &mut store, put(b"other".to_vec(), b"1".to_vec(), 5, 1));
    run(&mut m, &mut store, delete(b"log".to_vec(), 777, 3));
    let before = (store.clone(), image(&mut m, &store));
    run(&mut m, &mut store, Command { nonce: 12, ..late });
    assert_eq!((store.clone(), image(&mut m, &store)), before);
    assert!(!store.contains_key(&b"log".to_vec()));
}

#[test]
fn a_read_finds_the_last_write_past_other_commands() {
    let (mut m, mut store) = (Machine::new(), Store::new());
    run(&mut m, &mut store, put(b"k".to_vec(), b"1".to_vec(), 4, 1));
    run(&mut m, &mut store, append(b"k".to_vec(), b"2".to_vec(), 4, 2));
    run(&mut m, &mut store, put(b"kk".to_vec(), b"x".to_vec(), 5, 1));
    run(&mut m, &mut store, get(b"kk".to_vec()));
    run(&mut m, &mut store, delete(b"kk".to_vec(), 5, 2));
    run(&mut m, &mut store, put(b"k".to_vec(), b"1".to_vec(), 4, 1));
    assert_eq!(value(run(&mut m, &mut store, get(b"k".to_vec()))), Some(b"12".to_vec()));
}

#[test]
fn commands_without_a_client_are_never_deduplicated() {
    let (mut m, mut store) = (Machine::new(), Store::new());
    for _ in 0..2 {
        run(&mut m, &mut store, append(b"k".to_vec(), b"a".to_vec(), 0, 0));
    }
    assert_eq!(store[&b"k".to_vec()], b"aa".to_vec());
    assert!(m.sessions().is_empty());
    // Nor are reads, whoever sends them.
    run(&mut m, &mut store, put(b"k".to_vec(), b"1".to_vec(), 4, 9));
    let read = Command { client_id: 4, seq: 1, ..get(b"k".to_vec()) };
    assert_eq!(value(run(&mut m, &mut store, read)), Some(b"1".to_vec()));
}

#[test]
fn an_engine_failure_applies_nothing_and_can_be_retried() {
    let (mut m, mut store) = (Machine::new(), Store::new());
    let command = append(b"k".to_vec(), b"a".to_vec(), 7, 1);
    // The write fails...
    assert!(matches!(m.begin(command.clone()), Effect::Read { .. }));
    assert!(matches!(m.on_read(Ok(None)), Effect::Write { .. }));
    match m.on_write(Err(StoreError::Engine("disk full".to_string()))) {
        Effect::Reply(Outcome::Failed(Failure::Store(e))) => {
            assert_eq!(e.message(), "sable engine error: disk full");
        }
        other => panic!("expected a failure, got {other:?}"),
    }
    assert!(m.sessions().is_empty());
    assert!(listed(&m).is_empty());
    // ...then the read...
    m.begin(command.clone());
    let failed = m.on_read(Err(StoreError::Engine("io".to_string())));
    assert!(matches!(failed, Effect::Reply(Outcome::Failed(Failure::Store(_)))));
    // ...then it works.
    assert_eq!(value(run(&mut m, &mut store, command)), Some(b"a".to_vec()));
}

#[test]
fn unknown_operations_fail() {
    let mut m = Machine::new();
    match m.begin(Command { op: 44, ..get(b"k".to_vec()) }) {
        Effect::Reply(Outcome::Failed(Failure::UnknownOp(op))) => assert_eq!(op, 44),
        other => panic!("expected a failure, got {other:?}"),
    }
}

#[test]
fn an_entry_that_holds_no_command_is_passed_over() {
    let (mut m, mut store) = (Machine::new(), Store::new());
    assert!(m.deliver(&[0xff]).is_err());
    // The apply loop goes on.
    run(&mut m, &mut store, put(b"k".to_vec(), b"v".to_vec(), 0, 0));
    assert_eq!(store.len(), 1);
}

#[test]
fn keys_are_listed_in_order() {
    let (mut m, mut store) = (Machine::new(), Store::new());
    for key in [&b"b"[..], b"", b"ab", b"a", b"\xff", b"b", b"abc"] {
        run(&mut m, &mut store, put(key.to_vec(), b"v".to_vec(), 0, 0));
    }
    run(&mut m, &mut store, delete(b"ab".to_vec(), 0, 0));
    run(&mut m, &mut store, delete(b"zz".to_vec(), 0, 0));
    let keys: Vec<Vec<u8>> = store.keys().cloned().collect();
    assert_eq!(listed(&m), keys);
    assert_eq!(keys.len(), 5);
}

fn image(m: &mut Machine, store: &Store) -> Vec<u8> {
    let values: Vec<Option<Vec<u8>>> = m.keys().iter().map(|k| store.get(k).cloned()).collect();
    m.snapshot(values).unwrap()
}

fn reset(store: &mut Store, plan: Reset) {
    for key in plan.remove {
        store.remove(&key);
    }
    for pair in plan.write {
        store.insert(pair.key, pair.value);
    }
}

#[test]
fn a_snapshot_restores_the_store_and_the_dedup_table() {
    let (mut m, mut store) = (Machine::new(), Store::new());
    run(&mut m, &mut store, put(b"a".to_vec(), b"1".to_vec(), 7, 1));
    run(&mut m, &mut store, put(b"b".to_vec(), b"".to_vec(), 8, 4));
    run(&mut m, &mut store, append(b"c".to_vec(), b"x".to_vec(), 7, 2));
    let bytes = image(&mut m, &store);

    // A replica that holds other things starts over from it.
    let (mut r, mut other) = (Machine::new(), Store::new());
    run(&mut r, &mut other, put(b"a".to_vec(), b"old".to_vec(), 0, 0));
    run(&mut r, &mut other, put(b"stale".to_vec(), b"x".to_vec(), 0, 0));
    let plan = r.restore(&bytes).unwrap();
    assert_eq!(plan.remove, vec![b"stale".to_vec()]);
    reset(&mut other, plan);
    assert_eq!(other, store);
    assert_eq!(listed(&r), listed(&m));
    // It recognizes the mutations that the snapshot covers.
    let again = run(&mut r, &mut other, append(b"c".to_vec(), b"x".to_vec(), 7, 2));
    assert_eq!(value(again), Some(b"x".to_vec()));
    run(&mut r, &mut other, put(b"b".to_vec(), b"dup".to_vec(), 8, 4));
    assert_eq!(other, store);
    // And gives the same snapshot.
    assert_eq!(image(&mut r, &other), bytes);
}

#[test]
fn a_replica_that_starts_from_a_snapshot_catches_up() {
    let commands = [
        put(b"a".to_vec(), b"1".to_vec(), 7, 1),
        append(b"a".to_vec(), b"2".to_vec(), 8, 1),
        delete(b"b".to_vec(), 7, 2),
        put(b"b".to_vec(), b"x".to_vec(), 8, 2),
        append(b"a".to_vec(), b"2".to_vec(), 8, 1),
        append(b"b".to_vec(), b"y".to_vec(), 7, 3),
    ];
    let (mut m, mut store) = (Machine::new(), Store::new());
    for command in &commands {
        run(&mut m, &mut store, command.clone());
    }
    for k in 0..=commands.len() {
        let (mut first, mut held) = (Machine::new(), Store::new());
        for command in &commands[..k] {
            run(&mut first, &mut held, command.clone());
        }
        let bytes = image(&mut first, &held);
        let (mut r, mut other) = (Machine::new(), Store::new());
        reset(&mut other, r.restore(&bytes).unwrap());
        for command in &commands[k..] {
            run(&mut r, &mut other, command.clone());
        }
        assert_eq!(other, store);
        assert_eq!(image(&mut r, &other), image(&mut m, &store));
    }
}

/// Hand a machine what is due.
fn feed(m: &mut Machine, store: &mut Store, applies: Vec<Apply>) {
    for item in applies {
        match item {
            Apply::Snapshot(snapshot) => reset(store, m.restore(&snapshot.data).unwrap()),
            Apply::Command(applied) => {
                run(m, store, murmur::command::decode(&applied.command).unwrap());
            }
        }
    }
}

fn lone_node(id: u64, peers: Vec<u64>) -> ConsensusModule<InMemoryStorage> {
    let storage = Box::new(InMemoryStorage::new());
    ConsensusModule::new(id, peers, storage, Timing::default(), Instant { nanos: 0 }).unwrap()
}

#[test]
fn what_a_node_hands_over_makes_a_replica() {
    let now = Instant { nanos: 0 };
    let mut leader = lone_node(1, vec![]);
    leader.start_election(now);
    let (mut m, mut store) = (Machine::new(), Store::new());
    for seq in 1..=6 {
        leader.submit_command(encode(&append(b"k".to_vec(), vec![b'a' + seq as u8], 7, seq)));
        leader.submit_command(encode(&put(vec![seq as u8], b"v".to_vec(), 8, seq)));
        let applies = leader.take_applies();
        feed(&mut m, &mut store, applies);
        if seq == 4 {
            let bytes = image(&mut m, &store);
            leader.snapshot(leader.last_applied(), bytes);
        }
    }
    assert_eq!((leader.snapshot_index(), leader.last_applied()), (8, 12));

    // A node that starts from the snapshot and the entries after it.
    let mut follower = lone_node(2, vec![1]);
    follower.handle_install_snapshot(leader.install_snapshot_args(2), now);
    let reply = follower.handle_append_entries(
        AppendEntriesArgs {
            term: leader.current_term(),
            leader_id: 1,
            prev_log_index: leader.snapshot_index(),
            prev_log_term: leader.snapshot_term(),
            entries: leader.log_entries().to_vec(),
            leader_commit: leader.commit_index(),
        },
        now,
    );
    assert!(reply.success);
    let (mut r, mut other) = (Machine::new(), Store::new());
    run(&mut r, &mut other, put(b"stale".to_vec(), b"x".to_vec(), 0, 0));
    let applies = follower.take_applies();
    assert_eq!(applies.len(), 5);
    feed(&mut r, &mut other, applies);
    assert_eq!(other, store);
    assert_eq!(image(&mut r, &other), image(&mut m, &store));
    assert_eq!(store[&b"k".to_vec()], b"bcdefg".to_vec());
}

#[test]
fn a_snapshot_of_nothing() {
    let mut m = Machine::new();
    let bytes = image(&mut m, &Store::new());
    assert_eq!(bytes, vec![0; 16]);
    let plan = m.restore(&bytes).unwrap();
    assert!(plan.remove.is_empty() && plan.write.is_empty());
}

#[test]
fn a_snapshot_takes_a_value_for_every_key() {
    let (mut m, mut store) = (Machine::new(), Store::new());
    run(&mut m, &mut store, put(b"a".to_vec(), b"1".to_vec(), 0, 0));
    assert!(m.snapshot(Vec::new()).is_none());
    assert!(m.snapshot(vec![None, None]).is_none());
    // A key that the engine has lost is left out.
    let bytes = m.snapshot(vec![None]).unwrap();
    assert_eq!(bytes, vec![0; 16]);
}

#[test]
fn damaged_snapshots_are_turned_down() {
    let (mut m, mut store) = (Machine::new(), Store::new());
    run(&mut m, &mut store, put(b"a".to_vec(), b"1".to_vec(), 7, 1));
    run(&mut m, &mut store, append(b"b".to_vec(), b"2".to_vec(), 8, 1));
    let bytes = image(&mut m, &store);
    for n in 0..bytes.len() {
        assert!(m.restore(&bytes[..n]).is_err());
    }
    // One client twice.
    let mut twice = bytes.clone();
    let second = 8 + 24;
    assert_eq!(twice[second], 8);
    twice[second] = 7;
    assert!(m.restore(&twice).is_err());
    // Keys out of order.
    let mut unsorted = bytes.clone();
    let last = unsorted.len() - 1 - 8 - 1;
    assert_eq!(unsorted[last], b'b');
    unsorted[last] = b'a';
    assert!(m.restore(&unsorted).is_err());
    // Nothing has changed.
    assert_eq!(listed(&m), vec![b"a".to_vec(), b"b".to_vec()]);
    assert_eq!(m.sessions().len(), 2);
    assert!(m.restore(&bytes).is_ok());
}

#[test]
fn snapshots_come_due() {
    let (mut m, mut store) = (Machine::new(), Store::new());
    for _ in 1..SNAPSHOT_THRESHOLD {
        run(&mut m, &mut store, get(b"k".to_vec()));
        assert!(!m.snapshot_due());
    }
    run(&mut m, &mut store, get(b"k".to_vec()));
    assert!(m.snapshot_due());
    image(&mut m, &store);
    assert!(!m.snapshot_due());
}

#[test]
fn responses() {
    let some = get_response(Outcome::Value(Some(b"v".to_vec()))).unwrap();
    assert_eq!(some, GetResponse { found: true, value: b"v".to_vec() });
    // An empty value is found.
    assert_eq!(found(Some(Vec::new())), GetResponse { found: true, value: Vec::new() });
    let none = GetResponse { found: false, value: Vec::new() };
    assert_eq!(get_response(Outcome::Value(None)).unwrap(), none);
    assert_eq!(get_response(Outcome::Done).unwrap(), none);
    assert!(get_response(Outcome::Failed(Failure::UnknownOp(9))).is_err());
    assert!(done_response(Outcome::Done).is_ok());
    assert!(done_response(Outcome::Value(None)).is_ok());
    assert!(done_response(Outcome::Failed(Failure::UnknownOp(9))).is_err());
    assert_eq!(append_response(Outcome::Value(Some(b"x".to_vec()))).unwrap(), b"x".to_vec());
    assert_eq!(append_response(Outcome::Done).unwrap(), Vec::<u8>::new());
    assert!(append_response(Outcome::Failed(Failure::UnknownOp(9))).is_err());
}

#[test]
fn refusals() {
    let refused = settle(Wait::Refused, Some(3)).unwrap_err();
    assert_eq!(refused, Refusal::NotLeader(Some(3)));
    assert_eq!(refused.message(), "not leader");
    let expired = settle(Wait::Expired, None).unwrap_err();
    assert_eq!(expired, Refusal::TimedOut);
    assert_eq!(expired.message(), "command not committed in time; retry");
    assert!(settle(Wait::Applied(Outcome::Done), None).is_ok());
}

#[test]
fn client_ids_are_not_zero() {
    let ids: std::collections::BTreeSet<u64> = (0..100).map(|_| assign_client_id()).collect();
    assert_eq!(ids.len(), 100);
    assert!(!ids.contains(&0));
}

#[test]
fn receipts_lead_back_to_their_commands() {
    let now = Instant { nanos: 0 };
    let mut old = lone_node(1, vec![2, 3]);
    assert_eq!(propose(&mut old, b"refused".to_vec()), None);
    old.start_election(now);
    old.record_vote_reply(2, RequestVoteReply { term: 1, vote_granted: true });
    let first = propose(&mut old, b"lost".to_vec()).unwrap();
    assert_eq!(first, Receipt { term: 1, index: 1 });
    assert_eq!(propose(&mut old, b"lost too".to_vec()), Some(Receipt { term: 1, index: 2 }));

    // Another node takes over and puts a command of its own at the same index.
    let mut new = lone_node(2, vec![1, 3]);
    new.start_election(now);
    new.start_election(now);
    new.record_vote_reply(3, RequestVoteReply { term: 2, vote_granted: true });
    let second = propose(&mut new, b"kept".to_vec()).unwrap();
    assert_eq!(second, Receipt { term: 2, index: 1 });
    new.handle_append_reply(3, AppendEntriesReply::success(2), 1);
    old.handle_append_entries(new.append_args_for(1), now);

    // Both hand it over under the receipt of its proposal, and no other.
    for node in [&mut old, &mut new] {
        let applies = node.take_applies();
        assert_eq!(applies.len(), 1);
        match &applies[0] {
            Apply::Command(entry) => {
                assert_eq!(receipt_of(entry), second);
                assert_eq!(entry.command, b"kept".to_vec());
            }
            other => panic!("expected a command, got {other:?}"),
        }
    }
}
