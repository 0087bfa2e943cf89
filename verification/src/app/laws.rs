//! What the replicated store promises its clients.

use vstd::prelude::*;

use crate::command::{CommandView, Op};
use crate::raft::cluster::{Cluster, Event};
use crate::raft::model::NodeView;
use crate::raft::types::{ApplyView, EntryView, NodeId};
use crate::store::{Data, StoreErrorView};

use super::image::{ImageView, Pair, PairView};
use super::machine::{EffectView, MachineView};
use super::outcome::{FailureView, OutcomeView};
use super::sessions::{Session, SessionView};

verus! {

/// The replicated state: the store, and each client's last mutation.
#[verifier::ext_equal]
pub struct Kv {
    pub sessions: Seq<SessionView>,
    pub data: Data,
}

/// What the store holds at a key.
pub open spec fn lookup(data: Data, key: Seq<u8>) -> Option<Seq<u8>> {
    if data.contains_key(key) {
        Some(data[key])
    } else {
        None
    }
}

/// The keys of a store, in order.
pub open spec fn keys_in_order(data: Data) -> Seq<Seq<u8>> {
    choose|keys: Seq<Seq<u8>>|
        super::directory::ascending(keys) && #[trigger] keys.to_set() == data.dom()
}

impl Kv {
    /// The state after an item that a node hands to its state machine: a snapshot
    /// replaces it, a command is applied to it, and what can be neither read nor
    /// decoded is passed over.
    pub open spec fn take(self, item: ApplyView) -> Self {
        match item {
            ApplyView::Snapshot(snapshot) => match ImageView::of(snapshot.data) {
                Some(image) => Kv { sessions: image.sessions, data: image.data() },
                None => self,
            },
            ApplyView::Command { command, .. } => match CommandView::decoded(command) {
                Some(c) => self.apply(c).0,
                None => self,
            },
        }
    }

    /// The state after a run of such items.
    pub open spec fn take_all(self, items: Seq<ApplyView>) -> Self
        decreases items.len(),
    {
        if items.len() == 0 {
            self
        } else {
            self.take_all(items.drop_last()).take(items.last())
        }
    }

    /// Nothing stored, and no client known.
    pub open spec fn empty() -> Self {
        Kv { sessions: Seq::empty(), data: Map::empty() }
    }

    /// The snapshot that shows this state.
    pub open spec fn image(self) -> ImageView {
        let keys = keys_in_order(self.data);
        ImageView {
            sessions: self.sessions,
            pairs: super::image::present(keys, values_at(self.data, keys)),
        }
    }

    /// What a command means: the state after it, and its outcome.
    pub open spec fn apply(self, c: CommandView) -> (Self, OutcomeView) {
        match Op::of(c.op) {
            Err(unknown) => (self, OutcomeView::Failed(FailureView::UnknownOp(unknown.0))),
            Ok(op) => if super::machine::is_duplicate(self.sessions, op, c) {
                (self, super::sessions::session(self.sessions, c.client_id).outcome)
            } else {
                let (data, outcome) = match op {
                    Op::Get => (self.data, OutcomeView::Value(lookup(self.data, c.key))),
                    Op::Put => (self.data.insert(c.key, c.value), OutcomeView::Done),
                    Op::Delete => (self.data.remove(c.key), OutcomeView::Done),
                    Op::Append => {
                        let value = super::machine::appended_to(
                            lookup(self.data, c.key),
                            c.value,
                        );
                        (self.data.insert(c.key, value), OutcomeView::Value(Some(value)))
                    },
                };
                (
                    Kv {
                        sessions: super::machine::remembered(self.sessions, op, c, outcome),
                        data,
                    },
                    outcome,
                )
            },
        }
    }

    /// The state after a run of commands.
    pub open spec fn apply_all(self, commands: Seq<CommandView>) -> Self
        decreases commands.len(),
    {
        if commands.len() == 0 {
            self
        } else {
            self.apply_all(commands.drop_last()).apply(commands.last()).0
        }
    }
}

/// What becomes of a machine, a store and a command when an engine that never
/// fails does what the machine asks of it, for at most `steps` requests.
pub open spec fn drive(m: MachineView, data: Data, e: EffectView, steps: nat) -> (
    MachineView,
    Data,
    Option<OutcomeView>,
)
    decreases steps,
{
    match e {
        EffectView::Reply(outcome) => (m, data, Some(outcome)),
        _ => if steps == 0 {
            (m, data, None)
        } else {
            let (data, (m, e)) = match e {
                EffectView::Read { key } => (data, m.on_read(Ok(lookup(data, key)))),
                EffectView::Write { key, value } => (data.insert(key, value), m.on_write(Ok(()))),
                EffectView::Remove { key } => (data.remove(key), m.on_write(Ok(()))),
                EffectView::Reply(outcome) => (data, (m, e)),
            };
            drive(m, data, e, (steps - 1) as nat)
        },
    }
}

/// The machine does what its commands mean: driven against an engine, in at most
/// two requests, it leaves the store and the dedup table as the command's meaning
/// has them, answers with its outcome, and its key directory still lists the keys
/// of the store.
pub proof fn the_machine_does_what_commands_mean(m: MachineView, data: Data, c: CommandView)
    requires
        m.running is None,
        m.keys == data.dom(),
    ensures
        ({
            let (begun, e) = m.begin(c);
            let (after, stored, outcome) = drive(begun, data, e, 2);
            let (kv, meant) = Kv { sessions: m.sessions, data }.apply(c);
            &&& outcome == Some(meant)
            &&& stored == kv.data
            &&& after.sessions == kv.sessions
            &&& after.running is None
            &&& after.keys == stored.dom()
        }),
{
    reveal_with_fuel(drive, 3);
    let (begun, e) = m.begin(c);
    let (after, stored, outcome) = drive(begun, data, e, 2);
    assert(after.keys =~= stored.dom());
}

/// A mutation leaves its client's session behind, and no other changes it.
proof fn lemma_session_of(sessions: Seq<SessionView>, s: SessionView, client_id: u64)
    requires
        super::sessions::distinct(sessions),
    ensures
        super::sessions::distinct(super::sessions::with_session(sessions, s)),
        super::sessions::knows(super::sessions::with_session(sessions, s), s.client_id),
        super::sessions::session(super::sessions::with_session(sessions, s), s.client_id) == s,
        client_id != s.client_id && super::sessions::knows(sessions, client_id) ==> {
            &&& super::sessions::knows(super::sessions::with_session(sessions, s), client_id)
            &&& super::sessions::session(super::sessions::with_session(sessions, s), client_id)
                == super::sessions::session(sessions, client_id)
        },
{
    let after = super::sessions::with_session(sessions, s);
    let at = if super::sessions::knows(sessions, s.client_id) {
        super::sessions::position(sessions, s.client_id)
    } else {
        sessions.len() as int
    };
    if super::sessions::knows(sessions, s.client_id) {
        assert(sessions[at].client_id == s.client_id);
    }
    assert(after[at].client_id == s.client_id);
    assert forall|i: int, j: int| 0 <= i < j < after.len() implies (#[trigger] after[i]).client_id
        != (#[trigger] after[j]).client_id by {
        if super::sessions::knows(sessions, s.client_id) {
            assert(sessions[i].client_id != sessions[j].client_id);
        } else if j < sessions.len() {
            assert(sessions[i].client_id != sessions[j].client_id);
        } else {
            assert(sessions[i].client_id != s.client_id);
        }
    }
    let p = super::sessions::position(after, s.client_id);
    assert(after[p].client_id == s.client_id);
    assert(p == at);
    if client_id != s.client_id && super::sessions::knows(sessions, client_id) {
        let q = super::sessions::position(sessions, client_id);
        assert(sessions[q].client_id == client_id);
        assert(after[q] == sessions[q]);
        assert(after[q].client_id == client_id);
        let w = super::sessions::position(after, client_id);
        assert(after[w].client_id == client_id);
        assert(w == q);
    }
}

/// The command is a mutation of a client that is known by its id.
pub open spec fn is_stamped(c: CommandView) -> bool {
    (Op::of(c.op) matches Ok(op) && super::machine::mutates(op)) && c.client_id != 0
}

proof fn lemma_apply_distinct(kv: Kv, c: CommandView)
    requires
        super::sessions::distinct(kv.sessions),
    ensures
        super::sessions::distinct(kv.apply(c).0.sessions),
{
    match Op::of(c.op) {
        Ok(op) => {
            let outcome = kv.apply(c).1;
            lemma_session_of(
                kv.sessions,
                SessionView { client_id: c.client_id, seq: c.seq, outcome },
                0,
            );
        },
        Err(_) => {},
    }
}

/// The client's session shows that this mutation, or a later one of the client's,
/// was applied.
spec fn passed(kv: Kv, c: CommandView) -> bool {
    &&& super::sessions::distinct(kv.sessions)
    &&& super::sessions::knows(kv.sessions, c.client_id)
    &&& c.seq <= super::sessions::session(kv.sessions, c.client_id).seq
}

/// No command takes a client's session back, and another client's leaves it as it
/// is.
proof fn lemma_stays_passed(kv: Kv, c: CommandView, other: CommandView)
    requires
        passed(kv, c),
    ensures
        passed(kv.apply(other).0, c),
        other.client_id != c.client_id ==> super::sessions::session(
            kv.apply(other).0.sessions,
            c.client_id,
        ) == super::sessions::session(kv.sessions, c.client_id),
{
    lemma_apply_distinct(kv, other);
    match Op::of(other.op) {
        Ok(op) => {
            let o = kv.apply(other).1;
            lemma_session_of(
                kv.sessions,
                SessionView { client_id: other.client_id, seq: other.seq, outcome: o },
                c.client_id,
            );
        },
        Err(_) => {},
    }
}

/// None of the commands is of this client.
pub open spec fn of_others(commands: Seq<CommandView>, client_id: u64) -> bool {
    forall|i: int| 0 <= i < commands.len() ==> (#[trigger] commands[i]).client_id != client_id
}

proof fn lemma_all_stay_passed(kv: Kv, c: CommandView, between: Seq<CommandView>)
    requires
        passed(kv, c),
    ensures
        passed(kv.apply_all(between), c),
        of_others(between, c.client_id) ==> super::sessions::session(
            kv.apply_all(between).sessions,
            c.client_id,
        ) == super::sessions::session(kv.sessions, c.client_id),
    decreases between.len(),
{
    if between.len() > 0 {
        let front = between.drop_last();
        lemma_all_stay_passed(kv, c, front);
        lemma_stays_passed(kv.apply_all(front), c, between.last());
        if of_others(between, c.client_id) {
            assert forall|i: int| 0 <= i < front.len() implies (#[trigger] front[i]).client_id
                != c.client_id by {
                assert(front[i] == between[i]);
            }
            assert(between.last() == between[between.len() - 1]);
        }
    }
}

/// `again` is `c` sent once more: it carries the same stamp, whatever its nonce.
pub open spec fn is_retry(c: CommandView, again: CommandView) -> bool {
    is_stamped(again) && again.client_id == c.client_id && again.seq == c.seq
}

/// Exactly once: a client's mutation that reaches the log a second time changes
/// nothing, whatever was applied in between, later mutations of the same client
/// among it. Where the client has sent nothing else since, it is also answered as
/// it was the first time.
pub proof fn a_retried_mutation_applies_once(
    kv: Kv,
    c: CommandView,
    between: Seq<CommandView>,
    again: CommandView,
)
    requires
        super::sessions::distinct(kv.sessions),
        is_stamped(c),
        is_retry(c, again),
    ensures
        ({
            let (after, outcome) = kv.apply(c);
            let later = after.apply_all(between);
            &&& later.apply(again).0 == later
            &&& of_others(between, c.client_id) ==> later.apply(again) == (later, outcome)
        }),
{
    let (after, outcome) = kv.apply(c);
    lemma_session_of(
        kv.sessions,
        SessionView { client_id: c.client_id, seq: c.seq, outcome },
        c.client_id,
    );
    assert(passed(after, c));
    lemma_all_stay_passed(after, c, between);
}

/// A client that goes on to its next mutation has it applied: only what is not
/// past its last mutation is taken for a duplicate.
pub proof fn a_fresh_mutation_applies(kv: Kv, c: CommandView)
    requires
        is_stamped(c),
        super::sessions::knows(kv.sessions, c.client_id) ==> super::sessions::session(
            kv.sessions,
            c.client_id,
        ).seq < c.seq,
    ensures
        Op::of(c.op) == Ok::<Op, crate::command::UnknownOp>(Op::Put) ==> kv.apply(c).0.data
            == kv.data.insert(c.key, c.value),
        Op::of(c.op) == Ok::<Op, crate::command::UnknownOp>(Op::Delete) ==> kv.apply(c).0.data
            == kv.data.remove(c.key),
        Op::of(c.op) == Ok::<Op, crate::command::UnknownOp>(Op::Append) ==> kv.apply(c).0.data
            == kv.data.insert(
            c.key,
            super::machine::appended_to(lookup(kv.data, c.key), c.value),
        ),
{
}

/// A read changes nothing, is never taken for a duplicate, and finds what the
/// store holds.
pub proof fn reads_are_never_deduplicated(kv: Kv, c: CommandView)
    requires
        Op::of(c.op) == Ok::<Op, crate::command::UnknownOp>(Op::Get),
    ensures
        kv.apply(c) == (kv, OutcomeView::Value(lookup(kv.data, c.key))),
{
}

/// A command that does not change what the store holds at `key`: a read, a mutation
/// of another key, a duplicate, or nothing that is known.
pub open spec fn spares(kv: Kv, c: CommandView, key: Seq<u8>) -> bool {
    match Op::of(c.op) {
        Ok(op) => !super::machine::mutates(op) || c.key != key || super::machine::is_duplicate(
            kv.sessions,
            op,
            c,
        ),
        Err(_) => true,
    }
}

/// None of a run of commands changes what the store holds at `key`.
pub open spec fn all_spare(kv: Kv, commands: Seq<CommandView>, key: Seq<u8>) -> bool
    decreases commands.len(),
{
    commands.len() > 0 ==> {
        &&& all_spare(kv, commands.drop_last(), key)
        &&& spares(kv.apply_all(commands.drop_last()), commands.last(), key)
    }
}

proof fn lemma_spared(kv: Kv, commands: Seq<CommandView>, key: Seq<u8>)
    requires
        all_spare(kv, commands, key),
    ensures
        lookup(kv.apply_all(commands).data, key) == lookup(kv.data, key),
    decreases commands.len(),
{
    if commands.len() > 0 {
        lemma_spared(kv, commands.drop_last(), key);
    }
}

/// A read finds what the last write to its key left, whatever was applied to other
/// keys, read or repeated in between.
pub proof fn a_read_finds_what_was_written(
    kv: Kv,
    w: CommandView,
    between: Seq<CommandView>,
    r: CommandView,
)
    requires
        Op::of(w.op) matches Ok(op) && super::machine::mutates(op)
            && !super::machine::is_duplicate(kv.sessions, op, w),
        all_spare(kv.apply(w).0, between, w.key),
        Op::of(r.op) == Ok::<Op, crate::command::UnknownOp>(Op::Get),
        r.key == w.key,
    ensures
        kv.apply(w).0.apply_all(between).apply(r).1 == OutcomeView::Value(
            match Op::of(w.op)->Ok_0 {
                Op::Put => Some(w.value),
                Op::Delete => None,
                _ => Some(super::machine::appended_to(lookup(kv.data, w.key), w.value)),
            },
        ),
{
    lemma_spared(kv.apply(w).0, between, w.key);
}

/// A command that the engine fails leaves the dedup table and the key directory as
/// they were: it can be retried.
pub proof fn failures_leave_no_trace(m: MachineView, e: StoreErrorView)
    requires
        m.running is Some,
    ensures
        m.on_write(Err(e)).0 == (MachineView { running: None, ..m }),
        m.on_read(Err(e)).0 == (MachineView { running: None, ..m }),
        m.on_write(Err(e)).1 == EffectView::Reply(OutcomeView::Failed(FailureView::Store(e))),
        m.on_read(Err(e)).1 == EffectView::Reply(OutcomeView::Failed(FailureView::Store(e))),
{
}

// ---- snapshots ----
/// Every count and length in the image is one that memory can hold.
pub open spec fn fits_memory(image: ImageView) -> bool {
    &&& image.sessions.len() <= usize::MAX
    &&& image.pairs.len() <= usize::MAX
    &&& forall|i: int|
        0 <= i < image.sessions.len() ==> ((#[trigger] image.sessions[i]).outcome matches
            OutcomeView::Value(Some(value)) ==> value.len() <= usize::MAX)
    &&& forall|i: int|
        0 <= i < image.pairs.len() ==> (#[trigger] image.pairs[i]).key.len() <= usize::MAX
            && image.pairs[i].value.len() <= usize::MAX
}

/// No failure is remembered.
pub open spec fn no_failures(sessions: Seq<SessionView>) -> bool {
    forall|i: int| 0 <= i < sessions.len() ==> !((#[trigger] sessions[i]).outcome is Failed)
}

/// A snapshot survives the trip through bytes.
pub proof fn images_round_trip(image: ImageView)
    requires
        image.wf(),
        fits_memory(image),
        no_failures(image.sessions),
    ensures
        ImageView::of(image.bytes()) == Some(image),
{
    let f1 = crate::codec::list::<Session>(image.sessions);
    let f2 = crate::codec::list::<Pair>(image.pairs);
    let none = Seq::<u8>::empty();
    assert(image.bytes() =~= f1 + (f2 + none));
    assert forall|i: int| 0 <= i < image.sessions.len() implies <Session as crate::codec::Record>::fits(
    #[trigger] image.sessions[i]) by {
        assert(!(image.sessions[i].outcome is Failed));
    }
    assert forall|i: int| 0 <= i < image.pairs.len() implies <Pair as crate::codec::Record>::fits(
        #[trigger] image.pairs[i],
    ) by {
        assert(image.pairs[i].key.len() <= usize::MAX);
    }
    crate::codec::lists_read_back::<Session>(image.sessions, f2 + none);
    crate::codec::lists_read_back::<Pair>(image.pairs, none);
}

/// The values of a store at some keys.
pub open spec fn values_at(data: Data, keys: Seq<Seq<u8>>) -> Seq<Option<Seq<u8>>> {
    Seq::new(keys.len(), |i: int| lookup(data, keys[i]))
}

proof fn lemma_present(keys: Seq<Seq<u8>>, data: Data)
    requires
        forall|i: int| 0 <= i < keys.len() ==> data.contains_key(#[trigger] keys[i]),
    ensures
        super::image::present(keys, values_at(data, keys)) == Seq::new(
            keys.len(),
            |i: int| PairView { key: keys[i], value: data[keys[i]] },
        ),
    decreases keys.len(),
{
    let values = values_at(data, keys);
    if keys.len() > 0 {
        let front = keys.drop_last();
        assert forall|i: int| 0 <= i < front.len() implies data.contains_key(#[trigger] front[i]) by {
            assert(front[i] == keys[i]);
        }
        lemma_present(front, data);
        assert(values.drop_last() =~= values_at(data, front));
        assert(data.contains_key(keys[keys.len() - 1]));
    }
    assert(super::image::present(keys, values) =~= Seq::new(
        keys.len(),
        |i: int| PairView { key: keys[i], value: data[keys[i]] },
    ));
}

/// A snapshot of the values at every key of the store shows the whole store, with
/// its keys in order.
pub proof fn snapshots_show_the_store(
    sessions: Seq<SessionView>,
    keys: Seq<Seq<u8>>,
    data: Data,
)
    requires
        super::directory::ascending(keys),
        keys.to_set() == data.dom(),
    ensures
        ({
            let pairs = super::image::present(keys, values_at(data, keys));
            &&& super::image::keys_of(pairs) == keys
            &&& ImageView { sessions, pairs }.data() == data
        }),
{
    assert forall|i: int| 0 <= i < keys.len() implies data.contains_key(#[trigger] keys[i]) by {
        assert(keys.to_set().contains(keys[i]));
    }
    lemma_present(keys, data);
    let pairs = super::image::present(keys, values_at(data, keys));
    let image = ImageView { sessions, pairs };
    assert(super::image::keys_of(pairs) =~= keys);
    assert forall|k: Seq<u8>| keys.contains(k) implies image.data()[k] == data[k] by {
        let i = keys.index_of(k);
        assert(keys[i] == k);
    }
    assert forall|k: Seq<u8>| image.data().contains_key(k) <==> data.contains_key(k) by {
        assert(keys.contains(k) <==> keys.to_set().contains(k));
    }
    assert(image.data() =~= data);
}

/// A store after some keys were removed.
pub open spec fn removed(data: Data, keys: Seq<Seq<u8>>) -> Data {
    data.remove_keys(keys.to_set())
}

/// A store after some pairs were put.
pub open spec fn written(data: Data, pairs: Seq<PairView>) -> Data
    decreases pairs.len(),
{
    if pairs.len() == 0 {
        data
    } else {
        written(data, pairs.drop_last()).insert(pairs.last().key, pairs.last().value)
    }
}

proof fn lemma_written(data: Data, pairs: Seq<PairView>, k: Seq<u8>)
    requires
        super::directory::ascending(super::image::keys_of(pairs)),
    ensures
        written(data, pairs).contains_key(k) <==> data.contains_key(k) || super::image::keys_of(
            pairs,
        ).contains(k),
        super::image::keys_of(pairs).contains(k) ==> written(data, pairs)[k]
            == pairs[super::image::keys_of(pairs).index_of(k)].value,
        !super::image::keys_of(pairs).contains(k) && data.contains_key(k) ==> written(
            data,
            pairs,
        )[k] == data[k],
    decreases pairs.len(),
{
    let keys = super::image::keys_of(pairs);
    if pairs.len() > 0 {
        let front = pairs.drop_last();
        let fronts = super::image::keys_of(front);
        assert(fronts =~= keys.drop_last());
        assert forall|i: int, j: int| 0 <= i < j < fronts.len() implies super::directory::precedes(
            #[trigger] fronts[i],
            #[trigger] fronts[j],
        ) by {
            assert(super::directory::precedes(keys[i], keys[j]));
        }
        lemma_written(data, front, k);
        let last = keys.len() - 1;
        if k == keys[last] {
            assert(keys.contains(k));
            let i = keys.index_of(k);
            if i < last {
                assert(super::directory::precedes(keys[i], keys[last]));
                super::directory::lemma_irreflexive(k);
            }
        } else if keys.contains(k) {
            let i = keys.index_of(k);
            assert(fronts[i] == k);
            let j = fronts.index_of(k);
            assert(keys[j] == k);
            if i < j {
                assert(super::directory::precedes(keys[i], keys[j]));
                super::directory::lemma_irreflexive(k);
            } else if j < i {
                assert(super::directory::precedes(keys[j], keys[i]));
                super::directory::lemma_irreflexive(k);
            }
        } else {
            if fronts.contains(k) {
                let j = fronts.index_of(k);
                assert(keys[j] == k);
            }
        }
    }
}

/// Restoring a snapshot makes the store equal to it, whatever the store held, as
/// long as the key directory listed its keys: with `remove` and `write` as
/// [`super::machine::Machine::restore`] gives them.
pub proof fn restoring_restores(
    image: ImageView,
    before: MachineView,
    data: Data,
    remove: Seq<Seq<u8>>,
)
    requires
        image.wf(),
        data.dom().subset_of(before.keys),
        forall|k: Seq<u8>| #[trigger]
            remove.contains(k) <==> before.keys.contains(k) && !super::image::keys_of(
                image.pairs,
            ).contains(k),
    ensures
        written(removed(data, remove), image.pairs) == image.data(),
{
    let after = written(removed(data, remove), image.pairs);
    let keys = super::image::keys_of(image.pairs);
    assert forall|k: Seq<u8>| #[trigger] after.contains_key(k) <==> image.data().contains_key(k) by {
        lemma_written(removed(data, remove), image.pairs, k);
        if data.contains_key(k) && !keys.contains(k) {
            assert(before.keys.contains(k));
            assert(remove.contains(k));
            assert(remove.to_set().contains(k));
        }
    }
    assert forall|k: Seq<u8>| after.contains_key(k) implies after[k] == image.data()[k] by {
        lemma_written(removed(data, remove), image.pairs, k);
        assert(image.data().contains_key(k));
    }
    assert(after =~= image.data());
}

// ---- replicas ----
/// The commands in a run of log entries, without those that hold none.
pub open spec fn commands(entries: Seq<EntryView>) -> Seq<CommandView>
    decreases entries.len(),
{
    if entries.len() == 0 {
        Seq::empty()
    } else {
        match CommandView::decoded(entries.last().command) {
            Some(c) => commands(entries.drop_last()).push(c),
            None => commands(entries.drop_last()),
        }
    }
}

/// The state of a replica that has applied these entries, from the first on.
pub open spec fn replicated(entries: Seq<EntryView>) -> Kv {
    Kv::empty().apply_all(commands(entries))
}

/// All replicas hold identical data: two nodes of a cluster whose state machines
/// have applied the same number of committed entries have the same store and the
/// same dedup table, whatever their nodes have compacted away since.
pub proof fn replicas_hold_identical_data(
    states: Seq<Cluster>,
    s: int,
    t: int,
    i: NodeId,
    j: NodeId,
    n: int,
)
    requires
        crate::raft::cluster::is_run(states),
        0 <= s < states.len(),
        0 <= t < states.len(),
        states[s].nodes.contains_key(i),
        states[t].nodes.contains_key(j),
        0 <= n <= states[s].nodes[i].commit_index,
        n <= states[t].nodes[j].commit_index,
    ensures
        replicated(crate::raft::safety::whole_log(states, s, i).take(n)) == replicated(
            crate::raft::safety::whole_log(states, t, j).take(n),
        ),
{
    crate::raft::safety::committed_prefixes_agree(states, s, t, i, j, n);
}

/// Where every state machine hands over the image of what it has applied, every
/// snapshot that a node holds, hands to its state machine or sends to another is
/// the image of the state of every replica that has applied as many entries.
pub proof fn snapshots_carry_the_replicated_data(
    states: Seq<Cluster>,
    s: int,
    index: int,
    data: Seq<u8>,
    t: int,
    j: NodeId,
)
    requires
        crate::raft::cluster::is_run(states),
        crate::raft::safety::compactions_show(
            states,
            |entries: Seq<EntryView>| replicated(entries).image().bytes(),
        ),
        0 <= s < states.len(),
        crate::raft::safety::carries(states[s], index, data),
        0 <= t < states.len(),
        states[t].nodes.contains_key(j),
        index <= states[t].nodes[j].commit_index,
    ensures
        data == replicated(
            crate::raft::safety::whole_log(states, t, j).take(index),
        ).image().bytes(),
{
    crate::raft::safety::snapshots_show_what_is_committed(
        states,
        |entries: Seq<EntryView>| replicated(entries).image().bytes(),
        s,
        index,
        data,
        t,
        j,
    );
}

/// What a machine hands over as its snapshot is the image of its state: with `keys`
/// as [`super::machine::Machine::keys`] lists them and the engine's values at them.
pub proof fn machines_hand_over_their_image(
    sessions: Seq<SessionView>,
    keys: Seq<Seq<u8>>,
    data: Data,
)
    requires
        super::directory::ascending(keys),
        keys.to_set() == data.dom(),
    ensures
        (ImageView { sessions, pairs: super::image::present(keys, values_at(data, keys)) })
            == (Kv { sessions, data }).image(),
{
    super::directory::lemma_ascending_unique(keys, keys_in_order(data));
}

/// The image of a state shows the state, all of it.
pub proof fn images_show_the_state(kv: Kv)
    requires
        super::sessions::distinct(kv.sessions),
        kv.data.dom().finite(),
    ensures
        kv.image().wf(),
        kv.image().sessions == kv.sessions,
        kv.image().data() == kv.data,
{
    let found = super::directory::lemma_ascending_exists(kv.data.dom());
    assert(found.to_set() == kv.data.dom());
    snapshots_show_the_store(kv.sessions, keys_in_order(kv.data), kv.data);
}

proof fn lemma_replicated(commands: Seq<CommandView>)
    ensures
        super::sessions::distinct(Kv::empty().apply_all(commands).sessions),
        no_failures(Kv::empty().apply_all(commands).sessions),
        Kv::empty().apply_all(commands).data.dom().finite(),
    decreases commands.len(),
{
    if commands.len() > 0 {
        lemma_replicated(commands.drop_last());
        lemma_apply_distinct(Kv::empty().apply_all(commands.drop_last()), commands.last());
    }
}

proof fn lemma_apply_on(kv: Kv, first: Seq<CommandView>, after: Seq<CommandView>)
    ensures
        kv.apply_all(first + after) == kv.apply_all(first).apply_all(after),
    decreases after.len(),
{
    if after.len() == 0 {
        assert(first + after =~= first);
    } else {
        lemma_apply_on(kv, first, after.drop_last());
        assert((first + after).drop_last() =~= first + after.drop_last());
    }
}

proof fn lemma_commands_on(first: Seq<EntryView>, after: Seq<EntryView>)
    ensures
        commands(first + after) == commands(first) + commands(after),
    decreases after.len(),
{
    if after.len() == 0 {
        assert(first + after =~= first);
        assert(commands(first) + commands(after) =~= commands(first));
    } else {
        lemma_commands_on(first, after.drop_last());
        assert((first + after).drop_last() =~= first + after.drop_last());
        assert(commands(first + after) =~= commands(first) + commands(after));
    }
}

/// A replica that starts from a snapshot through `k` and applies what follows it is
/// in the state of one that has applied every entry from the first on.
pub proof fn a_restored_replica_catches_up(entries: Seq<EntryView>, k: int)
    requires
        0 <= k <= entries.len(),
    ensures
        ({
            let image = replicated(entries.take(k)).image();
            (Kv { sessions: image.sessions, data: image.data() }).apply_all(
                commands(entries.skip(k)),
            ) == replicated(entries)
        }),
{
    lemma_replicated(commands(entries.take(k)));
    images_show_the_state(replicated(entries.take(k)));
    lemma_replicated_on(entries, k);
}

/// Exactly once, in the log: where a mutation is in a whole log twice, as when its
/// client sent it again to another leader, the second changes no replica.
pub proof fn a_mutation_that_is_logged_twice_applies_once(
    entries: Seq<EntryView>,
    a: int,
    b: int,
    c: CommandView,
    again: CommandView,
)
    requires
        0 <= a < b < entries.len(),
        CommandView::decoded(entries[a].command) == Some(c),
        CommandView::decoded(entries[b].command) == Some(again),
        is_stamped(c),
        is_retry(c, again),
    ensures
        replicated(entries.take(b + 1)) == replicated(entries.take(b)),
{
    let between = entries.subrange(a + 1, b);
    let before = replicated(entries.take(a));
    lemma_replicated(commands(entries.take(a)));
    lemma_one_more(entries, a, c);
    lemma_replicated_on(entries.take(b), a + 1);
    assert(entries.take(b).take(a + 1) =~= entries.take(a + 1));
    assert(entries.take(b).skip(a + 1) =~= between);
    lemma_one_more(entries, b, again);
    a_retried_mutation_applies_once(before, c, commands(between), again);
}

/// The entry at `k` takes a replica one command further.
proof fn lemma_one_more(entries: Seq<EntryView>, k: int, c: CommandView)
    requires
        0 <= k < entries.len(),
        CommandView::decoded(entries[k].command) == Some(c),
    ensures
        replicated(entries.take(k + 1)) == replicated(entries.take(k)).apply(c).0,
{
    let more = entries.take(k + 1);
    assert(more.drop_last() =~= entries.take(k));
    assert(commands(more).drop_last() =~= commands(entries.take(k)));
}

/// What a replica has applied splits anywhere.
proof fn lemma_replicated_on(entries: Seq<EntryView>, k: int)
    requires
        0 <= k <= entries.len(),
    ensures
        replicated(entries) == replicated(entries.take(k)).apply_all(commands(entries.skip(k))),
{
    lemma_commands_on(entries.take(k), entries.skip(k));
    lemma_apply_on(Kv::empty(), commands(entries.take(k)), commands(entries.skip(k)));
    assert(entries.take(k) + entries.skip(k) =~= entries);
}

/// Reads are linearizable: a read that is submitted to a leader once the first
/// `index` entries are committed, and that is committed itself, comes after them
/// all. Every replica answers it with what the store holds after those entries and
/// whatever was committed between them and the read.
pub proof fn reads_are_linearizable(
    states: Seq<Cluster>,
    s: int,
    i: NodeId,
    index: int,
    t: int,
    j: NodeId,
    command: Seq<u8>,
    read: CommandView,
    u: int,
    v: NodeId,
)
    requires
        crate::raft::cluster::is_run(states),
        0 <= s <= t < states.len(),
        states[s].nodes.contains_key(i),
        1 <= index <= states[s].nodes[i].commit_index,
        states[t].enabled(j, Event::Submit { command }),
        crate::raft::safety::decides(
            states,
            states[t].nodes[j].log.last_index() + 1,
            EntryView { term: states[t].nodes[j].current_term, command },
        ),
        CommandView::decoded(command) == Some(read),
        Op::of(read.op) == Ok::<Op, crate::command::UnknownOp>(Op::Get),
        0 <= u < states.len(),
        states[u].nodes.contains_key(v),
        states[t].nodes[j].log.last_index() + 1 <= states[u].nodes[v].commit_index,
    ensures
        ({
            let at = states[t].nodes[j].log.last_index();
            let log = crate::raft::safety::whole_log(states, u, v);
            let seen = replicated(log.take(at));
            &&& index <= at < log.len()
            &&& log[at].command == command
            &&& seen.apply(read) == (seen, OutcomeView::Value(lookup(seen.data, read.key)))
            &&& seen == replicated(
                crate::raft::safety::whole_log(states, s, i).take(index),
            ).apply_all(commands(log.subrange(index, at)))
        }),
{
    let entry = EntryView { term: states[t].nodes[j].current_term, command };
    let at = states[t].nodes[j].log.last_index();
    let log = crate::raft::safety::whole_log(states, u, v);
    crate::raft::safety::what_is_submitted_later_commits_later(states, s, i, index, t, j, entry);
    crate::raft::safety::what_is_committed_is_decided(states, u, v, at + 1, entry);
    crate::raft::safety::committed_prefixes_agree(states, s, u, i, v, index);
    lemma_replicated_on(log.take(at), index);
    assert(log.take(at).take(index) =~= log.take(index));
    assert(log.take(at).skip(index) =~= log.subrange(index, at));
}

proof fn lemma_take_on(kv: Kv, first: Seq<ApplyView>, after: Seq<ApplyView>)
    ensures
        kv.take_all(first + after) == kv.take_all(first).take_all(after),
    decreases after.len(),
{
    if after.len() == 0 {
        assert(first + after =~= first);
    } else {
        lemma_take_on(kv, first, after.drop_last());
        assert((first + after).drop_last() =~= first + after.drop_last());
    }
}

/// The entries of a log, handed over one by one, take a replica on.
proof fn lemma_take_entries(
    n: NodeView,
    log: Seq<EntryView>,
    from: int,
    count: nat,
)
    requires
        n.in_order(),
        n.log.snapshot_index <= from,
        from + count <= n.log.last_index(),
        log.len() == n.log.last_index(),
        forall|k: int| from < k <= log.len() ==> #[trigger] log[k - 1] == n.log.entry(k),
    ensures
        replicated(log.take(from)).take_all(
            Seq::new(count, |k: int| n.command_at(from + 1 + k)),
        ) == replicated(log.take(from + count)),
    decreases count,
{
    let items = Seq::new(count, |k: int| n.command_at(from + 1 + k));
    if count > 0 {
        let less = (count - 1) as nat;
        let front = Seq::new(less, |k: int| n.command_at(from + 1 + k));
        lemma_take_entries(n, log, from, less);
        assert(items.drop_last() =~= front);
        let at = from + count;
        assert(log[at - 1] == n.log.entry(at));
        let more = log.take(at);
        assert(more.drop_last() =~= log.take(at - 1));
        match CommandView::decoded(log[at - 1].command) {
            Some(c) => lemma_one_more(log, at - 1, c),
            None => {},
        }
    }
}

/// What a node hands to its state machine makes it a replica of everything that is
/// committed: a snapshot, where one is due, takes the machine to the state of every
/// replica that has applied as far, and the entries that follow take it on from
/// there. Where none is due, the machine has to be such a replica already.
pub proof fn what_is_due_makes_a_replica(states: Seq<Cluster>, s: int, i: NodeId, kv: Kv)
    requires
        crate::raft::cluster::is_run(states),
        crate::raft::safety::compactions_show(
            states,
            |entries: Seq<EntryView>| replicated(entries).image().bytes(),
        ),
        0 <= s < states.len(),
        states[s].nodes.contains_key(i),
        ({
            let applied = replicated(
                crate::raft::safety::whole_log(states, s, i).take(
                    states[s].nodes[i].last_applied as int,
                ),
            );
            match states[s].nodes[i].pending_snapshot {
                Some(_) => fits_memory(applied.image()),
                None => kv == applied,
            }
        }),
    ensures
        kv.take_all(states[s].nodes[i].due()) == replicated(
            crate::raft::safety::whole_log(states, s, i).take(
                states[s].nodes[i].commit_index as int,
            ),
        ),
{
    let n = states[s].nodes[i];
    let log = crate::raft::safety::whole_log(states, s, i);
    let from = n.last_applied as int;
    crate::raft::safety::cursors_stay_in_order(states, s, i);
    crate::raft::safety::pending_snapshots_end_at_the_apply_cursor(states, s, i);
    let count = (n.commit_index - n.last_applied) as nat;
    let fresh = Seq::new(count, |k: int| n.command_at(from + 1 + k));
    let reset = match n.pending_snapshot {
        Some(p) => seq![ApplyView::Snapshot(p)],
        None => Seq::<ApplyView>::empty(),
    };
    assert(n.due() =~= reset + fresh);
    lemma_take_on(kv, reset, fresh);
    match n.pending_snapshot {
        Some(p) => {
            assert(crate::raft::safety::carries(states[s], from, p.data));
            snapshots_carry_the_replicated_data(states, s, from, p.data, s, i);
            lemma_replicated(commands(log.take(from)));
            images_show_the_state(replicated(log.take(from)));
            images_round_trip(replicated(log.take(from)).image());
            assert(reset.drop_last() =~= Seq::<ApplyView>::empty());
            assert(kv.take_all(reset) == kv.take_all(reset.drop_last()).take(reset.last()));
        },
        None => {},
    }
    lemma_take_entries(n, log, from, count);
}

// ---- answers ----
/// No two proposals share a receipt, on whichever nodes, and with however many
/// crashes in between.
pub proof fn receipts_are_unique(
    states: Seq<Cluster>,
    s: int,
    t: int,
    i: NodeId,
    j: NodeId,
    first: Seq<u8>,
    second: Seq<u8>,
)
    requires
        crate::raft::cluster::is_run(states),
        0 <= s < t < states.len(),
        states[s].enabled(i, Event::Submit { command: first }),
        states[s + 1] == states[s].after(i, Event::Submit { command: first }),
        states[t].enabled(j, Event::Submit { command: second }),
    ensures
        states[s].nodes[i].next_receipt() != states[t].nodes[j].next_receipt(),
{
    crate::raft::safety::cursors_stay_in_order(states, s, i);
    crate::raft::safety::cursors_stay_in_order(states, t, j);
    if states[s].nodes[i].current_term == states[t].nodes[j].current_term {
        crate::raft::safety::a_term_fills_each_index_once(states, s, t, i, j, first);
    }
}

/// A caller gets the answer to its own command: whichever node hands over an entry
/// with the receipt of a proposal, at whatever moment, hands over what was proposed.
pub proof fn receipts_find_their_command(
    states: Seq<Cluster>,
    s: int,
    i: NodeId,
    command: Seq<u8>,
    u: int,
    v: NodeId,
    k: int,
)
    requires
        crate::raft::cluster::is_run(states),
        0 <= s < states.len() - 1,
        states[s].enabled(i, Event::Submit { command }),
        states[s + 1] == states[s].after(i, Event::Submit { command }),
        0 <= u < states.len(),
        states[u].nodes.contains_key(v),
        0 <= k < states[u].nodes[v].due().len(),
        states[u].nodes[v].due()[k] is Command,
        states[u].nodes[v].due()[k]->index == states[s].nodes[i].next_receipt().index,
        states[u].nodes[v].due()[k]->term == states[s].nodes[i].next_receipt().term,
    ensures
        states[u].nodes[v].due()[k]->command == command,
{
    let n = states[u].nodes[v];
    crate::raft::safety::cursors_stay_in_order(states, s, i);
    crate::raft::safety::cursors_stay_in_order(states, u, v);
    let index = states[s].nodes[i].log.last_index() + 1;
    assert(n.due()[k] == n.command_at(index));
    assert(n.log.holds(index));
    assert(crate::raft::safety::whole_log(states, u, v)[index - 1] == n.log.entry(index));
    crate::raft::safety::what_a_leader_appends_stays_its_own(states, s, i, command, u, v);
}

} // verus!
