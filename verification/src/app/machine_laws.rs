//! What the state machine does with each command, said of what the store holds before
//! and after, and of what is remembered of each client.

use vstd::prelude::*;

use crate::command::{CommandView, Op, UnknownOp};
use crate::store::{Data, StoreErrorView};
use crate::wire::DecodeError;

use super::image::{ImageView, Reset};
use super::machine::{Effect, Machine, MachineView, SNAPSHOT_THRESHOLD};
use super::outcome::{FailureView, OutcomeView};
use super::sessions::SessionView;

verus! {

/// The client of `c` has had this mutation, or a later one, applied: session `k` shows
/// it.
pub open spec fn was_served(sessions: Seq<SessionView>, c: CommandView, k: int) -> bool {
    &&& c.client_id != 0
    &&& 0 <= k < sessions.len()
    &&& sessions[k].client_id == c.client_id
    &&& c.seq <= sessions[k].seq
}

/// No client is remembered twice.
pub open spec fn one_session_each(sessions: Seq<SessionView>) -> bool {
    forall|i: int, j: int|
        0 <= i < j < sessions.len() ==> (#[trigger] sessions[i]).client_id != (
        #[trigger] sessions[j]).client_id
}

/// What a machine makes of a command, with an engine that does what it is asked to: the
/// machine and the store after it, and the outcome.
pub open spec fn served(m: MachineView, data: Data, c: CommandView) -> (
    MachineView,
    Data,
    Option<OutcomeView>,
) {
    let (begun, effect) = m.begin(c);
    super::laws::drive(begun, data, effect, 2)
}

proof fn lemma_known(sessions: Seq<SessionView>, client_id: u64, k: int)
    requires
        one_session_each(sessions),
        0 <= k < sessions.len(),
        sessions[k].client_id == client_id,
    ensures
        super::sessions::knows(sessions, client_id),
        super::sessions::session(sessions, client_id) == sessions[k],
{
    let p = super::sessions::position(sessions, client_id);
    assert(0 <= p < sessions.len() && sessions[p].client_id == client_id);
    if p < k {
        assert(sessions[p].client_id != sessions[k].client_id);
    } else if k < p {
        assert(sessions[k].client_id != sessions[p].client_id);
    }
}

proof fn lemma_fresh(sessions: Seq<SessionView>, op: Op, c: CommandView)
    requires
        forall|k: int| !#[trigger] was_served(sessions, c, k),
    ensures
        !super::machine::is_duplicate(sessions, op, c),
{
    if super::machine::is_duplicate(sessions, op, c) {
        let p = super::sessions::position(sessions, c.client_id);
        assert(was_served(sessions, c, p));
    }
}

/// A read finds what the store holds at its key, and changes nothing.
pub proof fn reads_find_what_is_stored(m: MachineView, data: Data, c: CommandView)
    requires
        m.running is None,
        Op::of(c.op) == Ok::<Op, UnknownOp>(Op::Get),
    ensures
        ({
            let (after, stored, outcome) = served(m, data, c);
            &&& stored == data
            &&& outcome == Some(
                OutcomeView::Value(
                    if data.contains_key(c.key) {
                        Some(data[c.key])
                    } else {
                        None
                    },
                ),
            )
            &&& after.sessions == m.sessions
            &&& after.keys == m.keys
            &&& after.running is None
        }),
{
    reveal_with_fuel(super::laws::drive, 3);
}

/// A mutation that its client has not had applied before takes effect: a put stores its
/// value, a delete leaves nothing, an append leaves what was there with its value behind
/// it; no other key changes. A put and a delete are answered that they are done, an append
/// with the value that it left.
pub proof fn fresh_mutations_take_effect(m: MachineView, data: Data, c: CommandView, op: Op)
    requires
        m.running is None,
        Op::of(c.op) == Ok::<Op, UnknownOp>(op),
        op != Op::Get,
        forall|k: int| !#[trigger] was_served(m.sessions, c, k),
    ensures
        ({
            let (after, stored, outcome) = served(m, data, c);
            &&& op == Op::Put ==> stored == data.insert(c.key, c.value) && outcome == Some(
                OutcomeView::Done,
            )
            &&& op == Op::Delete ==> stored == data.remove(c.key) && outcome == Some(
                OutcomeView::Done,
            )
            &&& op == Op::Append && data.contains_key(c.key) ==> {
                &&& stored == data.insert(c.key, data[c.key] + c.value)
                &&& outcome == Some(OutcomeView::Value(Some(data[c.key] + c.value)))
            }
            &&& op == Op::Append && !data.contains_key(c.key) ==> {
                &&& stored == data.insert(c.key, c.value)
                &&& outcome == Some(OutcomeView::Value(Some(c.value)))
            }
            &&& after.running is None
            &&& after.keys == (if op == Op::Delete {
                m.keys.remove(c.key)
            } else {
                m.keys.insert(c.key)
            })
        }),
{
    lemma_fresh(m.sessions, op, c);
    reveal_with_fuel(super::laws::drive, 3);
}

/// What is remembered of a mutation that took effect: its client's last `seq` and what it
/// was answered, in the place of what was remembered of that client before. Every other
/// client is remembered as it was; and of a mutation without a client, nothing is.
pub proof fn fresh_mutations_are_remembered(m: MachineView, data: Data, c: CommandView, op: Op)
    requires
        m.running is None,
        one_session_each(m.sessions),
        Op::of(c.op) == Ok::<Op, UnknownOp>(op),
        op != Op::Get,
        forall|k: int| !#[trigger] was_served(m.sessions, c, k),
    ensures
        ({
            let (after, stored, outcome) = served(m, data, c);
            &&& one_session_each(after.sessions)
            &&& c.client_id == 0 ==> after.sessions == m.sessions
            &&& c.client_id != 0 ==> {
                &&& outcome is Some
                &&& after.sessions.contains(
                    SessionView {
                        client_id: c.client_id,
                        seq: c.seq,
                        outcome: outcome->Some_0,
                    },
                )
                &&& forall|s: SessionView|
                    s.client_id != c.client_id ==> (after.sessions.contains(s)
                        <==> #[trigger] m.sessions.contains(s))
            }
        }),
{
    lemma_fresh(m.sessions, op, c);
    reveal_with_fuel(super::laws::drive, 3);
    let (after, stored, outcome) = served(m, data, c);
    if c.client_id != 0 {
        let s = SessionView { client_id: c.client_id, seq: c.seq, outcome: outcome->Some_0 };
        lemma_with_session(m.sessions, s);
    }
}

proof fn lemma_with_session(sessions: Seq<SessionView>, s: SessionView)
    requires
        one_session_each(sessions),
    ensures
        ({
            let after = super::sessions::with_session(sessions, s);
            &&& one_session_each(after)
            &&& after.contains(s)
            &&& forall|t: SessionView|
                t.client_id != s.client_id ==> (after.contains(t) <==> #[trigger] sessions.contains(
                    t,
                ))
        }),
{
    let after = super::sessions::with_session(sessions, s);
    let known = super::sessions::knows(sessions, s.client_id);
    let at = if known {
        super::sessions::position(sessions, s.client_id)
    } else {
        sessions.len() as int
    };
    if known {
        assert(0 <= at < sessions.len() && sessions[at].client_id == s.client_id);
    }
    assert(after[at] == s);
    assert forall|i: int, j: int| 0 <= i < j < after.len() implies (#[trigger] after[i]).client_id
        != (#[trigger] after[j]).client_id by {
        if known || j < sessions.len() {
            assert(sessions[i].client_id != sessions[j].client_id);
        } else {
            assert(sessions[i].client_id != s.client_id);
        }
    }
    assert forall|t: SessionView| t.client_id != s.client_id implies (after.contains(t)
        <==> #[trigger] sessions.contains(t)) by {
        if after.contains(t) {
            let k = choose|k: int| 0 <= k < after.len() && after[k] == t;
            assert(sessions[k] == t);
        }
        if sessions.contains(t) {
            let k = choose|k: int| 0 <= k < sessions.len() && sessions[k] == t;
            assert(after[k] == t);
        }
    }
}

/// A mutation that its client has had applied before, or that comes after a later one of
/// the client's, changes neither the store nor what is remembered. It is answered with
/// what is remembered of the client.
pub proof fn repeated_mutations_change_nothing(
    m: MachineView,
    data: Data,
    c: CommandView,
    op: Op,
    k: int,
)
    requires
        m.running is None,
        one_session_each(m.sessions),
        Op::of(c.op) == Ok::<Op, UnknownOp>(op),
        op != Op::Get,
        was_served(m.sessions, c, k),
    ensures
        ({
            let (after, stored, outcome) = served(m, data, c);
            &&& stored == data
            &&& outcome == Some(m.sessions[k].outcome)
            &&& after.sessions == m.sessions
            &&& after.keys == m.keys
            &&& after.running is None
        }),
{
    lemma_known(m.sessions, c.client_id, k);
    reveal_with_fuel(super::laws::drive, 3);
}

/// A number that stands for no operation fails, by that number, and changes nothing.
pub proof fn unknown_operations_fail(m: MachineView, data: Data, c: CommandView)
    requires
        m.running is None,
        Op::of(c.op) is Err,
    ensures
        ({
            let (after, stored, outcome) = served(m, data, c);
            &&& stored == data
            &&& outcome == Some(OutcomeView::Failed(FailureView::UnknownOp(c.op)))
            &&& after.sessions == m.sessions
            &&& after.keys == m.keys
            &&& after.running is None
        }),
{
    reveal_with_fuel(super::laws::drive, 3);
}

// ---- when snapshots come due ----
/// Something that happens to a machine between two snapshots.
pub enum Move {
    /// It takes up a command.
    Begin(CommandView),
    /// The engine has looked up a key.
    Read(Result<Option<Seq<u8>>, StoreErrorView>),
    /// The engine has written or removed a key.
    Write(Result<(), StoreErrorView>),
}

/// The machine after all these moves.
pub open spec fn moved(m: MachineView, moves: Seq<Move>) -> MachineView
    decreases moves.len(),
{
    if moves.len() == 0 {
        m
    } else {
        let before = moved(m, moves.drop_last());
        match moves.last() {
            Move::Begin(c) => before.begin(c).0,
            Move::Read(result) => before.on_read(result).0,
            Move::Write(result) => before.on_write(result).0,
        }
    }
}

/// How many commands are taken up in these moves.
pub open spec fn commands_in(moves: Seq<Move>) -> nat
    decreases moves.len(),
{
    if moves.len() == 0 {
        0
    } else {
        commands_in(moves.drop_last()) + if moves.last() is Begin {
            1nat
        } else {
            0nat
        }
    }
}

/// Every command counts towards the next snapshot, whatever it does and whatever becomes of
/// it, and nothing else does: a machine has counted as many more as it has taken up. So
/// after so many commands as the threshold says, a snapshot is due, and not before.
pub proof fn every_command_counts_towards_a_snapshot(m: MachineView, moves: Seq<Move>)
    requires
        m.since_snapshot + commands_in(moves) <= u64::MAX,
    ensures
        moved(m, moves).since_snapshot == m.since_snapshot + commands_in(moves),
        commands_in(moves) >= SNAPSHOT_THRESHOLD ==> moved(m, moves).since_snapshot
            >= SNAPSHOT_THRESHOLD,
        m.since_snapshot + commands_in(moves) < SNAPSHOT_THRESHOLD ==> moved(
            m,
            moves,
        ).since_snapshot < SNAPSHOT_THRESHOLD,
    decreases moves.len(),
{
    if moves.len() > 0 {
        every_command_counts_towards_a_snapshot(m, moves.drop_last());
    }
}

/// A machine starts with nothing counted, nothing remembered and nothing in hand.
pub proof fn machines_start_empty()
    ensures
        MachineView::initial().since_snapshot == 0,
        MachineView::initial().sessions.len() == 0,
        MachineView::initial().keys == Set::<Seq<u8>>::empty(),
        MachineView::initial().running is None,
{
}

/// A machine says that a snapshot is due once it has taken up so many commands since it
/// started, or since the last, as the threshold says, and not before.
pub proof fn snapshots_are_due_after_enough_commands(
    fresh: Machine,
    moves: Seq<Move>,
    m: &Machine,
    due: bool,
)
    requires
        call_ensures(Machine::new, (), fresh),
        m@ == moved(fresh@, moves),
        commands_in(moves) <= u64::MAX,
        call_ensures(Machine::snapshot_due, (m,), due),
    ensures
        due <==> commands_in(moves) >= 1_000,
{
    every_command_counts_towards_a_snapshot(fresh@, moves);
}

/// A snapshot shows every key that has a value, each with its value, and no other.
pub proof fn keys_without_a_value_are_left_out(
    keys: Seq<Seq<u8>>,
    values: Seq<Option<Seq<u8>>>,
    pair: super::image::PairView,
)
    requires
        keys.len() == values.len(),
    ensures
        super::image::present(keys, values).contains(pair) <==> exists|k: int|
            0 <= k < keys.len() && #[trigger] keys[k] == pair.key && values[k] == Some(pair.value),
        (forall|k: int| 0 <= k < values.len() ==> #[trigger] values[k] is None)
            ==> super::image::present(keys, values).len() == 0,
    decreases keys.len(),
{
    let all = super::image::present(keys, values);
    if keys.len() > 0 {
        let front_keys = keys.drop_last();
        let front_values = values.drop_last();
        let front = super::image::present(front_keys, front_values);
        let last = keys.len() - 1;
        keys_without_a_value_are_left_out(front_keys, front_values, pair);
        if all.contains(pair) {
            let k = choose|k: int| 0 <= k < all.len() && all[k] == pair;
            if k < front.len() {
                assert(front[k] == pair);
                let j = choose|j: int|
                    0 <= j < front_keys.len() && #[trigger] front_keys[j] == pair.key
                        && front_values[j] == Some(pair.value);
                assert(keys[j] == pair.key && values[j] == Some(pair.value));
            } else {
                assert(keys[last] == pair.key && values[last] == Some(pair.value));
            }
        }
        if exists|k: int|
            0 <= k < keys.len() && #[trigger] keys[k] == pair.key && values[k] == Some(
                pair.value,
            ) {
            let k = choose|k: int|
                0 <= k < keys.len() && #[trigger] keys[k] == pair.key && values[k] == Some(
                    pair.value,
                );
            if k < last {
                assert(front_keys[k] == pair.key && front_values[k] == Some(pair.value));
                let j = choose|j: int| 0 <= j < front.len() && front[j] == pair;
                assert(all[j] == pair);
            } else {
                assert(all[all.len() - 1] == pair);
            }
        }
        if forall|k: int| 0 <= k < values.len() ==> #[trigger] values[k] is None {
            assert forall|k: int| 0 <= k < front_values.len() implies #[trigger]
                front_values[k] is None by {
                assert(front_values[k] == values[k]);
            }
            assert(values[last] is None);
        }
    }
}

/// A machine that starts over from the snapshot of another remembers what the other did,
/// lists the keys that had a value, and counts anew; what the engine then holds, once it has
/// done as it is told, is what the other's held.
pub proof fn snapshots_move_a_machine(
    m: &mut Machine,
    data: Data,
    values: Vec<Option<Vec<u8>>>,
    bytes: Option<Vec<u8>>,
    other: &mut Machine,
    theirs: Data,
    input: &[u8],
    r: Result<Reset, DecodeError>,
)
    requires
        old(m).wf(),
        old(other).wf(),
        old(m)@.keys == data.dom(),
        old(other)@.keys == theirs.dom(),
        super::image::values_view(values@) == super::laws::values_at(data, old(m).key_list()),
        call_ensures(Machine::snapshot, (m, values), bytes),
        bytes matches Some(b) ==> input@ == b@,
        call_ensures(Machine::restore, (other, input), r),
        super::laws::fits_memory(
            ImageView {
                sessions: old(m)@.sessions,
                pairs: super::image::present(
                    old(m).key_list(),
                    super::image::values_view(values@),
                ),
            },
        ),
    ensures
        bytes is Some,
        r is Ok,
        final(m)@ == (MachineView { since_snapshot: 0, ..old(m)@ }),
        final(other)@.sessions == old(m)@.sessions,
        final(other)@.keys == old(m)@.keys,
        final(other)@.running is None,
        final(other)@.since_snapshot == 0,
        super::laws::written(
            super::laws::removed(
                theirs,
                super::directory::contents(r->Ok_0.remove@),
            ),
            crate::codec::views(r->Ok_0.write@),
        ) == data,
{
    old(m).lemma_wf();
    let keys = old(m).key_list();
    let pairs = super::image::present(keys, super::image::values_view(values@));
    let image = ImageView { sessions: old(m)@.sessions, pairs };
    assert(super::image::values_view(values@).len() == values@.len());
    super::laws::snapshots_show_the_store(image.sessions, keys, data);
    super::laws::images_round_trip(image);
    super::laws::restoring_restores(
        image,
        old(other)@,
        theirs,
        super::directory::contents(r->Ok_0.remove@),
    );
}

/// An entry that holds no command is passed over, with nothing changed; one that does is
/// taken up as the command that it holds.
pub proof fn entries_are_taken_up_as_what_they_hold(
    m: &mut Machine,
    command: CommandView,
    bytes: &[u8],
    r: Result<Effect, DecodeError>,
)
    requires
        call_ensures(Machine::deliver, (m, bytes), r),
        command.key.len() <= usize::MAX,
        command.value.len() <= usize::MAX,
    ensures
        bytes@ == command.encoded() ==> r is Ok && (final(m)@, r->Ok_0@) == old(m)@.begin(command),
        r is Err ==> final(m)@ == old(m)@,
        r is Ok <==> CommandView::decoded(bytes@) is Some,
{
    crate::command::commands_round_trip(command);
}

} // verus!
