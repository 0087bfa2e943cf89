//! The replicated state machine: what each committed command does to the store.
//!
//! The machine never touches the engine. It says what to read or write next, and
//! is told what came of it, until the command has its outcome. It remembers each
//! client's last mutation, so that a mutation that reaches the log twice is
//! applied once and answered alike.

use vstd::prelude::*;

use crate::command::{decode, Command, CommandView, Op, UnknownOp};
use crate::raft::types::copy_bytes;
use crate::store::{StoreError, StoreErrorView};
use crate::wire::DecodeError;

use super::directory::KeyDirectory;
use super::outcome::{Failure, FailureView, Outcome, OutcomeView};
use super::sessions::{Session, SessionView, Sessions};

verus! {

/// How many applied entries it takes until a snapshot is due.
pub const SNAPSHOT_THRESHOLD: u64 = 1_000;

/// What the machine wants next.
#[derive(Debug)]
pub enum Effect {
    /// The command is done.
    Reply(Outcome),
    /// Look up a key in the engine; tell [`Machine::on_read`].
    Read { key: Vec<u8> },
    /// Put a value into the engine; tell [`Machine::on_write`].
    Write { key: Vec<u8>, value: Vec<u8> },
    /// Remove a key from the engine; tell [`Machine::on_write`].
    Remove { key: Vec<u8> },
}

/// What an [`Effect`] stands for.
pub enum EffectView {
    Reply(OutcomeView),
    Read { key: Seq<u8> },
    Write { key: Seq<u8>, value: Seq<u8> },
    Remove { key: Seq<u8> },
}

impl View for Effect {
    type V = EffectView;

    open spec fn view(&self) -> EffectView {
        match self {
            Effect::Reply(outcome) => EffectView::Reply(outcome@),
            Effect::Read { key } => EffectView::Read { key: key@ },
            Effect::Write { key, value } => EffectView::Write { key: key@, value: value@ },
            Effect::Remove { key } => EffectView::Remove { key: key@ },
        }
    }
}

/// A command that waits for the engine.
#[derive(Debug)]
struct Running {
    command: Command,
    /// The operation that the command's number stands for.
    op: Op,
    /// The value that an append writes, once it has read the one before.
    appended: Option<Vec<u8>>,
}

/// A command that waits for the engine.
pub struct RunningView {
    pub command: CommandView,
    pub op: Op,
    pub appended: Option<Seq<u8>>,
}

/// The state machine.
#[derive(Debug)]
pub struct Machine {
    sessions: Sessions,
    keys: KeyDirectory,
    running: Option<Running>,
    since_snapshot: u64,
}

/// What a [`Machine`] stands for.
#[verifier::ext_equal]
pub struct MachineView {
    /// Each client's last mutation.
    pub sessions: Seq<SessionView>,
    /// The keys that the engine holds.
    pub keys: Set<Seq<u8>>,
    /// The command that waits for the engine.
    pub running: Option<RunningView>,
    /// Entries applied since the last snapshot.
    pub since_snapshot: u64,
}

impl View for Machine {
    type V = MachineView;

    closed spec fn view(&self) -> MachineView {
        MachineView {
            sessions: self.sessions@,
            keys: self.keys@.to_set(),
            running: match self.running {
                Some(r) => Some(
                    RunningView {
                        command: r.command@,
                        op: r.op,
                        appended: crate::raft::types::bytes_view(r.appended),
                    },
                ),
                None => None,
            },
            since_snapshot: self.since_snapshot,
        }
    }
}

/// Operations that change the store.
pub open spec fn mutates(op: Op) -> bool {
    op != Op::Get
}

/// The command is a mutation of a client that is known by its id, and not past
/// the client's last one: it was applied before.
pub open spec fn is_duplicate(sessions: Seq<SessionView>, op: Op, c: CommandView) -> bool {
    &&& mutates(op)
    &&& c.client_id != 0
    &&& super::sessions::knows(sessions, c.client_id)
    &&& c.seq <= super::sessions::session(sessions, c.client_id).seq
}

/// The table after a mutation: remembered for a client that is known by its id,
/// unless it failed.
pub open spec fn remembered(
    sessions: Seq<SessionView>,
    op: Op,
    c: CommandView,
    outcome: OutcomeView,
) -> Seq<SessionView> {
    if mutates(op) && c.client_id != 0 && !(outcome is Failed) {
        super::sessions::with_session(
            sessions,
            SessionView { client_id: c.client_id, seq: c.seq, outcome },
        )
    } else {
        sessions
    }
}

/// The value after an append to what was there, if anything.
pub open spec fn appended_to(before: Option<Seq<u8>>, suffix: Seq<u8>) -> Seq<u8> {
    match before {
        Some(b) => b + suffix,
        None => suffix,
    }
}

/// What holds of every dedup table: no client is in it twice, and no failure is
/// remembered.
pub open spec fn sound(sessions: Seq<SessionView>) -> bool {
    &&& super::sessions::distinct(sessions)
    &&& forall|i: int|
        0 <= i < sessions.len() ==> !((#[trigger] sessions[i]).outcome is Failed)
}

/// The value after an append to what was there, if anything.
pub fn appended(before: Option<Vec<u8>>, suffix: Vec<u8>) -> (r: Vec<u8>)
    ensures
        r@ == appended_to(crate::raft::types::bytes_view(before), suffix@),
{
    let mut suffix: Vec<u8> = suffix;
    match before {
        Some(mut before) => {
            before.append(&mut suffix);
            before
        },
        None => suffix,
    }
}

impl MachineView {
    /// A machine that has applied nothing.
    pub open spec fn initial() -> Self {
        MachineView {
            sessions: Seq::empty(),
            keys: Set::empty(),
            running: None,
            since_snapshot: 0,
        }
    }

    /// Take up a command.
    pub open spec fn begin(self, c: CommandView) -> (Self, EffectView) {
        let counted = MachineView {
            since_snapshot: if self.since_snapshot < u64::MAX {
                (self.since_snapshot + 1) as u64
            } else {
                self.since_snapshot
            },
            ..self
        };
        match Op::of(c.op) {
            Err(unknown) => (
                counted,
                EffectView::Reply(OutcomeView::Failed(FailureView::UnknownOp(unknown.0))),
            ),
            Ok(op) => if is_duplicate(self.sessions, op, c) {
                (
                    counted,
                    EffectView::Reply(super::sessions::session(self.sessions, c.client_id).outcome),
                )
            } else {
                (
                    MachineView {
                        running: Some(RunningView { command: c, op, appended: None }),
                        ..counted
                    },
                    match op {
                        Op::Get => EffectView::Read { key: c.key },
                        Op::Put => EffectView::Write { key: c.key, value: c.value },
                        Op::Delete => EffectView::Remove { key: c.key },
                        Op::Append => EffectView::Read { key: c.key },
                    },
                )
            },
        }
    }

    /// The command in hand is done.
    pub open spec fn finish(self, outcome: OutcomeView) -> (Self, EffectView) {
        let r = self.running->Some_0;
        (
            MachineView {
                sessions: remembered(self.sessions, r.op, r.command, outcome),
                keys: if outcome is Failed || r.op == Op::Get {
                    self.keys
                } else if r.op == Op::Delete {
                    self.keys.remove(r.command.key)
                } else {
                    self.keys.insert(r.command.key)
                },
                running: None,
                ..self
            },
            EffectView::Reply(outcome),
        )
    }

    /// The command in hand waits for a read.
    pub open spec fn awaits_read(self) -> bool {
        self.running matches Some(r) && (r.op == Op::Get || r.op == Op::Append && r.appended is None)
    }

    /// The command in hand waits for a write or a removal.
    pub open spec fn awaits_write(self) -> bool {
        self.running is Some && !self.awaits_read()
    }

    /// The engine has looked up the key.
    pub open spec fn on_read(self, result: Result<Option<Seq<u8>>, StoreErrorView>) -> (
        Self,
        EffectView,
    ) {
        let r = self.running->Some_0;
        match result {
            Err(e) => self.finish(OutcomeView::Failed(FailureView::Store(e))),
            Ok(found) => if r.op == Op::Get {
                self.finish(OutcomeView::Value(found))
            } else {
                let value = appended_to(found, r.command.value);
                (
                    MachineView {
                        running: Some(RunningView { appended: Some(value), ..r }),
                        ..self
                    },
                    EffectView::Write { key: r.command.key, value },
                )
            },
        }
    }

    /// The engine has written or removed the key.
    pub open spec fn on_write(self, result: Result<(), StoreErrorView>) -> (Self, EffectView) {
        match result {
            Err(e) => self.finish(OutcomeView::Failed(FailureView::Store(e))),
            Ok(_) => match self.running->Some_0.appended {
                Some(value) => self.finish(OutcomeView::Value(Some(value))),
                None => self.finish(OutcomeView::Done),
            },
        }
    }
}

/// What the engine's answer to a read stands for.
pub open spec fn read_view(result: Result<Option<Vec<u8>>, StoreError>) -> Result<
    Option<Seq<u8>>,
    StoreErrorView,
> {
    match result {
        Ok(found) => Ok(crate::raft::types::bytes_view(found)),
        Err(e) => Err(e@),
    }
}

/// What the engine's answer to a write stands for.
pub open spec fn write_view(result: Result<(), StoreError>) -> Result<(), StoreErrorView> {
    match result {
        Ok(()) => Ok(()),
        Err(e) => Err(e@),
    }
}

impl Machine {
    /// The parts are sound.
    pub closed spec fn wf(&self) -> bool {
        &&& self.sessions.wf()
        &&& self.keys.wf()
        &&& sound(self.sessions@)
    }

    /// The keys that the engine holds, in order.
    pub closed spec fn key_list(&self) -> Seq<Seq<u8>> {
        self.keys@
    }

    pub proof fn lemma_wf(&self)
        requires
            self.wf(),
        ensures
            sound(self@.sessions),
            super::directory::ascending(self.key_list()),
            self.key_list().to_set() == self@.keys,
    {
    }

    /// A machine without a command in hand, put together from its parts.
    pub(super) fn assemble(&mut self, sessions: Sessions, keys: KeyDirectory)
        requires
            old(self)@.running is None,
            sessions.wf(),
            sound(sessions@),
            keys.wf(),
        ensures
            final(self).wf(),
            final(self)@ == (MachineView {
                sessions: sessions@,
                keys: keys@.to_set(),
                running: None,
                since_snapshot: 0,
            }),
            final(self).key_list() == keys@,
    {
        self.sessions = sessions;
        self.keys = keys;
        self.since_snapshot = 0;
    }

    /// A machine that has applied nothing.
    pub fn new() -> (r: Self)
        ensures
            r.wf(),
            r@ == MachineView::initial(),
    {
        let r = Machine {
            sessions: Sessions::new(),
            keys: KeyDirectory::new(),
            running: None,
            since_snapshot: 0,
        };
        assert(r@.keys =~= Set::empty());
        r
    }

    /// Take up a committed entry. One that holds no command is passed over: it
    /// should be impossible, but must never wedge the apply loop.
    pub fn deliver(&mut self, bytes: &[u8]) -> (r: Result<Effect, DecodeError>)
        requires
            old(self).wf(),
            old(self)@.running is None,
        ensures
            final(self).wf(),
            match CommandView::decoded(bytes@) {
                Some(command) => r matches Ok(effect) && (final(self)@, effect@) == old(
                    self,
                )@.begin(command),
                None => r is Err && final(self)@ == old(self)@,
            },
    {
        match decode(bytes) {
            Ok(command) => Ok(self.begin(command)),
            Err(e) => Err(e),
        }
    }

    /// Take up a command.
    pub fn begin(&mut self, command: Command) -> (r: Effect)
        requires
            old(self).wf(),
            old(self)@.running is None,
        ensures
            final(self).wf(),
            (final(self)@, r@) == old(self)@.begin(command@),
    {
        if self.since_snapshot < u64::MAX {
            self.since_snapshot = self.since_snapshot + 1;
        }
        let op = match Op::try_from(command.op) {
            Ok(op) => op,
            Err(UnknownOp(op)) => return Effect::Reply(Outcome::Failed(Failure::UnknownOp(op))),
        };
        if op != Op::Get && command.client_id != 0 {
            match self.sessions.find(command.client_id) {
                Some(last) => {
                    if command.seq <= last.seq {
                        return Effect::Reply(last.outcome.clone());
                    }
                },
                None => {},
            }
        }
        let effect = match op {
            Op::Get => Effect::Read { key: copy_bytes(&command.key) },
            Op::Put => Effect::Write {
                key: copy_bytes(&command.key),
                value: copy_bytes(&command.value),
            },
            Op::Delete => Effect::Remove { key: copy_bytes(&command.key) },
            Op::Append => Effect::Read { key: copy_bytes(&command.key) },
        };
        self.running = Some(Running { command, op, appended: None });
        effect
    }

    /// The command in hand is done.
    fn finish(&mut self, running: Running, outcome: Outcome) -> (r: Effect)
        requires
            old(self).wf(),
            old(self).running is None,
        ensures
            final(self).wf(),
            ({
                let resumed = MachineView {
                    running: Some(
                        RunningView {
                            command: running.command@,
                            op: running.op,
                            appended: crate::raft::types::bytes_view(running.appended),
                        },
                    ),
                    ..old(self)@
                };
                (final(self)@, r@) == resumed.finish(outcome@)
            }),
    {
        let failed: bool = match &outcome {
            Outcome::Failed(_) => true,
            _ => false,
        };
        if running.op != Op::Get && !failed {
            let ghost before = self.keys@;
            let Command { key, client_id, seq, .. } = running.command;
            let ghost k = key@;
            if running.op == Op::Delete {
                self.keys.remove(&key);
                assert(self.keys@.to_set() =~= before.to_set().remove(k));
            } else {
                self.keys.insert(key);
                assert(self.keys@.to_set() =~= before.to_set().insert(k));
            }
            if client_id != 0 {
                self.sessions.record(Session { client_id, seq, outcome: outcome.clone() });
                proof {
                    self.sessions.lemma_distinct();
                }
            }
        }
        Effect::Reply(outcome)
    }

    /// The engine has looked up the key.
    pub fn on_read(&mut self, result: Result<Option<Vec<u8>>, StoreError>) -> (r: Effect)
        requires
            old(self).wf(),
            old(self)@.awaits_read(),
        ensures
            final(self).wf(),
            (final(self)@, r@) == old(self)@.on_read(read_view(result)),
    {
        let mut waiting: Option<Running> = None;
        std::mem::swap(&mut waiting, &mut self.running);
        match waiting {
            Some(running) => match result {
                Err(e) => self.finish(running, Outcome::Failed(Failure::Store(e))),
                Ok(found) => if running.op == Op::Get {
                    self.finish(running, Outcome::Value(found))
                } else {
                    let value: Vec<u8> = appended(found, copy_bytes(&running.command.value));
                    let key: Vec<u8> = copy_bytes(&running.command.key);
                    let effect = Effect::Write { key, value: copy_bytes(&value) };
                    self.running = Some(
                        Running {
                            command: running.command,
                            op: running.op,
                            appended: Some(value),
                        },
                    );
                    effect
                },
            },
            None => Effect::Reply(Outcome::Done),
        }
    }

    /// The engine has written or removed the key.
    pub fn on_write(&mut self, result: Result<(), StoreError>) -> (r: Effect)
        requires
            old(self).wf(),
            old(self)@.awaits_write(),
        ensures
            final(self).wf(),
            (final(self)@, r@) == old(self)@.on_write(write_view(result)),
    {
        let mut waiting: Option<Running> = None;
        std::mem::swap(&mut waiting, &mut self.running);
        match waiting {
            Some(running) => {
                let outcome = match result {
                    Err(e) => Outcome::Failed(Failure::Store(e)),
                    Ok(()) => match &running.appended {
                        Some(value) => Outcome::Value(Some(copy_bytes(value))),
                        None => Outcome::Done,
                    },
                };
                self.finish(running, outcome)
            },
            None => Effect::Reply(Outcome::Done),
        }
    }

    /// Whether a snapshot is due: enough entries were applied since the last.
    pub fn snapshot_due(&self) -> (r: bool)
        ensures
            r == (self@.since_snapshot >= SNAPSHOT_THRESHOLD),
    {
        self.since_snapshot >= SNAPSHOT_THRESHOLD
    }

    /// Each client's last mutation.
    pub fn sessions(&self) -> (r: &[Session])
        ensures
            super::sessions::sessions_view(r@) == self@.sessions,
    {
        self.sessions.slots()
    }

    /// Start counting towards the next snapshot.
    pub(super) fn start_count(&mut self)
        requires
            old(self).wf(),
        ensures
            final(self).wf(),
            final(self)@ == (MachineView { since_snapshot: 0, ..old(self)@ }),
            final(self).key_list() == old(self).key_list(),
    {
        self.since_snapshot = 0;
    }

    /// The keys that the engine holds, in order.
    pub fn keys(&self) -> (r: &[Vec<u8>])
        requires
            self.wf(),
        ensures
            super::directory::contents(r@) == self.key_list(),
            self.key_list().to_set() == self@.keys,
            super::directory::ascending(self.key_list()),
    {
        self.keys.keys()
    }
}

} // verus!
