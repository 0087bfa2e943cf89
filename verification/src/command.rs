//! Encoding of KV operations into (and out of) Raft log entries.
//!
//! Raft treats a log entry's `command` as opaque bytes; murmur fills those bytes
//! with a serialized [`Command`]. The leader encodes a command when a client
//! request arrives; every node decodes and applies it once the entry commits. The
//! form is a Protocol Buffers message, which keeps it versionable and
//! self-describing, and means Raft never has to know what a command *is*.

use vstd::prelude::*;

use crate::wire::{
    read_bytes, read_int32, read_key, read_uint64, skip_payload, write_bytes, write_int32,
    write_uint64, DecodeError,
};

verus! {

/// What a command does.
#[derive(Clone, Copy, Debug, PartialEq, Eq, Structural)]
pub enum Op {
    Get,
    Put,
    Delete,
    Append,
}

/// A number that stands for no [`Op`].
#[derive(Clone, Copy, Debug, PartialEq, Eq, Structural)]
pub struct UnknownOp(pub i32);

impl Op {
    /// The number that stands for this operation in a [`Command`].
    pub open spec fn spec_number(self) -> i32 {
        match self {
            Op::Get => 0,
            Op::Put => 1,
            Op::Delete => 2,
            Op::Append => 3,
        }
    }

    /// The number that stands for this operation in a [`Command`].
    pub fn number(self) -> (r: i32)
        ensures
            r == self.spec_number(),
    {
        match self {
            Op::Get => 0,
            Op::Put => 1,
            Op::Delete => 2,
            Op::Append => 3,
        }
    }

    /// The operation that `number` stands for.
    pub open spec fn of(number: i32) -> Result<Op, UnknownOp> {
        if number == 0 {
            Ok(Op::Get)
        } else if number == 1 {
            Ok(Op::Put)
        } else if number == 2 {
            Ok(Op::Delete)
        } else if number == 3 {
            Ok(Op::Append)
        } else {
            Err(UnknownOp(number))
        }
    }
}

impl TryFrom<i32> for Op {
    type Error = UnknownOp;

    fn try_from(number: i32) -> (r: Result<Op, UnknownOp>) {
        match number {
            0 => Ok(Op::Get),
            1 => Ok(Op::Put),
            2 => Ok(Op::Delete),
            3 => Ok(Op::Append),
            _ => Err(UnknownOp(number)),
        }
    }
}

impl vstd::std_specs::convert::TryFromSpecImpl<i32> for Op {
    open spec fn obeys_try_from_spec() -> bool {
        true
    }

    open spec fn try_from_spec(number: i32) -> Result<Op, UnknownOp> {
        Op::of(number)
    }
}

/// One KV operation as the log carries it.
#[derive(Clone, Debug, PartialEq, Eq)]
pub struct Command {
    /// The number of an [`Op`].
    pub op: i32,
    pub key: Vec<u8>,
    pub value: Vec<u8>,
    /// Identity of the client, for dedup; 0 for none.
    pub client_id: u64,
    /// Position among the client's mutations, for dedup.
    pub seq: u64,
    /// A number for its proposer's own use. It means nothing to the store.
    pub nonce: u64,
}

/// Mathematical view of a [`Command`].
#[verifier::ext_equal]
pub struct CommandView {
    pub op: i32,
    pub key: Seq<u8>,
    pub value: Seq<u8>,
    pub client_id: u64,
    pub seq: u64,
    pub nonce: u64,
}

impl View for Command {
    type V = CommandView;

    open spec fn view(&self) -> CommandView {
        CommandView {
            op: self.op,
            key: self.key@,
            value: self.value@,
            client_id: self.client_id,
            seq: self.seq,
            nonce: self.nonce,
        }
    }
}

/// Tag of [`Command::op`].
pub const OP_TAG: u32 = 1;

/// Tag of [`Command::key`].
pub const KEY_TAG: u32 = 2;

/// Tag of [`Command::value`].
pub const VALUE_TAG: u32 = 3;

/// Tag of [`Command::client_id`].
pub const CLIENT_TAG: u32 = 4;

/// Tag of [`Command::seq`].
pub const SEQ_TAG: u32 = 5;

/// Tag of [`Command::nonce`].
pub const NONCE_TAG: u32 = 6;

/// A numeric field, which is left out where it is 0.
pub open spec fn number_field(tag: u32, v: nat) -> Seq<u8> {
    if v == 0 {
        Seq::empty()
    } else {
        crate::wire::varint_field(tag, v)
    }
}

/// A field of bytes, which is left out where it is empty.
pub open spec fn payload_field(tag: u32, payload: Seq<u8>) -> Seq<u8> {
    if payload.len() == 0 {
        Seq::empty()
    } else {
        crate::wire::bytes_field(tag, payload)
    }
}

impl CommandView {
    /// The command with nothing in it.
    pub open spec fn empty() -> Self {
        CommandView {
            op: 0,
            key: Seq::empty(),
            value: Seq::empty(),
            client_id: 0,
            seq: 0,
            nonce: 0,
        }
    }

    /// The bytes of the command: its fields in the order of their tags.
    pub open spec fn encoded(self) -> Seq<u8> {
        number_field(OP_TAG, crate::wire::extended(self.op)) + payload_field(KEY_TAG, self.key)
            + payload_field(VALUE_TAG, self.value) + number_field(
            CLIENT_TAG,
            self.client_id as nat,
        ) + number_field(SEQ_TAG, self.seq as nat) + number_field(NONCE_TAG, self.nonce as nat)
    }

    /// The command after the field with this tag and wire type, whose payload is at
    /// the front of `bytes`, and what follows. A field with an unknown tag is passed
    /// over.
    pub open spec fn with_field(self, tag: u32, wire: u8, bytes: Seq<u8>) -> Option<
        (Self, Seq<u8>),
    > {
        if tag == OP_TAG || tag == CLIENT_TAG || tag == SEQ_TAG || tag == NONCE_TAG {
            match crate::wire::varint_at(bytes) {
                Some((v, rest)) => if wire != crate::wire::VARINT {
                    None
                } else if tag == OP_TAG {
                    Some((CommandView { op: crate::wire::low_half(v), ..self }, rest))
                } else if tag == CLIENT_TAG {
                    Some((CommandView { client_id: v, ..self }, rest))
                } else if tag == SEQ_TAG {
                    Some((CommandView { seq: v, ..self }, rest))
                } else {
                    Some((CommandView { nonce: v, ..self }, rest))
                },
                None => None,
            }
        } else if tag == KEY_TAG || tag == VALUE_TAG {
            match crate::wire::bytes_at(bytes) {
                Some((payload, rest)) => if wire != crate::wire::LENGTH_DELIMITED {
                    None
                } else if tag == KEY_TAG {
                    Some((CommandView { key: payload, ..self }, rest))
                } else {
                    Some((CommandView { value: payload, ..self }, rest))
                },
                None => None,
            }
        } else {
            match crate::wire::past_payload(wire, tag, bytes) {
                Some(rest) => Some((self, rest)),
                None => None,
            }
        }
    }

    /// The command after all the fields in `bytes`; of a field that occurs twice the
    /// last counts.
    pub open spec fn with_fields(self, bytes: Seq<u8>) -> Option<Self>
        decreases bytes.len(),
    {
        if bytes.len() == 0 {
            Some(self)
        } else {
            match crate::wire::key_at(bytes) {
                Some((tag, wire, payload)) => match self.with_field(tag, wire, payload) {
                    Some((next, rest)) => if rest.len() < bytes.len() {
                        next.with_fields(rest)
                    } else {
                        None
                    },
                    None => None,
                },
                None => None,
            }
        }
    }

    /// The command that `bytes` encode.
    pub open spec fn decoded(bytes: Seq<u8>) -> Option<Self> {
        CommandView::empty().with_fields(bytes)
    }
}

/// Serialize a command to the bytes stored in a log entry.
pub fn encode(command: &Command) -> (r: Vec<u8>)
    ensures
        r@ == command@.encoded(),
{
    let mut out: Vec<u8> = Vec::new();
    if command.op != 0 {
        write_int32(OP_TAG, command.op, &mut out);
    }
    if command.key.len() != 0 {
        write_bytes(KEY_TAG, &command.key, &mut out);
    }
    if command.value.len() != 0 {
        write_bytes(VALUE_TAG, &command.value, &mut out);
    }
    if command.client_id != 0 {
        write_uint64(CLIENT_TAG, command.client_id, &mut out);
    }
    if command.seq != 0 {
        write_uint64(SEQ_TAG, command.seq, &mut out);
    }
    if command.nonce != 0 {
        write_uint64(NONCE_TAG, command.nonce, &mut out);
    }
    out
}

/// Deserialize a command from a log entry's bytes.
pub fn decode(bytes: &[u8]) -> (r: Result<Command, DecodeError>)
    ensures
        match CommandView::decoded(bytes@) {
            Some(command) => r matches Ok(c) && c@ == command,
            None => r is Err,
        },
{
    let mut command = Command {
        op: 0,
        key: Vec::new(),
        value: Vec::new(),
        client_id: 0,
        seq: 0,
        nonce: 0,
    };
    let mut input = bytes;
    while input.len() > 0
        invariant
            command@.with_fields(input@) == CommandView::decoded(bytes@),
        decreases input@.len(),
    {
        let ghost before = input@;
        proof {
            crate::wire::lemma_digits_shrink(before, 10);
        }
        let (tag, wire) = match read_key(&mut input) {
            Ok(key) => key,
            Err(e) => return Err(e),
        };
        let ghost payload = input@;
        proof {
            crate::wire::lemma_digits_shrink(payload, 10);
        }
        if tag == OP_TAG {
            command.op = match read_int32(wire, &mut input) {
                Ok(v) => v,
                Err(e) => return Err(e),
            };
        } else if tag == KEY_TAG {
            command.key = match read_bytes(wire, &mut input) {
                Ok(v) => v,
                Err(e) => return Err(e),
            };
        } else if tag == VALUE_TAG {
            command.value = match read_bytes(wire, &mut input) {
                Ok(v) => v,
                Err(e) => return Err(e),
            };
        } else if tag == CLIENT_TAG {
            command.client_id = match read_uint64(wire, &mut input) {
                Ok(v) => v,
                Err(e) => return Err(e),
            };
        } else if tag == SEQ_TAG {
            command.seq = match read_uint64(wire, &mut input) {
                Ok(v) => v,
                Err(e) => return Err(e),
            };
        } else if tag == NONCE_TAG {
            command.nonce = match read_uint64(wire, &mut input) {
                Ok(v) => v,
                Err(e) => return Err(e),
            };
        } else {
            proof {
                crate::wire::lemma_past_shrinks(wire, tag, payload, crate::wire::NESTING as nat);
            }
            match skip_payload(wire, tag, &mut input) {
                Ok(()) => {},
                Err(e) => return Err(e),
            }
        }
    }
    Ok(command)
}

/// A read of `key`, routed through the log so it observes a linearizable point
/// in the committed order. Reads are idempotent, so they carry no client
/// identity (`client_id`/`seq` stay zero) and are never deduplicated.
pub fn get(key: Vec<u8>) -> (r: Command)
    ensures
        r@ == (CommandView { op: Op::Get.spec_number(), key: key@, ..CommandView::empty() }),
{
    Command { op: Op::Get.number(), key, value: Vec::new(), client_id: 0, seq: 0, nonce: 0 }
}

/// A write of `key` = `value`, tagged with the caller's identity for dedup.
pub fn put(key: Vec<u8>, value: Vec<u8>, client_id: u64, seq: u64) -> (r: Command)
    ensures
        r@ == (CommandView {
            op: Op::Put.spec_number(),
            key: key@,
            value: value@,
            client_id,
            seq,
            nonce: 0,
        }),
{
    Command { op: Op::Put.number(), key, value, client_id, seq, nonce: 0 }
}

/// An append of `value` to `key`'s current contents (non-idempotent).
pub fn append(key: Vec<u8>, value: Vec<u8>, client_id: u64, seq: u64) -> (r: Command)
    ensures
        r@ == (CommandView {
            op: Op::Append.spec_number(),
            key: key@,
            value: value@,
            client_id,
            seq,
            nonce: 0,
        }),
{
    Command { op: Op::Append.number(), key, value, client_id, seq, nonce: 0 }
}

/// A removal of `key`, tagged with the caller's identity for dedup.
pub fn delete(key: Vec<u8>, client_id: u64, seq: u64) -> (r: Command)
    ensures
        r@ == (CommandView {
            op: Op::Delete.spec_number(),
            key: key@,
            value: Seq::empty(),
            client_id,
            seq,
            nonce: 0,
        }),
{
    Command { op: Op::Delete.number(), key, value: Vec::new(), client_id, seq, nonce: 0 }
}

// ---- laws ----
/// A numeric field at the front is taken in.
proof fn lemma_number_field(c: CommandView, tag: u32, v: u64, rest: Seq<u8>, next: CommandView)
    requires
        1 <= tag <= NONCE_TAG,
        v > 0 ==> c.with_field(tag, crate::wire::VARINT, crate::wire::varint(v as nat) + rest)
            == Some((next, rest)),
        v == 0 ==> next == c,
    ensures
        c.with_fields(number_field(tag, v as nat) + rest) == next.with_fields(rest),
{
    let all = number_field(tag, v as nat) + rest;
    if v > 0 {
        let payload = crate::wire::varint(v as nat) + rest;
        let head = crate::wire::key(tag, crate::wire::VARINT);
        assert(all =~= head + payload);
        crate::wire::keys_read_back(tag, crate::wire::VARINT, payload);
        crate::wire::varints_read_back(v, rest);
        crate::wire::lemma_digits_shrink(all, 10);
        crate::wire::lemma_digits_shrink(payload, 10);
    } else {
        assert(all =~= rest);
    }
}

/// A field of bytes at the front is taken in.
proof fn lemma_payload_field(
    c: CommandView,
    tag: u32,
    payload: Seq<u8>,
    rest: Seq<u8>,
    next: CommandView,
)
    requires
        tag == KEY_TAG && next == (CommandView { key: payload, ..c }) && c.key.len() == 0 || tag
            == VALUE_TAG && next == (CommandView { value: payload, ..c }) && c.value.len() == 0,
        payload.len() <= u64::MAX,
    ensures
        c.with_fields(payload_field(tag, payload) + rest) == next.with_fields(rest),
{
    let all = payload_field(tag, payload) + rest;
    if payload.len() > 0 {
        let tail = crate::wire::varint(payload.len()) + payload + rest;
        let head = crate::wire::key(tag, crate::wire::LENGTH_DELIMITED);
        assert(all =~= head + tail);
        crate::wire::keys_read_back(tag, crate::wire::LENGTH_DELIMITED, tail);
        crate::wire::bytes_read_back(payload, rest);
        crate::wire::lemma_digits_shrink(all, 10);
        crate::wire::lemma_digits_shrink(tail, 10);
    } else {
        assert(all =~= rest);
        assert(next =~= c);
    }
}

/// Decoding gives back every command that was encoded.
pub proof fn commands_round_trip(c: CommandView)
    requires
        c.key.len() <= usize::MAX,
        c.value.len() <= usize::MAX,
    ensures
        CommandView::decoded(c.encoded()) == Some(c),
{
    let f1 = number_field(OP_TAG, crate::wire::extended(c.op));
    let f2 = payload_field(KEY_TAG, c.key);
    let f3 = payload_field(VALUE_TAG, c.value);
    let f4 = number_field(CLIENT_TAG, c.client_id as nat);
    let f5 = number_field(SEQ_TAG, c.seq as nat);
    let f6 = number_field(NONCE_TAG, c.nonce as nat);
    let none = Seq::<u8>::empty();
    let r6 = f6 + none;
    let r5 = f5 + r6;
    let r4 = f4 + r5;
    let r3 = f3 + r4;
    let r2 = f2 + r3;
    assert(c.encoded() =~= f1 + r2);
    let c0 = CommandView::empty();
    let c1 = CommandView { op: c.op, ..c0 };
    let c2 = CommandView { key: c.key, ..c1 };
    let c3 = CommandView { value: c.value, ..c2 };
    let c4 = CommandView { client_id: c.client_id, ..c3 };
    let c5 = CommandView { seq: c.seq, ..c4 };
    let c6 = CommandView { nonce: c.nonce, ..c5 };
    crate::wire::halves_read_back(c.op);
    crate::wire::varints_read_back(crate::wire::extended(c.op) as u64, r2);
    lemma_number_field(c0, OP_TAG, crate::wire::extended(c.op) as u64, r2, c1);
    lemma_payload_field(c1, KEY_TAG, c.key, r3, c2);
    lemma_payload_field(c2, VALUE_TAG, c.value, r4, c3);
    crate::wire::varints_read_back(c.client_id, r5);
    lemma_number_field(c3, CLIENT_TAG, c.client_id, r5, c4);
    crate::wire::varints_read_back(c.seq, r6);
    lemma_number_field(c4, SEQ_TAG, c.seq, r6, c5);
    crate::wire::varints_read_back(c.nonce, none);
    lemma_number_field(c5, NONCE_TAG, c.nonce, none, c6);
    assert(c6 =~= c);
}

/// The encoding is versionable: a field with a tag that this version does not
/// know is passed over, and what follows it is read as if it were not there.
pub proof fn unknown_fields_are_ignored(c: CommandView, tag: u32, payload: Seq<u8>, rest: Seq<u8>)
    requires
        NONCE_TAG < tag <= crate::wire::MAX_TAG,
        payload.len() <= usize::MAX,
    ensures
        c.with_fields(crate::wire::bytes_field(tag, payload) + rest) == c.with_fields(rest),
{
    let all = crate::wire::bytes_field(tag, payload) + rest;
    let tail = crate::wire::varint(payload.len()) + payload + rest;
    let head = crate::wire::key(tag, crate::wire::LENGTH_DELIMITED);
    assert(all =~= head + tail);
    crate::wire::keys_read_back(tag, crate::wire::LENGTH_DELIMITED, tail);
    crate::wire::bytes_read_back(payload, rest);
    crate::wire::lemma_digits_shrink(all, 10);
    crate::wire::lemma_digits_shrink(tail, 10);
}

/// Every operation is recovered from the number that stands for it.
pub proof fn ops_are_recoverable(op: Op)
    ensures
        Op::of(op.spec_number()) == Ok::<Op, UnknownOp>(op),
{
}

/// Operations are numbered in their order, from 0 on; no other number stands for one, and
/// one that does not is named by what turns it down.
pub proof fn operations_are_numbered_in_order(number: i32)
    ensures
        Op::of(number) is Ok <==> 0 <= number < 4,
        Op::of(number) matches Ok(op) ==> op.spec_number() == number,
        Op::of(number) matches Err(unknown) ==> unknown.0 == number,
        Op::Get.spec_number() == 0,
        Op::Put.spec_number() == Op::Get.spec_number() + 1,
        Op::Delete.spec_number() == Op::Put.spec_number() + 1,
        Op::Append.spec_number() == Op::Delete.spec_number() + 1,
{
}

/// What a client asks for is what the command says, and nothing else: a read has no value
/// and no client, a removal no value, and every mutation the client's stamp.
pub proof fn commands_say_what_was_asked(
    key: Vec<u8>,
    value: Vec<u8>,
    client_id: u64,
    seq: u64,
    read: Command,
    write: Command,
    appending: Command,
    removal: Command,
)
    requires
        call_ensures(get, (key,), read),
        call_ensures(put, (key, value, client_id, seq), write),
        call_ensures(append, (key, value, client_id, seq), appending),
        call_ensures(delete, (key, client_id, seq), removal),
    ensures
        Op::of(read.op) == Ok::<Op, UnknownOp>(Op::Get),
        Op::of(write.op) == Ok::<Op, UnknownOp>(Op::Put),
        Op::of(appending.op) == Ok::<Op, UnknownOp>(Op::Append),
        Op::of(removal.op) == Ok::<Op, UnknownOp>(Op::Delete),
        read.key@ == key@,
        write.key@ == key@,
        appending.key@ == key@,
        removal.key@ == key@,
        read.value@.len() == 0,
        write.value@ == value@,
        appending.value@ == value@,
        removal.value@.len() == 0,
        read.client_id == 0 && read.seq == 0,
        write.client_id == client_id && write.seq == seq,
        appending.client_id == client_id && appending.seq == seq,
        removal.client_id == client_id && removal.seq == seq,
{
}

/// What is encoded is what is decoded.
pub proof fn commands_come_back_from_their_bytes(
    command: &Command,
    bytes: Vec<u8>,
    input: &[u8],
    r: Result<Command, DecodeError>,
)
    requires
        call_ensures(encode, (command,), bytes),
        input@ == bytes@,
        call_ensures(decode, (input,), r),
        command@.key.len() <= usize::MAX,
        command@.value.len() <= usize::MAX,
    ensures
        r is Ok && r->Ok_0@ == command@,
{
    commands_round_trip(command@);
}

/// Fields are read one after the other: the bytes of two messages, one behind the other,
/// are the fields of the first and then those of the second.
pub proof fn messages_are_read_field_by_field(c: CommandView, front: Seq<u8>, rest: Seq<u8>)
    requires
        c.with_fields(front) is Some,
    ensures
        c.with_fields(front + rest) == c.with_fields(front)->Some_0.with_fields(rest),
    decreases front.len(),
{
    let all = front + rest;
    if front.len() == 0 {
        assert(all =~= rest);
    } else {
        let (tag, wire, payload) = crate::wire::key_at(front)->Some_0;
        let (next, left) = c.with_field(tag, wire, payload)->Some_0;
        crate::wire::lemma_varint_before(front, rest);
        crate::wire::lemma_digits_shrink(front, 10);
        crate::wire::lemma_varint_before(payload, rest);
        crate::wire::lemma_bytes_before(payload, rest);
        crate::wire::lemma_past_before(wire, tag, payload, rest, crate::wire::NESTING as nat);
        assert(crate::wire::key_at(all) == Some((tag, wire, payload + rest)));
        assert(c.with_field(tag, wire, payload + rest) == Some((next, left + rest)));
        messages_are_read_field_by_field(next, left, rest);
    }
}

/// Of a field that occurs twice the last counts, whatever comes in between: what follows
/// the bytes of any command is read over it.
pub proof fn later_fields_count(c: CommandView, later: CommandView)
    requires
        c.key.len() <= usize::MAX,
        c.value.len() <= usize::MAX,
        later.key.len() <= usize::MAX,
        later.value.len() <= usize::MAX,
    ensures
        CommandView::decoded(c.encoded() + later.encoded()) == c.with_fields(later.encoded()),
{
    commands_round_trip(c);
    messages_are_read_field_by_field(CommandView::empty(), c.encoded(), later.encoded());
}

/// The fields are numbered in the order in which a command lists them, from 1 on: each is
/// read from the field with its number, as it was written, and takes the place of what was
/// read before.
pub proof fn fields_are_numbered_in_order(
    c: CommandView,
    op: i32,
    payload: Seq<u8>,
    v: u64,
    rest: Seq<u8>,
)
    requires
        payload.len() <= u64::MAX,
    ensures
        c.with_fields(crate::wire::varint_field(1, crate::wire::extended(op)) + rest) == (
        CommandView { op, ..c }).with_fields(rest),
        c.with_fields(crate::wire::bytes_field(2, payload) + rest) == (CommandView {
            key: payload,
            ..c
        }).with_fields(rest),
        c.with_fields(crate::wire::bytes_field(3, payload) + rest) == (CommandView {
            value: payload,
            ..c
        }).with_fields(rest),
        c.with_fields(crate::wire::varint_field(4, v as nat) + rest) == (CommandView {
            client_id: v,
            ..c
        }).with_fields(rest),
        c.with_fields(crate::wire::varint_field(5, v as nat) + rest) == (CommandView {
            seq: v,
            ..c
        }).with_fields(rest),
        c.with_fields(crate::wire::varint_field(6, v as nat) + rest) == (CommandView {
            nonce: v,
            ..c
        }).with_fields(rest),
{
    crate::wire::halves_read_back(op);
    lemma_varint_first(c, 1, crate::wire::extended(op) as u64, rest);
    lemma_varint_first(c, 4, v, rest);
    lemma_varint_first(c, 5, v, rest);
    lemma_varint_first(c, 6, v, rest);
    lemma_bytes_first(c, 2, payload, rest);
    lemma_bytes_first(c, 3, payload, rest);
}

proof fn lemma_varint_first(c: CommandView, tag: u32, v: u64, rest: Seq<u8>)
    requires
        1 <= tag <= crate::wire::MAX_TAG,
    ensures
        ({
            let payload = crate::wire::varint(v as nat) + rest;
            &&& crate::wire::varint_at(payload) == Some((v, rest))
            &&& c.with_field(tag, crate::wire::VARINT, payload) matches Some((next, left)) ==> left
                == rest ==> c.with_fields(crate::wire::varint_field(tag, v as nat) + rest)
                == next.with_fields(rest)
        }),
{
    let payload = crate::wire::varint(v as nat) + rest;
    let head = crate::wire::key(tag, crate::wire::VARINT);
    let all = crate::wire::varint_field(tag, v as nat) + rest;
    assert(all =~= head + payload);
    crate::wire::keys_read_back(tag, crate::wire::VARINT, payload);
    crate::wire::varints_read_back(v, rest);
    crate::wire::lemma_digits_shrink(all, 10);
    crate::wire::lemma_digits_shrink(payload, 10);
}

proof fn lemma_bytes_first(c: CommandView, tag: u32, bytes: Seq<u8>, rest: Seq<u8>)
    requires
        1 <= tag <= crate::wire::MAX_TAG,
        bytes.len() <= u64::MAX,
    ensures
        ({
            let payload = crate::wire::varint(bytes.len()) + bytes + rest;
            &&& crate::wire::bytes_at(payload) == Some((bytes, rest))
            &&& c.with_field(tag, crate::wire::LENGTH_DELIMITED, payload) matches Some((next, left))
                ==> left == rest ==> c.with_fields(crate::wire::bytes_field(tag, bytes) + rest)
                == next.with_fields(rest)
        }),
{
    let payload = crate::wire::varint(bytes.len()) + bytes + rest;
    let head = crate::wire::key(tag, crate::wire::LENGTH_DELIMITED);
    let all = crate::wire::bytes_field(tag, bytes) + rest;
    assert(all =~= head + payload);
    crate::wire::keys_read_back(tag, crate::wire::LENGTH_DELIMITED, payload);
    crate::wire::bytes_read_back(bytes, rest);
    crate::wire::lemma_digits_shrink(all, 10);
    crate::wire::lemma_digits_shrink(payload, 10);
}

} // verus!
