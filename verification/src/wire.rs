//! The Protocol Buffers wire format, as far as murmur's commands use it.
//!
//! A message is a sequence of fields, each a key followed by a payload. The key
//! is a varint holding the field's tag and the payload's wire type: 0 for a
//! varint, 1 for eight bytes, 2 for a length and that many bytes, 3 and 4 for the
//! delimiters of a group, 5 for four bytes.

use prost::encoding::{DecodeContext, WireType};
use vstd::prelude::*;

verus! {

/// Why bytes could not be decoded.
#[derive(Clone, Debug, PartialEq, Eq)]
pub struct DecodeError {
    pub description: String,
}

/// Wire type of a varint payload.
pub const VARINT: u8 = 0;

/// Wire type of a payload of eight bytes.
pub const SIXTY_FOUR_BIT: u8 = 1;

/// Wire type of a payload of a length and that many bytes.
pub const LENGTH_DELIMITED: u8 = 2;

/// Wire type of the start of a group.
pub const START_GROUP: u8 = 3;

/// Wire type of the end of a group.
pub const END_GROUP: u8 = 4;

/// Wire type of a payload of four bytes.
pub const THIRTY_TWO_BIT: u8 = 5;

/// The greatest tag that a field may have.
pub const MAX_TAG: u32 = 536_870_911;

/// How deep groups may be nested, the outermost payload counted.
pub const NESTING: u32 = 100;

// ---- varints ----
/// `v` in base 128, least significant digit first; every byte but the last has
/// its top bit set.
pub open spec fn varint(v: nat) -> Seq<u8>
    decreases v,
{
    if v < 0x80 {
        seq![v as u8]
    } else {
        seq![(0x80 + v % 0x80) as u8] + varint(v / 0x80)
    }
}

/// The number at the front of `bytes`, in at most `room` bytes, and what follows.
pub open spec fn digits(bytes: Seq<u8>, room: nat) -> Option<(nat, Seq<u8>)>
    decreases room,
{
    if room == 0 || bytes.len() == 0 {
        None
    } else if bytes[0] < 0x80 {
        Some((bytes[0] as nat, bytes.skip(1)))
    } else {
        match digits(bytes.skip(1), (room - 1) as nat) {
            Some((v, rest)) => Some(((bytes[0] - 0x80 + 0x80 * v) as nat, rest)),
            None => None,
        }
    }
}

/// The varint at the front of `bytes` and what follows: at most ten bytes, for a
/// number that fits 64 bits.
pub open spec fn varint_at(bytes: Seq<u8>) -> Option<(u64, Seq<u8>)> {
    match digits(bytes, 10) {
        Some((v, rest)) => if v <= u64::MAX {
            Some((v as u64, rest))
        } else {
            None
        },
        None => None,
    }
}

/// Numbers that fit `room` digits in base 128.
spec fn capacity(room: nat) -> nat
    decreases room,
{
    if room == 0 {
        1
    } else {
        0x80 * capacity((room - 1) as nat)
    }
}

proof fn lemma_digits(v: nat, room: nat, rest: Seq<u8>)
    requires
        v < capacity(room),
        room > 0,
    ensures
        digits(varint(v) + rest, room) == Some((v, rest)),
    decreases v,
{
    let all = varint(v) + rest;
    if v < 0x80 {
        assert(all.skip(1) =~= rest);
    } else {
        reveal_with_fuel(capacity, 2);
        assert(capacity(room) == 0x80 * capacity((room - 1) as nat));
        if room == 1 {
            assert(capacity(0) == 1);
        }
        lemma_digits(v / 0x80, (room - 1) as nat, rest);
        assert(all.skip(1) =~= varint(v / 0x80) + rest);
    }
}

/// A varint reads back as the number written, whatever follows it.
pub proof fn varints_read_back(v: u64, rest: Seq<u8>)
    ensures
        varint_at(varint(v as nat) + rest) == Some((v, rest)),
{
    reveal_with_fuel(capacity, 11);
    lemma_digits(v as nat, 10, rest);
}

/// What is read off the front is a proper prefix.
pub proof fn lemma_digits_shrink(bytes: Seq<u8>, room: nat)
    ensures
        digits(bytes, room) matches Some((v, rest)) ==> rest.len() < bytes.len(),
    decreases room,
{
    if room > 0 && bytes.len() > 0 && bytes[0] >= 0x80 {
        lemma_digits_shrink(bytes.skip(1), (room - 1) as nat);
    }
}

// ---- fields ----
/// A field's key.
pub open spec fn key(tag: u32, wire: u8) -> Seq<u8> {
    varint((tag * 8 + wire) as nat)
}

/// A field with a varint payload.
pub open spec fn varint_field(tag: u32, v: nat) -> Seq<u8> {
    key(tag, VARINT) + varint(v)
}

/// A field with a payload of bytes.
pub open spec fn bytes_field(tag: u32, payload: Seq<u8>) -> Seq<u8> {
    key(tag, LENGTH_DELIMITED) + varint(payload.len()) + payload
}

/// The key at the front of `bytes`, as tag and wire type, and what follows.
pub open spec fn key_at(bytes: Seq<u8>) -> Option<(u32, u8, Seq<u8>)> {
    match varint_at(bytes) {
        Some((k, rest)) => if k <= u32::MAX && k % 8 <= 5 && k / 8 >= 1 {
            Some(((k / 8) as u32, (k % 8) as u8, rest))
        } else {
            None
        },
        None => None,
    }
}

/// The payload of bytes at the front of `bytes`, and what follows.
pub open spec fn bytes_at(bytes: Seq<u8>) -> Option<(Seq<u8>, Seq<u8>)> {
    match varint_at(bytes) {
        Some((n, rest)) => if n <= rest.len() {
            Some((rest.take(n as int), rest.skip(n as int)))
        } else {
            None
        },
        None => None,
    }
}

/// What follows the `n` bytes at the front of `bytes`.
pub open spec fn past(bytes: Seq<u8>, n: int) -> Option<Seq<u8>> {
    if n <= bytes.len() {
        Some(bytes.skip(n))
    } else {
        None
    }
}

/// What follows the payload of type `wire` at the front of `bytes`, with groups in
/// it nested less than `depth` deep.
pub open spec fn past_within(wire: u8, tag: u32, bytes: Seq<u8>, depth: nat) -> Option<Seq<u8>>
    decreases depth, bytes.len(), 1nat,
{
    if depth == 0 {
        None
    } else if wire == VARINT {
        match varint_at(bytes) {
            Some((v, rest)) => Some(rest),
            None => None,
        }
    } else if wire == SIXTY_FOUR_BIT {
        past(bytes, 8)
    } else if wire == LENGTH_DELIMITED {
        match bytes_at(bytes) {
            Some((payload, rest)) => Some(rest),
            None => None,
        }
    } else if wire == THIRTY_TWO_BIT {
        past(bytes, 4)
    } else if wire == START_GROUP {
        past_group(tag, bytes, depth)
    } else {
        None
    }
}

/// What follows the rest of a group whose start had tag `tag`: fields, and then the
/// end with the same tag. (Each field leaves less than there was, as
/// [`lemma_past_shrinks`] shows; the test of it is for termination alone.)
pub open spec fn past_group(tag: u32, bytes: Seq<u8>, depth: nat) -> Option<Seq<u8>>
    decreases depth, bytes.len(), 0nat,
{
    match key_at(bytes) {
        Some((inner, wire, payload)) => if wire == END_GROUP {
            if inner == tag {
                Some(payload)
            } else {
                None
            }
        } else if depth == 0 {
            None
        } else {
            match past_within(wire, inner, payload, (depth - 1) as nat) {
                Some(rest) => if rest.len() < bytes.len() {
                    past_group(tag, rest, depth)
                } else {
                    None
                },
                None => None,
            }
        },
        None => None,
    }
}

/// What follows the payload of type `wire` at the front of `bytes`.
pub open spec fn past_payload(wire: u8, tag: u32, bytes: Seq<u8>) -> Option<Seq<u8>> {
    past_within(wire, tag, bytes, NESTING as nat)
}

/// What is passed over leaves no more than there was.
pub proof fn lemma_past_shrinks(wire: u8, tag: u32, bytes: Seq<u8>, depth: nat)
    ensures
        past_within(wire, tag, bytes, depth) matches Some(rest) ==> rest.len() <= bytes.len(),
        past_group(tag, bytes, depth) matches Some(rest) ==> rest.len() < bytes.len(),
    decreases depth, bytes.len(),
{
    lemma_digits_shrink(bytes, 10);
    match key_at(bytes) {
        Some((inner, next, payload)) => if next != END_GROUP && depth > 0 {
            lemma_past_shrinks(next, inner, payload, (depth - 1) as nat);
            match past_within(next, inner, payload, (depth - 1) as nat) {
                Some(rest) => lemma_past_shrinks(wire, tag, rest, depth),
                None => {},
            }
        },
        None => {},
    }
}

/// A 32-bit number as it is written: sign-extended to 64 bits.
pub open spec fn extended(v: i32) -> nat {
    if v < 0 {
        (v + 0x1_0000_0000_0000_0000) as nat
    } else {
        v as nat
    }
}

/// The 32-bit number in the low half of `v`.
pub open spec fn low_half(v: u64) -> i32 {
    let low = v as int % 0x1_0000_0000;
    if low < 0x8000_0000 {
        low as i32
    } else {
        (low - 0x1_0000_0000) as i32
    }
}

/// A field's key reads back.
pub proof fn keys_read_back(tag: u32, wire: u8, rest: Seq<u8>)
    requires
        1 <= tag <= MAX_TAG,
        wire <= 5,
    ensures
        key_at(key(tag, wire) + rest) == Some((tag, wire, rest)),
{
    varints_read_back((tag * 8 + wire) as u64, rest);
}

/// A payload of bytes reads back.
pub proof fn bytes_read_back(payload: Seq<u8>, rest: Seq<u8>)
    requires
        payload.len() <= u64::MAX,
    ensures
        bytes_at(varint(payload.len()) + payload + rest) == Some((payload, rest)),
{
    assert(varint(payload.len()) + payload + rest =~= varint(payload.len()) + (payload + rest));
    varints_read_back(payload.len() as u64, payload + rest);
    assert((payload + rest).take(payload.len() as int) =~= payload);
    assert((payload + rest).skip(payload.len() as int) =~= rest);
}

/// A 32-bit number survives the trip through 64 bits.
pub proof fn halves_read_back(v: i32)
    ensures
        extended(v) <= u64::MAX,
        low_half(extended(v) as u64) == v,
{
}

/// `prost::encoding::int32::encode`: appends a varint field that holds the
/// sign-extended value.
#[verifier::external_body]
pub(crate) fn write_int32(tag: u32, value: i32, out: &mut Vec<u8>)
    requires
        1 <= tag <= MAX_TAG,
    ensures
        final(out)@ == old(out)@ + varint_field(tag, extended(value)),
{
    prost::encoding::int32::encode(tag, &value, out);
}

/// `prost::encoding::uint64::encode`: appends a varint field.
#[verifier::external_body]
pub(crate) fn write_uint64(tag: u32, value: u64, out: &mut Vec<u8>)
    requires
        1 <= tag <= MAX_TAG,
    ensures
        final(out)@ == old(out)@ + varint_field(tag, value as nat),
{
    prost::encoding::uint64::encode(tag, &value, out);
}

/// `prost::encoding::bytes::encode`: appends a field of bytes.
#[verifier::external_body]
pub(crate) fn write_bytes(tag: u32, value: &Vec<u8>, out: &mut Vec<u8>)
    requires
        1 <= tag <= MAX_TAG,
    ensures
        final(out)@ == old(out)@ + bytes_field(tag, value@),
{
    prost::encoding::bytes::encode(tag, value, out);
}

/// `prost::encoding::decode_key`: takes a field's key off the front of the input,
/// and fails if there is none.
#[verifier::external_body]
pub(crate) fn read_key(input: &mut &[u8]) -> (r: Result<(u32, u8), DecodeError>)
    ensures
        match key_at(old(input)@) {
            Some((tag, wire, rest)) => r == Ok::<(u32, u8), DecodeError>((tag, wire))
                && final(input)@ == rest,
            None => r is Err,
        },
{
    match prost::encoding::decode_key(input) {
        Ok((tag, wire)) => Ok((tag, wire as u8)),
        Err(e) => Err(DecodeError { description: e.to_string() }),
    }
}

/// `prost::encoding::int32::merge`: takes a varint payload off the front of the
/// input and keeps its low half; fails on another wire type or a bad varint.
#[verifier::external_body]
pub(crate) fn read_int32(wire: u8, input: &mut &[u8]) -> (r: Result<i32, DecodeError>)
    requires
        wire <= 5,
    ensures
        match varint_at(old(input)@) {
            Some((v, rest)) => if wire == VARINT {
                r == Ok::<i32, DecodeError>(low_half(v)) && final(input)@ == rest
            } else {
                r is Err
            },
            None => r is Err,
        },
{
    let mut value: i32 = 0;
    let ctx = DecodeContext::default();
    match WireType::try_from(u64::from(wire))
        .and_then(|wire| prost::encoding::int32::merge(wire, &mut value, input, ctx))
    {
        Ok(()) => Ok(value),
        Err(e) => Err(DecodeError { description: e.to_string() }),
    }
}

/// `prost::encoding::uint64::merge`: takes a varint payload off the front of the
/// input; fails on another wire type or a bad varint.
#[verifier::external_body]
pub(crate) fn read_uint64(wire: u8, input: &mut &[u8]) -> (r: Result<u64, DecodeError>)
    requires
        wire <= 5,
    ensures
        match varint_at(old(input)@) {
            Some((v, rest)) => if wire == VARINT {
                r == Ok::<u64, DecodeError>(v) && final(input)@ == rest
            } else {
                r is Err
            },
            None => r is Err,
        },
{
    let mut value: u64 = 0;
    let ctx = DecodeContext::default();
    match WireType::try_from(u64::from(wire))
        .and_then(|wire| prost::encoding::uint64::merge(wire, &mut value, input, ctx))
    {
        Ok(()) => Ok(value),
        Err(e) => Err(DecodeError { description: e.to_string() }),
    }
}

/// `prost::encoding::bytes::merge`: takes a length and that many bytes off the
/// front of the input; fails on another wire type, a bad length, or an input that
/// is too short.
#[verifier::external_body]
pub(crate) fn read_bytes(wire: u8, input: &mut &[u8]) -> (r: Result<Vec<u8>, DecodeError>)
    requires
        wire <= 5,
    ensures
        match bytes_at(old(input)@) {
            Some((payload, rest)) => if wire == LENGTH_DELIMITED {
                r matches Ok(value) && value@ == payload && final(input)@ == rest
            } else {
                r is Err
            },
            None => r is Err,
        },
{
    let mut value: Vec<u8> = Vec::new();
    let ctx = DecodeContext::default();
    match WireType::try_from(u64::from(wire))
        .and_then(|wire| prost::encoding::bytes::merge(wire, &mut value, input, ctx))
    {
        Ok(()) => Ok(value),
        Err(e) => Err(DecodeError { description: e.to_string() }),
    }
}

/// `prost::encoding::skip_field`: takes a payload of any type off the front of
/// the input, a group with all that is nested in it up to its end; fails on the end
/// of a group, on an end with another tag, on groups nested too deep and on an
/// input that is too short.
#[verifier::external_body]
pub(crate) fn skip_payload(wire: u8, tag: u32, input: &mut &[u8]) -> (r: Result<(), DecodeError>)
    requires
        wire <= 5,
    ensures
        match past_payload(wire, tag, old(input)@) {
            Some(rest) => r is Ok && final(input)@ == rest,
            None => r is Err,
        },
{
    let ctx = DecodeContext::default();
    match WireType::try_from(u64::from(wire))
        .and_then(|wire| prost::encoding::skip_field(wire, tag, input, ctx))
    {
        Ok(()) => Ok(()),
        Err(e) => Err(DecodeError { description: e.to_string() }),
    }
}

// ---- laws ----
/// A varint stays one, with the same number, whatever follows it.
pub proof fn lemma_varint_before(bytes: Seq<u8>, rest: Seq<u8>)
    ensures
        varint_at(bytes) matches Some((v, left)) ==> varint_at(bytes + rest) == Some(
            (v, left + rest),
        ),
{
    lemma_digits_before(bytes, 10, rest);
}

proof fn lemma_digits_before(bytes: Seq<u8>, room: nat, rest: Seq<u8>)
    ensures
        digits(bytes, room) matches Some((v, left)) ==> digits(bytes + rest, room) == Some(
            (v, left + rest),
        ),
    decreases room,
{
    if room > 0 && bytes.len() > 0 {
        assert((bytes + rest).skip(1) =~= bytes.skip(1) + rest);
        lemma_digits_before(bytes.skip(1), (room - 1) as nat, rest);
    }
}

/// A payload of bytes stays one, whatever follows it.
pub proof fn lemma_bytes_before(bytes: Seq<u8>, rest: Seq<u8>)
    ensures
        bytes_at(bytes) matches Some((payload, left)) ==> bytes_at(bytes + rest) == Some(
            (payload, left + rest),
        ),
{
    lemma_varint_before(bytes, rest);
    match varint_at(bytes) {
        Some((n, left)) => if n <= left.len() {
            assert((left + rest).take(n as int) =~= left.take(n as int));
            assert((left + rest).skip(n as int) =~= left.skip(n as int) + rest);
        },
        None => {},
    }
}

/// What is passed over is passed over, whatever follows it.
pub proof fn lemma_past_before(wire: u8, tag: u32, bytes: Seq<u8>, rest: Seq<u8>, depth: nat)
    ensures
        past_within(wire, tag, bytes, depth) matches Some(left) ==> past_within(
            wire,
            tag,
            bytes + rest,
            depth,
        ) == Some(left + rest),
        past_group(tag, bytes, depth) matches Some(left) ==> past_group(tag, bytes + rest, depth)
            == Some(left + rest),
    decreases depth, bytes.len(),
{
    lemma_varint_before(bytes, rest);
    lemma_bytes_before(bytes, rest);
    lemma_digits_shrink(bytes, 10);
    if bytes.len() >= 8 {
        assert((bytes + rest).skip(8) =~= bytes.skip(8) + rest);
    }
    if bytes.len() >= 4 {
        assert((bytes + rest).skip(4) =~= bytes.skip(4) + rest);
    }
    match key_at(bytes) {
        Some((inner, next, payload)) => if next != END_GROUP && depth > 0 {
            lemma_past_before(next, inner, payload, rest, (depth - 1) as nat);
            lemma_past_shrinks(next, inner, payload, (depth - 1) as nat);
            match past_within(next, inner, payload, (depth - 1) as nat) {
                Some(left) => lemma_past_before(wire, tag, left, rest, depth),
                None => {},
            }
        },
        None => {},
    }
}

/// What the digits of a number in base 128 come to, the least significant first.
pub open spec fn sum(digits: Seq<u8>) -> nat
    decreases digits.len(),
{
    if digits.len() == 0 {
        0
    } else {
        (digits[0] as int % 128 + 128 * sum(digits.skip(1))) as nat
    }
}

/// A varint is the number's digits in base 128, the least significant first, and no more
/// of them than it takes; each but the last has its top bit set.
pub proof fn varints_are_digits(v: nat, i: int)
    requires
        0 <= i < varint(v).len(),
    ensures
        sum(varint(v)) == v,
        varint(v)[i] >= 128 <==> i < varint(v).len() - 1,
        varint(v).len() > 1 ==> varint(v)[varint(v).len() - 1] > 0,
    decreases v,
{
    let s = varint(v);
    if v < 0x80 {
        assert(s.skip(1) =~= Seq::<u8>::empty());
        assert(s[0] as int % 128 == v);
        assert(sum(s.skip(1)) == 0);
    } else {
        let more = varint(v / 0x80);
        assert(s.skip(1) =~= more);
        assert(more.len() > 0);
        varints_are_digits(v / 0x80, 0);
        assert(s[0] as int == 128 + v as int % 128);
        assert(s[0] as int % 128 == v as int % 128);
        if i > 0 {
            varints_are_digits(v / 0x80, i - 1);
        }
        assert(s[s.len() - 1] == more[more.len() - 1]);
        if more.len() == 1 {
            assert(v / 0x80 > 0);
            if v / 0x80 >= 0x80 {
                assert(more.len() == 1 + varint((v / 0x80) / 0x80).len());
                assert(varint((v / 0x80) / 0x80).len() > 0);
            }
        }
    }
}

/// A field's key shows its tag and how its payload is written; of two fields that differ
/// in either, the keys differ.
pub proof fn keys_tell_fields_apart(tag: u32, wire: u8)
    requires
        1 <= tag <= MAX_TAG,
        wire <= 5,
    ensures
        sum(key(tag, wire)) == 8 * tag + wire,
        VARINT == 0,
        SIXTY_FOUR_BIT == 1,
        LENGTH_DELIMITED == 2,
        START_GROUP == 3,
        END_GROUP == 4,
        THIRTY_TWO_BIT == 5,
{
    let v = (tag * 8 + wire) as nat;
    assert(varint(v).len() > 0);
    varints_are_digits(v, 0);
}

/// What a field that nobody knows takes up: a number as many bytes as it has digits, a byte
/// string its length and itself, and the two fixed forms eight bytes and four.
pub proof fn unknown_payloads_are_passed_over(
    tag: u32,
    v: u64,
    payload: Seq<u8>,
    eight: Seq<u8>,
    four: Seq<u8>,
    rest: Seq<u8>,
)
    requires
        payload.len() <= u64::MAX,
        eight.len() == 8,
        four.len() == 4,
    ensures
        past_payload(VARINT, tag, varint(v as nat) + rest) == Some(rest),
        past_payload(LENGTH_DELIMITED, tag, varint(payload.len()) + payload + rest) == Some(rest),
        past_payload(SIXTY_FOUR_BIT, tag, eight + rest) == Some(rest),
        past_payload(THIRTY_TWO_BIT, tag, four + rest) == Some(rest),
{
    varints_read_back(v, rest);
    bytes_read_back(payload, rest);
    assert((eight + rest).skip(8) =~= rest);
    assert((four + rest).skip(4) =~= rest);
}

} // verus!
