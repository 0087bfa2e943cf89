//! The byte form of what a node keeps on disk and ships in snapshots: numbers as
//! eight bytes, least significant first; byte strings and lists with their length
//! in front.

use vstd::prelude::*;
use vstd::slice::{slice_subrange, slice_to_vec};

verus! {

// ---- numbers ----
/// The bytes of a number.
pub open spec fn number(v: u64) -> Seq<u8> {
    vstd::bytes::spec_u64_to_le_bytes(v)
}

/// The number at the front of `bytes`, and what follows.
pub open spec fn number_at(bytes: Seq<u8>) -> Option<(u64, Seq<u8>)> {
    if bytes.len() < 8 {
        None
    } else {
        Some((vstd::bytes::spec_u64_from_le_bytes(bytes.take(8)), bytes.skip(8)))
    }
}

/// Appends a number.
pub fn write_number(v: u64, out: &mut Vec<u8>)
    ensures
        final(out)@ == old(out)@ + number(v),
{
    let mut bytes: Vec<u8> = vstd::bytes::u64_to_le_bytes(v);
    out.append(&mut bytes);
}

/// Takes a number off the front of the input.
pub fn read_number(input: &mut &[u8]) -> (r: Option<u64>)
    ensures
        match number_at(old(input)@) {
            Some((v, rest)) => r == Some(v) && final(input)@ == rest,
            None => r is None,
        },
{
    if input.len() < 8 {
        return None;
    }
    let head = slice_subrange(*input, 0, 8);
    let v: u64 = vstd::bytes::u64_from_le_bytes(head);
    assert(head@ =~= input@.take(8));
    let tail = slice_subrange(*input, 8, input.len());
    assert(tail@ =~= input@.skip(8));
    *input = tail;
    Some(v)
}

/// A number reads back, whatever follows it.
pub proof fn numbers_read_back(v: u64, rest: Seq<u8>)
    ensures
        number_at(number(v) + rest) == Some((v, rest)),
{
    vstd::bytes::lemma_auto_spec_u64_to_from_le_bytes();
    assert(number(v).len() == 8);
    assert((number(v) + rest).take(8) =~= number(v));
    assert((number(v) + rest).skip(8) =~= rest);
}

// ---- byte strings ----
/// A byte string with its length in front.
pub open spec fn block(bytes: Seq<u8>) -> Seq<u8> {
    number(bytes.len() as u64) + bytes
}

/// The byte string at the front of `bytes`, and what follows.
pub open spec fn block_at(bytes: Seq<u8>) -> Option<(Seq<u8>, Seq<u8>)> {
    match number_at(bytes) {
        Some((n, rest)) => if n <= rest.len() {
            Some((rest.take(n as int), rest.skip(n as int)))
        } else {
            None
        },
        None => None,
    }
}

/// Appends a byte string with its length in front.
pub fn write_block(bytes: &Vec<u8>, out: &mut Vec<u8>)
    ensures
        final(out)@ == old(out)@ + block(bytes@),
{
    write_number(bytes.len() as u64, out);
    let mut copy: Vec<u8> = slice_to_vec(bytes.as_slice());
    out.append(&mut copy);
    assert(out@ =~= old(out)@ + block(bytes@));
}

/// Takes a byte string off the front of the input.
pub fn read_block(input: &mut &[u8]) -> (r: Option<Vec<u8>>)
    ensures
        match block_at(old(input)@) {
            Some((bytes, rest)) => r matches Some(b) && b@ == bytes && final(input)@ == rest,
            None => r is None,
        },
{
    let n: u64 = match read_number(input) {
        Some(n) => n,
        None => return None,
    };
    if n > input.len() as u64 {
        return None;
    }
    let n: usize = n as usize;
    let head = slice_subrange(*input, 0, n);
    assert(head@ =~= input@.take(n as int));
    let tail = slice_subrange(*input, n, input.len());
    assert(tail@ =~= input@.skip(n as int));
    *input = tail;
    Some(slice_to_vec(head))
}

/// A byte string reads back, whatever follows it.
pub proof fn blocks_read_back(bytes: Seq<u8>, rest: Seq<u8>)
    requires
        bytes.len() <= u64::MAX,
    ensures
        block_at(block(bytes) + rest) == Some((bytes, rest)),
{
    assert(block(bytes) + rest =~= number(bytes.len() as u64) + (bytes + rest));
    numbers_read_back(bytes.len() as u64, bytes + rest);
    assert((bytes + rest).take(bytes.len() as int) =~= bytes);
    assert((bytes + rest).skip(bytes.len() as int) =~= rest);
}

// ---- optional values ----
/// An optional number: 0, or 1 and the number.
pub open spec fn optional_number(v: Option<u64>) -> Seq<u8> {
    match v {
        Some(v) => number(1) + number(v),
        None => number(0),
    }
}

/// The optional number at the front of `bytes`, and what follows.
pub open spec fn optional_number_at(bytes: Seq<u8>) -> Option<(Option<u64>, Seq<u8>)> {
    match number_at(bytes) {
        Some((flag, rest)) => if flag == 0 {
            Some((None, rest))
        } else if flag == 1 {
            match number_at(rest) {
                Some((v, rest)) => Some((Some(v), rest)),
                None => None,
            }
        } else {
            None
        },
        None => None,
    }
}

/// Appends an optional number.
pub fn write_optional_number(v: Option<u64>, out: &mut Vec<u8>)
    ensures
        final(out)@ == old(out)@ + optional_number(v),
{
    match v {
        Some(v) => {
            write_number(1, out);
            write_number(v, out);
            assert(out@ =~= old(out)@ + (number(1) + number(v)));
        },
        None => write_number(0, out),
    }
}

/// Takes an optional number off the front of the input.
pub fn read_optional_number(input: &mut &[u8]) -> (r: Option<Option<u64>>)
    ensures
        match optional_number_at(old(input)@) {
            Some((v, rest)) => r == Some(v) && final(input)@ == rest,
            None => r is None,
        },
{
    match read_number(input) {
        Some(0) => Some(None),
        Some(1) => match read_number(input) {
            Some(v) => Some(Some(v)),
            None => None,
        },
        _ => None,
    }
}

/// An optional number reads back, whatever follows it.
pub proof fn optional_numbers_read_back(v: Option<u64>, rest: Seq<u8>)
    ensures
        optional_number_at(optional_number(v) + rest) == Some((v, rest)),
{
    match v {
        Some(v) => {
            assert(number(1) + number(v) + rest =~= number(1) + (number(v) + rest));
            numbers_read_back(1, number(v) + rest);
            numbers_read_back(v, rest);
        },
        None => numbers_read_back(0, rest),
    }
}

/// An optional byte string: 0, or 1 and the byte string.
pub open spec fn optional_block(b: Option<Seq<u8>>) -> Seq<u8> {
    match b {
        Some(b) => number(1) + block(b),
        None => number(0),
    }
}

/// The optional byte string at the front of `bytes`, and what follows.
pub open spec fn optional_block_at(bytes: Seq<u8>) -> Option<(Option<Seq<u8>>, Seq<u8>)> {
    match number_at(bytes) {
        Some((flag, rest)) => if flag == 0 {
            Some((None, rest))
        } else if flag == 1 {
            match block_at(rest) {
                Some((b, rest)) => Some((Some(b), rest)),
                None => None,
            }
        } else {
            None
        },
        None => None,
    }
}

/// Appends an optional byte string.
pub fn write_optional_block(b: &Option<Vec<u8>>, out: &mut Vec<u8>)
    ensures
        final(out)@ == old(out)@ + optional_block(crate::raft::types::bytes_view(*b)),
{
    match b {
        Some(b) => {
            write_number(1, out);
            write_block(b, out);
            assert(out@ =~= old(out)@ + (number(1) + block(b@)));
        },
        None => write_number(0, out),
    }
}

/// Takes an optional byte string off the front of the input.
pub fn read_optional_block(input: &mut &[u8]) -> (r: Option<Option<Vec<u8>>>)
    ensures
        match optional_block_at(old(input)@) {
            Some((b, rest)) => r matches Some(x) && crate::raft::types::bytes_view(x) == b
                && final(input)@ == rest,
            None => r is None,
        },
{
    match read_number(input) {
        Some(0) => Some(None),
        Some(1) => match read_block(input) {
            Some(b) => Some(Some(b)),
            None => None,
        },
        _ => None,
    }
}

/// An optional byte string reads back, whatever follows it.
pub proof fn optional_blocks_read_back(b: Option<Seq<u8>>, rest: Seq<u8>)
    requires
        b matches Some(b) ==> b.len() <= u64::MAX,
    ensures
        optional_block_at(optional_block(b) + rest) == Some((b, rest)),
{
    match b {
        Some(b) => {
            assert(number(1) + block(b) + rest =~= number(1) + (block(b) + rest));
            numbers_read_back(1, block(b) + rest);
            blocks_read_back(b, rest);
        },
        None => numbers_read_back(0, rest),
    }
}

// ---- lists ----
/// A value that can stand in a list.
pub trait Record: View + Sized {
    /// The value can be written: its lengths are representable.
    spec fn fits(v: Self::V) -> bool;

    /// The bytes of a value.
    spec fn bytes(v: Self::V) -> Seq<u8>;

    /// The value at the front of `bytes`, and what follows.
    spec fn at(bytes: Seq<u8>) -> Option<(Self::V, Seq<u8>)>;

    /// Appends the value.
    fn write(&self, out: &mut Vec<u8>)
        ensures
            final(out)@ == old(out)@ + Self::bytes(self@),
    ;

    /// Takes a value off the front of the input.
    fn read(input: &mut &[u8]) -> (r: Option<Self>)
        ensures
            match Self::at(old(input)@) {
                Some((v, rest)) => r matches Some(x) && x@ == v && final(input)@ == rest,
                None => r is None,
            },
    ;

    /// A value reads back, whatever follows it.
    proof fn reads_back(v: Self::V, rest: Seq<u8>)
        requires
            Self::fits(v),
        ensures
            Self::at(Self::bytes(v) + rest) == Some((v, rest)),
    ;
}

/// The values that a list of records stands for.
pub open spec fn views<T: Record>(items: Seq<T>) -> Seq<T::V> {
    Seq::new(items.len(), |i: int| items[i]@)
}

/// The bytes of a run of values.
pub open spec fn run<T: Record>(items: Seq<T::V>) -> Seq<u8>
    decreases items.len(),
{
    if items.len() == 0 {
        Seq::empty()
    } else {
        T::bytes(items[0]) + run::<T>(items.skip(1))
    }
}

/// The `n` values at the front of `bytes`, and what follows.
pub open spec fn run_at<T: Record>(n: nat, bytes: Seq<u8>) -> Option<(Seq<T::V>, Seq<u8>)>
    decreases n,
{
    if n == 0 {
        Some((Seq::empty(), bytes))
    } else {
        match T::at(bytes) {
            Some((v, rest)) => match run_at::<T>((n - 1) as nat, rest) {
                Some((more, rest)) => Some((seq![v] + more, rest)),
                None => None,
            },
            None => None,
        }
    }
}

/// A list: its length, then its values.
pub open spec fn list<T: Record>(items: Seq<T::V>) -> Seq<u8> {
    number(items.len() as u64) + run::<T>(items)
}

/// The list at the front of `bytes`, and what follows.
pub open spec fn list_at<T: Record>(bytes: Seq<u8>) -> Option<(Seq<T::V>, Seq<u8>)> {
    match number_at(bytes) {
        Some((n, rest)) => run_at::<T>(n as nat, rest),
        None => None,
    }
}

/// Appends a list.
pub fn write_list<T: Record>(items: &[T], out: &mut Vec<u8>)
    ensures
        final(out)@ == old(out)@ + list::<T>(views(items@)),
{
    let ghost all = views(items@);
    write_number(items.len() as u64, out);
    let ghost base = out@;
    let mut i: usize = 0;
    assert(all.skip(0) =~= all);
    while i < items.len()
        invariant
            i <= items.len(),
            all == views(items@),
            out@ + run::<T>(all.skip(i as int)) == base + run::<T>(all),
        decreases items.len() - i,
    {
        let ghost before = out@;
        items[i].write(out);
        assert(all.skip(i as int).skip(1) =~= all.skip(i + 1));
        assert(out@ + run::<T>(all.skip(i + 1)) =~= before + run::<T>(all.skip(i as int)));
        i += 1;
    }
    assert(out@ =~= out@ + run::<T>(all.skip(i as int)));
    assert(base + run::<T>(all) =~= old(out)@ + list::<T>(all));
}

/// Takes a list off the front of the input.
pub fn read_list<T: Record>(input: &mut &[u8]) -> (r: Option<Vec<T>>)
    ensures
        match list_at::<T>(old(input)@) {
            Some((items, rest)) => r matches Some(v) && views(v@) == items && final(input)@ == rest,
            None => r is None,
        },
{
    let n: u64 = match read_number(input) {
        Some(n) => n,
        None => return None,
    };
    let ghost start = input@;
    let mut items: Vec<T> = Vec::new();
    let mut i: u64 = 0;
    assert(match run_at::<T>(n as nat, start) {
        Some((more, rest)) => views(items@) + more =~= more,
        None => true,
    });
    while i < n
        invariant
            i <= n,
            number_at(old(input)@) == Some((n, start)),
            match run_at::<T>((n - i) as nat, input@) {
                Some((more, rest)) => run_at::<T>(n as nat, start) == Some(
                    (views(items@) + more, rest),
                ),
                None => run_at::<T>(n as nat, start) is None,
            },
        decreases n - i,
    {
        let ghost before = views(items@);
        match T::read(input) {
            Some(item) => {
                items.push(item);
                assert(views(items@) =~= before.push(item@));
            },
            None => return None,
        }
        i += 1;
        assert(match run_at::<T>((n - i) as nat, input@) {
            Some((more, rest)) => before + (seq![items@.last()@] + more) =~= views(items@) + more,
            None => true,
        });
    }
    assert(views(items@) + Seq::<T::V>::empty() =~= views(items@));
    Some(items)
}

proof fn lemma_run<T: Record>(items: Seq<T::V>, rest: Seq<u8>)
    requires
        forall|i: int| 0 <= i < items.len() ==> T::fits(#[trigger] items[i]),
    ensures
        run_at::<T>(items.len(), run::<T>(items) + rest) == Some((items, rest)),
    decreases items.len(),
{
    if items.len() == 0 {
        assert(run::<T>(items) + rest =~= rest);
    } else {
        let more = items.skip(1);
        assert forall|i: int| 0 <= i < more.len() implies T::fits(#[trigger] more[i]) by {
            assert(more[i] == items[i + 1]);
        }
        lemma_run::<T>(more, rest);
        assert(T::fits(items[0]));
        T::reads_back(items[0], run::<T>(more) + rest);
        assert(run::<T>(items) + rest =~= T::bytes(items[0]) + (run::<T>(more) + rest));
        assert(seq![items[0]] + more =~= items);
    }
}

/// A list reads back, whatever follows it.
pub proof fn lists_read_back<T: Record>(items: Seq<T::V>, rest: Seq<u8>)
    requires
        items.len() <= u64::MAX,
        forall|i: int| 0 <= i < items.len() ==> T::fits(#[trigger] items[i]),
    ensures
        list_at::<T>(list::<T>(items) + rest) == Some((items, rest)),
{
    assert(list::<T>(items) + rest =~= number(items.len() as u64) + (run::<T>(items) + rest));
    numbers_read_back(items.len() as u64, run::<T>(items) + rest);
    lemma_run::<T>(items, rest);
}

} // verus!
