//! Decoding: the grammar, read from left to right over a cursor.

use vstd::prelude::*;
use vstd::slice::{slice_subrange, slice_to_vec};
use crate::decimal::{decimal_value, digits_end, is_digit, lemma_digits_end, scan_digits};
use crate::error::Error;
use crate::order::bytes_equal;
use crate::token::{
    COLON, DICTIONARY_START, DIGIT_NINE, DIGIT_ZERO, END, INTEGER_START, LIST_START, MINUS,
};
use crate::value::{
    bind, entries_model, entries_well_formed, items_model, items_well_formed,
    lemma_entries_model, lemma_key_index, Bencode, Value,
};

verus! {

/// What reading one construct at an offset of the input gives.
pub enum Parsed<T> {
    /// What was read, and the offset behind it.
    Done(T, int),
    /// The input departs from the grammar at this offset.
    Malformed(int),
    /// The input ends before the construct closes.
    Truncated,
}

/// The greatest magnitude of a negative integer.
pub const MAGNITUDE_BELOW_ZERO: u64 = 0x8000_0000_0000_0000;

/// The greatest magnitude of an integer that is not negative.
pub const MAGNITUDE_ABOVE_ZERO: u64 = 0x7fff_ffff_ffff_ffff;

/// The byte string that stands at `pos`: `<length>:<bytes>`, the length in
/// decimal without leading zeros.
///
/// The input is malformed at the first byte that is neither a digit nor the
/// colon, or at `pos` where the length has a leading zero or no digit at all.
/// It is truncated where it ends within the length, or holds fewer bytes
/// behind the colon than the length says.
pub open spec fn byte_string_at(bytes: Seq<u8>, pos: int) -> Parsed<Seq<u8>> {
    let end = digits_end(bytes, pos);
    let length = decimal_value(bytes.subrange(pos, end));
    if end >= bytes.len() {
        Parsed::Truncated
    } else if bytes[end] != COLON {
        Parsed::Malformed(end)
    } else if end == pos {
        Parsed::Malformed(pos)
    } else if bytes[pos] == DIGIT_ZERO && end - pos > 1 {
        Parsed::Malformed(pos)
    } else if end + 1 + length > bytes.len() {
        Parsed::Truncated
    } else {
        Parsed::Done(bytes.subrange(end + 1, end + 1 + length), end + 1 + length)
    }
}

/// The integer that stands at `pos`, where the input holds `i`:
/// `i<optional '-'><digits>e`, without leading zeros and without `-0`.
///
/// The input is malformed at the first byte behind the sign that is neither
/// a digit nor `e`, at the `e` where no digit stands before it, and at the
/// first digit where the digits have a leading zero, are `-0`, or denote a
/// number outside the signed 64-bit range. It is truncated where it ends
/// before the `e`.
pub open spec fn integer_at(bytes: Seq<u8>, pos: int) -> Parsed<i64> {
    let negative = pos + 1 < bytes.len() && bytes[pos + 1] == MINUS;
    let start = if negative { pos + 2 } else { pos + 1 };
    let end = digits_end(bytes, start);
    let magnitude = decimal_value(bytes.subrange(start, end));
    if end >= bytes.len() {
        Parsed::Truncated
    } else if bytes[end] != END {
        Parsed::Malformed(end)
    } else if end == start {
        Parsed::Malformed(end)
    } else if bytes[start] == DIGIT_ZERO && (negative || end - start > 1) {
        Parsed::Malformed(start)
    } else if negative && magnitude > MAGNITUDE_BELOW_ZERO {
        Parsed::Malformed(start)
    } else if !negative && magnitude > MAGNITUDE_ABOVE_ZERO {
        Parsed::Malformed(start)
    } else if negative {
        Parsed::Done((-magnitude) as i64, end + 1)
    } else {
        Parsed::Done(magnitude as i64, end + 1)
    }
}

/// The value that stands at `pos`.
///
/// The first byte decides the kind: `i` an integer, a digit a byte string,
/// `l` a list, `d` a dictionary; at any other byte the input is malformed,
/// and where it ends at `pos` it is truncated.
pub open spec fn value_at(bytes: Seq<u8>, pos: int) -> Parsed<Bencode>
    decreases bytes.len() - pos, 0int,
{
    if pos < 0 || pos >= bytes.len() {
        Parsed::Truncated
    } else if bytes[pos] == INTEGER_START {
        match integer_at(bytes, pos) {
            Parsed::Done(i, next) => Parsed::Done(Bencode::Int(i), next),
            Parsed::Malformed(at) => Parsed::Malformed(at),
            Parsed::Truncated => Parsed::Truncated,
        }
    } else if is_digit(bytes[pos]) {
        match byte_string_at(bytes, pos) {
            Parsed::Done(b, next) => Parsed::Done(Bencode::Bytes(b), next),
            Parsed::Malformed(at) => Parsed::Malformed(at),
            Parsed::Truncated => Parsed::Truncated,
        }
    } else if bytes[pos] == LIST_START {
        match items_from(bytes, pos + 1, Seq::empty()) {
            Parsed::Done(items, next) => Parsed::Done(Bencode::List(items), next),
            Parsed::Malformed(at) => Parsed::Malformed(at),
            Parsed::Truncated => Parsed::Truncated,
        }
    } else if bytes[pos] == DICTIONARY_START {
        match entries_from(bytes, pos + 1, Seq::empty()) {
            Parsed::Done(entries, next) => Parsed::Done(Bencode::Dict(entries), next),
            Parsed::Malformed(at) => Parsed::Malformed(at),
            Parsed::Truncated => Parsed::Truncated,
        }
    } else {
        Parsed::Malformed(pos)
    }
}

/// The items of a list from `pos` up to the closing `e`, added to the items
/// `read` that stand before `pos`.
///
/// The test that an item ends behind its start and within the input only
/// lets the definition terminate: a value takes at least one byte
/// (`lemma_value_at`), so the test never decides.
pub open spec fn items_from(bytes: Seq<u8>, pos: int, read: Seq<Bencode>) -> Parsed<Seq<Bencode>>
    decreases bytes.len() - pos, 1int,
{
    if pos < 0 || pos >= bytes.len() {
        Parsed::Truncated
    } else if bytes[pos] == END {
        Parsed::Done(read, pos + 1)
    } else {
        match value_at(bytes, pos) {
            Parsed::Done(item, next) => if !(pos < next <= bytes.len()) {
                Parsed::Malformed(pos)
            } else {
                items_from(bytes, next, read.push(item))
            },
            Parsed::Malformed(at) => Parsed::Malformed(at),
            Parsed::Truncated => Parsed::Truncated,
        }
    }
}

/// The entries of a dictionary from `pos` up to the closing `e`, bound one
/// after the other into the entries `read` that stand before `pos`: a key
/// that occurs again takes the later value. Every key is a byte string.
///
/// The tests that a key and a value end behind their start and within the
/// input only let the definition terminate and never decide
/// (`lemma_byte_string_at`, `lemma_value_at`).
pub open spec fn entries_from(bytes: Seq<u8>, pos: int, read: Seq<(Seq<u8>, Bencode)>) -> Parsed<
    Seq<(Seq<u8>, Bencode)>,
>
    decreases bytes.len() - pos, 1int,
{
    if pos < 0 || pos >= bytes.len() {
        Parsed::Truncated
    } else if bytes[pos] == END {
        Parsed::Done(read, pos + 1)
    } else {
        match byte_string_at(bytes, pos) {
            Parsed::Done(key, at) => if !(pos < at <= bytes.len()) {
                Parsed::Malformed(pos)
            } else {
                match value_at(bytes, at) {
                    Parsed::Done(value, next) => if !(at < next <= bytes.len()) {
                        Parsed::Malformed(at)
                    } else {
                        entries_from(bytes, next, bind(read, key, value))
                    },
                    Parsed::Malformed(at) => Parsed::Malformed(at),
                    Parsed::Truncated => Parsed::Truncated,
                }
            },
            Parsed::Malformed(at) => Parsed::Malformed(at),
            Parsed::Truncated => Parsed::Truncated,
        }
    }
}

/// What decoding the whole input gives: the value that stands at its start,
/// if the input ends behind it. Bytes behind the value are malformed input.
pub open spec fn decoding(bytes: Seq<u8>) -> Result<Bencode, Error> {
    match value_at(bytes, 0) {
        Parsed::Done(v, next) => if next == bytes.len() {
            Ok(v)
        } else {
            Err(Error::MalformedInput(next as usize))
        },
        Parsed::Malformed(at) => Err(Error::MalformedInput(at as usize)),
        Parsed::Truncated => Err(Error::TruncatedInput),
    }
}

/// A byte string ends behind its start and within the input.
pub proof fn lemma_byte_string_at(bytes: Seq<u8>, pos: int)
    requires
        0 <= pos <= bytes.len(),
    ensures
        byte_string_at(bytes, pos) matches Parsed::Done(_, next) ==> pos < next <= bytes.len(),
        byte_string_at(bytes, pos) matches Parsed::Malformed(at) ==> pos <= at < bytes.len(),
{
    lemma_digits_end(bytes, pos);
}

/// An integer ends behind its start and within the input.
pub proof fn lemma_integer_at(bytes: Seq<u8>, pos: int)
    requires
        0 <= pos < bytes.len(),
    ensures
        integer_at(bytes, pos) matches Parsed::Done(_, next) ==> pos < next <= bytes.len(),
        integer_at(bytes, pos) matches Parsed::Malformed(at) ==> pos <= at < bytes.len(),
{
    let negative = pos + 1 < bytes.len() && bytes[pos + 1] == MINUS;
    let start = if negative { pos + 2 } else { pos + 1 };
    lemma_digits_end(bytes, start);
}

/// A value that was read ends behind its start and within the input, and is
/// well formed; an offset at which the input is malformed lies within it.
pub proof fn lemma_value_at(bytes: Seq<u8>, pos: int)
    requires
        0 <= pos,
    ensures
        value_at(bytes, pos) matches Parsed::Done(v, next) ==> pos < next <= bytes.len()
            && v.well_formed(),
        value_at(bytes, pos) matches Parsed::Malformed(at) ==> pos <= at < bytes.len(),
    decreases bytes.len() - pos, 0int,
{
    if pos < bytes.len() {
        if bytes[pos] == INTEGER_START {
            lemma_integer_at(bytes, pos);
        } else if is_digit(bytes[pos]) {
            lemma_byte_string_at(bytes, pos);
        } else if bytes[pos] == LIST_START {
            lemma_items_from(bytes, pos + 1, Seq::empty());
        } else if bytes[pos] == DICTIONARY_START {
            lemma_entries_from(bytes, pos + 1, Seq::empty());
        }
    }
}

/// The items of a list that was read are well formed, and the list ends
/// within the input.
pub proof fn lemma_items_from(bytes: Seq<u8>, pos: int, read: Seq<Bencode>)
    requires
        0 <= pos,
        items_well_formed(read),
    ensures
        items_from(bytes, pos, read) matches Parsed::Done(items, next) ==> pos < next
            <= bytes.len() && items_well_formed(items),
        items_from(bytes, pos, read) matches Parsed::Malformed(at) ==> pos <= at < bytes.len(),
    decreases bytes.len() - pos, 1int,
{
    if pos < bytes.len() && bytes[pos] != END {
        lemma_value_at(bytes, pos);
        match value_at(bytes, pos) {
            Parsed::Done(item, next) => {
                let longer = read.push(item);
                lemma_items_from(bytes, next, longer);
            },
            _ => {},
        }
    }
}

/// The entries of a dictionary that was read have unique keys and
/// well-formed values, and the dictionary ends within the input.
pub proof fn lemma_entries_from(bytes: Seq<u8>, pos: int, read: Seq<(Seq<u8>, Bencode)>)
    requires
        0 <= pos,
        entries_well_formed(read),
    ensures
        entries_from(bytes, pos, read) matches Parsed::Done(entries, next) ==> pos < next
            <= bytes.len() && entries_well_formed(entries),
        entries_from(bytes, pos, read) matches Parsed::Malformed(at) ==> pos <= at < bytes.len(),
    decreases bytes.len() - pos, 1int,
{
    if pos < bytes.len() && bytes[pos] != END {
        lemma_byte_string_at(bytes, pos);
        match byte_string_at(bytes, pos) {
            Parsed::Done(key, at) => {
                lemma_value_at(bytes, at);
                match value_at(bytes, at) {
                    Parsed::Done(value, next) => {
                        lemma_entries_from(bytes, next, bind(read, key, value));
                    },
                    _ => {},
                }
            },
            _ => {},
        }
    }
}

/// What decoding gives is well formed: no dictionary holds a key twice. An
/// offset at which it finds the input malformed lies within the input.
pub proof fn law_decoding_well_formed(bytes: Seq<u8>)
    ensures
        decoding(bytes) matches Ok(v) ==> v.well_formed(),
        decoding(bytes) matches Err(Error::MalformedInput(at)) ==> at < bytes.len(),
        decoding(bytes) matches Err(e) ==> e is MalformedInput || e is TruncatedInput,
{
    lemma_value_at(bytes, 0);
}

/// The failure of the grammar that an error of the decoder stands for.
pub open spec fn failure<T>(e: Error) -> Parsed<T> {
    match e {
        Error::MalformedInput(at) => Parsed::Malformed(at as int),
        _ => Parsed::Truncated,
    }
}

/// The two errors with which decoding fails.
pub open spec fn is_decoding_error(e: Error) -> bool {
    e is MalformedInput || e is TruncatedInput
}

/// Reads the byte string that stands at `pos`, and returns it with the
/// offset behind it.
pub fn decode_byte_string(bytes: &[u8], pos: usize) -> (r: Result<(Vec<u8>, usize), Error>)
    ensures
        match r {
            Ok((b, next)) => byte_string_at(bytes@, pos as int) == Parsed::Done(b@, next as int),
            Err(e) => is_decoding_error(e) && byte_string_at(bytes@, pos as int) == failure::<
                Seq<u8>,
            >(e),
        },
{
    if pos >= bytes.len() {
        return Err(Error::TruncatedInput);
    }
    let (end, length) = scan_digits(bytes, pos, bytes.len() as u64);
    if end >= bytes.len() {
        return Err(Error::TruncatedInput);
    }
    if bytes[end] != COLON {
        return Err(Error::MalformedInput(end));
    }
    if end == pos {
        return Err(Error::MalformedInput(pos));
    }
    if bytes[pos] == DIGIT_ZERO && end - pos > 1 {
        return Err(Error::MalformedInput(pos));
    }
    match length {
        None => Err(Error::TruncatedInput),
        Some(n) => {
            let length: usize = n as usize;
            if length > bytes.len() - (end + 1) {
                Err(Error::TruncatedInput)
            } else {
                let b = slice_to_vec(slice_subrange(bytes, end + 1, end + 1 + length));
                Ok((b, end + 1 + length))
            }
        },
    }
}

/// Reads the integer that stands at `pos`, where the input holds `i`, and
/// returns it with the offset behind it.
pub fn decode_integer(bytes: &[u8], pos: usize) -> (r: Result<(i64, usize), Error>)
    ensures
        match r {
            Ok((i, next)) => integer_at(bytes@, pos as int) == Parsed::Done(i, next as int),
            Err(e) => is_decoding_error(e) && integer_at(bytes@, pos as int) == failure::<i64>(e),
        },
{
    if pos >= bytes.len() {
        return Err(Error::TruncatedInput);
    }
    let negative = pos + 1 < bytes.len() && bytes[pos + 1] == MINUS;
    let start: usize = if negative { pos + 2 } else { pos + 1 };
    let limit: u64 = if negative { MAGNITUDE_BELOW_ZERO } else { MAGNITUDE_ABOVE_ZERO };
    let (end, magnitude) = scan_digits(bytes, start, limit);
    if end >= bytes.len() {
        return Err(Error::TruncatedInput);
    }
    if bytes[end] != END {
        return Err(Error::MalformedInput(end));
    }
    if end == start {
        return Err(Error::MalformedInput(end));
    }
    if bytes[start] == DIGIT_ZERO && (negative || end - start > 1) {
        return Err(Error::MalformedInput(start));
    }
    match magnitude {
        None => Err(Error::MalformedInput(start)),
        Some(m) => {
            let value: i64 = if negative { (-(m as i128)) as i64 } else { m as i64 };
            Ok((value, end + 1))
        },
    }
}

/// Binds the key to the value: an entry that has the key keeps its place and
/// takes the value, otherwise a new entry is added at the end.
pub fn bind_entry(entries: &mut Vec<(Vec<u8>, Value)>, key: Vec<u8>, value: Value)
    ensures
        entries_model(final(entries)@) == bind(entries_model(old(entries)@), key@, value@),
        entries_well_formed(entries_model(old(entries)@)) && value@.well_formed()
            ==> entries_well_formed(entries_model(final(entries)@)),
{
    let ghost before = entries_model(entries@);
    proof {
        lemma_entries_model(entries@);
    }
    let mut i: usize = 0;
    while i < entries.len()
        invariant
            i <= entries.len(),
            entries@ == old(entries)@,
            before == entries_model(entries@),
            before.len() == entries@.len(),
            forall|j: int| 0 <= j < entries@.len() ==> #[trigger] before[j] == (
                entries@[j].0@,
                entries@[j].1@,
            ),
            forall|j: int| 0 <= j < i ==> (#[trigger] before[j]).0 != key@,
        decreases entries.len() - i,
    {
        if bytes_equal(entries[i].0.as_slice(), key.as_slice()) {
            proof {
                lemma_key_index(before, key@, i as int);
            }
            entries.set(i, (key, value));
            proof {
                lemma_entries_model(entries@);
            }
            return ;
        }
        i += 1;
    }
    entries.push((key, value));
    proof {
        lemma_entries_model(entries@);
        assert(entries_model(entries@) =~= before.push((key@, value@)));
    }
}

/// Reads the value that stands at `pos`, and returns it with the offset
/// behind it.
pub fn decode_value(bytes: &[u8], pos: usize) -> (r: Result<(Value, usize), Error>)
    ensures
        match r {
            Ok((v, next)) => value_at(bytes@, pos as int) == Parsed::Done(v@, next as int),
            Err(e) => is_decoding_error(e) && value_at(bytes@, pos as int) == failure::<Bencode>(e),
        },
    decreases bytes.len() - pos,
{
    if pos >= bytes.len() {
        return Err(Error::TruncatedInput);
    }
    let first = bytes[pos];
    if first == INTEGER_START {
        match decode_integer(bytes, pos) {
            Ok((i, next)) => Ok((Value::Integer(i), next)),
            Err(e) => Err(e),
        }
    } else if DIGIT_ZERO <= first && first <= DIGIT_NINE {
        match decode_byte_string(bytes, pos) {
            Ok((b, next)) => Ok((Value::ByteString(b), next)),
            Err(e) => Err(e),
        }
    } else if first == LIST_START {
        let mut items: Vec<Value> = Vec::new();
        let mut cur: usize = pos + 1;
        loop
            invariant
                pos < cur <= bytes.len(),
                bytes@[pos as int] == LIST_START,
                items_from(bytes@, pos + 1, Seq::empty()) == items_from(
                    bytes@,
                    cur as int,
                    items_model(items@),
                ),
            decreases bytes.len() - cur,
        {
            if cur >= bytes.len() {
                return Err(Error::TruncatedInput);
            }
            if bytes[cur] == END {
                return Ok((Value::List(items), cur + 1));
            }
            match decode_value(bytes, cur) {
                Err(e) => {
                    return Err(e);
                },
                Ok((item, next)) => {
                    proof {
                        lemma_value_at(bytes@, cur as int);
                        assert(items@.push(item).drop_last() =~= items@);
                    }
                    items.push(item);
                    cur = next;
                },
            }
        }
    } else if first == DICTIONARY_START {
        let mut entries: Vec<(Vec<u8>, Value)> = Vec::new();
        let mut cur: usize = pos + 1;
        loop
            invariant
                pos < cur <= bytes.len(),
                bytes@[pos as int] == DICTIONARY_START,
                entries_from(bytes@, pos + 1, Seq::empty()) == entries_from(
                    bytes@,
                    cur as int,
                    entries_model(entries@),
                ),
            decreases bytes.len() - cur,
        {
            if cur >= bytes.len() {
                return Err(Error::TruncatedInput);
            }
            if bytes[cur] == END {
                return Ok((Value::Dictionary(entries), cur + 1));
            }
            let (key, at) = match decode_byte_string(bytes, cur) {
                Err(e) => {
                    return Err(e);
                },
                Ok(read) => read,
            };
            proof {
                lemma_byte_string_at(bytes@, cur as int);
            }
            match decode_value(bytes, at) {
                Err(e) => {
                    return Err(e);
                },
                Ok((value, next)) => {
                    proof {
                        lemma_value_at(bytes@, at as int);
                    }
                    bind_entry(&mut entries, key, value);
                    cur = next;
                },
            }
        }
    } else {
        Err(Error::MalformedInput(pos))
    }
}

/// Decodes the whole input as one value.
///
/// Fails with `MalformedInput` and the offset of the offending byte where
/// the input departs from the grammar, bytes behind the value included, and
/// with `TruncatedInput` where it ends before a construct closes.
pub fn decode(bytes: &[u8]) -> (r: Result<Value, Error>)
    ensures
        match r {
            Ok(v) => decoding(bytes@) == Ok::<Bencode, Error>(v@) && v@.well_formed(),
            Err(e) => decoding(bytes@) == Err::<Bencode, Error>(e),
        },
{
    proof {
        lemma_value_at(bytes@, 0);
    }
    match decode_value(bytes, 0) {
        Ok((v, next)) => {
            if next == bytes.len() {
                Ok(v)
            } else {
                Err(Error::MalformedInput(next))
            }
        },
        Err(e) => Err(e),
    }
}

} // verus!
