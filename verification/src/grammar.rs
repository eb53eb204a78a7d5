//! The grammar, stated by what it writes for a value, and that decoding
//! accepts exactly what the grammar writes.

use vstd::prelude::*;
use crate::decimal::{
    decimal_digits, digits_end, is_digit, lemma_decimal_digits, lemma_digits_end,
    lemma_digits_end_is, lemma_digits_of_value,
};
use crate::decode::{
    byte_string_at, decoding, entries_from, integer_at, items_from, value_at, Parsed,
};
use crate::encode::{byte_string_encoding, integer_encoding};
use crate::error::Error;
use crate::token::{COLON, DICTIONARY_START, END, INTEGER_START, LIST_START, MINUS};
use crate::value::{bind, Bencode};

verus! {

/// What the grammar writes for a value: a byte string as `<length>:<bytes>`,
/// an integer as `i<decimal>e`, a list as `l<items>e`, and a dictionary as
/// `d<keys and values>e`, with the entries in the order in which they stand.
pub open spec fn plain_encoding(v: Bencode) -> Seq<u8>
    decreases v,
{
    match v {
        Bencode::Bytes(bytes) => byte_string_encoding(bytes),
        Bencode::Int(i) => integer_encoding(i),
        Bencode::List(items) => seq![LIST_START] + plain_items_encoding(items) + seq![END],
        Bencode::Dict(entries) => seq![DICTIONARY_START] + plain_entries_encoding(entries)
            + seq![END],
    }
}

/// What the grammar writes for items: each of them, one after the other.
pub open spec fn plain_items_encoding(items: Seq<Bencode>) -> Seq<u8>
    decreases items,
{
    if items.len() == 0 {
        Seq::empty()
    } else {
        plain_encoding(items[0]) + plain_items_encoding(items.skip(1))
    }
}

/// What the grammar writes for entries: each key as a byte string with its
/// value behind it, one entry after the other.
pub open spec fn plain_entries_encoding(entries: Seq<(Seq<u8>, Bencode)>) -> Seq<u8>
    decreases entries,
{
    if entries.len() == 0 {
        Seq::empty()
    } else {
        byte_string_encoding(entries[0].0) + plain_encoding(entries[0].1)
            + plain_entries_encoding(entries.skip(1))
    }
}

/// The value with every key bound once: where entries of a dictionary stand
/// under the same key, the first keeps its place and the last gives the
/// value.
pub open spec fn merged(v: Bencode) -> Bencode
    decreases v,
{
    match v {
        Bencode::Bytes(_) => v,
        Bencode::Int(_) => v,
        Bencode::List(items) => Bencode::List(merged_items(items)),
        Bencode::Dict(entries) => Bencode::Dict(merged_onto(Seq::empty(), entries)),
    }
}

/// The items, each with every key bound once.
pub open spec fn merged_items(items: Seq<Bencode>) -> Seq<Bencode>
    decreases items,
{
    if items.len() == 0 {
        Seq::empty()
    } else {
        seq![merged(items[0])] + merged_items(items.skip(1))
    }
}

/// The entries `read` after each of `entries` in turn is bound into them.
pub open spec fn merged_onto(
    read: Seq<(Seq<u8>, Bencode)>,
    entries: Seq<(Seq<u8>, Bencode)>,
) -> Seq<(Seq<u8>, Bencode)>
    decreases entries,
{
    if entries.len() == 0 {
        read
    } else {
        merged_onto(bind(read, entries[0].0, merged(entries[0].1)), entries.skip(1))
    }
}

/// The input holds the bytes of `part` from `pos` on.
pub open spec fn holds_at(bytes: Seq<u8>, pos: int, part: Seq<u8>) -> bool {
    &&& 0 <= pos
    &&& pos + part.len() <= bytes.len()
    &&& forall|i: int| 0 <= i < part.len() ==> bytes[pos + i] == #[trigger] part[i]
}

/// An input that holds two parts in a row holds each of them.
pub proof fn lemma_holds_split(bytes: Seq<u8>, pos: int, first: Seq<u8>, second: Seq<u8>)
    requires
        holds_at(bytes, pos, first + second),
    ensures
        holds_at(bytes, pos, first),
        holds_at(bytes, pos + first.len(), second),
{
    let both = first + second;
    assert forall|i: int| 0 <= i < first.len() implies bytes[pos + i] == #[trigger] first[i] by {
        assert(both[i] == first[i]);
    }
    assert forall|i: int| 0 <= i < second.len() implies bytes[pos + first.len() + i]
        == #[trigger] second[i] by {
        assert(both[first.len() + i] == second[i]);
    }
}

/// The encoding of a byte string is read back as the byte string.
pub proof fn lemma_byte_string_round_trip(bytes: Seq<u8>, pos: int, s: Seq<u8>)
    requires
        holds_at(bytes, pos, byte_string_encoding(s)),
    ensures
        byte_string_at(bytes, pos) == Parsed::Done(s, pos + byte_string_encoding(s).len()),
        is_digit(bytes[pos]),
{
    let digits = decimal_digits(s.len());
    let written = byte_string_encoding(s);
    lemma_decimal_digits(s.len());
    let end = pos + digits.len();
    assert forall|i: int| pos <= i < end implies is_digit(#[trigger] bytes[i]) by {
        assert(written[i - pos] == digits[i - pos]);
    }
    assert(written[digits.len() as int] == COLON);
    lemma_digits_end_is(bytes, pos, end);
    assert(bytes.subrange(pos, end) =~= digits) by {
        assert forall|i: int| 0 <= i < digits.len() implies bytes.subrange(pos, end)[i]
            == digits[i] by {
            assert(written[i] == digits[i]);
        }
    }
    assert(bytes.subrange(end + 1, end + 1 + s.len()) =~= s) by {
        assert forall|i: int| 0 <= i < s.len() implies bytes.subrange(end + 1, end + 1 + s.len())[i]
            == s[i] by {
            assert(written[digits.len() + 1 + i] == s[i]);
        }
    }
}

/// The encoding of an integer is read back as the integer.
pub proof fn lemma_integer_round_trip(bytes: Seq<u8>, pos: int, i: i64)
    requires
        holds_at(bytes, pos, integer_encoding(i)),
    ensures
        integer_at(bytes, pos) == Parsed::Done(i, pos + integer_encoding(i).len()),
        bytes[pos] == INTEGER_START,
{
    let written = integer_encoding(i);
    let magnitude: nat = if i < 0 { (-i) as nat } else { i as nat };
    let digits = decimal_digits(magnitude);
    lemma_decimal_digits(magnitude);
    let lead: int = if i < 0 { 2 } else { 1 };
    let start = pos + lead;
    let end = start + digits.len();
    assert(written[0] == INTEGER_START);
    if i < 0 {
        assert(written[1] == MINUS);
    }
    assert forall|k: int| start <= k < end implies is_digit(#[trigger] bytes[k]) by {
        assert(written[k - pos] == digits[k - start]);
    }
    assert(written[lead + digits.len()] == END);
    lemma_digits_end_is(bytes, start, end);
    assert(bytes.subrange(start, end) =~= digits) by {
        assert forall|k: int| 0 <= k < digits.len() implies bytes.subrange(start, end)[k]
            == digits[k] by {
            assert(written[lead + k] == digits[k]);
        }
    }
}

/// What the grammar writes is never empty and never starts with the closing
/// `e`.
pub proof fn lemma_plain_encoding_starts(v: Bencode)
    ensures
        plain_encoding(v).len() > 0,
        plain_encoding(v)[0] != END,
{
    match v {
        Bencode::Bytes(b) => {
            lemma_decimal_digits(b.len());
        },
        _ => {},
    }
}

/// Wherever an input holds what the grammar writes for a value, that value
/// stands there with every key bound once, and ends where the writing ends.
pub proof fn lemma_reads_value(bytes: Seq<u8>, pos: int, v: Bencode)
    requires
        holds_at(bytes, pos, plain_encoding(v)),
    ensures
        value_at(bytes, pos) == Parsed::Done(merged(v), pos + plain_encoding(v).len()),
    decreases v,
{
    lemma_plain_encoding_starts(v);
    let written = plain_encoding(v);
    match v {
        Bencode::Bytes(b) => {
            lemma_byte_string_round_trip(bytes, pos, b);
        },
        Bencode::Int(i) => {
            lemma_integer_round_trip(bytes, pos, i);
        },
        Bencode::List(items) => {
            let inner = plain_items_encoding(items) + seq![END];
            assert(written =~= seq![LIST_START] + inner);
            lemma_holds_split(bytes, pos, seq![LIST_START], inner);
            lemma_reads_items(bytes, pos + 1, items, Seq::empty());
        },
        Bencode::Dict(entries) => {
            let inner = plain_entries_encoding(entries) + seq![END];
            assert(written =~= seq![DICTIONARY_START] + inner);
            lemma_holds_split(bytes, pos, seq![DICTIONARY_START], inner);
            lemma_reads_entries(bytes, pos + 1, entries, Seq::empty());
        },
    }
}

/// Wherever an input holds what the grammar writes for items and the closing
/// `e` behind it, the items from there on are those, each with every key
/// bound once, added to the ones read before.
pub proof fn lemma_reads_items(bytes: Seq<u8>, pos: int, items: Seq<Bencode>, read: Seq<Bencode>)
    requires
        holds_at(bytes, pos, plain_items_encoding(items) + seq![END]),
    ensures
        items_from(bytes, pos, read) == Parsed::Done(
            read + merged_items(items),
            pos + plain_items_encoding(items).len() + 1,
        ),
    decreases items,
{
    let written = plain_items_encoding(items) + seq![END];
    if items.len() == 0 {
        assert(written[0] == END);
    } else {
        let first = items[0];
        let rest = items.skip(1);
        let tail = plain_items_encoding(rest) + seq![END];
        assert(written =~= plain_encoding(first) + tail);
        lemma_holds_split(bytes, pos, plain_encoding(first), tail);
        lemma_reads_value(bytes, pos, first);
        lemma_reads_items(bytes, pos + plain_encoding(first).len(), rest, read.push(merged(first)));
        assert(read.push(merged(first)) + merged_items(rest) =~= read + merged_items(items));
    }
}

/// Wherever an input holds what the grammar writes for entries and the
/// closing `e` behind it, the entries from there on are those, bound in turn
/// into the ones read before.
pub proof fn lemma_reads_entries(
    bytes: Seq<u8>,
    pos: int,
    entries: Seq<(Seq<u8>, Bencode)>,
    read: Seq<(Seq<u8>, Bencode)>,
)
    requires
        holds_at(bytes, pos, plain_entries_encoding(entries) + seq![END]),
    ensures
        entries_from(bytes, pos, read) == Parsed::Done(
            merged_onto(read, entries),
            pos + plain_entries_encoding(entries).len() + 1,
        ),
    decreases entries,
{
    let written = plain_entries_encoding(entries) + seq![END];
    if entries.len() == 0 {
        assert(written[0] == END);
    } else {
        let key = entries[0].0;
        let value = entries[0].1;
        let rest = entries.skip(1);
        let key_part = byte_string_encoding(key);
        let tail = plain_entries_encoding(rest) + seq![END];
        assert(written =~= key_part + (plain_encoding(value) + tail));
        lemma_holds_split(bytes, pos, key_part, plain_encoding(value) + tail);
        lemma_byte_string_round_trip(bytes, pos, key);
        let at = pos + key_part.len();
        lemma_holds_split(bytes, at, plain_encoding(value), tail);
        lemma_reads_value(bytes, at, value);
        let next = at + plain_encoding(value).len();
        lemma_reads_entries(bytes, next, rest, bind(read, key, merged(value)));
    }
}

/// Decoding accepts whatever the grammar writes: what it writes for a value
/// is decoded to that value with every key bound once.
pub proof fn law_decoding_accepts_the_grammar(v: Bencode)
    ensures
        decoding(plain_encoding(v)) == Ok::<Bencode, Error>(merged(v)),
{
    lemma_reads_value(plain_encoding(v), 0, v);
}

/// A byte string that was read stands in the input as the grammar writes
/// it.
pub proof fn lemma_byte_string_source(bytes: Seq<u8>, pos: int)
    requires
        0 <= pos <= bytes.len(),
        byte_string_at(bytes, pos) is Done,
    ensures
        holds_at(bytes, pos, byte_string_encoding(byte_string_at(bytes, pos)->Done_0)),
        byte_string_at(bytes, pos)->Done_1 == pos + byte_string_encoding(
            byte_string_at(bytes, pos)->Done_0,
        ).len(),
{
    let end = digits_end(bytes, pos);
    let digits = bytes.subrange(pos, end);
    lemma_digits_end(bytes, pos);
    lemma_digits_of_value(digits);
}

/// An integer that was read stands in the input as the grammar writes it.
pub proof fn lemma_integer_source(bytes: Seq<u8>, pos: int)
    requires
        0 <= pos < bytes.len(),
        bytes[pos] == INTEGER_START,
        integer_at(bytes, pos) is Done,
    ensures
        holds_at(bytes, pos, integer_encoding(integer_at(bytes, pos)->Done_0)),
        integer_at(bytes, pos)->Done_1 == pos + integer_encoding(
            integer_at(bytes, pos)->Done_0,
        ).len(),
{
    let negative = pos + 1 < bytes.len() && bytes[pos + 1] == MINUS;
    let start = if negative { pos + 2 } else { pos + 1 };
    let end = digits_end(bytes, start);
    let digits = bytes.subrange(start, end);
    lemma_digits_end(bytes, start);
    lemma_digits_of_value(digits);
}

/// A value that was read stands in the input as the grammar writes some
/// value: the value that is returned, which is that value with every key
/// bound once.
pub proof fn lemma_value_source(bytes: Seq<u8>, pos: int) -> (source: Bencode)
    requires
        0 <= pos,
        value_at(bytes, pos) is Done,
    ensures
        holds_at(bytes, pos, plain_encoding(source)),
        value_at(bytes, pos) == Parsed::Done(merged(source), pos + plain_encoding(source).len()),
    decreases bytes.len() - pos, 0int,
{
    if bytes[pos] == INTEGER_START {
        lemma_integer_source(bytes, pos);
        Bencode::Int(integer_at(bytes, pos)->Done_0)
    } else if is_digit(bytes[pos]) {
        lemma_byte_string_source(bytes, pos);
        Bencode::Bytes(byte_string_at(bytes, pos)->Done_0)
    } else if bytes[pos] == LIST_START {
        let items = lemma_items_source(bytes, pos + 1, Seq::empty());
        let source = Bencode::List(items);
        let inner = plain_items_encoding(items) + seq![END];
        assert(plain_encoding(source) =~= seq![LIST_START] + inner);
        source
    } else {
        let entries = lemma_entries_source(bytes, pos + 1, Seq::empty());
        let source = Bencode::Dict(entries);
        let inner = plain_entries_encoding(entries) + seq![END];
        assert(plain_encoding(source) =~= seq![DICTIONARY_START] + inner);
        source
    }
}

/// Items that were read stand in the input as the grammar writes some
/// items: the items that are returned.
pub proof fn lemma_items_source(bytes: Seq<u8>, pos: int, read: Seq<Bencode>) -> (source: Seq<
    Bencode,
>)
    requires
        0 <= pos,
        items_from(bytes, pos, read) is Done,
    ensures
        holds_at(bytes, pos, plain_items_encoding(source) + seq![END]),
        items_from(bytes, pos, read) == Parsed::Done(
            read + merged_items(source),
            pos + plain_items_encoding(source).len() + 1,
        ),
    decreases bytes.len() - pos, 1int,
{
    if bytes[pos] == END {
        Seq::empty()
    } else {
        let first = lemma_value_source(bytes, pos);
        let next = pos + plain_encoding(first).len();
        let rest = lemma_items_source(bytes, next, read.push(merged(first)));
        let source = seq![first] + rest;
        assert(source.skip(1) =~= rest);
        let tail = plain_items_encoding(rest) + seq![END];
        assert(plain_items_encoding(source) + seq![END] =~= plain_encoding(first) + tail);
        assert(read.push(merged(first)) + merged_items(rest) =~= read + merged_items(source));
        source
    }
}

/// Entries that were read stand in the input as the grammar writes some
/// entries: the entries that are returned.
pub proof fn lemma_entries_source(bytes: Seq<u8>, pos: int, read: Seq<(Seq<u8>, Bencode)>) -> (source:
    Seq<(Seq<u8>, Bencode)>)
    requires
        0 <= pos,
        entries_from(bytes, pos, read) is Done,
    ensures
        holds_at(bytes, pos, plain_entries_encoding(source) + seq![END]),
        entries_from(bytes, pos, read) == Parsed::Done(
            merged_onto(read, source),
            pos + plain_entries_encoding(source).len() + 1,
        ),
    decreases bytes.len() - pos, 1int,
{
    if bytes[pos] == END {
        Seq::empty()
    } else {
        lemma_byte_string_source(bytes, pos);
        let key = byte_string_at(bytes, pos)->Done_0;
        let at = byte_string_at(bytes, pos)->Done_1;
        let value = lemma_value_source(bytes, at);
        let next = at + plain_encoding(value).len();
        let rest = lemma_entries_source(bytes, next, bind(read, key, merged(value)));
        let source = seq![(key, value)] + rest;
        assert(source.skip(1) =~= rest);
        let tail = plain_entries_encoding(rest) + seq![END];
        assert(plain_entries_encoding(source) + seq![END] =~= byte_string_encoding(key) + (
            plain_encoding(value) + tail));
        source
    }
}

/// Decoding accepts nothing but what the grammar writes: an input that is
/// decoded is what the grammar writes for some value, and is decoded to that
/// value with every key bound once.
pub proof fn law_decoding_accepts_only_the_grammar(bytes: Seq<u8>) -> (source: Bencode)
    requires
        decoding(bytes) is Ok,
    ensures
        plain_encoding(source) == bytes,
        decoding(bytes) == Ok::<Bencode, Error>(merged(source)),
{
    lemma_value_source(bytes, 0)
}

} // verus!
