//! The canonical encoding of a value.

use vstd::prelude::*;
use vstd::slice::slice_to_vec;
use crate::decimal::{decimal_digits, push_decimal};
use crate::laws::law_canonical_form;
use crate::order::{entry_keys, key_order, lex_less, sorted_indices};
use crate::token::{COLON, DICTIONARY_START, END, INTEGER_START, LIST_START, MINUS};
use crate::value::{
    entries_model, items_model, keys_of, lemma_entries_model, lemma_items_model, Bencode, Value,
};

verus! {

/// The elements of `s` in the order that `order` gives: the element at `j`
/// is the one that `s` holds at `order[j]`.
pub open spec fn reorder<T>(s: Seq<T>, order: Seq<int>) -> Seq<T> {
    Seq::new(order.len(), |j: int| s[order[j]])
}

/// A byte string is written as its length in decimal, a colon, and its bytes.
pub open spec fn byte_string_encoding(bytes: Seq<u8>) -> Seq<u8> {
    decimal_digits(bytes.len()) + seq![COLON] + bytes
}

/// An integer is written between `i` and `e` in decimal, with a `-` in
/// front if it is negative.
pub open spec fn integer_encoding(i: i64) -> Seq<u8> {
    if i < 0 {
        seq![INTEGER_START, MINUS] + decimal_digits((-i) as nat) + seq![END]
    } else {
        seq![INTEGER_START] + decimal_digits(i as nat) + seq![END]
    }
}

/// The canonical encoding of a value. The entries of a dictionary are written
/// in ascending order of their keys, whatever order the value holds them in.
pub open spec fn encoding(v: Bencode) -> Seq<u8>
    decreases v,
{
    match v {
        Bencode::Bytes(bytes) => byte_string_encoding(bytes),
        Bencode::Int(i) => integer_encoding(i),
        Bencode::List(items) => seq![LIST_START] + items_encoding(items) + seq![END],
        Bencode::Dict(entries) => seq![DICTIONARY_START] + pairs_encoding(
            reorder(encoded_entries(entries), key_order(keys_of(entries))),
        ) + seq![END],
    }
}

/// The encodings of the items, one after the other.
pub open spec fn items_encoding(items: Seq<Bencode>) -> Seq<u8>
    decreases items,
{
    if items.len() == 0 {
        Seq::empty()
    } else {
        items_encoding(items.drop_last()) + encoding(items.last())
    }
}

/// Each entry's key with the encoding of its value.
pub open spec fn encoded_entries(entries: Seq<(Seq<u8>, Bencode)>) -> Seq<(Seq<u8>, Seq<u8>)>
    decreases entries,
{
    if entries.len() == 0 {
        Seq::empty()
    } else {
        encoded_entries(entries.drop_last()).push((entries.last().0, encoding(entries.last().1)))
    }
}

/// Keys written as byte strings, each followed by its encoded value.
pub open spec fn pairs_encoding(pairs: Seq<(Seq<u8>, Seq<u8>)>) -> Seq<u8>
    decreases pairs.len(),
{
    if pairs.len() == 0 {
        Seq::empty()
    } else {
        pairs_encoding(pairs.drop_last()) + byte_string_encoding(pairs.last().0) + pairs.last().1
    }
}

/// The value with the entries of every dictionary in ascending order of
/// their keys: the one value among those with the same entries that the
/// encoding is written from.
pub open spec fn canonical(v: Bencode) -> Bencode
    decreases v,
{
    match v {
        Bencode::Bytes(_) => v,
        Bencode::Int(_) => v,
        Bencode::List(items) => Bencode::List(canonical_items(items)),
        Bencode::Dict(entries) => Bencode::Dict(
            reorder(canonical_entries(entries), key_order(keys_of(entries))),
        ),
    }
}

impl Bencode {
    /// The value is in canonical form: in every dictionary each key comes
    /// strictly before the next in byte order.
    pub open spec fn is_canonical(self) -> bool
        decreases self,
    {
        match self {
            Bencode::Bytes(_) => true,
            Bencode::Int(_) => true,
            Bencode::List(items) => forall|i: int|
                0 <= i < items.len() ==> (#[trigger] items[i]).is_canonical(),
            Bencode::Dict(entries) => {
                &&& forall|i: int, j: int|
                    0 <= i < j < entries.len() ==> lex_less(
                        (#[trigger] entries[i]).0,
                        (#[trigger] entries[j]).0,
                    )
                &&& forall|i: int|
                    0 <= i < entries.len() ==> (#[trigger] entries[i]).1.is_canonical()
            },
        }
    }
}

/// The canonical forms of the items, in the same order.
pub open spec fn canonical_items(items: Seq<Bencode>) -> Seq<Bencode>
    decreases items,
{
    if items.len() == 0 {
        Seq::empty()
    } else {
        canonical_items(items.drop_last()).push(canonical(items.last()))
    }
}

/// Each entry's key with the canonical form of its value, in the same order.
pub open spec fn canonical_entries(entries: Seq<(Seq<u8>, Bencode)>) -> Seq<(Seq<u8>, Bencode)>
    decreases entries,
{
    if entries.len() == 0 {
        Seq::empty()
    } else {
        canonical_entries(entries.drop_last()).push(
            (entries.last().0, canonical(entries.last().1)),
        )
    }
}

/// `encoded_entries` maps entry by entry.
pub proof fn lemma_encoded_entries(entries: Seq<(Seq<u8>, Bencode)>)
    ensures
        encoded_entries(entries).len() == entries.len(),
        forall|i: int|
            0 <= i < entries.len() ==> #[trigger] encoded_entries(entries)[i] == (
                entries[i].0,
                encoding(entries[i].1),
            ),
    decreases entries.len(),
{
    if entries.len() > 0 {
        lemma_encoded_entries(entries.drop_last());
    }
}

/// `canonical_items` maps item by item.
pub proof fn lemma_canonical_items(items: Seq<Bencode>)
    ensures
        canonical_items(items).len() == items.len(),
        forall|i: int|
            0 <= i < items.len() ==> #[trigger] canonical_items(items)[i] == canonical(items[i]),
    decreases items.len(),
{
    if items.len() > 0 {
        lemma_canonical_items(items.drop_last());
    }
}

/// `canonical_entries` maps entry by entry.
pub proof fn lemma_canonical_entries(entries: Seq<(Seq<u8>, Bencode)>)
    ensures
        canonical_entries(entries).len() == entries.len(),
        forall|i: int|
            0 <= i < entries.len() ==> #[trigger] canonical_entries(entries)[i] == (
                entries[i].0,
                canonical(entries[i].1),
            ),
    decreases entries.len(),
{
    if entries.len() > 0 {
        lemma_canonical_entries(entries.drop_last());
    }
}

/// One more item adds its encoding at the end.
pub proof fn lemma_items_encoding_step(items: Seq<Bencode>, k: int)
    requires
        0 <= k < items.len(),
    ensures
        items_encoding(items.take(k + 1)) == items_encoding(items.take(k)) + encoding(items[k]),
{
    assert(items.take(k + 1).drop_last() =~= items.take(k));
}

/// One more pair adds its key and its encoded value at the end.
pub proof fn lemma_pairs_encoding_step(pairs: Seq<(Seq<u8>, Seq<u8>)>, k: int)
    requires
        0 <= k < pairs.len(),
    ensures
        pairs_encoding(pairs.take(k + 1)) == pairs_encoding(pairs.take(k)) + byte_string_encoding(
            pairs[k].0,
        ) + pairs[k].1,
{
    assert(pairs.take(k + 1).drop_last() =~= pairs.take(k));
}

/// Appends the bytes.
pub fn push_bytes(out: &mut Vec<u8>, bytes: &[u8])
    ensures
        final(out)@ == old(out)@ + bytes@,
{
    let ghost start = out@;
    let mut i: usize = 0;
    while i < bytes.len()
        invariant
            i <= bytes.len(),
            out@ == start + bytes@.take(i as int),
        decreases bytes.len() - i,
    {
        out.push(bytes[i]);
        i += 1;
    }
}

/// Appends the encoding of a byte string.
fn push_byte_string(out: &mut Vec<u8>, bytes: &[u8])
    ensures
        final(out)@ == old(out)@ + byte_string_encoding(bytes@),
{
    push_decimal(out, bytes.len() as u64);
    out.push(COLON);
    push_bytes(out, bytes);
}

/// Appends the encoding of an integer.
fn push_integer(out: &mut Vec<u8>, i: i64)
    ensures
        final(out)@ == old(out)@ + integer_encoding(i),
{
    out.push(INTEGER_START);
    if i < 0 {
        out.push(MINUS);
        let magnitude: u64 = (-(i as i128)) as u64;
        push_decimal(out, magnitude);
    } else {
        push_decimal(out, i as u64);
    }
    out.push(END);
}

/// Appends the canonical encoding of the value.
pub fn encode_into(value: &Value, out: &mut Vec<u8>)
    ensures
        final(out)@ == old(out)@ + encoding(value@),
    decreases value,
{
    let ghost start = out@;
    match value {
        Value::ByteString(bytes) => {
            push_byte_string(out, bytes.as_slice());
        },
        Value::Integer(i) => {
            push_integer(out, *i);
        },
        Value::List(items) => {
            let ghost models = items_model(items@);
            proof {
                lemma_items_model(items@);
            }
            out.push(LIST_START);
            let mut k: usize = 0;
            while k < items.len()
                invariant
                    k <= items.len(),
                    value == Value::List(*items),
                    models == items_model(items@),
                    models.len() == items@.len(),
                    forall|i: int| 0 <= i < items@.len() ==> #[trigger] models[i] == items@[i]@,
                    out@ == start + seq![LIST_START] + items_encoding(models.take(k as int)),
                decreases items.len() - k,
            {
                proof {
                    assert(value->List_0 == *items);
                }
                encode_into(&items[k], out);
                proof {
                    lemma_items_encoding_step(models, k as int);
                }
                k += 1;
            }
            out.push(END);
            proof {
                assert(models.take(items.len() as int) =~= models);
            }
        },
        Value::Dictionary(entries) => {
            let ghost models = entries_model(entries@);
            let ghost pairs = reorder(encoded_entries(models), key_order(keys_of(models)));
            let order = sorted_indices(entries);
            proof {
                lemma_entries_model(entries@);
                lemma_encoded_entries(models);
                assert(entry_keys(entries@) =~= keys_of(models));
            }
            out.push(DICTIONARY_START);
            let mut j: usize = 0;
            while j < order.len()
                invariant
                    j <= order.len(),
                    value == Value::Dictionary(*entries),
                    order@.len() == entries@.len(),
                    forall|q: int| 0 <= q < order@.len() ==> #[trigger] order@[q] < entries@.len(),
                    pairs.len() == order@.len(),
                    forall|q: int|
                        0 <= q < order@.len() ==> #[trigger] pairs[q] == (
                            entries@[order@[q] as int].0@,
                            encoding(entries@[order@[q] as int].1@),
                        ),
                    out@ == start + seq![DICTIONARY_START] + pairs_encoding(pairs.take(j as int)),
                decreases order.len() - j,
            {
                let index = order[j];
                push_byte_string(out, entries[index].0.as_slice());
                proof {
                    assert(value->Dictionary_0 == *entries);
                }
                encode_into(&entries[index].1, out);
                proof {
                    lemma_pairs_encoding_step(pairs, j as int);
                }
                j += 1;
            }
            out.push(END);
            proof {
                assert(pairs.take(order.len() as int) =~= pairs);
            }
        },
    }
}

/// Encodes the value in canonical form: byte strings as `<length>:<bytes>`,
/// integers as `i<decimal>e`, lists as `l<items>e`, and dictionaries as
/// `d<key and value pairs>e` with the pairs in ascending byte order of the
/// keys.
pub fn encode(value: &Value) -> (out: Vec<u8>)
    ensures
        out@ == encoding(value@),
{
    let mut out: Vec<u8> = Vec::new();
    encode_into(value, &mut out);
    out
}

/// The value in canonical form: a copy with the entries of every
/// dictionary in ascending byte order of their keys.
pub fn canonicalize(value: &Value) -> (r: Value)
    ensures
        r@ == canonical(value@),
        value@.well_formed() ==> r@.is_canonical() && r@.well_formed(),
    decreases value,
{
    proof {
        if value@.well_formed() {
            law_canonical_form(value@);
        }
    }
    match value {
        Value::ByteString(bytes) => Value::ByteString(slice_to_vec(bytes.as_slice())),
        Value::Integer(i) => Value::Integer(*i),
        Value::List(items) => {
            let mut sorted: Vec<Value> = Vec::new();
            let mut k: usize = 0;
            while k < items.len()
                invariant
                    k <= items.len(),
                    value == Value::List(*items),
                    sorted@.len() == k,
                    forall|i: int| 0 <= i < k ==> (#[trigger] sorted@[i])@ == canonical(items@[i]@),
                decreases items.len() - k,
            {
                proof {
                    assert(value->List_0 == *items);
                }
                let item = canonicalize(&items[k]);
                sorted.push(item);
                k += 1;
            }
            proof {
                lemma_items_model(items@);
                lemma_items_model(sorted@);
                lemma_canonical_items(items_model(items@));
                assert(items_model(sorted@) =~= canonical_items(items_model(items@)));
            }
            Value::List(sorted)
        },
        Value::Dictionary(entries) => {
            let ghost models = entries_model(entries@);
            let order = sorted_indices(entries);
            let mut sorted: Vec<(Vec<u8>, Value)> = Vec::new();
            let mut j: usize = 0;
            while j < order.len()
                invariant
                    j <= order.len(),
                    value == Value::Dictionary(*entries),
                    order@.len() == entries@.len(),
                    forall|q: int| 0 <= q < order@.len() ==> #[trigger] order@[q] < entries@.len(),
                    sorted@.len() == j,
                    forall|q: int|
                        0 <= q < j ==> (#[trigger] sorted@[q]).0@ == entries@[order@[q] as int].0@
                            && sorted@[q].1@ == canonical(entries@[order@[q] as int].1@),
                decreases order.len() - j,
            {
                let index = order[j];
                proof {
                    assert(value->Dictionary_0 == *entries);
                }
                let key = slice_to_vec(entries[index].0.as_slice());
                let item = canonicalize(&entries[index].1);
                sorted.push((key, item));
                j += 1;
            }
            proof {
                lemma_entries_model(entries@);
                lemma_entries_model(sorted@);
                lemma_canonical_entries(models);
                assert(entry_keys(entries@) =~= keys_of(models));
                let expected = reorder(canonical_entries(models), key_order(keys_of(models)));
                assert(entries_model(sorted@) =~= expected);
            }
            Value::Dictionary(sorted)
        },
    }
}

} // verus!
