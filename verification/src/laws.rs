//! What holds of encoding and decoding together.

use vstd::prelude::*;
use crate::decode::decoding;
use crate::encode::{
    byte_string_encoding, canonical, canonical_entries, canonical_items, encoded_entries, encoding,
    items_encoding, lemma_canonical_entries, lemma_canonical_items, lemma_encoded_entries,
    pairs_encoding, reorder,
};
use crate::error::Error;
use crate::grammar::{
    law_decoding_accepts_the_grammar, merged, merged_items, merged_onto, plain_encoding,
    plain_entries_encoding, plain_items_encoding,
};
use crate::hash::info_hash_of;
use crate::order::{
    ascending, is_permutation, key_order, lemma_ascending, lemma_lex_asymmetric,
    lemma_strictly_ascending, lex_less,
};
use crate::value::{has_key, items_well_formed, keys_of, keys_unique, Bencode};

verus! {

/// The encoding of a sequence of items starts with that of the first.
pub proof fn lemma_items_encoding_front(items: Seq<Bencode>)
    requires
        items.len() > 0,
    ensures
        items_encoding(items) == encoding(items[0]) + items_encoding(items.skip(1)),
    decreases items.len(),
{
    if items.len() == 1 {
        assert(items.drop_last() =~= Seq::<Bencode>::empty());
        assert(items.skip(1) =~= Seq::<Bencode>::empty());
    } else {
        lemma_items_encoding_front(items.drop_last());
        assert(items.drop_last().skip(1) =~= items.skip(1).drop_last());
    }
}

/// The encoding of a sequence of pairs starts with that of the first.
pub proof fn lemma_pairs_encoding_front(pairs: Seq<(Seq<u8>, Seq<u8>)>)
    requires
        pairs.len() > 0,
    ensures
        pairs_encoding(pairs) == byte_string_encoding(pairs[0].0) + pairs[0].1 + pairs_encoding(
            pairs.skip(1),
        ),
    decreases pairs.len(),
{
    if pairs.len() == 1 {
        assert(pairs.drop_last() =~= Seq::<(Seq<u8>, Seq<u8>)>::empty());
        assert(pairs.skip(1) =~= Seq::<(Seq<u8>, Seq<u8>)>::empty());
    } else {
        lemma_pairs_encoding_front(pairs.drop_last());
        assert(pairs.drop_last().skip(1) =~= pairs.skip(1).drop_last());
    }
}

/// The entries of a dictionary as they are written: in ascending order of
/// the keys, each key with the encoding of its value.
pub open spec fn written_pairs(entries: Seq<(Seq<u8>, Bencode)>) -> Seq<(Seq<u8>, Seq<u8>)> {
    reorder(encoded_entries(entries), key_order(keys_of(entries)))
}

/// The entries of a dictionary in canonical form: in ascending order of the
/// keys, each key with the canonical form of its value.
pub open spec fn canonical_pairs(entries: Seq<(Seq<u8>, Bencode)>) -> Seq<(Seq<u8>, Bencode)> {
    reorder(canonical_entries(entries), key_order(keys_of(entries)))
}

/// The `k`-th entry in ascending order of the keys: its index among the
/// entries, what is written for it, and its canonical form.
pub proof fn lemma_pair_at(entries: Seq<(Seq<u8>, Bencode)>, k: int)
    requires
        is_permutation(key_order(keys_of(entries)), entries.len()),
        0 <= k < entries.len(),
    ensures
        0 <= key_order(keys_of(entries))[k] < entries.len(),
        written_pairs(entries).len() == entries.len(),
        canonical_pairs(entries).len() == entries.len(),
        written_pairs(entries)[k] == (
            entries[key_order(keys_of(entries))[k]].0,
            encoding(entries[key_order(keys_of(entries))[k]].1),
        ),
        canonical_pairs(entries)[k] == (
            entries[key_order(keys_of(entries))[k]].0,
            canonical(entries[key_order(keys_of(entries))[k]].1),
        ),
{
    lemma_encoded_entries(entries);
    lemma_canonical_entries(entries);
}

/// The canonical encodings of items, one after the other, are what the
/// grammar writes for their canonical forms.
pub proof fn lemma_items_encoding_is_plain(items: Seq<Bencode>)
    ensures
        items_encoding(items) == plain_items_encoding(canonical_items(items)),
    decreases items,
{
    lemma_canonical_items(items);
    if items.len() > 0 {
        let rest = items.skip(1);
        lemma_items_encoding_front(items);
        law_encoding_is_plain(items[0]);
        lemma_items_encoding_is_plain(rest);
        lemma_canonical_items(rest);
        assert(canonical_items(items).skip(1) =~= canonical_items(rest));
    }
}

/// What is written for the entries of a dictionary from the `k`-th on is
/// what the grammar writes for the entries of its canonical form from the
/// `k`-th on.
pub proof fn lemma_pairs_encoding_is_plain(entries: Seq<(Seq<u8>, Bencode)>, k: int)
    requires
        0 <= k <= entries.len(),
    ensures
        pairs_encoding(written_pairs(entries).skip(k)) == plain_entries_encoding(
            canonical_pairs(entries).skip(k),
        ),
    decreases entries, entries.len() - k,
{
    let pairs = written_pairs(entries);
    let sorted = canonical_pairs(entries);
    lemma_ascending(keys_of(entries), entries.len());
    if k < entries.len() {
        lemma_pair_at(entries, k);
        let index = key_order(keys_of(entries))[k];
        lemma_pairs_encoding_front(pairs.skip(k));
        assert(pairs.skip(k).skip(1) =~= pairs.skip(k + 1));
        assert(sorted.skip(k).skip(1) =~= sorted.skip(k + 1));
        law_encoding_is_plain(entries[index].1);
        lemma_pairs_encoding_is_plain(entries, k + 1);
    }
}

/// The canonical encoding of a value is what the grammar writes for its
/// canonical form.
pub proof fn law_encoding_is_plain(v: Bencode)
    ensures
        encoding(v) == plain_encoding(canonical(v)),
    decreases v,
{
    match v {
        Bencode::Bytes(_) => {},
        Bencode::Int(_) => {},
        Bencode::List(items) => {
            lemma_items_encoding_is_plain(items);
        },
        Bencode::Dict(entries) => {
            lemma_pairs_encoding_is_plain(entries, 0);
            assert(written_pairs(entries).skip(0) =~= written_pairs(entries));
            assert(canonical_pairs(entries).skip(0) =~= canonical_pairs(entries));
        },
    }
}

/// Well-formed items have every key bound once already.
pub proof fn lemma_well_formed_items_are_merged(items: Seq<Bencode>)
    requires
        items_well_formed(items),
    ensures
        merged_items(items) == items,
    decreases items,
{
    if items.len() > 0 {
        let rest = items.skip(1);
        law_well_formed_is_merged(items[0]);
        lemma_well_formed_items_are_merged(rest);
    }
}

/// Binding well-formed entries whose keys are new, one after the other, adds
/// them at the end as they are.
pub proof fn lemma_well_formed_entries_are_merged(
    read: Seq<(Seq<u8>, Bencode)>,
    entries: Seq<(Seq<u8>, Bencode)>,
)
    requires
        keys_unique(read + entries),
        forall|i: int| 0 <= i < entries.len() ==> (#[trigger] entries[i]).1.well_formed(),
    ensures
        merged_onto(read, entries) == read + entries,
    decreases entries,
{
    if entries.len() > 0 {
        let all = read + entries;
        let key = entries[0].0;
        let rest = entries.skip(1);
        law_well_formed_is_merged(entries[0].1);
        assert(all[read.len() as int] == entries[0]);
        assert(!has_key(read, key)) by {
            if has_key(read, key) {
                let j = choose|j: int| 0 <= j < read.len() && (#[trigger] read[j]).0 == key;
                assert(all[j] == read[j]);
            }
        }
        let longer = read.push(entries[0]);
        assert(longer + rest =~= all);
        lemma_well_formed_entries_are_merged(longer, rest);
    }
}

/// A well-formed value has every key bound once already. So what the
/// grammar writes for it is decoded to the value itself.
pub proof fn law_well_formed_is_merged(v: Bencode)
    requires
        v.well_formed(),
    ensures
        merged(v) == v,
        decoding(plain_encoding(v)) == Ok::<Bencode, Error>(v),
    decreases v,
{
    match v {
        Bencode::Bytes(_) => {},
        Bencode::Int(_) => {},
        Bencode::List(items) => {
            lemma_well_formed_items_are_merged(items);
        },
        Bencode::Dict(entries) => {
            lemma_well_formed_entries_are_merged(Seq::empty(), entries);
        },
    }
    law_decoding_accepts_the_grammar(v);
}

/// Decoding the encoding of a well-formed value gives the value back in
/// canonical form: with the entries of every dictionary in ascending order
/// of their keys.
pub proof fn law_decode_encode(v: Bencode)
    requires
        v.well_formed(),
    ensures
        decoding(encoding(v)) == Ok::<Bencode, Error>(canonical(v)),
{
    law_encoding_is_plain(v);
    law_canonical_form(v);
    law_well_formed_is_merged(canonical(v));
}

/// The canonical form of a well-formed value is canonical, and so well
/// formed: the keys of every dictionary ascend strictly. A dictionary holds
/// in it the entries that it held, each once, with their values in canonical
/// form.
pub proof fn law_canonical_form(v: Bencode)
    requires
        v.well_formed(),
    ensures
        canonical(v).is_canonical(),
        canonical(v).well_formed(),
        v matches Bencode::Dict(entries) ==> is_permutation(
            key_order(keys_of(entries)),
            entries.len(),
        ),
    decreases v,
{
    match v {
        Bencode::Bytes(_) => {},
        Bencode::Int(_) => {},
        Bencode::List(items) => {
            lemma_canonical_items(items);
            assert forall|i: int| 0 <= i < items.len() implies (#[trigger] canonical_items(
                items,
            )[i]).is_canonical() && canonical_items(items)[i].well_formed() by {
                law_canonical_form(items[i]);
            }
        },
        Bencode::Dict(entries) => {
            let keys = keys_of(entries);
            let order = key_order(keys);
            let sorted = reorder(canonical_entries(entries), order);
            lemma_canonical_entries(entries);
            lemma_ascending(keys, entries.len());
            lemma_strictly_ascending(keys, order);
            assert forall|i: int| 0 <= i < sorted.len() implies (#[trigger] sorted[i]).1.is_canonical()
                && sorted[i].1.well_formed() by {
                law_canonical_form(entries[order[i]].1);
            }
        },
    }
}

/// Encoding is deterministic: whatever two calls of `encode` return for the
/// same value is the same, byte for byte.
pub proof fn law_encoding_deterministic(v: Bencode, first: Seq<u8>, second: Seq<u8>)
    requires
        first == encoding(v),
        second == encoding(v),
    ensures
        first == second,
{
}

/// Well-formed values with the same encoding have the same canonical form:
/// the encoding tells apart all values that differ in more than the order of
/// their entries.
pub proof fn law_encoding_injective(a: Bencode, b: Bencode)
    requires
        a.well_formed(),
        b.well_formed(),
        encoding(a) == encoding(b),
    ensures
        canonical(a) == canonical(b),
{
    law_decode_encode(a);
    law_decode_encode(b);
}

/// The encoding, and with it the info-hash, does not depend on the order in
/// which dictionaries hold their entries: well-formed values with the same
/// canonical form have the same encoding and the same info-hash.
pub proof fn law_encoding_ignores_entry_order(a: Bencode, b: Bencode)
    requires
        a.well_formed(),
        b.well_formed(),
        canonical(a) == canonical(b),
    ensures
        encoding(a) == encoding(b),
        info_hash_of(a) == info_hash_of(b),
{
    law_canonical_encoding(a);
    law_canonical_encoding(b);
}

/// An input that is the canonical encoding of a well-formed value is decoded
/// to a value that is encoded to the same input again.
pub proof fn law_reencoding(v: Bencode)
    requires
        v.well_formed(),
    ensures
        decoding(encoding(v)) matches Ok(decoded) && encoding(decoded) == encoding(v),
{
    law_decode_encode(v);
    law_canonical_encoding(v);
}

/// Keys that ascend strictly are encoded in the order in which they stand.
pub proof fn lemma_ascending_keys_keep_order(keys: Seq<Seq<u8>>, n: nat)
    requires
        n <= keys.len(),
        forall|i: int, j: int| 0 <= i < j < n ==> lex_less(#[trigger] keys[i], #[trigger] keys[j]),
    ensures
        ascending(keys, n) == Seq::new(n, |i: int| i),
    decreases n,
{
    if n > 0 {
        lemma_ascending_keys_keep_order(keys, (n - 1) as nat);
        if n > 1 {
            lemma_lex_asymmetric(keys[n - 2], keys[n - 1]);
        }
    }
}

/// The canonical forms of items are encoded as the items are.
pub proof fn lemma_canonical_items_encoding(items: Seq<Bencode>)
    requires
        items_well_formed(items),
    ensures
        items_encoding(canonical_items(items)) == items_encoding(items),
        canonical_items(canonical_items(items)) == canonical_items(items),
    decreases items,
{
    if items.len() > 0 {
        let front = items.drop_last();
        lemma_canonical_items_encoding(front);
        law_canonical_encoding(items.last());
        let sorted = canonical_items(items);
        assert(sorted.drop_last() =~= canonical_items(front));
    }
}

/// The canonical form of a well-formed value has the encoding of the value,
/// and is its own canonical form. So the value that decoding an encoding
/// gives is encoded to the same bytes again.
pub proof fn law_canonical_encoding(v: Bencode)
    requires
        v.well_formed(),
    ensures
        encoding(canonical(v)) == encoding(v),
        canonical(canonical(v)) == canonical(v),
    decreases v,
{
    match v {
        Bencode::Bytes(_) => {},
        Bencode::Int(_) => {},
        Bencode::List(items) => {
            lemma_canonical_items_encoding(items);
        },
        Bencode::Dict(entries) => {
            let order = key_order(keys_of(entries));
            let sorted = reorder(canonical_entries(entries), order);
            law_canonical_form(v);
            lemma_canonical_entries(entries);
            lemma_canonical_entries(sorted);
            lemma_encoded_entries(entries);
            lemma_encoded_entries(sorted);
            let keys = keys_of(sorted);
            lemma_ascending_keys_keep_order(keys, keys.len());
            let same = key_order(keys);
            assert forall|j: int| 0 <= j < sorted.len() implies canonical(sorted[j].1)
                == sorted[j].1 && encoding(sorted[j].1) == encoding(entries[order[j]].1) by {
                law_canonical_encoding(entries[order[j]].1);
            }
            assert(reorder(encoded_entries(sorted), same) =~= reorder(
                encoded_entries(entries),
                order,
            ));
            assert(reorder(canonical_entries(sorted), same) =~= sorted);
        },
    }
}

} // verus!
