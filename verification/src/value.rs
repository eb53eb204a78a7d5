//! The Bencode value tree and its mathematical model.

use vstd::prelude::*;
use vstd::slice::slice_to_vec;
use crate::order::bytes_equal;

verus! {

/// The mathematical model of a Bencode value: what the contracts speak about.
///
/// A dictionary is modelled by its entries in the order in which the value
/// holds them. `well_formed` says that no key occurs twice in a dictionary.
pub enum Bencode {
    Bytes(Seq<u8>),
    Int(i64),
    List(Seq<Bencode>),
    Dict(Seq<(Seq<u8>, Bencode)>),
}

/// The keys of a sequence of entries, in order.
pub open spec fn keys_of<T>(entries: Seq<(Seq<u8>, T)>) -> Seq<Seq<u8>> {
    Seq::new(entries.len(), |i: int| entries[i].0)
}

/// No key occurs twice.
pub open spec fn keys_unique<T>(entries: Seq<(Seq<u8>, T)>) -> bool {
    forall|i: int, j: int|
        0 <= i < j < entries.len() ==> (#[trigger] entries[i]).0 != (#[trigger] entries[j]).0
}

/// Whether some entry has the key.
pub open spec fn has_key<T>(entries: Seq<(Seq<u8>, T)>, key: Seq<u8>) -> bool {
    exists|i: int| 0 <= i < entries.len() && (#[trigger] entries[i]).0 == key
}

/// The index of the first entry with the key.
pub open spec fn key_index<T>(entries: Seq<(Seq<u8>, T)>, key: Seq<u8>) -> int
    recommends
        has_key(entries, key),
{
    choose|i: int|
        0 <= i < entries.len() && (#[trigger] entries[i]).0 == key && forall|j: int|
            0 <= j < i ==> (#[trigger] entries[j]).0 != key
}

/// The value that the entries hold for the key: that of the first entry that
/// has the key, if there is one.
pub open spec fn lookup<T>(entries: Seq<(Seq<u8>, T)>, key: Seq<u8>) -> Option<T> {
    if has_key(entries, key) {
        Some(entries[key_index(entries, key)].1)
    } else {
        None
    }
}

/// The entries after the key is bound to the value: an entry that has the key
/// keeps its place and takes the new value, otherwise a new entry is added at
/// the end.
pub open spec fn bind<T>(entries: Seq<(Seq<u8>, T)>, key: Seq<u8>, value: T) -> Seq<(Seq<u8>, T)> {
    if has_key(entries, key) {
        entries.update(key_index(entries, key), (key, value))
    } else {
        entries.push((key, value))
    }
}

impl Bencode {
    /// Every dictionary in the tree has unique keys.
    pub open spec fn well_formed(self) -> bool
        decreases self,
    {
        match self {
            Bencode::Bytes(_) => true,
            Bencode::Int(_) => true,
            Bencode::List(items) => forall|i: int|
                0 <= i < items.len() ==> (#[trigger] items[i]).well_formed(),
            Bencode::Dict(entries) => keys_unique(entries) && forall|i: int|
                0 <= i < entries.len() ==> (#[trigger] entries[i]).1.well_formed(),
        }
    }
}

/// A Bencode value.
#[derive(Debug, PartialEq, Eq)]
pub enum Value {
    /// Arbitrary binary data, not assumed to be text.
    ByteString(Vec<u8>),
    /// A signed 64-bit integer.
    Integer(i64),
    /// An ordered sequence of values.
    List(Vec<Value>),
    /// Keys with their values, in insertion order.
    Dictionary(Vec<(Vec<u8>, Value)>),
}

/// The model of a value.
pub open spec fn value_model(v: Value) -> Bencode
    decreases v,
{
    match v {
        Value::ByteString(b) => Bencode::Bytes(b@),
        Value::Integer(i) => Bencode::Int(i),
        Value::List(items) => Bencode::List(items_model(items@)),
        Value::Dictionary(entries) => Bencode::Dict(entries_model(entries@)),
    }
}

/// The models of a sequence of values, in order.
pub open spec fn items_model(items: Seq<Value>) -> Seq<Bencode>
    decreases items,
{
    if items.len() == 0 {
        Seq::empty()
    } else {
        items_model(items.drop_last()).push(value_model(items.last()))
    }
}

/// The models of a sequence of dictionary entries, in order.
pub open spec fn entries_model(entries: Seq<(Vec<u8>, Value)>) -> Seq<(Seq<u8>, Bencode)>
    decreases entries,
{
    if entries.len() == 0 {
        Seq::empty()
    } else {
        entries_model(entries.drop_last()).push(
            (entries.last().0@, value_model(entries.last().1)),
        )
    }
}

impl View for Value {
    type V = Bencode;

    open spec fn view(&self) -> Bencode {
        value_model(*self)
    }
}

/// `items_model` maps item by item.
pub proof fn lemma_items_model(items: Seq<Value>)
    ensures
        items_model(items).len() == items.len(),
        forall|i: int| 0 <= i < items.len() ==> #[trigger] items_model(items)[i] == items[i]@,
    decreases items.len(),
{
    if items.len() > 0 {
        lemma_items_model(items.drop_last());
    }
}

/// `entries_model` maps entry by entry.
pub proof fn lemma_entries_model(entries: Seq<(Vec<u8>, Value)>)
    ensures
        entries_model(entries).len() == entries.len(),
        forall|i: int|
            0 <= i < entries.len() ==> #[trigger] entries_model(entries)[i] == (
                entries[i].0@,
                entries[i].1@,
            ),
    decreases entries.len(),
{
    if entries.len() > 0 {
        lemma_entries_model(entries.drop_last());
    }
}

/// The first entry with the key is at `i`, if the key stands there and
/// nowhere before.
pub proof fn lemma_key_index<T>(entries: Seq<(Seq<u8>, T)>, key: Seq<u8>, i: int)
    requires
        0 <= i < entries.len(),
        entries[i].0 == key,
        forall|j: int| 0 <= j < i ==> (#[trigger] entries[j]).0 != key,
    ensures
        has_key(entries, key),
        key_index(entries, key) == i,
{
}

/// Entries with unique keys and well-formed values.
pub open spec fn entries_well_formed(entries: Seq<(Seq<u8>, Bencode)>) -> bool {
    &&& keys_unique(entries)
    &&& forall|i: int| 0 <= i < entries.len() ==> (#[trigger] entries[i]).1.well_formed()
}

/// Well-formed items.
pub open spec fn items_well_formed(items: Seq<Bencode>) -> bool {
    forall|i: int| 0 <= i < items.len() ==> (#[trigger] items[i]).well_formed()
}

/// Looks the key up among the entries: the value of the first entry that
/// has the key, if there is one.
pub fn find<'a>(entries: &'a Vec<(Vec<u8>, Value)>, key: &[u8]) -> (r: Option<&'a Value>)
    ensures
        match r {
            Some(v) => lookup(entries_model(entries@), key@) == Some(v@),
            None => lookup(entries_model(entries@), key@) is None,
        },
{
    let ghost models = entries_model(entries@);
    proof {
        lemma_entries_model(entries@);
    }
    let mut i: usize = 0;
    while i < entries.len()
        invariant
            i <= entries.len(),
            models == entries_model(entries@),
            models.len() == entries@.len(),
            forall|j: int|
                0 <= j < entries@.len() ==> #[trigger] models[j] == (
                    entries@[j].0@,
                    entries@[j].1@,
                ),
            forall|j: int| 0 <= j < i ==> (#[trigger] models[j]).0 != key@,
        decreases entries.len() - i,
    {
        if bytes_equal(entries[i].0.as_slice(), key) {
            proof {
                lemma_key_index(models, key@, i as int);
            }
            return Some(&entries[i].1);
        }
        i += 1;
    }
    None
}

/// Whether no key occurs twice among the entries.
pub fn keys_are_unique(entries: &Vec<(Vec<u8>, Value)>) -> (r: bool)
    ensures
        r == keys_unique(entries_model(entries@)),
{
    let ghost models = entries_model(entries@);
    proof {
        lemma_entries_model(entries@);
    }
    let mut j: usize = 0;
    while j < entries.len()
        invariant
            j <= entries.len(),
            models == entries_model(entries@),
            models.len() == entries@.len(),
            forall|k: int| 0 <= k < entries@.len() ==> (#[trigger] models[k]).0 == entries@[k].0@,
            forall|a: int, b: int| 0 <= a < b < j ==> (#[trigger] models[a]).0 != (#[trigger] models[b]).0,
        decreases entries.len() - j,
    {
        let mut i: usize = 0;
        while i < j
            invariant
                i <= j < entries.len(),
                models == entries_model(entries@),
                models.len() == entries@.len(),
                forall|k: int|
                    0 <= k < entries@.len() ==> (#[trigger] models[k]).0 == entries@[k].0@,
                forall|a: int| 0 <= a < i ==> (#[trigger] models[a]).0 != models[j as int].0,
            decreases j - i,
        {
            if bytes_equal(entries[i].0.as_slice(), entries[j].0.as_slice()) {
                proof {
                    assert(models[i as int].0 == models[j as int].0);
                }
                return false;
            }
            i += 1;
        }
        j += 1;
    }
    true
}

/// Whether the value is well formed: no dictionary in it holds a key twice.
pub fn is_well_formed(value: &Value) -> (r: bool)
    ensures
        r == value@.well_formed(),
    decreases value,
{
    match value {
        Value::ByteString(_) => true,
        Value::Integer(_) => true,
        Value::List(items) => {
            proof {
                lemma_items_model(items@);
            }
            let mut k: usize = 0;
            while k < items.len()
                invariant
                    k <= items.len(),
                    value == Value::List(*items),
                    forall|i: int| 0 <= i < k ==> (#[trigger] items@[i])@.well_formed(),
                decreases items.len() - k,
            {
                if !is_well_formed(&items[k]) {
                    proof {
                        lemma_items_model(items@);
                        let models = items_model(items@);
                        assert(!models[k as int].well_formed());
                        assert(value@->List_0 == models);
                    }
                    return false;
                }
                k += 1;
            }
            true
        },
        Value::Dictionary(entries) => {
            proof {
                lemma_entries_model(entries@);
            }
            if !keys_are_unique(entries) {
                return false;
            }
            let mut k: usize = 0;
            while k < entries.len()
                invariant
                    k <= entries.len(),
                    value == Value::Dictionary(*entries),
                    keys_unique(entries_model(entries@)),
                    forall|i: int| 0 <= i < k ==> (#[trigger] entries@[i]).1@.well_formed(),
                decreases entries.len() - k,
            {
                proof {
                    assert(value->Dictionary_0 == *entries);
                }
                if !is_well_formed(&entries[k].1) {
                    proof {
                        lemma_entries_model(entries@);
                        assert(!entries_model(entries@)[k as int].1.well_formed());
                    }
                    return false;
                }
                k += 1;
            }
            true
        },
    }
}

impl Clone for Value {
    /// A copy of the value, entry by entry and in the same order.
    fn clone(&self) -> (r: Self)
        ensures
            r@ == self@,
        decreases self,
    {
        match self {
            Value::ByteString(bytes) => Value::ByteString(slice_to_vec(bytes.as_slice())),
            Value::Integer(i) => Value::Integer(*i),
            Value::List(items) => {
                let mut copies: Vec<Value> = Vec::new();
                let mut k: usize = 0;
                while k < items.len()
                    invariant
                        k <= items.len(),
                        self == Value::List(*items),
                        copies@.len() == k,
                        forall|i: int| 0 <= i < k ==> (#[trigger] copies@[i])@ == items@[i]@,
                    decreases items.len() - k,
                {
                    proof {
                        assert(self->List_0 == *items);
                    }
                    let copy = items[k].clone();
                    copies.push(copy);
                    k += 1;
                }
                proof {
                    lemma_items_model(items@);
                    lemma_items_model(copies@);
                    assert(items_model(copies@) =~= items_model(items@));
                }
                Value::List(copies)
            },
            Value::Dictionary(entries) => {
                let mut copies: Vec<(Vec<u8>, Value)> = Vec::new();
                let mut k: usize = 0;
                while k < entries.len()
                    invariant
                        k <= entries.len(),
                        self == Value::Dictionary(*entries),
                        copies@.len() == k,
                        forall|i: int|
                            0 <= i < k ==> (#[trigger] copies@[i]).0@ == entries@[i].0@
                                && copies@[i].1@ == entries@[i].1@,
                    decreases entries.len() - k,
                {
                    proof {
                        assert(self->Dictionary_0 == *entries);
                    }
                    let key = slice_to_vec(entries[k].0.as_slice());
                    let copy = entries[k].1.clone();
                    copies.push((key, copy));
                    k += 1;
                }
                proof {
                    lemma_entries_model(entries@);
                    lemma_entries_model(copies@);
                    assert(entries_model(copies@) =~= entries_model(entries@));
                }
                Value::Dictionary(copies)
            },
        }
    }
}

} // verus!
