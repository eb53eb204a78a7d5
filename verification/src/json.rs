//! The projection of a value onto a JSON-shaped value, for display.

use vstd::prelude::*;
use vstd::slice::slice_to_vec;
use vstd::string::StringSliceAdditionalSpecFns;
use crate::decode::{decode, decoding};
use crate::error::Error;
use crate::text::{string_from_utf8, text_of};
use crate::value::{lemma_entries_model, lemma_items_model, Bencode, Value};

verus! {

/// The mathematical model of a JSON-shaped value. An object is modelled by
/// its members in order.
pub enum Json {
    Text(Seq<char>),
    Number(i64),
    Array(Seq<Json>),
    Object(Seq<(Seq<char>, Json)>),
}

/// A JSON-shaped value: what a Bencode value is shown as.
///
/// A number is a signed 64-bit integer. JSON consumers that hold numbers as
/// double-precision floats read it exactly only up to 2^53 in magnitude.
#[derive(Debug, PartialEq, Eq)]
pub enum JsonValue {
    /// A text.
    String(String),
    /// An integer.
    Number(i64),
    /// Values in order.
    Array(Vec<JsonValue>),
    /// Names with their values, in order.
    Object(Vec<(String, JsonValue)>),
}

/// The model of a JSON-shaped value.
pub open spec fn json_model(j: JsonValue) -> Json
    decreases j,
{
    match j {
        JsonValue::String(s) => Json::Text(s@),
        JsonValue::Number(n) => Json::Number(n),
        JsonValue::Array(items) => Json::Array(json_items_model(items@)),
        JsonValue::Object(members) => Json::Object(json_members_model(members@)),
    }
}

/// The models of a sequence of JSON-shaped values, in order.
pub open spec fn json_items_model(items: Seq<JsonValue>) -> Seq<Json>
    decreases items,
{
    if items.len() == 0 {
        Seq::empty()
    } else {
        json_items_model(items.drop_last()).push(json_model(items.last()))
    }
}

/// The models of a sequence of members, in order.
pub open spec fn json_members_model(members: Seq<(String, JsonValue)>) -> Seq<(Seq<char>, Json)>
    decreases members,
{
    if members.len() == 0 {
        Seq::empty()
    } else {
        json_members_model(members.drop_last()).push(
            (members.last().0@, json_model(members.last().1)),
        )
    }
}

impl View for JsonValue {
    type V = Json;

    open spec fn view(&self) -> Json {
        json_model(*self)
    }
}

/// `json_items_model` maps item by item.
pub proof fn lemma_json_items_model(items: Seq<JsonValue>)
    ensures
        json_items_model(items).len() == items.len(),
        forall|i: int| 0 <= i < items.len() ==> #[trigger] json_items_model(items)[i] == items[i]@,
    decreases items.len(),
{
    if items.len() > 0 {
        lemma_json_items_model(items.drop_last());
    }
}

/// `json_members_model` maps member by member.
pub proof fn lemma_json_members_model(members: Seq<(String, JsonValue)>)
    ensures
        json_members_model(members).len() == members.len(),
        forall|i: int|
            0 <= i < members.len() ==> #[trigger] json_members_model(members)[i] == (
                members[i].0@,
                members[i].1@,
            ),
    decreases members.len(),
{
    if members.len() > 0 {
        lemma_json_members_model(members.drop_last());
    }
}

/// What a value is shown as: a byte string as the text that it encodes in
/// UTF-8, an integer as a number, a list as an array of what its items are
/// shown as, and a dictionary as an object with its entries in their order,
/// each key as text. There is no such form where a byte string, a key
/// included, is not valid UTF-8.
pub open spec fn projection(v: Bencode) -> Option<Json>
    decreases v,
{
    match v {
        Bencode::Bytes(b) => match text_of(b) {
            Some(text) => Some(Json::Text(text)),
            None => None,
        },
        Bencode::Int(i) => Some(Json::Number(i)),
        Bencode::List(items) => match items_projection(items) {
            Some(shown) => Some(Json::Array(shown)),
            None => None,
        },
        Bencode::Dict(entries) => match entries_projection(entries) {
            Some(shown) => Some(Json::Object(shown)),
            None => None,
        },
    }
}

/// What the items are shown as, in order, if every one has a JSON form.
pub open spec fn items_projection(items: Seq<Bencode>) -> Option<Seq<Json>>
    decreases items,
{
    if items.len() == 0 {
        Some(Seq::empty())
    } else {
        match (items_projection(items.drop_last()), projection(items.last())) {
            (Some(front), Some(last)) => Some(front.push(last)),
            _ => None,
        }
    }
}

/// What the entries are shown as, in order, if every key is text and every
/// value has a JSON form.
pub open spec fn entries_projection(entries: Seq<(Seq<u8>, Bencode)>) -> Option<
    Seq<(Seq<char>, Json)>,
>
    decreases entries,
{
    if entries.len() == 0 {
        Some(Seq::empty())
    } else {
        match (
            entries_projection(entries.drop_last()),
            text_of(entries.last().0),
            projection(entries.last().1),
        ) {
            (Some(front), Some(name), Some(shown)) => Some(front.push((name, shown))),
            _ => None,
        }
    }
}

/// Items have a JSON form exactly if each of them has one, and it is made
/// of theirs.
pub proof fn lemma_items_projection(items: Seq<Bencode>)
    ensures
        items_projection(items) is Some <==> forall|i: int|
            0 <= i < items.len() ==> projection(#[trigger] items[i]) is Some,
        items_projection(items) matches Some(shown) ==> shown.len() == items.len() && forall|
            i: int,
        | 0 <= i < items.len() ==> projection(items[i]) == Some(#[trigger] shown[i]),
    decreases items.len(),
{
    if items.len() > 0 {
        let front = items.drop_last();
        lemma_items_projection(front);
        if items_projection(items) is Some {
            assert forall|i: int| 0 <= i < items.len() implies projection(
                #[trigger] items[i],
            ) is Some by {
                if i < front.len() {
                    assert(front[i] == items[i]);
                }
            }
        }
    }
}

/// Entries have a JSON form exactly if each key is text and each value has
/// a JSON form, and it is made of those.
pub proof fn lemma_entries_projection(entries: Seq<(Seq<u8>, Bencode)>)
    ensures
        entries_projection(entries) is Some <==> forall|i: int|
            0 <= i < entries.len() ==> text_of((#[trigger] entries[i]).0) is Some && projection(
                entries[i].1,
            ) is Some,
        entries_projection(entries) matches Some(shown) ==> shown.len() == entries.len()
            && forall|i: int|
            0 <= i < entries.len() ==> text_of(entries[i].0) == Some((#[trigger] shown[i]).0)
                && projection(entries[i].1) == Some(shown[i].1),
    decreases entries.len(),
{
    if entries.len() > 0 {
        let front = entries.drop_last();
        lemma_entries_projection(front);
        if entries_projection(entries) is Some {
            assert forall|i: int| 0 <= i < entries.len() implies text_of(
                (#[trigger] entries[i]).0,
            ) is Some && projection(entries[i].1) is Some by {
                if i < front.len() {
                    assert(front[i] == entries[i]);
                }
            }
        }
    }
}

/// Shows a value as a JSON-shaped value.
///
/// Fails with `NonTextualBytes` exactly where a byte string in the value, a
/// dictionary key included, is not valid UTF-8.
pub fn convert(value: &Value) -> (r: Result<JsonValue, Error>)
    ensures
        match r {
            Ok(j) => projection(value@) == Some(j@),
            Err(e) => e == Error::NonTextualBytes && projection(value@) is None,
        },
    decreases value,
{
    match value {
        Value::ByteString(b) => {
            match string_from_utf8(slice_to_vec(b.as_slice())) {
                Some(text) => Ok(JsonValue::String(text)),
                None => Err(Error::NonTextualBytes),
            }
        },
        Value::Integer(i) => Ok(JsonValue::Number(*i)),
        Value::List(items) => {
            let ghost models = crate::value::items_model(items@);
            proof {
                lemma_items_model(items@);
                lemma_items_projection(models);
            }
            let mut shown: Vec<JsonValue> = Vec::new();
            let mut k: usize = 0;
            while k < items.len()
                invariant
                    k <= items.len(),
                    value == Value::List(*items),
                    models == crate::value::items_model(items@),
                    shown@.len() == k,
                    forall|i: int|
                        0 <= i < k ==> projection(items@[i]@) == Some(#[trigger] shown@[i]@),
                decreases items.len() - k,
            {
                match convert(&items[k]) {
                    Ok(j) => {
                        shown.push(j);
                    },
                    Err(e) => {
                        proof {
                            lemma_items_model(items@);
                            lemma_items_projection(models);
                            assert(models[k as int] == items@[k as int]@);
                        }
                        return Err(e);
                    },
                }
                k += 1;
            }
            proof {
                lemma_json_items_model(shown@);
                assert forall|i: int| 0 <= i < models.len() implies projection(
                    #[trigger] models[i],
                ) is Some by {
                    assert(projection(items@[i]@) == Some(shown@[i]@));
                }
                let expected = items_projection(models)->0;
                assert(expected =~= json_items_model(shown@));
            }
            Ok(JsonValue::Array(shown))
        },
        Value::Dictionary(entries) => {
            let ghost models = crate::value::entries_model(entries@);
            proof {
                lemma_entries_model(entries@);
                lemma_entries_projection(models);
            }
            let mut shown: Vec<(String, JsonValue)> = Vec::new();
            let mut k: usize = 0;
            while k < entries.len()
                invariant
                    k <= entries.len(),
                    value == Value::Dictionary(*entries),
                    models == crate::value::entries_model(entries@),
                    shown@.len() == k,
                    forall|i: int|
                        0 <= i < k ==> text_of(entries@[i].0@) == Some((#[trigger] shown@[i]).0@)
                            && projection(entries@[i].1@) == Some(shown@[i].1@),
                decreases entries.len() - k,
            {
                proof {
                    lemma_entries_model(entries@);
                    lemma_entries_projection(models);
                    assert(models[k as int] == (entries@[k as int].0@, entries@[k as int].1@));
                }
                let name = match string_from_utf8(slice_to_vec(entries[k].0.as_slice())) {
                    Some(text) => text,
                    None => {
                        return Err(Error::NonTextualBytes);
                    },
                };
                match convert(&entries[k].1) {
                    Ok(j) => {
                        shown.push((name, j));
                    },
                    Err(e) => {
                        return Err(e);
                    },
                }
                k += 1;
            }
            proof {
                lemma_json_members_model(shown@);
                assert forall|i: int| 0 <= i < models.len() implies text_of(
                    (#[trigger] models[i]).0,
                ) is Some && projection(models[i].1) is Some by {
                    assert(text_of(entries@[i].0@) == Some(shown@[i].0@));
                }
                let expected = entries_projection(models)->0;
                assert(expected =~= json_members_model(shown@));
            }
            Ok(JsonValue::Object(shown))
        },
    }
}

/// What decoding an input and showing the value gives.
pub open spec fn decoded_projection(bytes: Seq<u8>) -> Result<Json, Error> {
    match decoding(bytes) {
        Ok(v) => match projection(v) {
            Some(j) => Ok(j),
            None => Err(Error::NonTextualBytes),
        },
        Err(e) => Err(e),
    }
}

/// Decodes a Bencode text and shows the value as a JSON-shaped value.
///
/// Fails as `decode` does on the bytes of the text, and with
/// `NonTextualBytes` where the value has no JSON form.
pub fn decode_bencoded_value(encoded_value: &str) -> (r: Result<JsonValue, Error>)
    ensures
        match r {
            Ok(j) => decoded_projection(encoded_value.spec_bytes()) == Ok::<Json, Error>(j@),
            Err(e) => decoded_projection(encoded_value.spec_bytes()) == Err::<Json, Error>(e),
        },
{
    match decode(encoded_value.as_bytes()) {
        Ok(value) => convert(&value),
        Err(e) => Err(e),
    }
}

} // verus!
