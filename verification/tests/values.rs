use torrent_meta::decode::bind_entry;
use torrent_meta::value::{is_well_formed, keys_are_unique};
use torrent_meta::{canonicalize, decode, Value};

fn entry(key: &str, value: i64) -> (Vec<u8>, Value) {
    (key.as_bytes().to_vec(), Value::Integer(value))
}

#[test]
fn values_without_dictionaries_are_well_formed() {
    assert!(is_well_formed(&Value::Integer(1)));
    assert!(is_well_formed(&Value::ByteString(b"a".to_vec())));
    assert!(is_well_formed(&Value::List(vec![Value::Integer(1), Value::Integer(1)])));
}

#[test]
fn dictionary_with_a_key_twice_is_not_well_formed() {
    let twice = Value::Dictionary(vec![entry("a", 1), entry("b", 2), entry("a", 3)]);
    assert!(!is_well_formed(&twice));
    assert!(!is_well_formed(&Value::List(vec![Value::Integer(1), twice.clone()])));
    assert!(!is_well_formed(&Value::Dictionary(vec![(b"k".to_vec(), twice)])));
}

#[test]
fn dictionary_with_different_keys_is_well_formed() {
    let v = Value::Dictionary(vec![
        entry("b", 1),
        entry("a", 1),
        (b"".to_vec(), Value::Dictionary(vec![entry("a", 1), entry("ab", 1)])),
    ]);
    assert!(is_well_formed(&v));
}

#[test]
fn keys_are_unique_compares_every_pair() {
    assert!(keys_are_unique(&vec![]));
    assert!(keys_are_unique(&vec![entry("a", 1)]));
    assert!(keys_are_unique(&vec![entry("a", 1), entry("b", 1), entry("c", 1)]));
    assert!(!keys_are_unique(&vec![entry("a", 1), entry("a", 2)]));
    assert!(!keys_are_unique(&vec![entry("a", 1), entry("b", 1), entry("c", 1), entry("b", 1)]));
}

#[test]
fn what_decode_returns_is_well_formed() {
    let decoded = decode(b"d1:ai1e1:bi2e1:ai3e1:cd1:xi1e1:xi2eee").unwrap();
    assert!(is_well_formed(&decoded));
}

#[test]
fn canonical_form_of_a_well_formed_value_is_well_formed() {
    let v = Value::Dictionary(vec![entry("b", 1), entry("a", 2)]);
    assert!(is_well_formed(&canonicalize(&v)));
}

#[test]
fn bind_entry_adds_a_new_key_at_the_end() {
    let mut entries = vec![entry("b", 1)];
    bind_entry(&mut entries, b"a".to_vec(), Value::Integer(2));
    assert_eq!(entries, vec![entry("b", 1), entry("a", 2)]);
}

#[test]
fn bind_entry_replaces_the_value_of_a_key_in_place() {
    let mut entries = vec![entry("b", 1), entry("a", 2), entry("c", 3)];
    bind_entry(&mut entries, b"a".to_vec(), Value::List(Vec::new()));
    assert_eq!(
        entries,
        vec![entry("b", 1), (b"a".to_vec(), Value::List(Vec::new())), entry("c", 3)]
    );
}

#[test]
fn clone_copies_the_whole_tree() {
    let v = Value::Dictionary(vec![
        entry("b", 1),
        (
            b"a".to_vec(),
            Value::List(vec![
                Value::ByteString(vec![0, 255]),
                Value::Dictionary(vec![entry("z", -1)]),
            ]),
        ),
    ]);
    assert_eq!(v.clone(), v);
    assert_eq!(Value::Integer(7).clone(), Value::Integer(7));
}
