use torrent_meta::decode::{decode_byte_string, decode_integer, decode_value};
use torrent_meta::{decode, Error, Value};

fn bytes(text: &str) -> Value {
    Value::ByteString(text.as_bytes().to_vec())
}

#[test]
fn integer_zero() {
    assert_eq!(decode(b"i0e"), Ok(Value::Integer(0)));
}

#[test]
fn integer_negative_zero_is_rejected() {
    assert_eq!(decode(b"i-0e"), Err(Error::MalformedInput(2)));
}

#[test]
fn integer_negative() {
    assert_eq!(decode(b"i-42e"), Ok(Value::Integer(-42)));
}

#[test]
fn integer_with_leading_zero_is_rejected() {
    assert_eq!(decode(b"i04e"), Err(Error::MalformedInput(1)));
    assert_eq!(decode(b"i00e"), Err(Error::MalformedInput(1)));
    assert_eq!(decode(b"i-04e"), Err(Error::MalformedInput(2)));
}

#[test]
fn integer_positive() {
    assert_eq!(decode(b"i52e"), Ok(Value::Integer(52)));
    assert_eq!(decode(b"i7e"), Ok(Value::Integer(7)));
    assert_eq!(decode(b"i1234567890e"), Ok(Value::Integer(1234567890)));
}

#[test]
fn integer_at_the_ends_of_the_range() {
    assert_eq!(decode(b"i9223372036854775807e"), Ok(Value::Integer(i64::MAX)));
    assert_eq!(decode(b"i-9223372036854775808e"), Ok(Value::Integer(i64::MIN)));
}

#[test]
fn integer_outside_the_range_is_rejected() {
    assert_eq!(decode(b"i9223372036854775808e"), Err(Error::MalformedInput(1)));
    assert_eq!(decode(b"i-9223372036854775809e"), Err(Error::MalformedInput(2)));
    assert_eq!(
        decode(b"i99999999999999999999999999999999999999999e"),
        Err(Error::MalformedInput(1))
    );
}

#[test]
fn integer_without_digits_is_rejected() {
    assert_eq!(decode(b"ie"), Err(Error::MalformedInput(1)));
    assert_eq!(decode(b"i-e"), Err(Error::MalformedInput(2)));
}

#[test]
fn integer_with_a_plus_sign_is_rejected() {
    assert_eq!(decode(b"i+5e"), Err(Error::MalformedInput(1)));
}

#[test]
fn integer_with_a_stray_byte_is_rejected() {
    assert_eq!(decode(b"i1x2e"), Err(Error::MalformedInput(2)));
    assert_eq!(decode(b"i1-2e"), Err(Error::MalformedInput(2)));
    assert_eq!(decode(b"i 1e"), Err(Error::MalformedInput(1)));
}

#[test]
fn integer_that_does_not_close_is_truncated() {
    assert_eq!(decode(b"i"), Err(Error::TruncatedInput));
    assert_eq!(decode(b"i-"), Err(Error::TruncatedInput));
    assert_eq!(decode(b"i12"), Err(Error::TruncatedInput));
    assert_eq!(decode(b"i-0"), Err(Error::TruncatedInput));
}

#[test]
fn byte_string_empty() {
    assert_eq!(decode(b"0:"), Ok(Value::ByteString(Vec::new())));
}

#[test]
fn byte_string_plain() {
    assert_eq!(decode(b"5:hello"), Ok(bytes("hello")));
    assert_eq!(decode(b"12:hello world!"), Ok(bytes("hello world!")));
}

#[test]
fn byte_string_keeps_arbitrary_bytes() {
    assert_eq!(decode(b"3:\x00\xff:"), Ok(Value::ByteString(vec![0, 255, 58])));
}

#[test]
fn byte_string_longer_than_the_input_is_truncated() {
    assert_eq!(decode(b"5:abc"), Err(Error::TruncatedInput));
    assert_eq!(decode(b"1:"), Err(Error::TruncatedInput));
    assert_eq!(
        decode(b"99999999999999999999999999999999:abc"),
        Err(Error::TruncatedInput)
    );
}

#[test]
fn byte_string_whose_length_does_not_close_is_truncated() {
    assert_eq!(decode(b"1"), Err(Error::TruncatedInput));
    assert_eq!(decode(b"12"), Err(Error::TruncatedInput));
}

#[test]
fn byte_string_length_with_leading_zero_is_rejected() {
    assert_eq!(decode(b"05:hello"), Err(Error::MalformedInput(0)));
    assert_eq!(decode(b"00:"), Err(Error::MalformedInput(0)));
}

#[test]
fn byte_string_length_with_a_stray_byte_is_rejected() {
    assert_eq!(decode(b"5x:hello"), Err(Error::MalformedInput(1)));
    assert_eq!(decode(b"5-hello"), Err(Error::MalformedInput(1)));
}

#[test]
fn empty_input_is_truncated() {
    assert_eq!(decode(b""), Err(Error::TruncatedInput));
}

#[test]
fn unknown_first_byte_is_rejected() {
    assert_eq!(decode(b"x"), Err(Error::MalformedInput(0)));
    assert_eq!(decode(b"e"), Err(Error::MalformedInput(0)));
    assert_eq!(decode(b" i1e"), Err(Error::MalformedInput(0)));
    assert_eq!(decode(b"-1:a"), Err(Error::MalformedInput(0)));
    assert_eq!(decode(b":"), Err(Error::MalformedInput(0)));
}

#[test]
fn bytes_behind_the_value_are_rejected() {
    assert_eq!(decode(b"i1ei2e"), Err(Error::MalformedInput(3)));
    assert_eq!(decode(b"5:hello "), Err(Error::MalformedInput(7)));
    assert_eq!(decode(b"lee"), Err(Error::MalformedInput(2)));
    assert_eq!(decode(b"i1e\n"), Err(Error::MalformedInput(3)));
}

#[test]
fn list_empty() {
    assert_eq!(decode(b"le"), Ok(Value::List(Vec::new())));
}

#[test]
fn list_keeps_order() {
    assert_eq!(
        decode(b"l5:helloi52ee"),
        Ok(Value::List(vec![bytes("hello"), Value::Integer(52)]))
    );
    assert_eq!(
        decode(b"li3ei1ei2ee"),
        Ok(Value::List(vec![Value::Integer(3), Value::Integer(1), Value::Integer(2)]))
    );
}

#[test]
fn list_nested() {
    assert_eq!(
        decode(b"lli1eelee"),
        Ok(Value::List(vec![
            Value::List(vec![Value::Integer(1)]),
            Value::List(Vec::new()),
        ]))
    );
}

#[test]
fn list_that_does_not_close_is_truncated() {
    assert_eq!(decode(b"l"), Err(Error::TruncatedInput));
    assert_eq!(decode(b"li1e"), Err(Error::TruncatedInput));
    assert_eq!(decode(b"ll"), Err(Error::TruncatedInput));
    assert_eq!(decode(b"l5:he"), Err(Error::TruncatedInput));
}

#[test]
fn list_with_a_malformed_item_gives_its_offset() {
    assert_eq!(decode(b"li1exe"), Err(Error::MalformedInput(4)));
    assert_eq!(decode(b"li04ee"), Err(Error::MalformedInput(2)));
}

#[test]
fn dictionary_empty() {
    assert_eq!(decode(b"de"), Ok(Value::Dictionary(Vec::new())));
}

#[test]
fn dictionary_keeps_the_order_of_the_input() {
    assert_eq!(
        decode(b"d3:foo3:bar5:helloi52ee"),
        Ok(Value::Dictionary(vec![
            (b"foo".to_vec(), bytes("bar")),
            (b"hello".to_vec(), Value::Integer(52)),
        ]))
    );
}

#[test]
fn dictionary_with_unsorted_keys_decodes() {
    assert_eq!(
        decode(b"d1:bi1e1:ai2ee"),
        Ok(Value::Dictionary(vec![
            (b"b".to_vec(), Value::Integer(1)),
            (b"a".to_vec(), Value::Integer(2)),
        ]))
    );
}

#[test]
fn dictionary_later_value_wins() {
    assert_eq!(
        decode(b"d1:ai1e1:bi2e1:ai3ee"),
        Ok(Value::Dictionary(vec![
            (b"a".to_vec(), Value::Integer(3)),
            (b"b".to_vec(), Value::Integer(2)),
        ]))
    );
}

#[test]
fn dictionary_key_that_is_no_byte_string_is_rejected() {
    assert_eq!(decode(b"di1ei2ee"), Err(Error::MalformedInput(1)));
    assert_eq!(decode(b"dlei1ee"), Err(Error::MalformedInput(1)));
    assert_eq!(decode(b"d1:ai1exe"), Err(Error::MalformedInput(7)));
}

#[test]
fn dictionary_without_a_value_for_a_key() {
    assert_eq!(decode(b"d1:ae"), Err(Error::MalformedInput(4)));
    assert_eq!(decode(b"d1:a"), Err(Error::TruncatedInput));
}

#[test]
fn dictionary_that_does_not_close_is_truncated() {
    assert_eq!(decode(b"d"), Err(Error::TruncatedInput));
    assert_eq!(decode(b"d1:ai1e"), Err(Error::TruncatedInput));
    assert_eq!(decode(b"d1:a1:"), Err(Error::TruncatedInput));
}

#[test]
fn dictionary_nested() {
    assert_eq!(
        decode(b"d1:ad1:bleee"),
        Ok(Value::Dictionary(vec![(
            b"a".to_vec(),
            Value::Dictionary(vec![(b"b".to_vec(), Value::List(Vec::new()))]),
        )]))
    );
}

#[test]
fn decode_value_reads_at_an_offset_and_says_where_it_ends() {
    assert_eq!(decode_value(b"xxi7e5:hello", 2), Ok((Value::Integer(7), 5)));
    assert_eq!(decode_value(b"xxi7e5:hello", 5), Ok((bytes("hello"), 12)));
    assert_eq!(decode_value(b"xxi7e5:hello", 12), Err(Error::TruncatedInput));
    assert_eq!(decode_value(b"xxi7e5:hello", 0), Err(Error::MalformedInput(0)));
}

#[test]
fn decode_byte_string_reads_at_an_offset() {
    assert_eq!(decode_byte_string(b"i1e3:abcd", 3), Ok((b"abc".to_vec(), 8)));
    assert_eq!(decode_byte_string(b"i1e3:abcd", 0), Err(Error::MalformedInput(0)));
    assert_eq!(decode_byte_string(b":", 0), Err(Error::MalformedInput(0)));
    assert_eq!(decode_byte_string(b"", 0), Err(Error::TruncatedInput));
}

#[test]
fn decode_integer_reads_at_an_offset() {
    assert_eq!(decode_integer(b"lei-17e", 2), Ok((-17, 7)));
    assert_eq!(decode_integer(b"i12", 0), Err(Error::TruncatedInput));
}
