//! The info-hash: the SHA-1 digest of an encoding, written in hexadecimal.

use sha1::{Digest, Sha1};
use vstd::prelude::*;
use crate::encode::{encode, encoding};
use crate::value::{Bencode, Value};

verus! {

/// The SHA-1 digest of the data.
pub uninterp spec fn sha1_digest(data: Seq<u8>) -> Seq<u8>;

/// `Sha1::digest` of the sha1 crate, believed and not proved: what it
/// returns is named `sha1_digest` and is 20 bytes long.
#[verifier::external_body]
fn sha1(data: &[u8]) -> (digest: Vec<u8>)
    ensures
        digest@ == sha1_digest(data@),
        digest@.len() == 20,
{
    Sha1::digest(data).to_vec()
}

/// The lower-case hexadecimal digit of a number below 16.
pub open spec fn hex_digit(nibble: u8) -> char {
    if nibble < 10 {
        (48 + nibble) as char
    } else {
        (87 + nibble) as char
    }
}

/// Whether the character is one of `0` to `9` and `a` to `f`.
pub open spec fn is_lower_hex(c: char) -> bool {
    ('0' <= c && c <= '9') || ('a' <= c && c <= 'f')
}

/// The bytes in lower-case hexadecimal: two digits for each byte, the high
/// four bits first.
pub open spec fn lower_hex(bytes: Seq<u8>) -> Seq<char> {
    Seq::new(
        2 * bytes.len(),
        |i: int|
            if i % 2 == 0 {
                hex_digit(bytes[i / 2] / 16)
            } else {
                hex_digit(bytes[i / 2] % 16)
            },
    )
}

/// `hex::encode` of the hex crate, believed and not proved: it writes each
/// byte as two lower-case hexadecimal digits, the high four bits first.
#[verifier::external_body]
fn hex_encode(bytes: &[u8]) -> (text: String)
    ensures
        text@ == lower_hex(bytes@),
{
    hex::encode(bytes)
}

/// Writes the bytes in lower-case hexadecimal.
pub fn hex_string(bytes: &[u8]) -> (text: String)
    ensures
        text@ == lower_hex(bytes@),
        text@.len() == 2 * bytes@.len(),
        forall|i: int| 0 <= i < text@.len() ==> is_lower_hex(#[trigger] text@[i]),
{
    hex_encode(bytes)
}

/// The info-hash of a value: the SHA-1 digest of its canonical encoding, in
/// lower-case hexadecimal.
pub open spec fn info_hash_of(info: Bencode) -> Seq<char> {
    lower_hex(sha1_digest(encoding(info)))
}

/// Computes the info-hash of a value: 40 lower-case hexadecimal digits.
pub fn info_hash(info: &Value) -> (text: String)
    ensures
        text@ == info_hash_of(info@),
        text@.len() == 40,
        forall|i: int| 0 <= i < text@.len() ==> is_lower_hex(#[trigger] text@[i]),
{
    let encoded = encode(info);
    let digest = sha1(encoded.as_slice());
    hex_string(digest.as_slice())
}

} // verus!
