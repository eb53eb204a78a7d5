//! The metainfo of a single-file torrent, read out of a decoded value.

use vstd::prelude::*;
use vstd::slice::slice_to_vec;
use vstd::string::StringSliceAdditionalSpecFns;
use vstd::utf8::encode_utf8;
use crate::decode::{decode, decoding};
use crate::error::{field_name, Error, Field};
use crate::hash::{info_hash, info_hash_of, is_lower_hex};
use crate::text::{string_from_utf8, text_of};
use crate::url::{absolute_url, parse_url};
use crate::value::{entries_model, find, lookup, Bencode, Value};

verus! {

/// What a torrent says of its content.
#[derive(Debug, PartialEq, Eq)]
pub struct TorrentInfo {
    /// The size of the file in bytes.
    pub length: i64,
    /// The suggested name of the file.
    pub name: String,
    /// The number of bytes in each piece.
    pub piece_length: i64,
    /// The SHA-1 hashes of the pieces, 20 bytes each, one after the other.
    pub pieces: Vec<u8>,
}

/// A torrent: where its tracker is, what it says of its content, and the
/// hash that identifies it.
#[derive(Debug, PartialEq, Eq)]
pub struct Torrent {
    /// The URL of the tracker, in serialized form.
    pub announce: String,
    /// What the torrent says of its content.
    pub info: TorrentInfo,
    /// The SHA-1 digest of the canonical encoding of the `info` dictionary as
    /// the torrent holds it, in 40 lower-case hexadecimal digits.
    pub info_hash: String,
}

/// The model of a `TorrentInfo`.
pub struct InfoModel {
    pub length: i64,
    pub name: Seq<char>,
    pub piece_length: i64,
    pub pieces: Seq<u8>,
}

/// The model of a `Torrent`.
pub struct Metainfo {
    pub announce: Seq<char>,
    pub info: InfoModel,
    pub info_hash: Seq<char>,
}

/// The length of the SHA-1 hash of one piece, in bytes.
pub const PIECE_HASH_LENGTH: usize = 20;

impl InfoModel {
    /// The sizes are in order: the length is not negative, the piece length
    /// is above zero, and the pieces are whole hashes of 20 bytes each.
    /// Extraction hands on what the torrent says and does not ask for this.
    pub open spec fn well_formed(self) -> bool {
        &&& self.length >= 0
        &&& self.piece_length > 0
        &&& self.pieces.len() % (PIECE_HASH_LENGTH as nat) == 0
    }
}

impl TorrentInfo {
    /// Whether the sizes are in order: the length is not negative, the piece
    /// length is above zero, and the pieces are whole hashes of 20 bytes
    /// each.
    pub fn is_well_formed(&self) -> (r: bool)
        ensures
            r == self@.well_formed(),
    {
        self.length >= 0 && self.piece_length > 0 && self.pieces.len() % PIECE_HASH_LENGTH == 0
    }
}

impl View for TorrentInfo {
    type V = InfoModel;

    open spec fn view(&self) -> InfoModel {
        InfoModel {
            length: self.length,
            name: self.name@,
            piece_length: self.piece_length,
            pieces: self.pieces@,
        }
    }
}

impl View for Torrent {
    type V = Metainfo;

    open spec fn view(&self) -> Metainfo {
        Metainfo { announce: self.announce@, info: self.info@, info_hash: self.info_hash@ }
    }
}

/// The key under which a dictionary holds the field: the UTF-8 encoding of
/// the field's name.
pub open spec fn field_key(field: Field) -> Seq<u8> {
    encode_utf8(field_name(field))
}

/// The integer that the entries hold for the field.
pub open spec fn int_field(entries: Seq<(Seq<u8>, Bencode)>, field: Field) -> Result<i64, Error> {
    match lookup(entries, field_key(field)) {
        Some(Bencode::Int(i)) => Ok(i),
        _ => Err(Error::SchemaError(field)),
    }
}

/// The byte string that the entries hold for the field.
pub open spec fn bytes_field(entries: Seq<(Seq<u8>, Bencode)>, field: Field) -> Result<
    Seq<u8>,
    Error,
> {
    match lookup(entries, field_key(field)) {
        Some(Bencode::Bytes(b)) => Ok(b),
        _ => Err(Error::SchemaError(field)),
    }
}

/// The text that the entries hold for the field: a byte string that is
/// valid UTF-8.
pub open spec fn text_field(entries: Seq<(Seq<u8>, Bencode)>, field: Field) -> Result<
    Seq<char>,
    Error,
> {
    match lookup(entries, field_key(field)) {
        Some(Bencode::Bytes(b)) => match text_of(b) {
            Some(text) => Ok(text),
            None => Err(Error::SchemaError(field)),
        },
        _ => Err(Error::SchemaError(field)),
    }
}

/// The entries of the dictionary that the entries hold for the field.
pub open spec fn dict_field(entries: Seq<(Seq<u8>, Bencode)>, field: Field) -> Result<
    Seq<(Seq<u8>, Bencode)>,
    Error,
> {
    match lookup(entries, field_key(field)) {
        Some(Bencode::Dict(inner)) => Ok(inner),
        _ => Err(Error::SchemaError(field)),
    }
}

/// The text of the announce field: the field has to be a byte string, and
/// the byte string valid UTF-8.
pub open spec fn announce_text(top: Seq<(Seq<u8>, Bencode)>) -> Result<Seq<char>, Error> {
    match bytes_field(top, Field::Announce) {
        Ok(b) => match text_of(b) {
            Some(text) => Ok(text),
            None => Err(Error::InvalidAnnounceUrl),
        },
        Err(e) => Err(e),
    }
}

/// What the `info` dictionary says: its four fields, asked for in the order
/// `length`, `name`, `piece length`, `pieces`; the first that is absent or of
/// the wrong kind is the error.
pub open spec fn info_extraction(info: Seq<(Seq<u8>, Bencode)>) -> Result<InfoModel, Error> {
    match int_field(info, Field::Length) {
        Err(e) => Err(e),
        Ok(length) => match text_field(info, Field::Name) {
            Err(e) => Err(e),
            Ok(name) => match int_field(info, Field::PieceLength) {
                Err(e) => Err(e),
                Ok(piece_length) => match bytes_field(info, Field::Pieces) {
                    Err(e) => Err(e),
                    Ok(pieces) => Ok(InfoModel { length, name, piece_length, pieces }),
                },
            },
        },
    }
}

/// The torrent that a value describes.
///
/// The value has to be a dictionary, with a byte string under `announce`
/// that is text, and a dictionary under `info` with its four fields; at last
/// the announce text has to be an absolute URL. The demands are made in this
/// order, and the first that is not met is the error. The info-hash is that
/// of the value under `info` as it stands, not of the four fields alone, so
/// that a field such as `md5sum` is hashed with them.
pub open spec fn extraction(v: Bencode) -> Result<Metainfo, Error> {
    match v {
        Bencode::Dict(top) => match announce_text(top) {
            Err(e) => Err(e),
            Ok(text) => match dict_field(top, Field::Info) {
                Err(e) => Err(e),
                Ok(info) => match info_extraction(info) {
                    Err(e) => Err(e),
                    Ok(said) => match absolute_url(text) {
                        None => Err(Error::InvalidAnnounceUrl),
                        Some(url) => Ok(
                            Metainfo {
                                announce: url,
                                info: said,
                                info_hash: info_hash_of(Bencode::Dict(info)),
                            },
                        ),
                    },
                },
            },
        },
        _ => Err(Error::SchemaError(Field::Root)),
    }
}

/// Extraction is deterministic: whatever two calls of `extract` return for
/// the same value is the same, the info-hash included.
pub proof fn law_extraction_deterministic(
    v: Bencode,
    first: Result<Metainfo, Error>,
    second: Result<Metainfo, Error>,
)
    requires
        first == extraction(v),
        second == extraction(v),
    ensures
        first == second,
        first matches Ok(t) ==> second matches Ok(u) && t.info_hash == u.info_hash,
{
}

/// The text that a dictionary holds for the field.
///
/// Fails with `SchemaError` of the field where the field is absent, no byte
/// string, or no valid UTF-8.
pub fn extract_string(field: Field, d: &Vec<(Vec<u8>, Value)>) -> (r: Result<String, Error>)
    ensures
        match r {
            Ok(s) => text_field(entries_model(d@), field) == Ok::<Seq<char>, Error>(s@),
            Err(e) => text_field(entries_model(d@), field) == Err::<Seq<char>, Error>(e),
        },
{
    match find(d, field.name().as_bytes()) {
        Some(Value::ByteString(b)) => match string_from_utf8(slice_to_vec(b.as_slice())) {
            Some(text) => Ok(text),
            None => Err(Error::SchemaError(field)),
        },
        _ => Err(Error::SchemaError(field)),
    }
}

/// The byte string that a dictionary holds for the field.
///
/// Fails with `SchemaError` of the field where the field is absent or no
/// byte string.
pub fn extract_bytes(field: Field, d: &Vec<(Vec<u8>, Value)>) -> (r: Result<Vec<u8>, Error>)
    ensures
        match r {
            Ok(b) => bytes_field(entries_model(d@), field) == Ok::<Seq<u8>, Error>(b@),
            Err(e) => bytes_field(entries_model(d@), field) == Err::<Seq<u8>, Error>(e),
        },
{
    match find(d, field.name().as_bytes()) {
        Some(Value::ByteString(b)) => Ok(slice_to_vec(b.as_slice())),
        _ => Err(Error::SchemaError(field)),
    }
}

/// The entries of the dictionary that a dictionary holds for the field.
///
/// Fails with `SchemaError` of the field where the field is absent or no
/// dictionary.
pub fn extract_dict<'a>(field: Field, d: &'a Vec<(Vec<u8>, Value)>) -> (r: Result<
    &'a Vec<(Vec<u8>, Value)>,
    Error,
>)
    ensures
        match r {
            Ok(inner) => dict_field(entries_model(d@), field) == Ok::<
                Seq<(Seq<u8>, Bencode)>,
                Error,
            >(entries_model(inner@)) && lookup(entries_model(d@), field_key(field)) == Some(
                Value::Dictionary(*inner)@,
            ),
            Err(e) => dict_field(entries_model(d@), field) == Err::<
                Seq<(Seq<u8>, Bencode)>,
                Error,
            >(e),
        },
{
    match find(d, field.name().as_bytes()) {
        Some(Value::Dictionary(inner)) => Ok(inner),
        _ => Err(Error::SchemaError(field)),
    }
}

/// The integer that a dictionary holds for the field.
///
/// Fails with `SchemaError` of the field where the field is absent or no
/// integer.
pub fn extract_int(field: Field, d: &Vec<(Vec<u8>, Value)>) -> (r: Result<i64, Error>)
    ensures
        r == int_field(entries_model(d@), field),
{
    match find(d, field.name().as_bytes()) {
        Some(Value::Integer(i)) => Ok(*i),
        _ => Err(Error::SchemaError(field)),
    }
}

/// What a dictionary under `info` says.
pub fn extract_info(info: &Vec<(Vec<u8>, Value)>) -> (r: Result<TorrentInfo, Error>)
    ensures
        match r {
            Ok(said) => info_extraction(entries_model(info@)) == Ok::<InfoModel, Error>(said@),
            Err(e) => info_extraction(entries_model(info@)) == Err::<InfoModel, Error>(e),
        },
{
    let length = match extract_int(Field::Length, info) {
        Ok(i) => i,
        Err(e) => {
            return Err(e);
        },
    };
    let name = match extract_string(Field::Name, info) {
        Ok(s) => s,
        Err(e) => {
            return Err(e);
        },
    };
    let piece_length = match extract_int(Field::PieceLength, info) {
        Ok(i) => i,
        Err(e) => {
            return Err(e);
        },
    };
    let pieces = match extract_bytes(Field::Pieces, info) {
        Ok(b) => b,
        Err(e) => {
            return Err(e);
        },
    };
    Ok(TorrentInfo { length, name, piece_length, pieces })
}

/// Puts a torrent together once the announce text has been parsed:
/// `announce` is the serialized URL, or `None` where the text was no
/// absolute URL, which is an `InvalidAnnounceUrl`.
pub fn assemble(announce: Option<String>, info: TorrentInfo, info_hash: String) -> (r: Result<
    Torrent,
    Error,
>)
    ensures
        match announce {
            Some(url) => r == Ok::<Torrent, Error>(Torrent { announce: url, info, info_hash }),
            None => r == Err::<Torrent, Error>(Error::InvalidAnnounceUrl),
        },
{
    match announce {
        Some(url) => Ok(Torrent { announce: url, info, info_hash }),
        None => Err(Error::InvalidAnnounceUrl),
    }
}

/// Reads the torrent that a decoded value describes.
///
/// Fails with `SchemaError` of the field that is absent or of the wrong
/// kind, with `Field::Root` where the value itself is no dictionary; and
/// with `InvalidAnnounceUrl` where the announce field is a byte string but
/// no text or no absolute URL. Either all of the torrent is returned or
/// none of it.
pub fn extract(value: &Value) -> (r: Result<Torrent, Error>)
    ensures
        match r {
            Ok(t) => extraction(value@) == Ok::<Metainfo, Error>(t@) && t.info_hash@.len() == 40
                && forall|i: int| 0 <= i < 40 ==> is_lower_hex(#[trigger] t.info_hash@[i]),
            Err(e) => extraction(value@) == Err::<Metainfo, Error>(e),
        },
{
    let top = match value {
        Value::Dictionary(entries) => entries,
        _ => {
            return Err(Error::SchemaError(Field::Root));
        },
    };
    let announce_bytes = match extract_bytes(Field::Announce, top) {
        Ok(b) => b,
        Err(e) => {
            return Err(e);
        },
    };
    let announce = match string_from_utf8(announce_bytes) {
        Some(text) => text,
        None => {
            return Err(Error::InvalidAnnounceUrl);
        },
    };
    let info = match extract_dict(Field::Info, top) {
        Ok(entries) => entries,
        Err(e) => {
            return Err(e);
        },
    };
    let hash = match find(top, Field::Info.name().as_bytes()) {
        Some(info_value) => info_hash(info_value),
        None => {
            return Err(Error::SchemaError(Field::Info));
        },
    };
    let said = match extract_info(info) {
        Ok(said) => said,
        Err(e) => {
            return Err(e);
        },
    };
    assemble(parse_url(announce.as_str()), said, hash)
}

/// What reading the content of a torrent file gives.
pub open spec fn torrent_of(content: Seq<u8>) -> Result<Metainfo, Error> {
    match decoding(content) {
        Ok(v) => extraction(v),
        Err(e) => Err(e),
    }
}

/// Reads the torrent that the content of a torrent file describes: decodes
/// the content and extracts the torrent from the value.
///
/// Fails as `decode` does on the content and as `extract` does on the value.
pub fn parse_torrent_file(content: &[u8]) -> (r: Result<Torrent, Error>)
    ensures
        match r {
            Ok(t) => torrent_of(content@) == Ok::<Metainfo, Error>(t@),
            Err(e) => torrent_of(content@) == Err::<Metainfo, Error>(e),
        },
{
    match decode(content) {
        Ok(value) => extract(&value),
        Err(e) => Err(e),
    }
}

} // verus!
