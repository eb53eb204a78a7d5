//! The ways in which decoding, projection and extraction fail.

use vstd::prelude::*;

verus! {

/// A field that a torrent has to hold.
#[derive(Debug, Clone, Copy, PartialEq, Eq)]
pub enum Field {
    /// The top-level value itself, which has to be a dictionary.
    Root,
    /// `announce`: the URL of the tracker.
    Announce,
    /// `info`: the dictionary that describes the content.
    Info,
    /// `length` in `info`: the size of the file in bytes.
    Length,
    /// `name` in `info`: the suggested name of the file.
    Name,
    /// `piece length` in `info`: the number of bytes in each piece.
    PieceLength,
    /// `pieces` in `info`: the SHA-1 hashes of the pieces, one after the other.
    Pieces,
}

/// The name under which a dictionary holds the field. The top-level value
/// stands under no name.
pub open spec fn field_name(field: Field) -> Seq<char> {
    match field {
        Field::Root => ""@,
        Field::Announce => "announce"@,
        Field::Info => "info"@,
        Field::Length => "length"@,
        Field::Name => "name"@,
        Field::PieceLength => "piece length"@,
        Field::Pieces => "pieces"@,
    }
}

impl Field {
    /// The name under which a dictionary holds the field.
    pub fn name(self) -> (r: &'static str)
        ensures
            r@ == field_name(self),
    {
        match self {
            Field::Root => "",
            Field::Announce => "announce",
            Field::Info => "info",
            Field::Length => "length",
            Field::Name => "name",
            Field::PieceLength => "piece length",
            Field::Pieces => "pieces",
        }
    }
}

/// Why a call failed.
#[derive(Debug, Clone, Copy, PartialEq, Eq)]
pub enum Error {
    /// The input departs from the grammar at this byte offset.
    MalformedInput(usize),
    /// The input ends before a construct closes.
    TruncatedInput,
    /// A byte string that is not valid UTF-8 has no JSON form.
    NonTextualBytes,
    /// The field is absent or holds a value of the wrong kind.
    SchemaError(Field),
    /// The announce field is no text, or the text is no absolute URL.
    InvalidAnnounceUrl,
}

} // verus!
