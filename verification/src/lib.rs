//! Bencode values, their canonical encoding and decoding, a projection onto
//! JSON-shaped values, and the extraction of BitTorrent metainfo with its
//! info-hash.

pub mod decimal;
pub mod decode;
pub mod encode;
pub mod error;
pub mod grammar;
pub mod hash;
pub mod json;
pub mod laws;
pub mod order;
pub mod text;
pub mod token;
pub mod torrent;
pub mod url;
pub mod value;

pub use crate::decode::decode;
pub use crate::encode::{canonicalize, encode};
pub use crate::error::{Error, Field};
pub use crate::json::{convert, decode_bencoded_value, JsonValue};
pub use crate::torrent::{extract, parse_torrent_file, Torrent, TorrentInfo};
pub use crate::value::Value;
