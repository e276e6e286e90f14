//! Bencode, the encoding of BitTorrent metainfo and peer messages: a reader
//! that hands out tokens, a writer that puts the entries of every dictionary
//! in key order, and values without a schema that go through both.

pub mod de;
pub mod decimal;
pub mod error;
pub mod order;
pub mod roundtrip;
pub mod ser;
pub mod sorted;
pub mod truncation;
pub mod typed;
pub mod value;
pub mod wire;

pub use de::{from_bytes, from_str, Deserializer};
pub use error::{Error, Result};
pub use ser::{to_bytes, to_string, Serializer};
