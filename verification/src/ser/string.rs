//! Writing a dictionary's key: a key is a string or bytes and nothing else.
//! A single value of another kind is of the wrong type; a sequence, a map
//! or anything else made of several parts is no valid key.

use crate::error::{Error, Unexpected};
use vstd::prelude::*;
use vstd::string::*;

verus! {

/// What a key has to be.
pub open spec fn expected_key() -> Seq<char> {
    "a string or bytes"@
}

/// Whether `e` says that `found` stood where a key was expected.
pub open spec fn is_key_mismatch(e: Error, found: Unexpected) -> bool {
    e is InvalidType && e.message() == "Invalid Type: "@ + crate::error::unexpected_words(found)
        + " (expected: `"@ + expected_key() + "`)"@
}

/// Whether `e` says that `found`, a thing made of several parts, stood where
/// a key was expected.
pub open spec fn is_key_of_parts(e: Error, found: Unexpected) -> bool {
    e is InvalidValue && e.message() == "Invalid Value: "@ + crate::error::unexpected_words(found)
        + " (expected: `"@ + expected_key() + "`)"@
}

fn of_parts(found: Unexpected) -> (r: Result<Vec<u8>, Error>)
    ensures
        r matches Err(e) && is_key_of_parts(e, found),
{
    Err(Error::invalid_value(&found, "a string or bytes"))
}

fn unexpected(found: Unexpected) -> (r: Result<Vec<u8>, Error>)
    ensures
        r matches Err(e) && is_key_mismatch(e, found),
{
    Err(Error::invalid_type(&found, "a string or bytes"))
}

/// A writer for keys: it gives the bytes of a string, of a character or of
/// bytes, without a length in front, and refuses everything else.
#[derive(Debug)]
pub struct Serializer;

impl Serializer {
    /// Refused: a boolean is no key.
    pub fn serialize_bool(&self, value: bool) -> (r: Result<Vec<u8>, Error>)
        ensures
            r matches Err(e) && is_key_mismatch(e, Unexpected::Bool(value)),
    {
        unexpected(Unexpected::Bool(value))
    }

    /// Refused: an integer is no key.
    pub fn serialize_i8(&self, value: i8) -> (r: Result<Vec<u8>, Error>)
        ensures
            r matches Err(e) && is_key_mismatch(e, Unexpected::Signed(value as i64)),
    {
        self.serialize_i64(value as i64)
    }

    /// Refused: an integer is no key.
    pub fn serialize_i16(&self, value: i16) -> (r: Result<Vec<u8>, Error>)
        ensures
            r matches Err(e) && is_key_mismatch(e, Unexpected::Signed(value as i64)),
    {
        self.serialize_i64(value as i64)
    }

    /// Refused: an integer is no key.
    pub fn serialize_i32(&self, value: i32) -> (r: Result<Vec<u8>, Error>)
        ensures
            r matches Err(e) && is_key_mismatch(e, Unexpected::Signed(value as i64)),
    {
        self.serialize_i64(value as i64)
    }

    /// Refused: an integer is no key.
    pub fn serialize_i64(&self, value: i64) -> (r: Result<Vec<u8>, Error>)
        ensures
            r matches Err(e) && is_key_mismatch(e, Unexpected::Signed(value)),
    {
        unexpected(Unexpected::Signed(value))
    }

    /// Refused: an integer is no key.
    pub fn serialize_u8(&self, value: u8) -> (r: Result<Vec<u8>, Error>)
        ensures
            r matches Err(e) && is_key_mismatch(e, Unexpected::Unsigned(value as u64)),
    {
        self.serialize_u64(value as u64)
    }

    /// Refused: an integer is no key.
    pub fn serialize_u16(&self, value: u16) -> (r: Result<Vec<u8>, Error>)
        ensures
            r matches Err(e) && is_key_mismatch(e, Unexpected::Unsigned(value as u64)),
    {
        self.serialize_u64(value as u64)
    }

    /// Refused: an integer is no key.
    pub fn serialize_u32(&self, value: u32) -> (r: Result<Vec<u8>, Error>)
        ensures
            r matches Err(e) && is_key_mismatch(e, Unexpected::Unsigned(value as u64)),
    {
        self.serialize_u64(value as u64)
    }

    /// Refused: an integer is no key.
    pub fn serialize_u64(&self, value: u64) -> (r: Result<Vec<u8>, Error>)
        ensures
            r matches Err(e) && is_key_mismatch(e, Unexpected::Unsigned(value)),
    {
        unexpected(Unexpected::Unsigned(value))
    }

    /// A character as a key: the one byte that holds the low eight bits of
    /// its code point.
    pub fn serialize_char(&self, value: char) -> (r: Result<Vec<u8>, Error>)
        ensures
            r matches Ok(v) && v@ == seq![((value as u32) % 256) as u8],
    {
        let code: u32 = value as u32;
        let low: u8 = (code % 256) as u8;
        let mut v: Vec<u8> = Vec::new();
        v.push(low);
        assert(v@ =~= seq![((value as u32) % 256) as u8]);
        Ok(v)
    }

    /// A string as a key: its UTF-8 bytes.
    pub fn serialize_str(&self, value: &str) -> (r: Result<Vec<u8>, Error>)
        ensures
            r matches Ok(v) && v@ == value.spec_bytes(),
    {
        self.serialize_bytes(value.as_bytes())
    }

    /// Bytes as a key: the bytes themselves.
    pub fn serialize_bytes(&self, value: &[u8]) -> (r: Result<Vec<u8>, Error>)
        ensures
            r matches Ok(v) && v@ == value@,
    {
        Ok(vstd::slice::slice_to_vec(value))
    }

    /// Refused: the unit value is no key.
    pub fn serialize_unit(&self) -> (r: Result<Vec<u8>, Error>)
        ensures
            r matches Err(e) && is_key_mismatch(e, Unexpected::Unit),
    {
        unexpected(Unexpected::Unit)
    }

    /// Refused: a unit struct is no key.
    pub fn serialize_unit_struct(&self, _name: &str) -> (r: Result<Vec<u8>, Error>)
        ensures
            r matches Err(e) && is_key_mismatch(e, Unexpected::Unit),
    {
        self.serialize_unit()
    }

    /// Refused: a variant is no key.
    pub fn serialize_unit_variant(&self, _variant: &str) -> (r: Result<Vec<u8>, Error>)
        ensures
            r matches Err(e) && is_key_mismatch(e, Unexpected::UnitVariant),
    {
        unexpected(Unexpected::UnitVariant)
    }

    /// Refused: a newtype struct is no key.
    pub fn serialize_newtype_struct(&self, _name: &str) -> (r: Result<Vec<u8>, Error>)
        ensures
            r matches Err(e) && is_key_mismatch(e, Unexpected::NewtypeStruct),
    {
        unexpected(Unexpected::NewtypeStruct)
    }

    /// Refused: a variant is no key.
    pub fn serialize_newtype_variant(&self, _variant: &str) -> (r: Result<Vec<u8>, Error>)
        ensures
            r matches Err(e) && is_key_mismatch(e, Unexpected::NewtypeVariant),
    {
        unexpected(Unexpected::NewtypeVariant)
    }

    /// Refused: an absent value is no key.
    pub fn serialize_none(&self) -> (r: Result<Vec<u8>, Error>)
        ensures
            r matches Err(e) && is_key_mismatch(e, Unexpected::Optional),
    {
        unexpected(Unexpected::Optional)
    }

    /// Refused: an optional value is no key.
    pub fn serialize_some(&self) -> (r: Result<Vec<u8>, Error>)
        ensures
            r matches Err(e) && is_key_mismatch(e, Unexpected::Optional),
    {
        unexpected(Unexpected::Optional)
    }

    /// Refused: a sequence is no key.
    pub fn serialize_seq(&self, _len: Option<usize>) -> (r: Result<Vec<u8>, Error>)
        ensures
            r matches Err(e) && is_key_of_parts(e, Unexpected::Sequence),
    {
        of_parts(Unexpected::Sequence)
    }

    /// Refused: a tuple is no key.
    pub fn serialize_tuple(&self, _size: usize) -> (r: Result<Vec<u8>, Error>)
        ensures
            r matches Err(e) && is_key_of_parts(e, Unexpected::Sequence),
    {
        of_parts(Unexpected::Sequence)
    }

    /// Refused: a tuple struct is no key.
    pub fn serialize_tuple_struct(&self, _name: &str, _len: usize) -> (r: Result<Vec<u8>, Error>)
        ensures
            r matches Err(e) && is_key_of_parts(e, Unexpected::NewtypeStruct),
    {
        of_parts(Unexpected::NewtypeStruct)
    }

    /// Refused: a variant is no key.
    pub fn serialize_tuple_variant(&self, _variant: &str, _len: usize) -> (r: Result<
        Vec<u8>,
        Error,
    >)
        ensures
            r matches Err(e) && is_key_of_parts(e, Unexpected::TupleVariant),
    {
        of_parts(Unexpected::TupleVariant)
    }

    /// Refused: a map is no key.
    pub fn serialize_map(&self, _len: Option<usize>) -> (r: Result<Vec<u8>, Error>)
        ensures
            r matches Err(e) && is_key_of_parts(e, Unexpected::Mapping),
    {
        of_parts(Unexpected::Mapping)
    }

    /// Refused: a struct is no key.
    pub fn serialize_struct(&self, _name: &str, _len: usize) -> (r: Result<Vec<u8>, Error>)
        ensures
            r matches Err(e) && is_key_of_parts(e, Unexpected::NewtypeStruct),
    {
        of_parts(Unexpected::NewtypeStruct)
    }

    /// Refused: a variant is no key.
    pub fn serialize_struct_variant(&self, _variant: &str, _len: usize) -> (r: Result<
        Vec<u8>,
        Error,
    >)
        ensures
            r matches Err(e) && is_key_of_parts(e, Unexpected::StructVariant),
    {
        of_parts(Unexpected::StructVariant)
    }
}

} // verus!
