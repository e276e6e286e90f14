//! Writing bencode: scalars go straight to the output, the entries of a
//! dictionary are held back until it is closed, then sorted by key and written.

pub mod string;

use crate::decimal::{push_decimal, push_decimal_i64};
use crate::error::{Error, ErrorKind};
use crate::sorted::{
    entries_view, keys_distinct, keys_sorted, lemma_sort_entries, lemma_sort_entries_canonical,
    sort_by_key, sort_entries,
};
use crate::value::{encode, Value};
use crate::wire::{bytes_token, int_token, COLON, DICT_START, END, INT_START, LIST_START};
use vstd::prelude::*;
use vstd::string::*;
use vstd::utf8::{decode_utf8, encode_utf8, valid_utf8};

verus! {

/// The bytes of the entries of a dictionary, one after the other as they
/// stand: each key as a byte string, then the bytes of its value.
pub open spec fn entries_bytes(s: Seq<(Seq<u8>, Seq<u8>)>) -> Seq<u8>
    decreases s.len(),
{
    if s.len() == 0 {
        Seq::empty()
    } else {
        entries_bytes(s.drop_last()) + bytes_token(s.last().0) + s.last().1
    }
}

/// The bytes of a dictionary with these entries, given in any order: `d`, the
/// entries sorted by key, `e`.
pub open spec fn dict_bytes(entries: Seq<(Seq<u8>, Seq<u8>)>) -> Seq<u8> {
    seq![DICT_START] + entries_bytes(sort_entries(entries)) + seq![END]
}

/// **Sorted keys.** In the bytes of a dictionary the entries stand in key
/// order, whatever order they were given in, and they are the entries that
/// were given: none is lost and none is added.
pub proof fn lemma_dict_bytes_sorted(entries: Seq<(Seq<u8>, Seq<u8>)>)
    ensures
        dict_bytes(entries) == seq![DICT_START] + entries_bytes(sort_entries(entries)) + seq![
            END,
        ],
        keys_sorted(sort_entries(entries)),
        sort_entries(entries).to_multiset() == entries.to_multiset(),
{
    lemma_sort_entries(entries);
}

/// **Canonical bytes.** Two dictionaries with the same entries, given in
/// whatever order, no key twice, have the same bytes.
pub proof fn lemma_dict_bytes_canonical(a: Seq<(Seq<u8>, Seq<u8>)>, b: Seq<(Seq<u8>, Seq<u8>)>)
    requires
        keys_distinct(a),
        keys_distinct(b),
        forall|e: (Seq<u8>, Seq<u8>)| a.contains(e) <==> b.contains(e),
    ensures
        dict_bytes(a) == dict_bytes(b),
{
    lemma_sort_entries_canonical(a, b);
}

/// The bytes of one variant around its payload: a dictionary with the
/// variant's name as its only key.
pub open spec fn variant_bytes(name: Seq<u8>, payload: Seq<u8>) -> Seq<u8> {
    seq![DICT_START] + bytes_token(name) + payload + seq![END]
}

/// The `i64` with the same 64 bits as `v`.
pub open spec fn u64_bits_as_i64(v: u64) -> i64 {
    if v <= i64::MAX as u64 {
        v as i64
    } else {
        (v - 0x1_0000_0000_0000_0000) as i64
    }
}

/// The UTF-8 encoding of one character: one to four bytes.
pub fn char_bytes(c: char) -> (bytes: Vec<u8>)
    ensures
        bytes@ == encode_utf8(seq![c]),
{
    let scalar: u32 = c as u32;
    let mut bytes: Vec<u8> = Vec::new();
    proof {
        vstd::utf8::char_is_scalar(c);
        assert(seq![c].drop_first() =~= Seq::<char>::empty());
        assert(encode_utf8(Seq::<char>::empty()) =~= Seq::<u8>::empty());
    }
    if scalar <= 0x7F {
        bytes.push((scalar & 0x7F) as u8);
    } else if scalar <= 0x7FF {
        bytes.push(0xC0 | ((scalar >> 6) & 0x1F) as u8);
        bytes.push(0x80 | (scalar & 0x3F) as u8);
    } else if scalar <= 0xFFFF {
        bytes.push(0xE0 | ((scalar >> 12) & 0x0F) as u8);
        bytes.push(0x80 | ((scalar >> 6) & 0x3F) as u8);
        bytes.push(0x80 | (scalar & 0x3F) as u8);
    } else {
        bytes.push(0xF0 | ((scalar >> 18) & 0x7) as u8);
        bytes.push(0x80 | ((scalar >> 12) & 0x3F) as u8);
        bytes.push(0x80 | ((scalar >> 6) & 0x3F) as u8);
        bytes.push(0x80 | (scalar & 0x3F) as u8);
    }
    assert(bytes@ =~= vstd::utf8::encode_scalar(scalar));
    assert(bytes@ =~= encode_utf8(seq![c]));
    bytes
}

/// Reads `bytes` as UTF-8 with std's `String::from_utf8`. The contract
/// states that a string comes back exactly where the bytes are UTF-8, and
/// that it is the string that the bytes spell.
#[verifier::external_body]
pub(crate) fn string_from_utf8(bytes: Vec<u8>) -> (r: Option<String>)
    ensures
        r is Some <==> valid_utf8(bytes@),
        r matches Some(s) ==> s@ == decode_utf8(bytes@),
{
    match String::from_utf8(bytes) {
        Ok(s) => Some(s),
        Err(_) => None,
    }
}

/// A writer of bencode. What has been written so far is its view.
#[derive(Debug)]
pub struct Serializer {
    buf: Vec<u8>,
}

impl View for Serializer {
    type V = Seq<u8>;

    closed spec fn view(&self) -> Seq<u8> {
        self.buf@
    }
}

impl Serializer {
    /// A writer that has written nothing.
    pub fn new() -> (s: Serializer)
        ensures
            s@ == Seq::<u8>::empty(),
    {
        Serializer { buf: Vec::new() }
    }

    /// Gives up the writer for what it has written.
    pub fn into_vec(self) -> (v: Vec<u8>)
        ensures
            v@ == self@,
    {
        self.buf
    }

    /// What has been written so far.
    pub fn as_ref(&self) -> (v: &[u8])
        ensures
            v@ == self@,
    {
        self.buf.as_slice()
    }

    /// Appends `token` as it stands.
    pub fn push(&mut self, token: &[u8])
        ensures
            final(self)@ == old(self)@ + token@,
    {
        let mut i: usize = 0;
        while i < token.len()
            invariant
                i <= token.len(),
                self.buf@ == old(self).buf@ + token@.take(i as int),
            decreases token.len() - i,
        {
            self.buf.push(token[i]);
            assert(token@.take(i + 1) =~= token@.take(i as int).push(token@[i as int]));
            i += 1;
        }
        assert(token@.take(i as int) =~= token@);
    }

    /// Writes `true` as the integer 1 and `false` as 0.
    pub fn serialize_bool(&mut self, value: bool) -> (r: Result<(), Error>)
        ensures
            r is Ok,
            final(self)@ == old(self)@ + int_token(if value { 1i64 } else { 0i64 }),
    {
        self.serialize_i64(if value { 1 } else { 0 })
    }

    /// Writes an integer.
    pub fn serialize_i8(&mut self, value: i8) -> (r: Result<(), Error>)
        ensures
            r is Ok,
            final(self)@ == old(self)@ + int_token(value as i64),
    {
        self.serialize_i64(value as i64)
    }

    /// Writes an integer.
    pub fn serialize_i16(&mut self, value: i16) -> (r: Result<(), Error>)
        ensures
            r is Ok,
            final(self)@ == old(self)@ + int_token(value as i64),
    {
        self.serialize_i64(value as i64)
    }

    /// Writes an integer.
    pub fn serialize_i32(&mut self, value: i32) -> (r: Result<(), Error>)
        ensures
            r is Ok,
            final(self)@ == old(self)@ + int_token(value as i64),
    {
        self.serialize_i64(value as i64)
    }

    /// Writes an integer: `i`, its decimal text, `e`.
    pub fn serialize_i64(&mut self, value: i64) -> (r: Result<(), Error>)
        ensures
            r is Ok,
            final(self)@ == old(self)@ + int_token(value),
    {
        self.buf.push(INT_START);
        push_decimal_i64(&mut self.buf, value);
        self.buf.push(END);
        assert(self.buf@ =~= old(self).buf@ + int_token(value));
        Ok(())
    }

    /// Writes an integer.
    pub fn serialize_u8(&mut self, value: u8) -> (r: Result<(), Error>)
        ensures
            r is Ok,
            final(self)@ == old(self)@ + int_token(value as i64),
    {
        self.serialize_i64(value as i64)
    }

    /// Writes an integer.
    pub fn serialize_u16(&mut self, value: u16) -> (r: Result<(), Error>)
        ensures
            r is Ok,
            final(self)@ == old(self)@ + int_token(value as i64),
    {
        self.serialize_i64(value as i64)
    }

    /// Writes an integer.
    pub fn serialize_u32(&mut self, value: u32) -> (r: Result<(), Error>)
        ensures
            r is Ok,
            final(self)@ == old(self)@ + int_token(value as i64),
    {
        self.serialize_i64(value as i64)
    }

    /// Writes the `i64` that has the bits of `value`: above `i64::MAX` that is
    /// a negative number.
    pub fn serialize_u64(&mut self, value: u64) -> (r: Result<(), Error>)
        ensures
            r is Ok,
            final(self)@ == old(self)@ + int_token(u64_bits_as_i64(value)),
    {
        let signed: i64 = if value <= 9223372036854775807 {
            value as i64
        } else {
            let low: u64 = value - 9223372036854775808;
            (low as i64) + i64::MIN
        };
        self.serialize_i64(signed)
    }

    /// Writes a character as the byte string of its UTF-8 encoding.
    pub fn serialize_char(&mut self, value: char) -> (r: Result<(), Error>)
        ensures
            r is Ok,
            final(self)@ == old(self)@ + bytes_token(encode_utf8(seq![value])),
    {
        let bytes = char_bytes(value);
        self.serialize_bytes(bytes.as_slice())
    }

    /// Writes a string as the byte string of its UTF-8 encoding.
    pub fn serialize_str(&mut self, value: &str) -> (r: Result<(), Error>)
        ensures
            r is Ok,
            final(self)@ == old(self)@ + bytes_token(value.spec_bytes()),
    {
        self.serialize_bytes(value.as_bytes())
    }

    /// Writes a byte string: its length in decimal, `:`, its bytes.
    pub fn serialize_bytes(&mut self, value: &[u8]) -> (r: Result<(), Error>)
        ensures
            r is Ok,
            final(self)@ == old(self)@ + bytes_token(value@),
    {
        push_decimal(&mut self.buf, value.len() as u64);
        self.buf.push(COLON);
        self.push(value);
        assert(self.buf@ =~= old(self).buf@ + bytes_token(value@));
        Ok(())
    }

    /// Writes nothing: the unit value has no bytes.
    pub fn serialize_unit(&mut self) -> (r: Result<(), Error>)
        ensures
            r is Ok,
            final(self)@ == old(self)@,
    {
        Ok(())
    }

    /// Writes nothing: a unit struct has no bytes.
    pub fn serialize_unit_struct(&mut self, _name: &str) -> (r: Result<(), Error>)
        ensures
            r is Ok,
            final(self)@ == old(self)@,
    {
        self.serialize_unit()
    }

    /// Writes a variant without payload as its name.
    pub fn serialize_unit_variant(&mut self, variant: &str) -> (r: Result<(), Error>)
        ensures
            r is Ok,
            final(self)@ == old(self)@ + bytes_token(variant.spec_bytes()),
    {
        self.serialize_str(variant)
    }

    /// Writes a variant with one value: a dictionary with the variant's name as
    /// its key and `value`, the bytes of the value, behind it.
    pub fn serialize_newtype_variant(&mut self, variant: &str, value: &[u8]) -> (r: Result<
        (),
        Error,
    >)
        ensures
            r is Ok,
            final(self)@ == old(self)@ + variant_bytes(variant.spec_bytes(), value@),
    {
        self.buf.push(DICT_START);
        let _ = self.serialize_bytes(variant.as_bytes());
        self.push(value);
        self.buf.push(END);
        assert(self.buf@ =~= old(self).buf@ + variant_bytes(variant.spec_bytes(), value@));
        Ok(())
    }

    /// Writes nothing: an absent value has no bytes, and a dictionary drops an
    /// entry whose value has none.
    pub fn serialize_none(&mut self) -> (r: Result<(), Error>)
        ensures
            r is Ok,
            final(self)@ == old(self)@,
    {
        Ok(())
    }

    /// Opens a list.
    pub fn serialize_seq(&mut self, _len: Option<usize>) -> (r: Result<(), Error>)
        ensures
            r is Ok,
            final(self)@ == old(self)@ + seq![LIST_START],
    {
        self.buf.push(LIST_START);
        assert(self.buf@ =~= old(self).buf@ + seq![LIST_START]);
        Ok(())
    }

    /// Opens a list for a tuple.
    pub fn serialize_tuple(&mut self, size: usize) -> (r: Result<(), Error>)
        ensures
            r is Ok,
            final(self)@ == old(self)@ + seq![LIST_START],
    {
        self.serialize_seq(Some(size))
    }

    /// Opens a list for a tuple struct.
    pub fn serialize_tuple_struct(&mut self, _name: &str, len: usize) -> (r: Result<(), Error>)
        ensures
            r is Ok,
            final(self)@ == old(self)@ + seq![LIST_START],
    {
        self.serialize_seq(Some(len))
    }

    /// Opens a variant with several values: a dictionary with the variant's
    /// name as its key, and a list for the values behind it.
    pub fn serialize_tuple_variant(&mut self, variant: &str, _len: usize) -> (r: Result<
        (),
        Error,
    >)
        ensures
            r is Ok,
            final(self)@ == old(self)@ + seq![DICT_START] + bytes_token(variant.spec_bytes())
                + seq![LIST_START],
    {
        self.buf.push(DICT_START);
        let _ = self.serialize_bytes(variant.as_bytes());
        self.buf.push(LIST_START);
        assert(self.buf@ =~= old(self).buf@ + seq![DICT_START] + bytes_token(
            variant.spec_bytes(),
        ) + seq![LIST_START]);
        Ok(())
    }

    /// Writes one item of an open list: `value` holds the item's bytes.
    pub fn serialize_element(&mut self, value: &[u8]) -> (r: Result<(), Error>)
        ensures
            r is Ok,
            final(self)@ == old(self)@ + value@,
    {
        self.push(value);
        Ok(())
    }

    /// Closes a list.
    pub fn end(&mut self) -> (r: Result<(), Error>)
        ensures
            r is Ok,
            final(self)@ == old(self)@ + seq![END],
    {
        self.buf.push(END);
        assert(self.buf@ =~= old(self).buf@ + seq![END]);
        Ok(())
    }

    /// Closes the list of a variant with several values, and the dictionary
    /// around it.
    pub fn end_tuple_variant(&mut self) -> (r: Result<(), Error>)
        ensures
            r is Ok,
            final(self)@ == old(self)@ + seq![END, END],
    {
        self.buf.push(END);
        self.buf.push(END);
        assert(self.buf@ =~= old(self).buf@ + seq![END, END]);
        Ok(())
    }

    /// Starts a dictionary: its entries are collected apart from the output.
    pub fn serialize_map(&mut self, len: Option<usize>) -> (r: Result<SerializeMap, Error>)
        ensures
            final(self)@ == old(self)@,
            r matches Ok(m) && m@.entries == Seq::<(Seq<u8>, Seq<u8>)>::empty() && m@.cur_key
                is None,
    {
        let capacity = match len {
            Some(n) => n,
            None => 0,
        };
        Ok(SerializeMap::new(capacity))
    }

    /// Starts the dictionary of a struct.
    pub fn serialize_struct(&mut self, _name: &str, len: usize) -> (r: Result<
        SerializeMap,
        Error,
    >)
        ensures
            final(self)@ == old(self)@,
            r matches Ok(m) && m@.entries == Seq::<(Seq<u8>, Seq<u8>)>::empty() && m@.cur_key
                is None,
    {
        self.serialize_map(Some(len))
    }

    /// Opens a variant with named fields: a dictionary with the variant's name
    /// as its key; the fields are collected apart from the output.
    pub fn serialize_struct_variant(&mut self, variant: &str, len: usize) -> (r: Result<
        SerializeMap,
        Error,
    >)
        ensures
            final(self)@ == old(self)@ + seq![DICT_START] + bytes_token(variant.spec_bytes()),
            r matches Ok(m) && m@.entries == Seq::<(Seq<u8>, Seq<u8>)>::empty() && m@.cur_key
                is None,
    {
        self.buf.push(DICT_START);
        let _ = self.serialize_bytes(variant.as_bytes());
        assert(self.buf@ =~= old(self).buf@ + seq![DICT_START] + bytes_token(
            variant.spec_bytes(),
        ));
        Ok(SerializeMap::new(len))
    }
}

/// What an open dictionary holds.
pub ghost struct SerializeMapView {
    /// The entries so far, in the order they came, none with an empty value.
    pub entries: Seq<(Seq<u8>, Seq<u8>)>,
    /// A key that waits for its value.
    pub cur_key: Option<Seq<u8>>,
}

/// The entries of a dictionary that is being written, in the order they came.
#[derive(Debug)]
pub struct SerializeMap {
    entries: Vec<(Vec<u8>, Vec<u8>)>,
    cur_key: Option<Vec<u8>>,
}

impl View for SerializeMap {
    type V = SerializeMapView;

    closed spec fn view(&self) -> SerializeMapView {
        SerializeMapView {
            entries: entries_view(self.entries@),
            cur_key: match self.cur_key {
                Some(k) => Some(k@),
                None => None,
            },
        }
    }
}

/// What is said of a key that comes while another waits for its value.
pub open spec fn key_twice_text() -> Seq<char> {
    "`serialize_key` called multiple times without calling  `serialize_value`"@
}

/// What is said of a value that comes while no key waits for it.
pub open spec fn value_without_key_text() -> Seq<char> {
    "`serialize_value` called without calling `serialize_key`"@
}

/// What is said of a dictionary that is closed while a key waits for its value.
pub open spec fn key_without_value_text() -> Seq<char> {
    "`serialize_key` called without calling  `serialize_value`"@
}

/// `entries` with `(key, value)` behind them, unless `value` is empty: such
/// an entry stands for an absent value and is left out.
pub open spec fn with_entry(
    entries: Seq<(Seq<u8>, Seq<u8>)>,
    key: Seq<u8>,
    value: Seq<u8>,
) -> Seq<(Seq<u8>, Seq<u8>)> {
    if value.len() == 0 {
        entries
    } else {
        entries.push((key, value))
    }
}

impl SerializeMap {
    /// An open dictionary without entries, with room for `len` of them.
    pub fn new(len: usize) -> (m: SerializeMap)
        ensures
            m@.entries == Seq::<(Seq<u8>, Seq<u8>)>::empty(),
            m@.cur_key is None,
    {
        let m = SerializeMap { entries: Vec::with_capacity(len), cur_key: None };
        assert(m@.entries =~= Seq::<(Seq<u8>, Seq<u8>)>::empty());
        m
    }

    fn add(&mut self, key: Vec<u8>, value: Vec<u8>)
        ensures
            final(self)@.entries == with_entry(old(self)@.entries, key@, value@),
            final(self)@.cur_key == old(self)@.cur_key,
    {
        if value.len() != 0 {
            self.entries.push((key, value));
            assert(self@.entries =~= old(self)@.entries.push((key@, value@)));
        }
    }

    /// Takes the key of the next entry. `key` is what writing the key as a
    /// plain string gave. It is an error to give a key while another waits
    /// for its value.
    pub fn serialize_key(&mut self, key: Result<Vec<u8>, Error>) -> (r: Result<(), Error>)
        ensures
            final(self)@.entries == old(self)@.entries,
            match r {
                Ok(_) => old(self)@.cur_key is None && key is Ok && final(self)@.cur_key == Some(
                    key->Ok_0@,
                ),
                Err(e) => final(self)@.cur_key == old(self)@.cur_key && if old(self)@.cur_key
                    is Some {
                    e.says(ErrorKind::InvalidValue, key_twice_text())
                } else {
                    key == Err::<Vec<u8>, Error>(e)
                },
            },
    {
        if self.cur_key.is_some() {
            return Err(
                Error::InvalidValue(
                    String::from_str(
                        "`serialize_key` called multiple times without calling  `serialize_value`",
                    ),
                ),
            );
        }
        match key {
            Ok(k) => {
                self.cur_key = Some(k);
                Ok(())
            },
            Err(e) => Err(e),
        }
    }

    /// Takes the value for the key that waits: `value` is what writing the
    /// value gave. An entry whose value has no bytes is dropped.
    pub fn serialize_value(&mut self, value: Result<Vec<u8>, Error>) -> (r: Result<(), Error>)
        ensures
            final(self)@.cur_key is None,
            match r {
                Ok(_) => old(self)@.cur_key is Some && value is Ok && final(self)@.entries
                    == with_entry(old(self)@.entries, old(self)@.cur_key->0, value->Ok_0@),
                Err(e) => final(self)@.entries == old(self)@.entries && if old(self)@.cur_key
                    is None {
                    e.says(ErrorKind::InvalidValue, value_without_key_text())
                } else {
                    value == Err::<Vec<u8>, Error>(e)
                },
            },
    {
        let key = match self.cur_key.take() {
            Some(k) => k,
            None => {
                return Err(
                    Error::InvalidValue(
                        String::from_str(
                            "`serialize_value` called without calling `serialize_key`",
                        ),
                    ),
                );
            },
        };
        match value {
            Ok(v) => {
                self.add(key, v);
                Ok(())
            },
            Err(e) => Err(e),
        }
    }

    /// Takes a whole entry: `key` is what writing the key as a plain string
    /// gave, `value` what writing the value gave. An entry whose value has no
    /// bytes is dropped.
    pub fn serialize_entry(
        &mut self,
        key: Result<Vec<u8>, Error>,
        value: Result<Vec<u8>, Error>,
    ) -> (r: Result<(), Error>)
        ensures
            final(self)@.cur_key == old(self)@.cur_key,
            match r {
                Ok(_) => old(self)@.cur_key is None && key is Ok && value is Ok
                    && final(self)@.entries
                    == with_entry(old(self)@.entries, key->Ok_0@, value->Ok_0@),
                Err(e) => final(self)@.entries == old(self)@.entries && if old(self)@.cur_key
                    is Some {
                    e.says(ErrorKind::InvalidValue, key_twice_text())
                } else if key is Err {
                    key == Err::<Vec<u8>, Error>(e)
                } else {
                    value == Err::<Vec<u8>, Error>(e)
                },
            },
    {
        if self.cur_key.is_some() {
            return Err(
                Error::InvalidValue(
                    String::from_str(
                        "`serialize_key` called multiple times without calling  `serialize_value`",
                    ),
                ),
            );
        }
        let k = match key {
            Ok(k) => k,
            Err(e) => {
                return Err(e);
            },
        };
        match value {
            Ok(v) => {
                self.add(k, v);
                Ok(())
            },
            Err(e) => Err(e),
        }
    }

    /// Takes a field of a struct: its name is the key, `value` is what
    /// writing the value gave.
    pub fn serialize_field(&mut self, key: &str, value: Result<Vec<u8>, Error>) -> (r: Result<
        (),
        Error,
    >)
        ensures
            final(self)@.cur_key == old(self)@.cur_key,
            match r {
                Ok(_) => old(self)@.cur_key is None && value is Ok && final(self)@.entries
                    == with_entry(old(self)@.entries, key.spec_bytes(), value->Ok_0@),
                Err(e) => final(self)@.entries == old(self)@.entries && if old(self)@.cur_key
                    is Some {
                    e.says(ErrorKind::InvalidValue, key_twice_text())
                } else {
                    value == Err::<Vec<u8>, Error>(e)
                },
            },
    {
        self.serialize_entry(string::Serializer.serialize_str(key), value)
    }

    /// Closes the dictionary and writes it to `ser`: `d`, the entries sorted
    /// by key, `e`. It is an error to close while a key waits for its value;
    /// nothing is written then.
    pub fn end_map(&mut self, ser: &mut Serializer) -> (r: Result<(), Error>)
        ensures
            final(self)@.cur_key == old(self)@.cur_key,
            match r {
                Ok(_) => old(self)@.cur_key is None && final(ser)@ == old(ser)@ + dict_bytes(
                    old(self)@.entries,
                ) && final(self)@.entries == Seq::<(Seq<u8>, Seq<u8>)>::empty(),
                Err(e) => old(self)@.cur_key is Some && e.says(
                    ErrorKind::InvalidValue,
                    key_without_value_text(),
                ) && final(ser)@ == old(ser)@ && final(self)@.entries == old(self)@.entries,
            },
    {
        if self.cur_key.is_some() {
            return Err(
                Error::InvalidValue(
                    String::from_str("`serialize_key` called without calling  `serialize_value`"),
                ),
            );
        }
        let mut entries: Vec<(Vec<u8>, Vec<u8>)> = Vec::new();
        std::mem::swap(&mut entries, &mut self.entries);
        assert(self@.entries =~= Seq::<(Seq<u8>, Seq<u8>)>::empty());
        let sorted = sort_by_key(entries);
        let ghost all = entries_view(sorted@);
        ser.buf.push(DICT_START);
        let mut i: usize = 0;
        while i < sorted.len()
            invariant
                i <= sorted.len(),
                all == entries_view(sorted@),
                ser.buf@ == old(ser).buf@ + seq![DICT_START] + entries_bytes(all.take(i as int)),
            decreases sorted.len() - i,
        {
            let _ = ser.serialize_bytes(sorted[i].0.as_slice());
            ser.push(sorted[i].1.as_slice());
            proof {
                let next = all.take(i + 1);
                assert(next.drop_last() =~= all.take(i as int));
                assert(next.last() == (sorted@[i as int].0@, sorted@[i as int].1@));
                assert(ser.buf@ =~= old(ser).buf@ + seq![DICT_START] + entries_bytes(next));
            }
            i += 1;
        }
        assert(all.take(i as int) =~= all);
        ser.buf.push(END);
        assert(ser.buf@ =~= old(ser).buf@ + dict_bytes(old(self)@.entries));
        Ok(())
    }

    /// Closes the dictionary of a map or a struct and writes it to `ser`.
    pub fn end(&mut self, ser: &mut Serializer) -> (r: Result<(), Error>)
        ensures
            final(self)@.cur_key == old(self)@.cur_key,
            match r {
                Ok(_) => old(self)@.cur_key is None && final(ser)@ == old(ser)@ + dict_bytes(
                    old(self)@.entries,
                ) && final(self)@.entries == Seq::<(Seq<u8>, Seq<u8>)>::empty(),
                Err(e) => old(self)@.cur_key is Some && e.says(
                    ErrorKind::InvalidValue,
                    key_without_value_text(),
                ) && final(ser)@ == old(ser)@ && final(self)@.entries == old(self)@.entries,
            },
    {
        self.end_map(ser)
    }

    /// Closes the dictionary of a variant with named fields and writes it to
    /// `ser`, then closes the dictionary around it.
    pub fn end_struct_variant(&mut self, ser: &mut Serializer) -> (r: Result<(), Error>)
        ensures
            final(self)@.cur_key == old(self)@.cur_key,
            match r {
                Ok(_) => old(self)@.cur_key is None && final(ser)@ == old(ser)@ + dict_bytes(
                    old(self)@.entries,
                ) + seq![END] && final(self)@.entries == Seq::<(Seq<u8>, Seq<u8>)>::empty(),
                Err(e) => old(self)@.cur_key is Some && e.says(
                    ErrorKind::InvalidValue,
                    key_without_value_text(),
                ) && final(ser)@ == old(ser)@ && final(self)@.entries == old(self)@.entries,
            },
    {
        match self.end_map(ser) {
            Ok(_) => {
                ser.buf.push(END);
                Ok(())
            },
            Err(e) => Err(e),
        }
    }
}

/// The bytes of `b` on the wire.
pub fn to_bytes(b: &Value) -> (r: Result<Vec<u8>, Error>)
    ensures
        r matches Ok(v) && v@ == encode(b@),
{
    let mut ser = Serializer::new();
    let _ = b.serialize(&mut ser);
    assert(ser@ =~= encode(b@));
    Ok(ser.into_vec())
}

/// What was written, as a string: an error where the bytes are no UTF-8.
pub fn bytes_to_string(bytes: Vec<u8>) -> (r: Result<String, Error>)
    ensures
        match r {
            Ok(s) => valid_utf8(bytes@) && s@ == decode_utf8(bytes@),
            Err(e) => !valid_utf8(bytes@) && e is InvalidValue && e.message() == "Not an UTF-8"@,
        },
{
    match string_from_utf8(bytes) {
        Some(s) => Ok(s),
        None => Err(Error::InvalidValue(String::from_str("Not an UTF-8"))),
    }
}

/// The bytes of `b` on the wire, as a string: an error where they are no UTF-8.
pub fn to_string(b: &Value) -> (r: Result<String, Error>)
    ensures
        match r {
            Ok(s) => valid_utf8(encode(b@)) && s@ == decode_utf8(encode(b@)),
            Err(e) => !valid_utf8(encode(b@)) && e is InvalidValue && e.message()
                == "Not an UTF-8"@,
        },
{
    let mut ser = Serializer::new();
    let _ = b.serialize(&mut ser);
    assert(ser@ =~= encode(b@));
    bytes_to_string(ser.into_vec())
}

} // verus!
