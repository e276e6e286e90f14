//! The errors that encoding and decoding can end in.

use crate::decimal::{int_text, nat_text};
use serde::de::Unexpected as SerdeUnexpected;
use vstd::prelude::*;
use vstd::string::*;

verus! {

/// std's `std::io::Error`, carried as it is: nothing is known of what it holds.
#[verifier::external_type_specification]
#[verifier::external_body]
pub struct ExIoError(std::io::Error);

/// Everything that can go wrong while bencode is written or read.
#[derive(Debug)]
pub enum Error {
    /// The byte source failed.
    IoError(std::io::Error),
    /// A value is there, but of the wrong shape.
    InvalidType(String),
    /// A value has the right shape and the wrong content, such as a string
    /// that is no UTF-8 or a number that cannot be read.
    InvalidValue(String),
    /// A sequence or a map has the wrong length.
    InvalidLength(String),
    /// An enum's variant has a name that is not known.
    UnknownVariant(String),
    /// A struct's field has a name that is not known.
    UnknownField(String),
    /// A struct's field is missing.
    MissingField(String),
    /// A struct's field occurs twice.
    DuplicateField(String),
    /// Any other failure.
    Custom(String),
    /// The input ended in the middle of a value.
    EndOfStream,
}

/// What encoding and decoding hand back.
pub type Result<T> = std::result::Result<T, Error>;

/// Which of the errors one is, without its message.
#[derive(Clone, Copy, Debug, PartialEq, Eq, Structural)]
pub enum ErrorKind {
    /// The byte source failed.
    IoError,
    /// A value of the wrong shape.
    InvalidType,
    /// A value of the right shape and the wrong content.
    InvalidValue,
    /// A sequence or a map of the wrong length.
    InvalidLength,
    /// A variant whose name is not known.
    UnknownVariant,
    /// A field whose name is not known.
    UnknownField,
    /// A field that is missing.
    MissingField,
    /// A field that occurs twice.
    DuplicateField,
    /// Any other failure.
    Custom,
    /// The input ended in the middle of a value.
    EndOfStream,
}

/// What was found where something else was expected.
#[derive(Clone, Copy, Debug, PartialEq, Eq, Structural)]
pub enum Unexpected {
    /// A boolean.
    Bool(bool),
    /// An integer without sign.
    Unsigned(u64),
    /// An integer with sign.
    Signed(i64),
    /// A run of bytes.
    Bytes,
    /// The unit value.
    Unit,
    /// An optional value.
    Optional,
    /// A struct around one value.
    NewtypeStruct,
    /// A sequence.
    Sequence,
    /// A map.
    Mapping,
    /// A variant without payload.
    UnitVariant,
    /// A variant with one value.
    NewtypeVariant,
    /// A variant with several values.
    TupleVariant,
    /// A variant with named fields.
    StructVariant,
}

/// The characters that stand for a run of ASCII bytes.
pub open spec fn ascii_chars(bytes: Seq<u8>) -> Seq<char> {
    bytes.map_values(|b: u8| b as char)
}

/// How an unexpected thing is called in a message.
pub open spec fn unexpected_words(u: Unexpected) -> Seq<char> {
    match u {
        Unexpected::Bool(b) => if b {
            "boolean `true`"@
        } else {
            "boolean `false`"@
        },
        Unexpected::Unsigned(n) => "integer `"@ + ascii_chars(nat_text(n as nat)) + "`"@,
        Unexpected::Signed(n) => "integer `"@ + ascii_chars(int_text(n as int)) + "`"@,
        Unexpected::Bytes => "byte array"@,
        Unexpected::Unit => "unit value"@,
        Unexpected::Optional => "Option value"@,
        Unexpected::NewtypeStruct => "newtype struct"@,
        Unexpected::Sequence => "sequence"@,
        Unexpected::Mapping => "map"@,
        Unexpected::UnitVariant => "unit variant"@,
        Unexpected::NewtypeVariant => "newtype variant"@,
        Unexpected::TupleVariant => "tuple variant"@,
        Unexpected::StructVariant => "struct variant"@,
    }
}

/// What `{:?}` prints for a list of names.
pub uninterp spec fn debug_names_text(names: Seq<Seq<char>>) -> Seq<char>;

/// The names in a slice, each by its characters.
pub open spec fn names_view(names: &[&str]) -> Seq<Seq<char>> {
    Seq::new(names@.len(), |i: int| names@[i]@)
}

/// Formats `u` with serde's `Display` for `serde::de::Unexpected`. The
/// contract states what that prints: fixed words for each kind, and where the
/// kind carries a value, the value between backticks, an integer in decimal.
#[verifier::external_body]
fn unexpected_text(u: &Unexpected) -> (text: String)
    ensures
        text@ == unexpected_words(*u),
{
    match u {
        Unexpected::Bool(b) => SerdeUnexpected::Bool(*b),
        Unexpected::Unsigned(n) => SerdeUnexpected::Unsigned(*n),
        Unexpected::Signed(n) => SerdeUnexpected::Signed(*n),
        Unexpected::Bytes => SerdeUnexpected::Bytes(&[]),
        Unexpected::Unit => SerdeUnexpected::Unit,
        Unexpected::Optional => SerdeUnexpected::Option,
        Unexpected::NewtypeStruct => SerdeUnexpected::NewtypeStruct,
        Unexpected::Sequence => SerdeUnexpected::Seq,
        Unexpected::Mapping => SerdeUnexpected::Map,
        Unexpected::UnitVariant => SerdeUnexpected::UnitVariant,
        Unexpected::NewtypeVariant => SerdeUnexpected::NewtypeVariant,
        Unexpected::TupleVariant => SerdeUnexpected::TupleVariant,
        Unexpected::StructVariant => SerdeUnexpected::StructVariant,
    }.to_string()
}

/// Formats a list of names with std's `Debug` for slices of `str`. The
/// contract gives the text a name and says no more of it than that it is a
/// function of the names.
#[verifier::external_body]
fn debug_names(names: &[&str]) -> (text: String)
    ensures
        text@ == debug_names_text(names_view(names)),
{
    format!("{:?}", names)
}

/// The message of an I/O error, as std's `Display` for `std::io::Error` gives
/// it. Nothing is promised of the text.
#[verifier::external_body]
fn io_error_text(error: &std::io::Error) -> (text: String) {
    error.to_string()
}

/// Puts `middle` between `prefix` and `suffix`.
pub(crate) fn concat3(prefix: &str, middle: &str, suffix: &str) -> (s: String)
    ensures
        s@ == prefix@ + middle@ + suffix@,
{
    let mut s = String::from_str(prefix);
    s.append(middle);
    s.append(suffix);
    s
}

/// Puts `first` and `second` between three fixed parts.
pub(crate) fn concat5(a: &str, first: &str, b: &str, second: &str, c: &str) -> (s: String)
    ensures
        s@ == a@ + first@ + b@ + second@ + c@,
{
    let mut s = String::from_str(a);
    s.append(first);
    s.append(b);
    s.append(second);
    s.append(c);
    s
}

impl Error {
    /// Which error this is.
    pub open spec fn spec_kind(&self) -> ErrorKind {
        match self {
            Error::IoError(_) => ErrorKind::IoError,
            Error::InvalidType(_) => ErrorKind::InvalidType,
            Error::InvalidValue(_) => ErrorKind::InvalidValue,
            Error::InvalidLength(_) => ErrorKind::InvalidLength,
            Error::UnknownVariant(_) => ErrorKind::UnknownVariant,
            Error::UnknownField(_) => ErrorKind::UnknownField,
            Error::MissingField(_) => ErrorKind::MissingField,
            Error::DuplicateField(_) => ErrorKind::DuplicateField,
            Error::Custom(_) => ErrorKind::Custom,
            Error::EndOfStream => ErrorKind::EndOfStream,
        }
    }

    /// The message that the error carries. An I/O error carries none of its own:
    /// for it this is empty.
    pub open spec fn message(&self) -> Seq<char> {
        match self {
            Error::IoError(_) => Seq::empty(),
            Error::InvalidType(s) => s@,
            Error::InvalidValue(s) => s@,
            Error::InvalidLength(s) => s@,
            Error::UnknownVariant(s) => s@,
            Error::UnknownField(s) => s@,
            Error::MissingField(s) => s@,
            Error::DuplicateField(s) => s@,
            Error::Custom(s) => s@,
            Error::EndOfStream => "End of stream"@,
        }
    }

    /// Whether this is the error of kind `kind` with the message `message`.
    pub open spec fn says(&self, kind: ErrorKind, message: Seq<char>) -> bool {
        self.spec_kind() == kind && self.message() == message
    }

    /// Which error this is.
    #[verifier::when_used_as_spec(spec_kind)]
    pub fn kind(&self) -> (k: ErrorKind)
        ensures
            k == self.spec_kind(),
    {
        match self {
            Error::IoError(_) => ErrorKind::IoError,
            Error::InvalidType(_) => ErrorKind::InvalidType,
            Error::InvalidValue(_) => ErrorKind::InvalidValue,
            Error::InvalidLength(_) => ErrorKind::InvalidLength,
            Error::UnknownVariant(_) => ErrorKind::UnknownVariant,
            Error::UnknownField(_) => ErrorKind::UnknownField,
            Error::MissingField(_) => ErrorKind::MissingField,
            Error::DuplicateField(_) => ErrorKind::DuplicateField,
            Error::Custom(_) => ErrorKind::Custom,
            Error::EndOfStream => ErrorKind::EndOfStream,
        }
    }

    /// The error as text: its message, or for an I/O error what the source reported.
    pub fn to_string(&self) -> (s: String)
        ensures
            !(self is IoError) ==> s@ == self.message(),
    {
        match self {
            Error::IoError(error) => io_error_text(error),
            Error::InvalidType(s) => s.clone(),
            Error::InvalidValue(s) => s.clone(),
            Error::InvalidLength(s) => s.clone(),
            Error::UnknownVariant(s) => s.clone(),
            Error::UnknownField(s) => s.clone(),
            Error::MissingField(s) => s.clone(),
            Error::DuplicateField(s) => s.clone(),
            Error::Custom(s) => s.clone(),
            Error::EndOfStream => String::from_str("End of stream"),
        }
    }

    /// An error of the application's own, with its message as it stands.
    pub fn custom(msg: &str) -> (e: Error)
        ensures
            e is Custom,
            e.message() == msg@,
    {
        Error::Custom(String::from_str(msg))
    }

    /// A value of the wrong shape: what was found and what was expected.
    pub fn invalid_type(unexpected: &Unexpected, exp: &str) -> (e: Error)
        ensures
            e is InvalidType,
            e.message() == "Invalid Type: "@ + unexpected_words(*unexpected) + " (expected: `"@
                + exp@ + "`)"@,
    {
        let found = unexpected_text(unexpected);
        Error::invalid_type_found(found.as_str(), exp)
    }

    /// A value of the wrong shape, with what was found in words.
    pub fn invalid_type_found(found: &str, exp: &str) -> (e: Error)
        ensures
            e is InvalidType,
            e.message() == "Invalid Type: "@ + found@ + " (expected: `"@ + exp@ + "`)"@,
    {
        Error::InvalidType(concat5("Invalid Type: ", found, " (expected: `", exp, "`)"))
    }

    /// A value of the right shape and the wrong content: what was found and what
    /// was expected.
    pub fn invalid_value(unexpected: &Unexpected, exp: &str) -> (e: Error)
        ensures
            e is InvalidValue,
            e.message() == "Invalid Value: "@ + unexpected_words(*unexpected) + " (expected: `"@
                + exp@ + "`)"@,
    {
        let found = unexpected_text(unexpected);
        Error::invalid_value_found(found.as_str(), exp)
    }

    /// A value of the right shape and the wrong content, with what was found
    /// in words.
    pub fn invalid_value_found(found: &str, exp: &str) -> (e: Error)
        ensures
            e is InvalidValue,
            e.message() == "Invalid Value: "@ + found@ + " (expected: `"@ + exp@ + "`)"@,
    {
        Error::InvalidValue(concat5("Invalid Value: ", found, " (expected: `", exp, "`)"))
    }

    /// A sequence or map of `len` items where `exp` was expected.
    pub fn invalid_length(len: usize, exp: &str) -> (e: Error)
        ensures
            e is InvalidLength,
            e.message() == "Invalid Length: "@ + ascii_chars(nat_text(len as nat))
                + " (expected: "@ + exp@ + ")"@,
    {
        let mut count = String::new();
        push_decimal_str(&mut count, len as u64);
        assert(count@ =~= ascii_chars(nat_text(len as nat)));
        Error::InvalidLength(
            concat5("Invalid Length: ", count.as_str(), " (expected: ", exp, ")"),
        )
    }

    /// A variant name that is none of `expected`.
    pub fn unknown_variant(field: &str, expected: &[&str]) -> (e: Error)
        ensures
            e is UnknownVariant,
            e.message() == "Unknown Variant: `"@ + field@ + "` (expected one of: "@
                + debug_names_text(names_view(expected)) + ")"@,
    {
        let names = debug_names(expected);
        Error::UnknownVariant(
            concat5("Unknown Variant: `", field, "` (expected one of: ", names.as_str(), ")"),
        )
    }

    /// A field name that is none of `expected`.
    pub fn unknown_field(field: &str, expected: &[&str]) -> (e: Error)
        ensures
            e is UnknownField,
            e.message() == "Unknown Field: `"@ + field@ + "` (expected one of: "@
                + debug_names_text(names_view(expected)) + ")"@,
    {
        let names = debug_names(expected);
        Error::UnknownField(
            concat5("Unknown Field: `", field, "` (expected one of: ", names.as_str(), ")"),
        )
    }

    /// A field that had to be there and is not.
    pub fn missing_field(field: &str) -> (e: Error)
        ensures
            e is MissingField,
            e.message() == "Missing Field: `"@ + field@ + "`"@,
    {
        Error::MissingField(concat3("Missing Field: `", field, "`"))
    }

    /// A field that occurs a second time.
    pub fn duplicate_field(field: &str) -> (e: Error)
        ensures
            e is DuplicateField,
            e.message() == "Duplicate Field: `"@ + field@ + "`"@,
    {
        Error::DuplicateField(concat3("Duplicate Field: `", field, "`"))
    }
}

/// One decimal digit as text.
fn digit_str(d: u64) -> (s: &'static str)
    requires
        d < 10,
    ensures
        s@ == seq![crate::decimal::digit_byte(d as nat) as char],
{
    proof {
        reveal_strlit("0");
        reveal_strlit("1");
        reveal_strlit("2");
        reveal_strlit("3");
        reveal_strlit("4");
        reveal_strlit("5");
        reveal_strlit("6");
        reveal_strlit("7");
        reveal_strlit("8");
        reveal_strlit("9");
    }
    let s = if d == 0 {
        "0"
    } else if d == 1 {
        "1"
    } else if d == 2 {
        "2"
    } else if d == 3 {
        "3"
    } else if d == 4 {
        "4"
    } else if d == 5 {
        "5"
    } else if d == 6 {
        "6"
    } else if d == 7 {
        "7"
    } else if d == 8 {
        "8"
    } else {
        "9"
    };
    assert(s@ =~= seq![crate::decimal::digit_byte(d as nat) as char]);
    s
}

/// Appends the decimal text of `n` to `s`.
pub(crate) fn push_decimal_str(s: &mut String, n: u64)
    ensures
        final(s)@ == old(s)@ + ascii_chars(nat_text(n as nat)),
    decreases n,
{
    if n >= 10 {
        push_decimal_str(s, n / 10);
    }
    s.append(digit_str(n % 10));
    assert(s@ =~= old(s)@ + ascii_chars(nat_text(n as nat)));
}

/// Appends the decimal text of `v` to `s`, with a `-` in front where `v` is negative.
pub(crate) fn push_decimal_i64_str(s: &mut String, v: i64)
    ensures
        final(s)@ == old(s)@ + ascii_chars(int_text(v as int)),
{
    if v < 0 {
        proof {
            reveal_strlit("-");
        }
        s.append("-");
        let magnitude: u64 = ((-(v + 1)) as u64) + 1;
        push_decimal_str(s, magnitude);
        assert(s@ =~= old(s)@ + ascii_chars(int_text(v as int)));
    } else {
        push_decimal_str(s, v as u64);
    }
}

} // verus!
