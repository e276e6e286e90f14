//! Reading bencode: a reader that hands out one token at a time and can look
//! one token ahead, and the steps by which lists, dictionaries and variants
//! are walked through.

use crate::decimal::{
    int_text, is_digit, parse_i64, parse_usize, text_i64, text_usize, NINE, ZERO,
};
use crate::error::{ascii_chars, concat3, unexpected_words, Error, ErrorKind, Unexpected};
use crate::order::bytes_eq;
use crate::ser::{char_bytes, string_from_utf8};
use crate::value::{decode, decode_error_text, Value};
use crate::wire::{
    find_byte, lemma_find_byte, lex, lex_bytes, lex_error_text, lex_int, number_error_text,
    Token, COLON, DICT_START, END, INT_START, LIST_START,
};
use vstd::prelude::*;
use vstd::slice::slice_subrange;
use vstd::std_specs::cmp::PartialEqSpecImpl;
use vstd::string::*;
use vstd::utf8::{decode_utf8, valid_utf8};

verus! {

/// One token, as the reader hands it out.
#[derive(Debug)]
pub enum ParseResult {
    /// An integer.
    Int(i64),
    /// A byte string.
    Bytes(Vec<u8>),
    /// The start of a list.
    List,
    /// The start of a dictionary.
    Dict,
    /// The end of a list or dictionary.
    End,
}

impl View for ParseResult {
    type V = Token;

    open spec fn view(&self) -> Token {
        match self {
            ParseResult::Int(i) => Token::Int(*i),
            ParseResult::Bytes(b) => Token::Bytes(b@),
            ParseResult::List => Token::List,
            ParseResult::Dict => Token::Dict,
            ParseResult::End => Token::End,
        }
    }
}

impl PartialEq for ParseResult {
    fn eq(&self, other: &ParseResult) -> (r: bool) {
        match (self, other) {
            (ParseResult::Int(a), ParseResult::Int(b)) => *a == *b,
            (ParseResult::Bytes(a), ParseResult::Bytes(b)) => bytes_eq(a.as_slice(), b.as_slice()),
            (ParseResult::List, ParseResult::List) => true,
            (ParseResult::Dict, ParseResult::Dict) => true,
            (ParseResult::End, ParseResult::End) => true,
            _ => false,
        }
    }
}

impl PartialEqSpecImpl for ParseResult {
    open spec fn obeys_eq_spec() -> bool {
        true
    }

    open spec fn eq_spec(&self, other: &ParseResult) -> bool {
        self@ == other@
    }
}

impl Eq for ParseResult {}

/// The message for a token that stands where a byte string has to stand.
pub open spec fn not_bytes_text(t: Token) -> Seq<char> {
    "Invalid Type: "@ + unexpected_words(
        match t {
            Token::Int(i) => Unexpected::Signed(i),
            Token::List => Unexpected::Sequence,
            _ => Unexpected::Mapping,
        },
    ) + " (expected: `"@ + "Bytes"@ + "`)"@
}

/// The message for a token that stands where an integer has to stand.
pub open spec fn not_int_text(t: Token) -> Seq<char> {
    "Invalid Type: "@ + unexpected_words(
        match t {
            Token::Bytes(_) => Unexpected::Bytes,
            Token::List => Unexpected::Sequence,
            _ => Unexpected::Mapping,
        },
    ) + " (expected: `"@ + "i64"@ + "`)"@
}

/// The message for a byte string that is no UTF-8 where a string has to stand.
pub open spec fn not_utf8_text() -> Seq<char> {
    "Invalid Value: "@ + unexpected_words(Unexpected::Bytes) + " (expected: `"@ + "utf-8 string"@
        + "`)"@
}

/// How a token that is no byte string is called in a message.
pub open spec fn token_name(t: Token) -> Seq<char> {
    match t {
        Token::Int(i) => "Int("@ + ascii_chars(int_text(i as int)) + ")"@,
        Token::List => "List"@,
        Token::Dict => "Map"@,
        _ => "End"@,
    }
}

/// The message for a token that starts no enum.
pub open spec fn no_enum_text(t: Token) -> Seq<char> {
    "Expected bytes or map; got `"@ + token_name(t) + "`"@
}

/// The one-character string for a byte: the character whose code point is
/// the byte.
fn byte_text(b: u8) -> (s: String)
    ensures
        s@ == seq![b as char],
{
    let c = b as char;
    let bytes = char_bytes(c);
    proof {
        vstd::utf8::encode_utf8_valid_utf8(seq![c]);
        vstd::utf8::encode_utf8_decode_utf8(seq![c]);
    }
    match string_from_utf8(bytes) {
        Some(s) => s,
        None => String::new(),
    }
}

/// Bytes below 128 are UTF-8 as they stand.
proof fn lemma_ascii_is_utf8(bytes: Seq<u8>)
    requires
        forall|i: int| 0 <= i < bytes.len() ==> bytes[i] < 128,
    ensures
        valid_utf8(bytes),
{
    let chars = crate::error::ascii_chars(bytes);
    assert(vstd::utf8::is_ascii_chars(chars));
    vstd::utf8::is_ascii_chars_encode_utf8(chars);
    assert(vstd::utf8::encode_utf8(chars) =~= bytes);
    vstd::utf8::encode_utf8_valid_utf8(chars);
}

/// Text that can be read as a number is UTF-8.
proof fn lemma_number_is_utf8(text: Seq<u8>)
    ensures
        text_i64(text) is Some ==> valid_utf8(text),
        text_usize(text) is Some ==> valid_utf8(text),
{
    if text_i64(text) is Some {
        let digits = if crate::decimal::has_sign(text) {
            text.skip(1)
        } else {
            text
        };
        assert forall|i: int| 0 <= i < text.len() implies text[i] < 128 by {
            if crate::decimal::has_sign(text) {
                if i > 0 {
                    assert(is_digit(digits[i - 1]));
                }
            } else {
                assert(is_digit(digits[i]));
            }
        }
        lemma_ascii_is_utf8(text);
    }
    if text_usize(text) is Some {
        assert forall|i: int| 0 <= i < text.len() implies text[i] < 128 by {
            assert(is_digit(text[i]));
        }
        lemma_ascii_is_utf8(text);
    }
}

/// Searching in what is left from `k` on is searching in the whole from further on.
proof fn lemma_find_byte_skip(s: Seq<u8>, k: int, from: int, stop: u8)
    requires
        0 <= k <= s.len(),
        0 <= from,
    ensures
        find_byte(s.skip(k), from, stop) == match find_byte(s, k + from, stop) {
            Some(at) => Some(at - k),
            None => None,
        },
    decreases s.len() - k - from,
{
    if from < s.skip(k).len() {
        assert(s.skip(k)[from] == s[k + from]);
        if s[k + from] != stop {
            lemma_find_byte_skip(s, k, from + 1, stop);
        }
    }
}

/// A reader of bencode over a run of bytes. Its view is what of the input is
/// still unread; a token that was looked at and not yet taken counts as unread.
#[derive(Debug)]
pub struct Deserializer<'a> {
    input: &'a [u8],
    pos: usize,
    start: usize,
    next: Option<ParseResult>,
}

impl<'a> View for Deserializer<'a> {
    type V = Seq<u8>;

    closed spec fn view(&self) -> Seq<u8> {
        if self.next is Some {
            self.input@.skip(self.start as int)
        } else {
            self.input@.skip(self.pos as int)
        }
    }
}

impl<'a> Deserializer<'a> {
    #[verifier::type_invariant]
    spec fn inv(&self) -> bool {
        &&& self.pos <= self.input@.len()
        &&& match self.next {
            Some(t) => self.start <= self.pos && lex(self.input@.skip(self.start as int))
                == Ok::<(Token, int), ErrorKind>((t@, self.pos - self.start)),
            None => true,
        }
    }

    /// The token that was looked at and not yet taken, if there is one.
    pub closed spec fn lookahead(&self) -> Option<Token> {
        match self.next {
            Some(t) => Some(t@),
            None => None,
        }
    }

    /// A reader at the start of `input`.
    pub fn new(input: &'a [u8]) -> (de: Deserializer<'a>)
        ensures
            de@ == input@,
            de.lookahead() is None,
    {
        let de = Deserializer { input, pos: 0, start: 0, next: None };
        assert(input@.skip(0) =~= input@);
        de
    }

    /// Reads up to the next `stop` and past it; gives the bytes in front of it.
    fn take_until(&mut self, stop: u8) -> (r: Option<Vec<u8>>)
        requires
            old(self).next is None,
        ensures
            final(self).next is None,
            final(self).input == old(self).input,
            final(self).start == old(self).start,
            match find_byte(old(self).input@, old(self).pos as int, stop) {
                Some(at) => r matches Some(v) && v@ == old(self).input@.subrange(
                    old(self).pos as int,
                    at,
                ) && final(self).pos == at + 1,
                None => r is None,
            },
    {
        proof {
            use_type_invariant(&*self);
        }
        let mut found: Vec<u8> = Vec::new();
        let begin = self.pos;
        loop
            invariant
                self.next is None,
                self.input == old(self).input,
                self.start == old(self).start,
                begin == old(self).pos,
                begin <= self.pos <= self.input@.len(),
                found@ == self.input@.subrange(begin as int, self.pos as int),
                find_byte(self.input@, begin as int, stop) == find_byte(
                    self.input@,
                    self.pos as int,
                    stop,
                ),
            decreases self.input@.len() - self.pos,
        {
            if self.pos >= self.input.len() {
                return None;
            }
            let b = self.input[self.pos];
            self.pos = self.pos + 1;
            if b == stop {
                return Some(found);
            }
            found.push(b);
            assert(found@ =~= self.input@.subrange(begin as int, self.pos as int));
        }
    }

    /// Reads the rest of an integer, behind its `i`.
    fn parse_int(&mut self) -> (r: Result<i64, Error>)
        requires
            old(self).next is None,
            0 < old(self).pos <= old(self).input@.len(),
            old(self).input@[old(self).pos - 1] == INT_START,
        ensures
            final(self).next is None,
            final(self).input == old(self).input,
            final(self).start == old(self).start,
            match lex_int(old(self).input@.skip(old(self).pos - 1)) {
                Ok((t, n)) => r matches Ok(v) && t == Token::Int(v)
                    && final(self).pos == old(self).pos - 1 + n,
                Err(k) => r matches Err(e) && e.says(
                    k,
                    lex_error_text(old(self).input@.skip(old(self).pos - 1)),
                ),
            },
    {
        proof {
            use_type_invariant(&*self);
            lemma_find_byte_skip(self.input@, self.pos - 1, 1, END);
            lemma_find_byte(self.input@, self.pos as int, END);
        }
        let ghost begin = self.pos as int;
        let text = match self.take_until(END) {
            Some(text) => text,
            None => {
                return Err(Error::EndOfStream);
            },
        };
        assert(text@ =~= self.input@.skip(begin - 1).subrange(1, self.pos - begin));
        proof {
            lemma_number_is_utf8(text@);
        }
        match string_from_utf8(text) {
            None => Err(Error::InvalidValue(String::from_str("Non UTF-8 integer encoding"))),
            Some(len_str) => {
                proof {
                    vstd::utf8::decode_utf8_encode_utf8(
                        self.input@.skip(begin - 1).subrange(1, self.pos - begin),
                    );
                }
                match parse_i64(len_str.as_str().as_bytes()) {
                    Some(v) => Ok(v),
                    None => Err(
                        Error::InvalidValue(
                            concat3("Can't parse `", len_str.as_str(), "` as integer"),
                        ),
                    ),
                }
            },
        }
    }

    /// Reads the length of a byte string, from its first digit to its `:`.
    fn parse_bytes_len(&mut self, len_char: u8) -> (r: Result<usize, Error>)
        requires
            old(self).next is None,
            0 < old(self).pos <= old(self).input@.len(),
            old(self).input@[old(self).pos - 1] == len_char,
            is_digit(len_char),
        ensures
            final(self).next is None,
            final(self).input == old(self).input,
            final(self).start == old(self).start,
            match find_byte(old(self).input@.skip(old(self).pos - 1), 1, COLON) {
                None => r matches Err(e) && e is EndOfStream,
                Some(colon) => match text_usize(
                    old(self).input@.skip(old(self).pos - 1).subrange(0, colon),
                ) {
                    None => r matches Err(e) && e.says(
                        ErrorKind::InvalidValue,
                        number_error_text(
                            old(self).input@.skip(old(self).pos - 1).subrange(0, colon),
                            "` as string length"@,
                        ),
                    ),
                    Some(len) => r == Ok::<usize, Error>(len)
                        && final(self).pos == old(self).pos + colon,
                },
            },
    {
        proof {
            use_type_invariant(&*self);
            lemma_find_byte_skip(self.input@, self.pos - 1, 1, COLON);
            lemma_find_byte(self.input@, self.pos as int, COLON);
        }
        let ghost begin = self.pos as int;
        let tail = match self.take_until(COLON) {
            Some(tail) => tail,
            None => {
                return Err(Error::EndOfStream);
            },
        };
        let mut len: Vec<u8> = Vec::new();
        len.push(len_char);
        let mut i: usize = 0;
        while i < tail.len()
            invariant
                i <= tail.len(),
                len@ == seq![len_char] + tail@.take(i as int),
            decreases tail.len() - i,
        {
            len.push(tail[i]);
            assert(len@ =~= seq![len_char] + tail@.take(i + 1));
            i += 1;
        }
        assert(len@ =~= self.input@.skip(begin - 1).subrange(0, self.pos - begin));
        proof {
            lemma_number_is_utf8(len@);
        }
        match string_from_utf8(len) {
            None => Err(Error::InvalidValue(String::from_str("Non UTF-8 integer encoding"))),
            Some(len_str) => {
                proof {
                    vstd::utf8::decode_utf8_encode_utf8(
                        self.input@.skip(begin - 1).subrange(0, self.pos - begin),
                    );
                }
                match parse_usize(len_str.as_str().as_bytes()) {
                    Some(n) => Ok(n),
                    None => Err(
                        Error::InvalidValue(
                            concat3("Can't parse `", len_str.as_str(), "` as string length"),
                        ),
                    ),
                }
            },
        }
    }

    /// Reads a byte string from behind its first digit: the rest of the
    /// length, the `:`, and as many bytes as the length says. A length that
    /// the input cannot meet is the end of the stream.
    fn parse_bytes(&mut self, len_char: u8) -> (r: Result<Vec<u8>, Error>)
        requires
            old(self).next is None,
            0 < old(self).pos <= old(self).input@.len(),
            old(self).input@[old(self).pos - 1] == len_char,
            is_digit(len_char),
        ensures
            final(self).next is None,
            final(self).input == old(self).input,
            final(self).start == old(self).start,
            match lex_bytes(old(self).input@.skip(old(self).pos - 1)) {
                Ok((t, n)) => r matches Ok(v) && t == Token::Bytes(v@)
                    && final(self).pos == old(self).pos - 1 + n,
                Err(k) => r matches Err(e) && e.says(
                    k,
                    lex_error_text(old(self).input@.skip(old(self).pos - 1)),
                ),
            },
    {
        let ghost begin = self.pos as int;
        proof {
            lemma_find_byte(self.input@.skip(begin - 1), 1, COLON);
        }
        let len = self.parse_bytes_len(len_char)?;
        proof {
            use_type_invariant(&*self);
        }
        if len > self.input.len() - self.pos {
            return Err(Error::EndOfStream);
        }
        let bytes = vstd::slice::slice_to_vec(slice_subrange(self.input, self.pos, self.pos + len));
        assert(bytes@ =~= self.input@.skip(begin - 1).subrange(
            self.pos - begin + 1,
            self.pos - begin + 1 + len,
        ));
        self.pos = self.pos + len;
        Ok(bytes)
    }

    /// Looks at the next token without taking it.
    fn fill(&mut self) -> (r: Result<(), Error>)
        ensures
            r is Err ==> final(self).next is None,
            match r {
                Ok(_) => final(self)@ == old(self)@ && final(self).next is Some && (match lex(
                    old(self)@,
                ) {
                    Ok((t, n)) => final(self).lookahead() == Some(t),
                    Err(_) => false,
                }),
                Err(e) => lex(old(self)@) == Err::<(Token, int), ErrorKind>(e.kind()) && e.message()
                    == lex_error_text(old(self)@),
            },
    {
        proof {
            use_type_invariant(&*self);
        }
        if self.next.is_some() {
            return Ok(());
        }
        if self.pos >= self.input.len() {
            return Err(Error::EndOfStream);
        }
        let begin = self.pos;
        let ghost s = self.input@.skip(begin as int);
        let b = self.input[self.pos];
        assert(s[0] == b);
        self.pos = self.pos + 1;
        let token = if b == INT_START {
            ParseResult::Int(self.parse_int()?)
        } else if b >= ZERO && b <= NINE {
            ParseResult::Bytes(self.parse_bytes(b)?)
        } else if b == LIST_START {
            ParseResult::List
        } else if b == DICT_START {
            ParseResult::Dict
        } else if b == END {
            ParseResult::End
        } else {
            let c = byte_text(b);
            return Err(Error::InvalidValue(concat3("Invalid character `", c.as_str(), "`")));
        };
        proof {
            use_type_invariant(&*self);
        }
        assert(s == self.input@.skip(begin as int));
        proof {
            crate::wire::lemma_lex_advances(s);
        }
        assert(lex(s) == Ok::<(Token, int), ErrorKind>((token@, self.pos - begin)));
        self.start = begin;
        assert(self.start <= self.pos <= self.input@.len());
        assert(lex(self.input@.skip(self.start as int)) == Ok::<(Token, int), ErrorKind>(
            (token@, self.pos - self.start),
        ));
        self.next = Some(token);
        Ok(())
    }

    /// Takes the next token. A token that was looked at is the first token of
    /// what is unread, and it is the one that is handed out: no byte is read
    /// for it a second time.
    pub fn parse(&mut self) -> (r: Result<ParseResult, Error>)
        ensures
            final(self).lookahead() is None,
            old(self).lookahead() matches Some(t) ==> (r matches Ok(token) && token@ == t) && (lex(
                old(self)@,
            ) matches Ok((first, _)) && first == t),
            match lex(old(self)@) {
                Ok((t, n)) => r matches Ok(token) && token@ == t
                    && final(self)@ == old(self)@.skip(n),
                Err(k) => r matches Err(e) && e.says(k, lex_error_text(old(self)@)),
            },
    {
        proof {
            use_type_invariant(&*self);
        }
        match self.fill() {
            Err(e) => Err(e),
            Ok(_) => {
                proof {
                    use_type_invariant(&*self);
                }
                let ghost before = self.input@.skip(self.start as int);
                let ghost n = self.pos - self.start;
                assert(before.skip(n) =~= self.input@.skip(self.pos as int));
                let mut taken = Deserializer {
                    input: self.input,
                    pos: self.pos,
                    start: self.start,
                    next: None,
                };
                std::mem::swap(self, &mut taken);
                match taken.next {
                    Some(token) => Ok(token),
                    None => Err(Error::EndOfStream),
                }
            },
        }
    }
}

impl<'a> Deserializer<'a> {
    /// Takes the next token, which has to be a byte string.
    pub fn parse_only_bytes(&mut self) -> (r: Result<Vec<u8>, Error>)
        ensures
            match lex(old(self)@) {
                Ok((Token::Bytes(b), n)) => r matches Ok(v) && v@ == b
                    && final(self)@ == old(self)@.skip(n),
                Ok((Token::End, _)) => r matches Err(e) && e is EndOfStream,
                Ok((t, _)) => r matches Err(e) && e.says(ErrorKind::InvalidType, not_bytes_text(t)),
                Err(k) => r matches Err(e) && e.says(k, lex_error_text(old(self)@)),
            },
    {
        match self.parse()? {
            ParseResult::Bytes(bytes) => Ok(bytes),
            ParseResult::Int(i) => Err(Error::invalid_type(&Unexpected::Signed(i), "Bytes")),
            ParseResult::List => Err(Error::invalid_type(&Unexpected::Sequence, "Bytes")),
            ParseResult::Dict => Err(Error::invalid_type(&Unexpected::Mapping, "Bytes")),
            ParseResult::End => Err(Error::EndOfStream),
        }
    }

    /// Takes the next token, which has to be an integer: a byte string is
    /// never read as a number.
    pub fn parse_only_int(&mut self) -> (r: Result<i64, Error>)
        ensures
            match lex(old(self)@) {
                Ok((Token::Int(i), n)) => r == Ok::<i64, Error>(i)
                    && final(self)@ == old(self)@.skip(n),
                Ok((Token::End, _)) => r matches Err(e) && e is EndOfStream,
                Ok((t, _)) => r matches Err(e) && e.says(ErrorKind::InvalidType, not_int_text(t)),
                Err(k) => r matches Err(e) && e.says(k, lex_error_text(old(self)@)),
            },
    {
        match self.parse()? {
            ParseResult::Int(i) => Ok(i),
            ParseResult::Bytes(_) => Err(Error::invalid_type(&Unexpected::Bytes, "i64")),
            ParseResult::List => Err(Error::invalid_type(&Unexpected::Sequence, "i64")),
            ParseResult::Dict => Err(Error::invalid_type(&Unexpected::Mapping, "i64")),
            ParseResult::End => Err(Error::EndOfStream),
        }
    }

    /// Takes the token that a value starts with: an integer or a byte string,
    /// which are the whole value, or the start of a list or dictionary. The
    /// end of a list or dictionary starts no value.
    pub fn deserialize_any(&mut self) -> (r: Result<ParseResult, Error>)
        ensures
            match lex(old(self)@) {
                Ok((Token::End, _)) => r matches Err(e) && e is EndOfStream,
                Ok((t, n)) => r matches Ok(token) && token@ == t
                    && final(self)@ == old(self)@.skip(n),
                Err(k) => r matches Err(e) && e.says(k, lex_error_text(old(self)@)),
            },
    {
        match self.parse()? {
            ParseResult::End => Err(Error::EndOfStream),
            token => Ok(token),
        }
    }

    /// Takes a byte string and reads it as UTF-8.
    pub fn deserialize_string(&mut self) -> (r: Result<String, Error>)
        ensures
            match lex(old(self)@) {
                Ok((Token::Bytes(b), n)) => if valid_utf8(b) {
                    r matches Ok(s) && s@ == decode_utf8(b) && final(self)@ == old(self)@.skip(n)
                } else {
                    r matches Err(e) && e.says(ErrorKind::InvalidValue, not_utf8_text())
                },
                Ok((Token::End, _)) => r matches Err(e) && e is EndOfStream,
                Ok((t, _)) => r matches Err(e) && e.says(ErrorKind::InvalidType, not_bytes_text(t)),
                Err(k) => r matches Err(e) && e.says(k, lex_error_text(old(self)@)),
            },
    {
        let bytes = self.parse_only_bytes()?;
        match string_from_utf8(bytes) {
            Some(s) => Ok(s),
            None => Err(Error::invalid_value(&Unexpected::Bytes, "utf-8 string")),
        }
    }

    /// Takes a byte string and reads it as UTF-8.
    pub fn deserialize_str(&mut self) -> (r: Result<String, Error>)
        ensures
            match lex(old(self)@) {
                Ok((Token::Bytes(b), n)) => if valid_utf8(b) {
                    r matches Ok(s) && s@ == decode_utf8(b) && final(self)@ == old(self)@.skip(n)
                } else {
                    r matches Err(e) && e.says(ErrorKind::InvalidValue, not_utf8_text())
                },
                Ok((Token::End, _)) => r matches Err(e) && e is EndOfStream,
                Ok((t, _)) => r matches Err(e) && e.says(ErrorKind::InvalidType, not_bytes_text(t)),
                Err(k) => r matches Err(e) && e.says(k, lex_error_text(old(self)@)),
            },
    {
        self.deserialize_string()
    }

    /// Looks at the next token: takes it if it is the end of a list or
    /// dictionary, leaves it unread if it is anything else.
    fn at_end(&mut self) -> (r: Result<bool, Error>)
        ensures
            match lex(old(self)@) {
                Ok((Token::End, n)) => r == Ok::<bool, Error>(true)
                    && final(self)@ == old(self)@.skip(n) && final(self).lookahead() is None,
                Ok((t, _)) => r == Ok::<bool, Error>(false) && final(self)@ == old(self)@
                    && final(self).lookahead() == Some(t),
                Err(k) => r matches Err(e) && e.says(k, lex_error_text(old(self)@)),
            },
    {
        self.fill()?;
        proof {
            use_type_invariant(&*self);
        }
        let is_end = match &self.next {
            Some(ParseResult::End) => true,
            _ => false,
        };
        if is_end {
            let _ = self.parse();
        }
        Ok(is_end)
    }

    /// Takes the next token, which has to be the end of a list or dictionary.
    pub fn expect_end(&mut self) -> (r: Result<(), Error>)
        ensures
            match lex(old(self)@) {
                Ok((Token::End, n)) => r is Ok && final(self)@ == old(self)@.skip(n),
                Ok(_) => r matches Err(e) && e is InvalidType && e.message() == "expected `e`"@,
                Err(k) => r matches Err(e) && e.says(k, lex_error_text(old(self)@)),
            },
    {
        match self.parse()? {
            ParseResult::End => Ok(()),
            _ => Err(Error::InvalidType(String::from_str("expected `e`"))),
        }
    }
}

/// The walk through a list, a dictionary or a variant: how many items a
/// tuple still has to give, if the walk is through a tuple.
///
/// The end of a list or dictionary is taken when the walk finds it and not
/// before. A caller that stops asking for items before the end leaves the
/// rest of that list unread: whoever reads on stands in the middle of it.
/// Who reads a fixed number of items from a list, as for a tuple or for the
/// fields of a struct, makes the walk with that number (`tuple`): behind the
/// last item the list then has to end, and its end is taken, so that a list
/// of such tuples is read to its last item.
#[derive(Debug)]
pub struct BencodeAccess {
    len: Option<usize>,
}

impl BencodeAccess {
    /// The number of items that are still to come, where it is known.
    pub closed spec fn remaining(&self) -> Option<usize> {
        self.len
    }

    /// A walk; `len` is the number of items for a tuple, `None` for anything else.
    pub fn new(len: Option<usize>) -> (access: BencodeAccess)
        ensures
            access.remaining() == len,
    {
        BencodeAccess { len }
    }

    /// The walk through a list of exactly `len` items, whose start has been
    /// read. Behind the last item the end of the list is asked for; where
    /// there is no item to ask behind, the list has to end at once.
    pub fn tuple(de: &mut Deserializer, len: usize) -> (r: Result<BencodeAccess, Error>)
        ensures
            if len == 0 {
                match lex(old(de)@) {
                    Ok((Token::End, n)) => r matches Ok(access) && access.remaining() == Some(len)
                        && final(de)@ == old(de)@.skip(n),
                    Ok(_) => r matches Err(e) && e is InvalidType && e.message()
                        == "expected `e`"@,
                    Err(k) => r matches Err(e) && e.says(k, lex_error_text(old(de)@)),
                }
            } else {
                r matches Ok(access) && access.remaining() == Some(len) && final(de)@ == old(de)@
                    && final(de).lookahead() == old(de).lookahead()
            },
    {
        if len == 0 {
            de.expect_end()?;
        }
        Ok(BencodeAccess::new(Some(len)))
    }

    /// Tells whether the list has another item: `false` at the list's end,
    /// which is taken, `true` in front of an item, which is left to be read.
    pub fn next_element_seed(&mut self, de: &mut Deserializer) -> (r: Result<bool, Error>)
        ensures
            final(self).remaining() == old(self).remaining(),
            match lex(old(de)@) {
                Ok((Token::End, n)) => r == Ok::<bool, Error>(false)
                    && final(de)@ == old(de)@.skip(n) && final(de).lookahead() is None,
                Ok((t, _)) => r == Ok::<bool, Error>(true) && final(de)@ == old(de)@
                    && final(de).lookahead() == Some(t),
                Err(k) => r matches Err(e) && e.says(k, lex_error_text(old(de)@)),
            },
    {
        match de.at_end() {
            Ok(end) => Ok(!end),
            Err(e) => Err(e),
        }
    }

    /// Counts one item of a tuple as read. Behind the last item of a tuple
    /// the list has to end, and its end is taken. Where the walk is through
    /// no tuple, nothing happens.
    pub fn end_element(&mut self, de: &mut Deserializer) -> (r: Result<(), Error>)
        ensures
            match old(self).remaining() {
                None => r is Ok && final(self).remaining() is None && final(de)@ == old(de)@,
                Some(l) => final(self).remaining() == Some(l.wrapping_sub(1)) && if l == 1 {
                    match lex(old(de)@) {
                        Ok((Token::End, n)) => r is Ok && final(de)@ == old(de)@.skip(n),
                        Ok(_) => r matches Err(e) && e is InvalidType && e.message()
                            == "expected `e`"@,
                        Err(k) => r matches Err(e) && e.says(k, lex_error_text(old(de)@)),
                    }
                } else {
                    r is Ok && final(de)@ == old(de)@
                },
            },
    {
        match self.len {
            None => Ok(()),
            Some(l) => {
                let l = l.wrapping_sub(1);
                self.len = Some(l);
                if l == 0 {
                    de.expect_end()
                } else {
                    Ok(())
                }
            },
        }
    }

    /// Tells whether the dictionary has another entry: `false` at the
    /// dictionary's end, which is taken, `true` in front of a key, which is
    /// left to be read.
    pub fn next_key_seed(&mut self, de: &mut Deserializer) -> (r: Result<bool, Error>)
        ensures
            final(self).remaining() == old(self).remaining(),
            match lex(old(de)@) {
                Ok((Token::End, n)) => r == Ok::<bool, Error>(false)
                    && final(de)@ == old(de)@.skip(n) && final(de).lookahead() is None,
                Ok((t, _)) => r == Ok::<bool, Error>(true) && final(de)@ == old(de)@
                    && final(de).lookahead() == Some(t),
                Err(k) => r matches Err(e) && e.says(k, lex_error_text(old(de)@)),
            },
    {
        match de.at_end() {
            Ok(end) => Ok(!end),
            Err(e) => Err(e),
        }
    }

    /// A variant without payload: there is nothing to read.
    pub fn unit_variant(&self) -> (r: Result<(), Error>)
        ensures
            r is Ok,
    {
        Ok(())
    }

    /// Closes a variant with one value, behind that value: the dictionary
    /// around it has to end here.
    pub fn newtype_variant_seed(&mut self, de: &mut Deserializer) -> (r: Result<(), Error>)
        ensures
            final(self).remaining() == old(self).remaining(),
            match lex(old(de)@) {
                Ok((Token::End, n)) => r is Ok && final(de)@ == old(de)@.skip(n),
                Ok(_) => r matches Err(e) && e is InvalidType && e.message() == "expected `e`"@,
                Err(k) => r matches Err(e) && e.says(k, lex_error_text(old(de)@)),
            },
    {
        de.expect_end()
    }

    /// Opens a variant with `len` values: a list has to start here, and the
    /// walk through it is handed back.
    pub fn tuple_variant(&mut self, de: &mut Deserializer, len: usize) -> (r: Result<
        BencodeAccess,
        Error,
    >)
        ensures
            final(self).remaining() == old(self).remaining(),
            match lex(old(de)@) {
                Ok((Token::List, n)) => r matches Ok(access) && access.remaining() == Some(len)
                    && final(de)@ == old(de)@.skip(n),
                Ok(_) => r matches Err(e) && e is InvalidType && e.message() == "expected list"@,
                Err(k) => r matches Err(e) && e.says(k, lex_error_text(old(de)@)),
            },
    {
        match de.parse()? {
            ParseResult::List => Ok(BencodeAccess::new(Some(len))),
            _ => Err(Error::InvalidType(String::from_str("expected list"))),
        }
    }

    /// Opens a variant with named fields: its value starts here, and its
    /// first token is handed back.
    pub fn struct_variant(&mut self, de: &mut Deserializer) -> (r: Result<ParseResult, Error>)
        ensures
            final(self).remaining() == old(self).remaining(),
            match lex(old(de)@) {
                Ok((Token::End, _)) => r matches Err(e) && e is EndOfStream,
                Ok((t, n)) => r matches Ok(token) && token@ == t && final(de)@ == old(de)@.skip(
                    n,
                ),
                Err(k) => r matches Err(e) && e.says(k, lex_error_text(old(de)@)),
            },
    {
        de.deserialize_any()
    }

    /// Opens an enum: either a byte string stands here, which is the
    /// variant's name and is left to be read, or a dictionary starts here,
    /// whose start is taken, so that its one key, the variant's name, comes
    /// next. Anything else is no enum.
    pub fn variant_seed(&mut self, de: &mut Deserializer) -> (r: Result<(), Error>)
        ensures
            final(self).remaining() == old(self).remaining(),
            match lex(old(de)@) {
                Ok((Token::Bytes(b), _)) => r is Ok && final(de)@ == old(de)@
                    && final(de).lookahead() == Some(Token::Bytes(b)),
                Ok((Token::Dict, n)) => r is Ok && final(de)@ == old(de)@.skip(n)
                    && final(de).lookahead() is None,
                Ok((t, _)) => r matches Err(e) && e.says(ErrorKind::InvalidValue, no_enum_text(t)),
                Err(k) => r matches Err(e) && e.says(k, lex_error_text(old(de)@)),
            },
    {
        de.fill()?;
        let found = de.peek_name();
        match found {
            None => Ok(()),
            Some(name) => {
                let token = de.parse()?;
                match token {
                    ParseResult::Dict => Ok(()),
                    _ => Err(
                        Error::InvalidValue(
                            concat3("Expected bytes or map; got `", name.as_str(), "`"),
                        ),
                    ),
                }
            },
        }
    }
}

impl<'a> Deserializer<'a> {
    /// For a token that was looked at: nothing if it is a byte string, else
    /// what the token is called.
    fn peek_name(&self) -> (r: Option<String>)
        requires
            self.lookahead() is Some,
        ensures
            r is None <==> self.lookahead()->0 is Bytes,
            r matches Some(name) ==> name@ == token_name(self.lookahead()->0),
    {
        match &self.next {
            Some(ParseResult::Bytes(_)) => None,
            Some(ParseResult::Int(i)) => {
                let mut digits = String::new();
                crate::error::push_decimal_i64_str(&mut digits, *i);
                assert(digits@ =~= ascii_chars(int_text(*i as int)));
                Some(concat3("Int(", digits.as_str(), ")"))
            },
            Some(ParseResult::List) => Some(String::from_str("List")),
            Some(ParseResult::Dict) => Some(String::from_str("Map")),
            Some(ParseResult::End) => Some(String::from_str("End")),
            None => None,
        }
    }
}

/// Reads one value from the start of `s`.
pub fn from_str(s: &str) -> (r: Result<Value, Error>)
    ensures
        match decode(s.spec_bytes()) {
            Ok((v, _)) => r matches Ok(value) && value@ == v && value.wf(),
            Err(k) => r matches Err(e) && e.says(k, decode_error_text(s.spec_bytes())),
        },
{
    from_bytes(s.as_bytes())
}

/// Reads one value from the start of `b`. Bytes behind the value are not
/// looked at.
pub fn from_bytes(b: &[u8]) -> (r: Result<Value, Error>)
    ensures
        match decode(b@) {
            Ok((v, _)) => r matches Ok(value) && value@ == v && value.wf(),
            Err(k) => r matches Err(e) && e.says(k, decode_error_text(b@)),
        },
{
    let mut de = Deserializer::new(b);
    Value::deserialize(&mut de)
}

} // verus!
