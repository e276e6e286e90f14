//! The wire format, token by token: what each token looks like in bytes, and
//! what token a run of bytes starts with.

use crate::decimal::{
    int_text, is_digit, lemma_nat_text, lemma_text_int_of_int_text, nat_text, text_i64, text_usize,
};
use crate::error::ErrorKind;
use vstd::prelude::*;
use vstd::utf8::{decode_utf8, valid_utf8};

verus! {

/// `i`, which opens an integer.
pub const INT_START: u8 = 105;

/// `l`, which opens a list.
pub const LIST_START: u8 = 108;

/// `d`, which opens a dictionary.
pub const DICT_START: u8 = 100;

/// `e`, which closes an integer, a list or a dictionary.
pub const END: u8 = 101;

/// `:`, which stands between a byte string's length and its bytes.
pub const COLON: u8 = 58;

/// One structural event of the wire format.
pub ghost enum Token {
    /// `i`, a decimal number, `e`.
    Int(i64),
    /// A decimal length, `:`, then that many bytes.
    Bytes(Seq<u8>),
    /// `l`, the start of a list.
    List,
    /// `d`, the start of a dictionary.
    Dict,
    /// `e`, the end of a list or dictionary.
    End,
}

/// The bytes of an integer on the wire.
pub open spec fn int_token(v: i64) -> Seq<u8> {
    seq![INT_START] + int_text(v as int) + seq![END]
}

/// The bytes of a byte string on the wire.
pub open spec fn bytes_token(b: Seq<u8>) -> Seq<u8> {
    nat_text(b.len()) + seq![COLON] + b
}

/// The index of the first `stop` at or after `from`, if there is one.
pub open spec fn find_byte(s: Seq<u8>, from: int, stop: u8) -> Option<int>
    decreases s.len() - from,
{
    if from >= s.len() {
        None
    } else if s[from] == stop {
        Some(from)
    } else {
        find_byte(s, from + 1, stop)
    }
}

/// The token after a leading `i`: the text up to the first `e` is the number.
pub open spec fn lex_int(s: Seq<u8>) -> Result<(Token, int), ErrorKind> {
    match find_byte(s, 1, END) {
        None => Err(ErrorKind::EndOfStream),
        Some(end) => match text_i64(s.subrange(1, end)) {
            Some(v) => Ok((Token::Int(v), end + 1)),
            None => Err(ErrorKind::InvalidValue),
        },
    }
}

/// The token that starts with a digit: the text up to the first `:` is the
/// length, and that many bytes follow.
pub open spec fn lex_bytes(s: Seq<u8>) -> Result<(Token, int), ErrorKind> {
    match find_byte(s, 1, COLON) {
        None => Err(ErrorKind::EndOfStream),
        Some(colon) => match text_usize(s.subrange(0, colon)) {
            None => Err(ErrorKind::InvalidValue),
            Some(len) => if colon + 1 + len <= s.len() {
                Ok((Token::Bytes(s.subrange(colon + 1, colon + 1 + len)), colon + 1 + len))
            } else {
                Err(ErrorKind::EndOfStream)
            },
        },
    }
}

/// The first token of `s` and the number of bytes it takes, or the error that
/// reading it ends in.
pub open spec fn lex(s: Seq<u8>) -> Result<(Token, int), ErrorKind> {
    if s.len() == 0 {
        Err(ErrorKind::EndOfStream)
    } else if s[0] == INT_START {
        lex_int(s)
    } else if is_digit(s[0]) {
        lex_bytes(s)
    } else if s[0] == LIST_START {
        Ok((Token::List, 1))
    } else if s[0] == DICT_START {
        Ok((Token::Dict, 1))
    } else if s[0] == END {
        Ok((Token::End, 1))
    } else {
        Err(ErrorKind::InvalidValue)
    }
}

/// What is said of text that cannot be read as a number; `as_what` ends the
/// sentence with the number that was looked for.
pub open spec fn number_error_text(text: Seq<u8>, as_what: Seq<char>) -> Seq<char> {
    if valid_utf8(text) {
        "Can't parse `"@ + decode_utf8(text) + as_what
    } else {
        "Non UTF-8 integer encoding"@
    }
}

/// The message of the error that reading the first token of `s` ends in,
/// where it ends in one.
pub open spec fn lex_error_text(s: Seq<u8>) -> Seq<char> {
    if s.len() == 0 {
        "End of stream"@
    } else if s[0] == INT_START {
        match find_byte(s, 1, END) {
            None => "End of stream"@,
            Some(end) => number_error_text(s.subrange(1, end), "` as integer"@),
        }
    } else if is_digit(s[0]) {
        match find_byte(s, 1, COLON) {
            None => "End of stream"@,
            Some(colon) => match text_usize(s.subrange(0, colon)) {
                None => number_error_text(s.subrange(0, colon), "` as string length"@),
                Some(_) => "End of stream"@,
            },
        }
    } else {
        "Invalid character `"@ + seq![s[0] as char] + "`"@
    }
}

/// Where `find_byte` finds something, it is the first `stop` from `from` on.
pub proof fn lemma_find_byte(s: Seq<u8>, from: int, stop: u8)
    requires
        0 <= from,
    ensures
        match find_byte(s, from, stop) {
            Some(at) => from <= at < s.len() && s[at] == stop && forall|j: int|
                from <= j < at ==> s[j] != stop,
            None => forall|j: int| from <= j < s.len() ==> s[j] != stop,
        },
    decreases s.len() - from,
{
    if from < s.len() && s[from] != stop {
        lemma_find_byte(s, from + 1, stop);
    }
}

/// The first `stop` from `from` on is what `find_byte` finds.
pub proof fn lemma_find_byte_at(s: Seq<u8>, from: int, stop: u8, at: int)
    requires
        0 <= from <= at < s.len(),
        s[at] == stop,
        forall|j: int| from <= j < at ==> s[j] != stop,
    ensures
        find_byte(s, from, stop) == Some(at),
    decreases at - from,
{
    if from < at {
        lemma_find_byte_at(s, from + 1, stop, at);
    }
}

/// A token takes at least one byte and no more than there are.
pub proof fn lemma_lex_advances(s: Seq<u8>)
    ensures
        match lex(s) {
            Ok((_, n)) => 0 < n <= s.len(),
            Err(_) => true,
        },
{
    lemma_find_byte(s, 1, END);
    lemma_find_byte(s, 1, COLON);
}

/// An integer's bytes, whatever follows them, are read back as that integer.
pub proof fn lemma_lex_int_token(v: i64, rest: Seq<u8>)
    ensures
        lex(int_token(v) + rest) == Ok::<_, ErrorKind>((Token::Int(v), int_token(v).len() as int)),
{
    let s = int_token(v) + rest;
    let text = int_text(v as int);
    let n = text.len() as int;
    lemma_text_int_of_int_text(v as int);
    assert forall|j: int| 1 <= j < 1 + n implies s[j] != END by {
        assert(s[j] == text[j - 1]);
    }
    lemma_find_byte_at(s, 1, END, 1 + n);
    assert(s.subrange(1, 1 + n) =~= text);
}

/// A byte string's bytes, whatever follows them, are read back as that byte string.
pub proof fn lemma_lex_bytes_token(b: Seq<u8>, rest: Seq<u8>)
    requires
        b.len() <= usize::MAX,
    ensures
        lex(bytes_token(b) + rest) == Ok::<_, ErrorKind>(
            (Token::Bytes(b), bytes_token(b).len() as int),
        ),
{
    let s = bytes_token(b) + rest;
    let text = nat_text(b.len());
    let n = text.len() as int;
    lemma_nat_text(b.len());
    assert(s[0] == text[0]);
    assert forall|j: int| 1 <= j < n implies s[j] != COLON by {
        assert(s[j] == text[j]);
    }
    lemma_find_byte_at(s, 1, COLON, n);
    assert(s.subrange(0, n) =~= text);
    assert(s.subrange(n + 1, n + 1 + b.len()) =~= b);
}

} // verus!
