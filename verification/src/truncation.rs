//! Input that stops too early: the bytes of a value, cut off anywhere before
//! their end, decode to nothing but the end of the stream.

use crate::decimal::{int_text, is_digit, lemma_nat_text, lemma_text_int_of_int_text, nat_text};
use crate::error::ErrorKind;
use crate::roundtrip::{
    lemma_decode_encode, lemma_encode_dict, lemma_encode_entries, lemma_encode_list_front,
    lemma_entries_bytes_front,
};
use crate::ser::entries_bytes;
use crate::value::{
    decode, decode_entries, decode_list, encode, encode_entries, encode_list,
    lemma_encode_nonempty, ValueView,
};
use crate::wire::{
    bytes_token, find_byte, int_token, lemma_find_byte, lemma_find_byte_at,
    lemma_lex_bytes_token, lex, Token, COLON, DICT_START, END, INT_START, LIST_START,
};
use vstd::prelude::*;

verus! {

/// An integer that is cut off is the end of the stream.
pub proof fn lemma_lex_truncated_int(v: i64, k: int)
    requires
        0 <= k < int_token(v).len(),
    ensures
        lex(int_token(v).take(k)) == Err::<(Token, int), ErrorKind>(ErrorKind::EndOfStream),
{
    let p = int_token(v).take(k);
    let text = int_text(v as int);
    lemma_text_int_of_int_text(v as int);
    if k > 0 {
        assert(p[0] == INT_START);
        lemma_find_byte(p, 1, END);
        if find_byte(p, 1, END) is Some {
            let at = find_byte(p, 1, END)->0;
            assert(p[at] == text[at - 1]);
        }
    }
}

/// A byte string that is cut off is the end of the stream.
pub proof fn lemma_lex_truncated_bytes(b: Seq<u8>, k: int)
    requires
        b.len() <= usize::MAX,
        0 <= k < bytes_token(b).len(),
    ensures
        lex(bytes_token(b).take(k)) == Err::<(Token, int), ErrorKind>(ErrorKind::EndOfStream),
{
    let p = bytes_token(b).take(k);
    let text = nat_text(b.len());
    let n = text.len() as int;
    lemma_nat_text(b.len());
    if k > 0 {
        assert(p[0] == text[0]);
        assert(is_digit(text[0]));
        lemma_find_byte(p, 1, COLON);
        if k <= n {
            if find_byte(p, 1, COLON) is Some {
                let at = find_byte(p, 1, COLON)->0;
                assert(p[at] == text[at]);
                assert(is_digit(text[at]));
            }
        } else {
            assert forall|j: int| 1 <= j < n implies p[j] != COLON by {
                assert(p[j] == text[j]);
                assert(is_digit(text[j]));
            }
            assert(p[n] == COLON);
            lemma_find_byte_at(p, 1, COLON, n);
            assert(p.subrange(0, n) =~= text);
        }
    }
}

/// The first byte of a value's bytes is not the end marker.
pub proof fn lemma_encode_first(v: ValueView)
    ensures
        encode(v).len() > 0,
        encode(v)[0] != END,
{
    match v {
        ValueView::Bytes(b) => {
            lemma_nat_text(b.len());
            assert(encode(v)[0] == nat_text(b.len())[0]);
            assert(is_digit(nat_text(b.len())[0]));
        },
        ValueView::Int(_) => {
            assert(encode(v)[0] == INT_START);
        },
        ValueView::List(_) => {
            assert(encode(v)[0] == LIST_START);
        },
        ValueView::Dict(_) => {
            assert(encode(v)[0] == DICT_START);
        },
    }
}

/// **Truncation.** The bytes of a well-formed value, cut off anywhere before
/// their end, decode to the end of the stream: never to a value, never to
/// another error.
pub proof fn lemma_decode_truncated(v: ValueView, k: int)
    requires
        v.wf(),
        0 <= k < encode(v).len(),
    ensures
        decode(encode(v).take(k)) == Err::<(ValueView, int), ErrorKind>(ErrorKind::EndOfStream),
    decreases v,
{
    let p = encode(v).take(k);
    match v {
        ValueView::Bytes(b) => {
            lemma_lex_truncated_bytes(b, k);
        },
        ValueView::Int(i) => {
            lemma_lex_truncated_int(i, k);
        },
        ValueView::List(l) => {
            if k > 0 {
                assert(p[0] == LIST_START);
                assert(p.skip(1) =~= (encode_list(l) + seq![END]).take(k - 1));
                lemma_decode_list_truncated(l, k - 1);
            }
        },
        ValueView::Dict(d) => {
            lemma_encode_dict(d);
            if k > 0 {
                assert(p[0] == DICT_START);
                assert(p.skip(1) =~= (entries_bytes(encode_entries(d)) + seq![END]).take(k - 1));
                lemma_decode_entries_truncated(d, k - 1);
            }
        },
    }
}

/// The items of a list and its end, cut off anywhere before the end is
/// through, decode to the end of the stream.
pub proof fn lemma_decode_list_truncated(l: Seq<ValueView>, k: int)
    requires
        forall|i: int| 0 <= i < l.len() ==> (#[trigger] l[i]).wf(),
        0 <= k < encode_list(l).len() + 1,
    ensures
        decode_list((encode_list(l) + seq![END]).take(k)) == Err::<
            (Seq<ValueView>, int),
            ErrorKind,
        >(ErrorKind::EndOfStream),
    decreases l,
{
    let whole = encode_list(l) + seq![END];
    let p = whole.take(k);
    if l.len() == 0 {
        assert(p.len() == 0);
    } else {
        let x = l.first();
        let t = l.drop_first();
        let tail = encode_list(t) + seq![END];
        let n = encode(x).len() as int;
        lemma_encode_list_front(l);
        assert(whole =~= encode(x) + tail);
        assert(x.wf());
        lemma_encode_first(x);
        if k < n {
            assert(p =~= encode(x).take(k));
            lemma_decode_truncated(x, k);
            if k > 0 {
                assert(p[0] == encode(x)[0]);
            }
        } else {
            let cut = tail.take(k - n);
            assert(p =~= encode(x) + cut);
            lemma_decode_encode(x, cut);
            assert(p.skip(n) =~= cut);
            assert forall|i: int| 0 <= i < t.len() implies (#[trigger] t[i]).wf() by {
                assert(t[i] == l[i + 1]);
            }
            lemma_decode_list_truncated(t, k - n);
            assert(lex(p) is Ok && !(lex(p)->Ok_0.0 is End));
        }
    }
}

/// The entries of a dictionary and its end, cut off anywhere before the end
/// is through, decode to the end of the stream.
pub proof fn lemma_decode_entries_truncated(d: Seq<(Seq<u8>, ValueView)>, k: int)
    requires
        forall|i: int|
            0 <= i < d.len() ==> (#[trigger] d[i]).0.len() <= usize::MAX && d[i].1.wf(),
        0 <= k < entries_bytes(encode_entries(d)).len() + 1,
    ensures
        decode_entries((entries_bytes(encode_entries(d)) + seq![END]).take(k)) == Err::<
            (Seq<(Seq<u8>, ValueView)>, int),
            ErrorKind,
        >(ErrorKind::EndOfStream),
    decreases d,
{
    let entries = encode_entries(d);
    let whole = entries_bytes(entries) + seq![END];
    let p = whole.take(k);
    if d.len() == 0 {
        assert(entries =~= Seq::<(Seq<u8>, Seq<u8>)>::empty());
        assert(p.len() == 0);
    } else {
        let key = d.first().0;
        let x = d.first().1;
        let t = d.drop_first();
        let tail = entries_bytes(encode_entries(t)) + seq![END];
        let n = bytes_token(key).len() as int;
        let m = encode(x).len() as int;
        assert(whole == bytes_token(key) + (encode(x) + tail)) by {
            lemma_encode_entries(d);
            lemma_encode_entries(t);
            assert(entries.drop_first() =~= encode_entries(t));
            assert(entries.first() == (key, encode(x)));
            lemma_entries_bytes_front(entries);
            assert(whole =~= bytes_token(key) + (encode(x) + tail));
        }
        assert(whole.len() == n + m + tail.len());
        assert(tail.len() == entries_bytes(encode_entries(t)).len() + 1);
        assert(d[0].0.len() <= usize::MAX && d[0].1.wf());
        lemma_encode_nonempty(x);
        if k < n {
            assert(p == bytes_token(key).take(k)) by {
                assert(p =~= bytes_token(key).take(k));
            }
            lemma_lex_truncated_bytes(key, k);
        } else if k < n + m {
            let cut = encode(x).take(k - n);
            assert(p == bytes_token(key) + cut) by {
                assert(p =~= bytes_token(key) + cut);
            }
            assert(lex(p) == Ok::<(Token, int), ErrorKind>((Token::Bytes(key), n))) by {
                lemma_lex_bytes_token(key, cut);
            }
            assert(p.skip(n) == cut) by {
                assert(p.skip(n) =~= cut);
            }
            lemma_decode_truncated(x, k - n);
        } else {
            let cut = tail.take(k - n - m);
            assert(p == bytes_token(key) + (encode(x) + cut)) by {
                assert(p =~= bytes_token(key) + (encode(x) + cut));
            }
            assert(lex(p) == Ok::<(Token, int), ErrorKind>((Token::Bytes(key), n))) by {
                lemma_lex_bytes_token(key, encode(x) + cut);
            }
            assert(p.skip(n) == encode(x) + cut) by {
                assert(p.skip(n) =~= encode(x) + cut);
            }
            lemma_decode_encode(x, cut);
            assert(p.skip(n + m) == cut) by {
                assert(p.skip(n + m) =~= cut);
            }
            assert forall|i: int| 0 <= i < t.len() implies (#[trigger] t[i]).0.len() <= usize::MAX
                && t[i].1.wf() by {
                assert(t[i] == d[i + 1]);
            }
            lemma_decode_entries_truncated(t, k - n - m);
            crate::value::lemma_decode_entries_entry(p, key, n, x, m);
        }
    }
}

} // verus!
