//! What is written is read back: the bytes of a value, with anything behind
//! them, decode to that value and to nothing else.

use crate::error::ErrorKind;
use crate::ser::entries_bytes;
use crate::sorted::{
    dict_of, keys_increasing, keys_sorted, lemma_dict_of, lemma_dict_of_increasing,
    lemma_sort_entries_of_sorted,
};
use crate::value::{
    decode, decode_entries, decode_list, encode, encode_entries, encode_list,
    lemma_encode_nonempty, ValueView,
};
use crate::wire::{
    bytes_token, lemma_find_byte, lemma_lex_advances, lemma_lex_bytes_token,
    lemma_lex_int_token, lex, Token, COLON, DICT_START, END, LIST_START,
};
use vstd::prelude::*;

verus! {

/// The bytes of a list's items are those of the first item, then those of the others.
pub proof fn lemma_encode_list_front(l: Seq<ValueView>)
    requires
        l.len() > 0,
    ensures
        encode_list(l) == encode(l.first()) + encode_list(l.drop_first()),
    decreases l.len(),
{
    if l.len() == 1 {
        assert(l.drop_last() =~= Seq::<ValueView>::empty());
        assert(l.drop_first() =~= Seq::<ValueView>::empty());
        assert(encode_list(l) =~= encode(l.first()) + encode_list(l.drop_first()));
    } else {
        lemma_encode_list_front(l.drop_last());
        assert(l.drop_last().drop_first() =~= l.drop_first().drop_last());
        assert(l.drop_last().first() == l.first());
        assert(l.drop_first().last() == l.last());
        assert(encode_list(l) =~= encode(l.first()) + encode_list(l.drop_first()));
    }
}

/// Each entry of a dictionary keeps its key and has its value's bytes.
pub proof fn lemma_encode_entries(d: Seq<(Seq<u8>, ValueView)>)
    ensures
        encode_entries(d).len() == d.len(),
        forall|i: int|
            0 <= i < d.len() ==> (#[trigger] encode_entries(d)[i]) == (d[i].0, encode(d[i].1)),
    decreases d.len(),
{
    if d.len() > 0 {
        lemma_encode_entries(d.drop_last());
    }
}

/// The bytes of entries are those of the first entry, then those of the others.
pub proof fn lemma_entries_bytes_front(s: Seq<(Seq<u8>, Seq<u8>)>)
    requires
        s.len() > 0,
    ensures
        entries_bytes(s) == bytes_token(s.first().0) + s.first().1 + entries_bytes(s.drop_first()),
    decreases s.len(),
{
    if s.len() == 1 {
        assert(s.drop_last() =~= Seq::<(Seq<u8>, Seq<u8>)>::empty());
        assert(s.drop_first() =~= Seq::<(Seq<u8>, Seq<u8>)>::empty());
        assert(entries_bytes(s) =~= bytes_token(s.first().0) + s.first().1 + entries_bytes(
            s.drop_first(),
        ));
    } else {
        lemma_entries_bytes_front(s.drop_last());
        assert(s.drop_last().drop_first() =~= s.drop_first().drop_last());
        assert(s.drop_last().first() == s.first());
        assert(s.drop_first().last() == s.last());
        assert(entries_bytes(s) =~= bytes_token(s.first().0) + s.first().1 + entries_bytes(
            s.drop_first(),
        ));
    }
}

/// The bytes of a well-formed dictionary are `d`, its entries as they stand, `e`.
pub proof fn lemma_encode_dict(d: Seq<(Seq<u8>, ValueView)>)
    requires
        keys_increasing(d),
    ensures
        encode(ValueView::Dict(d)) == seq![DICT_START] + entries_bytes(encode_entries(d))
            + seq![END],
{
    lemma_encode_entries(d);
    let entries = encode_entries(d);
    assert(keys_sorted(entries)) by {
        assert forall|i: int, j: int| 0 <= i < j < entries.len() implies crate::order::lex_le(
            #[trigger] entries[i].0,
            #[trigger] entries[j].0,
        ) by {
            assert(crate::order::lex_lt(d[i].0, d[j].0));
        }
    }
    lemma_sort_entries_of_sorted(entries);
}

/// **Round trip.** The bytes of a well-formed value, with anything behind
/// them, decode to that value, and the decoder takes exactly those bytes.
pub proof fn lemma_decode_encode(v: ValueView, rest: Seq<u8>)
    requires
        v.wf(),
    ensures
        decode(encode(v) + rest) == Ok::<(ValueView, int), ErrorKind>((v, encode(v).len() as int)),
    decreases v,
{
    let s = encode(v) + rest;
    match v {
        ValueView::Bytes(b) => {
            lemma_lex_bytes_token(b, rest);
        },
        ValueView::Int(i) => {
            lemma_lex_int_token(i, rest);
        },
        ValueView::List(l) => {
            assert(s[0] == LIST_START);
            assert(s.skip(1) =~= encode_list(l) + seq![END] + rest);
            lemma_decode_list_encoded(l, rest);
        },
        ValueView::Dict(d) => {
            lemma_encode_dict(d);
            assert(s[0] == DICT_START);
            assert(s.skip(1) =~= entries_bytes(encode_entries(d)) + seq![END] + rest);
            lemma_decode_entries_encoded(d, rest);
            lemma_dict_of_increasing(d);
        },
    }
}

/// The bytes of a list's items and the list's end, with anything behind
/// them, decode to those items.
pub proof fn lemma_decode_list_encoded(l: Seq<ValueView>, rest: Seq<u8>)
    requires
        forall|i: int| 0 <= i < l.len() ==> (#[trigger] l[i]).wf(),
    ensures
        decode_list(encode_list(l) + seq![END] + rest) == Ok::<(Seq<ValueView>, int), ErrorKind>(
            (l, encode_list(l).len() as int + 1),
        ),
    decreases l,
{
    let s = encode_list(l) + seq![END] + rest;
    if l.len() == 0 {
        assert(s[0] == END);
        assert(l =~= Seq::<ValueView>::empty());
    } else {
        let x = l.first();
        let t = l.drop_first();
        let behind = encode_list(t) + seq![END] + rest;
        lemma_encode_list_front(l);
        assert(s =~= encode(x) + behind);
        assert(x.wf());
        lemma_decode_encode(x, behind);
        lemma_encode_nonempty(x);
        let n = encode(x).len() as int;
        assert(s.skip(n) =~= behind);
        assert forall|i: int| 0 <= i < t.len() implies (#[trigger] t[i]).wf() by {
            assert(t[i] == l[i + 1]);
        }
        lemma_decode_list_encoded(t, rest);
        assert(seq![x] + t =~= l);
        assert(lex(s) is Ok && !(lex(s)->Ok_0.0 is End));
    }
}

/// At the end marker a dictionary has no further entry.
proof fn lemma_decode_entries_end(rest: Seq<u8>)
    ensures
        decode_entries(seq![END] + rest) == Ok::<(Seq<(Seq<u8>, ValueView)>, int), ErrorKind>(
            (Seq::empty(), 1),
        ),
{
    assert((seq![END] + rest)[0] == END);
}

/// An entry in front of entries that decode is decoded in front of them.
proof fn lemma_decode_entries_step(
    s: Seq<u8>,
    key: Seq<u8>,
    n: int,
    x: ValueView,
    m: int,
    t: Seq<(Seq<u8>, ValueView)>,
    c: int,
)
    requires
        lex(s) == Ok::<(Token, int), ErrorKind>((Token::Bytes(key), n)),
        decode(s.skip(n)) == Ok::<(ValueView, int), ErrorKind>((x, m)),
        0 < m <= s.len() - n,
        decode_entries(s.skip(n + m)) == Ok::<(Seq<(Seq<u8>, ValueView)>, int), ErrorKind>(
            (t, c),
        ),
    ensures
        decode_entries(s) == Ok::<(Seq<(Seq<u8>, ValueView)>, int), ErrorKind>(
            (seq![(key, x)] + t, n + m + c),
        ),
{
    crate::value::lemma_decode_entries_entry(s, key, n, x, m);
}

/// The bytes of a dictionary's entries and the dictionary's end, with
/// anything behind them, decode to those entries.
#[verifier::rlimit(30)]
pub proof fn lemma_decode_entries_encoded(d: Seq<(Seq<u8>, ValueView)>, rest: Seq<u8>)
    requires
        forall|i: int|
            0 <= i < d.len() ==> (#[trigger] d[i]).0.len() <= usize::MAX && d[i].1.wf(),
    ensures
        decode_entries(entries_bytes(encode_entries(d)) + seq![END] + rest) == Ok::<
            (Seq<(Seq<u8>, ValueView)>, int),
            ErrorKind,
        >((d, entries_bytes(encode_entries(d)).len() as int + 1)),
    decreases d,
{
    let entries = encode_entries(d);
    let s = entries_bytes(entries) + seq![END] + rest;
    if d.len() == 0 {
        assert(entries =~= Seq::<(Seq<u8>, Seq<u8>)>::empty());
        assert(s =~= seq![END] + rest);
        lemma_decode_entries_end(rest);
        assert(d =~= Seq::<(Seq<u8>, ValueView)>::empty());
    } else {
        let key = d.first().0;
        let x = d.first().1;
        let t = d.drop_first();
        let behind = entries_bytes(encode_entries(t)) + seq![END] + rest;
        let n = bytes_token(key).len() as int;
        let m = encode(x).len() as int;
        assert(s == bytes_token(key) + (encode(x) + behind)) by {
            lemma_encode_entries(d);
            lemma_encode_entries(t);
            assert(entries.drop_first() =~= encode_entries(t));
            assert(entries.first() == (key, encode(x)));
            lemma_entries_bytes_front(entries);
            assert(s =~= bytes_token(key) + (encode(x) + behind));
        }
        assert(d[0].0.len() <= usize::MAX && d[0].1.wf());
        assert(lex(s) == Ok::<(Token, int), ErrorKind>((Token::Bytes(key), n))) by {
            lemma_lex_bytes_token(key, encode(x) + behind);
        }
        assert(s.skip(n) == encode(x) + behind) by {
            assert(s.skip(n) =~= encode(x) + behind);
        }
        lemma_decode_encode(x, behind);
        lemma_encode_nonempty(x);
        assert(s.skip(n + m) == behind) by {
            assert(s.skip(n + m) =~= behind);
        }
        assert forall|i: int| 0 <= i < t.len() implies (#[trigger] t[i]).0.len() <= usize::MAX
            && t[i].1.wf() by {
            assert(t[i] == d[i + 1]);
        }
        lemma_decode_entries_encoded(t, rest);
        assert(entries_bytes(entries).len() == n + m + entries_bytes(encode_entries(t)).len());
        lemma_decode_entries_step(
            s,
            key,
            n,
            x,
            m,
            t,
            entries_bytes(encode_entries(t)).len() as int + 1,
        );
        assert(seq![(key, x)] + t =~= d);
    }
}

/// **What is read is well formed.** A value that decoding gives is well
/// formed, whatever the bytes were, and took at least one byte.
pub proof fn lemma_decode_wf(s: Seq<u8>)
    ensures
        match decode(s) {
            Ok((v, n)) => v.wf() && 0 < n <= s.len(),
            Err(_) => true,
        },
    decreases s.len(), 0nat,
{
    lemma_lex_advances(s);
    match lex(s) {
        Ok((Token::Bytes(b), n)) => {
            lemma_find_byte(s, 1, COLON);
        },
        Ok((Token::List, _)) => {
            lemma_decode_list_wf(s.skip(1));
        },
        Ok((Token::Dict, _)) => {
            lemma_decode_entries_wf(s.skip(1));
            match decode_entries(s.skip(1)) {
                Ok((entries, n)) => {
                    lemma_dict_of(entries);
                    let d = dict_of(entries);
                    assert forall|i: int| 0 <= i < d.len() implies (#[trigger] d[i]).0.len()
                        <= usize::MAX && d[i].1.wf() by {
                        assert(entries.contains(d[i]));
                        let j = choose|j: int| 0 <= j < entries.len() && entries[j] == d[i];
                        assert(entries[j].1.wf());
                    }
                },
                Err(_) => {},
            }
        },
        _ => {},
    }
}

/// The items that decoding a list gives are well formed.
pub proof fn lemma_decode_list_wf(s: Seq<u8>)
    ensures
        match decode_list(s) {
            Ok((items, n)) => 0 < n <= s.len() && forall|i: int|
                0 <= i < items.len() ==> (#[trigger] items[i]).wf(),
            Err(_) => true,
        },
    decreases s.len(), 1nat,
{
    lemma_lex_advances(s);
    match lex(s) {
        Ok((Token::End, _)) => {},
        Ok(_) => {
            lemma_decode_wf(s);
            match decode(s) {
                Ok((v, n)) => {
                    lemma_decode_list_wf(s.skip(n));
                    match decode_list(s.skip(n)) {
                        Ok((tail, m)) => {
                            let items = seq![v] + tail;
                            assert forall|i: int| 0 <= i < items.len() implies (
                            #[trigger] items[i]).wf() by {
                                if i > 0 {
                                    assert(items[i] == tail[i - 1]);
                                }
                            }
                        },
                        Err(_) => {},
                    }
                },
                Err(_) => {},
            }
        },
        Err(_) => {},
    }
}

/// The entries that decoding a dictionary gives have well-formed values.
pub proof fn lemma_decode_entries_wf(s: Seq<u8>)
    ensures
        match decode_entries(s) {
            Ok((entries, n)) => 0 < n <= s.len() && forall|i: int|
                0 <= i < entries.len() ==> (#[trigger] entries[i]).0.len() <= usize::MAX
                    && entries[i].1.wf(),
            Err(_) => true,
        },
    decreases s.len(), 1nat,
{
    lemma_lex_advances(s);
    match lex(s) {
        Ok((Token::Bytes(key), n)) => {
            lemma_find_byte(s, 1, COLON);
            lemma_decode_wf(s.skip(n));
            match decode(s.skip(n)) {
                Ok((v, m)) => {
                    lemma_decode_entries_wf(s.skip(n + m));
                    match decode_entries(s.skip(n + m)) {
                        Ok((tail, c)) => {
                            let entries = seq![(key, v)] + tail;
                            assert forall|i: int| 0 <= i < entries.len() implies (
                            #[trigger] entries[i]).0.len() <= usize::MAX && entries[i].1.wf() by {
                                if i > 0 {
                                    assert(entries[i] == tail[i - 1]);
                                }
                            }
                        },
                        Err(_) => {},
                    }
                },
                Err(_) => {},
            }
        },
        _ => {},
    }
}

/// **Strings come back.** The bytes that a string is written as are read back
/// as a byte string that is UTF-8 and spells the string.
pub proof fn lemma_string_round_trip(text: Seq<char>, rest: Seq<u8>)
    requires
        vstd::utf8::encode_utf8(text).len() <= usize::MAX,
    ensures
        lex(bytes_token(vstd::utf8::encode_utf8(text)) + rest) == Ok::<(Token, int), ErrorKind>(
            (
                Token::Bytes(vstd::utf8::encode_utf8(text)),
                bytes_token(vstd::utf8::encode_utf8(text)).len() as int,
            ),
        ),
        vstd::utf8::valid_utf8(vstd::utf8::encode_utf8(text)),
        vstd::utf8::decode_utf8(vstd::utf8::encode_utf8(text)) == text,
{
    lemma_lex_bytes_token(vstd::utf8::encode_utf8(text), rest);
    vstd::utf8::encode_utf8_valid_utf8(text);
    vstd::utf8::encode_utf8_decode_utf8(text);
}

/// **Integers come back.** The bytes that an integer is written as are read
/// back as that integer.
pub proof fn lemma_int_round_trip(v: i64, rest: Seq<u8>)
    ensures
        decode(encode(ValueView::Int(v)) + rest) == Ok::<(ValueView, int), ErrorKind>(
            (ValueView::Int(v), encode(ValueView::Int(v)).len() as int),
        ),
{
    lemma_lex_int_token(v, rest);
}

/// **Variants come back.** The bytes of a variant with one value are those
/// of a dictionary with one entry, the value under the variant's name, and
/// decode to it.
pub proof fn lemma_variant_round_trip(name: Seq<u8>, v: ValueView, rest: Seq<u8>)
    requires
        v.wf(),
        name.len() <= usize::MAX,
    ensures
        crate::ser::variant_bytes(name, encode(v)) == encode(ValueView::Dict(seq![(name, v)])),
        decode(crate::ser::variant_bytes(name, encode(v)) + rest) == Ok::<
            (ValueView, int),
            ErrorKind,
        >(
            (
                ValueView::Dict(seq![(name, v)]),
                crate::ser::variant_bytes(name, encode(v)).len() as int,
            ),
        ),
{
    let d = seq![(name, v)];
    lemma_encode_dict(d);
    lemma_encode_entries(d);
    let entries = encode_entries(d);
    assert(entries.len() == 1 && entries[0] == (name, encode(v)));
    assert(entries.drop_last() =~= Seq::<(Seq<u8>, Seq<u8>)>::empty());
    assert(entries_bytes(entries.drop_last()) =~= Seq::<u8>::empty());
    assert(entries.last() == (name, encode(v)));
    assert(entries_bytes(entries) =~= bytes_token(name) + encode(v));
    assert(crate::ser::variant_bytes(name, encode(v)) =~= encode(ValueView::Dict(d)));
    assert(keys_increasing(d));
    assert(ValueView::Dict(d).wf());
    lemma_decode_encode(ValueView::Dict(d), rest);
}

} // verus!
