//! Bencode values without a schema: byte strings, integers, lists and
//! dictionaries, with their bytes on the wire and the way back.

use crate::de::{not_bytes_text, BencodeAccess, Deserializer, ParseResult};
use crate::error::{Error, ErrorKind};
use crate::order::{bytes_eq, bytes_le, lex_le};
use crate::ser::{dict_bytes, string, Serializer};
use crate::sorted::{
    assoc_insert, dedup_pairs, dict_of, keyed, keys_increasing, lemma_assoc_insert_at,
    lemma_dict_of, lemma_dict_of_map_payload, map_payload, sort_pairs,
};
use crate::wire::{
    bytes_token, int_token, lemma_lex_advances, lex, lex_error_text, Token, END, LIST_START,
};
use vstd::prelude::*;
use vstd::std_specs::cmp::PartialEqSpecImpl;
use vstd::std_specs::convert::FromSpecImpl;
use vstd::string::*;

verus! {

/// A value, by what it holds.
pub ghost enum ValueView {
    /// A run of bytes.
    Bytes(Seq<u8>),
    /// An integer.
    Int(i64),
    /// The items of a list, in their order.
    List(Seq<ValueView>),
    /// The entries of a dictionary, in the order of their keys.
    Dict(Seq<(Seq<u8>, ValueView)>),
}

/// A dictionary: values by their keys, no key twice. Its view is the list of
/// its entries in rising key order. The entries are kept in that order, so
/// that two dictionaries with the same entries are the same entry for entry,
/// in whatever order the entries came, and are written as they stand.
#[derive(Debug)]
pub struct Dict {
    entries: Vec<(Vec<u8>, Value)>,
}

/// All possible values which may be written in bencode.
#[derive(Debug)]
pub enum Value {
    /// A run of bytes.
    Bytes(Vec<u8>),
    /// An integer.
    Int(i64),
    /// A list of other values.
    List(Vec<Value>),
    /// A dictionary of (key, value) pairs.
    Dict(Dict),
}

impl View for Dict {
    type V = Seq<(Seq<u8>, ValueView)>;

    closed spec fn view(&self) -> Seq<(Seq<u8>, ValueView)>
        decreases self,
    {
        entries_of(self.entries@)
    }
}

impl View for Value {
    type V = ValueView;

    open spec fn view(&self) -> ValueView
        decreases self,
    {
        match self {
            Value::Bytes(b) => ValueView::Bytes(b@),
            Value::Int(i) => ValueView::Int(*i),
            Value::List(l) => ValueView::List(list_view(l@)),
            Value::Dict(d) => ValueView::Dict(d@),
        }
    }
}

/// The values of a list, each by what it holds.
pub open spec fn list_view(l: Seq<Value>) -> Seq<ValueView>
    decreases l,
{
    if l.len() == 0 {
        Seq::empty()
    } else {
        list_view(l.drop_last()).push(l.last()@)
    }
}

/// The entries of a vector, each key by its bytes and each value by what it holds.
pub open spec fn entries_of(entries: Seq<(Vec<u8>, Value)>) -> Seq<(Seq<u8>, ValueView)>
    decreases entries,
{
    if entries.len() == 0 {
        Seq::empty()
    } else {
        entries_of(entries.drop_last()).push((entries.last().0@, entries.last().1@))
    }
}

/// The view of a list has an item for each item of the list.
pub proof fn lemma_list_view(l: Seq<Value>)
    ensures
        list_view(l).len() == l.len(),
        forall|i: int| 0 <= i < l.len() ==> (#[trigger] list_view(l)[i]) == l[i]@,
    decreases l.len(),
{
    if l.len() > 0 {
        lemma_list_view(l.drop_last());
        assert(list_view(l) == list_view(l.drop_last()).push(l.last()@));
    } else {
        assert(list_view(l) == Seq::<ValueView>::empty());
    }
}

/// One more entry in a vector is one more entry in its view.
pub proof fn lemma_entries_of_push(entries: Seq<(Vec<u8>, Value)>, e: (Vec<u8>, Value))
    ensures
        entries_of(entries.push(e)) == entries_of(entries).push((e.0@, e.1@)),
{
    assert(entries.push(e).drop_last() =~= entries);
}

/// The view of a vector of entries has an entry for each entry of the vector.
pub proof fn lemma_entries_of(entries: Seq<(Vec<u8>, Value)>)
    ensures
        entries_of(entries).len() == entries.len(),
        forall|i: int|
            0 <= i < entries.len() ==> (#[trigger] entries_of(entries)[i]) == (
                entries[i].0@,
                entries[i].1@,
            ),
    decreases entries.len(),
{
    if entries.len() > 0 {
        lemma_entries_of(entries.drop_last());
        assert(entries_of(entries) == entries_of(entries.drop_last()).push(
            (entries.last().0@, entries.last().1@),
        ));
    } else {
        assert(entries_of(entries) == Seq::<(Seq<u8>, ValueView)>::empty());
    }
}

impl ValueView {
    /// Whether the value can stand in memory as it is: no byte string longer
    /// than the machine can hold, and in every dictionary the keys in rising
    /// order, so that none occurs twice.
    pub open spec fn wf(self) -> bool
        decreases self,
    {
        match self {
            ValueView::Bytes(b) => b.len() <= usize::MAX,
            ValueView::Int(_) => true,
            ValueView::List(l) => forall|i: int| 0 <= i < l.len() ==> (#[trigger] l[i]).wf(),
            ValueView::Dict(d) => keys_increasing(d) && forall|i: int|
                0 <= i < d.len() ==> (#[trigger] d[i]).0.len() <= usize::MAX && d[i].1.wf(),
        }
    }
}

/// The bytes of a value on the wire.
pub open spec fn encode(v: ValueView) -> Seq<u8>
    decreases v,
{
    match v {
        ValueView::Bytes(b) => bytes_token(b),
        ValueView::Int(i) => int_token(i),
        ValueView::List(l) => seq![LIST_START] + encode_list(l) + seq![END],
        ValueView::Dict(d) => dict_bytes(encode_entries(d)),
    }
}

/// The bytes of the items of a list, one after the other.
pub open spec fn encode_list(l: Seq<ValueView>) -> Seq<u8>
    decreases l,
{
    if l.len() == 0 {
        Seq::empty()
    } else {
        encode_list(l.drop_last()) + encode(l.last())
    }
}

/// The entries of a dictionary, each value by its bytes.
pub open spec fn encode_entries(d: Seq<(Seq<u8>, ValueView)>) -> Seq<(Seq<u8>, Seq<u8>)>
    decreases d,
{
    if d.len() == 0 {
        Seq::empty()
    } else {
        encode_entries(d.drop_last()).push((d.last().0, encode(d.last().1)))
    }
}

/// `head`, read in `used` bytes, in front of what was read behind it.
pub open spec fn join<T>(head: Seq<T>, used: int, rest: Result<(Seq<T>, int), ErrorKind>) -> Result<
    (Seq<T>, int),
    ErrorKind,
> {
    match rest {
        Ok((tail, n)) => Ok((head + tail, used + n)),
        Err(k) => Err(k),
    }
}

/// The value that `s` starts with and the number of bytes it takes, or the
/// error that reading it ends in. What follows the value is not looked at.
pub open spec fn decode(s: Seq<u8>) -> Result<(ValueView, int), ErrorKind>
    decreases s.len(), 0nat,
{
    match lex(s) {
        Err(k) => Err(k),
        Ok((Token::Int(i), n)) => Ok((ValueView::Int(i), n)),
        Ok((Token::Bytes(b), n)) => Ok((ValueView::Bytes(b), n)),
        Ok((Token::List, _)) => match decode_list(s.skip(1)) {
            Ok((items, n)) => Ok((ValueView::List(items), 1 + n)),
            Err(k) => Err(k),
        },
        Ok((Token::Dict, _)) => match decode_entries(s.skip(1)) {
            Ok((entries, n)) => Ok((ValueView::Dict(dict_of(entries)), 1 + n)),
            Err(k) => Err(k),
        },
        Ok((Token::End, _)) => Err(ErrorKind::EndOfStream),
    }
}

/// The items of a list up to its `e`, and the number of bytes up to and with
/// that `e`.
pub open spec fn decode_list(s: Seq<u8>) -> Result<(Seq<ValueView>, int), ErrorKind>
    decreases s.len(), 1nat,
{
    match lex(s) {
        Err(k) => Err(k),
        Ok((Token::End, n)) => Ok((Seq::empty(), n)),
        Ok(_) => match decode(s) {
            Err(k) => Err(k),
            Ok((v, n)) => if 0 < n <= s.len() {
                join(seq![v], n, decode_list(s.skip(n)))
            } else {
                Err(ErrorKind::EndOfStream)
            },
        },
    }
}

/// The entries of a dictionary up to its `e`, in the order they stand in the
/// input, and the number of bytes up to and with that `e`. A key has to be a
/// byte string.
pub open spec fn decode_entries(s: Seq<u8>) -> Result<(Seq<(Seq<u8>, ValueView)>, int), ErrorKind>
    decreases s.len(), 1nat,
{
    match lex(s) {
        Err(k) => Err(k),
        Ok((Token::End, n)) => Ok((Seq::empty(), n)),
        Ok((Token::Bytes(key), n)) => {
            proof {
                lemma_lex_advances(s);
            }
            match decode(s.skip(n)) {
                Err(k) => Err(k),
                Ok((v, m)) => if 0 < m <= s.len() - n {
                    join(seq![(key, v)], n + m, decode_entries(s.skip(n + m)))
                } else {
                    Err(ErrorKind::EndOfStream)
                },
            }
        },
        Ok(_) => Err(ErrorKind::InvalidType),
    }
}

/// The message of the error that reading a value from `s` ends in, where it
/// ends in one: that of the first token that cannot be read, or that does not
/// fit.
pub open spec fn decode_error_text(s: Seq<u8>) -> Seq<char>
    decreases s.len(), 0nat,
{
    match lex(s) {
        Err(_) => lex_error_text(s),
        Ok((Token::List, _)) => decode_list_error_text(s.skip(1)),
        Ok((Token::Dict, _)) => decode_entries_error_text(s.skip(1)),
        Ok(_) => "End of stream"@,
    }
}

/// The message of the error that reading the items of a list ends in.
pub open spec fn decode_list_error_text(s: Seq<u8>) -> Seq<char>
    decreases s.len(), 1nat,
{
    match lex(s) {
        Err(_) => lex_error_text(s),
        Ok((Token::End, _)) => Seq::empty(),
        Ok(_) => match decode(s) {
            Err(_) => decode_error_text(s),
            Ok((_, n)) => if 0 < n <= s.len() {
                decode_list_error_text(s.skip(n))
            } else {
                "End of stream"@
            },
        },
    }
}

/// The message of the error that reading the entries of a dictionary ends in.
pub open spec fn decode_entries_error_text(s: Seq<u8>) -> Seq<char>
    decreases s.len(), 1nat,
{
    match lex(s) {
        Err(_) => lex_error_text(s),
        Ok((Token::End, _)) => Seq::empty(),
        Ok((Token::Bytes(_), n)) => {
            proof {
                lemma_lex_advances(s);
            }
            match decode(s.skip(n)) {
                Err(_) => decode_error_text(s.skip(n)),
                Ok((_, m)) => if 0 < m <= s.len() - n {
                    decode_entries_error_text(s.skip(n + m))
                } else {
                    "End of stream"@
                },
            }
        },
        Ok((t, _)) => not_bytes_text(t),
    }
}

/// Putting one more item behind a list that was read is reading the list with
/// that item in it.
pub proof fn lemma_join_push<T>(
    head: Seq<T>,
    used: int,
    item: T,
    n: int,
    rest: Result<(Seq<T>, int), ErrorKind>,
)
    ensures
        join(head, used, join(seq![item], n, rest)) == join(head.push(item), used + n, rest),
{
    match rest {
        Ok((tail, m)) => {
            assert(head + (seq![item] + tail) =~= head.push(item) + tail);
        },
        Err(_) => {},
    }
}

/// Skipping twice is skipping once by the sum.
pub proof fn lemma_skip_skip(s: Seq<u8>, a: int, b: int)
    requires
        0 <= a,
        0 <= b,
        a + b <= s.len(),
    ensures
        s.skip(a).skip(b) == s.skip(a + b),
{
    assert(s.skip(a).skip(b) =~= s.skip(a + b));
}

/// In front of an item, a list is that item and the rest of the list.
pub proof fn lemma_decode_list_item(s: Seq<u8>, v: ValueView, n: int)
    requires
        lex(s) is Ok,
        !(lex(s)->Ok_0.0 is End),
        decode(s) == Ok::<(ValueView, int), ErrorKind>((v, n)),
        0 < n <= s.len(),
    ensures
        decode_list(s) == join(seq![v], n, decode_list(s.skip(n))),
        decode_list_error_text(s) == decode_list_error_text(s.skip(n)),
{
}

/// In front of a key, the entries of a dictionary are that key with its
/// value and the rest of the entries.
pub proof fn lemma_decode_entries_entry(s: Seq<u8>, key: Seq<u8>, n: int, v: ValueView, m: int)
    requires
        lex(s) == Ok::<(Token, int), ErrorKind>((Token::Bytes(key), n)),
        decode(s.skip(n)) == Ok::<(ValueView, int), ErrorKind>((v, m)),
        0 < m <= s.len() - n,
    ensures
        decode_entries(s) == join(seq![(key, v)], n + m, decode_entries(s.skip(n + m))),
        decode_entries_error_text(s) == decode_entries_error_text(s.skip(n + m)),
{
}

/// Putting a well-formed value into a well-formed dictionary leaves it well formed.
pub proof fn lemma_insert_wf(d: Seq<(Seq<u8>, ValueView)>, k: Seq<u8>, v: ValueView)
    requires
        ValueView::Dict(d).wf(),
        v.wf(),
        k.len() <= usize::MAX,
    ensures
        ValueView::Dict(assoc_insert(d, k, v)).wf(),
{
    crate::sorted::lemma_assoc_insert(d, k, v);
    let after = assoc_insert(d, k, v);
    assert forall|i: int| 0 <= i < after.len() implies (#[trigger] after[i]).0.len() <= usize::MAX
        && after[i].1.wf() by {
        if after[i] != (k, v) {
            assert(d.contains(after[i]));
            let j = choose|j: int| 0 <= j < d.len() && d[j] == after[i];
            assert(d[j].0.len() <= usize::MAX && d[j].1.wf());
        }
    }
}

/// No value has an empty encoding.
pub proof fn lemma_encode_nonempty(v: ValueView)
    ensures
        encode(v).len() > 0,
{
    match v {
        ValueView::Bytes(b) => {
            crate::decimal::lemma_nat_text(b.len());
        },
        _ => {},
    }
}

impl Dict {
    /// Whether the entries stand in rising key order and every value in them
    /// is well formed.
    pub open spec fn wf(&self) -> bool {
        ValueView::Dict(self@).wf()
    }

    /// A dictionary without entries.
    pub fn new() -> (d: Dict)
        ensures
            d@ == Seq::<(Seq<u8>, ValueView)>::empty(),
            d.wf(),
    {
        let d = Dict { entries: Vec::new() };
        proof {
            lemma_entries_of(d.entries@);
        }
        assert(d@ =~= Seq::<(Seq<u8>, ValueView)>::empty());
        d
    }

    /// The number of entries.
    pub fn len(&self) -> (n: usize)
        ensures
            n == self@.len(),
    {
        proof {
            lemma_entries_of(self.entries@);
        }
        self.entries.len()
    }

    /// Whether there is no entry.
    pub fn is_empty(&self) -> (b: bool)
        ensures
            b == (self@.len() == 0),
    {
        proof {
            lemma_entries_of(self.entries@);
        }
        self.entries.len() == 0
    }

    /// The key of the entry at `i`, counting in key order.
    pub fn key_at(&self, i: usize) -> (k: &Vec<u8>)
        requires
            i < self@.len(),
        ensures
            k@ == self@[i as int].0,
    {
        proof {
            lemma_entries_of(self.entries@);
        }
        &self.entries[i].0
    }

    /// The value of the entry at `i`, counting in key order.
    pub fn value_at(&self, i: usize) -> (v: &Value)
        requires
            i < self@.len(),
        ensures
            v@ == self@[i as int].1,
    {
        proof {
            lemma_entries_of(self.entries@);
        }
        &self.entries[i].1
    }

    /// The value that stands under `key`, if there is one.
    pub fn get(&self, key: &[u8]) -> (r: Option<&Value>)
        ensures
            match r {
                Some(v) => exists|i: int| 0 <= i < self@.len() && self@[i] == (key@, v@),
                None => forall|i: int| 0 <= i < self@.len() ==> self@[i].0 != key@,
            },
    {
        proof {
            lemma_entries_of(self.entries@);
        }
        let mut i: usize = 0;
        while i < self.entries.len()
            invariant
                i <= self.entries.len(),
                self@.len() == self.entries.len(),
                forall|j: int|
                    0 <= j < self.entries.len() ==> (#[trigger] self@[j]) == (
                        self.entries[j].0@,
                        self.entries[j].1@,
                    ),
                forall|j: int| 0 <= j < i ==> self@[j].0 != key@,
            decreases self.entries.len() - i,
        {
            if bytes_eq(self.entries[i].0.as_slice(), key) {
                assert(self@[i as int] == (key@, self.entries[i as int].1@));
                return Some(&self.entries[i].1);
            }
            i += 1;
        }
        None
    }

    /// Whether there is an entry under `key`.
    pub fn contains_key(&self, key: &[u8]) -> (b: bool)
        ensures
            b == exists|i: int| 0 <= i < self@.len() && self@[i].0 == key@,
    {
        self.get(key).is_some()
    }

    /// Puts `value` under `key`, in place of the value that stood there if
    /// there was one, which is handed back.
    pub fn insert(&mut self, key: Vec<u8>, value: Value) -> (r: Option<Value>)
        ensures
            final(self)@ == assoc_insert(old(self)@, key@, value@),
            old(self).wf() && value.wf() ==> final(self).wf(),
            match r {
                Some(v) => exists|i: int| 0 <= i < old(self)@.len() && old(self)@[i] == (key@, v@),
                None => final(self)@.len() == old(self)@.len() + 1,
            },
    {
        let ghost before = self@;
        proof {
            if self.wf() && value.wf() {
                assert(key@.len() == key.len());
                lemma_insert_wf(before, key@, value@);
            }
        }
        proof {
            lemma_entries_of(self.entries@);
        }
        let mut at: usize = self.entries.len();
        while at > 0 && !bytes_le(self.entries[at - 1].0.as_slice(), key.as_slice())
            invariant
                at <= self.entries.len(),
                before == self@,
                self.entries == old(self).entries,
                before.len() == self.entries.len(),
                forall|j: int|
                    0 <= j < self.entries.len() ==> (#[trigger] before[j]) == (
                        self.entries[j].0@,
                        self.entries[j].1@,
                    ),
                forall|i: int| at <= i < before.len() ==> !lex_le(#[trigger] before[i].0, key@),
            decreases at,
        {
            at -= 1;
        }
        proof {
            lemma_assoc_insert_at(before, key@, value@, at as int);
        }
        if at > 0 && bytes_eq(self.entries[at - 1].0.as_slice(), key.as_slice()) {
            let old_entry = self.entries.remove(at - 1);
            self.entries.insert(at - 1, (key, value));
            proof {
                lemma_entries_of(self.entries@);
            }
            assert(self@ =~= before.update(at - 1, (key@, value@)));
            assert(before[at - 1] == (key@, old_entry.1@));
            Some(old_entry.1)
        } else {
            self.entries.insert(at, (key, value));
            proof {
                lemma_entries_of(self.entries@);
            }
            assert(self@ =~= before.insert(at as int, (key@, value@)));
            None
        }
    }

    /// The dictionary that `entries` make: they are sorted by key, and of
    /// entries with the same key the one that comes last stays.
    pub fn from_entries(entries: Vec<(Vec<u8>, Value)>) -> (d: Dict)
        ensures
            d@ == dict_of(entries_of(entries@)),
            (forall|i: int| 0 <= i < entries@.len() ==> (#[trigger] entries@[i]).1.wf()) ==> d.wf(),
    {
        let ghost given = entries@;
        let sorted = sort_pairs(entries);
        let kept = dedup_pairs(sorted);
        let d = Dict { entries: kept };
        proof {
            let view = |v: Value| v@;
            lemma_entries_of(given);
            lemma_entries_of(kept@);
            assert(entries_of(given) =~= map_payload(keyed(given), view));
            assert(entries_of(kept@) =~= map_payload(keyed(kept@), view));
            lemma_dict_of_map_payload(keyed(given), view);
            if forall|i: int| 0 <= i < given.len() ==> (#[trigger] given[i]).1.wf() {
                lemma_dict_of(entries_of(given));
                let all = entries_of(given);
                assert forall|i: int| 0 <= i < d@.len() implies (#[trigger] d@[i]).0.len()
                    <= usize::MAX && d@[i].1.wf() by {
                    assert(all.contains(d@[i]));
                    let j = choose|j: int| 0 <= j < all.len() && all[j] == d@[i];
                    assert(given[j].1.wf());
                    assert(given[j].0@.len() == given[j].0.len());
                }
            }
        }
        d
    }
}

impl Value {
    /// Whether the value is well formed: in every dictionary in it the keys
    /// stand in rising order.
    pub open spec fn wf(&self) -> bool {
        self@.wf()
    }

    /// Writes the value to `s`: a byte string, an integer, a list of the
    /// items' bytes, or a dictionary of the entries sorted by key.
    #[verifier::loop_isolation(false)]
    pub fn serialize(&self, s: &mut Serializer) -> (r: Result<(), Error>)
        ensures
            r is Ok,
            final(s)@ == old(s)@ + encode(self@),
        decreases self,
    {
        match self {
            Value::Bytes(v) => s.serialize_bytes(v.as_slice()),
            Value::Int(v) => s.serialize_i64(*v),
            Value::List(v) => {
                let _ = s.serialize_seq(Some(v.len()));
                let ghost items = list_view(v@);
                proof {
                    lemma_list_view(v@);
                }
                assert(items.take(0) =~= Seq::<ValueView>::empty());
                let mut i: usize = 0;
                while i < v.len()
                    invariant
                        i <= v.len(),
                        self == Value::List(*v),
                        items == list_view(v@),
                        items.len() == v.len(),
                        forall|j: int| 0 <= j < v.len() ==> (#[trigger] items[j]) == v[j]@,
                        s@ == old(s)@ + seq![LIST_START] + encode_list(items.take(i as int)),
                    decreases v.len() - i,
                {
                    let _ = v[i].serialize(s);
                    proof {
                        let next = items.take(i + 1);
                        assert(next.drop_last() =~= items.take(i as int));
                        assert(next.last() == v[i as int]@);
                        assert(s@ =~= old(s)@ + seq![LIST_START] + encode_list(next));
                    }
                    i += 1;
                }
                assert(items.take(i as int) =~= items);
                let _ = s.end();
                assert(s@ =~= old(s)@ + encode(self@));
                Ok(())
            },
            Value::Dict(d) => {
                let mut map = match s.serialize_map(Some(d.entries.len())) {
                    Ok(map) => map,
                    Err(e) => {
                        return Err(e);
                    },
                };
                let ghost all = d@;
                proof {
                    lemma_entries_of(d.entries@);
                }
                let mut i: usize = 0;
                assert(all.take(0) =~= Seq::<(Seq<u8>, ValueView)>::empty());
                while i < d.entries.len()
                    invariant
                        i <= d.entries.len(),
                        self == Value::Dict(*d),
                        all == d@,
                        all.len() == d.entries.len(),
                        forall|j: int|
                            0 <= j < d.entries.len() ==> (#[trigger] all[j]) == (
                                d.entries[j].0@,
                                d.entries[j].1@,
                            ),
                        s@ == old(s)@,
                        map@.cur_key is None,
                        map@.entries == encode_entries(all.take(i as int)),
                    decreases d.entries.len() - i,
                {
                    let mut sub = Serializer::new();
                    let entry = &d.entries[i];
                    assert(decreases_to!(d.entries => d.entries[i as int]));
                    let _ = entry.1.serialize(&mut sub);
                    let key = string::Serializer.serialize_bytes(d.entries[i].0.as_slice());
                    proof {
                        let next = all.take(i + 1);
                        assert(next.drop_last() =~= all.take(i as int));
                        assert(next.last() == (d.entries[i as int].0@, d.entries[i as int].1@));
                        lemma_encode_nonempty(d.entries[i as int].1@);
                        assert(sub@ =~= encode(d.entries[i as int].1@));
                    }
                    let _ = map.serialize_entry(key, Ok(sub.into_vec()));
                    i += 1;
                }
                assert(all.take(i as int) =~= all);
                map.end(s)
            },
        }
    }

    /// Reads one value from `de`: an integer, a byte string, a list up to its
    /// end, or a dictionary up to its end. In a dictionary a key that comes
    /// again takes the place of the earlier one.
    pub fn deserialize(de: &mut Deserializer) -> (r: Result<Value, Error>)
        ensures
            match decode(old(de)@) {
                Ok((v, n)) => r matches Ok(value) && value@ == v && value.wf()
                    && 0 < n <= old(de)@.len() && final(de)@ == old(de)@.skip(n),
                Err(k) => r matches Err(e) && e.says(k, decode_error_text(old(de)@)),
            },
        decreases old(de)@.len(), 0nat,
    {
        proof {
            lemma_lex_advances(de@);
            crate::roundtrip::lemma_decode_wf(de@);
        }
        match de.deserialize_any()? {
            ParseResult::Int(i) => Ok(Value::Int(i)),
            ParseResult::Bytes(b) => Ok(Value::Bytes(b)),
            ParseResult::List => {
                let ghost start = de@;
                let items = Value::visit_seq(de)?;
                let value = Value::List(items);
                proof {
                    let n = decode_list(start)->Ok_0.1;
                    assert(old(de)@.skip(1).skip(n) =~= old(de)@.skip(1 + n));
                }
                Ok(value)
            },
            ParseResult::Dict => {
                let ghost start = de@;
                let dict = Value::visit_map(de)?;
                proof {
                    let n = decode_entries(start)->Ok_0.1;
                    assert(old(de)@.skip(1).skip(n) =~= old(de)@.skip(1 + n));
                }
                Ok(Value::Dict(dict))
            },
            ParseResult::End => Err(Error::EndOfStream),
        }
    }

    /// Reads the items of a list whose start has been read, up to its end.
    fn visit_seq(de: &mut Deserializer) -> (r: Result<Vec<Value>, Error>)
        ensures
            match decode_list(old(de)@) {
                Ok((items, n)) => r matches Ok(v) && list_view(v@) == items
                    && 0 < n <= old(de)@.len() && final(de)@ == old(de)@.skip(n),
                Err(k) => r matches Err(e) && e.says(k, decode_list_error_text(old(de)@)),
            },
        decreases old(de)@.len(), 1nat,
    {
        let ghost start = de@;
        let ghost mut used: int = 0;
        let mut access = BencodeAccess::new(None);
        let mut seq: Vec<Value> = Vec::new();
        assert(start.skip(0) =~= start);
        proof {
            lemma_list_view(seq@);
        }
        assert(list_view(seq@) =~= Seq::<ValueView>::empty());
        assert(Seq::<ValueView>::empty() + decode_list(start)->Ok_0.0 =~= decode_list(
            start,
        )->Ok_0.0);
        loop
            invariant
                start == old(de)@,
                0 <= used <= start.len(),
                de@ == start.skip(used),
                access.remaining() is None,
                decode_list(start) == join(list_view(seq@), used, decode_list(de@)),
                decode_list_error_text(start) == decode_list_error_text(de@),
            decreases de@.len(),
        {
            let ghost cur = de@;
            proof {
                lemma_lex_advances(cur);
            }
            let more = access.next_element_seed(de)?;
            if !more {
                let _ = access.end_element(de);
                proof {
                    assert(list_view(seq@) + Seq::<ValueView>::empty() =~= list_view(seq@));
                    assert(start.skip(used).skip(1) =~= start.skip(used + 1));
                }
                return Ok(seq);
            }
            let e = Value::deserialize(de)?;
            let _ = access.end_element(de);
            proof {
                let n = decode(cur)->Ok_0.1;
                lemma_decode_list_item(cur, e@, n);
                lemma_join_push(list_view(seq@), used, e@, n, decode_list(cur.skip(n)));
                assert(seq@.push(e).drop_last() =~= seq@);
                assert(list_view(seq@.push(e)) == list_view(seq@).push(e@));
                lemma_skip_skip(start, used, n);
                used = used + n;
            }
            seq.push(e);
        }
    }

    /// Reads the entries of a dictionary whose start has been read, up to its
    /// end.
    fn visit_map(de: &mut Deserializer) -> (r: Result<Dict, Error>)
        ensures
            match decode_entries(old(de)@) {
                Ok((entries, n)) => r matches Ok(d) && d@ == dict_of(entries)
                    && 0 < n <= old(de)@.len() && final(de)@ == old(de)@.skip(n),
                Err(k) => r matches Err(e) && e.says(k, decode_entries_error_text(old(de)@)),
            },
        decreases old(de)@.len(), 1nat,
    {
        let ghost start = de@;
        let ghost mut used: int = 0;
        let ghost mut seen: Seq<(Seq<u8>, ValueView)> = Seq::empty();
        let mut access = BencodeAccess::new(None);
        let mut entries: Vec<(Vec<u8>, Value)> = Vec::new();
        assert(start.skip(0) =~= start);
        assert(seen + decode_entries(start)->Ok_0.0 =~= decode_entries(start)->Ok_0.0);
        loop
            invariant
                start == old(de)@,
                0 <= used <= start.len(),
                de@ == start.skip(used),
                seen == entries_of(entries@),
                decode_entries(start) == join(seen, used, decode_entries(de@)),
                decode_entries_error_text(start) == decode_entries_error_text(de@),
            decreases de@.len(),
        {
            let ghost cur = de@;
            proof {
                lemma_lex_advances(cur);
            }
            let more = access.next_key_seed(de)?;
            if !more {
                proof {
                    assert(seen + Seq::<(Seq<u8>, ValueView)>::empty() =~= seen);
                    lemma_skip_skip(start, used, 1);
                }
                return Ok(Dict::from_entries(entries));
            }
            let key = de.parse_only_bytes()?;
            let ghost n = lex(cur)->Ok_0.1;
            let ghost mid = de@;
            let value = Value::deserialize(de)?;
            proof {
                let m = decode(mid)->Ok_0.1;
                lemma_decode_entries_entry(cur, key@, n, value@, m);
                lemma_join_push(seen, used, (key@, value@), n + m, decode_entries(cur.skip(n + m)));
                lemma_skip_skip(cur, n, m);
                lemma_skip_skip(start, used, n + m);
                lemma_entries_of_push(entries@, (key, value));
                used = used + n + m;
                seen = seen.push((key@, value@));
            }
            entries.push((key, value));
        }
    }
}

impl From<i64> for Value {
    fn from(v: i64) -> (r: Value)
        ensures
            r@ == ValueView::Int(v),
    {
        Value::Int(v)
    }
}

impl FromSpecImpl<i64> for Value {
    open spec fn obeys_from_spec() -> bool {
        true
    }

    open spec fn from_spec(v: i64) -> Value {
        Value::Int(v)
    }
}

impl From<String> for Value {
    fn from(s: String) -> (r: Value)
        ensures
            r@ == ValueView::Bytes(vstd::utf8::encode_utf8(s@)),
    {
        Value::Bytes(vstd::slice::slice_to_vec(s.as_str().as_bytes()))
    }
}

impl FromSpecImpl<String> for Value {
    open spec fn obeys_from_spec() -> bool {
        false
    }

    open spec fn from_spec(s: String) -> Value {
        Value::Int(0)
    }
}

impl<'a> From<&'a str> for Value {
    fn from(v: &'a str) -> (r: Value)
        ensures
            r@ == ValueView::Bytes(v.spec_bytes()),
    {
        Value::Bytes(vstd::slice::slice_to_vec(v.as_bytes()))
    }
}

impl<'a> FromSpecImpl<&'a str> for Value {
    open spec fn obeys_from_spec() -> bool {
        false
    }

    open spec fn from_spec(v: &'a str) -> Value {
        Value::Int(0)
    }
}

impl From<Vec<u8>> for Value {
    fn from(v: Vec<u8>) -> (r: Value)
        ensures
            r@ == ValueView::Bytes(v@),
    {
        Value::Bytes(v)
    }
}

impl FromSpecImpl<Vec<u8>> for Value {
    open spec fn obeys_from_spec() -> bool {
        true
    }

    open spec fn from_spec(v: Vec<u8>) -> Value {
        Value::Bytes(v)
    }
}

impl From<Vec<Value>> for Value {
    fn from(v: Vec<Value>) -> (r: Value)
        ensures
            r@ == ValueView::List(list_view(v@)),
    {
        Value::List(v)
    }
}

impl FromSpecImpl<Vec<Value>> for Value {
    open spec fn obeys_from_spec() -> bool {
        true
    }

    open spec fn from_spec(v: Vec<Value>) -> Value {
        Value::List(v)
    }
}

impl From<Dict> for Value {
    fn from(v: Dict) -> (r: Value)
        ensures
            r@ == ValueView::Dict(v@),
    {
        Value::Dict(v)
    }
}

impl FromSpecImpl<Dict> for Value {
    open spec fn obeys_from_spec() -> bool {
        true
    }

    open spec fn from_spec(v: Dict) -> Value {
        Value::Dict(v)
    }
}

impl From<Vec<(Vec<u8>, Value)>> for Dict {
    fn from(entries: Vec<(Vec<u8>, Value)>) -> (d: Dict)
        ensures
            d@ == dict_of(entries_of(entries@)),
    {
        Dict::from_entries(entries)
    }
}

impl FromSpecImpl<Vec<(Vec<u8>, Value)>> for Dict {
    open spec fn obeys_from_spec() -> bool {
        false
    }

    open spec fn from_spec(entries: Vec<(Vec<u8>, Value)>) -> Dict {
        arbitrary()
    }
}

impl Clone for Dict {
    #[verifier::loop_isolation(false)]
    fn clone(&self) -> (r: Dict)
        ensures
            r@ == self@,
        decreases self,
    {
        let mut entries: Vec<(Vec<u8>, Value)> = Vec::new();
        let mut i: usize = 0;
        proof {
            lemma_entries_of(self.entries@);
            lemma_entries_of(entries@);
        }
        while i < self.entries.len()
            invariant
                i <= self.entries.len(),
                entries_of(entries@) =~= self@.take(i as int),
            decreases self.entries.len() - i,
        {
            let ghost before = entries@;
            let entry = &self.entries[i];
            assert(decreases_to!(self.entries => self.entries[i as int]));
            let key = vstd::slice::slice_to_vec(entry.0.as_slice());
            let value = entry.1.clone();
            entries.push((key, value));
            proof {
                lemma_entries_of(entries@);
                lemma_entries_of(before);
            }
            i += 1;
        }
        assert(self@.take(i as int) =~= self@);
        Dict { entries }
    }
}

impl Clone for Value {
    #[verifier::loop_isolation(false)]
    fn clone(&self) -> (r: Value)
        ensures
            r@ == self@,
        decreases self,
    {
        match self {
            Value::Bytes(b) => Value::Bytes(vstd::slice::slice_to_vec(b.as_slice())),
            Value::Int(i) => Value::Int(*i),
            Value::List(l) => {
                let mut items: Vec<Value> = Vec::new();
                let mut i: usize = 0;
                proof {
                    lemma_list_view(l@);
                    lemma_list_view(items@);
                }
                while i < l.len()
                    invariant
                        i <= l.len(),
                        list_view(items@) =~= list_view(l@).take(i as int),
                    decreases l.len() - i,
                {
                    let ghost before = items@;
                    let item = l[i].clone();
                    items.push(item);
                    proof {
                        lemma_list_view(items@);
                        lemma_list_view(before);
                    }
                    i += 1;
                }
                assert(list_view(l@).take(i as int) =~= list_view(l@));
                Value::List(items)
            },
            Value::Dict(d) => Value::Dict(d.clone()),
        }
    }
}

impl PartialEq for Dict {
    #[verifier::loop_isolation(false)]
    fn eq(&self, other: &Dict) -> (r: bool)
        decreases self,
    {
        proof {
            lemma_entries_of(self.entries@);
            lemma_entries_of(other.entries@);
        }
        if self.entries.len() != other.entries.len() {
            return false;
        }
        let mut i: usize = 0;
        while i < self.entries.len()
            invariant
                i <= self.entries.len(),
                self.entries.len() == other.entries.len(),
                forall|j: int| 0 <= j < i ==> self@[j] == other@[j],
            decreases self.entries.len() - i,
        {
            let mine = &self.entries[i];
            let theirs = &other.entries[i];
            assert(decreases_to!(self.entries => self.entries[i as int]));
            if !bytes_eq(mine.0.as_slice(), theirs.0.as_slice()) {
                assert(self@[i as int] != other@[i as int]);
                return false;
            }
            if !mine.1.eq(&theirs.1) {
                assert(self@[i as int] != other@[i as int]);
                return false;
            }
            i += 1;
        }
        assert(self@ =~= other@);
        true
    }
}

impl PartialEqSpecImpl for Dict {
    open spec fn obeys_eq_spec() -> bool {
        true
    }

    open spec fn eq_spec(&self, other: &Dict) -> bool {
        self@ == other@
    }
}

impl Eq for Dict {}

impl PartialEq for Value {
    #[verifier::loop_isolation(false)]
    fn eq(&self, other: &Value) -> (r: bool)
        decreases self,
    {
        match (self, other) {
            (Value::Bytes(a), Value::Bytes(b)) => bytes_eq(a.as_slice(), b.as_slice()),
            (Value::Int(a), Value::Int(b)) => *a == *b,
            (Value::List(a), Value::List(b)) => {
                proof {
                    lemma_list_view(a@);
                    lemma_list_view(b@);
                }
                if a.len() != b.len() {
                    return false;
                }
                let mut i: usize = 0;
                while i < a.len()
                    invariant
                        i <= a.len(),
                        a.len() == b.len(),
                        forall|j: int| 0 <= j < i ==> a[j]@ == b[j]@,
                    decreases a.len() - i,
                {
                    if !a[i].eq(&b[i]) {
                        assert(list_view(a@)[i as int] != list_view(b@)[i as int]);
                        return false;
                    }
                    i += 1;
                }
                assert(list_view(a@) =~= list_view(b@));
                true
            },
            (Value::Dict(a), Value::Dict(b)) => a.eq(b),
            _ => false,
        }
    }
}

impl PartialEqSpecImpl for Value {
    open spec fn obeys_eq_spec() -> bool {
        true
    }

    open spec fn eq_spec(&self, other: &Value) -> bool {
        self@ == other@
    }
}

impl Eq for Value {}

} // verus!
