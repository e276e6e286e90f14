use serde_bencode::de::{from_bytes, from_str, BencodeAccess, Deserializer, ParseResult};
use serde_bencode::decimal::{parse_i64, parse_usize, push_decimal, push_decimal_i64};
use serde_bencode::error::{Error, ErrorKind, Unexpected};
use serde_bencode::order::{bytes_eq, bytes_le};
use serde_bencode::ser::string::Serializer as KeySerializer;
use serde_bencode::ser::{char_bytes, to_bytes, to_string, SerializeMap, Serializer};
use serde_bencode::sorted::{dedup_pairs, sort_by_key, sort_pairs};
use serde_bencode::value::{Dict, Value};

fn sample() -> Value {
    let mut inner = Dict::new();
    inner.insert(b"b".to_vec(), Value::Int(-7));
    inner.insert(b"a".to_vec(), Value::List(vec![]));
    let mut d = Dict::new();
    d.insert(b"zz".to_vec(), Value::Bytes(vec![0, 255, 101, 58]));
    d.insert(b"".to_vec(), Value::Int(i64::MIN));
    d.insert(b"z".to_vec(), Value::Dict(inner));
    d.insert(b"list".to_vec(), Value::List(vec![Value::Int(i64::MAX), "x".into()]));
    Value::Dict(d)
}

#[test]
fn a_value_comes_back_from_its_bytes() {
    let v = sample();
    let bytes = to_bytes(&v).unwrap();
    assert_eq!(
        bytes,
        b"d0:i-9223372036854775808e4:listli9223372036854775807e1:xe1:zd1:ale1:bi-7ee2:zz4:\x00\xffe:e"
    );
    assert_eq!(from_bytes(&bytes).unwrap(), v);
}

#[test]
fn empty_list_and_empty_dictionary_come_back() {
    for v in [Value::List(vec![]), Value::Dict(Dict::new())] {
        assert_eq!(from_bytes(&to_bytes(&v).unwrap()).unwrap(), v);
    }
}

#[test]
fn every_cut_of_an_encoding_is_the_end_of_the_stream() {
    let bytes = to_bytes(&sample()).unwrap();
    for k in 0..bytes.len() {
        match from_bytes(&bytes[..k]) {
            Err(Error::EndOfStream) => {}
            other => panic!("cut at {k}: {other:?}"),
        }
    }
    assert!(from_bytes(&bytes).is_ok());
}

#[test]
fn the_order_of_insertion_does_not_show_in_the_bytes() {
    let mut a = Dict::new();
    a.insert(b"one".to_vec(), Value::Int(1));
    a.insert(b"two".to_vec(), Value::Int(2));
    a.insert(b"three".to_vec(), Value::Int(3));
    let mut b = Dict::new();
    b.insert(b"three".to_vec(), Value::Int(3));
    b.insert(b"two".to_vec(), Value::Int(2));
    b.insert(b"one".to_vec(), Value::Int(1));
    assert_eq!(a, b);
    assert_eq!(
        to_bytes(&Value::Dict(a)).unwrap(),
        to_bytes(&Value::Dict(b)).unwrap()
    );
}

#[test]
fn the_order_of_fields_does_not_show_in_the_bytes() {
    let write = |order: [usize; 3]| {
        let entries = [("b", "i2e"), ("a", "i1e"), ("ab", "i3e")];
        let mut map = SerializeMap::new(3);
        for i in order {
            map.serialize_field(entries[i].0, Ok(entries[i].1.as_bytes().to_vec()))
                .unwrap();
        }
        let mut ser = Serializer::new();
        map.end(&mut ser).unwrap();
        ser.into_vec()
    };
    assert_eq!(write([0, 1, 2]), b"d1:ai1e2:abi3e1:bi2ee");
    assert_eq!(write([2, 1, 0]), b"d1:ai1e2:abi3e1:bi2ee");
    assert_eq!(write([1, 2, 0]), b"d1:ai1e2:abi3e1:bi2ee");
}

#[test]
fn keys_are_sorted_byte_by_byte() {
    let keys: Vec<&[u8]> = vec![b"b", b"", b"a\xff", b"ab", b"a", b"B", b"\xff", b"aa"];
    let entries = keys.iter().map(|k| (k.to_vec(), b"i0e".to_vec())).collect();
    let sorted = sort_by_key(entries);
    let got: Vec<&[u8]> = sorted.iter().map(|e| e.0.as_slice()).collect();
    let want: Vec<&[u8]> = vec![b"", b"B", b"a", b"aa", b"ab", b"a\xff", b"b", b"\xff"];
    assert_eq!(got, want);
    for pair in got.windows(2) {
        assert!(bytes_le(pair[0], pair[1]));
        assert!(pair[0] <= pair[1]);
    }
}

#[test]
fn sorting_keeps_the_order_of_equal_keys() {
    let entries = vec![
        (b"k".to_vec(), b"1:b".to_vec()),
        (b"a".to_vec(), b"1:x".to_vec()),
        (b"k".to_vec(), b"1:a".to_vec()),
    ];
    let sorted = sort_by_key(entries);
    assert_eq!(
        sorted,
        vec![
            (b"a".to_vec(), b"1:x".to_vec()),
            (b"k".to_vec(), b"1:b".to_vec()),
            (b"k".to_vec(), b"1:a".to_vec()),
        ]
    );
}

#[test]
fn byte_strings_compare_as_slices_do() {
    let all: Vec<&[u8]> = vec![b"", b"a", b"ab", b"b", b"\x00", b"a\x00", b"\xff"];
    for a in &all {
        for b in &all {
            assert_eq!(bytes_le(a, b), a <= b, "{a:?} {b:?}");
            assert_eq!(bytes_eq(a, b), a == b, "{a:?} {b:?}");
        }
    }
}

#[test]
fn decimal_text_is_written() {
    let text = |n: u64| {
        let mut buf = vec![b'<'];
        push_decimal(&mut buf, n);
        String::from_utf8(buf).unwrap()
    };
    assert_eq!(text(0), "<0");
    assert_eq!(text(9), "<9");
    assert_eq!(text(10), "<10");
    assert_eq!(text(u64::MAX), "<18446744073709551615");
    let signed = |n: i64| {
        let mut buf = Vec::new();
        push_decimal_i64(&mut buf, n);
        String::from_utf8(buf).unwrap()
    };
    assert_eq!(signed(0), "0");
    assert_eq!(signed(-1), "-1");
    assert_eq!(signed(i64::MIN), "-9223372036854775808");
    assert_eq!(signed(i64::MAX), "9223372036854775807");
}

#[test]
fn decimal_text_is_read() {
    assert_eq!(parse_i64(b"0"), Some(0));
    assert_eq!(parse_i64(b"-0"), Some(0));
    assert_eq!(parse_i64(b"+5"), None);
    assert_eq!(parse_i64(b"007"), Some(7));
    assert_eq!(parse_i64(b"-9223372036854775808"), Some(i64::MIN));
    assert_eq!(parse_i64(b"9223372036854775807"), Some(i64::MAX));
    assert_eq!(parse_i64(b"9223372036854775808"), None);
    assert_eq!(parse_i64(b"-9223372036854775809"), None);
    assert_eq!(parse_i64(b"99999999999999999999999999"), None);
    assert_eq!(parse_i64(b""), None);
    assert_eq!(parse_i64(b"-"), None);
    assert_eq!(parse_i64(b"+"), None);
    assert_eq!(parse_i64(b"1 "), None);
    assert_eq!(parse_i64(b"--1"), None);
    assert_eq!(parse_i64(b"1-"), None);
    assert_eq!(parse_usize(b"0"), Some(0));
    assert_eq!(parse_usize(b"0012"), Some(12));
    assert_eq!(parse_usize(b"+1"), None);
    assert_eq!(parse_usize(b"-1"), None);
    assert_eq!(parse_usize(b""), None);
    assert_eq!(parse_usize(b"18446744073709551615"), Some(usize::MAX));
    assert_eq!(parse_usize(b"18446744073709551616"), None);
    for text in ["12", "-12", "x", "1x", "9223372036854775807"] {
        assert_eq!(parse_i64(text.as_bytes()), text.parse::<i64>().ok());
    }
    assert_eq!(parse_i64(b"+12"), None);
}

#[test]
fn integers_are_read_as_the_text_says() {
    assert!(matches!(from_str("i+5e"), Err(Error::InvalidValue(_))));
    assert_eq!(
        from_str("i+5e").unwrap_err().to_string(),
        "Can't parse `+5` as integer"
    );
    assert_eq!(from_str("i-0e").unwrap(), Value::Int(0));
    assert_eq!(from_str("i007e").unwrap(), Value::Int(7));
    assert!(matches!(from_str("ie"), Err(Error::InvalidValue(_))));
    assert!(matches!(from_str("i-e"), Err(Error::InvalidValue(_))));
    assert!(matches!(from_str("i1.5e"), Err(Error::InvalidValue(_))));
    assert!(matches!(
        from_str("i9223372036854775808e"),
        Err(Error::InvalidValue(_))
    ));
    assert!(matches!(from_bytes(b"i\xffe"), Err(Error::InvalidValue(_))));
    assert!(matches!(from_str("i12"), Err(Error::EndOfStream)));
}

#[test]
fn messages_of_the_reader() {
    assert_eq!(
        from_str("i1xe").unwrap_err().to_string(),
        "Can't parse `1x` as integer"
    );
    assert_eq!(
        from_bytes(b"i\xffe").unwrap_err().to_string(),
        "Non UTF-8 integer encoding"
    );
    assert_eq!(
        from_str("1x:a").unwrap_err().to_string(),
        "Can't parse `1x` as string length"
    );
    assert_eq!(
        from_bytes(b"1\xff:a").unwrap_err().to_string(),
        "Non UTF-8 integer encoding"
    );
    assert_eq!(
        from_str("x").unwrap_err().to_string(),
        "Invalid character `x`"
    );
    assert_eq!(
        from_bytes(b"\xe9").unwrap_err().to_string(),
        "Invalid character `\u{e9}`"
    );
    assert_eq!(from_str("").unwrap_err().to_string(), "End of stream");
}

#[test]
fn byte_strings_are_read_as_long_as_they_say() {
    assert_eq!(from_str("0:").unwrap(), Value::Bytes(vec![]));
    assert_eq!(from_str("03:abcd").unwrap(), Value::Bytes(b"abc".to_vec()));
    assert!(matches!(from_str("3:we"), Err(Error::EndOfStream)));
    assert!(matches!(from_str("3"), Err(Error::EndOfStream)));
    assert!(matches!(
        from_str("123456789123:1"),
        Err(Error::EndOfStream)
    ));
    assert!(matches!(
        from_str("18446744073709551615:1"),
        Err(Error::EndOfStream)
    ));
    assert!(matches!(
        from_str("18446744073709551616:1"),
        Err(Error::InvalidValue(_))
    ));
    assert!(matches!(from_str("1x:a"), Err(Error::InvalidValue(_))));
}

#[test]
fn other_leading_bytes_are_invalid() {
    for s in ["x", "-1", ":", " i1e", "I1e"] {
        assert!(matches!(from_str(s), Err(Error::InvalidValue(_))), "{s}");
    }
    assert!(matches!(from_str("e"), Err(Error::EndOfStream)));
    assert!(matches!(from_str(""), Err(Error::EndOfStream)));
}

#[test]
fn lists_and_dictionaries_have_to_end() {
    assert!(matches!(from_str("l"), Err(Error::EndOfStream)));
    assert!(matches!(from_str("li1e"), Err(Error::EndOfStream)));
    assert!(matches!(from_str("d"), Err(Error::EndOfStream)));
    assert!(matches!(from_str("d1:a"), Err(Error::EndOfStream)));
    assert!(matches!(from_str("d1:ae"), Err(Error::EndOfStream)));
    assert!(matches!(from_str("lxe"), Err(Error::InvalidValue(_))));
}

#[test]
fn a_key_has_to_be_a_byte_string() {
    assert!(matches!(from_str("di1ei2ee"), Err(Error::InvalidType(_))));
    assert!(matches!(from_str("dlei2ee"), Err(Error::InvalidType(_))));
    assert!(matches!(from_str("ddei2ee"), Err(Error::InvalidType(_))));
    assert_eq!(
        from_str("di1ei2ee").unwrap_err().to_string(),
        "Invalid Type: integer `1` (expected: `Bytes`)"
    );
    assert_eq!(
        from_str("dlei2ee").unwrap_err().to_string(),
        "Invalid Type: sequence (expected: `Bytes`)"
    );
    assert_eq!(
        from_str("ddei2ee").unwrap_err().to_string(),
        "Invalid Type: map (expected: `Bytes`)"
    );
}

#[test]
fn a_later_key_takes_the_place_of_an_earlier_one() {
    let v = from_str("d1:bi1e1:ai2e1:bi3ee").unwrap();
    let mut d = Dict::new();
    d.insert(b"a".to_vec(), Value::Int(2));
    d.insert(b"b".to_vec(), Value::Int(3));
    assert_eq!(v, Value::Dict(d));
    assert_eq!(to_string(&v).unwrap(), "d1:ai2e1:bi3ee");
}

#[test]
fn a_dictionary_holds_one_value_for_a_key() {
    let mut d = Dict::new();
    assert!(d.is_empty());
    assert_eq!(d.insert(b"k".to_vec(), Value::Int(1)), None);
    assert_eq!(d.insert(b"j".to_vec(), Value::Int(2)), None);
    assert_eq!(d.insert(b"k".to_vec(), Value::Int(3)), Some(Value::Int(1)));
    assert_eq!(d.len(), 2);
    assert_eq!(d.get(b"k"), Some(&Value::Int(3)));
    assert_eq!(d.get(b"j"), Some(&Value::Int(2)));
    assert_eq!(d.get(b"x"), None);
    assert!(d.contains_key(b"j"));
    assert!(!d.contains_key(b""));
    assert_eq!(d.key_at(0), &b"j".to_vec());
    assert_eq!(d.value_at(1), &Value::Int(3));
    let again = Dict::from_entries(vec![
        (b"k".to_vec(), Value::Int(1)),
        (b"j".to_vec(), Value::Int(2)),
        (b"k".to_vec(), Value::Int(3)),
    ]);
    assert_eq!(again, d);
}

#[test]
fn the_reader_hands_out_tokens() {
    let mut de = Deserializer::new(b"li-3e2:hide");
    assert_eq!(de.parse().unwrap(), ParseResult::List);
    assert_eq!(de.parse().unwrap(), ParseResult::Int(-3));
    assert_eq!(de.parse().unwrap(), ParseResult::Bytes(b"hi".to_vec()));
    assert_eq!(de.parse().unwrap(), ParseResult::Dict);
    assert_eq!(de.parse().unwrap(), ParseResult::End);
    assert!(matches!(de.parse(), Err(Error::EndOfStream)));
}

#[test]
fn looking_ahead_takes_nothing() {
    let mut de = Deserializer::new(b"i1ee");
    let mut access = BencodeAccess::new(None);
    assert!(access.next_element_seed(&mut de).unwrap());
    assert!(access.next_element_seed(&mut de).unwrap());
    assert_eq!(de.parse().unwrap(), ParseResult::Int(1));
    assert!(!access.next_key_seed(&mut de).unwrap());
    assert!(matches!(
        access.next_key_seed(&mut de),
        Err(Error::EndOfStream)
    ));
}

#[test]
fn a_tuple_has_to_end_behind_its_last_item() {
    let mut de = Deserializer::new(b"i1ei2ei3e");
    let mut access = BencodeAccess::new(Some(2));
    assert!(access.next_element_seed(&mut de).unwrap());
    assert_eq!(de.parse().unwrap(), ParseResult::Int(1));
    access.end_element(&mut de).unwrap();
    assert_eq!(de.parse().unwrap(), ParseResult::Int(2));
    let e = access.end_element(&mut de).unwrap_err();
    assert!(matches!(e, Error::InvalidType(_)));
    assert_eq!(e.to_string(), "expected `e`");

    let mut de = Deserializer::new(b"i1eei7e");
    let mut access = BencodeAccess::new(Some(1));
    assert_eq!(de.parse().unwrap(), ParseResult::Int(1));
    access.end_element(&mut de).unwrap();
    assert_eq!(de.parse().unwrap(), ParseResult::Int(7));
}

#[test]
fn variants_are_opened_and_closed() {
    let mut access = BencodeAccess::new(None);
    let mut de = Deserializer::new(b"i1e");
    let e = access.variant_seed(&mut de).unwrap_err();
    assert!(matches!(e, Error::InvalidValue(_)));
    assert_eq!(e.to_string(), "Expected bytes or map; got `Int(1)`");
    let mut de = Deserializer::new(b"le");
    assert_eq!(
        access.variant_seed(&mut de).unwrap_err().to_string(),
        "Expected bytes or map; got `List`"
    );
    let mut de = Deserializer::new(b"e");
    assert_eq!(
        access.variant_seed(&mut de).unwrap_err().to_string(),
        "Expected bytes or map; got `End`"
    );
    let mut de = Deserializer::new(b"");
    assert!(matches!(
        access.variant_seed(&mut de),
        Err(Error::EndOfStream)
    ));
    let mut de = Deserializer::new(b"d1:Ai5ee");
    access.variant_seed(&mut de).unwrap();
    assert_eq!(de.deserialize_str().unwrap(), "A");
    let e = access.tuple_variant(&mut de, 1).unwrap_err();
    assert!(matches!(e, Error::InvalidType(_)));
    assert_eq!(e.to_string(), "expected list");
    access.newtype_variant_seed(&mut de).unwrap();
    let e = access.newtype_variant_seed(&mut de).unwrap_err();
    assert!(matches!(e, Error::EndOfStream));
    let mut de = Deserializer::new(b"1:Ai5e");
    access.variant_seed(&mut de).unwrap();
    assert_eq!(de.deserialize_str().unwrap(), "A");
    let e = access.newtype_variant_seed(&mut de).unwrap_err();
    assert_eq!(e.to_string(), "expected `e`");
    let mut de = Deserializer::new(b"e");
    assert!(matches!(
        access.struct_variant(&mut de),
        Err(Error::EndOfStream)
    ));
}

#[test]
fn strings_have_to_be_utf8() {
    let mut de = Deserializer::new(b"2:\xc3\xa9");
    assert_eq!(de.deserialize_string().unwrap(), "\u{e9}");
    let mut de = Deserializer::new(b"2:\xc3\x28");
    let e = de.deserialize_string().unwrap_err();
    assert!(matches!(e, Error::InvalidValue(_)));
    assert_eq!(
        e.to_string(),
        "Invalid Value: byte array (expected: `utf-8 string`)"
    );
    let mut de = Deserializer::new(b"i1e");
    assert!(matches!(de.deserialize_str(), Err(Error::InvalidType(_))));
    let mut de = Deserializer::new(b"e");
    assert!(matches!(de.deserialize_str(), Err(Error::EndOfStream)));
    let v = Value::Bytes(vec![0xff]);
    let e = to_string(&v).unwrap_err();
    assert!(matches!(e, Error::InvalidValue(_)));
    assert_eq!(e.to_string(), "Not an UTF-8");
    assert_eq!(to_bytes(&v).unwrap(), b"1:\xff");
}

#[test]
fn scalars_are_written() {
    let w = |f: &dyn Fn(&mut Serializer)| {
        let mut ser = Serializer::new();
        ser.push(b">");
        f(&mut ser);
        String::from_utf8(ser.into_vec()).unwrap()
    };
    assert_eq!(w(&|s| s.serialize_i8(-128).unwrap()), ">i-128e");
    assert_eq!(w(&|s| s.serialize_i16(-1).unwrap()), ">i-1e");
    assert_eq!(w(&|s| s.serialize_i32(i32::MAX).unwrap()), ">i2147483647e");
    assert_eq!(w(&|s| s.serialize_u8(255).unwrap()), ">i255e");
    assert_eq!(w(&|s| s.serialize_u16(65535).unwrap()), ">i65535e");
    assert_eq!(w(&|s| s.serialize_u32(u32::MAX).unwrap()), ">i4294967295e");
    assert_eq!(w(&|s| s.serialize_u64(7).unwrap()), ">i7e");
    assert_eq!(
        w(&|s| s.serialize_u64(1 << 63).unwrap()),
        ">i-9223372036854775808e"
    );
    assert_eq!(w(&|s| s.serialize_u64(u64::MAX).unwrap()), ">i-1e");
    assert_eq!(w(&|s| s.serialize_char('\u{e9}').unwrap()), ">2:\u{e9}");
    assert_eq!(w(&|s| s.serialize_bytes(b"").unwrap()), ">0:");
    assert_eq!(w(&|s| s.serialize_bytes(&[b'x'; 12]).unwrap()), ">12:xxxxxxxxxxxx");
    assert_eq!(w(&|s| s.serialize_unit().unwrap()), ">");
    assert_eq!(w(&|s| s.serialize_unit_struct("U").unwrap()), ">");
    assert_eq!(w(&|s| s.serialize_none().unwrap()), ">");
    assert_eq!(w(&|s| s.serialize_unit_variant("Ab").unwrap()), ">2:Ab");
    assert_eq!(
        w(&|s| s.serialize_newtype_variant("N", b"i1e").unwrap()),
        ">d1:Ni1ee"
    );
    assert_eq!(
        w(&|s| {
            s.serialize_tuple_variant("T", 1).unwrap();
            s.serialize_element(b"i1e").unwrap();
            s.end_tuple_variant().unwrap()
        }),
        ">d1:Tli1eee"
    );
    assert_eq!(
        w(&|s| {
            let mut m = s.serialize_struct_variant("S", 2).unwrap();
            m.serialize_field("b", Ok(b"i2e".to_vec())).unwrap();
            m.serialize_field("a", Ok(b"i1e".to_vec())).unwrap();
            m.end_struct_variant(s).unwrap()
        }),
        ">d1:Sd1:ai1e1:bi2eee"
    );
    assert_eq!(
        w(&|s| {
            let mut m = s.serialize_map(None).unwrap();
            m.end(s).unwrap()
        }),
        ">de"
    );
}

#[test]
fn an_open_dictionary_takes_keys_and_values_in_turn() {
    let mut ser = Serializer::new();
    let mut map = SerializeMap::new(0);
    let e = map.serialize_value(Ok(b"i1e".to_vec())).unwrap_err();
    assert!(matches!(e, Error::InvalidValue(_)));
    assert_eq!(
        e.to_string(),
        "`serialize_value` called without calling `serialize_key`"
    );
    map.serialize_key(Ok(b"k".to_vec())).unwrap();
    let e = map.serialize_key(Ok(b"j".to_vec())).unwrap_err();
    assert_eq!(
        e.to_string(),
        "`serialize_key` called multiple times without calling  `serialize_value`"
    );
    let e = map
        .serialize_entry(Ok(b"j".to_vec()), Ok(b"i1e".to_vec()))
        .unwrap_err();
    assert!(matches!(e, Error::InvalidValue(_)));
    let e = map.end_map(&mut ser).unwrap_err();
    assert_eq!(
        e.to_string(),
        "`serialize_key` called without calling  `serialize_value`"
    );
    assert_eq!(ser.as_ref(), b"");
    map.serialize_value(Ok(b"i1e".to_vec())).unwrap();
    map.serialize_key(Ok(b"gone".to_vec())).unwrap();
    map.serialize_value(Ok(vec![])).unwrap();
    let e = map
        .serialize_entry(KeySerializer.serialize_i64(4), Ok(b"i1e".to_vec()))
        .unwrap_err();
    assert!(matches!(e, Error::InvalidType(_)));
    let e = map
        .serialize_entry(Ok(b"x".to_vec()), Err(Error::custom("no")))
        .unwrap_err();
    assert_eq!(e.to_string(), "no");
    map.end(&mut ser).unwrap();
    assert_eq!(ser.as_ref(), b"d1:ki1ee");
}

#[test]
fn a_key_is_a_string_or_bytes() {
    let k = KeySerializer;
    assert_eq!(k.serialize_str("k\u{e9}").unwrap(), "k\u{e9}".as_bytes());
    assert_eq!(k.serialize_bytes(&[0, 255]).unwrap(), vec![0, 255]);
    assert_eq!(k.serialize_char('a').unwrap(), b"a");
    assert_eq!(k.serialize_char('\u{1F9D0}').unwrap(), vec![0xd0]);
    let refused = |r: Result<Vec<u8>, Error>, found: &str| {
        let e = r.unwrap_err();
        assert!(matches!(e, Error::InvalidType(_)));
        assert_eq!(
            e.to_string(),
            format!("Invalid Type: {found} (expected: `a string or bytes`)")
        );
    };
    refused(k.serialize_bool(true), "boolean `true`");
    refused(k.serialize_bool(false), "boolean `false`");
    refused(k.serialize_i8(-1), "integer `-1`");
    refused(k.serialize_i16(-300), "integer `-300`");
    refused(k.serialize_i32(7), "integer `7`");
    refused(k.serialize_i64(i64::MIN), "integer `-9223372036854775808`");
    refused(k.serialize_u8(0), "integer `0`");
    refused(k.serialize_u16(9), "integer `9`");
    refused(k.serialize_u32(10), "integer `10`");
    refused(k.serialize_u64(u64::MAX), "integer `18446744073709551615`");
    refused(k.serialize_unit(), "unit value");
    refused(k.serialize_unit_struct("U"), "unit value");
    refused(k.serialize_unit_variant("V"), "unit variant");
    refused(k.serialize_newtype_struct("N"), "newtype struct");
    refused(k.serialize_newtype_variant("V"), "newtype variant");
    refused(k.serialize_none(), "Option value");
    refused(k.serialize_some(), "Option value");
    let of_parts = |r: Result<Vec<u8>, Error>, found: &str| {
        let e = r.unwrap_err();
        assert!(matches!(e, Error::InvalidValue(_)));
        assert_eq!(
            e.to_string(),
            format!("Invalid Value: {found} (expected: `a string or bytes`)")
        );
    };
    of_parts(k.serialize_seq(None), "sequence");
    of_parts(k.serialize_tuple(2), "sequence");
    of_parts(k.serialize_tuple_struct("T", 2), "newtype struct");
    of_parts(k.serialize_tuple_variant("V", 2), "tuple variant");
    of_parts(k.serialize_map(None), "map");
    of_parts(k.serialize_struct("S", 1), "newtype struct");
    of_parts(k.serialize_struct_variant("V", 1), "struct variant");
}

#[test]
fn every_error_has_its_kind_and_its_text() {
    let io = Error::IoError(std::io::Error::new(std::io::ErrorKind::Other, "broken pipe"));
    assert_eq!(io.kind(), ErrorKind::IoError);
    assert_eq!(io.to_string(), "broken pipe");
    let e = Error::custom("as it is");
    assert_eq!(e.kind(), ErrorKind::Custom);
    assert_eq!(e.to_string(), "as it is");
    let e = Error::invalid_type(&Unexpected::Bytes, "an integer");
    assert_eq!(e.kind(), ErrorKind::InvalidType);
    assert_eq!(
        e.to_string(),
        "Invalid Type: byte array (expected: `an integer`)"
    );
    let e = Error::invalid_value(&Unexpected::Unsigned(300), "a byte");
    assert_eq!(e.kind(), ErrorKind::InvalidValue);
    assert_eq!(
        e.to_string(),
        "Invalid Value: integer `300` (expected: `a byte`)"
    );
    let e = Error::invalid_length(3, "a tuple of size 2");
    assert_eq!(e.kind(), ErrorKind::InvalidLength);
    assert_eq!(
        e.to_string(),
        "Invalid Length: 3 (expected: a tuple of size 2)"
    );
    let e = Error::unknown_variant("C", &["A", "B\""]);
    assert_eq!(e.kind(), ErrorKind::UnknownVariant);
    assert_eq!(
        e.to_string(),
        "Unknown Variant: `C` (expected one of: [\"A\", \"B\\\"\"])"
    );
    let e = Error::unknown_field("q", &[]);
    assert_eq!(e.kind(), ErrorKind::UnknownField);
    assert_eq!(e.to_string(), "Unknown Field: `q` (expected one of: [])");
    let e = Error::missing_field("x");
    assert_eq!(e.kind(), ErrorKind::MissingField);
    assert_eq!(e.to_string(), "Missing Field: `x`");
    let e = Error::duplicate_field("x");
    assert_eq!(e.kind(), ErrorKind::DuplicateField);
    assert_eq!(e.to_string(), "Duplicate Field: `x`");
    assert_eq!(Error::EndOfStream.kind(), ErrorKind::EndOfStream);
    assert_eq!(Error::EndOfStream.to_string(), "End of stream");
}

#[test]
fn deeply_nested_lists_come_back() {
    let mut v = Value::Int(0);
    for _ in 0..200 {
        v = Value::List(vec![v]);
    }
    let bytes = to_bytes(&v).unwrap();
    assert_eq!(bytes.len(), 200 + 3 + 200);
    assert_eq!(from_bytes(&bytes).unwrap(), v);
}

#[test]
fn pairs_are_sorted_with_any_payload() {
    let pairs = vec![
        (b"b".to_vec(), 1),
        (b"a".to_vec(), 2),
        (b"b".to_vec(), 3),
        (b"".to_vec(), 4),
        (b"a".to_vec(), 5),
    ];
    let sorted = sort_pairs(pairs);
    assert_eq!(
        sorted,
        vec![
            (b"".to_vec(), 4),
            (b"a".to_vec(), 2),
            (b"a".to_vec(), 5),
            (b"b".to_vec(), 1),
            (b"b".to_vec(), 3),
        ]
    );
    assert_eq!(
        dedup_pairs(sorted),
        vec![(b"".to_vec(), 4), (b"a".to_vec(), 5), (b"b".to_vec(), 3)]
    );
    assert_eq!(sort_pairs(Vec::<(Vec<u8>, u8)>::new()), vec![]);
    assert_eq!(dedup_pairs(Vec::<(Vec<u8>, u8)>::new()), vec![]);
    assert_eq!(sort_pairs(vec![(b"x".to_vec(), 0)]), vec![(b"x".to_vec(), 0)]);
}

#[test]
fn sorting_agrees_with_the_sort_of_slices() {
    let mut seed: u32 = 12345;
    let mut next = || {
        seed = seed.wrapping_mul(1103515245).wrapping_add(12345);
        (seed >> 16) as u8
    };
    for round in 0..50 {
        let n = (round * 7) % 40;
        let pairs: Vec<(Vec<u8>, usize)> = (0..n)
            .map(|i| {
                let len = (next() % 3) as usize;
                ((0..len).map(|_| next() % 4).collect(), i)
            })
            .collect();
        let mut expected = pairs.clone();
        expected.sort_by(|a, b| a.0.cmp(&b.0));
        assert_eq!(sort_pairs(pairs), expected);
    }
}

#[test]
fn a_large_dictionary_with_falling_keys_is_read() {
    let n = 20000;
    let mut input = vec![b'd'];
    for i in (0..n).rev() {
        input.extend_from_slice(format!("5:{i:05}i{i}e").as_bytes());
    }
    input.push(b'e');
    let v = from_bytes(&input).unwrap();
    match &v {
        Value::Dict(d) => {
            assert_eq!(d.len(), n);
            assert_eq!(d.key_at(0), &b"00000".to_vec());
            assert_eq!(d.value_at(n - 1), &Value::Int(n as i64 - 1));
        }
        other => panic!("no dictionary: {other:?}"),
    }
    let bytes = to_bytes(&v).unwrap();
    assert_eq!(bytes.len(), input.len());
    assert_eq!(from_bytes(&bytes).unwrap(), v);
}

#[test]
fn an_integer_and_a_byte_string_are_never_taken_for_each_other() {
    let mut de = Deserializer::new(b"i42e");
    assert_eq!(de.parse_only_int().unwrap(), 42);
    let mut de = Deserializer::new(b"2:42");
    let e = de.parse_only_int().unwrap_err();
    assert!(matches!(e, Error::InvalidType(_)));
    assert_eq!(e.to_string(), "Invalid Type: byte array (expected: `i64`)");
    let mut de = Deserializer::new(b"le");
    assert_eq!(
        de.parse_only_int().unwrap_err().to_string(),
        "Invalid Type: sequence (expected: `i64`)"
    );
    let mut de = Deserializer::new(b"de");
    assert_eq!(
        de.parse_only_int().unwrap_err().to_string(),
        "Invalid Type: map (expected: `i64`)"
    );
    let mut de = Deserializer::new(b"e");
    assert!(matches!(de.parse_only_int(), Err(Error::EndOfStream)));
    let mut de = Deserializer::new(b"i42e");
    let e = de.parse_only_bytes().unwrap_err();
    assert!(matches!(e, Error::InvalidType(_)));
    assert_eq!(e.to_string(), "Invalid Type: integer `42` (expected: `Bytes`)");
}

#[test]
fn every_character_is_encoded_as_utf8() {
    assert_eq!(char_bytes('a'), vec![0x61]);
    assert_eq!(char_bytes('\u{e9}'), vec![0xc3, 0xa9]);
    assert_eq!(char_bytes('\u{20ac}'), vec![0xe2, 0x82, 0xac]);
    assert_eq!(char_bytes('\u{1F9D0}'), vec![0xf0, 0x9f, 0xa7, 0x90]);
    for code in 0..=0x10FFFFu32 {
        if let Some(c) = char::from_u32(code) {
            let mut buffer = [0; 4];
            assert_eq!(char_bytes(c), c.encode_utf8(&mut buffer).as_bytes());
        }
    }
}

#[test]
fn the_fields_of_a_struct_are_written_in_key_order() {
    let mut ser = Serializer::new();
    let mut map = ser.serialize_struct("S", 4).unwrap();
    for (key, value) in [("a", 1), ("b", 2), ("z", 3), ("c", 4)] {
        let mut sub = Serializer::new();
        sub.serialize_i32(value).unwrap();
        map.serialize_field(key, Ok(sub.into_vec())).unwrap();
    }
    map.end(&mut ser).unwrap();
    assert_eq!(ser.as_ref(), b"d1:ai1e1:bi2e1:ci4e1:zi3ee");
}

#[test]
fn a_list_of_tuples_is_read_to_its_last_item() {
    let mut de = Deserializer::new(b"lli111ei222eeli333ei444eee");
    assert_eq!(de.deserialize_any().unwrap(), ParseResult::List);
    let mut outer = BencodeAccess::new(None);
    let mut pairs = Vec::new();
    while outer.next_element_seed(&mut de).unwrap() {
        assert_eq!(de.deserialize_any().unwrap(), ParseResult::List);
        let mut inner = BencodeAccess::tuple(&mut de, 2).unwrap();
        assert!(inner.next_element_seed(&mut de).unwrap());
        let a = de.parse_only_int().unwrap();
        inner.end_element(&mut de).unwrap();
        assert!(inner.next_element_seed(&mut de).unwrap());
        let b = de.parse_only_int().unwrap();
        inner.end_element(&mut de).unwrap();
        pairs.push((a, b));
        outer.end_element(&mut de).unwrap();
    }
    assert_eq!(pairs, vec![(111, 222), (333, 444)]);
    assert!(matches!(de.parse(), Err(Error::EndOfStream)));
}

#[test]
fn a_tuple_without_items_has_to_end_at_once() {
    let mut de = Deserializer::new(b"ei1e");
    BencodeAccess::tuple(&mut de, 0).unwrap();
    assert_eq!(de.parse().unwrap(), ParseResult::Int(1));
    let mut de = Deserializer::new(b"i1ee");
    let e = BencodeAccess::tuple(&mut de, 0).unwrap_err();
    assert!(matches!(e, Error::InvalidType(_)));
    assert_eq!(e.to_string(), "expected `e`");
    let mut de = Deserializer::new(b"");
    assert!(matches!(
        BencodeAccess::tuple(&mut de, 0),
        Err(Error::EndOfStream)
    ));
    let mut de = Deserializer::new(b"i1ee");
    BencodeAccess::tuple(&mut de, 1).unwrap();
    assert_eq!(de.parse().unwrap(), ParseResult::Int(1));
}

#[test]
fn a_token_that_was_looked_at_is_the_one_that_is_taken() {
    let mut de = Deserializer::new(b"3:abci7e");
    let mut access = BencodeAccess::new(None);
    assert!(access.next_element_seed(&mut de).unwrap());
    assert_eq!(de.parse().unwrap(), ParseResult::Bytes(b"abc".to_vec()));
    assert!(access.next_key_seed(&mut de).unwrap());
    assert!(access.next_key_seed(&mut de).unwrap());
    assert_eq!(de.parse().unwrap(), ParseResult::Int(7));
}

#[test]
fn what_is_written_for_a_typed_value_is_read_as_its_image() {
    let mut ser = Serializer::new();
    let mut map = ser.serialize_struct("S", 3).unwrap();
    let mut list = Serializer::new();
    list.serialize_tuple(2).unwrap();
    list.serialize_element(b"i1e").unwrap();
    list.serialize_element(b"1:x").unwrap();
    list.end().unwrap();
    let mut variant = Serializer::new();
    variant.serialize_newtype_variant("V", b"i7e").unwrap();
    map.serialize_field("t", Ok(list.into_vec())).unwrap();
    map.serialize_field("gone", Ok(vec![])).unwrap();
    map.serialize_field("e", Ok(variant.into_vec())).unwrap();
    map.end(&mut ser).unwrap();
    assert_eq!(ser.as_ref(), b"d1:ed1:Vi7ee1:tli1e1:xee");
    let image = Value::Dict(Dict::from_entries(vec![
        (
            b"t".to_vec(),
            Value::List(vec![Value::Int(1), Value::from("x")]),
        ),
        (
            b"e".to_vec(),
            Value::Dict(Dict::from_entries(vec![(b"V".to_vec(), Value::Int(7))])),
        ),
    ]));
    assert_eq!(from_bytes(ser.as_ref()).unwrap(), image);
}
