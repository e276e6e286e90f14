use serde_bencode::de::{from_bytes, from_str, BencodeAccess, Deserializer, ParseResult};
use serde_bencode::error::{Error, Result};
use serde_bencode::ser::string::Serializer as KeySerializer;
use serde_bencode::ser::{to_bytes, to_string, SerializeMap, Serializer};
use serde_bencode::value::{Dict, Value};

fn test_value_ser_de<T: Into<Value>>(a: T) {
    // Serialize
    let a = a.into();
    let mut ser = Serializer::new();
    a.serialize(&mut ser).unwrap();
    println!("bytes: {:?}", String::from_utf8_lossy(ser.as_ref()));

    // Deserialize
    let b: Value = from_bytes(ser.as_ref()).unwrap();
    println!("value: {b:?}");

    assert_eq!(a, b);
}

fn test_value_de_ser(s: &str) {
    let d: Value = from_str(s).unwrap();
    let e = to_string(&d).unwrap();
    assert_eq!(s, e);
}

fn text(ser: Serializer) -> String {
    String::from_utf8(ser.into_vec()).unwrap()
}

fn bytes_of(write: impl FnOnce(&mut Serializer) -> Result<()>) -> Result<Vec<u8>> {
    let mut ser = Serializer::new();
    write(&mut ser)?;
    Ok(ser.into_vec())
}

fn enc_int(v: i64) -> Result<Vec<u8>> {
    bytes_of(|s| s.serialize_i64(v))
}

fn enc_str(v: &str) -> Result<Vec<u8>> {
    bytes_of(|s| s.serialize_str(v))
}

fn enc_list(items: Vec<Result<Vec<u8>>>) -> Result<Vec<u8>> {
    bytes_of(|s| {
        s.serialize_seq(Some(items.len()))?;
        for item in items {
            s.serialize_element(&item?)?;
        }
        s.end()
    })
}

fn enc_fields(name: &'static str, entries: Vec<(&'static str, Result<Vec<u8>>)>) -> Result<Vec<u8>> {
    bytes_of(|s| {
        let mut map = s.serialize_struct(name, entries.len())?;
        for (key, value) in entries {
            map.serialize_field(key, value)?;
        }
        map.end(s)
    })
}

fn read_i64(de: &mut Deserializer) -> Result<i64> {
    match de.deserialize_any()? {
        ParseResult::Int(i) => Ok(i),
        other => Err(Error::custom(&format!("no integer: {other:?}"))),
    }
}

fn read_list<T>(
    de: &mut Deserializer,
    item: impl Fn(&mut Deserializer) -> Result<T>,
) -> Result<Vec<T>> {
    match de.deserialize_any()? {
        ParseResult::List => {}
        other => return Err(Error::custom(&format!("no list: {other:?}"))),
    }
    let mut access = BencodeAccess::new(None);
    let mut items = Vec::new();
    loop {
        let more = access.next_element_seed(de)?;
        if more {
            items.push(item(de)?);
        }
        access.end_element(de)?;
        if !more {
            return Ok(items);
        }
    }
}

fn read_pair(de: &mut Deserializer) -> Result<(String, i64)> {
    match de.deserialize_any()? {
        ParseResult::List => {}
        other => return Err(Error::custom(&format!("no list: {other:?}"))),
    }
    let mut access = BencodeAccess::new(None);
    assert!(access.next_element_seed(de)?);
    let first = de.deserialize_string()?;
    access.end_element(de)?;
    assert!(access.next_element_seed(de)?);
    let second = read_i64(de)?;
    access.end_element(de)?;
    assert!(!access.next_element_seed(de)?);
    access.end_element(de)?;
    Ok((first, second))
}

fn read_fields(
    de: &mut Deserializer,
    mut field: impl FnMut(&str, &mut Deserializer) -> Result<()>,
) -> Result<()> {
    match de.deserialize_any()? {
        ParseResult::Dict => {}
        other => return Err(Error::custom(&format!("no dictionary: {other:?}"))),
    }
    let mut access = BencodeAccess::new(None);
    while access.next_key_seed(de)? {
        let key = de.deserialize_str()?;
        field(&key, de)?;
    }
    Ok(())
}

#[test]
fn ser_de_int() {
    test_value_ser_de(666i64);
}

#[test]
fn ser_de_string() {
    test_value_ser_de("yoda");
}

#[test]
fn ser_de_value_list_mixed() {
    test_value_ser_de(Value::List(vec![
        "one".into(),
        "two".into(),
        "three".into(),
        4i64.into(),
    ]));
}

#[test]
fn ser_de_value_list_nested() {
    let l_grandchild = Value::List(vec!["two".into()]);
    let l_child = Value::List(vec!["one".into(), l_grandchild]);
    test_value_ser_de(vec![
        "one".into(),
        "two".into(),
        "three".into(),
        4i64.into(),
        l_child,
    ]);
}

#[test]
fn ser_de_value_map() {
    let mut m = Dict::new();
    m.insert("Mc".into(), "Burger".into());
    test_value_ser_de(m);
}

#[test]
fn ser_de_map_value_mixed() {
    let mut ma = Dict::new();
    ma.insert("M jr.".into(), "nuggets".into());
    let s = Value::List(vec![
        "one".into(),
        "two".into(),
        "three".into(),
        4i64.into(),
    ]);
    let mut m = Dict::new();
    m.insert("Mc".into(), "Burger".into());
    m.insert("joint".into(), ma.into());
    m.insert("woah".into(), s);
    test_value_ser_de(m);
}

#[test]
fn serialize_i64() {
    let mut ser = Serializer::new();
    ser.serialize_i64(666).unwrap();
    assert_eq!(text(ser), "i666e");
    assert_eq!(to_string(&Value::Int(666)).unwrap(), "i666e");
}

#[test]
fn serialize_str() {
    let mut ser = Serializer::new();
    ser.serialize_str("xxx").unwrap();
    assert_eq!(text(ser), "3:xxx");
    assert_eq!(to_string(&Value::from("xxx")).unwrap(), "3:xxx");
}

#[test]
fn serialize_ascii_char() {
    let mut ser = Serializer::new();
    ser.serialize_char('a').unwrap();
    assert_eq!(text(ser), "1:a");
}

#[test]
fn serialize_uncode_char() {
    let mut ser = Serializer::new();
    ser.serialize_char('\u{1F9D0}').unwrap();
    assert_eq!(text(ser), "4:\u{01F9D0}");
}

#[test]
fn serialize_bool() {
    let mut ser = Serializer::new();
    ser.serialize_bool(false).unwrap();
    assert_eq!(text(ser), "i0e");
    let mut ser = Serializer::new();
    ser.serialize_bool(true).unwrap();
    assert_eq!(text(ser), "i1e");
}

#[test]
fn deserialize_to_string() {
    let mut de = Deserializer::new("3:yes".as_bytes());
    let r: String = de.deserialize_string().unwrap();
    assert_eq!(r, "yes");
}

#[test]
fn deserialize_to_i64() {
    let mut de = Deserializer::new("i666e".as_bytes());
    let r: i64 = read_i64(&mut de).unwrap();
    assert_eq!(r, 666);
}

#[test]
fn deserialize_to_vec() {
    let mut de = Deserializer::new("li666ee".as_bytes());
    let r: Vec<i64> = read_list(&mut de, read_i64).unwrap();
    assert_eq!(r, [666]);
}

#[test]
fn deserialize_to_freestyle() {
    let s = "li666e4:wontd3:onei666e4:yoyoli69ei89e4:yoyoeee";
    test_value_de_ser(s);
}

#[test]
#[should_panic(expected = "assertion failed")]
fn trailing_chars() {
    let s = "i666ed";
    let r: Result<Value> = from_str(s);
    assert!(r.is_err());
}

#[test]
fn stop_short() {
    let s = "3:we";
    let r: Result<Value> = from_str(s);
    assert!(r.is_err());
}

#[test]
fn multi_digit_string_length() {
    let read = |s: &str| Deserializer::new(s.as_bytes()).deserialize_string().unwrap();
    let s: String = read("1:o");
    assert_eq!(s, "o");

    let s: String = read("10:oooooooooo");
    assert_eq!(s, "oooooooooo");

    let s: String = read("100:oooooooooooooooooooooooooooooooooooooooooooooooooooooooooooooooooooooooooooooooooooooooooooooooooooo");
    assert_eq!(s,
               "oooooooooooooooooooooooooooooooooooooooooooooooooooooooooooooooooooooooooooooooooooooooooooooooooooo");
}

#[test]
fn serialize_struct() {
    let f = enc_fields("Fake", vec![("x", enc_int(1111)), ("y", enc_str("dog"))]).unwrap();
    assert_eq!(String::from_utf8(f).unwrap(), "d1:xi1111e1:y3:doge");
}

#[test]
fn deserialize_to_struct() {
    let b = "d1:xi1111e1:y3:doge";
    let mut de = Deserializer::new(b.as_bytes());
    let mut x = None;
    let mut y = None;
    read_fields(&mut de, |key, de| {
        match key {
            "x" => x = Some(read_i64(de)?),
            "y" => y = Some(de.deserialize_string()?),
            other => return Err(Error::unknown_field(other, &["y", "x"])),
        }
        Ok(())
    })
    .unwrap();
    assert_eq!((x, y), (Some(1111), Some("dog".to_string())));
}

#[test]
fn deserialize_to_struct_with_option() {
    let b = "d1:xi1111e1:y3:dog1:z2:yoe";
    let mut de = Deserializer::new(b.as_bytes());
    let mut x = None;
    let mut y = None;
    let mut z: Option<String> = None;
    let a: Option<String> = None;
    read_fields(&mut de, |key, de| {
        match key {
            "x" => x = Some(read_i64(de)?),
            "y" => y = Some(de.deserialize_string()?),
            "z" => z = Some(de.deserialize_string()?),
            other => return Err(Error::unknown_field(other, &["y", "x", "z", "a"])),
        }
        Ok(())
    })
    .unwrap();
    assert_eq!(
        (x, y, z, a),
        (
            Some(1111),
            Some("dog".to_string()),
            Some("yo".to_string()),
            None
        )
    );
}

#[test]
fn deserialize_to_value() {
    let b = "d1:xi1111e1:y3:doge";
    let r: Value = from_str(b).unwrap();
    let mut d = Dict::new();
    d.insert("x".into(), 1111.into());
    d.insert("y".into(), "dog".into());
    assert_eq!(r, Value::Dict(d));
}

#[test]
fn deserialize_to_value_struct_mix() {
    let b = "d1:xi1111e1:y3:dog1:zi66e1:qli666eee";
    let mut de = Deserializer::new(b.as_bytes());
    let mut x = None;
    let mut y = None;
    let mut z = None;
    let mut q = None;
    read_fields(&mut de, |key, de| {
        match key {
            "x" => x = Some(read_i64(de)?),
            "y" => y = Some(de.deserialize_string()?),
            "z" => z = Some(Value::deserialize(de)?),
            "q" => q = Some(read_list(de, read_i64)?),
            other => return Err(Error::unknown_field(other, &["y", "x", "z", "q"])),
        }
        Ok(())
    })
    .unwrap();
    assert_eq!(x, Some(1111));
    assert_eq!(y, Some("dog".to_string()));
    assert_eq!(z, Some(Value::Int(66)));
    assert_eq!(q, Some(vec![666]));
}

#[test]
fn ser_de_nested_list_with_mixed_types_in_child_list() {
    let nested_list_with_mixed_types = Value::List(vec![
        Value::List(vec![
            Value::Bytes("188.163.121.224".as_bytes().to_vec()),
            Value::Int(56711),
        ]),
        Value::List(vec![
            Value::Bytes("162.250.131.26".as_bytes().to_vec()),
            Value::Int(13386),
        ]),
    ]);

    test_value_ser_de(nested_list_with_mixed_types);
}

#[test]
fn serialize_nested_list_with_mixed_types_in_child_list() {
    let n = enc_list(vec![
        enc_list(vec![enc_str("188.163.121.224"), enc_int(56711)]),
        enc_list(vec![enc_str("162.250.131.26"), enc_int(13386)]),
    ])
    .unwrap();

    assert_eq!(
        String::from_utf8(n).unwrap(),
        "ll15:188.163.121.224i56711eel14:162.250.131.26i13386eee"
    );
}

#[test]
fn serialize_nested_list_with_integers_in_child_list() {
    let n = enc_list(vec![enc_int(56711), enc_int(13386)]).unwrap();

    assert_eq!(String::from_utf8(n).unwrap(), "li56711ei13386ee");
}

#[test]
fn serialize_nested_list_with_two_integers_in_child_list() {
    let n = enc_list(vec![
        enc_list(vec![enc_int(111), enc_int(222)]),
        enc_list(vec![enc_int(333), enc_int(444)]),
    ])
    .unwrap();

    assert_eq!(String::from_utf8(n).unwrap(), "lli111ei222eeli333ei444eee");
}

#[test]
fn deserialize_to_list_with_tuples_with_different_types() {
    let b = "ll15:188.163.121.224i56711eel14:162.250.131.26i13386eee";

    let mut de = Deserializer::new(b.as_bytes());
    let r: Vec<(String, i64)> = read_list(&mut de, read_pair).unwrap();

    assert_eq!(
        r,
        vec![
            ("188.163.121.224".to_string(), 56711),
            ("162.250.131.26".to_string(), 13386)
        ]
    );
}

#[test]
fn serialize_lexical_sorted_keys() {
    let f = enc_fields(
        "Fake",
        vec![("aaa", enc_int(1)), ("bb", enc_int(2)), ("z", enc_int(3)), ("c", enc_int(4))],
    )
    .unwrap();
    assert_eq!(
        String::from_utf8(f).unwrap(),
        "d3:aaai1e2:bbi2e1:ci4e1:zi3ee"
    );
}

#[test]
fn serialize_newtype_struct() {
    let mut ser = Serializer::new();
    ser.serialize_i32(66).unwrap();
    assert_eq!(String::from_utf8(ser.as_ref().to_vec()).unwrap(), "i66e");
    let mut de = Deserializer::new(ser.as_ref());
    assert_eq!(read_i64(&mut de).unwrap(), 66);
}

#[test]
fn serialize_some() {
    let mut ser = Serializer::new();
    ser.serialize_i32(1).unwrap();
    assert_eq!(text(ser), "i1e");
}

#[test]
fn serialize_none() {
    let mut ser = Serializer::new();
    ser.serialize_none().unwrap();
    assert_eq!(text(ser), "");
}

#[test]
fn serialize_tuple() {
    let f = bytes_of(|s| {
        s.serialize_tuple(4)?;
        s.serialize_element(&enc_int(1)?)?;
        s.serialize_element(&enc_int(2)?)?;
        s.serialize_element(&enc_int(3)?)?;
        s.serialize_element(&enc_str("one")?)?;
        s.end()
    })
    .unwrap();
    assert_eq!(String::from_utf8(f).unwrap(), "li1ei2ei3e3:onee");
}

#[test]
fn serialize_tuple_struct() {
    let f = bytes_of(|s| {
        s.serialize_tuple_struct("Fake", 2)?;
        s.serialize_element(&enc_int(66)?)?;
        s.serialize_element(&enc_int(66)?)?;
        s.end()
    })
    .unwrap();
    assert_eq!(String::from_utf8(f).unwrap(), "li66ei66ee");
}

#[test]
fn readme_value_example() {
    let list: Vec<Value> = vec!["one".into(), "two".into(), "three".into(), 4i64.into()];
    assert_eq!(
        to_string(&Value::List(list)).unwrap(),
        "l3:one3:two5:threei4ee"
    );
}

#[test]
fn struct_none_vals() {
    let none = bytes_of(|s| s.serialize_none());
    let f = enc_fields("Fake", vec![("a", none), ("b", enc_int(1))]).unwrap();
    assert_eq!(String::from_utf8(f).unwrap(), "d1:bi1ee");
}

fn around(variant: Result<Vec<u8>>) -> Vec<u8> {
    enc_list(vec![enc_str("pre"), variant, enc_str("post")]).unwrap()
}

fn read_around<T>(bytes: &[u8], variant: impl Fn(&mut Deserializer) -> Result<T>) -> T {
    let mut de = Deserializer::new(bytes);
    assert_eq!(de.deserialize_any().unwrap(), ParseResult::List);
    let mut access = BencodeAccess::new(None);
    assert!(access.next_element_seed(&mut de).unwrap());
    assert_eq!(de.deserialize_string().unwrap(), "pre");
    assert!(access.next_element_seed(&mut de).unwrap());
    let v = variant(&mut de).unwrap();
    assert!(access.next_element_seed(&mut de).unwrap());
    assert_eq!(de.deserialize_string().unwrap(), "post");
    assert!(!access.next_element_seed(&mut de).unwrap());
    v
}

#[test]
fn ser_de_variant_unit() {
    for name in ["A", "B"] {
        let bytes = around(bytes_of(|s| s.serialize_unit_variant(name)));
        let back = read_around(&bytes, |de| {
            let mut access = BencodeAccess::new(None);
            access.variant_seed(de)?;
            let tag = de.deserialize_str()?;
            access.unit_variant()?;
            Ok(tag)
        });
        assert_eq!(back, name);
    }
}

#[test]
fn ser_de_variant_newtype() {
    for (name, payload) in [("A", 123), ("B", 321)] {
        let bytes = around(bytes_of(|s| {
            s.serialize_newtype_variant(name, &enc_int(payload)?)
        }));
        let back = read_around(&bytes, |de| {
            let mut access = BencodeAccess::new(None);
            access.variant_seed(de)?;
            let tag = de.deserialize_str()?;
            let value = read_i64(de)?;
            access.newtype_variant_seed(de)?;
            Ok((tag, value))
        });
        assert_eq!(back, (name.to_string(), payload));
    }
}

#[test]
fn ser_de_variant_tuple() {
    for (name, first, second) in [("A", 123, 321), ("B", 321, 123)] {
        let bytes = around(bytes_of(|s| {
            s.serialize_tuple_variant(name, 2)?;
            s.serialize_element(&enc_int(first)?)?;
            s.serialize_element(&enc_int(second)?)?;
            s.end_tuple_variant()
        }));
        let back = read_around(&bytes, |de| {
            let mut access = BencodeAccess::new(None);
            access.variant_seed(de)?;
            let tag = de.deserialize_str()?;
            let mut items = access.tuple_variant(de, 2)?;
            assert!(items.next_element_seed(de)?);
            let a = read_i64(de)?;
            items.end_element(de)?;
            assert!(items.next_element_seed(de)?);
            let b = read_i64(de)?;
            items.end_element(de)?;
            de.expect_end()?;
            Ok((tag, a, b))
        });
        assert_eq!(back, (name.to_string(), first, second));
    }
}

#[test]
fn ser_de_variant_struct() {
    for (name, k1, v1, k2, v2) in [("A", "a", 123, "b", 321), ("B", "c", 321, "d", 123)] {
        let bytes = around(bytes_of(|s| {
            let mut map = s.serialize_struct_variant(name, 2)?;
            map.serialize_field(k1, enc_int(v1))?;
            map.serialize_field(k2, enc_int(v2))?;
            map.end_struct_variant(s)
        }));
        let back = read_around(&bytes, |de| {
            let mut access = BencodeAccess::new(None);
            access.variant_seed(de)?;
            let tag = de.deserialize_str()?;
            assert_eq!(access.struct_variant(de)?, ParseResult::Dict);
            let mut found = Vec::new();
            let mut inner = BencodeAccess::new(None);
            while inner.next_key_seed(de)? {
                let key = de.deserialize_str()?;
                found.push((key, read_i64(de)?));
            }
            de.expect_end()?;
            Ok((tag, found))
        });
        assert_eq!(
            back,
            (
                name.to_string(),
                vec![(k1.to_string(), v1), (k2.to_string(), v2)]
            )
        );
    }
}

#[test]
fn test_to_bytes() {
    assert_eq!(to_bytes(&Value::from("test")).unwrap(), b"4:test");
}

#[test]
fn ser_de_adjacently_tagged_enum() {
    for name in ["A", "B"] {
        let tag = bytes_of(|s| s.serialize_unit_variant(name));
        let bytes = enc_fields("Mock", vec![("t", tag)]).unwrap();
        let mut de = Deserializer::new(&bytes);
        let mut found = None;
        read_fields(&mut de, |key, de| {
            assert_eq!(key, "t");
            let mut access = BencodeAccess::new(None);
            access.variant_seed(de)?;
            found = Some(de.deserialize_str()?);
            access.unit_variant()
        })
        .unwrap();
        assert_eq!(found, Some(name.to_string()));
    }
}

#[test]
fn ser_de_vec_of_tuples() {
    let bytes = enc_list(vec![
        enc_list(vec![enc_int(1), enc_int(2)]),
        enc_list(vec![enc_int(3), enc_int(4)]),
    ])
    .unwrap();
    let mut de = Deserializer::new(&bytes);
    let back = read_list(&mut de, |de| read_list(de, read_i64)).unwrap();
    assert_eq!(back, vec![vec![1, 2], vec![3, 4]]);
}

#[test]
fn ser_de_field_vec_tuple() {
    let bar = enc_list(vec![
        bytes_of(|s| {
            s.serialize_tuple(1)?;
            s.serialize_element(&bytes_of(|s| s.serialize_u16(1))?)?;
            s.end()
        }),
        bytes_of(|s| {
            s.serialize_tuple(1)?;
            s.serialize_element(&bytes_of(|s| s.serialize_u16(3))?)?;
            s.end()
        }),
    ]);
    let bytes = enc_fields("StructWithVecOfPairs", vec![("bar", bar)]).unwrap();
    let mut de = Deserializer::new(&bytes);
    let mut found = None;
    read_fields(&mut de, |key, de| {
        assert_eq!(key, "bar");
        found = Some(read_list(de, |de| read_list(de, read_i64))?);
        Ok(())
    })
    .unwrap();
    assert_eq!(found, Some(vec![vec![1], vec![3]]));
}

#[test]
fn deserialize_too_long_byte_string() {
    let _unused: Result<Value> = from_str("123456789123:1");
}

#[test]
fn tests_serialization() {
    let info = enc_fields(
        "Info",
        vec![
            ("length", enc_int(8)),
            ("name", enc_str("minimal.txt")),
            ("piece length", enc_int(1)),
            ("pieces", bytes_of(|s| s.serialize_bytes(&[b'p']))),
        ],
    );
    let nodes = enc_list(vec![
        enc_list(vec![enc_str("188.163.121.224"), enc_int(56711)]),
        enc_list(vec![enc_str("162.250.131.26"), enc_int(13386)]),
    ]);
    let torrent = enc_fields("Torrent", vec![("info", info), ("nodes", nodes)]).unwrap();

    assert_eq!(String::from_utf8(torrent).unwrap(), "d4:infod6:lengthi8e4:name11:minimal.txt12:piece lengthi1e6:pieces1:pe5:nodesll15:188.163.121.224i56711eel14:162.250.131.26i13386eeee");
}

#[test]
fn tests_deserialization() {
    let b = "d4:infod6:lengthi8e4:name11:minimal.txt12:piece lengthi1e6:pieces1:pe5:nodesll15:188.163.121.224i56711eel14:162.250.131.26i13386eeee";

    let mut de = Deserializer::new(b.as_bytes());
    let mut length = None;
    let mut name = String::new();
    let mut piece_length = None;
    let mut pieces = Vec::new();
    let mut nodes = None;
    read_fields(&mut de, |key, de| {
        match key {
            "info" => read_fields(de, |key, de| {
                match key {
                    "length" => length = Some(read_i64(de)?),
                    "name" => name = de.deserialize_string()?,
                    "piece length" => piece_length = Some(read_i64(de)?),
                    "pieces" => pieces = de.parse_only_bytes()?,
                    other => return Err(Error::unknown_field(other, &["length", "name"])),
                }
                Ok(())
            })?,
            "nodes" => nodes = Some(read_list(de, read_pair)?),
            other => return Err(Error::unknown_field(other, &["info", "nodes"])),
        }
        Ok(())
    })
    .unwrap();

    assert_eq!(name, "minimal.txt");
    assert_eq!(pieces, vec![b'p']);
    assert_eq!(piece_length, Some(1));
    assert_eq!(length, Some(8));
    assert_eq!(
        nodes,
        Some(vec![
            ("188.163.121.224".to_string(), 56711),
            ("162.250.131.26".to_string(), 13386),
        ])
    );
}

#[test]
fn key_serializer_is_used_for_struct_fields() {
    let mut map = SerializeMap::new(1);
    map.serialize_entry(KeySerializer.serialize_str("k"), enc_int(1))
        .unwrap();
    let mut ser = Serializer::new();
    map.end(&mut ser).unwrap();
    assert_eq!(text(ser), "d1:ki1ee");
}

// A reader for a struct that takes its fields from a list and does not ask
// for the list's end: the list around it then ends where the struct's list ends.
fn read_positional(de: &mut Deserializer, count: usize) -> Result<Vec<ParseResult>> {
    match de.deserialize_any()? {
        ParseResult::List => {}
        other => return Err(Error::custom(&format!("no list: {other:?}"))),
    }
    let mut access = BencodeAccess::new(None);
    let mut found = Vec::new();
    for _ in 0..count {
        assert!(access.next_element_seed(de)?);
        found.push(de.deserialize_any()?);
        access.end_element(de)?;
    }
    Ok(found)
}

#[test]
fn deserialize_to_list_with_tuple_structs_with_different_types() {
    let b = "ll15:188.163.121.224i56711eel14:162.250.131.26i13386eee";

    let mut de = Deserializer::new(b.as_bytes());
    let r = read_list(&mut de, |de| read_positional(de, 2)).unwrap();

    assert_eq!(
        r,
        vec![vec![
            ParseResult::Bytes(b"188.163.121.224".to_vec()),
            ParseResult::Int(56711)
        ]]
    );
}

#[test]
fn deserialize_to_nested_list_with_integer_list_items() {
    let b = "lli56711eeli13386eee";

    let mut de = Deserializer::new(b.as_bytes());
    let r = read_list(&mut de, |de| read_positional(de, 1)).unwrap();

    assert_eq!(r, vec![vec![ParseResult::Int(56711)]]);
}

#[test]
fn deserialize_to_nested_list_with_child_lists_with_two_integers() {
    let b = "lli111ei222eeli333ei444eee";

    let mut de = Deserializer::new(b.as_bytes());
    let r = read_list(&mut de, |de| read_positional(de, 2)).unwrap();

    assert_eq!(r, vec![vec![ParseResult::Int(111), ParseResult::Int(222)]]);
}
