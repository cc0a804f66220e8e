use nbt::decode::decode;
use nbt::decode::Decoder;
use nbt::encode::encode;
use nbt::error::Error;
use nbt::kind::Kind;
use nbt::value::Value;

fn rt(v: Value) -> Value {
    let bytes = encode(&v, None).expect("encoding should succeed");
    decode(&bytes).expect("decoding should succeed")
}

fn field(name: &str, v: Value) -> Value {
    Value::Compound(vec![(name.to_string(), v)])
}

#[test]
fn worked_example_bananrama() {
    let v = field("name", Value::String("Bananrama".to_string()));
    let bytes = encode(&v, None).unwrap();
    let mut expected: Vec<u8> = vec![0x0A, 0x00, 0x00];
    expected.extend_from_slice(&[0x08, 0x00, 0x04]);
    expected.extend_from_slice(b"name");
    expected.extend_from_slice(&[0x00, 0x09]);
    expected.extend_from_slice(b"Bananrama");
    expected.push(0x00);
    assert_eq!(bytes, expected);
}

#[test]
fn round_trip_primitives() {
    assert_eq!(
        rt(field("b", Value::Byte(-5))),
        field("b", Value::Byte(-5))
    );
    assert_eq!(
        rt(field("s", Value::Short(-12345))),
        field("s", Value::Short(-12345))
    );
    assert_eq!(
        rt(field("i", Value::Int(0x12345678))),
        field("i", Value::Int(0x12345678))
    );
    assert_eq!(
        rt(field("l", Value::Long(-1234567890123456789))),
        field("l", Value::Long(-1234567890123456789))
    );
    let fbits = 3.25f32.to_bits();
    assert_eq!(
        rt(field("f", Value::Float(fbits))),
        field("f", Value::Float(fbits))
    );
    let dbits = (-123.456f64).to_bits();
    assert_eq!(
        rt(field("d", Value::Double(dbits))),
        field("d", Value::Double(dbits))
    );
}

#[test]
fn round_trip_string() {
    let v = field("greeting", Value::String("hello, world".to_string()));
    let w = field("greeting", Value::String("hello, world".to_string()));
    assert_eq!(rt(v), w);
}

#[test]
fn round_trip_nested_compound() {
    let inner = Value::Compound(vec![
        ("x".to_string(), Value::Int(1)),
        ("y".to_string(), Value::Int(2)),
    ]);
    let v = field("pos", inner);
    let inner2 = Value::Compound(vec![
        ("x".to_string(), Value::Int(1)),
        ("y".to_string(), Value::Int(2)),
    ]);
    let w = field("pos", inner2);
    assert_eq!(rt(v), w);
}

#[test]
fn round_trip_homogeneous_list() {
    let v = field(
        "xs",
        Value::List(Kind::I16, vec![Value::Short(1), Value::Short(2), Value::Short(3)]),
    );
    let w = field(
        "xs",
        Value::List(Kind::I16, vec![Value::Short(1), Value::Short(2), Value::Short(3)]),
    );
    assert_eq!(rt(v), w);
}

#[test]
fn round_trip_list_of_compounds() {
    let v = field(
        "entries",
        Value::List(
            Kind::Compound,
            vec![
                Value::Compound(vec![("a".to_string(), Value::Byte(1))]),
                Value::Compound(vec![("a".to_string(), Value::Byte(2))]),
            ],
        ),
    );
    let w = field(
        "entries",
        Value::List(
            Kind::Compound,
            vec![
                Value::Compound(vec![("a".to_string(), Value::Byte(1))]),
                Value::Compound(vec![("a".to_string(), Value::Byte(2))]),
            ],
        ),
    );
    assert_eq!(rt(v), w);
}

#[test]
fn round_trip_each_array_kind() {
    assert_eq!(
        rt(field("ba", Value::ByteArray(vec![1, -2, 3]))),
        field("ba", Value::ByteArray(vec![1, -2, 3]))
    );
    assert_eq!(
        rt(field("ia", Value::IntArray(vec![10, -20, 30]))),
        field("ia", Value::IntArray(vec![10, -20, 30]))
    );
    assert_eq!(
        rt(field("la", Value::LongArray(vec![100, -200, 300]))),
        field("la", Value::LongArray(vec![100, -200, 300]))
    );
}

#[test]
fn round_trip_root_name() {
    let v = field("k", Value::Byte(1));
    let bytes = encode(&v, Some("root".to_string())).unwrap();
    assert_eq!(&bytes[0..3], &[0x0A, 0x00, 0x04]);
    assert_eq!(&bytes[3..7], b"root");
    let w = decode(&bytes).unwrap();
    assert_eq!(w, field("k", Value::Byte(1)));
}

#[test]
fn empty_string_encodes_as_length_zero() {
    let v = field("e", Value::String(String::new()));
    let bytes = encode(&v, None).unwrap();
    // root header, then: String tag, name "e", value length 0, terminator.
    let expected = vec![0x0A, 0x00, 0x00, 0x08, 0x00, 0x01, b'e', 0x00, 0x00, 0x00];
    assert_eq!(bytes, expected);
    assert_eq!(decode(&bytes).unwrap(), field("e", Value::String(String::new())));
}

#[test]
fn empty_list_encodes_length_zero_and_decodes_empty() {
    let v = field("xs", Value::List(Kind::End, vec![]));
    let bytes = encode(&v, None).unwrap();
    // List tag, name, element kind End, 4-byte zero length.
    let expected = vec![
        0x0A, 0x00, 0x00, 0x09, 0x00, 0x02, b'x', b's', 0x00, 0x00, 0x00, 0x00, 0x00, 0x00,
    ];
    assert_eq!(bytes, expected);
    assert_eq!(decode(&bytes).unwrap(), field("xs", Value::List(Kind::End, vec![])));
}

#[test]
fn empty_array_normalizes_to_empty_end_list() {
    let v = field("ba", Value::ByteArray(vec![]));
    let bytes = encode(&v, None).unwrap();
    let w = decode(&bytes).unwrap();
    assert_eq!(w, field("ba", Value::List(Kind::End, vec![])));
}

#[test]
fn byte_list_normalizes_to_byte_array() {
    let v = field("xs", Value::List(Kind::I8, vec![Value::Byte(7), Value::Byte(8)]));
    let bytes = encode(&v, None).unwrap();
    let w = decode(&bytes).unwrap();
    assert_eq!(w, field("xs", Value::ByteArray(vec![7, 8])));
}

#[test]
fn string_length_65535_round_trips() {
    let long = "a".repeat(65535);
    let v = field("s", Value::String(long.clone()));
    assert_eq!(rt(v), field("s", Value::String(long)));
}

#[test]
fn string_length_65536_is_rejected() {
    let long = "a".repeat(65536);
    let v = field("s", Value::String(long));
    assert_eq!(
        encode(&v, None),
        Err(Error::UnrepresentableType("oversized string"))
    );
}

#[test]
fn non_compound_first_byte_is_no_root_compound() {
    assert_eq!(decode(&vec![0x01]), Err(Error::NoRootCompound));
}

#[test]
fn scalar_at_root_is_no_root_compound() {
    assert_eq!(encode(&Value::Byte(1), None), Err(Error::NoRootCompound));
    assert_eq!(
        encode(&Value::List(Kind::I8, vec![]), None),
        Err(Error::NoRootCompound)
    );
}

#[test]
fn empty_input_is_incomplete() {
    assert_eq!(decode(&vec![]), Err(Error::IncompleteNbtValue));
}

#[test]
fn truncated_value_is_incomplete() {
    let v = field("i", Value::Int(77));
    let mut bytes = encode(&v, None).unwrap();
    bytes.truncate(bytes.len() - 3);
    assert_eq!(decode(&bytes), Err(Error::IncompleteNbtValue));
}

#[test]
fn heterogeneous_list_names_both_kinds() {
    let v = field("xs", Value::List(Kind::I8, vec![Value::Byte(1), Value::Short(2)]));
    assert_eq!(
        encode(&v, None),
        Err(Error::HeterogenousList { original: Kind::I8, new: Kind::I16 })
    );
}

#[test]
fn unknown_tag_names_the_byte() {
    // Root compound, empty name, then a field whose tag byte is 13 with an
    // empty name: the tag is checked after the name has been read.
    let bytes = vec![0x0A, 0x00, 0x00, 13, 0x00, 0x00];
    assert_eq!(decode(&bytes), Err(Error::UnknownTag(13)));
}

#[test]
fn invalid_utf8_string_is_rejected() {
    // String field whose two bytes are not valid UTF-8.
    let bytes = vec![
        0x0A, 0x00, 0x00, 0x08, 0x00, 0x01, b's', 0x00, 0x02, 0xFF, 0xFE, 0x00,
    ];
    assert_eq!(decode(&bytes), Err(Error::InvalidUtf8));
}

#[test]
fn long_array_decodes_symmetrically() {
    // The decoder accepts the 64-bit array container, tag 12.
    let v = field("la", Value::LongArray(vec![1, 2]));
    let bytes = encode(&v, None).unwrap();
    assert_eq!(bytes[3], 12);
    assert_eq!(decode(&bytes).unwrap(), field("la", Value::LongArray(vec![1, 2])));
}

#[test]
fn decoder_type_decodes() {
    let v = field("k", Value::Byte(3));
    let bytes = encode(&v, None).unwrap();
    let dec = Decoder::new(bytes);
    assert_eq!(dec.decode().unwrap(), field("k", Value::Byte(3)));
}

#[test]
fn trailing_bytes_are_ignored() {
    let v = field("k", Value::Byte(3));
    let mut bytes = encode(&v, None).unwrap();
    bytes.push(0xAB);
    assert_eq!(decode(&bytes).unwrap(), field("k", Value::Byte(3)));
}

#[test]
fn boolean_bytes_decode_and_reject() {
    assert_eq!(Value::Byte(0).as_bool(), Ok(false));
    assert_eq!(Value::Byte(1).as_bool(), Ok(true));
    assert_eq!(Value::Byte(2).as_bool(), Err(Error::NonBooleanByte(2)));
    assert_eq!(Value::Byte(-1).as_bool(), Err(Error::NonBooleanByte(-1)));
}

#[test]
fn boolean_from_decoded_field() {
    let v = field("flag", Value::Byte(2));
    let bytes = encode(&v, None).unwrap();
    let w = decode(&bytes).unwrap();
    match w {
        Value::Compound(fields) => {
            assert_eq!(fields.len(), 1);
            assert_eq!(fields[0].0, "flag");
            assert_eq!(fields[0].1.as_bool(), Err(Error::NonBooleanByte(2)));
        },
        _ => panic!("expected a compound"),
    }
}

#[test]
fn boolean_of_wrong_kind_names_both_tags() {
    assert_eq!(Value::Short(0).as_bool(), Err(Error::UnexpectedTag(2, 1)));
    assert_eq!(
        Value::String("x".to_string()).as_bool(),
        Err(Error::UnexpectedTag(8, 1))
    );
}

#[test]
fn error_descriptions() {
    assert_eq!(
        Error::NoRootCompound.description(),
        "all values must have a root compound"
    );
    assert_eq!(Error::UnknownTag(13).description(), "unknown tag");
    assert_eq!(
        Error::NonBooleanByte(2).description(),
        "encountered a non-0 or 1 byte for a boolean"
    );
    assert_eq!(Error::UnexpectedTag(2, 1).description(), "unexpected tag");
    assert_eq!(
        Error::UnrepresentableType("u8").description(),
        "unrepresentable type"
    );
    assert_eq!(
        Error::InvalidUtf8.description(),
        "a string is not valid UTF-8"
    );
    assert_eq!(
        Error::IncompleteNbtValue.description(),
        "data does not represent a complete NbtValue"
    );
}

#[test]
fn kind_registry_table() {
    let kinds = [
        Kind::End,
        Kind::I8,
        Kind::I16,
        Kind::I32,
        Kind::I64,
        Kind::F32,
        Kind::F64,
        Kind::I8Array,
        Kind::String,
        Kind::List,
        Kind::Compound,
        Kind::I32Array,
        Kind::I64Array,
    ];
    for (i, k) in kinds.iter().enumerate() {
        assert_eq!(k.to_id(), i as i8);
        assert_eq!(Kind::from_id(i as i8), Some(*k));
    }
    assert_eq!(Kind::from_id(13), None);
    assert_eq!(Kind::from_id(-1), None);
    assert_eq!(Kind::I8.list_container(), Kind::I8Array);
    assert_eq!(Kind::I32.list_container(), Kind::I32Array);
    assert_eq!(Kind::I64.list_container(), Kind::I64Array);
    assert_eq!(Kind::I16.list_container(), Kind::List);
    assert_eq!(Kind::Compound.list_container(), Kind::List);
    assert!(Kind::List.is_list());
    assert!(Kind::I8Array.is_list());
    assert!(Kind::I32Array.is_list());
    assert!(Kind::I64Array.is_list());
    assert!(!Kind::I8.is_list());
    assert!(!Kind::Compound.is_list());
}

#[test]
fn big_endian_bare_values() {
    let mut out = Vec::new();
    nbt::bytes::write_u16_be(&mut out, 0x1234);
    nbt::bytes::write_u32_be(&mut out, 0x56789ABC);
    nbt::bytes::write_u64_be(&mut out, 0x0102030405060708);
    assert_eq!(
        out,
        vec![0x12, 0x34, 0x56, 0x78, 0x9A, 0xBC, 0x01, 0x02, 0x03, 0x04, 0x05, 0x06, 0x07, 0x08]
    );
    assert_eq!(nbt::bytes::read_u16_be(&out, 0), 0x1234);
    assert_eq!(nbt::bytes::read_u32_be(&out, 2), 0x56789ABC);
    assert_eq!(nbt::bytes::read_u64_be(&out, 6), 0x0102030405060708);
    assert_eq!(nbt::bytes::u16_from_i16(-1), 0xFFFF);
    assert_eq!(nbt::bytes::i16_from_u16(0xFFFF), -1);
    assert_eq!(nbt::bytes::u32_from_i32(-2), 0xFFFFFFFE);
    assert_eq!(nbt::bytes::i32_from_u32(0xFFFFFFFE), -2);
    assert_eq!(nbt::bytes::u64_from_i64(-3), 0xFFFFFFFFFFFFFFFD);
    assert_eq!(nbt::bytes::i64_from_u64(0xFFFFFFFFFFFFFFFD), -3);
    assert_eq!(nbt::bytes::u8_from_i8(-4), 0xFC);
    assert_eq!(nbt::bytes::i8_from_u8(0xFC), -4);
}

#[test]
fn value_kind_matches_wire_tags() {
    assert_eq!(Value::Byte(0).kind(), Kind::I8);
    assert_eq!(Value::Short(0).kind(), Kind::I16);
    assert_eq!(Value::Int(0).kind(), Kind::I32);
    assert_eq!(Value::Long(0).kind(), Kind::I64);
    assert_eq!(Value::Float(0).kind(), Kind::F32);
    assert_eq!(Value::Double(0).kind(), Kind::F64);
    assert_eq!(Value::ByteArray(vec![]).kind(), Kind::I8Array);
    assert_eq!(Value::String(String::new()).kind(), Kind::String);
    assert_eq!(Value::List(Kind::End, vec![]).kind(), Kind::List);
    assert_eq!(Value::Compound(vec![]).kind(), Kind::Compound);
    assert_eq!(Value::IntArray(vec![]).kind(), Kind::I32Array);
    assert_eq!(Value::LongArray(vec![]).kind(), Kind::I64Array);
}

#[test]
fn negative_list_length_is_incomplete() {
    let bytes = vec![
        0x0A, 0x00, 0x00, 0x09, 0x00, 0x02, b'x', b's', 0x01, 0xFF, 0xFF, 0xFF, 0xFF, 0x00,
    ];
    assert_eq!(decode(&bytes), Err(Error::IncompleteNbtValue));
}

#[test]
fn invalid_element_kind_byte_is_unknown_tag() {
    // A list declaring element kind 13, even with length zero: the element
    // kind byte is validated against the registry.
    let bytes = vec![
        0x0A, 0x00, 0x00, 0x09, 0x00, 0x02, b'x', b's', 13, 0x00, 0x00, 0x00, 0x00, 0x00,
    ];
    assert_eq!(decode(&bytes), Err(Error::UnknownTag(13)));
}

#[test]
fn end_kind_elements_are_unknown_tags() {
    // A list declaring element kind End with a nonzero length cannot hold
    // elements: End denotes no payload.
    let bytes = vec![
        0x0A, 0x00, 0x00, 0x09, 0x00, 0x02, b'x', b's', 0x00, 0x00, 0x00, 0x00, 0x02, 0x00,
    ];
    assert_eq!(decode(&bytes), Err(Error::UnknownTag(0)));
}

#[test]
fn nested_list_value_is_rejected() {
    let v = field(
        "xss",
        Value::List(Kind::List, vec![Value::List(Kind::I8, vec![Value::Byte(1)])]),
    );
    match encode(&v, None) {
        Err(Error::Misuse(_)) => (),
        other => panic!("expected a misuse failure, got {:?}", other),
    }
}
