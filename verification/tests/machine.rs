use nbt::encode::Encoder;
use nbt::error::Error;
use nbt::error::Misuse;
use nbt::kind::Kind;

#[test]
fn machine_writes_a_named_field() {
    let mut enc = Encoder::new(None);
    enc.specify_kind(Kind::Compound).unwrap();
    enc.specify_name("hp".to_string()).unwrap();
    enc.emit_i16(300).unwrap();
    enc.close_level().unwrap();
    let bytes = enc.into_inner();
    let expected = vec![0x0A, 0x00, 0x00, 0x02, 0x00, 0x02, b'h', b'p', 0x01, 0x2C, 0x00];
    assert_eq!(bytes, expected);
}

#[test]
fn machine_commits_list_framing_at_first_element() {
    let mut enc = Encoder::new(None);
    enc.specify_kind(Kind::Compound).unwrap();
    enc.specify_name("xs".to_string()).unwrap();
    enc.open_list(2).unwrap();
    enc.emit_i32(7).unwrap();
    enc.emit_i32(8).unwrap();
    enc.close_level().unwrap();
    enc.close_level().unwrap();
    let bytes = enc.into_inner();
    // An int list commits the raw int-array container: no per-element tags.
    let expected = vec![
        0x0A, 0x00, 0x00, 0x0B, 0x00, 0x02, b'x', b's', 0x00, 0x00, 0x00, 0x02, 0x00, 0x00, 0x00,
        0x07, 0x00, 0x00, 0x00, 0x08, 0x00,
    ];
    assert_eq!(bytes, expected);
}

#[test]
fn machine_rejects_heterogeneous_elements() {
    let mut enc = Encoder::new(None);
    enc.specify_kind(Kind::Compound).unwrap();
    enc.specify_name("xs".to_string()).unwrap();
    enc.open_list(2).unwrap();
    enc.emit_i16(1).unwrap();
    assert_eq!(
        enc.emit_i32(2),
        Err(Error::HeterogenousList { original: Kind::I16, new: Kind::I32 })
    );
}

#[test]
fn machine_rejects_value_without_name() {
    let mut enc = Encoder::new(None);
    enc.specify_kind(Kind::Compound).unwrap();
    assert_eq!(enc.emit_i8(1), Err(Error::Misuse(Misuse::ValueWithoutName)));
}

#[test]
fn machine_rejects_name_twice() {
    let mut enc = Encoder::new(None);
    enc.specify_kind(Kind::Compound).unwrap();
    enc.specify_name("a".to_string()).unwrap();
    assert_eq!(
        enc.specify_name("b".to_string()),
        Err(Error::Misuse(Misuse::NameTwice))
    );
}

#[test]
fn machine_rejects_name_in_list() {
    let mut enc = Encoder::new(None);
    enc.specify_kind(Kind::Compound).unwrap();
    enc.specify_name("xs".to_string()).unwrap();
    enc.open_list(1).unwrap();
    enc.emit_i8(1).unwrap();
    assert_eq!(
        enc.specify_name("bad".to_string()),
        Err(Error::Misuse(Misuse::NameInList))
    );
}

#[test]
fn machine_rejects_close_with_pending_name() {
    let mut enc = Encoder::new(None);
    enc.specify_kind(Kind::Compound).unwrap();
    enc.specify_name("orphan".to_string()).unwrap();
    assert_eq!(
        enc.close_level(),
        Err(Error::Misuse(Misuse::NameWithoutValue))
    );
}

#[test]
fn machine_cancel_name_elides_the_field() {
    let mut enc = Encoder::new(None);
    enc.specify_kind(Kind::Compound).unwrap();
    enc.specify_name("absent".to_string()).unwrap();
    enc.cancel_name().unwrap();
    enc.close_level().unwrap();
    let bytes = enc.into_inner();
    assert_eq!(bytes, vec![0x0A, 0x00, 0x00, 0x00]);
}

#[test]
fn machine_rejects_list_kind_in_specify_kind() {
    let mut enc = Encoder::new(None);
    enc.specify_kind(Kind::Compound).unwrap();
    enc.specify_name("xs".to_string()).unwrap();
    assert_eq!(
        enc.specify_kind(Kind::List),
        Err(Error::Misuse(Misuse::ListKindSpecified))
    );
}

#[test]
fn machine_rejects_emit_after_root_closed() {
    let mut enc = Encoder::new(None);
    enc.specify_kind(Kind::Compound).unwrap();
    enc.close_level().unwrap();
    // The bottom frame remains, so a value without a name is the failure.
    assert_eq!(enc.emit_i8(1), Err(Error::Misuse(Misuse::ValueWithoutName)));
}

#[test]
fn machine_rejects_nested_pending_lists() {
    let mut enc = Encoder::new(None);
    enc.specify_kind(Kind::Compound).unwrap();
    enc.specify_name("xss".to_string()).unwrap();
    enc.open_list(1).unwrap();
    enc.open_list(1).unwrap();
    assert_eq!(enc.emit_i8(1), Err(Error::Misuse(Misuse::NestedPendingList)));
}

#[test]
fn unrepresentable_types_fail_by_name() {
    let mut enc = Encoder::new(None);
    enc.specify_kind(Kind::Compound).unwrap();
    enc.specify_name("v".to_string()).unwrap();
    assert_eq!(enc.emit_u8(1), Err(Error::UnrepresentableType("u8")));
    assert_eq!(enc.emit_u16(1), Err(Error::UnrepresentableType("u16")));
    assert_eq!(enc.emit_u32(1), Err(Error::UnrepresentableType("u32")));
    assert_eq!(enc.emit_u64(1), Err(Error::UnrepresentableType("u64")));
    assert_eq!(enc.emit_char('x'), Err(Error::UnrepresentableType("char")));
    assert_eq!(enc.emit_unit(), Err(Error::UnrepresentableType("unit")));
    // The machine is unchanged: the named field can still be written.
    enc.emit_bool(true).unwrap();
    enc.close_level().unwrap();
    let bytes = enc.into_inner();
    assert_eq!(bytes, vec![0x0A, 0x00, 0x00, 0x01, 0x00, 0x01, b'v', 0x01, 0x00]);
}

#[test]
fn machine_emits_floats_as_bits() {
    let mut enc = Encoder::new(None);
    enc.specify_kind(Kind::Compound).unwrap();
    enc.specify_name("f".to_string()).unwrap();
    enc.emit_float_bits(1.0f32.to_bits()).unwrap();
    enc.specify_name("d".to_string()).unwrap();
    enc.emit_double_bits(1.0f64.to_bits()).unwrap();
    enc.close_level().unwrap();
    let bytes = enc.into_inner();
    let expected = vec![
        0x0A, 0x00, 0x00, 0x05, 0x00, 0x01, b'f', 0x3F, 0x80, 0x00, 0x00, 0x06, 0x00, 0x01, b'd',
        0x3F, 0xF0, 0x00, 0x00, 0x00, 0x00, 0x00, 0x00, 0x00,
    ];
    assert_eq!(bytes, expected);
}

#[test]
fn machine_writes_string_fields() {
    let mut enc = Encoder::new(Some("hdr".to_string()));
    enc.specify_kind(Kind::Compound).unwrap();
    enc.specify_name("s".to_string()).unwrap();
    enc.emit_str(&"ab".to_string()).unwrap();
    enc.close_level().unwrap();
    let bytes = enc.into_inner();
    let expected = vec![
        0x0A, 0x00, 0x03, b'h', b'd', b'r', 0x08, 0x00, 0x01, b's', 0x00, 0x02, b'a', b'b', 0x00,
    ];
    assert_eq!(bytes, expected);
}
