use prc::de::{ErrorKind, ReferenceData, ValueDeserializer};
use prc::{from_slice, to_vec, Hash40, Value};

#[test]
fn empty_containers_round_trip() {
    let v = Value::List(vec![
        Value::List(vec![]),
        Value::Dict(vec![]),
        Value::String(String::new()),
    ]);
    let bytes = to_vec(&v).unwrap();
    assert_eq!(from_slice(&bytes).unwrap(), v);
}

#[test]
fn hash_table_round_trips() {
    let h1 = Hash40(0x0312345678);
    let h2 = Hash40(0x03aabbccdd);
    let v = Value::Dict(vec![
        (h1, Value::Hash(h2)),
        (h2, Value::Hash(h1)),
    ]);
    let bytes = to_vec(&v).unwrap();
    // Two distinct hashes, each deduplicated into one 8-byte slot.
    assert_eq!(&bytes[8..12], &[16, 0, 0, 0]);
    assert_eq!(from_slice(&bytes).unwrap(), v);
}

#[test]
fn nested_maps_round_trip() {
    let inner = Value::Dict(vec![(Hash40(5), Value::I16(-2))]);
    let v = Value::Dict(vec![(Hash40(9), inner)]);
    let bytes = to_vec(&v).unwrap();
    let back = from_slice(&bytes).unwrap();
    assert_eq!(back, v);
    let entries = back.as_map().unwrap();
    assert_eq!(entries[0].0, Hash40(9));
    let inner_back = entries[0].1.as_map().unwrap();
    assert_eq!(inner_back[0].1.as_i16(), Some(-2));
}

#[test]
fn scalar_extremes_round_trip() {
    let v = Value::List(vec![
        Value::I8(i8::MIN),
        Value::I8(i8::MAX),
        Value::U8(u8::MAX),
        Value::I16(i16::MIN),
        Value::U16(u16::MAX),
        Value::I32(i32::MIN),
        Value::U32(u32::MAX),
        Value::F32(f32::NEG_INFINITY.to_bits()),
        Value::Bool(false),
    ]);
    let bytes = to_vec(&v).unwrap();
    assert_eq!(from_slice(&bytes).unwrap(), v);
}

#[test]
fn cyclic_offsets_hit_the_depth_budget() {
    // A list whose single element points back at the list itself would
    // recurse forever; the decoder's nesting budget turns that into a
    // typed error instead.
    const DATA: &[u8] = &[0x0B, 0x01, 0x00, 0x00, 0x00, 0x00, 0x00, 0x00, 0x00];
    let mut de = ValueDeserializer::new(ReferenceData::empty(), &[], DATA);
    let err = de.parse_value().unwrap_err();
    assert!(matches!(err.cause, ErrorKind::DepthLimit));
}

#[test]
fn truncated_scalars_report_eof() {
    let mut de = ValueDeserializer::new(ReferenceData::empty(), &[], &[0x06, 0x01, 0x02]);
    let err = de.parse_value().unwrap_err();
    assert!(matches!(err.cause, ErrorKind::Eof(1)));
    let mut de = ValueDeserializer::new(ReferenceData::empty(), &[], &[]);
    let err = de.parse_value().unwrap_err();
    assert!(matches!(err.cause, ErrorKind::Eof(0)));
}

#[test]
fn errors_carry_a_parse_trace() {
    // A list whose element is an invalid tag: the failure records the
    // enclosing list frame.
    const DATA: &[u8] = &[0x0B, 0x01, 0x00, 0x00, 0x00, 0x09, 0x00, 0x00, 0x00, 0xFF];
    let mut de = ValueDeserializer::new(ReferenceData::empty(), &[], DATA);
    let err = de.parse_value().unwrap_err();
    assert!(matches!(err.cause, ErrorKind::InvalidParamId(0xFF)));
    assert!(!err.position_stack.is_empty());
}
