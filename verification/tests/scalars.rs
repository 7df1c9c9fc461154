use prc::de::{ReferenceData, ValueDeserializer};
use prc::Value;

fn de_value(bytes: &[u8]) -> Value {
    let mut de = ValueDeserializer::new(ReferenceData::empty(), &[], bytes);
    de.parse_value().unwrap()
}

#[test]
fn deserialize_bool() {
    const FALSE: &[u8] = &[0x01, 0x00];
    assert_eq!(de_value(FALSE).as_bool().unwrap(), false);
    const TRUE: &[u8] = &[0x01, 0x01];
    assert_eq!(de_value(TRUE).as_bool().unwrap(), true);
}

#[test]
fn deserialize_i8() {
    const POSITIVE: &[u8] = &[0x02, 33];
    assert_eq!(de_value(POSITIVE).as_i8().unwrap(), 33);
    const NEGATIVE: &[u8] = &[0x02, 128];
    assert_eq!(de_value(NEGATIVE).as_i8().unwrap(), -128);
}

#[test]
fn deserialize_u8() {
    const DATA: &[u8] = &[0x03, 192];
    assert_eq!(de_value(DATA).as_u8().unwrap(), 192);
}

#[test]
fn deserialize_i16() {
    const POSITIVE: &[u8] = &[0x04, 0xF6, 0x3F];
    assert_eq!(de_value(POSITIVE).as_i16().unwrap(), 16374);
    const NEGATIVE: &[u8] = &[0x04, 0xE3, 0xF2];
    assert_eq!(de_value(NEGATIVE).as_i16().unwrap(), -3357);
}

#[test]
fn deserialize_u16() {
    const DATA: &[u8] = &[0x05, 0xA7, 0x9B];
    assert_eq!(de_value(DATA).as_u16().unwrap(), 39847);
}

#[test]
fn deserialize_i32() {
    const POSITIVE: &[u8] = &[0x06, 0x6C, 0xFB, 0xC1, 0x19];
    assert_eq!(de_value(POSITIVE).as_i32().unwrap(), 432143212);
    const NEGATIVE: &[u8] = &[0x06, 0x4F, 0xEE, 0xF5, 0xFD];
    assert_eq!(de_value(NEGATIVE).as_i32().unwrap(), -34214321);
}

#[test]
fn deserialize_u32() {
    const DATA: &[u8] = &[0x07, 0xDB, 0x29, 0x29, 0xC5];
    assert_eq!(de_value(DATA).as_u32().unwrap(), 3307809243);
}

#[test]
fn deserialize_f32() {
    const DATA: &[u8] = &[0x08, 0x00, 0x74, 0x56, 0x45];
    let bits = de_value(DATA).as_f32_bits().unwrap();
    assert_eq!(f32::from_bits(bits), 3431.25);
}
