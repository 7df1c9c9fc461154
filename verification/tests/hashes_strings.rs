use prc::de::{ErrorKind, ReferenceData, ValueDeserializer};
use prc::Hash40;

const FIRST: &[u8] = &[0x09, 0x00, 0x00, 0x00, 0x00];
const SECOND: &[u8] = &[0x09, 0x01, 0x00, 0x00, 0x00];

fn foo() -> Hash40 {
    Hash40(hash40::hash40("foo").0)
}

fn bar() -> Hash40 {
    Hash40(hash40::hash40("bar").0)
}

#[test]
fn deserialize_hash() {
    let hashes = [foo(), bar()];
    let mut de = ValueDeserializer::new(ReferenceData::empty(), &hashes, FIRST);
    assert_eq!(de.parse_value().unwrap().as_hash().unwrap(), foo());
    let mut de = ValueDeserializer::new(ReferenceData::empty(), &hashes, SECOND);
    assert_eq!(de.parse_value().unwrap().as_hash().unwrap(), bar());
}

#[test]
fn deserialize_hash_as_u64() {
    let hashes = [foo(), bar()];
    let mut de = ValueDeserializer::new(ReferenceData::empty(), &hashes, FIRST);
    assert_eq!(de.parse_value().unwrap().as_hash().unwrap().0, foo().0);
    let mut de = ValueDeserializer::new(ReferenceData::empty(), &hashes, SECOND);
    assert_eq!(de.parse_value().unwrap().as_hash().unwrap().0, bar().0);
}

#[test]
fn hash_index_out_of_bounds() {
    let hashes = [foo()];
    let mut de = ValueDeserializer::new(ReferenceData::empty(), &hashes, SECOND);
    let err = de.parse_value().unwrap_err();
    assert!(matches!(err.cause, ErrorKind::HashOutOfBounds(1)));
}

#[test]
fn deserialize_string() {
    const FIRST: &[u8] = &[0x0A, 0x00, 0x00, 0x00, 0x00]; // Should pass: foo!
    const SECOND: &[u8] = &[0x0A, 0x05, 0x00, 0x00, 0x00]; // Should pass: bar...
    const THIRD: &[u8] = &[0x0A, 0x0C, 0x00, 0x00, 0x00]; // Should fail: no null term
    const FOURTH: &[u8] = &[0x0A, 0x00, 0x00, 0x00, 0x00]; // Should fail: invalid ascii

    const REFERENCE_BYTES: &[u8] = b"foo!\0bar...\0baz???";
    const REF_BYTES_4: &[u8] = &[b'f', b'a', b'z', 182, b'\0'];

    let mut de = ValueDeserializer::new(ReferenceData::mock(REFERENCE_BYTES), &[], FIRST);
    assert_eq!(de.parse_value().unwrap().as_str().unwrap(), "foo!");

    let mut de = ValueDeserializer::new(ReferenceData::mock(REFERENCE_BYTES), &[], SECOND);
    assert_eq!(de.parse_value().unwrap().as_str().unwrap(), "bar...");

    let mut de = ValueDeserializer::new(ReferenceData::mock(REFERENCE_BYTES), &[], THIRD);
    assert!(de.parse_value().is_err());

    let mut de = ValueDeserializer::new(ReferenceData::mock(REF_BYTES_4), &[], FOURTH);
    assert!(de.parse_value().is_err());
}

#[test]
fn string_errors_carry_positions() {
    // An offset at or past the blob's length fails with the out-of-bounds
    // error and the raw offset.
    const PAST_END: &[u8] = &[0x0A, 0x09, 0x00, 0x00, 0x00];
    let mut de = ValueDeserializer::new(ReferenceData::mock(b"foo!\0bar\0"), &[], PAST_END);
    let err = de.parse_value().unwrap_err();
    assert!(matches!(err.cause, ErrorKind::StringRefOutOfBounds(9)));

    // A non-ASCII byte before the terminator reports its exact position.
    const AT_ZERO: &[u8] = &[0x0A, 0x00, 0x00, 0x00, 0x00];
    let blob: &[u8] = &[b'f', b'a', b'z', 182, b'\0'];
    let mut de = ValueDeserializer::new(ReferenceData::mock(blob), &[], AT_ZERO);
    let err = de.parse_value().unwrap_err();
    assert!(matches!(err.cause, ErrorKind::StringNotAscii(3)));
}
