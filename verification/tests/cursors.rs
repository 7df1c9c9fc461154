use prc::de::{ErrorKind, ReferenceData, ValueDeserializer};
use prc::{Hash40, ParamId};

#[test]
fn peek_does_not_consume() {
    const DATA: &[u8] = &[0x06, 0x05, 0x00, 0x00, 0x00];
    let mut de = ValueDeserializer::new(ReferenceData::empty(), &[], DATA);
    assert_eq!(de.peek_param_id().unwrap(), ParamId::I32);
    assert_eq!(de.peek_param_id().unwrap(), ParamId::I32);
    assert_eq!(de.parse_value().unwrap().as_i32().unwrap(), 5);
}

#[test]
fn invalid_tag_is_reported() {
    const DATA: &[u8] = &[0x0D, 0x00];
    let mut de = ValueDeserializer::new(ReferenceData::empty(), &[], DATA);
    let err = de.parse_value().unwrap_err();
    assert!(matches!(err.cause, ErrorKind::InvalidParamId(0x0D)));
}

#[test]
fn map_values_follow_their_keys() {
    // A map of two entries; the blob holds its header.
    let blob: &[u8] = &[
        0x00, 0x00, 0x00, 0x00, // key index 0
        0x09, 0x00, 0x00, 0x00, // value offset 9
        0x01, 0x00, 0x00, 0x00, // key index 1
        0x0B, 0x00, 0x00, 0x00, // value offset 11
    ];
    const DATA: &[u8] = &[
        0x0C, // Param ID (map)
        0x02, 0x00, 0x00, 0x00, // two entries
        0x00, 0x00, 0x00, 0x00, // header at blob offset 0
        0x03, 0x11, // first value (17u8)
        0x03, 0x2A, // second value (42u8)
    ];
    let hashes = [Hash40(111), Hash40(222)];
    let mut de = ValueDeserializer::new(ReferenceData::mock(blob), &hashes, DATA);
    let mut cursor = de.begin_map().unwrap();

    // Requesting a value before any key is a protocol error.
    assert!(cursor.next_value(&mut de).is_err());

    let k1 = cursor.next_key().unwrap();
    assert_eq!(k1, Hash40(111));
    let v1 = cursor.next_value(&mut de).unwrap();
    assert_eq!(v1.as_u8().unwrap(), 17);

    let k2 = cursor.next_key().unwrap();
    assert_eq!(k2, Hash40(222));
    let v2 = cursor.next_value(&mut de).unwrap();
    assert_eq!(v2.as_u8().unwrap(), 42);

    assert!(cursor.next_key().is_none());
    cursor.finish(&mut de).unwrap();
}

#[test]
fn map_header_out_of_bounds() {
    const DATA: &[u8] = &[
        0x0C, // Param ID (map)
        0x02, 0x00, 0x00, 0x00, // two entries
        0x00, 0x00, 0x00, 0x00, // header at blob offset 0, but blob too short
    ];
    let mut de = ValueDeserializer::new(ReferenceData::mock(&[0u8; 8]), &[], DATA);
    let err = de.parse_value().unwrap_err();
    assert!(matches!(
        err.cause,
        ErrorKind::MapRefOutOfBounds {
            start: 0,
            num_elements: 2
        }
    ));
}
