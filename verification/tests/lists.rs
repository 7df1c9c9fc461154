use prc::de::{ReferenceData, ValueDeserializer};

const DATA: &[u8] = &[
    0x0B, // Param ID (list)
    0x04, 0x00, 0x00, 0x00, // Size of the list
    0x16, 0x00, 0x00, 0x00, // Offset of the first
    0x1B, 0x00, 0x00, 0x00, // Offset of the second
    0x20, 0x00, 0x00, 0x00, // Offset of the third
    0x25, 0x00, 0x00, 0x00, 0x00, // Offset of the fourth
    0x06, 0x06, 0x00, 0x00, 0x00, // First value (6i32)
    0x06, 0x01, 0x00, 0x00, 0x00, // Second value (1i32)
    0x06, 0x0C, 0x00, 0x00, 0x00, // Third value (12i32)
    0x01, 0x01, // Fourth value (should be skipped)
    0x0B, // Param ID (list)
    0x03, 0x00, 0x00, 0x00, // Size of the list
    0x11, 0x00, 0x00, 0x00, // Offset of the first
    0x16, 0x00, 0x00, 0x00, // Offset of the second
    0x1B, 0x00, 0x00, 0x00, // Offset of the third
    0x06, 0x13, 0x00, 0x00, 0x00, // First value (19i32)
    0x06, 0x80, 0x00, 0x00, 0x00, // Second value (128i32)
    0x06, 0xFF, 0xFF, 0xFF, 0xFF, // Third value (-1i32)
];

#[test]
fn deserialize_list() {
    let mut de = ValueDeserializer::new(ReferenceData::empty(), &[], DATA);

    // Consume only the first three of four declared elements, as a
    // fixed-size target would.
    let mut first = [0i32; 3];
    let mut cursor = de.begin_list().unwrap();
    for slot in first.iter_mut() {
        *slot = cursor
            .next_element(&mut de)
            .unwrap()
            .unwrap()
            .as_i32()
            .unwrap();
    }
    cursor.finish(&mut de).unwrap();
    assert_eq!(first, [6i32, 1i32, 12i32]);

    // The abandoned fourth element must have been skipped so that the
    // second array decodes right after it.
    let mut second = [0i32; 3];
    let mut cursor = de.begin_list().unwrap();
    for slot in second.iter_mut() {
        *slot = cursor
            .next_element(&mut de)
            .unwrap()
            .unwrap()
            .as_i32()
            .unwrap();
    }
    cursor.finish(&mut de).unwrap();
    assert_eq!(second, [19i32, 128i32, -1i32]);
}

#[test]
fn full_parse_matches_partial_consumption() {
    // Parsing the whole first list moves the cursor to the same place the
    // partial consumption above reaches: the second list parses equal.
    let mut de = ValueDeserializer::new(ReferenceData::empty(), &[], DATA);
    let first = de.parse_value().unwrap();
    let list = first.as_list().unwrap();
    assert_eq!(list.len(), 4);
    assert_eq!(list[3].as_bool().unwrap(), true);
    let second = de.parse_value().unwrap();
    let list2 = second.as_list().unwrap();
    assert_eq!(list2[0].as_i32().unwrap(), 19);
    assert_eq!(list2[1].as_i32().unwrap(), 128);
    assert_eq!(list2[2].as_i32().unwrap(), -1);
}
