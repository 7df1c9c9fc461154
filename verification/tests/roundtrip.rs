use prc::de::ErrorKind;
use prc::ser::Error as SerError;
use prc::{from_slice, to_vec, Hash40, Value};

fn sample_tree() -> Value {
    Value::Dict(vec![
        (
            Hash40(hash40::hash40("ints").0),
            Value::List(vec![Value::I32(6), Value::I8(-3), Value::U16(700)]),
        ),
        (
            Hash40(hash40::hash40("name").0),
            Value::String("fighter".to_string()),
        ),
        (Hash40(hash40::hash40("enabled").0), Value::Bool(true)),
        (
            Hash40(hash40::hash40("scale").0),
            Value::F32(1.25f32.to_bits()),
        ),
        (
            Hash40(hash40::hash40("kind").0),
            Value::Hash(Hash40(hash40::hash40("mario").0)),
        ),
        (
            Hash40(hash40::hash40("alts").0),
            Value::List(vec![
                Value::Dict(vec![
                    (Hash40(hash40::hash40("id").0), Value::U8(0)),
                    (
                        Hash40(hash40::hash40("label").0),
                        Value::String("default".to_string()),
                    ),
                ]),
                Value::Dict(vec![
                    (Hash40(hash40::hash40("id").0), Value::U8(1)),
                    (
                        Hash40(hash40::hash40("label").0),
                        Value::String("classic".to_string()),
                    ),
                ]),
            ]),
        ),
    ])
}

#[test]
fn round_trip_preserves_structure() {
    let v = sample_tree();
    let bytes = to_vec(&v).unwrap();
    let back = from_slice(&bytes).unwrap();
    assert_eq!(back, v);
}

#[test]
fn re_encode_is_byte_identical() {
    let v = sample_tree();
    let bytes = to_vec(&v).unwrap();
    let back = from_slice(&bytes).unwrap();
    let bytes2 = to_vec(&back).unwrap();
    assert_eq!(bytes, bytes2);
}

#[test]
fn document_header_layout() {
    let v = Value::I32(432143212);
    let bytes = to_vec(&v).unwrap();
    assert_eq!(&bytes[0..8], b"paracobn");
    // No hashes, no reference data, then the tagged value.
    assert_eq!(&bytes[8..12], &[0, 0, 0, 0]);
    assert_eq!(&bytes[12..16], &[0, 0, 0, 0]);
    assert_eq!(&bytes[16..], &[0x06, 0x6C, 0xFB, 0xC1, 0x19]);
}

#[test]
fn string_contents_are_deduplicated() {
    let v = Value::List(vec![
        Value::String("shared".to_string()),
        Value::String("shared".to_string()),
    ]);
    let bytes = to_vec(&v).unwrap();
    // Exactly one copy of the content in the whole document.
    let needle = b"shared\0";
    let count = bytes
        .windows(needle.len())
        .filter(|w| w == needle)
        .count();
    assert_eq!(count, 1);
    // Both elements reference the same blob offset.
    let refs = &bytes[16 + 7..];
    let first = &refs[5 + 8 + 1..5 + 8 + 5];
    let second = &refs[5 + 8 + 5 + 1..5 + 8 + 5 + 5];
    assert_eq!(first, second);
}

#[test]
fn identical_shapes_share_one_header() {
    let k1 = Hash40(hash40::hash40("x").0);
    let k2 = Hash40(hash40::hash40("y").0);
    let m1 = Value::Dict(vec![(k1, Value::I32(1)), (k2, Value::I32(2))]);
    let m2 = Value::Dict(vec![(k1, Value::I32(3)), (k2, Value::I32(4))]);
    let v = Value::List(vec![m1, m2]);
    let bytes = to_vec(&v).unwrap();
    // Two keys in the hash table, one shared header of two slots in the blob.
    assert_eq!(&bytes[8..12], &[16, 0, 0, 0]);
    assert_eq!(&bytes[12..16], &[16, 0, 0, 0]);
    // Both maps reference blob offset zero.
    let region = &bytes[16 + 16 + 16..];
    // list tag(1) count(4) offsets(8); each map takes 9 + 5 + 5 = 19 bytes.
    let first_ref = &region[13 + 5..13 + 9];
    let second_ref = &region[13 + 19 + 5..13 + 19 + 9];
    assert_eq!(first_ref, &[0, 0, 0, 0]);
    assert_eq!(first_ref, second_ref);
}

#[test]
fn malformed_values_are_refused() {
    let dup = Value::Dict(vec![
        (Hash40(7), Value::Bool(true)),
        (Hash40(7), Value::Bool(false)),
    ]);
    assert!(matches!(to_vec(&dup), Err(SerError::MalformedValue)));

    let non_ascii = Value::String("caf\u{e9}".to_string());
    assert!(matches!(to_vec(&non_ascii), Err(SerError::MalformedValue)));

    let embedded_nul = Value::String("a\0b".to_string());
    assert!(matches!(to_vec(&embedded_nul), Err(SerError::MalformedValue)));
}

#[test]
fn bad_headers_are_typed_errors() {
    // Wrong magic.
    let err = from_slice(b"paracobX\0\0\0\0\0\0\0\0\x01\x01").unwrap_err();
    assert!(matches!(err.cause, ErrorKind::BadMagic));
    // Hash-table length that is not a multiple of 8.
    let mut doc = Vec::new();
    doc.extend_from_slice(b"paracobn");
    doc.extend_from_slice(&[7, 0, 0, 0]);
    doc.extend_from_slice(&[0, 0, 0, 0]);
    doc.extend_from_slice(&[0; 7]);
    doc.extend_from_slice(&[0x01, 0x01]);
    let err = from_slice(&doc).unwrap_err();
    assert!(matches!(err.cause, ErrorKind::BadHashTableLen(7)));
}
