use prc::{Hash40, Value};

#[test]
fn narrowing_merge_skips_out_of_range() {
    let mut target = Value::I8(7);
    target.merge(&Value::I32(1000));
    assert_eq!(target, Value::I8(7));
}

#[test]
fn narrowing_merge_applies_in_range() {
    let mut target = Value::I8(7);
    target.merge(&Value::I32(5));
    assert_eq!(target, Value::I8(5));
}

#[test]
fn merge_recurses_into_lists_pairwise() {
    let mut target = Value::List(vec![Value::I32(1), Value::I32(2), Value::I32(3)]);
    let patch = Value::List(vec![Value::I32(10), Value::I32(20)]);
    target.merge(&patch);
    assert_eq!(
        target,
        Value::List(vec![Value::I32(10), Value::I32(20), Value::I32(3)])
    );
}

#[test]
fn merge_recurses_into_maps_by_key() {
    let a = Hash40(1);
    let b = Hash40(2);
    let c = Hash40(3);
    let mut target = Value::Dict(vec![(a, Value::U8(1)), (b, Value::U8(2))]);
    let patch = Value::Dict(vec![(b, Value::U8(20)), (c, Value::U8(30))]);
    target.merge(&patch);
    // Key `b` is patched, key `a` untouched, key `c` (absent in the target)
    // ignored.
    assert_eq!(
        target,
        Value::Dict(vec![(a, Value::U8(1)), (b, Value::U8(20))])
    );
}

#[test]
fn merge_skips_mismatched_kinds() {
    let mut target = Value::String("keep".to_string());
    target.merge(&Value::I32(5));
    assert_eq!(target, Value::String("keep".to_string()));
    let mut target = Value::Bool(false);
    target.merge(&Value::Bool(true));
    assert_eq!(target, Value::Bool(true));
}

#[test]
fn unsigned_targets_refuse_negative_sources() {
    // A negative source is never narrowed into an unsigned target: the
    // conversion fails and the merge is skipped rather than sign-extending.
    assert_eq!(Value::I8(-1).as_u16(), None);
    assert_eq!(Value::I8(-1).as_u32(), None);
    assert_eq!(Value::I16(-1).as_u32(), None);
    assert_eq!(Value::I8(5).as_u16(), Some(5));
    assert_eq!(Value::I8(5).as_u32(), Some(5));
    assert_eq!(Value::I16(300).as_u32(), Some(300));

    let mut target = Value::U16(7);
    target.merge(&Value::I8(-1));
    assert_eq!(target, Value::U16(7));

    let mut target = Value::U32(9);
    target.merge(&Value::I16(-2));
    assert_eq!(target, Value::U32(9));

    let mut target = Value::U16(7);
    target.merge(&Value::I8(3));
    assert_eq!(target, Value::U16(3));
}

#[test]
fn getters_narrow_exactly() {
    assert_eq!(Value::U32(0x7f).as_i8(), Some(0x7f));
    assert_eq!(Value::U32(0x80).as_i8(), None);
    assert_eq!(Value::I8(-1).as_u8(), None);
    assert_eq!(Value::I32(-40000).as_i16(), None);
    assert_eq!(Value::I32(-30000).as_i16(), Some(-30000));
    assert_eq!(Value::U16(1234).as_i32(), Some(1234));
    assert_eq!(Value::I32(-1).as_u32(), None);
    assert_eq!(Value::Bool(true).as_i8(), None);
}
