use delta_encode::builder::{build_float, build_struct, delta_encode, Field, Shape, Ty, TypeDef};
use delta_encode::codec::{check_value, decode, encode};
use delta_encode::hints::{GenFlags, Hint};
use delta_encode::schema::{Prim, Schema, Value};
use delta_encode::stream::DeltaError;

fn field(ty: &str, hints: Vec<Hint>) -> Field {
    Field { ty: Ty::Path(ty.to_string()), hints }
}

fn no_flags() -> GenFlags {
    GenFlags { complete: false, always: false, diff: false, fixed: false, default: false }
}

fn one_field(ty: &str, hints: Vec<Hint>) -> Schema {
    build_struct(no_flags(), vec![field(ty, hints)]).unwrap()
}

#[test]
fn value_out_of_range_for_width() {
    let s = one_field("i32", vec![Hint::Bits(4)]);
    let v = Value::Items(vec![Value::Int(100)]);
    assert!(matches!(encode(&s, &v, None), Err(DeltaError::ValueOutOfRange)));
}

#[test]
fn value_out_of_range_for_options() {
    let s = one_field("u32", vec![Hint::SubBits(vec![2, 3])]);
    let v = Value::Items(vec![Value::Int(8)]);
    assert!(matches!(encode(&s, &v, None), Err(DeltaError::ValueOutOfRange)));
    let fits = Value::Items(vec![Value::Int(7)]);
    assert_eq!(encode(&s, &fits, None).unwrap(), vec![true, false, true, true, true]);
}

#[test]
fn missing_prior_state() {
    let s = one_field("u8", vec![]);
    assert!(matches!(decode(&s, None, vec![false]), Err(DeltaError::MissingPriorState)));
    let c = delta_encode(TypeDef {
        hints: vec![Hint::Complete],
        shape: Shape::Struct(vec![field("u8", vec![])]),
    })
    .unwrap();
    assert!(matches!(decode(&c, None, vec![false]), Err(DeltaError::MissingPriorState)));
}

#[test]
fn malformed_selector() {
    let s = one_field("u8", vec![Hint::SubBits(vec![4, 8])]);
    assert!(matches!(decode(&s, None, vec![true, true]), Err(DeltaError::MalformedStream)));
}

#[test]
fn stream_too_short() {
    let s = one_field("u16", vec![]);
    assert!(matches!(decode(&s, None, vec![]), Err(DeltaError::IoFailure)));
    assert!(matches!(decode(&s, None, vec![true, false]), Err(DeltaError::IoFailure)));
}

#[test]
fn fractional_width_mismatch() {
    let r = build_float(false, no_flags(), &vec![Hint::Fixed, Hint::FixedSubBits(vec![(6, 4), (-1, -1), (10, 3)])]);
    assert!(matches!(r, Err(DeltaError::FractionalWidthMismatch)));
}

#[test]
fn invalid_hints() {
    assert!(matches!(Prim::U32.build(no_flags(), &vec![Hint::Bits(40)]), Err(DeltaError::InvalidHint)));
    assert!(matches!(Prim::U8.build(no_flags(), &vec![Hint::SubBits(vec![4, 0])]), Err(DeltaError::InvalidHint)));
    assert!(matches!(build_float(false, no_flags(), &vec![Hint::Fixed]), Err(DeltaError::InvalidHint)));
    let unknown = build_struct(no_flags(), vec![field("char", vec![])]);
    assert!(matches!(unknown, Err(DeltaError::InvalidHint)));
    let empty_enum = delta_encode(TypeDef { hints: vec![], shape: Shape::Enum(vec![]) });
    assert!(matches!(empty_enum, Err(DeltaError::InvalidHint)));
}

#[test]
fn ill_typed_values_are_caught() {
    let s = one_field("u8", vec![]);
    assert!(!check_value(&s, &Value::Items(vec![Value::Int(256)])));
    assert!(!check_value(&s, &Value::Items(vec![Value::Bool(true)])));
    assert!(!check_value(&s, &Value::Items(vec![])));
    assert!(check_value(&s, &Value::Items(vec![Value::Int(255)])));
}
