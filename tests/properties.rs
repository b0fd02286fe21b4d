use delta_encode::builder::{build_float, build_struct, delta_encode, Field, Shape, Ty, TypeDef, VariantDef};
use delta_encode::codec::{decode, decode_value, encode};
use delta_encode::hints::{decode_flags, GenFlags, Hint};
use delta_encode::prim::selector_bits;
use delta_encode::schema::{IntCodec, Prim, Schema, Value};
use delta_encode::stream::{BitReader, BitWriter, DeltaError};
use delta_encode::values::same_value;

fn field(ty: &str, hints: Vec<Hint>) -> Field {
    Field { ty: Ty::Path(ty.to_string()), hints }
}

fn no_flags() -> GenFlags {
    GenFlags { complete: false, always: false, diff: false, fixed: false, default: false }
}

fn quiet_record() -> Schema {
    build_struct(
        no_flags(),
        vec![
            field("i32", vec![Hint::Bits(12)]),
            field("u16", vec![Hint::SubBits(vec![4, 8])]),
            field("i64", vec![Hint::Diff, Hint::SubBits(vec![3, 20])]),
            Field { ty: Ty::Array(Box::new(Ty::Path("u8".to_string())), 3), hints: vec![] },
            Field { ty: Ty::List(Box::new(Ty::Path("u8".to_string()))), hints: vec![] },
        ],
    )
    .unwrap()
}

fn quiet_value() -> Value {
    Value::Items(vec![
        Value::Int(-300),
        Value::Int(200),
        Value::Int(-70000),
        Value::Items(vec![Value::Int(1), Value::Int(2), Value::Int(3)]),
        Value::Items(vec![Value::Int(9)]),
    ])
}

#[test]
fn unchanged_value_encodes_to_zeros() {
    let s = quiet_record();
    let v = quiet_value();
    let bits = encode(&s, &v, Some(&v)).unwrap();
    assert_eq!(bits, vec![false, false, false, false, false, false, false, false, false]);
    let back = decode(&s, Some(&v), bits).unwrap();
    assert!(same_value(&back, &v));
}

#[test]
fn encoding_is_deterministic() {
    let s = quiet_record();
    let v = quiet_value();
    let first = encode(&s, &v, None).unwrap();
    let second = encode(&s, &v, None).unwrap();
    assert_eq!(first, second);
}

#[test]
fn decode_reads_exactly_what_was_written() {
    let s = quiet_record();
    let v = quiet_value();
    let mut bits = encode(&s, &v, None).unwrap();
    let n = bits.len();
    bits.extend([true, false, true]);
    let mut r = BitReader::new(bits);
    let back = decode_value(&s, None, &mut r).unwrap();
    assert!(same_value(&back, &v));
    assert_eq!(r.pos, n);
}

#[test]
fn inverse_with_prior_on_changed_values() {
    let s = quiet_record();
    let p = quiet_value();
    let v = Value::Items(vec![
        Value::Int(5),
        Value::Int(7),
        Value::Int(-69999),
        Value::Items(vec![Value::Int(1), Value::Int(4), Value::Int(3)]),
        Value::Items(vec![Value::Int(9), Value::Int(10)]),
    ]);
    let bits = encode(&s, &v, Some(&p)).unwrap();
    let back = decode(&s, Some(&p), bits).unwrap();
    assert!(same_value(&back, &v));
}

#[test]
fn variant_selector_comes_first() {
    let s = delta_encode(TypeDef {
        hints: vec![Hint::Complete],
        shape: Shape::Enum(vec![
            VariantDef { hints: vec![], fields: vec![] },
            VariantDef { hints: vec![], fields: vec![field("u8", vec![])] },
            VariantDef { hints: vec![], fields: vec![] },
        ]),
    })
    .unwrap();
    let v = Value::Variant(2, Box::new(Value::Items(vec![])));
    assert_eq!(encode(&s, &v, None).unwrap(), vec![true, true, false]);
    assert_eq!(encode(&s, &v, Some(&v)).unwrap(), vec![false]);
    let w = Value::Variant(1, Box::new(Value::Items(vec![Value::Int(3)])));
    let bits = encode(&s, &w, Some(&v)).unwrap();
    assert_eq!(bits[..3].to_vec(), vec![true, false, true]);
    let back = decode(&s, Some(&v), bits).unwrap();
    assert!(same_value(&back, &w));
}

#[test]
fn single_variant_union_has_no_selector() {
    let s = delta_encode(TypeDef {
        hints: vec![],
        shape: Shape::Enum(vec![VariantDef { hints: vec![], fields: vec![field("bool", vec![])] }]),
    })
    .unwrap();
    let v = Value::Variant(0, Box::new(Value::Items(vec![Value::Bool(true)])));
    assert_eq!(encode(&s, &v, None).unwrap(), vec![true]);
}

#[test]
fn option_and_default_fields() {
    let s = build_struct(
        no_flags(),
        vec![
            Field { ty: Ty::Opt(Box::new(Ty::Path("u8".to_string()))), hints: vec![] },
            field("u32", vec![Hint::Default]),
            Field { ty: Ty::AlwaysVec(Box::new(Ty::Path("bool".to_string()))), hints: vec![] },
        ],
    )
    .unwrap();
    let v = Value::Items(vec![
        Value::Opt(Some(Box::new(Value::Int(5)))),
        Value::Int(77),
        Value::Items(vec![Value::Bool(true)]),
    ]);
    let bits = encode(&s, &v, None).unwrap();
    let mut expected = vec![true, true, false, false, false, false, false, true, false, true];
    expected.extend([false, false, false, false, false, true, true]);
    expected.push(true);
    assert_eq!(bits, expected);
    let back = decode(&s, None, bits).unwrap();
    let want = Value::Items(vec![
        Value::Opt(Some(Box::new(Value::Int(5)))),
        Value::Int(0),
        Value::Items(vec![Value::Bool(true)]),
    ]);
    assert!(same_value(&back, &want));
}

#[test]
fn list_against_shorter_prior() {
    let s = build_struct(
        no_flags(),
        vec![Field { ty: Ty::List(Box::new(Ty::Path("i16".to_string()))), hints: vec![] }],
    )
    .unwrap();
    let p = Value::Items(vec![Value::Items(vec![Value::Int(1)])]);
    let v = Value::Items(vec![Value::Items(vec![Value::Int(1), Value::Int(-2)])]);
    let bits = encode(&s, &v, Some(&p)).unwrap();
    assert_eq!(bits[..9].to_vec(), vec![true, false, false, false, false, true, false, true, false]);
    assert_eq!(bits.len(), 1 + 8 + 1 + 17);
    let back = decode(&s, Some(&p), bits).unwrap();
    assert!(same_value(&back, &v));
}

#[test]
fn prim_ranges() {
    assert_eq!(Prim::I8.range(8), (-128, 127));
    assert_eq!(Prim::I32.range(4), (-8, 7));
    assert_eq!(Prim::U16.range(5), (0, 31));
    assert_eq!(Prim::U64.range(64), (0, u64::MAX as i128));
    assert_eq!(Prim::I64.range(64), (i64::MIN as i128, i64::MAX as i128));
}

#[test]
fn prim_names() {
    assert_eq!(Prim::from_ident("u32"), Some(Prim::U32));
    assert_eq!(Prim::from_ident("i8"), Some(Prim::I8));
    assert_eq!(Prim::from_ident("bool"), Some(Prim::Bool));
    assert_eq!(Prim::from_ident("f32"), None);
    assert_eq!(Prim::from_ident("u128"), None);
}

#[test]
fn selector_widths() {
    assert_eq!(selector_bits(0), 0);
    assert_eq!(selector_bits(1), 0);
    assert_eq!(selector_bits(2), 1);
    assert_eq!(selector_bits(4), 2);
    assert_eq!(selector_bits(5), 3);
    assert_eq!(selector_bits(256), 8);
}

#[test]
fn flags_from_hints() {
    let f = decode_flags(&vec![Hint::Always, Hint::Bits(3), Hint::Diff]);
    assert!(f.always && f.diff && !f.complete && !f.fixed && !f.default);
    let g = f.union(GenFlags { complete: true, always: false, diff: false, fixed: false, default: false });
    assert!(g.complete && g.always && g.diff);
}

#[test]
fn prim_build_takes_last_width_and_all_options() {
    let s = Prim::U32
        .build(no_flags(), &vec![Hint::Bits(20), Hint::SubBits(vec![3]), Hint::Bits(9), Hint::SubBits(vec![7, 12])])
        .unwrap();
    match s {
        Schema::Int(c) => {
            assert_eq!(c.width, 9);
            assert_eq!(c.options, vec![3, 7, 12]);
            assert!(!c.always && !c.diff);
        },
        _ => panic!("not an integer"),
    }
    assert!(matches!(Prim::Bool.build(no_flags(), &vec![Hint::Bits(70)]), Ok(Schema::Bool)));
}

#[test]
fn signed_writes_and_reads() {
    let mut w = BitWriter::new();
    w.write_signed(-1, 3);
    w.write_signed(i64::MIN, 64);
    w.write_unsigned(5, 4);
    let bits = w.finish();
    assert_eq!(bits[..3].to_vec(), vec![true, true, true]);
    let mut r = BitReader::new(bits);
    assert_eq!(r.read_signed(3), Ok(-1));
    assert_eq!(r.read_signed(64), Ok(i64::MIN));
    assert_eq!(r.read_unsigned(4), Ok(5));
    assert_eq!(r.read_bool(), Err(DeltaError::IoFailure));
}

#[test]
fn float_builder_modes() {
    let raw = build_float(false, no_flags(), &vec![Hint::FixedBits(6, 4)]).unwrap();
    assert!(matches!(raw, Schema::Float(ref c) if matches!(c.mode, delta_encode::schema::FloatMode::Raw)));
    let fixed = build_float(true, no_flags(), &vec![Hint::Fixed, Hint::FixedSubBits(vec![(-1, -1), (2, 3), (5, 3)])])
        .unwrap();
    match fixed {
        Schema::Float(c) => match c.mode {
            delta_encode::schema::FloatMode::FixedSub { fract, slots } => {
                assert_eq!(fract, 3);
                assert_eq!(slots, vec![None, Some(5), Some(8)]);
            },
            _ => panic!("not fixed"),
        },
        _ => panic!("not a float"),
    }
}

#[test]
fn int_codec_by_hand() {
    let s = Schema::Int(IntCodec { prim: Prim::U8, width: 8, options: vec![2, 8], always: true, diff: false });
    let bits = encode(&s, &Value::Int(3), None).unwrap();
    assert_eq!(bits, vec![false, true, true]);
}

#[test]
fn default_field_ignores_other_hints() {
    let s = build_struct(no_flags(), vec![field("u8", vec![Hint::Bits(9), Hint::Default]), field("u8", vec![])]).unwrap();
    match &s {
        Schema::Record { fields, .. } => assert!(matches!(&fields[0], Schema::Default(_))),
        _ => panic!("not a record"),
    }
    let v = Value::Items(vec![Value::Int(200), Value::Int(7)]);
    let bits = encode(&s, &v, None).unwrap();
    assert_eq!(bits, vec![true, false, false, false, false, false, true, true, true]);
    let back = decode(&s, Some(&v), bits).unwrap();
    assert!(same_value(&back, &Value::Items(vec![Value::Int(0), Value::Int(7)])));
}

#[test]
fn fields_get_type_flags_and_own_hints() {
    let s = build_struct(
        GenFlags { complete: false, always: true, diff: false, fixed: false, default: false },
        vec![
            field("i16", vec![Hint::Bits(5), Hint::Diff]),
            Field { ty: Ty::Array(Box::new(Ty::Path("u32".to_string())), 2), hints: vec![Hint::SubBits(vec![3, 9])] },
        ],
    )
    .unwrap();
    match &s {
        Schema::Record { fields, .. } => {
            match &fields[0] {
                Schema::Int(c) => assert!(c.width == 5 && c.always && c.diff && c.prim == Prim::I16),
                _ => panic!("not an integer"),
            }
            match &fields[1] {
                Schema::Array { len, elem } => match &**elem {
                    Schema::Int(c) => assert!(*len == 2 && c.options == vec![3, 9] && c.always && !c.diff),
                    _ => panic!("not an integer"),
                },
                _ => panic!("not an array"),
            }
        },
        _ => panic!("not a record"),
    }
}

#[test]
fn shared_wrapper_is_transparent() {
    let s = build_struct(no_flags(), vec![Field { ty: Ty::Shared(Box::new(Ty::Path("u8".to_string()))), hints: vec![Hint::Bits(3)] }]).unwrap();
    let v = Value::Items(vec![Value::Int(5)]);
    assert_eq!(encode(&s, &v, None).unwrap(), vec![true, true, false, true]);
}
