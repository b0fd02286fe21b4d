use delta_encode::builder::{delta_encode, Field, Shape, Ty, TypeDef, VariantDef};
use delta_encode::codec::{check_value, decode, encode};
use delta_encode::hints::Hint;
use delta_encode::schema::{Schema, Value};
use delta_encode::values::same_value;

fn field(ty: &str, hints: Vec<Hint>) -> Field {
    Field { ty: Ty::Path(ty.to_string()), hints }
}

fn ival(x: i128) -> Value {
    Value::Int(x)
}

fn items(vs: Vec<Value>) -> Value {
    Value::Items(vs)
}

fn sub_test() -> Schema {
    delta_encode(TypeDef {
        hints: vec![Hint::Complete, Hint::Always],
        shape: Shape::Struct(vec![field("u8", vec![]), field("u16", vec![])]),
    })
    .unwrap()
}

fn tuple_schema() -> Schema {
    delta_encode(TypeDef { hints: vec![], shape: Shape::Tuple(vec![field("u8", vec![]), field("u8", vec![])]) })
        .unwrap()
}

fn testing_struct() -> Schema {
    delta_encode(TypeDef {
        hints: vec![],
        shape: Shape::Struct(vec![
            field("i32", vec![Hint::Bits(4)]),
            field("u32", vec![Hint::Bits(16)]),
            field("i8", vec![Hint::Always]),
            Field { ty: Ty::Nested(sub_test()), hints: vec![] },
            Field { ty: Ty::Nested(tuple_schema()), hints: vec![] },
            field("u32", vec![Hint::subbits_from_text("5, 8, 10, 16").unwrap()]),
            field("i32", vec![Hint::Diff, Hint::subbits_from_text("5, 8, 10, 16").unwrap()]),
            Field { ty: Ty::Array(Box::new(Ty::Path("i32".to_string())), 5), hints: vec![] },
        ]),
    })
    .unwrap()
}

fn testing_value(b: i128, c: i128, subbits: i128, diff: i128, array: [i128; 5]) -> Value {
    items(vec![
        ival(4),
        ival(b),
        ival(c),
        items(vec![ival(64), ival(31)]),
        items(vec![ival(1), ival(2)]),
        ival(subbits),
        ival(diff),
        items(array.iter().map(|x| ival(*x)).collect()),
    ])
}

fn testing_enum() -> Schema {
    let unit = |hints: Vec<Hint>| VariantDef { hints, fields: vec![] };
    delta_encode(TypeDef {
        hints: vec![],
        shape: Shape::Enum(vec![
            unit(vec![]),
            unit(vec![]),
            VariantDef {
                hints: vec![],
                fields: vec![field("i32", vec![]), field("u64", vec![]), field("u8", vec![Hint::Bits(3)])],
            },
            VariantDef {
                hints: vec![],
                fields: vec![
                    field("i32", vec![Hint::Bits(16)]),
                    field("u8", vec![Hint::Bits(2)]),
                    Field { ty: Ty::Nested(sub_test()), hints: vec![] },
                ],
            },
        ]),
    })
    .unwrap()
}

fn variant_d(a: i128) -> Value {
    Value::Variant(3, Box::new(items(vec![ival(a), ival(1), items(vec![ival(1), ival(2)])])))
}

fn bits_of(v: i64, n: u32) -> Vec<bool> {
    (0..n).rev().map(|k| (v >> k) & 1 == 1).collect()
}

#[test]
fn test_enum() {
    let s = testing_enum();
    let test_val = variant_d(6);
    assert!(check_value(&s, &test_val));
    let data = encode(&s, &test_val, None).unwrap();
    let decoded_val = decode(&s, None, data).unwrap();
    assert!(same_value(&decoded_val, &test_val));

    let changed = variant_d(3);
    let data = encode(&s, &changed, Some(&test_val)).unwrap();
    let decoded_val2 = decode(&s, Some(&decoded_val), data).unwrap();
    assert!(same_value(&decoded_val2, &changed));
}

#[test]
fn enum_keeps_variant_and_unchanged_frames() {
    let s = testing_enum();
    let data = encode(&s, &variant_d(3), Some(&variant_d(6))).unwrap();
    let mut expected = vec![true, true, true];
    expected.extend(bits_of(3, 16));
    expected.push(false);
    expected.push(false);
    assert_eq!(data, expected);
}

#[test]
fn simple() {
    let s = testing_struct();
    let test_val = testing_value(88, -4, 5, -20, [1, 2, 3, 4, 5]);
    assert!(check_value(&s, &test_val));
    let data = encode(&s, &test_val, None).unwrap();
    assert_eq!(data.len(), 257);
    let decoded_val = decode(&s, None, data).unwrap();
    assert!(same_value(&decoded_val, &test_val));

    let changed = testing_value(31, 54, 0xFFF, 40, [2, 3, 3, 4, 5]);
    let data = encode(&s, &changed, Some(&test_val)).unwrap();
    assert_eq!(data.len(), 128);
    let decoded_val2 = decode(&s, Some(&decoded_val), data).unwrap();
    assert!(same_value(&decoded_val2, &changed));
}

#[test]
fn simple_unchanged_fields_take_one_zero_bit() {
    let s = testing_struct();
    let first = testing_value(88, -4, 5, -20, [1, 2, 3, 4, 5]);
    let changed = testing_value(31, 54, 0xFFF, 40, [2, 3, 3, 4, 5]);
    let data = encode(&s, &changed, Some(&first)).unwrap();
    let mut head = vec![false, true];
    head.extend(bits_of(31, 16));
    head.extend(bits_of(54, 8));
    head.extend([false, false, false]);
    assert_eq!(data[..head.len()].to_vec(), head);
    let mut rest = vec![true, false, false];
    rest.extend(bits_of(0xFFF, 16));
    rest.extend([false, true, false]);
    rest.extend(bits_of(60, 8));
    assert_eq!(data[head.len()..head.len() + rest.len()].to_vec(), rest);
}

fn float_struct() -> Schema {
    delta_encode(TypeDef {
        hints: vec![],
        shape: Shape::Struct(vec![
            field("f32", vec![]),
            field("f32", vec![Hint::Fixed, Hint::bits_from_text("6:4").unwrap()]),
            field("f32", vec![Hint::Fixed, Hint::subbits_from_text("6:4,10:4,-1:-1").unwrap()]),
            field(
                "f32",
                vec![Hint::Fixed, Hint::Diff, Hint::subbits_from_text("4:5,6:5,10:5,16:5,-1:-1").unwrap()],
            ),
        ]),
    })
    .unwrap()
}

fn fixed_val(v: f32, fract: u32) -> Value {
    Value::Real { bits: v.to_bits() as u64, scaled: (v * (1u32 << fract) as f32) as i64 }
}

fn as_f32(v: &Value, fract: u32) -> f32 {
    match v {
        Value::Float(b) => f32::from_bits(*b as u32),
        Value::Real { bits, .. } => f32::from_bits(*bits as u32),
        Value::Fixed(k) => *k as f32 / (1u32 << fract) as f32,
        _ => panic!("not a float"),
    }
}

fn floats_value(full: f32, fixed: f32, fixed_sub: f32, fixed_sub_diff: f32) -> Value {
    items(vec![
        Value::Float(full.to_bits() as u64),
        fixed_val(fixed, 4),
        fixed_val(fixed_sub, 4),
        fixed_val(fixed_sub_diff, 5),
    ])
}

fn float_fields(v: &Value) -> Vec<f32> {
    match v {
        Value::Items(xs) => vec![as_f32(&xs[0], 0), as_f32(&xs[1], 4), as_f32(&xs[2], 4), as_f32(&xs[3], 5)],
        _ => panic!("not a record"),
    }
}

fn prior_of(v: &Value) -> Value {
    let fs = float_fields(v);
    floats_value(fs[0], fs[1], fs[2], fs[3])
}

#[test]
fn floats() {
    let s = float_struct();
    let test_val = floats_value(5.8, 3.2, 5.6, 18.5);
    let data = encode(&s, &test_val, None).unwrap();
    let decoded_val = decode(&s, None, data).unwrap();
    assert_eq!(float_fields(&decoded_val), vec![5.8, 3.1875, 5.5625, 18.5]);

    let changed = floats_value(5.8, 20.5, 50.6, 18.5);
    let data = encode(&s, &changed, Some(&test_val)).unwrap();
    let decoded_val2 = decode(&s, Some(&prior_of(&decoded_val)), data).unwrap();
    assert_eq!(float_fields(&decoded_val2), vec![5.8, 20.5, 50.5625, 18.5]);
}

fn one_float(hints: Vec<Hint>) -> Schema {
    delta_encode(TypeDef { hints: vec![], shape: Shape::Struct(vec![field("f32", hints)]) }).unwrap()
}

#[test]
fn fixed_bits_quantises() {
    let s = one_float(vec![Hint::Fixed, Hint::FixedBits(6, 4)]);
    let v = items(vec![fixed_val(3.2, 4)]);
    let data = encode(&s, &v, None).unwrap();
    let mut expected = vec![true];
    expected.extend(bits_of(51, 10));
    assert_eq!(data, expected);
    let back = decode(&s, None, data).unwrap();
    assert_eq!(float_fields_one(&back, 4), 3.1875);
}

fn float_fields_one(v: &Value, fract: u32) -> f32 {
    match v {
        Value::Items(xs) => as_f32(&xs[0], fract),
        _ => panic!("not a record"),
    }
}

#[test]
fn fixed_sub_takes_slot_then_escape() {
    let s = one_float(vec![Hint::Fixed, Hint::FixedSubBits(vec![(6, 4), (10, 4), (-1, -1)])]);
    let small = items(vec![fixed_val(5.6, 4)]);
    let data = encode(&s, &small, None).unwrap();
    let mut expected = vec![false, true];
    expected.extend(bits_of(89, 10));
    assert_eq!(data, expected);

    let mid = items(vec![fixed_val(50.6, 4)]);
    let data = encode(&s, &mid, Some(&small)).unwrap();
    assert_eq!(data[..2].to_vec(), vec![true, false]);
    assert_eq!(data.len(), 2 + 14);

    let big = items(vec![fixed_val(600.25, 4)]);
    let data = encode(&s, &big, Some(&small)).unwrap();
    let mut expected = vec![true, true];
    expected.extend(bits_of(600.25f32.to_bits() as i64, 32));
    assert_eq!(data, expected);
    let back = decode(&s, Some(&small), data).unwrap();
    assert_eq!(float_fields_one(&back, 4), 600.25);
}

#[test]
fn fixed_diff_zero_takes_smallest_slot() {
    let s = one_float(vec![Hint::Fixed, Hint::Diff, Hint::FixedSubBits(vec![(4, 5), (6, 5), (10, 5), (16, 5), (-1, -1)])]);
    let prior = items(vec![fixed_val(18.5, 5)]);
    let close = items(vec![fixed_val(18.51, 5)]);
    let data = encode(&s, &close, Some(&prior)).unwrap();
    let mut expected = vec![false, false, true];
    expected.extend(vec![false; 9]);
    assert_eq!(data, expected);
    let back = decode(&s, Some(&prior), data).unwrap();
    assert_eq!(float_fields_one(&back, 5), 18.5);

    let same = encode(&s, &prior, Some(&prior)).unwrap();
    assert_eq!(same, vec![false, false, false]);
}
