use delta_encode::codec::{decode, encode};
use delta_encode::schema::{IntCodec, Prim, Schema, Value};

fn int_field(prim: Prim, width: u8) -> Schema {
    Schema::Int(IntCodec { prim, width, options: vec![], always: false, diff: false })
}

#[test]
fn plain_int_round_trip() {
    let s = int_field(Prim::I32, 4);
    let v = Value::Int(-3);
    let bits = encode(&s, &v, None).unwrap();
    assert_eq!(bits, vec![true, true, true, false, true]);
    let back = decode(&s, None, bits).unwrap();
    assert!(matches!(back, Value::Int(-3)));
}
