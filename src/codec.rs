//! Encoding and decoding, field by field, against the wire format.
use crate::bits::{lemma_two_pow_64, lemma_two_pow_mono, two_pow};
use crate::prim::{lemma_ceil_log2_covers, selector_bits};
use crate::schema::{FloatCodec, FloatMode, IntCodec, Prim, Schema, Val, Value};
use crate::stream::{
    BitReader, BitWriter, DeltaError,
};
use crate::values::{copy_value, items_view, lemma_items_view, opt_view, same_value};
use crate::wire::{
    first_fit, first_slot, float_dec, float_enc, int_bits, int_dec, int_enc, int_prior, num_states, prior_scaled, raw_of, read_int, scaled_of, enc, enc_items, items_of, item_prior, same_variant, opt_inner, schema_ok, wt, items_wt, part, parts_len, lemma_fields_ok, lemma_items_wt, dec, dec_items,
};
use crate::values::default_value;
use crate::wire::len_prefix;
use vstd::prelude::*;

verus! {

/// The writer went from `before` to `after` as the bits `e` say, or failed
/// because a value fits nowhere.
pub open spec fn wrote(
    e: Option<Seq<bool>>,
    r: Result<(), DeltaError>,
    before: Seq<bool>,
    after: Seq<bool>,
) -> bool {
    match e {
        Some(b) => r is Ok && after == before + b,
        None => r == Err::<(), DeltaError>(DeltaError::ValueOutOfRange),
    }
}

/// The reader gave what the wire format says, and stopped where it ends.
pub open spec fn read_back(d: Result<(Val, nat), DeltaError>, r: Result<Value, DeltaError>, end: nat) -> bool {
    match d {
        Ok((x, e)) => r is Ok && r->Ok_0@ == x && end == e,
        Err(err) => r is Err && r->Err_0 == err,
    }
}

fn write_int(w: &mut BitWriter, prim: Prim, t: i128, n: u8)
    requires
        prim.is_int(),
        1 <= n <= prim.native_bits(),
        prim.fits(t as int, n as nat),
    ensures
        final(w).bits@ == old(w).bits@ + int_bits(prim, t as int, n as nat),
{
    proof {
        lemma_two_pow_64();
        lemma_two_pow_mono(n as nat, 64);
        lemma_two_pow_mono((n - 1) as nat, 63);
    }
    if prim.signed() {
        w.write_signed(t as i64, n);
    } else {
        w.write_unsigned(t as u64, n);
    }
}

fn read_int_at(r: &mut BitReader, prim: Prim, n: u8) -> (res: Result<i128, DeltaError>)
    requires
        old(r).wf(),
        n <= 64,
    ensures
        final(r).wf(),
        final(r).bits@ == old(r).bits@,
        match read_int(prim, old(r).bits@, old(r).pos as nat, n as nat) {
            Some(x) => res is Ok && res->Ok_0 as int == x && final(r).pos == old(r).pos + n,
            None => res == Err::<i128, DeltaError>(DeltaError::IoFailure),
        },
{
    if prim.signed() {
        let x = r.read_signed(n)?;
        Ok(x as i128)
    } else {
        let x = r.read_unsigned(n)?;
        Ok(x as i128)
    }
}

/// Writes an integer field against its prior.
pub fn encode_int(c: &IntCodec, v: i128, p: Option<&Value>, w: &mut BitWriter) -> (r: Result<(), DeltaError>)
    requires
        c.wf(),
        c.prim.holds(v as int),
        int_prior(opt_view(p)) is Some ==> c.prim.holds(int_prior(opt_view(p))->0),
    ensures
        wrote(int_enc(*c, v as int, opt_view(p)), r, old(w).bits@, final(w).bits@),
{
    let prior: Option<i128> = match p {
        Some(Value::Int(b)) => Some(*b),
        _ => None,
    };
    assert(prior is Some ==> int_prior(opt_view(p)) == Some(prior->0 as int));
    assert(prior is None ==> int_prior(opt_view(p)) is None);
    let unchanged = !c.always && match prior {
        Some(b) => b == v,
        None => false,
    };
    assert(unchanged == (!c.always && opt_view(p) == Some(Val::Int(v as int))));
    let n = c.options.len();
    if n == 0 {
        let fits = c.prim.fits_in(v, c.width);
        if c.always {
            if !fits {
                return Err(DeltaError::ValueOutOfRange);
            }
            write_int(w, c.prim, v, c.width);
        } else if unchanged {
            w.write_bool(false);
            assert(w.bits@ =~= old(w).bits@ + seq![false]);
        } else {
            if !fits {
                return Err(DeltaError::ValueOutOfRange);
            }
            w.write_bool(true);
            write_int(w, c.prim, v, c.width);
            assert(w.bits@ =~= old(w).bits@ + (seq![true] + int_bits(c.prim, v as int, c.width as nat)));
        }
        Ok(())
    } else {
        let off: u64 = if c.always { 0 } else { 1 };
        let sw = selector_bits(n as u64 + off);
        if unchanged {
            w.write_unsigned(0, sw);
            return Ok(());
        }
        proof {
            crate::prim::lemma_holds_bounds(c.prim, v as int);
            if prior is Some {
                crate::prim::lemma_holds_bounds(c.prim, prior->0 as int);
            }
        }
        let t: i128 = match prior {
            Some(b) => if c.diff { v - b } else { v },
            None => v,
        };
        let mut i: usize = 0;
        while i < n && !c.prim.fits_in(t, c.options[i])
            invariant
                c.wf(),
                n == c.options.len(),
                0 <= i <= n,
                first_fit(c.options@, c.prim, t as int, 0) == first_fit(c.options@, c.prim, t as int, i as nat),
            decreases n - i,
        {
            i = i + 1;
        }
        if i == n {
            return Err(DeltaError::ValueOutOfRange);
        }
        proof {
            lemma_ceil_log2_covers(num_states(n as nat, c.always));
        }
        w.write_unsigned(i as u64 + off, sw);
        write_int(w, c.prim, t, c.options[i]);
        assert(w.bits@ =~= old(w).bits@ + (crate::bits::ubits((i + off) as nat, sw as nat) + int_bits(
            c.prim,
            t as int,
            c.options@[i as int] as nat,
        )));
        Ok(())
    }
}

/// The prior itself, where the stream says "unchanged".
fn keep_prior(p: Option<&Value>) -> (r: Result<Value, DeltaError>)
    ensures
        match opt_view(p) {
            Some(b) => r is Ok && r->Ok_0@ == b,
            None => r == Err::<Value, DeltaError>(DeltaError::MissingPriorState),
        },
{
    match p {
        Some(b) => Ok(copy_value(b)),
        None => Err(DeltaError::MissingPriorState),
    }
}

/// Reads an integer field against its prior.
pub fn decode_int(c: &IntCodec, p: Option<&Value>, r: &mut BitReader) -> (res: Result<Value, DeltaError>)
    requires
        c.wf(),
        old(r).wf(),
    ensures
        final(r).wf(),
        final(r).bits@ == old(r).bits@,
        read_back(int_dec(*c, opt_view(p), old(r).bits@, old(r).pos as nat), res, final(r).pos as nat),
{
    let n = c.options.len();
    if n == 0 {
        if c.always {
            let x = read_int_at(r, c.prim, c.width)?;
            return Ok(Value::Int(x));
        }
        let present = r.read_bool()?;
        if present {
            let x = read_int_at(r, c.prim, c.width)?;
            Ok(Value::Int(x))
        } else {
            keep_prior(p)
        }
    } else {
        let off: u64 = if c.always { 0 } else { 1 };
        let sw = selector_bits(n as u64 + off);
        let sel = r.read_unsigned(sw)?;
        if !c.always && sel == 0 {
            return keep_prior(p);
        }
        if sel - off >= n as u64 {
            return Err(DeltaError::MalformedStream);
        }
        let w = c.options[(sel - off) as usize];
        let x = read_int_at(r, c.prim, w)?;
        let ghost xi = x as int;
        proof {
            let bits = old(r).bits@;
            assert(read_int(c.prim, bits, (old(r).pos + sw) as nat, w as nat) == Some(xi));
            lemma_read_int_bounds(c.prim, bits, (old(r).pos + sw) as nat, w as nat);
        }
        if c.diff && p.is_some() {
            match p {
                Some(Value::Int(b)) => {
                    let b = *b;
                    if b < -0x1_0000_0000_0000_0000 || b > 0x1_0000_0000_0000_0000 {
                        proof {
                            if c.prim.holds(b + xi) {
                                crate::prim::lemma_holds_bounds(c.prim, b + xi);
                            }
                        }
                        return Err(DeltaError::MalformedStream);
                    }
                    let y = b + x;
                    if c.prim.fits_in(y, c.prim.bit_width()) {
                        Ok(Value::Int(y))
                    } else {
                        Err(DeltaError::MalformedStream)
                    }
                },
                _ => Err(DeltaError::MissingPriorState),
            }
        } else {
            Ok(Value::Int(x))
        }
    }
}

/// An integer read from between 1 and 64 bits lies in the range of its
/// signedness.
proof fn lemma_read_int_bounds(prim: Prim, bits: Seq<bool>, pos: nat, n: nat)
    requires
        1 <= n <= 64,
        read_int(prim, bits, pos, n) is Some,
    ensures
        prim.is_signed() ==> -0x8000_0000_0000_0000 <= read_int(prim, bits, pos, n)->0 < 0x8000_0000_0000_0000,
        !prim.is_signed() ==> 0 <= read_int(prim, bits, pos, n)->0 < 0x1_0000_0000_0000_0000,
{
    let seg = bits.subrange(pos as int, (pos + n) as int);
    lemma_two_pow_64();
    lemma_two_pow_mono(n, 64);
    lemma_two_pow_mono((n - 1) as nat, 63);
    crate::bits::lemma_bits_value_bound(seg);
    crate::bits::lemma_signed_value_bound(seg);
}

/// IEEE bits and scaled integer of a float value.
fn float_parts(v: &Value) -> (r: (u64, i64))
    ensures
        r.0 as nat == raw_of(v@),
        r.1 as int == scaled_of(v@),
{
    match v {
        Value::Float(b) => (*b, 0),
        Value::Real { bits, scaled } => (*bits, *scaled),
        Value::Fixed(k) => (0, *k),
        _ => (0, 0),
    }
}

/// Scaled integer of a prior float, where it has one.
fn prior_scaled_of(p: Option<&Value>) -> (r: Option<i64>)
    ensures
        match prior_scaled(opt_view(p)) {
            Some(b) => r == Some(b as i64) && fits_i64(b),
            None => r is None,
        },
{
    match p {
        Some(Value::Real { scaled, .. }) => Some(*scaled),
        Some(Value::Fixed(k)) => Some(*k),
        _ => None,
    }
}

pub open spec fn fits_i64(x: int) -> bool {
    -0x8000_0000_0000_0000 <= x < 0x8000_0000_0000_0000
}

/// Whether a fixed-point slot takes the scaled value `t`.
fn slot_takes(slot: Option<u8>, t: i128) -> (r: bool)
    requires
        slot is Some ==> 1 <= slot->0 <= 64,
    ensures
        r == match slot {
            None => true,
            Some(w) => crate::bits::fits_signed(t as int, w as nat),
        },
{
    match slot {
        None => true,
        Some(w) => Prim::I64.fits_in(t, w),
    }
}

/// Writes a float field against its prior.
pub fn encode_float(c: &FloatCodec, v: &Value, p: Option<&Value>, w: &mut BitWriter) -> (r: Result<(), DeltaError>)
    requires
        c.wf(),
        raw_of(v@) < two_pow(c.raw_bits()),
    ensures
        wrote(float_enc(*c, v@, opt_view(p)), r, old(w).bits@, final(w).bits@),
{
    let unchanged = !c.always && match p {
        Some(b) => same_value(v, b),
        None => false,
    };
    assert(unchanged == (!c.always && opt_view(p) == Some(v@)));
    let (raw, scaled) = float_parts(v);
    let rb: u8 = if c.wide { 64 } else { 32 };
    proof {
        lemma_two_pow_64();
    }
    match &c.mode {
        FloatMode::Raw => {
            if c.always {
                w.write_unsigned(raw, rb);
            } else if unchanged {
                w.write_bool(false);
                assert(w.bits@ =~= old(w).bits@ + seq![false]);
            } else {
                w.write_bool(true);
                w.write_unsigned(raw, rb);
                assert(w.bits@ =~= old(w).bits@ + (seq![true] + crate::bits::ubits(raw as nat, rb as nat)));
            }
            Ok(())
        },
        FloatMode::FixedBits { whole, fract } => {
            let wd: u8 = *whole + *fract;
            let fits = Prim::I64.fits_in(scaled as i128, wd);
            if c.always {
                if !fits {
                    return Err(DeltaError::ValueOutOfRange);
                }
                w.write_signed(scaled, wd);
            } else if unchanged {
                w.write_bool(false);
                assert(w.bits@ =~= old(w).bits@ + seq![false]);
            } else {
                if !fits {
                    return Err(DeltaError::ValueOutOfRange);
                }
                w.write_bool(true);
                w.write_signed(scaled, wd);
                assert(w.bits@ =~= old(w).bits@ + (seq![true] + crate::bits::sbits(scaled as int, wd as nat)));
            }
            Ok(())
        },
        FloatMode::FixedSub { fract, slots } => {
            let n = slots.len();
            let off: u64 = if c.always { 0 } else { 1 };
            let sw = selector_bits(n as u64 + off);
            if unchanged {
                w.write_unsigned(0, sw);
                return Ok(());
            }
            let t: i128 = match prior_scaled_of(p) {
                Some(b) => if c.diff { scaled as i128 - b as i128 } else { scaled as i128 },
                None => scaled as i128,
            };
            let mut i: usize = 0;
            while i < n && !slot_takes(slots[i], t)
                invariant
                    c.wf(),
                    c.mode == (FloatMode::FixedSub { fract: *fract, slots: *slots }),
                    n == slots.len(),
                    0 <= i <= n,
                    first_slot(slots@, t as int, 0) == first_slot(slots@, t as int, i as nat),
                decreases n - i,
            {
                i = i + 1;
            }
            if i == n {
                return Err(DeltaError::ValueOutOfRange);
            }
            proof {
                lemma_ceil_log2_covers(num_states(n as nat, c.always));
            }
            w.write_unsigned(i as u64 + off, sw);
            match slots[i] {
                Some(wd) => {
                    proof {
                        lemma_two_pow_mono((wd - 1) as nat, 63);
                    }
                    w.write_signed(t as i64, wd);
                },
                None => {
                    w.write_unsigned(raw, rb);
                },
            }
            assert(w.bits@ =~= old(w).bits@ + (crate::bits::ubits((i + off) as nat, sw as nat) + match slots@[i as int] {
                Some(wd) => crate::bits::sbits(t as int, wd as nat),
                None => crate::bits::ubits(raw as nat, rb as nat),
            }));
            Ok(())
        },
    }
}

/// Reads a float field against its prior.
pub fn decode_float(c: &FloatCodec, p: Option<&Value>, r: &mut BitReader) -> (res: Result<Value, DeltaError>)
    requires
        c.wf(),
        old(r).wf(),
    ensures
        final(r).wf(),
        final(r).bits@ == old(r).bits@,
        read_back(float_dec(*c, opt_view(p), old(r).bits@, old(r).pos as nat), res, final(r).pos as nat),
{
    let rb: u8 = if c.wide { 64 } else { 32 };
    match &c.mode {
        FloatMode::Raw => {
            if !c.always {
                let present = r.read_bool()?;
                if !present {
                    return keep_prior(p);
                }
            }
            let x = r.read_unsigned(rb)?;
            Ok(Value::Float(x))
        },
        FloatMode::FixedBits { whole, fract } => {
            let wd: u8 = *whole + *fract;
            if !c.always {
                let present = r.read_bool()?;
                if !present {
                    return keep_prior(p);
                }
            }
            let x = r.read_signed(wd)?;
            Ok(Value::Fixed(x))
        },
        FloatMode::FixedSub { fract, slots } => {
            let n = slots.len();
            let off: u64 = if c.always { 0 } else { 1 };
            let sw = selector_bits(n as u64 + off);
            let sel = r.read_unsigned(sw)?;
            if !c.always && sel == 0 {
                return keep_prior(p);
            }
            if sel - off >= n as u64 {
                return Err(DeltaError::MalformedStream);
            }
            match slots[(sel - off) as usize] {
                None => {
                    let x = r.read_unsigned(rb)?;
                    Ok(Value::Float(x))
                },
                Some(wd) => {
                    let x = r.read_signed(wd)?;
                    if c.diff && p.is_some() {
                        match prior_scaled_of(p) {
                            Some(b) => {
                                let y: i128 = b as i128 + x as i128;
                                proof {
                                    lemma_two_pow_64();
                                }
                                if Prim::I64.fits_in(y, 64) {
                                    Ok(Value::Fixed(y as i64))
                                } else {
                                    Err(DeltaError::MalformedStream)
                                }
                            },
                            None => Err(DeltaError::MissingPriorState),
                        }
                    } else {
                        Ok(Value::Fixed(x))
                    }
                },
            }
        },
    }
}

/// Bits that `n` takes without leading zeros.
fn bit_len_of(n: u64) -> (r: u8)
    ensures
        r as nat == crate::wire::bit_len(n as nat),
    decreases n,
{
    proof {
        crate::bits::lemma_two_pow_64();
        crate::wire::lemma_bit_len_bound(n as nat, 64);
    }
    if n == 0 {
        0
    } else {
        1 + bit_len_of(n / 2)
    }
}

/// Bits `acc` already written, in front of what is still to come.
pub open spec fn after(acc: Seq<bool>, rest: Option<Seq<bool>>) -> Option<Seq<bool>> {
    match rest {
        Some(b) => Some(acc + b),
        None => None,
    }
}

/// The items of a prior record, array or list.
fn prior_items(p: Option<&Value>) -> (r: Option<&Vec<Value>>)
    ensures
        items_of(opt_view(p)) == match r {
            Some(q) => Some(items_view(q@)),
            None => None::<Seq<Val>>,
        },
{
    match p {
        Some(Value::Items(q)) => {
            proof {
                lemma_items_view(*p->0);
            }
            Some(q)
        },
        _ => None,
    }
}

/// The prior of item `i`.
fn prior_item(ps: Option<&Vec<Value>>, i: usize) -> (r: Option<&Value>)
    ensures
        opt_view(r) == item_prior(
            match ps {
                Some(q) => Some(items_view(q@)),
                None => None::<Seq<Val>>,
            },
            i as nat,
        ),
{
    match ps {
        Some(q) => if i < q.len() {
            Some(&q[i])
        } else {
            None
        },
        None => None,
    }
}

/// Writes `v` against the prior `p` as the schema `s` says.
pub fn encode_value(s: &Schema, v: &Value, p: Option<&Value>, w: &mut BitWriter) -> (r: Result<(), DeltaError>)
    requires
        schema_ok(*s),
        wt(*s, v@),
        opt_view(p) is Some ==> wt(*s, opt_view(p)->0),
    ensures
        wrote(enc(*s, v@, opt_view(p)), r, old(w).bits@, final(w).bits@),
    decreases s, 2nat,
{
    match s {
        Schema::Bool => match v {
            Value::Bool(b) => {
                w.write_bool(*b);
                assert(w.bits@ =~= old(w).bits@ + seq![*b]);
                Ok(())
            },
            _ => Err(DeltaError::ValueOutOfRange),
        },
        Schema::Int(c) => match v {
            Value::Int(x) => encode_int(c, *x, p, w),
            _ => Err(DeltaError::ValueOutOfRange),
        },
        Schema::Float(c) => encode_float(c, v, p, w),
        Schema::Record { .. } => encode_record(s, v, p, w),
        Schema::Union { .. } => encode_union(s, v, p, w),
        Schema::Array { len, elem } => match v {
            Value::Items(xs) => {
                proof {
                    lemma_items_view(*v);
                }
                let ps = prior_items(p);
                encode_items(s, xs, ps, w)
            },
            _ => Err(DeltaError::ValueOutOfRange),
        },
        Schema::Opt(_) => encode_opt(s, v, p, w),
        Schema::List { .. } => encode_list(s, v, p, w),
        Schema::Default(_) => {
            assert(w.bits@ =~= old(w).bits@ + Seq::<bool>::empty());
            Ok(())
        },
    }
}

/// Writes a record: its head bit when `complete`, then its fields.
fn encode_record(s: &Schema, v: &Value, p: Option<&Value>, w: &mut BitWriter) -> (r: Result<(), DeltaError>)
    requires
        schema_ok(*s),
        s is Record,
        wt(*s, v@),
        opt_view(p) is Some ==> wt(*s, opt_view(p)->0),
    ensures
        wrote(enc(*s, v@, opt_view(p)), r, old(w).bits@, final(w).bits@),
    decreases s, 1nat,
{
    match s {
        Schema::Record { complete, fields } => match v {
        Value::Items(xs) => {
            proof {
                lemma_items_view(*v);
            }
            if *complete {
                let unchanged = match p {
                    Some(b) => same_value(v, b),
                    None => false,
                };
                if unchanged {
                    w.write_bool(false);
                    assert(w.bits@ =~= old(w).bits@ + seq![false]);
                    return Ok(());
                }
                w.write_bool(true);
            }
            let ps = prior_items(p);
            let r = encode_items(s, xs, ps, w);
            proof {
                if *complete && r is Ok {
                    let b = enc_items(*s, items_view(xs@), items_of(opt_view(p)), 0).unwrap();
                        assert(w.bits@ =~= old(w).bits@ + (seq![true] + b));
                }
            }
            r
        },
        _ => Err(DeltaError::ValueOutOfRange),
    },
        _ => Err(DeltaError::ValueOutOfRange),
    }
}

/// Writes a union: its head bit when `complete`, the variant, then its payload.
fn encode_union(s: &Schema, v: &Value, p: Option<&Value>, w: &mut BitWriter) -> (r: Result<(), DeltaError>)
    requires
        schema_ok(*s),
        s is Union,
        wt(*s, v@),
        opt_view(p) is Some ==> wt(*s, opt_view(p)->0),
    ensures
        wrote(enc(*s, v@, opt_view(p)), r, old(w).bits@, final(w).bits@),
    decreases s, 1nat,
{
    match s {
        Schema::Union { complete, variants } => match v {
        Value::Variant(i, x) => {
            if *complete {
                let unchanged = match p {
                    Some(b) => same_value(v, b),
                    None => false,
                };
                if unchanged {
                    w.write_bool(false);
                    assert(w.bits@ =~= old(w).bits@ + seq![false]);
                    return Ok(());
                }
                w.write_bool(true);
            }
            let ghost mid = w.bits@;
            let tw = selector_bits(variants.len() as u64);
            proof {
                lemma_ceil_log2_covers(variants.len() as nat);
                lemma_fields_ok(*s, 0, *i as nat);
                assert(decreases_to!(*s => (*s)->Union_variants));
            }
            w.write_unsigned(*i, tw);
            let prior: Option<&Value> = match p {
                Some(Value::Variant(j, y)) => if *j == *i {
                    Some(&**y)
                } else {
                    None
                },
                _ => None,
            };
            assert(opt_view(prior) == same_variant(opt_view(p), *i as nat));
            let r = encode_value(&variants[*i as usize], x, prior, w);
            proof {
                if r is Ok {
                    let body = enc(variants@[*i as int], x@, same_variant(opt_view(p), *i as nat)).unwrap();
                    let head = crate::bits::ubits(*i as nat, tw as nat);
                    assert(w.bits@ =~= mid + (head + body));
                    if *complete {
                        assert(w.bits@ =~= old(w).bits@ + (seq![true] + (head + body)));
                    }
                }
            }
            r
        },
        _ => Err(DeltaError::ValueOutOfRange),
    },
        _ => Err(DeltaError::ValueOutOfRange),
    }
}

/// Writes an optional value: presence bit, then the value.
fn encode_opt(s: &Schema, v: &Value, p: Option<&Value>, w: &mut BitWriter) -> (r: Result<(), DeltaError>)
    requires
        schema_ok(*s),
        s is Opt,
        wt(*s, v@),
        opt_view(p) is Some ==> wt(*s, opt_view(p)->0),
    ensures
        wrote(enc(*s, v@, opt_view(p)), r, old(w).bits@, final(w).bits@),
    decreases s, 1nat,
{
    match s {
        Schema::Opt(elem) => match v {
        Value::Opt(None) => {
            w.write_bool(false);
            assert(w.bits@ =~= old(w).bits@ + seq![false]);
            Ok(())
        },
        Value::Opt(Some(x)) => {
            w.write_bool(true);
            let prior: Option<&Value> = match p {
                Some(Value::Opt(Some(y))) => Some(&**y),
                _ => None,
            };
            assert(opt_view(prior) == opt_inner(opt_view(p)));
            proof {
                assert(decreases_to!(*s => (*s)->Opt_0));
            }
            let r = encode_value(elem, x, prior, w);
            proof {
                if r is Ok {
                    let body = enc(**elem, x@, opt_inner(opt_view(p))).unwrap();
                    assert(w.bits@ =~= old(w).bits@ + (seq![true] + body));
                }
            }
            r
        },
        _ => Err(DeltaError::ValueOutOfRange),
    },
        _ => Err(DeltaError::ValueOutOfRange),
    }
}

/// Writes a list: presence bit, length, then its items.
fn encode_list(s: &Schema, v: &Value, p: Option<&Value>, w: &mut BitWriter) -> (r: Result<(), DeltaError>)
    requires
        schema_ok(*s),
        s is List,
        wt(*s, v@),
        opt_view(p) is Some ==> wt(*s, opt_view(p)->0),
    ensures
        wrote(enc(*s, v@, opt_view(p)), r, old(w).bits@, final(w).bits@),
    decreases s, 1nat,
{
    match s {
        Schema::List { always, elem } => match v {
        Value::Items(xs) => {
            proof {
                lemma_items_view(*v);
                crate::prim::lemma_two_pow_is_32();
            }
            if !*always {
                let unchanged = match p {
                    Some(b) => same_value(v, b),
                    None => false,
                };
                if unchanged {
                    w.write_bool(false);
                    assert(w.bits@ =~= old(w).bits@ + seq![false]);
                    return Ok(());
                }
            }
            proof {
                crate::bits::lemma_two_pow_64();
            }
            if xs.len() as u64 >= 0x8000_0000_0000_0000u64 {
                return Err(DeltaError::ValueOutOfRange);
            }
            if !*always {
                w.write_bool(true);
            }
            let ghost mid = w.bits@;
            let n = xs.len() as u64;
            let width = bit_len_of(n);
            proof {
                crate::bits::lemma_two_pow_64();
                crate::wire::lemma_bit_len_bound(n as nat, 63);
            }
            w.write_unsigned(width as u64, 6);
            w.write_unsigned(n, width);
            let ps = prior_items(p);
            let r = encode_items(s, xs, ps, w);
            proof {
                if r is Ok {
                    let body = enc_items(*s, items_view(xs@), items_of(opt_view(p)), 0).unwrap();
                    let head = len_prefix(xs.len() as nat) + body;
                    assert(w.bits@ =~= mid + head);
                    if !*always {
                        assert(w.bits@ =~= old(w).bits@ + (seq![true] + head));
                    }
                }
            }
            r
        },
        _ => Err(DeltaError::ValueOutOfRange),
    },
        _ => Err(DeltaError::ValueOutOfRange),
    }
}

/// Writes the items of a record, array or list, each against the prior's
/// item of the same index.
fn encode_items(s: &Schema, xs: &Vec<Value>, ps: Option<&Vec<Value>>, w: &mut BitWriter) -> (r: Result<(), DeltaError>)
    requires
        schema_ok(*s),
        s is Record || s is Array || s is List,
        items_wt(*s, items_view(xs@), 0),
        s is Record ==> xs.len() == parts_len(*s),
        ps is Some ==> items_wt(*s, items_view(ps->0@), 0),
    ensures
        wrote(
            enc_items(
                *s,
                items_view(xs@),
                match ps {
                    Some(q) => Some(items_view(q@)),
                    None => None::<Seq<Val>>,
                },
                0,
            ),
            r,
            old(w).bits@,
            final(w).bits@,
        ),
    decreases s, 0nat,
{
    let ghost vm = items_view(xs@);
    let ghost pm = match ps {
        Some(q) => Some(items_view(q@)),
        None => None::<Seq<Val>>,
    };
    let mut i: usize = 0;
    while i < xs.len()
        invariant
            schema_ok(*s),
            s is Record || s is Array || s is List,
            items_wt(*s, vm, 0),
            s is Record ==> xs.len() == parts_len(*s),
            ps is Some ==> items_wt(*s, items_view(ps->0@), 0),
            vm == items_view(xs@),
            pm == match ps {
                Some(q) => Some(items_view(q@)),
                None => None::<Seq<Val>>,
            },
            0 <= i <= xs.len(),
            old(w).bits@.len() <= w.bits@.len(),
            w.bits@.subrange(0, old(w).bits@.len() as int) == old(w).bits@,
            enc_items(*s, vm, pm, 0) == after(
                w.bits@.subrange(old(w).bits@.len() as int, w.bits@.len() as int),
                enc_items(*s, vm, pm, i as nat),
            ),
        decreases xs.len() - i,
    {
        proof {
            lemma_items_wt(*s, vm, 0, i as nat);
            if let Some(q) = ps {
                if i < q.len() {
                    lemma_items_wt(*s, items_view(q@), 0, i as nat);
                }
            }
        }
        let child: &Schema = match s {
            Schema::Record { fields, .. } => {
                proof {
                    lemma_fields_ok(*s, 0, i as nat);
                    assert(decreases_to!(*s => (*s)->Record_fields));
                }
                &fields[i]
            },
            Schema::Array { elem, .. } => {
                proof {
                    assert(decreases_to!(*s => (*s)->Array_elem));
                }
                &**elem
            },
            Schema::List { elem, .. } => {
                proof {
                    assert(decreases_to!(*s => (*s)->List_elem));
                }
                &**elem
            },
            _ => {
                return Err(DeltaError::ValueOutOfRange);
            },
        };
        assert(*child == part(*s, i as nat));
        let prior = prior_item(ps, i);
        let ghost before = w.bits@;
        let r = encode_value(child, &xs[i], prior, w);
        if r.is_err() {
            return r;
        }
        proof {
            let a = w.bits@.subrange(before.len() as int, w.bits@.len() as int);
            let acc0 = before.subrange(old(w).bits@.len() as int, before.len() as int);
            assert(w.bits@ =~= before + a);
            assert(w.bits@.subrange(0, old(w).bits@.len() as int) =~= old(w).bits@);
            assert(w.bits@.subrange(old(w).bits@.len() as int, w.bits@.len() as int) =~= acc0 + a);
            match enc_items(*s, vm, pm, (i + 1) as nat) {
                Some(b) => {
                    assert((acc0 + a) + b =~= acc0 + (a + b));
                },
                None => {},
            }
        }
        i = i + 1;
    }
    proof {
        assert(w.bits@ =~= old(w).bits@ + w.bits@.subrange(old(w).bits@.len() as int, w.bits@.len() as int));
    }
    Ok(())
}

/// Items read so far, in front of what is still to come.
pub open spec fn prepend(acc: Seq<Val>, rest: Result<(Seq<Val>, nat), DeltaError>) -> Result<(Seq<Val>, nat), DeltaError> {
    match rest {
        Ok((xs, e)) => Ok((acc + xs, e)),
        Err(err) => Err(err),
    }
}

/// Reads a value against the prior `p` as the schema `s` says.
pub fn decode_value(s: &Schema, p: Option<&Value>, r: &mut BitReader) -> (res: Result<Value, DeltaError>)
    requires
        schema_ok(*s),
        old(r).wf(),
    ensures
        final(r).wf(),
        final(r).bits@ == old(r).bits@,
        read_back(dec(*s, opt_view(p), old(r).bits@, old(r).pos as nat), res, final(r).pos as nat),
    decreases s, 2nat,
{
    match s {
        Schema::Bool => {
            let b = r.read_bool()?;
            Ok(Value::Bool(b))
        },
        Schema::Int(c) => decode_int(c, p, r),
        Schema::Float(c) => decode_float(c, p, r),
        Schema::Record { .. } => decode_record(s, p, r),
        Schema::Union { .. } => decode_union(s, p, r),
        Schema::Array { len, .. } => {
            let ps = prior_items(p);
            let xs = decode_items(s, *len as u64, ps, r)?;
            proof {
                lemma_items_view(Value::Items(xs));
            }
            Ok(Value::Items(xs))
        },
        Schema::Opt(_) => decode_opt(s, p, r),
        Schema::List { .. } => decode_list(s, p, r),
        Schema::Default(inner) => Ok(default_value(inner)),
    }
}

/// Reads a record: its head bit when `complete`, then its fields.
fn decode_record(s: &Schema, p: Option<&Value>, r: &mut BitReader) -> (res: Result<Value, DeltaError>)
    requires
        schema_ok(*s),
        s is Record,
        old(r).wf(),
    ensures
        final(r).wf(),
        final(r).bits@ == old(r).bits@,
        read_back(dec(*s, opt_view(p), old(r).bits@, old(r).pos as nat), res, final(r).pos as nat),
    decreases s, 1nat,
{
    match s {
        Schema::Record { complete, fields } => {
            if *complete {
                let changed = r.read_bool()?;
                if !changed {
                    return keep_prior(p);
                }
            }
            let ps = prior_items(p);
            let xs = decode_items(s, fields.len() as u64, ps, r)?;
            proof {
                lemma_items_view(Value::Items(xs));
            }
            Ok(Value::Items(xs))
        },
        _ => Err(DeltaError::MalformedStream),
    }
}

/// Reads a union: its head bit when `complete`, the variant, then its payload.
fn decode_union(s: &Schema, p: Option<&Value>, r: &mut BitReader) -> (res: Result<Value, DeltaError>)
    requires
        schema_ok(*s),
        s is Union,
        old(r).wf(),
    ensures
        final(r).wf(),
        final(r).bits@ == old(r).bits@,
        read_back(dec(*s, opt_view(p), old(r).bits@, old(r).pos as nat), res, final(r).pos as nat),
    decreases s, 1nat,
{
    match s {
        Schema::Union { complete, variants } => {
            if *complete {
                let changed = r.read_bool()?;
                if !changed {
                    return keep_prior(p);
                }
            }
            let tw = selector_bits(variants.len() as u64);
            let sel = r.read_unsigned(tw)?;
            if sel >= variants.len() as u64 {
                return Err(DeltaError::MalformedStream);
            }
            let prior: Option<&Value> = match p {
                Some(Value::Variant(j, y)) => if *j == sel {
                    Some(&**y)
                } else {
                    None
                },
                _ => None,
            };
            assert(opt_view(prior) == same_variant(opt_view(p), sel as nat));
            proof {
                lemma_fields_ok(*s, 0, sel as nat);
                assert(decreases_to!(*s => (*s)->Union_variants));
            }
            let x = decode_value(&variants[sel as usize], prior, r)?;
            Ok(Value::Variant(sel, Box::new(x)))
        },
        _ => Err(DeltaError::MalformedStream),
    }
}

/// Reads an optional value: presence bit, then the value.
fn decode_opt(s: &Schema, p: Option<&Value>, r: &mut BitReader) -> (res: Result<Value, DeltaError>)
    requires
        schema_ok(*s),
        s is Opt,
        old(r).wf(),
    ensures
        final(r).wf(),
        final(r).bits@ == old(r).bits@,
        read_back(dec(*s, opt_view(p), old(r).bits@, old(r).pos as nat), res, final(r).pos as nat),
    decreases s, 1nat,
{
    match s {
        Schema::Opt(elem) => {
            let present = r.read_bool()?;
            if !present {
                return Ok(Value::Opt(None));
            }
            let prior: Option<&Value> = match p {
                Some(Value::Opt(Some(y))) => Some(&**y),
                _ => None,
            };
            assert(opt_view(prior) == opt_inner(opt_view(p)));
            proof {
                assert(decreases_to!(*s => (*s)->Opt_0));
            }
            let x = decode_value(elem, prior, r)?;
            Ok(Value::Opt(Some(Box::new(x))))
        },
        _ => Err(DeltaError::MalformedStream),
    }
}

/// Reads a list: presence bit, length, then its items.
fn decode_list(s: &Schema, p: Option<&Value>, r: &mut BitReader) -> (res: Result<Value, DeltaError>)
    requires
        schema_ok(*s),
        s is List,
        old(r).wf(),
    ensures
        final(r).wf(),
        final(r).bits@ == old(r).bits@,
        read_back(dec(*s, opt_view(p), old(r).bits@, old(r).pos as nat), res, final(r).pos as nat),
    decreases s, 1nat,
{
    match s {
        Schema::List { always, .. } => {
            if !*always {
                let present = r.read_bool()?;
                if !present {
                    return keep_prior(p);
                }
            }
            let width = r.read_unsigned(6)?;
            proof {
                crate::bits::lemma_bits_value_bound(
                    r.bits@.subrange((r.pos - 6) as int, r.pos as int),
                );
                crate::bits::lemma_two_pow_6();
            }
            let n = r.read_unsigned(width as u8)?;
            let ps = prior_items(p);
            let xs = decode_items(s, n, ps, r)?;
            proof {
                lemma_items_view(Value::Items(xs));
            }
            Ok(Value::Items(xs))
        },
        _ => Err(DeltaError::MalformedStream),
    }
}

/// Reads `n` items of a record, array or list, each against the prior's item
/// of the same index.
fn decode_items(s: &Schema, n: u64, ps: Option<&Vec<Value>>, r: &mut BitReader) -> (res: Result<Vec<Value>, DeltaError>)
    requires
        schema_ok(*s),
        s is Record || s is Array || s is List,
        s is Record ==> n == parts_len(*s),
        old(r).wf(),
    ensures
        final(r).wf(),
        final(r).bits@ == old(r).bits@,
        match dec_items(
            *s,
            n as nat,
            match ps {
                Some(q) => Some(items_view(q@)),
                None => None::<Seq<Val>>,
            },
            old(r).bits@,
            old(r).pos as nat,
            0,
        ) {
            Ok((xs, e)) => res is Ok && items_view(res->Ok_0@) == xs && final(r).pos == e,
            Err(err) => res is Err && res->Err_0 == err,
        },
    decreases s, 0nat,
{
    let ghost pm = match ps {
        Some(q) => Some(items_view(q@)),
        None => None::<Seq<Val>>,
    };
    let ghost bits = r.bits@;
    let mut out: Vec<Value> = Vec::new();
    let mut i: u64 = 0;
    while i < n
        invariant
            schema_ok(*s),
            s is Record || s is Array || s is List,
            s is Record ==> n == parts_len(*s),
            r.wf(),
            r.bits@ == bits,
            bits == old(r).bits@,
            pm == match ps {
                Some(q) => Some(items_view(q@)),
                None => None::<Seq<Val>>,
            },
            0 <= i <= n,
            out.len() == i,
            dec_items(*s, n as nat, pm, bits, old(r).pos as nat, 0) == prepend(
                items_view(out@),
                dec_items(*s, n as nat, pm, bits, r.pos as nat, i as nat),
            ),
        decreases n - i,
    {
        let child: &Schema = match s {
            Schema::Record { fields, .. } => {
                proof {
                    lemma_fields_ok(*s, 0, i as nat);
                    assert(decreases_to!(*s => (*s)->Record_fields));
                }
                &fields[i as usize]
            },
            Schema::Array { elem, .. } => {
                proof {
                    assert(decreases_to!(*s => (*s)->Array_elem));
                }
                &**elem
            },
            Schema::List { elem, .. } => {
                proof {
                    assert(decreases_to!(*s => (*s)->List_elem));
                }
                &**elem
            },
            _ => {
                return Err(DeltaError::MalformedStream);
            },
        };
        let prior = prior_item(ps, i as usize);
        let x = decode_value(child, prior, r)?;
        proof {
            let acc = items_view(out@);
            let acc2 = items_view(out@.push(x));
            assert(acc2 =~= acc.push(x@));
            match dec_items(*s, n as nat, pm, bits, r.pos as nat, (i + 1) as nat) {
                Ok((xs, e)) => {
                    assert(acc + (seq![x@] + xs) =~= acc2 + xs);
                },
                Err(_) => {},
            }
        }
        out.push(x);
        i = i + 1;
    }
    proof {
        assert(items_view(out@) + Seq::<Val>::empty() =~= items_view(out@));
    }
    Ok(out)
}

/// Encodes `v` against the optional prior snapshot `prior`: the bits that
/// carry what changed.
pub fn encode(s: &Schema, v: &Value, prior: Option<&Value>) -> (r: Result<Vec<bool>, DeltaError>)
    requires
        schema_ok(*s),
        wt(*s, v@),
        opt_view(prior) is Some ==> wt(*s, opt_view(prior)->0),
    ensures
        match enc(*s, v@, opt_view(prior)) {
            Some(e) => r is Ok && r->Ok_0@ == e,
            None => r == Err::<Vec<bool>, DeltaError>(DeltaError::ValueOutOfRange),
        },
{
    let mut w = BitWriter::new();
    let r = encode_value(s, v, prior, &mut w);
    match r {
        Ok(()) => {
            assert(w.bits@ =~= enc(*s, v@, opt_view(prior))->0);
            Ok(w.finish())
        },
        Err(e) => Err(e),
    }
}

/// Decodes a value from the start of `bits` against the optional prior
/// snapshot `prior`.
pub fn decode(s: &Schema, prior: Option<&Value>, bits: Vec<bool>) -> (r: Result<Value, DeltaError>)
    requires
        schema_ok(*s),
    ensures
        match dec(*s, opt_view(prior), bits@, 0) {
            Ok((x, _)) => r is Ok && r->Ok_0@ == x,
            Err(e) => r is Err && r->Err_0 == e,
        },
{
    let mut rd = BitReader::new(bits);
    decode_value(s, prior, &mut rd)
}

/// Whether `v` is a value of the type that `s` describes.
pub fn check_value(s: &Schema, v: &Value) -> (r: bool)
    requires
        schema_ok(*s),
    ensures
        r == wt(*s, v@),
    decreases s, 1nat,
{
    proof {
        lemma_two_pow_64();
        crate::prim::lemma_two_pow_is_32();
    }
    match s {
        Schema::Bool => matches!(v, Value::Bool(_)),
        Schema::Int(c) => match v {
            Value::Int(x) => c.prim.fits_in(*x, c.prim.bit_width()),
            _ => false,
        },
        Schema::Float(c) => match (&c.mode, v) {
            (FloatMode::Raw, Value::Float(b)) => c.wide || *b < 0x1_0000_0000u64,
            (FloatMode::FixedBits { .. }, Value::Real { bits, .. }) => c.wide || *bits < 0x1_0000_0000u64,
            (FloatMode::FixedSub { .. }, Value::Real { bits, .. }) => c.wide || *bits < 0x1_0000_0000u64,
            _ => false,
        },
        Schema::Record { fields, .. } => match v {
            Value::Items(xs) => {
                proof {
                    lemma_items_view(*v);
                }
                xs.len() == fields.len() && check_items(s, xs)
            },
            _ => false,
        },
        Schema::Union { variants, .. } => match v {
            Value::Variant(i, x) => {
                if *i >= variants.len() as u64 {
                    return false;
                }
                proof {
                    lemma_fields_ok(*s, 0, *i as nat);
                    assert(decreases_to!(*s => (*s)->Union_variants));
                }
                check_value(&variants[*i as usize], x)
            },
            _ => false,
        },
        Schema::Array { len, .. } => match v {
            Value::Items(xs) => {
                proof {
                    lemma_items_view(*v);
                }
                xs.len() == *len && check_items(s, xs)
            },
            _ => false,
        },
        Schema::Opt(elem) => match v {
            Value::Opt(None) => true,
            Value::Opt(Some(x)) => {
                proof {
                    assert(decreases_to!(*s => (*s)->Opt_0));
                }
                check_value(elem, x)
            },
            _ => false,
        },
        Schema::List { .. } => match v {
            Value::Items(xs) => {
                proof {
                    lemma_items_view(*v);
                }
                (xs.len() as u64) < 0x8000_0000_0000_0000u64 && check_items(s, xs)
            },
            _ => false,
        },
        Schema::Default(inner) => {
            proof {
                assert(decreases_to!(*s => (*s)->Default_0));
            }
            check_value(inner, v)
        },
    }
}

/// Whether each item is a value of its part of `s`.
fn check_items(s: &Schema, xs: &Vec<Value>) -> (r: bool)
    requires
        schema_ok(*s),
        s is Record || s is Array || s is List,
        s is Record ==> xs.len() == parts_len(*s),
    ensures
        r == items_wt(*s, items_view(xs@), 0),
    decreases s, 0nat,
{
    let ghost vm = items_view(xs@);
    let mut i: usize = 0;
    while i < xs.len()
        invariant
            schema_ok(*s),
            s is Record || s is Array || s is List,
            s is Record ==> xs.len() == parts_len(*s),
            vm == items_view(xs@),
            0 <= i <= xs.len(),
            items_wt(*s, vm, 0) == items_wt(*s, vm, i as nat),
        decreases xs.len() - i,
    {
        let child: &Schema = match s {
            Schema::Record { fields, .. } => {
                proof {
                    lemma_fields_ok(*s, 0, i as nat);
                    assert(decreases_to!(*s => (*s)->Record_fields));
                }
                &fields[i]
            },
            Schema::Array { elem, .. } => {
                proof {
                    assert(decreases_to!(*s => (*s)->Array_elem));
                }
                &**elem
            },
            Schema::List { elem, .. } => {
                proof {
                    assert(decreases_to!(*s => (*s)->List_elem));
                }
                &**elem
            },
            _ => {
                return false;
            },
        };
        if !check_value(child, &xs[i]) {
            return false;
        }
        i = i + 1;
    }
    true
}

} // verus!
