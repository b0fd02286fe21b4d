//! What holds of encoding and decoding together: decoding gives back what
//! was encoded, reads exactly the bits that were written, and more.
use crate::bits::{
    fits_signed, lemma_sbits_round_trip, lemma_two_pow_mono, lemma_ubits_len,
    lemma_ubits_round_trip, sbits, two_pow, ubits,
};
use crate::prim::lemma_ceil_log2_covers;
use crate::bits::{lemma_two_pow_64, lemma_two_pow_6};
use crate::wire::{bit_len, lemma_bit_len, lemma_bit_len_bound};
use crate::schema::{FloatCodec, FloatMode, IntCodec, Prim, Schema, Val};
use crate::stream::{
    read_u, DeltaError,
};
use crate::wire::{
    ceil_log2, dec, dec_items, enc, enc_items, first_fit, first_slot, float_dec, float_enc, float_restored, int_bits, int_dec, int_enc, int_prior, item_prior, items_of, items_wt, lemma_fields_ok, lemma_items_wt, num_states, opt_inner, part, parts_len, prior_scaled, raw_of, read_int, restored, restored_items, same_variant, scaled_of, schema_ok, wt,
};
use vstd::prelude::*;

verus! {

/// The `n` bits at `pos`.
pub open spec fn seg(bits: Seq<bool>, pos: nat, n: nat) -> Seq<bool> {
    bits.subrange(pos as int, (pos + n) as int)
}

/// The bits at `pos` spell `a + b`: so they spell `a`, then `b`.
pub proof fn lemma_slice(bits: Seq<bool>, pos: nat, a: Seq<bool>, b: Seq<bool>)
    requires
        pos + a.len() + b.len() <= bits.len(),
        seg(bits, pos, a.len() + b.len()) == a + b,
    ensures
        seg(bits, pos, a.len()) == a,
        seg(bits, pos + a.len(), b.len()) == b,
{
    let full = seg(bits, pos, a.len() + b.len());
    assert(seg(bits, pos, a.len()) =~= full.subrange(0, a.len() as int));
    assert(full.subrange(0, a.len() as int) =~= a);
    assert(seg(bits, pos + a.len(), b.len()) =~= full.subrange(
        a.len() as int,
        (a.len() + b.len()) as int,
    ));
    assert(full.subrange(a.len() as int, (a.len() + b.len()) as int) =~= b);
}

/// The bit at `pos` is the first of those written there.
pub proof fn lemma_bit_at(bits: Seq<bool>, pos: nat, x: bool, rest: Seq<bool>)
    requires
        pos + 1 + rest.len() <= bits.len(),
        seg(bits, pos, 1 + rest.len()) == seq![x] + rest,
    ensures
        bits[pos as int] == x,
        seg(bits, pos + 1, rest.len()) == rest,
{
    lemma_slice(bits, pos, seq![x], rest);
    assert(seg(bits, pos, 1)[0] == bits[pos as int]);
}

/// An unsigned number written at `pos` reads back.
pub proof fn lemma_read_u_at(bits: Seq<bool>, pos: nat, x: nat, n: nat)
    requires
        x < two_pow(n),
        pos + n <= bits.len(),
        seg(bits, pos, n) == ubits(x, n),
    ensures
        read_u(bits, pos, n) == Some(x),
{
    lemma_ubits_round_trip(x, n);
}

pub proof fn lemma_int_bits_len(prim: Prim, t: int, n: nat)
    ensures
        int_bits(prim, t, n).len() == n,
        sbits(t, n).len() == n,
{
    lemma_ubits_len(t as nat, n);
    lemma_ubits_len((t % (two_pow(n) as int)) as nat, n);
}

/// An integer written at `pos` in `n` bits of its type reads back.
pub proof fn lemma_read_int_at(prim: Prim, bits: Seq<bool>, pos: nat, t: int, n: nat)
    requires
        prim.fits(t, n),
        pos + n <= bits.len(),
        seg(bits, pos, n) == int_bits(prim, t, n),
    ensures
        read_int(prim, bits, pos, n) == Some(t),
        int_bits(prim, t, n).len() == n,
{
    if prim.is_signed() {
        lemma_sbits_round_trip(t, n);
    } else {
        lemma_ubits_round_trip(t as nat, n);
    }
}

/// The option that `first_fit` picks holds the value.
pub proof fn lemma_first_fit(opts: Seq<u8>, prim: Prim, t: int, i: nat)
    requires
        first_fit(opts, prim, t, i) is Some,
    ensures
        i <= first_fit(opts, prim, t, i)->0 < opts.len(),
        prim.fits(t, opts[first_fit(opts, prim, t, i)->0 as int] as nat),
    decreases opts.len() - i,
{
    if i < opts.len() && !prim.fits(t, opts[i as int] as nat) {
        lemma_first_fit(opts, prim, t, i + 1);
    }
}

/// The slot that `first_slot` picks holds the value, or is the escape.
pub proof fn lemma_first_slot(slots: Seq<Option<u8>>, t: int, i: nat)
    requires
        first_slot(slots, t, i) is Some,
    ensures
        i <= first_slot(slots, t, i)->0 < slots.len(),
        match slots[first_slot(slots, t, i)->0 as int] {
            Some(w) => fits_signed(t, w as nat),
            None => true,
        },
    decreases slots.len() - i,
{
    if i < slots.len() {
        match slots[i as int] {
            Some(w) => if !fits_signed(t, w as nat) {
                lemma_first_slot(slots, t, i + 1);
            },
            None => {},
        }
    }
}

/// An integer field reads back as written, and ends where its bits end.
pub proof fn lemma_int_round_trip(c: IntCodec, v: int, p: Option<Val>, bits: Seq<bool>, pos: nat)
    requires
        c.wf(),
        c.prim.holds(v),
        p is Some ==> (p->0 is Int && c.prim.holds(p->0->Int_0)),
        int_enc(c, v, p) is Some,
        pos + int_enc(c, v, p)->0.len() <= bits.len(),
        seg(bits, pos, int_enc(c, v, p)->0.len()) == int_enc(c, v, p)->0,
    ensures
        int_dec(c, p, bits, pos) == Ok::<(Val, nat), DeltaError>((Val::Int(v), pos + int_enc(c, v, p)->0.len())),
{
    let e = int_enc(c, v, p)->0;
    let opts = c.options@;
    let unchanged = !c.always && p == Some(Val::Int(v));
    if opts.len() == 0 {
        let w = c.width as nat;
        lemma_int_bits_len(c.prim, v, w);
        if c.always {
            lemma_read_int_at(c.prim, bits, pos, v, w);
        } else if unchanged {
            lemma_bit_at(bits, pos, false, Seq::empty());
        } else {
            let body = int_bits(c.prim, v, w);
            lemma_bit_at(bits, pos, true, body);
            lemma_read_int_at(c.prim, bits, pos + 1, v, w);
        }
    } else {
        let off: nat = if c.always { 0 } else { 1 };
        let k = num_states(opts.len(), c.always);
        let sw = ceil_log2(k);
        lemma_ceil_log2_covers(k);
        if unchanged {
            lemma_ubits_len(0, sw);
            lemma_two_pow_mono(0, sw);
            lemma_read_u_at(bits, pos, 0, sw);
        } else {
            let t = match int_prior(p) {
                Some(b) => if c.diff { v - b } else { v },
                None => v,
            };
            let i = first_fit(opts, c.prim, t, 0)->0;
            lemma_first_fit(opts, c.prim, t, 0);
            let w = opts[i as int] as nat;
            let sel = ubits(i + off, sw);
            let body = int_bits(c.prim, t, w);
            lemma_ubits_len(i + off, sw);
            lemma_int_bits_len(c.prim, t, w);
            lemma_slice(bits, pos, sel, body);
            lemma_read_u_at(bits, pos, i + off, sw);
            lemma_read_int_at(c.prim, bits, pos + sw, t, w);
        }
    }
}

/// A float field reads back as `float_restored` says, and ends where its
/// bits end.
pub proof fn lemma_float_round_trip(c: FloatCodec, v: Val, p: Option<Val>, bits: Seq<bool>, pos: nat)
    requires
        c.wf(),
        wt(Schema::Float(c), v),
        p is Some ==> wt(Schema::Float(c), p->0),
        float_enc(c, v, p) is Some,
        pos + float_enc(c, v, p)->0.len() <= bits.len(),
        seg(bits, pos, float_enc(c, v, p)->0.len()) == float_enc(c, v, p)->0,
    ensures
        float_dec(c, p, bits, pos) == Ok::<(Val, nat), DeltaError>(
            (float_restored(c, v, p), pos + float_enc(c, v, p)->0.len()),
        ),
{
    let e = float_enc(c, v, p)->0;
    let rb = c.raw_bits();
    let raw = raw_of(v);
    let unchanged = !c.always && p == Some(v);
    lemma_ubits_len(raw, rb);
    match c.mode {
        FloatMode::Raw => {
            if c.always {
                lemma_read_u_at(bits, pos, raw, rb);
            } else if unchanged {
                lemma_bit_at(bits, pos, false, Seq::empty());
            } else {
                lemma_bit_at(bits, pos, true, ubits(raw, rb));
                lemma_read_u_at(bits, pos + 1, raw, rb);
            }
        },
        FloatMode::FixedBits { whole, fract } => {
            let w = (whole + fract) as nat;
            let sc = scaled_of(v);
            lemma_int_bits_len(Prim::I64, sc, w);
            if c.always {
                lemma_sbits_round_trip(sc, w);
            } else if unchanged {
                lemma_bit_at(bits, pos, false, Seq::empty());
            } else {
                lemma_bit_at(bits, pos, true, sbits(sc, w));
                lemma_sbits_round_trip(sc, w);
            }
        },
        FloatMode::FixedSub { fract, slots } => {
            let off: nat = if c.always { 0 } else { 1 };
            let k = num_states(slots.len() as nat, c.always);
            let sw = ceil_log2(k);
            lemma_ceil_log2_covers(k);
            if unchanged {
                lemma_ubits_len(0, sw);
                lemma_two_pow_mono(0, sw);
                lemma_read_u_at(bits, pos, 0, sw);
            } else {
                let t = match prior_scaled(p) {
                    Some(b) => if c.diff { scaled_of(v) - b } else { scaled_of(v) },
                    None => scaled_of(v),
                };
                let i = first_slot(slots@, t, 0)->0;
                lemma_first_slot(slots@, t, 0);
                let sel = ubits(i + off, sw);
                lemma_ubits_len(i + off, sw);
                match slots@[i as int] {
                    Some(w) => {
                        let body = sbits(t, w as nat);
                        lemma_int_bits_len(Prim::I64, t, w as nat);
                        lemma_slice(bits, pos, sel, body);
                        lemma_read_u_at(bits, pos, i + off, sw);
                        lemma_sbits_round_trip(t, w as nat);
                    },
                    None => {
                        lemma_slice(bits, pos, sel, ubits(raw, rb));
                        lemma_read_u_at(bits, pos, i + off, sw);
                        lemma_read_u_at(bits, pos + sw, raw, rb);
                    },
                }
            }
        },
    }
}

/// Decoding the bits that encoding wrote, against the same prior, gives back
/// the value (fixed-point floats quantised, `default` fields at their
/// default) and stops exactly where those bits end.
pub proof fn lemma_round_trip(s: Schema, v: Val, p: Option<Val>, bits: Seq<bool>, pos: nat)
    requires
        schema_ok(s),
        wt(s, v),
        p is Some ==> wt(s, p->0),
        enc(s, v, p) is Some,
        pos + enc(s, v, p)->0.len() <= bits.len(),
        seg(bits, pos, enc(s, v, p)->0.len()) == enc(s, v, p)->0,
    ensures
        dec(s, p, bits, pos) == Ok::<(Val, nat), DeltaError>(
            (restored(s, v, p), pos + enc(s, v, p)->0.len()),
        ),
    decreases s, 2nat, 0int,
{
    match s {
        Schema::Bool => {
            lemma_bit_at(bits, pos, v->Bool_0, Seq::empty());
        },
        Schema::Int(c) => {
            lemma_int_round_trip(c, v->Int_0, p, bits, pos);
        },
        Schema::Float(c) => {
            lemma_float_round_trip(c, v, p, bits, pos);
        },
        Schema::Record { .. } => lemma_round_trip_record(s, v, p, bits, pos),
        Schema::Union { .. } => lemma_round_trip_union(s, v, p, bits, pos),
        Schema::Array { len, elem } => {
            lemma_round_trip_items(s, v->Items_0, items_of(p), bits, pos, 0);
        },
        Schema::Opt(_) => lemma_round_trip_opt(s, v, p, bits, pos),
        Schema::List { .. } => lemma_round_trip_list(s, v, p, bits, pos),
        Schema::Default(_) => {},
    }
}

/// The record case of `lemma_round_trip`.
proof fn lemma_round_trip_record(s: Schema, v: Val, p: Option<Val>, bits: Seq<bool>, pos: nat)
    requires
        schema_ok(s),
        s is Record,
        wt(s, v),
        p is Some ==> wt(s, p->0),
        enc(s, v, p) is Some,
        pos + enc(s, v, p)->0.len() <= bits.len(),
        seg(bits, pos, enc(s, v, p)->0.len()) == enc(s, v, p)->0,
    ensures
        dec(s, p, bits, pos) == Ok::<(Val, nat), DeltaError>(
            (restored(s, v, p), pos + enc(s, v, p)->0.len()),
        ),
    decreases s, 1nat, 0int,
{
    let e = enc(s, v, p)->0;
    match s {
        Schema::Record { complete, fields } => {
            let vs = v->Items_0;
            if complete && p == Some(v) {
                lemma_bit_at(bits, pos, false, Seq::empty());
            } else {
                let body = enc_items(s, vs, items_of(p), 0)->0;
                let start: nat = if complete { pos + 1 } else { pos };
                if complete {
                    lemma_bit_at(bits, pos, true, body);
                }
                lemma_round_trip_items(s, vs, items_of(p), bits, start, 0);
            }
        },
        _ => {},
    }
}

/// The union case of `lemma_round_trip`.
proof fn lemma_round_trip_union(s: Schema, v: Val, p: Option<Val>, bits: Seq<bool>, pos: nat)
    requires
        schema_ok(s),
        s is Union,
        wt(s, v),
        p is Some ==> wt(s, p->0),
        enc(s, v, p) is Some,
        pos + enc(s, v, p)->0.len() <= bits.len(),
        seg(bits, pos, enc(s, v, p)->0.len()) == enc(s, v, p)->0,
    ensures
        dec(s, p, bits, pos) == Ok::<(Val, nat), DeltaError>(
            (restored(s, v, p), pos + enc(s, v, p)->0.len()),
        ),
    decreases s, 1nat, 0int,
{
    let e = enc(s, v, p)->0;
    match s {
        Schema::Union { complete, variants } => {
            let i = v->Variant_0;
            let x = *v->Variant_1;
            if complete && p == Some(v) {
                lemma_bit_at(bits, pos, false, Seq::empty());
            } else {
                let tw = ceil_log2(variants.len() as nat);
                let sel = ubits(i, tw);
                let q = same_variant(p, i);
                let body = enc(variants[i as int], x, q)->0;
                let start: nat = if complete { pos + 1 } else { pos };
                if complete {
                    lemma_bit_at(bits, pos, true, sel + body);
                }
                lemma_ceil_log2_covers(variants.len() as nat);
                lemma_ubits_len(i, tw);
                lemma_slice(bits, start, sel, body);
                lemma_read_u_at(bits, start, i, tw);
                lemma_fields_ok(s, 0, i);
                assert(decreases_to!(s => s->Union_variants));
                lemma_round_trip(variants[i as int], x, q, bits, start + tw);
            }
        },
        _ => {},
    }
}

/// The optional case of `lemma_round_trip`.
proof fn lemma_round_trip_opt(s: Schema, v: Val, p: Option<Val>, bits: Seq<bool>, pos: nat)
    requires
        schema_ok(s),
        s is Opt,
        wt(s, v),
        p is Some ==> wt(s, p->0),
        enc(s, v, p) is Some,
        pos + enc(s, v, p)->0.len() <= bits.len(),
        seg(bits, pos, enc(s, v, p)->0.len()) == enc(s, v, p)->0,
    ensures
        dec(s, p, bits, pos) == Ok::<(Val, nat), DeltaError>(
            (restored(s, v, p), pos + enc(s, v, p)->0.len()),
        ),
    decreases s, 1nat, 0int,
{
    let e = enc(s, v, p)->0;
    match s {
        Schema::Opt(elem) => {
            match v {
                Val::Opt(Some(x)) => {
                    let body = enc(*elem, *x, opt_inner(p))->0;
                    lemma_bit_at(bits, pos, true, body);
                    lemma_round_trip(*elem, *x, opt_inner(p), bits, pos + 1);
                },
                _ => {
                    lemma_bit_at(bits, pos, false, Seq::empty());
                },
            }
        },
        _ => {},
    }
}

/// The list case of `lemma_round_trip`.
proof fn lemma_round_trip_list(s: Schema, v: Val, p: Option<Val>, bits: Seq<bool>, pos: nat)
    requires
        schema_ok(s),
        s is List,
        wt(s, v),
        p is Some ==> wt(s, p->0),
        enc(s, v, p) is Some,
        pos + enc(s, v, p)->0.len() <= bits.len(),
        seg(bits, pos, enc(s, v, p)->0.len()) == enc(s, v, p)->0,
    ensures
        dec(s, p, bits, pos) == Ok::<(Val, nat), DeltaError>(
            (restored(s, v, p), pos + enc(s, v, p)->0.len()),
        ),
    decreases s, 1nat, 0int,
{
    let e = enc(s, v, p)->0;
    match s {
        Schema::List { always, elem } => {
            let vs = v->Items_0;
            if !always && p == Some(v) {
                lemma_bit_at(bits, pos, false, Seq::empty());
            } else {
                let body = enc_items(s, vs, items_of(p), 0)->0;
                let w = bit_len(vs.len());
                let wb = ubits(w, 6);
                let nb = ubits(vs.len(), w);
                let start: nat = if always { pos } else { pos + 1 };
                if !always {
                    lemma_bit_at(bits, pos, true, (wb + nb) + body);
                }
                lemma_two_pow_64();
                lemma_two_pow_6();
                lemma_bit_len(vs.len());
                lemma_bit_len_bound(vs.len(), 63);
                lemma_ubits_len(w, 6);
                lemma_ubits_len(vs.len(), w);
                lemma_slice(bits, start, wb + nb, body);
                lemma_slice(bits, start, wb, nb);
                lemma_read_u_at(bits, start, w, 6);
                lemma_read_u_at(bits, start + 6, vs.len(), w);
                lemma_round_trip_items(s, vs, items_of(p), bits, start + 6 + w, 0);
            }
        },
        _ => {},
    }
}

/// Items `i` on read back one after another, as `restored_items` says.
pub proof fn lemma_round_trip_items(
    s: Schema,
    vs: Seq<Val>,
    ps: Option<Seq<Val>>,
    bits: Seq<bool>,
    pos: nat,
    i: nat,
)
    requires
        schema_ok(s),
        s is Record || s is Array || s is List,
        items_wt(s, vs, 0),
        s is Record ==> vs.len() == parts_len(s),
        s is Array ==> vs.len() == s->Array_len,
        ps is Some ==> items_wt(s, ps->0, 0),
        enc_items(s, vs, ps, i) is Some,
        pos + enc_items(s, vs, ps, i)->0.len() <= bits.len(),
        seg(bits, pos, enc_items(s, vs, ps, i)->0.len()) == enc_items(s, vs, ps, i)->0,
    ensures
        dec_items(s, vs.len(), ps, bits, pos, i) == Ok::<(Seq<Val>, nat), DeltaError>(
            (restored_items(s, vs, ps, i), pos + enc_items(s, vs, ps, i)->0.len()),
        ),
    decreases s, 0nat, vs.len() - i,
{
    if i < vs.len() {
        let child = part(s, i);
        let q = item_prior(ps, i);
        lemma_items_wt(s, vs, 0, i);
        if let Some(pv) = ps {
            if i < pv.len() {
                lemma_items_wt(s, pv, 0, i);
            }
        }
        match s {
            Schema::Record { fields, .. } => {
                lemma_fields_ok(s, 0, i);
                assert(decreases_to!(s => s->Record_fields));
            },
            Schema::Array { elem, .. } => {
                assert(decreases_to!(s => s->Array_elem));
            },
            Schema::List { elem, .. } => {
                assert(decreases_to!(s => s->List_elem));
            },
            _ => {},
        }
        let a = enc(child, vs[i as int], q)->0;
        let b = enc_items(s, vs, ps, i + 1)->0;
        lemma_slice(bits, pos, a, b);
        lemma_round_trip(child, vs[i as int], q, bits, pos);
        lemma_round_trip_items(s, vs, ps, bits, pos + a.len(), i + 1);
    }
}

/// Decoding with no prior gives back what was encoded with no prior, up to
/// the quantisation of fixed-point floats and the defaults of `default`
/// fields.
pub proof fn lemma_inverse_no_prior(s: Schema, v: Val)
    requires
        schema_ok(s),
        wt(s, v),
        enc(s, v, None) is Some,
    ensures
        dec(s, None, enc(s, v, None)->0, 0) == Ok::<(Val, nat), DeltaError>(
            (restored(s, v, None), enc(s, v, None)->0.len()),
        ),
{
    let e = enc(s, v, None)->0;
    assert(seg(e, 0, e.len()) =~= e);
    lemma_round_trip(s, v, None, e, 0);
}

/// Decoding against a prior gives back what was encoded against the same
/// prior, up to the quantisation of fixed-point floats and the defaults of
/// `default` fields.
pub proof fn lemma_inverse_with_prior(s: Schema, v: Val, p: Val)
    requires
        schema_ok(s),
        wt(s, v),
        wt(s, p),
        enc(s, v, Some(p)) is Some,
    ensures
        dec(s, Some(p), enc(s, v, Some(p))->0, 0) == Ok::<(Val, nat), DeltaError>(
            (restored(s, v, Some(p)), enc(s, v, Some(p))->0.len()),
        ),
{
    let e = enc(s, v, Some(p))->0;
    assert(seg(e, 0, e.len()) =~= e);
    lemma_round_trip(s, v, Some(p), e, 0);
}

/// Decoding reads exactly the bits that encoding wrote, whatever follows them.
pub proof fn lemma_length(s: Schema, v: Val, p: Option<Val>, rest: Seq<bool>)
    requires
        schema_ok(s),
        wt(s, v),
        p is Some ==> wt(s, p->0),
        enc(s, v, p) is Some,
    ensures
        dec(s, p, enc(s, v, p)->0 + rest, 0) is Ok,
        dec(s, p, enc(s, v, p)->0 + rest, 0)->Ok_0.1 == enc(s, v, p)->0.len(),
{
    let e = enc(s, v, p)->0;
    assert(seg(e + rest, 0, e.len()) =~= e);
    lemma_round_trip(s, v, p, e + rest, 0);
}

/// Encoding is a function of the schema, the value and the prior: two
/// encodes of the same pair give the same bits.
pub proof fn lemma_deterministic(s: Schema, v1: Val, v2: Val, p1: Option<Val>, p2: Option<Val>)
    requires
        v1 == v2,
        p1 == p2,
    ensures
        enc(s, v1, p1) == enc(s, v2, p2),
{
}

/// A union's bits start, after the `complete` head bit, with the index of
/// the variant in `ceil_log2(n)` bits.
pub proof fn lemma_variant_framing(s: Schema, v: Val, p: Option<Val>)
    requires
        s is Union,
        v is Variant,
        enc(s, v, p) is Some,
        !(s->Union_complete && p == Some(v)),
    ensures
        ({
            let e = enc(s, v, p)->0;
            let h: int = if s->Union_complete { 1 } else { 0 };
            let tw = ceil_log2(s->Union_variants.len() as nat);
            &&& h + tw <= e.len()
            &&& e.subrange(h, h + tw) == ubits(v->Variant_0, tw)
        }),
{
    let e = enc(s, v, p)->0;
    let i = v->Variant_0;
    let tw = ceil_log2(s->Union_variants.len() as nat);
    let sel = ubits(i, tw);
    let body = enc(s->Union_variants[i as int], *v->Variant_1, same_variant(p, i))->0;
    lemma_ubits_len(i, tw);
    if s->Union_complete {
        assert(e == seq![true] + (sel + body));
        assert(e.subrange(1, (1 + tw) as int) =~= sel);
    } else {
        assert(e == sel + body);
        assert(e.subrange(0, tw as int) =~= sel);
    }
}

/// No bit of `e` is set.
pub open spec fn all_zero(e: Seq<bool>) -> bool {
    forall|k: int| 0 <= k < e.len() ==> !#[trigger] e[k]
}

/// Every scalar of the schema has an "unchanged" mark of zeros: nothing is
/// `always`, and there is no bool, optional, or union outside a `complete`
/// aggregate (those write their content even when it is unchanged).
pub open spec fn quiet(s: Schema) -> bool
    decreases s, 1nat, 0int,
{
    match s {
        Schema::Bool => false,
        Schema::Int(c) => !c.always,
        Schema::Float(c) => !c.always,
        Schema::Record { complete, .. } => complete || quiet_fields(s, 0),
        Schema::Union { complete, .. } => complete,
        Schema::Array { elem, .. } => quiet(*elem),
        Schema::Opt(_) => false,
        Schema::List { always, .. } => !always,
        Schema::Default(_) => true,
    }
}

/// Fields `i` on of a record are quiet.
pub open spec fn quiet_fields(s: Schema, i: nat) -> bool
    decreases s, 0nat, parts_len(s) - i,
{
    if i >= parts_len(s) {
        true
    } else {
        match s {
            Schema::Record { fields, .. } => quiet(fields[i as int]) && quiet_fields(s, i + 1),
            _ => true,
        }
    }
}

pub proof fn lemma_quiet_fields(s: Schema, i: nat, j: nat)
    requires
        quiet_fields(s, i),
        s is Record,
        i <= j < parts_len(s),
    ensures
        quiet(part(s, j)),
    decreases j - i,
{
    if i < j {
        lemma_quiet_fields(s, i + 1, j);
    }
}

pub proof fn lemma_ubits_zero(n: nat)
    ensures
        all_zero(ubits(0, n)),
        ubits(0, n).len() == n,
    decreases n,
{
    lemma_ubits_len(0, n);
    if n > 0 {
        lemma_ubits_zero((n - 1) as nat);
        let z = ubits(0, (n - 1) as nat);
        assert(ubits(0, n) == z.push(false));
    }
}

/// With a value as its own prior and no `always` anywhere, encoding writes
/// only zeros: "unchanged" marks and `complete` head bits.
pub proof fn lemma_unchanged_is_zeros(s: Schema, v: Val)
    requires
        schema_ok(s),
        quiet(s),
        wt(s, v),
    ensures
        enc(s, v, Some(v)) is Some,
        all_zero(enc(s, v, Some(v))->0),
    decreases s, 1nat, 0int,
{
    match s {
        Schema::Int(c) => {
            if c.options.len() > 0 {
                lemma_ubits_zero(ceil_log2(num_states(c.options.len() as nat, c.always)));
            }
        },
        Schema::Float(c) => {
            match c.mode {
                FloatMode::FixedSub { slots, .. } => {
                    lemma_ubits_zero(ceil_log2(num_states(slots.len() as nat, c.always)));
                },
                _ => {},
            }
        },
        Schema::Record { complete, .. } => {
            if !complete {
                lemma_unchanged_items_zero(s, v->Items_0, 0);
            }
        },
        Schema::Array { .. } => {
            lemma_unchanged_items_zero(s, v->Items_0, 0);
        },
        _ => {},
    }
}

/// Items `i` on, each against itself, encode to zeros only.
pub proof fn lemma_unchanged_items_zero(s: Schema, vs: Seq<Val>, i: nat)
    requires
        schema_ok(s),
        s is Record || s is Array,
        s is Record ==> quiet_fields(s, 0) && vs.len() == parts_len(s),
        s is Array ==> quiet(*s->Array_elem),
        items_wt(s, vs, 0),
    ensures
        enc_items(s, vs, Some(vs), i) is Some,
        all_zero(enc_items(s, vs, Some(vs), i)->0),
    decreases s, 0nat, vs.len() - i,
{
    if i < vs.len() {
        lemma_items_wt(s, vs, 0, i);
        match s {
            Schema::Record { fields, .. } => {
                lemma_fields_ok(s, 0, i);
                lemma_quiet_fields(s, 0, i);
                assert(decreases_to!(s => s->Record_fields));
            },
            Schema::Array { elem, .. } => {
                assert(decreases_to!(s => s->Array_elem));
            },
            _ => {},
        }
        let child = part(s, i);
        lemma_unchanged_is_zeros(child, vs[i as int]);
        lemma_unchanged_items_zero(s, vs, i + 1);
        let a = enc(child, vs[i as int], Some(vs[i as int]))->0;
        let b = enc_items(s, vs, Some(vs), i + 1)->0;
        assert(enc_items(s, vs, Some(vs), i)->0 == a + b);
        assert forall|k: int| 0 <= k < (a + b).len() implies !#[trigger] (a + b)[k] by {
            if k < a.len() {
                assert((a + b)[k] == a[k]);
            } else {
                assert((a + b)[k] == b[k - a.len()]);
            }
        }
    }
}

/// No part of the schema quantises or drops a value: no fixed-point float
/// and no `default` field.
pub open spec fn exact(s: Schema) -> bool
    decreases s, 1nat, 0int,
{
    match s {
        Schema::Float(c) => c.mode is Raw,
        Schema::Record { .. } => exact_parts(s, 0),
        Schema::Union { .. } => exact_parts(s, 0),
        Schema::Array { elem, .. } => exact(*elem),
        Schema::Opt(elem) => exact(*elem),
        Schema::List { elem, .. } => exact(*elem),
        Schema::Default(_) => false,
        _ => true,
    }
}

/// The fields or variants of `s` from `i` on are exact.
pub open spec fn exact_parts(s: Schema, i: nat) -> bool
    decreases s, 0nat, parts_len(s) - i,
{
    if i >= parts_len(s) {
        true
    } else {
        match s {
            Schema::Record { fields, .. } => exact(fields[i as int]) && exact_parts(s, i + 1),
            Schema::Union { variants, .. } => exact(variants[i as int]) && exact_parts(s, i + 1),
            _ => true,
        }
    }
}

proof fn lemma_exact_parts(s: Schema, i: nat, j: nat)
    requires
        exact_parts(s, i),
        i <= j < parts_len(s),
    ensures
        exact(part(s, j)),
    decreases j - i,
{
    if i < j {
        lemma_exact_parts(s, i + 1, j);
    }
}

/// Where nothing is quantised or dropped, decoding gives back the value
/// itself.
pub proof fn lemma_restored_exact(s: Schema, v: Val, p: Option<Val>)
    requires
        exact(s),
        wt(s, v),
    ensures
        restored(s, v, p) == v,
    decreases s, 1nat, 0int,
{
    match s {
        Schema::Record { .. } => {
            let vs = v->Items_0;
            lemma_restored_items_exact(s, vs, items_of(p), 0);
            assert(vs.subrange(0, vs.len() as int) =~= vs);
        },
        Schema::Union { variants, .. } => {
            let i = v->Variant_0;
            lemma_exact_parts(s, 0, i);
            assert(decreases_to!(s => s->Union_variants));
            lemma_restored_exact(variants[i as int], *v->Variant_1, same_variant(p, i));
        },
        Schema::Array { .. } => {
            let vs = v->Items_0;
            lemma_restored_items_exact(s, vs, items_of(p), 0);
            assert(vs.subrange(0, vs.len() as int) =~= vs);
        },
        Schema::Opt(elem) => {
            if let Val::Opt(Some(x)) = v {
                lemma_restored_exact(*elem, *x, opt_inner(p));
            }
        },
        Schema::List { .. } => {
            let vs = v->Items_0;
            lemma_restored_items_exact(s, vs, items_of(p), 0);
            assert(vs.subrange(0, vs.len() as int) =~= vs);
        },
        _ => {},
    }
}

/// Where nothing is quantised or dropped, items `i` on come back unchanged.
proof fn lemma_restored_items_exact(s: Schema, vs: Seq<Val>, ps: Option<Seq<Val>>, i: nat)
    requires
        s is Record || s is Array || s is List,
        exact(s),
        items_wt(s, vs, 0),
        s is Record ==> vs.len() == parts_len(s),
        i <= vs.len(),
    ensures
        restored_items(s, vs, ps, i) == vs.subrange(i as int, vs.len() as int),
    decreases s, 0nat, vs.len() - i,
{
    if i < vs.len() {
        lemma_items_wt(s, vs, 0, i);
        match s {
            Schema::Record { .. } => {
                lemma_exact_parts(s, 0, i);
                assert(decreases_to!(s => s->Record_fields));
            },
            Schema::Array { .. } => {
                assert(decreases_to!(s => s->Array_elem));
            },
            Schema::List { .. } => {
                assert(decreases_to!(s => s->List_elem));
            },
            _ => {},
        }
        lemma_restored_exact(part(s, i), vs[i as int], item_prior(ps, i));
        lemma_restored_items_exact(s, vs, ps, i + 1);
        assert(seq![vs[i as int]] + vs.subrange((i + 1) as int, vs.len() as int) =~= vs.subrange(
            i as int,
            vs.len() as int,
        ));
    } else {
        assert(vs.subrange(i as int, vs.len() as int) =~= Seq::<Val>::empty());
    }
}

/// Decoding gives back exactly what was encoded, where nothing is quantised
/// or dropped.
pub proof fn lemma_inverse_exact(s: Schema, v: Val, p: Option<Val>)
    requires
        schema_ok(s),
        exact(s),
        wt(s, v),
        p is Some ==> wt(s, p->0),
        enc(s, v, p) is Some,
    ensures
        dec(s, p, enc(s, v, p)->0, 0) == Ok::<(Val, nat), DeltaError>((v, enc(s, v, p)->0.len())),
{
    let e = enc(s, v, p)->0;
    assert(seg(e, 0, e.len()) =~= e);
    lemma_round_trip(s, v, p, e, 0);
    lemma_restored_exact(s, v, p);
}

} // verus!
