//! The wire format, stated as functions from values to bits and back.
use crate::bits::{fits_signed, sbits, two_pow, ubits};
use crate::schema::{FloatCodec, FloatMode, IntCodec, Prim, Schema, Val};
use crate::stream::{read_s, read_u, DeltaError};
use vstd::prelude::*;

verus! {

/// Bits needed to tell `k` states apart: `log2` of the next power of two.
pub open spec fn ceil_log2(k: nat) -> nat
    decreases k,
{
    if k <= 1 {
        0
    } else {
        1 + ceil_log2(((k + 1) / 2) as nat)
    }
}

/// Slots taken by a selector in front of `n` options.
pub open spec fn num_states(n: nat, always: bool) -> nat {
    if always {
        n
    } else {
        n + 1
    }
}

/// `v` in `n` bits, signed or not as `prim` is.
pub open spec fn int_bits(prim: Prim, v: int, n: nat) -> Seq<bool> {
    if prim.is_signed() {
        sbits(v, n)
    } else {
        ubits(v as nat, n)
    }
}

/// The integer in the `n` bits at `pos`, signed or not as `prim` is.
pub open spec fn read_int(prim: Prim, bits: Seq<bool>, pos: nat, n: nat) -> Option<int> {
    if prim.is_signed() {
        read_s(bits, pos, n)
    } else {
        match read_u(bits, pos, n) {
            Some(x) => Some(x as int),
            None => None,
        }
    }
}

/// Index of the first option from `i` on whose width holds `t`.
pub open spec fn first_fit(opts: Seq<u8>, prim: Prim, t: int, i: nat) -> Option<nat>
    decreases opts.len() - i,
{
    if i >= opts.len() {
        None
    } else if prim.fits(t, opts[i as int] as nat) {
        Some(i)
    } else {
        first_fit(opts, prim, t, i + 1)
    }
}

/// Index of the first slot from `i` on that holds the scaled value `t`; the
/// escape slot holds any value.
pub open spec fn first_slot(slots: Seq<Option<u8>>, t: int, i: nat) -> Option<nat>
    decreases slots.len() - i,
{
    if i >= slots.len() {
        None
    } else {
        match slots[i as int] {
            None => Some(i),
            Some(w) => if fits_signed(t, w as nat) {
                Some(i)
            } else {
                first_slot(slots, t, i + 1)
            },
        }
    }
}

pub open spec fn int_prior(p: Option<Val>) -> Option<int> {
    match p {
        Some(Val::Int(b)) => Some(b),
        _ => None,
    }
}

/// Presence bit `1` in front of a body, when there is a body.
pub open spec fn present(body: Option<Seq<bool>>) -> Option<Seq<bool>> {
    match body {
        Some(b) => Some(seq![true] + b),
        None => None,
    }
}

/// The bits of an integer field.
pub open spec fn int_enc(c: IntCodec, v: int, p: Option<Val>) -> Option<Seq<bool>> {
    let opts = c.options@;
    let unchanged = !c.always && p == Some(Val::Int(v));
    if opts.len() == 0 {
        let body = if c.prim.fits(v, c.width as nat) {
            Some(int_bits(c.prim, v, c.width as nat))
        } else {
            None
        };
        if c.always {
            body
        } else if unchanged {
            Some(seq![false])
        } else {
            present(body)
        }
    } else {
        let off: nat = if c.always {
            0
        } else {
            1
        };
        let sw = ceil_log2(num_states(opts.len(), c.always));
        if unchanged {
            Some(ubits(0, sw))
        } else {
            let t = match int_prior(p) {
                Some(b) => if c.diff {
                    v - b
                } else {
                    v
                },
                None => v,
            };
            match first_fit(opts, c.prim, t, 0) {
                Some(i) => Some(ubits(i + off, sw) + int_bits(c.prim, t, opts[i as int] as nat)),
                None => None,
            }
        }
    }
}

/// The prior value where the stream says "unchanged".
pub open spec fn keep(p: Option<Val>, end: nat) -> Result<(Val, nat), DeltaError> {
    match p {
        Some(b) => Ok((b, end)),
        None => Err(DeltaError::MissingPriorState),
    }
}

/// An integer field read back from `pos`.
pub open spec fn int_dec(c: IntCodec, p: Option<Val>, bits: Seq<bool>, pos: nat) -> Result<
    (Val, nat),
    DeltaError,
> {
    let opts = c.options@;
    if opts.len() == 0 {
        let w = c.width as nat;
        if c.always {
            match read_int(c.prim, bits, pos, w) {
                Some(x) => Ok((Val::Int(x), pos + w)),
                None => Err(DeltaError::IoFailure),
            }
        } else if pos >= bits.len() {
            Err(DeltaError::IoFailure)
        } else if bits[pos as int] {
            match read_int(c.prim, bits, pos + 1, w) {
                Some(x) => Ok((Val::Int(x), pos + 1 + w)),
                None => Err(DeltaError::IoFailure),
            }
        } else {
            keep(p, pos + 1)
        }
    } else {
        let off: nat = if c.always {
            0
        } else {
            1
        };
        let sw = ceil_log2(num_states(opts.len(), c.always));
        match read_u(bits, pos, sw) {
            None => Err(DeltaError::IoFailure),
            Some(sel) => if !c.always && sel == 0 {
                keep(p, pos + sw)
            } else if sel - off >= opts.len() {
                Err(DeltaError::MalformedStream)
            } else {
                let w = opts[sel - off] as nat;
                match read_int(c.prim, bits, pos + sw, w) {
                    None => Err(DeltaError::IoFailure),
                    Some(x) => if c.diff && p is Some {
                        match int_prior(p) {
                            Some(b) => if c.prim.holds(b + x) {
                                Ok((Val::Int(b + x), pos + sw + w as nat))
                            } else {
                                Err(DeltaError::MalformedStream)
                            },
                            None => Err(DeltaError::MissingPriorState),
                        }
                    } else {
                        Ok((Val::Int(x), pos + sw + w as nat))
                    },
                }
            },
        }
    }
}

/// IEEE bits of a float value.
pub open spec fn raw_of(v: Val) -> nat {
    match v {
        Val::Float(b) => b,
        Val::Real { bits, .. } => bits,
        _ => 0,
    }
}

/// Scaled fixed-point integer of a float value.
pub open spec fn scaled_of(v: Val) -> int {
    match v {
        Val::Real { scaled, .. } => scaled,
        Val::Fixed(k) => k,
        _ => 0,
    }
}

/// Scaled fixed-point integer of a prior, where it has one.
pub open spec fn prior_scaled(p: Option<Val>) -> Option<int> {
    match p {
        Some(Val::Real { scaled, .. }) => Some(scaled),
        Some(Val::Fixed(k)) => Some(k),
        _ => None,
    }
}

/// The bits of a float field.
pub open spec fn float_enc(c: FloatCodec, v: Val, p: Option<Val>) -> Option<Seq<bool>> {
    let unchanged = !c.always && p == Some(v);
    let raw = ubits(raw_of(v), c.raw_bits());
    match c.mode {
        FloatMode::Raw => if c.always {
            Some(raw)
        } else if unchanged {
            Some(seq![false])
        } else {
            Some(seq![true] + raw)
        },
        FloatMode::FixedBits { whole, fract } => {
            let w = (whole + fract) as nat;
            let body = if fits_signed(scaled_of(v), w) {
                Some(sbits(scaled_of(v), w))
            } else {
                None
            };
            if c.always {
                body
            } else if unchanged {
                Some(seq![false])
            } else {
                present(body)
            }
        },
        FloatMode::FixedSub { fract, slots } => {
            let off: nat = if c.always {
                0
            } else {
                1
            };
            let sw = ceil_log2(num_states(slots.len() as nat, c.always));
            if unchanged {
                Some(ubits(0, sw))
            } else {
                let t = match prior_scaled(p) {
                    Some(b) => if c.diff {
                        scaled_of(v) - b
                    } else {
                        scaled_of(v)
                    },
                    None => scaled_of(v),
                };
                match first_slot(slots@, t, 0) {
                    Some(i) => Some(
                        ubits(i + off, sw) + match slots@[i as int] {
                            Some(w) => sbits(t, w as nat),
                            None => raw,
                        },
                    ),
                    None => None,
                }
            }
        },
    }
}

/// A float field read back from `pos`.
pub open spec fn float_dec(c: FloatCodec, p: Option<Val>, bits: Seq<bool>, pos: nat) -> Result<
    (Val, nat),
    DeltaError,
> {
    let rb = c.raw_bits();
    match c.mode {
        FloatMode::Raw => {
            let start: nat = if c.always {
                pos
            } else {
                pos + 1
            };
            if !c.always && pos >= bits.len() {
                Err(DeltaError::IoFailure)
            } else if !c.always && !bits[pos as int] {
                keep(p, pos + 1)
            } else {
                match read_u(bits, start, rb) {
                    Some(x) => Ok((Val::Float(x), start + rb)),
                    None => Err(DeltaError::IoFailure),
                }
            }
        },
        FloatMode::FixedBits { whole, fract } => {
            let w = (whole + fract) as nat;
            let start: nat = if c.always {
                pos
            } else {
                pos + 1
            };
            if !c.always && pos >= bits.len() {
                Err(DeltaError::IoFailure)
            } else if !c.always && !bits[pos as int] {
                keep(p, pos + 1)
            } else {
                match read_s(bits, start, w) {
                    Some(x) => Ok((Val::Fixed(x), start + w)),
                    None => Err(DeltaError::IoFailure),
                }
            }
        },
        FloatMode::FixedSub { fract, slots } => {
            let off: nat = if c.always {
                0
            } else {
                1
            };
            let sw = ceil_log2(num_states(slots.len() as nat, c.always));
            match read_u(bits, pos, sw) {
                None => Err(DeltaError::IoFailure),
                Some(sel) => if !c.always && sel == 0 {
                    keep(p, pos + sw)
                } else if sel - off >= slots.len() {
                    Err(DeltaError::MalformedStream)
                } else {
                    match slots@[sel - off] {
                        None => match read_u(bits, pos + sw, rb) {
                            Some(x) => Ok((Val::Float(x), pos + sw + rb)),
                            None => Err(DeltaError::IoFailure),
                        },
                        Some(w) => match read_s(bits, pos + sw, w as nat) {
                            None => Err(DeltaError::IoFailure),
                            Some(x) => if c.diff && p is Some {
                                match prior_scaled(p) {
                                    Some(b) => if fits_signed(b + x, 64) {
                                        Ok((Val::Fixed(b + x), pos + sw + w as nat))
                                    } else {
                                        Err(DeltaError::MalformedStream)
                                    },
                                    None => Err(DeltaError::MissingPriorState),
                                }
                            } else {
                                Ok((Val::Fixed(x), pos + sw + w as nat))
                            },
                        },
                    }
                },
            }
        },
    }
}

/// What a float field reads back as: itself where it was unchanged, its
/// fixed-point value where a fixed slot took it, its raw bits through the escape.
pub open spec fn float_restored(c: FloatCodec, v: Val, p: Option<Val>) -> Val {
    let unchanged = !c.always && p == Some(v);
    match c.mode {
        FloatMode::Raw => v,
        FloatMode::FixedBits { .. } => if unchanged {
            v
        } else {
            Val::Fixed(scaled_of(v))
        },
        FloatMode::FixedSub { slots, .. } => {
            let t = match prior_scaled(p) {
                Some(b) => if c.diff {
                    scaled_of(v) - b
                } else {
                    scaled_of(v)
                },
                None => scaled_of(v),
            };
            if unchanged {
                v
            } else {
                match first_slot(slots@, t, 0) {
                    Some(i) => match slots@[i as int] {
                        Some(_) => Val::Fixed(scaled_of(v)),
                        None => Val::Float(raw_of(v)),
                    },
                    None => v,
                }
            }
        },
    }
}

/// The items of a prior record, array or list.
pub open spec fn items_of(p: Option<Val>) -> Option<Seq<Val>> {
    match p {
        Some(Val::Items(q)) => Some(q),
        _ => None,
    }
}

/// The prior of item `i`, where the prior has one.
pub open spec fn item_prior(ps: Option<Seq<Val>>, i: nat) -> Option<Val> {
    match ps {
        Some(q) => if i < q.len() {
            Some(q[i as int])
        } else {
            None
        },
        None => None,
    }
}

/// The payload of a prior that has variant `i`.
pub open spec fn same_variant(p: Option<Val>, i: nat) -> Option<Val> {
    match p {
        Some(Val::Variant(j, x)) => if j == i {
            Some(*x)
        } else {
            None
        },
        _ => None,
    }
}

/// The content of a present prior option.
pub open spec fn opt_inner(p: Option<Val>) -> Option<Val> {
    match p {
        Some(Val::Opt(Some(x))) => Some(*x),
        _ => None,
    }
}

/// The head bit of a `complete` aggregate in front of its body.
pub open spec fn complete_frame(complete: bool, v: Val, p: Option<Val>, body: Option<Seq<bool>>) -> Option<Seq<bool>> {
    if !complete {
        body
    } else if p == Some(v) {
        Some(seq![false])
    } else {
        present(body)
    }
}

/// Bits that `n` takes without leading zeros.
pub open spec fn bit_len(n: nat) -> nat
    decreases n,
{
    if n == 0 {
        0
    } else {
        1 + bit_len(n / 2)
    }
}

/// Bits of the width field in front of a list's length.
pub open spec fn width_bits() -> nat {
    6
}

/// A list's length, prefixed with its own width: the width `w` in six bits,
/// then the length in `w` bits.
pub open spec fn len_prefix(n: nat) -> Seq<bool> {
    ubits(bit_len(n), width_bits()) + ubits(n, bit_len(n))
}

/// Lists are shorter than this: their width fits the six-bit field.
pub open spec fn max_len() -> nat {
    two_pow(63)
}

/// The schema's hints are usable: widths within their types, and few enough
/// options and variants to number.
pub open spec fn schema_ok(s: Schema) -> bool
    decreases s, 1nat, 0int,
{
    match s {
        Schema::Bool => true,
        Schema::Int(c) => c.wf(),
        Schema::Float(c) => c.wf(),
        Schema::Record { fields, .. } => fields_ok(s, 0),
        Schema::Union { variants, .. } => 1 <= variants.len() < 0x1_0000_0000 && fields_ok(s, 0),
        Schema::Array { elem, .. } => schema_ok(*elem),
        Schema::Opt(elem) => schema_ok(*elem),
        Schema::List { elem, .. } => schema_ok(*elem),
        Schema::Default(inner) => schema_ok(*inner),
    }
}

/// The fields or variants of `s` from `i` on are usable.
pub open spec fn fields_ok(s: Schema, i: nat) -> bool
    decreases s, 0nat, parts_len(s) - i,
{
    if i >= parts_len(s) {
        true
    } else {
        match s {
            Schema::Record { fields, .. } => schema_ok(fields[i as int]) && fields_ok(s, i + 1),
            Schema::Union { variants, .. } => schema_ok(variants[i as int]) && fields_ok(s, i + 1),
            _ => true,
        }
    }
}

/// Number of fields of a record or variants of a union.
pub open spec fn parts_len(s: Schema) -> nat {
    match s {
        Schema::Record { fields, .. } => fields.len() as nat,
        Schema::Union { variants, .. } => variants.len() as nat,
        _ => 0,
    }
}

/// `v` is a value of the type that `s` describes.
pub open spec fn wt(s: Schema, v: Val) -> bool
    decreases s, 1nat, 0int,
{
    match s {
        Schema::Bool => v is Bool,
        Schema::Int(c) => match v {
            Val::Int(x) => c.prim.holds(x),
            _ => false,
        },
        Schema::Float(c) => match c.mode {
            FloatMode::Raw => match v {
                Val::Float(b) => b < two_pow(c.raw_bits()),
                _ => false,
            },
            _ => match v {
                Val::Real { bits, scaled } => bits < two_pow(c.raw_bits()) && fits_signed(scaled, 64),
                _ => false,
            },
        },
        Schema::Record { fields, .. } => match v {
            Val::Items(vs) => vs.len() == fields.len() && items_wt(s, vs, 0),
            _ => false,
        },
        Schema::Union { variants, .. } => match v {
            Val::Variant(i, x) => i < variants.len() && wt(variants[i as int], *x),
            _ => false,
        },
        Schema::Array { len, .. } => match v {
            Val::Items(vs) => vs.len() == len && items_wt(s, vs, 0),
            _ => false,
        },
        Schema::Opt(elem) => match v {
            Val::Opt(None) => true,
            Val::Opt(Some(x)) => wt(*elem, *x),
            _ => false,
        },
        Schema::List { .. } => match v {
            Val::Items(vs) => vs.len() < max_len() && items_wt(s, vs, 0),
            _ => false,
        },
        Schema::Default(inner) => wt(*inner, v),
    }
}

/// Items `i` on of `vs` are values of their part of `s`.
pub open spec fn items_wt(s: Schema, vs: Seq<Val>, i: nat) -> bool
    decreases s, 0nat, vs.len() - i,
{
    if i >= vs.len() {
        true
    } else {
        let here = match s {
            Schema::Record { fields, .. } => i < fields.len() && wt(fields[i as int], vs[i as int]),
            Schema::Array { elem, .. } => wt(*elem, vs[i as int]),
            Schema::List { elem, .. } => wt(*elem, vs[i as int]),
            _ => false,
        };
        here && items_wt(s, vs, i + 1)
    }
}

/// The bits that encode `v` against the prior `p`; `None` where a value fits
/// none of its widths.
pub open spec fn enc(s: Schema, v: Val, p: Option<Val>) -> Option<Seq<bool>>
    decreases s, 1nat, 0int,
{
    match s {
        Schema::Bool => match v {
            Val::Bool(b) => Some(seq![b]),
            _ => None,
        },
        Schema::Int(c) => match v {
            Val::Int(x) => int_enc(c, x, p),
            _ => None,
        },
        Schema::Float(c) => float_enc(c, v, p),
        Schema::Record { complete, .. } => match v {
            Val::Items(vs) => complete_frame(complete, v, p, enc_items(s, vs, items_of(p), 0)),
            _ => None,
        },
        Schema::Union { complete, variants } => match v {
            Val::Variant(i, x) => if i < variants.len() {
                let sel = ubits(i, ceil_log2(variants.len() as nat));
                let body = match enc(variants[i as int], *x, same_variant(p, i)) {
                    Some(b) => Some(sel + b),
                    None => None,
                };
                complete_frame(complete, v, p, body)
            } else {
                None
            },
            _ => None,
        },
        Schema::Array { .. } => match v {
            Val::Items(vs) => enc_items(s, vs, items_of(p), 0),
            _ => None,
        },
        Schema::Opt(elem) => match v {
            Val::Opt(None) => Some(seq![false]),
            Val::Opt(Some(x)) => present(enc(*elem, *x, opt_inner(p))),
            _ => None,
        },
        Schema::List { always, .. } => match v {
            Val::Items(vs) => if !always && p == Some(v) {
                Some(seq![false])
            } else if vs.len() < max_len() {
                match enc_items(s, vs, items_of(p), 0) {
                    Some(b) => {
                        let head = len_prefix(vs.len()) + b;
                        if always {
                            Some(head)
                        } else {
                            Some(seq![true] + head)
                        }
                    },
                    None => None,
                }
            } else {
                None
            },
            _ => None,
        },
        Schema::Default(_) => Some(Seq::empty()),
    }
}

/// The bits of items `i` on, each against the prior's item of the same index.
pub open spec fn enc_items(s: Schema, vs: Seq<Val>, ps: Option<Seq<Val>>, i: nat) -> Option<Seq<bool>>
    decreases s, 0nat, vs.len() - i,
{
    if i >= vs.len() {
        Some(Seq::empty())
    } else {
        let here = match s {
            Schema::Record { fields, .. } => if i < fields.len() {
                enc(fields[i as int], vs[i as int], item_prior(ps, i))
            } else {
                None
            },
            Schema::Array { elem, .. } => enc(*elem, vs[i as int], item_prior(ps, i)),
            Schema::List { elem, .. } => enc(*elem, vs[i as int], item_prior(ps, i)),
            _ => None,
        };
        match (here, enc_items(s, vs, ps, i + 1)) {
            (Some(a), Some(b)) => Some(a + b),
            _ => None,
        }
    }
}

/// The value that decoding gives for a type's `default` fields.
pub open spec fn default_of(s: Schema) -> Val
    decreases s,
{
    match s {
        Schema::Bool => Val::Bool(false),
        Schema::Int(_) => Val::Int(0),
        Schema::Float(c) => match c.mode {
            FloatMode::Raw => Val::Float(0),
            _ => Val::Real { bits: 0, scaled: 0 },
        },
        Schema::Record { fields, .. } => Val::Items(
            Seq::new(
                fields.len() as nat,
                |i: int|
                    if 0 <= i < fields.len() {
                        default_of(fields[i])
                    } else {
                        Val::Bool(false)
                    },
            ),
        ),
        Schema::Union { variants, .. } => if variants.len() > 0 {
            Val::Variant(0, Box::new(default_of(variants[0])))
        } else {
            Val::Bool(false)
        },
        Schema::Array { len, elem } => Val::Items(Seq::new(len as nat, |i: int| default_of(*elem))),
        Schema::Opt(_) => Val::Opt(None),
        Schema::List { .. } => Val::Items(Seq::empty()),
        Schema::Default(inner) => default_of(*inner),
    }
}

/// The "unchanged" head bit of a `complete` aggregate at `pos`: `Some` with
/// the outcome where it settles the value, `None` where a body follows.
pub open spec fn complete_head(complete: bool, p: Option<Val>, bits: Seq<bool>, pos: nat) -> Option<
    Result<(Val, nat), DeltaError>,
> {
    if !complete {
        None
    } else if pos >= bits.len() {
        Some(Err(DeltaError::IoFailure))
    } else if !bits[pos as int] {
        Some(keep(p, pos + 1))
    } else {
        None
    }
}

/// Decoding at `pos` against the prior `p`: the value and where it ends.
pub open spec fn dec(s: Schema, p: Option<Val>, bits: Seq<bool>, pos: nat) -> Result<(Val, nat), DeltaError>
    decreases s, 1nat, 0int,
{
    match s {
        Schema::Bool => if pos < bits.len() {
            Ok((Val::Bool(bits[pos as int]), pos + 1))
        } else {
            Err(DeltaError::IoFailure)
        },
        Schema::Int(c) => int_dec(c, p, bits, pos),
        Schema::Float(c) => float_dec(c, p, bits, pos),
        Schema::Record { complete, fields } => match complete_head(complete, p, bits, pos) {
            Some(r) => r,
            None => {
                let start: nat = if complete { pos + 1 } else { pos };
                match dec_items(s, fields.len() as nat, items_of(p), bits, start, 0) {
                    Ok((xs, end)) => Ok((Val::Items(xs), end)),
                    Err(e) => Err(e),
                }
            },
        },
        Schema::Union { complete, variants } => match complete_head(complete, p, bits, pos) {
            Some(r) => r,
            None => {
                let start: nat = if complete { pos + 1 } else { pos };
                let tw = ceil_log2(variants.len() as nat);
                match read_u(bits, start, tw) {
                    None => Err(DeltaError::IoFailure),
                    Some(i) => if i >= variants.len() {
                        Err(DeltaError::MalformedStream)
                    } else {
                        match dec(variants[i as int], same_variant(p, i), bits, start + tw) {
                            Ok((x, end)) => Ok((Val::Variant(i, Box::new(x)), end)),
                            Err(e) => Err(e),
                        }
                    },
                }
            },
        },
        Schema::Array { len, .. } => match dec_items(s, len as nat, items_of(p), bits, pos, 0) {
            Ok((xs, end)) => Ok((Val::Items(xs), end)),
            Err(e) => Err(e),
        },
        Schema::Opt(elem) => if pos >= bits.len() {
            Err(DeltaError::IoFailure)
        } else if !bits[pos as int] {
            Ok((Val::Opt(None), pos + 1))
        } else {
            match dec(*elem, opt_inner(p), bits, pos + 1) {
                Ok((x, end)) => Ok((Val::Opt(Some(Box::new(x))), end)),
                Err(e) => Err(e),
            }
        },
        Schema::List { always, .. } => if !always && pos >= bits.len() {
            Err(DeltaError::IoFailure)
        } else if !always && !bits[pos as int] {
            keep(p, pos + 1)
        } else {
            let start: nat = if always { pos } else { pos + 1 };
            match read_u(bits, start, width_bits()) {
                None => Err(DeltaError::IoFailure),
                Some(w) => match read_u(bits, start + width_bits(), w) {
                    None => Err(DeltaError::IoFailure),
                    Some(n) => match dec_items(s, n, items_of(p), bits, start + width_bits() + w, 0) {
                        Ok((xs, end)) => Ok((Val::Items(xs), end)),
                        Err(e) => Err(e),
                    },
                },
            }
        },
        Schema::Default(inner) => Ok((default_of(*inner), pos)),
    }
}

/// Decoding items `i` to `n` from `pos`, each against the prior's item of
/// the same index.
pub open spec fn dec_items(s: Schema, n: nat, ps: Option<Seq<Val>>, bits: Seq<bool>, pos: nat, i: nat) -> Result<(Seq<Val>, nat), DeltaError>
    decreases s, 0nat, n - i,
{
    if i >= n {
        Ok((Seq::empty(), pos))
    } else {
        let here = match s {
            Schema::Record { fields, .. } => if i < fields.len() {
                dec(fields[i as int], item_prior(ps, i), bits, pos)
            } else {
                Err(DeltaError::MalformedStream)
            },
            Schema::Array { elem, .. } => dec(*elem, item_prior(ps, i), bits, pos),
            Schema::List { elem, .. } => dec(*elem, item_prior(ps, i), bits, pos),
            _ => Err(DeltaError::MalformedStream),
        };
        match here {
            Err(e) => Err(e),
            Ok((x, mid)) => match dec_items(s, n, ps, bits, mid, i + 1) {
                Ok((xs, end)) => Ok((seq![x] + xs, end)),
                Err(e) => Err(e),
            },
        }
    }
}

/// What decoding gives back for `v` encoded against `p`: `v` itself, but for
/// fixed-point floats, which come back quantised, and `default` fields.
pub open spec fn restored(s: Schema, v: Val, p: Option<Val>) -> Val
    decreases s, 1nat, 0int,
{
    match s {
        Schema::Float(c) => float_restored(c, v, p),
        Schema::Record { complete, .. } => match v {
            Val::Items(vs) => if complete && p == Some(v) {
                v
            } else {
                Val::Items(restored_items(s, vs, items_of(p), 0))
            },
            _ => v,
        },
        Schema::Union { complete, variants } => match v {
            Val::Variant(i, x) => if complete && p == Some(v) {
                v
            } else if i < variants.len() {
                Val::Variant(i, Box::new(restored(variants[i as int], *x, same_variant(p, i))))
            } else {
                v
            },
            _ => v,
        },
        Schema::Array { .. } => match v {
            Val::Items(vs) => Val::Items(restored_items(s, vs, items_of(p), 0)),
            _ => v,
        },
        Schema::Opt(elem) => match v {
            Val::Opt(Some(x)) => Val::Opt(Some(Box::new(restored(*elem, *x, opt_inner(p))))),
            _ => v,
        },
        Schema::List { always, .. } => match v {
            Val::Items(vs) => if !always && p == Some(v) {
                v
            } else {
                Val::Items(restored_items(s, vs, items_of(p), 0))
            },
            _ => v,
        },
        Schema::Default(inner) => default_of(*inner),
        _ => v,
    }
}

/// What items `i` on of `vs` decode back as.
pub open spec fn restored_items(s: Schema, vs: Seq<Val>, ps: Option<Seq<Val>>, i: nat) -> Seq<Val>
    decreases s, 0nat, vs.len() - i,
{
    if i >= vs.len() {
        Seq::empty()
    } else {
        let here = match s {
            Schema::Record { fields, .. } => if i < fields.len() {
                restored(fields[i as int], vs[i as int], item_prior(ps, i))
            } else {
                vs[i as int]
            },
            Schema::Array { elem, .. } => restored(*elem, vs[i as int], item_prior(ps, i)),
            Schema::List { elem, .. } => restored(*elem, vs[i as int], item_prior(ps, i)),
            _ => vs[i as int],
        };
        seq![here] + restored_items(s, vs, ps, i + 1)
    }
}

/// A length reads back from its width and bits.
pub proof fn lemma_bit_len(n: nat)
    ensures
        n < two_pow(bit_len(n)),
    decreases n,
{
    if n > 0 {
        lemma_bit_len(n / 2);
    }
}

/// A number below `2^m` takes at most `m` bits.
pub proof fn lemma_bit_len_bound(n: nat, m: nat)
    requires
        n < two_pow(m),
    ensures
        bit_len(n) <= m,
    decreases n,
{
    if n > 0 {
        assert(m > 0);
        lemma_bit_len_bound(n / 2, (m - 1) as nat);
    }
}

/// Part `i` of a schema: a field or variant, or the element of an array or
/// list.
pub open spec fn part(s: Schema, i: nat) -> Schema {
    match s {
        Schema::Record { fields, .. } => fields[i as int],
        Schema::Union { variants, .. } => variants[i as int],
        Schema::Array { elem, .. } => *elem,
        Schema::List { elem, .. } => *elem,
        Schema::Opt(elem) => *elem,
        Schema::Default(inner) => *inner,
        _ => s,
    }
}

/// Each field or variant of a usable schema is usable.
pub proof fn lemma_fields_ok(s: Schema, i: nat, j: nat)
    requires
        fields_ok(s, i),
        i <= j < parts_len(s),
    ensures
        schema_ok(part(s, j)),
    decreases j - i,
{
    if i < j {
        lemma_fields_ok(s, i + 1, j);
    }
}

/// Each item of a well-typed sequence is a value of its part.
pub proof fn lemma_items_wt(s: Schema, vs: Seq<Val>, i: nat, j: nat)
    requires
        items_wt(s, vs, i),
        i <= j < vs.len(),
    ensures
        wt(part(s, j), vs[j as int]),
        s is Record ==> j < parts_len(s),
    decreases j - i,
{
    if i < j {
        lemma_items_wt(s, vs, i + 1, j);
    }
}

} // verus!
