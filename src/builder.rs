//! Building a schema from the shape of a type and the hints on its parts.
use crate::hints::{decode_flags, flags_of, GenFlags, Hint};
use crate::schema::{FloatCodec, FloatMode, IntCodec, Prim, Schema};
use crate::stream::DeltaError;
use crate::prim::prim_named;
use crate::wire::{fields_ok, parts_len, schema_ok};
use vstd::string::StrSliceExecFns;
use vstd::prelude::*;

verus! {

/// Every `Bits` hint asks for between 1 and `max` bits.
pub open spec fn bits_ok(hs: Seq<Hint>, max: nat) -> bool {
    forall|k: int| 0 <= k < hs.len() ==> match #[trigger] hs[k] {
        Hint::Bits(n) => 1 <= n <= max,
        _ => true,
    }
}

/// The width that the last `Bits` hint asks for.
pub open spec fn last_bits(hs: Seq<Hint>) -> Option<u32>
    decreases hs.len(),
{
    if hs.len() == 0 {
        None
    } else {
        match hs.last() {
            Hint::Bits(n) => Some(n),
            _ => last_bits(hs.drop_last()),
        }
    }
}

/// The widths that the `SubBits` hints list, in order.
pub open spec fn sub_widths(hs: Seq<Hint>) -> Seq<u32>
    decreases hs.len(),
{
    if hs.len() == 0 {
        Seq::empty()
    } else {
        sub_widths(hs.drop_last()) + match hs.last() {
            Hint::SubBits(v) => v@,
            _ => Seq::empty(),
        }
    }
}

/// Widths that an integer of `max` bits can take, few enough to number.
pub open spec fn widths_ok(ws: Seq<u32>, max: nat) -> bool {
    &&& ws.len() < 256
    &&& forall|k: int| 0 <= k < ws.len() ==> 1 <= #[trigger] ws[k] <= max
}

/// The last `FixedBits` hint.
pub open spec fn last_fixed_bits(hs: Seq<Hint>) -> Option<(i32, i32)>
    decreases hs.len(),
{
    if hs.len() == 0 {
        None
    } else {
        match hs.last() {
            Hint::FixedBits(a, b) => Some((a, b)),
            _ => last_fixed_bits(hs.drop_last()),
        }
    }
}

/// The pairs that the `FixedSubBits` hints list, in order.
pub open spec fn sub_pairs(hs: Seq<Hint>) -> Seq<(i32, i32)>
    decreases hs.len(),
{
    if hs.len() == 0 {
        Seq::empty()
    } else {
        sub_pairs(hs.drop_last()) + match hs.last() {
            Hint::FixedSubBits(v) => v@,
            _ => Seq::empty(),
        }
    }
}

/// Every `FixedBits` hint has a usable width.
pub open spec fn fixed_bits_ok(hs: Seq<Hint>) -> bool {
    forall|k: int| 0 <= k < hs.len() ==> match #[trigger] hs[k] {
        Hint::FixedBits(a, b) => fixed_width_ok(a, b),
        _ => true,
    }
}

/// `a` whole and `b` fractional bits make a usable fixed-point width.
pub open spec fn fixed_width_ok(a: i32, b: i32) -> bool {
    0 <= a && 0 <= b && 1 <= a + b <= 64
}

/// The `-1:-1` pair that stands for the raw escape.
pub open spec fn is_escape(p: (i32, i32)) -> bool {
    p.0 == -1 && p.1 == -1
}

/// What is wrong with the fixed-point pairs from the front, where the
/// fractional width so far is `fr`: the first pair that is neither the escape
/// nor a usable width, or the first whose fractional width differs.
pub open spec fn pairs_error(ps: Seq<(i32, i32)>, fr: Option<i32>) -> Option<DeltaError>
    decreases ps.len(),
{
    if ps.len() == 0 {
        None
    } else {
        let p = ps[0];
        if is_escape(p) {
            pairs_error(ps.drop_first(), fr)
        } else if !fixed_width_ok(p.0, p.1) {
            Some(DeltaError::InvalidHint)
        } else if fr is Some && fr->0 != p.1 {
            Some(DeltaError::FractionalWidthMismatch)
        } else {
            pairs_error(ps.drop_first(), Some(p.1))
        }
    }
}

/// The fractional width of the first pair that is not the escape.
pub open spec fn first_fract(ps: Seq<(i32, i32)>) -> Option<i32>
    decreases ps.len(),
{
    if ps.len() == 0 {
        None
    } else {
        match first_fract(ps.drop_last()) {
            Some(x) => Some(x),
            None => if is_escape(ps.last()) {
                None
            } else {
                Some(ps.last().1)
            },
        }
    }
}

/// The slot of a pair: its total width, or `None` for the escape.
pub open spec fn slot_of(p: (i32, i32)) -> Option<u8> {
    if is_escape(p) {
        None
    } else {
        Some((p.0 + p.1) as u8)
    }
}

/// Collects the widths of the `SubBits` hints, and checks every `Bits` hint.
fn collect_widths(hints: &Vec<Hint>, max: u8) -> (r: Result<Vec<u32>, DeltaError>)
    ensures
        match r {
            Ok(ws) => bits_ok(hints@, max as nat) && ws@ == sub_widths(hints@),
            Err(e) => !bits_ok(hints@, max as nat) && e == DeltaError::InvalidHint,
        },
{
    let mut ws: Vec<u32> = Vec::new();
    let mut i: usize = 0;
    while i < hints.len()
        invariant
            0 <= i <= hints.len(),
            bits_ok(hints@.take(i as int), max as nat),
            ws@ == sub_widths(hints@.take(i as int)),
        decreases hints.len() - i,
    {
        proof {
            assert(hints@.take(i + 1).drop_last() =~= hints@.take(i as int));
        }
        match &hints[i] {
            Hint::Bits(n) => {
                if *n < 1 || *n > max as u32 {
                    assert(!(1 <= *n <= max) && hints@[i as int] == Hint::Bits(*n));
                    return Err(DeltaError::InvalidHint);
                }
            },
            Hint::SubBits(v) => {
                let mut j: usize = 0;
                let ghost before = ws@;
                while j < v.len()
                    invariant
                        0 <= j <= v.len(),
                        ws@ == before + v@.take(j as int),
                    decreases v.len() - j,
                {
                    ws.push(v[j]);
                    proof {
                        assert(v@.take(j + 1) =~= v@.take(j as int).push(v@[j as int]));
                        assert(before + v@.take(j + 1) =~= (before + v@.take(j as int)).push(v@[j as int]));
                    }
                    j = j + 1;
                }
                proof {
                    assert(v@.take(v.len() as int) =~= v@);
                }
            },
            _ => {},
        }
        proof {
            let t = hints@.take(i + 1);
            assert forall|k: int| 0 <= k < t.len() implies match #[trigger] t[k] {
                Hint::Bits(n) => 1 <= n <= max,
                _ => true,
            } by {
                if k < i {
                    assert(t[k] == hints@.take(i as int)[k]);
                }
            }
        }
        i = i + 1;
    }
    proof {
        assert(hints@.take(hints.len() as int) =~= hints@);
    }
    Ok(ws)
}

impl Prim {
    /// The schema of a field of this type under the aggregate's `flags` and
    /// the field's own `hints`.
    pub fn build(&self, flags: GenFlags, hints: &Vec<Hint>) -> (r: Result<Schema, DeltaError>)
        ensures
            *self == Prim::Bool ==> r == Ok::<Schema, DeltaError>(Schema::Bool),
            self.is_int() ==> match r {
                Ok(s) => int_hints_ok(*self, hints@) && schema_ok(s) && int_schema(*self, flags, hints@, s),
                Err(e) => e == DeltaError::InvalidHint && !int_hints_ok(*self, hints@),
            },
    {
        if let Prim::Bool = *self {
            return Ok(Schema::Bool);
        }
        assert(self.is_int());
        let f = flags.union(decode_flags(hints));
        let max = self.bit_width();
        let ws = match collect_widths(hints, max) {
            Ok(ws) => ws,
            Err(e) => return Err(e),
        };
        if ws.len() >= 256 {
            return Err(DeltaError::InvalidHint);
        }
        let mut options: Vec<u8> = Vec::new();
        let mut j: usize = 0;
        while j < ws.len()
            invariant
                0 <= j <= ws.len() < 256,
                self.is_int(),
                ws@ == sub_widths(hints@),
                bits_ok(hints@, max as nat),
                max as nat == self.native_bits(),
                options@.len() == j,
                forall|k: int| 0 <= k < j ==> options@[k] as u32 == ws@[k],
                forall|k: int| 0 <= k < j ==> 1 <= #[trigger] ws@[k] <= max,
            decreases ws.len() - j,
        {
            if ws[j] < 1 || ws[j] > max as u32 {
                assert(!(1 <= ws@[j as int] <= max));
                return Err(DeltaError::InvalidHint);
            }
            options.push(ws[j] as u8);
            j = j + 1;
        }
        let mut width: u8 = max;
        let mut i: usize = 0;
        while i < hints.len()
            invariant
                0 <= i <= hints.len(),
                self.is_int(),
                max as nat == self.native_bits(),
                ws@ == sub_widths(hints@),
                ws.len() < 256,
                options@.len() == ws.len(),
                forall|k: int| 0 <= k < ws.len() ==> options@[k] as u32 == ws@[k],
                forall|k: int| 0 <= k < ws.len() ==> 1 <= #[trigger] ws@[k] <= max,
                bits_ok(hints@, max as nat),
                width == match last_bits(hints@.take(i as int)) {
                    Some(n) => n as u8,
                    None => max,
                },
                1 <= width <= max,
            decreases hints.len() - i,
        {
            proof {
                assert(hints@.take(i + 1).drop_last() =~= hints@.take(i as int));
            }
            if let Hint::Bits(n) = &hints[i] {
                assert(hints@[i as int] == Hint::Bits(*n));
                width = *n as u8;
            }
            i = i + 1;
        }
        assert forall|k: int| 0 <= k < options.len() implies 1 <= #[trigger] options@[k] <= max by {
            assert(options@[k] as u32 == ws@[k]);
        }
        proof {
            assert(hints@.take(hints.len() as int) =~= hints@);
            if let Some(n) = last_bits(hints@) {
                lemma_last_bits_in(hints@);
            }
        }
        Ok(Schema::Int(IntCodec { prim: *self, width, options, always: f.always, diff: f.diff }))
    }
}

/// The last `Bits` hint is one of the hints.
proof fn lemma_last_bits_in(hs: Seq<Hint>)
    requires
        last_bits(hs) is Some,
    ensures
        exists|k: int| 0 <= k < hs.len() && hs[k] == Hint::Bits(last_bits(hs)->0),
    decreases hs.len(),
{
    match hs.last() {
        Hint::Bits(n) => {
            assert(hs[hs.len() - 1] == Hint::Bits(n));
        },
        _ => {
            lemma_last_bits_in(hs.drop_last());
            let k = choose|k: int| 0 <= k < hs.drop_last().len() && hs.drop_last()[k] == Hint::Bits(last_bits(hs)->0);
            assert(hs[k] == hs.drop_last()[k]);
        },
    }
}

/// Collects the pairs of the `FixedSubBits` hints and the last `FixedBits`
/// hint, and checks every `FixedBits` hint.
fn collect_pairs(hints: &Vec<Hint>) -> (r: Result<(Option<(i32, i32)>, Vec<(i32, i32)>), DeltaError>)
    ensures
        match r {
            Ok((last, ps)) => fixed_bits_ok(hints@) && last == last_fixed_bits(hints@) && ps@
                == sub_pairs(hints@),
            Err(e) => !fixed_bits_ok(hints@) && e == DeltaError::InvalidHint,
        },
{
    let mut ps: Vec<(i32, i32)> = Vec::new();
    let mut last: Option<(i32, i32)> = None;
    let mut i: usize = 0;
    while i < hints.len()
        invariant
            0 <= i <= hints.len(),
            fixed_bits_ok(hints@.take(i as int)),
            last == last_fixed_bits(hints@.take(i as int)),
            ps@ == sub_pairs(hints@.take(i as int)),
        decreases hints.len() - i,
    {
        proof {
            assert(hints@.take(i + 1).drop_last() =~= hints@.take(i as int));
        }
        match &hints[i] {
            Hint::FixedBits(a, b) => {
                if !(*a >= 0 && *b >= 0 && *a as i64 + *b as i64 >= 1 && *a as i64 + *b as i64 <= 64) {
                    assert(hints@[i as int] == Hint::FixedBits(*a, *b));
                    return Err(DeltaError::InvalidHint);
                }
                last = Some((*a, *b));
            },
            Hint::FixedSubBits(v) => {
                let mut j: usize = 0;
                let ghost before = ps@;
                while j < v.len()
                    invariant
                        0 <= j <= v.len(),
                        ps@ == before + v@.take(j as int),
                    decreases v.len() - j,
                {
                    ps.push(v[j]);
                    proof {
                        assert(v@.take(j + 1) =~= v@.take(j as int).push(v@[j as int]));
                        assert(before + v@.take(j + 1) =~= (before + v@.take(j as int)).push(v@[j as int]));
                    }
                    j = j + 1;
                }
                proof {
                    assert(v@.take(v.len() as int) =~= v@);
                }
            },
            _ => {},
        }
        proof {
            let t = hints@.take(i + 1);
            assert forall|k: int| 0 <= k < t.len() implies match #[trigger] t[k] {
                Hint::FixedBits(a, b) => fixed_width_ok(a, b),
                _ => true,
            } by {
                if k < i {
                    assert(t[k] == hints@.take(i as int)[k]);
                }
            }
        }
        i = i + 1;
    }
    proof {
        assert(hints@.take(hints.len() as int) =~= hints@);
    }
    Ok((last, ps))
}

/// Turns checked fixed-point pairs into slots and their shared fractional
/// width.
fn pairs_to_slots(ps: &Vec<(i32, i32)>) -> (r: Result<(Vec<Option<u8>>, u8), DeltaError>)
    ensures
        match r {
            Ok((slots, fr)) => {
                &&& pairs_error(ps@, None) is None
                &&& slots@.len() == ps@.len()
                &&& forall|k: int| 0 <= k < ps@.len() ==> slots@[k] == slot_of(ps@[k])
                &&& fr as int == match first_fract(ps@) {
                    Some(x) => x as int,
                    None => 0,
                }
            },
            Err(e) => pairs_error(ps@, None) == Some(e),
        },
{
    let mut slots: Vec<Option<u8>> = Vec::new();
    let mut fr: Option<i32> = None;
    let mut k: usize = 0;
    proof {
        assert(ps@.skip(0) =~= ps@);
        assert(ps@.take(0) =~= Seq::<(i32, i32)>::empty());
    }
    while k < ps.len()
        invariant
            0 <= k <= ps.len(),
            pairs_error(ps@, None) == pairs_error(ps@.skip(k as int), fr),
            fr == first_fract(ps@.take(k as int)),
            fr is Some ==> 0 <= fr->0 <= 64,
            slots@.len() == k,
            forall|j: int| 0 <= j < k ==> slots@[j] == slot_of(ps@[j]),
        decreases ps.len() - k,
    {
        let (a, b) = ps[k];
        proof {
            assert(ps@.skip(k as int)[0] == ps@[k as int]);
            assert(ps@.skip(k as int).drop_first() =~= ps@.skip(k + 1));
            assert(ps@.take(k + 1).drop_last() =~= ps@.take(k as int));
            assert(ps@.take(k + 1).last() == ps@[k as int]);
        }
        if a == -1 && b == -1 {
            slots.push(None);
        } else {
            if !(a >= 0 && b >= 0 && a as i64 + b as i64 >= 1 && a as i64 + b as i64 <= 64) {
                return Err(DeltaError::InvalidHint);
            }
            match fr {
                Some(x) => {
                    if x != b {
                        return Err(DeltaError::FractionalWidthMismatch);
                    }
                },
                None => {
                    fr = Some(b);
                },
            }
            slots.push(Some((a + b) as u8));
        }
        k = k + 1;
    }
    proof {
        assert(ps@.take(ps.len() as int) =~= ps@);
        assert(ps@.skip(ps.len() as int) =~= Seq::<(i32, i32)>::empty());
    }
    let f: u8 = match fr {
        Some(x) => x as u8,
        None => 0,
    };
    Ok((slots, f))
}

/// The schema of a float field under the aggregate's `flags` and the field's
/// own `hints`.
pub fn build_float(wide: bool, flags: GenFlags, hints: &Vec<Hint>) -> (r: Result<Schema, DeltaError>)
    ensures
        ({
            let f = flags.or(flags_of(hints@));
            let hs = hints@;
            match r {
                Ok(s) => schema_ok(s) && float_hints_ok(f, hs) && float_schema(wide, flags, hs, s),
                Err(e) => f.fixed && (!fixed_bits_ok(hs) && e == DeltaError::InvalidHint || fixed_bits_ok(hs)
                    && last_fixed_bits(hs) is None && (sub_pairs(hs).len() == 0 && e
                    == DeltaError::InvalidHint || sub_pairs(hs).len() >= 256 && e == DeltaError::InvalidHint
                    || pairs_error(sub_pairs(hs), None) == Some(e))),
            }
        }),
{
    let f = flags.union(decode_flags(hints));
    if !f.fixed {
        return Ok(Schema::Float(FloatCodec { wide, mode: FloatMode::Raw, always: f.always, diff: f.diff }));
    }
    let (last, ps) = match collect_pairs(hints) {
        Ok(x) => x,
        Err(e) => return Err(e),
    };
    if let Some((a, b)) = last {
        proof {
            lemma_last_fixed_bits_in(hints@);
        }
        let mode = FloatMode::FixedBits { whole: a as u8, fract: b as u8 };
        return Ok(Schema::Float(FloatCodec { wide, mode, always: f.always, diff: f.diff }));
    }
    if ps.len() == 0 || ps.len() >= 256 {
        return Err(DeltaError::InvalidHint);
    }
    let (slots, fract) = match pairs_to_slots(&ps) {
        Ok(x) => x,
        Err(e) => return Err(e),
    };
    proof {
        assert forall|k: int| 0 <= k < slots.len() implies match #[trigger] slots@[k] {
            Some(w) => 1 <= w <= 64,
            None => true,
        } by {
            lemma_pairs_ok_at(ps@, None, k);
        }
    }
    Ok(Schema::Float(FloatCodec { wide, mode: FloatMode::FixedSub { fract, slots }, always: f.always, diff: f.diff }))
}

/// The last `FixedBits` hint is one of the hints.
proof fn lemma_last_fixed_bits_in(hs: Seq<Hint>)
    requires
        last_fixed_bits(hs) is Some,
    ensures
        exists|k: int| 0 <= k < hs.len() && hs[k] == Hint::FixedBits(last_fixed_bits(hs).unwrap().0, last_fixed_bits(hs).unwrap().1),
    decreases hs.len(),
{
    match hs.last() {
        Hint::FixedBits(a, b) => {
            assert(hs[hs.len() - 1] == Hint::FixedBits(a, b));
        },
        _ => {
            lemma_last_fixed_bits_in(hs.drop_last());
            let x = last_fixed_bits(hs)->0;
            let k = choose|k: int| 0 <= k < hs.drop_last().len() && hs.drop_last()[k] == Hint::FixedBits(x.0, x.1);
            assert(hs[k] == hs.drop_last()[k]);
        },
    }
}

/// Where the pairs are in order, each is the escape or a usable width.
proof fn lemma_pairs_ok_at(ps: Seq<(i32, i32)>, fr: Option<i32>, k: int)
    requires
        pairs_error(ps, fr) is None,
        0 <= k < ps.len(),
    ensures
        is_escape(ps[k]) || fixed_width_ok(ps[k].0, ps[k].1),
    decreases ps.len(),
{
    if k > 0 {
        let next = if is_escape(ps[0]) { fr } else { Some(ps[0].1) };
        assert(ps.drop_first()[k - 1] == ps[k]);
        lemma_pairs_ok_at(ps.drop_first(), next, k - 1);
    }
}

/// Whether a schema is usable: widths within their types, few enough options
/// and variants to number.
pub fn check_schema(s: &Schema) -> (r: bool)
    ensures
        r == schema_ok(*s),
    decreases s,
{
    match s {
        Schema::Bool => true,
        Schema::Int(c) => {
            if let Prim::Bool = c.prim {
                return false;
            }
            let max = c.prim.bit_width();
            if c.width < 1 || c.width > max || c.options.len() >= 256 {
                return false;
            }
            let mut i: usize = 0;
            while i < c.options.len()
                invariant
                    *s == Schema::Int(*c),
                    0 <= i <= c.options.len(),
                    max as nat == c.prim.native_bits(),
                    forall|k: int| 0 <= k < i ==> 1 <= #[trigger] c.options@[k] <= max,
                decreases c.options.len() - i,
            {
                if c.options[i] < 1 || c.options[i] > max {
                    assert(!(1 <= c.options@[i as int] <= max));
                    return false;
                }
                i = i + 1;
            }
            true
        },
        Schema::Float(c) => match &c.mode {
            FloatMode::Raw => true,
            FloatMode::FixedBits { whole, fract } => {
                let w: u16 = *whole as u16 + *fract as u16;
                1 <= w && w <= 64
            },
            FloatMode::FixedSub { slots, .. } => {
                if slots.len() >= 256 {
                    return false;
                }
                let mut i: usize = 0;
                while i < slots.len()
                    invariant
                        *s == Schema::Float(*c),
                        c.mode == (FloatMode::FixedSub { fract: c.mode->FixedSub_fract, slots: *slots }),
                        0 <= i <= slots.len(),
                        forall|k: int|
                            0 <= k < i ==> match #[trigger] slots@[k] {
                                Some(w) => 1 <= w <= 64,
                                None => true,
                            },
                    decreases slots.len() - i,
                {
                    if let Some(w) = slots[i] {
                        if w < 1 || w > 64 {
                            assert(slots@[i as int] == Some(w));
                            return false;
                        }
                    }
                    i = i + 1;
                }
                true
            },
        },
        Schema::Record { fields, .. } => check_parts(s, fields),
        Schema::Union { variants, .. } => {
            if variants.len() < 1 || variants.len() as u64 >= 0x1_0000_0000u64 {
                return false;
            }
            check_parts(s, variants)
        },
        Schema::Array { elem, .. } => {
            proof {
                assert(decreases_to!(*s => (*s)->Array_elem));
            }
            check_schema(elem)
        },
        Schema::Opt(elem) => {
            proof {
                assert(decreases_to!(*s => (*s)->Opt_0));
            }
            check_schema(elem)
        },
        Schema::List { elem, .. } => {
            proof {
                assert(decreases_to!(*s => (*s)->List_elem));
            }
            check_schema(elem)
        },
        Schema::Default(inner) => {
            proof {
                assert(decreases_to!(*s => (*s)->Default_0));
            }
            check_schema(inner)
        },
    }
}

/// Whether every field of a record, or variant of a union, is usable.
fn check_parts(s: &Schema, parts: &Vec<Schema>) -> (r: bool)
    requires
        s matches Schema::Record { fields, .. } ==> fields == *parts,
        s matches Schema::Union { variants, .. } ==> variants == *parts,
        s is Record || s is Union,
    ensures
        r == fields_ok(*s, 0),
    decreases s, 0nat,
{
    let mut i: usize = 0;
    while i < parts.len()
        invariant
            s matches Schema::Record { fields, .. } ==> fields == *parts,
            s matches Schema::Union { variants, .. } ==> variants == *parts,
            s is Record || s is Union,
            0 <= i <= parts.len(),
            parts_len(*s) == parts.len(),
            fields_ok(*s, 0) == fields_ok(*s, i as nat),
        decreases parts.len() - i,
    {
        proof {
            if s is Record {
                assert(decreases_to!(*s => (*s)->Record_fields));
            } else {
                assert(decreases_to!(*s => (*s)->Union_variants));
            }
        }
        if !check_schema(&parts[i]) {
            return false;
        }
        i = i + 1;
    }
    true
}

/// The declared type of a field.
pub enum Ty {
    /// A type named by a path: a primitive, `f32` or `f64`.
    Path(String),
    /// An array of a fixed length.
    Array(Box<Ty>, usize),
    Opt(Box<Ty>),
    /// A vector, sent only when it changed.
    List(Box<Ty>),
    /// A vector sent every time.
    AlwaysVec(Box<Ty>),
    /// A shared-ownership wrapper, written as what it wraps.
    Shared(Box<Ty>),
    /// A type with a schema of its own: a record, tuple or union.
    Nested(Schema),
}

/// A field: its type and its hints.
pub struct Field {
    pub ty: Ty,
    pub hints: Vec<Hint>,
}

/// A variant of a union: its hints and its fields (none for a unit variant).
pub struct VariantDef {
    pub hints: Vec<Hint>,
    pub fields: Vec<Field>,
}

pub enum Shape {
    Struct(Vec<Field>),
    Tuple(Vec<Field>),
    Enum(Vec<VariantDef>),
}

/// A type declaration with the hints on the type itself.
pub struct TypeDef {
    pub hints: Vec<Hint>,
    pub shape: Shape,
}

/// The float type that a type name denotes: `Some(true)` for 64 bits.
pub open spec fn float_named(s: Seq<char>) -> Option<bool> {
    if s == seq!['f', '3', '2'] {
        Some(false)
    } else if s == seq!['f', '6', '4'] {
        Some(true)
    } else {
        None
    }
}

/// The hints of an integer field are usable.
pub open spec fn int_hints_ok(prim: Prim, hs: Seq<Hint>) -> bool {
    bits_ok(hs, prim.native_bits()) && widths_ok(sub_widths(hs), prim.native_bits())
}

/// The hints of a float field are usable under the flags `f`.
pub open spec fn float_hints_ok(f: GenFlags, hs: Seq<Hint>) -> bool {
    !f.fixed || (fixed_bits_ok(hs) && (last_fixed_bits(hs) is Some || (0 < sub_pairs(hs).len()
        < 256 && pairs_error(sub_pairs(hs), None) is None)))
}

/// A field of type `ty` with hints `hs` under the aggregate's `flags` gets a
/// schema.
pub open spec fn builds(ty: Ty, flags: GenFlags, hs: Seq<Hint>) -> bool
    decreases ty,
{
    match ty {
        Ty::Path(name) => match prim_named(name@) {
            Some(p) => p == Prim::Bool || int_hints_ok(p, hs),
            None => float_named(name@) is Some && float_hints_ok(flags.or(flags_of(hs)), hs),
        },
        Ty::Array(e, _) => builds(*e, flags, hs),
        Ty::Opt(e) => builds(*e, flags, hs),
        Ty::List(e) => builds(*e, flags, hs),
        Ty::AlwaysVec(e) => builds(*e, flags, hs),
        Ty::Shared(e) => builds(*e, flags, hs),
        Ty::Nested(s) => schema_ok(s),
    }
}

/// The schema that `Prim::build` gives a field of primitive type `p`.
pub open spec fn int_schema(p: Prim, flags: GenFlags, hs: Seq<Hint>, s: Schema) -> bool {
    if p == Prim::Bool {
        s == Schema::Bool
    } else {
        let f = flags.or(flags_of(hs));
        &&& s is Int
        &&& s->Int_0.prim == p
        &&& s->Int_0.width == match last_bits(hs) {
            Some(n) => n as nat,
            None => p.native_bits(),
        }
        &&& s->Int_0.options@.len() == sub_widths(hs).len()
        &&& forall|k: int|
            0 <= k < s->Int_0.options@.len() ==> s->Int_0.options@[k] as u32 == sub_widths(hs)[k]
        &&& s->Int_0.always == f.always
        &&& s->Int_0.diff == f.diff
    }
}

/// The schema that `build_float` gives a float field.
pub open spec fn float_schema(wide: bool, flags: GenFlags, hs: Seq<Hint>, s: Schema) -> bool {
    let f = flags.or(flags_of(hs));
    &&& s is Float
    &&& s->Float_0.wide == wide
    &&& s->Float_0.always == f.always
    &&& s->Float_0.diff == f.diff
    &&& !f.fixed ==> s->Float_0.mode is Raw
    &&& f.fixed && last_fixed_bits(hs) is Some ==> s->Float_0.mode == (FloatMode::FixedBits {
        whole: last_fixed_bits(hs).unwrap().0 as u8,
        fract: last_fixed_bits(hs).unwrap().1 as u8,
    })
    &&& f.fixed && last_fixed_bits(hs) is None ==> {
        let ps = sub_pairs(hs);
        &&& s->Float_0.mode is FixedSub
        &&& s->Float_0.mode->FixedSub_fract as int == match first_fract(ps) {
            Some(x) => x as int,
            None => 0,
        }
        &&& s->Float_0.mode->FixedSub_slots@.len() == ps.len()
        &&& forall|k: int| 0 <= k < ps.len() ==> s->Float_0.mode->FixedSub_slots@[k] == slot_of(ps[k])
    }
}

/// `s` is the schema that a part of type `ty` gets from the aggregate's
/// `flags` and its own hints `hs`: the same hints reach the elements of
/// arrays, options and vectors.
pub open spec fn schema_of(ty: Ty, flags: GenFlags, hs: Seq<Hint>, s: Schema) -> bool
    decreases ty,
{
    match ty {
        Ty::Path(name) => match prim_named(name@) {
            Some(p) => int_schema(p, flags, hs, s),
            None => match float_named(name@) {
                Some(wide) => float_schema(wide, flags, hs, s),
                None => false,
            },
        },
        Ty::Array(e, n) => s is Array && s->Array_len == n && schema_of(*e, flags, hs, *s->Array_elem),
        Ty::Opt(e) => s is Opt && schema_of(*e, flags, hs, *s->Opt_0),
        Ty::List(e) => s is List && !s->List_always && schema_of(*e, flags, hs, *s->List_elem),
        Ty::AlwaysVec(e) => s is List && s->List_always && schema_of(*e, flags, hs, *s->List_elem),
        Ty::Shared(e) => schema_of(*e, flags, hs, s),
        Ty::Nested(t) => s == t,
    }
}

/// A field with a `default` hint gets a schema from its type alone; any
/// other field from its type, the aggregate's flags and its hints.
pub open spec fn field_builds(ty: Ty, flags: GenFlags, hs: Seq<Hint>) -> bool {
    if flags_of(hs).default {
        builds(ty, GenFlags::none(), Seq::empty())
    } else {
        builds(ty, flags, hs)
    }
}

/// `s` is the schema of a field of type `ty` with hints `hs` under the
/// aggregate's `flags`: not sent where it is `default`, whatever else it has.
pub open spec fn field_schema(ty: Ty, flags: GenFlags, hs: Seq<Hint>, s: Schema) -> bool {
    if flags_of(hs).default {
        s is Default && schema_of(ty, GenFlags::none(), Seq::empty(), *s->Default_0)
    } else {
        schema_of(ty, flags, hs, s)
    }
}

/// `s` is a record whose fields are those of `fs`, each under `flags`.
pub open spec fn record_of(fs: Seq<Field>, flags: GenFlags, s: Schema) -> bool {
    &&& s is Record
    &&& s->Record_fields.len() == fs.len()
    &&& forall|i: int|
        0 <= i < fs.len() ==> field_schema(fs[i].ty, flags, fs[i].hints@, #[trigger] s->Record_fields@[i])
}

/// `s` is a union whose variants are those of `vs`: each a record of its
/// fields under the type's flags united with the variant's own.
pub open spec fn union_of(vs: Seq<VariantDef>, flags: GenFlags, s: Schema) -> bool {
    &&& s is Union
    &&& s->Union_variants.len() == vs.len()
    &&& forall|k: int|
        0 <= k < vs.len() ==> !(#[trigger] s->Union_variants@[k])->Record_complete && record_of(
            vs[k].fields@,
            flags.or(flags_of(vs[k].hints@)),
            s->Union_variants@[k],
        )
}

/// Every field gets a schema under `flags`.
pub open spec fn fields_build(fs: Seq<Field>, flags: GenFlags) -> bool {
    forall|i: int| 0 <= i < fs.len() ==> field_builds(#[trigger] fs[i].ty, flags, fs[i].hints@)
}

/// The float type named `name`, if it names one.
fn float_from_ident(name: &str) -> (r: Option<bool>)
    ensures
        r == float_named(name@),
{
    if name.unicode_len() != 3 {
        return None;
    }
    let a = name.get_char(0);
    let b = name.get_char(1);
    let c = name.get_char(2);
    proof {
        assert(name@ =~= seq![a, b, c]);
    }
    if a == 'f' && b == '3' && c == '2' {
        Some(false)
    } else if a == 'f' && b == '6' && c == '4' {
        Some(true)
    } else {
        None
    }
}

/// The schema of a field of type `ty` with `hints`, under the aggregate's
/// `flags`. A `default` field is not sent, and its other hints are not read.
pub fn build_ty(ty: Ty, flags: GenFlags, hints: &Vec<Hint>) -> (r: Result<Schema, DeltaError>)
    ensures
        r is Ok <==> field_builds(ty, flags, hints@),
        r is Ok ==> schema_ok(r->Ok_0) && field_schema(ty, flags, hints@, r->Ok_0),
{
    let own = decode_flags(hints);
    if own.default {
        let no_hints: Vec<Hint> = Vec::new();
        proof {
            assert(no_hints@ =~= Seq::<Hint>::empty());
        }
        let s = build_shape(ty, GenFlags::empty(), &no_hints)?;
        return Ok(Schema::Default(Box::new(s)));
    }
    build_shape(ty, flags, hints)
}

/// The schema of a field of type `ty`, its `default` hint aside.
fn build_shape(ty: Ty, flags: GenFlags, hints: &Vec<Hint>) -> (r: Result<Schema, DeltaError>)
    ensures
        r is Ok <==> builds(ty, flags, hints@),
        r is Ok ==> schema_ok(r->Ok_0) && schema_of(ty, flags, hints@, r->Ok_0),
    decreases ty,
{
    match ty {
        Ty::Path(name) => {
            if let Some(p) = Prim::from_ident(name.as_str()) {
                return p.build(flags, hints);
            }
            match float_from_ident(name.as_str()) {
                Some(wide) => build_float(wide, flags, hints),
                None => Err(DeltaError::InvalidHint),
            }
        },
        Ty::Array(e, n) => {
            let inner = build_shape(*e, flags, hints)?;
            Ok(Schema::Array { len: n, elem: Box::new(inner) })
        },
        Ty::Opt(e) => {
            let inner = build_shape(*e, flags, hints)?;
            Ok(Schema::Opt(Box::new(inner)))
        },
        Ty::List(e) => {
            let inner = build_shape(*e, flags, hints)?;
            Ok(Schema::List { always: false, elem: Box::new(inner) })
        },
        Ty::AlwaysVec(e) => {
            let inner = build_shape(*e, flags, hints)?;
            Ok(Schema::List { always: true, elem: Box::new(inner) })
        },
        Ty::Shared(e) => build_shape(*e, flags, hints),
        Ty::Nested(s) => {
            if check_schema(&s) {
                Ok(s)
            } else {
                Err(DeltaError::InvalidHint)
            }
        },
    }
}

/// The schemas of the fields, in order, each under `flags`.
fn build_fields(flags: GenFlags, fields: Vec<Field>) -> (r: Result<Vec<Schema>, DeltaError>)
    ensures
        r is Ok <==> fields_build(fields@, flags),
        r is Ok ==> r->Ok_0.len() == fields.len() && forall|i: int|
            0 <= i < fields.len() ==> schema_ok(#[trigger] r->Ok_0@[i]) && field_schema(
                fields@[i].ty,
                flags,
                fields@[i].hints@,
                r->Ok_0@[i],
            ),
{
    let ghost orig = fields@;
    let n = fields.len();
    let mut rest = fields;
    let mut out: Vec<Schema> = Vec::new();
    let mut i: usize = 0;
    while i < n
        invariant
            n == orig.len(),
            0 <= i <= n,
            rest@ == orig.skip(i as int),
            fields@ == orig,
            out.len() == i,
            forall|k: int| 0 <= k < i ==> schema_ok(#[trigger] out@[k]) && field_schema(
                orig[k].ty,
                flags,
                orig[k].hints@,
                out@[k],
            ),
            forall|k: int| 0 <= k < i ==> field_builds(#[trigger] orig[k].ty, flags, orig[k].hints@),
        decreases n - i,
    {
        let f = rest.remove(0);
        proof {
            assert(orig.skip(i as int)[0] == orig[i as int]);
            assert(orig.skip(i as int).remove(0) =~= orig.skip(i + 1));
        }
        let s = match build_ty(f.ty, flags, &f.hints) {
            Ok(s) => s,
            Err(e) => {
                assert(!field_builds(orig[i as int].ty, flags, orig[i as int].hints@));
                assert(!fields_build(orig, flags));
                return Err(e);
            },
        };
        out.push(s);
        i = i + 1;
    }
    Ok(out)
}

/// The schema of a struct or tuple: its fields in declared order, under the
/// type's `flags`.
pub fn build_struct(flags: GenFlags, fields: Vec<Field>) -> (r: Result<Schema, DeltaError>)
    ensures
        r is Ok <==> fields_build(fields@, flags),
        r is Ok ==> {
            &&& schema_ok(r->Ok_0)
            &&& record_of(fields@, flags, r->Ok_0)
            &&& r->Ok_0->Record_complete == flags.complete
        },
{
    let parts = build_fields(flags, fields)?;
    let s = Schema::Record { complete: flags.complete, fields: parts };
    proof {
        assert forall|k: nat| k < parts_len(s) implies schema_ok(#[trigger] crate::wire::part(s, k)) by {
            assert(schema_ok(s->Record_fields@[k as int]));
        }
        lemma_fields_ok_all(s, 0);
    }
    Ok(s)
}

/// Each part is usable, so the record or union is.
proof fn lemma_fields_ok_all(s: Schema, i: nat)
    requires
        s is Record || s is Union,
        forall|k: nat| k < parts_len(s) ==> schema_ok(#[trigger] crate::wire::part(s, k)),
    ensures
        fields_ok(s, i),
    decreases parts_len(s) - i,
{
    if i < parts_len(s) {
        assert(schema_ok(crate::wire::part(s, i)));
        lemma_fields_ok_all(s, i + 1);
    }
}

/// Every variant gets a schema: its fields under the type's flags and the
/// variant's own.
pub open spec fn variants_build(vs: Seq<VariantDef>, flags: GenFlags) -> bool {
    forall|i: int|
        0 <= i < vs.len() ==> fields_build(
            #[trigger] vs[i].fields@,
            flags.or(flags_of(vs[i].hints@)),
        )
}

/// The schema of an enum: one variant per declared variant, in order, each a
/// record of its fields.
pub fn build_enum(flags: GenFlags, variants: Vec<VariantDef>) -> (r: Result<Schema, DeltaError>)
    ensures
        r is Ok <==> 1 <= variants.len() < 0x1_0000_0000 && variants_build(variants@, flags),
        r is Ok ==> {
            &&& schema_ok(r->Ok_0)
            &&& union_of(variants@, flags, r->Ok_0)
            &&& r->Ok_0->Union_complete == flags.complete
        },
{
    let ghost orig = variants@;
    let n = variants.len();
    if n < 1 || n as u64 >= 0x1_0000_0000u64 {
        return Err(DeltaError::InvalidHint);
    }
    let mut rest = variants;
    let mut out: Vec<Schema> = Vec::new();
    let mut i: usize = 0;
    while i < n
        invariant
            n == orig.len(),
            1 <= n < 0x1_0000_0000,
            0 <= i <= n,
            rest@ == orig.skip(i as int),
            variants@ == orig,
            out.len() == i,
            forall|k: int| 0 <= k < i ==> schema_ok(#[trigger] out@[k]),
            forall|k: int|
                0 <= k < i ==> !(#[trigger] out@[k])->Record_complete && record_of(
                    orig[k].fields@,
                    flags.or(flags_of(orig[k].hints@)),
                    out@[k],
                ),
            forall|k: int|
                0 <= k < i ==> fields_build(
                    #[trigger] orig[k].fields@,
                    flags.or(flags_of(orig[k].hints@)),
                ),
        decreases n - i,
    {
        let v = rest.remove(0);
        proof {
            assert(orig.skip(i as int)[0] == orig[i as int]);
            assert(orig.skip(i as int).remove(0) =~= orig.skip(i + 1));
        }
        let vflags = flags.union(decode_flags(&v.hints));
        let parts = match build_fields(vflags, v.fields) {
            Ok(p) => p,
            Err(e) => {
                assert(!variants_build(orig, flags));
                return Err(e);
            },
        };
        let payload = Schema::Record { complete: false, fields: parts };
        proof {
            assert(record_of(orig[i as int].fields@, flags.or(flags_of(orig[i as int].hints@)), payload));
            assert forall|k: nat| k < parts_len(payload) implies schema_ok(
                #[trigger] crate::wire::part(payload, k),
            ) by {
                assert(schema_ok(payload->Record_fields@[k as int]));
            }
            lemma_fields_ok_all(payload, 0);
        }
        out.push(payload);
        i = i + 1;
    }
    let s = Schema::Union { complete: flags.complete, variants: out };
    proof {
        assert forall|k: nat| k < parts_len(s) implies schema_ok(#[trigger] crate::wire::part(s, k)) by {
            assert(schema_ok(s->Union_variants@[k as int]));
        }
        lemma_fields_ok_all(s, 0);
    }
    Ok(s)
}

/// The schema of a declared type, under the hints on the type itself.
pub fn delta_encode(def: TypeDef) -> (r: Result<Schema, DeltaError>)
    ensures
        ({
            let flags = flags_of(def.hints@);
            match def.shape {
                Shape::Struct(fs) => (r is Ok <==> fields_build(fs@, flags)) && (r is Ok ==> record_of(
                    fs@,
                    flags,
                    r->Ok_0,
                ) && r->Ok_0->Record_complete == flags.complete),
                Shape::Tuple(fs) => (r is Ok <==> fields_build(fs@, flags)) && (r is Ok ==> record_of(
                    fs@,
                    flags,
                    r->Ok_0,
                ) && r->Ok_0->Record_complete == flags.complete),
                Shape::Enum(vs) => (r is Ok <==> 1 <= vs.len() < 0x1_0000_0000 && variants_build(vs@, flags))
                    && (r is Ok ==> union_of(vs@, flags, r->Ok_0) && r->Ok_0->Union_complete == flags.complete),
            }
        }),
        r is Ok ==> schema_ok(r->Ok_0),
{
    let flags = decode_flags(&def.hints);
    match def.shape {
        Shape::Struct(fs) => build_struct(flags, fs),
        Shape::Tuple(fs) => build_struct(flags, fs),
        Shape::Enum(vs) => build_enum(flags, vs),
    }
}

} // verus!
