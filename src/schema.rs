use crate::bits::{fits_signed, fits_unsigned, two_pow};
use vstd::prelude::*;

verus! {

/// The primitive scalar types that a field may have.
#[derive(Debug, Clone, Copy, PartialEq, Eq, Structural)]
pub enum Prim {
    I8,
    I16,
    I32,
    I64,
    U8,
    U16,
    U32,
    U64,
    Bool,
}

impl Prim {
    pub open spec fn native_bits(self) -> nat {
        match self {
            Prim::I8 | Prim::U8 => 8,
            Prim::I16 | Prim::U16 => 16,
            Prim::I32 | Prim::U32 => 32,
            Prim::I64 | Prim::U64 => 64,
            Prim::Bool => 1,
        }
    }

    pub open spec fn is_signed(self) -> bool {
        match self {
            Prim::I8 | Prim::I16 | Prim::I32 | Prim::I64 => true,
            _ => false,
        }
    }

    pub open spec fn is_int(self) -> bool {
        self != Prim::Bool
    }

    /// `v` fits in `n` bits, as this type reads them.
    pub open spec fn fits(self, v: int, n: nat) -> bool {
        if self.is_signed() {
            fits_signed(v, n)
        } else {
            fits_unsigned(v, n)
        }
    }

    /// `v` is a value of this type.
    pub open spec fn holds(self, v: int) -> bool {
        self.fits(v, self.native_bits())
    }

    /// Smallest value that `bits` bits of this type can hold.
    pub open spec fn min_of(self, bits: nat) -> int {
        if self.is_signed() {
            -(two_pow((bits - 1) as nat) as int)
        } else {
            0
        }
    }

    /// Largest value that `bits` bits of this type can hold.
    pub open spec fn max_of(self, bits: nat) -> int {
        if self.is_signed() {
            two_pow((bits - 1) as nat) - 1
        } else {
            two_pow(bits) - 1
        }
    }
}

/// How an integer field is written.
pub struct IntCodec {
    pub prim: Prim,
    /// Width of the plain form.
    pub width: u8,
    /// Widths to choose from, in order of preference; empty for the plain form.
    pub options: Vec<u8>,
    /// Written every time, with no "unchanged" mark.
    pub always: bool,
    /// Options carry the difference from the prior value.
    pub diff: bool,
}

impl IntCodec {
    pub open spec fn wf(&self) -> bool {
        &&& self.prim.is_int()
        &&& 1 <= self.width <= self.prim.native_bits()
        &&& self.options.len() < 256
        &&& forall|i: int|
            0 <= i < self.options.len() ==> 1 <= #[trigger] self.options@[i]
                <= self.prim.native_bits()
    }
}

/// How a float field is written.
pub enum FloatMode {
    /// The IEEE bits themselves.
    Raw,
    /// A fixed-point number of `whole + fract` bits.
    FixedBits { whole: u8, fract: u8 },
    /// Fixed-point options sharing one fractional width; `None` is the escape
    /// that writes the raw float.
    FixedSub { fract: u8, slots: Vec<Option<u8>> },
}

pub struct FloatCodec {
    /// 64-bit float rather than 32-bit.
    pub wide: bool,
    pub mode: FloatMode,
    pub always: bool,
    pub diff: bool,
}

impl FloatCodec {
    pub open spec fn raw_bits(&self) -> nat {
        if self.wide {
            64
        } else {
            32
        }
    }

    pub open spec fn wf(&self) -> bool {
        match self.mode {
            FloatMode::Raw => true,
            FloatMode::FixedBits { whole, fract } => 1 <= whole + fract <= 64,
            FloatMode::FixedSub { fract, slots } => {
                &&& slots.len() < 256
                &&& forall|i: int|
                    0 <= i < slots.len() ==> match #[trigger] slots@[i] {
                        Some(w) => 1 <= w <= 64,
                        None => true,
                    }
            },
        }
    }
}

/// The shape of a type together with the hints on each of its parts.
pub enum Schema {
    Bool,
    Int(IntCodec),
    Float(FloatCodec),
    /// Named or positional fields, in declared order.
    Record { complete: bool, fields: Vec<Schema> },
    /// Variants in declared order; each is the schema of its payload.
    Union { complete: bool, variants: Vec<Schema> },
    /// A fixed number of elements.
    Array { len: usize, elem: Box<Schema> },
    Opt(Box<Schema>),
    /// A sequence of any length.
    List { always: bool, elem: Box<Schema> },
    /// Not sent; read back as the type's default.
    Default(Box<Schema>),
}

/// A value as the codec sees it.
#[derive(Debug)]
pub enum Value {
    Bool(bool),
    Int(i128),
    /// The IEEE bits of a float.
    Float(u64),
    /// A float given both as IEEE bits and as its fixed-point scaled integer.
    Real { bits: u64, scaled: i64 },
    /// A fixed-point scaled integer read back from the wire.
    Fixed(i64),
    /// Fields of a record or tuple, or elements of an array or list.
    Items(Vec<Value>),
    Variant(u64, Box<Value>),
    Opt(Option<Box<Value>>),
}

/// The mathematical model of a `Value`.
pub enum Val {
    Bool(bool),
    Int(int),
    Float(nat),
    Real { bits: nat, scaled: int },
    Fixed(int),
    Items(Seq<Val>),
    Variant(nat, Box<Val>),
    Opt(Option<Box<Val>>),
}

impl Value {
    pub open spec fn view(&self) -> Val
        decreases self,
    {
        match self {
            Value::Bool(b) => Val::Bool(*b),
            Value::Int(x) => Val::Int(*x as int),
            Value::Float(b) => Val::Float(*b as nat),
            Value::Real { bits, scaled } => Val::Real { bits: *bits as nat, scaled: *scaled as int },
            Value::Fixed(k) => Val::Fixed(*k as int),
            Value::Items(vs) => Val::Items(
                Seq::new(
                    vs.len() as nat,
                    |i: int|
                        if 0 <= i < vs.len() {
                            vs[i].view()
                        } else {
                            Val::Bool(false)
                        },
                ),
            ),
            Value::Variant(i, x) => Val::Variant(*i as nat, Box::new((**x).view())),
            Value::Opt(None) => Val::Opt(None),
            Value::Opt(Some(x)) => Val::Opt(Some(Box::new((**x).view()))),
        }
    }
}

} // verus!
