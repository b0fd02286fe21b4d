//! Integer widths and ranges of the primitive types.
use crate::bits::{lemma_two_pow_64, lemma_two_pow_mono, two_pow};
use crate::schema::Prim;
use crate::wire::ceil_log2;
use vstd::prelude::*;
use vstd::string::StrSliceExecFns;

verus! {

/// The primitive type that a type name denotes.
pub open spec fn prim_named(s: Seq<char>) -> Option<Prim> {
    if s == seq!['i', '8'] {
        Some(Prim::I8)
    } else if s == seq!['i', '1', '6'] {
        Some(Prim::I16)
    } else if s == seq!['i', '3', '2'] {
        Some(Prim::I32)
    } else if s == seq!['i', '6', '4'] {
        Some(Prim::I64)
    } else if s == seq!['u', '8'] {
        Some(Prim::U8)
    } else if s == seq!['u', '1', '6'] {
        Some(Prim::U16)
    } else if s == seq!['u', '3', '2'] {
        Some(Prim::U32)
    } else if s == seq!['u', '6', '4'] {
        Some(Prim::U64)
    } else if s == seq!['b', 'o', 'o', 'l'] {
        Some(Prim::Bool)
    } else {
        None
    }
}

/// `2^n` as a wide machine integer.
pub fn pow2_i128(n: u32) -> (r: i128)
    requires
        n <= 64,
    ensures
        r as int == two_pow(n as nat),
{
    proof {
        lemma_two_pow_64();
        lemma_two_pow_mono(n as nat, 64);
    }
    let mut r: i128 = 1;
    let mut i: u32 = 0;
    while i < n
        invariant
            i <= n <= 64,
            r as int == two_pow(i as nat),
            two_pow(n as nat) <= two_pow(64),
            two_pow(64) == 0x1_0000_0000_0000_0000,
        decreases n - i,
    {
        proof {
            lemma_two_pow_mono((i + 1) as nat, n as nat);
        }
        r = r * 2;
        i = i + 1;
    }
    r
}

/// Bits of a selector over `k` states.
pub fn selector_bits(k: u64) -> (r: u8)
    requires
        k <= 0x1_0000_0000,
    ensures
        r as nat == ceil_log2(k as nat),
        r <= 32,
    decreases k,
{
    proof {
        lemma_two_pow_is_32();
        lemma_ceil_log2_bound(k as nat, 32);
    }
    if k <= 1 {
        0
    } else {
        1 + selector_bits((k + 1) / 2)
    }
}

pub proof fn lemma_two_pow_is_32()
    ensures
        two_pow(32) == 0x1_0000_0000,
{
    crate::bits::lemma_two_pow_is_pow2(32);
    vstd::arithmetic::power2::lemma2_to64();
}

/// A selector over `k` states has room for each of them.
pub proof fn lemma_ceil_log2_covers(k: nat)
    ensures
        k <= two_pow(ceil_log2(k)),
    decreases k,
{
    if k > 1 {
        lemma_ceil_log2_covers(((k + 1) / 2) as nat);
    }
}

/// Where `k` states fit in `m` bits, the selector takes at most `m` bits.
pub proof fn lemma_ceil_log2_bound(k: nat, m: nat)
    requires
        k <= two_pow(m),
    ensures
        ceil_log2(k) <= m,
    decreases k,
{
    if k > 1 {
        assert(m > 0);
        lemma_ceil_log2_bound(((k + 1) / 2) as nat, (m - 1) as nat);
    }
}

/// Values of an integer type lie between `-2^63` and `2^64`.
pub proof fn lemma_holds_bounds(prim: Prim, v: int)
    requires
        prim.is_int(),
        prim.holds(v),
    ensures
        -0x8000_0000_0000_0000 <= v < 0x1_0000_0000_0000_0000,
        prim.is_signed() ==> v < 0x8000_0000_0000_0000,
        !prim.is_signed() ==> 0 <= v,
{
    lemma_two_pow_64();
    lemma_two_pow_mono(prim.native_bits(), 64);
    lemma_two_pow_mono((prim.native_bits() - 1) as nat, 63);
}

impl Prim {
    /// The smallest and largest values that `bits` bits of this type hold.
    pub fn range(&self, bits: u32) -> (r: (i128, i128))
        requires
            self.is_int(),
            1 <= bits <= self.native_bits(),
        ensures
            r.0 == self.min_of(bits as nat),
            r.1 == self.max_of(bits as nat),
    {
        proof {
            lemma_two_pow_64();
            lemma_two_pow_mono(bits as nat, 64);
            lemma_two_pow_mono((bits - 1) as nat, 63);
        }
        match *self {
            Prim::I8 | Prim::I16 | Prim::I32 | Prim::I64 => {
                let half = pow2_i128(bits - 1);
                (-half, half - 1)
            },
            _ => (0, pow2_i128(bits) - 1),
        }
    }

    /// The primitive type named `name`, if it names one.
    pub fn from_ident(name: &str) -> (r: Option<Prim>)
        ensures
            r == prim_named(name@),
    {
        let n = name.unicode_len();
        if n == 2 {
            let a = name.get_char(0);
            let b = name.get_char(1);
            proof {
                assert(a == 'i' && b == '8' ==> name@ =~= seq!['i', '8']);
                assert(a == 'u' && b == '8' ==> name@ =~= seq!['u', '8']);
            }
            if a == 'i' && b == '8' {
                return Some(Prim::I8);
            } else if a == 'u' && b == '8' {
                return Some(Prim::U8);
            }
        } else if n == 3 {
            let a = name.get_char(0);
            let b = name.get_char(1);
            let c = name.get_char(2);
            let signed = a == 'i';
            if a == 'i' || a == 'u' {
                let r = if b == '1' && c == '6' {
                    Some(if signed { Prim::I16 } else { Prim::U16 })
                } else if b == '3' && c == '2' {
                    Some(if signed { Prim::I32 } else { Prim::U32 })
                } else if b == '6' && c == '4' {
                    Some(if signed { Prim::I64 } else { Prim::U64 })
                } else {
                    None
                };
                proof {
                    assert(name@ =~= seq![a, b, c]);
                }
                return r;
            }
        } else if n == 4 {
            let a = name.get_char(0);
            let b = name.get_char(1);
            let c = name.get_char(2);
            let d = name.get_char(3);
            proof {
                assert(name@ =~= seq![a, b, c, d]);
            }
            if a == 'b' && b == 'o' && c == 'o' && d == 'l' {
                return Some(Prim::Bool);
            }
        }
        None
    }

    pub fn signed(&self) -> (r: bool)
        ensures
            r == self.is_signed(),
    {
        match *self {
            Prim::I8 | Prim::I16 | Prim::I32 | Prim::I64 => true,
            _ => false,
        }
    }

    /// Width of the type itself.
    pub fn bit_width(&self) -> (r: u8)
        ensures
            r as nat == self.native_bits(),
    {
        match *self {
            Prim::I8 | Prim::U8 => 8,
            Prim::I16 | Prim::U16 => 16,
            Prim::I32 | Prim::U32 => 32,
            Prim::I64 | Prim::U64 => 64,
            Prim::Bool => 1,
        }
    }

    /// Whether `v` fits in `n` bits of this type.
    pub fn fits_in(&self, v: i128, n: u8) -> (r: bool)
        requires
            self.is_int(),
            1 <= n <= self.native_bits(),
        ensures
            r == self.fits(v as int, n as nat),
    {
        let (lo, hi) = self.range(n as u32);
        proof {
            crate::bits::lemma_two_pow_mono(0, n as nat);
            if self.is_signed() {
                assert(two_pow(n as nat) == 2 * two_pow((n - 1) as nat));
            }
        }
        lo <= v && v <= hi
    }
}

} // verus!
