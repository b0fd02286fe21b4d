use crate::bits::{
    bits_value, lemma_bits_value_bound, lemma_bits_value_push, lemma_neg_mod, lemma_two_pow_64,
    lemma_two_pow_mono, sbits, signed_value, two_pow, ubits,
};
use vstd::prelude::*;

verus! {

/// What went wrong while building a schema, encoding or decoding.
#[derive(Debug, Clone, Copy, PartialEq, Eq, Structural)]
pub enum DeltaError {
    /// Decoding met an "unchanged" mark but no prior value was given.
    MissingPriorState,
    /// A value fits neither its declared width nor any of its options.
    ValueOutOfRange,
    /// A variant or option selector names nothing.
    MalformedStream,
    /// The bit stream ended before the value did.
    IoFailure,
    /// Fixed-point options disagree on their fractional width.
    FractionalWidthMismatch,
    /// A hint could not be read, or asks for more bits than the type has.
    InvalidHint,
}

/// Collects bits, in the order they are written.
pub struct BitWriter {
    pub bits: Vec<bool>,
}

impl BitWriter {
    pub fn new() -> (w: BitWriter)
        ensures
            w.bits@ == Seq::<bool>::empty(),
    {
        BitWriter { bits: Vec::new() }
    }

    pub fn write_bool(&mut self, b: bool)
        ensures
            final(self).bits@ == old(self).bits@.push(b),
    {
        self.bits.push(b);
    }

    /// Writes the `n` low bits of `v`, most significant first.
    pub fn write_unsigned(&mut self, v: u64, n: u8)
        requires
            n <= 64,
        ensures
            final(self).bits@ == old(self).bits@ + ubits(v as nat, n as nat),
        decreases n,
    {
        if n > 0 {
            self.write_unsigned(v / 2, n - 1);
            self.bits.push(v % 2 == 1);
            proof {
                assert(self.bits@ =~= old(self).bits@ + ubits(v as nat, n as nat));
            }
        }
    }

    /// Writes `v` in two's complement, truncated to `n` bits.
    pub fn write_signed(&mut self, v: i64, n: u8)
        requires
            n <= 64,
        ensures
            final(self).bits@ == old(self).bits@ + sbits(v as int, n as nat),
    {
        proof {
            lemma_two_pow_64();
            lemma_two_pow_mono(n as nat, 64);
        }
        let u: u64;
        if n == 64 {
            if v >= 0 {
                u = v as u64;
                proof {
                    vstd::arithmetic::div_mod::lemma_fundamental_div_mod_converse(
                        v as int,
                        two_pow(64) as int,
                        0,
                        v as int,
                    );
                }
            } else {
                u = u64::MAX - ((-(v + 1)) as u64);
                proof {
                    lemma_neg_mod(v as int, two_pow(64) as int);
                    vstd::arithmetic::div_mod::lemma_small_mod(
                        (-(v + 1)) as nat,
                        two_pow(64) as nat,
                    );
                }
            }
        } else {
            let m = pow2_u64(n);
            if v >= 0 {
                u = (v as u64) % m;
            } else {
                u = m - 1 - ((-(v + 1)) as u64) % m;
                proof {
                    lemma_neg_mod(v as int, m as int);
                }
            }
        }
        assert(u as int == (v as int) % (two_pow(n as nat) as int));
        self.write_unsigned(u, n);
    }

    pub fn finish(self) -> (r: Vec<bool>)
        ensures
            r@ == self.bits@,
    {
        self.bits
    }
}

/// `2^n` as a machine integer.
pub fn pow2_u64(n: u8) -> (r: u64)
    requires
        n < 64,
    ensures
        r as nat == two_pow(n as nat),
{
    proof {
        lemma_two_pow_64();
        lemma_two_pow_mono(n as nat, 63);
    }
    let mut r: u64 = 1;
    let mut i: u8 = 0;
    while i < n
        invariant
            i <= n < 64,
            r as nat == two_pow(i as nat),
            two_pow(n as nat) <= two_pow(63),
            two_pow(63) == 0x8000_0000_0000_0000,
        decreases n - i,
    {
        proof {
            lemma_two_pow_mono((i + 1) as nat, n as nat);
        }
        r = r * 2;
        i = i + 1;
    }
    r
}

/// Reads bits back, from a position that only moves forward.
pub struct BitReader {
    pub bits: Vec<bool>,
    pub pos: usize,
}

/// The unsigned number in the `n` bits at `pos`, if the stream holds them.
pub open spec fn read_u(bits: Seq<bool>, pos: nat, n: nat) -> Option<nat> {
    if pos + n <= bits.len() {
        Some(bits_value(bits.subrange(pos as int, (pos + n) as int)))
    } else {
        None
    }
}

/// The two's complement number in the `n` bits at `pos`, if the stream holds them.
pub open spec fn read_s(bits: Seq<bool>, pos: nat, n: nat) -> Option<int> {
    if pos + n <= bits.len() {
        Some(signed_value(bits.subrange(pos as int, (pos + n) as int)))
    } else {
        None
    }
}

impl BitReader {
    pub fn new(bits: Vec<bool>) -> (r: BitReader)
        ensures
            r.bits@ == bits@,
            r.pos == 0,
    {
        BitReader { bits, pos: 0 }
    }

    pub open spec fn wf(&self) -> bool {
        self.pos <= self.bits.len()
    }

    pub fn read_bool(&mut self) -> (r: Result<bool, DeltaError>)
        requires
            old(self).wf(),
        ensures
            final(self).wf(),
            final(self).bits@ == old(self).bits@,
            match r {
                Ok(b) => old(self).pos < old(self).bits.len() && b == old(self).bits@[old(
                    self,
                ).pos as int] && final(self).pos == old(self).pos + 1,
                Err(e) => old(self).pos == old(self).bits.len() && e == DeltaError::IoFailure
                    && final(self).pos == old(self).pos,
            },
    {
        if self.pos < self.bits.len() {
            let b = self.bits[self.pos];
            self.pos = self.pos + 1;
            Ok(b)
        } else {
            Err(DeltaError::IoFailure)
        }
    }

    /// Reads `n` bits as an unsigned number, most significant first.
    pub fn read_unsigned(&mut self, n: u8) -> (r: Result<u64, DeltaError>)
        requires
            old(self).wf(),
            n <= 64,
        ensures
            final(self).wf(),
            final(self).bits@ == old(self).bits@,
            match r {
                Ok(x) => read_u(old(self).bits@, old(self).pos as nat, n as nat) == Some(x as nat)
                    && final(self).pos == old(self).pos + n,
                Err(e) => read_u(old(self).bits@, old(self).pos as nat, n as nat) is None && e
                    == DeltaError::IoFailure,
            },
    {
        if n as usize > self.bits.len() - self.pos {
            return Err(DeltaError::IoFailure);
        }
        let start = self.pos;
        let mut acc: u64 = 0;
        let mut i: u8 = 0;
        proof {
            lemma_two_pow_64();
        }
        while i < n
            invariant
                self.wf(),
                self.bits@ == old(self).bits@,
                start == old(self).pos,
                i <= n <= 64,
                start + n <= self.bits.len(),
                self.pos == start + i,
                acc as nat == bits_value(self.bits@.subrange(start as int, start + i)),
                two_pow(64) == 0x1_0000_0000_0000_0000,
            decreases n - i,
        {
            let ghost before = self.bits@.subrange(start as int, start + i);
            let b = self.bits[self.pos];
            proof {
                assert(self.bits@.subrange(start as int, start + i + 1) =~= before.push(b));
                lemma_bits_value_push(before, b);
                lemma_bits_value_bound(before.push(b));
                lemma_two_pow_mono((i + 1) as nat, 64);
            }
            acc = acc * 2 + if b {
                1
            } else {
                0
            };
            self.pos = self.pos + 1;
            i = i + 1;
        }
        Ok(acc)
    }

    /// Reads `n` bits as a two's complement number.
    pub fn read_signed(&mut self, n: u8) -> (r: Result<i64, DeltaError>)
        requires
            old(self).wf(),
            n <= 64,
        ensures
            final(self).wf(),
            final(self).bits@ == old(self).bits@,
            match r {
                Ok(x) => read_s(old(self).bits@, old(self).pos as nat, n as nat) == Some(x as int)
                    && final(self).pos == old(self).pos + n,
                Err(e) => read_s(old(self).bits@, old(self).pos as nat, n as nat) is None && e
                    == DeltaError::IoFailure,
            },
    {
        let ghost seg = self.bits@.subrange(self.pos as int, self.pos + n);
        let u = self.read_unsigned(n)?;
        if n == 0 {
            return Ok(0);
        }
        proof {
            lemma_two_pow_64();
            lemma_two_pow_mono((n - 1) as nat, 63);
            lemma_bits_value_bound(seg);
        }
        let half: u64 = if n == 64 {
            0x8000_0000_0000_0000
        } else {
            pow2_u64(n - 1)
        };
        if u >= half {
            Ok(((u - half) as i64) - ((half - 1) as i64) - 1)
        } else {
            Ok(u as i64)
        }
    }
}

} // verus!
