use vstd::arithmetic::div_mod::{
    lemma_fundamental_div_mod, lemma_fundamental_div_mod_converse, lemma_mod_pos_bound,
};
use vstd::arithmetic::power2::{lemma2_to64, lemma_pow2_unfold, pow2};
use vstd::prelude::*;

verus! {

/// `2^n`.
pub open spec fn two_pow(n: nat) -> nat
    decreases n,
{
    if n == 0 {
        1
    } else {
        2 * two_pow((n - 1) as nat)
    }
}

/// The `n` low bits of `v`, most significant bit first.
pub open spec fn ubits(v: nat, n: nat) -> Seq<bool>
    decreases n,
{
    if n == 0 {
        Seq::empty()
    } else {
        ubits(v / 2, (n - 1) as nat).push(v % 2 == 1)
    }
}

/// The unsigned number that a run of bits spells, most significant bit first.
pub open spec fn bits_value(s: Seq<bool>) -> nat
    decreases s.len(),
{
    if s.len() == 0 {
        0
    } else {
        2 * bits_value(s.drop_last()) + (if s.last() {
            1nat
        } else {
            0nat
        })
    }
}

/// `v` in two's complement, truncated to `n` bits.
pub open spec fn sbits(v: int, n: nat) -> Seq<bool> {
    ubits((v % (two_pow(n) as int)) as nat, n)
}

/// The signed number that a run of bits spells in two's complement.
pub open spec fn signed_value(s: Seq<bool>) -> int {
    let u = bits_value(s);
    if s.len() > 0 && u >= two_pow((s.len() - 1) as nat) {
        u - two_pow(s.len())
    } else {
        u as int
    }
}

/// `v` can be written as an unsigned number of `n` bits.
pub open spec fn fits_unsigned(v: int, n: nat) -> bool {
    0 <= v < two_pow(n)
}

/// `v` can be written as a two's complement number of `n` bits.
pub open spec fn fits_signed(v: int, n: nat) -> bool {
    if n == 0 {
        v == 0
    } else {
        -(two_pow((n - 1) as nat) as int) <= v < two_pow((n - 1) as nat)
    }
}

pub proof fn lemma_two_pow_is_pow2(n: nat)
    ensures
        two_pow(n) == pow2(n),
    decreases n,
{
    if n > 0 {
        lemma_two_pow_is_pow2((n - 1) as nat);
        lemma_pow2_unfold(n);
    } else {
        lemma2_to64();
    }
}

pub proof fn lemma_two_pow_64()
    ensures
        two_pow(64) == 0x1_0000_0000_0000_0000,
        two_pow(63) == 0x8000_0000_0000_0000,
{
    lemma_two_pow_is_pow2(64);
    lemma_two_pow_is_pow2(63);
    lemma2_to64();
}

pub proof fn lemma_two_pow_6()
    ensures
        two_pow(6) == 64,
{
    reveal_with_fuel(two_pow, 7);
}

pub proof fn lemma_two_pow_mono(m: nat, n: nat)
    requires
        m <= n,
    ensures
        1 <= two_pow(m) <= two_pow(n),
    decreases n,
{
    if m < n {
        lemma_two_pow_mono(m, (n - 1) as nat);
    } else if n > 0 {
        lemma_two_pow_mono(0, (n - 1) as nat);
    }
}

pub proof fn lemma_ubits_len(v: nat, n: nat)
    ensures
        ubits(v, n).len() == n,
    decreases n,
{
    if n > 0 {
        lemma_ubits_len(v / 2, (n - 1) as nat);
    }
}

pub proof fn lemma_bits_value_push(s: Seq<bool>, b: bool)
    ensures
        bits_value(s.push(b)) == 2 * bits_value(s) + (if b {
            1nat
        } else {
            0nat
        }),
{
    assert(s.push(b).drop_last() =~= s);
}

pub proof fn lemma_bits_value_bound(s: Seq<bool>)
    ensures
        bits_value(s) < two_pow(s.len()),
    decreases s.len(),
{
    if s.len() > 0 {
        lemma_bits_value_bound(s.drop_last());
    }
}

/// Reading back `n` written bits gives the number modulo `2^n`.
pub proof fn lemma_ubits_value(v: nat, n: nat)
    ensures
        bits_value(ubits(v, n)) == v % two_pow(n),
        ubits(v, n).len() == n,
    decreases n,
{
    lemma_ubits_len(v, n);
    if n > 0 {
        let p = two_pow((n - 1) as nat);
        lemma_ubits_value(v / 2, (n - 1) as nat);
        lemma_bits_value_push(ubits(v / 2, (n - 1) as nat), v % 2 == 1);
        lemma_two_pow_mono(0, (n - 1) as nat);
        let h = v / 2;
        lemma_fundamental_div_mod(v as int, 2);
        lemma_fundamental_div_mod(h as int, p as int);
        let q = h / p;
        let r = h % p;
        let b: int = v as int % 2;
        lemma_mod_pos_bound(h as int, p as int);
        lemma_mod_pos_bound(v as int, 2);
        assert(v == q * (2 * p) + (2 * r + b)) by (nonlinear_arith)
            requires
                v == 2 * h + b,
                h == p * q + r,
        ;
        lemma_fundamental_div_mod_converse(v as int, (2 * p) as int, q as int, 2 * r + b);
    }
}

/// A number that fits in `n` bits reads back unchanged.
pub proof fn lemma_ubits_round_trip(v: nat, n: nat)
    requires
        v < two_pow(n),
    ensures
        bits_value(ubits(v, n)) == v,
        ubits(v, n).len() == n,
{
    lemma_ubits_value(v, n);
    lemma_fundamental_div_mod_converse(v as int, two_pow(n) as int, 0, v as int);
}

/// A signed number that fits in `n` bits reads back unchanged.
pub proof fn lemma_sbits_round_trip(v: int, n: nat)
    requires
        fits_signed(v, n),
    ensures
        signed_value(sbits(v, n)) == v,
        sbits(v, n).len() == n,
{
    let m = two_pow(n) as int;
    lemma_two_pow_mono(0, n);
    lemma_fundamental_div_mod(v, m);
    let u = v % m;
    lemma_ubits_value(u as nat, n);
    lemma_fundamental_div_mod_converse(u, m, 0, u);
    if n > 0 {
        if v >= 0 {
            lemma_fundamental_div_mod_converse(v, m, 0, v);
        } else {
            lemma_fundamental_div_mod_converse(v, m, -1, v + m);
        }
    }
}

/// `v % m` for a negative `v`, in terms of a non-negative remainder.
pub proof fn lemma_neg_mod(v: int, m: int)
    requires
        v < 0,
        m > 0,
    ensures
        v % m == m - 1 - ((-(v + 1)) % m),
{
    let k = -(v + 1);
    lemma_fundamental_div_mod(k, m);
    let q = k / m;
    let r = k % m;
    assert(v == (-q - 1) * m + (m - 1 - r)) by (nonlinear_arith)
        requires
            k == m * q + r,
            k == -(v + 1),
    ;
    lemma_fundamental_div_mod_converse(v, m, -q - 1, m - 1 - r);
}

pub proof fn lemma_signed_value_bound(s: Seq<bool>)
    requires
        s.len() >= 1,
    ensures
        -(two_pow((s.len() - 1) as nat) as int) <= signed_value(s) < two_pow((s.len() - 1) as nat),
{
    lemma_bits_value_bound(s);
}

} // verus!
