//! Fixed-width limb arithmetic: carry-propagating addition and subtraction,
//! constant-time comparison, and full multiplication over little-endian
//! arrays of 64-bit limbs.
//!
//! A 256-bit magnitude is `[u64; 4]`; a double-width 512-bit accumulator is
//! `[u64; 8]`. The spec functions [`l4`] and [`l8`] give the mathematical
//! value of such an array.

use vstd::prelude::*;

verus! {

use vstd::arithmetic::power2::{pow2, lemma2_to64, lemma_pow2_adds, lemma_pow2_pos};
use vstd::arithmetic::div_mod::{
    lemma_fundamental_div_mod,
    lemma_small_mod,
    lemma_mod_multiples_vanish,
};
use vstd::arithmetic::mul::{
    lemma_mul_upper_bound,
    lemma_mul_is_associative,
    lemma_mul_is_commutative,
    lemma_mul_is_distributive_add_other_way,
    lemma_mul_equality_converse,
};

/// Mathematical value of four little-endian 64-bit limbs.
pub open spec fn l4(a: [u64; 4]) -> nat {
    a[0] as nat + a[1] as nat * pow2(64) + a[2] as nat * pow2(128) + a[3] as nat * pow2(192)
}

/// Mathematical value of eight little-endian 64-bit limbs.
pub open spec fn l8(t: [u64; 8]) -> nat {
    t[0] as nat + t[1] as nat * pow2(64) + t[2] as nat * pow2(128) + t[3] as nat * pow2(192)
        + t[4] as nat * pow2(256) + t[5] as nat * pow2(320) + t[6] as nat * pow2(384)
        + t[7] as nat * pow2(448)
}

/// The numeric values of the powers of two at each limb boundary.
pub proof fn lemma_limb_powers()
    ensures
        pow2(64) == 0x1_0000_0000_0000_0000,
        pow2(128) == 0x1_0000_0000_0000_0000_0000_0000_0000_0000,
        pow2(192) == 0x1_0000_0000_0000_0000_0000_0000_0000_0000_0000_0000_0000_0000,
        pow2(256)
            == 0x1_0000_0000_0000_0000_0000_0000_0000_0000_0000_0000_0000_0000_0000_0000_0000_0000,
        pow2(320)
            == 0x1_0000_0000_0000_0000_0000_0000_0000_0000_0000_0000_0000_0000_0000_0000_0000_0000_0000_0000_0000_0000,
        pow2(384)
            == 0x1_0000_0000_0000_0000_0000_0000_0000_0000_0000_0000_0000_0000_0000_0000_0000_0000_0000_0000_0000_0000_0000_0000_0000_0000,
        pow2(448)
            == 0x1_0000_0000_0000_0000_0000_0000_0000_0000_0000_0000_0000_0000_0000_0000_0000_0000_0000_0000_0000_0000_0000_0000_0000_0000_0000_0000_0000_0000,
        pow2(512)
            == 0x1_0000_0000_0000_0000_0000_0000_0000_0000_0000_0000_0000_0000_0000_0000_0000_0000_0000_0000_0000_0000_0000_0000_0000_0000_0000_0000_0000_0000_0000_0000_0000_0000,
{
    lemma2_to64();
    lemma_pow2_adds(64, 64);
    lemma_pow2_adds(128, 64);
    lemma_pow2_adds(192, 64);
    lemma_pow2_adds(256, 64);
    lemma_pow2_adds(320, 64);
    lemma_pow2_adds(384, 64);
    lemma_pow2_adds(448, 64);
}

/// Bound on a four-limb value: it is less than 2^256.
pub proof fn lemma_l4_bound(a: [u64; 4])
    ensures
        l4(a) < pow2(256),
{
    lemma_limb_powers();
}

/// Bound on an eight-limb value: it is less than 2^512.
pub proof fn lemma_l8_bound(t: [u64; 8])
    ensures
        l8(t) < pow2(512),
{
    lemma_limb_powers();
}

/// Splits a full 64x64-bit product plus two addends into a low and a high
/// limb: `lo + hi * 2^64 == x * y + acc + carry`. This is the elementary
/// multiply-accumulate step of the schoolbook multiplication.
pub fn mac(x: u64, y: u64, acc: u64, carry: u64) -> (r: (u64, u64))
    ensures
        r.0 as nat + r.1 as nat * pow2(64) == x as nat * y as nat + acc as nat + carry as nat,
{
    proof {
        lemma_mul_upper_bound(x as int, u64::MAX as int, y as int, u64::MAX as int);
        lemma_limb_powers();
    }
    let p: u128 = (x as u128) * (y as u128) + (acc as u128) + (carry as u128);
    let lo: u64 = (p % 0x1_0000_0000_0000_0000u128) as u64;
    let hi: u64 = (p / 0x1_0000_0000_0000_0000u128) as u64;
    proof {
        lemma_fundamental_div_mod(p as int, 0x1_0000_0000_0000_0000);
    }
    (lo, hi)
}

/// One step of a carry-propagating addition:
/// `lo + hi * 2^64 == x + y + carry`, with `hi` at most 1.
pub fn adc(x: u64, y: u64, carry: u64) -> (r: (u64, u64))
    requires
        carry <= 1,
    ensures
        r.0 as nat + r.1 as nat * pow2(64) == x as nat + y as nat + carry as nat,
        r.1 <= 1,
{
    proof {
        lemma_limb_powers();
    }
    let s: u128 = (x as u128) + (y as u128) + (carry as u128);
    let lo: u64 = (s % 0x1_0000_0000_0000_0000u128) as u64;
    let hi: u64 = (s / 0x1_0000_0000_0000_0000u128) as u64;
    proof {
        lemma_fundamental_div_mod(s as int, 0x1_0000_0000_0000_0000);
    }
    (lo, hi)
}

/// One step of a borrow-propagating subtraction:
/// `lo == x - y - borrow + b_out * 2^64`, with `b_out` at most 1.
pub fn sbb(x: u64, y: u64, borrow: u64) -> (r: (u64, u64))
    requires
        borrow <= 1,
    ensures
        r.0 as nat + y as nat + borrow as nat == x as nat + r.1 as nat * pow2(64),
        r.1 <= 1,
{
    proof {
        lemma_limb_powers();
    }
    let d: u128 = (x as u128) + 0x1_0000_0000_0000_0000u128 - (y as u128) - (borrow as u128);
    let lo: u64 = (d % 0x1_0000_0000_0000_0000u128) as u64;
    let hi: u64 = (d / 0x1_0000_0000_0000_0000u128) as u64;
    proof {
        lemma_fundamental_div_mod(d as int, 0x1_0000_0000_0000_0000);
    }
    (lo, 1 - hi)
}

/// Carry-propagating addition of two four-limb values.
/// The returned carry bit completes the exact equation.
pub fn add4(a: &[u64; 4], b: &[u64; 4]) -> (r: ([u64; 4], u64))
    ensures
        l4(r.0) + r.1 as nat * pow2(256) == l4(*a) + l4(*b),
        r.1 <= 1,
{
    let (s0, c0) = adc(a[0], b[0], 0);
    let (s1, c1) = adc(a[1], b[1], c0);
    let (s2, c2) = adc(a[2], b[2], c1);
    let (s3, c3) = adc(a[3], b[3], c2);
    let r = [s0, s1, s2, s3];
    proof {
        lemma_limb_powers();
    }
    (r, c3)
}

/// Borrow-propagating subtraction of two four-limb values.
/// The returned borrow bit completes the exact equation.
pub fn sub4(a: &[u64; 4], b: &[u64; 4]) -> (r: ([u64; 4], u64))
    ensures
        l4(r.0) + l4(*b) == l4(*a) + r.1 as nat * pow2(256),
        r.1 <= 1,
{
    let (d0, b0) = sbb(a[0], b[0], 0);
    let (d1, b1) = sbb(a[1], b[1], b0);
    let (d2, b2) = sbb(a[2], b[2], b1);
    let (d3, b3) = sbb(a[3], b[3], b2);
    let r = [d0, d1, d2, d3];
    proof {
        lemma_limb_powers();
    }
    (r, b3)
}

/// Value of the limb suffix `a[i..4]`, used to state the invariant of the
/// most-significant-limb-first comparison.
pub open spec fn l4_suffix(a: [u64; 4], i: int) -> nat
    decreases 4 - i,
{
    if i >= 4 || i < 0 {
        0
    } else {
        a[i] as nat + l4_suffix(a, i + 1) * pow2(64)
    }
}

proof fn lemma_l4_is_suffix0(a: [u64; 4])
    ensures
        l4(a) == l4_suffix(a, 0),
{
    reveal_with_fuel(l4_suffix, 6);
    lemma_limb_powers();
}

/// Constant-time less-than comparison of two four-limb values: the limbs are
/// scanned most-significant first and the outcome is accumulated with masks,
/// never by exiting the scan early.
pub fn ct_lt(a: &[u64; 4], b: &[u64; 4]) -> (r: bool)
    ensures
        r == (l4(*a) < l4(*b)),
{
    let mut result: u8 = 0;
    let mut cmp: u8 = 1;
    let mut i: usize = 4;
    while i > 0
        invariant
            i <= 4,
            result <= 1,
            cmp <= 1,
            cmp == 1 <==> l4_suffix(*a, i as int) == l4_suffix(*b, i as int),
            result == 1 <==> l4_suffix(*a, i as int) < l4_suffix(*b, i as int),
        decreases i,
    {
        i = i - 1;
        let eq: u8 = (a[i] == b[i]) as u8;
        let lt: u8 = (a[i] < b[i]) as u8;
        let next_result = result | (cmp & lt);
        let next_cmp = cmp & eq;
        proof {
            lemma_limb_powers();
            assert((next_result == 1 <==> (result == 1 || (cmp == 1 && lt == 1))) && next_result
                <= 1) by (bit_vector)
                requires
                    next_result == result | (cmp & lt) && result <= 1 && cmp <= 1 && lt <= 1,
            ;
            assert((next_cmp == 1 <==> (cmp == 1 && eq == 1)) && next_cmp <= 1) by (bit_vector)
                requires
                    next_cmp == cmp & eq && cmp <= 1 && eq <= 1,
            ;
            assert(l4_suffix(*a, i as int) == a[i as int] as nat + l4_suffix(*a, i as int + 1)
                * pow2(64));
            assert(l4_suffix(*b, i as int) == b[i as int] as nat + l4_suffix(*b, i as int + 1)
                * pow2(64));
            if l4_suffix(*a, i as int + 1) < l4_suffix(*b, i as int + 1) {
                assert(l4_suffix(*a, i as int + 1) + 1 <= l4_suffix(*b, i as int + 1));
                assert(l4_suffix(*a, i as int) < l4_suffix(*b, i as int));
            } else if l4_suffix(*a, i as int + 1) > l4_suffix(*b, i as int + 1) {
                assert(l4_suffix(*b, i as int + 1) + 1 <= l4_suffix(*a, i as int + 1));
                assert(l4_suffix(*a, i as int) > l4_suffix(*b, i as int));
            }
        }
        result = next_result;
        cmp = next_cmp;
    }
    proof {
        lemma_l4_is_suffix0(*a);
        lemma_l4_is_suffix0(*b);
    }
    result == 1
}

/// Low half of an eight-limb accumulator.
pub fn low4(t: &[u64; 8]) -> (r: [u64; 4])
    ensures
        l4(r) + (t[4] as nat * pow2(256) + t[5] as nat * pow2(320) + t[6] as nat * pow2(384)
            + t[7] as nat * pow2(448)) == l8(*t),
{
    [t[0], t[1], t[2], t[3]]
}

/// High half of an eight-limb accumulator.
pub fn high4(t: &[u64; 8]) -> (r: [u64; 4])
    ensures
        l4(r) * pow2(256) + (t[0] as nat + t[1] as nat * pow2(64) + t[2] as nat * pow2(128)
            + t[3] as nat * pow2(192)) == l8(*t),
{
    proof {
        lemma_limb_powers();
    }
    [t[4], t[5], t[6], t[7]]
}

/// Expansion of the product of two four-limb values into the sixteen
/// limb-by-limb partial products.
pub proof fn lemma_mul4_expand(a: [u64; 4], b: [u64; 4])
    ensures
        l4(a) * l4(b) == (a[0] as nat * b[0] as nat) + (a[0] as nat * b[1] as nat + a[1] as nat
            * b[0] as nat) * pow2(64) + (a[0] as nat * b[2] as nat + a[1] as nat * b[1] as nat
            + a[2] as nat * b[0] as nat) * pow2(128) + (a[0] as nat * b[3] as nat + a[1] as nat
            * b[2] as nat + a[2] as nat * b[1] as nat + a[3] as nat * b[0] as nat) * pow2(192) + (
        a[1] as nat * b[3] as nat + a[2] as nat * b[2] as nat + a[3] as nat * b[1] as nat) * pow2(
            256,
        ) + (a[2] as nat * b[3] as nat + a[3] as nat * b[2] as nat) * pow2(320) + (a[3] as nat
            * b[3] as nat) * pow2(384),
{
    lemma_limb_powers();
    lemma_pow2_adds(64, 64);
    lemma_pow2_adds(64, 128);
    lemma_pow2_adds(64, 192);
    lemma_pow2_adds(64, 256);
    lemma_pow2_adds(64, 320);
    let a0 = a[0] as nat;
    let a1 = a[1] as nat;
    let a2 = a[2] as nat;
    let a3 = a[3] as nat;
    let b0 = b[0] as nat;
    let b1 = b[1] as nat;
    let b2 = b[2] as nat;
    let b3 = b[3] as nat;
    let p1 = pow2(64);
    let p2 = pow2(128);
    let p3 = pow2(192);
    let p4 = pow2(256);
    let p5 = pow2(320);
    let p6 = pow2(384);
    let av = a0 + a1 * p1 + a2 * p2 + a3 * p3;
    let bv = b0 + b1 * p1 + b2 * p2 + b3 * p3;
    lemma_dist4(b0 as int, b1 as int, b2 as int, b3 as int, av as int, p1 as int, p2 as int,
        p3 as int);
    lemma_dist4(a0 as int, a1 as int, a2 as int, a3 as int, b0 as int, p1 as int, p2 as int,
        p3 as int);
    lemma_dist4(a0 as int, a1 as int, a2 as int, a3 as int, b1 as int, p1 as int, p2 as int,
        p3 as int);
    lemma_dist4(a0 as int, a1 as int, a2 as int, a3 as int, b2 as int, p1 as int, p2 as int,
        p3 as int);
    lemma_dist4(a0 as int, a1 as int, a2 as int, a3 as int, b3 as int, p1 as int, p2 as int,
        p3 as int);
    lemma_mul_is_commutative(av as int, bv as int);
    lemma_mul_is_commutative(av as int, b0 as int);
    lemma_mul_is_commutative(av as int, b1 as int);
    lemma_mul_is_commutative(av as int, b2 as int);
    lemma_mul_is_commutative(av as int, b3 as int);
    assert(bv * av == b0 * av + (b1 * av) * p1 + (b2 * av) * p2 + (b3 * av) * p3);
    assert(b1 * av == av * b1 && av * b1 == a0 * b1 + (a1 * b1) * p1 + (a2 * b1) * p2 + (a3 * b1)
        * p3);
}

/// Distributes a product over a four-term weighted sum:
/// `(x0 + x1 p1 + x2 p2 + x3 p3) * y == x0 y + (x1 y) p1 + (x2 y) p2 + (x3 y) p3`.
pub proof fn lemma_dist4(x0: int, x1: int, x2: int, x3: int, y: int, p1: int, p2: int, p3: int)
    ensures
        (x0 + x1 * p1 + x2 * p2 + x3 * p3) * y == x0 * y + (x1 * y) * p1 + (x2 * y) * p2 + (x3 * y)
            * p3,
{
    lemma_mul_is_distributive_add_other_way(y, x0 + x1 * p1 + x2 * p2, x3 * p3);
    lemma_mul_is_distributive_add_other_way(y, x0 + x1 * p1, x2 * p2);
    lemma_mul_is_distributive_add_other_way(y, x0, x1 * p1);
    lemma_swap_mul(x1, p1, y);
    lemma_swap_mul(x2, p2, y);
    lemma_swap_mul(x3, p3, y);
}

/// Rearranges `(x * p) * y` into `(x * y) * p`.
pub proof fn lemma_swap_mul(x: int, p: int, y: int)
    ensures
        (x * p) * y == (x * y) * p,
{
    lemma_mul_is_associative(x, p, y);
    lemma_mul_is_commutative(p, y);
    lemma_mul_is_associative(x, y, p);
}

/// Schoolbook multiplication: the full double-width product of two four-limb
/// values, one row per limb of `a`, with exact carry propagation.
pub fn mul4(a: &[u64; 4], b: &[u64; 4]) -> (t: [u64; 8])
    ensures
        l8(t) == l4(*a) * l4(*b),
{
    let mut t = [0u64; 8];

    // Row 0: t += a[0] * b
    let (t0, c) = mac(a[0], b[0], t[0], 0);
    let (t1, c) = mac(a[0], b[1], t[1], c);
    let (t2, c) = mac(a[0], b[2], t[2], c);
    let (t3, c) = mac(a[0], b[3], t[3], c);
    t[0] = t0;
    t[1] = t1;
    t[2] = t2;
    t[3] = t3;
    t[4] = c;
    proof {
        lemma_limb_powers();
        assert(l8(t) == (a[0] as nat * b[0] as nat) + (a[0] as nat * b[1] as nat) * pow2(64) + (
        a[0] as nat * b[2] as nat) * pow2(128) + (a[0] as nat * b[3] as nat) * pow2(192));
    }

    // Row 1: t += a[1] * b, shifted one limb
    let (t1, c) = mac(a[1], b[0], t[1], 0);
    let (t2, c) = mac(a[1], b[1], t[2], c);
    let (t3, c) = mac(a[1], b[2], t[3], c);
    let (t4, c) = mac(a[1], b[3], t[4], c);
    t[1] = t1;
    t[2] = t2;
    t[3] = t3;
    t[4] = t4;
    t[5] = c;
    proof {
        lemma_limb_powers();
        assert(l8(t) == (a[0] as nat * b[0] as nat) + (a[0] as nat * b[1] as nat + a[1] as nat
            * b[0] as nat) * pow2(64) + (a[0] as nat * b[2] as nat + a[1] as nat * b[1] as nat)
            * pow2(128) + (a[0] as nat * b[3] as nat + a[1] as nat * b[2] as nat) * pow2(192) + (
        a[1] as nat * b[3] as nat) * pow2(256));
    }

    // Row 2: t += a[2] * b, shifted two limbs
    let (t2, c) = mac(a[2], b[0], t[2], 0);
    let (t3, c) = mac(a[2], b[1], t[3], c);
    let (t4, c) = mac(a[2], b[2], t[4], c);
    let (t5, c) = mac(a[2], b[3], t[5], c);
    t[2] = t2;
    t[3] = t3;
    t[4] = t4;
    t[5] = t5;
    t[6] = c;
    proof {
        lemma_limb_powers();
        assert(l8(t) == (a[0] as nat * b[0] as nat) + (a[0] as nat * b[1] as nat + a[1] as nat
            * b[0] as nat) * pow2(64) + (a[0] as nat * b[2] as nat + a[1] as nat * b[1] as nat
            + a[2] as nat * b[0] as nat) * pow2(128) + (a[0] as nat * b[3] as nat + a[1] as nat
            * b[2] as nat + a[2] as nat * b[1] as nat) * pow2(192) + (a[1] as nat * b[3] as nat
            + a[2] as nat * b[2] as nat) * pow2(256) + (a[2] as nat * b[3] as nat) * pow2(320));
    }

    // Row 3: t += a[3] * b, shifted three limbs
    let (t3, c) = mac(a[3], b[0], t[3], 0);
    let (t4, c) = mac(a[3], b[1], t[4], c);
    let (t5, c) = mac(a[3], b[2], t[5], c);
    let (t6, c) = mac(a[3], b[3], t[6], c);
    t[3] = t3;
    t[4] = t4;
    t[5] = t5;
    t[6] = t6;
    t[7] = c;
    proof {
        lemma_limb_powers();
        assert(l8(t) == (a[0] as nat * b[0] as nat) + (a[0] as nat * b[1] as nat + a[1] as nat
            * b[0] as nat) * pow2(64) + (a[0] as nat * b[2] as nat + a[1] as nat * b[1] as nat
            + a[2] as nat * b[0] as nat) * pow2(128) + (a[0] as nat * b[3] as nat + a[1] as nat
            * b[2] as nat + a[2] as nat * b[1] as nat + a[3] as nat * b[0] as nat) * pow2(192) + (
        a[1] as nat * b[3] as nat + a[2] as nat * b[2] as nat + a[3] as nat * b[1] as nat) * pow2(
            256,
        ) + (a[2] as nat * b[3] as nat + a[3] as nat * b[2] as nat) * pow2(320) + (a[3] as nat
            * b[3] as nat) * pow2(384));
        lemma_mul4_expand(*a, *b);
    }

    t
}

/// Carry-propagating addition of two eight-limb accumulators.
#[verifier::rlimit(50)]
pub fn add8(a: &[u64; 8], b: &[u64; 8]) -> (r: ([u64; 8], u64))
    ensures
        l8(r.0) + r.1 as nat * pow2(512) == l8(*a) + l8(*b),
        r.1 <= 1,
{
    let (s0, c) = adc(a[0], b[0], 0);
    let (s1, c) = adc(a[1], b[1], c);
    let (s2, c) = adc(a[2], b[2], c);
    let (s3, c) = adc(a[3], b[3], c);
    let (s4, c) = adc(a[4], b[4], c);
    let (s5, c) = adc(a[5], b[5], c);
    let (s6, c) = adc(a[6], b[6], c);
    let (s7, c) = adc(a[7], b[7], c);
    let r = [s0, s1, s2, s3, s4, s5, s6, s7];
    proof {
        lemma_limb_powers();
    }
    (r, c)
}

/// Decomposition of an eight-limb value into its low and high halves:
/// `l8(t) == lo + 2^256 * hi`, with both halves below `2^256`.
pub proof fn lemma_l8_decompose(t: [u64; 8])
    ensures
        l8(t) == (t[0] as nat + t[1] as nat * pow2(64) + t[2] as nat * pow2(128) + t[3] as nat
            * pow2(192)) + pow2(256) * (t[4] as nat + t[5] as nat * pow2(64) + t[6] as nat * pow2(
            128,
        ) + t[7] as nat * pow2(192)),
        t[0] as nat + t[1] as nat * pow2(64) + t[2] as nat * pow2(128) + t[3] as nat * pow2(192)
            < pow2(256),
        t[4] as nat + t[5] as nat * pow2(64) + t[6] as nat * pow2(128) + t[7] as nat * pow2(192)
            < pow2(256),
{
    lemma_limb_powers();
    let p1 = pow2(64) as int;
    let p2 = pow2(128) as int;
    let p3 = pow2(192) as int;
    let p4 = pow2(256) as int;
    lemma_dist4(t[4] as int, t[5] as int, t[6] as int, t[7] as int, p4, p1, p2, p3);
    lemma_mul_is_commutative(
        (t[4] as nat + t[5] as nat * pow2(64) + t[6] as nat * pow2(128) + t[7] as nat * pow2(
            192,
        )) as int,
        p4,
    );
}

/// The low limb is the value reduced modulo 2^64.
pub proof fn lemma_l4_mod_word(a: [u64; 4])
    ensures
        l4(a) % pow2(64) == a[0] as nat,
        l4(a) % 2 == a[0] as nat % 2,
{
    lemma_limb_powers();
    let h = a[1] as int + a[2] as int * 0x1_0000_0000_0000_0000 + a[3] as int
        * 0x1_0000_0000_0000_0000_0000_0000_0000_0000;
    assert(l4(a) == a[0] as int + 0x1_0000_0000_0000_0000 * h);
    lemma_mod_multiples_vanish(h, a[0] as int, 0x1_0000_0000_0000_0000);
    lemma_small_mod(a[0] as nat, pow2(64));
    let h2 = a[0] as int / 2 + a[1] as int * 0x8000_0000_0000_0000 + a[2] as int
        * 0x8000_0000_0000_0000_0000_0000_0000_0000 + a[3] as int
        * 0x8000_0000_0000_0000_0000_0000_0000_0000_0000_0000_0000_0000;
    lemma_fundamental_div_mod(a[0] as int, 2);
    assert(l4(a) == (a[0] as int % 2) + 2 * h2);
    lemma_mod_multiples_vanish(h2, a[0] as int % 2, 2);
    lemma_small_mod((a[0] as nat) % 2, 2);
}

/// A four-limb value is zero exactly when all its limbs are zero.
pub proof fn lemma_l4_zero(a: [u64; 4])
    ensures
        (l4(a) == 0) <==> (a[0] == 0 && a[1] == 0 && a[2] == 0 && a[3] == 0),
{
    lemma_limb_powers();
}

/// The value of a four-limb array determines each limb: the base-2^64
/// representation is unique.
pub proof fn lemma_l4_injective(a: [u64; 4], b: [u64; 4])
    requires
        l4(a) == l4(b),
    ensures
        a[0] == b[0] && a[1] == b[1] && a[2] == b[2] && a[3] == b[3],
{
    lemma_limb_powers();
    let p64 = 0x1_0000_0000_0000_0000 as int;
    let ha = a[1] as int + a[2] as int * p64 + a[3] as int * 0x1_0000_0000_0000_0000_0000_0000_0000_0000;
    let hb = b[1] as int + b[2] as int * p64 + b[3] as int * 0x1_0000_0000_0000_0000_0000_0000_0000_0000;
    assert(l4(a) == a[0] as int + p64 * ha && l4(b) == b[0] as int + p64 * hb);
    lemma_mod_multiples_vanish(ha, a[0] as int, p64);
    lemma_mod_multiples_vanish(hb, b[0] as int, p64);
    lemma_small_mod(a[0] as nat, pow2(64));
    lemma_small_mod(b[0] as nat, pow2(64));
    assert(a[0] == b[0]);
    lemma_mul_equality_converse(p64, ha, hb);
    let ha2 = a[2] as int + a[3] as int * p64;
    let hb2 = b[2] as int + b[3] as int * p64;
    assert(ha == a[1] as int + p64 * ha2 && hb == b[1] as int + p64 * hb2);
    lemma_mod_multiples_vanish(ha2, a[1] as int, p64);
    lemma_mod_multiples_vanish(hb2, b[1] as int, p64);
    lemma_small_mod(a[1] as nat, pow2(64));
    lemma_small_mod(b[1] as nat, pow2(64));
    assert(a[1] == b[1]);
    lemma_mul_equality_converse(p64, ha2, hb2);
    lemma_mod_multiples_vanish(a[3] as int, a[2] as int, p64);
    lemma_mod_multiples_vanish(b[3] as int, b[2] as int, p64);
    lemma_small_mod(a[2] as nat, pow2(64));
    lemma_small_mod(b[2] as nat, pow2(64));
    assert(a[2] == b[2]);
    lemma_mul_equality_converse(p64, a[3] as int, b[3] as int);
}

/// Halves a four-limb value extended by a carry bit: each limb is shifted
/// down one bit and receives the lowest bit of the next limb.
pub fn shr1_carry(v: &[u64; 4], c: u64) -> (r: [u64; 4])
    requires
        c <= 1,
    ensures
        2 * l4(r) + (v[0] as nat % 2) == l4(*v) + (c as nat) * pow2(256),
{
    proof {
        lemma_limb_powers();
    }
    let r0 = v[0] / 2 + (v[1] % 2) * 0x8000_0000_0000_0000u64;
    let r1 = v[1] / 2 + (v[2] % 2) * 0x8000_0000_0000_0000u64;
    let r2 = v[2] / 2 + (v[3] % 2) * 0x8000_0000_0000_0000u64;
    let r3 = v[3] / 2 + c * 0x8000_0000_0000_0000u64;
    let r = [r0, r1, r2, r3];
    proof {
        lemma_fundamental_div_mod(v[0] as int, 2);
        lemma_fundamental_div_mod(v[1] as int, 2);
        lemma_fundamental_div_mod(v[2] as int, 2);
        lemma_fundamental_div_mod(v[3] as int, 2);
    }
    r
}

/// Shifts a four-limb value down by four bits: each limb is shifted and
/// receives the low four bits of the next limb.
pub fn shr4(v: &[u64; 4]) -> (r: [u64; 4])
    ensures
        16 * l4(r) + (v[0] as nat % 16) == l4(*v),
{
    proof {
        lemma_limb_powers();
    }
    let r0 = v[0] / 16 + (v[1] % 16) * 0x1000_0000_0000_0000u64;
    let r1 = v[1] / 16 + (v[2] % 16) * 0x1000_0000_0000_0000u64;
    let r2 = v[2] / 16 + (v[3] % 16) * 0x1000_0000_0000_0000u64;
    let r3 = v[3] / 16;
    let r = [r0, r1, r2, r3];
    proof {
        lemma_fundamental_div_mod(v[0] as int, 16);
        lemma_fundamental_div_mod(v[1] as int, 16);
        lemma_fundamental_div_mod(v[2] as int, 16);
        lemma_fundamental_div_mod(v[3] as int, 16);
    }
    r
}

/// The low four bits of the low limb are the value modulo sixteen.
pub proof fn lemma_l4_mod16(a: [u64; 4])
    ensures
        l4(a) % 16 == a[0] as nat % 16,
{
    lemma_limb_powers();
    let h = a[0] as int / 16 + a[1] as int * 0x1000000000000000 + a[2] as int * 0x10000000000000000000000000000000
        + a[3] as int * 0x100000000000000000000000000000000000000000000000;
    lemma_fundamental_div_mod(a[0] as int, 16);
    assert(l4(a) == (a[0] as int % 16) + 16 * h);
    lemma_mod_multiples_vanish(h, a[0] as int % 16, 16);
    lemma_small_mod((a[0] as nat) % 16, 16);
}

/// The value of a single-word array: `l4([x, 0, 0, 0]) == x`.
pub proof fn lemma_l4_word_only(x: u64)
    ensures
        l4([x, 0, 0, 0]) == x as nat,
{
    lemma_limb_powers();
    let a: [u64; 4] = [x, 0, 0, 0];
    assert(a[0] == x && a[1] == 0 && a[2] == 0 && a[3] == 0);
    assert(l4(a) == x as nat + 0 * pow2(64) + 0 * pow2(128) + 0 * pow2(192));
}

/// A four-limb value equals one exactly when its limbs are `[1, 0, 0, 0]`.
pub proof fn lemma_l4_one(a: [u64; 4])
    ensures
        (l4(a) == 1) <==> (a[0] == 1 && a[1] == 0 && a[2] == 0 && a[3] == 0),
{
    lemma_limb_powers();
}

} // verus!
