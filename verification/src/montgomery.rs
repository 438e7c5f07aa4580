//! Montgomery-form modular arithmetic over 4x64-bit limbs: the
//! multiply-reduce engine, its lazy-reduction variant, and the derivation of
//! the per-modulus constants.
//!
//! Throughout, `R = 2^256`. A value `x` is held in Montgomery form as
//! `x * R mod N`; the product of two Montgomery representatives followed by a
//! Montgomery reduction yields the representative of the product.

use vstd::prelude::*;

verus! {

use vstd::arithmetic::power2::{
    pow2,
    lemma2_to64,
    lemma_pow2_adds,
    lemma_pow2_pos,
    lemma_pow2_strictly_increases,
};
use vstd::arithmetic::div_mod::{
    lemma_fundamental_div_mod,
    lemma_fundamental_div_mod_converse_mod,
    lemma_small_mod,
    lemma_mod_multiples_vanish,
    lemma_mod_breakdown,
    lemma_add_mod_noop,
    lemma_add_mod_noop_right,
    lemma_mul_mod_noop_left,
    lemma_mul_mod_noop_right,
    lemma_mul_mod_noop_general,
    lemma_mod_bound,
    lemma_mod_mod,
};
use vstd::arithmetic::mul::{
    lemma_mul_basics,
    lemma_mul_upper_bound,
    lemma_mul_is_associative,
    lemma_mul_is_commutative,
    lemma_mul_is_distributive_add,
    lemma_mul_is_distributive_add_other_way,
    lemma_mul_is_distributive_sub,
    lemma_mul_inequality,
    lemma_mul_strict_inequality,
    lemma_mul_left_inequality,
};
use vstd::bits::lemma_u64_shl_is_mul;
use crate::limbs::{
    l4,
    l8,
    add4,
    sub4,
    mul4,
    add8,
    low4,
    high4,
    ct_lt,
    lemma_limb_powers,
    lemma_l4_bound,
    lemma_l8_bound,
};
use crate::field::FieldError;

/// Constants used for Montgomery arithmetic, derived once per modulus.
#[derive(Clone, Copy, Debug)]
pub struct MontgomeryConstants {
    /// The modulus `N`; must be odd.
    pub modulus: [u64; 4],
    /// `R^2 mod N` where `R = 2^(word_size * 4)`, used to enter Montgomery form.
    pub r_squared: [u64; 4],
    /// `N' = -N^(-1) mod R`, the reduction multiplier.
    pub n_prime: [u64; 4],
    /// Word size in bits of one limb.
    pub word_size: u32,
    /// Lazy-reduction budget: `N * 2^extra_bits <= R` is maintained, so a
    /// magnitude below `N * 2^extra_bits` always fits in four limbs.
    pub extra_bits: u32,
}

/// Well-formedness of a set of Montgomery constants: the modulus is odd, the
/// stored values are exactly `R^2 mod N` and `-N^(-1) mod R`, and the
/// lazy-reduction budget keeps every tracked magnitude inside four limbs.
pub open spec fn constants_wf(c: MontgomeryConstants) -> bool {
    &&& l4(c.modulus) % 2 == 1
    &&& l4(c.r_squared) == pow2(512) % l4(c.modulus)
    &&& (l4(c.n_prime) * l4(c.modulus)) % pow2(256) == (pow2(256) - 1) as nat
    &&& c.word_size == 64
    &&& l4(c.modulus) * pow2(c.extra_bits as nat) <= pow2(256)
}

/// An odd four-limb value is positive and below `R`.
pub proof fn lemma_odd_modulus_bounds(n: [u64; 4])
    requires
        l4(n) % 2 == 1,
    ensures
        0 < l4(n),
        l4(n) < pow2(256),
{
    lemma_l4_bound(n);
}

/// Low half of a full product: `(a * b) mod R`.
fn mul_lo(a: &[u64; 4], b: &[u64; 4]) -> (r: [u64; 4])
    ensures
        l4(r) == (l4(*a) * l4(*b)) % pow2(256),
{
    let t = mul4(a, b);
    let r = low4(&t);
    proof {
        lemma_limb_powers();
        lemma_l4_bound(r);
        let hi = t[4] as nat * pow2(256) + t[5] as nat * pow2(320) + t[6] as nat * pow2(384)
            + t[7] as nat * pow2(448);
        assert(hi == pow2(256) * (t[4] as nat + t[5] as nat * pow2(64) + t[6] as nat * pow2(128)
            + t[7] as nat * pow2(192)));
        lemma_mod_multiples_vanish(
            (t[4] as nat + t[5] as nat * pow2(64) + t[6] as nat * pow2(128) + t[7] as nat * pow2(
                192,
            )) as int,
            l4(r) as int,
            pow2(256) as int,
        );
        lemma_small_mod(l4(r), pow2(256));
    }
    r
}

/// Conditional final subtraction: reduces a value below `2N`, given as four
/// limbs and a carry bit, to its remainder modulo `N`. The subtraction is
/// computed unconditionally; only the committed result depends on the
/// comparison.
pub(crate) fn cond_sub(s: &[u64; 4], c: u64, n: &[u64; 4]) -> (r: [u64; 4])
    requires
        c <= 1,
        0 < l4(*n),
        l4(*s) + (c as nat) * pow2(256) < 2 * l4(*n),
    ensures
        l4(r) == (l4(*s) + (c as nat) * pow2(256)) % l4(*n),
        l4(r) < l4(*n),
{
    proof {
        lemma_l4_bound(*s);
        lemma_l4_bound(*n);
    }
    let ghost v: nat = l4(*s) + (c as nat) * pow2(256);
    let big = c == 1 || !ct_lt(s, n);
    let (d, borrow) = sub4(s, n);
    if big {
        proof {
            assert(v >= l4(*n));
            if c == 1 {
                assert(l4(*s) < l4(*n));
                assert(borrow == 1);
            } else {
                assert(l4(*s) >= l4(*n));
                lemma_l4_bound(d);
                if borrow == 1 {
                    assert(l4(d) == l4(*s) + pow2(256) - l4(*n));
                    assert(l4(d) >= pow2(256));
                }
                assert(borrow == 0);
            }
            assert(l4(d) == v - l4(*n));
            lemma_fundamental_div_mod_converse_mod(v as int, l4(*n) as int, 1, (v - l4(*n)) as int);
        }
        d
    } else {
        proof {
            assert(c == 0 && l4(*s) < l4(*n));
            lemma_small_mod(v, l4(*n));
        }
        *s
    }
}

/// The core Montgomery reduction step without the final subtraction: computes
/// `m = (t mod R) * N' mod R`, adds `m * N`, and divides by `R` exactly. The
/// result `v = r.0 + r.1 * R` satisfies `v * R == t + m * N`, so `v` is
/// congruent to `t * R^(-1)` modulo `N` and exceeds `t / R` by less than `N`.
fn redc_core(t: &[u64; 8], n: &[u64; 4], n_prime: &[u64; 4]) -> (r: ([u64; 4], u64))
    requires
        l4(*n) % 2 == 1,
        (l4(*n_prime) * l4(*n)) % pow2(256) == (pow2(256) - 1) as nat,
    ensures
        r.1 <= 1,
        ((l4(r.0) + (r.1 as nat) * pow2(256)) * pow2(256)) % l4(*n) == l8(*t) % l4(*n),
        l8(*t) <= (l4(r.0) + (r.1 as nat) * pow2(256)) * pow2(256),
        (l4(r.0) + (r.1 as nat) * pow2(256)) * pow2(256) < l8(*t) + pow2(256) * l4(*n),
{
    proof {
        lemma_odd_modulus_bounds(*n);
        lemma_pow2_pos(256);
    }
    let tlo = low4(t);
    let m = mul_lo(&tlo, n_prime);
    let mn = mul4(&m, n);
    let (u, c) = add8(t, &mn);
    let hi = high4(&u);
    let ghost bigr: nat = pow2(256);
    let ghost nn: nat = l4(*n);
    let ghost tval: nat = l8(*t);
    let ghost tlo_val: nat = l4(tlo);
    let ghost mval: nat = l4(m);
    let ghost uval: nat = tval + mval * nn;
    let ghost v: nat = l4(hi) + (c as nat) * bigr;
    proof {
        lemma_limb_powers();
        lemma_l4_bound(tlo);
        lemma_l4_bound(m);
        lemma_l4_bound(hi);
        lemma_l8_bound(*t);
        // The low half is exactly t mod R.
        let thi_val = (t[4] as nat + t[5] as nat * pow2(64) + t[6] as nat * pow2(128)
            + t[7] as nat * pow2(192));
        crate::limbs::lemma_l8_decompose(*t);
        assert(tval == tlo_val + pow2(256) * thi_val);
        lemma_mod_multiples_vanish(thi_val as int, tlo_val as int, bigr as int);
        lemma_small_mod(tlo_val, bigr);
        assert(tval % bigr == tlo_val);
        // u (with its carry) is exactly t + m*n.
        assert(l8(u) + (c as nat) * pow2(512) == uval);
        // Step 1: t + m*n is divisible by R.
        lemma_redc_divisible(tval, tlo_val, mval, nn, l4(*n_prime));
        // Step 2: the low limbs of u therefore vanish and v * R == u.
        let ulo_val = (u[0] as nat + u[1] as nat * pow2(64) + u[2] as nat * pow2(128)
            + u[3] as nat * pow2(192));
        crate::limbs::lemma_l8_decompose(u);
        assert(l8(u) == ulo_val + l4(hi) * pow2(256));
        assert(uval == ulo_val + l4(hi) * pow2(256) + (c as nat) * pow2(512));
        assert(pow2(512) == pow2(256) * pow2(256));
        assert(uval == ulo_val + (l4(hi) + (c as nat) * bigr) * bigr) by {
            lemma_mul_is_distributive_add_other_way(
                bigr as int,
                l4(hi) as int,
                (c as nat * bigr) as int,
            );
            lemma_mul_is_associative(c as int, bigr as int, bigr as int);
        }
        lemma_mod_multiples_vanish(v as int, ulo_val as int, bigr as int);
        lemma_small_mod(ulo_val, bigr);
        assert(ulo_val == 0);
        assert(v * bigr == uval);
        // Step 3: congruence and bounds of v * R.
        lemma_mod_multiples_vanish(mval as int, tval as int, nn as int);
        assert((uval) % nn == tval % nn) by {
            lemma_mul_is_commutative(mval as int, nn as int);
        }
        // bounds: m < R so m*n < R*n
        lemma_mul_strict_inequality(mval as int, bigr as int, nn as int);
        assert(mval * nn < bigr * nn);
        lemma_mul_is_commutative(bigr as int, nn as int);
    }
    (hi, c)
}

/// Divisibility by `R` of the adjusted accumulator: with
/// `m = (t mod R) * N' mod R` and `N * N' = -1 mod R`, the sum `t + m * N`
/// vanishes modulo `R`.
proof fn lemma_redc_divisible(t: nat, tlo: nat, m: nat, n: nat, np: nat)
    requires
        t % pow2(256) == tlo,
        m == (tlo * np) % pow2(256),
        (np * n) % pow2(256) == (pow2(256) - 1) as nat,
        0 < n,
    ensures
        (t + m * n) % pow2(256) == 0,
{
    let r = pow2(256) as int;
    let ti = t as int;
    let tloi = tlo as int;
    let mi = m as int;
    let ni = n as int;
    let npi = np as int;
    lemma_pow2_pos(256);
    // m * n == tlo * np * n (mod R)
    lemma_mul_mod_noop_left(tloi * npi, ni, r);
    assert((mi * ni) % r == ((tloi * npi) * ni) % r);
    // tlo * np * n == tlo * (np * n) == tlo * (R - 1) (mod R)
    lemma_mul_is_associative(tloi, npi, ni);
    lemma_mul_mod_noop_right(tloi, npi * ni, r);
    assert((tloi * (npi * ni)) % r == (tloi * ((npi * ni) % r)) % r);
    assert((mi * ni) % r == (tloi * (r - 1)) % r);
    // t + m * n == tlo + tlo * (R - 1) == tlo * R == 0 (mod R)
    lemma_add_mod_noop(ti, mi * ni, r);
    assert((ti + mi * ni) % r == ((ti % r) + ((mi * ni) % r)) % r);
    lemma_add_mod_noop_right(tloi, tloi * (r - 1), r);
    assert((tloi + (tloi * (r - 1)) % r) % r == (tloi + tloi * (r - 1)) % r);
    assert(tloi + tloi * (r - 1) == tloi * r) by {
        lemma_mul_is_distributive_sub(tloi, r, 1);
    }
    lemma_mod_multiples_vanish(tloi, 0, r);
    assert((tloi * r) % r == 0) by {
        lemma_mul_is_commutative(tloi, r);
    }
    assert(((ti % r) + ((mi * ni) % r)) % r == (tloi + (tloi * (r - 1)) % r) % r);
    assert((ti + mi * ni) % r == 0);
}

/// Montgomery multiplication: three steps - full double-width product,
/// reduction multiplier, exact division by `R` - followed by one conditional
/// subtraction of the modulus. The result is the Montgomery representative of
/// the product: `r * R == a * b (mod N)` with `r < N`.
pub fn mont_mul(a: &[u64; 4], b: &[u64; 4], n: &[u64; 4], n_prime: &[u64; 4]) -> (r: [u64; 4])
    requires
        l4(*n) % 2 == 1,
        (l4(*n_prime) * l4(*n)) % pow2(256) == (pow2(256) - 1) as nat,
        l4(*a) * l4(*b) < l4(*n) * pow2(256),
    ensures
        l4(r) < l4(*n),
        (l4(r) * pow2(256)) % l4(*n) == (l4(*a) * l4(*b)) % l4(*n),
{
    proof {
        lemma_odd_modulus_bounds(*n);
    }
    let t = mul4(a, b);
    mont_reduce(&t, n, n_prime)
}

/// Montgomery reduction of a full double-width accumulator (as produced by a
/// multiplication or squaring) back to a single-width value below the
/// modulus: `r * R == t (mod N)` with `r < N`.
pub fn mont_reduce(t: &[u64; 8], n: &[u64; 4], n_prime: &[u64; 4]) -> (r: [u64; 4])
    requires
        l4(*n) % 2 == 1,
        (l4(*n_prime) * l4(*n)) % pow2(256) == (pow2(256) - 1) as nat,
        l8(*t) < l4(*n) * pow2(256),
    ensures
        l4(r) < l4(*n),
        (l4(r) * pow2(256)) % l4(*n) == l8(*t) % l4(*n),
{
    proof {
        lemma_odd_modulus_bounds(*n);
        lemma_pow2_pos(256);
    }
    let (hi, c) = redc_core(t, n, n_prime);
    let ghost bigr: nat = pow2(256);
    let ghost nn: nat = l4(*n);
    let ghost v: nat = l4(hi) + (c as nat) * bigr;
    proof {
        // v * R < t + R*N < N*R + R*N = 2*N*R, so v < 2*N.
        lemma_mul_is_commutative(bigr as int, nn as int);
        assert(v * bigr < nn * bigr + nn * bigr);
        lemma_mul_is_distributive_add_other_way(bigr as int, nn as int, nn as int);
        assert(v * bigr < (nn + nn) * bigr);
        lemma_mul_strict_inequality_converse_helper(v as int, (nn + nn) as int, bigr as int);
        assert(v < 2 * nn);
    }
    let r = cond_sub(&hi, c, n);
    proof {
        // r == v % N, so r * R == v * R == t (mod N).
        lemma_mul_mod_noop_left(v as int, bigr as int, nn as int);
        assert((l4(r) * bigr) % nn == (v * bigr) % nn);
    }
    r
}

/// From `x * z < y * z` with positive `z`, conclude `x < y`.
proof fn lemma_mul_strict_inequality_converse_helper(x: int, y: int, z: int)
    requires
        x * z < y * z,
        z > 0,
        x >= 0,
    ensures
        x < y,
{
    if x >= y {
        lemma_mul_inequality(y, x, z);
    }
}

/// Montgomery multiplication with lazy reduction: identical to [`mont_mul`]
/// through the exact division by `R`, but the final conditional subtraction
/// is skipped. The result keeps the congruence `r * R == a * b (mod N)` but
/// may exceed `N` by a bounded margin: `r * R < a * b + R * N`. Callers track
/// the accumulated margin and reduce before it could overflow four limbs.
pub fn mont_mul_lazy(a: &[u64; 4], b: &[u64; 4], n: &[u64; 4], n_prime: &[u64; 4]) -> (r: [u64; 4])
    requires
        l4(*n) % 2 == 1,
        (l4(*n_prime) * l4(*n)) % pow2(256) == (pow2(256) - 1) as nat,
        l4(*a) * l4(*b) + pow2(256) * l4(*n) <= pow2(512),
    ensures
        (l4(r) * pow2(256)) % l4(*n) == (l4(*a) * l4(*b)) % l4(*n),
        l4(r) * pow2(256) < l4(*a) * l4(*b) + pow2(256) * l4(*n),
        l4(*a) * l4(*b) <= l4(r) * pow2(256),
{
    proof {
        lemma_odd_modulus_bounds(*n);
        lemma_pow2_pos(256);
        lemma_pow2_adds(256, 256);
    }
    let t = mul4(a, b);
    let (hi, c) = redc_core(&t, n, n_prime);
    let ghost bigr: nat = pow2(256);
    let ghost v: nat = l4(hi) + (c as nat) * bigr;
    proof {
        // v * R < a*b + R*N <= R*R, so v < R and the carry bit must be zero.
        assert(v * bigr < bigr * bigr);
        lemma_mul_strict_inequality_converse_helper(v as int, bigr as int, bigr as int);
        assert(v < bigr);
        lemma_l4_bound(hi);
        if c == 1 {
            assert(v >= bigr);
        }
        assert(c == 0);
        assert(l4(hi) == v);
    }
    hi
}

/// Bit-by-bit inverse of an odd word modulo 2^64: after considering bit `i`,
/// `n0 * x == 1 (mod 2^(i+1))`.
fn inv_word(n0: u64) -> (x: u64)
    requires
        n0 % 2 == 1,
    ensures
        (n0 as nat * x as nat) % pow2(64) == 1,
{
    let mut x: u64 = 0;
    let mut i: usize = 0;
    proof {
        lemma2_to64();
    }
    while i < 64
        invariant
            i <= 64,
            n0 % 2 == 1,
            (x as nat) < pow2(i as nat),
            (n0 as nat * x as nat) % pow2(i as nat) == 1nat % pow2(i as nat),
        decreases 64 - i,
    {
        proof {
            lemma2_to64();
            lemma_pow2_pos(i as nat);
            lemma_pow2_strictly_increases(i as nat, 64);
            lemma_limb_powers();
            lemma_mul_upper_bound(n0 as int, u64::MAX as int, x as int, u64::MAX as int);
        }
        let mask: u64 = 1u64 << (i as u64);
        proof {
            lemma_u64_shl_is_mul(1u64, i as u64);
        }
        let prod: u128 = (n0 as u128) * (x as u128);
        let bitv: u64 = ((prod / (mask as u128)) % 2) as u64;
        let ghost x_old = x;
        let flip: bool = if i == 0 {
            bitv == 0
        } else {
            bitv == 1
        };
        if flip {
            proof {
                if i + 1 < 64 {
                    lemma_pow2_strictly_increases((i + 1) as nat, 64);
                }
                lemma_pow2_adds(i as nat, 1);
            }
            x = x + mask;
        }
        proof {
            lemma_inv_word_step(
                n0 as nat,
                x_old as nat,
                i as nat,
                bitv as nat,
                x as nat,
            );
        }
        i = i + 1;
    }
    proof {
        lemma_pow2_strictly_increases(0, 64);
        lemma_small_mod(1, pow2(64));
    }
    x
}

/// One step of the bitwise inversion: flipping bit `i` of the candidate
/// exactly when bit `i` of the running product disagrees with the target
/// carries the congruence from modulus `2^i` to `2^(i+1)`.
proof fn lemma_inv_word_step(n0: nat, x: nat, i: nat, bitv: nat, xn: nat)
    requires
        n0 % 2 == 1,
        x < pow2(i),
        i < 64,
        (n0 * x) % pow2(i) == 1nat % pow2(i),
        bitv == ((n0 * x) / pow2(i)) % 2,
        xn == if (if i == 0 {
            bitv == 0
        } else {
            bitv == 1
        }) {
            x + pow2(i)
        } else {
            x
        },
    ensures
        xn < pow2(i + 1),
        (n0 * xn) % pow2(i + 1) == 1nat % pow2(i + 1),
{
    let pi = pow2(i) as int;
    let pi1 = pow2(i + 1) as int;
    lemma_pow2_pos(i);
    lemma_pow2_pos(i + 1);
    lemma_pow2_adds(i, 1);
    lemma2_to64();
    assert(pi1 == pi * 2);
    let q = n0 as int * x as int;
    lemma_mul_basics(pi);
    lemma_mul_basics(n0 as int);
    lemma_mod_breakdown(q, pi, 2);
    assert(q % pi1 == pi * bitv + q % pi);
    if bitv == 1 {
        assert(pi * bitv == pi);
    } else {
        assert(pi * bitv == 0);
    }
    lemma_pow2_strictly_increases(0, i + 1);
    lemma_small_mod(1, pow2(i + 1));
    if i == 0 {
        assert(pi == 1);
        lemma_mod_bound(q, 1);
        assert(q % pi == 0);
        assert(q % 2 == bitv) by {
            vstd::arithmetic::div_mod::lemma_div_basics(q);
        }
        if bitv == 0 {
            assert(xn == x + 1);
            assert(n0 as int * xn as int == q + n0) by {
                lemma_mul_is_distributive_add(n0 as int, x as int, 1);
                lemma_mul_basics(n0 as int);
            }
            lemma_add_mod_noop(q, n0 as int, 2);
            assert((q + n0) % 2 == (q % 2 + n0 as int % 2) % 2);
            assert((n0 as int * xn as int) % 2 == 1);
        } else {
            assert(q % 2 == 1);
        }
    } else {
        lemma_pow2_strictly_increases(0, i);
        lemma_small_mod(1, pow2(i));
        assert(q % pi == 1);
        if bitv == 1 {
            assert(xn == x + pow2(i));
            assert(n0 as int * xn as int == q + n0 as int * pi) by {
                lemma_mul_is_distributive_add(n0 as int, x as int, pi);
            }
            let k = (n0 as int - 1) / 2;
            assert(n0 as int == 2 * k + 1) by {
                lemma_fundamental_div_mod(n0 as int - 1, 2);
                assert((n0 as int - 1) % 2 == 0) by {
                    lemma_mod_breakdown_helper(n0 as int);
                }
            }
            assert(n0 as int * pi == pi1 * k + pi) by {
                lemma_mul_is_distributive_add_other_way(pi, 2 * k, 1);
                assert((2 * k) * pi == 2 * (k * pi)) by {
                    lemma_mul_is_associative(2, k, pi);
                }
                assert(pi1 * k == 2 * (k * pi)) by {
                    lemma_mul_is_commutative(pi1, k);
                    lemma_mul_is_commutative(pi, 2);
                    lemma_mul_is_associative(k, pi, 2);
                    lemma_mul_is_commutative(k * pi, 2);
                }
            }
            lemma_mod_multiples_vanish(k, pi, pi1);
            lemma_pow2_strictly_increases(i, i + 1);
            lemma_small_mod(pow2(i), pow2(i + 1));
            assert((n0 as int * pi) % pi1 == pi);
            lemma_add_mod_noop(q, n0 as int * pi, pi1);
            assert((q + n0 as int * pi) % pi1 == ((pi + 1) + pi) % pi1);
            lemma_mod_multiples_vanish(1, 1, pi1);
            assert((pi1 + 1) % pi1 == 1);
            assert((n0 as int * xn as int) % pi1 == 1);
        } else {
            assert(q % pi1 == 1);
        }
    }
}

/// An odd number minus one is even.
proof fn lemma_mod_breakdown_helper(n: int)
    requires
        n % 2 == 1,
    ensures
        (n - 1) % 2 == 0,
{
    lemma_fundamental_div_mod(n, 2);
    lemma_fundamental_div_mod_converse_mod(n - 1, 2, n / 2, 0);
}

/// One Hensel lifting step: from an inverse of `N` modulo `2^k`, the update
/// `x * (2 - N * x) mod R` is an inverse of `N` modulo `2^(2k)`.
fn hensel_lift(x: &[u64; 4], n: &[u64; 4], Ghost(k): Ghost<nat>) -> (r: [u64; 4])
    requires
        1 <= k,
        2 * k <= 256,
        (l4(*n) * l4(*x)) % pow2(k) == 1,
    ensures
        (l4(*n) * l4(r)) % pow2(2 * k) == 1,
{
    let t = mul_lo(n, x);
    let two: [u64; 4] = [2, 0, 0, 0];
    let (d, borrow) = sub4(&two, &t);
    let r = mul_lo(x, &d);
    proof {
        lemma_limb_powers();
        lemma_l4_bound(t);
        lemma_l4_bound(d);
        assert(l4(two) == 2);
        lemma_hensel_step(
            l4(*n),
            l4(*x),
            l4(t),
            l4(d),
            l4(r),
            borrow as nat,
            k,
        );
    }
    r
}

/// The number-theoretic content of a Hensel step, over plain naturals.
proof fn lemma_hensel_step(nv: nat, xv: nat, tv: nat, dv: nat, rv: nat, borrow: nat, k: nat)
    requires
        1 <= k,
        2 * k <= 256,
        tv == (nv * xv) % pow2(256),
        dv + tv == 2 + borrow * pow2(256),
        borrow <= 1,
        rv == (xv * dv) % pow2(256),
        (nv * xv) % pow2(k) == 1,
    ensures
        (nv * rv) % pow2(2 * k) == 1,
{
    let bigr = pow2(256) as int;
    let m = pow2(2 * k) as int;
    let rest = pow2((256 - 2 * k) as nat) as int;
    lemma2_to64();
    lemma_pow2_pos(256);
    lemma_pow2_pos(2 * k);
    lemma_pow2_pos(k);
    lemma_pow2_pos((256 - 2 * k) as nat);
    lemma_pow2_adds(2 * k, (256 - 2 * k) as nat);
    assert(bigr == m * rest);
    let p = nv as int * xv as int;
    // tv == p (mod M) and dv == 2 - p (mod M)
    lemma_mod_mod(p, m, rest);
    assert(tv as int % m == p % m);
    // dv - (2 - tv) == borrow * R, and tv - p is a multiple of R as well:
    lemma_fundamental_div_mod(p, bigr);
    let phi = p / bigr;
    assert(tv as int == p - bigr * phi);
    assert(dv as int == 2 - p + bigr * (phi + borrow)) by {
        lemma_mul_is_distributive_add(bigr, phi, borrow as int);
        lemma_mul_is_commutative(borrow as int, bigr);
    }
    // reduce dv modulo M
    assert(bigr * (phi + borrow) == m * (rest * (phi + borrow))) by {
        lemma_mul_is_associative(m, rest, phi + borrow as int);
    }
    lemma_mod_multiples_vanish(rest * (phi + borrow), 2 - p, m);
    assert(dv as int % m == (2 - p) % m);
    // rv == xv * dv (mod M)
    lemma_mod_mod(xv as int * dv as int, m, rest);
    assert(rv as int % m == (xv as int * dv as int) % m);
    // nv * rv == nv * xv * dv == p * (2 - p) (mod M)
    lemma_mul_mod_noop_right(nv as int, rv as int, m);
    assert((nv as int * rv as int) % m == (nv as int * (rv as int % m)) % m);
    lemma_mul_mod_noop_right(nv as int, xv as int * dv as int, m);
    assert((nv as int * rv as int) % m == (nv as int * (xv as int * dv as int)) % m);
    lemma_mul_is_associative(nv as int, xv as int, dv as int);
    assert((nv as int * rv as int) % m == (p * dv as int) % m);
    lemma_mul_mod_noop_right(p, dv as int, m);
    lemma_mul_mod_noop_right(p, 2 - p, m);
    assert((p * dv as int) % m == (p * ((2 - p) % m)) % m);
    assert((nv as int * rv as int) % m == (p * (2 - p)) % m);
    // p * (2 - p) == 1 - (p - 1)^2, and (p - 1)^2 is a multiple of 2^(2k)
    let pk = pow2(k) as int;
    lemma_pow2_strictly_increases(0, k);
    lemma_small_mod(1, pow2(k));
    assert(p % pk == 1);
    lemma_fundamental_div_mod(p - 1, pk);
    assert((p - 1) % pk == 0) by {
        lemma_fundamental_div_mod(p, pk);
        lemma_mul_is_commutative(pk, p / pk);
        lemma_fundamental_div_mod_converse_mod(p - 1, pk, p / pk, 0);
    }
    let e = (p - 1) / pk;
    assert(p - 1 == pk * e);
    lemma_pow2_adds(k, k);
    assert((p - 1) * (p - 1) == m * (e * e)) by (nonlinear_arith)
        requires
            p - 1 == pk * e,
            m == pk * pk,
    ;
    assert(p * (2 - p) == 1 - m * (e * e)) by (nonlinear_arith)
        requires
            (p - 1) * (p - 1) == m * (e * e),
    ;
    lemma_mod_multiples_vanish(-(e * e), 1, m);
    assert(m * -(e * e) == -(m * (e * e))) by {
        vstd::arithmetic::mul::lemma_mul_unary_negation(m, e * e);
        lemma_mul_is_commutative(m, -(e * e));
        lemma_mul_is_commutative(m, e * e);
    }
    assert((1 - m * (e * e)) % m == 1int % m);
    lemma_pow2_strictly_increases(0, 2 * k);
    lemma_small_mod(1, pow2(2 * k));
    assert((nv as int * rv as int) % m == 1);
}

/// Derives `N' = -N^(-1) mod R` for an odd modulus: a bitwise inverse of the
/// low word, two Hensel lifts to full width, and a negation modulo `R`.
fn derive_n_prime(n: &[u64; 4]) -> (r: [u64; 4])
    requires
        l4(*n) % 2 == 1,
    ensures
        (l4(r) * l4(*n)) % pow2(256) == (pow2(256) - 1) as nat,
{
    proof {
        crate::limbs::lemma_l4_mod_word(*n);
    }
    let x0 = inv_word(n[0]);
    let x64: [u64; 4] = [x0, 0, 0, 0];
    proof {
        lemma_limb_powers();
        assert(l4(x64) == x0 as nat);
        lemma_pow2_pos(64);
        // N * x0 == n[0] * x0 (mod 2^64)
        lemma_mul_mod_noop_left(l4(*n) as int, x0 as int, pow2(64) as int);
        assert((l4(*n) * l4(x64)) % pow2(64) == (n[0] as nat * x0 as nat) % pow2(64));
    }
    let x128 = hensel_lift(&x64, n, Ghost(64));
    let x256 = hensel_lift(&x128, n, Ghost(128));
    let zero: [u64; 4] = [0, 0, 0, 0];
    let (r, borrow) = sub4(&zero, &x256);
    proof {
        lemma_limb_powers();
        lemma_odd_modulus_bounds(*n);
        lemma_l4_bound(x256);
        lemma_l4_bound(r);
        let bigr = pow2(256) as int;
        let nv = l4(*n) as int;
        let xv = l4(x256) as int;
        assert(l4(zero) == 0);
        lemma_pow2_pos(256);
        if xv == 0 {
            assert((l4(*n) * l4(x256)) % pow2(256) == 0) by {
                vstd::arithmetic::mul::lemma_mul_by_zero_is_zero(l4(*n) as int);
                lemma_small_mod(0, pow2(256));
            }
            assert(pow2(256) > 1) by {
                lemma_pow2_strictly_increases(0, 256);
            }
            lemma_small_mod(1, pow2(256));
            assert(false);
        }
        assert(borrow == 1);
        assert(l4(r) as int == bigr - xv);
        // N * (R - X) == (N - q - 1) * R + (R - 1) where N * X == q * R + 1
        lemma_fundamental_div_mod(nv * xv, bigr);
        lemma_pow2_strictly_increases(0, 256);
        lemma_small_mod(1, pow2(256));
        assert((nv * xv) % bigr == 1);
        let q = (nv * xv) / bigr;
        assert(nv * xv == bigr * q + 1);
        assert(q < nv) by {
            if q >= nv {
                lemma_mul_inequality(nv, q, bigr);
                assert(nv * bigr <= q * bigr);
                lemma_mul_strict_inequality(xv, bigr, nv);
                assert(nv * xv < nv * bigr) by {
                    lemma_mul_is_commutative(xv, nv);
                    lemma_mul_is_commutative(nv, bigr);
                }
                lemma_mul_is_commutative(q, bigr);
            }
        }
        assert(nv * (bigr - xv) == nv * bigr - (bigr * q + 1)) by {
            lemma_mul_is_distributive_sub(nv, bigr, xv);
        }
        assert(nv * bigr - bigr * q - 1 == bigr * (nv - q - 1) + (bigr - 1)) by {
            lemma_mul_is_distributive_sub(bigr, nv, q + 1);
            lemma_mul_is_commutative(nv, bigr);
            lemma_mul_is_distributive_sub(bigr, q + 1, q);
            lemma_mul_is_distributive_add(bigr, q, 1);
        }
        lemma_fundamental_div_mod_converse_mod(
            nv * (bigr - xv),
            bigr,
            nv - q - 1,
            bigr - 1,
        );
        assert((nv * (bigr - xv)) % bigr == bigr - 1);
        lemma_mul_is_commutative(l4(r) as int, nv);
    }
    r
}

/// Computes `R^2 mod N` by 512 modular doublings starting from `1 mod N`.
fn derive_r_squared(n: &[u64; 4]) -> (r: [u64; 4])
    requires
        l4(*n) % 2 == 1,
    ensures
        l4(r) == pow2(512) % l4(*n),
{
    proof {
        lemma_odd_modulus_bounds(*n);
        lemma_limb_powers();
    }
    let one: [u64; 4] = [1, 0, 0, 0];
    let n_is_one = !ct_lt(&one, n);
    let mut x: [u64; 4] = if n_is_one {
        [0, 0, 0, 0]
    } else {
        [1, 0, 0, 0]
    };
    proof {
        lemma2_to64();
        if n_is_one {
            assert(l4(*n) == 1);
            lemma_mod_bound(1, 1);
        } else {
            lemma_small_mod(1, l4(*n));
        }
        assert(l4(x) == pow2(0) % l4(*n));
    }
    let mut i: usize = 0;
    while i < 512
        invariant
            i <= 512,
            l4(*n) % 2 == 1,
            0 < l4(*n),
            l4(x) == pow2(i as nat) % l4(*n),
            l4(x) < l4(*n),
        decreases 512 - i,
    {
        let (s, c) = add4(&x, &x);
        proof {
            lemma_l4_bound(x);
        }
        let x2 = cond_sub(&s, c, n);
        proof {
            lemma_pow2_pos(i as nat);
            lemma2_to64();
            lemma_pow2_adds(1, i as nat);
            lemma_mul_mod_noop_right(2, pow2(i as nat) as int, l4(*n) as int);
            assert(l4(x2) == (2 * (pow2(i as nat) % l4(*n))) % l4(*n));
            assert((2 * (pow2(i as nat) % l4(*n)) as int) % l4(*n) as int == (2 * pow2(
                i as nat,
            ) as int) % l4(*n) as int);
            assert(2 * pow2(i as nat) == pow2((i + 1) as nat));
        }
        x = x2;
        i = i + 1;
    }
    x
}

/// Largest usable lazy-reduction budget not exceeding `cap`: the greatest
/// `e <= cap` reached while `N * 2^e` still fits in four limbs.
fn lazy_budget(n: &[u64; 4], cap: u32) -> (e: u32)
    requires
        l4(*n) % 2 == 1,
    ensures
        l4(*n) * pow2(e as nat) <= pow2(256),
        e <= cap,
        e == cap || l4(*n) * pow2((e + 1) as nat) >= pow2(256),
{
    proof {
        lemma_odd_modulus_bounds(*n);
    }
    let mut e: u32 = 0;
    let mut p: [u64; 4] = *n;
    proof {
        lemma2_to64();
        assert(l4(p) == l4(*n) * pow2(0)) by {
            vstd::arithmetic::mul::lemma_mul_basics(l4(*n) as int);
        }
    }
    while e < cap
        invariant
            e <= cap,
            0 < l4(*n),
            l4(p) == l4(*n) * pow2(e as nat),
        decreases cap - e,
    {
        let (d, carry) = add4(&p, &p);
        proof {
            lemma2_to64();
            lemma_pow2_adds(e as nat, 1);
            assert(l4(d) + (carry as nat) * pow2(256) == 2 * l4(p));
            assert(2 * (l4(*n) * pow2(e as nat)) == l4(*n) * pow2((e + 1) as nat)) by {
                lemma_mul_is_associative(2, l4(*n) as int, pow2(e as nat) as int);
                lemma_mul_is_commutative(2, l4(*n) as int);
                lemma_mul_is_associative(l4(*n) as int, pow2(e as nat) as int, 2);
                lemma_mul_is_commutative(pow2(e as nat) as int * 2, pow2(e as nat) as int);
                lemma_mul_is_commutative(pow2(e as nat) as int, 2);
            }
        }
        if carry == 1 {
            proof {
                lemma_l4_bound(p);
                assert(l4(*n) * pow2((e + 1) as nat) >= pow2(256));
            }
            return e;
        }
        proof {
            lemma2_to64();
            lemma_pow2_adds(e as nat, 1);
            assert(l4(d) == 2 * l4(p));
            assert(2 * (l4(*n) * pow2(e as nat)) == l4(*n) * pow2((e + 1) as nat)) by {
                lemma_mul_is_associative(2, l4(*n) as int, pow2(e as nat) as int);
                lemma_mul_is_commutative(2, l4(*n) as int);
                lemma_mul_is_associative(l4(*n) as int, pow2(e as nat) as int, 2);
                lemma_mul_is_commutative(pow2(e as nat) as int * 2, pow2(e as nat) as int);
                lemma_mul_is_commutative(pow2(e as nat) as int, 2);
            }
        }
        p = d;
        e = e + 1;
    }
    proof {
        lemma_l4_bound(p);
    }
    e
}

impl MontgomeryConstants {
    /// Creates new Montgomery constants for the given odd modulus, with the
    /// default lazy-reduction budget of one limb width.
    pub fn new(modulus: &[u64; 4]) -> (r: Result<MontgomeryConstants, FieldError>)
        ensures
            match r {
                Ok(c) => constants_wf(c) && c.modulus == *modulus && c.extra_bits <= 64 && (
                c.extra_bits == 64 || l4(*modulus) * pow2((c.extra_bits + 1) as nat) >= pow2(
                    256,
                )),
                Err(e) => l4(*modulus) % 2 == 0 && e == FieldError::NonPrimeModulus,
            },
            r is Ok <==> l4(*modulus) % 2 == 1,
    {
        Self::new_with_lazy_reduction(modulus, 64)
    }

    /// Creates new Montgomery constants with a requested lazy-reduction
    /// budget. The budget is clamped so that `N * 2^extra_bits` always fits
    /// in four limbs: chained lazy multiplications can never silently
    /// overflow the limb width. The clamp is tight: unless the request (or
    /// one limb's width) is granted in full, one more doubling would reach
    /// the limb boundary. For an odd modulus the boundary itself cannot be
    /// hit exactly, so the granted budget is the largest safe one.
    pub fn new_with_lazy_reduction(modulus: &[u64; 4], extra_bits: u32) -> (r: Result<
        MontgomeryConstants,
        FieldError,
    >)
        ensures
            match r {
                Ok(c) => constants_wf(c) && c.modulus == *modulus && c.extra_bits <= extra_bits
                    && c.extra_bits <= 64 && (c.extra_bits == extra_bits || c.extra_bits == 64
                    || l4(*modulus) * pow2((c.extra_bits + 1) as nat) >= pow2(256)),
                Err(e) => l4(*modulus) % 2 == 0 && e == FieldError::NonPrimeModulus,
            },
            r is Ok <==> l4(*modulus) % 2 == 1,
    {
        proof {
            crate::limbs::lemma_l4_mod_word(*modulus);
        }
        if modulus[0] % 2 == 0 {
            return Err(FieldError::NonPrimeModulus);
        }
        let n_prime = derive_n_prime(modulus);
        let r_squared = derive_r_squared(modulus);
        let cap = if extra_bits > 64 {
            64
        } else {
            extra_bits
        };
        let eb = lazy_budget(modulus, cap);
        Ok(
            MontgomeryConstants {
                modulus: *modulus,
                r_squared,
                n_prime,
                word_size: 64,
                extra_bits: eb,
            },
        )
    }
}

/// The constructive inverse of `R` modulo `N`, read off the Montgomery
/// constants: since `N * N' == -1 (mod R)`, the quotient
/// `(N * N' + 1) / R` multiplied by `R` is `1` modulo `N`.
pub open spec fn mont_r_inv(c: MontgomeryConstants) -> nat {
    ((l4(c.n_prime) * l4(c.modulus) + 1) / pow2(256)) % l4(c.modulus)
}

/// `R * mont_r_inv(c) == 1 (mod N)`.
pub proof fn lemma_mont_r_inv(c: MontgomeryConstants)
    requires
        constants_wf(c),
    ensures
        (pow2(256) * mont_r_inv(c)) % l4(c.modulus) == 1nat % l4(c.modulus),
{
    let bigr = pow2(256) as int;
    let n = l4(c.modulus) as int;
    let np = l4(c.n_prime) as int;
    lemma_pow2_pos(256);
    lemma_odd_modulus_bounds(c.modulus);
    let prod = np * n;
    lemma_fundamental_div_mod(prod, bigr);
    let q = prod / bigr;
    assert(prod == bigr * q + (bigr - 1));
    let k = (prod + 1) / bigr;
    assert(prod + 1 == bigr * (q + 1)) by {
        lemma_mul_is_distributive_add(bigr, q, 1);
        lemma_mul_basics(bigr);
    }
    assert(k == q + 1) by {
        lemma_mul_is_commutative(bigr, q + 1);
        vstd::arithmetic::div_mod::lemma_div_multiples_vanish(q + 1, bigr);
    }
    assert(bigr * k == np * n + 1);
    // R * k == 1 (mod N), and reducing k modulo N keeps that.
    lemma_mul_is_commutative(np, n);
    lemma_mod_multiples_vanish(np, 1, n);
    assert((n * np + 1) % n == 1int % n);
    assert((bigr * k) % n == 1int % n);
    lemma_mul_mod_noop_right(bigr, k, n);
    assert((bigr * (k % n)) % n == 1int % n);
    assert(mont_r_inv(c) == k % n);
}

/// Cancellation of the factor `R`: congruent products `x * R == y * R (mod N)`
/// have congruent factors, because `R` has the inverse `k` modulo `N`.
pub proof fn lemma_cancel_r(x: int, y: int, n: int, k: int, bigr: int)
    requires
        n > 0,
        (x * bigr) % n == (y * bigr) % n,
        (bigr * k) % n == 1int % n,
    ensures
        x % n == y % n,
{
    lemma_cancel_r_half(x, n, k, bigr);
    lemma_cancel_r_half(y, n, k, bigr);
}

/// `x * (R * k) == x (mod N)` when `R * k == 1 (mod N)`.
proof fn lemma_cancel_r_half(x: int, n: int, k: int, bigr: int)
    requires
        n > 0,
        (bigr * k) % n == 1int % n,
    ensures
        ((x * bigr) % n * k) % n == x % n,
{
    lemma_mul_mod_noop_left(x * bigr, k, n);
    assert(((x * bigr) % n * k) % n == ((x * bigr) * k) % n);
    lemma_mul_is_associative(x, bigr, k);
    assert((x * bigr) * k == x * (bigr * k));
    lemma_mul_mod_noop_right(x, bigr * k, n);
    assert((x * (bigr * k)) % n == (x * ((bigr * k) % n)) % n);
    lemma_mul_mod_noop_right(x, 1, n);
    assert((x * (1int % n)) % n == (x * 1) % n);
    lemma_mul_basics(x);
}

/// Bridge from a Montgomery-level product congruence to canonical values:
/// if `mr * R == ma * mb (mod N)`, then the canonical value of `mr` is the
/// modular product of the canonical values of `ma` and `mb`.
pub proof fn lemma_val_mul(mr: nat, ma: nat, mb: nat, n: nat, k: nat)
    requires
        n > 0,
        (mr * pow2(256)) % n == (ma * mb) % n,
        (pow2(256) * k) % n == 1nat % n,
    ensures
        (mr * k) % n == (((ma * k) % n) * ((mb * k) % n)) % n,
{
    let bigr = pow2(256) as int;
    let ni = n as int;
    let ki = k as int;
    let mri = mr as int;
    let mai = ma as int;
    let mbi = mb as int;
    lemma_pow2_pos(256);
    // (ma k)(mb k) == (ma mb) k k == (mr R) k k == (mr k)(R k) (mod N)
    lemma_mul_mod_noop_general(mai * ki, mbi * ki, ni);
    assert((((mai * ki) % ni) * ((mbi * ki) % ni)) % ni == ((mai * ki) * (mbi * ki)) % ni);
    assert((mai * ki) * (mbi * ki) == ((mai * mbi) * ki) * ki) by {
        lemma_mul_rearrange(mai, ki, mbi);
        lemma_mul_is_associative(mai * mbi, ki, ki);
        lemma_mul_is_associative((mai * mbi) * ki, ki, 1);
        lemma_mul_basics((mai * mbi) * ki);
        lemma_mul_basics(ki);
    }
    lemma_mul_mod_noop_left(mai * mbi, ki, ni);
    lemma_mul_mod_noop_left((mai * mbi) % ni * ki, ki, ni);
    assert((((mai * mbi) * ki) * ki) % ni == (((mai * mbi) % ni * ki) % ni * ki) % ni) by {
        lemma_mul_mod_noop_left((mai * mbi) * ki, ki, ni);
        lemma_mul_mod_noop_left(mai * mbi, ki, ni);
        lemma_mul_mod_noop_left((mai * mbi) % ni, ki, ni);
        lemma_mul_mod_noop_left((mai * mbi) % ni * ki, ki, ni);
    }
    // substitute ma*mb == mr*R (mod N)
    assert(((mai * mbi) % ni * ki) % ni == ((mri * bigr) % ni * ki) % ni);
    lemma_cancel_r_half(mri, ni, ki, bigr);
    assert(((mri * bigr) % ni * ki) % ni == mri % ni);
    // so the product is (mr % n * k) % n == (mr k) % n
    lemma_mul_mod_noop_left(mri, ki, ni);
    assert(((mri % ni) * ki) % ni == (mri * ki) % ni);
    assert((((mai * ki) % ni) * ((mbi * ki) % ni)) % ni == (mri * ki) % ni);
}

/// `(ma k)(mb k) == ((ma mb) k) k` up to rearrangement.
proof fn lemma_mul_rearrange(a: int, k: int, b: int)
    ensures
        (a * k) * (b * k) == ((a * b) * k) * k,
{
    lemma_mul_is_associative(a * k, b, k);
    assert((a * k) * (b * k) == ((a * k) * b) * k);
    lemma_mul_is_associative(a, k, b);
    lemma_mul_is_commutative(k, b);
    lemma_mul_is_associative(a, b, k);
    assert((a * k) * b == a * (k * b) && a * (b * k) == (a * b) * k);
}

/// Bridge for linear combinations: if `mr == s (mod N)` then the canonical
/// value of `mr` is `(s * k) % N`; with `s` a sum or difference of
/// representatives the multiplication by `k` distributes.
pub proof fn lemma_val_linear(mr: int, s: int, n: int, k: int)
    requires
        n > 0,
        mr % n == s % n,
    ensures
        (mr * k) % n == (s * k) % n,
{
    lemma_mul_mod_noop_left(mr, k, n);
    lemma_mul_mod_noop_left(s, k, n);
    assert((mr % n * k) % n == (mr * k) % n);
}

/// Distribution of the canonical-value map over a sum of representatives:
/// `((ma + mb) * k) % n == ((ma k) % n + (mb k) % n) % n`.
pub proof fn lemma_val_add(ma: int, mb: int, n: int, k: int)
    requires
        n > 0,
    ensures
        ((ma + mb) * k) % n == ((ma * k) % n + (mb * k) % n) % n,
{
    lemma_mul_is_distributive_add_other_way(k, ma, mb);
    assert((ma + mb) * k == ma * k + mb * k);
    lemma_add_mod_noop(ma * k, mb * k, n);
}

/// Strict product bound: `x < xb` and `y < yb` give `x * y < xb * yb`.
pub proof fn lemma_prod_bound(x: nat, y: nat, xb: nat, yb: nat)
    requires
        x < xb,
        y < yb,
    ensures
        x * y < xb * yb,
{
    lemma_mul_upper_bound(x as int, xb as int - 1, y as int, yb as int - 1);
    assert((xb as int - 1) * (yb as int - 1) == xb as int * yb as int - xb - yb + 1)
        by (nonlinear_arith);
}

/// Bridge for entering Montgomery form: multiplying canonical limbs by
/// `R^2 mod N` through the engine yields a representative whose canonical
/// value is the input reduced modulo `N`.
pub proof fn lemma_val_new(m: nat, v: nat, r2: nat, n: nat, k: nat)
    requires
        n > 0,
        (m * pow2(256)) % n == (v * r2) % n,
        r2 == pow2(512) % n,
        (pow2(256) * k) % n == 1nat % n,
    ensures
        (m * k) % n == v % n,
{
    let bigr = pow2(256) as int;
    let ni = n as int;
    let ki = k as int;
    let mi = m as int;
    let vi = v as int;
    lemma_pow2_pos(256);
    lemma_pow2_pos(512);
    lemma_pow2_adds(256, 256);
    // v * r2 == v * R * R (mod n)
    lemma_mul_mod_noop_right(vi, pow2(512) as int, ni);
    assert((vi * r2) % ni == (vi * (pow2(512) as int)) % ni);
    assert(vi * (pow2(512) as int) == (vi * bigr) * bigr) by {
        lemma_mul_is_associative(vi, bigr, bigr);
    }
    // cancel one factor R on both sides: m == v * R (mod n)
    lemma_cancel_r(mi, vi * bigr, ni, ki, bigr);
    assert(mi % ni == (vi * bigr) % ni);
    // multiply by k: m * k == v * (R k) == v (mod n)
    lemma_val_linear(mi, vi * bigr, ni, ki);
    assert((mi * ki) % ni == ((vi * bigr) * ki) % ni);
    lemma_mul_is_associative(vi, bigr, ki);
    lemma_mul_mod_noop_right(vi, bigr * ki, ni);
    assert(((vi * bigr) * ki) % ni == (vi * ((bigr * ki) % ni)) % ni);
    lemma_mul_mod_noop_right(vi, 1, ni);
    assert((vi * (1int % ni)) % ni == (vi * 1) % ni);
    lemma_mul_basics(vi);
}

/// Bridge for leaving Montgomery form: a fully reduced `c` with
/// `c * R == m (mod N)` is exactly the canonical value `(m * k) % N`.
pub proof fn lemma_val_canon(c: nat, m: nat, n: nat, k: nat)
    requires
        n > 0,
        c < n,
        (c * pow2(256)) % n == m % n,
        (pow2(256) * k) % n == 1nat % n,
    ensures
        c == (m * k) % n,
{
    let bigr = pow2(256) as int;
    let ni = n as int;
    let ki = k as int;
    lemma_pow2_pos(256);
    lemma_cancel_r_half_pub(c as int, ni, ki, bigr);
    assert(((c as int * bigr) % ni * ki) % ni == c as int % ni);
    lemma_mul_mod_noop_left(c as int * bigr, ki, ni);
    lemma_mul_mod_noop_left(m as int, ki, ni);
    assert((m as int % ni * ki) % ni == (m as int * ki) % ni);
    lemma_small_mod(c, n);
}

/// `x * (R * k) == x (mod N)` when `R * k == 1 (mod N)`.
pub proof fn lemma_cancel_r_half_pub(x: int, n: int, k: int, bigr: int)
    requires
        n > 0,
        (bigr * k) % n == 1int % n,
    ensures
        ((x * bigr) % n * k) % n == x % n,
{
    lemma_mul_mod_noop_left(x * bigr, k, n);
    lemma_mul_is_associative(x, bigr, k);
    lemma_mul_mod_noop_right(x, bigr * k, n);
    lemma_mul_mod_noop_right(x, 1, n);
    assert((x * (1int % n)) % n == (x * 1) % n);
    lemma_mul_basics(x);
}

/// Distribution of the canonical-value map over a difference of
/// representatives, shifted by one modulus to stay nonnegative.
pub proof fn lemma_val_sub(ma: int, mb: int, n: int, k: int)
    requires
        n > 0,
    ensures
        ((ma + n - mb) * k) % n == (((ma * k) % n) + n - ((mb * k) % n)) % n,
{
    // left side: (ma k - mb k + n k) % n == (ma k - mb k) % n
    assert((ma + n - mb) * k == (ma * k - mb * k) + n * k) by {
        lemma_mul_is_distributive_add_other_way(k, ma + n - mb, mb);
        lemma_mul_is_distributive_add_other_way(k, ma, n);
    }
    lemma_mul_is_commutative(n, k);
    lemma_mod_multiples_vanish(k, ma * k - mb * k, n);
    assert(((ma * k - mb * k) + n * k) % n == (ma * k - mb * k) % n);
    // right side: (A - B + n) % n == (A - B) % n with A == (ma k) % n, B == (mb k) % n
    let a = (ma * k) % n;
    let b = (mb * k) % n;
    lemma_mod_multiples_vanish(1, a - b, n);
    lemma_mul_basics(n);
    assert((a + n - b) % n == (a - b) % n);
    vstd::arithmetic::div_mod::lemma_sub_mod_noop(ma * k, mb * k, n);
    assert((a - b) % n == (ma * k - mb * k) % n);
}

/// A number in Montgomery form with lazy reduction: between reductions the
/// representative may exceed the modulus by a margin bounded by
/// `N * 2^extra_precision`, and the budget `extra_precision <= extra_bits`
/// keeps it inside four limbs.
#[derive(Clone, Copy, Debug)]
pub struct MontgomeryForm {
    /// The value in Montgomery representation, possibly not fully reduced.
    pub value: [u64; 4],
    /// Tracked lazy-reduction margin: the value is below `N * 2^extra_precision`.
    pub extra_precision: u32,
    /// Constants for Montgomery arithmetic.
    pub constants: MontgomeryConstants,
}

/// Well-formedness of a Montgomery form: valid constants, margin within the
/// budget, and a representative inside the tracked bound.
pub open spec fn form_wf(f: MontgomeryForm) -> bool {
    &&& constants_wf(f.constants)
    &&& f.extra_precision <= f.constants.extra_bits
    &&& l4(f.value) < l4(f.constants.modulus) * pow2(f.extra_precision as nat)
}

/// The residue class of a form's representative modulo its modulus. Two forms
/// denote the same field element exactly when their residues agree.
pub open spec fn form_residue(f: MontgomeryForm) -> nat {
    l4(f.value) % l4(f.constants.modulus)
}

impl MontgomeryForm {
    /// Creates a new value in Montgomery form from canonical limbs by a
    /// multiplication with `R^2 mod N`.
    pub fn new(value: [u64; 4], constants: MontgomeryConstants) -> (r: MontgomeryForm)
        requires
            constants_wf(constants),
        ensures
            form_wf(r),
            r.constants == constants,
            r.extra_precision == 0,
            (form_residue(r) * mont_r_inv(constants)) % l4(constants.modulus) == l4(value) % l4(
                constants.modulus,
            ),
    {
        proof {
            lemma_odd_modulus_bounds(constants.modulus);
            lemma_l4_bound(value);
            lemma_pow2_pos(512);
            lemma_mod_bound(pow2(512) as int, l4(constants.modulus) as int);
            lemma_prod_bound(l4(value), l4(constants.r_squared), pow2(256), l4(constants.modulus));
            lemma_mul_is_commutative(pow2(256) as int, l4(constants.modulus) as int);
        }
        let m = mont_mul(&value, &constants.r_squared, &constants.modulus, &constants.n_prime);
        let r = MontgomeryForm { value: m, extra_precision: 0, constants };
        proof {
            lemma2_to64();
            lemma_mul_basics(l4(constants.modulus) as int);
            lemma_mont_r_inv(constants);
            lemma_small_mod(l4(m), l4(constants.modulus));
            lemma_val_new(
                l4(m),
                l4(value),
                l4(constants.r_squared),
                l4(constants.modulus),
                mont_r_inv(constants),
            );
        }
        r
    }

    /// Full reduction: brings the representative below the modulus and
    /// resets the tracked margin, preserving the residue class exactly.
    pub fn reduce(&mut self)
        requires
            form_wf(*old(self)),
        ensures
            form_wf(*final(self)),
            final(self).constants == old(self).constants,
            final(self).extra_precision == 0,
            l4(final(self).value) == form_residue(*old(self)),
    {
        proof {
            lemma_odd_modulus_bounds(self.constants.modulus);
            lemma2_to64();
            lemma_mul_basics(l4(self.constants.modulus) as int);
        }
        if self.extra_precision == 0 {
            proof {
                lemma_small_mod(l4(self.value), l4(self.constants.modulus));
            }
            return ;
        }
        let one_limbs: [u64; 4] = [1, 0, 0, 0];
        proof {
            lemma_limb_powers();
            assert(l4(one_limbs) == 1);
            lemma_l4_bound(self.value);
            lemma_mul_basics(l4(self.value) as int);
            lemma_pow2_pos(256);
            lemma_mul_left_inequality(
                l4(self.constants.modulus) as int,
                1,
                pow2(256) as int,
            );
        }
        let s1 = mont_mul(
            &self.value,
            &one_limbs,
            &self.constants.modulus,
            &self.constants.n_prime,
        );
        proof {
            lemma_prod_bound(
                l4(s1),
                l4(self.constants.r_squared),
                l4(self.constants.modulus),
                l4(self.constants.modulus),
            );
            lemma_mod_bound(pow2(512) as int, l4(self.constants.modulus) as int);
            lemma_prod_bound(l4(s1), l4(self.constants.r_squared), pow2(256), l4(
                self.constants.modulus,
            ));
            lemma_mul_is_commutative(pow2(256) as int, l4(self.constants.modulus) as int);
        }
        let s2 = mont_mul(
            &s1,
            &self.constants.r_squared,
            &self.constants.modulus,
            &self.constants.n_prime,
        );
        proof {
            let n = l4(self.constants.modulus) as int;
            let bigr = pow2(256) as int;
            let v = l4(old(self).value) as int;
            lemma_mul_basics(v);
            // s1 * R == v (mod n); multiplying by R: s1 * R^2 == v * R (mod n)
            lemma_val_linear(l4(s1) as int * bigr, v, n, bigr);
            lemma_mul_is_associative(l4(s1) as int, bigr, bigr);
            // s2 * R == s1 * (R^2 mod n) == s1 * R^2 == v * R (mod n)
            lemma_pow2_adds(256, 256);
            lemma_mul_mod_noop_right(l4(s1) as int, pow2(512) as int, n);
            // cancel R
            lemma_mont_r_inv(self.constants);
            lemma_cancel_r(l4(s2) as int, v, n, mont_r_inv(self.constants) as int, bigr);
            lemma_small_mod(l4(s2), l4(self.constants.modulus));
        }
        self.value = s2;
        self.extra_precision = 0;
    }

    /// Multiplies two Montgomery values. While the combined margin stays
    /// within the lazy-reduction budget the final subtraction is skipped and
    /// the margins add up (plus one); otherwise both operands are reduced
    /// first and the result is fully reduced.
    pub fn mul(&self, other: &MontgomeryForm) -> (r: MontgomeryForm)
        requires
            form_wf(*self),
            form_wf(*other),
            self.constants == other.constants,
        ensures
            form_wf(r),
            r.constants == self.constants,
            (l4(r.value) * pow2(256)) % l4(self.constants.modulus) == (l4(self.value) * l4(
                other.value,
            )) % l4(self.constants.modulus),
            self.extra_precision + other.extra_precision < self.constants.extra_bits
                ==> r.extra_precision == self.extra_precision + other.extra_precision + 1,
            self.extra_precision + other.extra_precision >= self.constants.extra_bits
                ==> r.extra_precision == 0,
    {
        proof {
            lemma_odd_modulus_bounds(self.constants.modulus);
        }
        let ea = self.extra_precision;
        let eb = other.extra_precision;
        let budget = self.constants.extra_bits;
        if ea <= budget && eb <= budget - ea && ea + eb < budget {
            proof {
                lemma_lazy_mul_bounds(
                    l4(self.value),
                    l4(other.value),
                    l4(self.constants.modulus),
                    ea as nat,
                    eb as nat,
                    budget as nat,
                );
            }
            let v = mont_mul_lazy(
                &self.value,
                &other.value,
                &self.constants.modulus,
                &self.constants.n_prime,
            );
            let r = MontgomeryForm {
                value: v,
                extra_precision: ea + eb + 1,
                constants: self.constants,
            };
            proof {
                let n = l4(self.constants.modulus);
                let g = n * pow2((ea + eb) as nat);
                assert(l4(v) * pow2(256) < (2 * g) * pow2(256));
                lemma_cancel_mul_lt(l4(v) as int, (2 * g) as int, pow2(256) as int);
                assert(2 * g == n * pow2((ea + eb + 1) as nat)) by {
                    lemma_pow2_adds(1, (ea + eb) as nat);
                    lemma2_to64();
                    lemma_mul_is_associative(l4(self.constants.modulus) as int, 2, pow2(
                        (ea + eb) as nat,
                    ) as int);
                    lemma_mul_is_commutative(l4(self.constants.modulus) as int, 2);
                    lemma_mul_is_associative(2, l4(self.constants.modulus) as int, pow2(
                        (ea + eb) as nat,
                    ) as int);
                }
            }
            r
        } else {
            let mut a = *self;
            let mut b = *other;
            a.reduce();
            b.reduce();
            proof {
                lemma_prod_bound(
                    l4(a.value),
                    l4(b.value),
                    l4(self.constants.modulus),
                    l4(self.constants.modulus),
                );
                lemma_l4_bound(self.constants.modulus);
                lemma_mul_left_inequality(
                    l4(self.constants.modulus) as int,
                    l4(self.constants.modulus) as int,
                    pow2(256) as int,
                );
            }
            let v = mont_mul(
                &a.value,
                &b.value,
                &self.constants.modulus,
                &self.constants.n_prime,
            );
            let r = MontgomeryForm { value: v, extra_precision: 0, constants: self.constants };
            proof {
                let n = l4(self.constants.modulus) as int;
                lemma2_to64();
                lemma_mul_basics(n);
                lemma_small_mod(l4(v), l4(self.constants.modulus));
                // (a mod n)(b mod n) == a b (mod n)
                lemma_mul_mod_noop_general(l4(self.value) as int, l4(other.value) as int, n);
            }
            r
        }
    }

    /// Squares the value: the same multiply-reduce path with both operands
    /// equal.
    pub fn square(&self) -> (r: MontgomeryForm)
        requires
            form_wf(*self),
        ensures
            form_wf(r),
            r.constants == self.constants,
            (l4(r.value) * pow2(256)) % l4(self.constants.modulus) == (l4(self.value) * l4(
                self.value,
            )) % l4(self.constants.modulus),
            2 * self.extra_precision < self.constants.extra_bits ==> r.extra_precision == 2
                * self.extra_precision + 1,
            2 * self.extra_precision >= self.constants.extra_bits ==> r.extra_precision == 0,
    {
        self.mul(self)
    }

    /// Adds two Montgomery values after reducing both, with one conditional
    /// subtraction: addition never accumulates extra precision.
    pub fn add(&self, other: &MontgomeryForm) -> (r: MontgomeryForm)
        requires
            form_wf(*self),
            form_wf(*other),
            self.constants == other.constants,
        ensures
            form_wf(r),
            r.constants == self.constants,
            r.extra_precision == 0,
            form_residue(r) == (l4(self.value) + l4(other.value)) % l4(self.constants.modulus),
    {
        proof {
            lemma_odd_modulus_bounds(self.constants.modulus);
        }
        let mut a = *self;
        let mut b = *other;
        a.reduce();
        b.reduce();
        let (s, c) = add4(&a.value, &b.value);
        let v = cond_sub(&s, c, &self.constants.modulus);
        let r = MontgomeryForm { value: v, extra_precision: 0, constants: self.constants };
        proof {
            let n = l4(self.constants.modulus) as int;
            lemma2_to64();
            lemma_mul_basics(n);
            lemma_small_mod(l4(v), l4(self.constants.modulus));
            lemma_mod_twice_helper(l4(self.value) as int, l4(other.value) as int, n);
        }
        r
    }

    /// Subtracts another Montgomery value after reducing both, adding the
    /// modulus first when needed.
    pub fn sub(&self, other: &MontgomeryForm) -> (r: MontgomeryForm)
        requires
            form_wf(*self),
            form_wf(*other),
            self.constants == other.constants,
        ensures
            form_wf(r),
            r.constants == self.constants,
            r.extra_precision == 0,
            form_residue(r) as int == (l4(self.value) as int - l4(other.value) as int) % (l4(
                self.constants.modulus,
            ) as int),
    {
        proof {
            lemma_odd_modulus_bounds(self.constants.modulus);
        }
        let mut a = *self;
        let mut b = *other;
        a.reduce();
        b.reduce();
        let ghost va = l4(a.value) as int;
        let ghost vb = l4(b.value) as int;
        let smaller = ct_lt(&a.value, &b.value);
        let v: [u64; 4];
        if smaller {
            let (t, c1) = add4(&a.value, &self.constants.modulus);
            let (d, bb) = sub4(&t, &b.value);
            proof {
                lemma_l4_bound(t);
                lemma_l4_bound(d);
                lemma_limb_powers();
                assert(bb == c1);
            }
            v = d;
        } else {
            let (d, bb) = sub4(&a.value, &b.value);
            proof {
                lemma_l4_bound(d);
                if bb == 1 {
                    assert(l4(d) == l4(a.value) + pow2(256) - l4(b.value));
                    assert(l4(d) >= pow2(256));
                }
                assert(bb == 0);
            }
            v = d;
        }
        let r = MontgomeryForm { value: v, extra_precision: 0, constants: self.constants };
        proof {
            let n = l4(self.constants.modulus) as int;
            lemma2_to64();
            lemma_mul_basics(n);
            lemma_small_mod(l4(v), l4(self.constants.modulus));
            // v == (a mod n) - (b mod n) + delta * n with delta in {0, 1}
            if smaller {
                assert(l4(v) as int == va + n - vb);
            }
            lemma_mod_sub_bridge(l4(self.value) as int, l4(other.value) as int, va, vb, l4(
                v,
            ) as int, n);
        }
        r
    }
}

impl MontgomeryForm {
    /// Reduce-before-compare equality: two forms denote the same field
    /// element exactly when their moduli agree and their fully reduced
    /// representatives are limb-for-limb equal.
    pub fn eq_value(&self, other: &MontgomeryForm) -> (r: bool)
        requires
            form_wf(*self),
            form_wf(*other),
        ensures
            r == (self.constants.modulus == other.constants.modulus && form_residue(*self)
                == form_residue(*other)),
    {
        let m_eq = self.constants.modulus[0] == other.constants.modulus[0]
            && self.constants.modulus[1] == other.constants.modulus[1]
            && self.constants.modulus[2] == other.constants.modulus[2]
            && self.constants.modulus[3] == other.constants.modulus[3];
        proof {
            if m_eq {
                assert(self.constants.modulus =~= other.constants.modulus);
            } else {
                assert(self.constants.modulus != other.constants.modulus);
            }
        }
        if !m_eq {
            return false;
        }
        let mut a = *self;
        let mut b = *other;
        a.reduce();
        b.reduce();
        let v_eq = a.value[0] == b.value[0] && a.value[1] == b.value[1] && a.value[2] == b.value[2]
            && a.value[3] == b.value[3];
        proof {
            if v_eq {
                assert(a.value =~= b.value);
            } else {
                assert(!(a.value =~= b.value));
                if l4(a.value) == l4(b.value) {
                    crate::limbs::lemma_l4_injective(a.value, b.value);
                }
                assert(l4(a.value) != l4(b.value));
            }
        }
        v_eq
    }
}

/// Bound bookkeeping for a lazy multiplication: operands within margins
/// `2^ea` and `2^eb` of the modulus give a product plus `R * N` that fits
/// below `R^2`, and a result margin of `2^(ea+eb+1)`.
proof fn lemma_lazy_mul_bounds(a: nat, b: nat, n: nat, ea: nat, eb: nat, budget: nat)
    requires
        0 < n,
        a < n * pow2(ea),
        b < n * pow2(eb),
        ea + eb < budget,
        n * pow2(budget) <= pow2(256),
    ensures
        a * b + pow2(256) * n <= pow2(512),
        a * b + pow2(256) * n < (2 * (n * pow2(ea + eb))) * pow2(256),
{
    let bigr = pow2(256);
    let g = n * pow2(ea + eb);
    lemma_pow2_pos(ea);
    lemma_pow2_pos(eb);
    lemma_pow2_pos(ea + eb);
    lemma_pow2_pos(256);
    lemma_pow2_adds(ea, eb);
    lemma2_to64();
    // n < R: the budget holds at least one doubling
    assert(n < bigr) by {
        lemma_pow2_increases_helper(1, budget);
        lemma_mul_left_inequality(n as int, 2, pow2(budget) as int);
        assert(n * pow2(budget) <= bigr);
        assert(n * 2 <= n * pow2(budget));
    }
    lemma_prod_bound(a, b, n * pow2(ea), n * pow2(eb));
    assert((n * pow2(ea)) * (n * pow2(eb)) == n * g) by (nonlinear_arith)
        requires
            pow2(ea) * pow2(eb) == pow2(ea + eb) && g == n * pow2(ea + eb),
    ;
    // a * b < n * g <= R * g since n < R
    lemma_mul_strict_inequality(n as int, bigr as int, g as int);
    assert(a * b < bigr * g);
    // R * n <= R * g since n <= g
    assert(n <= g) by {
        lemma_mul_left_inequality(n as int, 1, pow2(ea + eb) as int);
        lemma_mul_basics(n as int);
    }
    lemma_mul_left_inequality(bigr as int, n as int, g as int);
    // together: a * b + R n < 2 g R == (2g) R
    assert(a * b + bigr * n < 2 * (bigr * g));
    assert(2 * (bigr * g) == (2 * g) * bigr) by {
        lemma_mul_is_commutative(bigr as int, g as int);
        lemma_mul_is_associative(2, g as int, bigr as int);
    }
    // and 2 g <= n * 2^budget <= R, so the total is below R^2
    assert(2 * g <= n * pow2(budget)) by {
        lemma_pow2_adds(1, ea + eb);
        lemma_pow2_increases_helper(ea + eb + 1, budget);
        lemma_mul_left_inequality(n as int, pow2(ea + eb + 1) as int, pow2(budget) as int);
        assert(n * pow2(ea + eb + 1) == 2 * g) by (nonlinear_arith)
            requires
                pow2(ea + eb + 1) == 2 * pow2(ea + eb) && g == n * pow2(ea + eb),
        ;
    }
    lemma_mul_inequality((2 * g) as int, bigr as int, bigr as int);
    lemma_pow2_adds(256, 256);
    assert((2 * g) * bigr <= bigr * bigr);
}

/// `pow2` is monotone (non-strict form).
proof fn lemma_pow2_increases_helper(e1: nat, e2: nat)
    requires
        e1 <= e2,
    ensures
        pow2(e1) <= pow2(e2),
{
    if e1 < e2 {
        lemma_pow2_strictly_increases(e1, e2);
    }
}

/// From `x * z < y * z` with `z > 0`, conclude `x < y`.
proof fn lemma_cancel_mul_lt(x: int, y: int, z: int)
    requires
        x * z < y * z,
        z > 0,
        x >= 0,
    ensures
        x < y,
{
    if x >= y {
        lemma_mul_inequality(y, x, z);
    }
}

/// `((a mod n) + (b mod n)) mod n == (a + b) mod n`.
proof fn lemma_mod_twice_helper(a: int, b: int, n: int)
    requires
        n > 0,
    ensures
        ((a % n) + (b % n)) % n == (a + b) % n,
{
    lemma_add_mod_noop(a, b, n);
}

/// Bridging a reduced subtraction back to the original representatives:
/// `v == (a mod n) - (b mod n) (mod n)` gives `v mod n == (a - b) mod n`.
proof fn lemma_mod_sub_bridge(a: int, b: int, ra: int, rb: int, v: int, n: int)
    requires
        n > 0,
        ra == a % n,
        rb == b % n,
        v == ra - rb || v == ra + n - rb,
        0 <= v < n,
    ensures
        v % n == (a - b) % n,
{
    vstd::arithmetic::div_mod::lemma_sub_mod_noop(a, b, n);
    assert((ra - rb) % n == (a - b) % n);
    if v == ra + n - rb {
        vstd::arithmetic::div_mod::lemma_mod_add_multiples_vanish(ra - rb, n);
        assert((ra + n - rb) % n == (ra - rb) % n);
    }
    lemma_small_mod(v as nat, n as nat);
}

/// Lazy-reduction equivalence, single step: a lazily reduced product and an
/// eagerly reduced product of the same operands lie in the same residue
/// class, so one final reduction of the lazy result yields exactly the eager
/// representative.
pub proof fn law_lazy_reduction_equiv(lz: nat, eg: nat, a: nat, b: nat, n: nat, k: nat)
    requires
        n > 0,
        (lz * pow2(256)) % n == (a * b) % n,
        (eg * pow2(256)) % n == (a * b) % n,
        eg < n,
        (pow2(256) * k) % n == 1nat % n,
    ensures
        lz % n == eg,
{
    lemma_cancel_r(lz as int, eg as int, n as int, k as int, pow2(256) as int);
    lemma_small_mod(eg, n);
}

/// Lazy-reduction equivalence for a chain of two multiplications: two lazy
/// multiplications followed by one reduction agree with two eagerly reduced
/// multiplications.
pub proof fn law_lazy_reduction_chain(
    l1: nat,
    l2: nat,
    e1: nat,
    e2: nat,
    a: nat,
    b: nat,
    c: nat,
    n: nat,
    k: nat,
)
    requires
        n > 0,
        (l1 * pow2(256)) % n == (a * b) % n,
        (l2 * pow2(256)) % n == (l1 * c) % n,
        (e1 * pow2(256)) % n == (a * b) % n,
        e1 < n,
        (e2 * pow2(256)) % n == (e1 * c) % n,
        e2 < n,
        (pow2(256) * k) % n == 1nat % n,
    ensures
        l2 % n == e2,
{
    // l1 == e1 (mod n), so l1 * c == e1 * c (mod n), and the final results agree.
    lemma_cancel_r(l1 as int, e1 as int, n as int, k as int, pow2(256) as int);
    lemma_mul_mod_noop_left(l1 as int, c as int, n as int);
    lemma_mul_mod_noop_left(e1 as int, c as int, n as int);
    assert((l1 * c) % n == (e1 * c) % n);
    lemma_cancel_r(l2 as int, e2 as int, n as int, k as int, pow2(256) as int);
    lemma_small_mod(e2, n);
}

/// Lazy-reduction equivalence for a chain of any length: if a lazily
/// reduced sequence and an eagerly reduced sequence start from congruent
/// representatives and absorb the same factors step by step (each step
/// satisfying the Montgomery product relation), then every pair of
/// corresponding entries is congruent - so one final reduction of the last
/// lazy entry yields exactly the last eager representative.
pub proof fn law_lazy_reduction_chain_any(
    lz: Seq<nat>,
    eg: Seq<nat>,
    f: Seq<nat>,
    n: nat,
    k: nat,
)
    requires
        n > 0,
        (pow2(256) * k) % n == 1nat % n,
        lz.len() == eg.len(),
        lz.len() >= 1,
        f.len() + 1 == lz.len(),
        lz[0] % n == eg[0] % n,
        forall|i: int|
            0 <= i < f.len() ==> (#[trigger] lz[i + 1] * pow2(256)) % n == (lz[i] * f[i]) % n,
        forall|i: int|
            0 <= i < f.len() ==> (#[trigger] eg[i + 1] * pow2(256)) % n == (eg[i] * f[i]) % n,
    ensures
        lz[lz.len() - 1] % n == eg[eg.len() - 1] % n,
{
    lemma_chain_congruent(lz, eg, f, n, k, lz.len() - 1);
}

/// Entry-wise congruence of the two chains, by induction on the position.
proof fn lemma_chain_congruent(lz: Seq<nat>, eg: Seq<nat>, f: Seq<nat>, n: nat, k: nat, m: int)
    requires
        n > 0,
        (pow2(256) * k) % n == 1nat % n,
        lz.len() == eg.len(),
        f.len() + 1 == lz.len(),
        0 <= m < lz.len(),
        lz[0] % n == eg[0] % n,
        forall|i: int|
            0 <= i < f.len() ==> (#[trigger] lz[i + 1] * pow2(256)) % n == (lz[i] * f[i]) % n,
        forall|i: int|
            0 <= i < f.len() ==> (#[trigger] eg[i + 1] * pow2(256)) % n == (eg[i] * f[i]) % n,
    ensures
        lz[m] % n == eg[m] % n,
    decreases m,
{
    if m > 0 {
        lemma_chain_congruent(lz, eg, f, n, k, m - 1);
        // the previous entries are congruent, so the absorbed products are too
        lemma_mul_mod_noop_left(lz[m - 1] as int, f[m - 1] as int, n as int);
        lemma_mul_mod_noop_left(eg[m - 1] as int, f[m - 1] as int, n as int);
        assert((lz[m - 1] * f[m - 1]) % n == (eg[m - 1] * f[m - 1]) % n);
        assert((lz[(m - 1) + 1] * pow2(256)) % n == (lz[m - 1] * f[m - 1]) % n);
        assert((eg[(m - 1) + 1] * pow2(256)) % n == (eg[m - 1] * f[m - 1]) % n);
        assert((lz[m] * pow2(256)) % n == (eg[m] * pow2(256)) % n);
        lemma_cancel_r(lz[m] as int, eg[m] as int, n as int, k as int, pow2(256) as int);
    }
}

} // verus!
