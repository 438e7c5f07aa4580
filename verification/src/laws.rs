//! The algebraic laws of the field layer, stated over the canonical values
//! that the arithmetic contracts speak of, and proved once and for all.
//!
//! Each law quantifies over well-formed field elements of one field; the
//! operations' own contracts (`add` returns `add_mod`, `mul` returns
//! `mul_mod`, and so on) connect these statements to the executable code.

use vstd::prelude::*;

verus! {

use vstd::arithmetic::power::{pow, lemma_pow_adds, lemma_pow_multiplies, lemma_pow_mod_noop};
use vstd::arithmetic::div_mod::{
    lemma_small_mod,
    lemma_add_mod_noop,
    lemma_add_mod_noop_right,
    lemma_mul_mod_noop_general,
    lemma_mul_mod_noop_right,
    lemma_mul_mod_noop_left,
    lemma_mod_self_0,
    lemma_mod_add_multiples_vanish,
    lemma_mod_twice,
};
use vstd::arithmetic::mul::{
    lemma_mul_is_commutative,
    lemma_mul_is_associative,
    lemma_mul_is_distributive_add,
    lemma_mul_basics,
};
use crate::field::{Fp, fp_wf, fp_val, fp_modulus, fp_same_field, add_mod, sub_mod, mul_mod};
use crate::limbs::l4;

/// Commutativity of field addition: `a + b == b + a`.
pub proof fn law_add_commutative(a: Fp, b: Fp)
    requires
        fp_wf(a),
        fp_wf(b),
        fp_same_field(a, b),
    ensures
        add_mod(fp_val(a), fp_val(b), fp_modulus(a)) == add_mod(fp_val(b), fp_val(a), fp_modulus(a)),
{
}

/// Associativity of field addition: `(a + b) + c == a + (b + c)`.
pub proof fn law_add_associative(a: Fp, b: Fp, c: Fp)
    requires
        fp_wf(a),
        fp_wf(b),
        fp_wf(c),
        fp_same_field(a, b),
        fp_same_field(b, c),
    ensures
        add_mod(add_mod(fp_val(a), fp_val(b), fp_modulus(a)), fp_val(c), fp_modulus(a)) == add_mod(
            fp_val(a),
            add_mod(fp_val(b), fp_val(c), fp_modulus(a)),
            fp_modulus(a),
        ),
{
    let n = fp_modulus(a) as int;
    let x = fp_val(a) as int;
    let y = fp_val(b) as int;
    let z = fp_val(c) as int;
    crate::montgomery::lemma_odd_modulus_bounds(a.constants.modulus);
    crate::field::lemma_fp_val_bound(a);
    crate::field::lemma_fp_val_bound(c);
    lemma_small_mod(fp_val(a), fp_modulus(a));
    lemma_small_mod(fp_val(c), fp_modulus(a));
    lemma_add_mod_noop(x + y, z, n);
    lemma_mod_twice(x + y, n);
    lemma_add_mod_noop(x, y + z, n);
    lemma_mod_twice(y + z, n);
    assert(((x + y) % n + z % n) % n == ((x + y) + z) % n);
    assert((x % n + (y + z) % n) % n == (x + (y + z)) % n);
}

/// The additive identity: `a + 0 == a`.
pub proof fn law_add_identity(a: Fp)
    requires
        fp_wf(a),
    ensures
        add_mod(fp_val(a), 0, fp_modulus(a)) == fp_val(a),
{
    crate::montgomery::lemma_odd_modulus_bounds(a.constants.modulus);
    crate::field::lemma_fp_val_bound(a);
    lemma_small_mod(fp_val(a), fp_modulus(a));
}

/// The additive inverse: `a + (-a) == 0`.
pub proof fn law_add_inverse(a: Fp)
    requires
        fp_wf(a),
    ensures
        add_mod(fp_val(a), sub_mod(0, fp_val(a), fp_modulus(a)), fp_modulus(a)) == 0,
{
    let n = fp_modulus(a) as int;
    let x = fp_val(a) as int;
    crate::montgomery::lemma_odd_modulus_bounds(a.constants.modulus);
    crate::field::lemma_fp_val_bound(a);
    // (-a) is (n - x) % n; adding x gives n % n == 0 after one reduction
    lemma_add_mod_noop_right(x, n - x, n);
    assert((x + (n - x) % n) % n == (x + (n - x)) % n);
    lemma_mod_self_0(n);
}

/// Commutativity of field multiplication: `a * b == b * a`.
pub proof fn law_mul_commutative(a: Fp, b: Fp)
    requires
        fp_wf(a),
        fp_wf(b),
        fp_same_field(a, b),
    ensures
        mul_mod(fp_val(a), fp_val(b), fp_modulus(a)) == mul_mod(fp_val(b), fp_val(a), fp_modulus(a)),
{
    lemma_mul_is_commutative(fp_val(a) as int, fp_val(b) as int);
}

/// Associativity of field multiplication: `(a * b) * c == a * (b * c)`.
pub proof fn law_mul_associative(a: Fp, b: Fp, c: Fp)
    requires
        fp_wf(a),
        fp_wf(b),
        fp_wf(c),
        fp_same_field(a, b),
        fp_same_field(b, c),
    ensures
        mul_mod(mul_mod(fp_val(a), fp_val(b), fp_modulus(a)), fp_val(c), fp_modulus(a)) == mul_mod(
            fp_val(a),
            mul_mod(fp_val(b), fp_val(c), fp_modulus(a)),
            fp_modulus(a),
        ),
{
    let n = fp_modulus(a) as int;
    let x = fp_val(a) as int;
    let y = fp_val(b) as int;
    let z = fp_val(c) as int;
    crate::montgomery::lemma_odd_modulus_bounds(a.constants.modulus);
    lemma_mul_mod_noop_left(x * y, z, n);
    lemma_mul_mod_noop_right(x, y * z, n);
    lemma_mul_is_associative(x, y, z);
}

/// The multiplicative identity: `a * 1 == a`.
pub proof fn law_mul_identity(a: Fp)
    requires
        fp_wf(a),
    ensures
        mul_mod(fp_val(a), 1nat % fp_modulus(a), fp_modulus(a)) == fp_val(a),
{
    let n = fp_modulus(a) as int;
    let x = fp_val(a) as int;
    crate::montgomery::lemma_odd_modulus_bounds(a.constants.modulus);
    crate::field::lemma_fp_val_bound(a);
    lemma_mul_mod_noop_right(x, 1, n);
    lemma_mul_basics(x);
    lemma_small_mod(fp_val(a), fp_modulus(a));
}

/// Distributivity of multiplication over addition:
/// `a * (b + c) == a * b + a * c`.
pub proof fn law_distributive(a: Fp, b: Fp, c: Fp)
    requires
        fp_wf(a),
        fp_wf(b),
        fp_wf(c),
        fp_same_field(a, b),
        fp_same_field(b, c),
    ensures
        mul_mod(fp_val(a), add_mod(fp_val(b), fp_val(c), fp_modulus(a)), fp_modulus(a)) == add_mod(
            mul_mod(fp_val(a), fp_val(b), fp_modulus(a)),
            mul_mod(fp_val(a), fp_val(c), fp_modulus(a)),
            fp_modulus(a),
        ),
{
    let n = fp_modulus(a) as int;
    let x = fp_val(a) as int;
    let y = fp_val(b) as int;
    let z = fp_val(c) as int;
    crate::montgomery::lemma_odd_modulus_bounds(a.constants.modulus);
    lemma_mul_mod_noop_right(x, y + z, n);
    lemma_mul_is_distributive_add(x, y, z);
    lemma_add_mod_noop(x * y, x * z, n);
}

/// Montgomery round-trip: an element built from canonical limbs converts
/// back to exactly those limbs. `Fp::new` ensures the value is the input
/// reduced modulo `N`, and `Fp::from_montgomery` returns the value; for a
/// canonical input the reduction is the identity.
pub proof fn law_montgomery_round_trip(x: Fp, v: [u64; 4])
    requires
        fp_wf(x),
        fp_val(x) == l4(v) % fp_modulus(x),
        l4(v) < fp_modulus(x),
    ensures
        fp_val(x) == l4(v),
{
    lemma_small_mod(l4(v), fp_modulus(x));
}

/// Sum rule of exponents: `a^(m+n) == a^m * a^n` in the field.
pub proof fn law_pow_adds(a: Fp, e1: nat, e2: nat)
    requires
        fp_wf(a),
    ensures
        pow(fp_val(a) as int, e1 + e2) % (fp_modulus(a) as int) == (mul_mod(
            (pow(fp_val(a) as int, e1) % (fp_modulus(a) as int)) as nat,
            (pow(fp_val(a) as int, e2) % (fp_modulus(a) as int)) as nat,
            fp_modulus(a),
        ) as int),
{
    let n = fp_modulus(a) as int;
    let v = fp_val(a) as int;
    crate::montgomery::lemma_odd_modulus_bounds(a.constants.modulus);
    lemma_pow_adds(v, e1, e2);
    lemma_mul_mod_noop_general(pow(v, e1), pow(v, e2), n);
    lemma_pow_nonneg(v, e1);
    lemma_pow_nonneg(v, e2);
    vstd::arithmetic::div_mod::lemma_mod_bound(pow(v, e1), n);
    vstd::arithmetic::div_mod::lemma_mod_bound(pow(v, e2), n);
}

/// A power of a nonnegative base is nonnegative.
proof fn lemma_pow_nonneg(b: int, e: nat)
    requires
        b >= 0,
    ensures
        pow(b, e) >= 0,
{
    if b > 0 {
        vstd::arithmetic::power::lemma_pow_positive(b, e);
    } else {
        if e == 0 {
            vstd::arithmetic::power::lemma_pow0(b);
        } else {
            vstd::arithmetic::power::lemma0_pow(e);
        }
    }
}

/// Product rule of exponents: `(a^m)^n == a^(m*n)` in the field.
pub proof fn law_pow_multiplies(a: Fp, e1: nat, e2: nat)
    requires
        fp_wf(a),
    ensures
        pow((pow(fp_val(a) as int, e1) % (fp_modulus(a) as int)), e2) % (fp_modulus(a) as int)
            == pow(fp_val(a) as int, e1 * e2) % (fp_modulus(a) as int),
{
    let n = fp_modulus(a) as int;
    let v = fp_val(a) as int;
    crate::montgomery::lemma_odd_modulus_bounds(a.constants.modulus);
    lemma_pow_mod_noop(pow(v, e1), e2, n);
    lemma_pow_multiplies(v, e1, e2);
}

} // verus!
