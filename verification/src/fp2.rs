//! The quadratic extension field: elements `c0 + c1*u` with `u^2 = -1`,
//! built componentwise on the base field. Multiplication uses Karatsuba's
//! three-product form; inversion goes through the norm `c0^2 + c1^2`.

use vstd::prelude::*;

verus! {

use vstd::arithmetic::div_mod::{
    lemma_small_mod,
    lemma_add_mod_noop,
    lemma_sub_mod_noop,
    lemma_mod_add_multiples_vanish,
    lemma_mul_mod_noop_general,
    lemma_mul_mod_noop_left,
    lemma_mul_mod_noop_right,
    lemma_mod_twice,
};
use vstd::arithmetic::mul::{lemma_mul_is_distributive_add, lemma_mul_is_distributive_add_other_way};
use crate::field::{Fp, fp_wf, fp_val, fp_modulus, fp_same_field, add_mod, sub_mod, mul_mod};
use crate::montgomery::{MontgomeryConstants, constants_wf, lemma_odd_modulus_bounds};

/// An element of the quadratic extension field `Fp[u]/(u^2 + 1)`.
#[derive(Clone, Copy, Debug)]
pub struct Fp2 {
    /// Coefficient of 1.
    pub c0: Fp,
    /// Coefficient of `u`.
    pub c1: Fp,
}

/// Well-formedness: both coefficients are well-formed elements of one field.
pub open spec fn fp2_wf(x: Fp2) -> bool {
    &&& fp_wf(x.c0)
    &&& fp_wf(x.c1)
    &&& x.c0.constants == x.c1.constants
}

/// The modulus of the base field.
pub open spec fn fp2_modulus(x: Fp2) -> nat {
    fp_modulus(x.c0)
}

/// Operation compatibility for extension elements.
pub open spec fn fp2_same_field(a: Fp2, b: Fp2) -> bool {
    a.c0.constants == b.c0.constants
}

impl Fp2 {
    /// Creates a new extension element from its coefficients.
    pub fn new(c0: Fp, c1: Fp) -> (r: Fp2)
        requires
            fp_wf(c0),
            fp_wf(c1),
            fp_same_field(c0, c1),
        ensures
            fp2_wf(r),
            r.c0 == c0,
            r.c1 == c1,
    {
        Fp2 { c0, c1 }
    }

    /// The additive identity of the extension field.
    pub fn zero(constants: &MontgomeryConstants) -> (r: Fp2)
        requires
            constants_wf(*constants),
        ensures
            fp2_wf(r),
            r.c0.constants == *constants,
            fp_val(r.c0) == 0,
            fp_val(r.c1) == 0,
    {
        let z = Fp::zero(constants);
        Fp2 { c0: z, c1: z }
    }

    /// The multiplicative identity of the extension field.
    pub fn one(constants: &MontgomeryConstants) -> (r: Fp2)
        requires
            constants_wf(*constants),
        ensures
            fp2_wf(r),
            r.c0.constants == *constants,
            fp_val(r.c0) == 1nat % l4(constants.modulus),
            fp_val(r.c1) == 0,
    {
        Fp2 { c0: Fp::one(constants), c1: Fp::zero(constants) }
    }

    /// Whether both coefficients are zero.
    pub fn is_zero(&self) -> (r: bool)
        requires
            fp2_wf(*self),
        ensures
            r == (fp_val(self.c0) == 0 && fp_val(self.c1) == 0),
    {
        self.c0.is_zero() && self.c1.is_zero()
    }

    /// Componentwise addition.
    pub fn add(&self, other: &Fp2) -> (r: Fp2)
        requires
            fp2_wf(*self),
            fp2_wf(*other),
            fp2_same_field(*self, *other),
        ensures
            fp2_wf(r),
            r.c0.constants == self.c0.constants,
            fp_val(r.c0) == add_mod(fp_val(self.c0), fp_val(other.c0), fp2_modulus(*self)),
            fp_val(r.c1) == add_mod(fp_val(self.c1), fp_val(other.c1), fp2_modulus(*self)),
    {
        Fp2 { c0: self.c0.add(&other.c0), c1: self.c1.add(&other.c1) }
    }

    /// Componentwise subtraction.
    pub fn sub(&self, other: &Fp2) -> (r: Fp2)
        requires
            fp2_wf(*self),
            fp2_wf(*other),
            fp2_same_field(*self, *other),
        ensures
            fp2_wf(r),
            r.c0.constants == self.c0.constants,
            fp_val(r.c0) == sub_mod(fp_val(self.c0), fp_val(other.c0), fp2_modulus(*self)),
            fp_val(r.c1) == sub_mod(fp_val(self.c1), fp_val(other.c1), fp2_modulus(*self)),
    {
        Fp2 { c0: self.c0.sub(&other.c0), c1: self.c1.sub(&other.c1) }
    }

    /// Componentwise negation.
    pub fn neg(&self) -> (r: Fp2)
        requires
            fp2_wf(*self),
        ensures
            fp2_wf(r),
            r.c0.constants == self.c0.constants,
            fp_val(r.c0) == sub_mod(0, fp_val(self.c0), fp2_modulus(*self)),
            fp_val(r.c1) == sub_mod(0, fp_val(self.c1), fp2_modulus(*self)),
    {
        Fp2 { c0: self.c0.neg(), c1: self.c1.neg() }
    }

    /// Karatsuba multiplication: three base-field products
    /// `ac`, `bd` and `(a+b)(c+d)` give
    /// `(a + b u)(c + d u) = (ac - bd) + (ad + bc) u`.
    pub fn mul(&self, other: &Fp2) -> (r: Fp2)
        requires
            fp2_wf(*self),
            fp2_wf(*other),
            fp2_same_field(*self, *other),
        ensures
            fp2_wf(r),
            r.c0.constants == self.c0.constants,
            fp_val(r.c0) == sub_mod(
                mul_mod(fp_val(self.c0), fp_val(other.c0), fp2_modulus(*self)),
                mul_mod(fp_val(self.c1), fp_val(other.c1), fp2_modulus(*self)),
                fp2_modulus(*self),
            ),
            fp_val(r.c1) == add_mod(
                mul_mod(fp_val(self.c0), fp_val(other.c1), fp2_modulus(*self)),
                mul_mod(fp_val(self.c1), fp_val(other.c0), fp2_modulus(*self)),
                fp2_modulus(*self),
            ),
    {
        let ac = self.c0.mul(&other.c0);
        let bd = self.c1.mul(&other.c1);
        let a_plus_b = self.c0.add(&self.c1);
        let c_plus_d = other.c0.add(&other.c1);
        let abcd = a_plus_b.mul(&c_plus_d);
        let r0 = ac.sub(&bd);
        let r1 = abcd.sub(&ac).sub(&bd);
        proof {
            lemma_odd_modulus_bounds(self.c0.constants.modulus);
            lemma_karatsuba(
                fp_val(self.c0),
                fp_val(self.c1),
                fp_val(other.c0),
                fp_val(other.c1),
                fp2_modulus(*self),
            );
        }
        Fp2 { c0: r0, c1: r1 }
    }

    /// Squaring: `(a + b u)^2 = (a^2 - b^2) + 2ab u`.
    pub fn square(&self) -> (r: Fp2)
        requires
            fp2_wf(*self),
        ensures
            fp2_wf(r),
            r.c0.constants == self.c0.constants,
            fp_val(r.c0) == sub_mod(
                mul_mod(fp_val(self.c0), fp_val(self.c0), fp2_modulus(*self)),
                mul_mod(fp_val(self.c1), fp_val(self.c1), fp2_modulus(*self)),
                fp2_modulus(*self),
            ),
            fp_val(r.c1) == add_mod(
                mul_mod(fp_val(self.c0), fp_val(self.c1), fp2_modulus(*self)),
                mul_mod(fp_val(self.c1), fp_val(self.c0), fp2_modulus(*self)),
                fp2_modulus(*self),
            ),
    {
        self.mul(self)
    }

    /// Inversion through the norm: `(a + b u)^(-1) = (a - b u) / (a^2 + b^2)`.
    /// Returns `None` exactly when the norm has no base-field inverse; for a
    /// prime modulus that happens only for the zero element.
    pub fn inverse(&self) -> (r: Option<Fp2>)
        requires
            fp2_wf(*self),
        ensures
            match r {
                Some(y) => {
                    let n = fp2_modulus(*self);
                    let norm = add_mod(
                        mul_mod(fp_val(self.c0), fp_val(self.c0), n),
                        mul_mod(fp_val(self.c1), fp_val(self.c1), n),
                        n,
                    );
                    &&& exists|w: nat| #[trigger] ((norm * w) % n) == 1nat % n
                    &&& fp2_wf(y)
                    &&& y.c0.constants == self.c0.constants
                    &&& mul_mod(fp_val(y.c0), norm, n) == fp_val(self.c0) % n
                    &&& mul_mod(sub_mod(0, fp_val(y.c1), n), norm, n) == fp_val(self.c1) % n
                },
                None => forall|w: nat|
                    #[trigger] ((add_mod(
                        mul_mod(fp_val(self.c0), fp_val(self.c0), fp2_modulus(*self)),
                        mul_mod(fp_val(self.c1), fp_val(self.c1), fp2_modulus(*self)),
                        fp2_modulus(*self),
                    ) * w) % fp2_modulus(*self)) != 1nat % fp2_modulus(*self),
            },
    {
        let a2 = self.c0.mul(&self.c0);
        let b2 = self.c1.mul(&self.c1);
        let norm = a2.add(&b2);
        let inv = norm.inverse();
        match inv {
            Some(i) => {
                let y0 = self.c0.mul(&i);
                let y1 = self.c1.mul(&i).neg();
                proof {
                    lemma_odd_modulus_bounds(self.c0.constants.modulus);
                    let n = fp2_modulus(*self);
                    crate::field::lemma_fp_val_bound(norm);
                    lemma_inverse_component(fp_val(self.c0), fp_val(norm), fp_val(i), n);
                    lemma_inverse_component(fp_val(self.c1), fp_val(norm), fp_val(i), n);
                    vstd::arithmetic::div_mod::lemma_mod_bound(
                        (fp_val(self.c1) * fp_val(i)) as int,
                        n as int,
                    );
                    lemma_neg_neg(mul_mod(fp_val(self.c1), fp_val(i), n), n);
                    assert(sub_mod(0, fp_val(y1), n) == mul_mod(fp_val(self.c1), fp_val(i), n));
                }
                Some(Fp2 { c0: y0, c1: y1 })
            },
            None => None,
        }
    }

    /// The Frobenius map for `p = 3 (mod 4)`: conjugation `a + b u -> a - b u`.
    pub fn frobenius(&self) -> (r: Fp2)
        requires
            fp2_wf(*self),
        ensures
            fp2_wf(r),
            r.c0.constants == self.c0.constants,
            fp_val(r.c0) == fp_val(self.c0),
            fp_val(r.c1) == sub_mod(0, fp_val(self.c1), fp2_modulus(*self)),
    {
        Fp2 { c0: self.c0, c1: self.c1.neg() }
    }

    /// Multiplication by the quadratic non-residue `u`:
    /// `(a + b u) u = -b + a u`.
    pub fn mul_by_nonresidue(&self) -> (r: Fp2)
        requires
            fp2_wf(*self),
        ensures
            fp2_wf(r),
            r.c0.constants == self.c0.constants,
            fp_val(r.c0) == sub_mod(0, fp_val(self.c1), fp2_modulus(*self)),
            fp_val(r.c1) == fp_val(self.c0),
    {
        Fp2 { c0: self.c1.neg(), c1: self.c0 }
    }
}

use crate::limbs::l4;

/// The Karatsuba recombination: subtracting the two end products from
/// `(a + b)(c + d)` leaves the cross terms `ad + bc`, modulo `n`.
proof fn lemma_karatsuba(a: nat, b: nat, c: nat, d: nat, n: nat)
    requires
        n > 0,
        a < n,
        b < n,
        c < n,
        d < n,
    ensures
        sub_mod(
            sub_mod(mul_mod(add_mod(a, b, n), add_mod(c, d, n), n), mul_mod(a, c, n), n),
            mul_mod(b, d, n),
            n,
        ) == add_mod(mul_mod(a, d, n), mul_mod(b, c, n), n),
{
    let ni = n as int;
    let ai = a as int;
    let bi = b as int;
    let ci = c as int;
    let di = d as int;
    // the full product expands to the four partial products
    assert((ai + bi) * (ci + di) == ai * ci + ai * di + bi * ci + bi * di) by {
        lemma_mul_is_distributive_add(ai + bi, ci, di);
        lemma_mul_is_distributive_add_other_way(ci, ai, bi);
        lemma_mul_is_distributive_add_other_way(di, ai, bi);
    }
    // reduce the operands of the big product
    lemma_mul_mod_noop_general(ai + bi, ci + di, ni);
    lemma_mod_twice((ai + bi) % ni * ((ci + di) % ni), ni);
    let s = (ai + bi) * (ci + di);
    assert(mul_mod(add_mod(a, b, n), add_mod(c, d, n), n) as int == s % ni);
    // peel the first subtraction
    lemma_sub_chain(s, ai * ci, bi * di, ai * di + bi * ci, ni);
    lemma_add_mod_noop(ai * di, bi * ci, ni);
}

/// `(((s % n) + n - (x % n)) % n + n - (y % n)) % n == (s - x - y) % n`.
proof fn lemma_sub_chain(s: int, x: int, y: int, rest: int, n: int)
    requires
        n > 0,
        s == x + y + rest,
    ensures
        ((((s % n) + n - (x % n)) % n + n - (y % n)) % n) == rest % n,
{
    lemma_mod_add_multiples_vanish(s % n - x % n, n);
    lemma_sub_mod_noop(s, x, n);
    lemma_mod_twice(s - x, n);
    assert(((s % n) + n - (x % n)) % n == (s - x) % n);
    lemma_mod_add_multiples_vanish((s - x) % n - y % n, n);
    lemma_sub_mod_noop(s - x, y, n);
    lemma_mod_twice(s - x - y, n);
    assert(((s - x) % n + n - (y % n)) % n == (s - x - y) % n);
}

/// Multiplying a coefficient by the inverse of the norm and back by the norm
/// recovers the coefficient.
proof fn lemma_inverse_component(a: nat, norm: nat, w: nat, n: nat)
    requires
        n > 0,
        (norm * w) % n == 1nat % n,
    ensures
        mul_mod(mul_mod(a, w, n), norm, n) == a % n,
{
    crate::field::lemma_div_cancels(a, norm, w, n);
}

/// Negating twice modulo `n` is the identity on reduced values.
proof fn lemma_neg_neg(x: nat, n: nat)
    requires
        n > 0,
        x < n,
    ensures
        sub_mod(0, sub_mod(0, x, n), n) == x,
{
    if x == 0 {
        vstd::arithmetic::div_mod::lemma_mod_self_0(n as int);
        assert(sub_mod(0, 0, n) == 0);
    } else {
        lemma_small_mod((n - x) as nat, n);
        assert(sub_mod(0, x, n) == n - x);
        lemma_small_mod(x, n);
        assert(sub_mod(0, (n - x) as nat, n) == x);
    }
}

} // verus!
