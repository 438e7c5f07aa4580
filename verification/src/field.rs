//! Error taxonomy for field construction and field operations.

use vstd::prelude::*;

verus! {

use vstd::arithmetic::power2::{pow2, lemma_pow2_pos};
use vstd::arithmetic::div_mod::{
    lemma_small_mod,
    lemma_mod_bound,
    lemma_mod_add_multiples_vanish,
    lemma_mul_mod_noop_right,
    lemma_mul_mod_noop_left,
    lemma_mul_mod_noop_general,
};
use vstd::arithmetic::power::{
    pow,
    lemma_pow0,
    lemma_pow1,
    lemma_pow_adds,
    lemma_pow_multiplies,
    lemma_pow_mod_noop,
    lemma_square_is_pow2,
};
use vstd::arithmetic::mul::{
    lemma_mul_basics,
    lemma_mul_is_commutative,
    lemma_mul_is_associative,
    lemma_mul_is_distributive_add,
    lemma_mul_by_zero_is_zero,
    lemma_mul_left_inequality,
};
use crate::limbs::{l4, add4, sub4, ct_lt, lemma_l4_bound, lemma_l4_injective};
use crate::montgomery::{
    MontgomeryConstants,
    constants_wf,
    mont_mul,
    mont_r_inv,
    lemma_mont_r_inv,
    lemma_cancel_r,
    lemma_val_mul,
    lemma_val_linear,
    lemma_val_add,
    lemma_val_sub,
    lemma_val_new,
    lemma_val_canon,
    lemma_prod_bound,
    cond_sub,
    lemma_odd_modulus_bounds,
};

/// Errors surfaced by field construction and field operations.
///
/// A non-invertible element is an expected, recoverable outcome; an even
/// modulus is a configuration error caught at field-construction time.
#[derive(Clone, Debug, PartialEq, Eq)]
pub enum FieldError {
    /// Division by zero, or inversion of a non-invertible element.
    DivisionByZero,
    /// A value that does not denote a valid field element.
    InvalidElement,
    /// The modulus is even, so Montgomery arithmetic cannot be set up.
    NonPrimeModulus,
}

/// Modular addition of canonical values.
pub open spec fn add_mod(a: nat, b: nat, n: nat) -> nat {
    (a + b) % n
}

/// Modular subtraction of canonical values (`b` at most `n`).
pub open spec fn sub_mod(a: nat, b: nat, n: nat) -> nat {
    (((a + n) - b) % (n as int)) as nat
}

/// Modular multiplication of canonical values.
pub open spec fn mul_mod(a: nat, b: nat, n: nat) -> nat {
    (a * b) % n
}

/// An element of a prime field, held in Montgomery form together with the
/// constants derived from its modulus. Every element is kept fully reduced:
/// its representative is below the modulus.
#[derive(Clone, Copy, Debug)]
pub struct Fp {
    /// The Montgomery representative, always fully reduced below the modulus.
    pub value: [u64; 4],
    /// The constants of the field this element belongs to.
    pub constants: MontgomeryConstants,
}

/// Well-formedness: valid constants and a fully reduced representative.
pub open spec fn fp_wf(x: Fp) -> bool {
    &&& constants_wf(x.constants)
    &&& l4(x.value) < l4(x.constants.modulus)
}

/// The modulus of the field an element belongs to.
pub open spec fn fp_modulus(x: Fp) -> nat {
    l4(x.constants.modulus)
}

/// The canonical value of an element: its Montgomery representative times
/// the inverse of `R`, reduced modulo the modulus.
pub open spec fn fp_val(x: Fp) -> nat {
    (l4(x.value) * mont_r_inv(x.constants)) % l4(x.constants.modulus)
}

/// Operation compatibility: both operands carry the same constants.
pub open spec fn fp_same_field(a: Fp, b: Fp) -> bool {
    a.constants == b.constants
}

/// The canonical value is always below the modulus.
pub proof fn lemma_fp_val_bound(x: Fp)
    requires
        fp_wf(x),
    ensures
        fp_val(x) < fp_modulus(x),
{
    lemma_odd_modulus_bounds(x.constants.modulus);
    lemma_mod_bound((l4(x.value) * mont_r_inv(x.constants)) as int, l4(x.constants.modulus) as int);
}

/// Equal canonical values mean equal representatives: comparing the fully
/// reduced Montgomery forms limb for limb decides equality of values.
pub proof fn lemma_fp_eq_iff_val(a: Fp, b: Fp)
    requires
        fp_wf(a),
        fp_wf(b),
        fp_same_field(a, b),
    ensures
        (fp_val(a) == fp_val(b)) <==> (a.value == b.value),
{
    lemma_odd_modulus_bounds(a.constants.modulus);
    let n = l4(a.constants.modulus) as int;
    let k = mont_r_inv(a.constants) as int;
    let bigr = pow2(256) as int;
    if fp_val(a) == fp_val(b) {
        lemma_mont_r_inv(a.constants);
        lemma_mul_is_commutative(bigr, k);
        lemma_cancel_r(l4(a.value) as int, l4(b.value) as int, n, bigr, k);
        lemma_small_mod(l4(a.value), l4(a.constants.modulus));
        lemma_small_mod(l4(b.value), l4(b.constants.modulus));
        assert(l4(a.value) == l4(b.value));
        lemma_l4_injective(a.value, b.value);
        assert(a.value =~= b.value);
    }
}

impl Fp {
    /// Creates a new field element: the given limbs, reduced modulo the
    /// modulus, entered into Montgomery form by a multiplication with `R^2`.
    pub fn new(value: [u64; 4], constants: &MontgomeryConstants) -> (r: Fp)
        requires
            constants_wf(*constants),
        ensures
            fp_wf(r),
            r.constants == *constants,
            fp_val(r) == l4(value) % l4(constants.modulus),
    {
        proof {
            lemma_odd_modulus_bounds(constants.modulus);
            lemma_l4_bound(value);
            lemma_pow2_pos(512);
            lemma_mod_bound(pow2(512) as int, l4(constants.modulus) as int);
            lemma_prod_bound(
                l4(value),
                l4(constants.r_squared),
                pow2(256),
                l4(constants.modulus),
            );
            lemma_mul_is_commutative(pow2(256) as int, l4(constants.modulus) as int);
        }
        let m = mont_mul(&value, &constants.r_squared, &constants.modulus, &constants.n_prime);
        let r = Fp { value: m, constants: *constants };
        proof {
            lemma_mont_r_inv(*constants);
            lemma_val_new(
                l4(m),
                l4(value),
                l4(constants.r_squared),
                l4(constants.modulus),
                mont_r_inv(*constants),
            );
        }
        r
    }

    /// The additive identity.
    pub fn zero(constants: &MontgomeryConstants) -> (r: Fp)
        requires
            constants_wf(*constants),
        ensures
            fp_wf(r),
            r.constants == *constants,
            fp_val(r) == 0,
    {
        let r = Fp { value: [0, 0, 0, 0], constants: *constants };
        proof {
            lemma_odd_modulus_bounds(constants.modulus);
            crate::limbs::lemma_limb_powers();
            assert(l4(r.value) == 0);
            lemma_mul_by_zero_is_zero(mont_r_inv(*constants) as int);
            lemma_small_mod(0, l4(constants.modulus));
        }
        r
    }

    /// The multiplicative identity, `1` in Montgomery form.
    pub fn one(constants: &MontgomeryConstants) -> (r: Fp)
        requires
            constants_wf(*constants),
        ensures
            fp_wf(r),
            r.constants == *constants,
            fp_val(r) == 1nat % l4(constants.modulus),
    {
        proof {
            crate::limbs::lemma_limb_powers();
        }
        let r = Fp::new([1, 0, 0, 0], constants);
        proof {
            assert(l4([1u64, 0u64, 0u64, 0u64]) == 1);
        }
        r
    }

    /// Read-only access to the field constants, for constructing further
    /// elements of the same field.
    pub fn context(&self) -> (r: &MontgomeryConstants)
        ensures
            *r == self.constants,
    {
        &self.constants
    }

    /// The modulus of this element's field, as limbs.
    pub fn modulus(&self) -> (r: [u64; 4])
        ensures
            r == self.constants.modulus,
            l4(r) == fp_modulus(*self),
    {
        self.constants.modulus
    }

    /// Whether this element is the additive identity.
    pub fn is_zero(&self) -> (r: bool)
        requires
            fp_wf(*self),
        ensures
            r == (fp_val(*self) == 0),
    {
        let r = self.value[0] == 0 && self.value[1] == 0 && self.value[2] == 0 && self.value[3]
            == 0;
        proof {
            lemma_odd_modulus_bounds(self.constants.modulus);
            crate::limbs::lemma_l4_zero(self.value);
            let zero_elem = Fp { value: [0, 0, 0, 0], constants: self.constants };
            crate::limbs::lemma_limb_powers();
            assert(l4(zero_elem.value) == 0);
            lemma_mul_by_zero_is_zero(mont_r_inv(self.constants) as int);
            lemma_small_mod(0, l4(self.constants.modulus));
            assert(fp_val(zero_elem) == 0);
            lemma_fp_eq_iff_val(*self, zero_elem);
            if r {
                assert(self.value =~= zero_elem.value);
            } else {
                assert(!(self.value =~= zero_elem.value));
                assert(self.value != zero_elem.value);
            }
        }
        r
    }

    /// Whether this element is the multiplicative identity.
    pub fn is_one(&self) -> (r: bool)
        requires
            fp_wf(*self),
        ensures
            r == (fp_val(*self) == 1nat % fp_modulus(*self)),
    {
        let o = Fp::one(&self.constants);
        let r = self.value[0] == o.value[0] && self.value[1] == o.value[1] && self.value[2]
            == o.value[2] && self.value[3] == o.value[3];
        proof {
            lemma_fp_eq_iff_val(*self, o);
            if r {
                assert(self.value =~= o.value);
            } else {
                assert(!(self.value =~= o.value));
            }
        }
        r
    }

    /// Field addition: limb-wise carry addition with a single conditional
    /// subtraction of the modulus.
    pub fn add(&self, other: &Fp) -> (r: Fp)
        requires
            fp_wf(*self),
            fp_wf(*other),
            fp_same_field(*self, *other),
        ensures
            fp_wf(r),
            r.constants == self.constants,
            fp_val(r) == add_mod(fp_val(*self), fp_val(*other), fp_modulus(*self)),
    {
        proof {
            lemma_odd_modulus_bounds(self.constants.modulus);
        }
        let (s, c) = add4(&self.value, &other.value);
        let v = cond_sub(&s, c, &self.constants.modulus);
        let r = Fp { value: v, constants: self.constants };
        proof {
            let n = l4(self.constants.modulus) as int;
            let k = mont_r_inv(self.constants) as int;
            let ma = l4(self.value) as int;
            let mb = l4(other.value) as int;
            // v == (ma + mb) % n, so v == ma + mb (mod n)
            lemma_mod_mod_self(ma + mb, n);
            lemma_val_linear(l4(v) as int, ma + mb, n, k);
            lemma_val_add(ma, mb, n, k);
        }
        r
    }

    /// Field subtraction: adds the modulus first when the minuend is
    /// smaller, then subtracts limb-wise.
    pub fn sub(&self, other: &Fp) -> (r: Fp)
        requires
            fp_wf(*self),
            fp_wf(*other),
            fp_same_field(*self, *other),
        ensures
            fp_wf(r),
            r.constants == self.constants,
            fp_val(r) == sub_mod(fp_val(*self), fp_val(*other), fp_modulus(*self)),
    {
        proof {
            lemma_odd_modulus_bounds(self.constants.modulus);
            lemma_l4_bound(self.value);
            lemma_l4_bound(other.value);
        }
        let n = l4_ghost_modulus(self);
        let smaller = ct_lt(&self.value, &other.value);
        let v: [u64; 4];
        if smaller {
            let (t, c1) = add4(&self.value, &self.constants.modulus);
            let (d, b) = sub4(&t, &other.value);
            proof {
                lemma_l4_bound(t);
                lemma_l4_bound(d);
                crate::limbs::lemma_limb_powers();
                assert(b == c1);
            }
            v = d;
        } else {
            let (d, b) = sub4(&self.value, &other.value);
            proof {
                lemma_l4_bound(d);
                if b == 1 {
                    assert(l4(d) == l4(self.value) + pow2(256) - l4(other.value));
                    assert(l4(d) >= pow2(256));
                }
                assert(b == 0);
            }
            v = d;
        }
        let r = Fp { value: v, constants: self.constants };
        proof {
            let ni = l4(self.constants.modulus) as int;
            let k = mont_r_inv(self.constants) as int;
            let ma = l4(self.value) as int;
            let mb = l4(other.value) as int;
            // v == ma + n - mb (mod n), reduced
            if smaller {
                assert(l4(v) as int == ma + ni - mb);
            } else {
                assert(l4(v) as int == ma - mb);
                lemma_mod_add_multiples_vanish(ma - mb, ni);
            }
            lemma_mod_mod_self(ma + ni - mb, ni);
            lemma_val_linear(l4(v) as int, ma + ni - mb, ni, k);
            lemma_val_sub(ma, mb, ni, k);
        }
        r
    }

    /// Additive inverse: `N - value` for a nonzero element, zero otherwise.
    pub fn neg(&self) -> (r: Fp)
        requires
            fp_wf(*self),
        ensures
            fp_wf(r),
            r.constants == self.constants,
            fp_val(r) == sub_mod(0, fp_val(*self), fp_modulus(*self)),
    {
        let z = Fp::zero(&self.constants);
        z.sub(self)
    }

    /// Field multiplication through the Montgomery engine.
    pub fn mul(&self, other: &Fp) -> (r: Fp)
        requires
            fp_wf(*self),
            fp_wf(*other),
            fp_same_field(*self, *other),
        ensures
            fp_wf(r),
            r.constants == self.constants,
            fp_val(r) == mul_mod(fp_val(*self), fp_val(*other), fp_modulus(*self)),
    {
        proof {
            lemma_odd_modulus_bounds(self.constants.modulus);
            lemma_mul_bounds_helper(
                l4(self.value),
                l4(other.value),
                l4(self.constants.modulus),
            );
        }
        let m = mont_mul(
            &self.value,
            &other.value,
            &self.constants.modulus,
            &self.constants.n_prime,
        );
        let r = Fp { value: m, constants: self.constants };
        proof {
            lemma_mont_r_inv(self.constants);
            lemma_val_mul(
                l4(m),
                l4(self.value),
                l4(other.value),
                l4(self.constants.modulus),
                mont_r_inv(self.constants),
            );
        }
        r
    }

    /// Field squaring: the double-width product of the element with itself,
    /// reduced through the same Montgomery reduction path as multiplication.
    pub fn square(&self) -> (r: Fp)
        requires
            fp_wf(*self),
        ensures
            fp_wf(r),
            r.constants == self.constants,
            fp_val(r) == mul_mod(fp_val(*self), fp_val(*self), fp_modulus(*self)),
    {
        self.mul(self)
    }

    /// Leaves Montgomery form: the canonical value of the element, as limbs.
    pub fn from_montgomery(&self) -> (r: [u64; 4])
        requires
            fp_wf(*self),
        ensures
            l4(r) == fp_val(*self),
    {
        let one_limbs: [u64; 4] = [1, 0, 0, 0];
        proof {
            lemma_odd_modulus_bounds(self.constants.modulus);
            lemma_l4_bound(self.value);
            crate::limbs::lemma_limb_powers();
            assert(l4(one_limbs) == 1);
            lemma_mul_basics(l4(self.value) as int);
            lemma_mul_strict_upper_bound_one(l4(self.value), l4(self.constants.modulus));
        }
        let c = mont_mul(
            &self.value,
            &one_limbs,
            &self.constants.modulus,
            &self.constants.n_prime,
        );
        proof {
            lemma_mul_basics(l4(self.value) as int);
            lemma_mont_r_inv(self.constants);
            lemma_val_canon(
                l4(c),
                l4(self.value),
                l4(self.constants.modulus),
                mont_r_inv(self.constants),
            );
        }
        c
    }

    /// The canonical (non-Montgomery) value of the element.
    pub fn get_value(&self) -> (r: [u64; 4])
        requires
            fp_wf(*self),
        ensures
            l4(r) == fp_val(*self),
    {
        self.from_montgomery()
    }

    /// A uniformly drawn field element: random limbs reduced modulo the
    /// modulus. Nothing is promised of the draw beyond well-formedness.
    pub fn random(constants: &MontgomeryConstants) -> (r: Fp)
        requires
            constants_wf(*constants),
        ensures
            fp_wf(r),
            r.constants == *constants,
    {
        let limbs = random_limbs();
        Fp::new(limbs, constants)
    }
}

/// One step of square-and-multiply: squaring the base and halving the
/// exponent preserves the running product.
proof fn lemma_pow_halving(vr: int, vb: int, e: nat, n: int)
    requires
        n > 0,
        e > 0,
    ensures
        e % 2 == 1 ==> ((((vr * vb) % n) * pow((vb * vb) % n, (e / 2) as nat)) % n == (vr * pow(
            vb,
            e,
        )) % n),
        e % 2 == 0 ==> ((vr % n) * pow((vb * vb) % n, (e / 2) as nat)) % n == (vr * pow(vb, e))
            % n,
{
    let e2 = (e / 2) as nat;
    lemma_pow_mod_noop(vb * vb, e2, n);
    lemma_square_is_pow2(vb);
    lemma_pow_multiplies(vb, 2, e2);
    assert(pow((vb * vb) % n, e2) % n == pow(vb, 2 * e2) % n);
    if e % 2 == 1 {
        // vb * pow(vb, e - 1) == pow(vb, e)
        assert(2 * e2 == e - 1);
        lemma_pow_adds(vb, 1, (e - 1) as nat);
        lemma_pow1(vb);
        assert(vb * pow(vb, (e - 1) as nat) == pow(vb, e));
        // reduce the power factor, substitute, then recombine
        lemma_mul_mod_noop_right((vr * vb) % n, pow((vb * vb) % n, e2), n);
        lemma_mul_mod_noop_right((vr * vb) % n, pow(vb, (e - 1) as nat), n);
        lemma_mul_mod_noop_general(vr * vb, pow(vb, (e - 1) as nat), n);
        assert((((vr * vb) % n) * (pow(vb, (e - 1) as nat) % n)) % n == ((vr * vb) * pow(
            vb,
            (e - 1) as nat,
        )) % n);
        lemma_mul_is_associative(vr, vb, pow(vb, (e - 1) as nat));
    } else {
        assert(2 * e2 == e);
        lemma_mul_mod_noop_right(vr % n, pow((vb * vb) % n, e2), n);
        lemma_mul_mod_noop_right(vr % n, pow(vb, e), n);
        lemma_mul_mod_noop_general(vr, pow(vb, e), n);
        assert(((vr % n) * (pow(vb, e) % n)) % n == (vr * pow(vb, e)) % n);
    }
}

impl Fp {
    /// Binary exponentiation: square-and-multiply over the field's own
    /// multiplication, scanning the exponent bits from least significant.
    pub fn pow(&self, exp: u64) -> (r: Fp)
        requires
            fp_wf(*self),
        ensures
            fp_wf(r),
            r.constants == self.constants,
            fp_val(r) as int == pow(fp_val(*self) as int, exp as nat) % (fp_modulus(*self) as int),
    {
        proof {
            lemma_odd_modulus_bounds(self.constants.modulus);
        }
        let ghost vs: int = fp_val(*self) as int;
        let ghost nn: int = fp_modulus(*self) as int;
        let mut result = Fp::one(&self.constants);
        let mut base = *self;
        let mut e: u64 = exp;
        proof {
            lemma_pow0(vs);
            lemma_mul_mod_noop_general(1, pow(vs, exp as nat), nn);
            lemma_mul_basics(pow(vs, exp as nat));
            assert((fp_val(result) * pow(fp_val(base) as int, e as nat)) % nn == pow(
                vs,
                exp as nat,
            ) % nn);
        }
        while e > 0
            invariant
                fp_wf(result),
                fp_wf(base),
                result.constants == self.constants,
                base.constants == self.constants,
                nn == fp_modulus(*self) as int,
                nn > 0,
                vs == fp_val(*self) as int,
                (fp_val(result) * pow(fp_val(base) as int, e as nat)) % nn == pow(vs, exp as nat)
                    % nn,
            decreases e,
        {
            let ghost vr: int = fp_val(result) as int;
            let ghost vb: int = fp_val(base) as int;
            proof {
                lemma_pow_halving(vr, vb, e as nat, nn);
                lemma_fp_val_bound(result);
                lemma_small_mod(fp_val(result), fp_modulus(*self));
            }
            if e % 2 == 1 {
                result = result.mul(&base);
            }
            base = base.square();
            e = e / 2;
        }
        proof {
            lemma_pow0(fp_val(base) as int);
            lemma_mul_basics(fp_val(result) as int);
            lemma_fp_val_bound(result);
            lemma_small_mod(fp_val(result), fp_modulus(*self));
            assert(fp_val(result) as int % nn == pow(vs, exp as nat) % nn);
        }
        result
    }

    /// Field division: multiplication by the inverse of the divisor. The
    /// divisor must be invertible; [`Fp::inverse`] reports whether it is.
    pub fn div(&self, other: &Fp) -> (r: Fp)
        requires
            fp_wf(*self),
            fp_wf(*other),
            fp_same_field(*self, *other),
            exists|w: nat| #[trigger] ((fp_val(*other) * w) % fp_modulus(*other)) == 1nat
                % fp_modulus(*other),
        ensures
            fp_wf(r),
            r.constants == self.constants,
            mul_mod(fp_val(r), fp_val(*other), fp_modulus(*self)) == fp_val(*self) % fp_modulus(
                *self,
            ),
    {
        let inv = other.inverse();
        match inv {
            Some(i) => {
                let r = self.mul(&i);
                proof {
                    lemma_div_cancels(
                        fp_val(*self),
                        fp_val(*other),
                        fp_val(i),
                        fp_modulus(*self),
                    );
                }
                r
            },
            None => {
                proof {
                    let w = choose|w: nat|
                        #[trigger] ((fp_val(*other) * w) % fp_modulus(*other)) == 1nat
                            % fp_modulus(*other);
                    assert(false);
                }
                *self
            },
        }
    }

    /// Batch inversion by the accumulated-product trick: one field inversion
    /// and a linear number of multiplications invert every element of the
    /// slice in place. An input containing a zero element (or any other
    /// non-invertible element) is rejected and the slice is left unchanged.
    pub fn batch_invert(elements: &mut Vec<Fp>) -> (r: Result<(), FieldError>)
        requires
            forall|i: int|
                0 <= i < old(elements).len() ==> fp_wf(#[trigger] old(elements)[i])
                    && old(elements)[i].constants == old(elements)[0].constants,
        ensures
            final(elements).len() == old(elements).len(),
            match r {
                Ok(()) => forall|i: int|
                    0 <= i < final(elements).len() ==> fp_wf(#[trigger] final(elements)[i])
                        && final(elements)[i].constants == old(elements)[i].constants && mul_mod(
                        fp_val(old(elements)[i]),
                        fp_val(final(elements)[i]),
                        fp_modulus(final(elements)[i]),
                    ) == 1nat % fp_modulus(final(elements)[i]),
                Err(e) => *final(elements) == *old(elements) && e == FieldError::DivisionByZero && (
                (exists|i: int|
                    0 <= i < old(elements).len() && fp_val(#[trigger] old(elements)[i]) == 0) || (
                forall|w: nat|
                    #[trigger] ((prefix_prod(old(elements)@, old(elements).len() as int) * w)
                        % fp_modulus(old(elements)[0])) != 1nat % fp_modulus(old(elements)[0]))),
            },
    {
        if elements.len() == 0 {
            return Ok(());
        }
        let constants = *elements[0].context();
        let ghost n0: nat = fp_modulus(elements@[0]);
        proof {
            lemma_odd_modulus_bounds(constants.modulus);
        }
        // Forward pass: prefix products, with a zero check up front.
        let mut products: Vec<Fp> = Vec::new();
        let mut acc = Fp::one(&constants);
        let mut idx: usize = 0;
        while idx < elements.len()
            invariant
                idx <= elements.len(),
                elements == old(elements),
                elements.len() > 0,
                constants == elements@[0].constants,
                constants_wf(constants),
                0 < n0,
                n0 == fp_modulus(elements@[0]),
                forall|i: int|
                    0 <= i < elements.len() ==> fp_wf(#[trigger] elements[i])
                        && elements[i].constants == constants,
                products.len() == idx,
                fp_wf(acc),
                acc.constants == constants,
                fp_val(acc) == prefix_prod(elements@, idx as int),
                forall|i: int|
                    0 <= i < idx ==> fp_wf(#[trigger] products[i]) && products[i].constants
                        == constants && fp_val(products[i]) == prefix_prod(elements@, i),
            decreases elements.len() - idx,
        {
            let e = elements[idx];
            if e.is_zero() {
                proof {
                    assert(*elements == *old(elements));
                    assert(fp_val(old(elements)[idx as int]) == 0);
                    assert(exists|i: int|
                        0 <= i < old(elements).len() && fp_val(#[trigger] old(elements)[i]) == 0);
                }
                return Err(FieldError::DivisionByZero);
            }
            products.push(acc);
            acc = acc.mul(&e);
            idx = idx + 1;
        }
        // One inversion of the accumulated product.
        let total_inv = acc.inverse();
        let mut inv = match total_inv {
            Some(i) => i,
            None => {
                proof {
                    assert(*elements == *old(elements));
                    assert(fp_val(acc) == prefix_prod(old(elements)@, old(elements).len() as int));
                    assert(fp_modulus(acc) == fp_modulus(old(elements)[0]));
                    assert(forall|w: nat|
                        #[trigger] ((prefix_prod(old(elements)@, old(elements).len() as int) * w)
                            % fp_modulus(old(elements)[0])) != 1nat % fp_modulus(
                            old(elements)[0],
                        ));
                }
                return Err(FieldError::DivisionByZero);
            },
        };
        proof {
            lemma_mul_is_commutative(
                prefix_prod(elements@, elements.len() as int) as int,
                fp_val(inv) as int,
            );
        }
        // Backward pass: peel one factor per step.
        let ghost orig = elements@;
        let mut j: usize = elements.len();
        while j > 0
            invariant
                j <= elements.len(),
                elements.len() == orig.len(),
                elements.len() > 0,
                constants_wf(constants),
                0 < n0,
                n0 == fp_modulus(orig[0]),
                products.len() == orig.len(),
                fp_wf(inv),
                inv.constants == constants,
                forall|i: int| 0 <= i < j ==> #[trigger] elements[i] == orig[i],
                forall|i: int|
                    0 <= i < orig.len() ==> fp_wf(#[trigger] orig[i]) && orig[i].constants
                        == constants,
                forall|i: int|
                    0 <= i < products.len() ==> fp_wf(#[trigger] products[i])
                        && products[i].constants == constants && fp_val(products[i]) == prefix_prod(
                        orig,
                        i,
                    ),
                forall|i: int|
                    j <= i < elements.len() ==> fp_wf(#[trigger] elements[i])
                        && elements[i].constants == constants && mul_mod(
                        fp_val(orig[i]),
                        fp_val(elements[i]),
                        n0,
                    ) == 1nat % n0,
                (prefix_prod(orig, j as int) * fp_val(inv)) % n0 == 1nat % n0,
            decreases j,
        {
            j = j - 1;
            let e_old = elements[j];
            let p = products[j];
            let tmp = e_old.mul(&inv);
            let e_new = p.mul(&inv);
            proof {
                assert(elements@[j as int] == orig[j as int]);
                assert(prefix_prod(orig, j as int + 1) == (prefix_prod(orig, j as int) * fp_val(
                    orig[j as int],
                )) % n0);
                lemma_batch_step(
                    fp_val(orig[j as int]),
                    prefix_prod(orig, j as int),
                    fp_val(inv),
                    prefix_prod(orig, j as int + 1),
                    n0,
                );
            }
            elements.set(j, e_new);
            inv = tmp;
        }
        Ok(())
    }
}

/// The product of the canonical values of the first `i` elements, reduced.
pub open spec fn prefix_prod(s: Seq<Fp>, i: int) -> nat
    decreases i,
{
    if i <= 0 || s.len() == 0 {
        1nat % fp_modulus(s[0])
    } else {
        (prefix_prod(s, i - 1) * fp_val(s[i - 1])) % fp_modulus(s[0])
    }
}

/// One step of the backward pass of batch inversion: if `vinv` inverts the
/// product over a prefix extended by `e`, then `p * vinv` inverts `e` and
/// `e * vinv` inverts the shorter prefix product `p`.
proof fn lemma_batch_step(e: nat, p: nat, vinv: nat, p1: nat, n: nat)
    requires
        n > 0,
        p1 == (p * e) % n,
        (p1 * vinv) % n == 1nat % n,
    ensures
        (((p * vinv) % n) * e) % n == 1nat % n,
        (e * ((e * vinv) % n)) % n == (e * e * vinv) % n,
        (((e * vinv) % n) * p) % n == 1nat % n,
        (e * ((p * vinv) % n)) % n == 1nat % n,
{
    let ei = e as int;
    let pi = p as int;
    let vi = vinv as int;
    let ni = n as int;
    // ((p vinv) % n) e == p vinv e == (p e) vinv == p1 vinv == 1 (mod n)
    lemma_mul_mod_noop_left(pi * vi, ei, ni);
    assert((((pi * vi) % ni) * ei) % ni == ((pi * vi) * ei) % ni);
    assert((pi * vi) * ei == (pi * ei) * vi) by {
        lemma_mul_is_associative(pi, vi, ei);
        lemma_mul_is_commutative(vi, ei);
        lemma_mul_is_associative(pi, ei, vi);
    }
    lemma_mul_mod_noop_left(pi * ei, vi, ni);
    assert(((pi * ei) * vi) % ni == (((pi * ei) % ni) * vi) % ni);
    lemma_mul_mod_noop_left(p1 as int, vi, ni);
    assert((((p * vinv) % n) * e) % n == 1nat % n);
    // ((e vinv) % n) p is the same product in another order
    lemma_mul_mod_noop_left(ei * vi, pi, ni);
    assert((((ei * vi) % ni) * pi) % ni == ((ei * vi) * pi) % ni);
    assert((ei * vi) * pi == (pi * ei) * vi) by {
        lemma_mul_is_associative(ei, vi, pi);
        lemma_mul_is_commutative(vi, pi);
        lemma_mul_is_associative(ei, pi, vi);
        lemma_mul_is_commutative(ei, pi);
    }
    assert((((e * vinv) % n) * p) % n == 1nat % n);
    // commuted form used for the element ensures
    lemma_mul_is_commutative((pi * vi) % ni, ei);
    assert((e * ((p * vinv) % n)) % n == 1nat % n);
    lemma_mul_mod_noop_right(ei, ei * vi, ni);
    lemma_mul_is_associative(ei, ei, vi);
}

/// The limbs of the scalar-field modulus of the 254-bit pairing curve.
pub open spec fn bn254_scalar_modulus_limbs() -> [u64; 4] {
    [0x43e1f593f0000001, 0x2833e84879b97091, 0xb85045b68181585d, 0x30644e72e131a029]
}

impl Fp {
    /// Creates a field element from a single word.
    pub fn from_u64(value: u64, constants: &MontgomeryConstants) -> (r: Fp)
        requires
            constants_wf(*constants),
        ensures
            fp_wf(r),
            r.constants == *constants,
            fp_val(r) == value as nat % l4(constants.modulus),
    {
        proof {
            crate::limbs::lemma_limb_powers();
        }
        let r = Fp::new([value, 0, 0, 0], constants);
        proof {
            assert(l4([value, 0u64, 0u64, 0u64]) == value as nat);
        }
        r
    }

    /// Creates an element of the scalar field of the 254-bit pairing curve,
    /// deriving that field's Montgomery constants.
    pub fn bn254_scalar(value: u64) -> (r: Fp)
        ensures
            fp_wf(r),
            r.constants.modulus == bn254_scalar_modulus_limbs(),
            fp_val(r) == value as nat % fp_modulus(r),
    {
        let modulus: [u64; 4] = [
            0x43e1f593f0000001,
            0x2833e84879b97091,
            0xb85045b68181585d,
            0x30644e72e131a029,
        ];
        proof {
            crate::limbs::lemma_l4_mod_word(modulus);
            assert(modulus == bn254_scalar_modulus_limbs());
        }
        let constants = match MontgomeryConstants::new(&modulus) {
            Ok(c) => c,
            Err(_) => {
                proof {
                    assert(false);
                }
                vstd::pervasive::unreached()
            },
        };
        Fp::from_u64(value, &constants)
    }
}

/// Relies on rand::random: draws four independent words from the
/// thread-local generator. No property of the values is assumed.
#[verifier::external_body]
fn random_limbs() -> (r: [u64; 4]) {
    [rand::random(), rand::random(), rand::random(), rand::random()]
}

/// Ghost helper naming the modulus of an element.
fn l4_ghost_modulus(x: &Fp) -> (r: Ghost<nat>)
    ensures
        r@ == l4(x.constants.modulus),
{
    Ghost(l4(x.constants.modulus))
}

/// `x % n == x' % n` for `x' == x % n` (folding a reduction).
proof fn lemma_mod_mod_self(x: int, n: int)
    requires
        n > 0,
    ensures
        (x % n) % n == x % n,
{
    vstd::arithmetic::div_mod::lemma_mod_twice(x, n);
}

/// A product of two fully reduced values stays below `N * R`.
proof fn lemma_mul_bounds_helper(ma: nat, mb: nat, n: nat)
    requires
        ma < n,
        mb < n,
        n <= pow2(256),
        0 < n,
    ensures
        ma * mb < n * pow2(256),
{
    lemma_prod_bound(ma, mb, n, n);
    lemma_mul_left_inequality(n as int, n as int, pow2(256) as int);
}

/// A reduced representative times one stays below `N * R`.
proof fn lemma_mul_strict_upper_bound_one(x: nat, n: nat)
    requires
        x < n,
        0 < n,
    ensures
        x * 1 < n * pow2(256),
{
    lemma_mul_basics(x as int);
    lemma_pow2_pos(256);
    lemma_mul_left_inequality(n as int, 1, pow2(256) as int);
    lemma_mul_basics(n as int);
}

/// Divisibility of naturals: `d` divides `x`.
pub open spec fn divides(d: nat, x: nat) -> bool {
    exists|q: nat| x == #[trigger] (d * q)
}

/// Divisibility survives doubling of the dividend.
proof fn lemma_div_transfer_double(d: nat, half: nat, whole: nat)
    requires
        divides(d, half),
        whole == 2 * half,
    ensures
        divides(d, whole),
{
    let q = choose|q: nat| half == #[trigger] (d * q);
    assert(whole == d * (2 * q)) by (nonlinear_arith)
        requires
            half == d * q && whole == 2 * half,
    ;
}

/// Divisibility of both summands gives divisibility of the sum.
proof fn lemma_div_transfer_sum(d: nat, a: nat, b: nat)
    requires
        divides(d, a),
        divides(d, b),
    ensures
        divides(d, a + b),
{
    let qa = choose|q: nat| a == #[trigger] (d * q);
    let qb = choose|q: nat| b == #[trigger] (d * q);
    assert(a + b == d * (qa + qb)) by (nonlinear_arith)
        requires
            a == d * qa && b == d * qb,
    ;
}

/// Divisibility survives multiplication of the dividend.
proof fn lemma_div_transfer_mul(d: nat, x: nat, y: nat)
    requires
        divides(d, x),
    ensures
        divides(d, x * y),
{
    let q = choose|q: nat| x == #[trigger] (d * q);
    assert(x * y == d * (q * y)) by (nonlinear_arith)
        requires
            x == d * q,
    ;
}

/// Every value divides itself and zero.
proof fn lemma_divides_basics(v: nat)
    ensures
        divides(v, v),
        divides(v, 0),
{
    lemma_mul_basics(v as int);
    assert(v == v * 1);
    assert(0nat == v * 0) by {
        lemma_mul_by_zero_is_zero(v as int);
    }
}

/// A common divisor of `alpha` and `n` that exceeds one rules out any
/// multiplicative inverse of `alpha` modulo `n`.
proof fn lemma_common_divisor_no_inverse(alpha: nat, n: nat, g: nat, w: nat)
    requires
        divides(g, alpha),
        divides(g, n),
        g >= 2,
        n >= 1,
    ensures
        (alpha * w) % n != 1nat % n,
{
    // n >= g >= 2, so 1 % n == 1.
    let qn = choose|q: nat| n == #[trigger] (g * q);
    assert(qn >= 1) by {
        if qn == 0 {
            lemma_mul_by_zero_is_zero(g as int);
        }
    }
    assert(n >= g) by (nonlinear_arith)
        requires
            n == g * qn && qn >= 1 && g >= 2,
    ;
    lemma_small_mod(1, n);
    if (alpha * w) % n == 1nat % n {
        lemma_div_transfer_mul(g, alpha, w);
        let p = alpha * w;
        vstd::arithmetic::div_mod::lemma_fundamental_div_mod(p as int, n as int);
        lemma_mod_bound(p as int, n as int);
        let quot = p as int / n as int;
        assert(quot >= 0) by {
            vstd::arithmetic::div_mod::lemma_div_pos_is_pos(p as int, n as int);
        }
        assert(p == n * (quot as nat) + 1);
        lemma_div_transfer_mul(g, n, quot as nat);
        let qa = choose|q: nat| p == #[trigger] (g * q);
        let qb = choose|q: nat| n * (quot as nat) == #[trigger] (g * q);
        assert(g * qa == g * qb + 1);
        assert(false) by (nonlinear_arith)
            requires
                g * qa == g * qb + 1 && g >= 2,
        ;
    }
}

/// Modular subtraction of two reduced four-limb values: adds the modulus
/// first when the minuend is smaller.
fn sub_mod4(a: &[u64; 4], b: &[u64; 4], n: &[u64; 4]) -> (r: [u64; 4])
    requires
        l4(*a) < l4(*n),
        l4(*b) < l4(*n),
    ensures
        l4(r) as int == (l4(*a) + l4(*n) - l4(*b)) % (l4(*n) as int),
        l4(r) < l4(*n),
{
    let smaller = ct_lt(a, b);
    if smaller {
        let (t, c1) = add4(a, n);
        let (d, bb) = sub4(&t, b);
        proof {
            lemma_l4_bound(t);
            lemma_l4_bound(d);
            crate::limbs::lemma_limb_powers();
            assert(bb == c1);
            assert(l4(d) == l4(*a) + l4(*n) - l4(*b));
            lemma_small_mod((l4(*a) + l4(*n) - l4(*b)) as nat, l4(*n));
        }
        d
    } else {
        let (d, bb) = sub4(a, b);
        proof {
            lemma_l4_bound(d);
            if bb == 1 {
                assert(l4(d) == l4(*a) + pow2(256) - l4(*b));
                assert(l4(d) >= pow2(256));
            }
            assert(bb == 0);
            assert(l4(d) == l4(*a) - l4(*b));
            lemma_mod_add_multiples_vanish(l4(*a) as int - l4(*b) as int, l4(*n) as int);
            lemma_small_mod((l4(*a) - l4(*b)) as nat, l4(*n));
        }
        d
    }
}

/// Modular halving of a reduced four-limb value under an odd modulus:
/// `2 * r == x (mod n)` with `r` reduced.
fn half_mod4(x: &[u64; 4], n: &[u64; 4]) -> (r: [u64; 4])
    requires
        l4(*x) < l4(*n),
        l4(*n) % 2 == 1,
    ensures
        (2 * l4(r)) % l4(*n) == l4(*x) % l4(*n),
        l4(r) < l4(*n),
{
    proof {
        crate::limbs::lemma_l4_mod_word(*x);
        lemma_odd_modulus_bounds(*n);
    }
    if x[0] % 2 == 0 {
        let r = crate::limbs::shr1_carry(x, 0);
        proof {
            assert(2 * l4(r) == l4(*x));
        }
        r
    } else {
        let (t, c) = add4(x, n);
        proof {
            crate::limbs::lemma_l4_mod_word(t);
            crate::limbs::lemma_limb_powers();
            lemma_pow2_pos(255);
            vstd::arithmetic::power2::lemma2_to64();
            vstd::arithmetic::power2::lemma_pow2_adds(1, 255);
            assert(pow2(256) == 2 * pow2(255));
            assert(l4(t) + (c as nat) * (2 * pow2(255)) == l4(*x) + l4(*n));
            assert((c as nat) * (2 * pow2(255)) == 2 * ((c as nat) * pow2(255))) by (nonlinear_arith);
            // the sum of two odd values is even, so the low bit of t is clear
            assert(l4(t) % 2 == 0) by {
                let h = ((l4(*x) + l4(*n)) as int - 1 - 1) / 2;
                assert(l4(*x) as int == 2 * ((l4(*x) as int - 1) / 2) + 1) by {
                    lemma_fundamental_div_mod_parity(l4(*x) as int);
                }
                assert(l4(*n) as int == 2 * ((l4(*n) as int - 1) / 2) + 1) by {
                    lemma_fundamental_div_mod_parity(l4(*n) as int);
                }
                let hx = (l4(*x) as int - 1) / 2;
                let hn = (l4(*n) as int - 1) / 2;
                assert(l4(t) as int == 2 * (hx + hn + 1 - (c as int) * pow2(255)));
                vstd::arithmetic::div_mod::lemma_mod_multiples_vanish(
                    hx + hn + 1 - (c as int) * pow2(255),
                    0,
                    2,
                );
            }
        }
        let r = crate::limbs::shr1_carry(&t, c);
        proof {
            crate::limbs::lemma_l4_mod_word(t);
            assert(2 * l4(r) == l4(*x) + l4(*n));
            lemma_mod_add_multiples_vanish(l4(*x) as int, l4(*n) as int);
            assert(l4(r) < l4(*n));
        }
        r
    }
}

/// An odd integer is one more than twice its half.
proof fn lemma_fundamental_div_mod_parity(x: int)
    requires
        x % 2 == 1,
    ensures
        x == 2 * ((x - 1) / 2) + 1,
{
    vstd::arithmetic::div_mod::lemma_fundamental_div_mod(x, 2);
    vstd::arithmetic::div_mod::lemma_fundamental_div_mod_converse_div(x - 1, 2, x / 2, 0);
}

impl Fp {
    /// The multiplicative inverse, computed by the binary extended Euclidean
    /// algorithm over the canonical values. Returns `None` exactly when no
    /// inverse exists: for the zero element, and for any element sharing a
    /// divisor greater than one with the modulus.
    pub fn inverse(&self) -> (r: Option<Fp>)
        requires
            fp_wf(*self),
        ensures
            match r {
                Some(x) => fp_wf(x) && x.constants == self.constants && mul_mod(
                    fp_val(*self),
                    fp_val(x),
                    fp_modulus(*self),
                ) == 1nat % fp_modulus(*self),
                None => forall|w: nat|
                    #[trigger] ((fp_val(*self) * w) % fp_modulus(*self)) != 1nat % fp_modulus(
                        *self,
                    ),
            },
    {
        proof {
            lemma_odd_modulus_bounds(self.constants.modulus);
            lemma_fp_val_bound(*self);
        }
        let ghost alpha: nat = fp_val(*self);
        let ghost nn: nat = fp_modulus(*self);
        let a_canon = self.from_montgomery();
        let n = self.constants.modulus;
        let mut u: [u64; 4] = a_canon;
        let mut v: [u64; 4] = n;
        let n_is_one = n[0] == 1 && n[1] == 0 && n[2] == 0 && n[3] == 0;
        let mut x1: [u64; 4] = if n_is_one {
            [0, 0, 0, 0]
        } else {
            [1, 0, 0, 0]
        };
        let mut x2: [u64; 4] = [0, 0, 0, 0];
        proof {
            crate::limbs::lemma_limb_powers();
            crate::limbs::lemma_l4_one(n);
            assert(l4(x2) == 0);
            lemma_mul_basics(alpha as int);
            lemma_mul_by_zero_is_zero(alpha as int);
            vstd::arithmetic::div_mod::lemma_mod_self_0(nn as int);
            lemma_small_mod(0, nn);
            crate::limbs::lemma_l4_mod_word(n);
            if n_is_one {
                assert(l4(x1) == 0 && alpha == 0 && l4(u) == 0);
            } else {
                assert(l4(x1) == 1 && nn > 1);
            }
            assert forall|d: nat| divides(d, l4(u)) && divides(d, l4(v)) implies divides(
                d,
                alpha,
            ) && divides(d, nn) by {}
        }
        let mut u_nonzero = !(u[0] == 0 && u[1] == 0 && u[2] == 0 && u[3] == 0);
        proof {
            crate::limbs::lemma_l4_zero(u);
        }
        while u_nonzero
            invariant
                fp_wf(*self),
                alpha == fp_val(*self),
                nn == fp_modulus(*self),
                n == self.constants.modulus,
                u_nonzero == (l4(u) != 0),
                (alpha * l4(x1)) % nn == l4(u) % nn,
                (alpha * l4(x2)) % nn == l4(v) % nn,
                l4(x1) < nn,
                l4(x2) < nn,
                l4(u) % 2 == 1 || l4(v) % 2 == 1,
                1 <= l4(v),
                l4(u) < pow2(256),
                forall|d: nat|
                    divides(d, l4(u)) && divides(d, l4(v)) ==> divides(d, alpha) && divides(d, nn),
            decreases l4(u) + l4(v),
        {
            let ghost u_old = l4(u);
            let ghost v_old = l4(v);
            let ghost x1_old = l4(x1);
            let ghost x2_old = l4(x2);
            if u[0] % 2 == 0 {
                proof {
                    crate::limbs::lemma_l4_mod_word(u);
                }
                let un = crate::limbs::shr1_carry(&u, 0);
                let x1n = half_mod4(&x1, &n);
                proof {
                    assert(2 * l4(un) == u_old);
                    lemma_half_step(alpha, x1_old, l4(x1n), u_old, l4(un), nn);
                    assert forall|d: nat|
                        divides(d, l4(un)) && divides(d, v_old) implies divides(d, alpha)
                        && divides(d, nn) by {
                        lemma_div_transfer_double(d, l4(un), u_old);
                    }
                    assert(l4(un) % 2 == 1 || l4(v) % 2 == 1);
                }
                u = un;
                x1 = x1n;
            } else if v[0] % 2 == 0 {
                proof {
                    crate::limbs::lemma_l4_mod_word(v);
                    crate::limbs::lemma_l4_mod_word(u);
                }
                let vn = crate::limbs::shr1_carry(&v, 0);
                let x2n = half_mod4(&x2, &n);
                proof {
                    assert(2 * l4(vn) == v_old);
                    lemma_half_step(alpha, x2_old, l4(x2n), v_old, l4(vn), nn);
                    assert forall|d: nat|
                        divides(d, u_old) && divides(d, l4(vn)) implies divides(d, alpha)
                        && divides(d, nn) by {
                        lemma_div_transfer_double(d, l4(vn), v_old);
                    }
                    assert(1 <= l4(vn));
                }
                v = vn;
                x2 = x2n;
            } else {
                let u_ge_v = !ct_lt(&u, &v);
                if u_ge_v {
                    let (d4, bb) = sub4(&u, &v);
                    let x1n = sub_mod4(&x1, &x2, &n);
                    proof {
                        lemma_l4_bound(d4);
                        if bb == 1 {
                            assert(l4(d4) == l4(u) + pow2(256) - l4(v));
                            assert(l4(d4) >= pow2(256));
                        }
                        assert(bb == 0);
                        assert(l4(d4) == u_old - v_old);
                        lemma_sub_step(alpha, x1_old, x2_old, l4(x1n), u_old, v_old, nn);
                        assert forall|d: nat|
                            divides(d, l4(d4)) && divides(d, v_old) implies divides(d, alpha)
                            && divides(d, nn) by {
                            lemma_div_transfer_sum(d, l4(d4), v_old);
                        }
                        crate::limbs::lemma_l4_mod_word(d4);
                        crate::limbs::lemma_l4_mod_word(u);
                        crate::limbs::lemma_l4_mod_word(v);
                    }
                    u = d4;
                    x1 = x1n;
                } else {
                    let (d4, bb) = sub4(&v, &u);
                    let x2n = sub_mod4(&x2, &x1, &n);
                    proof {
                        lemma_l4_bound(d4);
                        if bb == 1 {
                            assert(l4(d4) == l4(v) + pow2(256) - l4(u));
                            assert(l4(d4) >= pow2(256));
                        }
                        assert(bb == 0);
                        assert(l4(d4) == v_old - u_old);
                        lemma_sub_step(alpha, x2_old, x1_old, l4(x2n), v_old, u_old, nn);
                        assert forall|d: nat|
                            divides(d, u_old) && divides(d, l4(d4)) implies divides(d, alpha)
                            && divides(d, nn) by {
                            lemma_div_transfer_sum(d, l4(d4), u_old);
                        }
                        assert(1 <= l4(d4));
                    }
                    v = d4;
                    x2 = x2n;
                }
            }
            u_nonzero = !(u[0] == 0 && u[1] == 0 && u[2] == 0 && u[3] == 0);
            proof {
                crate::limbs::lemma_l4_zero(u);
            }
        }
        // u == 0, so v is a common divisor of alpha and the modulus.
        proof {
            lemma_divides_basics(l4(v));
            assert(divides(l4(v), l4(u)) && divides(l4(v), l4(v)));
            assert(divides(l4(v), alpha) && divides(l4(v), nn));
        }
        let v_is_one = v[0] == 1 && v[1] == 0 && v[2] == 0 && v[3] == 0;
        proof {
            crate::limbs::lemma_l4_one(v);
        }
        if v_is_one {
            let inv = Fp::new(x2, &self.constants);
            proof {
                lemma_small_mod(l4(x2), nn);
                assert(fp_val(inv) == l4(x2));
                assert((alpha * l4(x2)) % nn == 1nat % nn);
            }
            Some(inv)
        } else {
            proof {
                assert(l4(v) >= 2);
                assert forall|w: nat| #[trigger] ((alpha * w) % nn) != 1nat % nn by {
                    lemma_common_divisor_no_inverse(alpha, nn, l4(v), w);
                }
            }
            None
        }
    }
}

/// Halving both the tracked coefficient and the tracked value preserves the
/// defining congruence, because two is invertible modulo an odd modulus.
proof fn lemma_half_step(alpha: nat, x_old: nat, x_new: nat, t_old: nat, t_new: nat, n: nat)
    requires
        n % 2 == 1,
        n > 0,
        (alpha * x_old) % n == t_old % n,
        (2 * x_new) % n == x_old % n,
        2 * t_new == t_old,
    ensures
        (alpha * x_new) % n == t_new % n,
{
    let ai = alpha as int;
    let ni = n as int;
    // 2 * (alpha * x_new) == alpha * (2 * x_new) == alpha * x_old == t_old == 2 * t_new (mod n)
    lemma_mul_is_associative(2, ai, x_new as int);
    lemma_mul_is_commutative(2, ai);
    lemma_mul_is_associative(ai, 2, x_new as int);
    assert(2 * (ai * x_new as int) == ai * (2 * x_new as int));
    lemma_mul_mod_noop_second(ai, 2 * x_new as int, x_old as int, ni);
    assert((ai * (2 * x_new as int)) % ni == (ai * x_old as int) % ni);
    // cancel the factor 2
    let inv2 = (ni + 1) / 2;
    lemma_two_inverse(ni);
    lemma_cancel_r(ai * x_new as int, t_new as int, ni, inv2, 2);
    lemma_mul_is_commutative(ai * x_new as int, 2);
    lemma_mul_is_commutative(t_new as int, 2);
}

/// `(a * x) % n == (a * y) % n` when `x % n == y % n`.
proof fn lemma_mul_mod_noop_second(a: int, x: int, y: int, n: int)
    requires
        n > 0,
        x % n == y % n,
    ensures
        (a * x) % n == (a * y) % n,
{
    lemma_mul_mod_noop_right(a, x, n);
    lemma_mul_mod_noop_right(a, y, n);
}

/// Two has the inverse `(n + 1) / 2` modulo an odd `n`.
proof fn lemma_two_inverse(n: int)
    requires
        n % 2 == 1,
        n > 0,
    ensures
        (2 * ((n + 1) / 2)) % n == 1int % n,
{
    vstd::arithmetic::div_mod::lemma_fundamental_div_mod(n, 2);
    vstd::arithmetic::div_mod::lemma_fundamental_div_mod_converse_div(n + 1, 2, n / 2 + 1, 0);
    assert((n + 1) / 2 == n / 2 + 1);
    assert(2 * ((n + 1) / 2) == n + 1);
    vstd::arithmetic::div_mod::lemma_mod_multiples_vanish(1, 1, n);
}

/// Subtracting the tracked values and coefficients in lockstep preserves the
/// defining congruences.
proof fn lemma_sub_step(
    alpha: nat,
    xa_old: nat,
    xb_old: nat,
    xa_new: nat,
    ta_old: nat,
    tb_old: nat,
    n: nat,
)
    requires
        n > 0,
        (alpha * xa_old) % n == ta_old % n,
        (alpha * xb_old) % n == tb_old % n,
        xa_new as int == (xa_old + n - xb_old) % (n as int),
        ta_old >= tb_old,
        xa_old < n,
        xb_old < n,
    ensures
        (alpha * xa_new) % n == (ta_old - tb_old) % (n as int),
{
    let ai = alpha as int;
    let ni = n as int;
    // alpha * xa_new == alpha * (xa_old + n - xb_old) (mod n)
    vstd::arithmetic::div_mod::lemma_mod_twice(xa_old as int + ni - xb_old as int, ni);
    lemma_mul_mod_noop_second(ai, xa_new as int, xa_old as int + ni - xb_old as int, ni);
    // distribute and drop the alpha * n term
    assert(ai * (xa_old as int + ni - xb_old as int) == ai * xa_old as int - ai * xb_old as int
        + ai * ni) by {
        lemma_mul_is_distributive_add(ai, xa_old as int + ni - xb_old as int, 0);
        lemma_mul_is_distributive_sub_local(ai, xa_old as int + ni, xb_old as int);
        lemma_mul_is_distributive_add(ai, xa_old as int, ni);
    }
    lemma_mul_is_commutative(ai, ni);
    vstd::arithmetic::div_mod::lemma_mod_multiples_vanish(
        ai,
        ai * xa_old as int - ai * xb_old as int,
        ni,
    );
    assert((ai * xa_old as int - ai * xb_old as int + ni * ai) % ni == (ai * xa_old as int - ai
        * xb_old as int) % ni);
    vstd::arithmetic::div_mod::lemma_sub_mod_noop(ai * xa_old as int, ai * xb_old as int, ni);
    vstd::arithmetic::div_mod::lemma_sub_mod_noop(ta_old as int, tb_old as int, ni);
}

/// `x * (y - z) == x * y - x * z`.
proof fn lemma_mul_is_distributive_sub_local(x: int, y: int, z: int)
    ensures
        x * (y - z) == x * y - x * z,
{
    vstd::arithmetic::mul::lemma_mul_is_distributive_sub(x, y, z);
}

/// Multiplying by an element and then by its inverse cancels modulo `n`.
pub(crate) proof fn lemma_div_cancels(vs: nat, vo: nat, vi: nat, n: nat)
    requires
        n > 0,
        (vo * vi) % n == 1nat % n,
    ensures
        (((vs * vi) % n) * vo) % n == vs % n,
{
    let si = vs as int;
    let oi = vo as int;
    let ii = vi as int;
    let ni = n as int;
    lemma_mul_mod_noop_left(si * ii, oi, ni);
    assert((((si * ii) % ni) * oi) % ni == ((si * ii) * oi) % ni);
    assert((si * ii) * oi == si * (oi * ii)) by {
        lemma_mul_is_associative(si, ii, oi);
        lemma_mul_is_commutative(ii, oi);
    }
    lemma_mul_mod_noop_right(si, oi * ii, ni);
    assert((si * (oi * ii)) % ni == (si * ((oi * ii) % ni)) % ni);
    lemma_mul_mod_noop_right(si, 1, ni);
    assert((si * (1int % ni)) % ni == (si * 1) % ni);
    lemma_mul_basics(si);
}

impl PartialEq for Fp {
    /// Structural comparison of the fully reduced representative and the
    /// modulus; by [`lemma_fp_eq_iff_val`] this decides equality of values.
    fn eq(&self, other: &Self) -> (r: bool) {
        self.value[0] == other.value[0] && self.value[1] == other.value[1] && self.value[2]
            == other.value[2] && self.value[3] == other.value[3] && self.constants.modulus[0]
            == other.constants.modulus[0] && self.constants.modulus[1]
            == other.constants.modulus[1] && self.constants.modulus[2]
            == other.constants.modulus[2] && self.constants.modulus[3]
            == other.constants.modulus[3]
    }
}

impl vstd::std_specs::cmp::PartialEqSpecImpl for Fp {
    open spec fn obeys_eq_spec() -> bool {
        true
    }

    open spec fn eq_spec(&self, other: &Fp) -> bool {
        self.value[0] == other.value[0] && self.value[1] == other.value[1] && self.value[2]
            == other.value[2] && self.value[3] == other.value[3] && self.constants.modulus[0]
            == other.constants.modulus[0] && self.constants.modulus[1]
            == other.constants.modulus[1] && self.constants.modulus[2]
            == other.constants.modulus[2] && self.constants.modulus[3]
            == other.constants.modulus[3]
    }
}

impl Eq for Fp {

}

} // verus!
