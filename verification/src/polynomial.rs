//! Univariate polynomials over the prime field, with coefficients in
//! ascending order of degree; the coefficient list is kept trimmed of
//! trailing zeros (the zero polynomial keeps one zero coefficient).

use vstd::prelude::*;

verus! {

use crate::field::{Fp, fp_wf, fp_val, fp_modulus, add_mod, mul_mod};
use crate::montgomery::{MontgomeryConstants, constants_wf};
use vstd::arithmetic::div_mod::{lemma_add_mod_noop, lemma_mod_twice};

/// A univariate polynomial over the field.
#[derive(Clone, Debug)]
pub struct Polynomial {
    /// Coefficients in ascending order of degree, trimmed, never empty.
    pub coefficients: Vec<Fp>,
}

/// Well-formedness: at least one coefficient, all from one field, and no
/// trailing zero beyond the constant term.
pub open spec fn poly_wf(p: Polynomial) -> bool {
    &&& p.coefficients@.len() >= 1
    &&& forall|i: int|
        0 <= i < p.coefficients@.len() ==> fp_wf(#[trigger] p.coefficients@[i])
            && p.coefficients@[i].constants == p.coefficients@[0].constants
    &&& (p.coefficients@.len() > 1 ==> fp_val(p.coefficients@[p.coefficients@.len() - 1]) != 0)
}

/// The coefficient values of a polynomial.
pub open spec fn poly_view(p: Polynomial) -> Seq<nat> {
    p.coefficients@.map(|i: int, c: Fp| fp_val(c))
}

/// The coefficient value at index `i`, zero beyond the end.
pub open spec fn poly_get(s: Seq<nat>, i: int) -> nat {
    if 0 <= i < s.len() {
        s[i]
    } else {
        0
    }
}

/// The convolution sum at position `k`, restricted to the first `rows`
/// coefficients of `a`: the modular sum of `a[i] * b[k - i]` over the valid
/// index pairs with `i < rows`.
pub open spec fn conv_upto(a: Seq<nat>, b: Seq<nat>, k: int, rows: int, n: nat) -> nat
    decreases rows,
{
    if rows <= 0 {
        0
    } else {
        add_mod(
            conv_upto(a, b, k, rows - 1, n),
            if 0 <= k - (rows - 1) < b.len() && rows - 1 < a.len() {
                mul_mod(a[rows - 1], b[k - (rows - 1)], n)
            } else {
                0
            },
            n,
        )
    }
}

/// Horner evaluation of the coefficient suffix starting at `i`.
pub open spec fn eval_suffix(s: Seq<nat>, i: int, x: nat, n: nat) -> nat
    decreases s.len() - i,
{
    if i < 0 || i >= s.len() {
        0
    } else {
        add_mod(mul_mod(eval_suffix(s, i + 1, x, n), x, n), s[i] % n, n)
    }
}

impl Polynomial {
    /// Creates a polynomial from its coefficients, trimming trailing zero
    /// coefficients (the zero polynomial keeps a single zero coefficient).
    /// An empty coefficient list yields the zero polynomial over the base
    /// field of the 254-bit pairing curve, the library's default field.
    pub fn new(coefficients: Vec<Fp>) -> (r: Polynomial)
        requires
            forall|i: int|
                0 <= i < coefficients@.len() ==> fp_wf(#[trigger] coefficients@[i])
                    && coefficients@[i].constants == coefficients@[0].constants,
        ensures
            poly_wf(r),
            coefficients@.len() == 0 ==> r.coefficients@.len() == 1 && fp_val(r.coefficients@[0])
                == 0 && r.coefficients@[0].constants.modulus
                == crate::bn254::bn254_base_modulus_limbs(),
            coefficients@.len() > 0 ==> r.coefficients@[0].constants
                == coefficients@[0].constants,
            coefficients@.len() > 0 ==> r.coefficients@.len() <= coefficients@.len(),
            forall|i: int|
                0 <= i < r.coefficients@.len() && coefficients@.len() > 0
                    ==> #[trigger] r.coefficients@[i] == coefficients@[i],
            forall|i: int|
                r.coefficients@.len() <= i < coefficients@.len() ==> fp_val(
                    #[trigger] coefficients@[i],
                ) == 0,
    {
        if coefficients.len() == 0 {
            let modulus: [u64; 4] = [
                0x3c208c16d87cfd47,
                0x97816a916871ca8d,
                0xb85045b68181585d,
                0x30644e72e131a029,
            ];
            proof {
                crate::limbs::lemma_l4_mod_word(modulus);
                assert(modulus == crate::bn254::bn254_base_modulus_limbs());
            }
            let constants = match MontgomeryConstants::new(&modulus) {
                Ok(c) => c,
                Err(_) => {
                    proof {
                        assert(false);
                    }
                    vstd::pervasive::unreached()
                },
            };
            return Polynomial::zero(&constants);
        }
        let mut c = coefficients;
        let mut trimming = poly_trim_check(&c);
        while trimming
            invariant
                trimming ==> c@.len() > 1 && fp_val(c@[c@.len() - 1]) == 0,
                !trimming ==> c@.len() == 1 || fp_val(c@[c@.len() - 1]) != 0,
                c@.len() >= 1,
                c@.len() <= coefficients@.len(),
                forall|i: int| 0 <= i < c@.len() ==> #[trigger] c@[i] == coefficients@[i],
                forall|i: int|
                    c@.len() <= i < coefficients@.len() ==> fp_val(#[trigger] coefficients@[i])
                        == 0,
                forall|i: int|
                    0 <= i < coefficients@.len() ==> fp_wf(#[trigger] coefficients@[i])
                        && coefficients@[i].constants == coefficients@[0].constants,
            decreases c@.len(),
        {
            c.pop();
            trimming = poly_trim_check(&c);
        }
        Polynomial { coefficients: c }
    }

    /// The degree: the index of the highest (trimmed) coefficient.
    pub fn degree(&self) -> (r: usize)
        requires
            poly_wf(*self),
        ensures
            r as int == self.coefficients@.len() - 1,
    {
        self.coefficients.len() - 1
    }

    /// Read-only access to the coefficients.
    pub fn coefficients(&self) -> (r: &Vec<Fp>)
        ensures
            r == &self.coefficients,
    {
        &self.coefficients
    }

    /// The zero polynomial of a field.
    pub fn zero(constants: &MontgomeryConstants) -> (r: Polynomial)
        requires
            constants_wf(*constants),
        ensures
            poly_wf(r),
            r.coefficients@.len() == 1,
            fp_val(r.coefficients@[0]) == 0,
            r.coefficients@[0].constants == *constants,
    {
        let mut c: Vec<Fp> = Vec::new();
        c.push(Fp::zero(constants));
        Polynomial { coefficients: c }
    }

    /// Whether this is the zero polynomial.
    pub fn is_zero(&self) -> (r: bool)
        requires
            poly_wf(*self),
        ensures
            r == (self.coefficients@.len() == 1 && fp_val(self.coefficients@[0]) == 0),
    {
        if self.coefficients.len() != 1 {
            return false;
        }
        let c0 = self.coefficients[0];
        c0.is_zero()
    }
}

impl Polynomial {
    /// Pointwise polynomial addition, with the shorter operand zero-padded
    /// and the result trimmed.
    pub fn add(&self, other: &Polynomial) -> (r: Polynomial)
        requires
            poly_wf(*self),
            poly_wf(*other),
            self.coefficients@[0].constants == other.coefficients@[0].constants,
        ensures
            poly_wf(r),
            r.coefficients@[0].constants == self.coefficients@[0].constants,
            r.coefficients@.len() <= vstd::math::max(
                self.coefficients@.len() as int,
                other.coefficients@.len() as int,
            ),
            forall|i: int|
                0 <= i < r.coefficients@.len() ==> fp_val(#[trigger] r.coefficients@[i])
                    == add_mod(
                    poly_get(poly_view(*self), i),
                    poly_get(poly_view(*other), i),
                    fp_modulus(self.coefficients@[0]),
                ),
            forall|i: int|
                r.coefficients@.len() <= i < vstd::math::max(
                    self.coefficients@.len() as int,
                    other.coefficients@.len() as int,
                ) ==> add_mod(
                    poly_get(poly_view(*self), i),
                    #[trigger] poly_get(poly_view(*other), i),
                    fp_modulus(self.coefficients@[0]),
                ) == 0,
    {
        let ghost va = poly_view(*self);
        let ghost vb = poly_view(*other);
        let ghost n = fp_modulus(self.coefficients@[0]);
        let la = self.coefficients.len();
        let lb = other.coefficients.len();
        let m = if la > lb {
            la
        } else {
            lb
        };
        let constants = *self.coefficients[0].context();
        let zero = Fp::zero(&constants);
        let mut out: Vec<Fp> = Vec::new();
        let mut i: usize = 0;
        while i < m
            invariant
                i <= m,
                out@.len() == i,
                la == self.coefficients@.len(),
                lb == other.coefficients@.len(),
                m == vstd::math::max(la as int, lb as int),
                poly_wf(*self),
                poly_wf(*other),
                self.coefficients@[0].constants == other.coefficients@[0].constants,
                constants == self.coefficients@[0].constants,
                constants_wf(constants),
                fp_wf(zero) && zero.constants == constants && fp_val(zero) == 0,
                va == poly_view(*self),
                vb == poly_view(*other),
                n == fp_modulus(self.coefficients@[0]),
                forall|t: int|
                    0 <= t < i ==> fp_wf(#[trigger] out@[t]) && out@[t].constants == constants
                        && fp_val(out@[t]) == add_mod(poly_get(va, t), poly_get(vb, t), n),
            decreases m - i,
        {
            let ai = if i < la {
                self.coefficients[i]
            } else {
                zero
            };
            let bi = if i < lb {
                other.coefficients[i]
            } else {
                zero
            };
            let sum = ai.add(&bi);
            out.push(sum);
            i = i + 1;
        }
        let r = Polynomial::new(out);
        proof {
            assert forall|t: int|
                r.coefficients@.len() <= t < vstd::math::max(
                    la as int,
                    lb as int,
                ) implies add_mod(poly_get(va, t), #[trigger] poly_get(vb, t), n) == 0 by {
                assert(fp_val(out@[t]) == add_mod(poly_get(va, t), poly_get(vb, t), n));
                assert(fp_val(out@[t]) == 0);
            }
        }
        r
    }

    /// Polynomial multiplication by the convolution of the coefficients,
    /// with the result trimmed.
    pub fn mul(&self, other: &Polynomial) -> (r: Polynomial)
        requires
            poly_wf(*self),
            poly_wf(*other),
            self.coefficients@[0].constants == other.coefficients@[0].constants,
            self.coefficients@.len() + other.coefficients@.len() <= usize::MAX,
        ensures
            poly_wf(r),
            r.coefficients@[0].constants == self.coefficients@[0].constants,
            r.coefficients@.len() + 1 <= self.coefficients@.len() + other.coefficients@.len(),
            forall|k: int|
                0 <= k < r.coefficients@.len() ==> fp_val(#[trigger] r.coefficients@[k])
                    == conv_upto(
                    poly_view(*self),
                    poly_view(*other),
                    k,
                    self.coefficients@.len() as int,
                    fp_modulus(self.coefficients@[0]),
                ),
            forall|k: int|
                r.coefficients@.len() <= k < self.coefficients@.len()
                    + other.coefficients@.len() - 1 ==> #[trigger] conv_upto(
                    poly_view(*self),
                    poly_view(*other),
                    k,
                    self.coefficients@.len() as int,
                    fp_modulus(self.coefficients@[0]),
                ) == 0,
    {
        let ghost va = poly_view(*self);
        let ghost vb = poly_view(*other);
        let ghost n = fp_modulus(self.coefficients@[0]);
        let la = self.coefficients.len();
        let lb = other.coefficients.len();
        let constants = *self.coefficients[0].context();
        let zero = Fp::zero(&constants);
        let mut out: Vec<Fp> = Vec::new();
        let mut t: usize = 0;
        while t < la + lb - 1
            invariant
                t <= la + lb - 1,
                la == self.coefficients@.len(),
                lb == other.coefficients@.len(),
                la >= 1 && lb >= 1,
                la + lb <= usize::MAX,
                out@.len() == t,
                constants_wf(constants),
                fp_wf(zero) && zero.constants == constants && fp_val(zero) == 0,
                forall|k: int|
                    0 <= k < t ==> fp_wf(#[trigger] out@[k]) && out@[k].constants == constants
                        && fp_val(out@[k]) == 0,
            decreases la + lb - 1 - t,
        {
            out.push(zero);
            t = t + 1;
        }
        let mut i: usize = 0;
        while i < la
            invariant
                i <= la,
                la == self.coefficients@.len(),
                lb == other.coefficients@.len(),
                la >= 1 && lb >= 1,
                la + lb <= usize::MAX,
                out@.len() == la + lb - 1,
                poly_wf(*self),
                poly_wf(*other),
                self.coefficients@[0].constants == other.coefficients@[0].constants,
                constants == self.coefficients@[0].constants,
                constants_wf(constants),
                va == poly_view(*self),
                vb == poly_view(*other),
                n == fp_modulus(self.coefficients@[0]),
                forall|k: int|
                    0 <= k < out@.len() ==> fp_wf(#[trigger] out@[k]) && out@[k].constants
                        == constants && fp_val(out@[k]) == conv_upto(va, vb, k, i as int, n),
            decreases la - i,
        {
            let ai = self.coefficients[i];
            let mut j: usize = 0;
            while j < lb
                invariant
                    j <= lb,
                    i < la,
                    la == self.coefficients@.len(),
                    lb == other.coefficients@.len(),
                    la + lb <= usize::MAX,
                    out@.len() == la + lb - 1,
                    poly_wf(*self),
                    poly_wf(*other),
                    self.coefficients@[0].constants == other.coefficients@[0].constants,
                    constants == self.coefficients@[0].constants,
                    constants_wf(constants),
                    ai == self.coefficients@[i as int],
                    va == poly_view(*self),
                    vb == poly_view(*other),
                    n == fp_modulus(self.coefficients@[0]),
                    forall|k: int|
                        0 <= k < out@.len() ==> fp_wf(#[trigger] out@[k]) && out@[k].constants
                            == constants && fp_val(out@[k]) == (if i <= k < i + j {
                            conv_upto(va, vb, k, i as int + 1, n)
                        } else {
                            conv_upto(va, vb, k, i as int, n)
                        }),
                decreases lb - j,
            {
                let prod = ai.mul(&other.coefficients[j]);
                let cur = out[i + j];
                let updated = cur.add(&prod);
                out.set(i + j, updated);
                proof {
                    let k = (i + j) as int;
                    assert(conv_upto(va, vb, k, i as int + 1, n) == add_mod(
                        conv_upto(va, vb, k, i as int, n),
                        mul_mod(va[i as int], vb[k - i], n),
                        n,
                    ));
                    assert(va[i as int] == fp_val(self.coefficients@[i as int]));
                    assert(vb[j as int] == fp_val(other.coefficients@[j as int]));
                }
                j = j + 1;
            }
            proof {
                assert forall|k: int| 0 <= k < out@.len() && !(i <= k < i + lb) implies conv_upto(
                    va,
                    vb,
                    k,
                    i as int + 1,
                    n,
                ) == conv_upto(va, vb, k, i as int, n) by {
                    assert(!(0 <= k - (i as int) < vb.len()));
                    assert(conv_upto(va, vb, k, i as int + 1, n) == add_mod(
                        conv_upto(va, vb, k, i as int, n),
                        0,
                        n,
                    ));
                    crate::montgomery::lemma_odd_modulus_bounds(constants.modulus);
                    vstd::arithmetic::div_mod::lemma_mod_bound(
                        conv_upto(va, vb, k, i as int, n) as int,
                        n as int,
                    );
                    vstd::arithmetic::div_mod::lemma_small_mod(
                        conv_upto(va, vb, k, i as int, n),
                        n,
                    );
                }
            }
            i = i + 1;
        }
        let r = Polynomial::new(out);
        proof {
            assert forall|k: int|
                r.coefficients@.len() <= k < la + lb - 1 implies #[trigger] conv_upto(
                    va,
                    vb,
                    k,
                    la as int,
                    n,
                ) == 0 by {
                assert(fp_val(out@[k]) == conv_upto(va, vb, k, la as int, n));
                assert(fp_val(out@[k]) == 0);
            }
        }
        r
    }

    /// The formal derivative: coefficient `i + 1` times `i + 1`, for each
    /// `i`, with the result trimmed.
    pub fn derivative(&self) -> (r: Polynomial)
        requires
            poly_wf(*self),
        ensures
            poly_wf(r),
            r.coefficients@[0].constants == self.coefficients@[0].constants,
            self.coefficients@.len() == 1 ==> r.coefficients@.len() == 1 && fp_val(
                r.coefficients@[0],
            ) == 0,
            self.coefficients@.len() > 1 ==> r.coefficients@.len() + 1
                <= self.coefficients@.len(),
            forall|i: int|
                0 <= i < r.coefficients@.len() && self.coefficients@.len() > 1 ==> fp_val(
                    #[trigger] r.coefficients@[i],
                ) == mul_mod(
                    poly_view(*self)[i + 1],
                    ((i + 1) as nat) % fp_modulus(self.coefficients@[0]),
                    fp_modulus(self.coefficients@[0]),
                ),
            forall|i: int|
                r.coefficients@.len() <= i < self.coefficients@.len() - 1 ==> mul_mod(
                    #[trigger] poly_view(*self)[i + 1],
                    ((i + 1) as nat) % fp_modulus(self.coefficients@[0]),
                    fp_modulus(self.coefficients@[0]),
                ) == 0,
    {
        let ghost va = poly_view(*self);
        let ghost n = fp_modulus(self.coefficients@[0]);
        let constants = *self.coefficients[0].context();
        if self.coefficients.len() == 1 {
            return Polynomial::zero(&constants);
        }
        proof {
            crate::montgomery::lemma_odd_modulus_bounds(constants.modulus);
        }
        let la = self.coefficients.len();
        let one = Fp::one(&constants);
        let mut counter = Fp::zero(&constants);
        let mut out: Vec<Fp> = Vec::new();
        let mut i: usize = 1;
        while i < la
            invariant
                1 <= i <= la,
                la == self.coefficients@.len(),
                out@.len() == i - 1,
                poly_wf(*self),
                constants == self.coefficients@[0].constants,
                constants_wf(constants),
                fp_wf(one) && one.constants == constants && fp_val(one) == 1nat % n,
                fp_wf(counter) && counter.constants == constants,
                fp_val(counter) == ((i - 1) as nat) % n,
                va == poly_view(*self),
                n == fp_modulus(self.coefficients@[0]),
                n > 0,
                forall|t: int|
                    0 <= t < i - 1 ==> fp_wf(#[trigger] out@[t]) && out@[t].constants == constants
                        && fp_val(out@[t]) == mul_mod(va[t + 1], ((t + 1) as nat) % n, n),
            decreases la - i,
        {
            let next = counter.add(&one);
            proof {
                lemma_add_mod_noop((i - 1) as int, 1, n as int);
                lemma_mod_twice((i - 1) as int + 1, n as int);
                assert(fp_val(next) == (i as nat) % n);
            }
            counter = next;
            let term = self.coefficients[i].mul(&counter);
            out.push(term);
            i = i + 1;
        }
        let r = Polynomial::new(out);
        proof {
            assert forall|t: int|
                r.coefficients@.len() <= t < la - 1 implies mul_mod(
                    #[trigger] va[t + 1],
                    ((t + 1) as nat) % n,
                    n,
                ) == 0 by {
                assert(fp_val(out@[t]) == mul_mod(va[t + 1], ((t + 1) as nat) % n, n));
                assert(fp_val(out@[t]) == 0);
            }
        }
        r
    }
}

/// Whether the trimming loop must continue: more than one coefficient and a
/// zero leading coefficient.
fn poly_trim_check(c: &Vec<Fp>) -> (r: bool)
    requires
        c@.len() >= 1,
        forall|i: int| 0 <= i < c@.len() ==> fp_wf(#[trigger] c@[i]),
    ensures
        r == (c@.len() > 1 && fp_val(c@[c@.len() - 1]) == 0),
{
    if c.len() <= 1 {
        return false;
    }
    let last = c[c.len() - 1];
    last.is_zero()
}

/// Evaluates a polynomial at a point by Horner's method, scanning the
/// coefficients from the highest degree down.
pub fn evaluate_polynomial(poly: &Polynomial, x: &Fp) -> (r: Fp)
    requires
        poly_wf(*poly),
        fp_wf(*x),
        x.constants == poly.coefficients@[0].constants,
    ensures
        fp_wf(r),
        r.constants == x.constants,
        fp_val(r) == eval_suffix(poly_view(*poly), 0, fp_val(*x), fp_modulus(*x)),
{
    let ghost n = fp_modulus(*x);
    let ghost s = poly_view(*poly);
    let mut result = Fp::zero(x.context());
    let mut i: usize = poly.coefficients.len();
    while i > 0
        invariant
            i <= poly.coefficients@.len(),
            poly_wf(*poly),
            fp_wf(*x),
            x.constants == poly.coefficients@[0].constants,
            n == fp_modulus(*x),
            s == poly_view(*poly),
            fp_wf(result),
            result.constants == x.constants,
            fp_val(result) == eval_suffix(s, i as int, fp_val(*x), n),
        decreases i,
    {
        i = i - 1;
        let c = poly.coefficients[i];
        result = result.mul(x).add(&c);
        proof {
            crate::field::lemma_fp_val_bound(poly.coefficients@[i as int]);
            vstd::arithmetic::div_mod::lemma_small_mod(fp_val(poly.coefficients@[i as int]), n);
            assert(s[i as int] == fp_val(poly.coefficients@[i as int]));
        }
    }
    result
}

} // verus!
