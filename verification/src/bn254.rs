//! The elliptic-curve group in affine coordinates: `y^2 = x^3 + b` over the
//! base field (G1) and over the quadratic extension (G2), with point
//! addition, doubling, negation and scalar multiplication, plus the curve
//! parameters of the 254-bit pairing-friendly curve.
//!
//! A point is modelled by the triple of its infinity flag and the canonical
//! values of its coordinates; every group operation's contract states the
//! resulting triple by the same case analysis the code performs.

use vstd::prelude::*;

verus! {

use vstd::arithmetic::div_mod::{
    lemma_small_mod,
    lemma_mod_self_0,
    lemma_mul_mod_noop_right,
    lemma_mul_mod_noop_left,
};
use crate::field::{Fp, fp_wf, fp_val, fp_modulus, fp_same_field, add_mod, sub_mod, mul_mod};
use crate::fp2::{Fp2, fp2_wf, fp2_modulus};
use crate::montgomery::{MontgomeryConstants, constants_wf, lemma_odd_modulus_bounds};
use crate::limbs::l4;

/// Whether `a` has a multiplicative inverse modulo `n`.
pub open spec fn has_inv(a: nat, n: nat) -> bool {
    exists|w: nat| #[trigger] ((a * w) % n) == 1nat % n
}

/// The reduced multiplicative inverse of `a` modulo `n` (meaningful only
/// when one exists).
pub open spec fn m_inv(a: nat, n: nat) -> nat {
    choose|w: nat| (#[trigger] ((a * w) % n)) == 1nat % n && w < n
}

/// When an inverse exists, the reduced inverse satisfies its defining
/// equation and is itself reduced.
pub proof fn lemma_m_inv(a: nat, n: nat)
    requires
        n > 0,
        has_inv(a, n),
    ensures
        (a * m_inv(a, n)) % n == 1nat % n,
        m_inv(a, n) < n,
{
    let w = choose|w: nat| #[trigger] ((a * w) % n) == 1nat % n;
    lemma_mul_mod_noop_right(a as int, w as int, n as int);
    vstd::arithmetic::div_mod::lemma_mod_bound(w as int, n as int);
    assert((a * (w % n)) % n == 1nat % n);
    assert((a * (w % n)) % n == 1nat % n && (w % n) < n);
}

/// Reduced inverses are unique.
pub proof fn lemma_inv_unique(a: nat, w1: nat, w2: nat, n: nat)
    requires
        n > 0,
        w1 < n,
        w2 < n,
        (a * w1) % n == 1nat % n,
        (a * w2) % n == 1nat % n,
    ensures
        w1 == w2,
{
    let ai = a as int;
    let x = w1 as int;
    let y = w2 as int;
    let ni = n as int;
    // w1 == w1 * (a w2) == (w1 a) w2 == w2 (mod n)
    lemma_mul_mod_noop_right(x, ai * y, ni);
    lemma_mul_mod_noop_right(x, 1, ni);
    vstd::arithmetic::mul::lemma_mul_basics(x);
    assert((x * ((ai * y) % ni)) % ni == (x * (ai * y)) % ni);
    assert((x * (1int % ni)) % ni == x % ni);
    assert((x * (ai * y)) % ni == x % ni);
    lemma_mul_mod_noop_left(x * ai, y, ni);
    vstd::arithmetic::mul::lemma_mul_is_associative(x, ai, y);
    lemma_mul_mod_noop_left(ai * x, y, ni);
    vstd::arithmetic::mul::lemma_mul_is_commutative(x, ai);
    lemma_mul_mod_noop_right(y, 1, ni);
    vstd::arithmetic::mul::lemma_mul_basics(y);
    lemma_mul_mod_noop_left(1int % ni, y, ni);
    vstd::arithmetic::mul::lemma_mul_is_commutative(1int % ni, y);
    assert(((1int % ni) * y) % ni == y % ni);
    lemma_small_mod(w1, n);
    lemma_small_mod(w2, n);
    assert(x % ni == y % ni);
}

/// A reduced difference is zero exactly when the operands agree.
pub proof fn lemma_sub_mod_zero(a: nat, b: nat, n: nat)
    requires
        n > 0,
        a < n,
        b < n,
    ensures
        (sub_mod(a, b, n) == 0) <==> (a == b),
{
    if a == b {
        lemma_mod_self_0(n as int);
    } else if a > b {
        lemma_small_mod((a - b) as nat, n);
        vstd::arithmetic::div_mod::lemma_mod_add_multiples_vanish(a as int - b as int, n as int);
    } else {
        lemma_small_mod((a + n - b) as nat, n);
    }
}

/// A point of G1 as its mathematical model: the infinity flag and the
/// canonical coordinate values.
pub open spec fn g1_model(p: G1Affine) -> (bool, nat, nat) {
    (p.infinity, fp_val(p.x), fp_val(p.y))
}

/// Doubling in the model: the tangent slope `3x^2 / 2y` when the denominator
/// is invertible, the identity otherwise (a vertical tangent, or a modulus
/// that is not prime).
pub open spec fn spec_g1_double(p: (bool, nat, nat), n: nat) -> (bool, nat, nat) {
    if p.0 {
        p
    } else {
        let d = mul_mod(2nat % n, p.2, n);
        if !has_inv(d, n) {
            (true, 0, 0)
        } else {
            let lam = mul_mod(mul_mod(3nat % n, mul_mod(p.1, p.1, n), n), m_inv(d, n), n);
            let x3 = sub_mod(mul_mod(lam, lam, n), mul_mod(2nat % n, p.1, n), n);
            let y3 = sub_mod(mul_mod(lam, sub_mod(p.1, x3, n), n), p.2, n);
            (false, x3, y3)
        }
    }
}

/// Addition in the model: identity cases first, then doubling for equal
/// points, the identity for mutual inverses and for equal abscissae, and the
/// chord slope `(y2 - y1) / (x2 - x1)` otherwise.
pub open spec fn spec_g1_add(p: (bool, nat, nat), q: (bool, nat, nat), n: nat) -> (
    bool,
    nat,
    nat,
) {
    if p.0 {
        q
    } else if q.0 {
        p
    } else if p.1 == q.1 && p.2 == q.2 {
        spec_g1_double(p, n)
    } else if p.1 == q.1 && sub_mod(0, p.2, n) == q.2 {
        (true, 0, 0)
    } else if p.1 == q.1 {
        (true, 0, 0)
    } else {
        let d = sub_mod(q.1, p.1, n);
        if !has_inv(d, n) {
            (true, 0, 0)
        } else {
            let lam = mul_mod(sub_mod(q.2, p.2, n), m_inv(d, n), n);
            let x3 = sub_mod(sub_mod(mul_mod(lam, lam, n), p.1, n), q.1, n);
            let y3 = sub_mod(mul_mod(lam, sub_mod(p.1, x3, n), n), p.2, n);
            (false, x3, y3)
        }
    }
}

/// Double-and-add scalar multiplication in the model, scanning the scalar's
/// bits from least to most significant.
pub open spec fn spec_g1_scalar_mul(
    acc: (bool, nat, nat),
    p: (bool, nat, nat),
    k: nat,
    n: nat,
) -> (bool, nat, nat)
    decreases k,
{
    if k == 0 {
        acc
    } else {
        spec_g1_scalar_mul(
            if k % 2 == 1 {
                spec_g1_add(acc, p, n)
            } else {
                acc
            },
            spec_g1_double(p, n),
            k / 2,
            n,
        )
    }
}

/// A point in G1 represented in affine coordinates; `infinity` marks the
/// group identity, whose coordinates are conventionally zero.
#[derive(Clone, Copy, Debug)]
pub struct G1Affine {
    /// The x coordinate.
    pub x: Fp,
    /// The y coordinate.
    pub y: Fp,
    /// Whether this is the point at infinity.
    pub infinity: bool,
}

/// Well-formedness of a point: both coordinates are well-formed elements of
/// one field.
pub open spec fn g1_wf(p: G1Affine) -> bool {
    &&& fp_wf(p.x)
    &&& fp_wf(p.y)
    &&& p.x.constants == p.y.constants
}

impl G1Affine {
    /// Creates the identity point (point at infinity).
    pub fn identity(constants: &MontgomeryConstants) -> (r: G1Affine)
        requires
            constants_wf(*constants),
        ensures
            g1_wf(r),
            r.x.constants == *constants,
            g1_model(r) == (true, 0nat, 0nat),
    {
        let zero = Fp::zero(constants);
        G1Affine { x: zero, y: zero, infinity: true }
    }

    /// The modulus of the coordinate field, as limbs.
    pub fn modulus(&self) -> (r: [u64; 4])
        ensures
            l4(r) == fp_modulus(self.x),
    {
        self.x.modulus()
    }

    /// Point doubling by the tangent rule: `lambda = 3x^2 / 2y`,
    /// `x' = lambda^2 - 2x`, `y' = lambda (x - x') - y`. When the tangent is
    /// vertical (or no inverse exists) the result is the identity.
    pub fn double(&self) -> (r: G1Affine)
        requires
            g1_wf(*self),
        ensures
            g1_wf(r),
            r.x.constants == self.x.constants,
            g1_model(r) == spec_g1_double(g1_model(*self), fp_modulus(self.x)),
    {
        proof {
            lemma_odd_modulus_bounds(self.x.constants.modulus);
            crate::limbs::lemma_limb_powers();
        }
        if self.infinity {
            return *self;
        }
        let ghost n = fp_modulus(self.x);
        let two = Fp::new([2, 0, 0, 0], &self.x.constants);
        let three = Fp::new([3, 0, 0, 0], &self.x.constants);
        proof {
            crate::limbs::lemma_l4_word_only(2);
            crate::limbs::lemma_l4_word_only(3);
        }
        let x_squared = self.x.mul(&self.x);
        let numerator = three.mul(&x_squared);
        let denominator = two.mul(&self.y);
        let inv = denominator.inverse();
        match inv {
            Some(i) => {
                let lambda = numerator.mul(&i);
                let lambda_squared = lambda.mul(&lambda);
                let two_x = two.mul(&self.x);
                let x3 = lambda_squared.sub(&two_x);
                let x_diff = self.x.sub(&x3);
                let lambda_x_diff = lambda.mul(&x_diff);
                let y3 = lambda_x_diff.sub(&self.y);
                proof {
                    let d = mul_mod(2nat % n, fp_val(self.y), n);
                    crate::field::lemma_fp_val_bound(i);
                    assert(has_inv(d, n));
                    lemma_m_inv(d, n);
                    lemma_inv_unique(d, fp_val(i), m_inv(d, n), n);
                }
                G1Affine { x: x3, y: y3, infinity: false }
            },
            None => {
                proof {
                    let d = mul_mod(2nat % n, fp_val(self.y), n);
                    assert(fp_val(denominator) == d && fp_modulus(denominator) == n);
                    if has_inv(d, n) {
                        let w = choose|w: nat| #[trigger] ((d * w) % n) == 1nat % n;
                        assert((fp_val(denominator) * w) % fp_modulus(denominator) != 1nat
                            % fp_modulus(denominator));
                        assert((d * w) % n == 1nat % n);
                        assert(false);
                    }
                }
                Self::identity(&self.x.constants)
            },
        }
    }

    /// Point addition with the full case analysis: identity operands short
    /// circuit, equal points delegate to doubling, mutual inverses and equal
    /// abscissae give the identity, and the generic case uses the chord
    /// slope.
    pub fn add(&self, other: &G1Affine) -> (r: G1Affine)
        requires
            g1_wf(*self),
            g1_wf(*other),
            self.x.constants == other.x.constants,
        ensures
            g1_wf(r),
            r.x.constants == self.x.constants,
            g1_model(r) == spec_g1_add(g1_model(*self), g1_model(*other), fp_modulus(self.x)),
    {
        proof {
            lemma_odd_modulus_bounds(self.x.constants.modulus);
        }
        if self.infinity {
            return *other;
        }
        if other.infinity {
            return *self;
        }
        let ghost n = fp_modulus(self.x);
        proof {
            crate::field::lemma_fp_eq_iff_val(self.x, other.x);
            crate::field::lemma_fp_eq_iff_val(self.y, other.y);
        }
        if self.x == other.x && self.y == other.y {
            return self.double();
        }
        let neg_y = self.y.neg();
        proof {
            crate::field::lemma_fp_eq_iff_val(neg_y, other.y);
        }
        if self.x == other.x && neg_y == other.y {
            return Self::identity(&self.x.constants);
        }
        let y_diff = other.y.sub(&self.y);
        let x_diff = other.x.sub(&self.x);
        proof {
            crate::field::lemma_fp_val_bound(self.x);
            crate::field::lemma_fp_val_bound(other.x);
            lemma_sub_mod_zero(fp_val(other.x), fp_val(self.x), n);
        }
        if x_diff.is_zero() {
            return Self::identity(&self.x.constants);
        }
        let inv = x_diff.inverse();
        match inv {
            Some(i) => {
                let lambda = y_diff.mul(&i);
                let lambda_squared = lambda.mul(&lambda);
                let x3 = lambda_squared.sub(&self.x).sub(&other.x);
                let x_diff2 = self.x.sub(&x3);
                let y3 = lambda.mul(&x_diff2).sub(&self.y);
                proof {
                    let d = sub_mod(fp_val(other.x), fp_val(self.x), n);
                    crate::field::lemma_fp_val_bound(i);
                    assert(has_inv(d, n));
                    lemma_m_inv(d, n);
                    lemma_inv_unique(d, fp_val(i), m_inv(d, n), n);
                }
                G1Affine { x: x3, y: y3, infinity: false }
            },
            None => {
                proof {
                    let d = sub_mod(fp_val(other.x), fp_val(self.x), n);
                    assert(fp_val(x_diff) == d && fp_modulus(x_diff) == n);
                    if has_inv(d, n) {
                        let w = choose|w: nat| #[trigger] ((d * w) % n) == 1nat % n;
                        assert((fp_val(x_diff) * w) % fp_modulus(x_diff) != 1nat % fp_modulus(
                            x_diff,
                        ));
                        assert((d * w) % n == 1nat % n);
                        assert(false);
                    }
                }
                Self::identity(&self.x.constants)
            },
        }
    }

    /// Point negation: flips the y coordinate; the identity is unchanged.
    pub fn neg(&self) -> (r: G1Affine)
        requires
            g1_wf(*self),
        ensures
            g1_wf(r),
            r.x.constants == self.x.constants,
            r.infinity == self.infinity,
            fp_val(r.x) == fp_val(self.x),
            !self.infinity ==> fp_val(r.y) == sub_mod(0, fp_val(self.y), fp_modulus(self.x)),
            self.infinity ==> fp_val(r.y) == fp_val(self.y),
    {
        if self.infinity {
            return *self;
        }
        G1Affine { x: self.x, y: self.y.neg(), infinity: false }
    }

    /// Scalar multiplication by the double-and-add algorithm, scanning the
    /// scalar's bits from least to most significant.
    pub fn scalar_mul(&self, scalar: u64) -> (r: G1Affine)
        requires
            g1_wf(*self),
        ensures
            g1_wf(r),
            r.x.constants == self.x.constants,
            g1_model(r) == spec_g1_scalar_mul(
                (true, 0nat, 0nat),
                g1_model(*self),
                scalar as nat,
                fp_modulus(self.x),
            ),
    {
        let ghost n = fp_modulus(self.x);
        let ghost k0: nat = scalar as nat;
        let mut result = Self::identity(&self.x.constants);
        let mut temp = *self;
        let mut s = scalar;
        while s > 0
            invariant
                g1_wf(result),
                g1_wf(temp),
                result.x.constants == self.x.constants,
                temp.x.constants == self.x.constants,
                n == fp_modulus(self.x),
                spec_g1_scalar_mul(g1_model(result), g1_model(temp), s as nat, n)
                    == spec_g1_scalar_mul((true, 0nat, 0nat), g1_model(*self), k0, n),
            decreases s,
        {
            if s % 2 == 1 {
                result = result.add(&temp);
            }
            temp = temp.double();
            s = s / 2;
        }
        result
    }
}

/// The table of small multiples of a point: entry `w` is `w` copies of the
/// point combined by the group addition.
pub open spec fn spec_g1_table(p: (bool, nat, nat), w: nat, n: nat) -> (bool, nat, nat)
    decreases w,
{
    if w == 0 {
        (true, 0nat, 0nat)
    } else {
        spec_g1_add(spec_g1_table(p, (w - 1) as nat, n), p, n)
    }
}

/// Windowed scalar multiplication in the model: four doublings per window,
/// then the table entry of the window's four bits, most significant window
/// first.
pub open spec fn spec_g1_windowed(p: (bool, nat, nat), k: nat, nw: nat, n: nat) -> (
    bool,
    nat,
    nat,
)
    decreases nw,
{
    if nw == 0 {
        (true, 0nat, 0nat)
    } else {
        let hi = spec_g1_windowed(p, k / 16, (nw - 1) as nat, n);
        let hi4 = spec_g1_double(
            spec_g1_double(spec_g1_double(spec_g1_double(hi, n), n), n),
            n,
        );
        spec_g1_add(hi4, spec_g1_table(p, k % 16, n), n)
    }
}

impl G1Affine {
    /// Windowed scalar multiplication with a window of four bits: a table of
    /// the sixteen small multiples is precomputed, and the scalar is
    /// processed window by window from the most significant end, with four
    /// doublings of the accumulator per window.
    #[verifier::rlimit(60)]
    pub fn windowed_mul(&self, scalar: &[u64; 4]) -> (r: G1Affine)
        requires
            g1_wf(*self),
        ensures
            g1_wf(r),
            r.x.constants == self.x.constants,
            g1_model(r) == spec_g1_windowed(
                g1_model(*self),
                l4(*scalar),
                64,
                fp_modulus(self.x),
            ),
    {
        let ghost n = fp_modulus(self.x);
        let ghost pm = g1_model(*self);
        let ghost kk = l4(*scalar);
        // Precompute the table of the sixteen window multiples.
        let mut table: Vec<G1Affine> = Vec::new();
        table.push(Self::identity(&self.x.constants));
        let mut j: usize = 1;
        while j < 16
            invariant
                1 <= j <= 16,
                table.len() == j,
                g1_wf(*self),
                n == fp_modulus(self.x),
                pm == g1_model(*self),
                forall|t: int|
                    0 <= t < j ==> g1_wf(#[trigger] table[t]) && table[t].x.constants
                        == self.x.constants && g1_model(table[t]) == spec_g1_table(pm, t as nat, n),
            decreases 16 - j,
        {
            let prev = table[j - 1];
            let next = prev.add(self);
            table.push(next);
            j = j + 1;
        }
        // Extract the sixty-four 4-bit windows, least significant first.
        let mut windows: Vec<u64> = Vec::new();
        let mut u: [u64; 4] = *scalar;
        let mut i: usize = 0;
        proof {
            vstd::arithmetic::power2::lemma2_to64();
            vstd::arithmetic::div_mod::lemma_div_basics_1(kk as int);
        }
        while i < 64
            invariant
                i <= 64,
                windows.len() == i,
                kk == l4(*scalar),
                l4(u) == kk / pow2((4 * i) as nat),
                forall|t: int|
                    0 <= t < i ==> #[trigger] windows[t] as nat == (kk / pow2((4 * t) as nat)) % 16
                        && windows[t] < 16,
            decreases 64 - i,
        {
            let w = u[0] % 16;
            proof {
                crate::limbs::lemma_l4_mod16(u);
                lemma_window_shift(kk, (4 * i) as nat);
            }
            windows.push(w);
            u = crate::limbs::shr4(&u);
            proof {
                vstd::arithmetic::div_mod::lemma_fundamental_div_mod_converse_div(
                    (kk / pow2((4 * i) as nat)) as int,
                    16,
                    l4(u) as int,
                    (kk / pow2((4 * i) as nat)) as int % 16,
                );
            }
            i = i + 1;
        }
        // Combine, most significant window first.
        let mut acc = Self::identity(&self.x.constants);
        let mut rem: usize = 64;
        proof {
            crate::limbs::lemma_l4_bound(*scalar);
        }
        while rem > 0
            invariant
                rem <= 64,
                windows.len() == 64,
                kk == l4(*scalar),
                g1_wf(acc),
                acc.x.constants == self.x.constants,
                g1_wf(*self),
                n == fp_modulus(self.x),
                pm == g1_model(*self),
                table.len() == 16,
                forall|t: int|
                    0 <= t < 16 ==> g1_wf(#[trigger] table[t]) && table[t].x.constants
                        == self.x.constants && g1_model(table[t]) == spec_g1_table(pm, t as nat, n),
                forall|t: int|
                    0 <= t < 64 ==> #[trigger] windows[t] as nat == (kk / pow2((4 * t) as nat))
                        % 16 && windows[t] < 16,
                g1_model(acc) == spec_g1_windowed(
                    pm,
                    kk / pow2((4 * rem) as nat),
                    (64 - rem) as nat,
                    n,
                ),
            decreases rem,
        {
            rem = rem - 1;
            let ghost k_cur = kk / pow2((4 * rem) as nat);
            proof {
                lemma_window_shift(kk, (4 * rem) as nat);
                assert(k_cur / 16 == kk / pow2((4 * (rem + 1)) as nat));
                assert(windows[rem as int] as nat == k_cur % 16);
            }
            acc = acc.double().double().double().double();
            let w = windows[rem];
            let entry = table[w as usize];
            acc = acc.add(&entry);
            proof {
                lemma_g1_windowed_unfold(pm, k_cur, (64 - rem) as nat, n);
                assert((((64 - rem) as nat) - 1) as nat == (63 - rem) as nat);
            }
        }
        proof {
            vstd::arithmetic::power2::lemma2_to64();
            vstd::arithmetic::div_mod::lemma_div_basics_1(kk as int);
            assert(kk / pow2(0) == kk);
        }
        acc
    }
}

/// One unfolding of the windowed-multiplication model for a positive number
/// of windows.
proof fn lemma_g1_windowed_unfold(p: (bool, nat, nat), k: nat, nw: nat, n: nat)
    requires
        nw >= 1,
    ensures
        spec_g1_windowed(p, k, nw, n) == spec_g1_add(
            spec_g1_double(
                spec_g1_double(
                    spec_g1_double(
                        spec_g1_double(spec_g1_windowed(p, k / 16, (nw - 1) as nat, n), n),
                        n,
                    ),
                    n,
                ),
                n,
            ),
            spec_g1_table(p, k % 16, n),
            n,
        ),
{
}

/// Extension-field addition in the model.
pub open spec fn f2_add(a: (nat, nat), b: (nat, nat), n: nat) -> (nat, nat) {
    (add_mod(a.0, b.0, n), add_mod(a.1, b.1, n))
}

/// Extension-field subtraction in the model.
pub open spec fn f2_sub(a: (nat, nat), b: (nat, nat), n: nat) -> (nat, nat) {
    (sub_mod(a.0, b.0, n), sub_mod(a.1, b.1, n))
}

/// Extension-field multiplication in the model (`u^2 = -1`).
pub open spec fn f2_mul(a: (nat, nat), b: (nat, nat), n: nat) -> (nat, nat) {
    (
        sub_mod(mul_mod(a.0, b.0, n), mul_mod(a.1, b.1, n), n),
        add_mod(mul_mod(a.0, b.1, n), mul_mod(a.1, b.0, n), n),
    )
}

/// The norm of an extension element in the model.
pub open spec fn f2_norm(a: (nat, nat), n: nat) -> nat {
    add_mod(mul_mod(a.0, a.0, n), mul_mod(a.1, a.1, n), n)
}

/// The inverse of an extension element in the model, through the norm.
pub open spec fn f2_inv(a: (nat, nat), n: nat) -> (nat, nat) {
    let w = m_inv(f2_norm(a, n), n);
    (mul_mod(a.0, w, n), sub_mod(0, mul_mod(a.1, w, n), n))
}

/// A point of G2 as its mathematical model.
pub open spec fn g2_model(p: G2Affine) -> (bool, (nat, nat), (nat, nat)) {
    (p.infinity, (fp_val(p.x.c0), fp_val(p.x.c1)), (fp_val(p.y.c0), fp_val(p.y.c1)))
}

/// Doubling in the G2 model: the same tangent rule as G1, with extension
/// arithmetic substituted.
pub open spec fn spec_g2_double(p: (bool, (nat, nat), (nat, nat)), n: nat) -> (
    bool,
    (nat, nat),
    (nat, nat),
) {
    if p.0 {
        p
    } else {
        let two = (2nat % n, 0nat);
        let three = (3nat % n, 0nat);
        let d = f2_mul(two, p.2, n);
        if !has_inv(f2_norm(d, n), n) {
            (true, (0nat, 0nat), (0nat, 0nat))
        } else {
            let lam = f2_mul(f2_mul(three, f2_mul(p.1, p.1, n), n), f2_inv(d, n), n);
            let x3 = f2_sub(f2_mul(lam, lam, n), f2_mul(two, p.1, n), n);
            let y3 = f2_sub(f2_mul(lam, f2_sub(p.1, x3, n), n), p.2, n);
            (false, x3, y3)
        }
    }
}

/// Addition in the G2 model: the same case analysis as G1.
pub open spec fn spec_g2_add(
    p: (bool, (nat, nat), (nat, nat)),
    q: (bool, (nat, nat), (nat, nat)),
    n: nat,
) -> (bool, (nat, nat), (nat, nat)) {
    if p.0 {
        q
    } else if q.0 {
        p
    } else if p.1 == q.1 && p.2 == q.2 {
        spec_g2_double(p, n)
    } else if p.1 == q.1 && (sub_mod(0, p.2.0, n), sub_mod(0, p.2.1, n)) == q.2 {
        (true, (0nat, 0nat), (0nat, 0nat))
    } else if p.1 == q.1 {
        (true, (0nat, 0nat), (0nat, 0nat))
    } else {
        let d = f2_sub(q.1, p.1, n);
        if !has_inv(f2_norm(d, n), n) {
            (true, (0nat, 0nat), (0nat, 0nat))
        } else {
            let lam = f2_mul(f2_sub(q.2, p.2, n), f2_inv(d, n), n);
            let x3 = f2_sub(f2_sub(f2_mul(lam, lam, n), p.1, n), q.1, n);
            let y3 = f2_sub(f2_mul(lam, f2_sub(p.1, x3, n), n), p.2, n);
            (false, x3, y3)
        }
    }
}

/// Double-and-add scalar multiplication in the G2 model.
pub open spec fn spec_g2_scalar_mul(
    acc: (bool, (nat, nat), (nat, nat)),
    p: (bool, (nat, nat), (nat, nat)),
    k: nat,
    n: nat,
) -> (bool, (nat, nat), (nat, nat))
    decreases k,
{
    if k == 0 {
        acc
    } else {
        spec_g2_scalar_mul(
            if k % 2 == 1 {
                spec_g2_add(acc, p, n)
            } else {
                acc
            },
            spec_g2_double(p, n),
            k / 2,
            n,
        )
    }
}

/// The table of small multiples of a G2 point.
pub open spec fn spec_g2_table(p: (bool, (nat, nat), (nat, nat)), w: nat, n: nat) -> (
    bool,
    (nat, nat),
    (nat, nat),
)
    decreases w,
{
    if w == 0 {
        (true, (0nat, 0nat), (0nat, 0nat))
    } else {
        spec_g2_add(spec_g2_table(p, (w - 1) as nat, n), p, n)
    }
}

/// Windowed scalar multiplication in the G2 model.
pub open spec fn spec_g2_windowed(p: (bool, (nat, nat), (nat, nat)), k: nat, nw: nat, n: nat) -> (
    bool,
    (nat, nat),
    (nat, nat),
)
    decreases nw,
{
    if nw == 0 {
        (true, (0nat, 0nat), (0nat, 0nat))
    } else {
        let hi = spec_g2_windowed(p, k / 16, (nw - 1) as nat, n);
        let hi4 = spec_g2_double(
            spec_g2_double(spec_g2_double(spec_g2_double(hi, n), n), n),
            n,
        );
        spec_g2_add(hi4, spec_g2_table(p, k % 16, n), n)
    }
}

/// A point in G2 represented in affine coordinates over the extension field.
#[derive(Clone, Copy, Debug)]
pub struct G2Affine {
    /// The x coordinate.
    pub x: Fp2,
    /// The y coordinate.
    pub y: Fp2,
    /// Whether this is the point at infinity.
    pub infinity: bool,
}

/// Well-formedness of a G2 point.
pub open spec fn g2_wf(p: G2Affine) -> bool {
    &&& fp2_wf(p.x)
    &&& fp2_wf(p.y)
    &&& p.x.c0.constants == p.y.c0.constants
}

/// The result of an extension-field inversion matches the model inverse:
/// reduced solutions of the defining equations are unique.
proof fn lemma_f2_inverse_model(a: (nat, nat), y0: nat, y1: nat, n: nat)
    requires
        n > 0,
        has_inv(f2_norm(a, n), n),
        y0 < n,
        y1 < n,
        mul_mod(y0, f2_norm(a, n), n) == a.0 % n,
        mul_mod(sub_mod(0, y1, n), f2_norm(a, n), n) == a.1 % n,
    ensures
        (y0, y1) == f2_inv(a, n),
{
    let norm = f2_norm(a, n);
    lemma_m_inv(norm, n);
    let w = m_inv(norm, n);
    let z0 = mul_mod(a.0, w, n);
    let z1n = mul_mod(a.1, w, n);
    // z0 satisfies the same defining equation as y0
    crate::field::lemma_div_cancels(a.0, norm, w, n);
    assert(mul_mod(z0, norm, n) == a.0 % n);
    lemma_mul_is_commutative_helper(norm, w, n);
    lemma_cancel_via(y0, z0, norm, w, n);
    vstd::arithmetic::div_mod::lemma_mod_bound((a.0 * w) as int, n as int);
    lemma_small_mod(y0, n);
    lemma_small_mod(z0, n);
    assert(y0 == z0);
    // the negated second components satisfy the same defining equation
    crate::field::lemma_div_cancels(a.1, norm, w, n);
    assert(mul_mod(z1n, norm, n) == a.1 % n);
    lemma_cancel_via(sub_mod(0, y1, n), z1n, norm, w, n);
    vstd::arithmetic::div_mod::lemma_mod_bound((a.1 * w) as int, n as int);
    lemma_sub_mod_reduced(y1, n);
    lemma_small_mod(sub_mod(0, y1, n), n);
    lemma_small_mod(z1n, n);
    assert(sub_mod(0, y1, n) == z1n);
    // negate both sides back
    lemma_neg_involutive(y1, n);
    assert(y1 == sub_mod(0, z1n, n));
}

/// Cancelling a common invertible factor from a congruence.
proof fn lemma_cancel_via(x: nat, y: nat, c: nat, w: nat, n: nat)
    requires
        n > 0,
        (x * c) % n == (y * c) % n,
        (c * w) % n == 1nat % n,
    ensures
        x % n == y % n,
{
    crate::montgomery::lemma_cancel_r(x as int, y as int, n as int, w as int, c as int);
}

/// `c * w == w * c` modulo `n`, for reordering the inverse equation.
proof fn lemma_mul_is_commutative_helper(c: nat, w: nat, n: nat)
    ensures
        (c * w) == (w * c),
{
    vstd::arithmetic::mul::lemma_mul_is_commutative(c as int, w as int);
}

/// A negation stays below the modulus.
proof fn lemma_sub_mod_reduced(x: nat, n: nat)
    requires
        n > 0,
    ensures
        sub_mod(0, x, n) < n,
{
    vstd::arithmetic::div_mod::lemma_mod_bound((0 + n - x) as int, n as int);
}

/// Negation modulo `n` is an involution on reduced values.
proof fn lemma_neg_involutive(x: nat, n: nat)
    requires
        n > 0,
        x < n,
    ensures
        sub_mod(0, sub_mod(0, x, n), n) == x,
{
    if x == 0 {
        lemma_mod_self_0(n as int);
        assert(sub_mod(0, 0, n) == 0);
    } else {
        lemma_small_mod((n - x) as nat, n);
        assert(sub_mod(0, x, n) == n - x);
        lemma_small_mod(x, n);
    }
}

impl G2Affine {
    /// Creates the identity point (point at infinity).
    pub fn identity(constants: &MontgomeryConstants) -> (r: G2Affine)
        requires
            constants_wf(*constants),
        ensures
            g2_wf(r),
            r.x.c0.constants == *constants,
            g2_model(r) == (true, (0nat, 0nat), (0nat, 0nat)),
    {
        let zero = Fp2::zero(constants);
        G2Affine { x: zero, y: zero, infinity: true }
    }

    /// Point doubling by the tangent rule over the extension field.
    pub fn double(&self) -> (r: G2Affine)
        requires
            g2_wf(*self),
        ensures
            g2_wf(r),
            r.x.c0.constants == self.x.c0.constants,
            g2_model(r) == spec_g2_double(g2_model(*self), fp2_modulus(self.x)),
    {
        proof {
            lemma_odd_modulus_bounds(self.x.c0.constants.modulus);
            crate::limbs::lemma_limb_powers();
        }
        if self.infinity {
            return *self;
        }
        let ghost n = fp2_modulus(self.x);
        let constants = *self.x.c0.context();
        let two = Fp2::new(Fp::new([2, 0, 0, 0], &constants), Fp::zero(&constants));
        let three = Fp2::new(Fp::new([3, 0, 0, 0], &constants), Fp::zero(&constants));
        proof {
            crate::limbs::lemma_l4_word_only(2);
            crate::limbs::lemma_l4_word_only(3);
        }
        let x_squared = self.x.square();
        let numerator = three.mul(&x_squared);
        let denominator = two.mul(&self.y);
        let inv = denominator.inverse();
        match inv {
            Some(i) => {
                let lambda = numerator.mul(&i);
                let lambda_squared = lambda.square();
                let two_x = two.mul(&self.x);
                let x3 = lambda_squared.sub(&two_x);
                let x_diff = self.x.sub(&x3);
                let y3 = lambda.mul(&x_diff).sub(&self.y);
                proof {
                    let dm = (fp_val(denominator.c0), fp_val(denominator.c1));
                    crate::field::lemma_fp_val_bound(i.c0);
                    crate::field::lemma_fp_val_bound(i.c1);
                    crate::field::lemma_fp_val_bound(denominator.c0);
                    crate::field::lemma_fp_val_bound(denominator.c1);
                    lemma_small_mod(fp_val(denominator.c0), n);
                    lemma_small_mod(fp_val(denominator.c1), n);
                    assert(has_inv(f2_norm(dm, n), n));
                    lemma_f2_inverse_model(dm, fp_val(i.c0), fp_val(i.c1), n);
                }
                G2Affine { x: x3, y: y3, infinity: false }
            },
            None => {
                proof {
                    let dm = (fp_val(denominator.c0), fp_val(denominator.c1));
                    crate::field::lemma_fp_val_bound(denominator.c0);
                    crate::field::lemma_fp_val_bound(denominator.c1);
                    lemma_small_mod(fp_val(denominator.c0), n);
                    lemma_small_mod(fp_val(denominator.c1), n);
                    if has_inv(f2_norm(dm, n), n) {
                        let w = choose|w: nat|
                            #[trigger] ((f2_norm(dm, n) * w) % n) == 1nat % n;
                        assert(false);
                    }
                }
                Self::identity(&self.x.c0.constants)
            },
        }
    }

    /// Point addition over the extension field, with the same case analysis
    /// as G1.
    pub fn add(&self, other: &G2Affine) -> (r: G2Affine)
        requires
            g2_wf(*self),
            g2_wf(*other),
            self.x.c0.constants == other.x.c0.constants,
        ensures
            g2_wf(r),
            r.x.c0.constants == self.x.c0.constants,
            g2_model(r) == spec_g2_add(g2_model(*self), g2_model(*other), fp2_modulus(self.x)),
    {
        proof {
            lemma_odd_modulus_bounds(self.x.c0.constants.modulus);
        }
        if self.infinity {
            return *other;
        }
        if other.infinity {
            return *self;
        }
        let ghost n = fp2_modulus(self.x);
        proof {
            crate::field::lemma_fp_eq_iff_val(self.x.c0, other.x.c0);
            crate::field::lemma_fp_eq_iff_val(self.x.c1, other.x.c1);
            crate::field::lemma_fp_eq_iff_val(self.y.c0, other.y.c0);
            crate::field::lemma_fp_eq_iff_val(self.y.c1, other.y.c1);
        }
        if self.x.c0 == other.x.c0 && self.x.c1 == other.x.c1 && self.y.c0 == other.y.c0
            && self.y.c1 == other.y.c1 {
            return self.double();
        }
        let neg_y = self.y.neg();
        proof {
            crate::field::lemma_fp_eq_iff_val(neg_y.c0, other.y.c0);
            crate::field::lemma_fp_eq_iff_val(neg_y.c1, other.y.c1);
        }
        if self.x.c0 == other.x.c0 && self.x.c1 == other.x.c1 && neg_y.c0 == other.y.c0
            && neg_y.c1 == other.y.c1 {
            return Self::identity(&self.x.c0.constants);
        }
        let y_diff = other.y.sub(&self.y);
        let x_diff = other.x.sub(&self.x);
        proof {
            crate::field::lemma_fp_val_bound(self.x.c0);
            crate::field::lemma_fp_val_bound(other.x.c0);
            crate::field::lemma_fp_val_bound(self.x.c1);
            crate::field::lemma_fp_val_bound(other.x.c1);
            lemma_sub_mod_zero(fp_val(other.x.c0), fp_val(self.x.c0), n);
            lemma_sub_mod_zero(fp_val(other.x.c1), fp_val(self.x.c1), n);
        }
        if x_diff.is_zero() {
            return Self::identity(&self.x.c0.constants);
        }
        let inv = x_diff.inverse();
        match inv {
            Some(i) => {
                let lambda = y_diff.mul(&i);
                let lambda_squared = lambda.square();
                let x3 = lambda_squared.sub(&self.x).sub(&other.x);
                let x_diff2 = self.x.sub(&x3);
                let y3 = lambda.mul(&x_diff2).sub(&self.y);
                proof {
                    let dm = (fp_val(x_diff.c0), fp_val(x_diff.c1));
                    crate::field::lemma_fp_val_bound(i.c0);
                    crate::field::lemma_fp_val_bound(i.c1);
                    crate::field::lemma_fp_val_bound(x_diff.c0);
                    crate::field::lemma_fp_val_bound(x_diff.c1);
                    lemma_small_mod(fp_val(x_diff.c0), n);
                    lemma_small_mod(fp_val(x_diff.c1), n);
                    assert(has_inv(f2_norm(dm, n), n));
                    lemma_f2_inverse_model(dm, fp_val(i.c0), fp_val(i.c1), n);
                }
                G2Affine { x: x3, y: y3, infinity: false }
            },
            None => {
                proof {
                    let dm = (fp_val(x_diff.c0), fp_val(x_diff.c1));
                    crate::field::lemma_fp_val_bound(x_diff.c0);
                    crate::field::lemma_fp_val_bound(x_diff.c1);
                    lemma_small_mod(fp_val(x_diff.c0), n);
                    lemma_small_mod(fp_val(x_diff.c1), n);
                    if has_inv(f2_norm(dm, n), n) {
                        let w = choose|w: nat|
                            #[trigger] ((f2_norm(dm, n) * w) % n) == 1nat % n;
                        assert(false);
                    }
                }
                Self::identity(&self.x.c0.constants)
            },
        }
    }

    /// Point negation over the extension field.
    pub fn neg(&self) -> (r: G2Affine)
        requires
            g2_wf(*self),
        ensures
            g2_wf(r),
            r.x.c0.constants == self.x.c0.constants,
            r.infinity == self.infinity,
            !self.infinity ==> g2_model(r) == (
                false,
                g2_model(*self).1,
                (
                    sub_mod(0, fp_val(self.y.c0), fp2_modulus(self.x)),
                    sub_mod(0, fp_val(self.y.c1), fp2_modulus(self.x)),
                ),
            ),
            self.infinity ==> r == self,
    {
        if self.infinity {
            return *self;
        }
        G2Affine { x: self.x, y: self.y.neg(), infinity: self.infinity }
    }

    /// Scalar multiplication by double-and-add over the extension field.
    pub fn scalar_mul(&self, scalar: u64) -> (r: G2Affine)
        requires
            g2_wf(*self),
        ensures
            g2_wf(r),
            r.x.c0.constants == self.x.c0.constants,
            g2_model(r) == spec_g2_scalar_mul(
                (true, (0nat, 0nat), (0nat, 0nat)),
                g2_model(*self),
                scalar as nat,
                fp2_modulus(self.x),
            ),
    {
        let ghost n = fp2_modulus(self.x);
        let ghost k0: nat = scalar as nat;
        let mut result = Self::identity(&self.x.c0.constants);
        let mut temp = *self;
        let mut s = scalar;
        while s > 0
            invariant
                g2_wf(result),
                g2_wf(temp),
                result.x.c0.constants == self.x.c0.constants,
                temp.x.c0.constants == self.x.c0.constants,
                n == fp2_modulus(self.x),
                spec_g2_scalar_mul(g2_model(result), g2_model(temp), s as nat, n)
                    == spec_g2_scalar_mul(
                    (true, (0nat, 0nat), (0nat, 0nat)),
                    g2_model(*self),
                    k0,
                    n,
                ),
            decreases s,
        {
            if s % 2 == 1 {
                result = result.add(&temp);
            }
            temp = temp.double();
            s = s / 2;
        }
        result
    }

    /// Windowed scalar multiplication over the extension field, with the
    /// same four-bit windows as G1.
    #[verifier::rlimit(60)]
    pub fn windowed_mul(&self, scalar: &[u64; 4]) -> (r: G2Affine)
        requires
            g2_wf(*self),
        ensures
            g2_wf(r),
            r.x.c0.constants == self.x.c0.constants,
            g2_model(r) == spec_g2_windowed(
                g2_model(*self),
                l4(*scalar),
                64,
                fp2_modulus(self.x),
            ),
    {
        let ghost n = fp2_modulus(self.x);
        let ghost pm = g2_model(*self);
        let ghost kk = l4(*scalar);
        let mut table: Vec<G2Affine> = Vec::new();
        table.push(Self::identity(&self.x.c0.constants));
        let mut j: usize = 1;
        while j < 16
            invariant
                1 <= j <= 16,
                table.len() == j,
                g2_wf(*self),
                n == fp2_modulus(self.x),
                pm == g2_model(*self),
                forall|t: int|
                    0 <= t < j ==> g2_wf(#[trigger] table[t]) && table[t].x.c0.constants
                        == self.x.c0.constants && g2_model(table[t]) == spec_g2_table(
                        pm,
                        t as nat,
                        n,
                    ),
            decreases 16 - j,
        {
            let prev = table[j - 1];
            let next = prev.add(self);
            table.push(next);
            j = j + 1;
        }
        let mut windows: Vec<u64> = Vec::new();
        let mut u: [u64; 4] = *scalar;
        let mut i: usize = 0;
        proof {
            vstd::arithmetic::power2::lemma2_to64();
            vstd::arithmetic::div_mod::lemma_div_basics_1(kk as int);
        }
        while i < 64
            invariant
                i <= 64,
                windows.len() == i,
                kk == l4(*scalar),
                l4(u) == kk / pow2((4 * i) as nat),
                forall|t: int|
                    0 <= t < i ==> #[trigger] windows[t] as nat == (kk / pow2((4 * t) as nat)) % 16
                        && windows[t] < 16,
            decreases 64 - i,
        {
            let w = u[0] % 16;
            proof {
                crate::limbs::lemma_l4_mod16(u);
                lemma_window_shift(kk, (4 * i) as nat);
            }
            windows.push(w);
            u = crate::limbs::shr4(&u);
            proof {
                vstd::arithmetic::div_mod::lemma_fundamental_div_mod_converse_div(
                    (kk / pow2((4 * i) as nat)) as int,
                    16,
                    l4(u) as int,
                    (kk / pow2((4 * i) as nat)) as int % 16,
                );
            }
            i = i + 1;
        }
        let mut acc = Self::identity(&self.x.c0.constants);
        let mut rem: usize = 64;
        proof {
            crate::limbs::lemma_l4_bound(*scalar);
        }
        while rem > 0
            invariant
                rem <= 64,
                windows.len() == 64,
                kk == l4(*scalar),
                g2_wf(acc),
                acc.x.c0.constants == self.x.c0.constants,
                g2_wf(*self),
                n == fp2_modulus(self.x),
                pm == g2_model(*self),
                table.len() == 16,
                forall|t: int|
                    0 <= t < 16 ==> g2_wf(#[trigger] table[t]) && table[t].x.c0.constants
                        == self.x.c0.constants && g2_model(table[t]) == spec_g2_table(
                        pm,
                        t as nat,
                        n,
                    ),
                forall|t: int|
                    0 <= t < 64 ==> #[trigger] windows[t] as nat == (kk / pow2((4 * t) as nat))
                        % 16 && windows[t] < 16,
                g2_model(acc) == spec_g2_windowed(
                    pm,
                    kk / pow2((4 * rem) as nat),
                    (64 - rem) as nat,
                    n,
                ),
            decreases rem,
        {
            rem = rem - 1;
            let ghost k_cur = kk / pow2((4 * rem) as nat);
            proof {
                lemma_window_shift(kk, (4 * rem) as nat);
                assert(k_cur / 16 == kk / pow2((4 * (rem + 1)) as nat));
                assert(windows[rem as int] as nat == k_cur % 16);
            }
            acc = acc.double().double().double().double();
            let w = windows[rem];
            let entry = table[w as usize];
            acc = acc.add(&entry);
            proof {
                lemma_g2_windowed_unfold(pm, k_cur, (64 - rem) as nat, n);
                assert((((64 - rem) as nat) - 1) as nat == (63 - rem) as nat);
            }
        }
        proof {
            vstd::arithmetic::power2::lemma2_to64();
            vstd::arithmetic::div_mod::lemma_div_basics_1(kk as int);
            assert(kk / pow2(0) == kk);
        }
        acc
    }
}

/// One unfolding of the G2 windowed-multiplication model.
proof fn lemma_g2_windowed_unfold(p: (bool, (nat, nat), (nat, nat)), k: nat, nw: nat, n: nat)
    requires
        nw >= 1,
    ensures
        spec_g2_windowed(p, k, nw, n) == spec_g2_add(
            spec_g2_double(
                spec_g2_double(
                    spec_g2_double(
                        spec_g2_double(spec_g2_windowed(p, k / 16, (nw - 1) as nat, n), n),
                        n,
                    ),
                    n,
                ),
                n,
            ),
            spec_g2_table(p, k % 16, n),
            n,
        ),
{
}

/// Dividing by the next window's weight is dividing the current quotient by
/// sixteen: `(k / 2^s) / 16 == k / 2^(s+4)`.
proof fn lemma_window_shift(k: nat, s: nat)
    ensures
        (k / pow2(s)) / 16 == k / pow2(s + 4),
{
    vstd::arithmetic::power2::lemma2_to64();
    vstd::arithmetic::power2::lemma_pow2_adds(s, 4);
    vstd::arithmetic::power2::lemma_pow2_pos(s);
    vstd::arithmetic::div_mod::lemma_div_denominator(k as int, pow2(s) as int, 16);
}

use vstd::arithmetic::power2::pow2;

/// The limbs of the base-field modulus of the 254-bit pairing curve.
pub open spec fn bn254_base_modulus_limbs() -> [u64; 4] {
    [0x3c208c16d87cfd47, 0x97816a916871ca8d, 0xb85045b68181585d, 0x30644e72e131a029]
}

/// The limbs of the first coefficient of the G2 generator's x coordinate.
pub open spec fn bn254_g2_x_c0_limbs() -> [u64; 4] {
    [0x46debd5cd992f6ed, 0x674322d4f75edadd, 0x426a00665e5c4479, 0x1800deef121f1e76]
}

/// The limbs of the second coefficient of the G2 generator's x coordinate.
pub open spec fn bn254_g2_x_c1_limbs() -> [u64; 4] {
    [0x97e485b7aef312c2, 0xf1aa493335a9e712, 0x7260bfb731fb5d25, 0x198e9393920d483a]
}

/// The limbs of the first coefficient of the G2 generator's y coordinate.
pub open spec fn bn254_g2_y_c0_limbs() -> [u64; 4] {
    [0x4ce6cc0166fa7daa, 0xe3d1e7690c43d37b, 0x4aab71808dcb408f, 0x12c85ea5db8c6deb]
}

/// The limbs of the second coefficient of the G2 generator's y coordinate.
pub open spec fn bn254_g2_y_c1_limbs() -> [u64; 4] {
    [0x55acdadcd122975b, 0xbc4b313370b38ef3, 0xec9e99ad690c3395, 0x090689d0585ff075]
}

/// The limbs of the first coefficient of the twisted curve constant `b'`.
pub open spec fn bn254_twist_b_c0_limbs() -> [u64; 4] {
    [0x3267e6dc24a138e5, 0xb5b4c5e559dbefa3, 0x81be18991be06ac3, 0x2b149d40ceb8aaae]
}

/// The limbs of the second coefficient of the twisted curve constant `b'`.
pub open spec fn bn254_twist_b_c1_limbs() -> [u64; 4] {
    [0xe4a2bd0685c315d2, 0xa74fa084e52d1852, 0xcd2cafadeed8fdf4, 0x009713b03af0fed4]
}

/// The curve context: the base-field modulus with its Montgomery constants
/// and the coefficients of the curve equation `y^2 = x^3 + a x + b`.
#[derive(Clone, Copy, Debug)]
pub struct BN254 {
    /// The prime base-field modulus, as limbs.
    pub modulus: [u64; 4],
    /// The Montgomery constants of the base field.
    pub constants: MontgomeryConstants,
    /// Coefficient `a` of the curve equation (zero for this curve).
    pub a: Fp,
    /// Coefficient `b` of the curve equation (three for this curve).
    pub b: Fp,
}

/// Well-formedness of the curve context.
pub open spec fn bn254_wf(c: BN254) -> bool {
    &&& constants_wf(c.constants)
    &&& c.modulus == c.constants.modulus
    &&& fp_wf(c.a)
    &&& fp_wf(c.b)
    &&& c.a.constants == c.constants
    &&& c.b.constants == c.constants
}

impl BN254 {
    /// Creates the curve over its 254-bit base field, with `a = 0` and
    /// `b = 3`.
    pub fn new() -> (r: BN254)
        ensures
            bn254_wf(r),
            r.modulus == bn254_base_modulus_limbs(),
            fp_val(r.a) == 0,
            fp_val(r.b) == 3nat % fp_modulus(r.a),
    {
        let modulus: [u64; 4] = [
            0x3c208c16d87cfd47,
            0x97816a916871ca8d,
            0xb85045b68181585d,
            0x30644e72e131a029,
        ];
        proof {
            assert(modulus == bn254_base_modulus_limbs());
        }
        proof {
            crate::limbs::lemma_l4_mod_word(modulus);
        }
        let constants = match MontgomeryConstants::new(&modulus) {
            Ok(c) => c,
            Err(_) => {
                proof {
                    assert(false);
                }
                vstd::pervasive::unreached()
            },
        };
        let a = Fp::zero(&constants);
        let b = Fp::new([3, 0, 0, 0], &constants);
        proof {
            crate::limbs::lemma_limb_powers();
            assert(l4([3u64, 0u64, 0u64, 0u64]) == 3);
        }
        BN254 { modulus, constants, a, b }
    }

    /// The generator point of G1: `(1, 2)`.
    pub fn g1_generator(&self) -> (r: G1Affine)
        requires
            bn254_wf(*self),
        ensures
            g1_wf(r),
            r.x.constants == self.constants,
            g1_model(r) == (
                false,
                1nat % fp_modulus(self.a),
                2nat % fp_modulus(self.a),
            ),
    {
        proof {
            crate::limbs::lemma_limb_powers();
        }
        let x = Fp::new([1, 0, 0, 0], &self.constants);
        let y = Fp::new([2, 0, 0, 0], &self.constants);
        proof {
            assert(l4([1u64, 0u64, 0u64, 0u64]) == 1 && l4([2u64, 0u64, 0u64, 0u64]) == 2);
        }
        G1Affine { x, y, infinity: false }
    }

    /// The generator point of G2, with its fixed coordinates in the
    /// extension field.
    pub fn g2_generator(&self) -> (r: G2Affine)
        requires
            bn254_wf(*self),
        ensures
            g2_wf(r),
            r.x.c0.constants == self.constants,
            g2_model(r) == (
                false,
                (
                    l4(bn254_g2_x_c0_limbs()) % fp_modulus(self.a),
                    l4(bn254_g2_x_c1_limbs()) % fp_modulus(self.a),
                ),
                (
                    l4(bn254_g2_y_c0_limbs()) % fp_modulus(self.a),
                    l4(bn254_g2_y_c1_limbs()) % fp_modulus(self.a),
                ),
            ),
    {
        let x0 = Fp::new(
            [0x46debd5cd992f6ed, 0x674322d4f75edadd, 0x426a00665e5c4479, 0x1800deef121f1e76],
            &self.constants,
        );
        let x1 = Fp::new(
            [0x97e485b7aef312c2, 0xf1aa493335a9e712, 0x7260bfb731fb5d25, 0x198e9393920d483a],
            &self.constants,
        );
        let y0 = Fp::new(
            [0x4ce6cc0166fa7daa, 0xe3d1e7690c43d37b, 0x4aab71808dcb408f, 0x12c85ea5db8c6deb],
            &self.constants,
        );
        let y1 = Fp::new(
            [0x55acdadcd122975b, 0xbc4b313370b38ef3, 0xec9e99ad690c3395, 0x090689d0585ff075],
            &self.constants,
        );
        proof {
            assert(fp_val(x0) == l4(bn254_g2_x_c0_limbs()) % fp_modulus(self.a));
            assert(fp_val(x1) == l4(bn254_g2_x_c1_limbs()) % fp_modulus(self.a));
            assert(fp_val(y0) == l4(bn254_g2_y_c0_limbs()) % fp_modulus(self.a));
            assert(fp_val(y1) == l4(bn254_g2_y_c1_limbs()) % fp_modulus(self.a));
        }
        G2Affine { x: Fp2 { c0: x0, c1: x1 }, y: Fp2 { c0: y0, c1: y1 }, infinity: false }
    }

    /// The twisted curve constant `b' = b / (u + 9)` of the sextic twist, as
    /// a fixed extension-field element.
    fn twist_constant_b(&self) -> (r: Fp2)
        requires
            bn254_wf(*self),
        ensures
            fp2_wf(r),
            r.c0.constants == self.constants,
            fp_val(r.c0) == l4(bn254_twist_b_c0_limbs()) % fp_modulus(self.a),
            fp_val(r.c1) == l4(bn254_twist_b_c1_limbs()) % fp_modulus(self.a),
    {
        let b_c0 = Fp::new(
            [0x3267e6dc24a138e5, 0xb5b4c5e559dbefa3, 0x81be18991be06ac3, 0x2b149d40ceb8aaae],
            &self.constants,
        );
        let b_c1 = Fp::new(
            [0xe4a2bd0685c315d2, 0xa74fa084e52d1852, 0xcd2cafadeed8fdf4, 0x009713b03af0fed4],
            &self.constants,
        );
        proof {
            assert(fp_val(b_c0) == l4(bn254_twist_b_c0_limbs()) % fp_modulus(self.a));
            assert(fp_val(b_c1) == l4(bn254_twist_b_c1_limbs()) % fp_modulus(self.a));
        }
        Fp2 { c0: b_c0, c1: b_c1 }
    }

    /// Whether a G1 point satisfies the curve equation
    /// `y^2 = x^3 + a x + b`; the identity is on the curve by convention.
    pub fn is_on_curve(&self, point: &G1Affine) -> (r: bool)
        requires
            bn254_wf(*self),
            g1_wf(*point),
            point.x.constants == self.constants,
        ensures
            r == (point.infinity || mul_mod(fp_val(point.y), fp_val(point.y), fp_modulus(self.a))
                == add_mod(
                add_mod(
                    mul_mod(
                        mul_mod(fp_val(point.x), fp_val(point.x), fp_modulus(self.a)),
                        fp_val(point.x),
                        fp_modulus(self.a),
                    ),
                    mul_mod(fp_val(self.a), fp_val(point.x), fp_modulus(self.a)),
                    fp_modulus(self.a),
                ),
                fp_val(self.b),
                fp_modulus(self.a),
            )),
    {
        if point.infinity {
            return true;
        }
        let x3 = point.x.mul(&point.x).mul(&point.x);
        let ax = self.a.mul(&point.x);
        let rhs = x3.add(&ax).add(&self.b);
        let lhs = point.y.mul(&point.y);
        proof {
            crate::field::lemma_fp_eq_iff_val(lhs, rhs);
        }
        lhs == rhs
    }

    /// Whether a G2 point satisfies the twisted curve equation
    /// `y^2 = x^3 + b'`; the identity is on the curve by convention.
    pub fn is_on_curve_g2(&self, point: &G2Affine) -> (r: bool)
        requires
            bn254_wf(*self),
            g2_wf(*point),
            point.x.c0.constants == self.constants,
        ensures
            r == (point.infinity || f2_mul(
                (fp_val(point.y.c0), fp_val(point.y.c1)),
                (fp_val(point.y.c0), fp_val(point.y.c1)),
                fp_modulus(self.a),
            ) == f2_add(
                f2_mul(
                    f2_mul(
                        (fp_val(point.x.c0), fp_val(point.x.c1)),
                        (fp_val(point.x.c0), fp_val(point.x.c1)),
                        fp_modulus(self.a),
                    ),
                    (fp_val(point.x.c0), fp_val(point.x.c1)),
                    fp_modulus(self.a),
                ),
                (
                    l4(bn254_twist_b_c0_limbs()) % fp_modulus(self.a),
                    l4(bn254_twist_b_c1_limbs()) % fp_modulus(self.a),
                ),
                fp_modulus(self.a),
            )),
    {
        if point.infinity {
            return true;
        }
        let x3 = self.g2_mul_helper(point);
        let b_fp2 = self.twist_constant_b();
        let rhs = x3.add(&b_fp2);
        let lhs = point.y.mul(&point.y);
        proof {
            crate::field::lemma_fp_eq_iff_val(lhs.c0, rhs.c0);
            crate::field::lemma_fp_eq_iff_val(lhs.c1, rhs.c1);
        }
        lhs.c0 == rhs.c0 && lhs.c1 == rhs.c1
    }

    /// The cube of a G2 point's x coordinate.
    fn g2_mul_helper(&self, point: &G2Affine) -> (r: Fp2)
        requires
            bn254_wf(*self),
            g2_wf(*point),
            point.x.c0.constants == self.constants,
        ensures
            fp2_wf(r),
            r.c0.constants == self.constants,
            (fp_val(r.c0), fp_val(r.c1)) == f2_mul(
                f2_mul(
                    (fp_val(point.x.c0), fp_val(point.x.c1)),
                    (fp_val(point.x.c0), fp_val(point.x.c1)),
                    fp2_modulus(point.x),
                ),
                (fp_val(point.x.c0), fp_val(point.x.c1)),
                fp2_modulus(point.x),
            ),
    {
        point.x.mul(&point.x).mul(&point.x)
    }
}

/// The identity is neutral on both sides: `P + O == O + P == P`.
pub proof fn law_g1_add_identity(p: (bool, nat, nat), n: nat)
    requires
        p.0 ==> p == (true, 0nat, 0nat),
    ensures
        spec_g1_add(p, (true, 0nat, 0nat), n) == p,
        spec_g1_add((true, 0nat, 0nat), p, n) == p,
{
}

/// A point and its negation sum to the identity: `P + (-P) == O`.
pub proof fn law_g1_add_negation(p: (bool, nat, nat), n: nat)
    requires
        n > 1,
        !p.0,
        p.2 < n,
    ensures
        spec_g1_add(p, (false, p.1, sub_mod(0, p.2, n)), n) == (true, 0nat, 0nat),
{
    let q = (false, p.1, sub_mod(0, p.2, n));
    if p.2 == q.2 {
        // the y coordinate is its own negation, so the tangent is vertical
        assert(sub_mod(0, p.2, n) == p.2);
        lemma_vertical_tangent(p.2, n);
        lemma_double_zero(p.2, n);
    }
}

/// If a reduced value equals its own negation under an odd modulus greater
/// than one, it is zero, and doubling it gives zero.
proof fn lemma_vertical_tangent(y: nat, n: nat)
    requires
        n > 1,
        y < n,
        sub_mod(0, y, n) == y,
    ensures
        (2 * y) % n == 0,
{
    if y == 0 {
        lemma_mod_self_0(n as int);
        lemma_small_mod(0, n);
    } else {
        lemma_small_mod((n - y) as nat, n);
        assert(y == n - y);
        assert(2 * y == n);
        lemma_mod_self_0(n as int);
    }
}

/// With the doubled coordinate vanishing, the tangent denominator has no
/// inverse (for a modulus greater than one).
proof fn lemma_double_zero(y: nat, n: nat)
    requires
        n > 1,
        y < n,
        (2 * y) % n == 0,
    ensures
        !has_inv(mul_mod(2nat % n, y, n), n),
{
    let d = mul_mod(2nat % n, y, n);
    vstd::arithmetic::div_mod::lemma_mul_mod_noop_general(2, y as int, n as int);
    assert(d == 0);
    if has_inv(d, n) {
        let w = choose|w: nat| #[trigger] ((d * w) % n) == 1nat % n;
        vstd::arithmetic::mul::lemma_mul_by_zero_is_zero(w as int);
        lemma_small_mod(0, n);
        lemma_small_mod(1, n);
    }
}

/// Adding a finite point to itself is doubling: `P + P == double(P)`.
pub proof fn law_g1_add_self_is_double(p: (bool, nat, nat), n: nat)
    ensures
        spec_g1_add(p, p, n) == spec_g1_double(p, n),
{
}

} // verus!
