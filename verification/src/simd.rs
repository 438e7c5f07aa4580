//! Scalar reference kernels for the vectorized field-operation fast paths.
//!
//! Vector acceleration is a drop-in replacement for these lane-wise
//! primitives and must produce bit-identical results; the kernels here are
//! the verified scalar default that an accelerated build dispatches to after
//! a capability probe (the probe itself lives outside the verified library).

use vstd::prelude::*;

verus! {

/// Lane-wise modular multiplication of four independent 64-bit lanes:
/// `r[i] == (a[i] * b[i]) mod m[i]`.
pub fn field_mul_avx2(a: &[u64; 4], b: &[u64; 4], modulus: &[u64; 4]) -> (r: [u64; 4])
    requires
        forall|i: int| 0 <= i < 4 ==> modulus[i] > 0,
    ensures
        forall|i: int|
            0 <= i < 4 ==> #[trigger] r[i] as nat == (a[i] as nat * b[i] as nat) % (
            modulus[i] as nat),
{
    let r0 = lane_mul(a[0], b[0], modulus[0]);
    let r1 = lane_mul(a[1], b[1], modulus[1]);
    let r2 = lane_mul(a[2], b[2], modulus[2]);
    let r3 = lane_mul(a[3], b[3], modulus[3]);
    [r0, r1, r2, r3]
}

/// Lane-wise modular addition of four independent 64-bit lanes:
/// `r[i] == (a[i] + b[i]) mod m[i]`.
pub fn field_add_avx2(a: &[u64; 4], b: &[u64; 4], modulus: &[u64; 4]) -> (r: [u64; 4])
    requires
        forall|i: int| 0 <= i < 4 ==> modulus[i] > 0,
    ensures
        forall|i: int|
            0 <= i < 4 ==> #[trigger] r[i] as nat == (a[i] as nat + b[i] as nat) % (
            modulus[i] as nat),
{
    let r0 = lane_add(a[0], b[0], modulus[0]);
    let r1 = lane_add(a[1], b[1], modulus[1]);
    let r2 = lane_add(a[2], b[2], modulus[2]);
    let r3 = lane_add(a[3], b[3], modulus[3]);
    [r0, r1, r2, r3]
}

/// One lane of the modular multiplication, through a double-width product.
fn lane_mul(x: u64, y: u64, m: u64) -> (r: u64)
    requires
        m > 0,
    ensures
        r as nat == (x as nat * y as nat) % m as nat,
{
    proof {
        vstd::arithmetic::mul::lemma_mul_upper_bound(
            x as int,
            u64::MAX as int,
            y as int,
            u64::MAX as int,
        );
        vstd::arithmetic::div_mod::lemma_mod_bound(
            (x as nat * y as nat) as int,
            m as int,
        );
    }
    let p: u128 = (x as u128) * (y as u128);
    (p % (m as u128)) as u64
}

/// One lane of the modular addition.
fn lane_add(x: u64, y: u64, m: u64) -> (r: u64)
    requires
        m > 0,
    ensures
        r as nat == (x as nat + y as nat) % m as nat,
{
    proof {
        vstd::arithmetic::div_mod::lemma_mod_bound((x as nat + y as nat) as int, m as int);
    }
    let s: u128 = (x as u128) + (y as u128);
    (s % (m as u128)) as u64
}

} // verus!
