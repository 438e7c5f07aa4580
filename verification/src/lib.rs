//! Finite-field and elliptic-curve arithmetic core for zero-knowledge-proof
//! primitives over a 256-bit pairing-friendly curve.
//!
//! Values are fixed-width multi-limb integers (4 little-endian 64-bit limbs).
//! Field elements are kept in Montgomery form; the Montgomery engine, the
//! prime field, the quadratic extension field and the affine curve group law
//! are all specified against their mathematical meaning and verified.

use vstd::prelude::*;

pub mod bn254;
pub mod field;
pub mod fp2;
pub mod laws;
pub mod limbs;
pub mod montgomery;
pub mod polynomial;
pub mod simd;
pub mod util;

verus! {

} // verus!
