//! Byte and limb conversion helpers: little-endian byte order throughout.

use vstd::prelude::*;

verus! {

use vstd::arithmetic::power2::pow2;
use vstd::arithmetic::div_mod::{lemma_fundamental_div_mod, lemma_small_mod};
use crate::limbs::{l4, lemma_limb_powers};

/// The value of one byte chunk of up to eight little-endian bytes, starting
/// at `start` in `bytes`.
pub open spec fn chunk_val(bytes: Seq<u8>, start: int, len: int) -> nat
    decreases len,
{
    if len <= 0 || start >= bytes.len() {
        0
    } else {
        bytes[start] as nat + 256 * chunk_val(bytes, start + 1, len - 1)
    }
}

/// Copies a byte slice into a fixed-size array, zero-padding the tail.
pub fn to_fixed_bytes<const N: usize>(bytes: &[u8]) -> (r: [u8; N])
    requires
        bytes@.len() <= N,
    ensures
        forall|i: int| 0 <= i < bytes@.len() ==> r[i] == bytes@[i],
        forall|i: int| bytes@.len() <= i < N ==> r[i] == 0,
{
    let mut result = [0u8; N];
    let mut i: usize = 0;
    while i < bytes.len()
        invariant
            i <= bytes@.len(),
            bytes@.len() <= N,
            forall|j: int| 0 <= j < i ==> result[j] == bytes@[j],
            forall|j: int| i <= j < N ==> result[j] == 0,
        decreases bytes@.len() - i,
    {
        result[i] = bytes[i];
        i = i + 1;
    }
    result
}

/// Converts little-endian bytes to 64-bit limbs, eight bytes per limb; a
/// ragged tail is zero-extended.
pub fn bytes_to_limbs(bytes: &[u8]) -> (r: Vec<u64>)
    requires
        bytes@.len() <= usize::MAX - 16,
    ensures
        r@.len() == (bytes@.len() + 7) / 8,
        forall|i: int|
            0 <= i < r@.len() ==> #[trigger] r@[i] as nat == chunk_val(bytes@, 8 * i, 8),
{
    let mut limbs: Vec<u64> = Vec::new();
    let mut i: usize = 0;
    while i * 8 < bytes.len()
        invariant
            bytes@.len() <= usize::MAX - 16,
            limbs@.len() == i,
            i * 8 <= bytes@.len() + 7,
            i == 0 || (i - 1) * 8 < bytes@.len(),
            forall|t: int|
                0 <= t < i ==> #[trigger] limbs@[t] as nat == chunk_val(bytes@, 8 * t, 8),
        decreases bytes@.len() - i * 8 + 8,
    {
        let mut limb: u64 = 0;
        let mut j: usize = 8;
        proof {
            vstd::arithmetic::power2::lemma2_to64();
        }
        while j > 0
            invariant
                j <= 8,
                bytes@.len() <= usize::MAX - 16,
                i * 8 < bytes@.len(),
                limb as nat == chunk_val(bytes@, 8 * i as int + j as int, 8 - j as int),
                limb < pow2((8 * (8 - j as nat)) as nat),
            decreases j,
        {
            j = j - 1;
            let b: u8 = if i * 8 + j < bytes.len() {
                bytes[i * 8 + j]
            } else {
                0
            };
            proof {
                vstd::arithmetic::power2::lemma2_to64();
                vstd::arithmetic::power2::lemma_pow2_adds((8 * (7 - j as nat)) as nat, 8);
                assert(limb < pow2((8 * (7 - j as nat)) as nat));
                assert(pow2((8 * (8 - j as nat)) as nat) == pow2((8 * (7 - j as nat)) as nat)
                    * 256);
                assert(pow2((8 * (8 - j as nat)) as nat) > limb as nat * 256 + b as nat);
                if 8 * (8 - j as nat) < 64 {
                    vstd::arithmetic::power2::lemma_pow2_strictly_increases(
                        (8 * (8 - j as nat)) as nat,
                        64,
                    );
                }
                assert(pow2((8 * (8 - j as nat)) as nat) <= pow2(64));
                if !(8 * i as int + j + 1 <= bytes@.len()) {
                    assert(chunk_val(bytes@, 8 * i as int + j + 1, 7 - j as int) == 0);
                }
            }
            limb = limb * 256 + (b as u64);
        }
        limbs.push(limb);
        i = i + 1;
    }
    proof {
        if i == 0 {
            assert(bytes@.len() == 0);
            assert((bytes@.len() + 7) / 8 == 0);
        } else {
            assert(8 * i >= bytes@.len() && 8 * (i - 1) < bytes@.len());
            vstd::arithmetic::div_mod::lemma_fundamental_div_mod_converse_div(
                bytes@.len() as int + 7,
                8,
                i as int,
                bytes@.len() as int + 7 - 8 * i as int,
            );
        }
    }
    limbs
}

/// Converts four limbs to their 32 little-endian bytes.
pub fn to_bytes(limbs: &[u64; 4]) -> (r: Vec<u8>)
    ensures
        r@.len() == 32,
        forall|i: int, j: int|
            0 <= i < 4 && 0 <= j < 8 ==> #[trigger] r@[8 * i + j] as nat == (limbs[i] as nat
                / pow2((8 * j) as nat)) % 256,
{
    let mut bytes: Vec<u8> = Vec::new();
    let mut i: usize = 0;
    while i < 4
        invariant
            i <= 4,
            bytes@.len() == 8 * i,
            forall|t: int, j: int|
                0 <= t < i && 0 <= j < 8 ==> #[trigger] bytes@[8 * t + j] as nat == (
                limbs[t] as nat / pow2((8 * j) as nat)) % 256,
        decreases 4 - i,
    {
        let mut v: u64 = limbs[i];
        let mut j: usize = 0;
        proof {
            vstd::arithmetic::power2::lemma2_to64();
            vstd::arithmetic::div_mod::lemma_div_basics(limbs[i as int] as int);
        }
        while j < 8
            invariant
                j <= 8,
                i < 4,
                bytes@.len() == 8 * i + j,
                v as nat == limbs[i as int] as nat / pow2((8 * j) as nat),
                forall|t: int, jj: int|
                    0 <= t < i && 0 <= jj < 8 ==> #[trigger] bytes@[8 * t + jj] as nat == (
                    limbs[t] as nat / pow2((8 * jj) as nat)) % 256,
                forall|jj: int|
                    0 <= jj < j ==> #[trigger] bytes@[8 * i + jj] as nat == (
                    limbs[i as int] as nat / pow2((8 * jj) as nat)) % 256,
        decreases 8 - j,
        {
            let b: u8 = (v % 256) as u8;
            bytes.push(b);
            proof {
                vstd::arithmetic::power2::lemma2_to64();
                vstd::arithmetic::power2::lemma_pow2_adds((8 * j) as nat, 8);
                vstd::arithmetic::power2::lemma_pow2_pos((8 * j) as nat);
                vstd::arithmetic::div_mod::lemma_div_denominator(
                    limbs[i as int] as int,
                    pow2((8 * j) as nat) as int,
                    256,
                );
            }
            v = v / 256;
            j = j + 1;
        }
        i = i + 1;
    }
    bytes
}

} // verus!
