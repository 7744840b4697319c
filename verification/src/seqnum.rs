//! 32-bit wrapping sequence-number arithmetic.
//!
//! Sequence numbers identify positions in an unbounded logical byte
//! stream and wrap modulo 2^32. Distances and advances are therefore
//! computed with explicit modular arithmetic.

use vstd::prelude::*;

verus! {

/// One past the largest 32-bit sequence number; the modulus of the
/// sequence space.
pub const SEQ_MODULUS: u64 = 0x1_0000_0000;

/// Forward distance from `b` to `a` in the wrapping sequence space:
/// `(a - b) mod 2^32`.
pub open spec fn seq_sub(a: u32, b: u32) -> int {
    if a >= b {
        a - b
    } else {
        a + SEQ_MODULUS - b
    }
}

/// Sequence number `d` positions after `a` in the wrapping sequence
/// space: `(a + d) mod 2^32`, for `0 <= d < 2^32`.
pub open spec fn seq_add(a: u32, d: int) -> int {
    if a + d < SEQ_MODULUS {
        a + d
    } else {
        a + d - SEQ_MODULUS
    }
}

/// Wraparound round trip: advancing a sequence number by `d` and taking
/// the wrapped distance back to the start recovers `d`, even when the
/// advance crosses the 32-bit boundary.
pub proof fn lemma_seq_round_trip(a: u32, d: u32)
    ensures
        seq_sub(seq_add(a, d as int) as u32, a) == d,
{
}

/// Exec computation of [`seq_sub`], without overflow.
pub(crate) fn seq_distance(a: u32, b: u32) -> (r: u32)
    ensures
        r == seq_sub(a, b),
{
    if a >= b {
        a - b
    } else {
        ((a as u64 + SEQ_MODULUS) - b as u64) as u32
    }
}

/// Exec computation of [`seq_add`], without overflow.
pub(crate) fn seq_advance(a: u32, d: u32) -> (r: u32)
    ensures
        r == seq_add(a, d as int),
{
    let s: u64 = a as u64 + d as u64;
    if s < SEQ_MODULUS {
        s as u32
    } else {
        (s - SEQ_MODULUS) as u32
    }
}

} // verus!
