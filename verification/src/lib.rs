//! Byte-buffering core for a reliable stream built over an unreliable,
//! packet-oriented transport that orders bytes with 32-bit wrapping
//! sequence numbers.
//!
//! Two structures compose the layer:
//! - [`Cacher`]: a growable ring buffer addressed by a single advancing
//!   (wrapping) sequence number; it retains sent bytes pending
//!   acknowledgment and serves retransmission reads.
//! - [`RandomCacher`]: a growable ring buffer addressed by arbitrary
//!   absolute sequence positions; it absorbs out-of-order fragments and
//!   releases the longest contiguous prefix at the current expected
//!   sequence.
#![verifier::loop_isolation(false)]

use vstd::prelude::*;

mod ring;
mod seqnum;
mod ordered;
mod reorder;

pub use ordered::Cacher;
pub use reorder::RandomCacher;
pub use reorder::write_map;
pub use reorder::shift_map;
pub use reorder::lemma_prefix_len_unique;
pub use reorder::lemma_releases_concatenate;
pub use seqnum::seq_sub;
pub use seqnum::seq_add;
pub use seqnum::lemma_seq_round_trip;

verus! {

/// Initial capacity, in bytes, of either cache's ring buffer.
pub const INITIAL_CACHE_SIZE: usize = 65536;

/// Maximum capacity, in bytes, that either ring buffer may grow to.
pub const MAX_CACHE_SIZE: usize = 16 * INITIAL_CACHE_SIZE;

/// Acceptance window: the largest forward distance, in sequence space,
/// at which an incoming sequence number is still treated as valid rather
/// than stale or ambiguous.
pub const MAX_U32_WINDOW_SIZE: usize = 4194304;

/// Errors returned by the fallible cache operations.
#[derive(Debug, Clone, Copy, PartialEq, Eq, Structural)]
pub enum CacheError {
    /// The growth policy cannot accommodate the requested write within
    /// the maximum capacity bound.
    CapacityExhausted,
    /// A peek requested more bytes than the cache currently holds.
    InsufficientData,
}

/// Capacity after the doubling-capped growth policy has been applied to a
/// ring of capacity `cap` that must come to hold `need` bytes: unchanged
/// when `need` already fits, otherwise `min(max(2 * cap, need), MAX_CACHE_SIZE)`.
pub open spec fn grown_capacity(cap: int, need: int) -> int {
    if need <= cap {
        cap
    } else {
        let target = if 2 * cap >= need { 2 * cap } else { need };
        if target <= MAX_CACHE_SIZE { target } else { MAX_CACHE_SIZE as int }
    }
}

} // verus!
