//! Ring-buffer indexing: positions, wrapping reads and writes.
//!
//! A ring of capacity `cap` stores the byte at logical offset `off`
//! (counted from the `head` index) at array position
//! `(head + off) % cap`. All offsets used here are at most `cap`, so the
//! modulus is a single conditional subtraction.

use vstd::prelude::*;

verus! {

/// Array position of logical offset `off` in a ring of capacity `cap`
/// whose first valid byte sits at index `head`. Meaningful for
/// `0 <= head < cap` and `0 <= off <= cap`.
pub open spec fn ring_pos(head: int, off: int, cap: int) -> int {
    if head + off < cap {
        head + off
    } else {
        head + off - cap
    }
}

/// A position computed through one wrap equals the position of the summed
/// offset: advancing the head by `d` and then indexing at `i` lands on the
/// same array cell as indexing at `d + i` from the original head.
pub proof fn lemma_ring_pos_shift(head: int, d: int, i: int, cap: int)
    requires
        0 <= head < cap,
        0 <= d <= cap,
        0 <= i,
        d + i <= cap,
    ensures
        ring_pos(ring_pos(head, d, cap), i, cap) == ring_pos(head, d + i, cap),
{
}

/// Exec computation of [`ring_pos`], without overflow.
pub(crate) fn ring_index(head: usize, off: usize, cap: usize) -> (r: usize)
    requires
        head < cap,
        off <= cap,
    ensures
        r == ring_pos(head as int, off as int, cap as int),
        r < cap,
{
    if off < cap - head {
        head + off
    } else {
        off - (cap - head)
    }
}

/// Allocates a zeroed byte vector of length `n`.
pub(crate) fn zero_vec(n: usize) -> (r: Vec<u8>)
    ensures
        r@.len() == n,
{
    let mut r: Vec<u8> = Vec::new();
    while r.len() < n
        invariant
            r@.len() <= n,
        decreases n - r@.len(),
    {
        r.push(0u8);
    }
    r
}

/// Writes `data` into the ring starting at logical offset `off`, wrapping
/// past the end of the array as needed. Positions outside the written
/// offsets keep their bytes.
pub(crate) fn ring_write(buf: &mut Vec<u8>, head: usize, off: usize, data: &[u8])
    requires
        head < old(buf)@.len(),
        off + data@.len() <= old(buf)@.len(),
    ensures
        final(buf)@.len() == old(buf)@.len(),
        forall|j: int|
            0 <= j < data@.len() ==> final(buf)@[ring_pos(
                head as int,
                off + j,
                old(buf)@.len() as int,
            )] == data@[j],
        forall|i: int|
            0 <= i < old(buf)@.len() && !(off <= i < off + data@.len()) ==> final(buf)@[ring_pos(
                head as int,
                i,
                old(buf)@.len() as int,
            )] == old(buf)@[ring_pos(head as int, i, old(buf)@.len() as int)],
{
    let ghost cap = buf@.len() as int;
    let mut j: usize = 0;
    while j < data.len()
        invariant
            j <= data@.len(),
            buf@.len() == old(buf)@.len(),
            off + data@.len() <= buf@.len(),
            head < buf@.len(),
            forall|k: int|
                0 <= k < j ==> buf@[ring_pos(head as int, off + k, cap)] == data@[k],
            forall|i: int|
                0 <= i < cap && !(off <= i < off + j) ==> buf@[ring_pos(head as int, i, cap)]
                    == old(buf)@[ring_pos(head as int, i, cap)],
        decreases data@.len() - j,
    {
        let cap_now = buf.len();
        assert(off + j < cap_now);
        let p = ring_index(head, off + j, cap_now);
        buf[p] = data[j];
        j = j + 1;
    }
}

/// Reads `n` bytes from the ring starting at the head, wrapping past the
/// end of the array as needed.
pub(crate) fn ring_read(buf: &Vec<u8>, head: usize, n: usize) -> (r: Vec<u8>)
    requires
        head < buf@.len(),
        n <= buf@.len(),
    ensures
        r@.len() == n,
        forall|j: int|
            0 <= j < n ==> r@[j] == buf@[ring_pos(head as int, j, buf@.len() as int)],
{
    let mut r: Vec<u8> = Vec::new();
    while r.len() < n
        invariant
            r@.len() <= n,
            forall|j: int|
                0 <= j < r@.len() ==> r@[j] == buf@[ring_pos(head as int, j, buf@.len() as int)],
        decreases n - r@.len(),
    {
        let p = ring_index(head, r.len(), buf.len());
        let b = buf[p];
        r.push(b);
    }
    r
}

/// Replaces `buf` by a fresh ring of length `target` whose first `size`
/// bytes are the ring's logical contents read from `head`; the rest is
/// zeroed. The caller resets its head to 0 afterwards.
pub(crate) fn grow_ring(buf: &mut Vec<u8>, head: usize, size: usize, target: usize)
    requires
        head < old(buf)@.len(),
        size <= old(buf)@.len(),
        old(buf)@.len() <= target,
    ensures
        final(buf)@.len() == target,
        forall|i: int|
            0 <= i < size ==> final(buf)@[i] == old(buf)@[ring_pos(
                head as int,
                i,
                old(buf)@.len() as int,
            )],
{
    let mut nb = ring_read(buf, head, size);
    while nb.len() < target
        invariant
            size <= nb@.len() <= target,
            forall|i: int|
                0 <= i < size ==> nb@[i] == old(buf)@[ring_pos(
                    head as int,
                    i,
                    old(buf)@.len() as int,
                )],
        decreases target - nb@.len(),
    {
        nb.push(0u8);
    }
    *buf = nb;
}

} // verus!
