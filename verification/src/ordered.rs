//! The ordered cache: a growable ring buffer addressed by a single
//! monotonically advancing (wrapping) sequence number.
//!
//! Bytes are appended only at the logical tail and discarded only from
//! the logical head, in sequence order. The structure retains outgoing
//! bytes pending acknowledgment and serves retransmission reads.

use vstd::prelude::*;

use crate::CacheError;
use crate::INITIAL_CACHE_SIZE;
use crate::MAX_CACHE_SIZE;
use crate::MAX_U32_WINDOW_SIZE;
use crate::grown_capacity;
use crate::ring::ring_pos;
use crate::ring::lemma_ring_pos_shift;
use crate::ring::ring_index;
use crate::ring::ring_read;
use crate::ring::ring_write;
use crate::ring::grow_ring;
use crate::ring::zero_vec;
use crate::seqnum::seq_sub;
use crate::seqnum::seq_distance;

verus! {

/// The ordered (linear) cache.
#[derive(Debug)]
pub struct Cacher {
    buffer: Vec<u8>,
    sequence: u32,
    head: usize,
    size: usize,
}

impl Cacher {
    /// Structural well-formedness: the head is a valid index, the valid
    /// bytes fit, and the capacity stays between the initial and the
    /// maximum size.
    pub closed spec fn wf(self) -> bool {
        &&& self.head < self.buffer@.len()
        &&& self.size <= self.buffer@.len()
        &&& INITIAL_CACHE_SIZE <= self.buffer@.len() <= MAX_CACHE_SIZE
    }

    /// The valid bytes, in sequence order: the byte at logical offset
    /// `i` lives at array position `(head + i) % capacity`.
    pub closed spec fn contents(self) -> Seq<u8> {
        Seq::new(
            self.size as nat,
            |i: int| self.buffer@[ring_pos(self.head as int, i, self.buffer@.len() as int)],
        )
    }

    /// The sequence number of the first valid byte.
    pub closed spec fn base(self) -> u32 {
        self.sequence
    }

    /// The current allocated length of the ring.
    pub closed spec fn capacity(self) -> int {
        self.buffer@.len() as int
    }

    /// Creates an empty cache whose first byte will carry the given
    /// sequence number.
    pub fn new(sequence: u32) -> (r: Cacher)
        ensures
            r.wf(),
            r.contents() == Seq::<u8>::empty(),
            r.base() == sequence,
            r.capacity() == INITIAL_CACHE_SIZE,
    {
        let r = Cacher { buffer: zero_vec(INITIAL_CACHE_SIZE), sequence, head: 0, size: 0 };
        proof {
            assert(r.contents() =~= Seq::<u8>::empty());
        }
        r
    }

    /// Appends `data` at the logical tail, doubling the capacity (capped
    /// at [`MAX_CACHE_SIZE`]) when the ring is too small. Fails, leaving
    /// the cache unchanged, exactly when even the maximum capacity cannot
    /// hold existing plus new bytes.
    pub fn append(&mut self, data: &[u8]) -> (r: Result<(), CacheError>)
        requires
            old(self).wf(),
        ensures
            final(self).wf(),
            final(self).base() == old(self).base(),
            match r {
                Ok(()) => {
                    &&& old(self).contents().len() + data@.len() <= MAX_CACHE_SIZE
                    &&& final(self).contents() == old(self).contents() + data@
                    &&& final(self).capacity() == (if data@.len()
                        <= old(self).capacity() - old(self).contents().len() {
                        old(self).capacity()
                    } else {
                        grown_capacity(
                            old(self).capacity(),
                            old(self).capacity() + data@.len() as int,
                        )
                    })
                },
                Err(e) => {
                    &&& e == CacheError::CapacityExhausted
                    &&& old(self).contents().len() + data@.len() > MAX_CACHE_SIZE
                    &&& *final(self) == *old(self)
                },
            },
    {
        let n = data.len();
        if n > MAX_CACHE_SIZE || self.size > MAX_CACHE_SIZE - n {
            return Err(CacheError::CapacityExhausted);
        }
        let ghost pre = *self;
        if n > self.buffer.len() - self.size {
            // Grow: copy the ring into a larger one, normalizing the head to 0.
            let mut target = self.buffer.len() * 2;
            if self.buffer.len() + n > target {
                target = self.buffer.len() + n;
            }
            if target > MAX_CACHE_SIZE {
                target = MAX_CACHE_SIZE;
            }
            grow_ring(&mut self.buffer, self.head, self.size, target);
            self.head = 0;
            proof {
                assert(self.contents() =~= pre.contents());
            }
        }
        let ghost mid = *self;
        ring_write(&mut self.buffer, self.head, self.size, data);
        self.size = self.size + n;
        proof {
            assert forall|i: int| 0 <= i < self.size implies self.contents()[i] == (
            pre.contents() + data@)[i] by {
                if i < mid.size {
                    assert(self.buffer@[ring_pos(
                        mid.head as int,
                        i,
                        mid.buffer@.len() as int,
                    )] == mid.buffer@[ring_pos(mid.head as int, i, mid.buffer@.len() as int)]);
                }
            }
            assert(self.contents() =~= pre.contents() + data@);
        }
        Ok(())
    }

    /// Discards all bytes before `sequence`. A request whose wrapped
    /// distance from the current base exceeds the acceptance window is a
    /// silent no-op (a stale or out-of-window acknowledgment).
    pub fn invalidate_to(&mut self, sequence: u32)
        requires
            old(self).wf(),
        ensures
            final(self).wf(),
            final(self).capacity() == old(self).capacity(),
            ({
                let delta = seq_sub(sequence, old(self).base());
                if delta <= MAX_U32_WINDOW_SIZE {
                    &&& final(self).base() == sequence
                    &&& final(self).contents() == (if delta <= old(self).contents().len() {
                        old(self).contents().skip(delta)
                    } else {
                        Seq::<u8>::empty()
                    })
                } else {
                    *final(self) == *old(self)
                }
            }),
    {
        let ghost pre = *self;
        let delta_wrapped = seq_distance(sequence, self.sequence);
        let delta = delta_wrapped as usize;
        if delta <= MAX_U32_WINDOW_SIZE {
            self.sequence = sequence;
            if delta >= self.size {
                self.size = 0;
                self.head = 0;
                proof {
                    assert(self.contents() =~= Seq::<u8>::empty());
                    if delta <= pre.contents().len() {
                        assert(self.contents() =~= pre.contents().skip(delta as int));
                    }
                }
            } else {
                self.head = ring_index(self.head, delta, self.buffer.len());
                self.size = self.size - delta;
                proof {
                    let cap = pre.buffer@.len() as int;
                    assert forall|i: int| 0 <= i < self.size implies self.contents()[i]
                        == pre.contents().skip(delta as int)[i] by {
                        lemma_ring_pos_shift(pre.head as int, delta as int, i, cap);
                    }
                    assert(self.contents() =~= pre.contents().skip(delta as int));
                }
            }
        }
    }

    /// Peeks `count` bytes from the beginning of the cache,
    /// non-destructively. Fails exactly when `count` exceeds the bytes
    /// currently held.
    pub fn get(&self, count: usize) -> (r: Result<Vec<u8>, CacheError>)
        requires
            self.wf(),
        ensures
            match r {
                Ok(v) => {
                    &&& count <= self.contents().len()
                    &&& v@ == self.contents().take(count as int)
                },
                Err(e) => {
                    &&& e == CacheError::InsufficientData
                    &&& count > self.contents().len()
                },
            },
    {
        if count > self.size {
            return Err(CacheError::InsufficientData);
        }
        let v = ring_read(&self.buffer, self.head, count);
        proof {
            assert(v@ =~= self.contents().take(count as int));
        }
        Ok(v)
    }

    /// Peeks all currently held bytes.
    pub fn get_all(&self) -> (r: Result<Vec<u8>, CacheError>)
        requires
            self.wf(),
        ensures
            match r {
                Ok(v) => v@ == self.contents(),
                Err(_) => false,
            },
    {
        let r = self.get(self.size);
        proof {
            assert(self.contents().take(self.size as int) =~= self.contents());
        }
        r
    }

    /// The sequence number of the first valid byte.
    pub fn get_sequence(&self) -> (r: u32)
        ensures
            r == self.base(),
    {
        self.sequence
    }

    /// The number of valid bytes currently held.
    pub fn get_size(&self) -> (r: usize)
        ensures
            r == self.contents().len(),
    {
        self.size
    }
}

} // verus!
