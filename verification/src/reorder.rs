//! The reordering cache: a growable ring buffer addressed by arbitrary
//! absolute sequence positions within an acceptance window.
//!
//! Fragments may be written at any in-window offset; the structure tracks
//! which sub-ranges ahead of the release point are filled and releases
//! the longest filled prefix as soon as it touches the release point.

use vstd::prelude::*;

use crate::CacheError;
use crate::INITIAL_CACHE_SIZE;
use crate::MAX_CACHE_SIZE;
use crate::MAX_U32_WINDOW_SIZE;
use crate::grown_capacity;
use crate::ring::ring_pos;
use crate::ring::lemma_ring_pos_shift;
use crate::ring::ring_index;
use crate::ring::ring_read;
use crate::ring::ring_write;
use crate::ring::grow_ring;
use crate::ring::zero_vec;
use crate::seqnum::SEQ_MODULUS;
use crate::seqnum::seq_sub;
use crate::seqnum::seq_add;
use crate::seqnum::seq_distance;
use crate::seqnum::seq_advance;

verus! {

/// The bytes a single fragment write contributes, as a map from logical
/// offsets (relative to the release point) to byte values: offset
/// `off + j` holds `data[j]`.
pub open spec fn write_map(off: int, data: Seq<u8>) -> Map<int, u8> {
    Map::new(|o: int| off <= o < off + data.len(), |o: int| data[o - off])
}

/// `m` with every offset moved down by `d` (offsets below `d` dropped):
/// the view of the filled bytes after the release point advanced by `d`.
pub open spec fn shift_map(m: Map<int, u8>, d: int) -> Map<int, u8> {
    Map::new(|o: int| o >= 0 && m.dom().contains(o + d), |o: int| m[o + d])
}

/// Whether extended position `k` falls inside one of the tracked ranges.
spec fn rs_covers(rs: Seq<(u64, usize)>, k: int) -> bool {
    exists|i: int| 0 <= i < rs.len() && (#[trigger] rs[i]).0 <= k < rs[i].0 + rs[i].1
}

/// Well-formed range list: lengths positive, every range strictly ahead
/// of `base`, every range ending by `bound`, and ranges sorted with a
/// gap of at least one position between consecutive ranges.
spec fn rs_wf(rs: Seq<(u64, usize)>, base: int, bound: int) -> bool {
    &&& forall|i: int| 0 <= i < rs.len() ==> (#[trigger] rs[i]).1 >= 1
    &&& forall|i: int| 0 <= i < rs.len() ==> base < (#[trigger] rs[i]).0
    &&& forall|i: int| 0 <= i < rs.len() ==> (#[trigger] rs[i]).0 + rs[i].1 <= bound
    &&& forall|i: int, j: int|
        0 <= i < j < rs.len() ==> (#[trigger] rs[i]).0 + rs[i].1 < (#[trigger] rs[j]).0
}

/// Index of the first range that ends at or past `ks` (overlapping or
/// touching an interval that starts there); the list length if none does.
#[verifier::loop_isolation(false)]
fn find_lo(rs: &Vec<(u64, usize)>, ks: u64, Ghost(bound): Ghost<int>) -> (lo: usize)
    requires
        forall|i: int| 0 <= i < rs@.len() ==> (#[trigger] rs@[i]).0 + rs@[i].1 <= bound,
        bound <= 0x2_0000_0000,
    ensures
        lo <= rs@.len(),
        forall|i: int| 0 <= i < lo ==> (#[trigger] rs@[i]).0 + rs@[i].1 < ks as int,
        lo < rs@.len() ==> rs@[lo as int].0 + rs@[lo as int].1 >= ks as int,
{
    let mut lo: usize = 0;
    while lo < rs.len() && rs[lo].0 + (rs[lo].1 as u64) < ks
        invariant
            lo <= rs@.len(),
            forall|i: int| 0 <= i < lo ==> (#[trigger] rs@[i]).0 + rs@[i].1 < ks as int,
        decreases rs@.len() - lo,
    {
        lo = lo + 1;
    }
    lo
}

/// Index of the first range at or past `lo` that starts strictly past
/// `ke`; the list length if none does.
#[verifier::loop_isolation(false)]
fn find_hi(rs: &Vec<(u64, usize)>, lo: usize, ke: u64) -> (hi: usize)
    requires
        lo <= rs@.len(),
    ensures
        lo <= hi <= rs@.len(),
        forall|i: int| lo <= i < hi ==> (#[trigger] rs@[i]).0 <= ke as int,
        hi < rs@.len() ==> rs@[hi as int].0 > ke as int,
{
    let mut hi: usize = lo;
    while hi < rs.len() && rs[hi].0 <= ke
        invariant
            lo <= hi <= rs@.len(),
            forall|i: int| lo <= i < hi ==> (#[trigger] rs@[i]).0 <= ke as int,
        decreases rs@.len() - hi,
    {
        hi = hi + 1;
    }
    hi
}

/// Copy of `rs` with the ranges at indices `[lo, hi)` replaced by the
/// single range `m`.
#[verifier::loop_isolation(false)]
fn rebuild(rs: &Vec<(u64, usize)>, lo: usize, hi: usize, m: (u64, usize)) -> (nr: Vec<
    (u64, usize),
>)
    requires
        lo <= hi <= rs@.len(),
    ensures
        nr@ == rs@.subrange(0, lo as int) + seq![m] + rs@.subrange(hi as int, rs@.len() as int),
{
    let mut nr: Vec<(u64, usize)> = Vec::new();
    let mut i: usize = 0;
    while i < lo
        invariant
            i <= lo,
            nr@ == rs@.subrange(0, i as int),
        decreases lo - i,
    {
        let e = rs[i];
        nr.push(e);
        i = i + 1;
        proof {
            assert(nr@ =~= rs@.subrange(0, i as int));
        }
    }
    nr.push(m);
    let mut j: usize = hi;
    while j < rs.len()
        invariant
            hi <= j <= rs@.len(),
            nr@ == rs@.subrange(0, lo as int) + seq![m] + rs@.subrange(hi as int, j as int),
        decreases rs@.len() - j,
    {
        let e = rs[j];
        nr.push(e);
        j = j + 1;
        proof {
            assert(nr@ =~= rs@.subrange(0, lo as int) + seq![m] + rs@.subrange(
                hi as int,
                j as int,
            ));
        }
    }
    proof {
        assert(nr@ =~= rs@.subrange(0, lo as int) + seq![m] + rs@.subrange(
            hi as int,
            rs@.len() as int,
        ));
    }
    nr
}

/// Removes every range that overlaps or touches `[ks, ks + n)` together
/// with an abutting predecessor, folds them all, plus the new interval,
/// into one merged interval, and inserts that interval in place.
fn merge_insert(
    rs: &mut Vec<(u64, usize)>,
    ks: u64,
    n: usize,
    Ghost(base): Ghost<int>,
    Ghost(bound): Ghost<int>,
)
    requires
        rs_wf(old(rs)@, base, bound),
        n >= 1,
        0 <= base <= ks as int,
        ks as int + n <= bound,
        bound - base <= MAX_CACHE_SIZE,
        bound <= 0x2_0000_0000,
    ensures
        final(rs)@.len() >= 1,
        forall|i: int| 0 <= i < final(rs)@.len() ==> (#[trigger] final(rs)@[i]).1 >= 1,
        forall|i: int| 0 <= i < final(rs)@.len() ==> base <= (#[trigger] final(rs)@[i]).0,
        forall|i: int| 1 <= i < final(rs)@.len() ==> base < (#[trigger] final(rs)@[i]).0,
        forall|i: int|
            0 <= i < final(rs)@.len() ==> (#[trigger] final(rs)@[i]).0 + final(rs)@[i].1
                <= bound,
        forall|i: int, j: int|
            0 <= i < j < final(rs)@.len() ==> (#[trigger] final(rs)@[i]).0 + final(rs)@[i].1
                < (#[trigger] final(rs)@[j]).0,
        (final(rs)@[0].0 as int == base) <==> (ks as int == base),
        forall|k: int|
            #[trigger] rs_covers(final(rs)@, k) <==> rs_covers(old(rs)@, k) || (ks <= k < ks
                as int + n),
{
    let ghost s0 = rs@;
    let ke: u64 = ks + n as u64;
    let lo = find_lo(rs, ks, Ghost(bound));
    let hi = find_hi(rs, lo, ke);
    // Merged interval: smallest start, furthest end.
    let mut ms: u64 = ks;
    let mut me: u64 = ke;
    if lo < hi {
        if rs[lo].0 < ks {
            ms = rs[lo].0;
        }
        let last_end: u64 = rs[hi - 1].0 + (rs[hi - 1].1 as u64);
        if last_end > ke {
            me = last_end;
        }
    }
    let mlen: usize = (me - ms) as usize;
    let nr = rebuild(rs, lo, hi, (ms, mlen));
    *rs = nr;
    proof {
        lemma_merge_properties(s0, rs@, ks, n, lo as int, hi as int, ms, me, mlen, base, bound);
    }
}

/// After the rebuild in [`merge_insert`], a position is covered exactly
/// when it was covered before or lies in the new interval.
#[verifier::rlimit(100)]
proof fn lemma_merge_cover(
    s0: Seq<(u64, usize)>,
    ns: Seq<(u64, usize)>,
    ks: u64,
    n: usize,
    lo: int,
    hi: int,
    ms: u64,
    me: u64,
    mlen: usize,
    base: int,
    bound: int,
)
    requires
        rs_wf(s0, base, bound),
        n >= 1,
        0 <= base <= ks as int,
        ks as int + n <= bound,
        bound - base <= MAX_CACHE_SIZE,
        bound <= 0x2_0000_0000,
        0 <= lo <= hi <= s0.len(),
        forall|i: int| 0 <= i < lo ==> (#[trigger] s0[i]).0 + s0[i].1 < ks as int,
        lo < hi ==> s0[lo].0 + s0[lo].1 >= ks as int,
        forall|i: int| lo <= i < hi ==> (#[trigger] s0[i]).0 <= ks as int + n,
        hi < s0.len() ==> s0[hi].0 > ks as int + n,
        ms as int == (if lo < hi && s0[lo].0 < ks { s0[lo].0 as int } else { ks as int }),
        me as int == (if lo < hi && s0[hi - 1].0 + s0[hi - 1].1 > ks as int + n {
            s0[hi - 1].0 + s0[hi - 1].1
        } else {
            ks as int + n
        }),
        mlen == me - ms,
        ns == s0.subrange(0, lo) + seq![(ms, mlen)] + s0.subrange(hi, s0.len() as int),
    ensures
        forall|k: int|
            #[trigger] rs_covers(ns, k) <==> rs_covers(s0, k) || (ks <= k < ks as int + n),
{
    let ksi = ks as int;
    let kei = ks as int + n;
    let msi = ms as int;
    let mei = me as int;
    let len0 = s0.len() as int;
    assert(ns.len() == lo + 1 + (len0 - hi));
    assert(forall|t: int| 0 <= t < lo ==> ns[t] == s0[t]);
    assert(ns[lo] == (ms, mlen));
    assert(forall|t: int| lo < t < ns.len() ==> ns[t] == s0[t - lo - 1 + hi]);
    assert(msi <= ksi && kei <= mei);
    assert(forall|t: int|
        lo <= t < hi ==> msi <= (#[trigger] s0[t]).0 && s0[t].0 + s0[t].1 <= mei);
    assert forall|k: int|
        #[trigger] rs_covers(ns, k) <==> rs_covers(s0, k) || (ksi <= k < kei) by {
        if rs_covers(ns, k) {
            let t = choose|t: int|
                0 <= t < ns.len() && (#[trigger] ns[t]).0 <= k < ns[t].0 + ns[t].1;
            if t < lo {
                assert(s0[t].0 <= k < s0[t].0 + s0[t].1);
                assert(rs_covers(s0, k));
            } else if t > lo {
                let u = t - lo - 1 + hi;
                assert(s0[u].0 <= k < s0[u].0 + s0[u].1);
                assert(rs_covers(s0, k));
            } else {
                // Inside the merged interval.
                if k < ksi {
                    assert(lo < hi && msi == s0[lo].0);
                    assert(s0[lo].0 + s0[lo].1 >= ksi);
                    assert(s0[lo].0 <= k < s0[lo].0 + s0[lo].1);
                    assert(rs_covers(s0, k));
                } else if k >= kei {
                    assert(lo < hi && mei == s0[hi - 1].0 + s0[hi - 1].1);
                    assert(s0[hi - 1].0 <= kei);
                    assert(s0[hi - 1].0 <= k < s0[hi - 1].0 + s0[hi - 1].1);
                    assert(rs_covers(s0, k));
                }
            }
        }
        if rs_covers(s0, k) || (ksi <= k < kei) {
            if ksi <= k < kei {
                assert(ns[lo].0 <= k < ns[lo].0 + ns[lo].1);
                assert(rs_covers(ns, k));
            } else {
                let t = choose|t: int|
                    0 <= t < s0.len() && (#[trigger] s0[t]).0 <= k < s0[t].0 + s0[t].1;
                if t < lo {
                    assert(ns[t].0 <= k < ns[t].0 + ns[t].1);
                    assert(rs_covers(ns, k));
                } else if t >= hi {
                    let u = t + lo + 1 - hi;
                    assert(ns[u].0 <= k < ns[u].0 + ns[u].1);
                    assert(rs_covers(ns, k));
                } else {
                    assert(ns[lo].0 <= k < ns[lo].0 + ns[lo].1);
                    assert(rs_covers(ns, k));
                }
            }
        }
    }
}

/// After the rebuild in [`merge_insert`], the new list is well formed and
/// covers exactly the old positions plus the new interval.
#[verifier::rlimit(60)]
proof fn lemma_merge_properties(
    s0: Seq<(u64, usize)>,
    ns: Seq<(u64, usize)>,
    ks: u64,
    n: usize,
    lo: int,
    hi: int,
    ms: u64,
    me: u64,
    mlen: usize,
    base: int,
    bound: int,
)
    requires
        rs_wf(s0, base, bound),
        n >= 1,
        0 <= base <= ks as int,
        ks as int + n <= bound,
        bound - base <= MAX_CACHE_SIZE,
        bound <= 0x2_0000_0000,
        0 <= lo <= hi <= s0.len(),
        forall|i: int| 0 <= i < lo ==> (#[trigger] s0[i]).0 + s0[i].1 < ks as int,
        lo < hi ==> s0[lo].0 + s0[lo].1 >= ks as int,
        forall|i: int| lo <= i < hi ==> (#[trigger] s0[i]).0 <= ks as int + n,
        hi < s0.len() ==> s0[hi].0 > ks as int + n,
        ms as int == (if lo < hi && s0[lo].0 < ks { s0[lo].0 as int } else { ks as int }),
        me as int == (if lo < hi && s0[hi - 1].0 + s0[hi - 1].1 > ks as int + n {
            s0[hi - 1].0 + s0[hi - 1].1
        } else {
            ks as int + n
        }),
        mlen == me - ms,
        ns == s0.subrange(0, lo) + seq![(ms, mlen)] + s0.subrange(hi, s0.len() as int),
    ensures
        ns.len() >= 1,
        forall|i: int| 0 <= i < ns.len() ==> (#[trigger] ns[i]).1 >= 1,
        forall|i: int| 0 <= i < ns.len() ==> base <= (#[trigger] ns[i]).0,
        forall|i: int| 1 <= i < ns.len() ==> base < (#[trigger] ns[i]).0,
        forall|i: int| 0 <= i < ns.len() ==> (#[trigger] ns[i]).0 + ns[i].1 <= bound,
        forall|i: int, j: int|
            0 <= i < j < ns.len() ==> (#[trigger] ns[i]).0 + ns[i].1 < (#[trigger] ns[j]).0,
        (ns[0].0 as int == base) <==> (ks as int == base),
        forall|k: int|
            #[trigger] rs_covers(ns, k) <==> rs_covers(s0, k) || (ks <= k < ks as int + n),
{
    let ksi = ks as int;
    let kei = ks as int + n;
    let msi = ms as int;
    let mei = me as int;
    let len0 = s0.len() as int;
    // Index map of the rebuilt list.
    assert(ns.len() == lo + 1 + (len0 - hi));
    assert(forall|t: int| 0 <= t < lo ==> ns[t] == s0[t]);
    assert(ns[lo] == (ms, mlen));
    assert(forall|t: int| lo < t < ns.len() ==> ns[t] == s0[t - lo - 1 + hi]);
    // The merged interval contains the new one and every touched range.
    assert(msi <= ksi && kei <= mei);
    assert(forall|t: int|
        lo <= t < hi ==> msi <= (#[trigger] s0[t]).0 && s0[t].0 + s0[t].1 <= mei);
    // Coverage is preserved and extended by exactly the new interval.
    lemma_merge_cover(s0, ns, ks, n, lo, hi, ms, me, mlen, base, bound);
    // Sortedness of the rebuilt list.
    assert forall|t: int, u: int|
        0 <= t < u < ns.len() implies (#[trigger] ns[t]).0 + ns[t].1 < (#[trigger] ns[u]).0 by {
        if t < lo && u == lo {
            // A kept prefix range ends before both candidate merged starts.
            assert(s0[t].0 + s0[t].1 < ksi);
            if lo < hi && s0[lo].0 < ks {
                assert(s0[t].0 + s0[t].1 < s0[lo].0);
            }
        } else if t == lo && u > lo {
            // The merged end stays below the first kept suffix range.
            let w = u - lo - 1 + hi;
            assert(ns[u] == s0[w]);
            assert(s0[hi].0 > kei);
            if lo < hi {
                assert(s0[hi - 1].0 + s0[hi - 1].1 < s0[hi].0);
            }
            assert(mei < s0[hi].0);
            if w > hi {
                assert(s0[hi].0 + s0[hi].1 < s0[w].0);
            }
        } else if t < lo && u > lo {
            let w = u - lo - 1 + hi;
            assert(ns[u] == s0[w]);
            assert(s0[t].0 + s0[t].1 < s0[w].0);
        }
    }
    // The merged start sits at `base` exactly when the new interval does.
    if lo > 0 {
        assert(s0[0].0 + s0[0].1 < ksi);
    }
    if lo < hi && s0[lo].0 < ks {
        assert(msi > base);
    }
}

/// A filled prefix has one length: two offsets that are both just past a
/// filled run starting at offset 0 are equal. This pins down the length
/// of the run a release returns.
pub proof fn lemma_prefix_len_unique(m: Map<int, u8>, a: int, b: int)
    requires
        0 <= a,
        0 <= b,
        forall|o: int| 0 <= o < a ==> m.dom().contains(o),
        !m.dom().contains(a),
        forall|o: int| 0 <= o < b ==> m.dom().contains(o),
        !m.dom().contains(b),
    ensures
        a == b,
{
    if a < b {
        assert(m.dom().contains(a));
    }
    if b < a {
        assert(m.dom().contains(b));
    }
}

/// Successive releases concatenate: a run `v1` released from the filled
/// bytes `m`, followed by a run `v2` released from the remainder (`m`
/// shifted down by `v1`'s length), together form the contiguous filled
/// prefix of `m` of their combined length. Chaining this, the
/// concatenation of everything a reordering cache ever releases equals
/// the in-order byte stream its fragments carried.
pub proof fn lemma_releases_concatenate(m: Map<int, u8>, v1: Seq<u8>, v2: Seq<u8>)
    requires
        forall|o: int| 0 <= o < v1.len() ==> #[trigger] m.dom().contains(o),
        forall|o: int| 0 <= o < v1.len() ==> (#[trigger] v1[o]) == m[o],
        forall|o: int|
            0 <= o < v2.len() ==> #[trigger] shift_map(m, v1.len() as int).dom().contains(o),
        forall|o: int|
            0 <= o < v2.len() ==> (#[trigger] v2[o]) == shift_map(m, v1.len() as int)[o],
    ensures
        forall|o: int| 0 <= o < v1.len() + v2.len() ==> #[trigger] m.dom().contains(o),
        forall|o: int| 0 <= o < v1.len() + v2.len() ==> ((v1 + v2)[o]) == m[o],
{
    assert forall|o: int| 0 <= o < v1.len() + v2.len() implies #[trigger] m.dom().contains(o)
        && ((v1 + v2)[o]) == m[o] by {
        if o >= v1.len() {
            assert(shift_map(m, v1.len() as int).dom().contains(o - v1.len()));
            assert(v2[o - v1.len()] == shift_map(m, v1.len() as int)[o - v1.len()]);
        }
    }
}

/// The reordering (random-access) cache.
#[derive(Debug)]
pub struct RandomCacher {
    buffer: Vec<u8>,
    sequence: u32,
    /// Index of the byte carrying `sequence` in `buffer`.
    head: usize,
    /// Span, in bytes, from the head to the furthest position any write
    /// has reached. Not every byte in the span is necessarily filled.
    size: usize,
    /// Disjoint, non-adjacent filled sub-ranges ahead of `sequence`, as
    /// (extended 64-bit key, length) pairs sorted by key. The extended
    /// key keeps ordering unambiguous across a 32-bit wraparound: a key
    /// may exceed 2^32 once the true sequence has wrapped relative to the
    /// cache's current epoch.
    ranges: Vec<(u64, usize)>,
}

impl RandomCacher {
    /// The release point as an extended position: every stored key lies
    /// in `(abs_base, abs_base + span]`.
    pub closed spec fn abs_base(self) -> int {
        self.sequence as int
    }

    /// Structural well-formedness: valid head, span within capacity,
    /// capacity within bounds, and ranges sorted, non-empty,
    /// non-adjacent, strictly ahead of the release point, and within the
    /// span.
    pub closed spec fn wf(self) -> bool {
        &&& self.head < self.buffer@.len()
        &&& self.size <= self.buffer@.len()
        &&& INITIAL_CACHE_SIZE <= self.buffer@.len() <= MAX_CACHE_SIZE
        &&& rs_wf(self.ranges@, self.abs_base(), self.abs_base() + self.size)
    }

    /// Whether the byte `off` positions ahead of the release point has
    /// been filled by some write that has not yet been released.
    pub closed spec fn covers(self, off: int) -> bool {
        rs_covers(self.ranges@, self.abs_base() + off)
    }

    /// The byte stored `off` positions ahead of the release point.
    pub closed spec fn byte_at(self, off: int) -> u8 {
        self.buffer@[ring_pos(self.head as int, off, self.buffer@.len() as int)]
    }

    /// The filled-but-unreleased bytes, as a map from logical offsets
    /// (relative to the release point; offset 0 is the next byte the
    /// consumer expects) to byte values.
    pub closed spec fn filled(self) -> Map<int, u8> {
        Map::new(|off: int| self.covers(off), |off: int| self.byte_at(off))
    }

    /// The next sequence number the consumer expects (the release point).
    pub closed spec fn base(self) -> u32 {
        self.sequence
    }

    /// The current allocated length of the ring.
    pub closed spec fn capacity(self) -> int {
        self.buffer@.len() as int
    }

    /// The span from the release point to the furthest written position.
    pub closed spec fn span(self) -> int {
        self.size as int
    }

    /// Creates an empty cache whose consumer expects `sequence` next.
    pub fn new(sequence: u32) -> (r: RandomCacher)
        ensures
            r.wf(),
            r.filled() == Map::<int, u8>::empty(),
            r.base() == sequence,
            r.span() == 0,
            r.capacity() == INITIAL_CACHE_SIZE,
    {
        let r = RandomCacher {
            buffer: zero_vec(INITIAL_CACHE_SIZE),
            sequence,
            head: 0,
            size: 0,
            ranges: Vec::new(),
        };
        proof {
            assert(r.filled() =~= Map::<int, u8>::empty());
        }
        r
    }

    /// Writes `data` at absolute position `sequence` and returns the
    /// newly contiguous byte run at the release point, if the write (with
    /// everything merged before it) has closed the gap there. A fragment
    /// whose wrapped distance from the release point exceeds the
    /// acceptance window is ignored as stale or duplicate. Fails, leaving
    /// the cache unchanged, exactly when even the maximum capacity cannot
    /// reach from the release point to the end of the write.
    #[verifier::loop_isolation(false)]
    #[verifier::rlimit(100)]
    pub fn append(&mut self, sequence: u32, data: &[u8]) -> (r: Result<Option<Vec<u8>>, CacheError>)
        requires
            old(self).wf(),
        ensures
            final(self).wf(),
            ({
                let off = seq_sub(sequence, old(self).base());
                let need = off + data@.len();
                let newf = old(self).filled().union_prefer_right(write_map(off, data@));
                match r {
                    Ok(opt) => if off > MAX_U32_WINDOW_SIZE {
                        &&& opt is None
                        &&& *final(self) == *old(self)
                    } else {
                        &&& need <= MAX_CACHE_SIZE
                        &&& final(self).capacity() == grown_capacity(old(self).capacity(), need)
                        &&& match opt {
                            None => {
                                &&& !newf.dom().contains(0)
                                &&& final(self).base() == old(self).base()
                                &&& final(self).filled() == newf
                                &&& final(self).span() == (if need > old(self).span() {
                                    need
                                } else {
                                    old(self).span()
                                })
                            },
                            Some(v) => {
                                &&& v@.len() >= 1
                                &&& newf.dom().contains(0)
                                &&& forall|o: int|
                                    0 <= o < v@.len() ==> #[trigger] newf.dom().contains(o)
                                &&& forall|o: int|
                                    0 <= o < v@.len() ==> (#[trigger] v@[o]) == newf[o]
                                &&& !newf.dom().contains(v@.len() as int)
                                &&& final(self).base() as int == seq_add(
                                    old(self).base(),
                                    v@.len() as int,
                                )
                                &&& final(self).filled() == shift_map(newf, v@.len() as int)
                                &&& final(self).span() == (if need > old(self).span() {
                                    need
                                } else {
                                    old(self).span()
                                }) - v@.len()
                            },
                        }
                    },
                    Err(e) => {
                        &&& e == CacheError::CapacityExhausted
                        &&& off <= MAX_U32_WINDOW_SIZE
                        &&& need > MAX_CACHE_SIZE
                        &&& *final(self) == *old(self)
                    },
                }
            }),
    {
        let ghost pre = *old(self);
        let off_wrapped = seq_distance(sequence, self.sequence);
        let off = off_wrapped as usize;
        if off > MAX_U32_WINDOW_SIZE {
            return Ok(None);
        }
        let n = data.len();
        if n > MAX_CACHE_SIZE || off > MAX_CACHE_SIZE - n {
            return Err(CacheError::CapacityExhausted);
        }
        let need = off + n;
        let ghost newf = pre.filled().union_prefer_right(write_map(off as int, data@));
        proof {
            // Every covered offset lies strictly inside (0, span).
            assert forall|o: int| pre.covers(o) implies 0 < o && o < pre.size by {
                let t = choose|t: int|
                    0 <= t < pre.ranges@.len() && (#[trigger] pre.ranges@[t]).0
                        <= pre.abs_base() + o < pre.ranges@[t].0 + pre.ranges@[t].1;
            }
        }

        // Grow the ring if the write reaches past the current capacity.
        if need > self.buffer.len() {
            let mut target = self.buffer.len() * 2;
            if need > target {
                target = need;
            }
            if target > MAX_CACHE_SIZE {
                target = MAX_CACHE_SIZE;
            }
            grow_ring(&mut self.buffer, self.head, self.size, target);
            self.head = 0;
            proof {
                assert forall|o: int| 0 <= o < pre.size implies self.byte_at(o) == pre.byte_at(
                    o,
                ) by {
                    assert(ring_pos(0, o, self.buffer@.len() as int) == o);
                }
            }
        }
        assert(need <= self.buffer.len());
        assert(self.capacity() == grown_capacity(pre.capacity(), need as int));
        let ghost grown = *self;

        // Write the fragment into the ring.
        ring_write(&mut self.buffer, self.head, off, data);
        // Extend the span if the write reached past it.
        if need > self.size {
            self.size = need;
        }
        proof {
            // Bytes: new inside the write, preserved elsewhere.
            assert forall|o: int| off <= o < off + n implies self.byte_at(o) == data@[o - off] by {}
            assert forall|o: int| pre.covers(o) && !(off <= o < off + n) implies self.byte_at(o)
                == pre.byte_at(o) by {
                assert(self.byte_at(o) == grown.byte_at(o));
            }
        }

        // Insert the new interval, folding in everything it overlaps or
        // touches.
        if n > 0 {
            let ks: u64 = (self.sequence as u64) + (off as u64);
            let ghost gbase = self.abs_base();
            let ghost gbound = self.abs_base() + self.size;
            merge_insert(&mut self.ranges, ks, n, Ghost(gbase), Ghost(gbound));
        }
        proof {
            // The filled view now equals the old view overwritten by the
            // fragment.
            assert forall|o: int| self.covers(o) <==> pre.covers(o) || (off <= o < off + n) by {
                if n > 0 {
                } else {
                    assert(self.ranges@ == pre.ranges@);
                }
            }
            assert forall|o: int| #[trigger] newf.dom().contains(o) implies self.filled().dom().contains(o)
                && self.filled()[o] == newf[o] by {}
            assert(self.filled() =~= newf);
        }
        let ghost mid = *self;

        // Release the filled prefix if it now touches the release point.
        if self.ranges.len() > 0 && self.ranges[0].0 == self.sequence as u64 {
            let l = self.ranges[0].1;
            proof {
                assert(l <= self.size);
            }
            self.ranges.remove(0);
            let v = ring_read(&self.buffer, self.head, l);
            // Re-key once the release point wraps past the 32-bit
            // boundary, keeping the extended keys anchored to the new
            // epoch.
            if (self.sequence as u64) + (l as u64) >= SEQ_MODULUS {
                let mut nr: Vec<(u64, usize)> = Vec::new();
                let mut t: usize = 0;
                while t < self.ranges.len()
                    invariant
                        t <= self.ranges@.len(),
                        self.ranges@ == mid.ranges@.remove(0),
                        nr@.len() == t as int,
                        forall|q: int|
                            0 <= q < t ==> (#[trigger] nr@[q]).0 == self.ranges@[q].0
                                - SEQ_MODULUS && nr@[q].1 == self.ranges@[q].1,
                    decreases self.ranges@.len() - t,
                {
                    proof {
                        assert(mid.ranges@[t + 1].0 > mid.ranges@[0].0 + mid.ranges@[0].1);
                    }
                    let e = self.ranges[t];
                    nr.push((e.0 - SEQ_MODULUS, e.1));
                    t = t + 1;
                }
                self.ranges = nr;
            }
            let newb = seq_advance(self.sequence, l as u32);
            let newh = ring_index(self.head, l, self.buffer.len());
            self.sequence = newb;
            self.head = newh;
            self.size = self.size - l;
            proof {
                let li = l as int;
                let cap = mid.buffer@.len() as int;
                // The released run is filled and maximal.
                assert forall|o: int| 0 <= o < li implies newf.dom().contains(o) && v@[o]
                    == newf[o] by {
                    assert(mid.ranges@[0].0 <= mid.abs_base() + o < mid.ranges@[0].0
                        + mid.ranges@[0].1);
                    assert(mid.covers(o));
                }
                assert(!mid.covers(li));
                assert(!newf.dom().contains(li));
                // The remaining ranges shift down by the released length.
                assert forall|o: int| self.covers(o) <==> (o >= 0 && mid.covers(o + li)) by {
                    if self.covers(o) {
                        let q = choose|q: int|
                            0 <= q < self.ranges@.len() && (#[trigger] self.ranges@[q]).0
                                <= self.abs_base() + o < self.ranges@[q].0 + self.ranges@[q].1;
                        assert(mid.ranges@[q + 1].0 <= mid.abs_base() + (o + li)
                            < mid.ranges@[q + 1].0 + mid.ranges@[q + 1].1);
                        assert(mid.covers(o + li));
                        assert(mid.ranges@[q + 1].0 > mid.ranges@[0].0 + mid.ranges@[0].1);
                    }
                    if o >= 0 && mid.covers(o + li) {
                        let q = choose|q: int|
                            0 <= q < mid.ranges@.len() && (#[trigger] mid.ranges@[q]).0
                                <= mid.abs_base() + (o + li) < mid.ranges@[q].0
                                + mid.ranges@[q].1;
                        assert(q != 0);
                        assert(self.ranges@[q - 1].0 <= self.abs_base() + o < self.ranges@[q
                            - 1].0 + self.ranges@[q - 1].1);
                        assert(self.covers(o));
                    }
                }
                assert forall|o: int| self.covers(o) implies self.byte_at(o) == mid.byte_at(
                    o + li,
                ) by {
                    lemma_ring_pos_shift(mid.head as int, li, o, cap);
                }
                assert(self.filled() =~= shift_map(newf, li));
            }
            return Ok(Some(v));
        }
        proof {
            assert(!self.covers(0));
            assert(!newf.dom().contains(0));
        }
        Ok(None)
    }

    /// The next sequence number the consumer expects.
    pub fn get_sequence(&self) -> (r: u32)
        ensures
            r == self.base(),
    {
        self.sequence
    }

    /// Receive-window headroom hint: the unspanned part of the capacity,
    /// saturated to the 16-bit range.
    pub fn get_remaining_size(&self) -> (r: u16)
        requires
            self.wf(),
        ensures
            r == if self.capacity() - self.span() > u16::MAX {
                u16::MAX as int
            } else {
                self.capacity() - self.span()
            },
    {
        if self.buffer.len() - self.size > u16::MAX as usize {
            u16::MAX
        } else {
            (self.buffer.len() - self.size) as u16
        }
    }
}

} // verus!
