//! Predecessor indices mapping a bin to a block range.
//!
//! For each block the store pushes the first bin that intersects it. The values
//! are non-decreasing in block order. A query computes the bin of its key and
//! calls [`Index::locate`], which returns `(first_block, block_count)`: a
//! contiguous block range guaranteed to hold the key when it is present.
use vstd::prelude::*;
use crate::lowbits::{low_mask, low_inv, read_low, pushed_low, padded, lemma_push_low,
    lemma_recombine, lemma_shr_monotone};
use crate::bitvec::{BitVector, count, is_select, gap_encodes, nondecreasing_ints, lemma_gap_select0,
    lemma_gap_select1, lemma_select_unique, lemma_gap_count, lemma_gap_push};

verus! {

/// The pushed bins never decrease.
pub open spec fn nondecreasing(v: Seq<usize>) -> bool {
    forall|i: int, j: int| 0 <= i <= j < v.len() ==> v[i] <= v[j]
}

/// Number of pushed bins that are at most `x`.
pub open spec fn count_le(v: Seq<usize>, x: int) -> nat
    decreases v.len(),
{
    if v.len() == 0 {
        0
    } else {
        count_le(v.drop_last(), x) + if v.last() <= x { 1nat } else { 0nat }
    }
}

/// The range a predecessor query answers for `bin` over the block values `v`.
///
/// The range ends at the predecessor, the rightmost block whose value is at
/// most `bin`, and starts at the rightmost block whose value is below `bin`
/// (both fall back to block 0 when there is none).
pub open spec fn predecessor_range(v: Seq<usize>, bin: int) -> (int, int) {
    let below = count_le(v, bin - 1);
    let upto = count_le(v, bin);
    let first = if below > 0 { below - 1 } else { 0 };
    let last = if upto > 0 { upto - 1 } else { 0 };
    (first, last - first + 1)
}

/// For non-decreasing values, the values at most `x` form a prefix.
pub proof fn lemma_count_le(v: Seq<usize>, x: int)
    requires
        nondecreasing(v),
    ensures
        count_le(v, x) <= v.len(),
        forall|j: int| 0 <= j < count_le(v, x) ==> #[trigger] v[j] <= x,
        forall|j: int| count_le(v, x) <= j < v.len() ==> #[trigger] v[j] > x,
    decreases v.len(),
{
    if v.len() > 0 {
        let w = v.drop_last();
        assert(nondecreasing(w));
        lemma_count_le(w, x);
        if v.last() <= x {
            assert forall|j: int| 0 <= j < v.len() implies #[trigger] v[j] <= x by {
                if j < w.len() {
                    assert(v[j] <= v[v.len() - 1]);
                }
            }
        } else {
            assert forall|j: int| 0 <= j < count_le(v, x) implies #[trigger] v[j] <= x by {
                assert(w[j] <= x);
            }
            assert forall|j: int| count_le(v, x) <= j < v.len() implies #[trigger] v[j] > x by {
                if j < w.len() {
                    assert(w[j] > x);
                }
            }
        }
    }
}

/// A prefix characterization pins down `count_le`.
pub proof fn lemma_count_le_is(v: Seq<usize>, x: int, c: int)
    requires
        nondecreasing(v),
        0 <= c <= v.len(),
        forall|j: int| 0 <= j < c ==> #[trigger] v[j] <= x,
        forall|j: int| c <= j < v.len() ==> #[trigger] v[j] > x,
    ensures
        count_le(v, x) == c,
{
    lemma_count_le(v, x);
    if count_le(v, x) < c {
        assert(v[count_le(v, x) as int] > x);
    } else if count_le(v, x) > c {
        assert(v[c] <= x);
    }
}

pub open spec fn as_ints(v: Seq<usize>) -> Seq<int> {
    Seq::new(v.len(), |i: int| v[i] as int)
}

/// A predecessor index over per-block bin values.
pub trait Index: Sized {
    /// The internal invariant.
    spec fn wf(&self) -> bool;

    /// The bin values pushed so far, one per block.
    spec fn bins(&self) -> Seq<usize>;

    /// The block count the index was sized for.
    spec fn block_capacity(&self) -> nat;

    /// The bin count the index was sized for.
    spec fn bin_count(&self) -> nat;

    /// Whether [`Index::complete`] has run.
    spec fn completed(&self) -> bool;

    /// Create an index sized for `num_blocks` blocks and `num_bins` bins.
    fn new(num_blocks: usize, num_bins: usize) -> (r: Self)
        requires
            num_blocks + num_bins < usize::MAX,
        ensures
            r.wf(),
            r.bins() == Seq::<usize>::empty(),
            r.block_capacity() == num_blocks,
            r.bin_count() == num_bins,
            !r.completed(),
    ;

    /// The name of the backing structure.
    spec fn label() -> Seq<char>;

    /// Human-readable name of the backing structure.
    fn name() -> (r: &'static str)
        ensures
            r@ == Self::label(),
    ;

    /// Append the bin value for the next block. Values must not decrease.
    fn push_back(&mut self, bin: usize)
        requires
            old(self).wf(),
            !old(self).completed(),
            old(self).bins().len() < old(self).block_capacity(),
            bin <= old(self).bin_count(),
            old(self).bins().len() > 0 ==> old(self).bins().last() <= bin,
        ensures
            final(self).wf(),
            final(self).bins() == old(self).bins().push(bin),
            final(self).block_capacity() == old(self).block_capacity(),
            final(self).bin_count() == old(self).bin_count(),
            !final(self).completed(),
    ;

    /// Finalize after all blocks are pushed.
    fn complete(&mut self)
        requires
            old(self).wf(),
            !old(self).completed(),
        ensures
            final(self).wf(),
            final(self).bins() == old(self).bins(),
            final(self).block_capacity() == old(self).block_capacity(),
            final(self).bin_count() == old(self).bin_count(),
            final(self).completed(),
    ;

    /// Return `(first_block, block_count)` covering `bin`: the predecessor
    /// range. All three indices answer it, so they agree on every bin.
    fn locate(&self, bin: usize) -> (r: (usize, usize))
        requires
            self.wf(),
            self.completed(),
            bin <= self.bin_count(),
        ensures
            (r.0 as int, r.1 as int) == predecessor_range(self.bins(), bin as int),
            r.1 >= 1,
            r.0 + r.1 <= if self.bins().len() > 0 { self.bins().len() as int } else { 1 },
    ;

    /// The backing size in bytes.
    spec fn space_bytes(&self) -> nat;

    /// Backing size in bytes.
    fn space(&self) -> (r: usize)
        requires
            self.wf(),
        ensures
            r == self.space_bytes(),
    ;
}

/// Uncompressed bit vector index.
///
/// Block `k` sets bit `k + bin_k`. This unary and gap encoding lets select
/// recover blocks from empty bins.
pub struct UncompressedBitVectorIndex {
    bit_vector: BitVector,
    num_pushed: usize,
    num_blocks: usize,
    values: Ghost<Seq<usize>>,
    done: Ghost<bool>,
}

/// Compressed bit vector index.
///
/// Uses the same bit layout as [`UncompressedBitVectorIndex`] but a different
/// `locate` arithmetic based on rank and select.
pub struct CompressedBitVectorIndex {
    bit_vector: BitVector,
    num_pushed: usize,
    values: Ghost<Seq<usize>>,
    num_blocks: Ghost<nat>,
    done: Ghost<bool>,
}

/// The unary layout shared by both bit-vector indices.
pub open spec fn unary_wf(bits: Seq<bool>, v: Seq<usize>, num_blocks: nat, num_bins: nat) -> bool {
    &&& v.len() <= num_blocks
    &&& bits.len() == num_blocks + num_bins
    &&& bits.len() < usize::MAX
    &&& nondecreasing(v)
    &&& forall|k: int| 0 <= k < v.len() ==> #[trigger] v[k] <= num_bins
    &&& gap_encodes(bits, as_ints(v))
}

proof fn lemma_unary_push(bits: Seq<bool>, v: Seq<usize>, num_blocks: nat, num_bins: nat, bin: usize)
    requires
        unary_wf(bits, v, num_blocks, num_bins),
        v.len() < num_blocks,
        bin <= num_bins,
        v.len() > 0 ==> v.last() <= bin,
    ensures
        unary_wf(bits.update(v.len() + bin, true), v.push(bin), num_blocks, num_bins),
{
    let s2 = bits.update(v.len() + bin, true);
    let v2 = v.push(bin);
    let h = as_ints(v);
    let h2 = as_ints(v2);
    assert forall|i: int, j: int| 0 <= i <= j < v2.len() implies v2[i] <= v2[j] by {
        if j == v.len() && i < j {
            assert(v[i] <= v[v.len() - 1]);
        }
    }
    assert forall|k: int| 0 <= k < h2.len() implies 0 <= #[trigger] h2[k] && k + h2[k] < s2.len()
        && s2[k + h2[k]] by {
        if k < v.len() {
            assert(h[k] == h2[k]);
        }
    }
    assert forall|p: int| 0 <= p < s2.len() && #[trigger] s2[p] implies exists|k: int|
        0 <= k < h2.len() && k + h2[k] == p by {
        if p == v.len() + bin {
            assert(h2[v.len() as int] == bin);
        } else {
            assert(bits[p]);
            let k = choose|k: int| 0 <= k < h.len() && k + h[k] == p;
            assert(h2[k] == h[k]);
        }
    }
}

/// What select0 and select1 report on the unary layout.
proof fn lemma_unary_select(bits: Seq<bool>, v: Seq<usize>, num_blocks: nat, num_bins: nat)
    requires
        unary_wf(bits, v, num_blocks, num_bins),
    ensures
        forall|k: int| 0 <= k < v.len() ==> #[trigger] is_select(bits, true, k + 1, k + v[k]),
        forall|k: int| k >= v.len() ==> #[trigger] is_select(bits, true, k + 1, bits.len() as int),
        forall|m: int| 1 <= m <= num_bins + 1 && m - 1 + count_le(v, m - 1) <= bits.len() ==>
            #[trigger] is_select(bits, false, m, m - 1 + count_le(v, m - 1)),
{
    let h = as_ints(v);
    assert forall|k: int| 0 <= k < v.len() implies #[trigger] is_select(bits, true, k + 1, k + v[k]) by {
        lemma_gap_select1(bits, h, k);
    }
    assert forall|k: int| k >= v.len() implies #[trigger] is_select(bits, true, k + 1, bits.len() as int) by {
        lemma_gap_select1(bits, h, k);
    }
    assert forall|m: int| 1 <= m <= num_bins + 1 && m - 1 + count_le(v, m - 1) <= bits.len() implies
        #[trigger] is_select(bits, false, m, m - 1 + count_le(v, m - 1)) by {
        lemma_count_le(v, m - 1);
        let c = count_le(v, m - 1) as int;
        assert forall|j: int| 0 <= j < c implies #[trigger] h[j] < m by {
            assert(v[j] <= m - 1);
        }
        assert forall|j: int| c <= j < h.len() implies #[trigger] h[j] >= m by {
            assert(v[j] > m - 1);
        }
        lemma_gap_select0(bits, h, m, c);
    }
}

/// A bit of the unary layout is set exactly at the position of some block.
proof fn lemma_unary_bit(bits: Seq<bool>, v: Seq<usize>, num_blocks: nat, num_bins: nat, k: int, p: int)
    requires
        unary_wf(bits, v, num_blocks, num_bins),
        0 <= k <= v.len(),
        0 <= p < bits.len(),
        k < v.len() ==> p <= k + v[k],
        k > 0 ==> p > (k - 1) + v[k - 1],
    ensures
        bits[p] == (k < v.len() && p == k + v[k]),
{
    let h = as_ints(v);
    if k < v.len() && p == k + v[k] {
        assert(h[k] == v[k]);
    } else if bits[p] {
        assert(0 <= p < bits.len() && bits[p]);
        let j = choose|j: int| 0 <= j < h.len() && j + h[j] == p;
        if j < k {
            assert(v[j] <= v[k - 1]);
        } else if j > k {
            assert(v[k] <= v[j]);
        }
    }
}


/// The rank the compressed index reads: the values below `bin`, plus one when
/// a value equals `bin`.
proof fn lemma_unary_rank(bits: Seq<bool>, v: Seq<usize>, nb: nat, nbins: nat, bin: int)
    requires
        unary_wf(bits, v, nb, nbins),
        0 <= bin <= nbins,
    ensures
        ({
            let c = count_le(v, bin - 1) as int;
            let e: int = if c < v.len() && v[c] == bin { 1 } else { 0 };
            let q = bin + c + 1;
            count(bits, true, if q < bits.len() { q } else { bits.len() as int }) == c + e
        }),
{
    lemma_count_le(v, bin - 1);
    let c = count_le(v, bin - 1) as int;
    let e: int = if c < v.len() && v[c] == bin { 1 } else { 0 };
    let q = bin + c + 1;
    let h = as_ints(v);
    if q <= bits.len() {
        assert forall|j: int| 0 <= j < c + e implies j + #[trigger] h[j] < q by {
            if j < c {
                assert(v[j] <= bin - 1);
            }
        }
        assert forall|j: int| c + e <= j < h.len() implies j + #[trigger] h[j] >= q by {
            assert(v[j] > bin - 1);
            if j == c {
                assert(v[j] != bin);
            }
        }
        lemma_gap_count(bits, h, q, c + e);
    } else {
        assert forall|j: int| 0 <= j < h.len() implies j + #[trigger] h[j] < bits.len() by {}
        lemma_gap_count(bits, h, bits.len() as int, h.len() as int);
        assert(c + e == v.len()) by {
            if c + e < v.len() {
                assert(c + e + v[c + e] < bits.len());
                assert(v[c + e] > bin - 1);
                if e == 0 {
                    assert(v[c] != bin);
                }
            }
        }
    }
}

impl Index for UncompressedBitVectorIndex {
    closed spec fn wf(&self) -> bool {
        &&& self.num_pushed == self.values@.len()
        &&& self.bit_vector@.len() >= self.num_blocks
        &&& unary_wf(self.bit_vector@, self.values@, self.num_blocks as nat,
            (self.bit_vector@.len() - self.num_blocks) as nat)
    }

    closed spec fn bins(&self) -> Seq<usize> {
        self.values@
    }

    closed spec fn block_capacity(&self) -> nat {
        self.num_blocks as nat
    }

    closed spec fn bin_count(&self) -> nat {
        (self.bit_vector@.len() - self.num_blocks) as nat
    }

    closed spec fn completed(&self) -> bool {
        self.done@
    }

    fn new(num_blocks: usize, num_bins: usize) -> (r: UncompressedBitVectorIndex) {
        let r = UncompressedBitVectorIndex {
            bit_vector: BitVector::new(num_blocks + num_bins),
            num_pushed: 0,
            num_blocks,
            values: Ghost(Seq::empty()),
            done: Ghost(false),
        };
        assert(gap_encodes(r.bit_vector@, as_ints(Seq::<usize>::empty())));
        r
    }

    open spec fn label() -> Seq<char> {
        "UncompressedBitVector"@
    }

    fn name() -> (r: &'static str)
        ensures
            r@ == "UncompressedBitVector"@,
    {
        "UncompressedBitVector"
    }

    fn push_back(&mut self, bin: usize) {
        proof {
            lemma_unary_push(self.bit_vector@, self.values@, self.num_blocks as nat,
                (self.bit_vector@.len() - self.num_blocks) as nat, bin);
        }
        self.bit_vector.set(self.num_pushed + bin);
        self.num_pushed = self.num_pushed + 1;
        self.values = Ghost(self.values@.push(bin));
    }

    fn complete(&mut self) {
        self.done = Ghost(true);
    }

    #[verifier::rlimit(40)]
    fn locate(&self, bin: usize) -> (r: (usize, usize))
        ensures
            (r.0 as int, r.1 as int) == predecessor_range(self.bins(), bin as int),
    {
        let bv = &self.bit_vector;
        let ghost v = self.values@;
        let ghost bits = bv@;
        let ghost nbins = (bits.len() - self.num_blocks) as nat;
        proof {
            lemma_unary_select(bits, v, self.num_blocks as nat, nbins);
            lemma_count_le(v, bin - 1);
            lemma_count_le(v, bin as int);
        }
        let ghost c = count_le(v, bin - 1) as int;
        let possible_position_of_b = if bin == 0 {
            0
        } else {
            let p = bv.select0(bin);
            assert(is_select(bits, false, bin as int, bin - 1 + c));
            proof { lemma_select_unique(bits, false, bin as int, p as int, bin - 1 + c); }
            p + 1
        };
        assert(possible_position_of_b == bin + c);
        let g = bv.get(possible_position_of_b);
        proof {
            if possible_position_of_b < bits.len() {
                lemma_unary_bit(bits, v, self.num_blocks as nat, nbins, c, possible_position_of_b as int);
            }
        }
        if possible_position_of_b == bin && !g {
            // No block value lies below `bin` and none equals it: the
            // predecessor range falls back to block 0.
            proof {
                if v.len() > 0 {
                    if v[0] == bin {
                        lemma_unary_bit(bits, v, self.num_blocks as nat, nbins, 0, bin as int);
                    }
                    assert forall|t: int| 0 <= t < v.len() implies #[trigger] v[t] > bin by {
                        assert(v[0] <= v[t]);
                    }
                }
                lemma_count_le_is(v, bin as int, 0);
            }
            return (0, 1);
        }
        let array_index_of_predecessor = if bin == 0 {
            0
        } else {
            possible_position_of_b + (if g { 1 } else { 0 }) - bin - 1
        };
        let ghost idx = array_index_of_predecessor as int;
        assert(bin > 0 ==> idx == c - 1 + if c < v.len() && v[c] == bin { 1int } else { 0int });
        let mut bit_vector_index_of_predecessor = bv.select1(array_index_of_predecessor + 1);
        proof {
            if idx < v.len() {
                lemma_select_unique(bits, true, idx + 1, bit_vector_index_of_predecessor as int, idx + v[idx]);
            } else {
                lemma_select_unique(bits, true, idx + 1, bit_vector_index_of_predecessor as int, bits.len() as int);
            }
        }
        let value_of_predecessor = bit_vector_index_of_predecessor - array_index_of_predecessor;
        let mut i = array_index_of_predecessor;
        if value_of_predecessor == bin && i != 0 {
            i = i - 1;
        }
        let mut j = array_index_of_predecessor;
        while bv.get(bit_vector_index_of_predecessor + 1) && j < self.num_blocks - 1
            invariant
                unary_wf(bits, v, self.num_blocks as nat, nbins),
                bits == bv@,
                bits.len() < usize::MAX,
                idx == array_index_of_predecessor,
                idx < v.len() ==> idx <= j < v.len() && bit_vector_index_of_predecessor == j + v[j as int]
                    && v[j as int] == v[idx],
                idx >= v.len() ==> j == idx && bit_vector_index_of_predecessor == bits.len(),
            decreases bits.len() - bit_vector_index_of_predecessor,
        {
            proof {
                lemma_unary_bit(bits, v, self.num_blocks as nat, nbins, j + 1,
                    bit_vector_index_of_predecessor + 1);
            }
            j = j + 1;
            bit_vector_index_of_predecessor = bit_vector_index_of_predecessor + 1;
        }
        proof {
            if idx < v.len() {
                if j + 1 < v.len() && bit_vector_index_of_predecessor + 1 < bits.len() {
                    lemma_unary_bit(bits, v, self.num_blocks as nat, nbins, j + 1,
                        bit_vector_index_of_predecessor + 1);
                }
                if j + 1 < v.len() {
                    assert(v[j + 1] != v[j as int]);
                }
                assert forall|t: int| 0 <= t <= j implies #[trigger] v[t] <= v[idx] by {
                    assert(v[t] <= v[j as int]);
                }
                assert forall|t: int| j < t < v.len() implies #[trigger] v[t] > v[idx] by {
                    assert(v[j + 1] <= v[t]);
                }
                lemma_count_le_is(v, v[idx] as int, j + 1);
                if bin > 0 && c < v.len() && v[c] == bin {
                    lemma_count_le_is(v, bin as int, j + 1);
                }
                if bin > 0 && !(c < v.len() && v[c] == bin) {
                    assert forall|t: int| c <= t < v.len() implies #[trigger] v[t] > bin by {
                        assert(v[c] <= v[t]);
                    }
                    lemma_count_le_is(v, bin as int, c);
                }
                if bin == 0 && v[0] == 0 {
                    lemma_count_le_is(v, 0, j + 1);
                }
            }
        }
        (i, j - i + 1)
    }

    open spec fn space_bytes(&self) -> nat {
        ((self.block_capacity() + self.bin_count() + 7) / 8) as nat
    }

    fn space(&self) -> usize {
        self.bit_vector.space()
    }
}

impl Index for CompressedBitVectorIndex {
    closed spec fn wf(&self) -> bool {
        &&& self.num_pushed == self.values@.len()
        &&& self.bit_vector@.len() >= self.num_blocks@
        &&& unary_wf(self.bit_vector@, self.values@, self.num_blocks@,
            (self.bit_vector@.len() - self.num_blocks@) as nat)
    }

    closed spec fn bins(&self) -> Seq<usize> {
        self.values@
    }

    closed spec fn block_capacity(&self) -> nat {
        self.num_blocks@
    }

    closed spec fn bin_count(&self) -> nat {
        (self.bit_vector@.len() - self.num_blocks@) as nat
    }

    closed spec fn completed(&self) -> bool {
        self.done@
    }

    fn new(num_blocks: usize, num_bins: usize) -> (r: CompressedBitVectorIndex) {
        let r = CompressedBitVectorIndex {
            bit_vector: BitVector::new(num_blocks + num_bins),
            num_pushed: 0,
            values: Ghost(Seq::empty()),
            num_blocks: Ghost(num_blocks as nat),
            done: Ghost(false),
        };
        assert(gap_encodes(r.bit_vector@, as_ints(Seq::<usize>::empty())));
        r
    }

    open spec fn label() -> Seq<char> {
        "CompressedBitVector"@
    }

    fn name() -> (r: &'static str)
        ensures
            r@ == "CompressedBitVector"@,
    {
        "CompressedBitVector"
    }

    fn push_back(&mut self, bin: usize) {
        proof {
            lemma_unary_push(self.bit_vector@, self.values@, self.num_blocks@,
                (self.bit_vector@.len() - self.num_blocks@) as nat, bin);
        }
        self.bit_vector.set(self.num_pushed + bin);
        self.num_pushed = self.num_pushed + 1;
        self.values = Ghost(self.values@.push(bin));
    }

    fn complete(&mut self) {
        self.done = Ghost(true);
    }

    fn locate(&self, bin: usize) -> (r: (usize, usize))
        ensures
            (r.0 as int, r.1 as int) == predecessor_range(self.bins(), bin as int),
    {
        let bv = &self.bit_vector;
        let ghost v = self.values@;
        let ghost bits = bv@;
        let ghost nb = self.num_blocks@;
        let ghost nbins = (bits.len() - nb) as nat;
        proof {
            lemma_unary_select(bits, v, nb, nbins);
            lemma_count_le(v, bin - 1);
            lemma_count_le(v, bin as int);
        }
        let ghost c = count_le(v, bin - 1) as int;
        let ghost e: int = if c < v.len() && v[c] == bin { 1 } else { 0 };
        proof {
            if bin == 0 && c > 0 {
                assert(v[0] <= bin - 1);
            }
        }
        let possible_position_of_b = if bin == 0 {
            0
        } else {
            let p = bv.select0(bin);
            assert(is_select(bits, false, bin as int, bin - 1 + c));
            proof { lemma_select_unique(bits, false, bin as int, p as int, bin - 1 + c); }
            p + 1
        };
        assert(possible_position_of_b == bin + c);
        let rank = bv.rank1(possible_position_of_b + 1);
        proof { lemma_unary_rank(bits, v, nb, nbins, bin as int); }
        assert(rank == c + e);
        if rank == 0 {
            proof {
                if v.len() > 0 {
                    assert forall|t: int| 0 <= t < v.len() implies #[trigger] v[t] > bin by {
                        assert(v[0] <= v[t]);
                    }
                }
                lemma_count_le_is(v, bin as int, 0);
            }
            return (0, 1);
        }
        let array_index_of_predecessor = rank - 1;
        let ghost idx = array_index_of_predecessor as int;
        let bit_vector_index_of_predecessor = bv.select1(array_index_of_predecessor + 1);
        proof {
            lemma_select_unique(bits, true, idx + 1, bit_vector_index_of_predecessor as int, idx + v[idx]);
        }
        let value_of_predecessor = bit_vector_index_of_predecessor - array_index_of_predecessor;
        assert(value_of_predecessor == v[idx]);
        let mut i = array_index_of_predecessor;
        if value_of_predecessor == bin && i != 0 {
            i = i - 1;
        }
        proof {
            lemma_count_le(v, v[idx] as int);
            assert(count_le(v, v[idx] as int) >= idx + 1);
        }
        let z = bv.select0(value_of_predecessor + 1);
        proof {
            lemma_select_unique(bits, false, v[idx] + 1, z as int, v[idx] + count_le(v, v[idx] as int));
        }
        let j = z - (value_of_predecessor + 1);
        proof {
            if e == 1 {
                lemma_count_le_is(v, bin as int, count_le(v, v[idx] as int) as int);
            } else {
                assert forall|t: int| idx < t < v.len() implies #[trigger] v[t] > v[idx] by {
                    assert(v[c] <= v[t]);
                    assert(v[c] > bin - 1);
                    assert(v[c] != bin);
                }
                lemma_count_le_is(v, v[idx] as int, c);
                assert forall|t: int| c <= t < v.len() implies #[trigger] v[t] > bin by {
                    assert(v[c] <= v[t]);
                    assert(v[c] != bin);
                }
                lemma_count_le_is(v, bin as int, c);
            }
        }
        (i, j - i + 1)
    }

    open spec fn space_bytes(&self) -> nat {
        ((self.block_capacity() + self.bin_count() + 7) / 8) as nat
    }

    fn space(&self) -> usize {
        self.bit_vector.space()
    }
}

pub open spec fn as_u64s(v: Seq<usize>) -> Seq<u64> {
    Seq::new(v.len(), |i: int| v[i] as u64)
}

/// The high part of each value: the bits above the low `w`.
pub open spec fn high_parts(v: Seq<usize>, w: u32) -> Seq<int> {
    Seq::new(v.len(), |i: int| ((v[i] as u64) >> (w as u64)) as int)
}

pub open spec fn low_ok(low: Seq<u64>, v: Seq<usize>, w: u32) -> bool {
    if w == 0 {
        low.len() == 0
    } else {
        low_inv(low, as_u64s(v), w as int)
    }
}

/// The ratio of bins to blocks that sizes the low part.
pub open spec fn ef_ratio(num_blocks: usize, num_bins: usize) -> int {
    (if num_bins > 1 { num_bins as int } else { 1 }) / num_blocks as int
}

/// With the low width taken as `floor(log2(universe / n))`, the high part of
/// the largest bin stays below twice the block count.
proof fn lemma_high_bound(num_blocks: usize, num_bins: usize, w: u32)
    requires
        num_blocks >= 1,
        w < 64,
        w == 0 ==> ef_ratio(num_blocks, num_bins) < 2,
        w > 0 ==> (ef_ratio(num_blocks, num_bins) as u64) >> (w as u64) == 1u64,
    ensures
        ((num_bins as u64) >> (w as u64)) < 2 * num_blocks,
{
    let u: int = if num_bins > 1 { num_bins as int } else { 1 };
    let n = num_blocks as int;
    let ratio = ef_ratio(num_blocks, num_bins);
    assert(0 <= ratio <= u) by (nonlinear_arith) requires ratio == u / n, n >= 1, u >= 1;
    assert(u < n * (ratio + 1)) by (nonlinear_arith) requires ratio == u / n, n >= 1, u >= 1;
    let x = num_bins as u64;
    if w == 0 {
        assert(x >> 0u64 == x) by (bit_vector);
        assert(n * (ratio + 1) <= 2 * n) by (nonlinear_arith) requires ratio < 2, n >= 1, ratio >= 0;
    } else {
        let ww = w as u64;
        vstd::bits::lemma_u64_shr_is_div(ratio as u64, ww);
        vstd::bits::lemma_u64_shr_is_div(x, ww);
        let p = vstd::arithmetic::power2::pow2(ww as nat) as int;
        vstd::arithmetic::power2::lemma_pow2_pos(ww as nat);
        assert(ratio < 2 * p) by (nonlinear_arith) requires ratio / p == 1, p > 0, ratio >= 0;
        assert(u < 2 * p * n) by (nonlinear_arith) requires u < n * (ratio + 1), ratio < 2 * p, n >= 1;
        assert(num_bins <= u);
        assert((num_bins as int) / p < 2 * n) by (nonlinear_arith) requires num_bins < 2 * p * n, p > 0, n >= 1;
    }
}

proof fn lemma_top_bit(x: u64, lz: u64)
    by (bit_vector)
    requires
        lz < 64,
        (x >> (63 - lz) as u64) & 1u64 != 0u64,
        x >> (64 - lz) as u64 == 0,
    ensures
        x >> (63 - lz) as u64 == 1u64,
        (1u64 << (63 - lz) as u64) <= x,
        lz == 63 ==> x == 1,
{
}

proof fn lemma_shl_pos(w: u64)
    by (bit_vector)
    requires
        w < 64,
    ensures
        (1u64 << w) >= 1,
        ((1u64 << w) - 1) as u64 == low_mask(w),
{
}

proof fn lemma_mask_zero(x: u64)
    by (bit_vector)
    ensures
        x & low_mask(0u64) == 0u64,
{
}

proof fn lemma_width_below_pow(r: u64)
    by (bit_vector)
    requires
        r < 64,
    ensures
        r <= (1u64 << r),
{
}

proof fn lemma_high_parts_sorted(v: Seq<usize>, w: u32)
    requires
        nondecreasing(v),
    ensures
        nondecreasing_ints(high_parts(v, w)),
        forall|k: int| 0 <= k < v.len() ==> 0 <= #[trigger] high_parts(v, w)[k] <= v[k],
{
    let h = high_parts(v, w);
    assert forall|i: int, j: int| 0 <= i <= j < h.len() implies h[i] <= h[j] by {
        lemma_shr_monotone(v[i] as u64, v[j] as u64, w as u64);
    }
    assert forall|k: int| 0 <= k < v.len() implies 0 <= #[trigger] h[k] <= v[k] by {
        lemma_shr_monotone(v[k] as u64, v[k] as u64, w as u64);
    }
}

/// Elias-Fano index. The default and most compact variant.
///
/// The monotonic bin sequence is split into a low part and a high part. Each
/// value's low `low_width` bits go into a packed array. The high bits form a
/// unary bit vector: value `k` sets bit `(value_k >> low_width) + k`.
pub struct EliasFanoIndex {
    num_bins: usize,
    /// Low bits per value. Fixed at construction.
    low_width: u32,
    /// Packed low bits, `low_width` per value, LSB-first across a `u64` stream.
    low: Vec<u64>,
    /// Unary high bits with a select structure.
    high: BitVector,
    /// Number of values encoded so far.
    len: usize,
    /// Values buffered before `complete` encodes them.
    pending: Vec<usize>,
    num_blocks: Ghost<nat>,
    values: Ghost<Seq<usize>>,
    done: Ghost<bool>,
}

impl EliasFanoIndex {
    /// The low bits stored per block: `floor(log2(universe / n))`, or 0 when
    /// that ratio is below 2.
    pub closed spec fn low_bits(&self) -> nat {
        self.low_width as nat
    }

    /// With eight bins per block, as a store built with `a = 8` has, a
    /// complete index over all its planned blocks takes about six bits per
    /// block: three low bits and about three high bits each.
    pub proof fn lemma_six_bits_per_block(&self)
        requires
            self.wf(),
            self.completed(),
            self.block_capacity() >= 1,
            self.bins().len() == self.block_capacity(),
            self.bin_count() == 8 * self.block_capacity(),
        ensures
            8 * self.space_bytes() <= 6 * self.block_capacity() + 135,
    {
        let nb = self.num_blocks@ as int;
        let n = self.values@.len() as int;
        assert(ef_ratio(self.num_blocks@ as usize, self.num_bins) == 8) by {
            assert((8 * nb) / nb == 8) by (nonlinear_arith) requires nb >= 1;
        }
        let lw = self.low_width as u64;
        assert(lw < 64 && (8u64 >> lw) == 1u64 ==> lw == 3) by (bit_vector);
        assert(self.low_width == 3);
        let p = n * 3;
        assert(self.low@.len() <= p / 64 + 2);
        assert(64 * (p / 64) <= p) by (nonlinear_arith) requires p >= 0;
        lemma_high_bound(self.num_blocks@ as usize, self.num_bins, self.low_width);
    }

    /// `floor(log2(universe / n))`, the standard Elias-Fano low width.
    fn low_width_for(num_blocks: usize, num_bins: usize) -> (r: u32)
        ensures
            r < 64,
            r == 0 <==> (num_blocks == 0 || ef_ratio(num_blocks, num_bins) < 2),
            r > 0 ==> (ef_ratio(num_blocks, num_bins) as u64) >> (r as u64) == 1u64,
            r > 0 ==> num_blocks as int * r <= num_bins,
    {
        if num_blocks == 0 {
            return 0;
        }
        let universe: u64 = if num_bins > 1 { num_bins as u64 } else { 1 };
        let n = num_blocks as u64;
        let ratio = universe / n;
        assert(ratio as int == ef_ratio(num_blocks, num_bins));
        if ratio < 2 {
            0
        } else {
            let lz = ratio.leading_zeros();
            proof {
                vstd::std_specs::bits::axiom_u64_leading_zeros(ratio);
                lemma_top_bit(ratio, lz as u64);
                let r = (63 - lz) as u64;
                lemma_width_below_pow(r);
                assert(n * ratio <= universe) by (nonlinear_arith) requires ratio == universe / n, n > 0;
                assert(n * r <= n * ratio) by (nonlinear_arith) requires r <= ratio, n > 0;
            }
            63 - lz
        }
    }

    /// Store the low bits of `value` as field `self.len`.
    fn push_low(&mut self, value: usize)
        requires
            low_ok(old(self).low@, old(self).values@.subrange(0, old(self).len as int), old(self).low_width),
            old(self).len < old(self).values@.len(),
            old(self).values@[old(self).len as int] == value,
            old(self).len as int * old(self).low_width <= usize::MAX,
            old(self).low_width < 64,
        ensures
            low_ok(final(self).low@, old(self).values@.subrange(0, old(self).len + 1), old(self).low_width),
            final(self).len == old(self).len,
            final(self).low_width == old(self).low_width,
            final(self).values == old(self).values,
            final(self).num_bins == old(self).num_bins,
            final(self).high == old(self).high,
            final(self).pending == old(self).pending,
            final(self).num_blocks == old(self).num_blocks,
            final(self).done == old(self).done,
    {
        let width = self.low_width as usize;
        let ghost prefix = self.values@.subrange(0, self.len as int);
        let ghost prefix2 = self.values@.subrange(0, self.len + 1);
        assert(prefix2 == prefix.push(value));
        assert(as_u64s(prefix2) == as_u64s(prefix).push(value as u64));
        if width == 0 {
            return;
        }
        proof { lemma_shl_pos(self.low_width as u64); }
        let low = (value as u64) & ((1u64 << self.low_width as u64) - 1);
        let bit_pos = self.len * width;
        let word = bit_pos / 64;
        let shift = bit_pos % 64;
        let ghost old_low = self.low@;
        proof {
            lemma_push_low(old_low, as_u64s(prefix), width as int, value as u64);
        }
        let mut words: Vec<u64> = Vec::new();
        std::mem::swap(&mut words, &mut self.low);
        while words.len() <= word + 1
            invariant
                words@.len() >= old_low.len(),
                words@ == padded(old_low, words@.len() as int),
                words@.len() <= if old_low.len() > word + 2 { old_low.len() as int } else { word + 2 },
                word < usize::MAX - 2,
            decreases word + 2 - words@.len(),
        {
            words.push(0);
        }
        assert(words@ == padded(old_low, word + 2));
        let w0 = words[word] | (low << (shift as u64));
        words.set(word, w0);
        if shift + width > 64 {
            let w1 = words[word + 1] | (low >> ((64 - shift) as u64));
            words.set(word + 1, w1);
        }
        assert(words@ == pushed_low(old_low, prefix.len() as int, width as int, value as u64));
        self.low = words;
    }
}

impl EliasFanoIndex {
    /// The low bits of the value at position `k`.
    fn low_at(&self, k: usize) -> (r: u64)
        requires
            self.low_width < 64,
            k < self.len <= self.values@.len(),
            self.len as int * self.low_width <= usize::MAX,
            low_ok(self.low@, self.values@.subrange(0, self.len as int), self.low_width),
        ensures
            r == (self.values@[k as int] as u64) & low_mask(self.low_width as u64),
    {
        let width = self.low_width as usize;
        let ghost prefix = self.values@.subrange(0, self.len as int);
        assert(as_u64s(prefix)[k as int] == self.values@[k as int] as u64);
        if width == 0 {
            proof { lemma_mask_zero(self.values@[k as int] as u64); }
            return 0;
        }
        assert(k * width <= (self.len - 1) * width) by (nonlinear_arith)
            requires k <= self.len - 1, width > 0;
        assert((self.len - 1) * width <= self.len * width) by (nonlinear_arith)
            requires self.len >= 1, width > 0;
        assert((k * width) / 64 <= ((self.len - 1) * width) / 64);
        assert(0 <= k * width) by (nonlinear_arith) requires k >= 0, width > 0;
        let bit_pos = k * width;
        let word = bit_pos / 64;
        let shift = bit_pos % 64;
        proof { lemma_shl_pos(self.low_width as u64); }
        let mask = (1u64 << self.low_width as u64) - 1;
        let mut low = self.low[word] >> (shift as u64);
        if shift + width > 64 {
            low = low | (self.low[word + 1] << ((64 - shift) as u64));
        }
        assert(low & mask == read_low(self.low@, k as int, width as int));
        low & mask
    }

    /// Reconstruct the value stored at position `k`.
    fn value_at(&self, k: usize) -> (r: usize)
        requires
            self.wf(),
            self.done@,
            k < self.values@.len(),
        ensures
            r == self.values@[k as int],
    {
        let ghost v = self.values@;
        let ghost h = high_parts(v, self.low_width);
        proof {
            lemma_gap_select1(self.high@, h, k as int);
            assert(v.subrange(0, self.len as int) == v);
        }
        let sel = self.high.select1(k + 1);
        proof {
            lemma_select_unique(self.high@, true, k + 1, sel as int, k + h[k as int]);
        }
        let high = sel - k;
        proof {
            if self.low_width > 0 {
                assert(self.len as int * self.low_width <= self.num_blocks@ * self.low_width) by (nonlinear_arith)
                    requires self.len <= self.num_blocks@;
            } else {
                assert(self.len as int * self.low_width == 0) by (nonlinear_arith)
                    requires self.low_width == 0;
            }
        }
        let lo = self.low_at(k);
        proof {
            lemma_recombine(v[k as int] as u64, self.low_width as u64);
            lemma_mask_zero(v[k as int] as u64);
        }
        (((high as u64) << (self.low_width as u64)) | lo) as usize
    }

    /// Position of the rightmost block whose value is `<= bin`.
    ///
    /// Returns `None` when every value exceeds `bin`. The values are
    /// non-decreasing, so the last such position is the predecessor. Binary
    /// search over the decoded values keeps this at `O(log n)` selects.
    fn predecessor_position(&self, bin: usize) -> (r: Option<usize>)
        requires
            self.wf(),
            self.done@,
        ensures
            r == if count_le(self.values@, bin as int) == 0 {
                None::<usize>
            } else {
                Some((count_le(self.values@, bin as int) - 1) as usize)
            },
    {
        let ghost v = self.values@;
        proof { lemma_count_le(v, bin as int); }
        if self.len == 0 {
            return None;
        }
        if self.value_at(0) > bin {
            proof {
                assert forall|t: int| 0 <= t < v.len() implies #[trigger] v[t] > bin by {
                    assert(v[0] <= v[t]);
                }
                lemma_count_le_is(v, bin as int, 0);
            }
            return None;
        }
        let mut lo: usize = 0;
        let mut hi: usize = self.len - 1;
        while lo < hi
            invariant
                self.wf(),
                self.done@,
                v == self.values@,
                lo <= hi < v.len(),
                v[lo as int] <= bin,
                forall|t: int| hi < t < v.len() ==> #[trigger] v[t] > bin,
            decreases hi - lo,
        {
            let mid = lo + (hi - lo + 1) / 2;
            if self.value_at(mid) <= bin {
                lo = mid;
            } else {
                proof {
                    assert forall|t: int| mid <= t < v.len() implies #[trigger] v[t] > bin by {
                        assert(v[mid as int] <= v[t]);
                    }
                }
                hi = mid - 1;
            }
        }
        proof {
            assert forall|t: int| 0 <= t <= lo implies #[trigger] v[t] <= bin by {
                assert(v[t] <= v[lo as int]);
            }
            lemma_count_le_is(v, bin as int, lo + 1);
        }
        Some(lo)
    }
}

impl Index for EliasFanoIndex {
    closed spec fn wf(&self) -> bool {
        let v = self.values@;
        let lw = self.low_width;
        &&& lw < 64
        &&& self.num_blocks@ + self.num_bins < usize::MAX
        &&& v.len() <= self.num_blocks@
        &&& nondecreasing(v)
        &&& forall|k: int| 0 <= k < v.len() ==> #[trigger] v[k] <= self.num_bins
        &&& lw > 0 ==> self.num_blocks@ * lw <= self.num_bins
        &&& lw == 0 ==> self.num_blocks@ == 0 || ef_ratio(self.num_blocks@ as usize, self.num_bins) < 2
        &&& lw > 0 ==> (ef_ratio(self.num_blocks@ as usize, self.num_bins) as u64) >> (lw as u64) == 1u64
        &&& !self.done@ ==> {
            &&& self.pending@ == v
            &&& self.len == 0
            &&& self.low@.len() == 0
            &&& self.high@.len() == 0
        }
        &&& self.done@ ==> {
            &&& self.pending@.len() == 0
            &&& self.len == v.len()
            &&& self.high@.len() == v.len() + ((self.num_bins as u64) >> (lw as u64)) + 1
            &&& gap_encodes(self.high@, high_parts(v, lw))
            &&& low_ok(self.low@, v, lw)
        }
    }

    closed spec fn bins(&self) -> Seq<usize> {
        self.values@
    }

    closed spec fn block_capacity(&self) -> nat {
        self.num_blocks@
    }

    closed spec fn bin_count(&self) -> nat {
        self.num_bins as nat
    }

    closed spec fn completed(&self) -> bool {
        self.done@
    }

    fn new(num_blocks: usize, num_bins: usize) -> (r: EliasFanoIndex)
        ensures
            r.low_bits() == 0 <==> (num_blocks == 0 || ef_ratio(num_blocks, num_bins) < 2),
            r.low_bits() > 0 ==> (ef_ratio(num_blocks, num_bins) as u64) >> (r.low_bits() as u64) == 1u64,
    {
        EliasFanoIndex {
            num_bins,
            low_width: Self::low_width_for(num_blocks, num_bins),
            low: Vec::new(),
            high: BitVector::new(0),
            len: 0,
            pending: Vec::with_capacity(num_blocks),
            num_blocks: Ghost(num_blocks as nat),
            values: Ghost(Seq::empty()),
            done: Ghost(false),
        }
    }

    open spec fn label() -> Seq<char> {
        "EliasFano"@
    }

    fn name() -> (r: &'static str)
        ensures
            r@ == "EliasFano"@,
    {
        "EliasFano"
    }

    fn push_back(&mut self, bin: usize) {
        self.pending.push(bin);
        self.values = Ghost(self.values@.push(bin));
        proof {
            let v = self.values@;
            assert forall|i: int, j: int| 0 <= i <= j < v.len() implies v[i] <= v[j] by {
                if j == v.len() - 1 && i < j {
                    assert(v[i] <= v[v.len() - 2]);
                }
            }
        }
    }

    fn complete(&mut self) {
        let ghost v = self.values@;
        let n = self.pending.len();
        proof {
            lemma_shr_monotone(self.num_bins as u64, self.num_bins as u64, self.low_width as u64);
        }
        let high_len = n + ((self.num_bins as u64) >> (self.low_width as u64)) as usize + 1;
        self.high = BitVector::new(high_len);
        let mut values: Vec<usize> = Vec::new();
        std::mem::swap(&mut values, &mut self.pending);
        proof {
            lemma_high_parts_sorted(v, self.low_width);
            assert(v.subrange(0, 0) =~= Seq::<usize>::empty());
            assert(high_parts(v.subrange(0, 0), self.low_width) =~= Seq::<int>::empty());
            if self.low_width > 0 {
                assert(as_u64s(v.subrange(0, 0)) =~= Seq::<u64>::empty());
            }
        }
        let mut k: usize = 0;
        while k < n
            invariant
                k <= n,
                n == v.len(),
                values@ == v,
                self.values@ == v,
                self.done@ == false,
                self.pending@.len() == 0,
                self.num_blocks == old(self).num_blocks,
                self.num_bins == old(self).num_bins,
                self.low_width == old(self).low_width,
                self.low_width < 64,
                self.num_blocks@ + self.num_bins < usize::MAX,
                v.len() <= self.num_blocks@,
                nondecreasing(v),
                forall|t: int| 0 <= t < v.len() ==> #[trigger] v[t] <= self.num_bins,
                self.low_width > 0 ==> self.num_blocks@ * self.low_width <= self.num_bins,
                self.high@.len() == high_len,
                high_len == n + ((self.num_bins as u64) >> (self.low_width as u64)) + 1,
                gap_encodes(self.high@, high_parts(v.subrange(0, k as int), self.low_width)),
                low_ok(self.low@, v.subrange(0, k as int), self.low_width),
            decreases n - k,
        {
            self.len = k;
            let value = values[k];
            proof {
                assert(k * self.low_width <= self.num_blocks@ * self.low_width) by (nonlinear_arith)
                    requires k <= self.num_blocks@;
                if self.low_width == 0 {
                    assert(k * self.low_width == 0);
                }
            }
            self.push_low(value);
            proof {
                lemma_shr_monotone(value as u64, self.num_bins as u64, self.low_width as u64);
                lemma_shr_monotone(value as u64, value as u64, self.low_width as u64);
            }
            let high = ((value as u64) >> (self.low_width as u64)) as usize + k;
            proof {
                let hp = high_parts(v.subrange(0, k as int), self.low_width);
                let x = ((value as u64) >> (self.low_width as u64)) as int;
                if k > 0 {
                    lemma_shr_monotone(v[k - 1] as u64, value as u64, self.low_width as u64);
                    assert(hp.last() == ((v[k - 1] as u64) >> (self.low_width as u64)) as int);
                }
                lemma_gap_push(self.high@, hp, x);
                assert(high_parts(v.subrange(0, k + 1), self.low_width) =~= hp.push(x));
            }
            self.high.set(high);
            k = k + 1;
        }
        self.len = n;
        self.done = Ghost(true);
        assert(v.subrange(0, n as int) == v);
    }

    fn locate(&self, bin: usize) -> (r: (usize, usize))
        ensures
            (r.0 as int, r.1 as int) == predecessor_range(self.bins(), bin as int),
    {
        let ghost v = self.values@;
        proof {
            lemma_count_le(v, bin as int);
            lemma_count_le(v, bin - 1);
        }
        // No block holds a value <= bin, so the target sits before the first
        // pushed bin. Resolve to block 0.
        let j = match self.predecessor_position(bin) {
            Some(j) => j,
            None => {
                proof {
                    if count_le(v, bin - 1) > 0 {
                        assert(v[0] <= bin - 1);
                        assert(v[0] > bin);
                    }
                }
                return (0, 1);
            },
        };
        // j is the rightmost block whose value is <= bin, so it ends the range.
        let mut i = j;
        if self.value_at(j) == bin {
            // Exact hit. Back up over the run of equal values, then one more
            // block, since the matching object may spill from that neighbor.
            while i > 0 && self.value_at(i - 1) == bin
                invariant
                    self.wf(),
                    self.done@,
                    v == self.values@,
                    i <= j < v.len(),
                    forall|t: int| i <= t <= j ==> #[trigger] v[t] == bin,
                decreases i,
            {
                i = i - 1;
            }
            proof {
                assert forall|t: int| 0 <= t < i implies #[trigger] v[t] <= bin - 1 by {
                    assert(v[t] <= v[i - 1]);
                    assert(v[i - 1] <= v[i as int]);
                }
                assert forall|t: int| i <= t < v.len() implies #[trigger] v[t] > bin - 1 by {
                    assert(v[i as int] <= v[t]);
                }
                lemma_count_le_is(v, bin - 1, i as int);
            }
            i = if i > 0 { i - 1 } else { 0 };
        } else {
            proof {
                assert forall|t: int| j < t < v.len() implies #[trigger] v[t] > bin - 1 by {}
                assert forall|t: int| 0 <= t <= j implies #[trigger] v[t] <= bin - 1 by {
                    assert(v[t] <= v[j as int]);
                }
                lemma_count_le_is(v, bin - 1, j + 1);
            }
        }
        (i, j - i + 1)
    }

    closed spec fn space_bytes(&self) -> nat {
        (self.low@.len() * 8 + (self.high@.len() + 7) / 8) as nat
    }

    /// Once complete, the backing takes the low bits of each block plus about
    /// three bits per block (for as many blocks as planned), or at most about
    /// two bits per bin and one per block: far below a machine word per block.
    fn space(&self) -> (r: usize)
        ensures
            self.completed() ==> 8 * r <= 2 * self.bin_count() + self.bins().len() + 136,
            self.completed() && self.block_capacity() >= 1 ==> 8 * r <= self.bins().len() * self.low_bits()
                + self.bins().len() + 2 * self.block_capacity() + 135,
    {
        proof {
            lemma_shr_monotone(self.num_bins as u64, self.num_bins as u64, self.low_width as u64);
            if self.done@ {
                let n = self.values@.len();
                let w = self.low_width as int;
                if w > 0 {
                    assert(n * w <= self.num_blocks@ * w) by (nonlinear_arith)
                        requires n <= self.num_blocks@, w >= 0;
                    let p = n * w;
                    assert(self.low@.len() <= p / 64 + 2);
                    assert(64 * (p / 64) <= p) by (nonlinear_arith) requires p >= 0;
                } else {
                    assert(n * w == 0) by (nonlinear_arith) requires w == 0;
                }
                if self.num_blocks@ >= 1 {
                    lemma_high_bound(self.num_blocks@ as usize, self.num_bins, self.low_width);
                }
            }
        }
        self.low.len() * 8 + self.high.space()
    }
}

} // verus!
