//! A plain bit vector with linear rank and select, and the arithmetic of the
//! unary "gap" encoding that the indices store in it.
use vstd::prelude::*;

verus! {

/// Number of entries equal to `val` among the first `p` entries of `s`.
pub open spec fn count(s: Seq<bool>, val: bool, p: int) -> nat
    decreases p,
{
    if p <= 0 {
        0
    } else {
        count(s, val, p - 1) + if s[p - 1] == val { 1nat } else { 0nat }
    }
}

/// `r` is the position of the `k`-th (1-based) entry equal to `val` in `s`,
/// or `s.len()` when `s` holds fewer than `k` such entries.
pub open spec fn is_select(s: Seq<bool>, val: bool, k: int, r: int) -> bool {
    ||| (0 <= r < s.len() && s[r] == val && count(s, val, r) == k - 1)
    ||| (r == s.len() && count(s, val, s.len() as int) < k)
}

pub proof fn lemma_count_bounds(s: Seq<bool>, val: bool, p: int)
    requires
        0 <= p <= s.len(),
    ensures
        count(s, val, p) <= p,
        count(s, val, p) + count(s, !val, p) == p,
    decreases p,
{
    if p > 0 {
        lemma_count_bounds(s, val, p - 1);
    }
}

pub proof fn lemma_count_monotone(s: Seq<bool>, val: bool, p: int, q: int)
    requires
        p <= q,
    ensures
        count(s, val, p) <= count(s, val, q),
    decreases q - p,
{
    if p < q {
        lemma_count_monotone(s, val, p, q - 1);
    }
}

/// Two selections of the same rank agree.
pub proof fn lemma_select_unique(s: Seq<bool>, val: bool, k: int, r1: int, r2: int)
    requires
        k >= 1,
        is_select(s, val, k, r1),
        is_select(s, val, k, r2),
    ensures
        r1 == r2,
{
    if r1 < r2 {
        lemma_count_monotone(s, val, r1 + 1, r2);
        if r2 == s.len() {
            lemma_count_monotone(s, val, r1 + 1, s.len() as int);
        }
    } else if r2 < r1 {
        lemma_count_monotone(s, val, r2 + 1, r1);
        if r1 == s.len() {
            lemma_count_monotone(s, val, r2 + 1, s.len() as int);
        }
    }
}


/// Positions `k + h[k]` strictly increase when `h` does not decrease.
pub open spec fn nondecreasing_ints(h: Seq<int>) -> bool {
    forall|i: int, j: int| 0 <= i <= j < h.len() ==> h[i] <= h[j]
}

/// `s` is the unary gap encoding of the non-decreasing, non-negative `h`:
/// value `k` sets bit `k + h[k]`, and no other bit is set.
pub open spec fn gap_encodes(s: Seq<bool>, h: Seq<int>) -> bool {
    &&& nondecreasing_ints(h)
    &&& forall|k: int| 0 <= k < h.len() ==> 0 <= #[trigger] h[k] && k + h[k] < s.len() && s[k + h[k]]
    &&& forall|p: int|
        0 <= p < s.len() && #[trigger] s[p] ==> exists|k: int| 0 <= k < h.len() && k + h[k] == p
}

/// The ones below `p` are exactly the first `t` values.
pub proof fn lemma_gap_count(s: Seq<bool>, h: Seq<int>, p: int, t: int)
    requires
        gap_encodes(s, h),
        0 <= p <= s.len(),
        0 <= t <= h.len(),
        forall|j: int| 0 <= j < t ==> j + #[trigger] h[j] < p,
        forall|j: int| t <= j < h.len() ==> j + #[trigger] h[j] >= p,
    ensures
        count(s, true, p) == t,
    decreases p,
{
    if p == 0 {
        if t > 0 {
            assert(0 + h[0] < 0);
        }
    } else {
        let tp = if t > 0 && (t - 1) + h[t - 1] == p - 1 { t - 1 } else { t };
        assert forall|j: int| 0 <= j < tp implies j + #[trigger] h[j] < p - 1 by {
            assert(j + h[j] < p);
            if j < t - 1 {
                assert(h[j] <= h[t - 1]);
                assert(t - 1 + h[t - 1] < p);
            }
        }
        assert forall|j: int| tp <= j < h.len() implies j + #[trigger] h[j] >= p - 1 by {
            if j >= t {
                assert(j + h[j] >= p);
            }
        }
        lemma_gap_count(s, h, p - 1, tp);
        if tp == t - 1 {
            assert(s[(t - 1) + h[t - 1]]);
        } else {
            if s[p - 1] {
                let k = choose|k: int| 0 <= k < h.len() && k + h[k] == p - 1;
                if k < t {
                    if k < t - 1 {
                        assert(h[k] <= h[t - 1]);
                        assert(t - 1 + h[t - 1] < p);
                    }
                } else {
                    assert(k + h[k] >= p);
                }
            }
        }
    }
}

/// The `k`-th one (1-based `k + 1`) of a gap encoding sits at `k + h[k]`.
pub proof fn lemma_gap_select1(s: Seq<bool>, h: Seq<int>, k: int)
    requires
        gap_encodes(s, h),
        0 <= k,
    ensures
        k < h.len() ==> is_select(s, true, k + 1, k + h[k]),
        k >= h.len() ==> is_select(s, true, k + 1, s.len() as int),
{
    if k < h.len() {
        assert(s[k + h[k]]);
        assert forall|j: int| 0 <= j < k implies j + #[trigger] h[j] < k + h[k] by {
            assert(h[j] <= h[k]);
        }
        assert forall|j: int| k <= j < h.len() implies j + #[trigger] h[j] >= k + h[k] by {
            assert(h[k] <= h[j]);
        }
        lemma_gap_count(s, h, k + h[k], k);
    } else {
        assert forall|j: int| 0 <= j < h.len() implies j + #[trigger] h[j] < s.len() by {}
        lemma_gap_count(s, h, s.len() as int, h.len() as int);
    }
}

/// The `m`-th zero (1-based) of a gap encoding sits at `m - 1 + c`, where the
/// first `c` values are below `m` and the rest are not.
pub proof fn lemma_gap_select0(s: Seq<bool>, h: Seq<int>, m: int, c: int)
    requires
        gap_encodes(s, h),
        m >= 1,
        0 <= c <= h.len(),
        forall|j: int| 0 <= j < c ==> #[trigger] h[j] < m,
        forall|j: int| c <= j < h.len() ==> #[trigger] h[j] >= m,
        m - 1 + c <= s.len(),
    ensures
        is_select(s, false, m, m - 1 + c),
{
    let q = m - 1 + c;
    if q < s.len() {
        assert forall|j: int| 0 <= j < c implies j + #[trigger] h[j] < q by {}
        assert forall|j: int| c <= j < h.len() implies j + #[trigger] h[j] >= q by {}
        lemma_gap_count(s, h, q, c);
        lemma_count_bounds(s, true, q);
        if s[q] {
            let k = choose|k: int| 0 <= k < h.len() && k + h[k] == q;
            if k < c {
                assert(h[k] < m);
            } else {
                assert(h[k] >= m);
            }
        }
    } else {
        assert forall|j: int| 0 <= j < h.len() implies j + #[trigger] h[j] < s.len() by {}
        lemma_gap_count(s, h, s.len() as int, h.len() as int);
        lemma_count_bounds(s, true, s.len() as int);
    }
}

/// Appending a value sets one more bit.
pub proof fn lemma_gap_push(s: Seq<bool>, h: Seq<int>, x: int)
    requires
        gap_encodes(s, h),
        h.len() > 0 ==> h.last() <= x,
        0 <= x,
        h.len() + x < s.len(),
    ensures
        gap_encodes(s.update(h.len() + x, true), h.push(x)),
{
    let s2 = s.update(h.len() + x, true);
    let h2 = h.push(x);
    assert forall|i: int, j: int| 0 <= i <= j < h2.len() implies h2[i] <= h2[j] by {
        if j == h.len() && i < j {
            assert(h[i] <= h[h.len() - 1]);
        }
    }
    assert forall|k: int| 0 <= k < h2.len() implies 0 <= #[trigger] h2[k] && k + h2[k] < s2.len()
        && s2[k + h2[k]] by {
        if k < h.len() {
            assert(h[k] == h2[k]);
        }
    }
    assert forall|p: int| 0 <= p < s2.len() && #[trigger] s2[p] implies exists|k: int|
        0 <= k < h2.len() && k + h2[k] == p by {
        if p == h.len() + x {
            assert(h2[h.len() as int] == x);
        } else {
            assert(s[p]);
            let k = choose|k: int| 0 <= k < h.len() && k + h[k] == p;
            assert(h2[k] == h[k]);
        }
    }
}

/// A bit vector with linear rank and select.
pub struct BitVector {
    pub bits: Vec<bool>,
}

impl BitVector {
    pub open spec fn view(&self) -> Seq<bool> {
        self.bits@
    }

    /// A vector of `len` zero bits.
    pub fn new(len: usize) -> (r: BitVector)
        ensures
            r@ == Seq::new(len as nat, |i: int| false),
    {
        let mut bits: Vec<bool> = Vec::new();
        let mut i: usize = 0;
        while i < len
            invariant
                i <= len,
                bits@ == Seq::new(i as nat, |j: int| false),
            decreases len - i,
        {
            bits.push(false);
            i = i + 1;
        }
        BitVector { bits }
    }

    pub fn len(&self) -> (r: usize)
        ensures
            r == self@.len(),
    {
        self.bits.len()
    }

    /// Set the bit at `index`.
    pub fn set(&mut self, index: usize)
        requires
            index < old(self)@.len(),
        ensures
            final(self)@ == old(self)@.update(index as int, true),
    {
        self.bits.set(index, true);
    }

    /// The bit at `index`, false past the end.
    pub fn get(&self, index: usize) -> (r: bool)
        ensures
            r == (index < self@.len() && self@[index as int]),
    {
        if index < self.bits.len() {
            self.bits[index]
        } else {
            false
        }
    }

    /// Position of the `k`-th entry equal to `val`, 1-based; the length when
    /// there are fewer.
    fn select(&self, val: bool, k: usize) -> (r: usize)
        requires
            k >= 1,
        ensures
            is_select(self@, val, k as int, r as int),
    {
        let mut seen: usize = 0;
        let mut i: usize = 0;
        while i < self.bits.len()
            invariant
                i <= self@.len(),
                seen == count(self@, val, i as int),
                seen < k,
            decreases self@.len() - i,
        {
            if self.bits[i] == val {
                seen = seen + 1;
                if seen == k {
                    return i;
                }
            }
            i = i + 1;
        }
        i
    }

    /// Position of the `k`-th one bit, 1-based.
    pub fn select1(&self, k: usize) -> (r: usize)
        requires
            k >= 1,
        ensures
            is_select(self@, true, k as int, r as int),
    {
        self.select(true, k)
    }

    /// Position of the `k`-th zero bit, 1-based.
    pub fn select0(&self, k: usize) -> (r: usize)
        requires
            k >= 1,
        ensures
            is_select(self@, false, k as int, r as int),
    {
        self.select(false, k)
    }

    /// Count of one bits in `bits[0..prefix]`.
    pub fn rank1(&self, prefix: usize) -> (r: usize)
        ensures
            r == count(self@, true, if prefix < self@.len() { prefix as int } else { self@.len() as int }),
    {
        let end = if prefix < self.bits.len() { prefix } else { self.bits.len() };
        let mut c: usize = 0;
        let mut i: usize = 0;
        while i < end
            invariant
                i <= end <= self@.len(),
                c == count(self@, true, i as int),
                c <= i,
            decreases end - i,
        {
            if self.bits[i] {
                c = c + 1;
            }
            i = i + 1;
        }
        c
    }

    /// Backing size in bytes: the bit count rounded up to whole bytes.
    pub fn space(&self) -> (r: usize)
        ensures
            r == (self@.len() + 7) / 8,
    {
        let n = self.bits.len();
        n / 8 + if n % 8 == 0 { 0 } else { 1 }
    }
}

} // verus!
