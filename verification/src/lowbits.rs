//! Packed fixed-width fields in a stream of 64-bit words, least significant
//! bit first: the low part of the Elias-Fano index.
use vstd::prelude::*;

verus! {

/// The `w` low bits set.
pub open spec fn low_mask(w: u64) -> u64 {
    ((1u64 << w) - 1u64) as u64
}

/// A value is its high part shifted back above its low bits.
pub proof fn lemma_recombine(x: u64, w: u64)
    by (bit_vector)
    requires
        w < 64,
    ensures
        ((x >> w) << w) | (x & low_mask(w)) == x,
        ((x >> 0u64) << 0u64) | 0u64 == x,
{
}

/// Shifting right keeps order.
pub proof fn lemma_shr_monotone(a: u64, b: u64, w: u64)
    by (bit_vector)
    requires
        a <= b,
    ensures
        a >> w <= b >> w,
        a >> w <= a,
{
}

proof fn lemma_zero_shr(s: u64)
    by (bit_vector)
    ensures
        0u64 >> s == 0u64,
{
}

pub proof fn lemma_mask_idem(v: u64, w: u64)
    by (bit_vector)
    ensures
        (v & low_mask(w)) & low_mask(w) == v & low_mask(w),
{
}

proof fn lemma_or_above_same_word(x: u64, y: u64, s1: u64, w: u64, sh: u64)
    by (bit_vector)
    requires
        s1 + w <= sh,
        sh < 64,
        w < 64,
    ensures
        ((x | (y << sh)) >> s1) & low_mask(w) == (x >> s1) & low_mask(w),
{
}

proof fn lemma_or_above_next_word(lo: u64, x: u64, y: u64, a: u64, w: u64, sh: u64)
    by (bit_vector)
    requires
        w <= sh + a,
        a < 64,
        sh < 64,
        w < 64,
    ensures
        (lo | ((x | (y << sh)) << a)) & low_mask(w) == (lo | (x << a)) & low_mask(w),
{
}

proof fn lemma_new_read_in_word(x: u64, v: u64, sh: u64, w: u64)
    by (bit_vector)
    requires
        x >> sh == 0,
        v & low_mask(w) == v,
        sh + w <= 64,
        sh < 64,
        w < 64,
    ensures
        ((x | (v << sh)) >> sh) & low_mask(w) == v,
{
}

proof fn lemma_new_read_across(x: u64, v: u64, sh: u64, w: u64)
    by (bit_vector)
    requires
        x >> sh == 0,
        v & low_mask(w) == v,
        sh + w > 64,
        sh < 64,
        w < 64,
    ensures
        (((x | (v << sh)) >> sh) | ((0u64 | (v >> (64 - sh) as u64)) << (64 - sh) as u64)) & low_mask(w) == v,
{
}

proof fn lemma_zero_after_in_word(x: u64, v: u64, sh: u64, w: u64)
    by (bit_vector)
    requires
        x >> sh == 0,
        v & low_mask(w) == v,
        sh + w < 64,
        w < 64,
    ensures
        (x | (v << sh)) >> (sh + w) == 0,
{
}

proof fn lemma_zero_after_across(v: u64, sh: u64, w: u64)
    by (bit_vector)
    requires
        v & low_mask(w) == v,
        sh + w > 64,
        sh < 64,
        w < 64,
    ensures
        (0u64 | (v >> (64 - sh) as u64)) >> (sh + w - 64) as u64 == 0,
{
}

/// The `w`-bit field `k`, read the way the index reads it: from the word that
/// holds its first bit and, when it straddles a word edge, the next word.
pub open spec fn read_low(low: Seq<u64>, k: int, w: int) -> u64 {
    let p = k * w;
    let word = p / 64;
    let sh = p % 64;
    let lo = low[word] >> (sh as u64);
    let lo2 = if sh + w > 64 {
        lo | (low[word + 1] << ((64 - sh) as u64))
    } else {
        lo
    };
    lo2 & low_mask(w as u64)
}

/// `low` packs the low `w` bits of each value of `vals`, and nothing past them.
pub open spec fn low_inv(low: Seq<u64>, vals: Seq<u64>, w: int) -> bool {
    let n = vals.len() as int;
    let p = n * w;
    &&& 0 < w < 64
    &&& n > 0 ==> ((n - 1) * w) / 64 + 2 <= low.len()
    &&& low.len() <= p / 64 + 2
    &&& forall|k: int| 0 <= k < n ==> read_low(low, k, w) == #[trigger] vals[k] & low_mask(w as u64)
    &&& p / 64 < low.len() ==> low[p / 64] >> ((p % 64) as u64) == 0
    &&& forall|t: int| p / 64 < t < low.len() ==> low[t] == 0
}

/// The words after padding `low` with zeros up to length `len`.
pub open spec fn padded(low: Seq<u64>, len: int) -> Seq<u64> {
    Seq::new(if low.len() < len { len as nat } else { low.len() }, |i: int| if i < low.len() { low[i] } else { 0u64 })
}

/// The words after storing the low bits of `value` as field `n`.
pub open spec fn pushed_low(low: Seq<u64>, n: int, w: int, value: u64) -> Seq<u64> {
    let p = n * w;
    let word = p / 64;
    let sh = p % 64;
    let lv = value & low_mask(w as u64);
    let l1 = padded(low, word + 2);
    let l2 = l1.update(word, l1[word] | (lv << (sh as u64)));
    if sh + w > 64 {
        l2.update(word + 1, l2[word + 1] | (lv >> ((64 - sh) as u64)))
    } else {
        l2
    }
}

pub proof fn lemma_push_low(low: Seq<u64>, vals: Seq<u64>, w: int, value: u64)
    requires
        low_inv(low, vals, w),
    ensures
        low_inv(pushed_low(low, vals.len() as int, w, value), vals.push(value), w),
{
    let n = vals.len() as int;
    let p = n * w;
    let word = p / 64;
    let sh = p % 64;
    let lv = value & low_mask(w as u64);
    let l1 = padded(low, word + 2);
    let l3 = pushed_low(low, n, w, value);
    let vals2 = vals.push(value);
    lemma_mask_idem(value, w as u64);
    assert((n + 1) * w == p + w) by (nonlinear_arith) requires p == n * w;
    assert(p >= 0) by (nonlinear_arith) requires n >= 0, w > 0, p == n * w;
    // the field of the new value
    if word < low.len() {
        assert(l1[word] == low[word]);
    }
    if word + 1 < low.len() {
        assert(l1[word + 1] == low[word + 1]);
    }
    if word >= low.len() {
        lemma_zero_shr(sh as u64);
    }
    assert(l1[word] >> (sh as u64) == 0);
    assert(l1[word + 1] == 0);
    if sh + w > 64 {
        lemma_new_read_across(l1[word], lv, sh as u64, w as u64);
    } else {
        lemma_new_read_in_word(l1[word], lv, sh as u64, w as u64);
    }
    assert(read_low(l3, n, w) == lv);
    // the fields already stored
    assert forall|k: int| 0 <= k < n implies read_low(l3, k, w) == #[trigger] vals[k] & low_mask(w as u64) by {
        let pk = k * w;
        let wk = pk / 64;
        let sk = pk % 64;
        assert(pk + w <= p) by (nonlinear_arith) requires pk == k * w, p == n * w, k < n, w > 0;
        assert(pk <= (n - 1) * w) by (nonlinear_arith) requires pk == k * w, k <= n - 1, w > 0;
        assert(0 <= pk) by (nonlinear_arith) requires pk == k * w, k >= 0, w > 0;
        assert(wk + 1 < low.len());
        assert(l1[wk] == low[wk]);
        assert(l1[wk + 1] == low[wk + 1]);
        if wk < word {
            assert(l3[wk] == low[wk]);
            if sk + w > 64 {
                if wk + 1 < word {
                    assert(l3[wk + 1] == low[wk + 1]);
                } else {
                    assert(l3[wk + 1] == (low[wk + 1] | (lv << (sh as u64))));
                    lemma_or_above_next_word(low[wk] >> (sk as u64), low[wk + 1], lv, (64 - sk) as u64, w as u64, sh as u64);
                }
            }
        } else {
            assert(wk == word);
            assert(sk + w <= sh);
            assert(l3[wk] == (low[wk] | (lv << (sh as u64))));
            lemma_or_above_same_word(low[wk], lv, sk as u64, w as u64, sh as u64);
        }
        assert(read_low(l3, k, w) == read_low(low, k, w));
        assert(read_low(low, k, w) == vals[k] & low_mask(w as u64));
    }
    assert forall|k: int| 0 <= k < n + 1 implies read_low(l3, k, w) == #[trigger] vals2[k] & low_mask(w as u64) by {
        if k < n {
            assert(vals2[k] == vals[k]);
        } else {
            assert(vals2[k] == value);
            assert(value & low_mask(w as u64) == lv);
        }
    }
    // nothing past the new field
    let p2 = p + w;
    if sh + w < 64 {
        assert(p2 / 64 == word && p2 % 64 == sh + w);
        lemma_zero_after_in_word(l1[word], lv, sh as u64, w as u64);
    } else if sh + w == 64 {
        assert(p2 / 64 == word + 1 && p2 % 64 == 0);
        assert(l3[word + 1] == 0u64);
        assert(0u64 >> 0u64 == 0u64) by (bit_vector);
    } else {
        assert(p2 / 64 == word + 1 && p2 % 64 == sh + w - 64);
        assert(l3[word + 1] == (0u64 | (lv >> ((64 - sh) as u64))));
        lemma_zero_after_across(lv, sh as u64, w as u64);
    }
    assert forall|t: int| p2 / 64 < t < l3.len() implies l3[t] == 0 by {
        if t < low.len() {
            assert(l1[t] == low[t]);
        }
    }
}

} // verus!
