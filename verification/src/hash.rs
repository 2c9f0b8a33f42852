//! Hashing and bucket math.
//!
//! [`murmur_hash64`] maps a byte slice to a 64-bit key. [`fastrange64`] maps a
//! 64-bit value uniformly into a range without modulo bias. [`key2bin`] uses it
//! to place a key into one of `num_bins` bins.
use vstd::prelude::*;
use vstd::wrapping::u64_specs::wrapping_mul;
use vstd::arithmetic::power2::pow2;
use crate::le::{le64, read_le64};

verus! {

/// The MurmurHash64A multiplier.
pub const M: u64 = 0xc6a4_a793_5bd1_e995;

/// The MurmurHash64A shift.
pub const R: u64 = 47;

/// Default seed for [`murmur_hash64`], matching the seeded variant with seed 0.
pub const DEFAULT_SEED: u64 = 0;

/// One 8-byte block, scrambled before it enters the state.
pub open spec fn murmur_mix(k: u64) -> u64 {
    let k1 = wrapping_mul(k, M);
    let k2 = k1 ^ (k1 >> R);
    wrapping_mul(k2, M)
}

/// The state after the first `n` whole 8-byte blocks of `data`.
pub open spec fn murmur_blocks(data: Seq<u8>, seed: u64, n: nat) -> u64
    decreases n,
{
    if n == 0 {
        seed ^ wrapping_mul(data.len() as u64, M)
    } else {
        let h = murmur_blocks(data, seed, (n - 1) as nat);
        wrapping_mul(h ^ murmur_mix(le64(data, 8 * (n - 1))), M)
    }
}

/// The state after xoring the tail bytes `tail[i - 1]`, ..., `tail[0]`, each
/// at its little-endian position.
pub open spec fn murmur_tail_xor(h: u64, tail: Seq<u8>, i: int) -> u64
    decreases i,
{
    if i <= 0 {
        h
    } else {
        murmur_tail_xor(h ^ ((tail[i - 1] as u64) << (8 * (i - 1)) as u64), tail, i - 1)
    }
}

/// Byte `i` of `t` as a word, or 0 past its end.
pub open spec fn tail_byte(t: Seq<u8>, i: int) -> u64 {
    if 0 <= i < t.len() { t[i] as u64 } else { 0u64 }
}

/// The little-endian word of the up to 8 bytes of `t`, missing bytes zero.
pub open spec fn le_word(t: Seq<u8>) -> u64 {
    tail_byte(t, 0) | (tail_byte(t, 1) << 8u64) | (tail_byte(t, 2) << 16u64) | (tail_byte(t, 3) << 24u64)
        | (tail_byte(t, 4) << 32u64) | (tail_byte(t, 5) << 40u64) | (tail_byte(t, 6) << 48u64) | (tail_byte(
        t,
        7,
    ) << 56u64)
}

/// The final avalanche.
pub open spec fn murmur_finish(h: u64) -> u64 {
    let h1 = h ^ (h >> R);
    let h2 = wrapping_mul(h1, M);
    h2 ^ (h2 >> R)
}

/// 64-bit MurmurHash2, the `MurmurHash64A` variant, of `data` with `seed`.
pub open spec fn murmur64a(data: Seq<u8>, seed: u64) -> u64 {
    let nb = data.len() / 8;
    let h = murmur_blocks(data, seed, nb);
    let tail = data.subrange(8 * nb as int, data.len() as int);
    let rem = data.len() % 8;
    let ht = murmur_tail_xor(h, tail, rem as int);
    let hm = if rem >= 1 { wrapping_mul(ht, M) } else { ht };
    murmur_finish(hm)
}

/// 64-bit MurmurHash2 (the `MurmurHash64A` variant) over `data` with a seed.
///
/// The result drives on-disk key order, so the byte and tail handling must stay
/// fixed.
pub fn murmur_hash64_seeded(data: &[u8], seed: u64) -> (r: u64)
    ensures
        r == murmur64a(data@, seed),
{
    let len = data.len();
    let mut h: u64 = seed ^ (len as u64).wrapping_mul(M);
    let n_blocks = len / 8;
    let mut i: usize = 0;
    while i < n_blocks
        invariant
            len == data@.len(),
            n_blocks == len / 8,
            i <= n_blocks,
            h == murmur_blocks(data@, seed, i as nat),
        decreases n_blocks - i,
    {
        let mut k = read_le64(data, i * 8);
        k = k.wrapping_mul(M);
        k = k ^ (k >> R);
        k = k.wrapping_mul(M);
        h = h ^ k;
        h = h.wrapping_mul(M);
        i = i + 1;
    }
    let base = n_blocks * 8;
    let rem = len % 8;
    let ghost tail = data@.subrange(base as int, len as int);
    let ghost h0 = h;
    let mut t = rem;
    while t > 0
        invariant
            len == data@.len(),
            base == 8 * (len / 8),
            rem == len % 8,
            t <= rem,
            tail == data@.subrange(base as int, len as int),
            murmur_tail_xor(h, tail, t as int) == murmur_tail_xor(h0, tail, rem as int),
        decreases t,
    {
        h = h ^ ((data[base + t - 1] as u64) << (8 * (t - 1)) as u64);
        t = t - 1;
    }
    if rem >= 1 {
        h = h.wrapping_mul(M);
    }
    h = h ^ (h >> R);
    h = h.wrapping_mul(M);
    h = h ^ (h >> R);
    h
}

/// MurmurHash64A, step by step: the state starts as the seed xor the length
/// times `M`; each whole 8-byte little-endian block `k` is scrambled to
/// `((k * M) ^ ((k * M) >> 47)) * M`, xored in, and the state multiplied by
/// `M`; when 1 to 7 bytes are left, their little-endian word is xored in and
/// the state multiplied by `M` once more; the result is the state avalanched
/// by `x ^ (x >> 47)`, times `M`, then `x ^ (x >> 47)` again. All products
/// wrap modulo 2^64.
pub proof fn lemma_murmur64a_steps(data: Seq<u8>, seed: u64)
    ensures
        murmur_blocks(data, seed, 0) == seed ^ wrapping_mul(data.len() as u64, 0xc6a4_a793_5bd1_e995u64),
        forall|i: nat| #![trigger murmur_blocks(data, seed, i + 1)] i < data.len() / 8 ==> {
            let k1 = wrapping_mul(le64(data, (8 * i) as int), 0xc6a4_a793_5bd1_e995u64);
            let k2 = wrapping_mul(k1 ^ (k1 >> 47u64), 0xc6a4_a793_5bd1_e995u64);
            murmur_blocks(data, seed, i + 1) == wrapping_mul(murmur_blocks(data, seed, i) ^ k2,
                0xc6a4_a793_5bd1_e995u64)
        },
        ({
            let n = data.len() / 8;
            let h = murmur_blocks(data, seed, n);
            let t = data.subrange(8 * n as int, data.len() as int);
            let h2 = if t.len() == 0 { h } else { wrapping_mul(h ^ le_word(t), 0xc6a4_a793_5bd1_e995u64) };
            let a = h2 ^ (h2 >> 47u64);
            let b = wrapping_mul(a, 0xc6a4_a793_5bd1_e995u64);
            murmur64a(data, seed) == b ^ (b >> 47u64)
        }),
{
    let n = data.len() / 8;
    let h = murmur_blocks(data, seed, n);
    let t = data.subrange(8 * n as int, data.len() as int);
    let r = data.len() % 8;
    assert(t.len() == r);
    let b0 = tail_byte(t, 0);
    let b1 = tail_byte(t, 1);
    let b2 = tail_byte(t, 2);
    let b3 = tail_byte(t, 3);
    let b4 = tail_byte(t, 4);
    let b5 = tail_byte(t, 5);
    let b6 = tail_byte(t, 6);
    let b7 = tail_byte(t, 7);
    assert(le_word(t) == b0 | (b1 << 8u64) | (b2 << 16u64) | (b3 << 24u64) | (b4 << 32u64) | (b5 << 40u64)
        | (b6 << 48u64) | (b7 << 56u64));
    reveal_with_fuel(murmur_tail_xor, 9);
    if r >= 1 {
        if r == 0 {
        } else if r == 1 {
            assert(murmur_tail_xor(h, t, 1) == (h ^ (b0 << 0u64)));
            assert((h ^ (b0 << 0u64)) == h ^ (b0 | (b1 << 8u64) | (b2 << 16u64) | (b3 << 24u64) | (b4 << 32u64) | (b5 << 40u64) | (b6 << 48u64) | (b7 << 56u64))) by (bit_vector)
                requires b0 < 256, b1 == 0, b2 == 0, b3 == 0, b4 == 0, b5 == 0, b6 == 0, b7 == 0;
        } else if r == 2 {
            assert(murmur_tail_xor(h, t, 2) == ((h ^ (b1 << 8u64)) ^ (b0 << 0u64)));
            assert(((h ^ (b1 << 8u64)) ^ (b0 << 0u64)) == h ^ (b0 | (b1 << 8u64) | (b2 << 16u64) | (b3 << 24u64) | (b4 << 32u64) | (b5 << 40u64) | (b6 << 48u64) | (b7 << 56u64))) by (bit_vector)
                requires b0 < 256, b1 < 256, b2 == 0, b3 == 0, b4 == 0, b5 == 0, b6 == 0, b7 == 0;
        } else if r == 3 {
            assert(murmur_tail_xor(h, t, 3) == (((h ^ (b2 << 16u64)) ^ (b1 << 8u64)) ^ (b0 << 0u64)));
            assert((((h ^ (b2 << 16u64)) ^ (b1 << 8u64)) ^ (b0 << 0u64)) == h ^ (b0 | (b1 << 8u64) | (b2 << 16u64) | (b3 << 24u64) | (b4 << 32u64) | (b5 << 40u64) | (b6 << 48u64) | (b7 << 56u64))) by (bit_vector)
                requires b0 < 256, b1 < 256, b2 < 256, b3 == 0, b4 == 0, b5 == 0, b6 == 0, b7 == 0;
        } else if r == 4 {
            assert(murmur_tail_xor(h, t, 4) == ((((h ^ (b3 << 24u64)) ^ (b2 << 16u64)) ^ (b1 << 8u64)) ^ (b0 << 0u64)));
            assert(((((h ^ (b3 << 24u64)) ^ (b2 << 16u64)) ^ (b1 << 8u64)) ^ (b0 << 0u64)) == h ^ (b0 | (b1 << 8u64) | (b2 << 16u64) | (b3 << 24u64) | (b4 << 32u64) | (b5 << 40u64) | (b6 << 48u64) | (b7 << 56u64))) by (bit_vector)
                requires b0 < 256, b1 < 256, b2 < 256, b3 < 256, b4 == 0, b5 == 0, b6 == 0, b7 == 0;
        } else if r == 5 {
            assert(murmur_tail_xor(h, t, 5) == (((((h ^ (b4 << 32u64)) ^ (b3 << 24u64)) ^ (b2 << 16u64)) ^ (b1 << 8u64)) ^ (b0 << 0u64)));
            assert((((((h ^ (b4 << 32u64)) ^ (b3 << 24u64)) ^ (b2 << 16u64)) ^ (b1 << 8u64)) ^ (b0 << 0u64)) == h ^ (b0 | (b1 << 8u64) | (b2 << 16u64) | (b3 << 24u64) | (b4 << 32u64) | (b5 << 40u64) | (b6 << 48u64) | (b7 << 56u64))) by (bit_vector)
                requires b0 < 256, b1 < 256, b2 < 256, b3 < 256, b4 < 256, b5 == 0, b6 == 0, b7 == 0;
        } else if r == 6 {
            assert(murmur_tail_xor(h, t, 6) == ((((((h ^ (b5 << 40u64)) ^ (b4 << 32u64)) ^ (b3 << 24u64)) ^ (b2 << 16u64)) ^ (b1 << 8u64)) ^ (b0 << 0u64)));
            assert(((((((h ^ (b5 << 40u64)) ^ (b4 << 32u64)) ^ (b3 << 24u64)) ^ (b2 << 16u64)) ^ (b1 << 8u64)) ^ (b0 << 0u64)) == h ^ (b0 | (b1 << 8u64) | (b2 << 16u64) | (b3 << 24u64) | (b4 << 32u64) | (b5 << 40u64) | (b6 << 48u64) | (b7 << 56u64))) by (bit_vector)
                requires b0 < 256, b1 < 256, b2 < 256, b3 < 256, b4 < 256, b5 < 256, b6 == 0, b7 == 0;
        } else if r == 7 {
            assert(murmur_tail_xor(h, t, 7) == (((((((h ^ (b6 << 48u64)) ^ (b5 << 40u64)) ^ (b4 << 32u64)) ^ (b3 << 24u64)) ^ (b2 << 16u64)) ^ (b1 << 8u64)) ^ (b0 << 0u64)));
            assert((((((((h ^ (b6 << 48u64)) ^ (b5 << 40u64)) ^ (b4 << 32u64)) ^ (b3 << 24u64)) ^ (b2 << 16u64)) ^ (b1 << 8u64)) ^ (b0 << 0u64)) == h ^ (b0 | (b1 << 8u64) | (b2 << 16u64) | (b3 << 24u64) | (b4 << 32u64) | (b5 << 40u64) | (b6 << 48u64) | (b7 << 56u64))) by (bit_vector)
                requires b0 < 256, b1 < 256, b2 < 256, b3 < 256, b4 < 256, b5 < 256, b6 < 256, b7 == 0;
        }
        assert(murmur_tail_xor(h, t, r as int) == h ^ le_word(t));
    }
}

/// [`murmur_hash64_seeded`] with the default seed.
pub fn murmur_hash64(data: &[u8]) -> (r: u64)
    ensures
        r == murmur64a(data@, DEFAULT_SEED),
{
    murmur_hash64_seeded(data, DEFAULT_SEED)
}

/// `floor(value * range / 2^64)`: the bin of `value` among `range` equal bins.
pub open spec fn spec_fastrange(value: u64, range: u64) -> int {
    (value as int * range as int) / 0x1_0000_0000_0000_0000int
}

proof fn lemma_fastrange_bounds(value: u64, range: u64)
    ensures
        0 <= value as int * range as int <= u128::MAX,
        0 <= spec_fastrange(value, range),
        range > 0 ==> spec_fastrange(value, range) < range,
        spec_fastrange(value, range) <= u64::MAX,
{
    assert(0 <= value as int * range as int <= u128::MAX) by (nonlinear_arith)
        requires value <= u64::MAX, range <= u64::MAX;
    assert(range > 0 ==> (value as int * range as int) / 0x1_0000_0000_0000_0000int < range) by (nonlinear_arith)
        requires value <= u64::MAX, range <= u64::MAX;
    assert((value as int * range as int) / 0x1_0000_0000_0000_0000int <= u64::MAX) by (nonlinear_arith)
        requires value <= u64::MAX, range <= u64::MAX;
    assert(0 <= (value as int * range as int) / 0x1_0000_0000_0000_0000int) by (nonlinear_arith)
        requires value <= u64::MAX, range <= u64::MAX;
}

/// The bin lies in `[0, range]`, below `range` when there are bins, and key 0
/// lands in bin 0.
pub proof fn lemma_fastrange_range(value: u64, range: u64)
    ensures
        0 <= spec_fastrange(value, range) <= range,
        range > 0 ==> spec_fastrange(value, range) < range,
        spec_fastrange(0, range) == 0,
{
    lemma_fastrange_bounds(value, range);
    if range == 0 {
        assert(value as int * range as int == 0);
    }
}

/// The bin of `value` among `range` equal bins is the whole part of
/// `value * range / 2^64`: its multiples of 2^64 bracket the product. With no
/// bins it is 0.
pub proof fn lemma_fastrange_floor(value: u64, range: u64)
    ensures
        range > 0 ==> spec_fastrange(value, range) * 0x1_0000_0000_0000_0000int <= value as int * range as int,
        range > 0 ==> (value as int * range as int) < (spec_fastrange(value, range) + 1) * 0x1_0000_0000_0000_0000int,
        range == 0 ==> spec_fastrange(value, range) == 0,
{
    let p = value as int * range as int;
    let q = spec_fastrange(value, range);
    assert(p >= 0) by (nonlinear_arith) requires p == value as int * range as int, value >= 0, range >= 0;
    assert(q * 0x1_0000_0000_0000_0000int <= p && p < (q + 1) * 0x1_0000_0000_0000_0000int) by (nonlinear_arith)
        requires q == p / 0x1_0000_0000_0000_0000int, p >= 0;
    if range == 0 {
        assert(p == 0) by (nonlinear_arith) requires range == 0, p == value as int * range as int;
    }
}

/// Map `value` uniformly into `[0, range)` using a 128-bit multiply.
///
/// This is Lemire's fastrange. It avoids the bias of a plain modulo.
pub fn fastrange64(value: u64, range: u64) -> (r: u64)
    ensures
        r == spec_fastrange(value, range),
        range > 0 ==> r < range,
        range > 0 ==> r as int * 0x1_0000_0000_0000_0000int <= value as int * range as int,
        range > 0 ==> (value as int * range as int) < (r as int + 1) * 0x1_0000_0000_0000_0000int,
        range == 0 ==> r == 0,
{
    proof {
        lemma_fastrange_bounds(value, range);
        lemma_fastrange_floor(value, range);
    }
    let p: u128 = (value as u128) * (range as u128);
    assert(p >> 64 == p / 0x1_0000_0000_0000_0000u128) by (bit_vector);
    (p >> 64) as u64
}

/// Bin of a key given the total bin count.
///
/// Equivalent to [`fastrange64`]. Kept separate to mirror the store's naming.
pub fn key2bin(key: u64, num_bins: u64) -> (r: u64)
    ensures
        r == spec_fastrange(key, num_bins),
        num_bins > 0 ==> r < num_bins,
        num_bins > 0 ==> r as int * 0x1_0000_0000_0000_0000int <= key as int * num_bins as int,
        num_bins > 0 ==> (key as int * num_bins as int) < (r as int + 1) * 0x1_0000_0000_0000_0000int,
        num_bins == 0 ==> r == 0,
{
    fastrange64(key, num_bins)
}

/// A larger key never lands in an earlier bin.
pub proof fn lemma_fastrange_monotone(a: u64, b: u64, range: u64)
    requires
        a <= b,
    ensures
        spec_fastrange(a, range) <= spec_fastrange(b, range),
{
    assert(a as int * range as int <= b as int * range as int) by (nonlinear_arith)
        requires a <= b, range >= 0;
    assert((a as int * range as int) / 0x1_0000_0000_0000_0000int <= (b as int * range as int)
        / 0x1_0000_0000_0000_0000int) by (nonlinear_arith)
        requires a as int * range as int <= b as int * range as int;
}

proof fn lemma_top_bit_range(y: u64, s: u64)
    by (bit_vector)
    requires
        s < 64,
        (y >> s) & 1u64 != 0u64,
        s < 63 ==> y >> (s + 1) as u64 == 0,
    ensures
        y >> s == 1u64,
{
}

/// Number of bits needed to represent `x - 1`, that is `ceil(log2(x))`.
///
/// Returns 0 for inputs 0 and 1. Used to size the Elias-Fano lower part.
pub fn ceillog2(x: u64) -> (r: u32)
    ensures
        r <= 64,
        x <= 1 ==> r == 0,
        x > 1 ==> r >= 1 && pow2((r - 1) as nat) < x <= pow2(r as nat),
{
    if x <= 1 {
        0
    } else {
        let lz = (x - 1).leading_zeros();
        proof {
            let y = (x - 1) as u64;
            vstd::std_specs::bits::axiom_u64_leading_zeros(y);
            let s = (63 - lz) as u64;
            assert(lz < 64);
            lemma_top_bit_range(y, s);
            vstd::bits::lemma_u64_shr_is_div(y, s);
            vstd::arithmetic::power2::lemma2_to64();
            vstd::arithmetic::power2::lemma_pow2_pos(s as nat);
            assert(y as nat / pow2(s as nat) == 1);
            vstd::arithmetic::div_mod::lemma_fundamental_div_mod(y as int, pow2(s as nat) as int);
            assert(pow2((s + 1) as nat) == 2 * pow2(s as nat)) by {
                vstd::arithmetic::power2::lemma_pow2_unfold((s + 1) as nat);
            }
        }
        64 - lz
    }
}

} // verus!
