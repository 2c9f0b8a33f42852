//! Why a query of a written store finds every object.
//!
//! A query reads the block range the index locates for the key's bin and
//! decodes it as a store of its own. This module shows that the range read for
//! a stored key holds the key's entry and every byte of its object, so the
//! range decodes the same value as the whole store, and that keys never stored
//! are missed.
use vstd::prelude::*;
use crate::format::{blk, nobj, key_at, off_at, starts, stream, base, chunk, dend, blocks_wf,
    block_wf, decoded, entry_end, lemma_starts_step, lemma_starts_grow, lemma_starts_index,
    lemma_stream_grows, lemma_stream_block};
use crate::store::{window, last_key_before, block_bin, block_bins, lookup, lemma_lookup_at,
    lemma_lookup_none, sound, sorted_order, permuted, item_keys};
use vstd::set_lib::{set_int_range, lemma_int_range, lemma_subset_equality};
use crate::writer::{written_image, header_placeholder, max_len};
use crate::config::{StoreMetadata, MetadataError, metadata_image, parse_metadata};
use crate::block::block_readable;
use crate::hash::{spec_fastrange, lemma_fastrange_range, lemma_fastrange_monotone};
use crate::index::{nondecreasing, count_le, predecessor_range, lemma_count_le};

verus! {

/// The block holding table entry `g`, and the entry's place in it.
pub proof fn lemma_entry_block(d: Seq<u8>, nb: int, g: int) -> (b: int)
    requires
        0 <= nb,
        0 <= g < starts(d, nb).len(),
    ensures
        0 <= b < nb,
        starts(d, b).len() <= g < starts(d, b + 1).len(),
        starts(d, nb)[g] == (key_at(d, b, g - starts(d, b).len()), base(d, b) + off_at(d, b, g - starts(d, b).len()),
            g - starts(d, b).len() + 1 == nobj(d, b)),
    decreases nb,
{
    if nb == 0 {
        assert(starts(d, 0).len() == 0);
        0
    } else {
        lemma_starts_step(d, nb - 1);
        if g < starts(d, nb - 1).len() {
            let b = lemma_entry_block(d, nb - 1, g);
            lemma_starts_grow(d, nb - 1, nb);
            assert(starts(d, nb)[g] == starts(d, nb - 1)[g]);
            b
        } else {
            let b = nb - 1;
            lemma_starts_index(d, nb, b, g - starts(d, b).len());
            b
        }
    }
}

/// An entry starts within the object bytes of its block.
pub proof fn lemma_entry_pos(d: Seq<u8>, nb: int, g: int, b: int)
    requires
        blocks_wf(d, nb),
        0 <= b < nb,
        starts(d, b).len() <= g < starts(d, b + 1).len(),
    ensures
        g < starts(d, nb).len(),
        base(d, b) <= starts(d, nb)[g].1 <= base(d, b + 1),
        starts(d, nb)[g] == (key_at(d, b, g - starts(d, b).len()), base(d, b) + off_at(d, b, g - starts(d, b).len()),
            g - starts(d, b).len() + 1 == nobj(d, b)),
{
    lemma_starts_step(d, b);
    let i = g - starts(d, b).len();
    lemma_starts_index(d, nb, b, i);
    lemma_stream_block(d, nb, b);
    assert(block_wf(blk(d, b)));
    assert(off_at(d, b, i) <= dend(d, b));
    assert(chunk(d, b).len() == dend(d, b));
}

/// Later entries start no earlier.
pub proof fn lemma_pos_ordered(d: Seq<u8>, nb: int, g1: int, g2: int)
    requires
        blocks_wf(d, nb),
        0 <= g1 <= g2 < starts(d, nb).len(),
    ensures
        starts(d, nb)[g1].1 <= starts(d, nb)[g2].1,
{
    let b1 = lemma_entry_block(d, nb, g1);
    let b2 = lemma_entry_block(d, nb, g2);
    lemma_entry_pos(d, nb, g1, b1);
    lemma_entry_pos(d, nb, g2, b2);
    if b1 > b2 {
        lemma_starts_grow(d, b2 + 1, b1);
    } else if b1 < b2 {
        lemma_stream_grows(d, b1 + 1, b2);
    } else {
        let i1 = g1 - starts(d, b1).len();
        let i2 = g2 - starts(d, b1).len();
        assert(block_wf(blk(d, b1)));
        assert(off_at(d, b1, i1) <= off_at(d, b1, i2));
    }
}

/// Blocks `f .. f + t` read on their own give the bytes and entries of those
/// blocks in the whole store, with positions counted from block `f`.
pub proof fn lemma_window_stream(d: Seq<u8>, f: int, c: int, t: int)
    requires
        0 <= f,
        0 <= t <= c,
        4096 * (f + c) <= d.len(),
    ensures
        base(d, f) <= base(d, f + t),
        stream(window(d, f, c), t) == stream(d, f + t).subrange(base(d, f), base(d, f + t)),
        starts(window(d, f, c), t).len() + starts(d, f).len() == starts(d, f + t).len(),
        forall|h: int| 0 <= h < starts(window(d, f, c), t).len() ==> #[trigger] starts(window(d, f, c), t)[h] == (
            starts(d, f + t)[starts(d, f).len() + h].0,
            starts(d, f + t)[starts(d, f).len() + h].1 - base(d, f),
            starts(d, f + t)[starts(d, f).len() + h].2,
        ),
    decreases t,
{
    let w = window(d, f, c);
    lemma_stream_grows(d, f, f + t);
    lemma_starts_grow(d, f, f + t);
    if t == 0 {
        assert(stream(w, 0) =~= stream(d, f).subrange(base(d, f), base(d, f)));
        assert(starts(w, 0).len() == 0);
    } else {
        lemma_window_stream(d, f, c, t - 1);
        let u = t - 1;
        assert(blk(w, u) =~= blk(d, f + u));
        lemma_stream_grows(d, f + u, f + t);
        let sd = stream(d, f + t);
        assert(stream(d, f + t) == stream(d, f + u) + chunk(d, f + u));
        assert(stream(w, t) == stream(w, u) + chunk(w, u));
        assert(chunk(w, u) == chunk(d, f + u));
        assert(stream(w, t) =~= sd.subrange(base(d, f), base(d, f + t)));
        lemma_starts_step(d, f + u);
        lemma_starts_step(w, u);
        let sw = starts(w, t);
        let st = starts(d, f + t);
        let o = starts(d, f).len();
        assert(base(w, u) == base(d, f + u) - base(d, f));
        assert forall|h: int| 0 <= h < sw.len() implies #[trigger] sw[h] == (st[o + h].0, st[o + h].1 - base(d, f),
            st[o + h].2) by {
            if h < starts(w, u).len() {
                assert(sw[h] == starts(w, u)[h]);
                assert(st[o + h] == starts(d, f + u)[o + h]);
            } else {
                let i = h - starts(w, u).len();
                assert(sw[h] == (key_at(w, u, i), base(w, u) + off_at(w, u, i), i + 1 == nobj(w, u)));
                assert(st[o + h] == (key_at(d, f + u, i), base(d, f + u) + off_at(d, f + u, i), i + 1 == nobj(
                    d, f + u)));
            }
        }
    }
}

/// Entry `g` of the whole store, read from a block range that holds it,
/// decodes to its key and the store bytes from its start up to the next entry
/// in the range, or to the range's end.
pub proof fn lemma_window_decoded(d: Seq<u8>, nb: int, f: int, c: int, g: int)
    requires
        blocks_wf(d, nb),
        0 <= f,
        1 <= c,
        f + c <= nb,
        starts(d, f).len() <= g < starts(d, f + c).len(),
    ensures
        ({
            let w = window(d, f, c);
            let h = g - starts(d, f).len();
            let ss = starts(d, nb);
            let s = stream(d, nb);
            let end = if g + 1 < starts(d, f + c).len() { ss[g + 1].1 } else { base(d, f + c) };
            &&& 0 <= h < decoded(w, c).len()
            &&& ss[g].1 <= end <= s.len()
            &&& decoded(w, c)[h] == (ss[g].0, s.subrange(ss[g].1, end))
        }),
        forall|h2: int| 0 <= h2 < decoded(window(d, f, c), c).len() ==> #[trigger] decoded(window(d, f, c), c)[h2].0
            == starts(d, nb)[starts(d, f).len() + h2].0,
        decoded(window(d, f, c), c).len() + starts(d, f).len() == starts(d, f + c).len(),
{
    let w = window(d, f, c);
    let o = starts(d, f).len();
    let h = g - o;
    let ss = starts(d, nb);
    let s = stream(d, nb);
    let sc = starts(d, f + c);
    lemma_window_stream(d, f, c, c);
    lemma_starts_grow(d, f + c, nb);
    lemma_stream_grows(d, f + c, nb);
    let end = if g + 1 < sc.len() { ss[g + 1].1 } else { base(d, f + c) };
    let b = lemma_entry_block(d, nb, g);
    lemma_entry_pos(d, nb, g, b);
    assert(sc[g] == ss[g]);
    if b >= f + c {
        lemma_starts_grow(d, f + c, b);
    }
    if b < f {
        lemma_starts_grow(d, b + 1, f);
    }
    lemma_stream_grows(d, b + 1, f + c);
    lemma_stream_grows(d, f, b);
    if g + 1 < sc.len() {
        lemma_pos_ordered(d, nb, g, g + 1);
        assert(sc[g + 1] == ss[g + 1]);
        let b2 = lemma_entry_block(d, nb, g + 1);
        lemma_entry_pos(d, nb, g + 1, b2);
        if b2 >= f + c {
            lemma_starts_grow(d, f + c, b2);
        }
        lemma_stream_grows(d, b2 + 1, f + c);
    }
    let sw = starts(w, c);
    let strw = stream(w, c);
    assert(strw == stream(d, f + c).subrange(base(d, f), base(d, f + c)));
    let ew = entry_end(sw, strw, h);
    assert(sw[h] == (ss[g].0, ss[g].1 - base(d, f), ss[g].2));
    if h + 1 < sw.len() {
        assert(sw[h + 1] == (sc[g + 1].0, sc[g + 1].1 - base(d, f), sc[g + 1].2));
        assert(ew == end - base(d, f));
    } else {
        assert(ew == base(d, f + c) - base(d, f));
    }
    assert(decoded(w, c)[h] == (sw[h].0, strw.subrange(sw[h].1, ew)));
    assert(strw.subrange(sw[h].1, ew) =~= s.subrange(ss[g].1, end));
    assert forall|h2: int| 0 <= h2 < decoded(w, c).len() implies #[trigger] decoded(w, c)[h2].0 == ss[o + h2].0 by {
        assert(decoded(w, c)[h2].0 == sw[h2].0);
        assert(sc[o + h2] == ss[o + h2]);
    }
}

/// The key of the last entry before block `b` is the last key of the table of
/// the blocks before `b`.
pub proof fn lemma_last_key(d: Seq<u8>, b: int)
    requires
        0 <= b,
    ensures
        last_key_before(d, b) == if starts(d, b).len() > 0 {
            starts(d, b)[starts(d, b).len() - 1].0
        } else {
            0
        },
    decreases b,
{
    if b > 0 {
        lemma_starts_step(d, b - 1);
        lemma_last_key(d, b - 1);
        if nobj(d, b - 1) > 0 {
            lemma_starts_index(d, b, b - 1, nobj(d, b - 1) - 1);
        } else {
            assert(starts(d, b) =~= starts(d, b - 1));
        }
    }
}

/// The keys of the table rise: the header's key 0 first, then strictly rising
/// keys, and at most a key-0 terminator last, which then sits in the last block.
pub open spec fn ordered_store(d: Seq<u8>, nb: int) -> bool {
    let ss = starts(d, nb);
    &&& ss.len() >= 1
    &&& ss[0].0 == 0
    &&& forall|g: int, h: int| 0 <= g < h < ss.len() && !(h + 1 == ss.len() && ss[h].0 == 0)
        ==> #[trigger] ss[g].0 < #[trigger] ss[h].0
    &&& ss[ss.len() - 1].0 == 0 && ss.len() >= 2 ==> nobj(d, nb - 1) >= 1
}

/// A block's bin is at least the bin of the last key before it, and within
/// the bin count.
pub proof fn lemma_block_bin_bounds(d: Seq<u8>, b: int, n: u64)
    ensures
        spec_fastrange(last_key_before(d, b), n) <= block_bin(d, b, n),
        0 <= block_bin(d, b, n) <= n,
{
    lemma_fastrange_range(last_key_before(d, b), n);
    if nobj(d, b) > 0 {
        lemma_fastrange_range(key_at(d, b, 0), n);
    }
}

/// In an ordered store no entry before the last block is the terminator.
proof fn lemma_not_terminator(d: Seq<u8>, nb: int, h: int, b: int)
    requires
        ordered_store(d, nb),
        0 <= b < nb,
        0 <= h < starts(d, b).len(),
    ensures
        h + 1 < starts(d, nb).len() || starts(d, nb)[h].0 != 0 || h == 0,
{
    let ss = starts(d, nb);
    lemma_starts_grow(d, b, nb - 1);
    lemma_starts_step(d, nb - 1);
}

/// Key order between two entries of an ordered store.
proof fn lemma_key_order(d: Seq<u8>, nb: int, g: int, h: int)
    requires
        ordered_store(d, nb),
        0 <= g < h < starts(d, nb).len(),
        !(h + 1 == starts(d, nb).len() && starts(d, nb)[h].0 == 0),
    ensures
        starts(d, nb)[g].0 < starts(d, nb)[h].0,
{
    let ss = starts(d, nb);
    assert(ss[g].0 < ss[h].0);
}

/// Each block's bin is at most the bin of the last key up to the block, which
/// is at most the next block's bin.
proof fn lemma_bin_step(d: Seq<u8>, nb: int, n: u64, b: int)
    requires
        blocks_wf(d, nb),
        ordered_store(d, nb),
        0 <= b,
        b + 1 < nb,
    ensures
        block_bin(d, b, n) <= block_bin(d, b + 1, n),
{
    let ss = starts(d, nb);
    lemma_last_key(d, b);
    lemma_last_key(d, b + 1);
    lemma_starts_step(d, b);
    lemma_starts_grow(d, b, nb);
    lemma_starts_grow(d, b + 1, nb);
    lemma_block_bin_bounds(d, b + 1, n);
    let l0 = last_key_before(d, b);
    let l1 = last_key_before(d, b + 1);
    let m0 = starts(d, b).len() as int;
    let m1 = starts(d, b + 1).len() as int;
    if m1 > 0 {
        assert(l1 == ss[m1 - 1].0);
        lemma_not_terminator(d, nb, m1 - 1, b + 1);
        if m0 > 0 {
            assert(l0 == ss[m0 - 1].0);
            if m0 < m1 {
                if m1 - 1 > 0 || ss[m1 - 1].0 != 0 {
                    if m0 - 1 < m1 - 1 {
                        lemma_key_order(d, nb, m0 - 1, m1 - 1);
                    }
                }
            }
        }
        lemma_fastrange_monotone(l0, l1, n);
        if nobj(d, b) > 0 {
            lemma_starts_index(d, nb, b, 0);
            let k0 = key_at(d, b, 0);
            assert(ss[m0].0 == k0);
            if m0 < m1 - 1 {
                lemma_key_order(d, nb, m0, m1 - 1);
            }
            lemma_fastrange_monotone(k0, l1, n);
        }
    } else {
        assert(m0 == 0);
    }
}

/// In an ordered store the block bins never decrease.
pub proof fn lemma_bins_nondecreasing(d: Seq<u8>, nb: int, n: u64)
    requires
        blocks_wf(d, nb),
        ordered_store(d, nb),
        n <= usize::MAX,
    ensures
        nondecreasing(block_bins(d, nb, n)),
{
    let v = block_bins(d, nb, n);
    assert forall|i: int, j: int| 0 <= i <= j < v.len() implies v[i] <= v[j] by {
        lemma_bins_chain(d, nb, n, i, j);
        lemma_block_bin_bounds(d, i, n);
        lemma_block_bin_bounds(d, j, n);
    }
}

proof fn lemma_bins_chain(d: Seq<u8>, nb: int, n: u64, i: int, j: int)
    requires
        blocks_wf(d, nb),
        ordered_store(d, nb),
        0 <= i <= j < nb,
    ensures
        block_bin(d, i, n) <= block_bin(d, j, n),
    decreases j - i,
{
    if i < j {
        lemma_bins_chain(d, nb, n, i, j - 1);
        lemma_bin_step(d, nb, n, j - 1);
    }
}

/// Every block after the one holding entry `g` has a bin at least the bin of
/// the entry's key.
proof fn lemma_bins_after(d: Seq<u8>, nb: int, n: u64, g: int, bg: int, b: int)
    requires
        blocks_wf(d, nb),
        ordered_store(d, nb),
        1 <= g < starts(d, nb).len(),
        starts(d, nb)[g].0 != 0,
        0 <= bg < b < nb,
        starts(d, bg).len() <= g < starts(d, bg + 1).len(),
    ensures
        spec_fastrange(starts(d, nb)[g].0, n) <= block_bin(d, b, n),
{
    let ss = starts(d, nb);
    lemma_last_key(d, b);
    lemma_starts_grow(d, bg + 1, b);
    lemma_starts_grow(d, b, nb);
    let h = starts(d, b).len() - 1;
    assert(last_key_before(d, b) == ss[h].0);
    if h > g {
        lemma_not_terminator(d, nb, h, b);
        lemma_key_order(d, nb, g, h);
    }
    lemma_fastrange_monotone(ss[g].0, ss[h].0, n);
    lemma_block_bin_bounds(d, b, n);
}

/// The block holding entry `g` has a bin at most the bin of the entry's key.
proof fn lemma_bin_at(d: Seq<u8>, nb: int, n: u64, g: int, bg: int)
    requires
        blocks_wf(d, nb),
        ordered_store(d, nb),
        1 <= g < starts(d, nb).len(),
        starts(d, nb)[g].0 != 0,
        0 <= bg < nb,
        starts(d, bg).len() <= g < starts(d, bg + 1).len(),
    ensures
        block_bin(d, bg, n) <= spec_fastrange(starts(d, nb)[g].0, n),
{
    let ss = starts(d, nb);
    let k = ss[g].0;
    lemma_last_key(d, bg);
    lemma_starts_grow(d, bg, nb);
    lemma_starts_grow(d, bg + 1, nb);
    lemma_starts_step(d, bg);
    let m = starts(d, bg).len() as int;
    if m > 0 {
        assert(last_key_before(d, bg) == ss[m - 1].0);
        lemma_key_order(d, nb, m - 1, g);
    }
    lemma_fastrange_monotone(last_key_before(d, bg), k, n);
    if nobj(d, bg) > 0 {
        lemma_starts_index(d, nb, bg, 0);
        if m < g {
            lemma_key_order(d, nb, m, g);
        }
        lemma_fastrange_monotone(key_at(d, bg, 0), k, n);
    }
}

/// The last block the object of entry `g` reaches: its bin is at most the bin
/// of the entry's key, and the next entry lies in the blocks up to it or starts
/// right after it; when no entry follows, it is the last block.
proof fn lemma_object_end(d: Seq<u8>, nb: int, n: u64, g: int, bg: int) -> (e: int)
    requires
        blocks_wf(d, nb),
        ordered_store(d, nb),
        1 <= g < starts(d, nb).len(),
        starts(d, nb)[g].0 != 0,
        0 <= bg < nb,
        starts(d, bg).len() <= g < starts(d, bg + 1).len(),
    ensures
        bg <= e < nb,
        block_bin(d, e, n) <= spec_fastrange(starts(d, nb)[g].0, n),
        g + 1 < starts(d, nb).len() ==> g + 1 < starts(d, e + 1).len() || starts(d, nb)[g + 1].1 == base(d, e + 1),
        g + 1 == starts(d, nb).len() ==> e == nb - 1,
{
    let ss = starts(d, nb);
    let k = ss[g].0;
    let x = spec_fastrange(k, n);
    lemma_bin_at(d, nb, n, g, bg);
    lemma_starts_grow(d, bg + 1, nb);
    if g + 1 == ss.len() {
        let e = nb - 1;
        if e > bg {
            lemma_starts_grow(d, bg + 1, e);
            lemma_starts_grow(d, e, nb);
            lemma_starts_step(d, e);
            lemma_last_key(d, e);
            assert(starts(d, e).len() == g + 1);
            assert(last_key_before(d, e) == ss[g].0);
            assert(nobj(d, e) == 0);
        }
        e
    } else {
        let b2 = lemma_entry_block(d, nb, g + 1);
        if b2 < bg {
            lemma_starts_grow(d, b2 + 1, bg);
        }
        if b2 == bg {
            bg
        } else {
            lemma_starts_grow(d, bg + 1, b2);
            lemma_starts_grow(d, b2, nb);
            assert(starts(d, b2).len() == g + 1);
            lemma_starts_step(d, b2);
            if off_at(d, b2, 0) > 0 {
                lemma_last_key(d, b2);
                assert(last_key_before(d, b2) == ss[g].0);
                b2
            } else {
                let e = b2 - 1;
                if e > bg {
                    lemma_starts_grow(d, bg + 1, e);
                    lemma_starts_grow(d, e, nb);
                    lemma_starts_step(d, e);
                    lemma_last_key(d, e);
                    assert(starts(d, e).len() == g + 1);
                    assert(last_key_before(d, e) == ss[g].0);
                    assert(nobj(d, e) == 0);
                }
                e
            }
        }
    }
}

/// The entries of a block range carry the keys of the store's entries there.
pub proof fn lemma_window_keys(d: Seq<u8>, nb: int, f: int, c: int)
    requires
        blocks_wf(d, nb),
        0 <= f,
        0 <= c,
        f + c <= nb,
    ensures
        decoded(window(d, f, c), c).len() + starts(d, f).len() == starts(d, f + c).len(),
        starts(d, f + c).len() <= starts(d, nb).len(),
        forall|h: int| 0 <= h < decoded(window(d, f, c), c).len() ==> #[trigger] decoded(window(d, f, c), c)[h].0
            == starts(d, nb)[starts(d, f).len() + h].0,
{
    let w = window(d, f, c);
    let o = starts(d, f).len();
    lemma_window_stream(d, f, c, c);
    lemma_starts_grow(d, f + c, nb);
    assert forall|h: int| 0 <= h < decoded(w, c).len() implies #[trigger] decoded(w, c)[h].0 == starts(d, nb)[o + h].0 by {
        assert(decoded(w, c)[h].0 == starts(w, c)[h].0);
        assert(starts(d, f + c)[o + h] == starts(d, nb)[o + h]);
    }
}

/// The range located for the bin of a stored key holds the key's entry and
/// all its bytes, so reading the range finds the key's value.
pub proof fn lemma_window_answer(d: Seq<u8>, nb: int, n: u64, g: int)
    requires
        blocks_wf(d, nb),
        ordered_store(d, nb),
        1 <= g < starts(d, nb).len(),
        starts(d, nb)[g].0 != 0,
        n <= usize::MAX,
    ensures
        ({
            let k = starts(d, nb)[g].0;
            let r = predecessor_range(block_bins(d, nb, n), spec_fastrange(k, n));
            &&& 0 <= r.0
            &&& 1 <= r.1
            &&& r.0 + r.1 <= nb
            &&& lookup(decoded(window(d, r.0, r.1), r.1), k) == Some(decoded(d, nb)[g].1)
        }),
{
    let ss = starts(d, nb);
    let s = stream(d, nb);
    let k = ss[g].0;
    let x = spec_fastrange(k, n);
    let v = block_bins(d, nb, n);
    let bg = lemma_entry_block(d, nb, g);
    let e = lemma_object_end(d, nb, n, g, bg);
    lemma_bins_nondecreasing(d, nb, n);
    lemma_count_le(v, x);
    lemma_count_le(v, x - 1);
    lemma_block_bin_bounds(d, e, n);
    assert(v[e] == block_bin(d, e, n));
    let cx = count_le(v, x) as int;
    let cx1 = count_le(v, x - 1) as int;
    if cx <= e {
        assert(v[e] > x);
    }
    if bg + 1 < nb {
        lemma_bins_after(d, nb, n, g, bg, bg + 1);
        lemma_block_bin_bounds(d, bg + 1, n);
        assert(v[bg + 1] == block_bin(d, bg + 1, n));
        if cx1 > bg + 1 {
            assert(v[bg + 1] <= x - 1);
        }
    }
    let r = predecessor_range(v, x);
    let f = r.0;
    let last = cx - 1;
    assert(f <= bg);
    assert(f + r.1 == cx);
    let c = r.1;
    let w = window(d, f, c);
    lemma_starts_grow(d, f, bg);
    lemma_starts_grow(d, bg + 1, f + c);
    lemma_window_decoded(d, nb, f, c, g);
    let h = g - starts(d, f).len();
    let end = if g + 1 < starts(d, f + c).len() { ss[g + 1].1 } else { base(d, f + c) };
    assert(decoded(w, c)[h] == (k, s.subrange(ss[g].1, end)));
    lemma_starts_grow(d, e + 1, f + c);
    lemma_stream_grows(d, e + 1, f + c);
    if g + 1 < ss.len() {
        if g + 1 >= starts(d, f + c).len() {
            assert(ss[g + 1].1 == base(d, e + 1));
            let b2 = lemma_entry_block(d, nb, g + 1);
            lemma_entry_pos(d, nb, g + 1, b2);
            if b2 < f + c {
                lemma_starts_grow(d, b2 + 1, f + c);
            }
            lemma_stream_grows(d, f + c, b2);
            assert(end == ss[g + 1].1);
        }
        assert(end == entry_end(ss, s, g));
    } else {
        assert(e == nb - 1);
        assert(f + c == nb);
        assert(end == entry_end(ss, s, g));
    }
    assert(decoded(d, nb)[g] == (ss[g].0, s.subrange(ss[g].1, entry_end(ss, s, g))));
    let objs = decoded(w, c);
    assert forall|u: int| 0 <= u < h implies #[trigger] objs[u].0 != k by {
        assert(objs[u].0 == ss[starts(d, f).len() + u].0);
        lemma_key_order(d, nb, starts(d, f).len() + u, g);
    }
    lemma_lookup_at(objs, k, h);
}

/// The objects have rising nonzero keys.
pub open spec fn rising_keys(objs: Seq<(u64, Seq<u8>)>) -> bool {
    &&& forall|i: int, j: int| 0 <= i < j < objs.len() ==> #[trigger] objs[i].0 < #[trigger] objs[j].0
    &&& forall|i: int| 0 <= i < objs.len() ==> #[trigger] objs[i].0 != 0
}

/// A written store of objects with rising nonzero keys is ordered, and its
/// table lists the header, the objects, and at most a key-0 terminator.
pub proof fn lemma_written_ordered(d: Seq<u8>, kind: u16, objs: Seq<(u64, Seq<u8>)>)
    requires
        written_image(d, kind, objs),
        rising_keys(objs),
    ensures
        ({
            let nb = (d.len() / 4096) as int;
            let ss = starts(d, nb);
            &&& nb >= 1
            &&& blocks_wf(d, nb)
            &&& ordered_store(d, nb)
            &&& ss.len() == objs.len() + 1 || ss.len() == objs.len() + 2
            &&& forall|g: int| 0 <= g < ss.len() ==> #[trigger] ss[g].0 == if 1 <= g <= objs.len() {
                objs[g - 1].0
            } else {
                0
            }
            &&& forall|j: int| 0 <= j < objs.len() ==> #[trigger] decoded(d, nb)[j + 1] == objs[j]
        }),
{
    let nb = (d.len() / 4096) as int;
    let ss = starts(d, nb);
    let meta = StoreMetadata {
        kind,
        num_blocks: nb as u64,
        max_size: max_len(seq![header_placeholder()] + objs) as u64,
    };
    let all = seq![(0u64, metadata_image(meta))] + objs;
    let dec = decoded(d, nb);
    assert forall|g: int| 0 <= g < all.len() implies #[trigger] ss[g].0 == all[g].0 by {
        assert(dec.subrange(0, all.len() as int)[g] == all[g]);
    }
    assert forall|g: int| 0 <= g < ss.len() implies #[trigger] ss[g].0 == if 1 <= g <= objs.len() {
        objs[g - 1].0
    } else {
        0
    } by {
        if g < all.len() {
            assert(ss[g].0 == all[g].0);
        }
    }
    assert forall|j: int| 0 <= j < objs.len() implies #[trigger] decoded(d, nb)[j + 1] == objs[j] by {
        assert(dec.subrange(0, all.len() as int)[j + 1] == all[j + 1]);
    }
    assert forall|g: int, h: int| 0 <= g < h < ss.len() && !(h + 1 == ss.len() && ss[h].0 == 0)
        implies #[trigger] ss[g].0 < #[trigger] ss[h].0 by {
        assert(ss[h].0 == if 1 <= h <= objs.len() { objs[h - 1].0 } else { 0 });
        assert(ss[g].0 == if 1 <= g <= objs.len() { objs[g - 1].0 } else { 0 });
        if h > objs.len() {
            assert(h + 1 == ss.len());
        }
        if g >= 1 {
            assert(objs[g - 1].0 < objs[h - 1].0);
        } else {
            assert(objs[h - 1].0 != 0);
        }
    }
    if ss[ss.len() - 1].0 == 0 && ss.len() >= 2 && ss.len() == all.len() {
        assert(objs[objs.len() - 1].0 != 0);
    }
}

/// A written store of objects with rising nonzero keys is sound for any bin
/// count that fits the machine, so its index builds without error.
pub proof fn lemma_written_sound(d: Seq<u8>, kind: u16, objs: Seq<(u64, Seq<u8>)>, n: u64)
    requires
        written_image(d, kind, objs),
        rising_keys(objs),
        n <= usize::MAX,
    ensures
        sound(d, (d.len() / 4096) as int, n),
{
    let nb = (d.len() / 4096) as int;
    lemma_written_ordered(d, kind, objs);
    lemma_bins_nondecreasing(d, nb, n);
}

/// The predecessor range of non-decreasing values lies within them.
pub proof fn lemma_range_bounds(v: Seq<usize>, x: int)
    requires
        nondecreasing(v),
        v.len() >= 1,
    ensures
        0 <= predecessor_range(v, x).0,
        1 <= predecessor_range(v, x).1,
        predecessor_range(v, x).0 + predecessor_range(v, x).1 <= v.len(),
{
    lemma_count_le(v, x);
    lemma_count_le(v, x - 1);
    let cx = count_le(v, x) as int;
    let cx1 = count_le(v, x - 1) as int;
    if cx1 > cx {
        assert(v[cx] <= x - 1);
    }
}

/// A sorted order lists every position.
pub proof fn lemma_sorted_order_onto(keys: Seq<u64>, perm: Seq<usize>, j: int) -> (i: int)
    requires
        sorted_order(keys, perm),
        0 <= j < keys.len(),
    ensures
        0 <= i < perm.len(),
        perm[i] == j,
{
    let n = keys.len() as int;
    let ps = Seq::new(perm.len(), |i: int| perm[i] as int);
    assert(ps.no_duplicates()) by {
        assert forall|a: int, b: int| 0 <= a < ps.len() && 0 <= b < ps.len() && a != b implies ps[a] != ps[b] by {
            if a < b {
                assert(perm[a] != perm[b]);
            } else {
                assert(perm[b] != perm[a]);
            }
        }
    }
    ps.unique_seq_to_set();
    lemma_int_range(0, n);
    assert(ps.to_set().subset_of(set_int_range(0, n))) by {
        assert forall|x: int| ps.to_set().contains(x) implies set_int_range(0, n).contains(x) by {
            assert(ps.contains(x));
            let t = choose|t: int| 0 <= t < ps.len() && ps[t] == x;
            assert(perm[t] < keys.len());
        }
    }
    vstd::seq_lib::seq_to_set_is_finite(ps);
    lemma_subset_equality(ps.to_set(), set_int_range(0, n));
    assert(set_int_range(0, n).contains(j));
    assert(ps.to_set().contains(j));
    assert(ps.contains(j));
    let i = choose|i: int| 0 <= i < ps.len() && ps[i] == j;
    i
}

/// The keys of `objs` are distinct and nonzero.
pub open spec fn distinct_keys(objs: Seq<(u64, Seq<u8>)>) -> bool {
    &&& forall|i: int, j: int| 0 <= i < objs.len() && 0 <= j < objs.len() && i != j ==> objs[i].0 != objs[j].0
    &&& forall|i: int| 0 <= i < objs.len() ==> #[trigger] objs[i].0 != 0
}

/// Items with distinct nonzero keys, in key order, have rising keys, and a
/// lookup finds the same value in either order.
pub proof fn lemma_sorted_items(items: Seq<(u64, Seq<u8>)>, perm: Seq<usize>, key: u64)
    requires
        sorted_order(item_keys(items), perm),
        distinct_keys(items),
    ensures
        rising_keys(permuted(items, perm)),
        lookup(permuted(items, perm), key) == lookup(items, key),
{
    let p = permuted(items, perm);
    let ks = item_keys(items);
    assert forall|i: int, j: int| 0 <= i < j < p.len() implies #[trigger] p[i].0 < #[trigger] p[j].0 by {
        assert(perm[i] != perm[j]);
        assert(ks[perm[i] as int] < ks[perm[j] as int] || (ks[perm[i] as int] == ks[perm[j] as int]
            && perm[i] < perm[j]));
        assert(items[perm[i] as int].0 != items[perm[j] as int].0);
    }
    assert forall|i: int| 0 <= i < p.len() implies #[trigger] p[i].0 != 0 by {
        assert(perm[i] < items.len());
    }
    if exists|j: int| 0 <= j < items.len() && items[j].0 == key {
        let j = choose|j: int| 0 <= j < items.len() && items[j].0 == key;
        assert forall|u: int| 0 <= u < j implies #[trigger] items[u].0 != key by {}
        lemma_lookup_at(items, key, j);
        let i = lemma_sorted_order_onto(ks, perm, j);
        assert forall|u: int| 0 <= u < i implies #[trigger] p[u].0 != key by {
            assert(p[u].0 < p[i].0);
        }
        lemma_lookup_at(p, key, i);
    } else {
        assert forall|u: int| 0 <= u < p.len() implies #[trigger] p[u].0 != key by {
            assert(perm[u] < items.len());
        }
        lemma_lookup_none(p, key);
        lemma_lookup_none(items, key);
    }
}

/// There is one order that sorts positions by key, equal keys in input order:
/// sorting by key is stable and its result is determined by the keys.
pub proof fn lemma_sorted_order_unique(keys: Seq<u64>, p1: Seq<usize>, p2: Seq<usize>)
    requires
        sorted_order(keys, p1),
        sorted_order(keys, p2),
    ensures
        p1 == p2,
{
    assert forall|t: int| 0 <= t < p1.len() implies p1[t] == p2[t] by {
        lemma_sorted_prefix_agree(keys, p1, p2, t);
    }
    assert(p1 =~= p2);
}

proof fn lemma_sorted_prefix_agree(keys: Seq<u64>, p1: Seq<usize>, p2: Seq<usize>, t: int)
    requires
        sorted_order(keys, p1),
        sorted_order(keys, p2),
        0 <= t < p1.len(),
    ensures
        p1[t] == p2[t],
    decreases t,
{
    assert forall|u: int| 0 <= u < t implies p1[u] == p2[u] by {
        lemma_sorted_prefix_agree(keys, p1, p2, u);
    }
    let a = p1[t];
    let b = p2[t];
    if a != b {
        let u = lemma_sorted_order_onto(keys, p1, b as int);
        let v = lemma_sorted_order_onto(keys, p2, a as int);
        if u < t {
            assert(p2[u] == b);
            assert(p2[u] != p2[t]);
        }
        if v < t {
            assert(p1[v] == a);
            assert(p1[v] != p1[t]);
        }
        assert(u != t);
        assert(v != t);
        assert(keys[p1[t] as int] < keys[p1[u] as int] || (keys[p1[t] as int] == keys[p1[u] as int] && p1[t] < p1[u]));
        assert(keys[p2[t] as int] < keys[p2[v] as int] || (keys[p2[t] as int] == keys[p2[v] as int] && p2[t] < p2[v]));
    }
}

} // verus!
