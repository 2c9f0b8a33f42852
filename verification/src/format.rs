//! The meaning of a store's bytes.
//!
//! A store is a sequence of 4096-byte blocks. Each block holds a table of
//! entries (a key and the offset where its object starts in the block) and the
//! object bytes before the table. An object runs to the next entry of its
//! block. The last object of a block runs to the block's data end and then
//! continues onto the following blocks: whole blocks without entries, and then
//! the bytes before the first entry of the next block that has entries.
use vstd::prelude::*;
use crate::block::{BlockStorage, block_count, block_empty, block_key, block_offset, block_readable,
    table_start_for};
use crate::le::{lemma_same_bytes16, lemma_same_bytes64};

verus! {

/// Block `b` of `data`.
pub open spec fn blk(data: Seq<u8>, b: int) -> Seq<u8> {
    data.subrange(4096 * b, 4096 * b + 4096)
}

/// Number of entries in block `b`.
pub open spec fn nobj(data: Seq<u8>, b: int) -> int {
    block_count(blk(data, b))
}

/// Where the object bytes of block `b` end.
pub open spec fn dend(data: Seq<u8>, b: int) -> int {
    table_start_for(nobj(data, b)) - block_empty(blk(data, b))
}

/// Key of entry `i` of block `b`.
pub open spec fn key_at(data: Seq<u8>, b: int, i: int) -> u64 {
    block_key(blk(data, b), i)
}

/// Start offset of entry `i` of block `b`.
pub open spec fn off_at(data: Seq<u8>, b: int, i: int) -> int {
    block_offset(blk(data, b), i) as int
}

/// The object bytes of block `b`: everything before its data end.
pub open spec fn chunk(data: Seq<u8>, b: int) -> Seq<u8> {
    blk(data, b).subrange(0, dend(data, b))
}

/// The object bytes of the first `k` blocks, back to back.
pub open spec fn stream(data: Seq<u8>, k: int) -> Seq<u8>
    decreases k,
{
    if k <= 0 {
        Seq::empty()
    } else {
        stream(data, k - 1) + chunk(data, k - 1)
    }
}

/// Where block `k`'s object bytes begin in the stream.
pub open spec fn base(data: Seq<u8>, k: int) -> int {
    stream(data, k).len() as int
}

/// The table entries of the first `k` blocks, in order: the key, where the
/// object starts in the stream, and whether the entry is the last of its block.
pub open spec fn starts(data: Seq<u8>, k: int) -> Seq<(u64, int, bool)>
    decreases k,
{
    if k <= 0 {
        Seq::empty()
    } else {
        starts(data, k - 1) + Seq::new(
            nobj(data, k - 1) as nat,
            |i: int| (key_at(data, k - 1, i), base(data, k - 1) + off_at(data, k - 1, i), i + 1 == nobj(data, k - 1)),
        )
    }
}

/// Where entry `g` of `ss` ends: where the next entry starts, or at the end of
/// the stream `s`.
pub open spec fn entry_end(ss: Seq<(u64, int, bool)>, s: Seq<u8>, g: int) -> int {
    if g + 1 < ss.len() {
        ss[g + 1].1
    } else {
        s.len() as int
    }
}

/// Every entry of the first `nb` blocks with its object: the stream bytes from
/// where the entry starts to where the next one starts.
pub open spec fn decoded(data: Seq<u8>, nb: int) -> Seq<(u64, Seq<u8>)> {
    let ss = starts(data, nb);
    let s = stream(data, nb);
    Seq::new(ss.len(), |g: int| (ss[g].0, s.subrange(ss[g].1, entry_end(ss, s, g))))
}

/// The objects a sequential read yields from entry `g` on: every entry in
/// order, stopping before an entry with key 0 that ends its block (the
/// terminator).
pub open spec fn objects_from(data: Seq<u8>, nb: int, g: int) -> Seq<(u64, Seq<u8>)>
    decreases starts(data, nb).len() - g,
{
    let ss = starts(data, nb);
    if g < 0 || g >= ss.len() || (ss[g].0 == 0 && ss[g].2) {
        Seq::empty()
    } else {
        seq![decoded(data, nb)[g]] + objects_from(data, nb, g + 1)
    }
}

/// The objects of a store: all after the header entry, up to the terminator.
pub open spec fn stored_objects(data: Seq<u8>, nb: int) -> Seq<(u64, Seq<u8>)> {
    objects_from(data, nb, 1)
}

/// The first block at or after `c` (and before `nb`) with entries, or `nb`.
pub open spec fn next_nonempty(data: Seq<u8>, c: int, nb: int) -> int
    decreases nb - c,
{
    if c >= nb {
        nb
    } else if nobj(data, c) > 0 {
        c
    } else {
        next_nonempty(data, c + 1, nb)
    }
}

/// Block `b` is laid out consistently: its table fits, its data end lies
/// before the table, and its offsets rise and stay within the data.
pub open spec fn block_wf(bl: Seq<u8>) -> bool {
    let n = block_count(bl);
    let de = table_start_for(n) - block_empty(bl);
    &&& block_readable(bl)
    &&& 0 <= de
    &&& forall|i: int, j: int| 0 <= i <= j < n ==> block_offset(bl, i) <= block_offset(bl, j)
    &&& forall|i: int| 0 <= i < n ==> #[trigger] block_offset(bl, i) <= de
}

/// The first `nb` blocks of `data` are present and laid out consistently.
pub open spec fn blocks_wf(data: Seq<u8>, nb: int) -> bool {
    &&& 0 <= nb
    &&& 4096 * nb <= data.len()
    &&& forall|b: int| 0 <= b < nb ==> block_wf(#[trigger] blk(data, b))
}

/// Blocks that agree agree on everything read from them.
pub proof fn lemma_same_prefix(d1: Seq<u8>, d2: Seq<u8>, k: int)
    requires
        0 <= k,
        4096 * k <= d1.len(),
        4096 * k <= d2.len(),
        d1.subrange(0, 4096 * k) == d2.subrange(0, 4096 * k),
    ensures
        forall|b: int| 0 <= b < k ==> #[trigger] blk(d1, b) == blk(d2, b),
        stream(d1, k) == stream(d2, k),
        starts(d1, k) == starts(d2, k),
        blocks_wf(d1, k) == blocks_wf(d2, k),
    decreases k,
{
    assert forall|b: int| 0 <= b < k implies #[trigger] blk(d1, b) == blk(d2, b) by {
        assert(blk(d1, b) =~= d1.subrange(0, 4096 * k).subrange(4096 * b, 4096 * b + 4096));
        assert(blk(d2, b) =~= d2.subrange(0, 4096 * k).subrange(4096 * b, 4096 * b + 4096));
    }
    if k > 0 {
        assert(d1.subrange(0, 4096 * (k - 1)) =~= d1.subrange(0, 4096 * k).subrange(0, 4096 * (k - 1)));
        assert(d2.subrange(0, 4096 * (k - 1)) =~= d2.subrange(0, 4096 * k).subrange(0, 4096 * (k - 1)));
        lemma_same_prefix(d1, d2, k - 1);
        assert(blk(d1, k - 1) == blk(d2, k - 1));
    }
}

/// Appending a block adds its bytes to the stream and its entries to the table.
pub proof fn lemma_append_block(d: Seq<u8>, k: int, cur: Seq<u8>)
    requires
        0 <= k,
        d.len() == 4096 * k,
        cur.len() == 4096,
    ensures
        blk(d + cur, k) == cur,
        stream(d + cur, k + 1) == stream(d, k) + chunk(d + cur, k),
        starts(d + cur, k + 1) == starts(d, k) + Seq::new(
            nobj(d + cur, k) as nat,
            |i: int| (key_at(d + cur, k, i), base(d, k) + off_at(d + cur, k, i), i + 1 == nobj(d + cur, k)),
        ),
        blocks_wf(d + cur, k + 1) == (blocks_wf(d, k) && block_wf(cur)),
{
    let d2 = d + cur;
    assert(d2.subrange(0, 4096 * k) =~= d.subrange(0, 4096 * k));
    lemma_same_prefix(d, d2, k);
    assert(blk(d2, k) =~= cur);
    if blocks_wf(d2, k + 1) {
        assert(block_wf(blk(d2, k)));
    }
    if blocks_wf(d, k) && block_wf(cur) {
        assert forall|b: int| 0 <= b < k + 1 implies block_wf(#[trigger] blk(d2, b)) by {
            if b < k {
                assert(blk(d, b) == blk(d2, b));
                assert(block_wf(blk(d, b)));
            }
        }
    }
}

/// The values of `objs`, back to back.
pub open spec fn concat_values(objs: Seq<(u64, Seq<u8>)>) -> Seq<u8>
    decreases objs.len(),
{
    if objs.len() == 0 {
        Seq::empty()
    } else {
        concat_values(objs.drop_last()) + objs.last().1
    }
}

/// Each object with where it starts when the values lie back to back.
pub open spec fn obj_starts(objs: Seq<(u64, Seq<u8>)>) -> Seq<(u64, int)> {
    Seq::new(objs.len(), |j: int| (objs[j].0, concat_values(objs.take(j)).len() as int))
}

/// The key and start of each entry.
pub open spec fn key_pos(ss: Seq<(u64, int, bool)>) -> Seq<(u64, int)> {
    Seq::new(ss.len(), |g: int| (ss[g].0, ss[g].1))
}

pub proof fn lemma_concat_prefix(objs: Seq<(u64, Seq<u8>)>, j: int)
    requires
        0 <= j <= objs.len(),
    ensures
        concat_values(objs).subrange(0, concat_values(objs.take(j)).len() as int) == concat_values(objs.take(j)),
        j < objs.len() ==> concat_values(objs.take(j + 1)) == concat_values(objs.take(j)) + objs[j].1,
        concat_values(objs.take(j)).len() <= concat_values(objs).len(),
    decreases objs.len(),
{
    if j < objs.len() {
        assert(objs.take(j + 1).drop_last() =~= objs.take(j));
    }
    if objs.len() > 0 {
        if j == objs.len() {
            assert(objs.take(j) =~= objs);
        } else {
            let o2 = objs.drop_last();
            assert(o2.take(j) =~= objs.take(j));
            lemma_concat_prefix(o2, j);
            if j < o2.len() {
                assert(o2.take(j + 1) =~= objs.take(j + 1));
            }
        }
    }
}

/// Object `j`'s value sits in the concatenation right after those before it.
pub proof fn lemma_concat_slice(objs: Seq<(u64, Seq<u8>)>, j: int)
    requires
        0 <= j < objs.len(),
    ensures
        ({
            let st = concat_values(objs.take(j)).len() as int;
            &&& concat_values(objs.take(j + 1)).len() == st + objs[j].1.len()
            &&& concat_values(objs).subrange(st, st + objs[j].1.len()) == objs[j].1
        }),
{
    lemma_concat_prefix(objs, j);
    lemma_concat_prefix(objs, j + 1);
    let st = concat_values(objs.take(j)).len() as int;
    let c = concat_values(objs);
    let c1 = concat_values(objs.take(j + 1));
    assert(c.subrange(st, st + objs[j].1.len()) =~= c1.subrange(st, st + objs[j].1.len()));
}

/// Appending an object places it right after the others.
pub proof fn lemma_obj_starts_push(objs: Seq<(u64, Seq<u8>)>, x: (u64, Seq<u8>))
    ensures
        obj_starts(objs.push(x)) == obj_starts(objs).push((x.0, concat_values(objs).len() as int)),
        concat_values(objs.push(x)) == concat_values(objs) + x.1,
{
    let o2 = objs.push(x);
    assert(o2.drop_last() =~= objs);
    assert(o2.take(objs.len() as int) =~= objs);
    assert forall|j: int| 0 <= j < objs.len() implies o2.take(j) =~= objs.take(j) by {}
    assert(obj_starts(o2) =~= obj_starts(objs).push((x.0, concat_values(objs).len() as int)));
}

/// Replacing the first value by one of the same length leaves every start
/// in place.
pub proof fn lemma_replace_first(objs: Seq<(u64, Seq<u8>)>, v: Seq<u8>)
    requires
        objs.len() >= 1,
        v.len() == objs[0].1.len(),
    ensures
        obj_starts(objs.update(0, (objs[0].0, v))) == obj_starts(objs),
        concat_values(objs.update(0, (objs[0].0, v))) == v + concat_values(objs).subrange(
            v.len() as int, concat_values(objs).len() as int),
        concat_values(objs).len() >= v.len(),
    decreases objs.len(),
{
    let o2 = objs.update(0, (objs[0].0, v));
    if objs.len() == 1 {
        assert(objs.drop_last() =~= Seq::<(u64, Seq<u8>)>::empty());
        assert(o2.drop_last() =~= Seq::<(u64, Seq<u8>)>::empty());
        assert(concat_values(objs.drop_last()) =~= Seq::<u8>::empty());
        assert(concat_values(o2.drop_last()) =~= Seq::<u8>::empty());
        assert(concat_values(objs) =~= objs[0].1);
        assert(concat_values(o2) =~= v);
        assert(concat_values(o2) =~= v + concat_values(objs).subrange(v.len() as int, concat_values(objs).len() as int));
        assert(objs.take(0) =~= Seq::<(u64, Seq<u8>)>::empty());
        assert(o2.take(0) =~= Seq::<(u64, Seq<u8>)>::empty());
        assert(obj_starts(o2) =~= obj_starts(objs));
    } else {
        let a = objs.drop_last();
        lemma_replace_first(a, v);
        assert(o2.drop_last() =~= a.update(0, (a[0].0, v)));
        let ca = concat_values(a);
        let c = concat_values(objs);
        assert(c == ca + objs.last().1);
        assert(concat_values(o2) == concat_values(a.update(0, (a[0].0, v))) + objs.last().1);
        assert(concat_values(o2) =~= v + c.subrange(v.len() as int, c.len() as int));
        assert forall|j: int| 0 <= j < objs.len() implies #[trigger] obj_starts(o2)[j] == obj_starts(objs)[j] by {
            if j < objs.len() - 1 {
                assert(o2.take(j) =~= a.update(0, (a[0].0, v)).take(j));
                assert(objs.take(j) =~= a.take(j));
                assert(obj_starts(a.update(0, (a[0].0, v)))[j] == obj_starts(a)[j]);
            } else {
                assert(o2.take(j) =~= a.update(0, (a[0].0, v)));
                assert(objs.take(j) =~= a);
            }
        }
        assert(obj_starts(o2) =~= obj_starts(objs));
    }
}

/// When the entries start where the objects start and the stream holds the
/// objects back to back, the store decodes to exactly those objects.
pub proof fn lemma_decoded_is(data: Seq<u8>, nb: int, objs: Seq<(u64, Seq<u8>)>)
    requires
        key_pos(starts(data, nb)) == obj_starts(objs),
        stream(data, nb) == concat_values(objs),
    ensures
        decoded(data, nb) == objs,
{
    let ss = starts(data, nb);
    let s = stream(data, nb);
    assert(ss.len() == objs.len()) by {
        assert(key_pos(ss).len() == obj_starts(objs).len());
    }
    assert forall|g: int| 0 <= g < objs.len() implies #[trigger] decoded(data, nb)[g] == objs[g] by {
        assert(key_pos(ss)[g] == obj_starts(objs)[g]);
        lemma_concat_slice(objs, g);
        lemma_concat_prefix(objs, g);
        if g + 1 < objs.len() {
            assert(key_pos(ss)[g + 1] == obj_starts(objs)[g + 1]);
        } else {
            assert(objs.take(g + 1) =~= objs);
        }
    }
    assert(decoded(data, nb) =~= objs);
}

/// The last entry of a table ends its block.
pub proof fn lemma_starts_last(data: Seq<u8>, k: int)
    ensures
        starts(data, k).len() > 0 ==> starts(data, k).last().2,
    decreases k,
{
    if k > 0 {
        lemma_starts_last(data, k - 1);
    }
}

/// Reading from entry `g` yields the rest of `objs` when no later entry has
/// key 0 and the table ends either with `objs` or with one extra entry of key 0.
pub proof fn lemma_objects_from(data: Seq<u8>, nb: int, objs: Seq<(u64, Seq<u8>)>, g: int)
    requires
        1 <= g <= objs.len(),
        decoded(data, nb).subrange(0, objs.len() as int) == objs,
        starts(data, nb).len() == objs.len() || (starts(data, nb).len() == objs.len() + 1
            && starts(data, nb).last().0 == 0 && starts(data, nb).last().2),
        forall|j: int| 1 <= j < objs.len() ==> #[trigger] objs[j].0 != 0,
    ensures
        objects_from(data, nb, g) == objs.subrange(g, objs.len() as int),
    decreases objs.len() - g,
{
    let ss = starts(data, nb);
    if g == objs.len() {
        assert(objs.subrange(g, objs.len() as int) =~= Seq::<(u64, Seq<u8>)>::empty());
    } else {
        lemma_objects_from(data, nb, objs, g + 1);
        assert(decoded(data, nb)[g] == objs[g]) by {
            assert(decoded(data, nb).subrange(0, objs.len() as int)[g] == objs[g]);
        }
        assert(ss[g].0 == decoded(data, nb)[g].0);
        assert(objs.subrange(g, objs.len() as int) =~= seq![objs[g]] + objs.subrange(g + 1, objs.len() as int));
    }
}

/// Two blocks that agree from byte `lo` on, with the table past `lo`, read alike.
pub proof fn lemma_block_fields_same(b1: Seq<u8>, b2: Seq<u8>, lo: int)
    requires
        b1.len() == 4096,
        b2.len() == 4096,
        0 <= lo,
        forall|p: int| lo <= p < 4096 ==> #[trigger] b1[p] == b2[p],
        block_count(b1) <= 409,
        lo <= table_start_for(block_count(b1)),
    ensures
        block_count(b1) == block_count(b2),
        block_empty(b1) == block_empty(b2),
        forall|i: int| 0 <= i < block_count(b1) ==> #[trigger] block_key(b1, i) == block_key(b2, i),
        forall|i: int| 0 <= i < block_count(b1) ==> #[trigger] block_offset(b1, i) == block_offset(b2, i),
        block_wf(b1) == block_wf(b2),
{
    lemma_same_bytes16(b1, b2, 4094);
    let n = block_count(b1);
    let ts = table_start_for(n);
    assert forall|i: int| 0 <= i < n implies #[trigger] block_key(b1, i) == block_key(b2, i) by {
        lemma_same_bytes64(b1, b2, ts + 8 * i);
    }
    assert forall|i: int| 0 <= i < n implies #[trigger] block_offset(b1, i) == block_offset(b2, i) by {
        lemma_same_bytes16(b1, b2, ts + 8 * n + 2 * i);
    }
    let de = table_start_for(n) - block_empty(b1);
    if block_wf(b1) {
        assert forall|i: int, j: int| 0 <= i <= j < n implies block_offset(b2, i) <= block_offset(b2, j) by {
            assert(block_offset(b1, i) <= block_offset(b1, j));
        }
        assert forall|i: int| 0 <= i < n implies #[trigger] block_offset(b2, i) <= de by {
            assert(block_offset(b1, i) <= de);
        }
    }
    if block_wf(b2) {
        assert forall|i: int, j: int| 0 <= i <= j < n implies block_offset(b1, i) <= block_offset(b1, j) by {
            assert(block_offset(b2, i) <= block_offset(b2, j));
        }
        assert forall|i: int| 0 <= i < n implies #[trigger] block_offset(b1, i) <= de by {
            assert(block_offset(b2, i) <= de);
        }
    }
}

/// Overwriting the first `v.len()` bytes of a store, all inside block 0's
/// object bytes, changes only the front of the stream.
pub proof fn lemma_patch_front(f: Seq<u8>, nb: int, v: Seq<u8>)
    requires
        nb >= 1,
        f.len() == 4096 * nb,
        blocks_wf(f, nb),
        v.len() <= dend(f, 0),
    ensures
        ({
            let out = v + f.subrange(v.len() as int, f.len() as int);
            &&& out.len() == f.len()
            &&& blocks_wf(out, nb)
            &&& starts(out, nb) == starts(f, nb)
            &&& stream(out, nb) == v + stream(f, nb).subrange(v.len() as int, stream(f, nb).len() as int)
            &&& stream(out, nb).len() == stream(f, nb).len()
            &&& nobj(out, 0) == nobj(f, 0)
            &&& dend(out, 0) == dend(f, 0)
            &&& forall|b: int| 0 <= b < nb ==> #[trigger] nobj(out, b) == nobj(f, b)
            &&& forall|b: int| 0 <= b < nb ==> #[trigger] block_empty(blk(out, b)) == block_empty(blk(f, b))
            &&& forall|b: int, i: int| 0 <= b < nb && 0 <= i < nobj(f, b) ==> #[trigger] off_at(out, b, i)
                == off_at(f, b, i)
        }),
{
    let out = v + f.subrange(v.len() as int, f.len() as int);
    let lo = v.len() as int;
    assert forall|b: int| 1 <= b < nb implies #[trigger] blk(out, b) == blk(f, b) by {
        assert(blk(out, b) =~= blk(f, b));
    }
    assert(block_wf(blk(f, 0)));
    lemma_block_fields_same(blk(f, 0), blk(out, 0), lo);
    let c0 = chunk(f, 0);
    assert(chunk(out, 0) =~= v + c0.subrange(lo, c0.len() as int));
    lemma_patch_stream(f, out, nb, v, nb);
    assert forall|b: int| 0 <= b < nb implies block_wf(#[trigger] blk(out, b)) by {
        if b > 0 {
            assert(blk(out, b) == blk(f, b));
        }
    }
    assert forall|j: int| 0 <= j <= nb implies #[trigger] stream(out, j).len() == stream(f, j).len() by {
        if j >= 1 {
            lemma_patch_stream(f, out, nb, v, j);
        }
    }
    lemma_patch_starts(f, out, nb, nb);
    assert forall|b: int| 0 <= b < nb implies #[trigger] nobj(out, b) == nobj(f, b) by {
        if b > 0 {
            assert(blk(out, b) == blk(f, b));
        }
    }
    assert forall|b: int| 0 <= b < nb implies #[trigger] block_empty(blk(out, b)) == block_empty(blk(f, b)) by {
        if b > 0 {
            assert(blk(out, b) == blk(f, b));
        }
    }
    assert forall|b: int, i: int| 0 <= b < nb && 0 <= i < nobj(f, b) implies #[trigger] off_at(out, b, i)
        == off_at(f, b, i) by {
        if b > 0 {
            assert(blk(out, b) == blk(f, b));
        } else {
            assert(block_offset(blk(f, 0), i) == block_offset(blk(out, 0), i));
        }
    }
}

proof fn lemma_patch_stream(f: Seq<u8>, out: Seq<u8>, nb: int, v: Seq<u8>, k: int)
    requires
        1 <= k <= nb,
        v.len() <= chunk(f, 0).len(),
        chunk(out, 0) == v + chunk(f, 0).subrange(v.len() as int, chunk(f, 0).len() as int),
        forall|b: int| 1 <= b < nb ==> #[trigger] blk(out, b) == blk(f, b),
    ensures
        stream(out, k) == v + stream(f, k).subrange(v.len() as int, stream(f, k).len() as int),
        stream(out, k).len() == stream(f, k).len(),
    decreases k,
{
    if k == 1 {
        assert(stream(out, 0) =~= Seq::<u8>::empty());
        assert(stream(f, 0) =~= Seq::<u8>::empty());
        assert(stream(out, 1) =~= chunk(out, 0));
        assert(stream(f, 1) =~= chunk(f, 0));
    } else {
        lemma_patch_stream(f, out, nb, v, k - 1);
        assert(blk(out, k - 1) == blk(f, k - 1));
        let sf = stream(f, k - 1);
        assert(stream(f, k - 1).len() >= v.len()) by {
            lemma_stream_grows(f, 1, k - 1);
            assert(stream(f, 0) =~= Seq::<u8>::empty());
            assert(stream(f, 1) =~= chunk(f, 0));
        }
        assert(stream(out, k) =~= v + stream(f, k).subrange(v.len() as int, stream(f, k).len() as int));
    }
}

proof fn lemma_patch_starts(f: Seq<u8>, out: Seq<u8>, nb: int, k: int)
    requires
        0 <= k <= nb,
        forall|b: int| 1 <= b < nb ==> #[trigger] blk(out, b) == blk(f, b),
        nb >= 1,
        nobj(out, 0) == nobj(f, 0),
        forall|i: int| 0 <= i < nobj(f, 0) ==> #[trigger] key_at(out, 0, i) == key_at(f, 0, i),
        forall|i: int| 0 <= i < nobj(f, 0) ==> #[trigger] off_at(out, 0, i) == off_at(f, 0, i),
        forall|j: int| 0 <= j <= nb ==> #[trigger] stream(out, j).len() == stream(f, j).len(),
    ensures
        starts(out, k) == starts(f, k),
    decreases k,
{
    if k > 0 {
        lemma_patch_starts(f, out, nb, k - 1);
        let b = k - 1;
        assert(stream(out, b).len() == stream(f, b).len());
        if b == 0 {
            assert(Seq::new(nobj(out, 0) as nat, |i: int| (key_at(out, 0, i), base(out, 0) + off_at(out, 0, i), i + 1 == nobj(out, 0)))
                =~= Seq::new(nobj(f, 0) as nat, |i: int| (key_at(f, 0, i), base(f, 0) + off_at(f, 0, i), i + 1 == nobj(f, 0))));
        } else {
            assert(blk(out, b) == blk(f, b));
        }
    }
}

/// The table only grows.
pub proof fn lemma_starts_grow(d: Seq<u8>, j: int, k: int)
    requires
        0 <= j <= k,
    ensures
        starts(d, j).len() <= starts(d, k).len(),
        starts(d, k).subrange(0, starts(d, j).len() as int) == starts(d, j),
    decreases k - j,
{
    if j < k {
        lemma_starts_grow(d, j, k - 1);
        assert(starts(d, k).subrange(0, starts(d, j).len() as int) =~= starts(d, k - 1).subrange(0, starts(d, j).len() as int));
    } else {
        assert(starts(d, k).subrange(0, starts(d, j).len() as int) =~= starts(d, j));
    }
}

/// The stream only grows.
pub proof fn lemma_stream_grows(d: Seq<u8>, j: int, k: int)
    requires
        0 <= j <= k,
    ensures
        stream(d, j).len() <= stream(d, k).len(),
        stream(d, k).subrange(0, stream(d, j).len() as int) == stream(d, j),
    decreases k - j,
{
    if j < k {
        lemma_stream_grows(d, j, k - 1);
        assert(stream(d, k).subrange(0, stream(d, j).len() as int) =~= stream(d, k - 1).subrange(0, stream(d, j).len() as int));
    } else {
        assert(stream(d, k).subrange(0, stream(d, j).len() as int) =~= stream(d, j));
    }
}

/// A store the sequential reader can walk: its blocks are laid out
/// consistently, and block 0 holds the header and at least one more entry.
pub open spec fn readable(data: Seq<u8>, nb: int) -> bool {
    &&& nb >= 1
    &&& blocks_wf(data, nb)
    &&& nobj(data, 0) >= 2
}

/// Entry `i` of block `b` sits at index `starts(data, b).len() + i` of the table.
pub proof fn lemma_starts_index(data: Seq<u8>, nb: int, b: int, i: int)
    requires
        0 <= b < nb,
        0 <= i < nobj(data, b),
    ensures
        starts(data, b).len() + i < starts(data, nb).len(),
        starts(data, nb)[starts(data, b).len() + i] == (key_at(data, b, i), base(data, b) + off_at(data, b, i),
            i + 1 == nobj(data, b)),
        starts(data, b + 1).len() == starts(data, b).len() + nobj(data, b),
{
    lemma_starts_grow(data, b + 1, nb);
    let k = starts(data, b).len() + i;
    assert(starts(data, nb)[k] == starts(data, b + 1)[k]);
}

/// Append `src[lo..hi]` to `out`.
pub fn append_range(out: &mut Vec<u8>, src: &[u8], lo: usize, hi: usize)
    requires
        lo <= hi <= src@.len(),
    ensures
        final(out)@ == old(out)@ + src@.subrange(lo as int, hi as int),
{
    let mut p = lo;
    while p < hi
        invariant
            lo <= p <= hi,
            hi <= src@.len(),
            out@ == old(out)@ + src@.subrange(lo as int, p as int),
        decreases hi - p,
    {
        out.push(src[p]);
        proof {
            assert(src@.subrange(lo as int, p + 1) =~= src@.subrange(lo as int, p as int).push(src@[p as int]));
        }
        p = p + 1;
    }
}

/// The stream bytes of block `b` from `x` to `y` are the block's own bytes.
pub proof fn lemma_stream_bytes(data: Seq<u8>, nb: int, b: int, x: int, y: int)
    requires
        0 <= b < nb,
        4096 * nb <= data.len(),
        0 <= x <= y <= dend(data, b),
        dend(data, b) <= 4096,
    ensures
        stream(data, nb).subrange(base(data, b) + x, base(data, b) + y)
            == data.subrange(4096 * b + x, 4096 * b + y),
        base(data, b + 1) == base(data, b) + dend(data, b),
        base(data, b + 1) <= stream(data, nb).len(),
{
    lemma_stream_block(data, nb, b);
    let s = stream(data, nb);
    let c = chunk(data, b);
    assert(s.subrange(base(data, b) + x, base(data, b) + y) =~= c.subrange(x, y));
    assert(c.subrange(x, y) =~= data.subrange(4096 * b + x, 4096 * b + y));
}

/// Adjacent pieces of a sequence join.
pub proof fn lemma_subrange_join(s: Seq<u8>, p: int, q: int, r: int)
    requires
        0 <= p <= q <= r <= s.len(),
    ensures
        s.subrange(p, q) + s.subrange(q, r) == s.subrange(p, r),
{
    assert(s.subrange(p, q) + s.subrange(q, r) =~= s.subrange(p, r));
}

/// The table of block `k + 1` extends that of block `k` by block `k`'s entries.
pub proof fn lemma_starts_step(data: Seq<u8>, k: int)
    requires
        0 <= k,
    ensures
        starts(data, k + 1).len() == starts(data, k).len() + nobj(data, k),
{
}

/// The value of entry `i` of block `b` among the first `nb` blocks of `data`,
/// and the block where its bytes end: `b` when another entry of `b` follows,
/// else the next block with entries (or the last block when none has).
#[verifier::rlimit(30)]
pub fn entry_value(data: &[u8], nb: usize, b: usize, i: usize, block: &BlockStorage) -> (r: (Vec<u8>, usize))
    requires
        blocks_wf(data@, nb as int),
        b < nb,
        block.parsed_from(blk(data@, b as int)),
        i < block.num_objects,
    ensures
        starts(data@, b as int).len() + i < starts(data@, nb as int).len(),
        r.0@ == decoded(data@, nb as int)[starts(data@, b as int).len() + i].1,
        i + 1 < block.num_objects ==> r.1 == b,
        i + 1 == block.num_objects && next_nonempty(data@, b + 1, nb as int) < nb ==> r.1 == next_nonempty(
            data@, b + 1, nb as int),
        i + 1 == block.num_objects && next_nonempty(data@, b + 1, nb as int) >= nb ==> r.1 == nb - 1,
        b <= r.1 < nb,
{
    let ghost d = data@;
    let ghost ss = starts(d, nb as int);
    let ghost s = stream(d, nb as int);
    let ghost g = starts(d, b as int).len() + i;
    let n = block.num_objects as usize;
    let dlen = data.len();
    assert(4096 * b < 4096 * nb <= dlen);
    let blk_start = b * 4096;
    proof {
        lemma_starts_index(d, nb as int, b as int, i as int);
        assert(block_wf(blk(d, b as int)));
        assert(block.offsets@[i as int] == off_at(d, b as int, i as int));
    }
    let start = block.offsets[i] as usize;
    if i + 1 < n {
        let end = block.offsets[i + 1] as usize;
        proof {
            lemma_starts_index(d, nb as int, b as int, i + 1);
            assert(block.offsets@[i + 1] == off_at(d, b as int, i + 1));
            assert(off_at(d, b as int, i as int) <= off_at(d, b as int, i + 1));
            assert(off_at(d, b as int, i + 1) <= dend(d, b as int));
            lemma_stream_bytes(d, nb as int, b as int, start as int, end as int);
        }
        let mut value: Vec<u8> = Vec::new();
        append_range(&mut value, data, blk_start + start, blk_start + end);
        proof {
            assert(value@ =~= d.subrange(blk_start + start, blk_start + end));
        }
        return (value, b);
    }
    let de = block.table_start - block.empty_page_end as usize;
    proof {
        assert(de == dend(d, b as int));
        assert(off_at(d, b as int, i as int) <= dend(d, b as int));
        lemma_stream_bytes(d, nb as int, b as int, start as int, de as int);
        lemma_starts_step(d, b as int);
    }
    let mut value: Vec<u8> = Vec::new();
    append_range(&mut value, data, blk_start + start, blk_start + de);
    let ghost p0 = base(d, b as int) + start;
    proof {
        assert(value@ =~= s.subrange(p0, base(d, b + 1)));
    }
    let mut t = b + 1;
    while t < nb
        invariant
            b < t <= nb,
            blocks_wf(d, nb as int),
            d == data@,
            s == stream(d, nb as int),
            ss == starts(d, nb as int),
            dlen == d.len(),
            g < ss.len(),
            g == starts(d, b as int).len() + i,
            i + 1 == n,
            n == block.num_objects,
            0 <= p0,
            ss[g].1 == p0,
            starts(d, t as int).len() == g + 1,
            p0 <= base(d, t as int) <= s.len(),
            value@ == s.subrange(p0, base(d, t as int)),
            next_nonempty(d, b + 1, nb as int) == next_nonempty(d, t as int, nb as int),
        decreases nb - t,
    {
        let t_start = t * 4096;
        let bytes = vstd::slice::slice_subrange(data, t_start, t_start + 4096);
        proof {
            assert(blk(d, t as int) =~= bytes@);
            assert(block_wf(blk(d, t as int)));
            lemma_starts_step(d, t as int);
        }
        let next = BlockStorage::parse(bytes);
        let next_de = next.table_start - next.empty_page_end as usize;
        proof {
            assert(next_de == dend(d, t as int));
        }
        if next.num_objects > 0 {
            let len_on_next = next.offsets[0] as usize;
            proof {
                assert(len_on_next == off_at(d, t as int, 0));
                assert(off_at(d, t as int, 0) <= dend(d, t as int));
                lemma_stream_bytes(d, nb as int, t as int, 0, len_on_next as int);
                lemma_starts_index(d, nb as int, t as int, 0);
                assert(base(d, t + 1) == base(d, t as int) + dend(d, t as int));
                assert(base(d, t + 1) <= s.len());
                assert(base(d, t as int) + len_on_next <= s.len());
            }
            append_range(&mut value, data, t_start, t_start + len_on_next);
            proof {
                lemma_subrange_join(s, p0, base(d, t as int), base(d, t as int) + len_on_next);
                assert(ss[g + 1].1 == base(d, t as int) + off_at(d, t as int, 0));
                assert(entry_end(ss, s, g) == ss[g + 1].1);
                assert(decoded(d, nb as int)[g].1 == s.subrange(ss[g].1, entry_end(ss, s, g)));
            }
            return (value, t);
        }
        proof {
            lemma_stream_bytes(d, nb as int, t as int, 0, next_de as int);
        }
        append_range(&mut value, data, t_start, t_start + next_de);
        proof {
            lemma_subrange_join(s, p0, base(d, t as int), base(d, t + 1));
        }
        t = t + 1;
    }
    proof {
        assert(base(d, nb as int) == s.len());
        assert(entry_end(ss, s, g) == s.len());
        assert(decoded(d, nb as int)[g].1 == s.subrange(ss[g].1, entry_end(ss, s, g)));
    }
    (value, nb - 1)
}

/// The stream bytes of block `b` are its object bytes.
pub proof fn lemma_stream_block(data: Seq<u8>, nb: int, b: int)
    requires
        0 <= b < nb,
    ensures
        base(data, b + 1) == base(data, b) + chunk(data, b).len(),
        base(data, b + 1) <= stream(data, nb).len(),
        stream(data, nb).subrange(base(data, b), base(data, b + 1)) == chunk(data, b),
        stream(data, nb).subrange(0, base(data, b + 1)) == stream(data, b + 1),
{
    lemma_stream_grows(data, b + 1, nb);
    assert(stream(data, nb).subrange(base(data, b), base(data, b + 1)) =~= stream(data, b + 1).subrange(
        base(data, b), base(data, b + 1)));
}

/// Reading from a non-stop entry yields it, then the rest.
pub proof fn lemma_objects_from_step(data: Seq<u8>, nb: int, g: int)
    requires
        0 <= g < starts(data, nb).len(),
        !(starts(data, nb)[g].0 == 0 && starts(data, nb)[g].2),
    ensures
        objects_from(data, nb, g) == seq![decoded(data, nb)[g]] + objects_from(data, nb, g + 1),
        objects_from(data, nb, g).len() > 0,
        objects_from(data, nb, g).drop_first() == objects_from(data, nb, g + 1),
{
    assert((seq![decoded(data, nb)[g]] + objects_from(data, nb, g + 1)).drop_first() =~= objects_from(data, nb, g + 1));
}

pub proof fn lemma_next_nonempty(data: Seq<u8>, c: int, nb: int)
    ensures
        c <= nb ==> c <= next_nonempty(data, c, nb) <= nb,
        next_nonempty(data, c, nb) < nb ==> nobj(data, next_nonempty(data, c, nb)) > 0,
        forall|t: int| c <= t < next_nonempty(data, c, nb) ==> nobj(data, t) <= 0,
    decreases nb - c,
{
    if c < nb && nobj(data, c) <= 0 {
        lemma_next_nonempty(data, c + 1, nb);
    }
}

} // verus!
