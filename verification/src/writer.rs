//! The PaCHash packer.
//!
//! [`LinearObjectWriter`] appends objects into 4096-byte blocks packed fully.
//! An object that does not fit continues onto the next block. Each block gets a
//! table of keys and start offsets. The first object of block 0 holds the file
//! header, patched with the final block count on [`LinearObjectWriter::finish`].
use vstd::prelude::*;
use crate::config::{StoreMetadata, MetadataError, metadata_image, parse_metadata,
    lemma_metadata_roundtrip, lemma_parse_metadata_prefix};
use crate::block::{BlockStorage, block_key, block_offset, holds_table, table_start_for, block_empty,
    with_table, lemma_table_image};
use crate::format::{blk, nobj, dend, key_at, off_at, chunk, stream, base, starts, key_pos,
    blocks_wf, block_wf, concat_values, obj_starts, lemma_append_block, decoded, stored_objects,
    lemma_obj_starts_push, lemma_replace_first, lemma_decoded_is, lemma_starts_last,
    lemma_objects_from, lemma_patch_front, lemma_starts_grow, lemma_same_prefix, lemma_starts_index};

verus! {

/// The largest value length among `objs`.
pub open spec fn max_len(objs: Seq<(u64, Seq<u8>)>) -> nat
    decreases objs.len(),
{
    if objs.len() == 0 {
        0
    } else {
        let m = max_len(objs.drop_last());
        if objs.last().1.len() > m {
            objs.last().1.len()
        } else {
            m
        }
    }
}

/// The largest value length is at least every object's length and is one of
/// them, or 0 when there are no objects.
pub proof fn lemma_max_len_largest(objs: Seq<(u64, Seq<u8>)>)
    ensures
        forall|j: int| 0 <= j < objs.len() ==> #[trigger] objs[j].1.len() <= max_len(objs),
        objs.len() == 0 ==> max_len(objs) == 0,
        objs.len() > 0 ==> exists|j: int| 0 <= j < objs.len() && max_len(objs) == #[trigger] objs[j].1.len(),
    decreases objs.len(),
{
    if objs.len() > 0 {
        let front = objs.drop_last();
        lemma_max_len_largest(front);
        assert forall|j: int| 0 <= j < objs.len() implies #[trigger] objs[j].1.len() <= max_len(objs) by {
            if j < front.len() {
                assert(objs[j] == front[j]);
            }
        }
        if objs.last().1.len() > max_len(front) {
            assert(max_len(objs) == objs[objs.len() - 1].1.len());
        } else if front.len() > 0 {
            let j = choose|j: int| 0 <= j < front.len() && max_len(front) == #[trigger] front[j].1.len();
            assert(objs[j] == front[j]);
        } else {
            assert(max_len(objs) == objs[0].1.len());
        }
    }
}

/// The header of a written store records the largest value length written:
/// at least the 56 header bytes, at least the length of every object, and
/// equal to one of those lengths or to 56.
pub proof fn lemma_written_max_size(d: Seq<u8>, kind: u16, objs: Seq<(u64, Seq<u8>)>)
    requires
        written_image(d, kind, objs),
    ensures
        parse_metadata(d) is Ok,
        parse_metadata(d)->Ok_0.max_size >= 56,
        forall|j: int| 0 <= j < objs.len() ==> #[trigger] objs[j].1.len() <= parse_metadata(d)->Ok_0.max_size,
        parse_metadata(d)->Ok_0.max_size == 56 || exists|j: int| 0 <= j < objs.len()
            && parse_metadata(d)->Ok_0.max_size == #[trigger] objs[j].1.len(),
{
    let all = seq![header_placeholder()] + objs;
    lemma_max_len_largest(all);
    assert(all[0].1.len() == 56);
    assert forall|j: int| 0 <= j < objs.len() implies #[trigger] objs[j].1.len() <= parse_metadata(d)->Ok_0.max_size by {
        assert(all[j + 1] == objs[j]);
    }
    let m = max_len(all);
    let i = choose|i: int| 0 <= i < all.len() && m == #[trigger] all[i].1.len();
    if i > 0 {
        assert(all[i] == objs[i - 1]);
    }
}

/// The entries of the block being filled, placed in the stream at `at`.
pub open spec fn page_entries(keys: Seq<u64>, offsets: Seq<u16>, at: int) -> Seq<(u64, int)> {
    Seq::new(keys.len(), |i: int| (keys[i], at + offsets[i] as int))
}

/// Among the first `k` blocks of `f`, a block but the last that was closed
/// with room left ended with a whole object: the next block starts a new
/// object at byte 0. (A block cut inside an object is full.)
pub open spec fn ends_whole(f: Seq<u8>, k: int) -> bool {
    forall|b: int| 0 <= b < k - 1 && #[trigger] block_empty(blk(f, b)) > 0
        ==> nobj(f, b + 1) >= 1 && off_at(f, b + 1, 0) == 0
}

/// The packing rule of a finished store of `nb` blocks: every block but the
/// last was flushed with at most 10 bytes of room left, recorded as its
/// empty-page marker, and only at the end of an object unless no room was
/// left. The last block was either closed with a key-0 terminator, written
/// when more than 128 bytes were free (so more than 118 stay between the
/// terminator and the table), and marker 42, or closed as it was, with 11 to
/// 128 bytes free.
pub open spec fn flushed(out: Seq<u8>, nb: int, terminated: bool) -> bool {
    let last = nb - 1;
    let n = nobj(out, last);
    &&& forall|b: int| 0 <= b < last ==> #[trigger] block_empty(blk(out, b)) <= 10
    &&& ends_whole(out, nb)
    &&& terminated ==> block_empty(blk(out, last)) == 42 && n >= 1
        && table_start_for(n) - off_at(out, last, n - 1) > 118
    &&& !terminated ==> 10 < block_empty(blk(out, last)) <= 128
}

/// `out` is a finished store of kind `kind` whose objects after the header
/// are `objs`: the header holds the real block count and the largest value
/// length, every block is laid out consistently, the table lists the header,
/// then `objs`, then at most a key-0 terminator closing the last block.
pub open spec fn written_image(out: Seq<u8>, kind: u16, objs: Seq<(u64, Seq<u8>)>) -> bool {
    let nb = out.len() / 4096;
    let meta = StoreMetadata {
        kind,
        num_blocks: nb as u64,
        max_size: max_len(seq![header_placeholder()] + objs) as u64,
    };
    let all = seq![(0u64, metadata_image(meta))] + objs;
    let ss = starts(out, nb as int);
    &&& out.len() == 4096 * nb
    &&& nb >= 1
    &&& max_len(seq![header_placeholder()] + objs) <= u64::MAX
    &&& parse_metadata(out) == Ok::<StoreMetadata, MetadataError>(meta)
    &&& blocks_wf(out, nb as int)
    &&& nobj(out, 0) >= 2
    &&& decoded(out, nb as int).subrange(0, all.len() as int) == all
    &&& ss.len() == all.len() || (ss.len() == all.len() + 1 && ss.last().0 == 0 && ss.last().2)
    &&& ss.len() == all.len() + 1 ==> nobj(out, nb - 1) >= 1
    &&& flushed(out, nb as int, ss.len() == all.len() + 1)
    &&& off_at(out, 0, 0) == 0
}

/// A written store whose objects have nonzero keys stores exactly those
/// objects.
pub proof fn lemma_written_stored(d: Seq<u8>, kind: u16, objs: Seq<(u64, Seq<u8>)>)
    requires
        written_image(d, kind, objs),
        forall|j: int| 0 <= j < objs.len() ==> #[trigger] objs[j].0 != 0,
    ensures
        stored_objects(d, (d.len() / 4096) as int) == objs,
        parse_metadata(d) is Ok,
        parse_metadata(d)->Ok_0.num_blocks == (d.len() / 4096) as u64,
{
    let nb = (d.len() / 4096) as int;
    let meta = StoreMetadata {
        kind,
        num_blocks: nb as u64,
        max_size: max_len(seq![header_placeholder()] + objs) as u64,
    };
    let all = seq![(0u64, metadata_image(meta))] + objs;
    assert forall|j: int| 1 <= j < all.len() implies #[trigger] all[j].0 != 0 by {
        assert(all[j] == objs[j - 1]);
    }
    lemma_objects_from(d, nb, all, 1);
    assert(all.subrange(1, all.len() as int) =~= objs);
}

/// How many blocks are closed while `len` bytes are written into a block with
/// `space` bytes free for data: one when the data leaves at most 10 bytes
/// free, and one more for each further 4093 bytes.
pub open spec fn blocks_closed(space: int, len: int) -> int {
    if len + 11 <= space {
        0
    } else {
        1 + (len + 10 - space) / 4093
    }
}

/// The bytes free in the block being filled after `len` bytes are written
/// into a block with `space` bytes free for data.
pub open spec fn room_left(space: int, len: int) -> int {
    if len + 11 <= space {
        space - len
    } else if len <= space {
        4093
    } else {
        let t = (len - space) % 4093;
        if t == 0 || t > 4082 {
            4093
        } else {
            4093 - t
        }
    }
}

/// Filling a block to the brim and going on in a fresh one closes one block
/// more than the rest needs and ends with the same room.
proof fn lemma_fill_step(space: int, rem: int)
    requires
        0 < space <= 4093,
        rem > space,
    ensures
        blocks_closed(space, rem) == 1 + blocks_closed(4093, rem - space),
        room_left(space, rem) == room_left(4093, rem - space),
{
    let r = rem - space;
    if r + 10 >= 4093 {
        assert((r + 10 - 4093) / 4093 + 1 == (r + 10) / 4093);
    } else {
        assert((r + 10) / 4093 == 0);
    }
    if r > 4093 {
        assert((r - 4093) % 4093 == r % 4093);
    } else if r == 4093 {
        assert(r % 4093 == 0);
    } else {
        assert(r % 4093 == r);
    }
}

/// Closing one more block keeps the earlier blocks ending with whole objects,
/// when the new block starts a new object at byte 0 wherever that is needed.
proof fn lemma_ends_whole_step(f0: Seq<u8>, f: Seq<u8>, bg0: int)
    requires
        bg0 >= 0,
        ends_whole(f0, bg0),
        forall|b: int| 0 <= b < bg0 ==> #[trigger] blk(f, b) == blk(f0, b),
        bg0 > 0 && block_empty(blk(f0, bg0 - 1)) > 0 ==> nobj(f, bg0) >= 1 && off_at(f, bg0, 0) == 0,
    ensures
        ends_whole(f, bg0 + 1),
{
    assert forall|b: int| 0 <= b < bg0 && #[trigger] block_empty(blk(f, b)) > 0
        implies nobj(f, b + 1) >= 1 && off_at(f, b + 1, 0) == 0 by {
        assert(blk(f, b) == blk(f0, b));
        if b < bg0 - 1 {
            assert(blk(f, b + 1) == blk(f0, b + 1));
        }
    }
}

/// The placeholder header object: 56 zero bytes under key 0.
pub open spec fn header_placeholder() -> (u64, Seq<u8>) {
    (0u64, Seq::new(56, |i: int| 0u8))
}


/// The first object's value starts the concatenation.
proof fn lemma_concat_first(o: Seq<(u64, Seq<u8>)>)
    requires
        o.len() >= 1,
    ensures
        concat_values(o.take(1)) == o[0].1,
{
    assert(o.take(1).drop_last() =~= Seq::<(u64, Seq<u8>)>::empty());
    assert(concat_values(o.take(1).drop_last()) =~= Seq::<u8>::empty());
    assert(concat_values(o.take(1)) =~= o[0].1);
}

/// The terminator's value is whatever the block holds after the last object.
proof fn lemma_terminated(
    o: Seq<(u64, Seq<u8>)>,
    nothing: Seq<u8>,
    junk: Seq<u8>,
    cur0: Seq<u8>,
    pos0: int,
    de: int,
    s0: Seq<u8>,
    s1: Seq<u8>,
)
    requires
        nothing.len() == 0,
        0 <= pos0 <= de <= cur0.len(),
        junk == cur0.subrange(pos0, de),
        s0 + cur0.subrange(0, pos0) == concat_values(o.push((0u64, nothing))),
        s1 == s0 + cur0.subrange(0, de),
    ensures
        s1 == concat_values(o.push((0u64, junk))),
        obj_starts(o.push((0u64, nothing))) == obj_starts(o.push((0u64, junk))),
{
    lemma_obj_starts_push(o, (0u64, junk));
    lemma_obj_starts_push(o, (0u64, nothing));
    assert(concat_values(o) + nothing =~= concat_values(o));
    assert(cur0.subrange(0, de) =~= cur0.subrange(0, pos0) + junk);
    assert(s1 =~= concat_values(o.push((0u64, junk))));
}

/// A finished store, once its header is patched in, decodes to the header
/// followed by the objects written.
proof fn lemma_finished_store(
    f: Seq<u8>,
    nb: int,
    o: Seq<(u64, Seq<u8>)>,
    ofinal: Seq<(u64, Seq<u8>)>,
    img: Seq<u8>,
)
    requires
        nb >= 1,
        f.len() == 4096 * nb,
        blocks_wf(f, nb),
        nobj(f, 0) >= 2,
        key_pos(starts(f, nb)) == obj_starts(ofinal),
        stream(f, nb) == concat_values(ofinal),
        o.len() >= 1,
        o[0] == header_placeholder(),
        ofinal == o || (ofinal.len() == o.len() + 1 && ofinal.drop_last() == o && ofinal.last().0 == 0),
        img.len() == 56,
        flushed(f, nb, ofinal.len() == o.len() + 1),
    ensures
        ({
            let out = img + f.subrange(56, f.len() as int);
            let objs = seq![(0u64, img)] + o.drop_first();
            let ss = starts(out, nb);
            &&& out.len() == f.len()
            &&& blocks_wf(out, nb)
            &&& nobj(out, 0) >= 2
            &&& decoded(out, nb).subrange(0, objs.len() as int) == objs
            &&& ss.len() == objs.len() || (ss.len() == objs.len() + 1 && ss.last().0 == 0 && ss.last().2)
            &&& (forall|j: int| 0 <= j < o.drop_first().len() ==> #[trigger] o.drop_first()[j].0 != 0)
                ==> stored_objects(out, nb) == o.drop_first()
            &&& forall|b: int| 0 <= b < nb ==> #[trigger] nobj(out, b) == nobj(f, b)
            &&& ss.len() == ofinal.len()
            &&& flushed(out, nb, ofinal.len() == o.len() + 1)
            &&& off_at(out, 0, 0) == 0
        }),
{
    let user = o.drop_first();
    lemma_starts_index(f, nb, 0, 0);
    assert(key_pos(starts(f, nb))[0] == obj_starts(ofinal)[0]);
    assert(ofinal.take(0) =~= Seq::<(u64, Seq<u8>)>::empty());
    assert(off_at(f, 0, 0) == 0);
    lemma_decoded_is(f, nb, ofinal);
    lemma_starts_grow(f, 1, nb);
    assert(starts(f, 0) =~= Seq::<(u64, int, bool)>::empty());
    assert(stream(f, 0) =~= Seq::<u8>::empty());
    assert(key_pos(starts(f, nb))[1] == obj_starts(ofinal)[1]);
    if ofinal.len() > o.len() {
        assert(ofinal.take(1) =~= o.take(1));
        assert(ofinal[0] == o[0]);
    }
    lemma_concat_first(ofinal);
    assert(starts(f, nb)[1] == starts(f, 1)[1]);
    assert(off_at(f, 0, 1) == 56);
    assert(block_wf(blk(f, 0)));
    assert(off_at(f, 0, 1) <= dend(f, 0));
    lemma_patch_front(f, nb, img);
    let out = img + f.subrange(56, f.len() as int);
    assert(ofinal[0].1.len() == 56);
    lemma_replace_first(ofinal, img);
    let ofin2 = ofinal.update(0, (0u64, img));
    assert(concat_values(ofin2) == stream(out, nb));
    lemma_decoded_is(out, nb, ofin2);
    let objs = seq![(0u64, img)] + user;
    assert(ofin2.subrange(0, objs.len() as int) =~= objs);
    lemma_starts_last(out, nb);
    if ofinal.len() > o.len() {
        assert(ofinal.last() == ofin2.last());
    }
    if forall|j: int| 0 <= j < user.len() ==> #[trigger] user[j].0 != 0 {
        assert forall|j: int| 1 <= j < objs.len() implies #[trigger] objs[j].0 != 0 by {
            assert(objs[j] == user[j - 1]);
        }
        lemma_objects_from(out, nb, objs, 1);
        assert(objs.subrange(1, objs.len() as int) =~= user);
    }
}

/// A writer's state as plain values: the finished blocks, the block being
/// filled with the table entries it has so far, the bytes still free in it
/// and where its data ends, the largest value length so far and the count of
/// finished blocks.
#[verifier::ext_equal]
pub struct WriterState {
    pub blocks: Seq<u8>,
    pub current: Seq<u8>,
    pub keys: Seq<u64>,
    pub offsets: Seq<u16>,
    pub room: int,
    pub pos: int,
    pub max_size: int,
    pub closed: int,
}

/// The state before anything is written: one empty block to fill.
pub open spec fn empty_state() -> WriterState {
    WriterState {
        blocks: Seq::empty(),
        current: Seq::new(4096, |i: int| 0u8),
        keys: Seq::empty(),
        offsets: Seq::empty(),
        room: 4093,
        pos: 0,
        max_size: 0,
        closed: 0,
    }
}

/// Close the block being filled: write its table with marker `e`, append it
/// to the finished blocks and start an empty block.
pub open spec fn close_state(s: WriterState, e: u8) -> WriterState {
    WriterState {
        blocks: s.blocks + with_table(s.current, s.keys, s.offsets, e),
        current: Seq::new(4096, |i: int| 0u8),
        keys: Seq::empty(),
        offsets: Seq::empty(),
        room: 4093,
        pos: 0,
        max_size: s.max_size,
        closed: s.closed + 1,
    }
}

/// Copy `content` from byte `done` on into the blocks: as much as the block
/// being filled has room for, closing it whenever at most 10 bytes are left,
/// until all of it is in.
pub open spec fn fill_state(s: WriterState, content: Seq<u8>, done: int) -> WriterState
    decreases content.len() - done,
{
    let rem = content.len() - done;
    let w = if s.room < rem { s.room } else { rem };
    let s1 = WriterState {
        blocks: s.blocks,
        current: s.current.subrange(0, s.pos) + content.subrange(done, done + w) + s.current.subrange(
            s.pos + w,
            s.current.len() as int,
        ),
        keys: s.keys,
        offsets: s.offsets,
        room: s.room - w,
        pos: s.pos + w,
        max_size: s.max_size,
        closed: s.closed,
    };
    let s2 = if s1.room <= 10 { close_state(s1, s1.room as u8) } else { s1 };
    if w <= 0 || done + w >= content.len() {
        s2
    } else {
        fill_state(s2, content, done + w)
    }
}

/// Write one object: its table entry goes to the block being filled, at the
/// current position, then its bytes follow.
pub open spec fn put_state(s: WriterState, key: u64, content: Seq<u8>) -> WriterState {
    let s0 = WriterState {
        blocks: s.blocks,
        current: s.current,
        keys: s.keys.push(key),
        offsets: s.offsets.push(s.pos as u16),
        room: s.room - 10,
        pos: s.pos,
        max_size: if content.len() > s.max_size { content.len() as int } else { s.max_size },
        closed: s.closed,
    };
    fill_state(s0, content, 0)
}

/// Write `objs` one after another.
pub open spec fn feed(s: WriterState, objs: Seq<(u64, Seq<u8>)>) -> WriterState
    decreases objs.len(),
{
    if objs.len() == 0 {
        s
    } else {
        let t = feed(s, objs.drop_last());
        put_state(t, objs.last().0, objs.last().1)
    }
}

/// The state right after the header placeholder is written.
pub open spec fn start_state() -> WriterState {
    put_state(empty_state(), 0, header_placeholder().1)
}

/// The bytes a writer in state `s` finishes with: the last block closed as
/// it is when at most 128 bytes are free, else after a key-0 terminator and
/// with marker 42; then the header patched over the first 56 bytes.
pub open spec fn finish_image(s: WriterState, kind: u16) -> Seq<u8> {
    let t = if s.room <= 128 {
        close_state(s, s.room as u8)
    } else {
        close_state(put_state(s, 0, Seq::empty()), 42)
    };
    let meta = StoreMetadata { kind, num_blocks: t.closed as u64, max_size: t.max_size as u64 };
    metadata_image(meta) + t.blocks.subrange(56, t.blocks.len() as int)
}

/// The store that writing `objs` in this order and finishing with `kind`
/// produces.
pub open spec fn store_image(objs: Seq<(u64, Seq<u8>)>, kind: u16) -> Seq<u8> {
    finish_image(feed(start_state(), objs), kind)
}

/// Builds a store in memory, one object at a time.
///
/// Call [`write`](LinearObjectWriter::write) for each object in key order, then
/// [`finish`](LinearObjectWriter::finish) to get the file bytes.
pub struct LinearObjectWriter {
    /// Finished blocks, each exactly 4096 bytes.
    blocks: Vec<u8>,
    /// The block currently being filled.
    current: Vec<u8>,
    keys: Vec<u64>,
    offsets: Vec<u16>,
    num_objects_on_page: usize,
    space_left_on_block: usize,
    block_writing_position: usize,
    max_size: usize,
    /// Number of full blocks produced so far.
    pub blocks_generated: usize,
    /// Every object written, the header placeholder first.
    objs: Ghost<Seq<(u64, Seq<u8>)>>,
}

/// Copy `len` bytes of `src` from `from` into `dst` at `at`.
fn copy_into(dst: &mut Vec<u8>, at: usize, src: &[u8], from: usize, len: usize)
    requires
        at + len <= old(dst)@.len(),
        from + len <= src@.len(),
    ensures
        final(dst)@ == old(dst)@.subrange(0, at as int) + src@.subrange(from as int, from + len)
            + old(dst)@.subrange(at + len, old(dst)@.len() as int),
{
    let _dl = dst.len();
    let _sl = src.len();
    let mut i: usize = 0;
    while i < len
        invariant
            i <= len,
            dst@.len() <= usize::MAX,
            src@.len() <= usize::MAX,
            at + len <= dst@.len(),
            from + len <= src@.len(),
            dst@.len() == old(dst)@.len(),
            dst@ =~= old(dst)@.subrange(0, at as int) + src@.subrange(from as int, from + i)
                + old(dst)@.subrange(at + i, old(dst)@.len() as int),
        decreases len - i,
    {
        dst.set(at + i, src[from + i]);
        i = i + 1;
    }
}

impl LinearObjectWriter {
    /// The finished blocks and the block being filled are laid out consistently.
    pub closed spec fn page_ok(&self) -> bool {
        let f = self.blocks@;
        let bg = self.blocks_generated as int;
        let pos = self.block_writing_position as int;
        let n = self.num_objects_on_page as int;
        &&& f.len() == 4096 * bg
        &&& blocks_wf(f, bg)
        &&& self.current@.len() == 4096
        &&& self.keys@.len() == n
        &&& self.offsets@.len() == n
        &&& self.space_left_on_block == 4093 - 10 * n - pos
        &&& 0 <= pos
        &&& forall|i: int, j: int| 0 <= i <= j < n ==> self.offsets@[i] <= self.offsets@[j]
        &&& forall|i: int| 0 <= i < n ==> #[trigger] self.offsets@[i] <= pos
    }

    /// The bookkeeping that holds between writes.
    pub closed spec fn wf_core(&self) -> bool {
        let f = self.blocks@;
        let bg = self.blocks_generated as int;
        let o = self.objs@;
        let pos = self.block_writing_position as int;
        let n = self.num_objects_on_page as int;
        &&& self.page_ok()
        &&& self.space_left_on_block > 10
        &&& forall|b: int| 0 <= b < bg ==> #[trigger] block_empty(blk(f, b)) <= 10
        &&& ends_whole(f, bg)
        &&& self.opens_whole()
        &&& stream(f, bg) + self.current@.subrange(0, pos) == concat_values(o)
        &&& key_pos(starts(f, bg)) + page_entries(self.keys@, self.offsets@, base(f, bg)) == obj_starts(o)
        &&& bg == 0 ==> n == o.len()
        &&& bg > 0 ==> nobj(f, 0) >= 2
        &&& o.len() == 0 ==> bg == 0 && pos == 0
        &&& self.max_size == max_len(o)
    }

    /// If the last finished block was closed with room left, the block being
    /// filled starts a new object at byte 0, or is still untouched.
    pub closed spec fn opens_whole(&self) -> bool {
        let f = self.blocks@;
        let bg = self.blocks_generated as int;
        bg > 0 && block_empty(blk(f, bg - 1)) > 0 ==> (self.num_objects_on_page == 0
            && self.block_writing_position == 0) || (self.num_objects_on_page >= 1 && self.offsets@[0] == 0)
    }

    /// The writer's invariant: the bookkeeping, with the header placeholder
    /// written first.
    pub closed spec fn wf(&self) -> bool {
        &&& self.wf_core()
        &&& self.objs@.len() >= 1
        &&& self.objs@[0] == header_placeholder()
        &&& self.state() == feed(start_state(), self.objs@.drop_first())
    }

    /// The number of full blocks produced so far.
    pub closed spec fn full_blocks(&self) -> nat {
        self.blocks_generated as nat
    }

    /// The writer's state as plain values.
    pub closed spec fn state(&self) -> WriterState {
        WriterState {
            blocks: self.blocks@,
            current: self.current@,
            keys: self.keys@,
            offsets: self.offsets@,
            room: self.space_left_on_block as int,
            pos: self.block_writing_position as int,
            max_size: self.max_size as int,
            closed: self.blocks_generated as int,
        }
    }

    /// The bytes still free in the block being filled.
    pub closed spec fn room(&self) -> int {
        self.space_left_on_block as int
    }

    /// The objects written so far, in order.
    pub closed spec fn objects(&self) -> Seq<(u64, Seq<u8>)> {
        self.objs@.drop_first()
    }


    /// Append one object; the bookkeeping form of [`LinearObjectWriter::write`].
    #[verifier::rlimit(40)]
    fn write_object(&mut self, key: u64, content: &[u8])
        requires
            old(self).wf_core(),
            old(self).objs@.len() == 0 ==> content@.len() == 56,
        ensures
            final(self).wf_core(),
            final(self).objs@ == old(self).objs@.push((key, content@)),
            final(self).blocks_generated >= old(self).blocks_generated,
            final(self).blocks@.subrange(0, 4096 * old(self).blocks_generated) == old(self).blocks@,
            old(self).objs@.len() == 0 ==> final(self).blocks_generated == 0,
            final(self).blocks_generated == old(self).blocks_generated + blocks_closed(
                old(self).space_left_on_block - 10, content@.len() as int),
            final(self).space_left_on_block == room_left(old(self).space_left_on_block - 10, content@.len() as int),
            final(self).state() == put_state(old(self).state(), key, content@),
    {
        let ghost s_old = self.state();
        let ghost target = put_state(s_old, key, content@);
        let ghost sp0 = self.space_left_on_block as int;
        let ghost o = self.objs@;
        let ghost o2 = o.push((key, content@));
        let ghost c0 = concat_values(o);
        let ghost f_start = self.blocks@;
        let ghost bg_start = self.blocks_generated as int;
        let length = content.len();
        if length > self.max_size {
            self.max_size = length;
        }
        proof {
            assert(o2.drop_last() =~= o);
            assert(o2.take(o.len() as int) =~= o);
            assert forall|j: int| 0 <= j < o.len() implies o2.take(j) =~= o.take(j) by {}
            assert(obj_starts(o2) =~= obj_starts(o).push((key, c0.len() as int)));
            assert(concat_values(o2) == c0 + content@);
        }
        self.objs = Ghost(o2);
        let mut written: usize = 0;
        let ghost pos0 = self.block_writing_position as int;
        proof {
            assert(base(self.blocks@, self.blocks_generated as int) + pos0 == c0.len());
        }
        let ghost n_start = self.num_objects_on_page as int;
        self.keys.push(key);
        self.offsets.push(self.block_writing_position as u16);
        self.num_objects_on_page = self.num_objects_on_page + 1;
        self.space_left_on_block = self.space_left_on_block - 10;
        proof {
            if n_start > 0 {
                assert(self.offsets@[0] == old(self).offsets@[0]);
            }
            let s0 = WriterState {
                blocks: s_old.blocks,
                current: s_old.current,
                keys: s_old.keys.push(key),
                offsets: s_old.offsets.push(s_old.pos as u16),
                room: s_old.room - 10,
                pos: s_old.pos,
                max_size: if content@.len() > s_old.max_size { content@.len() as int } else { s_old.max_size },
                closed: s_old.closed,
            };
            assert(self.state() == s0);
            assert(target == fill_state(s0, content@, 0));
            let f = self.blocks@;
            let bg = self.blocks_generated as int;
            assert(page_entries(self.keys@, self.offsets@, base(f, bg)) =~= page_entries(
                old(self).keys@, old(self).offsets@, base(f, bg)).push((key, c0.len() as int)));
            assert(content@.subrange(0, 0) =~= Seq::<u8>::empty());
            assert(self.current@.subrange(0, pos0) + Seq::<u8>::empty() =~= self.current@.subrange(0, pos0));
        }
        loop
            invariant_except_break
                fill_state(self.state(), content@, written as int) == target,
            invariant
                self.objs@ == o2,
                o2 == o.push((key, content@)),
                c0 == concat_values(o),
                concat_values(o2) == c0 + content@,
                o.len() == 0 ==> length == 56,
                length == content@.len(),
                written <= length,
                self.blocks@.len() == 4096 * self.blocks_generated,
                blocks_wf(self.blocks@, self.blocks_generated as int),
                self.current@.len() == 4096,
                self.keys@.len() == self.num_objects_on_page,
                self.offsets@.len() == self.num_objects_on_page,
                self.space_left_on_block == 4093 - 10 * self.num_objects_on_page - self.block_writing_position,
                self.space_left_on_block > 0,
                forall|i: int, j: int| 0 <= i <= j < self.num_objects_on_page ==> self.offsets@[i] <= self.offsets@[j],
                forall|i: int| 0 <= i < self.num_objects_on_page ==> #[trigger] self.offsets@[i] <= self.block_writing_position,
                stream(self.blocks@, self.blocks_generated as int) + self.current@.subrange(0, self.block_writing_position as int)
                    == c0 + content@.subrange(0, written as int),
                key_pos(starts(self.blocks@, self.blocks_generated as int)) + page_entries(self.keys@, self.offsets@,
                    base(self.blocks@, self.blocks_generated as int)) == obj_starts(o2),
                self.blocks_generated == 0 ==> self.num_objects_on_page == o2.len(),
                self.blocks_generated > 0 ==> nobj(self.blocks@, 0) >= 2,
                o.len() == 0 ==> self.blocks_generated == 0 && self.block_writing_position == written,
                self.max_size == max_len(o2),
                self.blocks_generated >= bg_start,
                f_start.len() == 4096 * bg_start,
                self.blocks@.subrange(0, 4096 * bg_start) == f_start,
                forall|b: int| 0 <= b < self.blocks_generated ==> #[trigger] block_empty(blk(self.blocks@, b)) <= 10,
                ends_whole(self.blocks@, self.blocks_generated as int),
                self.opens_whole(),
                self.num_objects_on_page == 0 && self.blocks_generated > 0 && block_empty(
                    blk(self.blocks@, self.blocks_generated - 1)) > 0 ==> written >= length,
                self.blocks_generated + blocks_closed(self.space_left_on_block as int, length - written)
                    == bg_start + blocks_closed(sp0 - 10, length as int),
                room_left(self.space_left_on_block as int, length - written) == room_left(sp0 - 10, length as int),
                self.space_left_on_block <= 4093,
            ensures
                written >= length,
                self.space_left_on_block > 10,
                self.state() == target,
            decreases length - written,
        {
            let ghost s_b = self.state();
            let ghost wb = written as int;
            let rem = length - written;
            let ghost sp_b = self.space_left_on_block as int;
            let to_write = if self.space_left_on_block < rem { self.space_left_on_block } else { rem };
            let pos = self.block_writing_position;
            let ghost cur_before = self.current@;
            copy_into(&mut self.current, pos, content, written, to_write);
            proof {
                assert(self.current@.subrange(0, pos + to_write) =~= cur_before.subrange(0, pos as int)
                    + content@.subrange(written as int, written + to_write));
                assert(content@.subrange(0, written + to_write) =~= content@.subrange(0, written as int)
                    + content@.subrange(written as int, written + to_write));
                let sf = stream(self.blocks@, self.blocks_generated as int);
                let x = content@.subrange(written as int, written + to_write);
                assert(sf + cur_before.subrange(0, pos as int) == c0 + content@.subrange(0, written as int));
                assert(sf + (cur_before.subrange(0, pos as int) + x) =~= (sf + cur_before.subrange(0, pos as int)) + x);
                assert(c0 + (content@.subrange(0, written as int) + x) =~= (c0 + content@.subrange(0, written as int)) + x);
                assert(sf + self.current@.subrange(0, pos + to_write) == c0 + content@.subrange(0, written + to_write));
            }
            self.block_writing_position = pos + to_write;
            self.space_left_on_block = self.space_left_on_block - to_write;
            written = written + to_write;
            let ghost s1 = WriterState {
                blocks: s_b.blocks,
                current: s_b.current.subrange(0, s_b.pos) + content@.subrange(wb, wb + to_write)
                    + s_b.current.subrange(s_b.pos + to_write, s_b.current.len() as int),
                keys: s_b.keys,
                offsets: s_b.offsets,
                room: s_b.room - to_write,
                pos: s_b.pos + to_write,
                max_size: s_b.max_size,
                closed: s_b.closed,
            };
            assert(self.state() == s1);
            if self.space_left_on_block <= 10 {
                let ghost f_before = self.blocks@;
                let ghost bg_before = self.blocks_generated as int;
                let ghost cur_f = self.current@;
                let ghost pos_f = self.block_writing_position as int;
                let ghost n_f = self.num_objects_on_page as int;
                let ghost offs_f = self.offsets@;
                assert(stream(f_before, bg_before) + cur_f.subrange(0, pos_f) == c0 + content@.subrange(0, written as int));
                assert(bg_before > 0 && block_empty(blk(f_before, bg_before - 1)) > 0 ==> n_f >= 1 && offs_f[0] == 0);
                self.write_table(self.space_left_on_block as u8);
                proof {
                    lemma_ends_whole_step(f_before, self.blocks@, bg_before);
                    assert(stream(self.blocks@, self.blocks_generated as int) == stream(f_before, bg_before) + cur_f.subrange(0, pos_f));
                    assert(stream(self.blocks@, self.blocks_generated as int) + self.current@.subrange(0, 0)
                        =~= stream(f_before, bg_before) + cur_f.subrange(0, pos_f));
                    assert(4096 * bg_start <= 4096 * bg_before);
                    assert(self.blocks@.len() >= 4096 * bg_before);
                    assert(self.current@.subrange(0, 0) =~= Seq::<u8>::empty());
                    assert(page_entries(self.keys@, self.offsets@, base(self.blocks@, self.blocks_generated as int))
                        =~= Seq::<(u64, int)>::empty());
                    assert(self.blocks@.subrange(0, 4096 * bg_before) == f_before);
                    assert(f_before.subrange(0, 4096 * bg_start) == f_start);
                    assert forall|k: int| 0 <= k < 4096 * bg_start implies #[trigger] self.blocks@[k] == f_start[k] by {
                        assert(self.blocks@[k] == self.blocks@.subrange(0, 4096 * bg_before)[k]);
                        assert(f_before[k] == f_before.subrange(0, 4096 * bg_start)[k]);
                    }
                    assert(self.blocks@.subrange(0, 4096 * bg_start) =~= f_start);
                    if o.len() == 0 {
                        assert(false);
                    }
                }
            }
            proof {
                if rem > sp_b {
                    lemma_fill_step(sp_b, rem as int);
                }
                let s2 = if s1.room <= 10 { close_state(s1, s1.room as u8) } else { s1 };
                assert(self.state() == s2);
                assert(fill_state(s_b, content@, wb) == if to_write <= 0 || wb + to_write >= content@.len() {
                    s2
                } else {
                    fill_state(s2, content@, wb + to_write)
                });
            }
            if written >= length {
                break;
            }
        }
        proof {
            assert(content@.subrange(0, written as int) =~= content@);
        }
    }

    /// Create a writer and reserve block 0 for the header.
    ///
    /// A dummy header object with key 0 is written first. Its bytes are patched
    /// on [`finish`](LinearObjectWriter::finish).
    pub fn new() -> (r: LinearObjectWriter)
        ensures
            r.wf(),
            r.objects() == Seq::<(u64, Seq<u8>)>::empty(),
            r.full_blocks() == 0,
            r.room() == 4027,
            r.state() == start_state(),
    {
        let mut writer = LinearObjectWriter {
            blocks: Vec::new(),
            current: vec![0u8; 4096],
            keys: Vec::new(),
            offsets: Vec::new(),
            num_objects_on_page: 0,
            space_left_on_block: 4093,
            block_writing_position: 0,
            max_size: 0,
            blocks_generated: 0,
            objs: Ghost(Seq::empty()),
        };
        proof {
            assert(writer.current@.subrange(0, 0) =~= Seq::<u8>::empty());
            assert(obj_starts(Seq::<(u64, Seq<u8>)>::empty()) =~= Seq::<(u64, int)>::empty());
            assert(page_entries(writer.keys@, writer.offsets@, 0) =~= Seq::<(u64, int)>::empty());
        }
        proof {
            assert(writer.current@ =~= Seq::new(4096, |i: int| 0u8));
            assert(writer.keys@ =~= Seq::<u64>::empty());
            assert(writer.offsets@ =~= Seq::<u16>::empty());
            assert(writer.blocks@ =~= Seq::<u8>::empty());
            assert(writer.state() == empty_state());
        }
        let dummy = vec![0u8; 56];
        proof {
            assert(dummy@ =~= header_placeholder().1);
        }
        writer.write_object(0, dummy.as_slice());
        proof {
            assert(writer.objs@[0].1 =~= header_placeholder().1);
            assert(writer.objs@.drop_first() =~= Seq::<(u64, Seq<u8>)>::empty());
        }
        writer
    }

    /// Append one object.
    ///
    /// The object may span several blocks. Its table entry lives on the block
    /// where it starts.
    pub fn write(&mut self, key: u64, content: &[u8])
        requires
            old(self).wf(),
        ensures
            final(self).wf(),
            final(self).objects() == old(self).objects().push((key, content@)),
            final(self).full_blocks() == old(self).full_blocks() + blocks_closed(old(self).room() - 10,
                content@.len() as int),
            final(self).room() == room_left(old(self).room() - 10, content@.len() as int),
            final(self).state() == put_state(old(self).state(), key, content@),
    {
        self.write_object(key, content);
        proof {
            let before = old(self).objs@.drop_first();
            assert(self.objs@.drop_first() =~= before.push((key, content@)));
            assert(before.push((key, content@)).drop_last() =~= before);
        }
    }


    /// Close the store and return the file bytes.
    ///
    /// When the current block still has room, a zero-length terminator object
    /// with key 0 marks the end of the last real object. Block 0's header is
    /// patched with the real block count, max size, and store type.
    #[verifier::rlimit(100)]
    pub fn finish(self, type_: u16) -> (out: Vec<u8>)
        requires
            self.wf(),
        ensures
            written_image(out@, type_, self.objects()),
            out@ == finish_image(self.state(), type_),
            out@ == store_image(self.objects(), type_),
            out@.len() == 4096 * (self.full_blocks() + 1),
            block_empty(blk(out@, self.full_blocks() as int)) == if self.room() > 128 {
                42
            } else {
                self.room()
            },
            (forall|j: int| 0 <= j < self.objects().len() ==> #[trigger] self.objects()[j].0 != 0)
                ==> stored_objects(out@, (out@.len() / 4096) as int) == self.objects(),
    {
        let mut w = self;
        let ghost s_in = w.state();
        let ghost o = w.objs@;
        let ghost user = o.drop_first();
        proof {
            assert(o =~= seq![header_placeholder()] + user);
            lemma_concat_first(o);
            if w.blocks_generated == 0 && o.len() == 1 {
                assert(o.take(1) =~= o);
                assert(stream(w.blocks@, 0) =~= Seq::<u8>::empty());
                assert(w.current@.subrange(0, w.block_writing_position as int) =~= concat_values(o));
            }
        }
        let ghost ofinal: Seq<(u64, Seq<u8>)>;
        if w.space_left_on_block <= 128 {
            let empty = w.space_left_on_block as u8;
            let ghost fa = w.blocks@;
            let ghost bga = w.blocks_generated as int;
            w.write_table(empty);
            proof {
                ofinal = o;
                assert forall|b: int| 0 <= b < bga implies #[trigger] block_empty(blk(w.blocks@, b)) <= 10 by {
                    assert(blk(w.blocks@, b) == blk(fa, b));
                }
                assert(flushed(w.blocks@, w.blocks_generated as int, false));
            }
        } else {
            let nothing: Vec<u8> = Vec::new();
            let ghost sb = w.blocks@;
            let ghost bgb = w.blocks_generated;
            let ghost nkb = w.keys@.len();
            proof {
                assert(key_pos(starts(sb, bgb as int)).len() + nkb == o.len()) by {
                    assert((key_pos(starts(sb, bgb as int)) + page_entries(w.keys@, w.offsets@, base(sb, bgb as int))).len()
                        == obj_starts(o).len());
                }
            }
            proof {
                assert(nothing@ =~= Seq::<u8>::empty());
            }
            w.write_object(0, nothing.as_slice());
            proof {
                assert(w.blocks_generated == bgb);
                assert(w.blocks@ =~= sb);
                assert((key_pos(starts(sb, bgb as int)) + page_entries(w.keys@, w.offsets@, base(sb, bgb as int))).len()
                    == obj_starts(o.push((0u64, nothing@))).len());
                assert(w.num_objects_on_page >= 1);
            }
            let ghost cur0 = w.current@;
            let ghost pos0 = w.block_writing_position as int;
            let ghost de = pos0 + w.space_left_on_block - 42;
            let ghost f0 = w.blocks@;
            let ghost bg0 = w.blocks_generated as int;
            let ghost n0 = w.num_objects_on_page as int;
            let ghost offs = w.offsets@;
            proof {
                let oo = o.push((0u64, nothing@));
                assert(obj_starts(oo)[oo.len() - 1] == (0u64, concat_values(oo.take(o.len() as int)).len() as int));
                assert(oo.take(o.len() as int) =~= o);
                assert(concat_values(oo) == concat_values(o) + nothing@) by {
                    lemma_obj_starts_push(o, (0u64, nothing@));
                }
                assert(concat_values(o) + nothing@ =~= concat_values(o));
                let kp = key_pos(starts(f0, bg0));
                let pe = page_entries(w.keys@, w.offsets@, base(f0, bg0));
                assert((kp + pe)[oo.len() - 1] == obj_starts(oo)[oo.len() - 1]);
                assert(kp.len() + pe.len() == oo.len());
                assert((kp + pe)[oo.len() - 1] == pe[n0 - 1]);
                assert(offs[n0 - 1] == pos0);
            }
            w.write_table(42);
            proof {
                let f1 = w.blocks@;
                assert forall|b: int| 0 <= b < bg0 implies #[trigger] block_empty(blk(f1, b)) <= 10 by {
                    assert(blk(f1, b) == blk(f0, b));
                }
                lemma_same_prefix(f0, f1, bg0);
                lemma_starts_index(f1, bg0 + 1, bg0, n0 - 1);
                assert(starts(f1, bg0 + 1)[starts(f0, bg0).len() + n0 - 1].1 == base(f0, bg0) + offs[n0 - 1]);
                assert(off_at(f1, bg0, n0 - 1) == pos0);
                assert(flushed(f1, bg0 + 1, true));
            }
            proof {
                let junk = cur0.subrange(pos0, de);
                ofinal = o.push((0u64, junk));
                assert(ofinal.drop_last() =~= o);
                assert(w.objs@.drop_last() =~= o);
                assert(w.max_size == max_len(o));
                lemma_terminated(o, nothing@, junk, cur0, pos0, de,
                    stream(f0, bg0), stream(w.blocks@, w.blocks_generated as int));
                assert(nobj(w.blocks@, bg0) >= 1);
            }
        }
        let ghost t = w.state();
        assert(t == if s_in.room <= 128 {
            close_state(s_in, s_in.room as u8)
        } else {
            close_state(put_state(s_in, 0, Seq::empty()), 42)
        });
        let ghost f = w.blocks@;
        let nb = w.blocks_generated;
        let meta = StoreMetadata {
            kind: type_,
            num_blocks: w.blocks_generated as u64,
            max_size: w.max_size as u64,
        };
        let img = meta.to_bytes();
        let mut i: usize = 0;
        while i < 56
            invariant
                i <= 56,
                img@ == metadata_image(meta),
                img@.len() == 56,
                f.len() >= 4096,
                w.blocks@ =~= img@.subrange(0, i as int) + f.subrange(i as int, f.len() as int),
            decreases 56 - i,
        {
            w.blocks.set(i, img[i]);
            i = i + 1;
        }
        let out = w.blocks;
        proof {
            let img_s = metadata_image(meta);
            lemma_metadata_roundtrip(meta);
            assert(out@ == img_s + f.subrange(56, f.len() as int));
            lemma_parse_metadata_prefix(out@);
            assert(out@.subrange(0, 56) =~= img_s);
            assert(out@.len() / 4096 == nb);
            lemma_finished_store(f, nb as int, o, ofinal, img_s);
            assert(max_len(o) == max_len(seq![header_placeholder()] + user));
            assert(out@ == finish_image(s_in, type_));
        }
        out
    }

    /// Flush the current block's table and start a fresh block.
    fn write_table(&mut self, empty_space: u8)
        requires
            old(self).page_ok(),
            empty_space as int <= old(self).space_left_on_block,
        ensures
            ({
                let f0 = old(self).blocks@;
                let bg0 = old(self).blocks_generated as int;
                let f = final(self).blocks@;
                let bg = final(self).blocks_generated as int;
                let de = old(self).block_writing_position + old(self).space_left_on_block - empty_space;
                &&& bg == bg0 + 1
                &&& f.len() == 4096 * bg
                &&& blocks_wf(f, bg)
                &&& f.subrange(0, 4096 * bg0) == f0
                &&& stream(f, bg) == stream(f0, bg0) + old(self).current@.subrange(0, de)
                &&& key_pos(starts(f, bg)) == key_pos(starts(f0, bg0)) + page_entries(
                    old(self).keys@, old(self).offsets@, base(f0, bg0))
                &&& starts(f, bg) == starts(f0, bg0) + Seq::new(
                    old(self).num_objects_on_page as nat,
                    |i: int| (old(self).keys@[i], base(f0, bg0) + old(self).offsets@[i] as int,
                        i + 1 == old(self).num_objects_on_page),
                )
                &&& nobj(f, bg0) == old(self).num_objects_on_page
                &&& forall|i: int| 0 <= i < old(self).num_objects_on_page ==> #[trigger] off_at(f, bg0, i)
                    == old(self).offsets@[i]
                &&& bg0 > 0 ==> nobj(f, 0) == nobj(f0, 0)
                &&& block_empty(blk(f, bg0)) == empty_space
                &&& forall|b: int| 0 <= b < bg0 ==> #[trigger] blk(f, b) == blk(f0, b)
            }),
            final(self).current@ == Seq::new(4096, |i: int| 0u8),
            final(self).keys@.len() == 0,
            final(self).offsets@.len() == 0,
            final(self).num_objects_on_page == 0,
            final(self).block_writing_position == 0,
            final(self).space_left_on_block == 4093,
            final(self).max_size == old(self).max_size,
            final(self).objs == old(self).objs,
            final(self).state() == close_state(old(self).state(), empty_space),
    {
        let ghost f0 = self.blocks@;
        let ghost bg0 = self.blocks_generated as int;
        let ghost cur0 = self.current@;
        let ghost pos = self.block_writing_position as int;
        let ghost n = self.num_objects_on_page as int;
        let ghost de = pos + self.space_left_on_block - empty_space;
        BlockStorage::write_table(
            self.current.as_mut_slice(),
            self.num_objects_on_page as u16,
            empty_space,
            self.keys.as_slice(),
            self.offsets.as_slice(),
        );
        let ghost cur = self.current@;
        proof {
            assert(holds_table(cur, n, empty_space, self.keys@, self.offsets@));
            assert(table_start_for(n) - empty_space == de);
            assert forall|i: int| 0 <= i < n implies #[trigger] block_offset(cur, i) == self.offsets@[i] by {}
            assert(block_wf(cur));
            assert(cur.subrange(0, de) =~= cur0.subrange(0, de));
            lemma_table_image(cur, cur0, empty_space, self.keys@, self.offsets@);
        }
        let mut page = vec![0u8; 4096];
        std::mem::swap(&mut page, &mut self.current);
        self.blocks.append(&mut page);
        proof {
            lemma_append_block(f0, bg0, cur);
            assert(self.blocks@ == f0 + cur);
            assert(self.blocks@.subrange(0, 4096 * bg0) =~= f0);
            let f = self.blocks@;
            assert(chunk(f, bg0) == cur.subrange(0, de));
            assert(nobj(f, bg0) == n);
            assert forall|i: int| 0 <= i < n implies #[trigger] key_at(f, bg0, i) == self.keys@[i]
                && off_at(f, bg0, i) == self.offsets@[i] as int by {
                assert(block_key(cur, i) == self.keys@[i]);
            }
            let ps = Seq::new(n as nat, |i: int| (key_at(f, bg0, i), base(f0, bg0) + off_at(f, bg0, i), i + 1 == nobj(f, bg0)));
            let ps2 = Seq::new(n as nat, |i: int| (self.keys@[i], base(f0, bg0) + self.offsets@[i] as int, i + 1 == n));
            assert(ps =~= ps2);
            assert(key_pos(starts(f, bg0 + 1)) =~= key_pos(starts(f0, bg0)) + page_entries(self.keys@, self.offsets@, base(f0, bg0)));
            if bg0 > 0 {
                assert(blk(f, 0) == blk(f0, 0));
            }
            assert(f0.subrange(0, 4096 * bg0) =~= f0);
            assert(f.subrange(0, 4096 * bg0) =~= f0);
            lemma_same_prefix(f0, f, bg0);
        }
        let _total = self.blocks.len();
        self.blocks_generated = self.blocks_generated + 1;
        self.keys.clear();
        self.offsets.clear();
        self.num_objects_on_page = 0;
        self.block_writing_position = 0;
        self.space_left_on_block = 4093;
        proof {
            assert(self.keys@ =~= Seq::<u64>::empty());
            assert(self.offsets@ =~= Seq::<u16>::empty());
            assert(self.blocks@ == old(self).blocks@ + with_table(old(self).current@, old(self).keys@,
                old(self).offsets@, empty_space));
            assert(self.current@ =~= Seq::new(4096, |i: int| 0u8));
            assert(self.state() == close_state(old(self).state(), empty_space));
        }
    }
}

impl Default for LinearObjectWriter {
    fn default() -> (r: Self)
        ensures
            r.wf(),
            r.objects() == Seq::<(u64, Seq<u8>)>::empty(),
            r.full_blocks() == 0,
            r.room() == 4027,
            r.state() == start_state(),
    {
        Self::new()
    }
}

} // verus!
