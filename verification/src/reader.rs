//! Sequential read-back of a store.
//!
//! [`LinearObjectReader`] walks every object in file order. It reconstructs
//! objects that span block boundaries by stitching their fragments and dropping
//! the table bytes in between. It is the round-trip oracle for the writer and
//! the source for [`crate::merge`].
use vstd::prelude::*;
use crate::block::BlockStorage;
use crate::config::{StoreMetadata, MetadataError, parse_metadata};
use crate::format::{blk, nobj, starts, decoded, objects_from, stored_objects, readable,
    next_nonempty, block_wf, blocks_wf, entry_value, append_range, dend, off_at, key_at, stream,
    lemma_starts_index, lemma_starts_step, lemma_objects_from_step, lemma_next_nonempty,
    lemma_starts_grow, lemma_stream_grows};
use crate::block::block_count;
use crate::le::read_le16;
use crate::correctness::{lemma_entry_block, lemma_entry_pos, lemma_pos_ordered};
use crate::writer::{written_image, lemma_written_stored};

verus! {

/// One object: a key and its value bytes.
#[derive(Debug, Clone, PartialEq, Eq)]
pub struct Object {
    /// The object's 64-bit key.
    pub key: u64,
    /// The object's value bytes.
    pub value: Vec<u8>,
}

impl Object {
    /// The value bytes.
    pub fn as_ref(&self) -> (r: &[u8])
        ensures
            r@ == self.value@,
    {
        self.value.as_slice()
    }
}

/// Keys and value bytes of `objs`.
pub open spec fn objects_view(objs: Seq<Object>) -> Seq<(u64, Seq<u8>)> {
    objs.map_values(|o: Object| (o.key, o.value@))
}

/// What reading `data` needs: where the header is readable, the blocks it
/// declares are present and laid out consistently, and block 0 holds an
/// object after the header.
pub open spec fn reader_ready(data: Seq<u8>) -> bool {
    match parse_metadata(data) {
        Ok(m) => readable(data, m.num_blocks as int) && m.num_blocks <= usize::MAX,
        Err(_) => true,
    }
}

/// The block where an object that ends block `cb` finishes, among `n`
/// blocks: the next block with entries, or the last block when none has.
pub open spec fn reach_of(d: Seq<u8>, cb: int, n: int) -> int {
    let t = next_nonempty(d, cb + 1, n);
    if t < n {
        t
    } else {
        n - 1
    }
}

/// The last block opening a reader reads: block 0 when the first object
/// after the header has another entry after it there, else the block where
/// that object ends.
pub open spec fn first_reach(d: Seq<u8>, nb: int) -> int {
    if nobj(d, 0) >= 3 {
        0
    } else {
        reach_of(d, 0, nb)
    }
}

/// What opening a reader on `data` reads is there and laid out consistently:
/// with a readable header, block 0 with the header entry and one more, and,
/// when that entry is a real object ending block 0, the blocks up to where
/// it ends (so at least one block must be declared).
pub open spec fn reader_opens(data: Seq<u8>) -> bool {
    match parse_metadata(data) {
        Ok(m) => {
            &&& m.num_blocks <= usize::MAX
            &&& data.len() >= 4096
            &&& block_wf(blk(data, 0))
            &&& nobj(data, 0) >= 2
            &&& nobj(data, 0) == 2 && key_at(data, 0, 1) != 0 ==> m.num_blocks >= 1 && blocks_wf(
                data,
                reach_of(data, 0, m.num_blocks as int) + 1,
            )
        },
        Err(_) => true,
    }
}

/// A store that can be read through can be opened.
pub proof fn lemma_ready_opens(data: Seq<u8>)
    requires
        reader_ready(data),
    ensures
        reader_opens(data),
{
    match parse_metadata(data) {
        Ok(m) => {
            let nb = m.num_blocks as int;
            lemma_next_nonempty(data, 1, nb);
            assert(block_wf(blk(data, 0)));
        },
        Err(_) => {},
    }
}

/// Skipping blocks without entries does not change where the next block with
/// entries is.
proof fn lemma_next_skip(d: Seq<u8>, a: int, c: int, n: int)
    requires
        a <= c <= n,
        forall|u: int| a <= u < c ==> nobj(d, u) <= 0,
    ensures
        next_nonempty(d, a, n) == next_nonempty(d, c, n),
    decreases c - a,
{
    if a < c {
        assert(nobj(d, a) <= 0);
        lemma_next_skip(d, a + 1, c, n);
    }
}

/// An entry followed by another within the first `c` blocks decodes the same
/// there as in any longer run of blocks.
proof fn lemma_decoded_prefix(d: Seq<u8>, c: int, k: int, g: int)
    requires
        1 <= c <= k,
        blocks_wf(d, c),
        0 <= g,
        g + 1 < starts(d, c).len(),
    ensures
        g + 1 < starts(d, k).len(),
        decoded(d, c)[g] == decoded(d, k)[g],
{
    lemma_starts_grow(d, c, k);
    lemma_stream_grows(d, c, k);
    let sc = starts(d, c);
    let sk = starts(d, k);
    assert(sk[g] == sc[g]);
    assert(sk[g + 1] == sc[g + 1]);
    lemma_pos_ordered(d, c, g, g + 1);
    let b1 = lemma_entry_block(d, c, g);
    lemma_entry_pos(d, c, g, b1);
    let b = lemma_entry_block(d, c, g + 1);
    lemma_entry_pos(d, c, g + 1, b);
    lemma_stream_grows(d, b + 1, c);
    lemma_stream_grows(d, 0, b1);
    let s_c = stream(d, c);
    let s_k = stream(d, k);
    assert(s_c.subrange(sc[g].1, sc[g + 1].1) =~= s_k.subrange(sc[g].1, sc[g + 1].1));
}

/// Reading a written store whose objects have nonzero keys gives back the
/// objects written, in order.
pub proof fn lemma_read_written(d: Seq<u8>, kind: u16, objs: Seq<(u64, Seq<u8>)>)
    requires
        written_image(d, kind, objs),
        forall|j: int| 0 <= j < objs.len() ==> #[trigger] objs[j].0 != 0,
        d.len() <= usize::MAX,
    ensures
        reader_ready(d),
        stored_objects(d, (d.len() / 4096) as int) == objs,
{
    lemma_written_stored(d, kind, objs);
}

/// Blocks `c .. t` without entries leave the table where it was.
pub proof fn lemma_starts_skip(data: Seq<u8>, c: int, t: int)
    requires
        0 <= c <= t,
        forall|u: int| c <= u < t ==> nobj(data, u) <= 0,
    ensures
        starts(data, t).len() == starts(data, c).len(),
    decreases t - c,
{
    if c < t {
        lemma_starts_skip(data, c, t - 1);
        lemma_starts_step(data, t - 1);
    }
}

/// Reads objects from a store held in memory.
///
/// After construction the reader is positioned on the first real object. Read
/// [`current_key`](Self::current_key) and [`current_value`](Self::current_value),
/// then call [`advance`](Self::advance) to move on. Check
/// [`has_current`](Self::has_current) before reading.
pub struct LinearObjectReader<'a> {
    data: &'a [u8],
    num_blocks: usize,
    current_block: usize,
    block: BlockStorage,
    current_element: usize,
    completed: bool,
    current_key: u64,
    current_value: Vec<u8>,
    /// Position in the table of the entry the reader holds.
    pos: Ghost<int>,
}

impl<'a> LinearObjectReader<'a> {
    /// The bytes being read.
    pub closed spec fn source(&self) -> Seq<u8> {
        self.data@
    }

    /// The block count the header declares.
    pub closed spec fn declared_blocks(&self) -> nat {
        self.num_blocks as nat
    }

    /// The key and value the reader holds.
    pub closed spec fn current(&self) -> (u64, Seq<u8>) {
        (self.current_key, self.current_value@)
    }

    /// The objects still to be read, the one held first.
    pub closed spec fn remaining(&self) -> Seq<(u64, Seq<u8>)> {
        if self.completed {
            Seq::empty()
        } else {
            objects_from(self.data@, self.num_blocks as int, self.pos@)
        }
    }

    /// The entry after the held one is the next one the block walk reaches.
    closed spec fn positioned(&self) -> bool {
        let d = self.data@;
        let nb = self.num_blocks as int;
        let cb = self.current_block as int;
        let next = if self.current_element == usize::MAX { 0 } else { self.current_element + 1 };
        if self.current_block == usize::MAX {
            self.pos@ + 1 == starts(d, nb).len()
        } else {
            &&& 0 <= cb < nb
            &&& self.block.parsed_from(blk(d, cb))
            &&& next < nobj(d, cb)
            &&& starts(d, cb).len() + next == self.pos@ + 1
        }
    }

    /// The reader's invariant.
    pub closed spec fn wf(&self) -> bool {
        let d = self.data@;
        let nb = self.num_blocks as int;
        let ss = starts(d, nb);
        &&& readable(d, nb)
        &&& !self.completed ==> {
            &&& self.positioned()
            &&& 0 <= self.pos@ < ss.len()
            &&& !(ss[self.pos@].0 == 0 && ss[self.pos@].2)
            &&& decoded(d, nb)[self.pos@] == (self.current_key, self.current_value@)
        }
    }

    /// Open a reader over a store's bytes.
    ///
    /// Reads the header, loads block 0, and skips the pseudo header object so
    /// the reader lands on the first real object. Returns an error when the
    /// metadata is invalid. Only the header, block 0 and the blocks the first
    /// object runs into are read here; reading on needs every declared block.
    pub fn new(data: &'a [u8]) -> (r: Result<LinearObjectReader<'a>, MetadataError>)
        requires
            reader_opens(data@),
        ensures
            match parse_metadata(data@) {
                Err(e) => r == Err::<LinearObjectReader<'a>, MetadataError>(e),
                Ok(m) => {
                    &&& r is Ok
                    &&& r->Ok_0.source() == data@
                    &&& r->Ok_0.declared_blocks() == m.num_blocks
                    &&& readable(data@, m.num_blocks as int) ==> r->Ok_0.wf() && r->Ok_0.remaining()
                        == stored_objects(data@, m.num_blocks as int)
                    &&& !(nobj(data@, 0) == 2 && key_at(data@, 0, 1) == 0) ==> r->Ok_0.current() == decoded(
                        data@,
                        first_reach(data@, m.num_blocks as int) + 1,
                    )[1]
                },
            },
    {
        let metadata = match StoreMetadata::from_bytes(data) {
            Ok(m) => m,
            Err(e) => {
                return Err(e);
            },
        };
        let ghost d = data@;
        let num_blocks = metadata.num_blocks as usize;
        let ghost nb = num_blocks as int;
        let first = vstd::slice::slice_subrange(data, 0, 4096);
        proof {
            assert(blk(d, 0) =~= first@);
            assert(block_wf(blk(d, 0)));
        }
        let block = BlockStorage::parse(first);
        let n0 = block.num_objects as usize;
        let mut nbx: usize = 1;
        proof {
            assert(blocks_wf(d, 1));
        }
        if n0 == 2 && block.keys[1] != 0 && num_blocks > 1 {
            let ghost reach = reach_of(d, 0, nb);
            proof {
                lemma_next_nonempty(d, 1, nb);
                assert(blocks_wf(d, reach + 1));
            }
            let dlen = data.len();
            let mut c: usize = 1;
            loop
                invariant
                    dlen == d.len(),
                    nb == num_blocks,
                    nb >= 2,
                    d == data@,
                    reach == reach_of(d, 0, nb),
                    blocks_wf(d, reach + 1),
                    1 <= c <= nb - 1,
                    c <= reach,
                    forall|u: int| 1 <= u < c ==> nobj(d, u) <= 0,
                ensures
                    1 <= c <= reach,
                    forall|u: int| 1 <= u < c ==> nobj(d, u) <= 0,
                    c == nb - 1 || nobj(d, c as int) > 0,
                decreases nb - c,
            {
                if c == num_blocks - 1 {
                    break;
                }
                proof {
                    assert(4096 * (reach + 1) <= d.len());
                    assert(4096 * c + 4096 <= 4096 * (reach + 1));
                    assert(blk(d, c as int).subrange(4094, 4096) =~= d.subrange(4096 * c + 4094, 4096 * c + 4096));
                }
                let count = read_le16(data, c * 4096 + 4094);
                if count != 0 {
                    break;
                }
                proof {
                    lemma_next_skip(d, 1, c + 1, nb);
                    lemma_next_nonempty(d, c + 1, nb);
                }
                c = c + 1;
            }
            proof {
                lemma_next_skip(d, 1, c as int, c + 1);
                lemma_next_skip(d, 1, c as int, nb);
                lemma_next_nonempty(d, c as int, nb);
                assert(reach_of(d, 0, c + 1) == c);
                assert(reach_of(d, 0, nb) == c);
            }
            nbx = c + 1;
        }
        let mut reader = LinearObjectReader {
            data,
            num_blocks,
            current_block: 0,
            block,
            current_element: 0,
            completed: false,
            current_key: 0,
            current_value: Vec::new(),
            pos: Ghost(0),
        };
        proof {
            assert(starts(d, 0) =~= Seq::<(u64, int, bool)>::empty());
            assert(nbx == first_reach(d, nb) + 1 || (n0 == 2 && key_at(d, 0, 1) == 0));
        }
        reader.step(nbx);
        Ok(reader)
    }

    /// Key of the object currently positioned.
    pub fn current_key(&self) -> (r: u64)
        ensures
            r == self.current().0,
    {
        self.current_key
    }

    /// Value of the object currently positioned.
    pub fn current_value(&self) -> (r: &[u8])
        ensures
            r@ == self.current().1,
    {
        self.current_value.as_slice()
    }

    /// True while a real object is positioned and not yet consumed.
    pub fn has_current(&self) -> (r: bool)
        requires
            self.wf(),
        ensures
            r == (self.remaining().len() > 0),
            r ==> self.remaining()[0] == self.current(),
    {
        proof {
            if !self.completed {
                lemma_objects_from_step(self.data@, self.num_blocks as int, self.pos@);
            }
        }
        !self.completed
    }

    /// Which entry of the held block the next step reads.
    closed spec fn next_entry(&self) -> int {
        if self.current_element == usize::MAX { 0 } else { self.current_element + 1 }
    }

    /// The next entry is a real object that ends its block, so its bytes may
    /// go on in later blocks.
    closed spec fn next_ends_block(&self) -> bool {
        let d = self.data@;
        let cb = self.current_block as int;
        self.next_entry() + 1 == nobj(d, cb) && key_at(d, cb, self.next_entry()) != 0
    }

    /// The next entry is the terminator: key 0, ending its block.
    closed spec fn next_stops(&self) -> bool {
        let d = self.data@;
        let cb = self.current_block as int;
        self.next_entry() + 1 == nobj(d, cb) && key_at(d, cb, self.next_entry()) == 0
    }

    /// Read the entry after the held one. Only the first `nbx` blocks are
    /// read: the held block, and the blocks up to where the entry ends.
    #[verifier::rlimit(80)]
    fn step(&mut self, nbx: usize)
        requires
            blocks_wf(old(self).data@, nbx as int),
            old(self).current_block < nbx,
            old(self).block.parsed_from(blk(old(self).data@, old(self).current_block as int)),
            old(self).next_entry() < nobj(old(self).data@, old(self).current_block as int),
            starts(old(self).data@, old(self).current_block as int).len() + old(self).next_entry()
                == old(self).pos@ + 1,
            !old(self).completed,
            0 <= old(self).pos@,
            old(self).next_ends_block() ==> old(self).num_blocks >= 1 && nbx <= old(self).num_blocks && reach_of(
                old(self).data@,
                old(self).current_block as int,
                nbx as int,
            ) == reach_of(old(self).data@, old(self).current_block as int, old(self).num_blocks as int),
        ensures
            final(self).data == old(self).data,
            final(self).num_blocks == old(self).num_blocks,
            readable(old(self).data@, old(self).num_blocks as int) && nbx <= old(self).num_blocks ==> {
                &&& final(self).wf()
                &&& final(self).remaining() == objects_from(old(self).data@, old(self).num_blocks as int,
                    old(self).pos@ + 1)
            },
            !old(self).next_stops() ==> final(self).current() == decoded(old(self).data@, nbx as int)[old(self).pos@
                + 1],
    {
        let ghost d = self.data@;
        let ghost nb = self.num_blocks as int;
        let ghost nx = nbx as int;
        let ghost g = self.pos@ + 1;
        let ghost full = readable(d, nb) && nx <= nb;
        let cb = self.current_block;
        let dlen = self.data.len();
        proof {
            assert(4096 * nx <= dlen);
            assert(block_wf(blk(d, cb as int)));
        }
        let elem = if self.current_element == usize::MAX { 0 } else { self.current_element + 1 };
        self.current_element = elem;
        let n = self.block.num_objects as usize;
        let key = self.block.keys[elem];
        self.current_key = key;
        proof {
            lemma_starts_index(d, nx, cb as int, elem as int);
            if full {
                lemma_starts_index(d, nb, cb as int, elem as int);
                assert(starts(d, nb)[g] == (key, starts(d, nb)[g].1, elem + 1 == n));
                assert(decoded(d, nb)[g].0 == key);
            }
        }
        if elem + 1 < n {
            let (value, _) = entry_value(self.data, nbx, cb, elem, &self.block);
            self.current_value = value;
            self.pos = Ghost(g);
            proof {
                lemma_starts_index(d, nx, cb as int, elem + 1);
                if full {
                    lemma_decoded_prefix(d, nx, nb, g);
                    lemma_objects_from_step(d, nb, g);
                }
            }
            return;
        }
        if key == 0 {
            let start = self.block.offsets[elem] as usize;
            let de = self.block.table_start - self.block.empty_page_end as usize;
            proof {
                assert(off_at(d, cb as int, elem as int) <= dend(d, cb as int));
                assert(4096 * cb + 4096 <= d.len());
            }
            let base = cb * 4096;
            let mut value: Vec<u8> = Vec::new();
            append_range(&mut value, self.data, base + start, base + de);
            self.current_value = value;
            self.completed = true;
            return;
        }
        if cb == self.num_blocks - 1 {
            let (value, _) = entry_value(self.data, nbx, cb, elem, &self.block);
            self.current_block = usize::MAX;
            self.current_value = value;
            self.pos = Ghost(g);
            proof {
                if full {
                    assert(nx == nb);
                    let ss = starts(d, nb);
                    lemma_starts_step(d, cb as int);
                    assert(g + 1 == ss.len());
                    lemma_objects_from_step(d, nb, g);
                }
            }
            return;
        }
        proof {
            lemma_next_nonempty(d, cb + 1, nx);
            lemma_next_nonempty(d, cb + 1, nb);
        }
        let (value, next) = entry_value(self.data, nbx, cb, elem, &self.block);
        proof {
            assert(next == reach_of(d, cb as int, nx));
            assert(next == reach_of(d, cb as int, nb));
        }
        let next_start = next * 4096;
        let bytes = vstd::slice::slice_subrange(self.data, next_start, next_start + 4096);
        proof {
            assert(blk(d, next as int) =~= bytes@);
            assert(block_wf(blk(d, next as int)));
            lemma_starts_step(d, cb as int);
        }
        let next_block = BlockStorage::parse(bytes);
        self.current_value = value;
        self.pos = Ghost(g);
        proof {
            if full {
                if next_nonempty(d, cb + 1, nb) < nb {
                    let t = next as int;
                    assert(nobj(d, t) > 0);
                    lemma_starts_grow(d, cb + 1, t);
                    lemma_starts_step(d, t);
                    lemma_starts_grow(d, t + 1, nx);
                    lemma_decoded_prefix(d, nx, nb, g);
                } else {
                    assert(nx == nb);
                }
            }
        }
        if next_block.num_objects == 0 {
            // No later block holds an entry: the object just read is the last.
            self.current_block = usize::MAX;
            proof {
                if full {
                    let ss = starts(d, nb);
                    assert(next_nonempty(d, cb + 1, nb) >= nb);
                    lemma_starts_skip(d, cb + 1, nb);
                    assert(g + 1 == ss.len());
                    lemma_objects_from_step(d, nb, g);
                }
            }
            return;
        }
        proof {
            if full {
                lemma_starts_skip(d, cb + 1, next as int);
            }
        }
        self.block = next_block;
        self.current_block = next;
        self.current_element = usize::MAX;
        proof {
            if full {
                lemma_objects_from_step(d, nb, g);
            }
        }
    }

    /// Advance to the next object.
    ///
    /// Reconstructs across blocks when the current object is the block's last
    /// object and its data overlaps into following blocks. Marks the reader
    /// completed on the terminator or after the final object.
    pub fn advance(&mut self)
        requires
            old(self).wf(),
        ensures
            final(self).wf(),
            final(self).source() == old(self).source(),
            final(self).remaining() == if old(self).remaining().len() > 0 {
                old(self).remaining().drop_first()
            } else {
                Seq::empty()
            },
            old(self).remaining().len() == 0 ==> final(self).current() == old(self).current(),
    {
        if self.completed || self.current_block == usize::MAX {
            proof {
                if !self.completed {
                    lemma_objects_from_step(self.data@, self.num_blocks as int, self.pos@);
                    assert(objects_from(self.data@, self.num_blocks as int, self.pos@ + 1)
                        =~= Seq::<(u64, Seq<u8>)>::empty());
                }
            }
            self.completed = true;
            return;
        }
        proof {
            lemma_objects_from_step(self.data@, self.num_blocks as int, self.pos@);
        }
        self.step(self.num_blocks);
    }

    /// Collect every object in file order.
    pub fn read_all(self) -> (r: Vec<Object>)
        requires
            self.wf(),
        ensures
            objects_view(r@) == self.remaining(),
    {
        let mut reader = self;
        let ghost all = reader.remaining();
        let mut out: Vec<Object> = Vec::new();
        while reader.has_current()
            invariant
                reader.wf(),
                objects_view(out@) + reader.remaining() == all,
            decreases reader.remaining().len(),
        {
            let value = vstd::slice::slice_to_vec(reader.current_value.as_slice());
            let ghost before = out@;
            out.push(Object { key: reader.current_key, value });
            proof {
                assert(objects_view(out@) =~= objects_view(before).push(reader.remaining()[0]));
                assert(objects_view(before).push(reader.remaining()[0]) + reader.remaining().drop_first()
                    =~= objects_view(before) + reader.remaining());
            }
            reader.advance();
        }
        proof {
            assert(objects_view(out@) + Seq::<(u64, Seq<u8>)>::empty() =~= objects_view(out@));
        }
        out
    }
}

} // verus!
