//! Reading and writing the trailing table of a 4096-byte block.
//!
//! A block stores object data from byte 0 forward. The last bytes hold a table
//! that grows backward:
//!
//! ```text
//! [ object data .......... free ... | keys | offsets | emptyPageEnd | numObjects ]
//!   0                                                          4093       4094..4095
//! ```
//!
//! `keys` is `num_objects` little-endian `u64` values. `offsets` follows as
//! `num_objects` little-endian `u16` values. The last three bytes are the
//! 1-byte empty-page marker and the 2-byte object count.
use vstd::prelude::*;
use vstd::bytes::{spec_u16_to_le_bytes, spec_u64_to_le_bytes};
use crate::le::{le16, le64, splice, read_le16, read_le64, put_le16, put_le64, lemma_read_spliced16,
    lemma_read_spliced64, lemma_splice_frame, lemma_same_bytes16, lemma_same_bytes64};

verus! {

/// The object count a block image records.
pub open spec fn block_count(b: Seq<u8>) -> int {
    le16(b, 4094) as int
}

/// The empty-page marker a block image records.
pub open spec fn block_empty(b: Seq<u8>) -> int {
    b[4093] as int
}

/// Byte offset where a table of `n` entries begins.
pub open spec fn table_start_for(n: int) -> int {
    4093 - 10 * n
}

/// Key `i` of the table of a block image.
pub open spec fn block_key(b: Seq<u8>, i: int) -> u64 {
    le64(b, table_start_for(block_count(b)) + 8 * i)
}

/// Offset `i` of the table of a block image.
pub open spec fn block_offset(b: Seq<u8>, i: int) -> u16 {
    le16(b, table_start_for(block_count(b)) + 8 * block_count(b) + 2 * i)
}

/// A block image whose table fits in the block.
pub open spec fn block_readable(b: Seq<u8>) -> bool {
    b.len() >= 4096 && block_count(b) <= 409
}

/// A parsed view of one 4096-byte block.
///
/// `offsets[i]` is the start byte of object `i` in the block for the PaCHash
/// table convention.
#[derive(Debug, Clone)]
pub struct BlockStorage {
    /// Number of objects whose table entry lives on this block.
    pub num_objects: u16,
    /// Unused tail bytes at the end of the data region for the last object.
    pub empty_page_end: u8,
    /// Byte offset where the table begins.
    pub table_start: usize,
    /// Start byte of each object in the block, in table order.
    pub offsets: Vec<u16>,
    /// Key of each object, in table order.
    pub keys: Vec<u64>,
}

impl BlockStorage {
    /// `self` holds the table of the block image `b`.
    pub open spec fn parsed_from(&self, b: Seq<u8>) -> bool {
        let n = block_count(b);
        &&& self.num_objects == n
        &&& self.empty_page_end == b[4093]
        &&& self.table_start == table_start_for(n)
        &&& self.keys@ == Seq::new(n as nat, |i: int| block_key(b, i))
        &&& self.offsets@ == Seq::new(n as nat, |i: int| block_offset(b, i))
    }

    /// Parse a block from a 4096-byte slice.
    pub fn parse(data: &[u8]) -> (r: BlockStorage)
        requires
            block_readable(data@),
        ensures
            r.parsed_from(data@),
    {
        let num_objects = read_le16(data, 4094);
        let empty_page_end = data[4093];
        let n = num_objects as usize;
        let table_start = 4093 - n * 10;
        let mut keys: Vec<u64> = Vec::with_capacity(n);
        let mut i: usize = 0;
        while i < n
            invariant
                n == block_count(data@),
                n <= 409,
                table_start == table_start_for(n as int),
                data@.len() >= 4096,
                i <= n,
                keys@ == Seq::new(i as nat, |j: int| block_key(data@, j)),
            decreases n - i,
        {
            let base = table_start + i * 8;
            keys.push(read_le64(data, base));
            i = i + 1;
        }
        let offsets_base = table_start + n * 8;
        let mut offsets: Vec<u16> = Vec::with_capacity(n);
        let mut i: usize = 0;
        while i < n
            invariant
                n == block_count(data@),
                n <= 409,
                table_start == table_start_for(n as int),
                offsets_base == table_start + 8 * n,
                data@.len() >= 4096,
                i <= n,
                offsets@ == Seq::new(i as nat, |j: int| block_offset(data@, j)),
            decreases n - i,
        {
            let base = offsets_base + i * 2;
            offsets.push(read_le16(data, base));
            i = i + 1;
        }
        BlockStorage { num_objects, empty_page_end, table_start, offsets, keys }
    }
}

/// The block image `b` holds a table of `n` entries with marker `e`.
pub open spec fn holds_table(b: Seq<u8>, n: int, e: u8, keys: Seq<u64>, offsets: Seq<u16>) -> bool {
    &&& block_count(b) == n
    &&& b[4093] == e
    &&& forall|i: int| 0 <= i < n ==> #[trigger] block_key(b, i) == keys[i]
    &&& forall|i: int| 0 <= i < n ==> #[trigger] block_offset(b, i) == offsets[i]
}

/// The little-endian bytes of `keys`, one after the other.
pub open spec fn key_bytes(keys: Seq<u64>) -> Seq<u8>
    decreases keys.len(),
{
    if keys.len() == 0 {
        Seq::empty()
    } else {
        key_bytes(keys.drop_last()) + spec_u64_to_le_bytes(keys.last())
    }
}

/// The little-endian bytes of `offsets`, one after the other.
pub open spec fn offset_bytes(offsets: Seq<u16>) -> Seq<u8>
    decreases offsets.len(),
{
    if offsets.len() == 0 {
        Seq::empty()
    } else {
        offset_bytes(offsets.drop_last()) + spec_u16_to_le_bytes(offsets.last())
    }
}

/// The trailer of a block: the keys, the offsets, the empty-page marker `e`
/// and the entry count.
pub open spec fn table_bytes(keys: Seq<u64>, offsets: Seq<u16>, e: u8) -> Seq<u8> {
    key_bytes(keys) + offset_bytes(offsets) + seq![e] + spec_u16_to_le_bytes(keys.len() as u16)
}

/// The 4096-byte block `cur` with the table of `keys`, `offsets` and marker
/// `e` written over its last bytes.
pub open spec fn with_table(cur: Seq<u8>, keys: Seq<u64>, offsets: Seq<u16>, e: u8) -> Seq<u8> {
    cur.subrange(0, table_start_for(keys.len() as int)) + table_bytes(keys, offsets, e)
}

/// Bytes that decode to `keys`, one field after another, are their encoding.
proof fn lemma_key_region(b: Seq<u8>, at: int, keys: Seq<u64>)
    requires
        0 <= at,
        at + 8 * keys.len() <= b.len(),
        forall|j: int| 0 <= j < keys.len() ==> #[trigger] le64(b, at + 8 * j) == keys[j],
    ensures
        b.subrange(at, at + 8 * keys.len()) == key_bytes(keys),
    decreases keys.len(),
{
    if keys.len() > 0 {
        let k = keys.len() - 1;
        let front = keys.drop_last();
        assert forall|j: int| 0 <= j < front.len() implies #[trigger] le64(b, at + 8 * j) == front[j] by {
            assert(le64(b, at + 8 * j) == keys[j]);
        }
        lemma_key_region(b, at, front);
        vstd::bytes::lemma_auto_spec_u64_to_from_le_bytes();
        assert(le64(b, at + 8 * k) == keys[k]);
        assert(b.subrange(at + 8 * k, at + 8 * k + 8) == spec_u64_to_le_bytes(keys[k]));
        assert(b.subrange(at, at + 8 * keys.len()) =~= b.subrange(at, at + 8 * k) + b.subrange(at + 8 * k, at
            + 8 * k + 8));
    }
}

/// Bytes that decode to `offsets`, one field after another, are their
/// encoding.
proof fn lemma_offset_region(b: Seq<u8>, at: int, offsets: Seq<u16>)
    requires
        0 <= at,
        at + 2 * offsets.len() <= b.len(),
        forall|j: int| 0 <= j < offsets.len() ==> #[trigger] le16(b, at + 2 * j) == offsets[j],
    ensures
        b.subrange(at, at + 2 * offsets.len()) == offset_bytes(offsets),
    decreases offsets.len(),
{
    if offsets.len() > 0 {
        let k = offsets.len() - 1;
        let front = offsets.drop_last();
        assert forall|j: int| 0 <= j < front.len() implies #[trigger] le16(b, at + 2 * j) == front[j] by {
            assert(le16(b, at + 2 * j) == offsets[j]);
        }
        lemma_offset_region(b, at, front);
        vstd::bytes::lemma_auto_spec_u16_to_from_le_bytes();
        assert(le16(b, at + 2 * k) == offsets[k]);
        assert(b.subrange(at + 2 * k, at + 2 * k + 2) == spec_u16_to_le_bytes(offsets[k]));
        assert(b.subrange(at, at + 2 * offsets.len()) =~= b.subrange(at, at + 2 * k) + b.subrange(at + 2 * k,
            at + 2 * k + 2));
    }
}

/// A 4096-byte block holding a table, and equal to `cur` before it, is `cur`
/// with that table written.
pub proof fn lemma_table_image(b: Seq<u8>, cur: Seq<u8>, e: u8, keys: Seq<u64>, offsets: Seq<u16>)
    requires
        b.len() == 4096,
        cur.len() == 4096,
        keys.len() == offsets.len(),
        keys.len() <= 409,
        holds_table(b, keys.len() as int, e, keys, offsets),
        forall|p: int| 0 <= p < table_start_for(keys.len() as int) ==> #[trigger] b[p] == cur[p],
    ensures
        b == with_table(cur, keys, offsets, e),
{
    let n = keys.len() as int;
    let ts = table_start_for(n);
    assert forall|j: int| 0 <= j < n implies #[trigger] le64(b, ts + 8 * j) == keys[j] by {
        assert(block_key(b, j) == keys[j]);
    }
    assert forall|j: int| 0 <= j < n implies #[trigger] le16(b, ts + 8 * n + 2 * j) == offsets[j] by {
        assert(block_offset(b, j) == offsets[j]);
    }
    lemma_key_region(b, ts, keys);
    lemma_offset_region(b, ts + 8 * n, offsets);
    vstd::bytes::lemma_auto_spec_u16_to_from_le_bytes();
    assert(le16(b, 4094) == n as u16);
    assert(b.subrange(4094, 4096) == spec_u16_to_le_bytes(n as u16));
    assert(b.subrange(0, ts) =~= cur.subrange(0, ts));
    assert(b =~= b.subrange(0, ts) + b.subrange(ts, ts + 8 * n) + b.subrange(ts + 8 * n, ts + 10 * n)
        + seq![b[4093]] + b.subrange(4094, 4096));
}

impl BlockStorage {
    /// Write the trailer of a block into `data`.
    ///
    /// Stores `num_objects`, `empty_page_end`, and the `keys` and `offsets`
    /// tables. The object data must already be in place. Bytes before the
    /// table and after the block are left alone.
    pub fn write_table(
        data: &mut [u8],
        num_objects: u16,
        empty_page_end: u8,
        keys: &[u64],
        offsets: &[u16],
    )
        requires
            old(data)@.len() >= 4096,
            num_objects <= 409,
            keys@.len() == num_objects,
            offsets@.len() == num_objects,
        ensures
            final(data)@.len() == old(data)@.len(),
            holds_table(final(data)@, num_objects as int, empty_page_end, keys@, offsets@),
            forall|p: int| 0 <= p < old(data)@.len() && (p < table_start_for(num_objects as int) || p >= 4096)
                ==> #[trigger] final(data)@[p] == old(data)@[p],
            old(data)@.len() == 4096 ==> final(data)@ == with_table(old(data)@, keys@, offsets@, empty_page_end),
    {
        let ghost orig = data@;
        let n = num_objects as usize;
        let ts = 4093 - n * 10;
        let ghost len = orig.len();
        proof {
            vstd::bytes::lemma_auto_spec_u16_to_from_le_bytes();
            vstd::bytes::lemma_auto_spec_u64_to_from_le_bytes();
        }
        proof { lemma_splice_frame(data@, 4094, spec_u16_to_le_bytes(num_objects)); }
        put_le16(data, 4094, num_objects);
        proof { lemma_read_spliced16(orig, 4094, num_objects); }
        data[4093] = empty_page_end;
        let ghost after_head = data@;
        proof {
            lemma_same_bytes16(after_head, splice(orig, 4094, spec_u16_to_le_bytes(num_objects)), 4094);
        }
        let mut i: usize = 0;
        while i < n
            invariant
                n == num_objects,
                n <= 409,
                ts == table_start_for(n as int),
                keys@.len() == n,
                i <= n,
                data@.len() == len,
                orig.len() == len,
                len >= 4096,
                le16(data@, 4094) == num_objects,
                data@[4093] == empty_page_end,
                forall|j: int| 0 <= j < i ==> #[trigger] le64(data@, ts + 8 * j) == keys@[j],
                forall|p: int| 0 <= p < len && (p < ts || p >= 4096) ==> #[trigger] data@[p] == orig[p],
            decreases n - i,
        {
            let base = ts + i * 8;
            let ghost before = data@;
            proof { vstd::bytes::lemma_auto_spec_u64_to_from_le_bytes(); }
            proof { lemma_splice_frame(before, base as int, spec_u64_to_le_bytes(keys@[i as int])); }
            put_le64(data, base, keys[i]);
            proof {
                lemma_read_spliced64(before, base as int, keys@[i as int]);
                lemma_same_bytes16(data@, before, 4094);
                assert forall|j: int| 0 <= j < i + 1 implies #[trigger] le64(data@, ts + 8 * j) == keys@[j] by {
                    if j < i {
                        lemma_same_bytes64(data@, before, ts + 8 * j);
                    }
                }
            }
            i = i + 1;
        }
        let offsets_base = ts + n * 8;
        let mut i: usize = 0;
        while i < n
            invariant
                n == num_objects,
                n <= 409,
                ts == table_start_for(n as int),
                offsets_base == ts + 8 * n,
                keys@.len() == n,
                offsets@.len() == n,
                i <= n,
                data@.len() == len,
                orig.len() == len,
                len >= 4096,
                le16(data@, 4094) == num_objects,
                data@[4093] == empty_page_end,
                forall|j: int| 0 <= j < n ==> #[trigger] le64(data@, ts + 8 * j) == keys@[j],
                forall|j: int| 0 <= j < i ==> #[trigger] le16(data@, offsets_base + 2 * j) == offsets@[j],
                forall|p: int| 0 <= p < len && (p < ts || p >= 4096) ==> #[trigger] data@[p] == orig[p],
            decreases n - i,
        {
            let base = offsets_base + i * 2;
            let ghost before = data@;
            proof { vstd::bytes::lemma_auto_spec_u16_to_from_le_bytes(); }
            proof { lemma_splice_frame(before, base as int, spec_u16_to_le_bytes(offsets@[i as int])); }
            put_le16(data, base, offsets[i]);
            proof {
                lemma_read_spliced16(before, base as int, offsets@[i as int]);
                lemma_same_bytes16(data@, before, 4094);
                assert forall|j: int| 0 <= j < n implies #[trigger] le64(data@, ts + 8 * j) == keys@[j] by {
                    lemma_same_bytes64(data@, before, ts + 8 * j);
                }
                assert forall|j: int| 0 <= j < i + 1 implies #[trigger] le16(data@, offsets_base + 2 * j) == offsets@[j] by {
                    if j < i {
                        lemma_same_bytes16(data@, before, offsets_base + 2 * j);
                    }
                }
            }
            i = i + 1;
        }
        assert(block_count(data@) == n);
        proof {
            if len == 4096 {
                lemma_table_image(data@, orig, empty_page_end, keys@, offsets@);
            }
        }
    }
}

/// Parsing a block whose table was written gives back the table written.
pub proof fn lemma_parse_written_table(b: Seq<u8>, r: BlockStorage, n: int, e: u8, keys: Seq<u64>, offsets: Seq<u16>)
    requires
        holds_table(b, n, e, keys, offsets),
        keys.len() == n,
        offsets.len() == n,
        r.parsed_from(b),
    ensures
        r.num_objects == n,
        r.empty_page_end == e,
        r.table_start == table_start_for(n),
        r.keys@ == keys,
        r.offsets@ == offsets,
{
    assert(r.keys@ =~= keys);
    assert(r.offsets@ =~= offsets);
}

/// `i` is the first position of `key` in `keys`.
pub open spec fn first_position(keys: Seq<u64>, key: u64, i: int) -> bool {
    &&& 0 <= i < keys.len()
    &&& keys[i] == key
    &&& forall|j: int| 0 <= j < i ==> keys[j] != key
}

impl BlockStorage {
    /// Find a key in a block that uses the non-overlapping table convention.
    ///
    /// The Separator and Cuckoo writers store shifted cumulative offsets. Object
    /// 0 starts at 0. Object `i > 0` starts at `offsets[i - 1]`. The last entry
    /// holds the end of the last object. Returns `(length, start_offset)` on a
    /// hit or `None` when the key is absent.
    pub fn find_key_non_overlapping(&self, key: u64) -> (r: Option<(usize, usize)>)
        requires
            self.keys@.len() >= self.num_objects,
            self.offsets@.len() >= self.num_objects,
            forall|i: int|
                #[trigger] first_position(self.keys@.subrange(0, self.num_objects as int), key, i) && i > 0
                ==> self.offsets@[i - 1] <= self.offsets@[i],
        ensures
            r is None <==> forall|i: int| 0 <= i < self.num_objects ==> self.keys@[i] != key,
            forall|i: int| #[trigger] first_position(self.keys@.subrange(0, self.num_objects as int), key, i)
                ==> r == Some(if i == 0 {
                    (self.offsets@[0] as usize, 0usize)
                } else {
                    ((self.offsets@[i] - self.offsets@[i - 1]) as usize, self.offsets@[i - 1] as usize)
                }),
    {
        let n = self.num_objects as usize;
        let ghost ks = self.keys@.subrange(0, n as int);
        let mut i: usize = 0;
        while i < n
            invariant
                n == self.num_objects,
                i <= n,
                ks == self.keys@.subrange(0, n as int),
                self.keys@.len() >= n,
                self.offsets@.len() >= n,
                forall|j: int| 0 <= j < i ==> self.keys@[j] != key,
                forall|t: int| #[trigger] first_position(ks, key, t) && t > 0
                    ==> self.offsets@[t - 1] <= self.offsets@[t],
            decreases n - i,
        {
            if self.keys[i] == key {
                proof {
                    assert(first_position(ks, key, i as int));
                    assert forall|t: int| #[trigger] first_position(ks, key, t) implies t == i by {
                        if t < i {
                            assert(ks[t] == self.keys@[t]);
                        } else if t > i {
                            assert(ks[i as int] == key);
                        }
                    }
                    if i > 0 {
                        assert(self.offsets@[i - 1] <= self.offsets@[i as int]);
                    }
                }
                if i == 0 {
                    return Some((self.offsets[0] as usize, 0));
                } else {
                    let start = self.offsets[i - 1] as usize;
                    let len = self.offsets[i] as usize - start;
                    return Some((len, start));
                }
            }
            i = i + 1;
        }
        proof {
            assert forall|t: int| #[trigger] first_position(ks, key, t) implies false by {
                assert(ks[t] == self.keys@[t]);
            }
        }
        None
    }
}

} // verus!
