//! The PaCHash object store.
//!
//! [`PaCHashObjectStore`] builds a store from key and value pairs, then answers
//! point queries in one block-range read. Construction sorts items by their
//! 64-bit key, packs them fully into blocks, and builds a predecessor index that
//! maps a key's bin to the block range holding it.
use vstd::prelude::*;
use crate::block::{BlockStorage, block_readable, block_empty, block_offset, table_start_for};
use crate::le::read_le16;
use crate::config::{StoreMetadata, MetadataError, parse_metadata, metadata_message};
use crate::format::{blk, nobj, key_at, off_at, starts, base, blocks_wf, block_wf, decoded,
    entry_value, lemma_starts_index, lemma_starts_step, lemma_starts_grow};
use crate::reader::Object;
use crate::hash::{key2bin, spec_fastrange, lemma_fastrange_range, murmur_hash64, murmur64a,
    DEFAULT_SEED};
use crate::writer::{LinearObjectWriter, written_image, store_image, feed, start_state};
use crate::format::stored_objects;
use vstd::utf8::encode_utf8;
use crate::correctness::{rising_keys, distinct_keys, lemma_written_ordered,
    lemma_bins_nondecreasing, lemma_range_bounds, lemma_window_answer, lemma_window_keys,
    lemma_sorted_items, lemma_sorted_order_unique};
use crate::index::predecessor_range;
use crate::text::{decimal, push_decimal};
use crate::index::{Index, nondecreasing};

verus! {

/// Errors from building or querying a store.
#[derive(Debug, Clone, PartialEq, Eq)]
pub enum StoreError {
    /// A stored key was 0. Key 0 is reserved for the file header.
    ReservedKey,
    /// The file header could not be read.
    Metadata(MetadataError),
    /// The file is not a PaCHash store.
    WrongType,
    /// The header declares more blocks than the file holds.
    TruncatedBody,
    /// A block's table does not fit or does not describe its bytes, or the
    /// blocks' keys are out of order, so the store cannot be indexed.
    Malformed,
}

impl From<MetadataError> for StoreError {
    fn from(e: MetadataError) -> (r: StoreError) {
        StoreError::Metadata(e)
    }
}

impl vstd::std_specs::convert::FromSpecImpl<MetadataError> for StoreError {
    open spec fn obeys_from_spec() -> bool {
        true
    }

    open spec fn from_spec(e: MetadataError) -> StoreError {
        StoreError::Metadata(e)
    }
}

/// The message of a store error.
pub open spec fn store_message(e: StoreError) -> Seq<char> {
    match e {
        StoreError::ReservedKey => "key 0 is reserved for metadata"@,
        StoreError::Metadata(m) => metadata_message(m),
        StoreError::WrongType => "opened file of wrong type"@,
        StoreError::TruncatedBody => "file is shorter than its declared block count"@,
        StoreError::Malformed => "block tables are inconsistent or out of key order"@,
    }
}

impl StoreError {
    /// A human-readable message.
    pub fn to_string(&self) -> (r: String)
        ensures
            r@ == store_message(*self),
    {
        match self {
            StoreError::ReservedKey => String::from_str("key 0 is reserved for metadata"),
            StoreError::Metadata(e) => e.to_string(),
            StoreError::WrongType => String::from_str("opened file of wrong type"),
            StoreError::TruncatedBody => String::from_str("file is shorter than its declared block count"),
            StoreError::Malformed => String::from_str("block tables are inconsistent or out of key order"),
        }
    }
}

/// Key of the last table entry in the blocks before `b`, or 0 when they hold
/// none.
pub open spec fn last_key_before(data: Seq<u8>, b: int) -> u64
    decreases b,
{
    if b <= 0 {
        0
    } else if nobj(data, b - 1) > 0 {
        key_at(data, b - 1, nobj(data, b - 1) - 1)
    } else {
        last_key_before(data, b - 1)
    }
}

/// The bin value the index records for block `b`: the bin of the last key
/// before the block, or, when the block opens with a fresh object whose bin is
/// larger, the bin just below that object's bin.
pub open spec fn block_bin(data: Seq<u8>, b: int, num_bins: u64) -> int {
    let last = spec_fastrange(last_key_before(data, b), num_bins);
    if nobj(data, b) > 0 && off_at(data, b, 0) == 0 {
        let first = spec_fastrange(key_at(data, b, 0), num_bins);
        if first > last {
            first - 1
        } else {
            last
        }
    } else {
        last
    }
}

/// The bin values of the first `nb` blocks.
pub open spec fn block_bins(data: Seq<u8>, nb: int, num_bins: u64) -> Seq<usize> {
    Seq::new(nb as nat, |b: int| block_bin(data, b, num_bins) as usize)
}

/// The keys of the table entries of the first `nb` blocks, in order.
pub open spec fn entry_keys(data: Seq<u8>, nb: int) -> Seq<u64> {
    starts(data, nb).map_values(|e: (u64, int, bool)| e.0)
}

/// How many of `s` are not 0.
pub open spec fn count_nonzero(s: Seq<u64>) -> nat
    decreases s.len(),
{
    if s.len() == 0 {
        0
    } else {
        count_nonzero(s.drop_last()) + if s.last() != 0 { 1nat } else { 0nat }
    }
}

/// Counting splits over concatenation.
pub proof fn lemma_count_nonzero_add(x: Seq<u64>, y: Seq<u64>)
    ensures
        count_nonzero(x + y) == count_nonzero(x) + count_nonzero(y),
        count_nonzero(y) <= y.len(),
    decreases y.len(),
{
    if y.len() == 0 {
        assert(x + y =~= x);
    } else {
        assert((x + y).drop_last() =~= x + y.drop_last());
        lemma_count_nonzero_add(x, y.drop_last());
    }
}

/// A store whose index can be built and queried: its declared blocks are
/// present and laid out consistently, and the bin values derived for the
/// blocks never decrease.
pub open spec fn sound(data: Seq<u8>, nb: int, num_bins: u64) -> bool {
    &&& blocks_wf(data, nb)
    &&& nondecreasing(block_bins(data, nb, num_bins))
}

/// Check that a 4096-byte block is laid out consistently, and parse it.
fn check_block(bytes: &[u8]) -> (r: Option<BlockStorage>)
    requires
        bytes@.len() == 4096,
    ensures
        r is Some <==> block_wf(bytes@),
        r matches Some(bl) ==> bl.parsed_from(bytes@),
{
    let count = read_le16(bytes, 4094);
    if count > 409 {
        return None;
    }
    let block = BlockStorage::parse(bytes);
    if block.table_start < block.empty_page_end as usize {
        return None;
    }
    let de = block.table_start - block.empty_page_end as usize;
    let n = block.num_objects as usize;
    let mut i: usize = 0;
    while i < n
        invariant
            i <= n,
            n == block.num_objects,
            block.parsed_from(bytes@),
            block_readable(bytes@),
            de == table_start_for(n as int) - block_empty(bytes@),
            forall|j: int| 0 <= j < i ==> #[trigger] block_offset(bytes@, j) <= de,
            forall|j: int, k: int| 0 <= j <= k < i ==> block_offset(bytes@, j) <= block_offset(bytes@, k),
        decreases n - i,
    {
        let off = block.offsets[i] as usize;
        if off > de {
            return None;
        }
        if i > 0 && (block.offsets[i - 1] as usize) > off {
            return None;
        }
        proof {
            assert forall|j: int, k: int| 0 <= j <= k < i + 1 implies block_offset(bytes@, j) <= block_offset(bytes@, k) by {
                if k == i && j < i {
                    assert(block_offset(bytes@, j) <= block_offset(bytes@, i - 1));
                }
            }
        }
        i = i + 1;
    }
    Some(block)
}

/// The bytes of blocks `first .. first + count`.
pub open spec fn window(data: Seq<u8>, first: int, count: int) -> Seq<u8> {
    data.subrange(4096 * first, 4096 * (first + count))
}

/// The value of the first object in `objs` with key `key`.
pub open spec fn lookup(objs: Seq<(u64, Seq<u8>)>, key: u64) -> Option<Seq<u8>>
    decreases objs.len(),
{
    if objs.len() == 0 {
        None
    } else if objs[0].0 == key {
        Some(objs[0].1)
    } else {
        lookup(objs.drop_first(), key)
    }
}

/// The first object with the key decides the lookup.
pub proof fn lemma_lookup_at(objs: Seq<(u64, Seq<u8>)>, key: u64, t: int)
    requires
        0 <= t < objs.len(),
        objs[t].0 == key,
        forall|u: int| 0 <= u < t ==> #[trigger] objs[u].0 != key,
    ensures
        lookup(objs, key) == Some(objs[t].1),
    decreases t,
{
    if t > 0 {
        let rest = objs.drop_first();
        assert forall|u: int| 0 <= u < t - 1 implies #[trigger] rest[u].0 != key by {
            assert(rest[u] == objs[u + 1]);
        }
        assert(objs[0].0 != key);
        lemma_lookup_at(rest, key, t - 1);
    }
}

/// A lookup of a key no object has finds nothing.
pub proof fn lemma_lookup_none(objs: Seq<(u64, Seq<u8>)>, key: u64)
    requires
        forall|u: int| 0 <= u < objs.len() ==> #[trigger] objs[u].0 != key,
    ensures
        lookup(objs, key) is None,
    decreases objs.len(),
{
    if objs.len() > 0 {
        let rest = objs.drop_first();
        assert forall|u: int| 0 <= u < rest.len() implies #[trigger] rest[u].0 != key by {
            assert(rest[u] == objs[u + 1]);
        }
        assert(objs[0].0 != key);
        lemma_lookup_none(rest, key);
    }
}

/// The blocks of a window are blocks of the store.
pub proof fn lemma_window_blocks(data: Seq<u8>, nb: int, first: int, count: int)
    requires
        blocks_wf(data, nb),
        0 <= first,
        0 <= count,
        first + count <= nb,
    ensures
        window(data, first, count).len() == 4096 * count,
        forall|t: int| 0 <= t < count ==> #[trigger] blk(window(data, first, count), t) == blk(data, first + t),
        blocks_wf(window(data, first, count), count),
{
    let w = window(data, first, count);
    assert forall|t: int| 0 <= t < count implies #[trigger] blk(w, t) == blk(data, first + t) by {
        assert(blk(w, t) =~= blk(data, first + t));
    }
    assert forall|t: int| 0 <= t < count implies block_wf(#[trigger] blk(w, t)) by {
        assert(blk(w, t) == blk(data, first + t));
    }
}

/// Items with their values as byte sequences.
pub open spec fn item_view(items: Seq<(u64, Vec<u8>)>) -> Seq<(u64, Seq<u8>)> {
    items.map_values(|p: (u64, Vec<u8>)| (p.0, p.1@))
}

/// The keys of `objs`, in order.
pub open spec fn item_keys(objs: Seq<(u64, Seq<u8>)>) -> Seq<u64> {
    objs.map_values(|p: (u64, Seq<u8>)| p.0)
}

/// `perm` lists every position of `keys` once, in key order, equal keys in
/// their input order: the order a stable sort by key leaves them in.
pub open spec fn sorted_order(keys: Seq<u64>, perm: Seq<usize>) -> bool {
    &&& perm.len() == keys.len()
    &&& forall|i: int| 0 <= i < perm.len() ==> #[trigger] perm[i] < keys.len()
    &&& forall|i: int, j: int| 0 <= i < j < perm.len() ==> #[trigger] perm[i] != #[trigger] perm[j]
    &&& forall|i: int, j: int| 0 <= i < j < perm.len() ==>
        keys[#[trigger] perm[i] as int] < keys[#[trigger] perm[j] as int]
        || (keys[perm[i] as int] == keys[perm[j] as int] && perm[i] < perm[j])
}

/// String pairs as keyed byte values: each key hashed with the default seed,
/// each value's UTF-8 bytes.
pub open spec fn hashed_items(items: Seq<(String, String)>) -> Seq<(u64, Seq<u8>)> {
    Seq::new(items.len(), |i: int| (murmur64a(encode_utf8(items[i].0@), DEFAULT_SEED), encode_utf8(items[i].1@)))
}

/// `objs` taken in the order `perm`.
pub open spec fn permuted(objs: Seq<(u64, Seq<u8>)>, perm: Seq<usize>) -> Seq<(u64, Seq<u8>)> {
    Seq::new(perm.len(), |i: int| objs[perm[i] as int])
}

/// Writing the same items always gives the same bytes: whichever stable key
/// order the writer is handed, the store is the same.
pub proof fn lemma_one_store(objs: Seq<(u64, Seq<u8>)>, p1: Seq<usize>, p2: Seq<usize>, kind: u16)
    requires
        sorted_order(item_keys(objs), p1),
        sorted_order(item_keys(objs), p2),
    ensures
        store_image(permuted(objs, p1), kind) == store_image(permuted(objs, p2), kind),
{
    lemma_sorted_order_unique(item_keys(objs), p1, p2);
}

/// `q` lists each of the positions `0..n` once.
pub open spec fn reorders(q: Seq<usize>, n: int) -> bool {
    &&& q.len() == n
    &&& forall|i: int| 0 <= i < n ==> #[trigger] q[i] < n
    &&& forall|i: int, j: int| 0 <= i < j < n ==> #[trigger] q[i] != #[trigger] q[j]
}

/// Items with distinct keys are written in the same order, so give the same
/// store, whatever order they are handed over in.
pub proof fn lemma_order_free(
    objs: Seq<(u64, Seq<u8>)>,
    q: Seq<usize>,
    p1: Seq<usize>,
    p2: Seq<usize>,
    kind: u16,
)
    requires
        distinct_keys(objs),
        reorders(q, objs.len() as int),
        sorted_order(item_keys(objs), p1),
        sorted_order(item_keys(permuted(objs, q)), p2),
    ensures
        permuted(permuted(objs, q), p2) == permuted(objs, p1),
        store_image(permuted(permuted(objs, q), p2), kind) == store_image(permuted(objs, p1), kind),
{
    let n = objs.len() as int;
    let o2 = permuted(objs, q);
    let keys = item_keys(objs);
    let keys2 = item_keys(o2);
    let r = Seq::new(n as nat, |i: int| q[p2[i] as int]);
    assert forall|i: int| 0 <= i < n implies #[trigger] r[i] < n by {
        assert(p2[i] < n);
    }
    assert forall|i: int, j: int| 0 <= i < j < n implies #[trigger] r[i] != #[trigger] r[j] by {
        assert(p2[i] != p2[j]);
        if p2[i] < p2[j] {
            assert(q[p2[i] as int] != q[p2[j] as int]);
        } else {
            assert(q[p2[j] as int] != q[p2[i] as int]);
        }
    }
    assert forall|i: int, j: int| 0 <= i < j < n implies keys[#[trigger] r[i] as int] < keys[#[trigger] r[j] as int]
        || (keys[r[i] as int] == keys[r[j] as int] && r[i] < r[j]) by {
        let a = p2[i] as int;
        let b = p2[j] as int;
        assert(a < n && b < n && a != b);
        assert(keys2[a] == objs[q[a] as int].0);
        assert(keys2[b] == objs[q[b] as int].0);
        assert(q[a] != q[b]) by {
            if a < b {
                assert(q[a] != q[b]);
            } else {
                assert(q[b] != q[a]);
            }
        }
        assert(objs[q[a] as int].0 != objs[q[b] as int].0);
        assert(keys2[a] < keys2[b] || (keys2[a] == keys2[b] && a < b));
    }
    assert(sorted_order(keys, r));
    lemma_sorted_order_unique(keys, r, p1);
    assert(permuted(o2, p2) =~= permuted(objs, p1));
}

/// The positions `0..n` of `keys` in key order, equal keys in their input
/// order.
fn sort_positions(keys: &Vec<u64>) -> (perm: Vec<usize>)
    ensures
        sorted_order(keys@, perm@),
{
    let n = keys.len();
    let mut perm: Vec<usize> = Vec::new();
    let mut k: usize = 0;
    while k < n
        invariant
            k <= n,
            n == keys@.len(),
            perm@.len() == k,
            forall|i: int| 0 <= i < perm@.len() ==> #[trigger] perm@[i] < k,
            forall|i: int, j: int| 0 <= i < j < perm@.len() ==> #[trigger] perm@[i] != #[trigger] perm@[j],
            forall|i: int, j: int| 0 <= i < j < perm@.len() ==>
                keys@[#[trigger] perm@[i] as int] < keys@[#[trigger] perm@[j] as int]
                || (keys@[perm@[i] as int] == keys@[perm@[j] as int] && perm@[i] < perm@[j]),
        decreases n - k,
    {
        let key = keys[k];
        let mut p = perm.len();
        while p > 0 && keys[perm[p - 1]] > key
            invariant
                p <= perm@.len(),
                perm@.len() == k,
                k < n,
                n == keys@.len(),
                key == keys@[k as int],
                forall|i: int| 0 <= i < perm@.len() ==> #[trigger] perm@[i] < k,
                forall|i: int| p <= i < perm@.len() ==> keys@[#[trigger] perm@[i] as int] > key,
            decreases p,
        {
            p = p - 1;
        }
        let ghost old_perm = perm@;
        proof {
            assert forall|i: int| 0 <= i < p implies keys@[#[trigger] old_perm[i] as int] <= key by {
                if i < p - 1 {
                    assert(keys@[old_perm[i] as int] <= keys@[old_perm[p - 1] as int]);
                }
            }
        }
        perm.insert(p, k);
        proof {
            let np = perm@;
            assert(np == old_perm.insert(p as int, k));
            assert forall|i: int| 0 <= i < np.len() implies #[trigger] np[i] < k + 1 by {
                if i < p {
                    assert(np[i] == old_perm[i]);
                } else if i > p {
                    assert(np[i] == old_perm[i - 1]);
                }
            }
            assert forall|i: int, j: int| 0 <= i < j < np.len() implies #[trigger] np[i] != #[trigger] np[j] by {
                if i < p && j < p {
                    assert(np[i] == old_perm[i] && np[j] == old_perm[j]);
                } else if i < p && j == p {
                    assert(np[i] == old_perm[i]);
                } else if i < p && j > p {
                    assert(np[i] == old_perm[i] && np[j] == old_perm[j - 1]);
                } else if i == p {
                    assert(np[j] == old_perm[j - 1]);
                } else {
                    assert(np[i] == old_perm[i - 1] && np[j] == old_perm[j - 1]);
                }
            }
            assert forall|i: int, j: int| 0 <= i < j < np.len() implies
                keys@[#[trigger] np[i] as int] < keys@[#[trigger] np[j] as int]
                || (keys@[np[i] as int] == keys@[np[j] as int] && np[i] < np[j]) by {
                if i < p && j < p {
                    assert(np[i] == old_perm[i] && np[j] == old_perm[j]);
                } else if i < p && j == p {
                    assert(np[i] == old_perm[i]);
                    assert(keys@[old_perm[i] as int] <= key);
                } else if i < p && j > p {
                    assert(np[i] == old_perm[i] && np[j] == old_perm[j - 1]);
                } else if i == p {
                    assert(np[j] == old_perm[j - 1]);
                    assert(keys@[old_perm[j - 1] as int] > key);
                } else {
                    assert(np[i] == old_perm[i - 1] && np[j] == old_perm[j - 1]);
                }
            }
        }
        k = k + 1;
    }
    perm
}

/// How many of `keys` are not 0 when none is.
pub proof fn lemma_count_all_nonzero(keys: Seq<u64>)
    requires
        forall|i: int| 0 <= i < keys.len() ==> #[trigger] keys[i] != 0,
    ensures
        count_nonzero(keys) == keys.len(),
    decreases keys.len(),
{
    if keys.len() > 0 {
        lemma_count_all_nonzero(keys.drop_last());
    }
}

/// A written store whose objects have nonzero keys counts exactly those
/// objects: its table holds them, the header and at most a terminator, both
/// with key 0.
pub proof fn lemma_written_count(d: Seq<u8>, kind: u16, objs: Seq<(u64, Seq<u8>)>)
    requires
        written_image(d, kind, objs),
        rising_keys(objs),
    ensures
        count_nonzero(entry_keys(d, (d.len() / 4096) as int)) == objs.len(),
{
    let nb = (d.len() / 4096) as int;
    lemma_written_ordered(d, kind, objs);
    let ss = starts(d, nb);
    let ek = entry_keys(d, nb);
    let mid = item_keys(objs);
    assert forall|i: int| 0 <= i < mid.len() implies #[trigger] mid[i] != 0 by {}
    lemma_count_all_nonzero(mid);
    if ss.len() == objs.len() + 1 {
        assert(ek =~= seq![0u64] + mid);
        lemma_count_nonzero_add(seq![0u64], mid);
    } else {
        assert(ek =~= seq![0u64] + mid + seq![0u64]);
        lemma_count_nonzero_add(seq![0u64], mid);
        lemma_count_nonzero_add(seq![0u64] + mid, seq![0u64]);
    }
    assert(count_nonzero(seq![0u64]) == 0) by {
        assert(seq![0u64].drop_last() =~= Seq::<u64>::empty());
        assert(count_nonzero(Seq::<u64>::empty()) == 0);
        assert(seq![0u64].last() == 0);
    }
}

/// A static store over variable-size objects, generic over its index.
pub struct PaCHashObjectStore<I: Index> {
    /// The bin multiplier. `num_bins = num_blocks * a`.
    a: u16,
    data: Vec<u8>,
    index: I,
    num_blocks: usize,
    num_bins: usize,
    max_size: usize,
    num_objects: usize,
}

impl<I: Index> PaCHashObjectStore<I> {
    /// The store's bytes.
    pub closed spec fn bytes(&self) -> Seq<u8> {
        self.data@
    }

    /// The bin multiplier.
    pub closed spec fn multiplier(&self) -> u16 {
        self.a
    }

    /// The number of blocks the header declares.
    pub closed spec fn block_total(&self) -> nat {
        self.num_blocks as nat
    }

    /// The number of bins.
    pub closed spec fn bin_total(&self) -> nat {
        self.num_bins as nat
    }

    /// The largest object length the header declares.
    pub closed spec fn size_bound(&self) -> nat {
        self.max_size as nat
    }

    /// The number of table entries with a nonzero key.
    pub closed spec fn object_total(&self) -> nat {
        self.num_objects as nat
    }

    /// The block index.
    pub closed spec fn locator(&self) -> I {
        self.index
    }

    /// The store's invariant: a completed index over one bin value per
    /// declared block, and the declared blocks present in the bytes.
    pub closed spec fn wf(&self) -> bool {
        &&& self.index.wf()
        &&& self.index.completed()
        &&& self.index.bins().len() == self.num_blocks
        &&& self.index.bin_count() == self.num_bins
        &&& self.index.block_capacity() == self.num_blocks
        &&& self.num_bins == self.num_blocks * self.a
        &&& 4096 * self.num_blocks <= self.data@.len()
        &&& blocks_wf(self.data@, self.num_blocks as int)
    }

    /// Bin of a key for this store's bin count.
    pub fn key2bin(&self, key: u64) -> (r: usize)
        ensures
            r == spec_fastrange(key, self.bin_total() as u64),
    {
        proof { lemma_fastrange_range(key, self.num_bins as u64); }
        key2bin(key, self.num_bins as u64) as usize
    }

    /// The bin multiplier.
    pub fn a(&self) -> (r: u16)
        ensures
            r == self.multiplier(),
    {
        self.a
    }

    /// Number of blocks in the file.
    pub fn num_blocks(&self) -> (r: usize)
        ensures
            r == self.block_total(),
    {
        self.num_blocks
    }

    /// Number of objects in the file, excluding the header and terminator.
    pub fn num_objects(&self) -> (r: usize)
        ensures
            r == self.object_total(),
    {
        self.num_objects
    }

    /// Largest object length in the file.
    pub fn max_size(&self) -> (r: usize)
        ensures
            r == self.size_bound(),
    {
        self.max_size
    }

    /// Access to the store's raw bytes.
    pub fn data(&self) -> (r: &[u8])
        ensures
            r@ == self.bytes(),
    {
        self.data.as_slice()
    }

    /// Buffer size a query needs to hold a worst-case multi-block object.
    pub fn required_buffer_per_query(&self) -> (r: usize)
        requires
            4 * (self.size_bound() + 4096 - 1) <= usize::MAX,
        ensures
            r == 4 * (self.size_bound() + 4096 - 1),
    {
        4 * (self.max_size + 4096 - 1)
    }

    /// IO operations a query needs.
    pub fn required_ios_per_query(&self) -> (r: usize)
        ensures
            r == 1,
    {
        1
    }

    /// What a query for `key` answers: the value of the first entry with the
    /// key in the block range the index locates for the key's bin, read as a
    /// store of its own, so that an object is cut off where the range ends.
    /// A store that declares no blocks answers nothing.
    pub open spec fn answer(&self, key: u64) -> Option<Seq<u8>> {
        if self.block_total() == 0 {
            None
        } else {
            let range = predecessor_range(self.locator().bins(), spec_fastrange(key, self.bin_total() as u64));
            lookup(decoded(window(self.bytes(), range.0, range.1), range.1), key)
        }
    }

    /// Look up a key.
    ///
    /// Returns the object when its key is found in the block range the index
    /// gives for the key's bin, or `None`. A store that declares no blocks
    /// holds no object.
    pub fn query(&self, key: u64) -> (r: Option<Object>)
        requires
            self.wf(),
        ensures
            match self.answer(key) {
                None => r is None,
                Some(v) => r is Some && r->Some_0.key == key && r->Some_0.value@ == v,
            },
    {
        if self.num_blocks == 0 {
            return None;
        }
        let bin = self.key2bin(key);
        proof { lemma_fastrange_range(key, self.num_bins as u64); }
        let (first_block, blocks_accessed) = self.index.locate(bin);
        let ghost nbw: int = self.num_blocks as int;
        let dlen = self.data.len();
        proof {
            lemma_window_blocks(self.data@, nbw, first_block as int, blocks_accessed as int);
            assert(4096 * (first_block + blocks_accessed) <= 4096 * nbw) by (nonlinear_arith)
                requires first_block + blocks_accessed <= nbw;
        }
        let window_start = first_block * 4096;
        let window = vstd::slice::slice_subrange(self.data.as_slice(), window_start,
            window_start + blocks_accessed * 4096);
        let ghost w = window@;
        let wlen = window.len();
        proof {
            assert(w == self::window(self.data@, first_block as int, blocks_accessed as int));
            assert(self.answer(key) == lookup(decoded(w, blocks_accessed as int), key));
        }
        let mut block_idx: usize = 0;
        while block_idx < blocks_accessed
            invariant
                block_idx <= blocks_accessed,
                w == window@,
                w.len() == 4096 * blocks_accessed,
                wlen == w.len(),
                self.answer(key) == lookup(decoded(w, blocks_accessed as int), key),
                blocks_wf(w, blocks_accessed as int),
                forall|g: int| 0 <= g < starts(w, block_idx as int).len() ==>
                    #[trigger] starts(w, blocks_accessed as int)[g].0 != key,
                starts(w, block_idx as int).len() <= starts(w, blocks_accessed as int).len(),
            decreases blocks_accessed - block_idx,
        {
            let block_ptr = block_idx * 4096;
            let bytes = vstd::slice::slice_subrange(window, block_ptr, block_ptr + 4096);
            proof {
                assert(blk(w, block_idx as int) =~= bytes@);
                assert(block_wf(blk(w, block_idx as int)));
                lemma_starts_step(w, block_idx as int);
            }
            let block = BlockStorage::parse(bytes);
            let n = block.num_objects as usize;
            let mut i: usize = 0;
            while i < n
                invariant
                    i <= n,
                    n == block.num_objects,
                    n == nobj(w, block_idx as int),
                    block_idx < blocks_accessed,
                    block.parsed_from(blk(w, block_idx as int)),
                    w == window@,
                    blocks_wf(w, blocks_accessed as int),
                    self.answer(key) == lookup(decoded(w, blocks_accessed as int), key),
                    forall|g: int| 0 <= g < starts(w, block_idx as int).len() + i ==>
                        #[trigger] starts(w, blocks_accessed as int)[g].0 != key,
                decreases n - i,
            {
                proof {
                    lemma_starts_index(w, blocks_accessed as int, block_idx as int, i as int);
                }
                if block.keys[i] == key {
                    let (value, _) = entry_value(window, blocks_accessed, block_idx, i, &block);
                    proof {
                        let g = starts(w, block_idx as int).len() + i;
                        let objs = decoded(w, blocks_accessed as int);
                        assert forall|u: int| 0 <= u < g implies #[trigger] objs[u].0 != key by {
                            assert(objs[u].0 == starts(w, blocks_accessed as int)[u].0);
                        }
                        lemma_lookup_at(objs, key, g);
                    }
                    return Some(Object { key, value });
                }
                i = i + 1;
            }
            proof {
                lemma_starts_grow(w, block_idx + 1, blocks_accessed as int);
            }
            block_idx = block_idx + 1;
        }
        proof {
            let objs = decoded(w, blocks_accessed as int);
            assert forall|u: int| 0 <= u < objs.len() implies #[trigger] objs[u].0 != key by {
                assert(objs[u].0 == starts(w, blocks_accessed as int)[u].0);
            }
            lemma_lookup_none(objs, key);
        }
        None
    }

    /// A store built from the bytes a writer produced, whose objects have
    /// rising nonzero keys, answers every nonzero key with the value of the
    /// object that has it, and misses every other nonzero key.
    pub proof fn lemma_query_written(&self, kind: u16, objs: Seq<(u64, Seq<u8>)>, key: u64)
        requires
            self.wf(),
            written_image(self.bytes(), kind, objs),
            self.block_total() == self.bytes().len() / 4096,
            self.locator().bins() == block_bins(self.bytes(), self.block_total() as int, self.bin_total() as u64),
            rising_keys(objs),
            key != 0,
        ensures
            blocks_wf(self.bytes(), self.block_total() as int),
            self.answer(key) == lookup(objs, key),
    {
        let d = self.data@;
        let nb = self.num_blocks as int;
        let n = self.num_bins as u64;
        lemma_written_ordered(d, kind, objs);
        let ss = starts(d, nb);
        lemma_fastrange_range(0, n);
        lemma_fastrange_range(key, n);
        lemma_starts_index(d, nb, 0, 0);
        assert(block_bin(d, 0, n) == 0);
        let bins = block_bins(d, nb, n);
        assert(bins[0] == 0);
        let x = spec_fastrange(key, n);
        lemma_bins_nondecreasing(d, nb, n);
        lemma_range_bounds(bins, x);
        let r = predecessor_range(bins, x);
        if exists|j: int| 0 <= j < objs.len() && objs[j].0 == key {
            let j = choose|j: int| 0 <= j < objs.len() && objs[j].0 == key;
            assert(ss[j + 1].0 == key);
            lemma_window_answer(d, nb, n, j + 1);
            assert(decoded(d, nb)[j + 1] == objs[j]);
            assert forall|u: int| 0 <= u < j implies #[trigger] objs[u].0 != key by {
                assert(objs[u].0 < objs[j].0);
            }
            lemma_lookup_at(objs, key, j);
        } else {
            lemma_window_keys(d, nb, r.0, r.1);
            let w = decoded(window(d, r.0, r.1), r.1);
            assert forall|h: int| 0 <= h < w.len() implies #[trigger] w[h].0 != key by {
                let g = starts(d, r.0).len() + h;
                assert(w[h].0 == ss[g].0);
                if 1 <= g <= objs.len() {
                    assert(ss[g].0 == objs[g - 1].0);
                }
            }
            lemma_lookup_none(w, key);
            lemma_lookup_none(objs, key);
        }
    }

    /// Writing items with distinct nonzero keys and building the index over
    /// the bytes gives a store that answers every nonzero key with the value of
    /// the item that has it, and misses every other nonzero key.
    pub proof fn lemma_query_items(&self, items: Seq<(u64, Seq<u8>)>, perm: Seq<usize>, key: u64)
        requires
            self.wf(),
            sorted_order(item_keys(items), perm),
            written_image(self.bytes(), StoreMetadata::TYPE_PACHASH, permuted(items, perm)),
            self.block_total() == self.bytes().len() / 4096,
            self.locator().bins() == block_bins(self.bytes(), self.block_total() as int, self.bin_total() as u64),
            distinct_keys(items),
            key != 0,
        ensures
            blocks_wf(self.bytes(), self.block_total() as int),
            self.answer(key) == lookup(items, key),
    {
        lemma_sorted_items(items, perm, key);
        self.lemma_query_written(StoreMetadata::TYPE_PACHASH, permuted(items, perm), key);
    }

    /// Index space in bytes.
    pub fn index_space(&self) -> (r: usize)
        requires
            self.wf(),
        ensures
            r == self.locator().space_bytes(),
    {
        self.index.space()
    }

    /// Label naming the bin multiplier and the index structure.
    pub fn name(a: u16) -> (r: String)
        ensures
            r@ == "PaCHashObjectStore a="@ + decimal(a as nat) + " indexStructure="@ + I::label(),
    {
        let mut s = String::from_str("PaCHashObjectStore a=");
        push_decimal(&mut s, a as u64);
        s.append(" indexStructure=");
        s.append(I::name());
        s
    }

    /// Human-readable label naming the bin multiplier and index kind.
    pub fn to_string(&self) -> (r: String)
        ensures
            r@ == "PaCHashObjectStore a="@ + decimal(self.multiplier() as nat) + " index="@ + I::label(),
    {
        let mut s = String::from_str("PaCHashObjectStore a=");
        push_decimal(&mut s, self.a as u64);
        s.append(" index=");
        s.append(I::name());
        s
    }

    /// Look up a string key using the default hash.
    pub fn query_string(&self, key: &str) -> (r: Option<Object>)
        requires
            self.wf(),
        ensures
            ({
                let k = murmur64a(encode_utf8(key@), DEFAULT_SEED);
                match self.answer(k) {
                    None => r is None,
                    Some(v) => r is Some && r->Some_0.key == k && r->Some_0.value@ == v,
                }
            }),
    {
        self.query(murmur_hash64(key.as_bytes()))
    }

    /// Build the store bytes from key and value pairs.
    ///
    /// Items are sorted by 64-bit key, then packed. A key of 0 is rejected.
    /// The caller is responsible for using distinct keys.
    pub fn write_to_file(items: Vec<(u64, Vec<u8>)>) -> (r: Result<Vec<u8>, StoreError>)
        ensures
            (exists|i: int| 0 <= i < items@.len() && #[trigger] items@[i].0 == 0)
                ==> r == Err::<Vec<u8>, StoreError>(StoreError::ReservedKey),
            !(exists|i: int| 0 <= i < items@.len() && #[trigger] items@[i].0 == 0) ==> {
                &&& r is Ok
                &&& exists|perm: Seq<usize>| {
                    &&& #[trigger] sorted_order(item_keys(item_view(items@)), perm)
                    &&& r->Ok_0@ == store_image(permuted(item_view(items@), perm), StoreMetadata::TYPE_PACHASH)
                    &&& written_image(r->Ok_0@, StoreMetadata::TYPE_PACHASH, permuted(item_view(items@), perm))
                    &&& stored_objects(r->Ok_0@, (r->Ok_0@.len() / 4096) as int)
                        == permuted(item_view(items@), perm)
                }
            },
    {
        let n = items.len();
        let mut i: usize = 0;
        while i < n
            invariant
                i <= n,
                n == items@.len(),
                forall|j: int| 0 <= j < i ==> #[trigger] items@[j].0 != 0,
            decreases n - i,
        {
            if items[i].0 == 0 {
                return Err(StoreError::ReservedKey);
            }
            i = i + 1;
        }
        let ghost objs = item_view(items@);
        let mut keys: Vec<u64> = Vec::new();
        let mut i: usize = 0;
        while i < n
            invariant
                i <= n,
                n == items@.len(),
                objs == item_view(items@),
                keys@ == item_keys(objs).take(i as int),
            decreases n - i,
        {
            keys.push(items[i].0);
            proof {
                assert(item_keys(objs).take(i + 1) =~= item_keys(objs).take(i as int).push(items@[i as int].0));
            }
            i = i + 1;
        }
        proof {
            assert(item_keys(objs).take(n as int) =~= item_keys(objs));
        }
        let perm = sort_positions(&keys);
        let mut writer = LinearObjectWriter::new();
        let mut t: usize = 0;
        while t < n
            invariant
                t <= n,
                n == items@.len(),
                objs == item_view(items@),
                sorted_order(item_keys(objs), perm@),
                writer.wf(),
                writer.objects() == permuted(objs, perm@.take(t as int)),
                writer.state() == feed(start_state(), permuted(objs, perm@.take(t as int))),
            decreases n - t,
        {
            let idx = perm[t];
            proof {
                assert(perm@[t as int] < n);
            }
            writer.write(items[idx].0, items[idx].1.as_slice());
            proof {
                let before = permuted(objs, perm@.take(t as int));
                assert(permuted(objs, perm@.take(t + 1)) =~= before.push(objs[idx as int]));
                assert(before.push(objs[idx as int]).drop_last() =~= before);
            }
            t = t + 1;
        }
        proof {
            assert(perm@.take(n as int) =~= perm@);
            let po = permuted(objs, perm@);
            assert forall|j: int| 0 <= j < po.len() implies #[trigger] po[j].0 != 0 by {
                assert(perm@[j] < n);
                assert(items@[perm@[j] as int].0 != 0);
            }
        }
        let out = writer.finish(StoreMetadata::TYPE_PACHASH);
        proof {
            assert(sorted_order(item_keys(objs), perm@));
        }
        Ok(out)
    }

    /// Build the store from string pairs using the default key hash.
    ///
    /// Keys are hashed with [`murmur_hash64`], the same as the string query
    /// path.
    pub fn write_to_file_strings(items: &[(String, String)]) -> (r: Result<Vec<u8>, StoreError>)
        ensures
            ({
                let hashed = hashed_items(items@);
                &&& (exists|i: int| 0 <= i < hashed.len() && #[trigger] hashed[i].0 == 0)
                    ==> r == Err::<Vec<u8>, StoreError>(StoreError::ReservedKey)
                &&& !(exists|i: int| 0 <= i < hashed.len() && #[trigger] hashed[i].0 == 0) ==> {
                    &&& r is Ok
                    &&& exists|perm: Seq<usize>| {
                        &&& #[trigger] sorted_order(item_keys(hashed), perm)
                        &&& r->Ok_0@ == store_image(permuted(hashed, perm), StoreMetadata::TYPE_PACHASH)
                        &&& written_image(r->Ok_0@, StoreMetadata::TYPE_PACHASH, permuted(hashed, perm))
                        &&& stored_objects(r->Ok_0@, (r->Ok_0@.len() / 4096) as int) == permuted(hashed, perm)
                    }
                }
            }),
    {
        let ghost hashed = hashed_items(items@);
        let n = items.len();
        let mut out: Vec<(u64, Vec<u8>)> = Vec::new();
        let mut i: usize = 0;
        while i < n
            invariant
                i <= n,
                n == items@.len(),
                hashed == hashed_items(items@),
                item_view(out@) == hashed.take(i as int),
            decreases n - i,
        {
            let key = murmur_hash64(items[i].0.as_str().as_bytes());
            let value = vstd::slice::slice_to_vec(items[i].1.as_str().as_bytes());
            let ghost before = out@;
            out.push((key, value));
            proof {
                assert(out@ == before.push((key, value)));
                assert(item_view(out@) =~= item_view(before).push((key, value@)));
                assert(hashed[i as int] == (key, value@));
                assert(hashed.take(i + 1) =~= hashed.take(i as int).push(hashed[i as int]));
            }
            i = i + 1;
        }
        proof {
            assert(hashed.take(n as int) =~= hashed);
            assert forall|j: int| 0 <= j < out@.len() implies (#[trigger] out@[j]).0 == hashed[j].0 by {
                assert(item_view(out@)[j] == hashed[j]);
            }
        }
        Self::write_to_file(out)
    }

    /// Open a store's bytes and build the in-memory index.
    ///
    /// Returns an error when the header is bad, the type is not PaCHash, or
    /// the header declares more blocks than the bytes hold. Also refuses, with
    /// [`StoreError::Malformed`], a store whose declared blocks the index cannot
    /// be built over: a block whose table does not fit it or whose offsets do
    /// not rise within its data, or blocks whose keys fall back from one block
    /// to the next. A header that declares no blocks opens an empty store.
    pub fn build_index(a: u16, data: Vec<u8>) -> (r: Result<PaCHashObjectStore<I>, StoreError>)
        requires
            (data@.len() / 4096) * (a as int + 1) < usize::MAX,
        ensures
            match parse_metadata(data@) {
                Err(m) => r == Err::<PaCHashObjectStore<I>, StoreError>(StoreError::Metadata(m)),
                Ok(meta) => if meta.kind != StoreMetadata::TYPE_PACHASH {
                    r == Err::<PaCHashObjectStore<I>, StoreError>(StoreError::WrongType)
                } else if meta.num_blocks > data@.len() / 4096 {
                    r == Err::<PaCHashObjectStore<I>, StoreError>(StoreError::TruncatedBody)
                } else if !sound(data@, meta.num_blocks as int, (meta.num_blocks * a) as u64) {
                    r == Err::<PaCHashObjectStore<I>, StoreError>(StoreError::Malformed)
                } else {
                    &&& r is Ok
                    &&& r->Ok_0.wf()
                    &&& r->Ok_0.bytes() == data@
                    &&& r->Ok_0.multiplier() == a
                    &&& r->Ok_0.block_total() == meta.num_blocks
                    &&& r->Ok_0.bin_total() == meta.num_blocks * a
                    &&& r->Ok_0.size_bound() == #[verifier::truncate] (meta.max_size as usize)
                    &&& r->Ok_0.object_total() == count_nonzero(entry_keys(data@, meta.num_blocks as int))
                    &&& r->Ok_0.locator().bins() == block_bins(data@, meta.num_blocks as int,
                        (meta.num_blocks * a) as u64)
                },
            },
    {
        let metadata = match StoreMetadata::from_bytes(data.as_slice()) {
            Ok(m) => m,
            Err(e) => {
                return Err(StoreError::Metadata(e));
            },
        };
        if metadata.kind != StoreMetadata::TYPE_PACHASH {
            return Err(StoreError::WrongType);
        }
        let total_blocks = data.len() / 4096;
        if metadata.num_blocks > total_blocks as u64 {
            return Err(StoreError::TruncatedBody);
        }
        let num_blocks = metadata.num_blocks as usize;
        let max_size = #[verifier::truncate] (metadata.max_size as usize);
        assert(num_blocks * (a as int + 1) < usize::MAX) by (nonlinear_arith)
            requires
                num_blocks <= data@.len() / 4096,
                (data@.len() / 4096) * (a as int + 1) < usize::MAX;
        assert(num_blocks * (a as int + 1) == num_blocks * a + num_blocks) by (nonlinear_arith);
        let num_bins = num_blocks * a as usize;
        let ghost nbins = num_bins as u64;
        let mut index = I::new(num_blocks, num_bins);
        let mut real_objects: usize = 0;
        let mut last_key: u64 = 0;
        let mut b: usize = 0;
        let dlen = data.len();
        let mut prev: usize = 0;
        proof {
            assert(block_bins(data@, 0, nbins) =~= Seq::<usize>::empty());
            assert(starts(data@, 0) =~= Seq::<(u64, int, bool)>::empty());
            assert(entry_keys(data@, 0) =~= Seq::<u64>::empty());
        }
        while b < num_blocks
            invariant
                b <= num_blocks,
                num_blocks == metadata.num_blocks,
                num_bins == num_blocks * a,
                nbins == num_bins,
                4096 * num_blocks <= data@.len(),
                dlen == data@.len(),
                parse_metadata(data@) == Ok::<StoreMetadata, MetadataError>(metadata),
                metadata.kind == StoreMetadata::TYPE_PACHASH,
                metadata.num_blocks <= data@.len() / 4096,
                nbins == (metadata.num_blocks * a) as u64,
                forall|t: int| 0 <= t < b ==> block_wf(#[trigger] blk(data@, t)),
                nondecreasing(block_bins(data@, b as int, nbins)),
                b > 0 ==> prev == block_bin(data@, b - 1, nbins),
                index.wf(),
                !index.completed(),
                index.block_capacity() == num_blocks,
                index.bin_count() == num_bins,
                index.bins() == block_bins(data@, b as int, nbins),
                last_key == last_key_before(data@, b as int),
                real_objects == count_nonzero(entry_keys(data@, b as int)),
                real_objects <= 409 * b,
            decreases num_blocks - b,
        {
            let start = b * 4096;
            let bytes = vstd::slice::slice_subrange(data.as_slice(), start, start + 4096);
            proof {
                assert(blk(data@, b as int) =~= bytes@);
                lemma_fastrange_range(last_key, nbins);
            }
            let block = match check_block(bytes) {
                Some(bl) => bl,
                None => {
                    proof {
                        assert(!block_wf(blk(data@, b as int)));
                        assert(!blocks_wf(data@, num_blocks as int));
                        assert(!sound(data@, metadata.num_blocks as int, (metadata.num_blocks * a) as u64));
                    }
                    return Err(StoreError::Malformed);
                },
            };
            let n = block.num_objects as usize;
            let last_bin = key2bin(last_key, num_bins as u64) as usize;
            let v: usize = if n > 0 && block.offsets[0] == 0 {
                proof { lemma_fastrange_range(block.keys@[0], nbins); }
                let first_bin = key2bin(block.keys[0], num_bins as u64) as usize;
                if first_bin > last_bin {
                    first_bin - 1
                } else {
                    last_bin
                }
            } else {
                last_bin
            };
            proof {
                assert(v == block_bin(data@, b as int, nbins));
            }
            if b > 0 && v < prev {
                proof {
                    let full = block_bins(data@, num_blocks as int, nbins);
                    assert(full[b - 1] > full[b as int]);
                    assert(!nondecreasing(full));
                    assert(!sound(data@, metadata.num_blocks as int, (metadata.num_blocks * a) as u64));
                }
                return Err(StoreError::Malformed);
            }
            proof {
                if b > 0 {
                    assert(index.bins().last() == prev);
                }
                let nxt = block_bins(data@, b + 1, nbins);
                assert(nxt =~= block_bins(data@, b as int, nbins).push(v));
                assert forall|i: int, j: int| 0 <= i <= j < nxt.len() implies nxt[i] <= nxt[j] by {
                    if j == b && i < b {
                        assert(nxt[i] <= nxt[b - 1]);
                    }
                }
            }
            index.push_back(v);
            prev = v;
            proof {
                assert(index.bins() =~= block_bins(data@, b + 1, nbins));
            }
            if n > 0 {
                last_key = block.keys[n - 1];
            }
            let mut i: usize = 0;
            let mut in_block: usize = 0;
            while i < n
                invariant
                    i <= n,
                    n == block.keys@.len(),
                    n <= 409,
                    in_block == count_nonzero(block.keys@.take(i as int)),
                    in_block <= i,
                decreases n - i,
            {
                proof {
                    assert(block.keys@.take(i + 1).drop_last() =~= block.keys@.take(i as int));
                }
                if block.keys[i] != 0 {
                    in_block = in_block + 1;
                }
                i = i + 1;
            }
            proof {
                assert(block.keys@.take(n as int) =~= block.keys@);
                let d = data@;
                let new_part = Seq::new(nobj(d, b as int) as nat, |i: int| (key_at(d, b as int, i),
                    base(d, b as int) + off_at(d, b as int, i), i + 1 == nobj(d, b as int)));
                assert(starts(d, b + 1) == starts(d, b as int) + new_part);
                assert(entry_keys(d, b + 1) =~= entry_keys(d, b as int) + block.keys@);
                lemma_count_nonzero_add(entry_keys(d, b as int), block.keys@);
                assert(real_objects + in_block <= 409 * (b + 1));
                assert(409 * (b + 1) <= 409 * num_blocks);
                assert(409 * num_blocks <= usize::MAX) by (nonlinear_arith)
                    requires
                        4096 * num_blocks <= d.len(),
                        d.len() <= usize::MAX;
            }
            real_objects = real_objects + in_block;
            b = b + 1;
        }
        index.complete();
        proof {
            assert(block_bins(data@, num_blocks as int, nbins) == index.bins());
            if num_blocks > 0 {
                assert(blocks_wf(data@, num_blocks as int));
            }
        }
        Ok(PaCHashObjectStore {
            a,
            data,
            index,
            num_blocks,
            num_bins,
            max_size,
            num_objects: real_objects,
        })
    }
}

} // verus!
