# pachash

A space-efficient static object store keyed by 64-bit integers, written in
Verus and proved against its contracts.

PaCHash maps distinct 64-bit keys to variable-length byte values. It packs
values fully into fixed 4096-byte blocks, then builds a small predecessor index
over one bin value per block. A point query reads one contiguous block range
and scans it.

```rust
use pachash::{PaCHashObjectStore, EliasFanoIndex};

let items = vec![(10u64, b"alpha".to_vec()), (20u64, b"beta".to_vec())];
let bytes = PaCHashObjectStore::<EliasFanoIndex>::write_to_file(items).unwrap();
let store = PaCHashObjectStore::<EliasFanoIndex>::build_index(8, bytes).unwrap();

assert_eq!(store.query(10).unwrap().value, b"alpha");
assert!(store.query(30).is_none());
```

## Layout of `src/`

- `le.rs`, `block.rs`, `config.rs`: little-endian fields, the table at the end
  of each block, and the 56-byte header.
- `format.rs`: what a store's bytes mean — the object bytes of the blocks read
  back to back, the table entries, and the objects they decode to.
- `writer.rs`: the packer, with its state as plain values (`WriterState`) and
  the bytes a sequence of objects is written to (`store_image`), the packing
  rule of finished blocks, and the proof that a finished store decodes to the
  header followed by the objects written.
- `reader.rs`: the sequential reader, proved to yield the stored objects.
- `hash.rs`: MurmurHash64A, fastrange and `ceillog2`.
- `bitvec.rs`, `lowbits.rs`, `index.rs`: the three predecessor indices, each
  proved to answer the predecessor range of the pushed bin values.
- `store.rs`: writing items in key order, building the index over a store
  and answering queries; the stable key order is unique, so the bytes written
  do not depend on the order of items with distinct keys.
- `correctness.rs`: why the range located for a stored key holds the key's
  whole object, so a query of a written store finds every object.
- `merge.rs`: the k-way merge of stores.
- `text.rs`: decimal numerals for labels and messages.
