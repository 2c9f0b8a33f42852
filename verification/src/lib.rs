//! A space-efficient static object store keyed by 64-bit integers.
use vstd::prelude::*;

pub mod bitvec;
pub mod block;
pub mod config;
pub mod correctness;
pub mod format;
pub mod hash;
pub mod index;
pub mod le;
pub mod lowbits;
pub mod merge;
pub mod reader;
pub mod store;
pub mod text;
pub mod writer;

pub use block::BlockStorage;
pub use config::{
    MetadataError, StoreMetadata, BLOCK_LENGTH, MAGIC, OVERHEAD_PER_BLOCK, OVERHEAD_PER_OBJECT,
    STORE_METADATA_SIZE, VERSION,
};
pub use hash::{ceillog2, fastrange64, key2bin, murmur_hash64, murmur_hash64_seeded};
pub use index::{CompressedBitVectorIndex, EliasFanoIndex, Index, UncompressedBitVectorIndex};
pub use merge::{merge, MergeError};
pub use reader::{LinearObjectReader, Object};
pub use store::{PaCHashObjectStore, StoreError};
pub use writer::LinearObjectWriter;

verus! {

} // verus!
