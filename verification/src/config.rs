//! On-disk constants and the file header.
//!
//! A store is a sequence of fixed 4096-byte blocks. Object data grows from the
//! front of each block. A small table grows from the back. The first object of
//! block 0 carries a [`StoreMetadata`] record with key 0.
use vstd::prelude::*;
use crate::text::{decimal, push_decimal};
use vstd::bytes::{spec_u16_to_le_bytes, spec_u64_to_le_bytes};
use crate::le::{le16, le64, read_le16, read_le64, put_le16, put_le64};

verus! {

/// Length of one on-disk block in bytes.
pub const BLOCK_LENGTH: usize = 4096;

/// Bytes the table spends per object: one 8-byte key plus one 2-byte offset.
pub const OVERHEAD_PER_OBJECT: usize = 8 + 2;

/// Bytes the table spends per block: a 2-byte object count plus a 1-byte
/// empty-page marker.
pub const OVERHEAD_PER_BLOCK: usize = 2 + 1;

/// Serialized size of [`StoreMetadata`]: `magic[32]`, `version` at 32, `type`
/// at 34, two bytes of padding, then two 8-byte fields at 40 and 48.
pub const STORE_METADATA_SIZE: usize = 56;

/// Exact 32 magic bytes at the start of every store file. The string is 31
/// characters plus a NUL: "Variable size object store file".
pub const MAGIC: [u8; 32] = [
    86, 97, 114, 105, 97, 98, 108, 101, 32, 115, 105, 122, 101, 32, 111, 98, 106, 101, 99, 116, 32,
    115, 116, 111, 114, 101, 32, 102, 105, 108, 101, 0,
];

/// File-format version this crate reads and writes.
pub const VERSION: u8 = 1;

/// The file header, packed into the first object of block 0.
#[derive(Debug, Clone, Copy, PartialEq, Eq)]
pub struct StoreMetadata {
    /// Store kind. See the `TYPE_*` associated constants.
    pub kind: u16,
    /// Number of blocks in the file.
    pub num_blocks: u64,
    /// Largest object length written to the file.
    pub max_size: u64,
}

/// Errors from reading a store header.
#[derive(Debug, Clone, Copy, PartialEq, Eq)]
pub enum MetadataError {
    /// The file is shorter than the metadata or its declared block count.
    Truncated,
    /// The magic bytes do not match a store file.
    BadMagic,
    /// The file version is not supported. Holds the version found.
    BadVersion(u8),
}

/// The 56-byte image of `m`.
pub open spec fn metadata_image(m: StoreMetadata) -> Seq<u8> {
    MAGIC@ + seq![VERSION, 0u8] + spec_u16_to_le_bytes(m.kind) + seq![0u8, 0u8, 0u8, 0u8]
        + spec_u64_to_le_bytes(m.num_blocks) + spec_u64_to_le_bytes(m.max_size)
}

/// What the header at the start of `data` says, or why it is refused: first
/// the length, then the magic bytes, then the version.
pub open spec fn parse_metadata(data: Seq<u8>) -> Result<StoreMetadata, MetadataError> {
    if data.len() < STORE_METADATA_SIZE {
        Err(MetadataError::Truncated)
    } else if data.subrange(0, 32) != MAGIC@ {
        Err(MetadataError::BadMagic)
    } else if data[32] != VERSION {
        Err(MetadataError::BadVersion(data[32]))
    } else {
        Ok(StoreMetadata { kind: le16(data, 34), num_blocks: le64(data, 40), max_size: le64(data, 48) })
    }
}

impl StoreMetadata {
    /// PaCHash store.
    pub const TYPE_PACHASH: u16 = 1000;
    /// Separator store. The stored type adds the separator bit width.
    pub const TYPE_SEPARATOR: u16 = 2000;
    /// Cuckoo store.
    pub const TYPE_CUCKOO: u16 = 0;

    /// Serialize into the exact 56-byte on-disk image.
    pub fn to_bytes(&self) -> (r: [u8; 56])
        ensures
            r@ == metadata_image(*self),
    {
        let mut out = [0u8; 56];
        let mut i: usize = 0;
        while i < 32
            invariant
                i <= 32,
                out@.len() == 56,
                forall|j: int| 0 <= j < i ==> out@[j] == MAGIC@[j],
                forall|j: int| i <= j < 56 ==> out@[j] == 0u8,
            decreases 32 - i,
        {
            out[i] = MAGIC[i];
            i = i + 1;
        }
        out[32] = VERSION;
        let ghost before = out@;
        put_le16(&mut out, 34, self.kind);
        put_le64(&mut out, 40, self.num_blocks);
        put_le64(&mut out, 48, self.max_size);
        proof {
            vstd::bytes::lemma_auto_spec_u16_to_from_le_bytes();
            vstd::bytes::lemma_auto_spec_u64_to_from_le_bytes();
            assert(out@ =~= metadata_image(*self));
        }
        out
    }

    /// Parse from the first 56 bytes of block 0.
    ///
    /// Checks the magic bytes first, then the version. Returns an error when
    /// either does not match.
    pub fn from_bytes(data: &[u8]) -> (r: Result<StoreMetadata, MetadataError>)
        ensures
            r == parse_metadata(data@),
    {
        if data.len() < STORE_METADATA_SIZE {
            return Err(MetadataError::Truncated);
        }
        let mut i: usize = 0;
        while i < 32
            invariant
                i <= 32,
                data@.len() >= 56,
                forall|j: int| 0 <= j < i ==> data@[j] == MAGIC@[j],
            decreases 32 - i,
        {
            if data[i] != MAGIC[i] {
                assert(data@.subrange(0, 32)[i as int] != MAGIC@[i as int]);
                return Err(MetadataError::BadMagic);
            }
            i = i + 1;
        }
        assert(data@.subrange(0, 32) =~= MAGIC@);
        let version = data[32];
        if version != VERSION {
            return Err(MetadataError::BadVersion(version));
        }
        let kind = read_le16(data, 34);
        let num_blocks = read_le64(data, 40);
        let max_size = read_le64(data, 48);
        Ok(StoreMetadata { kind, num_blocks, max_size })
    }
}

/// Only the first 56 bytes decide the header.
pub proof fn lemma_parse_metadata_prefix(data: Seq<u8>)
    requires
        data.len() >= STORE_METADATA_SIZE,
    ensures
        parse_metadata(data) == parse_metadata(data.subrange(0, 56)),
{
    let h = data.subrange(0, 56);
    assert(h.subrange(0, 32) =~= data.subrange(0, 32));
    assert(h.subrange(34, 36) =~= data.subrange(34, 36));
    assert(h.subrange(40, 48) =~= data.subrange(40, 48));
    assert(h.subrange(48, 56) =~= data.subrange(48, 56));
}

/// Reading a header back gives the header written.
pub proof fn lemma_metadata_roundtrip(m: StoreMetadata)
    ensures
        metadata_image(m).len() == STORE_METADATA_SIZE,
        parse_metadata(metadata_image(m)) == Ok::<StoreMetadata, MetadataError>(m),
{
    vstd::bytes::lemma_auto_spec_u16_to_from_le_bytes();
    vstd::bytes::lemma_auto_spec_u64_to_from_le_bytes();
    let img = metadata_image(m);
    assert(img.subrange(0, 32) =~= MAGIC@);
    assert(img.subrange(34, 36) =~= spec_u16_to_le_bytes(m.kind));
    assert(img.subrange(40, 48) =~= spec_u64_to_le_bytes(m.num_blocks));
    assert(img.subrange(48, 56) =~= spec_u64_to_le_bytes(m.max_size));
}

/// The message of a header error.
pub open spec fn metadata_message(e: MetadataError) -> Seq<char> {
    match e {
        MetadataError::Truncated => "file is too short to hold metadata"@,
        MetadataError::BadMagic => "magic bytes do not match. Is this really an object store?"@,
        MetadataError::BadVersion(v) => "loaded file is version "@ + decimal(v as nat)
            + " but this binary supports only version "@ + decimal(VERSION as nat),
    }
}

impl MetadataError {
    /// A human-readable message.
    pub fn to_string(&self) -> (r: String)
        ensures
            r@ == metadata_message(*self),
    {
        match self {
            MetadataError::Truncated => String::from_str("file is too short to hold metadata"),
            MetadataError::BadMagic => String::from_str("magic bytes do not match. Is this really an object store?"),
            MetadataError::BadVersion(v) => {
                let mut s = String::from_str("loaded file is version ");
                push_decimal(&mut s, *v as u64);
                s.append(" but this binary supports only version ");
                push_decimal(&mut s, VERSION as u64);
                s
            },
        }
    }
}

} // verus!
