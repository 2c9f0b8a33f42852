//! Behaviour the other suites leave implicit: error variants and messages,
//! the reader's step-by-step interface, the writer used directly, stable key
//! order for repeated keys, and the reserved key 0.

use pachash::{
    merge, murmur_hash64, BlockStorage, EliasFanoIndex, LinearObjectReader, LinearObjectWriter,
    MergeError, MetadataError, PaCHashObjectStore, StoreError, StoreMetadata, BLOCK_LENGTH,
};

fn build(items: Vec<(u64, Vec<u8>)>) -> PaCHashObjectStore<EliasFanoIndex> {
    let bytes = PaCHashObjectStore::<EliasFanoIndex>::write_to_file(items).unwrap();
    PaCHashObjectStore::<EliasFanoIndex>::build_index(8, bytes).unwrap()
}

#[test]
fn readme_example() {
    let items = vec![(10u64, b"alpha".to_vec()), (20u64, b"beta".to_vec())];
    let bytes = PaCHashObjectStore::<EliasFanoIndex>::write_to_file(items).unwrap();
    let store = PaCHashObjectStore::<EliasFanoIndex>::build_index(8, bytes).unwrap();
    assert_eq!(store.query(10).unwrap().value, b"alpha");
    assert_eq!(store.query(20).unwrap().as_ref(), b"beta");
    assert!(store.query(30).is_none());
}

#[test]
fn written_table_parses_back() {
    let mut data = vec![0u8; BLOCK_LENGTH];
    let keys = [7u64, 9, 11];
    let offsets = [0u16, 100, 250];
    BlockStorage::write_table(&mut data, 3, 17, &keys, &offsets);
    let block = BlockStorage::parse(&data);
    assert_eq!(block.num_objects, 3);
    assert_eq!(block.empty_page_end, 17);
    assert_eq!(block.table_start, BLOCK_LENGTH - 3 - 3 * 10);
    assert_eq!(block.keys, keys.to_vec());
    assert_eq!(block.offsets, offsets.to_vec());
    // Bytes before the table are untouched.
    assert!(data[..block.table_start].iter().all(|&b| b == 0));
}

#[test]
fn key_zero_finds_the_header() {
    let items = vec![(5u64, b"five".to_vec())];
    let bytes = PaCHashObjectStore::<EliasFanoIndex>::write_to_file(items).unwrap();
    let header = bytes[0..56].to_vec();
    let store = PaCHashObjectStore::<EliasFanoIndex>::build_index(8, bytes).unwrap();
    let found = store.query(0).unwrap();
    assert_eq!(found.key, 0);
    assert_eq!(found.value, header);
}

#[test]
fn truncated_body_is_rejected() {
    let mut bytes =
        PaCHashObjectStore::<EliasFanoIndex>::write_to_file(vec![(1u64, vec![1u8; 10])]).unwrap();
    let declared = (bytes.len() / BLOCK_LENGTH + 1) as u64;
    bytes[40..48].copy_from_slice(&declared.to_le_bytes());
    match PaCHashObjectStore::<EliasFanoIndex>::build_index(8, bytes) {
        Err(e) => assert_eq!(e, StoreError::TruncatedBody),
        Ok(_) => panic!("a body shorter than declared should be rejected"),
    }
}

#[test]
fn merge_reports_a_bad_header() {
    let good =
        PaCHashObjectStore::<EliasFanoIndex>::write_to_file(vec![(1u64, vec![1u8; 10])]).unwrap();
    let mut bad = good.clone();
    bad[0] = b'Z';
    let err = merge(&[good, bad]).unwrap_err();
    assert_eq!(err, MergeError::Metadata(MetadataError::BadMagic));
}

#[test]
fn error_messages() {
    assert_eq!(
        MetadataError::Truncated.to_string(),
        "file is too short to hold metadata"
    );
    assert_eq!(
        MetadataError::BadMagic.to_string(),
        "magic bytes do not match. Is this really an object store?"
    );
    assert_eq!(
        MetadataError::BadVersion(7).to_string(),
        "loaded file is version 7 but this binary supports only version 1"
    );
    assert_eq!(
        StoreError::ReservedKey.to_string(),
        "key 0 is reserved for metadata"
    );
    assert_eq!(
        StoreError::Metadata(MetadataError::BadVersion(250)).to_string(),
        "loaded file is version 250 but this binary supports only version 1"
    );
    assert_eq!(StoreError::WrongType.to_string(), "opened file of wrong type");
    assert_eq!(
        StoreError::TruncatedBody.to_string(),
        "file is shorter than its declared block count"
    );
    assert_eq!(
        MergeError::KeyCollision(18446744073709551615).to_string(),
        "key collision on 18446744073709551615"
    );
    assert_eq!(
        MergeError::Metadata(MetadataError::Truncated).to_string(),
        "file is too short to hold metadata"
    );
}

#[test]
fn header_errors_convert() {
    assert_eq!(
        StoreError::from(MetadataError::BadMagic),
        StoreError::Metadata(MetadataError::BadMagic)
    );
    assert_eq!(
        MergeError::from(MetadataError::BadVersion(3)),
        MergeError::Metadata(MetadataError::BadVersion(3))
    );
}

#[test]
fn store_labels_with_long_multiplier() {
    assert_eq!(
        PaCHashObjectStore::<EliasFanoIndex>::name(12345),
        "PaCHashObjectStore a=12345 indexStructure=EliasFano"
    );
    assert_eq!(
        PaCHashObjectStore::<EliasFanoIndex>::name(0),
        "PaCHashObjectStore a=0 indexStructure=EliasFano"
    );
    let bytes =
        PaCHashObjectStore::<EliasFanoIndex>::write_to_file(vec![(1u64, vec![0u8; 10])]).unwrap();
    let store = PaCHashObjectStore::<EliasFanoIndex>::build_index(100, bytes).unwrap();
    assert_eq!(store.to_string(), "PaCHashObjectStore a=100 index=EliasFano");
    assert_eq!(store.a(), 100);
}

#[test]
fn reader_steps_through_objects() {
    let items = vec![
        (30u64, b"thirty".to_vec()),
        (10u64, b"ten".to_vec()),
        (20u64, vec![2u8; 9000]),
    ];
    let bytes = PaCHashObjectStore::<EliasFanoIndex>::write_to_file(items).unwrap();
    let mut reader = LinearObjectReader::new(&bytes).unwrap();
    assert!(reader.has_current());
    assert_eq!(reader.current_key(), 10);
    assert_eq!(reader.current_value(), b"ten");
    reader.advance();
    assert!(reader.has_current());
    assert_eq!(reader.current_key(), 20);
    assert_eq!(reader.current_value(), &vec![2u8; 9000][..]);
    reader.advance();
    assert_eq!(reader.current_key(), 30);
    assert_eq!(reader.current_value(), b"thirty");
    reader.advance();
    assert!(!reader.has_current());
    // Advancing past the end stays at the end.
    reader.advance();
    assert!(!reader.has_current());
}

#[test]
fn writer_used_directly() {
    let mut writer = LinearObjectWriter::new();
    assert_eq!(writer.blocks_generated, 0);
    writer.write(3, b"three");
    writer.write(4, &vec![4u8; 5000]);
    assert!(writer.blocks_generated >= 1);
    let bytes = writer.finish(StoreMetadata::TYPE_SEPARATOR);
    let meta = StoreMetadata::from_bytes(&bytes).unwrap();
    assert_eq!(meta.kind, StoreMetadata::TYPE_SEPARATOR);
    assert_eq!(meta.num_blocks as usize, bytes.len() / BLOCK_LENGTH);
    assert_eq!(meta.max_size, 5000);
    let objects = LinearObjectReader::new(&bytes).unwrap().read_all();
    assert_eq!(objects.len(), 2);
    assert_eq!(objects[0].key, 3);
    assert_eq!(objects[0].value, b"three".to_vec());
    assert_eq!(objects[1].key, 4);
    assert_eq!(objects[1].value, vec![4u8; 5000]);
}

#[test]
fn header_max_size_counts_the_header() {
    // The header pseudo object is 56 bytes, so small stores record 56.
    let bytes =
        PaCHashObjectStore::<EliasFanoIndex>::write_to_file(vec![(1u64, vec![0u8; 3])]).unwrap();
    let meta = StoreMetadata::from_bytes(&bytes).unwrap();
    assert_eq!(meta.max_size, 56);
}

#[test]
fn repeated_keys_keep_their_order() {
    let items = vec![
        (5u64, b"first".to_vec()),
        (3u64, b"low".to_vec()),
        (5u64, b"second".to_vec()),
    ];
    let bytes = PaCHashObjectStore::<EliasFanoIndex>::write_to_file(items).unwrap();
    let objects = LinearObjectReader::new(&bytes).unwrap().read_all();
    let keys: Vec<u64> = objects.iter().map(|o| o.key).collect();
    assert_eq!(keys, vec![3, 5, 5]);
    assert_eq!(objects[1].value, b"first".to_vec());
    assert_eq!(objects[2].value, b"second".to_vec());
    let store = PaCHashObjectStore::<EliasFanoIndex>::build_index(8, bytes).unwrap();
    assert_eq!(store.query(5).unwrap().as_ref(), b"first");
    assert_eq!(store.num_objects(), 3);
}

#[test]
fn merge_keeps_the_largest_key() {
    let a = PaCHashObjectStore::<EliasFanoIndex>::write_to_file(vec![
        (1u64, b"one".to_vec()),
        (u64::MAX, b"max".to_vec()),
    ])
    .unwrap();
    let b = PaCHashObjectStore::<EliasFanoIndex>::write_to_file(vec![(2u64, b"two".to_vec())])
        .unwrap();
    let merged = merge(&[a, b]).unwrap();
    let objects = LinearObjectReader::new(&merged).unwrap().read_all();
    let keys: Vec<u64> = objects.iter().map(|o| o.key).collect();
    assert_eq!(keys, vec![1, 2, u64::MAX]);
    assert_eq!(objects[2].value, b"max".to_vec());
}

#[test]
fn merge_of_one_store_holding_the_largest_key() {
    let a = build_bytes(vec![(u64::MAX, b"x".to_vec())]);
    let merged = merge(&[a]).unwrap();
    let store = PaCHashObjectStore::<EliasFanoIndex>::build_index(8, merged).unwrap();
    assert_eq!(store.num_objects(), 1);
    assert_eq!(store.query(u64::MAX).unwrap().as_ref(), b"x");
}

#[test]
fn merge_collision_on_the_largest_key() {
    let a = build_bytes(vec![(u64::MAX, b"x".to_vec())]);
    let b = build_bytes(vec![(u64::MAX, b"y".to_vec())]);
    assert_eq!(merge(&[a, b]).unwrap_err(), MergeError::KeyCollision(u64::MAX));
}

#[test]
fn reader_completes_when_the_last_block_has_no_entry() {
    let value = vec![7u8; 8017];
    let bytes =
        PaCHashObjectStore::<EliasFanoIndex>::write_to_file(vec![(1u64, value.clone())]).unwrap();
    assert_eq!(bytes.len(), 2 * BLOCK_LENGTH);
    let last = BlockStorage::parse(&bytes[BLOCK_LENGTH..]);
    assert_eq!(last.num_objects, 0);
    let mut reader = LinearObjectReader::new(&bytes).unwrap();
    assert!(reader.has_current());
    assert_eq!(reader.current_key(), 1);
    assert_eq!(reader.current_value(), &value[..]);
    reader.advance();
    assert!(!reader.has_current());
    reader.advance();
    assert!(!reader.has_current());
    assert_eq!(reader.current_key(), 1);
    assert_eq!(reader.current_value(), &value[..]);
    let objects = LinearObjectReader::new(&bytes).unwrap().read_all();
    assert_eq!(objects.len(), 1);
    assert_eq!(objects[0].value, value);
    // The merge reads it the same way.
    let merged = merge(&[bytes]).unwrap();
    let store = PaCHashObjectStore::<EliasFanoIndex>::build_index(8, merged).unwrap();
    assert_eq!(store.query(1).unwrap().value, value);
}

#[test]
fn writer_flushes_with_ten_bytes_or_fewer_left() {
    let mut w1 = LinearObjectWriter::new();
    w1.write(1, &[0u8; 4006]);
    assert_eq!(w1.blocks_generated, 0);
    let mut w2 = LinearObjectWriter::new();
    w2.write(1, &[0u8; 4007]);
    assert_eq!(w2.blocks_generated, 1);
}

#[test]
fn writer_counts_the_blocks_a_long_value_closes() {
    let mut w = LinearObjectWriter::new();
    w.write(1, &[0u8; 10000]);
    assert_eq!(w.blocks_generated, 2);
    w.write(2, &[1u8; 2183]);
    assert_eq!(w.blocks_generated, 3);
    w.write(3, &[2u8; 5]);
    assert_eq!(w.blocks_generated, 3);
    let bytes = w.finish(StoreMetadata::TYPE_PACHASH);
    assert_eq!(bytes.len(), 4 * BLOCK_LENGTH);
    let last = BlockStorage::parse(&bytes[3 * BLOCK_LENGTH..]);
    assert_eq!(last.empty_page_end, 42);
}

#[test]
fn finished_blocks_follow_the_packing_rule() {
    for max_len in [40usize, 900, 5000] {
        let mut state = 0x1234_5678u64;
        let mut items = Vec::new();
        for i in 0..60u64 {
            state = state.wrapping_mul(6364136223846793005).wrapping_add(1442695040888963407);
            let len = (state >> 33) as usize % (max_len + 1);
            items.push((i + 1, vec![(i & 0xFF) as u8; len]));
        }
        let bytes = PaCHashObjectStore::<EliasFanoIndex>::write_to_file(items).unwrap();
        let nb = bytes.len() / BLOCK_LENGTH;
        let first = BlockStorage::parse(&bytes[0..BLOCK_LENGTH]);
        assert_eq!(first.offsets[0], 0);
        for b in 0..nb - 1 {
            let block = BlockStorage::parse(&bytes[b * BLOCK_LENGTH..(b + 1) * BLOCK_LENGTH]);
            assert!(block.empty_page_end <= 10, "block {b}");
            if block.empty_page_end > 0 {
                let next = BlockStorage::parse(&bytes[(b + 1) * BLOCK_LENGTH..(b + 2) * BLOCK_LENGTH]);
                assert!(next.num_objects >= 1, "block {b}");
                assert_eq!(next.offsets[0], 0, "block {b}");
            }
        }
        let last = BlockStorage::parse(&bytes[(nb - 1) * BLOCK_LENGTH..]);
        let n = last.num_objects as usize;
        if n > 0 && last.keys[n - 1] == 0 {
            assert_eq!(last.empty_page_end, 42);
            assert!(last.table_start - last.offsets[n - 1] as usize > 118);
        } else {
            assert!(last.empty_page_end > 10 && last.empty_page_end <= 128);
        }
    }
}

#[test]
fn malformed_blocks_are_rejected() {
    let mut bytes =
        PaCHashObjectStore::<EliasFanoIndex>::write_to_file(vec![(1u64, vec![1u8; 10])]).unwrap();
    bytes[BLOCK_LENGTH - 2..].copy_from_slice(&500u16.to_le_bytes());
    match PaCHashObjectStore::<EliasFanoIndex>::build_index(8, bytes) {
        Err(e) => assert_eq!(e, StoreError::Malformed),
        Ok(_) => panic!("a table that does not fit should be rejected"),
    }
    assert_eq!(
        StoreError::Malformed.to_string(),
        "block tables are inconsistent or out of key order"
    );
}

#[test]
fn keys_out_of_order_are_rejected() {
    // Two stores glued so the second's keys fall below the first's.
    let mut w = LinearObjectWriter::new();
    w.write(1_000_000_000_000_000_000, &[1u8; 5000]);
    w.write(5, &[2u8; 5000]);
    w.write(6, &[3u8; 5000]);
    let bytes = w.finish(StoreMetadata::TYPE_PACHASH);
    match PaCHashObjectStore::<EliasFanoIndex>::build_index(8, bytes) {
        Err(e) => assert_eq!(e, StoreError::Malformed),
        Ok(_) => panic!("keys out of order should be rejected"),
    }
}

#[test]
fn merge_collision_on_the_smallest_shared_key() {
    let a = build_bytes(vec![(1u64, vec![1u8]), (5u64, vec![5u8]), (9u64, vec![9u8])]);
    let b = build_bytes(vec![(2u64, vec![2u8]), (9u64, vec![9u8])]);
    let c = build_bytes(vec![(5u64, vec![50u8])]);
    assert_eq!(merge(&[a, b, c]).unwrap_err(), MergeError::KeyCollision(5));
}

#[test]
fn merge_of_nothing_is_an_empty_store() {
    let merged = merge(&[]).unwrap();
    assert_eq!(merged.len(), BLOCK_LENGTH);
    let store = PaCHashObjectStore::<EliasFanoIndex>::build_index(8, merged).unwrap();
    assert_eq!(store.num_objects(), 0);
}

#[test]
fn query_reads_only_the_located_range() {
    // Keys spread over the whole key space give every block its own bin range,
    // so each query succeeds from a short range.
    let mut items = Vec::new();
    for i in 1..=60u64 {
        items.push((i.wrapping_mul(0x0400_0000_0000_0001), vec![(i & 0xFF) as u8; 700]));
    }
    let store = build(items.clone());
    for (key, value) in &items {
        assert_eq!(store.query(*key).unwrap().as_ref(), &value[..]);
    }
    assert!(store.num_blocks() > 5);
}

fn build_bytes(items: Vec<(u64, Vec<u8>)>) -> Vec<u8> {
    PaCHashObjectStore::<EliasFanoIndex>::write_to_file(items).unwrap()
}

#[test]
fn input_order_does_not_change_the_bytes() {
    let items: Vec<(u64, Vec<u8>)> =
        (1..=40u64).map(|k| (k * 7919, vec![(k & 0xFF) as u8; (k as usize * 131) % 900])).collect();
    let mut shuffled = items.clone();
    shuffled.reverse();
    shuffled.swap(3, 17);
    shuffled.swap(0, 25);
    let a = PaCHashObjectStore::<EliasFanoIndex>::write_to_file(items.clone()).unwrap();
    let b = PaCHashObjectStore::<EliasFanoIndex>::write_to_file(shuffled).unwrap();
    assert_eq!(a, b);
    let c = PaCHashObjectStore::<EliasFanoIndex>::write_to_file(items).unwrap();
    assert_eq!(a, c);
}

#[test]
fn string_writer_matches_the_writer_on_hashed_keys() {
    let pairs: Vec<(String, String)> =
        (0..30).map(|i| (format!("key-{i}"), "v".repeat(i * 37))).collect();
    let hashed: Vec<(u64, Vec<u8>)> = pairs
        .iter()
        .map(|(k, v)| (murmur_hash64(k.as_bytes()), v.as_bytes().to_vec()))
        .collect();
    let a = PaCHashObjectStore::<EliasFanoIndex>::write_to_file_strings(&pairs).unwrap();
    let b = PaCHashObjectStore::<EliasFanoIndex>::write_to_file(hashed).unwrap();
    assert_eq!(a, b);
}

#[test]
fn index_costs_about_six_bits_per_block() {
    let items: Vec<(u64, Vec<u8>)> =
        (1..=3000u64).map(|k| (k.wrapping_mul(0x9E37_79B9_7F4A_7C15) | 1, vec![7u8; 300])).collect();
    let bytes = PaCHashObjectStore::<EliasFanoIndex>::write_to_file(items).unwrap();
    let num_blocks = bytes.len() / BLOCK_LENGTH;
    assert!(num_blocks > 200);
    let store = PaCHashObjectStore::<EliasFanoIndex>::build_index(8, bytes).unwrap();
    assert!(8 * store.index_space() <= 6 * num_blocks + 135);
}

#[test]
fn merging_one_store_gives_back_its_bytes() {
    let items: Vec<(u64, Vec<u8>)> =
        (1..=50u64).map(|k| (k * 3 + 1, vec![(k % 251) as u8; (k as usize * 97) % 6000])).collect();
    let bytes = PaCHashObjectStore::<EliasFanoIndex>::write_to_file(items).unwrap();
    let merged = merge(&[bytes.clone()]).unwrap();
    assert_eq!(merged, bytes);
}

#[test]
fn merging_disjoint_stores_writes_what_writing_everything_writes() {
    let all: Vec<(u64, Vec<u8>)> =
        (1..=90u64).map(|k| (k * 11, vec![(k % 200) as u8; (k as usize * 53) % 3000])).collect();
    let parts: Vec<Vec<u8>> = (0..3u64)
        .map(|r| {
            let part: Vec<(u64, Vec<u8>)> =
                all.iter().filter(|(k, _)| (k / 11) % 3 == r).cloned().collect();
            PaCHashObjectStore::<EliasFanoIndex>::write_to_file(part).unwrap()
        })
        .collect();
    let merged = merge(&parts).unwrap();
    let direct = PaCHashObjectStore::<EliasFanoIndex>::write_to_file(all).unwrap();
    assert_eq!(merged, direct);
}

#[test]
fn write_table_lays_out_the_trailer() {
    let mut block = vec![0xAAu8; BLOCK_LENGTH];
    BlockStorage::write_table(&mut block, 2, 9, &[5, 7], &[0, 100]);
    let ts = BLOCK_LENGTH - 3 - 20;
    assert!(block[..ts].iter().all(|&b| b == 0xAA));
    assert_eq!(&block[ts..ts + 8], &5u64.to_le_bytes());
    assert_eq!(&block[ts + 8..ts + 16], &7u64.to_le_bytes());
    assert_eq!(&block[ts + 16..ts + 18], &0u16.to_le_bytes());
    assert_eq!(&block[ts + 18..ts + 20], &100u16.to_le_bytes());
    assert_eq!(block[BLOCK_LENGTH - 3], 9);
    assert_eq!(&block[BLOCK_LENGTH - 2..], &2u16.to_le_bytes());
}

#[test]
fn a_header_declaring_no_blocks_opens_empty() {
    let meta = StoreMetadata {
        kind: StoreMetadata::TYPE_PACHASH,
        num_blocks: 0,
        max_size: 0,
    };
    let store =
        PaCHashObjectStore::<EliasFanoIndex>::build_index(8, meta.to_bytes().to_vec()).unwrap();
    assert_eq!(store.num_blocks(), 0);
    assert_eq!(store.num_objects(), 0);
    assert!(store.query(1).is_none());
    assert!(store.query(u64::MAX).is_none());
}

#[test]
fn reader_opens_reading_only_what_it_needs() {
    let mut bytes = PaCHashObjectStore::<EliasFanoIndex>::write_to_file(vec![
        (7u64, b"only one".to_vec()),
        (9u64, b"x".to_vec()),
    ])
    .unwrap();
    assert_eq!(bytes.len(), BLOCK_LENGTH);
    for declared in [0u64, 5] {
        let mut meta = StoreMetadata::from_bytes(&bytes).unwrap();
        meta.num_blocks = declared;
        bytes[..56].copy_from_slice(&meta.to_bytes());
        let reader = LinearObjectReader::new(&bytes).unwrap();
        assert_eq!(reader.current_key(), 7);
        assert_eq!(reader.current_value(), b"only one");
    }
}
