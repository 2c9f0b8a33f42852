//! Round-trip: write a store, read every object back, compare to the input.

use pachash::{EliasFanoIndex, LinearObjectReader, PaCHashObjectStore};
use std::collections::HashMap;

/// Build a store, read it back with the linear reader, and check the object set
/// matches the input regardless of order.
fn roundtrip(items: Vec<(u64, Vec<u8>)>) {
    let expected: HashMap<u64, Vec<u8>> = items.iter().cloned().collect();
    let bytes = PaCHashObjectStore::<EliasFanoIndex>::write_to_file(items).unwrap();

    let reader = LinearObjectReader::new(&bytes).unwrap();
    let objects = reader.read_all();

    assert_eq!(objects.len(), expected.len(), "object count");
    let mut seen = HashMap::new();
    for obj in objects {
        assert!(obj.key != 0, "no terminator or header leaks through");
        let want = expected.get(&obj.key).expect("unknown key read back");
        assert_eq!(&obj.value, want, "value for key {}", obj.key);
        assert!(
            seen.insert(obj.key, ()).is_none(),
            "duplicate key read back"
        );
    }
}

/// splitmix64 seed used across all generated inputs.
const SEED: u64 = 0x9E37_79B9_7F4A_7C15;

/// One splitmix64 step. Mutates `state` and returns the next value.
fn splitmix64(state: &mut u64) -> u64 {
    *state = state.wrapping_add(0x9E37_79B9_7F4A_7C15);
    let mut z = *state;
    z = (z ^ (z >> 30)).wrapping_mul(0xBF58_476D_1CE4_E5B9);
    z = (z ^ (z >> 27)).wrapping_mul(0x94D0_49BB_1331_11EB);
    z ^ (z >> 31)
}

/// Generate `n` items with distinct integer keys and byte values.
///
/// Key `i` is `i + 1` so no key is 0. Value `i` is `length_i` copies of the
/// byte `i & 0xFF`, with `length_i` drawn from splitmix64 and bounded by
/// `max_len`.
fn gen_items(n: usize, max_len: usize) -> Vec<(u64, Vec<u8>)> {
    let mut state = SEED;
    let mut items = Vec::with_capacity(n);
    for i in 0..n {
        let len = (splitmix64(&mut state) as usize) % (max_len + 1);
        let byte = (i & 0xFF) as u8;
        items.push(((i + 1) as u64, vec![byte; len]));
    }
    items
}

#[test]
fn roundtrip_small_values() {
    roundtrip(gen_items(100, 40));
}

#[test]
fn roundtrip_medium_values() {
    roundtrip(gen_items(80, 800));
}

#[test]
fn roundtrip_block_filling_values() {
    // Sizes near a full data block exercise the exact-fill boundaries.
    roundtrip(gen_items(60, 4086));
}

#[test]
fn roundtrip_multi_block_values() {
    roundtrip(gen_items(40, 20000));
}

#[test]
fn roundtrip_single_object() {
    roundtrip(vec![(7u64, b"only one".to_vec())]);
}

#[test]
fn roundtrip_empty_store() {
    roundtrip(vec![]);
}

#[test]
fn roundtrip_mixed_sizes() {
    let mut items = Vec::new();
    for i in 0..50u64 {
        let len = match i % 5 {
            0 => 0,
            1 => 10,
            2 => 4000,
            3 => 9000,
            _ => 30000,
        };
        items.push((i + 1, vec![(i & 0xFF) as u8; len]));
    }
    roundtrip(items);
}

#[test]
fn query_finds_every_key() {
    let items = gen_items(120, 600);
    let expected: HashMap<u64, Vec<u8>> = items.iter().cloned().collect();
    let bytes = PaCHashObjectStore::<EliasFanoIndex>::write_to_file(items).unwrap();
    let store = PaCHashObjectStore::<EliasFanoIndex>::build_index(8, bytes).unwrap();

    assert_eq!(store.num_objects(), expected.len());
    for (key, value) in &expected {
        let result = store.query(*key).expect("key present");
        assert_eq!(result.as_ref(), &value[..], "key {key}");
    }
}
