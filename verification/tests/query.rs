//! Query behavior: present keys resolve, absent keys miss, string keys work.

use pachash::{EliasFanoIndex, PaCHashObjectStore};
use std::collections::HashSet;

/// splitmix64 seed used across all generated inputs.
const SEED: u64 = 0x9E37_79B9_7F4A_7C15;

/// One splitmix64 step. Mutates `state` and returns the next value.
fn splitmix64(state: &mut u64) -> u64 {
    *state = state.wrapping_add(0x9E37_79B9_7F4A_7C15);
    let mut z = *state;
    z = (z ^ (z >> 30)).wrapping_mul(0xBF58_476D_1CE4_E5B9);
    z = (z ^ (z >> 27)).wrapping_mul(0x94D0_49BB_1331_11EB);
    z ^ (z >> 31)
}

/// Generate `n` items with distinct integer keys and byte values.
///
/// Key `i` is `i + 1` so no key is 0. Value `i` is `length_i` copies of the
/// byte `i & 0xFF`, with `length_i` drawn from splitmix64 and bounded by
/// `max_len`.
fn gen_items(n: usize, max_len: usize) -> Vec<(u64, Vec<u8>)> {
    let mut state = SEED;
    let mut items = Vec::with_capacity(n);
    for i in 0..n {
        let len = (splitmix64(&mut state) as usize) % (max_len + 1);
        let byte = (i & 0xFF) as u8;
        items.push(((i + 1) as u64, vec![byte; len]));
    }
    items
}

#[test]
fn present_and_absent_keys() {
    let items = gen_items(200, 300);
    let present: HashSet<u64> = items.iter().map(|(k, _)| *k).collect();
    let bytes = PaCHashObjectStore::<EliasFanoIndex>::write_to_file(items.clone()).unwrap();
    let store = PaCHashObjectStore::<EliasFanoIndex>::build_index(8, bytes).unwrap();

    for (key, value) in &items {
        assert_eq!(store.query(*key).unwrap().as_ref(), &value[..]);
    }

    // Keys just outside the present set must miss.
    let mut misses = 0;
    for probe in 1_000_000u64..1_000_500 {
        if !present.contains(&probe) {
            assert!(store.query(probe).is_none());
            misses += 1;
        }
    }
    assert!(misses > 0);
}

#[test]
fn absent_key_returns_none_not_neighbor() {
    // A miss must not return a nearby key's value.
    let items = vec![
        (100u64, b"hundred".to_vec()),
        (200u64, b"two hundred".to_vec()),
        (300u64, b"three hundred".to_vec()),
    ];
    let bytes = PaCHashObjectStore::<EliasFanoIndex>::write_to_file(items).unwrap();
    let store = PaCHashObjectStore::<EliasFanoIndex>::build_index(8, bytes).unwrap();

    assert_eq!(store.query(100).unwrap().as_ref(), b"hundred");
    assert!(store.query(150).is_none());
    assert!(store.query(250).is_none());
    assert!(store.query(99).is_none());
    assert!(store.query(301).is_none());
}

#[test]
fn string_api_roundtrip() {
    let items: Vec<(String, String)> = (0..50)
        .map(|i| (format!("key_{i}"), format!("value number {i}")))
        .collect();
    let bytes = PaCHashObjectStore::<EliasFanoIndex>::write_to_file_strings(&items).unwrap();
    let store = PaCHashObjectStore::<EliasFanoIndex>::build_index(8, bytes).unwrap();

    for (k, v) in &items {
        let result = store.query_string(k).expect("string key present");
        assert_eq!(result.as_ref(), v.as_bytes());
    }
    assert!(store.query_string("key_that_is_absent").is_none());
}

#[test]
fn query_on_empty_store_misses() {
    let bytes = PaCHashObjectStore::<EliasFanoIndex>::write_to_file(vec![]).unwrap();
    let store = PaCHashObjectStore::<EliasFanoIndex>::build_index(8, bytes).unwrap();
    assert_eq!(store.num_objects(), 0);
    for key in [1u64, 42, u64::MAX] {
        assert!(store.query(key).is_none());
    }
}

#[test]
fn display_names_multiplier_and_index() {
    let bytes =
        PaCHashObjectStore::<EliasFanoIndex>::write_to_file(vec![(1u64, vec![0u8; 10])]).unwrap();
    let store = PaCHashObjectStore::<EliasFanoIndex>::build_index(8, bytes).unwrap();
    assert_eq!(store.to_string(), "PaCHashObjectStore a=8 index=EliasFano");
}
