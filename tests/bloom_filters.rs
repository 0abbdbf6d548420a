use std::hash::{DefaultHasher, Hash, Hasher};

use doc_pipeline::bloom::{probe_indices, BloomFilter, SimpleBloomFilter, SlatedbBloomFilter};

fn std_hash(key: &[u8]) -> u64 {
    let mut hasher = DefaultHasher::new();
    key.hash(&mut hasher);
    hasher.finish()
}

#[test]
fn filter_not_in_should_be_exact() {}

#[test]
fn simple_test_bloom_filter_works() {
    let filter_size = 1000;
    let num_probes = 3;
    let mut filter = SimpleBloomFilter::new(filter_size, num_probes);
    filter.add_key(("apple").as_bytes());
    filter.add_key(("banana").as_bytes());
    filter.add_key(("orange").as_bytes());

    assert!(!filter.has_key("grape".as_bytes()));
    assert!(!filter.has_key("mango".as_bytes()));
    assert!(!filter.has_key("kiwi".as_bytes()));
}

#[test]
fn slatedb_test_bloom_filter_works() {
    let filter_size = 1000;
    let num_probes = 3;
    let mut filter = SlatedbBloomFilter::new(filter_size, num_probes);
    filter.add_key(("apple").as_bytes());
    filter.add_key(("banana").as_bytes());
    filter.add_key(("orange").as_bytes());

    assert!(!filter.has_key("grape".as_bytes()));
    assert!(!filter.has_key("mango".as_bytes()));
    assert!(!filter.has_key("kiwi".as_bytes()));
}

#[test]
fn added_keys_are_found() {
    let mut filter = SimpleBloomFilter::new(64, 4);
    for key in ["apple", "banana", "orange"] {
        filter.add_key(key.as_bytes());
    }
    for key in ["apple", "banana", "orange"] {
        assert!(filter.has_key(key.as_bytes()));
    }
}

#[test]
fn probe_indices_double_hashing() {
    // low half 1, high half 2
    let hash: u64 = (2u64 << 32) | 1;
    assert_eq!(probe_indices(hash, 10, 4), vec![1, 3, 5, 7]);
    assert_eq!(probe_indices(hash, 4, 4), vec![1, 3, 1, 3]);
    assert_eq!(probe_indices(hash, 10, 0), Vec::<usize>::new());
    // the sum wraps modulo 2^64
    let wrap: u64 = u64::MAX;
    let h1 = 0xFFFF_FFFFu64;
    let h2 = 0xFFFF_FFFFu64;
    let expected = (h1.wrapping_add(h2) % 1000) as usize;
    assert_eq!(probe_indices(wrap, 1000, 2), vec![(h1 % 1000) as usize, expected]);
}

#[test]
fn hash_key_uses_the_default_hasher() {
    let filter = SimpleBloomFilter::new(1000, 3);
    let key = "apple".as_bytes();
    assert_eq!(filter.hash_key(key), probe_indices(std_hash(key), 1000, 3));
    let slate = SlatedbBloomFilter::new(1000, 3);
    assert_eq!(slate.hash_key(key), probe_indices(std_hash(key), 1000, 3));
}

#[test]
fn add_hash_sets_the_probed_bits() {
    let mut filter = SimpleBloomFilter::new(10, 3);
    let hash: u64 = (2u64 << 32) | 1;
    filter.add_hash(hash);
    let on: Vec<usize> = (0..10).filter(|i| filter.bit_set[*i]).collect();
    assert_eq!(on, vec![1, 3, 5]);
    assert!(filter.has_hash(hash));
    assert!(!filter.has_hash((1u64 << 32) | 2));
}

#[test]
fn slatedb_encoding_layout() {
    let mut filter = SlatedbBloomFilter::new(10, 0x0102_0304);
    filter.bit_set[0] = true;
    filter.bit_set[9] = true;
    let bytes = filter.encode_to_vec();
    assert_eq!(
        bytes,
        vec![0x01, 0x02, 0, 0, 0, 0, 0, 0, 0, 10, 0x01, 0x02, 0x03, 0x04]
    );
    let shared = filter.encode();
    assert_eq!(&shared[..], &bytes[..]);
}

#[test]
fn slatedb_decode_of_encode() {
    let mut filter = SlatedbBloomFilter::new(12, 3);
    filter.add_key("apple".as_bytes());
    let decoded = SlatedbBloomFilter::decode(&filter.encode());
    assert_eq!(decoded.num_probes, 3);
    assert_eq!(decoded.bit_set, filter.bit_set);
    for key in ["apple", "banana", "orange", "grape", "mango", "kiwi"] {
        assert_eq!(decoded.has_key(key.as_bytes()), filter.has_key(key.as_bytes()));
    }

    let mut whole = SlatedbBloomFilter::new(1000, 3);
    whole.add_key("kiwi".as_bytes());
    let back = SlatedbBloomFilter::decode(&whole.encode_to_vec());
    assert_eq!(back.bit_set, whole.bit_set);
    assert!(back.has_key("kiwi".as_bytes()));
}

#[test]
fn slatedb_decode_trailer_only() {
    let decoded = SlatedbBloomFilter::decode(&[0, 0, 0, 0, 0, 0, 0, 0, 0, 0, 0, 7]);
    assert_eq!(decoded.num_probes, 7);
    assert!(decoded.bit_set.is_empty());
}

#[test]
fn slatedb_decode_cuts_an_oversized_count() {
    // one packed byte, a count of 100 bits
    let decoded = SlatedbBloomFilter::decode(&[0xFF, 0, 0, 0, 0, 0, 0, 0, 100, 0, 0, 0, 1]);
    assert_eq!(decoded.bit_set, vec![true; 8]);
    assert_eq!(decoded.num_probes, 1);
}

#[test]
fn empty_filter_without_probes() {
    let mut simple = SimpleBloomFilter::new(0, 0);
    simple.add_key("apple".as_bytes());
    assert!(simple.has_key("apple".as_bytes()));
    assert!(simple.hash_key("apple".as_bytes()).is_empty());
    let mut slate = SlatedbBloomFilter::new(0, 0);
    slate.add_key("apple".as_bytes());
    assert!(slate.has_key("pear".as_bytes()));
    assert!(slate.bit_set.is_empty());
}

#[test]
fn encoded_filter_answers_like_the_original() {
    let mut filter = SlatedbBloomFilter::new(1000, 3);
    for key in ["apple", "banana", "orange"] {
        filter.add_key(key.as_bytes());
    }
    let encoded = filter.encode_to_vec();
    let packed = BloomFilter::decode(&encoded);
    assert_eq!(&packed.encode()[..], &encoded[..]);
    for key in ["apple", "banana", "orange", "grape", "mango", "kiwi"] {
        assert_eq!(packed.has_key(key.as_bytes()), filter.has_key(key.as_bytes()));
    }
    assert!(packed.has_key("apple".as_bytes()));
    assert!(!packed.has_key("grape".as_bytes()));
}

#[test]
fn encoded_filter_probes_in_place() {
    // 16 bits with bits 1, 3 and 5 set, then the bit count and 3 probes
    let packed = BloomFilter::decode(&[0b0010_1010, 0, 0, 0, 0, 0, 0, 0, 0, 16, 0, 0, 0, 3]);
    let hash: u64 = (2u64 << 32) | 1;
    assert!(packed.has_hash(hash));
    assert!(!packed.has_hash((2u64 << 32) | 2));
}
