use baumdb::bloom_filter::BloomHasher;
use baumdb::bloom_filter::DefaultBloomFilter;
use baumdb::error::DbError;
use std::hash::Hasher;

#[test]
fn added_keys_are_accepted() {
    let mut filter = DefaultBloomFilter::default();
    let keys: Vec<String> = (0..500).map(|i| format!("key-{i}")).collect();
    for key in &keys {
        filter.add_key(key);
        assert!(filter.may_contain_key(key));
    }
    for key in &keys {
        assert!(filter.may_contain_key(key));
    }
}

#[test]
fn empty_filter_accepts_nothing() {
    let filter = DefaultBloomFilter::default();
    assert!(!filter.may_contain_key("foo"));
    assert!(!filter.may_contain_key(""));
}

#[test]
fn filter_without_rounds_accepts_everything() {
    let filter = DefaultBloomFilter::new(8, 0);
    assert!(filter.may_contain_key("anything"));
}

#[test]
fn one_position_filter_accepts_everything_after_one_key() {
    let mut filter = DefaultBloomFilter::new(1, 3);
    assert!(!filter.may_contain_key("a"));
    filter.add_key("a");
    assert!(filter.may_contain_key("b"));
}

#[test]
fn adding_a_key_sets_the_positions_it_hashes_to() {
    let hasher = BloomHasher { size: 64, n_hashes: 4 };
    let positions = hasher.hash_key("foo");
    assert_eq!(positions.len(), 4);
    assert!(positions.iter().all(|p| *p < 64));
    assert_eq!(positions, hasher.hash_key("foo"));

    let mut filter = DefaultBloomFilter::new(64, 4);
    filter.add_key("foo");
    let bytes = filter.into_bytes();
    assert_eq!(bytes.len(), 65);
    assert_eq!(bytes[64], 4);
    for p in 0..64 {
        let expected = if positions.contains(&p) { 1 } else { 0 };
        assert_eq!(bytes[p], expected);
    }
}

#[test]
fn rounds_hash_the_key_followed_by_the_round_numbers() {
    let mut hasher = std::collections::hash_map::DefaultHasher::new();
    hasher.write(b"foo");
    let mut expected = Vec::new();
    for round in 0..3u8 {
        hasher.write(&[round]);
        expected.push((hasher.finish() % 1000) as usize);
    }
    let positions = BloomHasher { size: 1000, n_hashes: 3 }.hash_key("foo");
    assert_eq!(positions, expected);
}

#[test]
fn filter_survives_writing_and_reading() {
    let mut filter = DefaultBloomFilter::new(128, 3);
    filter.add_key("alpha");
    filter.add_key("beta");
    let bytes = filter.into_bytes();
    let back = DefaultBloomFilter::try_from(bytes.clone()).unwrap();
    assert!(back.may_contain_key("alpha"));
    assert!(back.may_contain_key("beta"));
    assert_eq!(back.into_bytes(), bytes);
}

#[test]
fn filter_of_fewer_than_two_bytes_is_a_decode_error() {
    assert_eq!(DefaultBloomFilter::try_from(Vec::new()).err(), Some(DbError::Decode));
    assert_eq!(DefaultBloomFilter::try_from(vec![5]).err(), Some(DbError::Decode));
    let smallest = DefaultBloomFilter::try_from(vec![1, 5]).unwrap();
    assert!(smallest.may_contain_key("x"));
    assert_eq!(smallest.into_bytes(), vec![1, 5]);
}
