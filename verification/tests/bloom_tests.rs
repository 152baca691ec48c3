//! The bloom filters: no false negatives, merging, persistence, health.

use plexdb::bloom::{BloomFilter, BloomFilterCollection};
use plexdb::error::PlexError;

#[test]
fn inserted_elements_are_always_contained() {
    let mut f = BloomFilter::new(1000, 10_000).unwrap();
    let keys = ["alpha", "beta", "gamma", "delta", "epsilon"];
    for k in keys.iter() {
        f.insert(k);
    }
    for k in keys.iter() {
        assert!(f.contains(k));
    }
}

#[test]
fn containment_survives_later_inserts() {
    let mut f = BloomFilter::new(1000, 10_000).unwrap();
    f.insert("first");
    for i in 0..200 {
        f.insert(&format!("filler-{}", i));
    }
    assert!(f.contains("first"));
}

#[test]
fn invalid_false_positive_rate_is_rejected() {
    assert!(matches!(BloomFilter::new(1000, 0), Err(PlexError::BloomFilter(_))));
    assert!(matches!(BloomFilter::new(1000, 1_000_000), Err(PlexError::BloomFilter(_))));
    assert!(matches!(BloomFilter::new(0, 10_000), Err(PlexError::BloomFilter(_))));
}

#[test]
fn clear_empties_the_filter() {
    let mut f = BloomFilter::new(100, 10_000).unwrap();
    f.insert("x");
    f.clear();
    assert!(!f.contains("x"));
    assert_eq!(f.inserted_elements, 0);
}

#[test]
fn merge_requires_matching_parameters() {
    let mut a = BloomFilter::new(100, 10_000).unwrap();
    let b = BloomFilter::new(5000, 10_000).unwrap();
    assert!(matches!(a.merge(&b), Err(PlexError::BloomFilter(_))));
}

#[test]
fn merge_is_a_bitwise_union() {
    let mut a = BloomFilter::new(100, 10_000).unwrap();
    let mut b = BloomFilter::new(100, 10_000).unwrap();
    a.insert("only-in-a");
    b.insert("only-in-b");
    a.merge(&b).unwrap();
    assert!(a.contains("only-in-a"));
    assert!(a.contains("only-in-b"));
}

#[test]
fn serialized_filter_round_trips() {
    let mut f = BloomFilter::new(100, 10_000).unwrap();
    f.insert("persisted");
    let bytes = f.to_bytes();
    let g = BloomFilter::from_bytes(bytes.as_slice()).unwrap();
    assert_eq!(g.size, f.size);
    assert_eq!(g.hash_functions, f.hash_functions);
    assert_eq!(g.inserted_elements, 1);
    assert!(g.contains("persisted"));
}

#[test]
fn garbage_bytes_are_an_invalid_format() {
    assert!(matches!(
        BloomFilter::from_bytes(&[1, 2, 3]),
        Err(PlexError::InvalidFormat)
    ));
}

#[test]
fn fresh_filter_reports_zero_rate_and_no_resize() {
    let f = BloomFilter::new(100, 10_000).unwrap();
    assert_eq!(f.current_false_positive_rate(), 0);
    assert!(!f.should_resize());
    let stats = f.stats();
    assert_eq!(stats.set_bits, 0);
    assert_eq!(stats.inserted_elements, 0);
    assert!(stats.is_healthy());
}

#[test]
fn stats_count_set_bits() {
    let mut f = BloomFilter::new(100, 10_000).unwrap();
    f.insert("x");
    let stats = f.stats();
    assert!(stats.set_bits > 0);
    assert_eq!(stats.inserted_elements, 1);
    assert_eq!(stats.target_false_positive_ppm, 10_000);
}

#[test]
fn collection_routes_by_partition() {
    let mut c = BloomFilterCollection::new(4, 1000, 10_000).unwrap();
    c.insert(2, "key").unwrap();
    assert!(c.contains(2, "key").unwrap());
    assert!(matches!(c.insert(4, "key"), Err(PlexError::Config(_))));
    assert!(matches!(c.contains(9, "key"), Err(PlexError::Config(_))));
    assert_eq!(c.stats().len(), 4);
}

#[test]
fn collection_rebuild_keeps_healthy_filters() {
    let mut c = BloomFilterCollection::new(2, 1000, 10_000).unwrap();
    c.insert(0, "kept").unwrap();
    c.rebuild_degraded_filters().unwrap();
    assert!(c.contains(0, "kept").unwrap());
}

#[test]
fn collection_from_filters_takes_defaults_from_the_first() {
    let f = BloomFilter::new(100, 20_000).unwrap();
    let c = BloomFilterCollection::from_filters(vec![f]).unwrap();
    assert_eq!(c.default_fp_ppm, 20_000);
    assert!(matches!(
        BloomFilterCollection::from_filters(Vec::new()),
        Err(PlexError::Config(_))
    ));
}
