//! The cache tier: LRU ordering and eviction, block slicing, layering,
//! and the transparent-compression wrapper.

use plexdb::block_cache::{Block, BlockCache, BlockLru, CacheLayer};
use plexdb::compressed_cache::{ByteCache, CompressedCache};
use plexdb::compression::Compressor;
use plexdb::error::PlexError;
use plexdb::lru_cache::LruCache;

#[test]
fn lru_evicts_the_least_recently_used_key() {
    let mut c = LruCache::new(2);
    c.set("a", "1");
    c.set("b", "2");
    // Touch a, so b is now the least recently used.
    assert_eq!(c.get("a"), Some("1".to_string()));
    c.set("c", "3");
    assert_eq!(c.get("b"), None);
    assert_eq!(c.get("a"), Some("1".to_string()));
    assert_eq!(c.get("c"), Some("3".to_string()));
    assert_eq!(c.stats().evictions, 1);
}

#[test]
fn lru_without_a_get_evicts_the_oldest_insert() {
    let mut c = LruCache::new(2);
    c.set("a", "1");
    c.set("b", "2");
    c.set("c", "3");
    assert_eq!(c.get("a"), None);
    assert_eq!(c.get("b"), Some("2".to_string()));
}

#[test]
fn lru_set_on_an_existing_key_updates_without_eviction() {
    let mut c = LruCache::new(2);
    c.set("a", "1");
    c.set("b", "2");
    c.set("a", "updated");
    assert_eq!(c.size(), 2);
    assert_eq!(c.get("a"), Some("updated".to_string()));
    assert_eq!(c.stats().evictions, 0);
}

#[test]
fn lru_remove_and_clear() {
    let mut c = LruCache::new(4);
    c.set("a", "1");
    c.set("b", "2");
    assert_eq!(c.remove("a"), Some("1".to_string()));
    assert_eq!(c.remove("a"), None);
    assert_eq!(c.size(), 1);
    c.clear();
    assert_eq!(c.size(), 0);
    assert_eq!(c.capacity(), 4);
}

#[test]
fn lru_counts_hits_and_misses() {
    let mut c = LruCache::new(2);
    c.set("a", "1");
    c.get("a");
    c.get("a");
    c.get("nope");
    let stats = c.stats();
    assert_eq!(stats.hits, 2);
    assert_eq!(stats.misses, 1);
}

#[test]
fn block_cache_slices_the_requested_range() {
    let mut bc = BlockCache::new(BlockLru::new(4), 64);
    let data: Vec<u8> = (0u8..32u8).collect();
    bc.set_block(Block { data, offset: 64, size: 32, checksum: 0 });
    assert_eq!(bc.align_to_block(70), 64);
    let slice = bc.get_data(68, 4).unwrap();
    assert_eq!(slice, vec![4u8, 5, 6, 7]);
}

#[test]
fn block_cache_rejects_a_range_past_the_block() {
    let mut bc = BlockCache::new(BlockLru::new(4), 64);
    let data: Vec<u8> = (0u8..16u8).collect();
    bc.set_block(Block { data, offset: 0, size: 16, checksum: 0 });
    assert_eq!(bc.get_data(8, 100), None);
    assert_eq!(bc.get_data(200, 4), None);
    let block = bc.get_block(5).unwrap();
    assert_eq!(block.offset, 0);
}

#[test]
fn cache_layer_promotes_second_level_hits() {
    let l1 = LruCache::new(2);
    let mut l2 = LruCache::new(8);
    l2.set("warm", "value");
    let mut layer = CacheLayer::new(l1, l2, None);
    assert_eq!(layer.get("warm"), Some("value".to_string()));
    // The hit moved into the first level.
    assert_eq!(layer.stats().0.size, 1);
    assert_eq!(layer.get("cold"), None);
}

#[test]
fn cache_layer_writes_reach_the_first_level_only() {
    let mut layer = CacheLayer::new(LruCache::new(4), LruCache::new(4), None);
    layer.set("k", "v");
    let (l1, l2) = layer.stats();
    assert_eq!(l1.size, 1);
    assert_eq!(l2.size, 0);
    assert_eq!(layer.get("k"), Some("v".to_string()));
}

#[test]
fn cache_layer_remove_clears_both_levels() {
    let l1 = LruCache::new(2);
    let mut l2 = LruCache::new(8);
    l2.set("k", "deep");
    let mut layer = CacheLayer::new(l1, l2, None);
    assert_eq!(layer.remove("k"), Some("deep".to_string()));
    assert_eq!(layer.get("k"), None);
    layer.set("x", "1");
    layer.clear();
    assert_eq!(layer.get("x"), None);
}

#[test]
fn every_compressor_round_trips() {
    let payload = b"the quick brown fox jumps over the lazy dog, repeatedly and compressibly, \
                    the quick brown fox jumps over the lazy dog";
    let trained = plexdb::compression::train_dictionary(&vec![payload.to_vec()]);
    let compressors = vec![
        Compressor::Uncompressed,
        Compressor::Lz4,
        Compressor::Snappy,
        Compressor::Zstd { level: 3 },
        Compressor::Adaptive { threshold_permille: 900 },
        Compressor::Dictionary { dictionary: trained },
    ];
    for c in compressors {
        let compressed = c.compress(payload).unwrap();
        let back = c.decompress(compressed.as_slice()).unwrap();
        assert_eq!(back, payload.to_vec());
    }
}

#[test]
fn compression_actually_shrinks_repetitive_data() {
    let payload = vec![b'z'; 4096];
    let compressors = vec![
        Compressor::Lz4,
        Compressor::Snappy,
        Compressor::Zstd { level: 3 },
        Compressor::Adaptive { threshold_permille: 900 },
    ];
    for c in compressors {
        let compressed = c.compress(payload.as_slice()).unwrap();
        assert!(compressed.len() < payload.len());
        let back = c.decompress(compressed.as_slice()).unwrap();
        assert_eq!(back, payload);
    }
}

#[test]
fn undecodable_bytes_fail_decompression() {
    let garbage = vec![0xFFu8; 16];
    assert!(matches!(
        Compressor::Lz4.decompress(garbage.as_slice()),
        Err(PlexError::Compression(_))
    ));
    assert!(matches!(
        Compressor::Adaptive { threshold_permille: 900 }.decompress(&[]),
        Err(PlexError::Compression(_))
    ));
}

#[test]
fn compressed_cache_round_trips_values() {
    let mut c = CompressedCache::new(ByteCache::new(4), Compressor::Lz4);
    c.set("k", "a value worth caching");
    assert_eq!(c.get("k"), Some("a value worth caching".to_string()));
    assert_eq!(c.get("other"), None);
    assert_eq!(c.remove("k"), Some("a value worth caching".to_string()));
    assert_eq!(c.get("k"), None);
}

#[test]
fn compressed_cache_with_zstd_round_trips() {
    let mut c = CompressedCache::new(ByteCache::new(4), Compressor::Zstd { level: 3 });
    c.set("k", "zstandard value");
    assert_eq!(c.get("k"), Some("zstandard value".to_string()));
}

#[test]
fn compressed_cache_treats_corrupt_bytes_as_a_miss() {
    let mut c = CompressedCache::new(ByteCache::new(4), Compressor::Lz4);
    c.set("k", "value");
    // Corrupt the stored bytes behind the cache's back.
    c.inner.entries[0].1 = vec![0xFF; 8];
    assert_eq!(c.get("k"), None);
}

#[test]
fn compressed_cache_clear_and_sizes() {
    let mut c = CompressedCache::new(ByteCache::new(4), Compressor::Uncompressed);
    c.set("a", "1");
    c.set("b", "2");
    assert_eq!(c.size(), 2);
    assert_eq!(c.capacity(), 4);
    c.clear();
    assert_eq!(c.size(), 0);
}

#[test]
fn dictionary_compressor_handles_escape_bytes() {
    // Values holding the escape byte itself must survive the substitution.
    let payload: Vec<u8> = vec![0xFF, 0x00, 0xFF, 0xFF, 0x41, 0x42, 0x43, 0x44, 0xFF];
    let dict = plexdb::compression::train_dictionary(&vec![vec![0x41, 0x42, 0x43, 0x44, 0x41]]);
    let c = Compressor::Dictionary { dictionary: dict };
    let compressed = c.compress(payload.as_slice()).unwrap();
    assert_eq!(c.decompress(compressed.as_slice()).unwrap(), payload);
    // An empty dictionary degrades to plain escaping.
    let plain = Compressor::Dictionary { dictionary: Vec::new() };
    let compressed2 = plain.compress(payload.as_slice()).unwrap();
    assert_eq!(plain.decompress(compressed2.as_slice()).unwrap(), payload);
}

#[test]
fn trained_dictionary_holds_sample_windows() {
    let sample = b"abcdabcdabcdabcd".to_vec();
    let dict = plexdb::compression::train_dictionary(&vec![sample.clone()]);
    assert_eq!(dict.len() % 4, 0);
    assert!(dict.len() <= 4 * 255);
    for entry in dict.chunks(4) {
        assert!(sample.windows(4).any(|w| w == entry));
    }
    // A dictionary hit makes repetitive data shrink below plain escaping.
    let c = Compressor::Dictionary { dictionary: dict };
    let compressed = c.compress(sample.as_slice()).unwrap();
    assert_eq!(c.decompress(compressed.as_slice()).unwrap(), sample);
}
