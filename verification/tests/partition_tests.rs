//! The partition layer: routing, the write and delete paths, tombstone
//! behaviour, compaction, and recovery replay.

use plexdb::error::PlexError;
use plexdb::partition::{Partition, PartitionConfig, PartitionManager};
use plexdb::wal::{WALConfig, WAL};

fn small_config() -> PartitionConfig {
    PartitionConfig {
        partition_count: 4,
        max_partition_size: 1024 * 1024,
        bloom_filter_size: 1000,
        bloom_filter_fp_ppm: 10_000,
        enable_compression: false,
        compaction_threshold_permille: 700,
    }
}

fn wal_config() -> WALConfig {
    WALConfig {
        max_file_size: 1024 * 1024,
        sync_interval_ms: 1000,
        max_entries_per_file: 10_000,
        compress_old_files: false,
        retention_period_ms: 1000,
    }
}

fn new_manager() -> PartitionManager {
    PartitionManager::new(small_config(), WAL::new(wal_config())).unwrap()
}

#[test]
fn set_then_get_round_trips() {
    let mut m = new_manager();
    m.set("alpha", "one").unwrap();
    m.set("beta", "two").unwrap();
    assert_eq!(m.get("alpha").unwrap(), Some("one".to_string()));
    assert_eq!(m.get("beta").unwrap(), Some("two".to_string()));
    assert_eq!(m.get("missing").unwrap(), None);
}

#[test]
fn set_overwrites_latest_wins() {
    let mut m = new_manager();
    m.set("k", "old").unwrap();
    m.set("k", "new").unwrap();
    assert_eq!(m.get("k").unwrap(), Some("new".to_string()));
}

#[test]
fn empty_keys_are_rejected() {
    let mut m = new_manager();
    assert!(matches!(m.set("", "v"), Err(PlexError::KeyIsEmpty)));
    assert!(matches!(m.delete(""), Err(PlexError::KeyIsEmpty)));
}

#[test]
fn delete_removes_the_key() {
    let mut m = new_manager();
    m.set("k", "v").unwrap();
    m.delete("k").unwrap();
    assert_eq!(m.get("k").unwrap(), None);
}

#[test]
fn deleting_an_absent_key_fails_without_corrupting_the_index() {
    let mut m = new_manager();
    m.set("kept", "value").unwrap();
    assert!(matches!(m.delete("absent"), Err(PlexError::KeyNotFound)));
    // A second attempt fails the same way, and the index is intact.
    assert!(matches!(m.delete("absent"), Err(PlexError::KeyNotFound)));
    assert_eq!(m.get("kept").unwrap(), Some("value".to_string()));
    m.set("kept2", "value2").unwrap();
    assert_eq!(m.get("kept2").unwrap(), Some("value2".to_string()));
}

#[test]
fn deleting_twice_fails_the_second_time() {
    let mut m = new_manager();
    m.set("k", "v").unwrap();
    m.delete("k").unwrap();
    assert!(matches!(m.delete("k"), Err(PlexError::KeyNotFound)));
}

#[test]
fn every_write_reaches_the_wal_first() {
    let mut m = new_manager();
    m.set("a", "1").unwrap();
    m.delete("a").unwrap();
    m.set("b", "2").unwrap();
    assert_eq!(m.wal.sequence_number, 3);
    assert_eq!(m.wal.entries_after(0).len(), 3);
}

#[test]
fn stats_count_keys_and_tombstones() {
    let mut m = new_manager();
    m.set("a", "1").unwrap();
    m.set("b", "2").unwrap();
    m.set("c", "3").unwrap();
    m.delete("b").unwrap();
    let stats = m.stats();
    assert_eq!(stats.partition_count, 4);
    assert_eq!(stats.total_keys, 2);
    assert_eq!(stats.total_tombstones, 1);
}

#[test]
fn compaction_drops_tombstones_and_keeps_live_keys() {
    let mut p = Partition::new(0, 1000, 10_000).unwrap();
    for i in 0..100 {
        p.set_value(&format!("key{:03}", i), &format!("value{:03}", i)).unwrap();
    }
    for i in 10..100 {
        p.delete_value(&format!("key{:03}", i)).unwrap();
    }
    assert_eq!(p.metadata.key_count, 10);
    assert_eq!(p.metadata.tombstone_count, 90);
    p.compact(1000, 10_000).unwrap();
    assert_eq!(p.metadata.key_count, 10);
    assert_eq!(p.metadata.tombstone_count, 0);
    assert_eq!(p.metadata.generation, 1);
    for i in 0..10 {
        assert_eq!(
            p.get_value(&format!("key{:03}", i)).unwrap(),
            Some(format!("value{:03}", i))
        );
    }
    for i in 10..100 {
        assert_eq!(p.get_value(&format!("key{:03}", i)).unwrap(), None);
    }
}

#[test]
fn manager_compaction_preserves_contents() {
    let mut m = new_manager();
    for i in 0..20 {
        m.set(&format!("k{}", i), &format!("v{}", i)).unwrap();
    }
    for i in 0..10 {
        m.delete(&format!("k{}", i)).unwrap();
    }
    for pid in 0..4 {
        m.compact_partition(pid).unwrap();
    }
    for i in 0..10 {
        assert_eq!(m.get(&format!("k{}", i)).unwrap(), None);
    }
    for i in 10..20 {
        assert_eq!(m.get(&format!("k{}", i)).unwrap(), Some(format!("v{}", i)));
    }
}

#[test]
fn replay_rebuilds_the_index_from_segments() {
    let mut p = Partition::new(0, 1000, 10_000).unwrap();
    p.set_value("a", "1").unwrap();
    p.set_value("b", "2").unwrap();
    p.set_value("a", "updated").unwrap();
    p.delete_value("b").unwrap();
    // Forget the in-memory state and rebuild it from the segment bytes.
    p.load().unwrap();
    assert_eq!(p.get_value("a").unwrap(), Some("updated".to_string()));
    assert_eq!(p.get_value("b").unwrap(), None);
    assert_eq!(p.metadata.key_count, 1);
    assert_eq!(p.metadata.tombstone_count, 1);
}

#[test]
fn manager_recovery_determinism() {
    let mut m = new_manager();
    m.set("x", "1").unwrap();
    m.set("y", "2").unwrap();
    m.delete("x").unwrap();
    m.load_from_disk().unwrap();
    assert_eq!(m.get("x").unwrap(), None);
    assert_eq!(m.get("y").unwrap(), Some("2".to_string()));
}

#[test]
fn wal_replay_reconstructs_intent() {
    let mut m1 = new_manager();
    m1.set("x", "1").unwrap();
    m1.set("y", "2").unwrap();
    m1.delete("x").unwrap();
    // A fresh engine, holding only the log bytes, reapplies the intent.
    let files: Vec<Vec<u8>> = m1.wal.files.iter().map(|f| f.data.clone()).collect();
    let wal = WAL::open(files, wal_config());
    let mut m2 = PartitionManager::new(small_config(), wal).unwrap();
    m2.replay_wal(0).unwrap();
    assert_eq!(m2.get("x").unwrap(), None);
    assert_eq!(m2.get("y").unwrap(), Some("2".to_string()));
}

#[test]
fn compaction_eligibility_follows_the_tombstone_share() {
    let mut m = new_manager();
    m.set("a", "1").unwrap();
    // One live key, no tombstones: not eligible.
    for pid in 0..4 {
        assert!(!m.should_compact_partition(pid));
    }
}

#[test]
fn rebalance_signal_on_empty_partitions_is_quiet() {
    let m = new_manager();
    assert!(!m.partitioner.rebalance_needed(&m.partitions));
}

#[test]
fn routing_is_deterministic_and_in_range() {
    let m = new_manager();
    let a = m.partitioner.partition_for_key("some-key");
    let b = m.partitioner.partition_for_key("some-key");
    assert_eq!(a, b);
    assert!(a < 4);
}
