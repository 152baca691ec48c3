//! The write-ahead log: sequence numbering, rotation state, replay, and
//! resuming past existing files.

use plexdb::command::Command;
use plexdb::wal::{WALConfig, WAL};

fn test_config() -> WALConfig {
    WALConfig {
        max_file_size: 100 * 1024 * 1024,
        sync_interval_ms: 1000,
        max_entries_per_file: 1_000_000,
        compress_old_files: false,
        retention_period_ms: 24 * 60 * 60 * 1000,
    }
}

#[test]
fn sequence_numbers_increase_within_a_run() {
    let mut wal = WAL::new(test_config());
    let s1 = wal
        .append(&Command::Put { key: "a".to_string(), value: "1".to_string() })
        .unwrap();
    let s2 = wal
        .append(&Command::Put { key: "b".to_string(), value: "2".to_string() })
        .unwrap();
    let s3 = wal.append(&Command::Delete { key: "a".to_string() }).unwrap();
    assert_eq!(s1, 1);
    assert_eq!(s2, 2);
    assert_eq!(s3, 3);
}

#[test]
fn sequence_numbers_increase_across_restarts() {
    let mut wal = WAL::new(test_config());
    let mut seen: u64 = 0;
    for i in 0..5 {
        let s = wal
            .append(&Command::Put { key: format!("k{}", i), value: format!("v{}", i) })
            .unwrap();
        assert!(s > seen);
        seen = s;
    }
    // Reconstruct the log from the file bytes alone, as a restart would.
    let files: Vec<Vec<u8>> = wal.files.iter().map(|f| f.data.clone()).collect();
    let mut reopened = WAL::open(files, test_config());
    let next = reopened
        .append(&Command::Put { key: "after".to_string(), value: "restart".to_string() })
        .unwrap();
    assert!(next > seen);
    assert_eq!(next, seen + 1);
}

#[test]
fn replay_recovers_commands_in_order() {
    let mut wal = WAL::new(test_config());
    wal.append(&Command::Put { key: "a".to_string(), value: "1".to_string() }).unwrap();
    wal.append(&Command::Delete { key: "a".to_string() }).unwrap();
    wal.append(&Command::Put { key: "b".to_string(), value: "2".to_string() }).unwrap();
    let entries = wal.entries_after(0);
    assert_eq!(entries.len(), 3);
    assert_eq!(entries[0].sequence_number, 1);
    assert!(matches!(&entries[0].command, Command::Put { key, value } if key == "a" && value == "1"));
    assert!(matches!(&entries[1].command, Command::Delete { key } if key == "a"));
    assert!(matches!(&entries[2].command, Command::Put { key, value } if key == "b" && value == "2"));
}

#[test]
fn replay_skips_entries_already_reflected() {
    let mut wal = WAL::new(test_config());
    wal.append(&Command::Put { key: "a".to_string(), value: "1".to_string() }).unwrap();
    wal.append(&Command::Put { key: "b".to_string(), value: "2".to_string() }).unwrap();
    let entries = wal.entries_after(1);
    assert_eq!(entries.len(), 1);
    assert_eq!(entries[0].sequence_number, 2);
}

#[test]
fn a_file_with_a_bad_header_is_skipped() {
    let reopened = WAL::open(vec![vec![9, 9, 9, 9, 0, 0, 0]], test_config());
    assert_eq!(reopened.sequence_number, 0);
    assert_eq!(reopened.entries_after(0).len(), 0);
}

#[test]
fn rotation_by_entry_count_opens_new_files() {
    let mut config = test_config();
    config.max_entries_per_file = 2;
    let mut wal = WAL::new(config);
    for i in 0..5 {
        wal.append(&Command::Put { key: format!("k{}", i), value: "v".to_string() }).unwrap();
    }
    assert!(wal.files.len() >= 2);
    // Every entry is still recovered, across all files.
    assert_eq!(wal.entries_after(0).len(), 5);
}

#[test]
fn a_corrupt_entry_is_skipped_by_replay() {
    let mut wal = WAL::new(test_config());
    wal.append(&Command::Put { key: "a".to_string(), value: "1".to_string() }).unwrap();
    wal.append(&Command::Put { key: "b".to_string(), value: "2".to_string() }).unwrap();
    // Flip a byte inside the first entry's stored checksum.
    let pos = 20 + 16;
    wal.files[0].data[pos] ^= 0xFF;
    let entries = wal.entries_after(0);
    assert_eq!(entries.len(), 1);
    assert_eq!(entries[0].sequence_number, 2);
}

#[test]
fn sync_keeps_the_log_usable() {
    let mut wal = WAL::new(test_config());
    wal.append(&Command::Put { key: "a".to_string(), value: "1".to_string() }).unwrap();
    wal.sync();
    let s = wal.append(&Command::Delete { key: "a".to_string() }).unwrap();
    assert_eq!(s, 2);
}

#[test]
fn command_encoding_round_trips() {
    let cases = vec![
        Command::Put { key: "k".to_string(), value: "v".to_string() },
        Command::Get { key: "k".to_string() },
        Command::Delete { key: "k".to_string() },
        Command::Compact,
    ];
    for c in cases {
        let bytes = plexdb::command::encode_command(&c).unwrap();
        let back = plexdb::command::decode_command(bytes.as_slice()).unwrap();
        match (&c, &back) {
            (Command::Put { key: k1, value: v1 }, Command::Put { key: k2, value: v2 }) => {
                assert_eq!(k1, k2);
                assert_eq!(v1, v2);
            }
            (Command::Get { key: k1 }, Command::Get { key: k2 }) => assert_eq!(k1, k2),
            (Command::Delete { key: k1 }, Command::Delete { key: k2 }) => assert_eq!(k1, k2),
            (Command::Compact, Command::Compact) => {}
            _ => panic!("command changed shape in the round trip"),
        }
    }
}
