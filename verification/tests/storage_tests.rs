//! The segment layer: framing, round trips, corruption handling, rotation,
//! and the recovery scan.

use plexdb::codec::{decode_record_body, encode_record_body};
use plexdb::codec::encode_header;
use plexdb::crc::crc32;
use plexdb::error::PlexError;
use plexdb::file_manager::{FileManager, SegmentFile};
use plexdb::partition::FileOffset;

#[test]
fn record_body_round_trip() {
    let body = encode_record_body("answer", Some("forty-two")).unwrap();
    let (key, value) = decode_record_body(body.as_slice()).unwrap();
    assert_eq!(key, "answer");
    assert_eq!(value, Some("forty-two".to_string()));
}

#[test]
fn tombstone_body_round_trip() {
    let body = encode_record_body("gone", None).unwrap();
    let (key, value) = decode_record_body(body.as_slice()).unwrap();
    assert_eq!(key, "gone");
    assert_eq!(value, None);
}

#[test]
fn record_body_rejects_trailing_bytes() {
    let mut body = encode_record_body("k", Some("v")).unwrap();
    body.push(0);
    assert!(decode_record_body(body.as_slice()).is_none());
}

#[test]
fn append_then_read_returns_value() {
    let mut fm = FileManager::new();
    let off = fm.write_entry("alpha", "one").unwrap();
    assert_eq!(fm.read_value(&off).unwrap(), Some("one".to_string()));
}

#[test]
fn append_then_read_after_more_appends() {
    let mut fm = FileManager::new();
    let off = fm.write_entry("alpha", "one").unwrap();
    fm.write_entry("beta", "two").unwrap();
    fm.write_entry("gamma", "three").unwrap();
    assert_eq!(fm.read_value(&off).unwrap(), Some("one".to_string()));
}

#[test]
fn tombstone_reads_as_absent() {
    let mut fm = FileManager::new();
    let off = fm.write_tombstone("alpha").unwrap();
    assert_eq!(fm.read_value(&off).unwrap(), None);
}

#[test]
fn corrupt_record_is_reported_at_its_offset() {
    let mut fm = FileManager::new();
    let off = fm.write_entry("alpha", "one").unwrap();
    // Flip one byte of the stored checksum.
    let crc_pos = off.offset as usize + 8;
    fm.segments[0].data[crc_pos] ^= 0xFF;
    match fm.read_value(&off) {
        Err(PlexError::CorruptData(o)) => assert_eq!(o, off.offset),
        other => panic!("expected corrupt data, got {:?}", other),
    }
}

#[test]
fn recovery_skips_one_corrupt_record_and_keeps_the_rest() {
    let mut fm = FileManager::new();
    fm.write_entry("a", "1").unwrap();
    fm.write_entry("b", "2").unwrap();
    let bad = fm.write_entry("c", "3").unwrap();
    fm.write_entry("d", "4").unwrap();
    fm.write_entry("e", "5").unwrap();
    // Flip one checksum byte of the middle record.
    let crc_pos = bad.offset as usize + 8;
    fm.segments[0].data[crc_pos] ^= 0x01;
    let report = fm.read_all_entries().unwrap();
    assert_eq!(report.entries.len(), 4);
    assert_eq!(report.corruptions.len(), 1);
    assert_eq!(report.corruptions[0], bad.offset);
    let keys: Vec<&str> = report.entries.iter().map(|e| e.0.as_str()).collect();
    assert_eq!(keys, vec!["a", "b", "d", "e"]);
}

#[test]
fn recovery_stops_cleanly_at_a_truncated_tail() {
    let mut fm = FileManager::new();
    fm.write_entry("a", "1").unwrap();
    fm.write_entry("b", "2").unwrap();
    // Drop the last few bytes, as a crash mid-write would.
    let len = fm.segments[0].data.len();
    fm.segments[0].data.truncate(len - 3);
    let report = fm.read_all_entries().unwrap();
    assert_eq!(report.entries.len(), 1);
    assert_eq!(report.corruptions.len(), 0);
    assert_eq!(report.entries[0].0, "a");
}

#[test]
fn a_checksummed_but_undecodable_body_is_a_deserialize_error() {
    let mut fm = FileManager::new();
    // Hand-craft a frame whose body passes its checksum but holds no
    // decodable record: an unknown tag byte.
    let body = vec![0xEEu8];
    let mut frame = encode_header(body.len() as u64, crc32(&body), 7, 0);
    frame.extend_from_slice(&body);
    let size = frame.len() as u32;
    fm.segments[0].data = frame;
    let off = FileOffset { partition_id: 0, file_id: 0, offset: 0, size, timestamp: 7 };
    match fm.read_value(&off) {
        Err(PlexError::Deserialize(_)) => {}
        other => panic!("expected a deserialize error, got {:?}", other.is_ok()),
    }
    // The recovery scan reports it as one corruption and moves on.
    let report = fm.read_all_entries().unwrap();
    assert_eq!(report.entries.len(), 0);
    assert_eq!(report.corruptions.len(), 1);
}

#[test]
fn rotation_moves_writes_to_a_new_file() {
    let mut fm = FileManager::new();
    let off1 = fm.write_entry("a", "1").unwrap();
    fm.rotate_file().unwrap();
    let off2 = fm.write_entry("b", "2").unwrap();
    assert_eq!(off1.file_id, 0);
    assert_eq!(off2.file_id, 1);
    assert_eq!(off2.offset, 0);
    assert_eq!(fm.read_value(&off1).unwrap(), Some("1".to_string()));
    assert_eq!(fm.read_value(&off2).unwrap(), Some("2".to_string()));
}

#[test]
fn scan_walks_files_in_id_order() {
    let mut fm = FileManager::new();
    fm.write_entry("a", "1").unwrap();
    fm.rotate_file().unwrap();
    fm.write_entry("b", "2").unwrap();
    let report = fm.read_all_entries().unwrap();
    let keys: Vec<&str> = report.entries.iter().map(|e| e.0.as_str()).collect();
    assert_eq!(keys, vec!["a", "b"]);
    assert!(!report.entries[0].2);
}

#[test]
fn from_files_rejects_out_of_order_ids() {
    let f1 = SegmentFile { file_id: 3, data: Vec::new() };
    let f2 = SegmentFile { file_id: 1, data: Vec::new() };
    match FileManager::from_files(vec![f1, f2]) {
        Err(PlexError::Recovery(_)) => {}
        other => panic!("expected a recovery error, got {:?}", other.is_ok()),
    }
}

#[test]
fn from_files_resumes_from_existing_bytes() {
    let mut fm = FileManager::new();
    let off = fm.write_entry("a", "1").unwrap();
    let data = fm.segments[0].data.clone();
    let fm2 = FileManager::from_files(vec![SegmentFile { file_id: 0, data }]).unwrap();
    assert_eq!(fm2.read_value(&off).unwrap(), Some("1".to_string()));
}

#[test]
fn empty_value_round_trips() {
    let mut fm = FileManager::new();
    let off = fm.write_entry("k", "").unwrap();
    assert_eq!(fm.read_value(&off).unwrap(), Some(String::new()));
}

#[test]
fn unicode_round_trips() {
    let mut fm = FileManager::new();
    let off = fm.write_entry("clé", "värde ☃").unwrap();
    assert_eq!(fm.read_value(&off).unwrap(), Some("värde ☃".to_string()));
}
