//! The append-only log segments of one partition: binary framing of
//! length-prefixed, checksummed records; append and random-offset read;
//! rotation; and the crash-safe forward scan that recovery runs.
//!
//! A segment is modelled as the bytes of one file. The surrounding program
//! reads segment files into these byte buffers at startup and persists them
//! after writes; everything between — framing, checksums, offsets, the
//! recovery scan — is verified here.

use vstd::prelude::*;
use vstd::assert_seqs_equal;

use crate::clock::current_timestamp;
use crate::codec::{
    decode_record_body, encode_header, encode_record_body, lemma_header_round_trip,
    lemma_record_body_round_trip, record_body_fits,
    spec_decode_record_body, spec_header_bytes, spec_header_crc, spec_header_data_len,
    spec_header_flags, spec_header_timestamp, spec_piece, spec_record_body, HEADER_SIZE,
    MAX_PIECE_LEN, TOMBSTONE_FLAG,
};
use vstd::utf8::encode_utf8;
use crate::crc::{crc32, crc32_of};
use crate::error::{PlexError, PlexResult};
use crate::partition::FileOffset;

verus! {

/// The fixed-size prefix preceding each serialized record body.
pub struct EntryHeader {
    pub data_length: u64,
    pub crc: u32,
    pub timestamp: u64,
    pub flags: u32,
}

/// One record: a key, a value (`None` marks a tombstone), and the time it
/// was written. Immutable once written.
pub struct LogEntry {
    pub key: String,
    pub value: Option<String>,
    pub timestamp: u64,
}

/// The bytes of one segment file.
pub struct SegmentFile {
    pub file_id: u32,
    pub data: Vec<u8>,
}

/// The segment set of one partition. The last segment is the active write
/// target.
pub struct FileManager {
    pub segments: Vec<SegmentFile>,
}

/// One whole frame: the header over the record body, then the body. The
/// crc field holds the checksum of the body.
pub open spec fn spec_frame(key: Seq<char>, value: Option<Seq<char>>, ts: u64, tomb: bool) -> Seq<
    u8,
> {
    let body = spec_record_body(key, value);
    spec_header_bytes(
        body.len() as u64,
        crc32_of(body),
        ts,
        if tomb {
            TOMBSTONE_FLAG
        } else {
            0u32
        },
    ) + body
}

/// Whether a whole frame (header and declared body) lies within `data` at
/// `off`.
pub open spec fn frame_complete_at(data: Seq<u8>, off: int) -> bool {
    &&& 0 <= off
    &&& off + HEADER_SIZE <= data.len()
    &&& off + HEADER_SIZE + spec_header_data_len(data.subrange(off, off + HEADER_SIZE)) as int
        <= data.len()
}

/// The total length of the frame at `off`: header plus declared body.
pub open spec fn frame_len_at(data: Seq<u8>, off: int) -> int {
    HEADER_SIZE + spec_header_data_len(data.subrange(off, off + HEADER_SIZE)) as int
}

/// The body bytes of the frame at `off`.
pub open spec fn frame_body_at(data: Seq<u8>, off: int) -> Seq<u8> {
    data.subrange(off + HEADER_SIZE, off + frame_len_at(data, off))
}

/// Whether the stored checksum matches the checksum of the body bytes.
pub open spec fn frame_crc_ok_at(data: Seq<u8>, off: int) -> bool {
    spec_header_crc(data.subrange(off, off + HEADER_SIZE)) == crc32_of(frame_body_at(data, off))
}

/// Whether the tombstone bit of the frame at `off` is set.
pub open spec fn frame_tombstone_at(data: Seq<u8>, off: int) -> bool {
    spec_header_flags(data.subrange(off, off + HEADER_SIZE)) & TOMBSTONE_FLAG != 0
}

/// The timestamp field of the frame at `off`.
pub open spec fn frame_ts_at(data: Seq<u8>, off: int) -> u64 {
    spec_header_timestamp(data.subrange(off, off + HEADER_SIZE))
}

impl FileManager {
    /// Well-formed: at least one segment, file ids strictly increasing.
    pub open spec fn wf(self) -> bool {
        &&& self.segments@.len() >= 1
        &&& forall|i: int, j: int|
            0 <= i < j < self.segments@.len() ==> self.segments@[i].file_id
                < self.segments@[j].file_id
    }

    /// The file id of the active (last) segment.
    pub open spec fn active_file_id(self) -> u32 {
        self.segments@.last().file_id
    }

    /// The bytes of the active (last) segment.
    pub open spec fn active_data(self) -> Seq<u8> {
        self.segments@.last().data@
    }

    /// Whether a segment with this file id exists.
    pub open spec fn has_file(self, file_id: u32) -> bool {
        exists|i: int| 0 <= i < self.segments@.len() && self.segments@[i].file_id == file_id
    }

    /// The index of the segment with this file id.
    pub open spec fn file_index(self, file_id: u32) -> int {
        choose|i: int| 0 <= i < self.segments@.len() && self.segments@[i].file_id == file_id
    }

    /// The bytes of the segment with this file id.
    pub open spec fn file_data(self, file_id: u32) -> Seq<u8> {
        self.segments@[self.file_index(file_id)].data@
    }

    /// All segments but the active one keep their bytes, and the active one
    /// is extended by exactly one frame.
    pub open spec fn appended_frame(
        old_fm: FileManager,
        new_fm: FileManager,
        key: Seq<char>,
        value: Option<Seq<char>>,
        ts: u64,
        tomb: bool,
    ) -> bool {
        &&& new_fm.segments@.len() == old_fm.segments@.len()
        &&& forall|i: int|
            0 <= i < old_fm.segments@.len() - 1 ==> new_fm.segments@[i] == old_fm.segments@[i]
        &&& new_fm.active_file_id() == old_fm.active_file_id()
        &&& new_fm.active_data() == old_fm.active_data() + spec_frame(key, value, ts, tomb)
    }

    /// A fresh manager: one empty active segment with file id zero.
    pub fn new() -> (r: FileManager)
        ensures
            r.wf(),
            r.segments@.len() == 1,
            r.active_file_id() == 0,
            r.active_data() == Seq::<u8>::empty(),
    {
        let mut segments: Vec<SegmentFile> = Vec::new();
        segments.push(SegmentFile { file_id: 0, data: Vec::new() });
        proof {
            assert(segments@.last().data@ =~= Seq::<u8>::empty());
        }
        FileManager { segments }
    }

    /// Resumes from segment files found at startup, given in ascending file
    /// id order (the highest becomes the active write target). An empty
    /// list starts a fresh segment set; a list out of order is rejected.
    pub fn from_files(files: Vec<SegmentFile>) -> (r: PlexResult<FileManager>)
        ensures
            match r {
                Ok(fm) => fm.wf() && if files@.len() == 0 {
                    fm.segments@.len() == 1 && fm.active_file_id() == 0 && fm.active_data()
                        == Seq::<u8>::empty()
                } else {
                    fm.segments@ == files@
                },
                Err(e) => e is Recovery,
            },
            r is Err <==> exists|i: int, j: int|
                0 <= i < j < files@.len() && files@[i].file_id >= files@[j].file_id,
    {
        if files.len() == 0 {
            return Ok(FileManager::new());
        }
        let mut k: usize = 1;
        while k < files.len()
            invariant
                1 <= k <= files@.len(),
                forall|i: int, j: int| 0 <= i < j < k ==> files@[i].file_id < files@[j].file_id,
            decreases files@.len() - k,
        {
            if files[k - 1].file_id >= files[k].file_id {
                return Err(PlexError::Recovery("segment files out of order".to_owned()));
            }
            k = k + 1;
        }
        Ok(FileManager { segments: files })
    }

    /// Appends one record to the active segment: serializes the body,
    /// checksums it, writes header then body, and returns where it landed.
    /// Rejects a record whose key or value overflows a length field, and
    /// leaves the segments untouched in that case.
    pub fn write_log_entry(&mut self, entry: &LogEntry, is_tombstone: bool) -> (r: PlexResult<
        FileOffset,
    >)
        requires
            old(self).wf(),
        ensures
            final(self).wf(),
            match r {
                Ok(off) => {
                    &&& FileManager::appended_frame(
                        *old(self),
                        *final(self),
                        entry.key@,
                        opt_string_view(entry.value),
                        entry.timestamp,
                        is_tombstone,
                    )
                    &&& off.file_id == old(self).active_file_id()
                    &&& off.partition_id == 0
                    &&& off.offset == old(self).active_data().len()
                    &&& off.size == spec_frame(
                        entry.key@,
                        opt_string_view(entry.value),
                        entry.timestamp,
                        is_tombstone,
                    ).len()
                    &&& off.timestamp == entry.timestamp
                },
                Err(e) => e is Config && *final(self) == *old(self),
            },
            r is Err <==> !record_body_fits(entry.key@, opt_string_view(entry.value)),
    {
        let value_ref: Option<&str> = match &entry.value {
            Some(v) => Some(v.as_str()),
            None => None,
        };
        let body = match encode_record_body(entry.key.as_str(), value_ref) {
            Ok(b) => b,
            Err(e) => {
                return Err(e);
            },
        };
        proof {
            vstd::bytes::lemma_auto_spec_u32_to_from_le_bytes();
            match value_ref {
                Some(v) => {
                    assert(body@ == seq![1u8] + spec_piece(entry.key@) + spec_piece(v@));
                    assert(spec_piece(entry.key@).len() == 4 + encode_utf8(entry.key@).len());
                    assert(spec_piece(v@).len() == 4 + encode_utf8(v@).len());
                },
                None => {
                    assert(body@ == seq![0u8] + spec_piece(entry.key@));
                    assert(spec_piece(entry.key@).len() == 4 + encode_utf8(entry.key@).len());
                },
            }
            assert(body@.len() <= 9 + 2 * MAX_PIECE_LEN);
        }
        let crc = crc32(body.as_slice());
        let header = EntryHeader {
            data_length: body.len() as u64,
            crc,
            timestamp: entry.timestamp,
            flags: if is_tombstone {
                TOMBSTONE_FLAG
            } else {
                0
            },
        };
        let mut frame = encode_header(header.data_length, header.crc, header.timestamp, header.flags);
        let ghost frame_spec = spec_frame(
            entry.key@,
            opt_string_view(entry.value),
            entry.timestamp,
            is_tombstone,
        );
        let mut body_mut = body;
        frame.append(&mut body_mut);
        assert(frame@ =~= frame_spec);

        let active_idx = self.segments.len() - 1;
        let current_offset: u64 = self.segments[active_idx].data.len() as u64;
        let size: u32 = frame.len() as u32;
        let file_id = self.segments[active_idx].file_id;
        let mut seg = self.segments.remove(active_idx);
        seg.data.append(&mut frame);
        self.segments.push(seg);
        proof {
            assert(final(self).segments@.last().data@ =~= old(self).active_data() + frame_spec);
            assert(forall|i: int|
                0 <= i < old(self).segments@.len() - 1 ==> final(self).segments@[i] == old(
                    self,
                ).segments@[i]);
        }
        Ok(
            FileOffset {
                partition_id: 0,
                file_id,
                offset: current_offset,
                size,
                timestamp: entry.timestamp,
            },
        )
    }

    /// Appends a record carrying a value, stamped with the current time.
    pub fn write_entry(&mut self, key: &str, value: &str) -> (r: PlexResult<FileOffset>)
        requires
            old(self).wf(),
        ensures
            final(self).wf(),
            match r {
                Ok(off) => {
                    &&& FileManager::appended_frame(
                        *old(self),
                        *final(self),
                        key@,
                        Some(value@),
                        off.timestamp,
                        false,
                    )
                    &&& off.partition_id == 0
                    &&& off.file_id == old(self).active_file_id()
                    &&& off.offset == old(self).active_data().len()
                    &&& off.size == spec_frame(key@, Some(value@), off.timestamp, false).len()
                },
                Err(e) => e is Config && *final(self) == *old(self),
            },
            r is Err <==> !record_body_fits(key@, Some(value@)),
    {
        let entry = LogEntry {
            key: key.to_owned(),
            value: Some(value.to_owned()),
            timestamp: current_timestamp(),
        };
        self.write_log_entry(&entry, false)
    }

    /// Appends a tombstone for a key, stamped with the current time.
    pub fn write_tombstone(&mut self, key: &str) -> (r: PlexResult<FileOffset>)
        requires
            old(self).wf(),
        ensures
            final(self).wf(),
            match r {
                Ok(off) => {
                    &&& FileManager::appended_frame(
                        *old(self),
                        *final(self),
                        key@,
                        None,
                        off.timestamp,
                        true,
                    )
                    &&& off.partition_id == 0
                    &&& off.file_id == old(self).active_file_id()
                    &&& off.offset == old(self).active_data().len()
                    &&& off.size == spec_frame(key@, None, off.timestamp, true).len()
                },
                Err(e) => e is Config && *final(self) == *old(self),
            },
            r is Err <==> !record_body_fits(key@, None),
    {
        let entry = LogEntry { key: key.to_owned(), value: None, timestamp: current_timestamp() };
        self.write_log_entry(&entry, true)
    }

    /// Closes the active segment and opens a new, empty one under the next
    /// file id.
    pub fn rotate_file(&mut self) -> (r: PlexResult<()>)
        requires
            old(self).wf(),
        ensures
            final(self).wf(),
            match r {
                Ok(()) => {
                    &&& final(self).segments@.len() == old(self).segments@.len() + 1
                    &&& forall|i: int|
                        0 <= i < old(self).segments@.len() ==> final(self).segments@[i] == old(
                            self,
                        ).segments@[i]
                    &&& final(self).active_file_id() == old(self).active_file_id() + 1
                    &&& final(self).active_data() == Seq::<u8>::empty()
                },
                Err(e) => e is IO && *final(self) == *old(self) && old(self).active_file_id()
                    == u32::MAX,
            },
    {
        let active_idx = self.segments.len() - 1;
        let current_id = self.segments[active_idx].file_id;
        if current_id == u32::MAX {
            return Err(PlexError::IO("file id space exhausted".to_owned()));
        }
        self.segments.push(SegmentFile { file_id: current_id + 1, data: Vec::new() });
        proof {
            assert(final(self).active_data() =~= Seq::<u8>::empty());
        }
        Ok(())
    }

    /// Reads the record at a previously returned offset: verifies the
    /// stored checksum against the body, returns `None` for a tombstone and
    /// the value otherwise. A mismatched checksum is `CorruptData`; a
    /// missing file or a frame past the end of one is an I/O failure.
    pub fn read_value(&self, offset: &FileOffset) -> (r: PlexResult<Option<String>>)
        requires
            self.wf(),
        ensures
            ({
                let known = self.has_file(offset.file_id);
                let data = self.file_data(offset.file_id);
                let o = offset.offset as int;
                match r {
                    Ok(v) => {
                        &&& known
                        &&& frame_complete_at(data, o)
                        &&& frame_crc_ok_at(data, o)
                        &&& if frame_tombstone_at(data, o) {
                            v is None
                        } else {
                            spec_decode_record_body(frame_body_at(data, o)) matches Some((k, dv))
                                && opt_string_view(v) == dv
                        }
                    },
                    Err(PlexError::CorruptData(co)) => {
                        &&& known
                        &&& frame_complete_at(data, o)
                        &&& !frame_crc_ok_at(data, o)
                        &&& co == offset.offset
                    },
                    Err(PlexError::IO(_)) => !known || !frame_complete_at(data, o),
                    Err(PlexError::Deserialize(_)) => {
                        &&& known
                        &&& frame_complete_at(data, o)
                        &&& frame_crc_ok_at(data, o)
                        &&& !frame_tombstone_at(data, o)
                        &&& spec_decode_record_body(frame_body_at(data, o)) is None
                    },
                    _ => false,
                }
            }),
    {
        let idx = match self.find_file(offset.file_id) {
            Some(i) => i,
            None => {
                return Err(PlexError::IO("no segment file with that id".to_owned()));
            },
        };
        let data: &Vec<u8> = &self.segments[idx].data;
        let len: usize = data.len();
        if (len as u64) < HEADER_SIZE as u64 || offset.offset > (len - HEADER_SIZE) as u64 {
            return Err(PlexError::IO("offset past the end of the segment".to_owned()));
        }
        let o = offset.offset as usize;
        let header_slice = slice_subrange_vec(data, o, o + HEADER_SIZE);
        let (data_length, stored_crc, _timestamp, flags) = crate::codec::decode_header(
            header_slice,
        );
        let after_header: usize = len - (o + HEADER_SIZE);
        if data_length > after_header as u64 {
            return Err(PlexError::IO("record body past the end of the segment".to_owned()));
        }
        let body_len = data_length as usize;
        let body = slice_subrange_vec(data, o + HEADER_SIZE, o + HEADER_SIZE + body_len);
        let calculated = crc32(body);
        if calculated != stored_crc {
            return Err(PlexError::CorruptData(offset.offset));
        }
        if flags & TOMBSTONE_FLAG != 0 {
            return Ok(None);
        }
        match decode_record_body(body) {
            Some((_k, v)) => Ok(v),
            None => Err(PlexError::Deserialize("record body did not decode".to_owned())),
        }
    }

    /// The index of the segment with this file id, if any.
    fn find_file(&self, file_id: u32) -> (r: Option<usize>)
        requires
            self.wf(),
        ensures
            match r {
                Some(i) => 0 <= i < self.segments@.len() && self.segments@[i as int].file_id
                    == file_id && self.has_file(file_id) && self.file_index(file_id) == i,
                None => !self.has_file(file_id),
            },
    {
        let mut i: usize = 0;
        while i < self.segments.len()
            invariant
                self.wf(),
                0 <= i <= self.segments@.len(),
                forall|j: int| 0 <= j < i ==> self.segments@[j].file_id != file_id,
            decreases self.segments@.len() - i,
        {
            if self.segments[i].file_id == file_id {
                proof {
                    assert(self.has_file(file_id));
                    let w = self.file_index(file_id);
                    assert(self.segments@[w].file_id == file_id);
                    if w < i as int {
                        assert(self.segments@[w].file_id < self.segments@[i as int].file_id);
                    }
                    if (i as int) < w {
                        assert(self.segments@[i as int].file_id < self.segments@[w].file_id);
                    }
                }
                return Some(i);
            }
            i = i + 1;
        }
        None
    }
}

/// What the recovery scan sees in one frame.
pub ghost struct SpecScanItem {
    pub key: Seq<char>,
    pub value: Option<Seq<char>>,
    pub off: int,
    pub size: int,
    pub ts: u64,
    pub tombstone: bool,
}

/// The outcome of scanning one segment: the decoded records in offset
/// order, and the offsets of the records that failed their checksum or
/// did not decode.
pub ghost struct SpecScan {
    pub entries: Seq<SpecScanItem>,
    pub corruptions: Seq<int>,
}

/// A frame so large that its size cannot be represented is treated as the
/// end of the scan, like a truncated tail.
pub open spec fn scannable_frame_at(data: Seq<u8>, off: int) -> bool {
    frame_complete_at(data, off) && frame_len_at(data, off) <= 0xFFFF_FFFF
}

/// Whether a decoded body agrees with the header's tombstone bit: a
/// tombstone carries no value, a live record carries one.
pub open spec fn frame_consistent_at(data: Seq<u8>, off: int) -> bool {
    match spec_decode_record_body(frame_body_at(data, off)) {
        Some((k, v)) => (v is None) == frame_tombstone_at(data, off),
        None => false,
    }
}

/// The crash-safe forward scan from `off`: a complete frame with a good
/// checksum and a decodable, flag-consistent body yields an entry; a
/// complete frame failing any of that is reported as a corruption and
/// skipped by its declared length; an incomplete trailing frame stops the
/// scan cleanly.
pub open spec fn spec_scan_from(data: Seq<u8>, off: int) -> SpecScan
    decreases data.len() - off,
{
    if !scannable_frame_at(data, off) {
        SpecScan { entries: Seq::empty(), corruptions: Seq::empty() }
    } else {
        let flen = frame_len_at(data, off);
        let rest = spec_scan_from(data, off + flen);
        if !frame_crc_ok_at(data, off) {
            SpecScan { entries: rest.entries, corruptions: seq![off] + rest.corruptions }
        } else {
            match spec_decode_record_body(frame_body_at(data, off)) {
                Some((k, v)) => if (v is None) == frame_tombstone_at(data, off) {
                    SpecScan {
                        entries: seq![
                            SpecScanItem {
                                key: k,
                                value: v,
                                off: off,
                                size: flen,
                                ts: frame_ts_at(data, off),
                                tombstone: frame_tombstone_at(data, off),
                            },
                        ] + rest.entries,
                        corruptions: rest.corruptions,
                    }
                } else {
                    SpecScan {
                        entries: rest.entries,
                        corruptions: seq![off] + rest.corruptions,
                    }
                },
                None => SpecScan {
                    entries: rest.entries,
                    corruptions: seq![off] + rest.corruptions,
                },
            }
        }
    }
}

/// Where the scan from `off` stops: the start of the first frame it cannot
/// take whole.
pub open spec fn scan_end(data: Seq<u8>, off: int) -> int
    decreases data.len() - off,
{
    if !scannable_frame_at(data, off) {
        off
    } else {
        scan_end(data, off + frame_len_at(data, off))
    }
}

/// Appending one well-formed frame to a segment whose scan ends exactly at
/// its end extends the scan by exactly that record and no corruption.
pub proof fn lemma_scan_append_frame(
    d1: Seq<u8>,
    d2: Seq<u8>,
    off: int,
    key: Seq<char>,
    value: Option<Seq<char>>,
    ts: u64,
    tomb: bool,
)
    requires
        0 <= off <= d1.len(),
        scan_end(d1, off) == d1.len(),
        record_body_fits(key, value),
        (value is None) == tomb,
        d2 == d1 + spec_frame(key, value, ts, tomb),
    ensures
        scan_end(d2, off) == d2.len(),
        spec_scan_from(d2, off).entries == spec_scan_from(d1, off).entries.push(
            SpecScanItem {
                key,
                value,
                off: d1.len() as int,
                size: spec_frame(key, value, ts, tomb).len() as int,
                ts,
                tombstone: tomb,
            },
        ),
        spec_scan_from(d2, off).corruptions == spec_scan_from(d1, off).corruptions,
    decreases d1.len() - off,
{
    let fb = spec_frame(key, value, ts, tomb);
    let it = SpecScanItem {
        key,
        value,
        off: d1.len() as int,
        size: fb.len() as int,
        ts,
        tombstone: tomb,
    };
    if scannable_frame_at(d1, off) {
        assert(d2.subrange(0, d1.len() as int) =~= d1);
        lemma_extend_preserves_frame(d1, d2, off);
        let next = off + frame_len_at(d1, off);
        assert(scan_end(d1, next) == d1.len());
        lemma_scan_append_frame(d1, d2, next, key, value, ts, tomb);
        assert(frame_consistent_at(d2, off) == frame_consistent_at(d1, off));
        let h1 = spec_scan_from(d1, off);
        let h2 = spec_scan_from(d2, off);
        let r1 = spec_scan_from(d1, next);
        let r2 = spec_scan_from(d2, next);
        if frame_crc_ok_at(d1, off) && frame_consistent_at(d1, off) {
            assert(h2.entries == seq![h2.entries[0]] + r2.entries);
            assert(h1.entries == seq![h1.entries[0]] + r1.entries);
            assert(h2.entries[0] == h1.entries[0]);
            assert(h2.corruptions == r2.corruptions);
            assert(h1.corruptions == r1.corruptions);
            assert_seqs_equal!(h2.entries == h1.entries.push(it), j => {
                if j == 0 {
                } else {
                    assert(h2.entries[j] == r2.entries[j - 1]);
                    assert(r2.entries[j - 1] == r1.entries.push(it)[j - 1]);
                    if j - 1 < r1.entries.len() {
                        assert(h1.entries.push(it)[j] == h1.entries[j]);
                        assert(h1.entries[j] == r1.entries[j - 1]);
                    } else {
                        assert(h1.entries.push(it)[j] == it);
                    }
                }
            });
        } else {
            assert(h2.entries == r2.entries);
            assert(h1.entries == r1.entries);
            assert(h2.corruptions == seq![off] + r2.corruptions);
            assert(h1.corruptions == seq![off] + r1.corruptions);
            assert(h2.entries =~= h1.entries.push(it));
            assert(h2.corruptions =~= h1.corruptions);
        }
    } else {
        assert(off == d1.len());
        assert(d2.subrange(off, off + fb.len() as int) =~= fb);
        let crc = crc32_of(spec_record_body(key, value));
        assert(fb =~= spec_frame_with_crc(key, value, ts, tomb, crc));
        lemma_frame_parse(d2, off, key, value, ts, tomb, crc);
        assert(frame_consistent_at(d2, off));
        let next = off + fb.len() as int;
        assert(next == d2.len());
        assert(!frame_complete_at(d2, next));
        assert(spec_scan_from(d2, next).entries =~= Seq::<SpecScanItem>::empty());
        assert(spec_scan_from(d2, next).corruptions =~= Seq::<int>::empty());
        assert(frame_len_at(d2, off) == fb.len());
        assert(spec_scan_from(d2, off).entries =~= spec_scan_from(d1, off).entries.push(it));
        assert(spec_scan_from(d2, off).corruptions =~= spec_scan_from(d1, off).corruptions);
        assert(scan_end(d2, off) == scan_end(d2, next));
    }
}

/// Whether one scanned tuple reports one spec-level item of the given file.
pub open spec fn entry_matches(e: (String, FileOffset, bool), file_id: u32, it: SpecScanItem) -> bool {
    &&& e.0@ == it.key
    &&& e.1.partition_id == 0
    &&& e.1.file_id == file_id
    &&& e.1.offset == it.off
    &&& e.1.size == it.size
    &&& e.1.timestamp == it.ts
    &&& e.2 == it.tombstone
}

/// The items of one segment's scan, tagged with its file id.
pub open spec fn tag_items(file_id: u32, items: Seq<SpecScanItem>) -> Seq<(u32, SpecScanItem)> {
    items.map_values(|it: SpecScanItem| (file_id, it))
}

impl FileManager {
    /// The scan items of all segments from index `i` on, in file order.
    pub open spec fn items_from(self, i: int) -> Seq<(u32, SpecScanItem)>
        decreases self.segments@.len() - i,
    {
        if i < 0 || i >= self.segments@.len() {
            Seq::empty()
        } else {
            tag_items(self.segments@[i].file_id, spec_scan_from(self.segments@[i].data@, 0).entries)
                + self.items_from(i + 1)
        }
    }

    /// The corruption offsets of all segments from index `i` on.
    pub open spec fn corruptions_from(self, i: int) -> Seq<int>
        decreases self.segments@.len() - i,
    {
        if i < 0 || i >= self.segments@.len() {
            Seq::empty()
        } else {
            spec_scan_from(self.segments@[i].data@, 0).corruptions + self.corruptions_from(i + 1)
        }
    }

    /// Replays every segment in file id order and reports what recovery
    /// would see: every decodable record (last-write-wins is the caller's
    /// fold over this order), and the offset of every corrupt one. A
    /// corrupt record never aborts the scan of the rest of its segment.
    pub fn read_all_entries(&self) -> (r: PlexResult<ScanReport>)
        requires
            self.wf(),
        ensures
            match r {
                Ok(rep) => {
                    let items = self.items_from(0);
                    let corr = self.corruptions_from(0);
                    &&& rep.entries@.len() == items.len()
                    &&& forall|j: int|
                        0 <= j < items.len() ==> entry_matches(
                            rep.entries@[j],
                            items[j].0,
                            items[j].1,
                        )
                    &&& rep.corruptions@.len() == corr.len()
                    &&& forall|j: int| 0 <= j < corr.len() ==> rep.corruptions@[j] == corr[j] as u64
                },
                Err(_) => false,
            },
    {
        let mut entries: Vec<(String, FileOffset, bool)> = Vec::new();
        let mut corruptions: Vec<u64> = Vec::new();
        let mut i: usize = 0;
        while i < self.segments.len()
            invariant
                self.wf(),
                0 <= i <= self.segments@.len(),
                self.items_from(0) == self.items_from_upto_witness(i as int) + self.items_from(
                    i as int,
                ),
                self.corruptions_from(0) == self.corruptions_upto_witness(i as int)
                    + self.corruptions_from(i as int),
                entries@.len() == self.items_from_upto_witness(i as int).len(),
                forall|j: int|
                    0 <= j < entries@.len() ==> entry_matches(
                        entries@[j],
                        self.items_from_upto_witness(i as int)[j].0,
                        self.items_from_upto_witness(i as int)[j].1,
                    ),
                corruptions@.len() == self.corruptions_upto_witness(i as int).len(),
                forall|j: int|
                    0 <= j < corruptions@.len() ==> corruptions@[j]
                        == self.corruptions_upto_witness(i as int)[j] as u64,
            decreases self.segments@.len() - i,
        {
            let seg_id = self.segments[i].file_id;
            scan_segment(&self.segments[i].data, seg_id, &mut entries, &mut corruptions);
            proof {
                self.lemma_upto_step(i as int);
            }
            i = i + 1;
        }
        proof {
            self.lemma_upto_end(i as int);
        }
        Ok(ScanReport { entries, corruptions })
    }

    /// The scan items of the segments before index `i`.
    pub open spec fn items_from_upto_witness(self, i: int) -> Seq<(u32, SpecScanItem)>
        decreases i,
    {
        if i <= 0 || i > self.segments@.len() {
            Seq::empty()
        } else {
            self.items_from_upto_witness(i - 1) + tag_items(
                self.segments@[i - 1].file_id,
                spec_scan_from(self.segments@[i - 1].data@, 0).entries,
            )
        }
    }

    /// The corruption offsets of the segments before index `i`.
    pub open spec fn corruptions_upto_witness(self, i: int) -> Seq<int>
        decreases i,
    {
        if i <= 0 || i > self.segments@.len() {
            Seq::empty()
        } else {
            self.corruptions_upto_witness(i - 1) + spec_scan_from(
                self.segments@[i - 1].data@,
                0,
            ).corruptions
        }
    }

    /// Splitting the whole scan at segment `i` and at segment `i + 1`
    /// agree.
    proof fn lemma_upto_step(self, i: int)
        requires
            0 <= i < self.segments@.len(),
            self.items_from(0) == self.items_from_upto_witness(i) + self.items_from(i),
            self.corruptions_from(0) == self.corruptions_upto_witness(i) + self.corruptions_from(i),
        ensures
            self.items_from(0) == self.items_from_upto_witness(i + 1) + self.items_from(i + 1),
            self.corruptions_from(0) == self.corruptions_upto_witness(i + 1)
                + self.corruptions_from(i + 1),
    {
        assert(self.items_from_upto_witness(i + 1) + self.items_from(i + 1)
            =~= self.items_from_upto_witness(i) + self.items_from(i));
        assert(self.corruptions_upto_witness(i + 1) + self.corruptions_from(i + 1)
            =~= self.corruptions_upto_witness(i) + self.corruptions_from(i));
    }

    /// At the end of the walk the prefix is the whole scan.
    proof fn lemma_upto_end(self, i: int)
        requires
            i == self.segments@.len(),
            self.items_from(0) == self.items_from_upto_witness(i) + self.items_from(i),
            self.corruptions_from(0) == self.corruptions_upto_witness(i) + self.corruptions_from(i),
        ensures
            self.items_from(0) =~= self.items_from_upto_witness(i),
            self.corruptions_from(0) =~= self.corruptions_upto_witness(i),
    {
        assert(self.items_from(i) =~= Seq::<(u32, SpecScanItem)>::empty());
        assert(self.corruptions_from(i) =~= Seq::<int>::empty());
    }
}

/// What one full recovery pass found: the readable records of every
/// segment in file id and offset order, and where the corrupt ones sat.
pub struct ScanReport {
    pub entries: Vec<(String, FileOffset, bool)>,
    pub corruptions: Vec<u64>,
}

/// Scans one segment from offset zero, appending what it finds, exactly as
/// `spec_scan_from` describes.
fn scan_segment(
    data: &Vec<u8>,
    file_id: u32,
    entries: &mut Vec<(String, FileOffset, bool)>,
    corruptions: &mut Vec<u64>,
)
    ensures
        ({
            let scan = spec_scan_from(data@, 0);
            &&& final(entries)@.len() == old(entries)@.len() + scan.entries.len()
            &&& forall|j: int|
                0 <= j < old(entries)@.len() ==> final(entries)@[j] == old(entries)@[j]
            &&& forall|j: int|
                0 <= j < scan.entries.len() ==> entry_matches(
                    final(entries)@[old(entries)@.len() + j],
                    file_id,
                    scan.entries[j],
                )
            &&& final(corruptions)@.len() == old(corruptions)@.len() + scan.corruptions.len()
            &&& forall|j: int|
                0 <= j < old(corruptions)@.len() ==> final(corruptions)@[j] == old(corruptions)@[j]
            &&& forall|j: int|
                0 <= j < scan.corruptions.len() ==> final(corruptions)@[old(corruptions)@.len() + j]
                    == scan.corruptions[j] as u64
        }),
{
    let ghost total = spec_scan_from(data@, 0);
    let ghost old_elen = old(entries)@.len() as int;
    let ghost old_clen = old(corruptions)@.len() as int;
    let len: usize = data.len();
    let mut off: usize = 0;
    let ghost mut idx_e: int = 0;
    let ghost mut idx_c: int = 0;
    loop
        invariant
            0 <= off <= len,
            len == data@.len(),
            0 <= idx_e <= total.entries.len(),
            0 <= idx_c <= total.corruptions.len(),
            total == spec_scan_from(data@, 0),
            spec_scan_from(data@, off as int).entries =~= total.entries.skip(idx_e),
            spec_scan_from(data@, off as int).corruptions =~= total.corruptions.skip(idx_c),
            entries@.len() == old_elen + idx_e,
            old_elen == old(entries)@.len(),
            old_clen == old(corruptions)@.len(),
            forall|j: int| 0 <= j < old_elen ==> entries@[j] == old(entries)@[j],
            forall|j: int|
                0 <= j < idx_e ==> entry_matches(
                    entries@[old_elen + j],
                    file_id,
                    total.entries[j],
                ),
            corruptions@.len() == old_clen + idx_c,
            forall|j: int| 0 <= j < old_clen ==> corruptions@[j] == old(corruptions)@[j],
            forall|j: int|
                0 <= j < idx_c ==> corruptions@[old_clen + j] == total.corruptions[j] as u64,
        ensures
            idx_e == total.entries.len(),
            idx_c == total.corruptions.len(),
            entries@.len() == old_elen + idx_e,
            forall|j: int| 0 <= j < old_elen ==> entries@[j] == old(entries)@[j],
            forall|j: int|
                0 <= j < idx_e ==> entry_matches(
                    entries@[old_elen + j],
                    file_id,
                    total.entries[j],
                ),
            corruptions@.len() == old_clen + idx_c,
            forall|j: int| 0 <= j < old_clen ==> corruptions@[j] == old(corruptions)@[j],
            forall|j: int|
                0 <= j < idx_c ==> corruptions@[old_clen + j] == total.corruptions[j] as u64,
        decreases len - off,
    {
        if len - off < HEADER_SIZE {
            proof {
                assert(!scannable_frame_at(data@, off as int));
            }
            break ;
        }
        let header_slice = slice_subrange_vec(data, off, off + HEADER_SIZE);
        let (data_length, stored_crc, ts, flags) = crate::codec::decode_header(header_slice);
        let after: usize = len - (off + HEADER_SIZE);
        if data_length > after as u64 {
            proof {
                assert(!frame_complete_at(data@, off as int));
            }
            break ;
        }
        if data_length > (0xFFFF_FFFFu64 - HEADER_SIZE as u64) {
            proof {
                assert(frame_len_at(data@, off as int) > 0xFFFF_FFFF);
            }
            break ;
        }
        let blen = data_length as usize;
        let ghost flen = frame_len_at(data@, off as int);
        proof {
            assert(scannable_frame_at(data@, off as int));
            assert(flen == HEADER_SIZE + blen);
        }
        let body = slice_subrange_vec(data, off + HEADER_SIZE, off + HEADER_SIZE + blen);
        proof {
            assert(body@ =~= frame_body_at(data@, off as int));
        }
        let calculated = crc32(body);
        if calculated != stored_crc {
            corruptions.push(off as u64);
            proof {
                assert(!frame_crc_ok_at(data@, off as int));
                lemma_scan_step_skip(data@, off as int, total, idx_e, idx_c);
                idx_c = idx_c + 1;
            }
        } else {
            proof {
                assert(frame_crc_ok_at(data@, off as int));
            }
            match decode_record_body(body) {
                Some((k, v)) => {
                    let tomb = flags & TOMBSTONE_FLAG != 0;
                    let has_value = match &v {
                        Some(_) => true,
                        None => false,
                    };
                    if has_value == !tomb {
                        let fo = FileOffset {
                            partition_id: 0,
                            file_id,
                            offset: off as u64,
                            size: (HEADER_SIZE + blen) as u32,
                            timestamp: ts,
                        };
                        entries.push((k, fo, tomb));
                        proof {
                            assert(frame_consistent_at(data@, off as int));
                            lemma_scan_step_entry(data@, off as int, total, idx_e, idx_c);
                            idx_e = idx_e + 1;
                        }
                    } else {
                        corruptions.push(off as u64);
                        proof {
                            assert(!frame_consistent_at(data@, off as int));
                            lemma_scan_step_skip(data@, off as int, total, idx_e, idx_c);
                            idx_c = idx_c + 1;
                        }
                    }
                },
                None => {
                    corruptions.push(off as u64);
                    proof {
                        assert(!frame_consistent_at(data@, off as int));
                        lemma_scan_step_skip(data@, off as int, total, idx_e, idx_c);
                        idx_c = idx_c + 1;
                    }
                },
            }
        }
        off = off + HEADER_SIZE + blen;
    }
}

/// One scan step over a frame that yields an entry: the tail of the items
/// to come shifts by one.
proof fn lemma_scan_step_entry(data: Seq<u8>, off: int, total: SpecScan, idx_e: int, idx_c: int)
    requires
        scannable_frame_at(data, off),
        frame_crc_ok_at(data, off),
        frame_consistent_at(data, off),
        0 <= idx_e <= total.entries.len(),
        0 <= idx_c <= total.corruptions.len(),
        spec_scan_from(data, off).entries =~= total.entries.skip(idx_e),
        spec_scan_from(data, off).corruptions =~= total.corruptions.skip(idx_c),
    ensures
        idx_e < total.entries.len(),
        total.entries[idx_e] == spec_scan_from(data, off).entries[0],
        spec_scan_from(data, off + frame_len_at(data, off)).entries =~= total.entries.skip(
            idx_e + 1,
        ),
        spec_scan_from(data, off + frame_len_at(data, off)).corruptions =~= total.corruptions.skip(
            idx_c,
        ),
{
    let here = spec_scan_from(data, off);
    let rest = spec_scan_from(data, off + frame_len_at(data, off));
    assert(here.entries == seq![here.entries[0]] + rest.entries);
    assert(rest.entries =~= here.entries.skip(1));
    assert(here.entries.skip(1) =~= total.entries.skip(idx_e + 1));
    assert(here.corruptions == rest.corruptions);
}

/// One scan step over a corrupt frame: the corruption list to come shifts
/// by one and the entries stay.
proof fn lemma_scan_step_skip(data: Seq<u8>, off: int, total: SpecScan, idx_e: int, idx_c: int)
    requires
        scannable_frame_at(data, off),
        !frame_crc_ok_at(data, off) || !frame_consistent_at(data, off),
        0 <= idx_e <= total.entries.len(),
        0 <= idx_c <= total.corruptions.len(),
        spec_scan_from(data, off).entries =~= total.entries.skip(idx_e),
        spec_scan_from(data, off).corruptions =~= total.corruptions.skip(idx_c),
    ensures
        idx_c < total.corruptions.len(),
        total.corruptions[idx_c] == off,
        spec_scan_from(data, off + frame_len_at(data, off)).entries =~= total.entries.skip(idx_e),
        spec_scan_from(data, off + frame_len_at(data, off)).corruptions =~= total.corruptions.skip(
            idx_c + 1,
        ),
{
    let here = spec_scan_from(data, off);
    let rest = spec_scan_from(data, off + frame_len_at(data, off));
    assert(here.corruptions == seq![off] + rest.corruptions);
    assert(here.corruptions[0] == off);
    assert(total.corruptions[idx_c] == total.corruptions.skip(idx_c)[0]);
    assert(rest.corruptions =~= here.corruptions.skip(1));
    assert(here.corruptions.skip(1) =~= total.corruptions.skip(idx_c + 1));
    assert(here.entries == rest.entries);
}

/// A frame laid out from raw parts: a header built over any body bytes,
/// with any checksum. What a writer — correct or corrupted — can leave in
/// a segment.
pub open spec fn spec_raw_frame(body: Seq<u8>, ts: u64, flags: u32, crc: u32) -> Seq<u8> {
    spec_header_bytes(body.len() as u64, crc, ts, flags) + body
}

/// A raw frame at `off` parses back field by field; nothing is assumed of
/// its body.
pub proof fn lemma_raw_frame_parse(
    data: Seq<u8>,
    off: int,
    body: Seq<u8>,
    ts: u64,
    flags: u32,
    crc: u32,
)
    requires
        0 <= off,
        HEADER_SIZE + body.len() <= 0xFFFF_FFFF,
        off + spec_raw_frame(body, ts, flags, crc).len() <= data.len(),
        data.subrange(off, off + spec_raw_frame(body, ts, flags, crc).len() as int)
            == spec_raw_frame(body, ts, flags, crc),
    ensures
        frame_complete_at(data, off),
        scannable_frame_at(data, off),
        frame_len_at(data, off) == HEADER_SIZE + body.len(),
        frame_body_at(data, off) == body,
        frame_crc_ok_at(data, off) <==> crc == crc32_of(body),
        frame_tombstone_at(data, off) <==> (flags & TOMBSTONE_FLAG != 0),
        frame_ts_at(data, off) == ts,
{
    let frame = spec_raw_frame(body, ts, flags, crc);
    lemma_header_round_trip(body.len() as u64, crc, ts, flags);
    assert(frame.len() == HEADER_SIZE + body.len());
    assert(data.subrange(off, off + HEADER_SIZE) =~= frame.subrange(0, HEADER_SIZE as int));
    assert(frame.subrange(0, HEADER_SIZE as int) =~= spec_header_bytes(
        body.len() as u64,
        crc,
        ts,
        flags,
    ));
    assert(frame_complete_at(data, off));
    assert(frame_body_at(data, off) =~= frame.subrange(
        HEADER_SIZE as int,
        HEADER_SIZE + body.len(),
    ));
    assert(frame.subrange(HEADER_SIZE as int, HEADER_SIZE + body.len()) =~= body);
}

/// A frame with an explicitly given checksum field, which may or may not
/// be the checksum of the body. `spec_frame` is the special case of a
/// correct checksum.
pub open spec fn spec_frame_with_crc(
    key: Seq<char>,
    value: Option<Seq<char>>,
    ts: u64,
    tomb: bool,
    crc: u32,
) -> Seq<u8> {
    let body = spec_record_body(key, value);
    spec_header_bytes(
        body.len() as u64,
        crc,
        ts,
        if tomb {
            TOMBSTONE_FLAG
        } else {
            0u32
        },
    ) + body
}

/// A frame written at `off` parses back exactly as written: it is complete,
/// its stored checksum matches the body exactly when it was written
/// correctly, and its body decodes to the key and value it was built from.
pub proof fn lemma_frame_parse(
    data: Seq<u8>,
    off: int,
    key: Seq<char>,
    value: Option<Seq<char>>,
    ts: u64,
    tomb: bool,
    crc: u32,
)
    requires
        record_body_fits(key, value),
        0 <= off,
        off + spec_frame_with_crc(key, value, ts, tomb, crc).len() <= data.len(),
        data.subrange(off, off + spec_frame_with_crc(key, value, ts, tomb, crc).len() as int)
            == spec_frame_with_crc(key, value, ts, tomb, crc),
    ensures
        frame_complete_at(data, off),
        scannable_frame_at(data, off),
        frame_len_at(data, off) == spec_frame_with_crc(key, value, ts, tomb, crc).len(),
        frame_body_at(data, off) == spec_record_body(key, value),
        frame_crc_ok_at(data, off) <==> crc == crc32_of(spec_record_body(key, value)),
        frame_tombstone_at(data, off) == tomb,
        frame_ts_at(data, off) == ts,
        spec_decode_record_body(frame_body_at(data, off)) == Some((key, value)),
{
    vstd::bytes::lemma_auto_spec_u32_to_from_le_bytes();
    let body = spec_record_body(key, value);
    let flags: u32 = if tomb {
        TOMBSTONE_FLAG
    } else {
        0u32
    };
    let frame = spec_frame_with_crc(key, value, ts, tomb, crc);
    lemma_header_round_trip(body.len() as u64, crc, ts, flags);
    assert(frame.len() == HEADER_SIZE + body.len());
    match value {
        Some(v) => {
            assert(body == seq![1u8] + spec_piece(key) + spec_piece(v));
            assert(spec_piece(key).len() == 4 + encode_utf8(key).len());
            assert(spec_piece(v).len() == 4 + encode_utf8(v).len());
        },
        None => {
            assert(body == seq![0u8] + spec_piece(key));
            assert(spec_piece(key).len() == 4 + encode_utf8(key).len());
        },
    }
    assert(body.len() <= 9 + 2 * MAX_PIECE_LEN);
    assert(data.subrange(off, off + HEADER_SIZE) =~= frame.subrange(0, HEADER_SIZE as int));
    assert(frame.subrange(0, HEADER_SIZE as int) =~= spec_header_bytes(
        body.len() as u64,
        crc,
        ts,
        flags,
    ));
    assert(frame_complete_at(data, off));
    assert(frame_body_at(data, off) =~= frame.subrange(
        HEADER_SIZE as int,
        HEADER_SIZE + body.len(),
    ));
    assert(frame.subrange(HEADER_SIZE as int, HEADER_SIZE + body.len()) =~= body);
    lemma_record_body_round_trip(key, value);
    assert(TOMBSTONE_FLAG & TOMBSTONE_FLAG != 0u32) by (bit_vector);
    assert(0u32 & TOMBSTONE_FLAG == 0u32) by (bit_vector);
}

/// Extending a segment by appending bytes leaves every frame that was
/// already complete exactly as it was.
pub proof fn lemma_extend_preserves_frame(d1: Seq<u8>, d2: Seq<u8>, off: int)
    requires
        frame_complete_at(d1, off),
        d1.len() <= d2.len(),
        d2.subrange(0, d1.len() as int) == d1,
    ensures
        frame_complete_at(d2, off),
        frame_len_at(d2, off) == frame_len_at(d1, off),
        frame_body_at(d2, off) == frame_body_at(d1, off),
        frame_crc_ok_at(d2, off) == frame_crc_ok_at(d1, off),
        frame_tombstone_at(d2, off) == frame_tombstone_at(d1, off),
        frame_ts_at(d2, off) == frame_ts_at(d1, off),
{
    assert(d2.subrange(off, off + HEADER_SIZE) =~= d1.subrange(off, off + HEADER_SIZE));
    assert(d2.subrange(off + HEADER_SIZE, off + frame_len_at(d1, off)) =~= d1.subrange(
        off + HEADER_SIZE,
        off + frame_len_at(d1, off),
    ));
}

/// Round trip: after appending a record, the frame at the old end of the
/// segment reads back as complete, checksum-good, and decoding to exactly
/// the key and value that were written.
pub proof fn lemma_append_then_read(
    old_data: Seq<u8>,
    new_data: Seq<u8>,
    key: Seq<char>,
    value: Option<Seq<char>>,
    ts: u64,
    tomb: bool,
)
    requires
        record_body_fits(key, value),
        new_data == old_data + spec_frame(key, value, ts, tomb),
    ensures
        frame_complete_at(new_data, old_data.len() as int),
        frame_crc_ok_at(new_data, old_data.len() as int),
        frame_tombstone_at(new_data, old_data.len() as int) == tomb,
        frame_ts_at(new_data, old_data.len() as int) == ts,
        spec_decode_record_body(frame_body_at(new_data, old_data.len() as int)) == Some(
            (key, value),
        ),
{
    let body = spec_record_body(key, value);
    let crc = crc32_of(body);
    assert(spec_frame(key, value, ts, tomb) =~= spec_frame_with_crc(key, value, ts, tomb, crc));
    let off = old_data.len() as int;
    assert(new_data.subrange(off, off + spec_frame_with_crc(key, value, ts, tomb, crc).len() as int)
        =~= spec_frame_with_crc(key, value, ts, tomb, crc));
    lemma_frame_parse(new_data, off, key, value, ts, tomb, crc);
}

/// One record of a segment as some writer laid it out: any body bytes,
/// any stored checksum — a flipped checksum byte, a garbled body, or a
/// flag at odds with the body all model records corrupted on disk.
pub ghost struct FrameSpec {
    pub body: Seq<u8>,
    pub ts: u64,
    pub flags: u32,
    pub crc: u32,
}

/// The bytes of one such record.
pub open spec fn frame_spec_bytes(f: FrameSpec) -> Seq<u8> {
    spec_raw_frame(f.body, f.ts, f.flags, f.crc)
}

/// Whether recovery can take the record: the stored checksum is the body's,
/// the body decodes, and the tombstone flag agrees with it.
pub open spec fn frame_spec_ok(f: FrameSpec) -> bool {
    &&& f.crc == crc32_of(f.body)
    &&& match spec_decode_record_body(f.body) {
        Some((k, v)) => (v is None) == (f.flags & TOMBSTONE_FLAG != 0),
        None => false,
    }
}

/// Whether the record fits the scan's size field.
pub open spec fn frame_spec_fits(f: FrameSpec) -> bool {
    HEADER_SIZE + f.body.len() <= 0xFFFF_FFFF
}

/// A segment holding these records back to back.
pub open spec fn frames_bytes(fs: Seq<FrameSpec>) -> Seq<u8>
    decreases fs.len(),
{
    if fs.len() == 0 {
        Seq::empty()
    } else {
        frame_spec_bytes(fs[0]) + frames_bytes(fs.drop_first())
    }
}

/// The records recovery can take, in order.
pub open spec fn ok_frames(fs: Seq<FrameSpec>) -> Seq<FrameSpec>
    decreases fs.len(),
{
    if fs.len() == 0 {
        Seq::empty()
    } else if frame_spec_ok(fs[0]) {
        seq![fs[0]] + ok_frames(fs.drop_first())
    } else {
        ok_frames(fs.drop_first())
    }
}

/// Scanning from `off` sees exactly what scanning the suffix from its
/// start sees, with every offset shifted by `off`.
proof fn lemma_scan_shift(data: Seq<u8>, off: int, k: int)
    requires
        0 <= off,
        0 <= k,
        off + k <= data.len(),
    ensures
        ({
            let here = spec_scan_from(data, off + k);
            let there = spec_scan_from(data.skip(off), k);
            &&& here.entries.len() == there.entries.len()
            &&& forall|j: int|
                0 <= j < here.entries.len() ==> #[trigger] here.entries[j] == SpecScanItem {
                    off: there.entries[j].off + off,
                    ..there.entries[j]
                }
            &&& here.corruptions.len() == there.corruptions.len()
            &&& forall|j: int|
                0 <= j < here.corruptions.len() ==> #[trigger] here.corruptions[j]
                    == there.corruptions[j] + off
        }),
    decreases data.len() - off - k,
{
    let suffix = data.skip(off);
    assert(suffix.len() == data.len() - off);
    if off + k + HEADER_SIZE <= data.len() {
        assert(data.subrange(off + k, off + k + HEADER_SIZE) =~= suffix.subrange(
            k,
            k + HEADER_SIZE,
        ));
        if frame_complete_at(data, off + k) {
            let flen = frame_len_at(data, off + k);
            assert(frame_len_at(suffix, k) == flen);
            assert(data.subrange(off + k + HEADER_SIZE, off + k + flen) =~= suffix.subrange(
                k + HEADER_SIZE,
                k + flen,
            ));
            assert(frame_body_at(data, off + k) == frame_body_at(suffix, k));
            if scannable_frame_at(data, off + k) {
                lemma_scan_shift(data, off, k + flen);
                let here = spec_scan_from(data, off + k);
                let there = spec_scan_from(suffix, k);
                let here_rest = spec_scan_from(data, off + k + flen);
                let there_rest = spec_scan_from(suffix, k + flen);
                assert(frame_tombstone_at(data, off + k) == frame_tombstone_at(suffix, k));
                assert(frame_consistent_at(data, off + k) == frame_consistent_at(suffix, k));
                if frame_crc_ok_at(data, off + k) && frame_consistent_at(data, off + k) {
                    assert(here.entries[0] == SpecScanItem {
                        off: there.entries[0].off + off,
                        ..there.entries[0]
                    });
                    assert(forall|j: int|
                        1 <= j < here.entries.len() ==> #[trigger] here.entries[j]
                            == here_rest.entries[j - 1] && there.entries[j]
                            == there_rest.entries[j - 1]);
                } else if frame_crc_ok_at(data, off + k) {
                    assert(here.corruptions[0] == there.corruptions[0] + off);
                    assert(forall|j: int|
                        1 <= j < here.corruptions.len() ==> #[trigger] here.corruptions[j]
                            == here_rest.corruptions[j - 1] && there.corruptions[j]
                            == there_rest.corruptions[j - 1]);
                } else {
                    assert(here.corruptions[0] == there.corruptions[0] + off);
                    assert(forall|j: int|
                        1 <= j < here.corruptions.len() ==> #[trigger] here.corruptions[j]
                            == here_rest.corruptions[j - 1] && there.corruptions[j]
                            == there_rest.corruptions[j - 1]);
                }
            }
        } else {
            assert(!frame_complete_at(suffix, k));
        }
    } else {
        assert(!frame_complete_at(data, off + k));
        assert(!frame_complete_at(suffix, k));
    }
}

/// Recovery determinism: scanning a segment holding any mix of good
/// records and corrupt ones — a wrong stored checksum, an undecodable
/// body, or a tombstone flag at odds with the body — recovers exactly the
/// good records, in order and with their keys, values, timestamps and
/// tombstone marks intact, and reports exactly one corruption per bad
/// record.
pub proof fn lemma_scan_of_frames(fs: Seq<FrameSpec>)
    requires
        forall|i: int| 0 <= i < fs.len() ==> frame_spec_fits(#[trigger] fs[i]),
    ensures
        ({
            let scan = spec_scan_from(frames_bytes(fs), 0);
            let ok = ok_frames(fs);
            &&& scan.entries.len() == ok.len()
            &&& forall|j: int|
                0 <= j < ok.len() ==> spec_decode_record_body((#[trigger] ok[j]).body) == Some(
                    (scan.entries[j].key, scan.entries[j].value),
                ) && scan.entries[j].ts == ok[j].ts && scan.entries[j].tombstone == (ok[j].flags
                    & TOMBSTONE_FLAG != 0)
            &&& scan.corruptions.len() == fs.len() - ok.len()
        }),
    decreases fs.len(),
{
    let data = frames_bytes(fs);
    if fs.len() == 0 {
        assert(!frame_complete_at(data, 0));
    } else {
        let f0 = fs[0];
        let rest = fs.drop_first();
        let b0 = frame_spec_bytes(f0);
        assert(data == b0 + frames_bytes(rest));
        assert(data.subrange(0, b0.len() as int) =~= b0);
        lemma_header_round_trip(f0.body.len() as u64, f0.crc, f0.ts, f0.flags);
        lemma_raw_frame_parse(data, 0, f0.body, f0.ts, f0.flags, f0.crc);
        let flen = frame_len_at(data, 0);
        assert(flen == b0.len());
        assert(data.skip(flen) =~= frames_bytes(rest));
        lemma_scan_shift(data, flen, 0);
        assert(forall|i: int| 0 <= i < rest.len() ==> frame_spec_fits(#[trigger] rest[i]));
        lemma_scan_of_frames(rest);
        let scan = spec_scan_from(data, 0);
        let after = spec_scan_from(data, flen);
        let rest_scan = spec_scan_from(frames_bytes(rest), 0);
        let ok = ok_frames(fs);
        assert(frame_crc_ok_at(data, 0) <==> f0.crc == crc32_of(f0.body));
        if frame_spec_ok(f0) {
            assert(frame_consistent_at(data, 0));
            assert(ok == seq![f0] + ok_frames(rest));
            assert(scan.entries.len() == 1 + after.entries.len());
            assert forall|j: int|
                0 <= j < ok.len() implies spec_decode_record_body((#[trigger] ok[j]).body)
                == Some((scan.entries[j].key, scan.entries[j].value)) && scan.entries[j].ts
                == ok[j].ts && scan.entries[j].tombstone == (ok[j].flags & TOMBSTONE_FLAG
                != 0) by {
                if j == 0 {
                    assert(scan.entries[0].ts == f0.ts);
                } else {
                    assert(scan.entries[j] == after.entries[j - 1]);
                    assert(ok[j] == ok_frames(rest)[j - 1]);
                    assert(after.entries[j - 1] == SpecScanItem {
                        off: rest_scan.entries[j - 1].off + flen,
                        ..rest_scan.entries[j - 1]
                    });
                }
            }
        } else {
            assert(!(frame_crc_ok_at(data, 0) && frame_consistent_at(data, 0)));
            assert(ok == ok_frames(rest));
            assert(scan.entries == after.entries);
            assert(scan.corruptions.len() == 1 + after.corruptions.len());
            assert forall|j: int|
                0 <= j < ok.len() implies spec_decode_record_body((#[trigger] ok[j]).body)
                == Some((scan.entries[j].key, scan.entries[j].value)) && scan.entries[j].ts
                == ok[j].ts && scan.entries[j].tombstone == (ok[j].flags & TOMBSTONE_FLAG
                != 0) by {
                assert(scan.entries[j] == after.entries[j]);
                assert(after.entries[j] == SpecScanItem {
                    off: rest_scan.entries[j].off + flen,
                    ..rest_scan.entries[j]
                });
            }
        }
    }
}

/// The active segment is the one its file id finds.
pub proof fn lemma_active_file_lookup(fm: FileManager)
    requires
        fm.wf(),
    ensures
        fm.has_file(fm.active_file_id()),
        fm.file_index(fm.active_file_id()) == fm.segments@.len() - 1,
        fm.file_data(fm.active_file_id()) == fm.active_data(),
{
    let last = fm.segments@.len() - 1;
    assert(fm.segments@[last].file_id == fm.active_file_id());
    assert(fm.has_file(fm.active_file_id()));
    let w = fm.file_index(fm.active_file_id());
    assert(0 <= w < fm.segments@.len() && fm.segments@[w].file_id == fm.active_file_id());
    if w < last {
        assert(fm.segments@[w].file_id < fm.segments@[last].file_id);
    }
}

/// After one append, every file is still found under its id: the active
/// one extended by the frame, every other one untouched.
pub proof fn lemma_append_preserves_file_data(
    old_fm: FileManager,
    new_fm: FileManager,
    key: Seq<char>,
    value: Option<Seq<char>>,
    ts: u64,
    tomb: bool,
)
    requires
        old_fm.wf(),
        new_fm.wf(),
        FileManager::appended_frame(old_fm, new_fm, key, value, ts, tomb),
    ensures
        forall|fid: u32| new_fm.has_file(fid) == old_fm.has_file(fid),
        forall|fid: u32|
            old_fm.has_file(fid) && fid != old_fm.active_file_id()
                ==> #[trigger] new_fm.file_data(fid) == old_fm.file_data(fid),
        new_fm.file_data(old_fm.active_file_id()) == old_fm.active_data() + spec_frame(
            key,
            value,
            ts,
            tomb,
        ),
{
    let last = old_fm.segments@.len() - 1;
    assert(forall|i: int|
        0 <= i < new_fm.segments@.len() ==> (#[trigger] new_fm.segments@[i]).file_id
            == old_fm.segments@[i].file_id);
    assert forall|fid: u32| new_fm.has_file(fid) == old_fm.has_file(fid) by {
        if new_fm.has_file(fid) {
            let i = choose|i: int|
                0 <= i < new_fm.segments@.len() && new_fm.segments@[i].file_id == fid;
            assert(old_fm.segments@[i].file_id == fid);
        }
        if old_fm.has_file(fid) {
            let i = choose|i: int|
                0 <= i < old_fm.segments@.len() && old_fm.segments@[i].file_id == fid;
            assert(new_fm.segments@[i].file_id == fid);
        }
    }
    assert forall|fid: u32|
        old_fm.has_file(fid) && fid != old_fm.active_file_id()
            implies #[trigger] new_fm.file_data(fid) == old_fm.file_data(fid) by {
        let wo = old_fm.file_index(fid);
        let wn = new_fm.file_index(fid);
        assert(0 <= wo < old_fm.segments@.len() && old_fm.segments@[wo].file_id == fid);
        assert(new_fm.has_file(fid));
        assert(0 <= wn < new_fm.segments@.len() && new_fm.segments@[wn].file_id == fid);
        assert(old_fm.segments@[wn].file_id == fid);
        if wo < wn {
            assert(old_fm.segments@[wo].file_id < old_fm.segments@[wn].file_id);
        }
        if wn < wo {
            assert(old_fm.segments@[wn].file_id < old_fm.segments@[wo].file_id);
        }
        assert(wo == wn);
        assert(wo != last);
        assert(new_fm.segments@[wn] == old_fm.segments@[wo]);
    }
    lemma_active_file_lookup(old_fm);
    lemma_active_file_lookup(new_fm);
}

/// A frame complete in any file before an append is untouched by it.
pub proof fn lemma_frame_preserved_after_append(
    old_fm: FileManager,
    new_fm: FileManager,
    key: Seq<char>,
    value: Option<Seq<char>>,
    ts: u64,
    tomb: bool,
    fid: u32,
    off: int,
)
    requires
        old_fm.wf(),
        new_fm.wf(),
        FileManager::appended_frame(old_fm, new_fm, key, value, ts, tomb),
        old_fm.has_file(fid),
        frame_complete_at(old_fm.file_data(fid), off),
    ensures
        new_fm.has_file(fid),
        frame_complete_at(new_fm.file_data(fid), off),
        frame_len_at(new_fm.file_data(fid), off) == frame_len_at(old_fm.file_data(fid), off),
        frame_body_at(new_fm.file_data(fid), off) == frame_body_at(old_fm.file_data(fid), off),
        frame_crc_ok_at(new_fm.file_data(fid), off) == frame_crc_ok_at(
            old_fm.file_data(fid),
            off,
        ),
        frame_tombstone_at(new_fm.file_data(fid), off) == frame_tombstone_at(
            old_fm.file_data(fid),
            off,
        ),
        frame_ts_at(new_fm.file_data(fid), off) == frame_ts_at(old_fm.file_data(fid), off),
{
    lemma_append_preserves_file_data(old_fm, new_fm, key, value, ts, tomb);
    if fid == old_fm.active_file_id() {
        lemma_active_file_lookup(old_fm);
        let d1 = old_fm.file_data(fid);
        let d2 = new_fm.file_data(fid);
        assert(d2 == d1 + spec_frame(key, value, ts, tomb));
        assert(d2.subrange(0, d1.len() as int) =~= d1);
        lemma_extend_preserves_frame(d1, d2, off);
    } else {
        assert(new_fm.file_data(fid) == old_fm.file_data(fid));
    }
}

/// Each segment is the one its file id finds.
pub proof fn lemma_file_lookup(fm: FileManager, i: int)
    requires
        fm.wf(),
        0 <= i < fm.segments@.len(),
    ensures
        fm.has_file(fm.segments@[i].file_id),
        fm.file_index(fm.segments@[i].file_id) == i,
        fm.file_data(fm.segments@[i].file_id) == fm.segments@[i].data@,
{
    let fid = fm.segments@[i].file_id;
    assert(fm.has_file(fid));
    let w = fm.file_index(fid);
    assert(0 <= w < fm.segments@.len() && fm.segments@[w].file_id == fid);
    if w < i {
        assert(fm.segments@[w].file_id < fm.segments@[i].file_id);
    }
    if i < w {
        assert(fm.segments@[i].file_id < fm.segments@[w].file_id);
    }
}

/// Every item a scan emits really sits in the scanned bytes: a complete,
/// checksum-good frame at its offset, whose body decodes to the item's key
/// and value, consistent with its tombstone mark.
pub proof fn lemma_scan_items_valid(data: Seq<u8>, off: int)
    ensures
        forall|j: int|
            0 <= j < spec_scan_from(data, off).entries.len() ==> {
                let it = #[trigger] spec_scan_from(data, off).entries[j];
                &&& 0 <= it.off
                &&& frame_complete_at(data, it.off)
                &&& frame_crc_ok_at(data, it.off)
                &&& frame_tombstone_at(data, it.off) == it.tombstone
                &&& spec_decode_record_body(frame_body_at(data, it.off)) == Some(
                    (it.key, it.value),
                )
                &&& (it.value is None) == it.tombstone
            },
    decreases data.len() - off,
{
    if scannable_frame_at(data, off) {
        let flen = frame_len_at(data, off);
        lemma_scan_items_valid(data, off + flen);
        let here = spec_scan_from(data, off);
        let rest = spec_scan_from(data, off + flen);
        assert forall|j: int|
            0 <= j < here.entries.len() implies {
            let it = #[trigger] here.entries[j];
            &&& 0 <= it.off
            &&& frame_complete_at(data, it.off)
            &&& frame_crc_ok_at(data, it.off)
            &&& frame_tombstone_at(data, it.off) == it.tombstone
            &&& spec_decode_record_body(frame_body_at(data, it.off)) == Some((it.key, it.value))
            &&& (it.value is None) == it.tombstone
        } by {
            if here.entries.len() == rest.entries.len() {
                assert(here.entries[j] == rest.entries[j]);
            } else {
                if j > 0 {
                    assert(here.entries[j] == rest.entries[j - 1]);
                }
            }
        }
    }
}

/// Every tagged item of the whole-segment-set scan really sits in the file
/// its tag names.
pub proof fn lemma_items_valid(fm: FileManager, i: int)
    requires
        fm.wf(),
    ensures
        forall|j: int|
            0 <= j < fm.items_from(i).len() ==> {
                let t = #[trigger] fm.items_from(i)[j];
                &&& fm.has_file(t.0)
                &&& 0 <= t.1.off
                &&& frame_complete_at(fm.file_data(t.0), t.1.off)
                &&& frame_crc_ok_at(fm.file_data(t.0), t.1.off)
                &&& frame_tombstone_at(fm.file_data(t.0), t.1.off) == t.1.tombstone
                &&& spec_decode_record_body(frame_body_at(fm.file_data(t.0), t.1.off)) == Some(
                    (t.1.key, t.1.value),
                )
                &&& (t.1.value is None) == t.1.tombstone
            },
    decreases fm.segments@.len() - i,
{
    if 0 <= i < fm.segments@.len() {
        lemma_items_valid(fm, i + 1);
        lemma_file_lookup(fm, i);
        let data = fm.segments@[i].data@;
        let fid = fm.segments@[i].file_id;
        lemma_scan_items_valid(data, 0);
        let head = tag_items(fid, spec_scan_from(data, 0).entries);
        let rest = fm.items_from(i + 1);
        assert(fm.items_from(i) == head + rest);
        assert forall|j: int|
            0 <= j < fm.items_from(i).len() implies {
            let t = #[trigger] fm.items_from(i)[j];
            &&& fm.has_file(t.0)
            &&& 0 <= t.1.off
            &&& frame_complete_at(fm.file_data(t.0), t.1.off)
            &&& frame_crc_ok_at(fm.file_data(t.0), t.1.off)
            &&& frame_tombstone_at(fm.file_data(t.0), t.1.off) == t.1.tombstone
            &&& spec_decode_record_body(frame_body_at(fm.file_data(t.0), t.1.off)) == Some(
                (t.1.key, t.1.value),
            )
            &&& (t.1.value is None) == t.1.tombstone
        } by {
            if j < head.len() {
                assert(fm.items_from(i)[j] == head[j]);
                assert(head[j] == (fid, spec_scan_from(data, 0).entries[j]));
            } else {
                assert(fm.items_from(i)[j] == rest[j - head.len()]);
            }
        }
    }
}

/// The view of an optional owned string.
pub open spec fn opt_string_view(v: Option<String>) -> Option<Seq<char>> {
    match v {
        Some(s) => Some(s@),
        None => None,
    }
}

/// A subrange of a vector's bytes as a slice.
fn slice_subrange_vec(v: &Vec<u8>, i: usize, j: usize) -> (r: &[u8])
    requires
        0 <= i <= j <= v@.len(),
    ensures
        r@ == v@.subrange(i as int, j as int),
{
    vstd::slice::slice_subrange(v.as_slice(), i, j)
}

} // verus!
