//! The write-ahead log: a second, independent checksummed record stream
//! used purely for durability and replay, with its own rotation and
//! monotonic sequence numbering.
//!
//! A WAL file is modelled as the bytes of one file: a fixed header (magic,
//! version, creation time, flags) followed by self-delimiting entries. The
//! surrounding program reads the files at startup and persists them after
//! writes; sequence assignment, framing, checksums, the startup scan and
//! replay are verified here.

use vstd::prelude::*;
use vstd::assert_seqs_equal;
use vstd::bytes::{
    lemma_auto_spec_u32_to_from_le_bytes, lemma_auto_spec_u64_to_from_le_bytes,
    spec_u32_from_le_bytes, spec_u32_to_le_bytes, spec_u64_from_le_bytes, spec_u64_to_le_bytes,
    u32_from_le_bytes, u32_to_le_bytes, u64_from_le_bytes, u64_to_le_bytes,
};

use crate::clock::current_timestamp;
use crate::command::{
    decode_command, encode_command, spec_command_bytes, spec_command_fits, spec_decode_command,
    Command, CommandView,
};
use crate::crc::{crc32, crc32_of};
use crate::error::{PlexError, PlexResult};

verus! {

/// The magic that opens every WAL file.
pub open spec fn spec_wal_magic() -> Seq<u8> {
    seq![0x50u8, 0x4Cu8, 0x45u8, 0x58u8]
}

/// The current WAL format version.
pub const WAL_VERSION: u32 = 1;

/// The fixed header: magic, version, creation time, flags.
pub const WAL_HEADER_SIZE: usize = 20;

/// The fixed prefix of each entry: sequence, timestamp, checksum, command
/// length.
pub const WAL_ENTRY_HEADER_SIZE: usize = 24;

/// The header bytes of one WAL file.
pub open spec fn spec_wal_header_bytes(created_at: u64, flags: u32) -> Seq<u8> {
    spec_wal_magic() + spec_u32_to_le_bytes(WAL_VERSION) + spec_u64_to_le_bytes(created_at)
        + spec_u32_to_le_bytes(flags)
}

/// Whether a file opens with a valid magic and version; a file failing
/// this is skipped during the startup scan, not fatal.
pub open spec fn spec_wal_header_valid(data: Seq<u8>) -> bool {
    &&& data.len() >= WAL_HEADER_SIZE
    &&& data.subrange(0, 4) == spec_wal_magic()
    &&& spec_u32_from_le_bytes(data.subrange(4, 8)) == WAL_VERSION
}

/// The bytes of one entry: sequence, timestamp, checksum, then the
/// length-prefixed serialized command.
pub open spec fn spec_wal_entry_bytes(seq_no: u64, ts: u64, ck: u32, cmd: Seq<u8>) -> Seq<u8> {
    spec_u64_to_le_bytes(seq_no) + spec_u64_to_le_bytes(ts) + spec_u32_to_le_bytes(ck)
        + spec_u32_to_le_bytes(cmd.len() as u32) + cmd
}

/// The checksum of an entry, over its sequence, timestamp and serialized
/// command.
pub open spec fn spec_wal_checksum(seq_no: u64, ts: u64, cmd: Seq<u8>) -> u32 {
    crc32_of(spec_u64_to_le_bytes(seq_no) + spec_u64_to_le_bytes(ts) + cmd)
}

/// The declared command length of the entry at `off`.
pub open spec fn wal_entry_cmd_len_at(data: Seq<u8>, off: int) -> int {
    spec_u32_from_le_bytes(data.subrange(off + 20, off + 24)) as int
}

/// Whether a whole entry lies within `data` at `off`.
pub open spec fn wal_entry_complete_at(data: Seq<u8>, off: int) -> bool {
    &&& 0 <= off
    &&& off + WAL_ENTRY_HEADER_SIZE <= data.len()
    &&& off + WAL_ENTRY_HEADER_SIZE + wal_entry_cmd_len_at(data, off) <= data.len()
}

/// The total length of the entry at `off`.
pub open spec fn wal_entry_len_at(data: Seq<u8>, off: int) -> int {
    WAL_ENTRY_HEADER_SIZE + wal_entry_cmd_len_at(data, off)
}

/// The sequence number of the entry at `off`.
pub open spec fn wal_entry_seq_at(data: Seq<u8>, off: int) -> u64 {
    spec_u64_from_le_bytes(data.subrange(off, off + 8))
}

/// The timestamp of the entry at `off`.
pub open spec fn wal_entry_ts_at(data: Seq<u8>, off: int) -> u64 {
    spec_u64_from_le_bytes(data.subrange(off + 8, off + 16))
}

/// The stored checksum of the entry at `off`.
pub open spec fn wal_entry_ck_at(data: Seq<u8>, off: int) -> u32 {
    spec_u32_from_le_bytes(data.subrange(off + 16, off + 20))
}

/// The serialized command of the entry at `off`.
pub open spec fn wal_entry_cmd_at(data: Seq<u8>, off: int) -> Seq<u8> {
    data.subrange(off + WAL_ENTRY_HEADER_SIZE, off + wal_entry_len_at(data, off))
}

/// The sequence numbers of all complete entries from `off` on, in order.
pub open spec fn spec_wal_seqs_from(data: Seq<u8>, off: int) -> Seq<u64>
    decreases data.len() - off,
{
    if !wal_entry_complete_at(data, off) {
        Seq::empty()
    } else {
        seq![wal_entry_seq_at(data, off)] + spec_wal_seqs_from(
            data,
            off + wal_entry_len_at(data, off),
        )
    }
}

/// The greatest sequence number of any complete entry from `off` on, or
/// zero.
pub open spec fn spec_wal_max_from(data: Seq<u8>, off: int) -> u64
    decreases data.len() - off,
{
    if !wal_entry_complete_at(data, off) {
        0u64
    } else {
        let s = wal_entry_seq_at(data, off);
        let rest = spec_wal_max_from(data, off + wal_entry_len_at(data, off));
        if s >= rest {
            s
        } else {
            rest
        }
    }
}

/// Where the entry scan from `off` stops: the start of the first
/// incomplete entry.
pub open spec fn wal_scan_end(data: Seq<u8>, off: int) -> int
    decreases data.len() - off,
{
    if !wal_entry_complete_at(data, off) {
        off
    } else {
        wal_scan_end(data, off + wal_entry_len_at(data, off))
    }
}

/// The sequence numbers one file contributes to the startup scan: none if
/// its header is invalid.
pub open spec fn spec_wal_file_seqs(data: Seq<u8>) -> Seq<u64> {
    if spec_wal_header_valid(data) {
        spec_wal_seqs_from(data, WAL_HEADER_SIZE as int)
    } else {
        Seq::empty()
    }
}

/// The greatest sequence number one file contributes, or zero.
pub open spec fn spec_wal_file_max(data: Seq<u8>) -> u64 {
    if spec_wal_header_valid(data) {
        spec_wal_max_from(data, WAL_HEADER_SIZE as int)
    } else {
        0u64
    }
}

/// The scan's maximum dominates every sequence number it saw.
pub proof fn lemma_wal_max_dominates(data: Seq<u8>, off: int)
    ensures
        forall|i: int|
            0 <= i < spec_wal_seqs_from(data, off).len() ==> #[trigger] spec_wal_seqs_from(
                data,
                off,
            )[i] <= spec_wal_max_from(data, off),
    decreases data.len() - off,
{
    if wal_entry_complete_at(data, off) {
        let next = off + wal_entry_len_at(data, off);
        lemma_wal_max_dominates(data, next);
        let seqs = spec_wal_seqs_from(data, off);
        let rest = spec_wal_seqs_from(data, next);
        assert forall|i: int|
            0 <= i < seqs.len() implies #[trigger] seqs[i] <= spec_wal_max_from(data, off) by {
            if i > 0 {
                assert(seqs[i] == rest[i - 1]);
                assert(rest[i - 1] <= spec_wal_max_from(data, next));
            }
        }
    }
}

/// One open write-ahead-log file.
pub struct WALFileState {
    pub created_at: u64,
    pub start_sequence: u64,
    pub entry_count: u64,
    pub data: Vec<u8>,
}

/// The rotation and sync policy of the log.
pub struct WALConfig {
    pub max_file_size: u64,
    pub sync_interval_ms: u64,
    pub max_entries_per_file: u64,
    pub compress_old_files: bool,
    pub retention_period_ms: u64,
}

impl Default for WALConfig {
    /// 100 MiB files, a one-second sync interval, a million entries per
    /// file, one day of retention.
    fn default() -> (r: WALConfig)
        ensures
            r.max_file_size == 100 * 1024 * 1024,
            r.sync_interval_ms == 1000,
            r.max_entries_per_file == 1_000_000,
            !r.compress_old_files,
            r.retention_period_ms == 24 * 60 * 60 * 1000,
    {
        WALConfig {
            max_file_size: 100 * 1024 * 1024,
            sync_interval_ms: 1000,
            max_entries_per_file: 1_000_000,
            compress_old_files: false,
            retention_period_ms: 24 * 60 * 60 * 1000,
        }
    }
}

/// One parsed log entry, as replay hands it back.
pub struct WALEntry {
    pub sequence_number: u64,
    pub timestamp: u64,
    pub command: Command,
    pub checksum: u32,
}

/// The write-ahead log: its files (the last one the active write target,
/// when one is open), the last assigned sequence number, and the sync
/// bookkeeping.
pub struct WAL {
    pub config: WALConfig,
    pub files: Vec<WALFileState>,
    pub sequence_number: u64,
    pub has_active: bool,
    pub last_sync_ms: u64,
}

impl WAL {
    /// Well-formed: no file holds an entry with a sequence number above
    /// the last assigned one, and the active file — the one appends land
    /// in — is exactly a valid header followed by whole entries.
    pub open spec fn wf(self) -> bool {
        &&& forall|i: int|
            0 <= i < self.files@.len() ==> spec_wal_file_max(
                (#[trigger] self.files@[i]).data@,
            ) <= self.sequence_number
        &&& self.has_active ==> {
            &&& self.files@.len() >= 1
            &&& spec_wal_header_valid(self.files@.last().data@)
            &&& wal_scan_end(self.files@.last().data@, WAL_HEADER_SIZE as int)
                == self.files@.last().data@.len()
        }
    }

    /// A fresh log: no files yet (the first append opens one), sequence
    /// numbering starting at zero.
    pub fn new(config: WALConfig) -> (r: WAL)
        ensures
            r.wf(),
            r.files@.len() == 0,
            r.sequence_number == 0,
            !r.has_active,
    {
        WAL {
            config,
            files: Vec::new(),
            sequence_number: 0,
            has_active: false,
            last_sync_ms: current_timestamp(),
        }
    }

    /// Reopens a log from the files found at startup, given in filename
    /// (chronological) order. The next sequence number resumes past the
    /// greatest one any valid file holds; a file with a bad header
    /// contributes nothing and is otherwise ignored, not fatal.
    pub fn open(existing: Vec<Vec<u8>>, config: WALConfig) -> (r: WAL)
        ensures
            r.wf(),
            !r.has_active,
            r.files@.len() == existing@.len(),
            forall|i: int|
                0 <= i < existing@.len() ==> (#[trigger] r.files@[i]).data@ == existing@[i]@,
            forall|i: int|
                0 <= i < existing@.len() ==> spec_wal_file_max(#[trigger] existing@[i]@)
                    <= r.sequence_number,
            r.sequence_number == 0 || exists|i: int|
                0 <= i < existing@.len() && spec_wal_file_max(#[trigger] existing@[i]@)
                    == r.sequence_number,
    {
        let mut files: Vec<WALFileState> = Vec::new();
        let mut max_seq: u64 = 0;
        let ghost orig = existing@;
        let mut rest = existing;
        while rest.len() > 0
            invariant
                files@.len() + rest@.len() == orig.len(),
                rest@ =~= orig.skip(files@.len() as int),
                forall|j: int| 0 <= j < files@.len() ==> (#[trigger] files@[j]).data@ == orig[j]@,
                forall|j: int|
                    0 <= j < files@.len() ==> spec_wal_file_max(#[trigger] orig[j]@) <= max_seq,
                max_seq == 0 || exists|j: int|
                    0 <= j < files@.len() && spec_wal_file_max(#[trigger] orig[j]@) == max_seq,
            decreases rest@.len(),
        {
            let data = rest.remove(0);
            proof {
                assert(data@ == orig[files@.len() as int]@);
                assert(rest@ =~= orig.skip(files@.len() as int + 1));
            }
            let file_max = wal_scan_max(&data);
            let created_at = wal_header_created_at(&data);
            if file_max > max_seq {
                max_seq = file_max;
            }
            files.push(WALFileState { created_at, start_sequence: 0, entry_count: 0, data });
        }
        WAL {
            config,
            files,
            sequence_number: max_seq,
            has_active: false,
            last_sync_ms: current_timestamp(),
        }
    }
}

/// An entry written at `off` parses back exactly as written.
proof fn lemma_wal_entry_parse(data: Seq<u8>, off: int, seq_no: u64, ts: u64, ck: u32, cmd: Seq<u8>)
    requires
        0 <= off,
        cmd.len() < 0xFFFF_FFFF,
        off + spec_wal_entry_bytes(seq_no, ts, ck, cmd).len() <= data.len(),
        data.subrange(off, off + spec_wal_entry_bytes(seq_no, ts, ck, cmd).len() as int)
            == spec_wal_entry_bytes(seq_no, ts, ck, cmd),
    ensures
        wal_entry_complete_at(data, off),
        wal_entry_len_at(data, off) == spec_wal_entry_bytes(seq_no, ts, ck, cmd).len(),
        wal_entry_seq_at(data, off) == seq_no,
        wal_entry_ts_at(data, off) == ts,
        wal_entry_ck_at(data, off) == ck,
        wal_entry_cmd_at(data, off) == cmd,
{
    lemma_auto_spec_u32_to_from_le_bytes();
    lemma_auto_spec_u64_to_from_le_bytes();
    let e = spec_wal_entry_bytes(seq_no, ts, ck, cmd);
    assert(e.len() == WAL_ENTRY_HEADER_SIZE + cmd.len());
    assert(e.subrange(0, 8) =~= spec_u64_to_le_bytes(seq_no));
    assert(e.subrange(8, 16) =~= spec_u64_to_le_bytes(ts));
    assert(e.subrange(16, 20) =~= spec_u32_to_le_bytes(ck));
    assert(e.subrange(20, 24) =~= spec_u32_to_le_bytes(cmd.len() as u32));
    assert(e.subrange(24, 24 + cmd.len() as int) =~= cmd);
    assert(data.subrange(off, off + 8) =~= e.subrange(0, 8));
    assert(data.subrange(off + 8, off + 16) =~= e.subrange(8, 16));
    assert(data.subrange(off + 16, off + 20) =~= e.subrange(16, 20));
    assert(data.subrange(off + 20, off + 24) =~= e.subrange(20, 24));
    assert(data.subrange(off + 24, off + 24 + cmd.len()) =~= e.subrange(
        24,
        24 + cmd.len() as int,
    ));
}

/// Extending a file leaves every entry that was already complete as it
/// was.
proof fn lemma_wal_extend_preserves_entry(d1: Seq<u8>, d2: Seq<u8>, off: int)
    requires
        wal_entry_complete_at(d1, off),
        d1.len() <= d2.len(),
        d2.subrange(0, d1.len() as int) == d1,
    ensures
        wal_entry_complete_at(d2, off),
        wal_entry_len_at(d2, off) == wal_entry_len_at(d1, off),
        wal_entry_seq_at(d2, off) == wal_entry_seq_at(d1, off),
        wal_entry_ts_at(d2, off) == wal_entry_ts_at(d1, off),
        wal_entry_ck_at(d2, off) == wal_entry_ck_at(d1, off),
        wal_entry_cmd_at(d2, off) == wal_entry_cmd_at(d1, off),
{
    assert(d2.subrange(off, off + 8) =~= d1.subrange(off, off + 8));
    assert(d2.subrange(off + 8, off + 16) =~= d1.subrange(off + 8, off + 16));
    assert(d2.subrange(off + 16, off + 20) =~= d1.subrange(off + 16, off + 20));
    assert(d2.subrange(off + 20, off + 24) =~= d1.subrange(off + 20, off + 24));
    assert(d2.subrange(off + 24, off + wal_entry_len_at(d1, off)) =~= d1.subrange(
        off + 24,
        off + wal_entry_len_at(d1, off),
    ));
}

/// Appending one entry to a file whose scan ends exactly at its end
/// extends the scan by exactly that entry.
#[verifier::rlimit(50)]
proof fn lemma_wal_append_entry(
    d1: Seq<u8>,
    d2: Seq<u8>,
    off: int,
    seq_no: u64,
    ts: u64,
    ck: u32,
    cmd: Seq<u8>,
)
    requires
        0 <= off <= d1.len(),
        wal_scan_end(d1, off) == d1.len(),
        cmd.len() < 0xFFFF_FFFF,
        d2 == d1 + spec_wal_entry_bytes(seq_no, ts, ck, cmd),
    ensures
        wal_scan_end(d2, off) == d2.len(),
        spec_wal_seqs_from(d2, off) == spec_wal_seqs_from(d1, off).push(seq_no),
        spec_wal_max_from(d2, off) == if spec_wal_max_from(d1, off) >= seq_no {
            spec_wal_max_from(d1, off)
        } else {
            seq_no
        },
    decreases d1.len() - off,
{
    lemma_auto_spec_u32_to_from_le_bytes();
    lemma_auto_spec_u64_to_from_le_bytes();
    let e = spec_wal_entry_bytes(seq_no, ts, ck, cmd);
    assert(e.len() == WAL_ENTRY_HEADER_SIZE + cmd.len());
    if wal_entry_complete_at(d1, off) {
        assert(d2.subrange(0, d1.len() as int) =~= d1);
        lemma_wal_extend_preserves_entry(d1, d2, off);
        let next = off + wal_entry_len_at(d1, off);
        assert(wal_scan_end(d1, next) == d1.len());
        lemma_wal_append_entry(d1, d2, next, seq_no, ts, ck, cmd);
        assert(wal_scan_end(d2, next) == d2.len());
        assert(spec_wal_seqs_from(d2, next) == spec_wal_seqs_from(d1, next).push(seq_no));
        assert(wal_entry_complete_at(d2, off) && wal_entry_len_at(d2, off) == wal_entry_len_at(
            d1,
            off,
        ));
        assert(wal_scan_end(d2, off) == wal_scan_end(d2, next));
        assert(spec_wal_seqs_from(d2, off) == seq![wal_entry_seq_at(d2, off)]
            + spec_wal_seqs_from(d2, next));
        assert(spec_wal_seqs_from(d1, off) == seq![wal_entry_seq_at(d1, off)]
            + spec_wal_seqs_from(d1, next));
        let a = spec_wal_seqs_from(d2, off);
        let b = spec_wal_seqs_from(d1, off);
        let x = spec_wal_seqs_from(d1, next);
        let y = spec_wal_seqs_from(d2, next);
        assert_seqs_equal!(a == b.push(seq_no), i => {
            if i == 0 {
                assert(a[0] == wal_entry_seq_at(d2, off));
                assert(b.push(seq_no)[0] == b[0]);
            } else {
                assert(a[i] == y[i - 1]);
                assert(y[i - 1] == x.push(seq_no)[i - 1]);
                if i - 1 < x.len() {
                    assert(x.push(seq_no)[i - 1] == x[i - 1]);
                    assert(b[i] == x[i - 1]);
                    assert(b.push(seq_no)[i] == b[i]);
                } else {
                    assert(x.push(seq_no)[i - 1] == seq_no);
                    assert(b.push(seq_no)[i] == seq_no);
                }
            }
        });
        assert(spec_wal_seqs_from(d2, off) == spec_wal_seqs_from(d1, off).push(seq_no));
        assert(spec_wal_max_from(d2, off) == if wal_entry_seq_at(d2, off) >= spec_wal_max_from(
            d2,
            next,
        ) {
            wal_entry_seq_at(d2, off)
        } else {
            spec_wal_max_from(d2, next)
        });
        assert(spec_wal_max_from(d1, off) == if wal_entry_seq_at(d1, off) >= spec_wal_max_from(
            d1,
            next,
        ) {
            wal_entry_seq_at(d1, off)
        } else {
            spec_wal_max_from(d1, next)
        });
    } else {
        assert(off == d1.len());
        assert(d2.subrange(off, off + e.len() as int) =~= e);
        lemma_wal_entry_parse(d2, off, seq_no, ts, ck, cmd);
        let next = off + e.len() as int;
        assert(next == d2.len());
        assert(!wal_entry_complete_at(d2, next));
        assert(spec_wal_seqs_from(d2, next) =~= Seq::<u64>::empty());
        assert(wal_entry_len_at(d2, off) == e.len());
        assert(spec_wal_seqs_from(d2, off) == seq![wal_entry_seq_at(d2, off)]
            + spec_wal_seqs_from(d2, next));
        assert(wal_entry_seq_at(d2, off) == seq_no);
        assert(spec_wal_seqs_from(d1, off) =~= Seq::<u64>::empty());
        assert(wal_scan_end(d2, off) == wal_scan_end(d2, next));
        assert(wal_scan_end(d2, next) == next);
        assert(spec_wal_seqs_from(d2, off) =~= spec_wal_seqs_from(d1, off).push(seq_no));
        assert(spec_wal_max_from(d2, next) == 0);
        assert(spec_wal_max_from(d2, off) == if wal_entry_seq_at(d2, off) >= spec_wal_max_from(
            d2,
            next,
        ) {
            wal_entry_seq_at(d2, off)
        } else {
            spec_wal_max_from(d2, next)
        });
        assert(spec_wal_max_from(d1, off) == 0);
    }
}

/// What `append` does to the file list: the new entry lands at the end of
/// the active file, or at the end of a freshly opened one when rotation
/// was due.
pub open spec fn wal_entry_appended(
    old_files: Seq<WALFileState>,
    new_files: Seq<WALFileState>,
    seq_no: u64,
    cmd: Seq<u8>,
) -> bool {
    exists|ts: u64|
        {
            let ebytes = #[trigger] spec_wal_entry_bytes(
                seq_no,
                ts,
                spec_wal_checksum(seq_no, ts, cmd),
                cmd,
            );
            ||| {
                &&& new_files.len() == old_files.len()
                &&& old_files.len() >= 1
                &&& forall|i: int|
                    0 <= i < old_files.len() - 1 ==> new_files[i] == old_files[i]
                &&& new_files.last().data@ == old_files.last().data@ + ebytes
            }
            ||| {
                &&& new_files.len() == old_files.len() + 1
                &&& forall|i: int| 0 <= i < old_files.len() ==> new_files[i] == old_files[i]
                &&& exists|created: u64|
                    new_files.last().data@ == #[trigger] spec_wal_header_bytes(created, 0u32)
                        + ebytes
            }
        }
}

impl WAL {
    /// Assigns the next monotonic sequence number, checksums and appends
    /// the entry to the active file — rotating to a new file when the
    /// active one is over its size or entry budget, or when none is open —
    /// and syncs if the sync interval has elapsed. Rejects a command too
    /// large to serialize, and fails once the sequence space is exhausted;
    /// neither changes any state.
    pub fn append(&mut self, command: &Command) -> (r: PlexResult<u64>)
        requires
            old(self).wf(),
        ensures
            final(self).wf(),
            match r {
                Ok(s) => {
                    &&& s == old(self).sequence_number + 1
                    &&& final(self).sequence_number == s
                    &&& spec_command_fits(command@)
                    &&& wal_entry_appended(
                        old(self).files@,
                        final(self).files@,
                        s,
                        spec_command_bytes(command@),
                    )
                },
                Err(e) => e is WAL && *final(self) == *old(self),
            },
            r is Err <==> (!spec_command_fits(command@) || old(self).sequence_number == u64::MAX),
    {
        let cmd = match encode_command(command) {
            Ok(b) => b,
            Err(e) => {
                return Err(e);
            },
        };
        proof {
            lemma_command_bytes_len(command@);
        }
        if self.sequence_number == u64::MAX {
            return Err(PlexError::WAL("sequence number space exhausted".to_owned()));
        }
        let seq_no = self.sequence_number + 1;
        self.sequence_number = seq_no;
        let ts = current_timestamp();

        let mut ck_input = u64_to_le_bytes(seq_no);
        let mut ts_bytes = u64_to_le_bytes(ts);
        ck_input.append(&mut ts_bytes);
        let mut cmd_copy = vstd::slice::slice_to_vec(cmd.as_slice());
        ck_input.append(&mut cmd_copy);
        proof {
            assert(ck_input@ =~= spec_u64_to_le_bytes(seq_no) + spec_u64_to_le_bytes(ts)
                + cmd@);
        }
        let ck = crc32(ck_input.as_slice());

        let mut entry = u64_to_le_bytes(seq_no);
        let mut ts_bytes2 = u64_to_le_bytes(ts);
        entry.append(&mut ts_bytes2);
        let mut ck_bytes = u32_to_le_bytes(ck);
        entry.append(&mut ck_bytes);
        let mut len_bytes = u32_to_le_bytes(cmd.len() as u32);
        entry.append(&mut len_bytes);
        let mut cmd_owned = cmd;
        entry.append(&mut cmd_owned);
        let ghost cmd_spec = spec_command_bytes(command@);
        let ghost ebytes = spec_wal_entry_bytes(seq_no, ts, ck, cmd_spec);
        proof {
            assert(entry@ =~= ebytes);
        }

        let needs_new = if !self.has_active {
            true
        } else {
            let last = &self.files[self.files.len() - 1];
            last.data.len() as u64 >= self.config.max_file_size || last.entry_count
                >= self.config.max_entries_per_file
        };
        let ghost rotated = needs_new;
        if needs_new {
            let header = encode_wal_header(ts, 0);
            proof {
                lemma_wal_header_facts(ts, 0);
            }
            self.files.push(
                WALFileState {
                    created_at: ts,
                    start_sequence: seq_no,
                    entry_count: 0,
                    data: header,
                },
            );
            self.has_active = true;
        }
        let last_idx = self.files.len() - 1;
        let mut f = match self.files.pop() {
            Some(f) => f,
            None => {
                return Err(PlexError::WAL("no active file".to_owned()));
            },
        };
        let ghost d1 = f.data@;
        f.data.append(&mut entry);
        f.entry_count = if f.entry_count < u64::MAX {
            f.entry_count + 1
        } else {
            u64::MAX
        };
        self.files.push(f);
        proof {
            if rotated {
                lemma_wal_header_facts(ts, 0u32);
                assert(d1 =~= spec_wal_header_bytes(ts, 0u32));
            }
            assert(spec_wal_header_valid(d1));
            assert(wal_scan_end(d1, WAL_HEADER_SIZE as int) == d1.len());
            let nd = self.files@.last().data@;
            assert(nd =~= d1 + ebytes);
            assert(ck == spec_wal_checksum(seq_no, ts, cmd_spec));
            lemma_wal_append_entry(d1, nd, WAL_HEADER_SIZE as int, seq_no, ts, ck, cmd_spec);
            assert(d1.subrange(0, 4) =~= nd.subrange(0, 4));
            assert(d1.subrange(4, 8) =~= nd.subrange(4, 8));
            assert(spec_wal_header_valid(nd));
            assert(spec_wal_file_max(d1) <= seq_no);
            assert(spec_wal_file_max(nd) <= seq_no);
            lemma_wal_max_still_bounded(*old(self), *self, seq_no, rotated);
            if rotated {
                assert(nd == spec_wal_header_bytes(ts, 0u32) + ebytes);
                assert(exists|created: u64|
                    nd == #[trigger] spec_wal_header_bytes(created, 0u32) + ebytes);
                assert(wal_entry_appended(old(self).files@, self.files@, seq_no, cmd_spec));
            } else {
                assert(nd == old(self).files@.last().data@ + ebytes);
                assert(wal_entry_appended(old(self).files@, self.files@, seq_no, cmd_spec));
            }
        }
        if ts >= self.last_sync_ms && ts - self.last_sync_ms >= self.config.sync_interval_ms {
            self.sync();
        }
        Ok(seq_no)
    }

    /// Forces the sync bookkeeping forward; the surrounding program
    /// flushes the bytes it holds.
    pub fn sync(&mut self)
        ensures
            final(self).config == old(self).config,
            final(self).files@ == old(self).files@,
            final(self).sequence_number == old(self).sequence_number,
            final(self).has_active == old(self).has_active,
    {
        self.last_sync_ms = current_timestamp();
    }
}

/// After one append the per-file maxima still sit at or below the new
/// sequence number.
proof fn lemma_wal_max_still_bounded(w1: WAL, w2: WAL, seq_no: u64, rotated: bool)
    requires
        w1.wf(),
        seq_no == w1.sequence_number + 1,
        w2.sequence_number == seq_no,
        if rotated {
            w2.files@.len() == w1.files@.len() + 1 && forall|i: int|
                0 <= i < w1.files@.len() ==> w2.files@[i] == w1.files@[i]
        } else {
            w2.files@.len() == w1.files@.len() && w1.files@.len() >= 1 && forall|i: int|
                0 <= i < w1.files@.len() - 1 ==> w2.files@[i] == w1.files@[i]
        },
        w2.files@.len() >= 1,
        spec_wal_header_valid(w2.files@.last().data@),
        spec_wal_file_max(w2.files@.last().data@) <= seq_no,
    ensures
        forall|i: int|
            0 <= i < w2.files@.len() ==> spec_wal_file_max((#[trigger] w2.files@[i]).data@)
                <= w2.sequence_number,
{
    assert forall|i: int|
        0 <= i < w2.files@.len() implies spec_wal_file_max((#[trigger] w2.files@[i]).data@)
        <= w2.sequence_number by {
        if i < w2.files@.len() - 1 {
            assert(w2.files@[i] == w1.files@[i]);
            assert(spec_wal_file_max(w1.files@[i].data@) <= w1.sequence_number);
        }
    }
}

/// How long a command's encoding can be.
proof fn lemma_command_bytes_len(c: CommandView)
    requires
        spec_command_fits(c),
    ensures
        spec_command_bytes(c).len() <= 9 + 2 * crate::codec::MAX_PIECE_LEN,
{
    lemma_auto_spec_u32_to_from_le_bytes();
    match c {
        CommandView::Put { key, value } => {
            assert(crate::codec::spec_piece(key).len() == 4 + vstd::utf8::encode_utf8(key).len());
            assert(crate::codec::spec_piece(value).len() == 4 + vstd::utf8::encode_utf8(
                value,
            ).len());
        },
        CommandView::Get { key } => {
            assert(crate::codec::spec_piece(key).len() == 4 + vstd::utf8::encode_utf8(key).len());
        },
        CommandView::Delete { key } => {
            assert(crate::codec::spec_piece(key).len() == 4 + vstd::utf8::encode_utf8(key).len());
        },
        CommandView::Compact => {
        },
    }
}

/// The header bytes a fresh file opens with are a valid header holding no
/// entries.
proof fn lemma_wal_header_facts(created_at: u64, flags: u32)
    ensures
        spec_wal_header_bytes(created_at, flags).len() == WAL_HEADER_SIZE,
        spec_wal_header_valid(spec_wal_header_bytes(created_at, flags)),
        wal_scan_end(spec_wal_header_bytes(created_at, flags), WAL_HEADER_SIZE as int)
            == WAL_HEADER_SIZE,
        spec_wal_file_max(spec_wal_header_bytes(created_at, flags)) == 0,
{
    lemma_auto_spec_u32_to_from_le_bytes();
    lemma_auto_spec_u64_to_from_le_bytes();
    let h = spec_wal_header_bytes(created_at, flags);
    assert(h.len() == WAL_HEADER_SIZE);
    assert(h.subrange(0, 4) =~= spec_wal_magic());
    assert(h.subrange(4, 8) =~= spec_u32_to_le_bytes(WAL_VERSION));
    assert(!wal_entry_complete_at(h, WAL_HEADER_SIZE as int));
}

/// Builds the header bytes of a fresh file.
fn encode_wal_header(created_at: u64, flags: u32) -> (r: Vec<u8>)
    ensures
        r@ == spec_wal_header_bytes(created_at, flags),
{
    let mut out: Vec<u8> = Vec::new();
    out.push(0x50u8);
    out.push(0x4Cu8);
    out.push(0x45u8);
    out.push(0x58u8);
    let mut version = u32_to_le_bytes(WAL_VERSION);
    out.append(&mut version);
    let mut created = u64_to_le_bytes(created_at);
    out.append(&mut created);
    let mut fl = u32_to_le_bytes(flags);
    out.append(&mut fl);
    proof {
        assert(out@ =~= spec_wal_header_bytes(created_at, flags));
    }
    out
}

/// Every sequence number any file holds is at most the bound that
/// dominates each file's scan maximum — so a reopened log, whose counter
/// is such a bound, assigns its next sequence number strictly above every
/// previously assigned one.
pub proof fn lemma_reopened_sequence_dominates(files: Seq<Seq<u8>>, bound: u64)
    requires
        forall|k: int| 0 <= k < files.len() ==> spec_wal_file_max(#[trigger] files[k]) <= bound,
    ensures
        forall|k: int, i: int|
            0 <= k < files.len() && 0 <= i < spec_wal_file_seqs(files[k]).len()
                ==> #[trigger] spec_wal_file_seqs(files[k])[i] <= bound,
{
    assert forall|k: int, i: int|
        0 <= k < files.len() && 0 <= i < spec_wal_file_seqs(files[k]).len()
            implies #[trigger] spec_wal_file_seqs(files[k])[i] <= bound by {
        if spec_wal_header_valid(files[k]) {
            lemma_wal_max_dominates(files[k], WAL_HEADER_SIZE as int);
        }
    }
}

/// What replay recovers of one entry.
pub ghost struct WalReplayItem {
    pub seq: u64,
    pub ts: u64,
    pub ck: u32,
    pub cmd: Seq<u8>,
}

/// Replay from `off`: each complete entry whose sequence number exceeds
/// `after`, whose stored checksum matches, and whose command decodes; an
/// entry failing any of those is skipped without aborting the rest.
pub open spec fn spec_wal_replay_from(data: Seq<u8>, off: int, after: u64) -> Seq<WalReplayItem>
    decreases data.len() - off,
{
    if !wal_entry_complete_at(data, off) {
        Seq::empty()
    } else {
        let rest = spec_wal_replay_from(data, off + wal_entry_len_at(data, off), after);
        let s = wal_entry_seq_at(data, off);
        let t = wal_entry_ts_at(data, off);
        let c = wal_entry_cmd_at(data, off);
        if s > after && wal_entry_ck_at(data, off) == spec_wal_checksum(s, t, c)
            && spec_decode_command(c) is Some {
            seq![WalReplayItem { seq: s, ts: t, ck: wal_entry_ck_at(data, off), cmd: c }] + rest
        } else {
            rest
        }
    }
}

/// What one file contributes to replay: nothing if its header is invalid.
pub open spec fn spec_wal_file_replay(data: Seq<u8>, after: u64) -> Seq<WalReplayItem> {
    if spec_wal_header_valid(data) {
        spec_wal_replay_from(data, WAL_HEADER_SIZE as int, after)
    } else {
        Seq::empty()
    }
}

/// Whether one parsed entry reports one replay item.
pub open spec fn wal_entry_matches(e: WALEntry, it: WalReplayItem) -> bool {
    &&& e.sequence_number == it.seq
    &&& e.timestamp == it.ts
    &&& e.checksum == it.ck
    &&& spec_decode_command(it.cmd) == Some(e.command@)
}

impl WAL {
    /// The replay items of the files from index `i` on, in file order.
    pub open spec fn replay_items_from(self, i: int, after: u64) -> Seq<WalReplayItem>
        decreases self.files@.len() - i,
    {
        if i < 0 || i >= self.files@.len() {
            Seq::empty()
        } else {
            spec_wal_file_replay(self.files@[i].data@, after) + self.replay_items_from(
                i + 1,
                after,
            )
        }
    }

    /// The replay items of the files before index `i`.
    pub open spec fn replay_items_upto(self, i: int, after: u64) -> Seq<WalReplayItem>
        decreases i,
    {
        if i <= 0 || i > self.files@.len() {
            Seq::empty()
        } else {
            self.replay_items_upto(i - 1, after) + spec_wal_file_replay(
                self.files@[i - 1].data@,
                after,
            )
        }
    }

    /// Splitting the whole replay at file `i` and at file `i + 1` agree.
    proof fn lemma_replay_upto_step(self, i: int, after: u64)
        requires
            0 <= i < self.files@.len(),
            self.replay_items_from(0, after) == self.replay_items_upto(i, after)
                + self.replay_items_from(i, after),
        ensures
            self.replay_items_from(0, after) == self.replay_items_upto(i + 1, after)
                + self.replay_items_from(i + 1, after),
    {
        assert(self.replay_items_upto(i + 1, after) + self.replay_items_from(i + 1, after)
            =~= self.replay_items_upto(i, after) + self.replay_items_from(i, after));
    }

    /// Replays every file in order: reads each WAL segment, validates each
    /// entry's checksum, and hands back the commands whose sequence number
    /// exceeds `after` — the ones not yet reflected in partition segments.
    /// A corrupt or undecodable entry is skipped; an invalid file is
    /// skipped whole; neither aborts replay.
    pub fn entries_after(&self, after: u64) -> (r: Vec<WALEntry>)
        ensures
            ({
                let items = self.replay_items_from(0, after);
                &&& r@.len() == items.len()
                &&& forall|j: int|
                    0 <= j < items.len() ==> wal_entry_matches(#[trigger] r@[j], items[j])
            }),
    {
        let mut out: Vec<WALEntry> = Vec::new();
        let mut i: usize = 0;
        while i < self.files.len()
            invariant
                0 <= i <= self.files@.len(),
                self.replay_items_from(0, after) == self.replay_items_upto(i as int, after)
                    + self.replay_items_from(i as int, after),
                out@.len() == self.replay_items_upto(i as int, after).len(),
                forall|j: int|
                    0 <= j < out@.len() ==> wal_entry_matches(
                        #[trigger] out@[j],
                        self.replay_items_upto(i as int, after)[j],
                    ),
            decreases self.files@.len() - i,
        {
            let ghost prev = out@;
            replay_file(&self.files[i].data, after, &mut out);
            proof {
                self.lemma_replay_upto_step(i as int, after);
                let up1 = self.replay_items_upto(i as int + 1, after);
                let up0 = self.replay_items_upto(i as int, after);
                let fr = spec_wal_file_replay(self.files@[i as int].data@, after);
                assert(up1 == up0 + fr);
                assert forall|j: int|
                    0 <= j < out@.len() implies wal_entry_matches(#[trigger] out@[j], up1[j]) by {
                    if j < up0.len() {
                        assert(out@[j] == prev[j]);
                        assert(wal_entry_matches(prev[j], up0[j]));
                        assert(up1[j] == up0[j]);
                    } else {
                        let jj = j - up0.len();
                        assert(wal_entry_matches(out@[up0.len() + jj], fr[jj]));
                        assert(up1[j] == fr[jj]);
                    }
                }
            }
            i = i + 1;
        }
        proof {
            assert(self.replay_items_from(i as int, after) =~= Seq::<WalReplayItem>::empty());
            assert(self.replay_items_from(0, after) =~= self.replay_items_upto(i as int, after));
        }
        out
    }
}

/// Replays one file, appending what it recovers, exactly as
/// `spec_wal_file_replay` describes.
fn replay_file(data: &Vec<u8>, after: u64, out: &mut Vec<WALEntry>)
    ensures
        ({
            let items = spec_wal_file_replay(data@, after);
            &&& final(out)@.len() == old(out)@.len() + items.len()
            &&& forall|j: int| 0 <= j < old(out)@.len() ==> final(out)@[j] == old(out)@[j]
            &&& forall|j: int|
                0 <= j < items.len() ==> wal_entry_matches(
                    #[trigger] final(out)@[old(out)@.len() + j],
                    items[j],
                )
        }),
{
    if !wal_header_valid_exec(data) {
        return ;
    }
    let ghost total = spec_wal_replay_from(data@, WAL_HEADER_SIZE as int, after);
    let ghost old_len = old(out)@.len() as int;
    let len = data.len();
    let mut off: usize = WAL_HEADER_SIZE;
    let ghost mut idx: int = 0;
    loop
        invariant
            WAL_HEADER_SIZE <= off <= len,
            len == data@.len(),
            0 <= idx <= total.len(),
            total == spec_wal_replay_from(data@, WAL_HEADER_SIZE as int, after),
            spec_wal_replay_from(data@, off as int, after) =~= total.skip(idx),
            out@.len() == old_len + idx,
            old_len == old(out)@.len(),
            forall|j: int| 0 <= j < old_len ==> out@[j] == old(out)@[j],
            forall|j: int|
                0 <= j < idx ==> wal_entry_matches(#[trigger] out@[old_len + j], total[j]),
        ensures
            idx == total.len(),
            out@.len() == old_len + idx,
            forall|j: int| 0 <= j < old_len ==> out@[j] == old(out)@[j],
            forall|j: int|
                0 <= j < idx ==> wal_entry_matches(#[trigger] out@[old_len + j], total[j]),
        decreases len - off,
    {
        if len - off < WAL_ENTRY_HEADER_SIZE {
            proof {
                assert(!wal_entry_complete_at(data@, off as int));
            }
            break ;
        }
        let cmd_len = u32_from_le_bytes(
            vstd::slice::slice_subrange(data.as_slice(), off + 20, off + 24),
        );
        let rem: usize = len - (off + WAL_ENTRY_HEADER_SIZE);
        if cmd_len as u64 > rem as u64 {
            proof {
                assert(!wal_entry_complete_at(data@, off as int));
            }
            break ;
        }
        let seq_no = u64_from_le_bytes(vstd::slice::slice_subrange(data.as_slice(), off, off + 8));
        let ts = u64_from_le_bytes(
            vstd::slice::slice_subrange(data.as_slice(), off + 8, off + 16),
        );
        let stored_ck = u32_from_le_bytes(
            vstd::slice::slice_subrange(data.as_slice(), off + 16, off + 20),
        );
        let clen = cmd_len as usize;
        let cmd_slice = vstd::slice::slice_subrange(
            data.as_slice(),
            off + WAL_ENTRY_HEADER_SIZE,
            off + WAL_ENTRY_HEADER_SIZE + clen,
        );
        proof {
            assert(wal_entry_complete_at(data@, off as int));
            assert(wal_entry_len_at(data@, off as int) == WAL_ENTRY_HEADER_SIZE + clen);
            assert(cmd_slice@ =~= wal_entry_cmd_at(data@, off as int));
        }
        let mut ck_input = u64_to_le_bytes(seq_no);
        let mut ts_bytes = u64_to_le_bytes(ts);
        ck_input.append(&mut ts_bytes);
        let mut cmd_copy = vstd::slice::slice_to_vec(cmd_slice);
        ck_input.append(&mut cmd_copy);
        proof {
            assert(ck_input@ =~= spec_u64_to_le_bytes(seq_no) + spec_u64_to_le_bytes(ts)
                + wal_entry_cmd_at(data@, off as int));
        }
        let computed = crc32(ck_input.as_slice());
        let mut kept = false;
        if seq_no > after && computed == stored_ck {
            match decode_command(cmd_slice) {
                Some(c) => {
                    out.push(
                        WALEntry {
                            sequence_number: seq_no,
                            timestamp: ts,
                            command: c,
                            checksum: stored_ck,
                        },
                    );
                    kept = true;
                },
                None => {
                },
            }
        }
        proof {
            let here = spec_wal_replay_from(data@, off as int, after);
            let next_off = off as int + wal_entry_len_at(data@, off as int);
            let rest = spec_wal_replay_from(data@, next_off, after);
            if kept {
                assert(here == seq![here[0]] + rest);
                assert(here[0].seq == seq_no && here[0].ts == ts && here[0].ck == stored_ck);
                assert(total[idx] == here[0]);
                assert(rest =~= here.skip(1));
                assert(here.skip(1) =~= total.skip(idx + 1));
                idx = idx + 1;
            } else {
                assert(here == rest);
            }
        }
        off = off + WAL_ENTRY_HEADER_SIZE + clen;
    }
}

/// The creation timestamp of a file's header, or zero if the header is
/// invalid.
fn wal_header_created_at(data: &Vec<u8>) -> (r: u64)
    ensures
        spec_wal_header_valid(data@) ==> r == spec_u64_from_le_bytes(data@.subrange(8, 16)),
{
    if !wal_header_valid_exec(data) {
        return 0;
    }
    u64_from_le_bytes(vstd::slice::slice_subrange(data.as_slice(), 8, 16))
}

/// Whether a file opens with the right magic and version.
fn wal_header_valid_exec(data: &Vec<u8>) -> (r: bool)
    ensures
        r == spec_wal_header_valid(data@),
{
    if data.len() < WAL_HEADER_SIZE {
        proof {
            assert(!spec_wal_header_valid(data@));
        }
        return false;
    }
    let magic_ok = data[0] == 0x50u8 && data[1] == 0x4Cu8 && data[2] == 0x45u8 && data[3]
        == 0x58u8;
    if !magic_ok {
        proof {
            assert(data@.subrange(0, 4).len() == 4);
            if data@.subrange(0, 4) == spec_wal_magic() {
                assert(data@[0] == 0x50u8 && data@[1] == 0x4Cu8 && data@[2] == 0x45u8 && data@[3]
                    == 0x58u8) by {
                    assert(data@.subrange(0, 4)[0] == data@[0]);
                    assert(data@.subrange(0, 4)[1] == data@[1]);
                    assert(data@.subrange(0, 4)[2] == data@[2]);
                    assert(data@.subrange(0, 4)[3] == data@[3]);
                }
            }
        }
        return false;
    }
    let version = u32_from_le_bytes(vstd::slice::slice_subrange(data.as_slice(), 4, 8));
    proof {
        assert(data@.subrange(0, 4) =~= spec_wal_magic());
    }
    version == WAL_VERSION
}

/// The greatest sequence number of any complete entry in one file, or
/// zero for a file whose header is invalid.
fn wal_scan_max(data: &Vec<u8>) -> (r: u64)
    ensures
        r == spec_wal_file_max(data@),
{
    if !wal_header_valid_exec(data) {
        return 0;
    }
    let len = data.len();
    let mut off: usize = WAL_HEADER_SIZE;
    let mut max_seq: u64 = 0;
    loop
        invariant
            WAL_HEADER_SIZE <= off <= len,
            len == data@.len(),
            spec_wal_header_valid(data@),
            spec_wal_file_max(data@) == if max_seq >= spec_wal_max_from(data@, off as int) {
                max_seq
            } else {
                spec_wal_max_from(data@, off as int)
            },
        ensures
            max_seq == spec_wal_file_max(data@),
        decreases len - off,
    {
        if len - off < WAL_ENTRY_HEADER_SIZE {
            proof {
                assert(!wal_entry_complete_at(data@, off as int));
            }
            break ;
        }
        let cmd_len = u32_from_le_bytes(
            vstd::slice::slice_subrange(data.as_slice(), off + 20, off + 24),
        );
        let after: usize = len - (off + WAL_ENTRY_HEADER_SIZE);
        if cmd_len as u64 > after as u64 {
            proof {
                assert(!wal_entry_complete_at(data@, off as int));
            }
            break ;
        }
        let seq_no = u64_from_le_bytes(vstd::slice::slice_subrange(data.as_slice(), off, off + 8));
        proof {
            assert(wal_entry_complete_at(data@, off as int));
            assert(wal_entry_len_at(data@, off as int) == WAL_ENTRY_HEADER_SIZE + cmd_len);
            assert(seq_no == wal_entry_seq_at(data@, off as int));
        }
        if seq_no > max_seq {
            max_seq = seq_no;
        }
        off = off + WAL_ENTRY_HEADER_SIZE + cmd_len as usize;
    }
    max_seq
}

} // verus!
