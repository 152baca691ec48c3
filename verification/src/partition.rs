//! The hash-partitioned routing layer: deterministic key routing, the
//! per-partition index, bloom filter, metadata and segment set, and
//! compaction.
//!
//! The central invariant: a key's index entry always points at the most
//! recent live record for it — a complete, checksum-good, non-tombstone
//! frame whose body decodes to that key and a value — and every indexed
//! key is in the partition's bloom filter, so a negative filter answer
//! proves absence.

use vstd::prelude::*;

use crate::bloom::{spec_hash1, BloomFilter, FNV_OFFSET, MAX_EXPECTED_ELEMENTS};
use crate::clock::current_timestamp;
use crate::codec::{record_body_fits, spec_decode_record_body};
use crate::command::{spec_command_bytes, spec_command_fits, spec_decode_command, Command, CommandView};
use crate::error::{PlexError, PlexResult};
use crate::file_manager::{
    frame_complete_at, frame_crc_ok_at, frame_body_at, frame_tombstone_at,
    lemma_append_preserves_file_data, lemma_append_then_read, FileManager,
};
use crate::wal::WAL;

verus! {

/// Locates one record: stored as the index value, never the value itself;
/// values are re-read from their segment on demand.
#[derive(Clone, Copy)]
pub struct FileOffset {
    pub partition_id: u32,
    pub file_id: u32,
    pub offset: u64,
    pub size: u32,
    pub timestamp: u64,
}

/// The shape of the partition layer, fixed at creation. Rates and ratios
/// are carried as parts per million and per mille.
#[derive(Clone, Copy)]
pub struct PartitionConfig {
    pub partition_count: u32,
    pub max_partition_size: u64,
    pub bloom_filter_size: usize,
    pub bloom_filter_fp_ppm: u32,
    pub enable_compression: bool,
    pub compaction_threshold_permille: u32,
}

impl Default for PartitionConfig {
    /// Sixteen partitions of at most one GiB, bloom filters sized for ten
    /// thousand keys at a one-percent false-positive rate, compaction at
    /// seventy percent tombstones.
    fn default() -> (r: PartitionConfig)
        ensures
            r.partition_count == 16,
            r.max_partition_size == 1024 * 1024 * 1024,
            r.bloom_filter_size == 10_000,
            r.bloom_filter_fp_ppm == 10_000,
            !r.enable_compression,
            r.compaction_threshold_permille == 700,
    {
        PartitionConfig {
            partition_count: 16,
            max_partition_size: 1024 * 1024 * 1024,
            bloom_filter_size: 10_000,
            bloom_filter_fp_ppm: 10_000,
            enable_compression: false,
            compaction_threshold_permille: 700,
        }
    }
}

/// One partition's bookkeeping; mutated on every write and compaction.
#[derive(Clone, Copy)]
pub struct PartitionMetadata {
    pub id: u32,
    pub generation: u64,
    pub size: u64,
    pub key_count: u64,
    pub created_at: u64,
    pub last_compaction: u64,
    pub tombstone_count: u64,
}

/// The position of the first index entry holding `k`, or -1.
pub open spec fn idx_find(s: Seq<(String, FileOffset)>, k: Seq<char>) -> int
    decreases s.len(),
{
    if s.len() == 0 {
        -1
    } else if s[0].0@ == k {
        0
    } else {
        let r = idx_find(s.drop_first(), k);
        if r == -1 {
            -1
        } else {
            r + 1
        }
    }
}

/// Index keys are unique.
pub open spec fn idx_unique(s: Seq<(String, FileOffset)>) -> bool {
    forall|i: int, j: int|
        0 <= i < j < s.len() ==> (#[trigger] s[i]).0@ != (#[trigger] s[j]).0@
}

/// The index as a map from keys to offsets.
pub open spec fn idx_map(s: Seq<(String, FileOffset)>) -> Map<Seq<char>, FileOffset> {
    Map::new(|k: Seq<char>| idx_find(s, k) >= 0, |k: Seq<char>| s[idx_find(s, k)].1)
}

/// `idx_find` finds the unique entry holding `k` exactly when one exists.
pub proof fn lemma_idx_find(s: Seq<(String, FileOffset)>, k: Seq<char>)
    ensures
        (idx_find(s, k) >= 0) <==> exists|i: int| 0 <= i < s.len() && (#[trigger] s[i]).0@ == k,
        idx_find(s, k) >= 0 ==> 0 <= idx_find(s, k) < s.len() && s[idx_find(s, k)].0@ == k,
        idx_find(s, k) >= 0 ==> forall|j: int|
            0 <= j < idx_find(s, k) ==> (#[trigger] s[j]).0@ != k,
        idx_unique(s) ==> forall|i: int|
            0 <= i < s.len() && (#[trigger] s[i]).0@ == k ==> i == idx_find(s, k),
    decreases s.len(),
{
    if s.len() == 0 {
    } else if s[0].0@ == k {
        assert forall|i: int|
            idx_unique(s) && 0 <= i < s.len() && (#[trigger] s[i]).0@ == k implies i == 0 by {
            if i != 0 {
                assert(s[0].0@ != s[i].0@);
            }
        }
    } else {
        lemma_idx_find(s.drop_first(), k);
        assert forall|i: int|
            0 <= i < s.len() && (#[trigger] s[i]).0@ == k implies idx_find(s, k) >= 0 by {
            assert(i != 0);
            assert(s.drop_first()[i - 1] == s[i]);
        }
        if exists|i: int| 0 <= i < s.drop_first().len() && (#[trigger] s.drop_first()[i]).0@ == k {
            let r = idx_find(s.drop_first(), k);
            assert(s[r + 1] == s.drop_first()[r]);
        }
        if idx_find(s, k) >= 0 {
            let f = idx_find(s, k);
            assert forall|j: int| 0 <= j < f implies (#[trigger] s[j]).0@ != k by {
                if j > 0 {
                    assert(s[j] == s.drop_first()[j - 1]);
                }
            }
        }
        if idx_unique(s) {
            assert(idx_unique(s.drop_first())) by {
                assert(forall|i: int, j: int|
                    0 <= i < j < s.drop_first().len() ==> (#[trigger] s.drop_first()[i],
                    #[trigger] s.drop_first()[j]) == (s[i + 1], s[j + 1]));
            }
            assert forall|i: int|
                0 <= i < s.len() && (#[trigger] s[i]).0@ == k implies i == idx_find(s, k) by {
                assert(i != 0);
                assert(s.drop_first()[i - 1] == s[i]);
            }
        }
    }
}

/// Looks a key up in the index.
fn idx_get(entries: &Vec<(String, FileOffset)>, key: &str) -> (r: Option<FileOffset>)
    ensures
        match r {
            Some(off) => idx_map(entries@).dom().contains(key@) && off == idx_map(entries@)[key@],
            None => !idx_map(entries@).dom().contains(key@),
        },
{
    let key_owned = key.to_owned();
    let mut i: usize = 0;
    while i < entries.len()
        invariant
            key_owned@ == key@,
            0 <= i <= entries@.len(),
            forall|j: int| 0 <= j < i ==> (#[trigger] entries@[j]).0@ != key@,
        decreases entries@.len() - i,
    {
        if entries[i].0 == key_owned {
            proof {
                lemma_idx_find(entries@, key@);
                let f = idx_find(entries@, key@);
                if f < i as int {
                    assert(entries@[f].0@ != key@);
                }
                if f > i as int {
                    assert(entries@[i as int].0@ != key@);
                }
            }
            return Some(entries[i].1);
        }
        i = i + 1;
    }
    proof {
        lemma_idx_find(entries@, key@);
    }
    None
}

/// Writes a key's offset into the index, replacing any entry it already
/// has.
fn idx_put(entries: &mut Vec<(String, FileOffset)>, key: &str, off: FileOffset) -> (was_present:
    bool)
    requires
        idx_unique(old(entries)@),
    ensures
        idx_unique(final(entries)@),
        idx_map(final(entries)@) == idx_map(old(entries)@).insert(key@, off),
        was_present == idx_map(old(entries)@).dom().contains(key@),
        final(entries)@.len() == old(entries)@.len() + if was_present {
            0int
        } else {
            1int
        },
{
    let key_owned = key.to_owned();
    let mut i: usize = 0;
    let mut found: Option<usize> = None;
    while i < entries.len()
        invariant
            key_owned@ == key@,
            0 <= i <= entries@.len(),
            entries@ == old(entries)@,
            match found {
                Some(p) => p < i && entries@[p as int].0@ == key@,
                None => forall|j: int| 0 <= j < i ==> (#[trigger] entries@[j]).0@ != key@,
            },
        decreases entries@.len() - i,
    {
        if found.is_none() && entries[i].0 == key_owned {
            found = Some(i);
        }
        i = i + 1;
    }
    proof {
        lemma_idx_find(old(entries)@, key@);
    }
    match found {
        Some(p) => {
            let _ = entries.remove(p);
            entries.push((key_owned, off));
            proof {
                lemma_put_replaces(old(entries)@, final(entries)@, p as int, key@, off);
            }
            true
        },
        None => {
            entries.push((key_owned, off));
            proof {
                lemma_put_appends(old(entries)@, final(entries)@, key@, off);
            }
            false
        },
    }
}

/// Replacing the unique entry of `k` updates the map at `k` alone.
proof fn lemma_put_replaces(
    olds: Seq<(String, FileOffset)>,
    news: Seq<(String, FileOffset)>,
    p: int,
    k: Seq<char>,
    off: FileOffset,
)
    requires
        idx_unique(olds),
        0 <= p < olds.len(),
        olds[p].0@ == k,
        news.len() == olds.len(),
        news =~= olds.remove(p).push(news.last()),
        news.last().0@ == k,
        news.last().1 == off,
    ensures
        idx_unique(news),
        idx_map(news) == idx_map(olds).insert(k, off),
{
    let removed = olds.remove(p);
    assert(news =~= removed.push(news.last()));
    assert(news.last().0@ == k && news.last().1 == off);
    assert forall|i: int, j: int|
        0 <= i < j < news.len() implies (#[trigger] news[i]).0@ != (#[trigger] news[j]).0@ by {
        lemma_remove_keeps_entries(olds, p);
        if j < news.len() - 1 {
            assert(news[i] == removed[i] && news[j] == removed[j]);
        } else {
            assert(news[j].0@ == k);
            assert(news[i] == removed[i]);
            let oi = if i < p {
                i
            } else {
                i + 1
            };
            assert(removed[i] == olds[oi]);
            assert(oi != p);
            if oi < p {
                assert(olds[oi].0@ != olds[p].0@);
            } else {
                assert(olds[p].0@ != olds[oi].0@);
            }
        }
    }
    assert forall|k2: Seq<char>| true implies #[trigger] idx_map(news).dom().contains(k2)
        == idx_map(olds).insert(k, off).dom().contains(k2) && (idx_map(news).dom().contains(k2)
        ==> idx_map(news)[k2] == idx_map(olds).insert(k, off)[k2]) by {
        lemma_idx_find(news, k2);
        lemma_idx_find(olds, k2);
        lemma_remove_keeps_entries(olds, p);
        if k2 == k {
            assert(news[news.len() - 1].0@ == k2);
            assert(idx_find(news, k2) >= 0);
            assert(news[idx_find(news, k2)].0@ == k2);
            assert(idx_find(news, k2) == news.len() - 1);
            assert(idx_map(news)[k2] == off);
        } else {
            if idx_find(news, k2) >= 0 {
                let i = idx_find(news, k2);
                assert(news[i].0@ == k2);
                assert(i < news.len() - 1);
                assert(news[i] == removed[i]);
                let oi = if i < p {
                    i
                } else {
                    i + 1
                };
                assert(removed[i] == olds[oi]);
                assert(olds[oi].0@ == k2);
                assert(idx_find(olds, k2) >= 0);
                assert(olds[idx_find(olds, k2)] == olds[oi]) by {
                    assert(idx_find(olds, k2) == oi);
                }
                assert(idx_map(news)[k2] == idx_map(olds)[k2]);
            }
            if idx_find(olds, k2) >= 0 {
                let oi = idx_find(olds, k2);
                assert(olds[oi].0@ == k2);
                assert(oi != p);
                let ni = if oi < p {
                    oi
                } else {
                    oi - 1
                };
                assert(removed[ni] == olds[oi]);
                assert(news[ni] == removed[ni]);
                assert(idx_find(news, k2) >= 0);
            }
        }
    }
    assert(idx_map(news) =~= idx_map(olds).insert(k, off));
}

/// Appending an entry for a key the index lacks updates the map at that
/// key alone.
proof fn lemma_put_appends(
    olds: Seq<(String, FileOffset)>,
    news: Seq<(String, FileOffset)>,
    k: Seq<char>,
    off: FileOffset,
)
    requires
        idx_unique(olds),
        forall|j: int| 0 <= j < olds.len() ==> (#[trigger] olds[j]).0@ != k,
        news.len() == olds.len() + 1,
        news =~= olds.push(news.last()),
        news.last().0@ == k,
        news.last().1 == off,
    ensures
        idx_unique(news),
        idx_map(news) == idx_map(olds).insert(k, off),
{
    assert forall|i: int, j: int|
        0 <= i < j < news.len() implies (#[trigger] news[i]).0@ != (#[trigger] news[j]).0@ by {
        if j < news.len() - 1 {
            assert(news[i] == olds[i] && news[j] == olds[j]);
        } else {
            assert(news[i] == olds[i]);
        }
    }
    assert forall|k2: Seq<char>| true implies #[trigger] idx_map(news).dom().contains(k2)
        == idx_map(olds).insert(k, off).dom().contains(k2) && (idx_map(news).dom().contains(k2)
        ==> idx_map(news)[k2] == idx_map(olds).insert(k, off)[k2]) by {
        lemma_idx_find(news, k2);
        lemma_idx_find(olds, k2);
        if k2 == k {
            assert(news[news.len() - 1].0@ == k2);
            assert(idx_find(news, k2) == news.len() - 1);
            assert(idx_map(news)[k2] == off);
        } else {
            if idx_find(news, k2) >= 0 {
                let i = idx_find(news, k2);
                assert(news[i].0@ == k2);
                assert(i < news.len() - 1);
                assert(news[i] == olds[i]);
                assert(idx_find(olds, k2) >= 0);
                assert(idx_find(olds, k2) == i);
                assert(idx_map(news)[k2] == idx_map(olds)[k2]);
            }
            if idx_find(olds, k2) >= 0 {
                let oi = idx_find(olds, k2);
                assert(news[oi] == olds[oi]);
                assert(idx_find(news, k2) >= 0);
            }
        }
    }
    assert(idx_map(news) =~= idx_map(olds).insert(k, off));
}

/// Removing an entry leaves every other entry, shifted.
proof fn lemma_remove_keeps_entries(olds: Seq<(String, FileOffset)>, p: int)
    requires
        0 <= p < olds.len(),
    ensures
        forall|i: int|
            0 <= i < olds.len() - 1 ==> #[trigger] olds.remove(p)[i] == if i < p {
                olds[i]
            } else {
                olds[i + 1]
            },
{
}

/// Drops a key's entry from the index.
fn idx_remove(entries: &mut Vec<(String, FileOffset)>, key: &str) -> (was_present: bool)
    requires
        idx_unique(old(entries)@),
    ensures
        idx_unique(final(entries)@),
        idx_map(final(entries)@) == idx_map(old(entries)@).remove(key@),
        was_present == idx_map(old(entries)@).dom().contains(key@),
        final(entries)@.len() == old(entries)@.len() - if was_present {
            1int
        } else {
            0int
        },
{
    let key_owned = key.to_owned();
    let mut i: usize = 0;
    while i < entries.len()
        invariant
            key_owned@ == key@,
            0 <= i <= entries@.len(),
            entries@ == old(entries)@,
            idx_unique(entries@),
            forall|j: int| 0 <= j < i ==> (#[trigger] entries@[j]).0@ != key@,
        decreases entries@.len() - i,
    {
        if entries[i].0 == key_owned {
            let ghost olds = entries@;
            let _ = entries.remove(i);
            proof {
                lemma_idx_remove(olds, final(entries)@, i as int, key@);
            }
            return true;
        }
        i = i + 1;
    }
    proof {
        lemma_idx_find(entries@, key@);
        assert(!idx_map(entries@).dom().contains(key@));
        assert(idx_map(entries@) =~= idx_map(entries@).remove(key@));
    }
    false
}

/// Removing the unique entry of `k` updates the map at `k` alone.
proof fn lemma_idx_remove(
    olds: Seq<(String, FileOffset)>,
    news: Seq<(String, FileOffset)>,
    p: int,
    k: Seq<char>,
)
    requires
        idx_unique(olds),
        0 <= p < olds.len(),
        olds[p].0@ == k,
        news == olds.remove(p),
    ensures
        idx_unique(news),
        idx_map(news) == idx_map(olds).remove(k),
        idx_map(olds).dom().contains(k),
{
    lemma_remove_keeps_entries(olds, p);
    lemma_idx_find(olds, k);
    assert forall|i: int, j: int|
        0 <= i < j < news.len() implies (#[trigger] news[i]).0@ != (#[trigger] news[j]).0@ by {
        let oi = if i < p {
            i
        } else {
            i + 1
        };
        let oj = if j < p {
            j
        } else {
            j + 1
        };
        assert(news[i] == olds[oi] && news[j] == olds[oj]);
    }
    assert forall|k2: Seq<char>| true implies #[trigger] idx_map(news).dom().contains(k2)
        == idx_map(olds).remove(k).dom().contains(k2) && (idx_map(news).dom().contains(k2)
        ==> idx_map(news)[k2] == idx_map(olds).remove(k)[k2]) by {
        lemma_idx_find(news, k2);
        lemma_idx_find(olds, k2);
        if k2 == k {
            if idx_find(news, k2) >= 0 {
                let i = idx_find(news, k2);
                let oi = if i < p {
                    i
                } else {
                    i + 1
                };
                assert(news[i] == olds[oi]);
                assert(oi == idx_find(olds, k2));
                assert(oi == p);
                assert(false);
            }
        } else {
            if idx_find(news, k2) >= 0 {
                let i = idx_find(news, k2);
                let oi = if i < p {
                    i
                } else {
                    i + 1
                };
                assert(news[i] == olds[oi]);
                assert(olds[oi].0@ == k2);
                assert(idx_find(olds, k2) == oi);
                assert(idx_map(news)[k2] == idx_map(olds)[k2]);
            }
            if idx_find(olds, k2) >= 0 {
                let oi = idx_find(olds, k2);
                assert(oi != p);
                let ni = if oi < p {
                    oi
                } else {
                    oi - 1
                };
                assert(news[ni] == olds[oi]);
                assert(idx_find(news, k2) >= 0);
            }
        }
    }
    assert(idx_map(news) =~= idx_map(olds).remove(k));
}

/// The frame at `off` is the live record of `key`: complete, checksum
/// good, not a tombstone, and its body decodes to `key` and a value.
pub open spec fn live_frame_at(data: Seq<u8>, off: int, key: Seq<char>) -> bool {
    &&& frame_complete_at(data, off)
    &&& frame_crc_ok_at(data, off)
    &&& !frame_tombstone_at(data, off)
    &&& match spec_decode_record_body(frame_body_at(data, off)) {
        Some((k, v)) => k == key && v is Some,
        None => false,
    }
}

/// The value of the live record at `off`.
pub open spec fn live_value_at(data: Seq<u8>, off: int) -> Seq<char> {
    match spec_decode_record_body(frame_body_at(data, off)) {
        Some((k, v)) => match v {
            Some(vv) => vv,
            None => Seq::empty(),
        },
        None => Seq::empty(),
    }
}

/// An independent shard of the keyspace: one metadata record, an
/// append-only segment set, a bloom filter, and an in-memory index from
/// keys to offsets, latest write wins.
pub struct Partition {
    pub id: u32,
    pub metadata: PartitionMetadata,
    pub file_manager: FileManager,
    pub bloom_filter: BloomFilter,
    pub index: Vec<(String, FileOffset)>,
}

impl Partition {
    /// The index as a map.
    pub open spec fn idx(self) -> Map<Seq<char>, FileOffset> {
        idx_map(self.index@)
    }

    /// The partition invariant: every indexed key points at its live
    /// record and sits in the bloom filter, and the key count is the index
    /// size.
    pub open spec fn pinv(self) -> bool {
        &&& self.file_manager.wf()
        &&& self.bloom_filter.wf()
        &&& idx_unique(self.index@)
        &&& self.metadata.key_count == self.index@.len()
        &&& forall|k: Seq<char>|
            #[trigger] self.idx().dom().contains(k) ==> {
                let off = self.idx()[k];
                &&& self.file_manager.has_file(off.file_id)
                &&& live_frame_at(
                    self.file_manager.file_data(off.file_id),
                    off.offset as int,
                    k,
                )
                &&& self.bloom_filter.spec_contains(k)
            }
    }

    /// The partition's contents: each indexed key mapped to the value its
    /// live record holds.
    pub open spec fn as_map(self) -> Map<Seq<char>, Seq<char>> {
        Map::new(
            |k: Seq<char>| self.idx().dom().contains(k),
            |k: Seq<char>|
                live_value_at(
                    self.file_manager.file_data(self.idx()[k].file_id),
                    self.idx()[k].offset as int,
                ),
        )
    }

    /// A fresh, empty partition; rejects invalid bloom parameters.
    pub fn new(id: u32, bloom_filter_size: usize, bloom_filter_fp_ppm: u32) -> (r: PlexResult<
        Partition,
    >)
        ensures
            match r {
                Ok(p) => {
                    &&& p.pinv()
                    &&& p.id == id
                    &&& p.metadata.id == id
                    &&& p.metadata.generation == 0
                    &&& p.metadata.key_count == 0
                    &&& p.metadata.tombstone_count == 0
                    &&& p.index@.len() == 0
                    &&& p.as_map() == Map::<Seq<char>, Seq<char>>::empty()
                },
                Err(e) => e is BloomFilter,
            },
            r is Ok <==> (0 < bloom_filter_fp_ppm < 1_000_000 && 1 <= bloom_filter_size
                <= MAX_EXPECTED_ELEMENTS),
    {
        let bloom_filter = match BloomFilter::new(bloom_filter_size, bloom_filter_fp_ppm) {
            Ok(b) => b,
            Err(e) => {
                return Err(e);
            },
        };
        let p = Partition {
            id,
            metadata: PartitionMetadata {
                id,
                generation: 0,
                size: 0,
                key_count: 0,
                created_at: current_timestamp(),
                last_compaction: 0,
                tombstone_count: 0,
            },
            file_manager: FileManager::new(),
            bloom_filter,
            index: Vec::new(),
        };
        proof {
            assert(p.as_map() =~= Map::<Seq<char>, Seq<char>>::empty());
        }
        Ok(p)
    }

    /// Reads a key: a bloom-filter negative proves absence without
    /// touching the index or a segment; otherwise the index is consulted
    /// and the value re-read from its segment.
    pub fn get_value(&self, key: &str) -> (r: PlexResult<Option<String>>)
        requires
            self.pinv(),
        ensures
            r is Ok,
            match r {
                Ok(v) => crate::file_manager::opt_string_view(v) == if self.as_map().dom().contains(
                    key@,
                ) {
                    Some(self.as_map()[key@])
                } else {
                    None::<Seq<char>>
                },
                Err(_) => false,
            },
    {
        if !self.bloom_filter.contains(key) {
            proof {
                if self.idx().dom().contains(key@) {
                    assert(self.bloom_filter.spec_contains(key@));
                }
            }
            return Ok(None);
        }
        let off = match idx_get(&self.index, key) {
            Some(off) => off,
            None => {
                return Ok(None);
            },
        };
        match self.file_manager.read_value(&off) {
            Ok(v) => {
                proof {
                    assert(self.idx().dom().contains(key@));
                    assert(live_frame_at(
                        self.file_manager.file_data(off.file_id),
                        off.offset as int,
                        key@,
                    ));
                }
                Ok(v)
            },
            Err(_) => {
                proof {
                    assert(live_frame_at(
                        self.file_manager.file_data(off.file_id),
                        off.offset as int,
                        key@,
                    ));
                }
                Ok(None)
            },
        }
    }

    /// Writes a key: appends the record to the active segment, inserts the
    /// key into the bloom filter, and updates the index and metadata — in
    /// that order. Rejects a record too large for its length fields,
    /// leaving the partition untouched.
    pub fn set_value(&mut self, key: &str, value: &str) -> (r: PlexResult<()>)
        requires
            old(self).pinv(),
        ensures
            final(self).pinv(),
            final(self).id == old(self).id,
            final(self).metadata.id == old(self).metadata.id,
            final(self).metadata.generation == old(self).metadata.generation,
            final(self).metadata.tombstone_count == old(self).metadata.tombstone_count,
            match r {
                Ok(()) => {
                    &&& final(self).as_map() == old(self).as_map().insert(key@, value@)
                    &&& final(self).bloom_filter.spec_contains(key@)
                },
                Err(e) => e is Config && *final(self) == *old(self),
            },
            r is Err <==> !record_body_fits(key@, Some(value@)),
    {
        let off = match self.file_manager.write_entry(key, value) {
            Ok(off) => off,
            Err(e) => {
                return Err(e);
            },
        };
        let ghost old_fm = old(self).file_manager;
        let ghost new_fm = self.file_manager;
        proof {
            lemma_append_preserves_file_data(
                old_fm,
                new_fm,
                key@,
                Some(value@),
                off.timestamp,
                false,
            );
            lemma_append_then_read(
                old_fm.active_data(),
                new_fm.file_data(old_fm.active_file_id()),
                key@,
                Some(value@),
                off.timestamp,
                false,
            );
        }
        self.bloom_filter.insert(key);
        let was_present = idx_put(&mut self.index, key, off);
        self.metadata.key_count = self.index.len() as u64;
        self.metadata.size = if u64::MAX - self.metadata.size >= off.size as u64 {
            self.metadata.size + off.size as u64
        } else {
            u64::MAX
        };
        proof {
            self.lemma_set_restores(*old(self), key@, value@, off);
        }
        Ok(())
    }

    /// After a successful write, the invariant holds again and the
    /// partition's contents gained exactly the new pair.
    proof fn lemma_set_restores(
        self,
        prev: Partition,
        key: Seq<char>,
        value: Seq<char>,
        off: FileOffset,
    )
        requires
            prev.pinv(),
            self.file_manager.wf(),
            self.bloom_filter.wf(),
            idx_unique(self.index@),
            self.metadata.key_count == self.index@.len(),
            FileManager::appended_frame(
                prev.file_manager,
                self.file_manager,
                key,
                Some(value),
                off.timestamp,
                false,
            ),
            off.file_id == prev.file_manager.active_file_id(),
            off.offset == prev.file_manager.active_data().len(),
            record_body_fits(key, Some(value)),
            self.idx() == prev.idx().insert(key, off),
            self.bloom_filter.same_shape(prev.bloom_filter),
            self.bloom_filter.spec_contains(key),
            forall|j: int| prev.bloom_filter.bit_set(j) ==> self.bloom_filter.bit_set(j),
        ensures
            self.pinv(),
            self.as_map() == prev.as_map().insert(key, value),
    {
        let old_fm = prev.file_manager;
        let new_fm = self.file_manager;
        lemma_append_preserves_file_data(
            old_fm,
            new_fm,
            key,
            Some(value),
            off.timestamp,
            false,
        );
        lemma_append_then_read(
            old_fm.active_data(),
            new_fm.file_data(old_fm.active_file_id()),
            key,
            Some(value),
            off.timestamp,
            false,
        );
        assert forall|k: Seq<char>| #[trigger] self.idx().dom().contains(k) implies {
            let o = self.idx()[k];
            &&& self.file_manager.has_file(o.file_id)
            &&& live_frame_at(self.file_manager.file_data(o.file_id), o.offset as int, k)
            &&& self.bloom_filter.spec_contains(k)
        } by {
            if k == key {
                assert(self.idx()[k] == off);
                assert(new_fm.has_file(off.file_id));
            } else {
                assert(prev.idx().dom().contains(k));
                let o = prev.idx()[k];
                assert(self.idx()[k] == o);
                crate::file_manager::lemma_frame_preserved_after_append(
                    old_fm,
                    new_fm,
                    key,
                    Some(value),
                    off.timestamp,
                    false,
                    o.file_id,
                    o.offset as int,
                );
                crate::bloom::lemma_no_false_negative(
                    prev.bloom_filter,
                    self.bloom_filter,
                    k,
                );
            }
        }
        assert forall|k: Seq<char>| true implies #[trigger] self.as_map().dom().contains(k)
            == prev.as_map().insert(key, value).dom().contains(k) && (self.as_map().dom().contains(
            k,
        ) ==> self.as_map()[k] == prev.as_map().insert(key, value)[k]) by {
            if k == key {
                assert(self.idx().dom().contains(k));
                assert(self.as_map()[k] == value);
            } else if prev.idx().dom().contains(k) {
                let o = prev.idx()[k];
                crate::file_manager::lemma_frame_preserved_after_append(
                    old_fm,
                    new_fm,
                    key,
                    Some(value),
                    off.timestamp,
                    false,
                    o.file_id,
                    o.offset as int,
                );
            }
        }
        assert(self.as_map() =~= prev.as_map().insert(key, value));
    }

    /// Deletes a key: writes a tombstone through the same path, removes
    /// the key from the index, and counts the tombstone. Deleting an
    /// absent key fails with `KeyNotFound` and leaves the partition — in
    /// particular the index — untouched.
    pub fn delete_value(&mut self, key: &str) -> (r: PlexResult<()>)
        requires
            old(self).pinv(),
        ensures
            final(self).pinv(),
            final(self).id == old(self).id,
            final(self).metadata.id == old(self).metadata.id,
            final(self).metadata.generation == old(self).metadata.generation,
            match r {
                Ok(()) => {
                    &&& final(self).as_map() == old(self).as_map().remove(key@)
                    &&& exists|ts: u64|
                        FileManager::appended_frame(
                            old(self).file_manager,
                            final(self).file_manager,
                            key@,
                            None,
                            ts,
                            true,
                        )
                    &&& final(self).metadata.tombstone_count == if old(self).metadata.tombstone_count < u64::MAX {
                        old(self).metadata.tombstone_count + 1
                    } else {
                        u64::MAX as int
                    }
                },
                Err(PlexError::KeyNotFound) => !old(self).as_map().dom().contains(key@)
                    && *final(self) == *old(self),
                Err(PlexError::Config(_)) => *final(self) == *old(self),
                Err(_) => false,
            },
            r is Err <==> (!old(self).as_map().dom().contains(key@) || !record_body_fits(
                key@,
                None,
            )),
            !old(self).as_map().dom().contains(key@) ==> r matches Err(PlexError::KeyNotFound),
    {
        let present = match idx_get(&self.index, key) {
            Some(_) => true,
            None => false,
        };
        if !present {
            return Err(PlexError::KeyNotFound);
        }
        let off = match self.file_manager.write_tombstone(key) {
            Ok(off) => off,
            Err(e) => {
                return Err(e);
            },
        };
        let ghost old_fm = old(self).file_manager;
        let ghost new_fm = self.file_manager;
        let _ = idx_remove(&mut self.index, key);
        self.metadata.key_count = self.index.len() as u64;
        self.metadata.tombstone_count = if self.metadata.tombstone_count < u64::MAX {
            self.metadata.tombstone_count + 1
        } else {
            u64::MAX
        };
        self.metadata.size = if u64::MAX - self.metadata.size >= off.size as u64 {
            self.metadata.size + off.size as u64
        } else {
            u64::MAX
        };
        proof {
            lemma_append_preserves_file_data(old_fm, new_fm, key@, None, off.timestamp, true);
            assert forall|k: Seq<char>| #[trigger] self.idx().dom().contains(k) implies {
                let o = self.idx()[k];
                &&& self.file_manager.has_file(o.file_id)
                &&& live_frame_at(self.file_manager.file_data(o.file_id), o.offset as int, k)
                &&& self.bloom_filter.spec_contains(k)
            } by {
                assert(old(self).idx().dom().contains(k));
                let o = old(self).idx()[k];
                assert(self.idx()[k] == o);
                crate::file_manager::lemma_frame_preserved_after_append(
                    old_fm,
                    new_fm,
                    key@,
                    None,
                    off.timestamp,
                    true,
                    o.file_id,
                    o.offset as int,
                );
            }
            assert forall|k: Seq<char>| true implies #[trigger] self.as_map().dom().contains(k)
                == old(self).as_map().remove(key@).dom().contains(k) && (self.as_map(
            ).dom().contains(k) ==> self.as_map()[k] == old(self).as_map().remove(key@)[k]) by {
                if k != key@ && old(self).idx().dom().contains(k) {
                    let o = old(self).idx()[k];
                    crate::file_manager::lemma_frame_preserved_after_append(
                        old_fm,
                        new_fm,
                        key@,
                        None,
                        off.timestamp,
                        true,
                        o.file_id,
                        o.offset as int,
                    );
                }
            }
            assert(self.as_map() =~= old(self).as_map().remove(key@));
            assert(FileManager::appended_frame(
                old(self).file_manager,
                self.file_manager,
                key@,
                None,
                off.timestamp,
                true,
            ));
        }
        Ok(())
    }
}

/// The index that replaying scanned records in order rebuilds: last write
/// wins, a tombstone removes the prior entry.
pub open spec fn spec_replay_idx(items: Seq<(u32, crate::file_manager::SpecScanItem)>) -> Map<
    Seq<char>,
    FileOffset,
>
    decreases items.len(),
{
    if items.len() == 0 {
        Map::empty()
    } else {
        let prev = spec_replay_idx(items.drop_last());
        let t = items.last();
        if t.1.tombstone {
            prev.remove(t.1.key)
        } else {
            prev.insert(
                t.1.key,
                FileOffset {
                    partition_id: 0,
                    file_id: t.0,
                    offset: t.1.off as u64,
                    size: t.1.size as u32,
                    timestamp: t.1.ts,
                },
            )
        }
    }
}

/// The number of tombstones among scanned records.
pub open spec fn spec_count_tombstones(items: Seq<(u32, crate::file_manager::SpecScanItem)>) -> int
    decreases items.len(),
{
    if items.len() == 0 {
        0
    } else {
        spec_count_tombstones(items.drop_last()) + if items.last().1.tombstone {
            1int
        } else {
            0int
        }
    }
}

impl Partition {
    /// Rebuilds the in-memory index, bloom filter and counters by
    /// replaying every record of every segment in offset order: last write
    /// wins, tombstones remove prior entries, and corrupt records are
    /// skipped. The segments themselves are untouched.
    pub fn load(&mut self) -> (r: PlexResult<()>)
        requires
            old(self).pinv(),
        ensures
            r is Ok,
            final(self).pinv(),
            final(self).id == old(self).id,
            final(self).metadata.id == old(self).metadata.id,
            final(self).file_manager == old(self).file_manager,
            final(self).idx() == spec_replay_idx(old(self).file_manager.items_from(0)),
            final(self).metadata.key_count == final(self).index@.len(),
            final(self).metadata.tombstone_count == if spec_count_tombstones(
                old(self).file_manager.items_from(0),
            ) <= u64::MAX {
                spec_count_tombstones(old(self).file_manager.items_from(0))
            } else {
                u64::MAX as int
            },
    {
        let report = match self.file_manager.read_all_entries() {
            Ok(rep) => rep,
            Err(e) => {
                return Err(e);
            },
        };
        proof {
            crate::file_manager::lemma_items_valid(self.file_manager, 0);
        }
        let ghost items = self.file_manager.items_from(0);
        self.bloom_filter.clear();
        self.index = Vec::new();
        let mut tombs: u64 = 0;
        let mut j: usize = 0;
        proof {
            assert(idx_map(self.index@) =~= spec_replay_idx(items.take(0)));
        }
        while j < report.entries.len()
            invariant
                0 <= j <= report.entries@.len(),
                report.entries@.len() == items.len(),
                forall|t: int|
                    0 <= t < items.len() ==> crate::file_manager::entry_matches(
                        #[trigger] report.entries@[t],
                        items[t].0,
                        items[t].1,
                    ),
                items == self.file_manager.items_from(0),
                forall|t: int|
                    0 <= t < items.len() ==> {
                        let tt = #[trigger] items[t];
                        &&& self.file_manager.has_file(tt.0)
                        &&& 0 <= tt.1.off
                        &&& frame_complete_at(self.file_manager.file_data(tt.0), tt.1.off)
                        &&& frame_crc_ok_at(self.file_manager.file_data(tt.0), tt.1.off)
                        &&& frame_tombstone_at(self.file_manager.file_data(tt.0), tt.1.off)
                            == tt.1.tombstone
                        &&& spec_decode_record_body(
                            frame_body_at(self.file_manager.file_data(tt.0), tt.1.off),
                        ) == Some((tt.1.key, tt.1.value))
                        &&& (tt.1.value is None) == tt.1.tombstone
                    },
                self.file_manager == old(self).file_manager,
                self.id == old(self).id,
                self.metadata == old(self).metadata,
                self.file_manager.wf(),
                self.bloom_filter.wf(),
                idx_unique(self.index@),
                idx_map(self.index@) == spec_replay_idx(items.take(j as int)),
                tombs == if spec_count_tombstones(items.take(j as int)) <= u64::MAX {
                    spec_count_tombstones(items.take(j as int))
                } else {
                    u64::MAX as int
                },
                forall|k: Seq<char>|
                    #[trigger] idx_map(self.index@).dom().contains(k) ==> {
                        let off = idx_map(self.index@)[k];
                        &&& self.file_manager.has_file(off.file_id)
                        &&& live_frame_at(
                            self.file_manager.file_data(off.file_id),
                            off.offset as int,
                            k,
                        )
                        &&& self.bloom_filter.spec_contains(k)
                    },
            decreases report.entries@.len() - j,
        {
            proof {
                assert(items.take(j as int + 1).drop_last() =~= items.take(j as int));
                assert(items.take(j as int + 1).last() == items[j as int]);
            }
            let ghost prev_bloom = self.bloom_filter;
            let ghost prev_idx = self.index@;
            let tomb = report.entries[j].2;
            if tomb {
                let _ = idx_remove(&mut self.index, report.entries[j].0.as_str());
                tombs = if tombs < u64::MAX {
                    tombs + 1
                } else {
                    u64::MAX
                };
            } else {
                let off = report.entries[j].1;
                self.bloom_filter.insert(report.entries[j].0.as_str());
                let _ = idx_put(&mut self.index, report.entries[j].0.as_str(), off);
                proof {
                    let t = items[j as int];
                    assert(off == FileOffset {
                        partition_id: 0,
                        file_id: t.0,
                        offset: t.1.off as u64,
                        size: t.1.size as u32,
                        timestamp: t.1.ts,
                    });
                }
            }
            proof {
                assert forall|k: Seq<char>|
                    #[trigger] idx_map(self.index@).dom().contains(k) implies {
                    let off = idx_map(self.index@)[k];
                    &&& self.file_manager.has_file(off.file_id)
                    &&& live_frame_at(
                        self.file_manager.file_data(off.file_id),
                        off.offset as int,
                        k,
                    )
                    &&& self.bloom_filter.spec_contains(k)
                } by {
                    let key_j = items[j as int].1.key;
                    if !tomb && k == key_j {
                        assert(self.bloom_filter.spec_contains(k));
                    } else {
                        assert(idx_map(prev_idx).dom().contains(k));
                        assert(idx_map(self.index@)[k] == idx_map(prev_idx)[k]);
                        crate::bloom::lemma_no_false_negative(prev_bloom, self.bloom_filter, k);
                    }
                }
            }
            j = j + 1;
        }
        proof {
            assert(items.take(j as int) =~= items);
        }
        self.metadata.key_count = self.index.len() as u64;
        self.metadata.tombstone_count = tombs;
        Ok(())
    }
}

impl Partition {
    /// Compaction: collects every live key and value through the index,
    /// rewrites them into a fresh segment generation, rebuilds the bloom
    /// filter from the live key set, resets the tombstone count to zero
    /// and bumps the generation — while the partition's contents stay
    /// exactly what they were. A failure aborts the whole compaction and
    /// leaves the partition untouched.
    pub fn compact(&mut self, bloom_filter_size: usize, bloom_filter_fp_ppm: u32) -> (r:
        PlexResult<()>)
        requires
            old(self).pinv(),
            0 < bloom_filter_fp_ppm < 1_000_000,
            1 <= bloom_filter_size <= MAX_EXPECTED_ELEMENTS,
        ensures
            final(self).pinv(),
            final(self).id == old(self).id,
            final(self).metadata.id == old(self).metadata.id,
            match r {
                Ok(()) => {
                    &&& final(self).as_map() == old(self).as_map()
                    &&& final(self).metadata.tombstone_count == 0
                    &&& final(self).metadata.key_count == final(self).index@.len()
                    &&& final(self).index@.len() == old(self).index@.len()
                    &&& final(self).file_manager.segments@.len() == 1
                    &&& spec_count_tombstones(final(self).file_manager.items_from(0)) == 0
                    &&& spec_replay_idx(final(self).file_manager.items_from(0)) == final(self).idx()
                    &&& final(self).metadata.generation == if old(self).metadata.generation
                        < u64::MAX {
                        old(self).metadata.generation + 1
                    } else {
                        u64::MAX as int
                    }
                },
                Err(e) => e is CompactionFailed && *final(self) == *old(self),
            },
            r is Err ==> exists|k: Seq<char>|
                old(self).as_map().dom().contains(k) && !record_body_fits(
                    k,
                    Some(#[trigger] old(self).as_map()[k]),
                ),
    {
        let mut live: Vec<(String, String)> = Vec::new();
        let mut i: usize = 0;
        while i < self.index.len()
            invariant
                *self == *old(self),
                old(self).pinv(),
                0 <= i <= self.index@.len(),
                live@.len() == i,
                forall|t: int|
                    0 <= t < i ==> (#[trigger] live@[t]).0@ == self.index@[t].0@ && live@[t].1@
                        == self.as_map()[self.index@[t].0@],
            decreases self.index@.len() - i,
        {
            let key = self.index[i].0.clone();
            let off = self.index[i].1;
            proof {
                lemma_idx_find(self.index@, key@);
                assert(self.idx().dom().contains(key@));
                assert(idx_find(self.index@, key@) == i);
                assert(self.idx()[key@] == off);
            }
            let value = match self.file_manager.read_value(&off) {
                Ok(Some(v)) => v,
                Ok(None) => {
                    proof {
                        assert(false);
                    }
                    return Err(PlexError::CompactionFailed("unreadable record".to_owned()));
                },
                Err(_) => {
                    proof {
                        assert(false);
                    }
                    return Err(PlexError::CompactionFailed("unreadable record".to_owned()));
                },
            };
            proof {
                assert(value@ == self.as_map()[key@]);
            }
            live.push((key, value));
            i = i + 1;
        }
        let ghost old_idx_seq = self.index@;

        let mut new_fm = FileManager::new();
        let mut new_index: Vec<(String, FileOffset)> = Vec::new();
        let mut new_bloom = match BloomFilter::new(bloom_filter_size, bloom_filter_fp_ppm) {
            Ok(b) => b,
            Err(_) => {
                return Err(PlexError::CompactionFailed("bloom filter rebuild failed".to_owned()));
            },
        };
        let mut new_size: u64 = 0;
        let mut t: usize = 0;
        proof {
            assert(!crate::file_manager::scannable_frame_at(new_fm.active_data(), 0));
            assert(crate::file_manager::scan_end(new_fm.active_data(), 0) == 0);
            assert(new_fm.items_from(1) =~= Seq::<(u32, crate::file_manager::SpecScanItem)>::empty());
            assert(new_fm.segments@[0].data@ == new_fm.active_data());
            assert(new_fm.items_from(0) =~= Seq::<(u32, crate::file_manager::SpecScanItem)>::empty());
            assert forall|k: Seq<char>| !idx_map(new_index@).dom().contains(k) by {
                lemma_idx_find(new_index@, k);
            }
            assert(spec_replay_idx(new_fm.items_from(0)) =~= idx_map(new_index@));
        }
        while t < live.len()
            invariant
                *self == *old(self),
                old(self).pinv(),
                live@.len() == old_idx_seq.len(),
                old_idx_seq == self.index@,
                forall|u: int|
                    0 <= u < live@.len() ==> (#[trigger] live@[u]).0@ == old_idx_seq[u].0@
                        && live@[u].1@ == self.as_map()[old_idx_seq[u].0@],
                0 <= t <= live@.len(),
                new_fm.wf(),
                new_fm.segments@.len() == 1,
                new_fm.active_file_id() == 0,
                crate::file_manager::scan_end(new_fm.active_data(), 0)
                    == new_fm.active_data().len(),
                spec_count_tombstones(new_fm.items_from(0)) == 0,
                spec_replay_idx(new_fm.items_from(0)) == idx_map(new_index@),
                new_bloom.wf(),
                idx_unique(new_index@),
                new_index@.len() == t,
                forall|k: Seq<char>|
                    #[trigger] idx_map(new_index@).dom().contains(k) <==> exists|u: int|
                        0 <= u < t && (#[trigger] live@[u]).0@ == k,
                forall|k: Seq<char>|
                    #[trigger] idx_map(new_index@).dom().contains(k) ==> {
                        let off = idx_map(new_index@)[k];
                        &&& new_fm.has_file(off.file_id)
                        &&& live_frame_at(new_fm.file_data(off.file_id), off.offset as int, k)
                        &&& new_bloom.spec_contains(k)
                        &&& live_value_at(new_fm.file_data(off.file_id), off.offset as int)
                            == self.as_map()[k]
                    },
            decreases live@.len() - t,
        {
            let key_ref: &str = live[t].0.as_str();
            let value_ref: &str = live[t].1.as_str();
            let ghost prev_fm = new_fm;
            let ghost prev_bloom = new_bloom;
            let ghost prev_index = new_index@;
            let off = match new_fm.write_entry(key_ref, value_ref) {
                Ok(off) => off,
                Err(_) => {
                    proof {
                        lemma_idx_find(old_idx_seq, live@[t as int].0@);
                        assert(old(self).as_map().dom().contains(live@[t as int].0@));
                        assert(!record_body_fits(
                            live@[t as int].0@,
                            Some(old(self).as_map()[live@[t as int].0@]),
                        ));
                    }
                    return Err(
                        PlexError::CompactionFailed("record too large to rewrite".to_owned()),
                    );
                },
            };
            new_bloom.insert(key_ref);
            proof {
                lemma_append_then_read(
                    prev_fm.active_data(),
                    new_fm.file_data(prev_fm.active_file_id()),
                    key_ref@,
                    Some(value_ref@),
                    off.timestamp,
                    false,
                );
                lemma_append_preserves_file_data(
                    prev_fm,
                    new_fm,
                    key_ref@,
                    Some(value_ref@),
                    off.timestamp,
                    false,
                );
            }
            let _ = idx_put(&mut new_index, key_ref, off);
            new_size = if u64::MAX - new_size >= off.size as u64 {
                new_size + off.size as u64
            } else {
                u64::MAX
            };
            proof {
                assert forall|k: Seq<char>|
                    #[trigger] idx_map(new_index@).dom().contains(k) implies {
                    let o = idx_map(new_index@)[k];
                    &&& new_fm.has_file(o.file_id)
                    &&& live_frame_at(new_fm.file_data(o.file_id), o.offset as int, k)
                    &&& new_bloom.spec_contains(k)
                    &&& live_value_at(new_fm.file_data(o.file_id), o.offset as int)
                        == self.as_map()[k]
                } by {
                    if k == key_ref@ {
                        assert(idx_map(new_index@)[k] == off);
                        assert(new_fm.has_file(off.file_id));
                    } else {
                        assert(idx_map(prev_index).dom().contains(k));
                        let o = idx_map(prev_index)[k];
                        assert(idx_map(new_index@)[k] == o);
                        crate::file_manager::lemma_frame_preserved_after_append(
                            prev_fm,
                            new_fm,
                            key_ref@,
                            Some(value_ref@),
                            off.timestamp,
                            false,
                            o.file_id,
                            o.offset as int,
                        );
                        crate::bloom::lemma_no_false_negative(prev_bloom, new_bloom, k);
                    }
                }
                assert forall|k: Seq<char>|
                    #[trigger] idx_map(new_index@).dom().contains(k) <==> exists|u: int|
                        0 <= u < t + 1 && (#[trigger] live@[u]).0@ == k by {
                    if idx_map(new_index@).dom().contains(k) {
                        if k == key_ref@ {
                            assert(live@[t as int].0@ == k);
                        }
                    }
                    if exists|u: int| 0 <= u < t + 1 && (#[trigger] live@[u]).0@ == k {
                        let u = choose|u: int| 0 <= u < t + 1 && (#[trigger] live@[u]).0@ == k;
                        if u < t {
                            assert(idx_map(prev_index).dom().contains(k));
                        }
                    }
                }
                let d1 = prev_fm.active_data();
                let d2 = new_fm.active_data();
                crate::file_manager::lemma_scan_append_frame(
                    d1,
                    d2,
                    0,
                    key_ref@,
                    Some(value_ref@),
                    off.timestamp,
                    false,
                );
                let it = crate::file_manager::SpecScanItem {
                    key: key_ref@,
                    value: Some(value_ref@),
                    off: d1.len() as int,
                    size: crate::file_manager::spec_frame(
                        key_ref@,
                        Some(value_ref@),
                        off.timestamp,
                        false,
                    ).len() as int,
                    ts: off.timestamp,
                    tombstone: false,
                };
                assert(new_fm.segments@[0].data@ == d2);
                assert(prev_fm.segments@[0].data@ == d1);
                assert(new_fm.segments@[0].file_id == 0);
                assert(new_fm.items_from(1) =~= Seq::<(u32, crate::file_manager::SpecScanItem)>::empty());
                let items1 = prev_fm.items_from(0);
                let items2 = new_fm.items_from(0);
                let e1 = crate::file_manager::spec_scan_from(d1, 0).entries;
                let e2 = crate::file_manager::spec_scan_from(d2, 0).entries;
                assert(e2 == e1.push(it));
                assert(prev_fm.items_from(1) =~= Seq::<
                    (u32, crate::file_manager::SpecScanItem),
                >::empty());
                assert(items2 =~= crate::file_manager::tag_items(0u32, e2));
                assert(items1 =~= crate::file_manager::tag_items(0u32, e1));
                assert(items2 =~= items1.push((0u32, it))) by {
                    assert(items2.len() == e2.len() && items1.len() == e1.len());
                    assert forall|j: int|
                        0 <= j < items2.len() implies items2[j] == items1.push((0u32, it))[j] by {
                        assert(items2[j] == (0u32, e2[j]));
                        if j < items1.len() {
                            assert(e2[j] == e1[j]);
                            assert(items1[j] == (0u32, e1[j]));
                        } else {
                            assert(e2[j] == it);
                        }
                    }
                }
                assert(items2.drop_last() =~= items1);
                assert(items2.last() == (0u32, it));
                assert(off.partition_id == 0 && off.file_id == 0);
                assert(off.offset == it.off && off.size == it.size && off.timestamp == it.ts);
                assert(off == FileOffset {
                    partition_id: 0,
                    file_id: 0u32,
                    offset: it.off as u64,
                    size: it.size as u32,
                    timestamp: it.ts,
                });
                assert(spec_count_tombstones(items2) == 0);
                assert(spec_replay_idx(items2) == spec_replay_idx(items1).insert(key_ref@, off));
                assert(spec_replay_idx(items2) =~= idx_map(new_index@));
            }
            t = t + 1;
        }
        let generation = if self.metadata.generation < u64::MAX {
            self.metadata.generation + 1
        } else {
            u64::MAX
        };
        let ghost prev = *self;
        self.file_manager = new_fm;
        self.index = new_index;
        self.bloom_filter = new_bloom;
        self.metadata.generation = generation;
        self.metadata.tombstone_count = 0;
        self.metadata.key_count = self.index.len() as u64;
        self.metadata.size = new_size;
        self.metadata.last_compaction = current_timestamp();
        proof {
            assert forall|k: Seq<char>| true implies #[trigger] self.idx().dom().contains(k)
                == prev.idx().dom().contains(k) by {
                lemma_idx_find(old_idx_seq, k);
                if self.idx().dom().contains(k) {
                    let u = choose|u: int| 0 <= u < live@.len() && (#[trigger] live@[u]).0@ == k;
                    assert(old_idx_seq[u].0@ == k);
                }
                if prev.idx().dom().contains(k) {
                    let u = idx_find(old_idx_seq, k);
                    assert(live@[u].0@ == k);
                }
            }
            assert(self.as_map() =~= prev.as_map());
            assert(self.file_manager.segments@.len() == 1);
            assert(spec_count_tombstones(self.file_manager.items_from(0)) == 0);
            assert(spec_replay_idx(self.file_manager.items_from(0)) == self.idx());
        }
        Ok(())
    }
}

/// Which partition a key routes to: its first hash reduced modulo the
/// partition count. The count is fixed at creation; changing it would be a
/// full data migration.
pub open spec fn spec_route(key: Seq<char>, count: u32) -> int {
    spec_hash1(key) as int % count as int
}

/// Deterministic hash routing over a fixed partition count.
pub struct HashPartitioner {
    pub partition_count: u32,
}

impl HashPartitioner {
    /// A router over this many partitions.
    pub fn new(partition_count: u32) -> (r: HashPartitioner)
        ensures
            r.partition_count == partition_count,
    {
        HashPartitioner { partition_count }
    }

    /// The partition a key belongs to.
    pub fn partition_for_key(&self, key: &str) -> (r: u32)
        requires
            self.partition_count >= 1,
        ensures
            r == spec_route(key@, self.partition_count),
            r < self.partition_count,
    {
        let h = crate::bloom::fnv1a(key.as_bytes(), FNV_OFFSET);
        (h % (self.partition_count as u64)) as u32
    }

    /// Whether any partition has grown past three times the mean partition
    /// size — a metric, not an action: there is no online resharding.
    pub fn rebalance_needed(&self, partitions: &Vec<Partition>) -> (r: bool)
        requires
            partitions@.len() >= 1,
        ensures
            r == exists|i: int|
                0 <= i < partitions@.len() && (#[trigger] partitions@[i]).metadata.size as int > 3
                    * (spec_total_size(partitions@) / partitions@.len() as int),
    {
        let mut total: u128 = 0;
        let mut i: usize = 0;
        while i < partitions.len()
            invariant
                0 <= i <= partitions@.len(),
                total == spec_total_size(partitions@.take(i as int)),
                total <= i * 0x1_0000_0000_0000_0000,
            decreases partitions@.len() - i,
        {
            proof {
                assert(partitions@.take(i as int + 1).drop_last() =~= partitions@.take(i as int));
            }
            total = total + partitions[i].metadata.size as u128;
            i = i + 1;
        }
        proof {
            assert(partitions@.take(partitions@.len() as int) =~= partitions@);
        }
        let avg: u128 = total / (partitions.len() as u128);
        proof {
            vstd::arithmetic::div_mod::lemma_multiply_divide_le(
                total as int,
                partitions@.len() as int,
                0x1_0000_0000_0000_0000,
            );
        }
        let mut j: usize = 0;
        while j < partitions.len()
            invariant
                0 <= j <= partitions@.len(),
                partitions@.len() >= 1,
                avg <= 0x1_0000_0000_0000_0000,
                avg == spec_total_size(partitions@) / partitions@.len() as int,
                forall|t: int|
                    0 <= t < j ==> !((#[trigger] partitions@[t]).metadata.size as int > 3 * (
                    spec_total_size(partitions@) / partitions@.len() as int)),
            decreases partitions@.len() - j,
        {
            if partitions[j].metadata.size as u128 > 3 * avg {
                return true;
            }
            j = j + 1;
        }
        false
    }
}

/// The total of the partitions' recorded sizes.
pub open spec fn spec_total_size(s: Seq<Partition>) -> int
    decreases s.len(),
{
    if s.len() == 0 {
        0
    } else {
        spec_total_size(s.drop_last()) + s.last().metadata.size as int
    }
}

/// The total of the partitions' key counts.
pub open spec fn spec_total_keys(s: Seq<Partition>) -> int
    decreases s.len(),
{
    if s.len() == 0 {
        0
    } else {
        spec_total_keys(s.drop_last()) + s.last().metadata.key_count as int
    }
}

/// The total of the partitions' tombstone counts.
pub open spec fn spec_total_tombstones(s: Seq<Partition>) -> int
    decreases s.len(),
{
    if s.len() == 0 {
        0
    } else {
        spec_total_tombstones(s.drop_last()) + s.last().metadata.tombstone_count as int
    }
}

/// Aggregate counters across all partitions.
pub struct PartitionManagerStats {
    pub partition_count: u32,
    pub total_keys: u64,
    pub total_size: u64,
    pub total_tombstones: u64,
}

/// Whether a partition is eligible for compaction: its tombstone share
/// exceeds the configured threshold, or its total bytes exceed the
/// configured maximum.
pub open spec fn spec_should_compact(p: Partition, config: PartitionConfig) -> bool {
    (p.metadata.key_count > 0 && p.metadata.tombstone_count * 1000
        > config.compaction_threshold_permille * (p.metadata.key_count
        + p.metadata.tombstone_count)) || p.metadata.size > config.max_partition_size
}


/// A key's route is a valid partition slot.
pub proof fn lemma_route_bounds(key: Seq<char>, count: u32)
    requires
        count >= 1,
    ensures
        0 <= spec_route(key, count) < count,
{
    vstd::arithmetic::div_mod::lemma_mod_bound(spec_hash1(key) as int, count as int);
}

/// Updating the routed partition's contents at one key updates the
/// manager's contents at that key alone.
proof fn lemma_manager_insert(
    old_m: PartitionManager,
    new_m: PartitionManager,
    pid: int,
    key: Seq<char>,
    value: Seq<char>,
)
    requires
        new_m.config == old_m.config,
        old_m.config.partition_count >= 1,
        new_m.partitions@.len() == old_m.partitions@.len(),
        old_m.partitions@.len() == old_m.config.partition_count,
        forall|i: int|
            0 <= i < old_m.partitions@.len() && i != pid ==> #[trigger] new_m.partitions@[i]
                == old_m.partitions@[i],
        0 <= pid < old_m.partitions@.len(),
        pid == spec_route(key, old_m.config.partition_count),
        new_m.partitions@[pid].as_map() == old_m.partitions@[pid].as_map().insert(key, value),
    ensures
        new_m.as_map() == old_m.as_map().insert(key, value),
{
    let count = old_m.config.partition_count;
    assert forall|k: Seq<char>| true implies #[trigger] new_m.as_map().dom().contains(k)
        == old_m.as_map().insert(key, value).dom().contains(k) && (new_m.as_map().dom().contains(
        k,
    ) ==> new_m.as_map()[k] == old_m.as_map().insert(key, value)[k]) by {
        lemma_route_bounds(k, count);
        let rk = spec_route(k, count);
        let np = new_m.partitions@[rk];
        let op = old_m.partitions@[rk];
        if rk == pid {
            assert(np.as_map().dom().contains(k) == np.idx().dom().contains(k));
            assert(op.as_map().dom().contains(k) == op.idx().dom().contains(k));
            if k == key {
                assert(np.as_map().dom().contains(k));
                assert(np.as_map()[k] == value);
            } else {
                assert(np.as_map().dom().contains(k) == op.as_map().dom().contains(k));
                if np.as_map().dom().contains(k) {
                    assert(np.as_map()[k] == op.as_map()[k]);
                }
            }
        } else {
            assert(np == op);
        }
    }
    assert(new_m.as_map() =~= old_m.as_map().insert(key, value));
}

/// Removing one key from the routed partition's contents removes it from
/// the manager's contents alone.
proof fn lemma_manager_remove(
    old_m: PartitionManager,
    new_m: PartitionManager,
    pid: int,
    key: Seq<char>,
)
    requires
        new_m.config == old_m.config,
        old_m.config.partition_count >= 1,
        new_m.partitions@.len() == old_m.partitions@.len(),
        old_m.partitions@.len() == old_m.config.partition_count,
        forall|i: int|
            0 <= i < old_m.partitions@.len() && i != pid ==> #[trigger] new_m.partitions@[i]
                == old_m.partitions@[i],
        0 <= pid < old_m.partitions@.len(),
        pid == spec_route(key, old_m.config.partition_count),
        new_m.partitions@[pid].as_map() == old_m.partitions@[pid].as_map().remove(key),
    ensures
        new_m.as_map() == old_m.as_map().remove(key),
{
    let count = old_m.config.partition_count;
    assert forall|k: Seq<char>| true implies #[trigger] new_m.as_map().dom().contains(k)
        == old_m.as_map().remove(key).dom().contains(k) && (new_m.as_map().dom().contains(k)
        ==> new_m.as_map()[k] == old_m.as_map().remove(key)[k]) by {
        lemma_route_bounds(k, count);
        let rk = spec_route(k, count);
        let np = new_m.partitions@[rk];
        let op = old_m.partitions@[rk];
        if rk == pid {
            assert(np.as_map().dom().contains(k) == np.idx().dom().contains(k));
            assert(op.as_map().dom().contains(k) == op.idx().dom().contains(k));
            if k == key {
                assert(!np.as_map().dom().contains(k));
            } else {
                assert(np.as_map().dom().contains(k) == op.as_map().dom().contains(k));
                if np.as_map().dom().contains(k) {
                    assert(np.as_map()[k] == op.as_map()[k]);
                }
            }
        } else {
            assert(np == op);
        }
    }
    assert(new_m.as_map() =~= old_m.as_map().remove(key));
}

/// What reapplying one logged command does to the store's contents. An
/// empty key or a record too large for its length fields never made it
/// into a partition, and reapplying it changes nothing.
pub open spec fn spec_apply_item(m: Map<Seq<char>, Seq<char>>, c: CommandView) -> Map<
    Seq<char>,
    Seq<char>,
> {
    match c {
        CommandView::Put { key, value } => if key.len() > 0 && record_body_fits(
            key,
            Some(value),
        ) {
            m.insert(key, value)
        } else {
            m
        },
        CommandView::Delete { key } => if record_body_fits(key, None) {
            m.remove(key)
        } else {
            m
        },
        CommandView::Get { key } => m,
        CommandView::Compact => m,
    }
}

/// What reapplying a whole replay, in log order, does to the store's
/// contents.
pub open spec fn spec_apply_items(
    m: Map<Seq<char>, Seq<char>>,
    items: Seq<crate::wal::WalReplayItem>,
) -> Map<Seq<char>, Seq<char>>
    decreases items.len(),
{
    if items.len() == 0 {
        m
    } else {
        let prev = spec_apply_items(m, items.drop_last());
        match spec_decode_command(items.last().cmd) {
            Some(c) => spec_apply_item(prev, c),
            None => prev,
        }
    }
}

/// Two managers with the same partitions and configuration hold the same
/// contents.
proof fn lemma_manager_same_partitions(a: PartitionManager, b: PartitionManager)
    requires
        b.partitions@ == a.partitions@,
        b.config == a.config,
        a.config.partition_count >= 1,
        a.partitions@.len() == a.config.partition_count,
    ensures
        b.as_map() == a.as_map(),
{
    assert forall|k: Seq<char>| true implies #[trigger] b.as_map().dom().contains(k)
        == a.as_map().dom().contains(k) && (b.as_map().dom().contains(k) ==> b.as_map()[k]
        == a.as_map()[k]) by {
        lemma_route_bounds(k, a.config.partition_count);
    }
    assert(b.as_map() =~= a.as_map());
}

/// The partition manager: deterministic key routing across the partitions,
/// each an independent shard, with one shared write-ahead log that every
/// write reaches before it becomes visible.
pub struct PartitionManager {
    pub partitions: Vec<Partition>,
    pub partitioner: HashPartitioner,
    pub config: PartitionConfig,
    pub wal: WAL,
}

impl PartitionManager {
    /// Well-formed: one partition per configured slot, each holding its
    /// own invariant, valid rebuild parameters, and a well-formed log.
    pub open spec fn wf(self) -> bool {
        &&& self.config.partition_count >= 1
        &&& self.partitions@.len() == self.config.partition_count
        &&& self.partitioner.partition_count == self.config.partition_count
        &&& 1 <= self.config.bloom_filter_size <= MAX_EXPECTED_ELEMENTS
        &&& 0 < self.config.bloom_filter_fp_ppm < 1_000_000
        &&& self.wal.wf()
        &&& forall|i: int|
            0 <= i < self.partitions@.len() ==> (#[trigger] self.partitions@[i]).pinv()
                && self.partitions@[i].id == i
    }

    /// The store's contents: each key looked up in the partition it routes
    /// to. A key some other partition happens to hold is unreachable and
    /// not part of the contents.
    pub open spec fn as_map(self) -> Map<Seq<char>, Seq<char>> {
        Map::new(
            |k: Seq<char>|
                self.partitions@[spec_route(k, self.config.partition_count)].idx().dom().contains(
                    k,
                ),
            |k: Seq<char>| self.partitions@[spec_route(k, self.config.partition_count)].as_map()[k],
        )
    }

    /// Builds the manager with one fresh partition per slot. A zero
    /// partition count or invalid bloom parameters fail fast.
    pub fn new(config: PartitionConfig, wal: WAL) -> (r: PlexResult<PartitionManager>)
        requires
            wal.wf(),
        ensures
            match r {
                Ok(m) => {
                    &&& m.wf()
                    &&& m.config == config
                    &&& m.wal == wal
                    &&& m.as_map() == Map::<Seq<char>, Seq<char>>::empty()
                },
                Err(e) => e is Config || e is BloomFilter,
            },
            r is Ok <==> (config.partition_count >= 1 && 1 <= config.bloom_filter_size
                <= MAX_EXPECTED_ELEMENTS && 0 < config.bloom_filter_fp_ppm < 1_000_000),
    {
        if config.partition_count < 1 {
            return Err(PlexError::Config("partition count must be at least one".to_owned()));
        }
        let mut partitions: Vec<Partition> = Vec::new();
        let mut i: u32 = 0;
        while i < config.partition_count
            invariant
                0 <= i <= config.partition_count,
                partitions@.len() == i,
                i >= 1 ==> (0 < config.bloom_filter_fp_ppm < 1_000_000 && 1
                    <= config.bloom_filter_size <= MAX_EXPECTED_ELEMENTS),
                forall|j: int|
                    0 <= j < i ==> (#[trigger] partitions@[j]).pinv() && partitions@[j].id == j
                        && partitions@[j].idx() == Map::<Seq<char>, FileOffset>::empty(),
            decreases config.partition_count - i,
        {
            let p = match Partition::new(i, config.bloom_filter_size, config.bloom_filter_fp_ppm) {
                Ok(p) => p,
                Err(e) => {
                    return Err(e);
                },
            };
            proof {
                assert(p.idx() =~= Map::<Seq<char>, FileOffset>::empty()) by {
                    assert forall|k: Seq<char>| !p.idx().dom().contains(k) by {
                        lemma_idx_find(p.index@, k);
                    }
                }
            }
            partitions.push(p);
            i = i + 1;
        }
        let m = PartitionManager {
            partitions,
            partitioner: HashPartitioner::new(config.partition_count),
            config,
            wal,
        };
        proof {
            assert(m.as_map() =~= Map::<Seq<char>, Seq<char>>::empty());
        }
        Ok(m)
    }

    /// Reads a key from the partition it routes to: the bloom filter
    /// first, the index next, the segment last.
    pub fn get(&self, key: &str) -> (r: PlexResult<Option<String>>)
        requires
            self.wf(),
        ensures
            r is Ok,
            match r {
                Ok(v) => crate::file_manager::opt_string_view(v) == if self.as_map().dom().contains(
                    key@,
                ) {
                    Some(self.as_map()[key@])
                } else {
                    None::<Seq<char>>
                },
                Err(_) => false,
            },
    {
        let pid = self.partitioner.partition_for_key(key);
        self.partitions[pid as usize].get_value(key)
    }

    /// Writes a key: the write-ahead log first — durability precedes
    /// visibility — then the routed partition's segment, bloom filter,
    /// index and metadata, in that order. An empty key, a record too large
    /// for its length fields, or an exhausted sequence space is rejected
    /// with nothing changed.
    #[verifier::rlimit(100)]
    pub fn set(&mut self, key: &str, value: &str) -> (r: PlexResult<()>)
        requires
            old(self).wf(),
        ensures
            final(self).wf(),
            final(self).config == old(self).config,
            match r {
                Ok(()) => {
                    &&& final(self).as_map() == old(self).as_map().insert(key@, value@)
                    &&& final(self).wal.sequence_number == old(self).wal.sequence_number + 1
                    &&& crate::wal::wal_entry_appended(
                        old(self).wal.files@,
                        final(self).wal.files@,
                        (old(self).wal.sequence_number + 1) as u64,
                        spec_command_bytes(CommandView::Put { key: key@, value: value@ }),
                    )
                },
                Err(e) => (e is KeyIsEmpty || e is WAL) && *final(self) == *old(self),
            },
            r is Err <==> (key@.len() == 0 || !record_body_fits(key@, Some(value@)) || old(self).wal.sequence_number == u64::MAX),
            key@.len() == 0 ==> r matches Err(PlexError::KeyIsEmpty),
    {
        if key.is_empty() {
            return Err(PlexError::KeyIsEmpty);
        }
        let pid = self.partitioner.partition_for_key(key);
        let command = Command::Put { key: key.to_owned(), value: value.to_owned() };
        match self.wal.append(&command) {
            Ok(_) => {},
            Err(e) => {
                return Err(e);
            },
        }
        let mut p = self.partitions.remove(pid as usize);
        let ghost prev_p = p;
        let res = p.set_value(key, value);
        self.partitions.insert(pid as usize, p);
        proof {
            assert(spec_command_fits(command@) ==> record_body_fits(key@, Some(value@)));
        }
        match res {
            Ok(()) => {},
            Err(e) => {
                return Err(PlexError::WAL("write failed after logging".to_owned()));
            },
        }
        proof {
            let removed = old(self).partitions@.remove(pid as int);
            assert(self.partitions@ == removed.insert(pid as int, p));
            assert(self.partitions@[pid as int] == p);
            assert forall|i: int|
                0 <= i < old(self).partitions@.len() && i != pid implies #[trigger] self.partitions@[i]
                    == old(self).partitions@[i] by {
                if i < pid {
                    assert(self.partitions@[i] == removed[i]);
                    assert(removed[i] == old(self).partitions@[i]);
                } else {
                    assert(self.partitions@[i] == removed[i - 1]);
                    assert(removed[i - 1] == old(self).partitions@[i]);
                }
            }
            assert(self.partitions@[pid as int].as_map() == prev_p.as_map().insert(key@, value@));
            lemma_manager_insert(*old(self), *self, pid as int, key@, value@);
            assert(command@ == CommandView::Put { key: key@, value: value@ });
            assert(crate::wal::wal_entry_appended(
                old(self).wal.files@,
                self.wal.files@,
                (old(self).wal.sequence_number + 1) as u64,
                spec_command_bytes(command@),
            ));
        }
        Ok(())
    }

    /// Deletes a key: checks presence in the routed partition, logs the
    /// intent, then writes the tombstone through the same path as a write.
    /// Deleting an absent key fails with `KeyNotFound` and changes nothing
    /// — in particular it does not corrupt the index.
    #[verifier::rlimit(100)]
    pub fn delete(&mut self, key: &str) -> (r: PlexResult<()>)
        requires
            old(self).wf(),
        ensures
            final(self).wf(),
            final(self).config == old(self).config,
            match r {
                Ok(()) => {
                    &&& final(self).as_map() == old(self).as_map().remove(key@)
                    &&& final(self).wal.sequence_number == old(self).wal.sequence_number + 1
                    &&& exists|ts: u64|
                        FileManager::appended_frame(
                            old(self).partitions@[spec_route(
                                key@,
                                old(self).config.partition_count,
                            )].file_manager,
                            final(self).partitions@[spec_route(
                                key@,
                                old(self).config.partition_count,
                            )].file_manager,
                            key@,
                            None,
                            ts,
                            true,
                        )
                    &&& crate::wal::wal_entry_appended(
                        old(self).wal.files@,
                        final(self).wal.files@,
                        (old(self).wal.sequence_number + 1) as u64,
                        spec_command_bytes(CommandView::Delete { key: key@ }),
                    )
                },
                Err(e) => (e is KeyIsEmpty || e is KeyNotFound || e is WAL) && *final(self)
                    == *old(self),
            },
            r is Err <==> (key@.len() == 0 || !old(self).as_map().dom().contains(key@)
                || !record_body_fits(key@, None) || old(self).wal.sequence_number == u64::MAX),
            key@.len() == 0 ==> r matches Err(PlexError::KeyIsEmpty),
            key@.len() > 0 && !old(self).as_map().dom().contains(key@) ==> r matches Err(
                PlexError::KeyNotFound,
            ),
    {
        if key.is_empty() {
            return Err(PlexError::KeyIsEmpty);
        }
        let pid = self.partitioner.partition_for_key(key);
        let present = match idx_get(&self.partitions[pid as usize].index, key) {
            Some(_) => true,
            None => false,
        };
        if !present {
            return Err(PlexError::KeyNotFound);
        }
        let command = Command::Delete { key: key.to_owned() };
        match self.wal.append(&command) {
            Ok(_) => {},
            Err(e) => {
                return Err(e);
            },
        }
        let mut p = self.partitions.remove(pid as usize);
        let ghost prev_p = p;
        let res = p.delete_value(key);
        self.partitions.insert(pid as usize, p);
        proof {
            assert(spec_command_fits(command@) ==> record_body_fits(key@, None));
        }
        match res {
            Ok(()) => {},
            Err(e) => {
                return Err(PlexError::WAL("delete failed after logging".to_owned()));
            },
        }
        proof {
            let removed = old(self).partitions@.remove(pid as int);
            assert(self.partitions@ == removed.insert(pid as int, p));
            assert(self.partitions@[pid as int] == p);
            assert forall|i: int|
                0 <= i < old(self).partitions@.len() && i != pid implies #[trigger] self.partitions@[i]
                    == old(self).partitions@[i] by {
                if i < pid {
                    assert(self.partitions@[i] == removed[i]);
                    assert(removed[i] == old(self).partitions@[i]);
                } else {
                    assert(self.partitions@[i] == removed[i - 1]);
                    assert(removed[i - 1] == old(self).partitions@[i]);
                }
            }
            assert(self.partitions@[pid as int].as_map() == prev_p.as_map().remove(key@));
            lemma_manager_remove(*old(self), *self, pid as int, key@);
            assert(command@ == CommandView::Delete { key: key@ });
            assert(crate::wal::wal_entry_appended(
                old(self).wal.files@,
                self.wal.files@,
                (old(self).wal.sequence_number + 1) as u64,
                spec_command_bytes(command@),
            ));
            let ts = choose|ts: u64|
                FileManager::appended_frame(
                    prev_p.file_manager,
                    p.file_manager,
                    key@,
                    None,
                    ts,
                    true,
                );
            assert(FileManager::appended_frame(
                old(self).partitions@[pid as int].file_manager,
                self.partitions@[pid as int].file_manager,
                key@,
                None,
                ts,
                true,
            ));
        }
        Ok(())
    }

    /// Whether a partition has crossed the compaction threshold.
    pub fn should_compact_partition(&self, partition_id: u32) -> (r: bool)
        requires
            self.wf(),
            partition_id < self.config.partition_count,
        ensures
            r == spec_should_compact(self.partitions@[partition_id as int], self.config),
    {
        let p = &self.partitions[partition_id as usize];
        let key_count = p.metadata.key_count;
        let tombs = p.metadata.tombstone_count;
        proof {
            assert((self.config.compaction_threshold_permille as int) * (key_count as int
                + tombs as int) < 0x1_0000_0000_0000_0000_0000_0000_0000_0000) by (nonlinear_arith)
                requires
                    self.config.compaction_threshold_permille < 0x1_0000_0000,
                    0 <= ((key_count as int) + (tombs as int)) < 0x2_0000_0000_0000_0000,
            ;
        }
        let by_ratio = key_count > 0 && (tombs as u128) * 1000 > (
        self.config.compaction_threshold_permille as u128) * (key_count as u128 + tombs as u128);
        by_ratio || p.metadata.size > self.config.max_partition_size
    }

    /// Compacts one partition; every other partition, and the store's
    /// contents, stay exactly as they were. A failure aborts that
    /// partition's compaction and leaves it untouched too.
    pub fn compact_partition(&mut self, partition_id: u32) -> (r: PlexResult<()>)
        requires
            old(self).wf(),
            partition_id < old(self).config.partition_count,
        ensures
            final(self).wf(),
            final(self).config == old(self).config,
            final(self).as_map() == old(self).as_map(),
            final(self).wal == old(self).wal,
            match r {
                Ok(()) => {
                    &&& final(self).partitions@[partition_id as int].metadata.tombstone_count == 0
                    &&& final(self).partitions@[partition_id as int].metadata.key_count == final(self).partitions@[partition_id as int].index@.len()
                    &&& final(self).partitions@[partition_id as int].file_manager.segments@.len()
                        == 1
                    &&& spec_count_tombstones(
                        final(self).partitions@[partition_id as int].file_manager.items_from(0),
                    ) == 0
                    &&& spec_replay_idx(
                        final(self).partitions@[partition_id as int].file_manager.items_from(0),
                    ) == final(self).partitions@[partition_id as int].idx()
                },
                Err(e) => e is CompactionFailed && final(self).partitions@ == old(
                    self,
                ).partitions@,
            },
    {
        let mut p = self.partitions.remove(partition_id as usize);
        let ghost prev_p = p;
        let res = p.compact(self.config.bloom_filter_size, self.config.bloom_filter_fp_ppm);
        self.partitions.insert(partition_id as usize, p);
        proof {
            assert(p.as_map() == prev_p.as_map());
            let removed = old(self).partitions@.remove(partition_id as int);
            assert(self.partitions@ == removed.insert(partition_id as int, p));
            assert(self.partitions@[partition_id as int] == p);
            assert forall|i: int|
                0 <= i < old(self).partitions@.len() && i != partition_id
                    implies #[trigger] self.partitions@[i] == old(self).partitions@[i] by {
                if i < partition_id {
                    assert(self.partitions@[i] == removed[i]);
                    assert(removed[i] == old(self).partitions@[i]);
                } else {
                    assert(self.partitions@[i] == removed[i - 1]);
                    assert(removed[i - 1] == old(self).partitions@[i]);
                }
            }
            assert forall|k: Seq<char>| true implies #[trigger] self.as_map().dom().contains(k)
                == old(self).as_map().dom().contains(k) && (self.as_map().dom().contains(k)
                ==> self.as_map()[k] == old(self).as_map()[k]) by {
                let rk = spec_route(k, self.config.partition_count);
                if rk == partition_id {
                    assert(self.partitions@[rk] == p);
                    assert(p.idx().dom() =~= prev_p.idx().dom()) by {
                        assert(p.as_map().dom() =~= prev_p.as_map().dom());
                        assert forall|k2: Seq<char>| p.idx().dom().contains(k2)
                            == prev_p.idx().dom().contains(k2) by {
                            assert(p.as_map().dom().contains(k2) == p.idx().dom().contains(k2));
                            assert(prev_p.as_map().dom().contains(k2) == prev_p.idx(
                            ).dom().contains(k2));
                        }
                    }
                } else {
                    assert(self.partitions@[rk] == old(self).partitions@[rk]);
                }
            }
            assert(self.as_map() =~= old(self).as_map());
        }
        match res {
            Ok(()) => Ok(()),
            Err(e) => {
                proof {
                    assert(self.partitions@ =~= old(self).partitions@);
                }
                Err(e)
            },
        }
    }

    /// Rebuilds every partition's in-memory state by replaying its
    /// segments: last write wins, tombstones remove prior entries, corrupt
    /// records are skipped.
    pub fn load_from_disk(&mut self) -> (r: PlexResult<()>)
        requires
            old(self).wf(),
        ensures
            r is Ok,
            final(self).wf(),
            final(self).config == old(self).config,
            final(self).wal == old(self).wal,
            forall|i: int|
                0 <= i < old(self).partitions@.len() ==> (#[trigger] final(self).partitions@[i]).idx() == spec_replay_idx(
                    old(self).partitions@[i].file_manager.items_from(0),
                ),
    {
        let mut i: usize = 0;
        while i < self.partitions.len()
            invariant
                0 <= i <= self.partitions@.len(),
                self.partitions@.len() == old(self).partitions@.len(),
                self.config == old(self).config,
                self.wal == old(self).wal,
                self.partitioner == old(self).partitioner,
                old(self).wf(),
                forall|j: int|
                    i <= j < self.partitions@.len() ==> #[trigger] self.partitions@[j] == old(self).partitions@[j],
                forall|j: int|
                    0 <= j < i ==> (#[trigger] self.partitions@[j]).pinv()
                        && self.partitions@[j].id == j && self.partitions@[j].idx()
                        == spec_replay_idx(old(self).partitions@[j].file_manager.items_from(0)),
            decreases self.partitions@.len() - i,
        {
            let mut p = self.partitions.remove(i);
            let res = p.load();
            self.partitions.insert(i, p);
            match res {
                Ok(()) => {},
                Err(_) => {
                    proof {
                        assert(false);
                    }
                    return Err(PlexError::Recovery("replay failed".to_owned()));
                },
            }
            i = i + 1;
        }
        Ok(())
    }

    /// Applies one logged write without logging it again; a record too
    /// large to re-apply, or an empty key, leaves the store unchanged.
    fn apply_put(&mut self, key: &str, value: &str)
        requires
            old(self).wf(),
        ensures
            final(self).wf(),
            final(self).config == old(self).config,
            final(self).wal == old(self).wal,
            final(self).as_map() == if record_body_fits(key@, Some(value@)) {
                old(self).as_map().insert(key@, value@)
            } else {
                old(self).as_map()
            },
    {
        let pid = self.partitioner.partition_for_key(key);
        let mut p = self.partitions.remove(pid as usize);
        let ghost prev_p = p;
        let res = p.set_value(key, value);
        self.partitions.insert(pid as usize, p);
        proof {
            let removed = old(self).partitions@.remove(pid as int);
            assert(self.partitions@ == removed.insert(pid as int, p));
            assert(self.partitions@[pid as int] == p);
            assert forall|i: int|
                0 <= i < old(self).partitions@.len() && i != pid implies #[trigger] self.partitions@[i]
                    == old(self).partitions@[i] by {
                if i < pid {
                    assert(self.partitions@[i] == removed[i]);
                    assert(removed[i] == old(self).partitions@[i]);
                } else {
                    assert(self.partitions@[i] == removed[i - 1]);
                    assert(removed[i - 1] == old(self).partitions@[i]);
                }
            }
            if res is Ok {
                assert(self.partitions@[pid as int].as_map() == prev_p.as_map().insert(
                    key@,
                    value@,
                ));
                lemma_manager_insert(*old(self), *self, pid as int, key@, value@);
            } else {
                assert(p == prev_p);
                assert(self.partitions@ =~= old(self).partitions@);
                lemma_manager_same_partitions(*old(self), *self);
            }
        }
    }

    /// Applies one logged tombstone without logging it again; an absent
    /// key, or a key too large to re-apply, leaves the store unchanged.
    fn apply_delete(&mut self, key: &str)
        requires
            old(self).wf(),
        ensures
            final(self).wf(),
            final(self).config == old(self).config,
            final(self).wal == old(self).wal,
            final(self).as_map() == if record_body_fits(key@, None) {
                old(self).as_map().remove(key@)
            } else {
                old(self).as_map()
            },
    {
        let pid = self.partitioner.partition_for_key(key);
        let mut p = self.partitions.remove(pid as usize);
        let ghost prev_p = p;
        let res = p.delete_value(key);
        self.partitions.insert(pid as usize, p);
        proof {
            let removed = old(self).partitions@.remove(pid as int);
            assert(self.partitions@ == removed.insert(pid as int, p));
            assert(self.partitions@[pid as int] == p);
            assert forall|i: int|
                0 <= i < old(self).partitions@.len() && i != pid implies #[trigger] self.partitions@[i]
                    == old(self).partitions@[i] by {
                if i < pid {
                    assert(self.partitions@[i] == removed[i]);
                    assert(removed[i] == old(self).partitions@[i]);
                } else {
                    assert(self.partitions@[i] == removed[i - 1]);
                    assert(removed[i - 1] == old(self).partitions@[i]);
                }
            }
            if res is Ok {
                assert(self.partitions@[pid as int].as_map() == prev_p.as_map().remove(key@));
                lemma_manager_remove(*old(self), *self, pid as int, key@);
            } else {
                assert(p == prev_p);
                assert(self.partitions@ =~= old(self).partitions@);
                lemma_manager_same_partitions(*old(self), *self);
                if record_body_fits(key@, None) {
                    assert(!prev_p.as_map().dom().contains(key@));
                    assert(!self.as_map().dom().contains(key@)) by {
                        lemma_route_bounds(key@, self.config.partition_count);
                    }
                    assert(self.as_map() =~= self.as_map().remove(key@));
                }
            }
        }
    }

    /// Replays the write-ahead log: reads every entry whose sequence number
    /// exceeds `after` — the last one known durably reflected in partition
    /// segments — and reapplies its command to the partitions it routes to,
    /// in log order, without logging anything anew.
    pub fn replay_wal(&mut self, after: u64) -> (r: PlexResult<()>)
        requires
            old(self).wf(),
        ensures
            r is Ok,
            final(self).wf(),
            final(self).config == old(self).config,
            final(self).wal == old(self).wal,
            final(self).as_map() == spec_apply_items(
                old(self).as_map(),
                old(self).wal.replay_items_from(0, after),
            ),
    {
        let entries = self.wal.entries_after(after);
        let ghost items = old(self).wal.replay_items_from(0, after);
        let mut i: usize = 0;
        proof {
            assert(items.take(0) =~= Seq::<crate::wal::WalReplayItem>::empty());
        }
        while i < entries.len()
            invariant
                0 <= i <= entries@.len(),
                entries@.len() == items.len(),
                forall|j: int|
                    0 <= j < items.len() ==> crate::wal::wal_entry_matches(
                        #[trigger] entries@[j],
                        items[j],
                    ),
                self.wf(),
                self.config == old(self).config,
                self.wal == old(self).wal,
                items == old(self).wal.replay_items_from(0, after),
                self.as_map() == spec_apply_items(old(self).as_map(), items.take(i as int)),
            decreases entries@.len() - i,
        {
            proof {
                assert(items.take(i as int + 1).drop_last() =~= items.take(i as int));
                assert(items.take(i as int + 1).last() == items[i as int]);
            }
            match &entries[i].command {
                Command::Put { key, value } => {
                    if !key.as_str().is_empty() {
                        self.apply_put(key.as_str(), value.as_str());
                    }
                },
                Command::Delete { key } => {
                    self.apply_delete(key.as_str());
                },
                Command::Get { key } => {},
                Command::Compact => {},
            }
            i = i + 1;
        }
        proof {
            assert(items.take(i as int) =~= items);
        }
        Ok(())
    }

    /// Aggregate counters across all partitions, saturating at the counter
    /// width.
    pub fn stats(&self) -> (r: PartitionManagerStats)
        requires
            self.wf(),
        ensures
            r.partition_count == self.partitions@.len(),
            r.total_keys == if spec_total_keys(self.partitions@) <= u64::MAX {
                spec_total_keys(self.partitions@)
            } else {
                u64::MAX as int
            },
            r.total_size == if spec_total_size(self.partitions@) <= u64::MAX {
                spec_total_size(self.partitions@)
            } else {
                u64::MAX as int
            },
            r.total_tombstones == if spec_total_tombstones(self.partitions@) <= u64::MAX {
                spec_total_tombstones(self.partitions@)
            } else {
                u64::MAX as int
            },
    {
        let mut keys: u128 = 0;
        let mut size: u128 = 0;
        let mut tombs: u128 = 0;
        let mut i: usize = 0;
        while i < self.partitions.len()
            invariant
                0 <= i <= self.partitions@.len(),
                keys == spec_total_keys(self.partitions@.take(i as int)),
                size == spec_total_size(self.partitions@.take(i as int)),
                tombs == spec_total_tombstones(self.partitions@.take(i as int)),
                keys <= i * 0x1_0000_0000_0000_0000,
                size <= i * 0x1_0000_0000_0000_0000,
                tombs <= i * 0x1_0000_0000_0000_0000,
            decreases self.partitions@.len() - i,
        {
            proof {
                assert(self.partitions@.take(i as int + 1).drop_last() =~= self.partitions@.take(
                    i as int,
                ));
            }
            keys = keys + self.partitions[i].metadata.key_count as u128;
            size = size + self.partitions[i].metadata.size as u128;
            tombs = tombs + self.partitions[i].metadata.tombstone_count as u128;
            i = i + 1;
        }
        proof {
            assert(self.partitions@.take(self.partitions@.len() as int) =~= self.partitions@);
        }
        PartitionManagerStats {
            partition_count: self.partitions.len() as u32,
            total_keys: if keys <= u64::MAX as u128 {
                keys as u64
            } else {
                u64::MAX
            },
            total_size: if size <= u64::MAX as u128 {
                size as u64
            } else {
                u64::MAX
            },
            total_tombstones: if tombs <= u64::MAX as u128 {
                tombs as u64
            } else {
                u64::MAX
            },
        }
    }
}

} // verus!
