//! The offset-aligned block cache and the layered read cache above it.
//!
//! Block-cache keys are logical byte offsets rounded down to a fixed block
//! size; a data read fetches the containing aligned block and slices out
//! the requested range. The layered cache checks a fast first level, then
//! a larger second level — promoting a second-level hit into the first —
//! and writes reach the first level only: the second fills lazily on
//! promotion, which can serve a stale value from it until the first level
//! evicts; this cache sits above, never instead of, the durable path.

use vstd::prelude::*;
use vstd::slice::slice_to_vec;

use crate::cache::CacheStats;
use crate::lru_cache::{spec_find_key, spec_has_key, LruCache};

verus! {

/// A fixed-size-aligned byte range of a segment.
pub struct Block {
    pub data: Vec<u8>,
    pub offset: u64,
    pub size: usize,
    pub checksum: u32,
}

impl Clone for Block {
    /// A clone carries exactly the same bytes and fields.
    fn clone(&self) -> (r: Block)
        ensures
            r.data@ == self.data@,
            r.offset == self.offset,
            r.size == self.size,
            r.checksum == self.checksum,
    {
        Block {
            data: slice_to_vec(self.data.as_slice()),
            offset: self.offset,
            size: self.size,
            checksum: self.checksum,
        }
    }
}

/// Whether two blocks carry the same bytes and fields.
pub open spec fn block_eq(a: Block, b: Block) -> bool {
    a.data@ == b.data@ && a.offset == b.offset && a.size == b.size && a.checksum == b.checksum
}

/// The position of the first entry keyed `k`, or -1.
pub open spec fn blk_find_key(s: Seq<(u64, Block)>, k: u64) -> int
    decreases s.len(),
{
    if s.len() == 0 {
        -1
    } else if s[0].0 == k {
        0
    } else {
        let r = blk_find_key(s.drop_first(), k);
        if r == -1 {
            -1
        } else {
            r + 1
        }
    }
}

/// Whether some entry is keyed `k`.
pub open spec fn blk_has_key(s: Seq<(u64, Block)>, k: u64) -> bool {
    exists|i: int| 0 <= i < s.len() && (#[trigger] s[i]).0 == k
}

/// `blk_find_key` finds the entry exactly when one exists.
pub proof fn lemma_blk_find_key(s: Seq<(u64, Block)>, k: u64)
    ensures
        blk_has_key(s, k) <==> 0 <= blk_find_key(s, k) < s.len(),
        !blk_has_key(s, k) <==> blk_find_key(s, k) == -1,
        0 <= blk_find_key(s, k) ==> s[blk_find_key(s, k)].0 == k && (forall|j: int|
            0 <= j < blk_find_key(s, k) ==> (#[trigger] s[j]).0 != k),
    decreases s.len(),
{
    if s.len() == 0 {
    } else if s[0].0 == k {
    } else {
        lemma_blk_find_key(s.drop_first(), k);
        assert forall|i: int| 0 <= i < s.len() && (#[trigger] s[i]).0 == k implies
            0 <= blk_find_key(s, k) < s.len() by {
            assert(i != 0);
            assert(s.drop_first()[i - 1] == s[i]);
        }
        if blk_has_key(s.drop_first(), k) {
            let r = blk_find_key(s.drop_first(), k);
            assert(s[r + 1] == s.drop_first()[r]);
        }
        if blk_find_key(s, k) >= 0 {
            let f = blk_find_key(s, k);
            assert forall|j: int| 0 <= j < f implies (#[trigger] s[j]).0 != k by {
                if j > 0 {
                    assert(s[j] == s.drop_first()[j - 1]);
                }
            }
        }
    }
}

/// An LRU cache of blocks keyed by their aligned offsets.
pub struct BlockLru {
    pub entries: Vec<(u64, Block)>,
    pub capacity: usize,
}

impl BlockLru {
    /// Well-formed: keys unique, never more entries than the capacity.
    pub open spec fn wf(self) -> bool {
        &&& self.capacity >= 1
        &&& self.entries@.len() <= self.capacity
        &&& forall|i: int, j: int|
            0 <= i < j < self.entries@.len() ==> (#[trigger] self.entries@[i]).0 != (
            #[trigger] self.entries@[j]).0
    }

    /// An empty cache; a capacity of zero is rounded up to one.
    pub fn new(capacity: usize) -> (r: BlockLru)
        ensures
            r.wf(),
            r.entries@.len() == 0,
    {
        BlockLru {
            entries: Vec::new(),
            capacity: if capacity >= 1 {
                capacity
            } else {
                1
            },
        }
    }

    /// The position of a key's entry, if present.
    fn find(&self, key: u64) -> (r: Option<usize>)
        ensures
            match r {
                Some(i) => i < self.entries@.len() && self.entries@[i as int].0 == key && i
                    == blk_find_key(self.entries@, key),
                None => !blk_has_key(self.entries@, key),
            },
    {
        let mut i: usize = 0;
        while i < self.entries.len()
            invariant
                0 <= i <= self.entries@.len(),
                forall|j: int| 0 <= j < i ==> (#[trigger] self.entries@[j]).0 != key,
            decreases self.entries@.len() - i,
        {
            if self.entries[i].0 == key {
                proof {
                    lemma_blk_find_key(self.entries@, key);
                    let f = blk_find_key(self.entries@, key);
                    if f < i as int {
                        assert(self.entries@[f].0 != key);
                    }
                    if f > i as int {
                        assert(self.entries@[i as int].0 != key);
                    }
                }
                return Some(i);
            }
            i = i + 1;
        }
        None
    }

    /// Looks an aligned offset up: a hit hands back a copy of its block
    /// and promotes the entry.
    pub fn get(&mut self, key: u64) -> (r: Option<Block>)
        requires
            old(self).wf(),
        ensures
            final(self).wf(),
            final(self).capacity == old(self).capacity,
            final(self).entries@.len() == old(self).entries@.len(),
            match r {
                Some(b) => {
                    let pos = blk_find_key(old(self).entries@, key);
                    &&& blk_has_key(old(self).entries@, key)
                    &&& block_eq(b, old(self).entries@[pos].1)
                    &&& final(self).entries@ == seq![old(self).entries@[pos]] + old(self).entries@.remove(pos)
                },
                None => !blk_has_key(old(self).entries@, key) && final(self).entries@ == old(self).entries@,
            },
    {
        match self.find(key) {
            Some(i) => {
                let entry = self.entries.remove(i);
                let block = entry.1.clone();
                let ghost old_entries = old(self).entries@;
                self.entries.insert(0, entry);
                proof {
                    assert(final(self).entries@ =~= seq![old_entries[i as int]]
                        + old_entries.remove(i as int));
                    assert forall|a: int, b: int|
                        0 <= a < b < final(self).entries@.len() implies (#[trigger] final(self).entries@[a]).0 != (#[trigger] final(self).entries@[b]).0 by {
                        lemma_blk_find_key(old_entries, key);
                    }
                }
                Some(block)
            },
            None => None,
        }
    }

    /// Writes a block under its aligned offset: an existing key is
    /// replaced and promoted; a new key lands at the front, evicting the
    /// least recently used block when the cache was full.
    pub fn set(&mut self, key: u64, block: Block)
        requires
            old(self).wf(),
        ensures
            final(self).wf(),
            final(self).capacity == old(self).capacity,
            final(self).entries@.len() >= 1,
            final(self).entries@[0].0 == key && final(self).entries@[0].1 == block,
            blk_has_key(old(self).entries@, key) ==> final(self).entries@.drop_first() == old(self).entries@.remove(blk_find_key(old(self).entries@, key)),
            !blk_has_key(old(self).entries@, key) && old(self).entries@.len() < old(self).capacity ==> final(self).entries@.drop_first() == old(self).entries@,
            !blk_has_key(old(self).entries@, key) && old(self).entries@.len() == old(self).capacity ==> final(self).entries@.drop_first() == old(self).entries@.drop_last(),
    {
        let pair = (key, block);
        match self.find(key) {
            Some(i) => {
                let ghost old_entries = old(self).entries@;
                let _ = self.entries.remove(i);
                self.entries.insert(0, pair);
                proof {
                    assert(final(self).entries@.drop_first() =~= old_entries.remove(i as int));
                    assert forall|a: int, b: int|
                        0 <= a < b < final(self).entries@.len() implies (#[trigger] final(self).entries@[a]).0 != (#[trigger] final(self).entries@[b]).0 by {
                        lemma_blk_find_key(old_entries, key);
                    }
                }
            },
            None => {
                let ghost old_entries = old(self).entries@;
                if self.entries.len() == self.capacity {
                    let _ = self.entries.pop();
                    self.entries.insert(0, pair);
                    proof {
                        assert(final(self).entries@.drop_first() =~= old_entries.drop_last());
                        lemma_blk_find_key(old_entries, key);
                        assert forall|a: int, b: int|
                            0 <= a < b < final(self).entries@.len() implies (#[trigger] final(self).entries@[a]).0 != (#[trigger] final(self).entries@[b]).0 by {
                            assert(old_entries.drop_last()[b - 1] == old_entries[b - 1]);
                        }
                    }
                } else {
                    self.entries.insert(0, pair);
                    proof {
                        assert(final(self).entries@.drop_first() =~= old_entries);
                        lemma_blk_find_key(old_entries, key);
                    }
                }
            },
        }
    }
}

/// The block offset a logical offset falls in.
pub open spec fn spec_align(offset: u64, block_size: u64) -> u64
    recommends
        block_size >= 1,
{
    ((offset as int / block_size as int) * block_size as int) as u64
}

/// A cache of fixed-size-aligned blocks in front of segment reads.
pub struct BlockCache {
    pub cache: BlockLru,
    pub block_size: usize,
}

impl BlockCache {
    /// Wraps a block store with an alignment; a block size of zero is
    /// rounded up to one.
    pub fn new(cache: BlockLru, block_size: usize) -> (r: BlockCache)
        ensures
            r.cache == cache,
            r.block_size == if block_size >= 1 {
                block_size as int
            } else {
                1
            },
            r.block_size >= 1,
    {
        BlockCache {
            cache,
            block_size: if block_size >= 1 {
                block_size
            } else {
                1
            },
        }
    }

    /// Rounds an offset down to its containing block.
    pub fn align_to_block(&self, offset: u64) -> (r: u64)
        requires
            self.block_size >= 1,
        ensures
            r == spec_align(offset, self.block_size as u64),
            r <= offset,
            offset - r < self.block_size,
    {
        let bs = self.block_size as u64;
        proof {
            vstd::arithmetic::div_mod::lemma_fundamental_div_mod(offset as int, bs as int);
            vstd::arithmetic::div_mod::lemma_mod_bound(offset as int, bs as int);
            vstd::arithmetic::mul::lemma_mul_is_commutative(
                bs as int,
                offset as int / bs as int,
            );
            assert((offset as int / bs as int) * bs as int <= offset);
        }
        (offset / bs) * bs
    }

    /// The block containing an offset, if cached; a hit promotes it.
    pub fn get_block(&mut self, offset: u64) -> (r: Option<Block>)
        requires
            old(self).cache.wf(),
            old(self).block_size >= 1,
        ensures
            final(self).cache.wf(),
            final(self).block_size == old(self).block_size,
            final(self).cache.capacity == old(self).cache.capacity,
            final(self).cache.entries@.len() == old(self).cache.entries@.len(),
            match r {
                Some(b) => {
                    let k = spec_align(offset, old(self).block_size as u64);
                    let pos = blk_find_key(old(self).cache.entries@, k);
                    &&& blk_has_key(old(self).cache.entries@, k)
                    &&& block_eq(b, old(self).cache.entries@[pos].1)
                    &&& final(self).cache.entries@ == seq![old(self).cache.entries@[pos]] + old(self).cache.entries@.remove(pos)
                },
                None => !blk_has_key(
                    old(self).cache.entries@,
                    spec_align(offset, old(self).block_size as u64),
                ) && final(self).cache.entries@ == old(self).cache.entries@,
            },
    {
        let aligned = self.align_to_block(offset);
        self.cache.get(aligned)
    }

    /// Caches a block under its aligned offset.
    pub fn set_block(&mut self, block: Block)
        requires
            old(self).cache.wf(),
            old(self).block_size >= 1,
        ensures
            final(self).cache.wf(),
            final(self).block_size == old(self).block_size,
            final(self).cache.capacity == old(self).cache.capacity,
            final(self).cache.entries@.len() >= 1,
            final(self).cache.entries@[0].0 == spec_align(
                block.offset,
                old(self).block_size as u64,
            ),
            final(self).cache.entries@[0].1 == block,
            ({
                let k = spec_align(block.offset, old(self).block_size as u64);
                &&& blk_has_key(old(self).cache.entries@, k) ==> final(self).cache.entries@.drop_first() == old(self).cache.entries@.remove(
                    blk_find_key(old(self).cache.entries@, k),
                )
                &&& !blk_has_key(old(self).cache.entries@, k) && old(self).cache.entries@.len()
                    < old(self).cache.capacity ==> final(self).cache.entries@.drop_first() == old(self).cache.entries@
                &&& !blk_has_key(old(self).cache.entries@, k) && old(self).cache.entries@.len()
                    == old(self).cache.capacity ==> final(self).cache.entries@.drop_first() == old(self).cache.entries@.drop_last()
            }),
    {
        let aligned = self.align_to_block(block.offset);
        self.cache.set(aligned, block);
    }

    /// Fetches the containing aligned block and slices out the requested
    /// byte range, absent when no block is cached or the range exceeds the
    /// cached block's recorded length.
    pub fn get_data(&mut self, offset: u64, size: usize) -> (r: Option<Vec<u8>>)
        requires
            old(self).cache.wf(),
            old(self).block_size >= 1,
        ensures
            final(self).cache.wf(),
            final(self).block_size == old(self).block_size,
            final(self).cache.capacity == old(self).cache.capacity,
            final(self).cache.entries@.len() == old(self).cache.entries@.len(),
            final(self).cache.entries@ == old(self).cache.entries@ || (blk_has_key(
                old(self).cache.entries@,
                spec_align(offset, old(self).block_size as u64),
            ) && final(self).cache.entries@ == seq![
                old(self).cache.entries@[blk_find_key(
                    old(self).cache.entries@,
                    spec_align(offset, old(self).block_size as u64),
                )],
            ] + old(self).cache.entries@.remove(
                blk_find_key(
                    old(self).cache.entries@,
                    spec_align(offset, old(self).block_size as u64),
                ),
            )),
            match r {
                Some(v) => {
                    let k = spec_align(offset, old(self).block_size as u64);
                    let b = old(self).cache.entries@[blk_find_key(old(self).cache.entries@, k)].1;
                    let start = offset - k;
                    &&& blk_has_key(old(self).cache.entries@, k)
                    &&& start + size <= b.data@.len()
                    &&& v@ == b.data@.subrange(start as int, start + size)
                },
                None => {
                    let k = spec_align(offset, old(self).block_size as u64);
                    !blk_has_key(old(self).cache.entries@, k) || offset - k + size > old(
                        self,
                    ).cache.entries@[blk_find_key(old(self).cache.entries@, k)].1.data@.len()
                },
            },
    {
        let aligned = self.align_to_block(offset);
        let block = match self.cache.get(aligned) {
            Some(b) => b,
            None => {
                return None;
            },
        };
        let start = (offset - aligned) as usize;
        if start > block.data.len() || block.data.len() - start < size {
            return None;
        }
        let out = slice_to_vec(
            vstd::slice::slice_subrange(block.data.as_slice(), start, start + size),
        );
        Some(out)
    }
}

/// Two cache levels composed: reads check the fast first level, then the
/// second, promoting a second-level hit; writes go to the first level
/// only. An optional block cache rides along for aligned reads.
pub struct CacheLayer {
    pub l1_cache: LruCache,
    pub l2_cache: LruCache,
    pub l3_cache: Option<BlockCache>,
}

impl CacheLayer {
    /// Composes the levels.
    pub fn new(l1_cache: LruCache, l2_cache: LruCache, l3_cache: Option<BlockCache>) -> (r:
        CacheLayer)
        ensures
            r.l1_cache == l1_cache,
            r.l2_cache == l2_cache,
            r.l3_cache == l3_cache,
    {
        CacheLayer { l1_cache, l2_cache, l3_cache }
    }

    /// Reads a key: the first level, then the second; a second-level hit
    /// is promoted into the first.
    pub fn get(&mut self, key: &str) -> (r: Option<String>)
        requires
            old(self).l1_cache.wf(),
            old(self).l2_cache.wf(),
        ensures
            final(self).l1_cache.wf(),
            final(self).l2_cache.wf(),
            final(self).l3_cache == old(self).l3_cache,
            final(self).l1_cache.capacity == old(self).l1_cache.capacity,
            final(self).l2_cache.capacity == old(self).l2_cache.capacity,
            match r {
                Some(v) => {
                    ||| {
                        let pos = spec_find_key(old(self).l1_cache.entries@, key@);
                        &&& spec_has_key(old(self).l1_cache.entries@, key@)
                        &&& v@ == old(self).l1_cache.entries@[pos].1@
                        &&& final(self).l1_cache.entries@ == seq![
                            old(self).l1_cache.entries@[pos],
                        ] + old(self).l1_cache.entries@.remove(pos)
                        &&& final(self).l1_cache.entries@[0].0@ == key@
                        &&& final(self).l1_cache.hits == old(self).l1_cache.hits + if old(self).l1_cache.hits < u64::MAX {
                            1int
                        } else {
                            0int
                        }
                        &&& final(self).l1_cache.misses == old(self).l1_cache.misses
                        &&& final(self).l2_cache == old(self).l2_cache
                    }
                    ||| {
                        let pos = spec_find_key(old(self).l2_cache.entries@, key@);
                        &&& !spec_has_key(old(self).l1_cache.entries@, key@)
                        &&& spec_has_key(old(self).l2_cache.entries@, key@)
                        &&& v@ == old(self).l2_cache.entries@[pos].1@
                        &&& final(self).l2_cache.entries@ == seq![
                            old(self).l2_cache.entries@[pos],
                        ] + old(self).l2_cache.entries@.remove(pos)
                        &&& final(self).l1_cache.entries@.len() >= 1
                        &&& final(self).l1_cache.entries@[0].0@ == key@
                        &&& final(self).l1_cache.entries@[0].1@ == v@
                        &&& final(self).l1_cache.entries@.drop_first() == if old(self).l1_cache.entries@.len() < old(self).l1_cache.capacity {
                            old(self).l1_cache.entries@
                        } else {
                            old(self).l1_cache.entries@.drop_last()
                        }
                        &&& final(self).l1_cache.misses == old(self).l1_cache.misses + if old(self).l1_cache.misses < u64::MAX {
                            1int
                        } else {
                            0int
                        }
                    }
                },
                None => {
                    &&& !spec_has_key(old(self).l1_cache.entries@, key@)
                    &&& !spec_has_key(old(self).l2_cache.entries@, key@)
                    &&& final(self).l1_cache.entries@ == old(self).l1_cache.entries@
                    &&& final(self).l2_cache.entries@ == old(self).l2_cache.entries@
                },
            },
    {
        match self.l1_cache.get(key) {
            Some(v) => {
                return Some(v);
            },
            None => {},
        }
        match self.l2_cache.get(key) {
            Some(v) => {
                self.l1_cache.set(key, v.as_str());
                proof {
                    assert(final(self).l1_cache.entries@[0].0@ == key@);
                    assert(spec_has_key(final(self).l1_cache.entries@, key@));
                }
                Some(v)
            },
            None => None,
        }
    }

    /// Writes a key to the first level only; the second fills lazily on
    /// promotion.
    pub fn set(&mut self, key: &str, value: &str)
        requires
            old(self).l1_cache.wf(),
            old(self).l2_cache.wf(),
        ensures
            final(self).l1_cache.wf(),
            final(self).l2_cache == old(self).l2_cache,
            final(self).l3_cache == old(self).l3_cache,
            final(self).l1_cache.capacity == old(self).l1_cache.capacity,
            final(self).l1_cache.hits == old(self).l1_cache.hits,
            final(self).l1_cache.misses == old(self).l1_cache.misses,
            final(self).l1_cache.entries@.len() >= 1,
            final(self).l1_cache.entries@[0].0@ == key@,
            final(self).l1_cache.entries@[0].1@ == value@,
            spec_has_key(old(self).l1_cache.entries@, key@) ==> {
                &&& final(self).l1_cache.entries@.drop_first() == old(self).l1_cache.entries@.remove(
                    spec_find_key(old(self).l1_cache.entries@, key@),
                )
                &&& final(self).l1_cache.entries@.len() == old(self).l1_cache.entries@.len()
                &&& final(self).l1_cache.evictions == old(self).l1_cache.evictions
            },
            !spec_has_key(old(self).l1_cache.entries@, key@) && old(self).l1_cache.entries@.len()
                < old(self).l1_cache.capacity ==> {
                &&& final(self).l1_cache.entries@.drop_first() == old(self).l1_cache.entries@
                &&& final(self).l1_cache.entries@.len() == old(self).l1_cache.entries@.len() + 1
                &&& final(self).l1_cache.evictions == old(self).l1_cache.evictions
            },
            !spec_has_key(old(self).l1_cache.entries@, key@) && old(self).l1_cache.entries@.len()
                == old(self).l1_cache.capacity ==> {
                &&& final(self).l1_cache.entries@.drop_first() == old(self).l1_cache.entries@.drop_last()
                &&& final(self).l1_cache.entries@.len() == old(self).l1_cache.entries@.len()
                &&& final(self).l1_cache.evictions == old(self).l1_cache.evictions + if old(self).l1_cache.evictions < u64::MAX {
                    1int
                } else {
                    0int
                }
                &&& !spec_has_key(
                    final(self).l1_cache.entries@,
                    old(self).l1_cache.entries@.last().0@,
                )
            },
    {
        self.l1_cache.set(key, value);
    }

    /// Drops a key from both levels, handing back whichever value the
    /// first level held, else the second's.
    pub fn remove(&mut self, key: &str) -> (r: Option<String>)
        requires
            old(self).l1_cache.wf(),
            old(self).l2_cache.wf(),
        ensures
            final(self).l1_cache.wf(),
            final(self).l2_cache.wf(),
            final(self).l3_cache == old(self).l3_cache,
            !spec_has_key(final(self).l1_cache.entries@, key@),
            !spec_has_key(final(self).l2_cache.entries@, key@),
            final(self).l1_cache.entries@ == if spec_has_key(old(self).l1_cache.entries@, key@) {
                old(self).l1_cache.entries@.remove(spec_find_key(old(self).l1_cache.entries@, key@))
            } else {
                old(self).l1_cache.entries@
            },
            final(self).l2_cache.entries@ == if spec_has_key(old(self).l2_cache.entries@, key@) {
                old(self).l2_cache.entries@.remove(spec_find_key(old(self).l2_cache.entries@, key@))
            } else {
                old(self).l2_cache.entries@
            },
            match r {
                Some(v) => (spec_has_key(old(self).l1_cache.entries@, key@) || spec_has_key(
                    old(self).l2_cache.entries@,
                    key@,
                )) && v@ == if spec_has_key(old(self).l1_cache.entries@, key@) {
                    old(self).l1_cache.entries@[spec_find_key(
                        old(self).l1_cache.entries@,
                        key@,
                    )].1@
                } else {
                    old(self).l2_cache.entries@[spec_find_key(
                        old(self).l2_cache.entries@,
                        key@,
                    )].1@
                },
                None => !spec_has_key(old(self).l1_cache.entries@, key@) && !spec_has_key(
                    old(self).l2_cache.entries@,
                    key@,
                ),
            },
    {
        let l1_result = self.l1_cache.remove(key);
        let l2_result = self.l2_cache.remove(key);
        proof {
            crate::lru_cache::lemma_find_key(old(self).l1_cache.entries@, key@);
            crate::lru_cache::lemma_find_key(old(self).l2_cache.entries@, key@);
            lemma_removed_key_absent(old(self).l1_cache.entries@, final(self).l1_cache.entries@, key@);
            lemma_removed_key_absent(old(self).l2_cache.entries@, final(self).l2_cache.entries@, key@);
        }
        match l1_result {
            Some(v) => Some(v),
            None => l2_result,
        }
    }

    /// Drops every entry of both levels.
    pub fn clear(&mut self)
        requires
            old(self).l1_cache.wf(),
            old(self).l2_cache.wf(),
        ensures
            final(self).l1_cache.wf(),
            final(self).l2_cache.wf(),
            final(self).l1_cache.entries@.len() == 0,
            final(self).l2_cache.entries@.len() == 0,
            final(self).l3_cache == old(self).l3_cache,
    {
        self.l1_cache.clear();
        self.l2_cache.clear();
    }

    /// Counter snapshots of both levels.
    pub fn stats(&self) -> (r: (CacheStats, CacheStats))
        ensures
            r.0.size == self.l1_cache.entries@.len(),
            r.0.capacity == self.l1_cache.capacity,
            r.0.hits == self.l1_cache.hits,
            r.1.size == self.l2_cache.entries@.len(),
            r.1.capacity == self.l2_cache.capacity,
            r.1.hits == self.l2_cache.hits,
    {
        (self.l1_cache.stats(), self.l2_cache.stats())
    }
}

/// Removing a key from a duplicate-free list leaves no entry for it.
proof fn lemma_removed_key_absent(
    olds: Seq<(String, String)>,
    news: Seq<(String, String)>,
    k: Seq<char>,
)
    requires
        forall|i: int, j: int|
            0 <= i < j < olds.len() ==> (#[trigger] olds[i]).0@ != (#[trigger] olds[j]).0@,
        news == olds || (spec_has_key(olds, k) && news == olds.remove(spec_find_key(olds, k))
            && !spec_has_key(olds, k) == false),
        news == olds ==> !spec_has_key(olds, k),
    ensures
        !spec_has_key(news, k),
{
    crate::lru_cache::lemma_find_key(olds, k);
    if news == olds {
    } else {
        let p = spec_find_key(olds, k);
        assert forall|i: int| 0 <= i < news.len() implies (#[trigger] news[i]).0@ != k by {
            if i < p {
                assert(news[i] == olds[i]);
                assert(olds[i].0@ != k);
            } else {
                assert(news[i] == olds[i + 1]);
                if olds[i + 1].0@ == k {
                    assert(p < i + 1);
                    assert(olds[p].0@ != olds[i + 1].0@);
                }
            }
        }
    }
}

} // verus!
