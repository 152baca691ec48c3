//! The exact-key LRU cache: a recency-ordered list paired with counters.
//!
//! Entries sit in most-recently-used-first order: a hit moves its entry to
//! the front, an insert lands at the front, and when the cache grows past
//! its capacity the entry at the back — the least recently used — is the
//! one evicted. Those ordering facts are the contracts of `get` and `set`.

use vstd::prelude::*;

use crate::cache::CacheStats;

verus! {

/// The position of the first entry holding `k`, or -1.
pub open spec fn spec_find_key(s: Seq<(String, String)>, k: Seq<char>) -> int
    decreases s.len(),
{
    if s.len() == 0 {
        -1
    } else if s[0].0@ == k {
        0
    } else {
        let r = spec_find_key(s.drop_first(), k);
        if r == -1 {
            -1
        } else {
            r + 1
        }
    }
}

/// Whether some entry holds `k`.
pub open spec fn spec_has_key(s: Seq<(String, String)>, k: Seq<char>) -> bool {
    exists|i: int| 0 <= i < s.len() && (#[trigger] s[i]).0@ == k
}

/// `spec_find_key` finds the entry exactly when one exists.
pub proof fn lemma_find_key(s: Seq<(String, String)>, k: Seq<char>)
    ensures
        spec_has_key(s, k) <==> 0 <= spec_find_key(s, k) < s.len(),
        !spec_has_key(s, k) <==> spec_find_key(s, k) == -1,
        0 <= spec_find_key(s, k) ==> s[spec_find_key(s, k)].0@ == k && (forall|j: int|
            0 <= j < spec_find_key(s, k) ==> (#[trigger] s[j]).0@ != k),
    decreases s.len(),
{
    if s.len() == 0 {
    } else if s[0].0@ == k {
    } else {
        lemma_find_key(s.drop_first(), k);
        assert forall|i: int| 0 <= i < s.len() && (#[trigger] s[i]).0@ == k implies
            0 <= spec_find_key(s, k) < s.len() by {
            assert(i != 0);
            assert(s.drop_first()[i - 1] == s[i]);
        }
        if spec_has_key(s.drop_first(), k) {
            let r = spec_find_key(s.drop_first(), k);
            assert(s[r + 1] == s.drop_first()[r]);
            assert(forall|j: int|
                1 <= j < r + 1 ==> (#[trigger] s[j]).0@ == s.drop_first()[j - 1].0@);
        }
    }
}

/// An exact-key LRU cache from keys to values, most recently used first.
pub struct LruCache {
    pub entries: Vec<(String, String)>,
    pub capacity: usize,
    pub hits: u64,
    pub misses: u64,
    pub evictions: u64,
}

/// A counter that sticks at its maximum rather than wrapping.
fn saturating_inc(x: u64) -> (r: u64)
    ensures
        r == if x < u64::MAX {
            x + 1
        } else {
            u64::MAX as int
        },
{
    if x < u64::MAX {
        x + 1
    } else {
        u64::MAX
    }
}

impl LruCache {
    /// Well-formed: keys unique, never more entries than the capacity
    /// allows.
    pub open spec fn wf(self) -> bool {
        &&& self.capacity >= 1
        &&& self.entries@.len() <= self.capacity
        &&& forall|i: int, j: int|
            0 <= i < j < self.entries@.len() ==> (#[trigger] self.entries@[i]).0@ != (
            #[trigger] self.entries@[j]).0@
    }

    /// An empty cache with the given capacity; a capacity of zero is
    /// rounded up to one.
    pub fn new(capacity: usize) -> (r: LruCache)
        ensures
            r.wf(),
            r.capacity == if capacity >= 1 {
                capacity as int
            } else {
                1
            },
            r.entries@.len() == 0,
            r.hits == 0 && r.misses == 0 && r.evictions == 0,
    {
        LruCache {
            entries: Vec::new(),
            capacity: if capacity >= 1 {
                capacity
            } else {
                1
            },
            hits: 0,
            misses: 0,
            evictions: 0,
        }
    }

    /// The position of a key's entry, if present.
    fn find(&self, key: &str) -> (r: Option<usize>)
        ensures
            match r {
                Some(i) => i < self.entries@.len() && self.entries@[i as int].0@ == key@ && i
                    == spec_find_key(self.entries@, key@),
                None => !spec_has_key(self.entries@, key@),
            },
    {
        let key_owned = key.to_owned();
        let mut i: usize = 0;
        while i < self.entries.len()
            invariant
                key_owned@ == key@,
                0 <= i <= self.entries@.len(),
                forall|j: int| 0 <= j < i ==> (#[trigger] self.entries@[j]).0@ != key@,
            decreases self.entries@.len() - i,
        {
            if self.entries[i].0 == key_owned {
                proof {
                    lemma_find_key(self.entries@, key@);
                }
                return Some(i);
            }
            i = i + 1;
        }
        None
    }

    /// Looks a key up: a hit hands back its value and promotes the entry
    /// to the front, so it is the last candidate for eviction; a miss
    /// changes nothing but the miss counter.
    pub fn get(&mut self, key: &str) -> (r: Option<String>)
        requires
            old(self).wf(),
        ensures
            final(self).wf(),
            final(self).capacity == old(self).capacity,
            final(self).evictions == old(self).evictions,
            final(self).entries@.len() == old(self).entries@.len(),
            match r {
                Some(v) => {
                    let pos = spec_find_key(old(self).entries@, key@);
                    &&& spec_has_key(old(self).entries@, key@)
                    &&& v@ == old(self).entries@[pos].1@
                    &&& final(self).entries@ == seq![old(self).entries@[pos]] + old(self).entries@.remove(pos)
                    &&& final(self).entries@[0].0@ == key@
                    &&& final(self).hits == old(self).hits + if old(self).hits < u64::MAX {
                        1int
                    } else {
                        0int
                    }
                    &&& final(self).misses == old(self).misses
                },
                None => {
                    &&& !spec_has_key(old(self).entries@, key@)
                    &&& final(self).entries@ == old(self).entries@
                    &&& final(self).hits == old(self).hits
                    &&& final(self).misses == old(self).misses + if old(self).misses
                        < u64::MAX {
                        1int
                    } else {
                        0int
                    }
                },
            },
    {
        match self.find(key) {
            Some(i) => {
                let entry = self.entries.remove(i);
                let value = entry.1.clone();
                let ghost old_entries = old(self).entries@;
                self.entries.insert(0, entry);
                self.hits = saturating_inc(self.hits);
                proof {
                    assert(final(self).entries@ =~= seq![old_entries[i as int]]
                        + old_entries.remove(i as int));
                    assert forall|a: int, b: int|
                        0 <= a < b < final(self).entries@.len() implies (#[trigger] final(self).entries@[a]).0@ != (#[trigger] final(self).entries@[b]).0@ by {
                        lemma_find_key(old_entries, key@);
                    }
                }
                Some(value)
            },
            None => {
                self.misses = saturating_inc(self.misses);
                None
            },
        }
    }

    /// Writes a key: an existing key gets the new value and moves to the
    /// front; a new key lands at the front, and if the cache was full the
    /// entry at the back — the least recently used — is evicted, exactly
    /// that one, and counted.
    pub fn set(&mut self, key: &str, value: &str)
        requires
            old(self).wf(),
        ensures
            final(self).wf(),
            final(self).capacity == old(self).capacity,
            final(self).hits == old(self).hits,
            final(self).misses == old(self).misses,
            final(self).entries@.len() >= 1,
            final(self).entries@[0].0@ == key@ && final(self).entries@[0].1@ == value@,
            spec_has_key(old(self).entries@, key@) ==> {
                let pos = spec_find_key(old(self).entries@, key@);
                &&& final(self).entries@.drop_first() == old(self).entries@.remove(pos)
                &&& final(self).entries@.len() == old(self).entries@.len()
                &&& final(self).evictions == old(self).evictions
            },
            !spec_has_key(old(self).entries@, key@) && old(self).entries@.len() < old(self).capacity ==> {
                &&& final(self).entries@.drop_first() == old(self).entries@
                &&& final(self).entries@.len() == old(self).entries@.len() + 1
                &&& final(self).evictions == old(self).evictions
            },
            !spec_has_key(old(self).entries@, key@) && old(self).entries@.len() == old(self).capacity ==> {
                &&& final(self).entries@.drop_first() == old(self).entries@.drop_last()
                &&& final(self).entries@.len() == old(self).entries@.len()
                &&& final(self).evictions == old(self).evictions + if old(self).evictions
                    < u64::MAX {
                    1int
                } else {
                    0int
                }
                &&& !spec_has_key(final(self).entries@, old(self).entries@.last().0@)
            },
    {
        let pair = (key.to_owned(), value.to_owned());
        match self.find(key) {
            Some(i) => {
                let ghost old_entries = old(self).entries@;
                let _ = self.entries.remove(i);
                self.entries.insert(0, pair);
                proof {
                    assert(final(self).entries@.drop_first() =~= old_entries.remove(i as int));
                    assert forall|a: int, b: int|
                        0 <= a < b < final(self).entries@.len() implies (#[trigger] final(self).entries@[a]).0@ != (#[trigger] final(self).entries@[b]).0@ by {
                        lemma_find_key(old_entries, key@);
                    }
                }
            },
            None => {
                let ghost old_entries = old(self).entries@;
                if self.entries.len() == self.capacity {
                    let victim = self.entries.pop();
                    self.evictions = saturating_inc(self.evictions);
                    self.entries.insert(0, pair);
                    proof {
                        assert(final(self).entries@.drop_first() =~= old_entries.drop_last());
                        lemma_find_key(old_entries, key@);
                        assert forall|a: int, b: int|
                            0 <= a < b < final(self).entries@.len() implies (#[trigger] final(self).entries@[a]).0@ != (#[trigger] final(self).entries@[b]).0@ by {
                            assert(old_entries.drop_last()[b - 1] == old_entries[b - 1]);
                        }
                        assert forall|i: int|
                            0 <= i < final(self).entries@.len() implies (#[trigger] final(
                        self).entries@[i]).0@ != old_entries.last().0@ by {
                            if i > 0 {
                                assert(final(self).entries@[i] == old_entries[i - 1]);
                            }
                        }
                    }
                } else {
                    self.entries.insert(0, pair);
                    proof {
                        assert(final(self).entries@.drop_first() =~= old_entries);
                        lemma_find_key(old_entries, key@);
                    }
                }
            },
        }
    }

    /// Removes a key's entry, handing back its value.
    pub fn remove(&mut self, key: &str) -> (r: Option<String>)
        requires
            old(self).wf(),
        ensures
            final(self).wf(),
            final(self).capacity == old(self).capacity,
            final(self).hits == old(self).hits,
            final(self).misses == old(self).misses,
            final(self).evictions == old(self).evictions,
            match r {
                Some(v) => {
                    let pos = spec_find_key(old(self).entries@, key@);
                    &&& spec_has_key(old(self).entries@, key@)
                    &&& v@ == old(self).entries@[pos].1@
                    &&& final(self).entries@ == old(self).entries@.remove(pos)
                },
                None => !spec_has_key(old(self).entries@, key@) && final(self).entries@ == old(self).entries@,
            },
    {
        match self.find(key) {
            Some(i) => {
                let entry = self.entries.remove(i);
                Some(entry.1)
            },
            None => None,
        }
    }

    /// Unlinks every entry.
    pub fn clear(&mut self)
        requires
            old(self).wf(),
        ensures
            final(self).wf(),
            final(self).capacity == old(self).capacity,
            final(self).entries@.len() == 0,
    {
        self.entries = Vec::new();
    }

    /// The number of live entries.
    pub fn size(&self) -> (r: usize)
        ensures
            r == self.entries@.len(),
    {
        self.entries.len()
    }

    /// The configured capacity.
    pub fn capacity(&self) -> (r: usize)
        ensures
            r == self.capacity,
    {
        self.capacity
    }

    /// The hit, miss and eviction counters beside the current size.
    pub fn stats(&self) -> (r: CacheStats)
        ensures
            r.hits == self.hits,
            r.misses == self.misses,
            r.evictions == self.evictions,
            r.size == self.entries@.len(),
            r.capacity == self.capacity,
    {
        CacheStats {
            hits: self.hits,
            misses: self.misses,
            evictions: self.evictions,
            size: self.entries.len(),
            capacity: self.capacity,
        }
    }
}

impl crate::cache::Cache for LruCache {
    /// The LRU invariant stands in for the layer invariant.
    open spec fn inv(&self) -> bool {
        self.wf()
    }

    fn get(&mut self, key: &str) -> Option<String> {
        LruCache::get(self, key)
    }

    fn set(&mut self, key: &str, value: &str) {
        LruCache::set(self, key, value)
    }

    fn remove(&mut self, key: &str) -> Option<String> {
        LruCache::remove(self, key)
    }

    fn clear(&mut self) {
        LruCache::clear(self)
    }

    fn size(&self) -> usize {
        LruCache::size(self)
    }

    fn capacity(&self) -> usize {
        LruCache::capacity(self)
    }
}

} // verus!
