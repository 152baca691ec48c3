//! The transparent-compression cache layer: values are serialized and
//! compressed on the way in, decompressed and deserialized on the way out,
//! and any failure on the way out is a cache miss, never a hard error —
//! the cache is a performance optimization, not a source of truth.

use vstd::prelude::*;
use vstd::slice::slice_to_vec;
use vstd::utf8::{encode_utf8, valid_utf8};

use crate::cache::CacheStats;
use crate::codec::bytes_to_string;
use crate::compression::{spec_decompress, Compressor};

verus! {

/// The position of the first entry holding `k`, or -1.
pub open spec fn bytes_find_key(s: Seq<(String, Vec<u8>)>, k: Seq<char>) -> int
    decreases s.len(),
{
    if s.len() == 0 {
        -1
    } else if s[0].0@ == k {
        0
    } else {
        let r = bytes_find_key(s.drop_first(), k);
        if r == -1 {
            -1
        } else {
            r + 1
        }
    }
}

/// Whether some entry holds `k`.
pub open spec fn bytes_has_key(s: Seq<(String, Vec<u8>)>, k: Seq<char>) -> bool {
    exists|i: int| 0 <= i < s.len() && (#[trigger] s[i]).0@ == k
}

/// `bytes_find_key` finds the entry exactly when one exists.
pub proof fn lemma_bytes_find_key(s: Seq<(String, Vec<u8>)>, k: Seq<char>)
    ensures
        bytes_has_key(s, k) <==> 0 <= bytes_find_key(s, k) < s.len(),
        !bytes_has_key(s, k) <==> bytes_find_key(s, k) == -1,
        0 <= bytes_find_key(s, k) ==> s[bytes_find_key(s, k)].0@ == k && (forall|j: int|
            0 <= j < bytes_find_key(s, k) ==> (#[trigger] s[j]).0@ != k),
    decreases s.len(),
{
    if s.len() == 0 {
    } else if s[0].0@ == k {
    } else {
        lemma_bytes_find_key(s.drop_first(), k);
        assert forall|i: int| 0 <= i < s.len() && (#[trigger] s[i]).0@ == k implies
            0 <= bytes_find_key(s, k) < s.len() by {
            assert(i != 0);
            assert(s.drop_first()[i - 1] == s[i]);
        }
        if bytes_has_key(s.drop_first(), k) {
            let r = bytes_find_key(s.drop_first(), k);
            assert(0 <= r < s.drop_first().len());
            assert(s[r + 1] == s.drop_first()[r]);
            assert(forall|j: int|
                1 <= j < r + 1 ==> (#[trigger] s[j]).0@ == s.drop_first()[j - 1].0@);
        }
        if bytes_find_key(s, k) >= 0 {
            let f = bytes_find_key(s, k);
            assert forall|j: int| 0 <= j < f implies (#[trigger] s[j]).0@ != k by {
                if j > 0 {
                    assert(s[j] == s.drop_first()[j - 1]);
                }
            }
        }
    }
}

/// An exact-key LRU cache from keys to byte values, most recently used
/// first — the store the compression layer sits on.
pub struct ByteCache {
    pub entries: Vec<(String, Vec<u8>)>,
    pub capacity: usize,
    pub hits: u64,
    pub misses: u64,
    pub evictions: u64,
}

impl ByteCache {
    /// Well-formed: keys unique, never more entries than the capacity.
    pub open spec fn wf(self) -> bool {
        &&& self.capacity >= 1
        &&& self.entries@.len() <= self.capacity
        &&& forall|i: int, j: int|
            0 <= i < j < self.entries@.len() ==> (#[trigger] self.entries@[i]).0@ != (
            #[trigger] self.entries@[j]).0@
    }

    /// An empty cache; a capacity of zero is rounded up to one.
    pub fn new(capacity: usize) -> (r: ByteCache)
        ensures
            r.wf(),
            r.entries@.len() == 0,
            r.capacity == if capacity >= 1 {
                capacity as int
            } else {
                1
            },
    {
        ByteCache {
            entries: Vec::new(),
            capacity: if capacity >= 1 {
                capacity
            } else {
                1
            },
            hits: 0,
            misses: 0,
            evictions: 0,
        }
    }

    /// The position of a key's entry, if present.
    fn find(&self, key: &str) -> (r: Option<usize>)
        ensures
            match r {
                Some(i) => i < self.entries@.len() && self.entries@[i as int].0@ == key@ && i
                    == bytes_find_key(self.entries@, key@),
                None => !bytes_has_key(self.entries@, key@),
            },
    {
        let key_owned = key.to_owned();
        let mut i: usize = 0;
        while i < self.entries.len()
            invariant
                key_owned@ == key@,
                0 <= i <= self.entries@.len(),
                forall|j: int| 0 <= j < i ==> (#[trigger] self.entries@[j]).0@ != key@,
            decreases self.entries@.len() - i,
        {
            if self.entries[i].0 == key_owned {
                proof {
                    lemma_bytes_find_key(self.entries@, key@);
                    let f = bytes_find_key(self.entries@, key@);
                    if f < i as int {
                        assert(self.entries@[f].0@ != key@);
                    }
                    if f > i as int {
                        assert(self.entries@[i as int].0@ != key@);
                    }
                }
                return Some(i);
            }
            i = i + 1;
        }
        None
    }

    /// Looks a key up: a hit hands back its bytes and promotes the entry.
    pub fn get(&mut self, key: &str) -> (r: Option<Vec<u8>>)
        requires
            old(self).wf(),
        ensures
            final(self).wf(),
            final(self).capacity == old(self).capacity,
            final(self).entries@.len() == old(self).entries@.len(),
            match r {
                Some(v) => {
                    let pos = bytes_find_key(old(self).entries@, key@);
                    &&& bytes_has_key(old(self).entries@, key@)
                    &&& v@ == old(self).entries@[pos].1@
                    &&& final(self).entries@ == seq![old(self).entries@[pos]] + old(self).entries@.remove(pos)
                },
                None => !bytes_has_key(old(self).entries@, key@) && final(self).entries@ == old(self).entries@,
            },
    {
        match self.find(key) {
            Some(i) => {
                let entry = self.entries.remove(i);
                let value = slice_to_vec(entry.1.as_slice());
                let ghost old_entries = old(self).entries@;
                self.entries.insert(0, entry);
                self.hits = if self.hits < u64::MAX {
                    self.hits + 1
                } else {
                    u64::MAX
                };
                proof {
                    assert(final(self).entries@ =~= seq![old_entries[i as int]]
                        + old_entries.remove(i as int));
                    assert forall|a: int, b: int|
                        0 <= a < b < final(self).entries@.len() implies (#[trigger] final(self).entries@[a]).0@ != (#[trigger] final(self).entries@[b]).0@ by {
                        lemma_bytes_find_key(old_entries, key@);
                    }
                }
                Some(value)
            },
            None => {
                self.misses = if self.misses < u64::MAX {
                    self.misses + 1
                } else {
                    u64::MAX
                };
                None
            },
        }
    }

    /// Writes a key's bytes: an existing key is replaced and promoted; a
    /// new key lands at the front, evicting the least recently used entry
    /// when the cache was full.
    pub fn set(&mut self, key: &str, value: Vec<u8>)
        requires
            old(self).wf(),
        ensures
            final(self).wf(),
            final(self).capacity == old(self).capacity,
            final(self).entries@.len() >= 1,
            final(self).entries@[0].0@ == key@ && final(self).entries@[0].1@ == value@,
            bytes_has_key(old(self).entries@, key@) ==> final(self).entries@.drop_first() == old(self).entries@.remove(bytes_find_key(old(self).entries@, key@)),
            !bytes_has_key(old(self).entries@, key@) && old(self).entries@.len() < old(self).capacity ==> final(self).entries@.drop_first() == old(self).entries@,
            !bytes_has_key(old(self).entries@, key@) && old(self).entries@.len() == old(self).capacity ==> final(self).entries@.drop_first() == old(self).entries@.drop_last(),
    {
        let pair = (key.to_owned(), value);
        match self.find(key) {
            Some(i) => {
                let ghost old_entries = old(self).entries@;
                let _ = self.entries.remove(i);
                self.entries.insert(0, pair);
                proof {
                    assert(final(self).entries@.drop_first() =~= old_entries.remove(i as int));
                    assert forall|a: int, b: int|
                        0 <= a < b < final(self).entries@.len() implies (#[trigger] final(self).entries@[a]).0@ != (#[trigger] final(self).entries@[b]).0@ by {
                        lemma_bytes_find_key(old_entries, key@);
                    }
                }
            },
            None => {
                let ghost old_entries = old(self).entries@;
                if self.entries.len() == self.capacity {
                    let _ = self.entries.pop();
                    self.evictions = if self.evictions < u64::MAX {
                        self.evictions + 1
                    } else {
                        u64::MAX
                    };
                    self.entries.insert(0, pair);
                    proof {
                        assert(final(self).entries@.drop_first() =~= old_entries.drop_last());
                        lemma_bytes_find_key(old_entries, key@);
                        assert forall|a: int, b: int|
                            0 <= a < b < final(self).entries@.len() implies (#[trigger] final(self).entries@[a]).0@ != (#[trigger] final(self).entries@[b]).0@ by {
                            assert(old_entries.drop_last()[b - 1] == old_entries[b - 1]);
                        }
                    }
                } else {
                    self.entries.insert(0, pair);
                    proof {
                        assert(final(self).entries@.drop_first() =~= old_entries);
                        lemma_bytes_find_key(old_entries, key@);
                    }
                }
            },
        }
    }

    /// Removes a key's entry, handing back its bytes.
    pub fn remove(&mut self, key: &str) -> (r: Option<Vec<u8>>)
        requires
            old(self).wf(),
        ensures
            final(self).wf(),
            final(self).capacity == old(self).capacity,
            match r {
                Some(v) => {
                    let pos = bytes_find_key(old(self).entries@, key@);
                    &&& bytes_has_key(old(self).entries@, key@)
                    &&& v@ == old(self).entries@[pos].1@
                    &&& final(self).entries@ == old(self).entries@.remove(pos)
                },
                None => !bytes_has_key(old(self).entries@, key@) && final(self).entries@ == old(self).entries@,
            },
    {
        match self.find(key) {
            Some(i) => {
                let entry = self.entries.remove(i);
                Some(entry.1)
            },
            None => None,
        }
    }

    /// Drops every entry.
    pub fn clear(&mut self)
        requires
            old(self).wf(),
        ensures
            final(self).wf(),
            final(self).capacity == old(self).capacity,
            final(self).entries@.len() == 0,
    {
        self.entries = Vec::new();
    }

    /// The number of live entries.
    pub fn size(&self) -> (r: usize)
        ensures
            r == self.entries@.len(),
    {
        self.entries.len()
    }

    /// The configured capacity.
    pub fn capacity(&self) -> (r: usize)
        ensures
            r == self.capacity,
    {
        self.capacity
    }

    /// The counters beside the current size.
    pub fn stats(&self) -> (r: CacheStats)
        ensures
            r.hits == self.hits,
            r.misses == self.misses,
            r.evictions == self.evictions,
            r.size == self.entries@.len(),
            r.capacity == self.capacity,
    {
        CacheStats {
            hits: self.hits,
            misses: self.misses,
            evictions: self.evictions,
            size: self.entries.len(),
            capacity: self.capacity,
        }
    }
}

/// A cache of string values that serializes each value to its UTF-8 bytes
/// and compresses them before storing, and undoes both on the way out. A
/// value that fails to decompress or decode is a miss.
pub struct CompressedCache {
    pub inner: ByteCache,
    pub compressor: Compressor,
}

impl CompressedCache {
    /// Wraps a byte cache with a compressor.
    pub fn new(inner: ByteCache, compressor: Compressor) -> (r: CompressedCache)
        ensures
            r.inner == inner,
            r.compressor == compressor,
    {
        CompressedCache { inner, compressor }
    }

    /// Looks a key up: a hit whose stored bytes decompress and decode
    /// hands back the value; anything else is a miss.
    pub fn get(&mut self, key: &str) -> (r: Option<String>)
        requires
            old(self).inner.wf(),
        ensures
            final(self).inner.wf(),
            final(self).compressor == old(self).compressor,
            match r {
                Some(s) => {
                    let pos = bytes_find_key(old(self).inner.entries@, key@);
                    &&& bytes_has_key(old(self).inner.entries@, key@)
                    &&& match spec_decompress(
                        old(self).compressor,
                        old(self).inner.entries@[pos].1@,
                    ) {
                        Some(d) => valid_utf8(d) && encode_utf8(s@) == d,
                        None => false,
                    }
                },
                None => !bytes_has_key(old(self).inner.entries@, key@) || match spec_decompress(
                    old(self).compressor,
                    old(self).inner.entries@[bytes_find_key(old(self).inner.entries@, key@)].1@,
                ) {
                    Some(d) => !valid_utf8(d),
                    None => true,
                },
            },
    {
        let compressed = match self.inner.get(key) {
            Some(b) => b,
            None => {
                return None;
            },
        };
        let data = match self.compressor.decompress(compressed.as_slice()) {
            Ok(d) => d,
            Err(_) => {
                return None;
            },
        };
        bytes_to_string(data)
    }

    /// Writes a key: the value's bytes are compressed and stored. A value
    /// the compressor rejects is simply not cached.
    pub fn set(&mut self, key: &str, value: &str)
        requires
            old(self).inner.wf(),
        ensures
            final(self).inner.wf(),
            final(self).compressor == old(self).compressor,
            final(self).inner.entries@ == old(self).inner.entries@ || {
                &&& final(self).inner.entries@.len() >= 1
                &&& final(self).inner.entries@[0].0@ == key@
                &&& spec_decompress(
                    old(self).compressor,
                    final(self).inner.entries@[0].1@,
                ) == Some(encode_utf8(value@))
            },
            crate::compression::spec_compress_total(
                old(self).compressor,
                encode_utf8(value@).len() as int,
            ) ==> !(final(self).inner.entries@ == old(self).inner.entries@ && !bytes_has_key(
                old(self).inner.entries@,
                key@,
            )),
    {
        let serialized: &[u8] = value.as_bytes();
        match self.compressor.compress(serialized) {
            Ok(compressed) => {
                self.inner.set(key, compressed);
            },
            Err(_) => {
            },
        }
    }

    /// Drops a key, handing back its value if it decompresses and decodes.
    pub fn remove(&mut self, key: &str) -> (r: Option<String>)
        requires
            old(self).inner.wf(),
        ensures
            final(self).inner.wf(),
            final(self).compressor == old(self).compressor,
            r is Some ==> bytes_has_key(old(self).inner.entries@, key@),
            !bytes_has_key(old(self).inner.entries@, key@) ==> r is None,
    {
        let compressed = match self.inner.remove(key) {
            Some(b) => b,
            None => {
                return None;
            },
        };
        let data = match self.compressor.decompress(compressed.as_slice()) {
            Ok(d) => d,
            Err(_) => {
                return None;
            },
        };
        bytes_to_string(data)
    }

    /// Drops every entry.
    pub fn clear(&mut self)
        requires
            old(self).inner.wf(),
        ensures
            final(self).inner.wf(),
            final(self).inner.entries@.len() == 0,
    {
        self.inner.clear();
    }

    /// The number of live entries.
    pub fn size(&self) -> (r: usize)
        ensures
            r == self.inner.entries@.len(),
    {
        self.inner.size()
    }

    /// The configured capacity.
    pub fn capacity(&self) -> (r: usize)
        ensures
            r == self.inner.capacity,
    {
        self.inner.capacity()
    }
}

} // verus!
