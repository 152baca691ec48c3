//! What every cache layer exposes: the common operations and the counter
//! snapshot they report.

use vstd::prelude::*;

verus! {

/// The operations every cache layer offers, each preserving the layer's
/// own invariant.
pub trait Cache {
    /// The layer's invariant.
    spec fn inv(&self) -> bool;

    /// Looks a key up, promoting it in whatever recency order the layer
    /// keeps.
    fn get(&mut self, key: &str) -> (r: Option<String>)
        requires
            old(self).inv(),
        ensures
            final(self).inv(),
    ;

    /// Writes a key.
    fn set(&mut self, key: &str, value: &str)
        requires
            old(self).inv(),
        ensures
            final(self).inv(),
    ;

    /// Drops a key, handing back its value.
    fn remove(&mut self, key: &str) -> (r: Option<String>)
        requires
            old(self).inv(),
        ensures
            final(self).inv(),
    ;

    /// Drops every entry.
    fn clear(&mut self)
        requires
            old(self).inv(),
        ensures
            final(self).inv(),
    ;

    /// The number of live entries.
    fn size(&self) -> usize;

    /// The configured capacity.
    fn capacity(&self) -> usize;
}

/// A snapshot of one cache layer's counters.
pub struct CacheStats {
    pub hits: u64,
    pub misses: u64,
    pub evictions: u64,
    pub size: usize,
    pub capacity: usize,
}

} // verus!
