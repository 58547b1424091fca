//! Counters of buffer-pool activity.
use vstd::prelude::*;

verus! {

/// `v + 1`, wrapping to 0 after `u64::MAX`.
pub open spec fn bump(v: u64) -> u64 {
    if v == u64::MAX {
        0
    } else {
        (v + 1) as u64
    }
}

pub struct BufferPoolMetrics {
    fetches: u64,
    cache_hits: u64,
    cache_misses: u64,
    evictions: u64,
}

impl BufferPoolMetrics {
    /// The counters: fetches, cache hits, cache misses, evictions.
    pub closed spec fn counts(&self) -> (u64, u64, u64, u64) {
        (self.fetches, self.cache_hits, self.cache_misses, self.evictions)
    }

    pub fn new() -> (m: Self)
        ensures
            m.counts() == (0u64, 0u64, 0u64, 0u64),
    {
        Self { fetches: 0, cache_hits: 0, cache_misses: 0, evictions: 0 }
    }

    pub fn record_fetch(&mut self)
        ensures
            final(self).counts() == (bump(old(self).counts().0), old(self).counts().1, old(self).counts().2, old(self).counts().3),
    {
        self.fetches = self.fetches.wrapping_add(1);
    }

    pub fn record_hit(&mut self)
        ensures
            final(self).counts() == (old(self).counts().0, bump(old(self).counts().1), old(self).counts().2, old(self).counts().3),
    {
        self.cache_hits = self.cache_hits.wrapping_add(1);
    }

    pub fn record_miss(&mut self)
        ensures
            final(self).counts() == (old(self).counts().0, old(self).counts().1, bump(old(self).counts().2), old(self).counts().3),
    {
        self.cache_misses = self.cache_misses.wrapping_add(1);
    }

    pub fn record_eviction(&mut self)
        ensures
            final(self).counts() == (old(self).counts().0, old(self).counts().1, old(self).counts().2, bump(old(self).counts().3)),
    {
        self.evictions = self.evictions.wrapping_add(1);
    }

    pub fn fetches(&self) -> (n: u64)
        ensures
            n == self.counts().0,
    {
        self.fetches
    }

    pub fn cache_hits(&self) -> (n: u64)
        ensures
            n == self.counts().1,
    {
        self.cache_hits
    }

    pub fn cache_misses(&self) -> (n: u64)
        ensures
            n == self.counts().2,
    {
        self.cache_misses
    }

    pub fn evictions(&self) -> (n: u64)
        ensures
            n == self.counts().3,
    {
        self.evictions
    }

    pub fn reset(&mut self)
        ensures
            final(self).counts() == (0u64, 0u64, 0u64, 0u64),
    {
        self.fetches = 0;
        self.cache_hits = 0;
        self.cache_misses = 0;
        self.evictions = 0;
    }
}

impl Default for BufferPoolMetrics {
    fn default() -> (m: Self)
        ensures
            m.counts() == (0u64, 0u64, 0u64, 0u64),
    {
        Self::new()
    }
}

} // verus!
