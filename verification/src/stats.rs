//! Lightweight counters for the large-region cache.
//!
//! They exist to answer "is the cache actually being reused?" during tuning,
//! not to be a precise accounting system: like the relaxed atomics that they
//! are published through, they wrap.

use vstd::prelude::*;

verus! {

/// What the large-region cache has done so far.
#[derive(Clone, Copy, Debug, PartialEq, Eq, Structural)]
pub struct Counters {
    /// Requests served from the cache.
    pub hits: u64,
    /// Requests served by a fresh mapping.
    pub misses: u64,
    /// Regions mapped.
    pub mapped: u64,
    /// Regions unmapped.
    pub unmapped: u64,
    /// Bytes parked in the cache.
    pub cached_bytes: usize,
}

impl Counters {
    /// All zero.
    pub fn new() -> (r: Self)
        ensures
            r == (Counters { hits: 0, misses: 0, mapped: 0, unmapped: 0, cached_bytes: 0 }),
    {
        Counters { hits: 0, misses: 0, mapped: 0, unmapped: 0, cached_bytes: 0 }
    }
}

/// A snapshot of large-region cache activity.
#[derive(Clone, Copy, Debug, PartialEq, Eq, Structural)]
pub struct Stats {
    /// Large allocations served from a cached, already-resident region.
    pub cache_hits: u64,
    /// Large allocations that had to ask the kernel for a fresh mapping.
    pub cache_misses: u64,
    /// Regions mapped from the kernel over the process lifetime.
    pub regions_mapped: u64,
    /// Regions returned to the kernel over the process lifetime.
    pub regions_unmapped: u64,
    /// Bytes currently held resident in the cache.
    pub bytes_cached: usize,
}

impl Default for Stats {
    /// The snapshot before any large allocation has happened.
    fn default() -> (r: Self)
        ensures
            r == (Stats {
                cache_hits: 0,
                cache_misses: 0,
                regions_mapped: 0,
                regions_unmapped: 0,
                bytes_cached: 0,
            }),
    {
        Stats {
            cache_hits: 0,
            cache_misses: 0,
            regions_mapped: 0,
            regions_unmapped: 0,
            bytes_cached: 0,
        }
    }
}

impl Stats {
    /// Large allocations that were served, whether from the cache or by a fresh
    /// mapping: what the hits are a fraction of.
    pub fn served(&self) -> (r: u128)
        ensures
            r == self.cache_hits + self.cache_misses,
            self.cache_hits <= r,
    {
        self.cache_hits as u128 + self.cache_misses as u128
    }
}

/// Read the counters.
pub fn stats(counters: &Counters) -> (r: Stats)
    ensures
        r == (Stats {
            cache_hits: counters.hits,
            cache_misses: counters.misses,
            regions_mapped: counters.mapped,
            regions_unmapped: counters.unmapped,
            bytes_cached: counters.cached_bytes,
        }),
{
    Stats {
        cache_hits: counters.hits,
        cache_misses: counters.misses,
        regions_mapped: counters.mapped,
        regions_unmapped: counters.unmapped,
        bytes_cached: counters.cached_bytes,
    }
}

} // verus!
