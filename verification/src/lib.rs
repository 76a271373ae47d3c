//! # zk-alloc
//!
//! Large-buffer allocation for zero-knowledge provers on Linux: large buffers
//! stay resident across proof rounds, which eliminates page-fault overhead.
//!
//! General-purpose allocators are built for long-lived, mixed workloads. A
//! prover is the opposite: a handful of worker threads churn through enormous,
//! short-lived, power-of-two buffers, allocating and freeing gigabytes every
//! proof round. The default allocator hands those freed pages back to the
//! kernel, so the next round re-faults and re-zeroes them. Here they are kept
//! instead: large allocations are rounded to a size class and parked, resident,
//! in a sharded cache; the next request of that class reuses warm pages with no
//! system call and no zeroing. Small allocations are forwarded to the system
//! allocator, which already handles them well.
//!
//! This library is what the allocator decides, with nothing that it does to the
//! machine. Memory is named by address ([`sys::Span`]); a function that needs
//! the kernel returns what is to be done (map so many bytes, unmap this span,
//! drop the pages of that one) or takes the kernel's answer as an argument.
//!
//! - [`allocator`] routes requests by size: [`ZkAlloc`].
//! - [`cache`] is the large-region cache; [`cache_calls`] is what each call on it
//!   does, [`cache_laws`] what holds of it as a whole, and [`cache_runs`] what
//!   holds over any run of calls; [`size_class`] and [`free_list`] are what it is
//!   made of.
//! - [`arena`] is a scoped bump allocator for a whole proof phase: [`Arena`].
//! - [`secure`] is a swap-locked, guard-fenced buffer for witness data that is
//!   wiped when it is given back: [`SecretBuf`].
//! - [`stats`](mod@stats) counts what the cache does, [`config`] holds the tunable
//!   parameters, and [`sys`] carves aligned windows out of what the kernel maps.

use vstd::prelude::*;

pub mod allocator;
pub mod arena;
pub mod cache;
pub mod cache_calls;
pub mod cache_laws;
pub mod cache_runs;
pub mod config;
pub mod error;
pub mod free_list;
pub mod secure;
pub mod size_class;
pub mod stats;
pub mod sys;

pub use allocator::ZkAlloc;
pub use arena::Arena;
pub use error::MapFailed;
pub use secure::SecretBuf;
pub use stats::{stats, Counters, Stats};

use cache::{CacheWalk, Shard, Sweep};
use free_list::{sum_len, wrap};

verus! {

/// Drop every region currently held in the large-allocation cache, to be
/// unmapped. Returns the regions and the number of bytes released.
///
/// Live allocations are untouched. Use this between unrelated jobs in a
/// long-lived process to trade the warm cache for a lower resident footprint.
pub fn release_cache<'a>(shards: &mut [Shard<'a>], counters: &mut Counters) -> (r: Sweep<'a>)
    ensures
        r.met(cache::flat_all(cache::views(old(shards)@))),
        cache::views(final(shards)@) == cache::emptied(cache::views(old(shards)@)),
        *final(counters) == cache::counters_after_release(
            *old(counters),
            cache::views(old(shards)@),
            r.bytes,
        ),
{
    cache::release_all(shards, counters)
}

/// Find the cached regions, to be advised that the kernel may reclaim them under
/// memory pressure, while they stay in the cache. Returns the regions and the
/// bytes affected.
///
/// This is the gentler sibling of [`release_cache`]: the cache stays warm, and a
/// region reused before reclamation costs nothing.
pub fn soften_cache<'s, 'a>(shards: &'s [Shard<'a>]) -> (r: (CacheWalk<'s, 'a>, usize))
    ensures
        r.0@ == cache::flat_all(cache::views(shards@)),
        r.1 == wrap(sum_len(cache::flat_all(cache::views(shards@)))),
{
    cache::soften_all(shards)
}

/// Bytes currently parked in the large-allocation cache.
#[must_use]
pub fn cached_bytes(counters: &Counters) -> (r: usize)
    ensures
        r == counters.cached_bytes,
{
    cache::cached_bytes(counters)
}

} // verus!
