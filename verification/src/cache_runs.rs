//! What holds of the large-region cache over whole runs of calls.
//!
//! A [`Heap`] is the cache together with the regions that are in use. A [`Step`]
//! is one call, on any shard, with the kernel's answer where it is asked for a
//! mapping; a run is any sequence of steps. A step changes the lists and the
//! counters at once. Calls of several threads make up a run in the order in which
//! they take effect, provided that what each changes in the lists and what it
//! changes in the counters take effect together, as one step: a caller that holds
//! the shard's lock over both sees to that.
//!
//! Of the kernel a run asks one thing: a block that it maps is page-aligned, lies
//! in the address space of a process, and overlaps nothing that is mapped.

use vstd::arithmetic::power2::is_pow2;
use vstd::multiset::Multiset;
use vstd::prelude::*;

use crate::cache::{
    acquired, counters_after_acquire, counters_after_dealloc, counters_after_map,
    counters_after_release, disposal, emptied, flat_all, region_of, Acquired, Disposal,
};
use crate::cache_laws::{
    after_acquire, after_dealloc, all_apart, balanced, held, law_acquire_accounts_for_every_region,
    law_acquire_keeps_the_cache_sound, law_cache_stays_under_its_ceiling,
    law_cached_bytes_fit_the_address_space, law_dealloc_accounts_for_every_region,
    law_dealloc_caches_the_region_or_gives_it_up, law_dealloc_keeps_the_cache_sound,
    law_freeing_keeps_regions_apart, law_fresh_mapping_serves_the_request,
    law_handed_out_regions_never_overlap, law_memory_fits_the_request, law_new_cache_is_balanced,
    law_new_cache_is_sound, law_release_accounts_for_every_region, law_release_empties_the_cache,
    law_reuse_moves_a_region_out_of_the_cache, lemma_new_shards_are_empty,
    lemma_reused_region, sound,
};
use crate::config::{MAX_CLASSES, PAGE};
use crate::free_list::{sum_len, wrap};
use crate::size_class::{classed, lemma_class_exists, region_align_for};
use crate::stats::Counters;
use crate::sys::{
    carve, cleared, law_window_is_aligned_and_inside, lemma_align_up, lemma_pow2_exponent,
    request_len, Span,
};

verus! {

/// The cache and what it has handed out.
pub struct Heap {
    /// The lists of all the shards.
    pub lists: Seq<Seq<Seq<Span>>>,
    /// The counters.
    pub counters: Counters,
    /// The regions in use.
    pub live: Multiset<Span>,
}

/// A call, on shard `k` where it is on one.
pub enum Step {
    /// Allocate. `base` is where the block starts that the kernel maps if it is
    /// asked for one, or nothing if it refuses.
    Allocate { k: int, size: int, align: usize, base: Option<usize> },
    /// Free the region at `ptr`.
    Free { k: int, ptr: usize, size: int, align: usize },
    /// Release the cache.
    Release,
}

impl Heap {
    /// All the regions that are mapped: those in the cache and those in use.
    pub open spec fn mapped(self) -> Multiset<Span> {
        held(self.lists).add(self.live)
    }

    /// What an allocation returns: the start of a cached region, or of the window
    /// in a fresh mapping, or nothing if the kernel refuses.
    pub open spec fn granted(
        self,
        k: int,
        size: int,
        align: usize,
        base: Option<usize>,
    ) -> Option<usize> {
        match acquired(self.lists[k], size, align as int) {
            Acquired::Cached { addr } => Some(addr),
            Acquired::Fresh { total, align: stricter } => match base {
                Some(b) => Some(carve(total as int, stricter as int, b as int).addr),
                None => None,
            },
        }
    }

    /// The heap after a step.
    pub open spec fn after(self, step: Step, ceiling: usize) -> Heap {
        match step {
            Step::Allocate { k, size, align, base } => {
                let addr = self.granted(k, size, align, base);
                let counted = counters_after_acquire(
                    self.counters,
                    self.lists[k],
                    size,
                    align as int,
                );
                Heap {
                    lists: after_acquire(self.lists, k, size, align as int),
                    counters: if acquired(self.lists[k], size, align as int) is Fresh {
                        counters_after_map(counted, addr)
                    } else {
                        counted
                    },
                    live: match addr {
                        Some(a) => self.live.insert(region_of(a, size)),
                        None => self.live,
                    },
                }
            },
            Step::Free { k, ptr, size, align } => Heap {
                lists: after_dealloc(
                    self.lists,
                    k,
                    self.counters,
                    ceiling as int,
                    ptr,
                    size,
                    align as int,
                ),
                counters: counters_after_dealloc(
                    self.counters,
                    ceiling as int,
                    size,
                    align as int,
                ),
                live: self.live.remove(region_of(ptr, size)),
            },
            Step::Release => Heap {
                lists: emptied(self.lists),
                counters: counters_after_release(
                    self.counters,
                    self.lists,
                    wrap(sum_len(flat_all(self.lists))) as usize,
                ),
                live: self.live,
            },
        }
    }

    /// A block that the kernel may map: page-aligned, inside the address space of
    /// a process, and apart from all that is mapped.
    pub open spec fn mappable(self, base: usize, len: int) -> bool {
        &&& base % PAGE == 0
        &&& base + len <= isize::MAX
        &&& forall|r: Span| #[trigger]
            self.mapped().count(r) > 0 ==> r.apart(Span { addr: base, len: len as usize })
    }

    /// Whether a step is a proper one: requests are large ones with an alignment
    /// that is a power of two, the kernel keeps its promise, and what is freed is
    /// in use.
    pub open spec fn admits(self, step: Step) -> bool {
        match step {
            Step::Allocate { k, size, align, base } => {
                &&& 0 <= k < self.lists.len()
                &&& classed(size)
                &&& is_pow2(align as int)
                &&& match acquired(self.lists[k], size, align as int) {
                    Acquired::Fresh { total, align: stricter } => base matches Some(b)
                        ==> self.mappable(b, request_len(total as int, stricter as int)),
                    Acquired::Cached { .. } => true,
                }
            },
            Step::Free { k, ptr, size, align } => {
                &&& 0 <= k < self.lists.len()
                &&& classed(size)
                &&& self.live.count(region_of(ptr, size)) > 0
            },
            Step::Release => true,
        }
    }

    /// The heap is in order: so is the cache, its counters are right and under
    /// the ceiling, no two regions share a byte, all of them lie in the address
    /// space, and those in use are aligned as their class is.
    pub open spec fn wf(self, ceiling: usize) -> bool {
        &&& sound(self.lists, self.counters)
        &&& balanced(self.lists, self.counters, self.live.len() as int)
        &&& self.counters.cached_bytes <= ceiling
        &&& all_apart(self.mapped())
        &&& forall|r: Span| #[trigger] self.mapped().count(r) > 0 ==> r.end() <= isize::MAX
        &&& forall|r: Span| #[trigger]
            self.live.count(r) > 0 ==> r.addr as int % region_align_for(r.len as int) == 0
    }
}

/// The heap after a run of steps.
pub open spec fn after_run(heap: Heap, steps: Seq<Step>, ceiling: usize) -> Heap
    decreases steps.len(),
{
    if steps.len() == 0 {
        heap
    } else {
        after_run(heap.after(steps[0], ceiling), steps.drop_first(), ceiling)
    }
}

/// Whether every step of a run is a proper one when its turn comes.
pub open spec fn admits_run(heap: Heap, steps: Seq<Step>, ceiling: usize) -> bool
    decreases steps.len(),
{
    steps.len() > 0 ==> {
        &&& heap.admits(steps[0])
        &&& admits_run(heap.after(steps[0], ceiling), steps.drop_first(), ceiling)
    }
}

/// A new heap, of any number of shards, is in order.
pub proof fn law_new_heap_is_in_order(heap: Heap, ceiling: usize)
    requires
        forall|k: int|
            0 <= k < heap.lists.len() ==> #[trigger] heap.lists[k] == Seq::new(
                MAX_CLASSES as nat,
                |i: int| Seq::<Span>::empty(),
            ),
        heap.counters == (Counters { hits: 0, misses: 0, mapped: 0, unmapped: 0, cached_bytes: 0 }),
        heap.live == Multiset::<Span>::empty(),
    ensures
        heap.wf(ceiling),
        heap.mapped() == Multiset::<Span>::empty(),
{
    law_new_cache_is_sound(heap.lists, heap.counters);
    law_new_cache_is_balanced(heap.lists, heap.counters);
    law_release_empties_the_cache(heap.lists, heap.counters, 0);
    lemma_new_shards_are_empty(heap.lists);
    assert(heap.mapped() =~= Multiset::<Span>::empty());
}

/// An allocation that the heap admits returns memory that serves it: aligned as
/// requested and as a region of its class is, in the address space, and apart
/// from everything that is mapped and stays mapped. It fails exactly if nothing
/// cached fits and the kernel refuses.
pub proof fn law_granted_memory_serves_the_request(
    heap: Heap,
    ceiling: usize,
    k: int,
    size: int,
    align: usize,
    base: Option<usize>,
)
    requires
        heap.wf(ceiling),
        heap.admits(Step::Allocate { k, size, align, base }),
    ensures
        heap.granted(k, size, align, base) is None <==> acquired(
            heap.lists[k],
            size,
            align as int,
        ) is Fresh && base is None,
        heap.granted(k, size, align, base) matches Some(addr) ==> {
            let region = region_of(addr, size);
            &&& align > 0 && addr % align == 0
            &&& addr as int % region_align_for(region.len as int) == 0
            &&& size <= region.len
            &&& region.end() <= isize::MAX
            &&& forall|r: Span| #[trigger] heap.live.count(r) > 0 ==> r.apart(region)
            &&& acquired(heap.lists[k], size, align as int) is Fresh ==> forall|r: Span| #[trigger]
                heap.mapped().count(r) > 0 ==> r.apart(region)
        },
{
    lemma_class_exists(size);
    law_memory_fits_the_request(heap.lists, heap.counters, k, size, align);
    match acquired(heap.lists[k], size, align as int) {
        Acquired::Cached { addr } => {
            let region = region_of(addr, size);
            lemma_reused_region(heap.lists, k, size, align as int);
            assert(heap.mapped().count(region) > 0);
            assert forall|r: Span| #[trigger] heap.live.count(r) > 0 implies r.apart(region) by {
                assert(heap.mapped().count(r) > 0);
                if r == region {
                    assert(heap.mapped().count(region) > 1);
                }
            }
        },
        Acquired::Fresh { total, align: stricter } => {
            if let Some(b) = base {
                law_fresh_mapping_serves_the_request(
                    heap.lists,
                    heap.counters,
                    k,
                    size,
                    align,
                    total,
                    stricter,
                    b,
                );
                let len = request_len(total as int, stricter as int);
                let block = Span { addr: b, len: len as usize };
                let addr = carve(total as int, stricter as int, b as int).addr;
                let region = region_of(addr, size);
                assert forall|r: Span| #[trigger] heap.mapped().count(r) > 0 implies r.apart(
                    region,
                ) by {
                    assert(r.apart(block));
                }
                assert forall|r: Span| #[trigger] heap.live.count(r) > 0 implies r.apart(
                    region,
                ) by {
                    assert(heap.mapped().count(r) > 0);
                }
            }
        },
    }
}

/// An allocation keeps the heap in order.
proof fn lemma_allocate_keeps_order(
    heap: Heap,
    ceiling: usize,
    k: int,
    size: int,
    align: usize,
    base: Option<usize>,
)
    requires
        heap.wf(ceiling),
        heap.admits(Step::Allocate { k, size, align, base }),
    ensures
        heap.after(Step::Allocate { k, size, align, base }, ceiling).wf(ceiling),
{
    let after = heap.after(Step::Allocate { k, size, align, base }, ceiling);
    let addr = heap.granted(k, size, align, base);
    let a = align as int;
    law_granted_memory_serves_the_request(heap, ceiling, k, size, align, base);
    law_acquire_keeps_the_cache_sound(heap.lists, heap.counters, k, size, a);
    law_cache_stays_under_its_ceiling(heap.lists, heap.counters, k, ceiling, size, a);
    law_acquire_accounts_for_every_region(
        heap.lists,
        heap.counters,
        k,
        size,
        a,
        addr,
        heap.live.len() as int,
    );
    if let Some(p) = addr {
        let region = region_of(p, size);
        law_handed_out_regions_never_overlap(
            heap.lists,
            heap.counters,
            k,
            size,
            a,
            heap.live,
            p,
        );
        match acquired(heap.lists[k], size, a) {
            Acquired::Cached { .. } => {
                law_reuse_moves_a_region_out_of_the_cache(
                    heap.lists,
                    heap.counters,
                    k,
                    size,
                    a,
                    p,
                );
                assert(after.mapped() =~= heap.mapped());
            },
            Acquired::Fresh { .. } => {
                assert(after.lists =~= heap.lists);
                assert(after.mapped() =~= heap.mapped().insert(region));
            },
        }
        assert forall|r: Span| #[trigger] after.mapped().count(r) > 0 implies r.end()
            <= isize::MAX by {
            if r != region {
                assert(heap.mapped().count(r) > 0);
            }
        }
        assert forall|r: Span| #[trigger] after.live.count(r) > 0 implies r.addr as int
            % region_align_for(r.len as int) == 0 by {
            if r != region {
                assert(heap.live.count(r) > 0);
            }
        }
    } else {
        assert(after.lists =~= heap.lists);
    }
}

/// Freeing a region keeps the heap in order.
proof fn lemma_free_keeps_order(
    heap: Heap,
    ceiling: usize,
    k: int,
    ptr: usize,
    size: int,
    align: usize,
)
    requires
        heap.wf(ceiling),
        heap.admits(Step::Free { k, ptr, size, align }),
    ensures
        heap.after(Step::Free { k, ptr, size, align }, ceiling).wf(ceiling),
{
    let after = heap.after(Step::Free { k, ptr, size, align }, ceiling);
    let region = region_of(ptr, size);
    let a = align as int;
    law_dealloc_keeps_the_cache_sound(heap.lists, heap.counters, k, ceiling, ptr, size, a);
    law_cache_stays_under_its_ceiling(heap.lists, heap.counters, k, ceiling, size, a);
    law_freeing_keeps_regions_apart(
        heap.lists,
        heap.counters,
        k,
        ceiling,
        ptr,
        size,
        a,
        heap.live,
    );
    law_dealloc_caches_the_region_or_gives_it_up(
        heap.lists,
        heap.counters,
        k,
        ceiling,
        ptr,
        size,
        a,
    );
    assert(heap.live =~= after.live.insert(region));
    vstd::multiset::lemma_insert_len(after.live, region);
    law_dealloc_accounts_for_every_region(
        heap.lists,
        heap.counters,
        k,
        ceiling,
        ptr,
        size,
        a,
        heap.live.len() as int,
    );
    assert forall|r: Span| #[trigger] after.live.count(r) <= heap.live.count(r) by {}
    assert forall|r: Span| #[trigger] after.mapped().count(r) <= heap.mapped().count(r) by {}
}

/// Releasing the cache keeps the heap in order.
proof fn lemma_release_keeps_order(heap: Heap, ceiling: usize)
    requires
        heap.wf(ceiling),
    ensures
        heap.after(Step::Release, ceiling).wf(ceiling),
        heap.after(Step::Release, ceiling).mapped() == heap.live,
{
    let after = heap.after(Step::Release, ceiling);
    let bytes = wrap(sum_len(flat_all(heap.lists))) as usize;
    vstd::arithmetic::div_mod::lemma_small_mod(
        heap.counters.cached_bytes as nat,
        (usize::MAX + 1) as nat,
    );
    law_release_empties_the_cache(heap.lists, heap.counters, bytes);
    law_release_accounts_for_every_region(
        heap.lists,
        heap.counters,
        bytes,
        heap.live.len() as int,
    );
    assert(after.mapped() =~= heap.live);
    assert forall|r: Span| #[trigger] after.mapped().count(r) <= heap.mapped().count(r) by {}
}

/// Every step keeps the heap in order.
pub proof fn law_step_keeps_the_heap_in_order(heap: Heap, step: Step, ceiling: usize)
    requires
        heap.wf(ceiling),
        heap.admits(step),
    ensures
        heap.after(step, ceiling).wf(ceiling),
{
    match step {
        Step::Allocate { k, size, align, base } => {
            lemma_allocate_keeps_order(heap, ceiling, k, size, align, base);
        },
        Step::Free { k, ptr, size, align } => {
            lemma_free_keeps_order(heap, ceiling, k, ptr, size, align);
        },
        Step::Release => {
            lemma_release_keeps_order(heap, ceiling);
        },
    }
}

/// Every run keeps the heap in order. So at any moment, whatever was allocated,
/// freed and released before, on whichever shards: no two blocks in use share a
/// byte, and none shares one with a cached region; and the count of cached bytes
/// tells exactly what the cache holds, which is within the ceiling and never more
/// than `isize::MAX`.
pub proof fn law_run_keeps_the_heap_in_order(heap: Heap, steps: Seq<Step>, ceiling: usize)
    requires
        heap.wf(ceiling),
        admits_run(heap, steps, ceiling),
    ensures
        ({
            let end = after_run(heap, steps, ceiling);
            &&& end.wf(ceiling)
            &&& all_apart(end.live)
            &&& forall|a: Span, b: Span|
                #![trigger held(end.lists).count(a), end.live.count(b)]
                held(end.lists).count(a) > 0 && end.live.count(b) > 0 ==> a.apart(b)
            &&& end.counters.cached_bytes == sum_len(flat_all(end.lists))
            &&& end.counters.cached_bytes <= ceiling
            &&& end.counters.cached_bytes <= isize::MAX
        }),
    decreases steps.len(),
{
    if steps.len() > 0 {
        law_step_keeps_the_heap_in_order(heap, steps[0], ceiling);
        law_run_keeps_the_heap_in_order(
            heap.after(steps[0], ceiling),
            steps.drop_first(),
            ceiling,
        );
    } else {
        assert forall|r: Span| #[trigger] heap.live.count(r) <= heap.mapped().count(r) by {}
        assert forall|r: Span| #[trigger] held(heap.lists).count(r) <= heap.mapped().count(r) by {}
        law_cached_bytes_fit_the_address_space(heap.lists, heap.counters);
        assert forall|a: Span, b: Span|
            #![trigger held(heap.lists).count(a), heap.live.count(b)]
            held(heap.lists).count(a) > 0 && heap.live.count(b) > 0 implies a.apart(b) by {
            if a == b {
                assert(heap.mapped().count(a) > 1);
            }
        }
    }
}

/// What goes back to the kernel is not in use: a freed region that is unmapped,
/// and every region that a release unmaps, are apart from all that is in use
/// afterwards; so is the slack of a fresh mapping.
pub proof fn law_what_is_unmapped_is_not_in_use(heap: Heap, step: Step, ceiling: usize, live: Span)
    requires
        heap.wf(ceiling),
        heap.admits(step),
        heap.after(step, ceiling).live.count(live) > 0,
    ensures
        match step {
            Step::Allocate { k, size, align, base } => match acquired(
                heap.lists[k],
                size,
                align as int,
            ) {
                Acquired::Fresh { total, align: stricter } => base matches Some(b) ==> {
                    let m = carve(total as int, stricter as int, b as int);
                    &&& m.head matches Some(s) ==> s.apart(live)
                    &&& m.tail matches Some(s) ==> s.apart(live)
                },
                Acquired::Cached { .. } => true,
            },
            Step::Free { k, ptr, size, align } => disposal(
                heap.counters,
                ceiling as int,
                ptr,
                size,
                align as int,
            ) matches Disposal::Unmap(region) ==> region.apart(live),
            Step::Release => forall|r: Span| #[trigger]
                held(heap.lists).count(r) > 0 ==> r.apart(live),
        },
{
    match step {
        Step::Allocate { k, size, align, base } => {
            match acquired(heap.lists[k], size, align as int) {
                Acquired::Fresh { total, align: stricter } => {
                    if let Some(b) = base {
                        law_memory_fits_the_request(heap.lists, heap.counters, k, size, align);
                        law_window_is_aligned_and_inside(total, stricter, b);
                        lemma_pow2_exponent(stricter);
                        lemma_align_up(b as int, stricter as int);
                        let m = carve(total as int, stricter as int, b as int);
                        let len = request_len(total as int, stricter as int);
                        if live != region_of(m.addr, size) {
                            assert(heap.mapped().count(live) > 0);
                            assert(live.apart(Span { addr: b, len: len as usize }));
                        }
                    }
                },
                Acquired::Cached { .. } => {},
            }
        },
        Step::Free { k, ptr, size, align } => {
            let region = region_of(ptr, size);
            lemma_class_exists(size);
            assert(heap.mapped().count(region) > 0);
            assert(heap.mapped().count(live) > 0);
            if live == region {
                assert(heap.mapped().count(region) > 1);
            }
        },
        Step::Release => {
            assert forall|r: Span| #[trigger] held(heap.lists).count(r) > 0 implies r.apart(
                live,
            ) by {
                assert(heap.mapped().count(r) > 0);
                assert(heap.mapped().count(live) > 0);
                if live == r {
                    assert(heap.mapped().count(r) > 1);
                }
            }
        },
    }
}

/// What is written in a block in use stays there: clearing the pages of a reused
/// region, for zeroed memory, touches no byte of any other block in use.
pub proof fn law_zeroing_touches_no_other_block(
    heap: Heap,
    ceiling: usize,
    k: int,
    size: int,
    align: usize,
    addr: usize,
    live: Span,
    before: Map<int, u8>,
    after: Map<int, u8>,
    a: int,
)
    requires
        heap.wf(ceiling),
        heap.admits(Step::Allocate { k, size, align, base: None }),
        acquired(heap.lists[k], size, align as int) == (Acquired::Cached { addr }),
        cleared(before, after, region_of(addr, size)),
        heap.live.count(live) > 0,
        live.covers(a),
        before.dom().contains(a),
    ensures
        after[a] == before[a],
{
    law_granted_memory_serves_the_request(heap, ceiling, k, size, align, None);
    assert(live.apart(region_of(addr, size)));
    assert(after.dom().contains(a));
}

/// A large block that moves is exchanged for another: once the new block is
/// allocated, with the new size and the old alignment, and the old one is freed,
/// with its own layout, the new region is in use in place of the old one, which
/// is in use once less; and the heap is in order.
pub proof fn law_move_exchanges_one_region_for_another(
    heap: Heap,
    ceiling: usize,
    k: int,
    j: int,
    ptr: usize,
    old_size: int,
    new_size: int,
    align: usize,
    base: Option<usize>,
    fresh: usize,
)
    requires
        heap.wf(ceiling),
        0 <= j < heap.lists.len(),
        classed(old_size),
        heap.live.count(region_of(ptr, old_size)) > 0,
        heap.admits(Step::Allocate { k, size: new_size, align, base }),
        heap.granted(k, new_size, align, base) == Some(fresh),
    ensures
        ({
            let middle = heap.after(Step::Allocate { k, size: new_size, align, base }, ceiling);
            let free = Step::Free { k: j, ptr, size: old_size, align };
            let end = middle.after(free, ceiling);
            &&& middle.admits(free)
            &&& end.wf(ceiling)
            &&& end.live == heap.live.remove(region_of(ptr, old_size)).insert(
                region_of(fresh, new_size),
            )
            &&& align > 0 && fresh % align == 0
            &&& new_size <= region_of(fresh, new_size).len
            &&& region_of(fresh, new_size).apart(region_of(ptr, old_size))
        }),
{
    let allocate = Step::Allocate { k, size: new_size, align, base };
    let free = Step::Free { k: j, ptr, size: old_size, align };
    let middle = heap.after(allocate, ceiling);
    law_granted_memory_serves_the_request(heap, ceiling, k, new_size, align, base);
    law_step_keeps_the_heap_in_order(heap, allocate, ceiling);
    law_step_keeps_the_heap_in_order(middle, free, ceiling);
    assert(middle.after(free, ceiling).live =~= heap.live.remove(
        region_of(ptr, old_size),
    ).insert(region_of(fresh, new_size)));
}

} // verus!
