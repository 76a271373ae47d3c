//! What each call on the large-region cache does, in terms of the request alone.
//!
//! `lists` are the lists of the shard that a call is made on, by class index.

use vstd::prelude::*;

use crate::cache::{
    acquired, counters_after_acquire, counters_after_dealloc, counters_after_map,
    counters_after_release, disposal, emptied, flat, flat_all, lists_after_acquire,
    lists_after_dealloc, purge_of, views, Acquired, Disposal, Shard, Sweep,
};
use crate::config::{CACHE_MAX_REGION, HUGE_PAGE, MAX_CLASSES, PAGE};
use crate::free_list::{law_bytes_add_up, sum_len};
use crate::size_class::{class_for, classed, law_retained_class_has_a_list, lemma_class_exists};
use crate::stats::Counters;
use crate::sys::{request_len, Span};

verus! {

/// A request reuses a cached region exactly if there is one of its class that is
/// aligned well enough: regions up to 256 MiB are cached, those that a huge page
/// fits in are aligned to one, and smaller ones to a page. What it gets is the
/// region in front of the list of its class.
pub proof fn law_request_is_served_from_the_cache_whenever_it_can_be(
    lists: Seq<Seq<Span>>,
    size: int,
    align: int,
)
    requires
        lists.len() == MAX_CLASSES,
        classed(size),
    ensures
        ({
            let class = class_for(size);
            &&& acquired(lists, size, align) is Cached <==> {
                &&& class.total <= CACHE_MAX_REGION
                &&& align <= PAGE || (align <= HUGE_PAGE && class.total >= HUGE_PAGE)
                &&& lists[class.index as int].len() > 0
            }
            &&& acquired(lists, size, align) matches Acquired::Cached { addr } ==> addr
                == lists[class.index as int][0].addr
        }),
{
}

/// A request that is not served from the cache asks for a mapping of exactly its
/// class, with the stricter of two alignments and no more: the one requested, and
/// that of its class, which is a huge page if one fits and else a page. So the
/// kernel is asked for at most that alignment more than the class spans.
pub proof fn law_fresh_mapping_has_the_stricter_alignment(
    lists: Seq<Seq<Span>>,
    size: int,
    align: usize,
    total: usize,
    stricter: usize,
)
    requires
        lists.len() == MAX_CLASSES,
        classed(size),
        acquired(lists, size, align as int) == (Acquired::Fresh { total, align: stricter }),
    ensures
        total == class_for(size).total,
        size <= total,
        stricter >= align,
        total >= HUGE_PAGE ==> stricter >= HUGE_PAGE && (stricter == align || stricter
            == HUGE_PAGE),
        total < HUGE_PAGE ==> stricter >= PAGE && (stricter == align || stricter == PAGE),
        align <= HUGE_PAGE ==> request_len(total as int, stricter as int) <= total + HUGE_PAGE,
        align > HUGE_PAGE ==> request_len(total as int, stricter as int) <= total + align,
{
    lemma_class_exists(size);
}

/// Serving a request takes the region that it is served with, if any, off the list
/// of its class, and touches nothing else.
pub proof fn law_acquire_takes_one_region_off_one_list(
    lists: Seq<Seq<Span>>,
    size: int,
    align: int,
    i: int,
)
    requires
        lists.len() == MAX_CLASSES,
        classed(size),
        0 <= i < lists.len(),
    ensures
        ({
            let after = lists_after_acquire(lists, size, align);
            let index = class_for(size).index as int;
            &&& after.len() == lists.len()
            &&& i != index ==> after[i] == lists[i]
            &&& acquired(lists, size, align) is Fresh ==> after == lists
            &&& acquired(lists, size, align) is Cached ==> 0 <= index < lists.len()
                && lists[index] == seq![lists[index][0]] + after[index]
        }),
{
    if acquired(lists, size, align) is Cached {
        law_retained_class_has_a_list(size);
        let list = lists[class_for(size).index as int];
        assert(list =~= seq![list[0]] + list.drop_first());
    }
}

/// Every request that is served counts once: as a hit if it is served from the
/// cache, and as a miss, and a region mapped, if the kernel grants a mapping. A
/// hit takes its region's bytes off the count, and nothing else is counted.
pub proof fn law_served_request_is_one_hit_or_one_miss(
    counters: Counters,
    lists: Seq<Seq<Span>>,
    size: int,
    align: int,
    mapped: Option<usize>,
)
    requires
        lists.len() == MAX_CLASSES,
        classed(size),
    ensures
        ({
            let after = counters_after_acquire(counters, lists, size, align);
            let total = class_for(size).total;
            &&& acquired(lists, size, align) is Fresh ==> after == counters
            &&& acquired(lists, size, align) is Cached ==> {
                &&& after.hits == next(counters.hits)
                &&& counters.cached_bytes >= total ==> after.cached_bytes + total
                    == counters.cached_bytes
                &&& counters.cached_bytes < total ==> after.cached_bytes + total
                    == counters.cached_bytes + usize::MAX + 1
                &&& after.misses == counters.misses
                &&& after.mapped == counters.mapped
                &&& after.unmapped == counters.unmapped
            }
        }),
        ({
            let after = counters_after_map(counters, mapped);
            &&& mapped is None ==> after == counters
            &&& mapped is Some ==> {
                &&& after.misses == next(counters.misses)
                &&& after.mapped == next(counters.mapped)
                &&& after.hits == counters.hits
                &&& after.unmapped == counters.unmapped
                &&& after.cached_bytes == counters.cached_bytes
            }
        }),
{
}

/// What a counter shows after one more: the next number, or zero when it is full.
pub open spec fn next(count: u64) -> int {
    if count < u64::MAX {
        count + 1
    } else {
        0
    }
}

/// The pages to drop for zeroed memory are those of the whole region, and only of
/// one that is reused: a fresh mapping is zero as it comes.
pub proof fn law_zeroed_memory_is_purged_exactly_if_reused(request: Acquired, size: int)
    requires
        classed(size),
    ensures
        request is Fresh ==> purge_of(request, size) is None,
        request matches Acquired::Cached { addr } ==> purge_of(request, size) matches Some(span)
            && span.addr == addr && span.len == class_for(size).total && span.len >= size
            && span.len % PAGE == 0,
{
    lemma_class_exists(size);
}

/// A freed region is cached whenever it may be: if it spans at most 256 MiB, was
/// not asked for with an alignment beyond a huge page, and fits under the ceiling
/// with what is cached already. Otherwise all of it goes back to the kernel.
pub proof fn law_freed_region_is_cached_whenever_it_may_be(
    counters: Counters,
    ceiling: usize,
    ptr: usize,
    size: int,
    align: int,
)
    requires
        classed(size),
    ensures
        ({
            let total = class_for(size).total;
            let fate = disposal(counters, ceiling as int, ptr, size, align);
            &&& fate == Disposal::Cached <==> {
                &&& total <= CACHE_MAX_REGION
                &&& align <= HUGE_PAGE
                &&& counters.cached_bytes + total <= ceiling
            }
            &&& fate matches Disposal::Unmap(region) ==> region.addr == ptr && region.len == total
        }),
{
}

/// A freed region that is cached goes in front of the list of its class, with the
/// bytes of its class, and nothing else on the lists changes.
pub proof fn law_free_puts_one_region_on_one_list(
    lists: Seq<Seq<Span>>,
    counters: Counters,
    ceiling: usize,
    ptr: usize,
    size: int,
    align: int,
    i: int,
)
    requires
        lists.len() == MAX_CLASSES,
        classed(size),
        0 <= i < lists.len(),
    ensures
        ({
            let after = lists_after_dealloc(lists, counters, ceiling as int, ptr, size, align);
            let index = class_for(size).index as int;
            let fate = disposal(counters, ceiling as int, ptr, size, align);
            &&& after.len() == lists.len()
            &&& i != index ==> after[i] == lists[i]
            &&& fate is Unmap ==> after == lists
            &&& fate is Cached ==> 0 <= index < lists.len() && after[index] == seq![
                Span { addr: ptr, len: class_for(size).total },
            ] + lists[index]
        }),
{
    if disposal(counters, ceiling as int, ptr, size, align) is Cached {
        law_retained_class_has_a_list(size);
    }
}

/// A freed region counts once: its bytes if it is cached, and as a region unmapped
/// if it goes back to the kernel.
pub proof fn law_freed_region_counts_once(
    counters: Counters,
    ceiling: usize,
    ptr: usize,
    size: int,
    align: int,
)
    requires
        classed(size),
    ensures
        ({
            let after = counters_after_dealloc(counters, ceiling as int, size, align);
            &&& after.hits == counters.hits
            &&& after.misses == counters.misses
            &&& after.mapped == counters.mapped
            &&& match disposal(counters, ceiling as int, ptr, size, align) {
                Disposal::Cached => {
                    &&& after.cached_bytes == counters.cached_bytes + class_for(size).total
                    &&& after.unmapped == counters.unmapped
                },
                Disposal::Unmap(_) => {
                    &&& after.cached_bytes == counters.cached_bytes
                    &&& after.unmapped == next(counters.unmapped)
                },
            }
        }),
{
}

/// A buffer stays resident from one round to the next: if it is freed where there
/// is room for it under the ceiling, and the next request on that shard is for the
/// same class, with an alignment that its region is sure to have, then that
/// request gets the very same memory, without the kernel, and the shard is as it
/// was before.
pub proof fn law_buffer_stays_resident_between_rounds(
    lists: Seq<Seq<Span>>,
    counters: Counters,
    ceiling: usize,
    ptr: usize,
    size: int,
    align: int,
    next_size: int,
    next_align: int,
)
    requires
        lists.len() == MAX_CLASSES,
        classed(size),
        classed(next_size),
        class_for(next_size).index == class_for(size).index,
        class_for(next_size).total == class_for(size).total,
        class_for(size).total <= CACHE_MAX_REGION,
        align <= HUGE_PAGE,
        next_align <= PAGE || (next_align <= HUGE_PAGE && class_for(size).total >= HUGE_PAGE),
        counters.cached_bytes + class_for(size).total <= ceiling,
    ensures
        ({
            let freed = lists_after_dealloc(lists, counters, ceiling as int, ptr, size, align);
            let counted = counters_after_dealloc(counters, ceiling as int, size, align);
            &&& acquired(freed, next_size, next_align) == (Acquired::Cached { addr: ptr })
            &&& lists_after_acquire(freed, next_size, next_align) == lists
            &&& counters_after_acquire(counted, freed, next_size, next_align).cached_bytes
                == counters.cached_bytes
        }),
{
    law_retained_class_has_a_list(size);
    let i = class_for(size).index as int;
    let x = Span { addr: ptr, len: class_for(size).total };
    let freed = lists_after_dealloc(lists, counters, ceiling as int, ptr, size, align);
    assert(freed[i] == seq![x] + lists[i]);
    assert((seq![x] + lists[i]).drop_first() =~= lists[i]);
    assert(lists_after_acquire(freed, next_size, next_align) =~= lists);
}

/// Releasing the cache counts the regions given up as unmapped, takes their bytes
/// off the count as far as it goes, and counts nothing else. Every shard keeps its
/// lists, and they are empty.
pub proof fn law_release_counts_what_it_gives_up(
    counters: Counters,
    all: Seq<Seq<Seq<Span>>>,
    bytes: usize,
    k: int,
    i: int,
)
    requires
        0 <= k < all.len(),
        0 <= i < all[k].len(),
    ensures
        ({
            let after = counters_after_release(counters, all, bytes);
            &&& after.hits == counters.hits
            &&& after.misses == counters.misses
            &&& after.mapped == counters.mapped
            &&& counters.unmapped + flat_all(all).len() <= u64::MAX ==> after.unmapped
                == counters.unmapped + flat_all(all).len()
            &&& bytes <= counters.cached_bytes ==> after.cached_bytes + bytes
                == counters.cached_bytes
            &&& bytes > counters.cached_bytes ==> after.cached_bytes == 0
        }),
        emptied(all).len() == all.len(),
        emptied(all)[k].len() == all[k].len(),
        emptied(all)[k][i].len() == 0,
{
    if counters.unmapped + flat_all(all).len() <= u64::MAX {
        vstd::arithmetic::div_mod::lemma_small_mod(
            (counters.unmapped + flat_all(all).len()) as nat,
            (u64::MAX + 1) as nat,
        );
    }
}

/// The lists of several shards are those of each of them, and what is taken out of
/// them holds the regions that were met, with their bytes.
pub proof fn law_sweep_holds_what_was_met(
    shards: Seq<Shard>,
    k: int,
    sweep: Sweep,
    regions: Seq<Span>,
)
    requires
        0 <= k < shards.len(),
        sweep.met(regions),
    ensures
        views(shards).len() == shards.len(),
        views(shards)[k] == shards[k]@,
        sweep.regions@ == regions,
        0 <= sum_len(regions) <= usize::MAX ==> sweep.bytes == sum_len(regions),
{
    law_bytes_add_up(regions, regions, Span { addr: 0, len: 0 });
}

/// A walk over lists meets the regions of each list in turn: those of one list are
/// its own, and those of two runs of lists are those of the first and then those of
/// the second.
pub proof fn law_walk_meets_every_list_in_turn(
    list: Seq<Span>,
    a: Seq<Seq<Span>>,
    b: Seq<Seq<Span>>,
)
    ensures
        flat(Seq::<Seq<Span>>::empty()) == Seq::<Span>::empty(),
        flat(seq![list]) == list,
        flat(a + b) == flat(a) + flat(b),
    decreases a.len(),
{
    reveal_with_fuel(flat, 2);
    assert(seq![list].drop_first() =~= Seq::empty());
    assert(flat(seq![list]) =~= list + Seq::empty());
    assert(list + Seq::empty() =~= list);
    if a.len() == 0 {
        assert(a + b =~= b);
        assert(flat(a) + flat(b) =~= flat(b));
    } else {
        assert((a + b).drop_first() =~= a.drop_first() + b);
        law_walk_meets_every_list_in_turn(list, a.drop_first(), b);
        assert(flat(a + b) =~= flat(a) + flat(b));
    }
}

/// A walk over shards meets the regions of each shard in turn.
pub proof fn law_walk_meets_every_shard_in_turn(
    shard: Seq<Seq<Span>>,
    a: Seq<Seq<Seq<Span>>>,
    b: Seq<Seq<Seq<Span>>>,
)
    ensures
        flat_all(Seq::<Seq<Seq<Span>>>::empty()) == Seq::<Span>::empty(),
        flat_all(seq![shard]) == flat(shard),
        flat_all(a + b) == flat_all(a) + flat_all(b),
    decreases a.len(),
{
    reveal_with_fuel(flat_all, 2);
    assert(seq![shard].drop_first() =~= Seq::empty());
    assert(flat_all(seq![shard]) =~= flat(shard) + Seq::empty());
    assert(flat(shard) + Seq::empty() =~= flat(shard));
    if a.len() == 0 {
        assert(a + b =~= b);
        assert(flat_all(a) + flat_all(b) =~= flat_all(b));
    } else {
        assert((a + b).drop_first() =~= a.drop_first() + b);
        law_walk_meets_every_shard_in_turn(shard, a.drop_first(), b);
        assert(flat_all(a + b) =~= flat_all(a) + flat_all(b));
    }
}

} // verus!
