//! What holds of the large-region cache as a whole, whatever the order in which
//! regions are allocated and freed.
//!
//! The state that these laws speak of is `all`, the lists of all the shards,
//! and the [`Counters`]. A request takes place on one shard `k` of them.

use vstd::arithmetic::power2::is_pow2;
use vstd::multiset::Multiset;
use vstd::prelude::*;

use crate::cache::{
    acquired, cacheable, counters_after_acquire, counters_after_dealloc, counters_after_map,
    counters_after_release, disposal, emptied, flat, flat_all, lists_after_acquire,
    lists_after_dealloc, purge_of, region_of, reusable, Acquired, Disposal,
};
use crate::config::{MAX_CLASSES, PAGE};
use crate::free_list::{
    lemma_sum_len_concat, lemma_sum_len_front, lemma_wrap64_add, sum_len, wrap, wrap64,
};
use crate::size_class::{
    class_for, class_total, classed, law_retained_class_has_a_list, lemma_class_exists,
    lemma_region_align_is_pow2, region_align_for,
};
use crate::stats::Counters;
use crate::sys::{
    carve, cleared, law_window_is_aligned_and_inside, lemma_mod_of_multiple, lemma_pow2_divides,
    lemma_pow2_exponent, request_len, Span,
};

verus! {

/// Every region is on the list of its class, and aligned as its class is.
pub open spec fn well_placed(lists: Seq<Seq<Span>>) -> bool {
    &&& lists.len() == MAX_CLASSES
    &&& forall|i: int, j: int|
        #![trigger lists[i][j]]
        0 <= i < lists.len() && 0 <= j < lists[i].len() ==> {
            &&& lists[i][j].len == class_total(i)
            &&& lists[i][j].addr as int % region_align_for(class_total(i)) == 0
        }
}

/// The cache is in order: every region is where it belongs, and the counter of
/// cached bytes tells exactly what the lists hold.
pub open spec fn sound(all: Seq<Seq<Seq<Span>>>, counters: Counters) -> bool {
    &&& forall|k: int| 0 <= k < all.len() ==> well_placed(#[trigger] all[k])
    &&& counters.cached_bytes == sum_len(flat_all(all))
}

/// The regions that the cache holds.
pub open spec fn held(all: Seq<Seq<Seq<Span>>>) -> Multiset<Span> {
    flat_all(all).to_multiset()
}

/// No two regions share a byte.
pub open spec fn all_apart(regions: Multiset<Span>) -> bool {
    &&& forall|a: Span, b: Span|
        #![trigger regions.count(a), regions.count(b)]
        regions.count(a) > 0 && regions.count(b) > 0 && a != b ==> a.apart(b)
    &&& forall|a: Span| #[trigger] regions.count(a) > 1 ==> a.len == 0
}

/// Every region is accounted for: of those that were ever mapped, each has been
/// unmapped since, is in the cache, or is one of the `live` ones that are in use.
/// The counters wrap, and so does the sum. Each mapping answers one miss.
pub open spec fn balanced(all: Seq<Seq<Seq<Span>>>, counters: Counters, live: int) -> bool {
    &&& counters.mapped == wrap64(counters.unmapped + flat_all(all).len() + live)
    &&& counters.misses == counters.mapped
}

/// Equal sums of multisets have equal counts.
proof fn lemma_counts_add_up(
    a: Multiset<Span>,
    b: Multiset<Span>,
    c: Multiset<Span>,
    d: Multiset<Span>,
)
    requires
        a.add(b) == c.add(d),
    ensures
        forall|v: Span|
            #![trigger a.count(v)]
            #![trigger c.count(v)]
            a.count(v) + b.count(v) == c.count(v) + d.count(v),
{
    assert forall|v: Span|
        #![trigger a.count(v)]
        #![trigger c.count(v)]
        a.count(v) + b.count(v) == c.count(v) + d.count(v) by {
        vstd::multiset::axiom_multiset_add(a, b, v);
        vstd::multiset::axiom_multiset_add(c, d, v);
    }
}

/// Exchanging one list exchanges its regions.
proof fn lemma_flat_update(lists: Seq<Seq<Span>>, i: int, list: Seq<Span>)
    requires
        0 <= i < lists.len(),
    ensures
        flat(lists.update(i, list)).to_multiset().add(lists[i].to_multiset()) == flat(
            lists,
        ).to_multiset().add(list.to_multiset()),
        sum_len(flat(lists.update(i, list))) + sum_len(lists[i]) == sum_len(flat(lists))
            + sum_len(list),
        flat(lists.update(i, list)).len() + lists[i].len() == flat(lists).len() + list.len(),
    decreases lists.len(),
{
    let rest = lists.drop_first();
    let after = lists.update(i, list);
    vstd::seq_lib::lemma_multiset_commutative(lists[0], flat(rest));
    vstd::seq_lib::lemma_multiset_commutative(after[0], flat(after.drop_first()));
    lemma_sum_len_concat(lists[0], flat(rest));
    lemma_sum_len_concat(after[0], flat(after.drop_first()));
    if i == 0 {
        assert(after.drop_first() =~= rest);
    } else {
        lemma_flat_update(rest, i - 1, list);
        assert(after.drop_first() =~= rest.update(i - 1, list));
        lemma_counts_add_up(
            flat(after.drop_first()).to_multiset(),
            rest[i - 1].to_multiset(),
            flat(rest).to_multiset(),
            list.to_multiset(),
        );
    }
    assert(flat(after).to_multiset().add(lists[i].to_multiset()) =~= flat(lists).to_multiset().add(
        list.to_multiset(),
    ));
}

/// Exchanging one list of one shard exchanges its regions.
proof fn lemma_flat_all_update(
    all: Seq<Seq<Seq<Span>>>,
    k: int,
    i: int,
    list: Seq<Span>,
)
    requires
        0 <= k < all.len(),
        0 <= i < all[k].len(),
    ensures
        ({
            let after = all.update(k, all[k].update(i, list));
            &&& held(after).add(all[k][i].to_multiset()) == held(all).add(list.to_multiset())
            &&& sum_len(flat_all(after)) + sum_len(all[k][i]) == sum_len(flat_all(all)) + sum_len(
                list,
            )
            &&& flat_all(after).len() + all[k][i].len() == flat_all(all).len() + list.len()
        }),
    decreases all.len(),
{
    let rest = all.drop_first();
    let after = all.update(k, all[k].update(i, list));
    vstd::seq_lib::lemma_multiset_commutative(flat(all[0]), flat_all(rest));
    vstd::seq_lib::lemma_multiset_commutative(flat(after[0]), flat_all(after.drop_first()));
    lemma_sum_len_concat(flat(all[0]), flat_all(rest));
    lemma_sum_len_concat(flat(after[0]), flat_all(after.drop_first()));
    if k == 0 {
        assert(after.drop_first() =~= rest);
        lemma_flat_update(all[k], i, list);
        lemma_counts_add_up(
            flat(after[0]).to_multiset(),
            all[0][i].to_multiset(),
            flat(all[0]).to_multiset(),
            list.to_multiset(),
        );
    } else {
        lemma_flat_all_update(rest, k - 1, i, list);
        assert(after.drop_first() =~= rest.update(k - 1, rest[k - 1].update(i, list)));
        lemma_counts_add_up(
            held(after.drop_first()),
            rest[k - 1][i].to_multiset(),
            held(rest),
            list.to_multiset(),
        );
    }
    assert(held(after).add(all[k][i].to_multiset()) =~= held(all).add(list.to_multiset()));
}

/// A region in front of a list is one more region.
proof fn lemma_front(x: Span, list: Seq<Span>)
    ensures
        (seq![x] + list).to_multiset() == list.to_multiset().insert(x),
        sum_len(seq![x] + list) == x.len + sum_len(list),
        sum_len(list) >= 0,
{
    lemma_sum_len_front(x, list);
    broadcast use vstd::seq_lib::group_to_multiset_ensures;

    assert(seq![x] + list =~= list.insert(0, x));
    vstd::seq_lib::to_multiset_insert(list, 0, x);
}

/// The list that a request reuses is that of its class, and the region it takes
/// is of that class.
pub proof fn lemma_reused_region(all: Seq<Seq<Seq<Span>>>, k: int, size: int, align: int)
    requires
        0 <= k < all.len(),
        well_placed(all[k]),
        classed(size),
        reusable(all[k], size, align),
    ensures
        ({
            let i = class_for(size).index as int;
            let list = all[k][i];
            &&& 0 <= i < MAX_CLASSES
            &&& list.len() > 0
            &&& list =~= seq![list[0]] + list.drop_first()
            &&& list[0].len == class_for(size).total
            &&& list[0].addr as int % region_align_for(class_for(size).total as int) == 0
        }),
{
    lemma_class_exists(size);
    law_retained_class_has_a_list(size);
    let i = class_for(size).index as int;
    assert(all[k][i][0].len == class_total(i));
}

/// The lists of all the shards once shard `k` has served a request.
pub open spec fn after_acquire(
    all: Seq<Seq<Seq<Span>>>,
    k: int,
    size: int,
    align: int,
) -> Seq<Seq<Seq<Span>>> {
    all.update(k, lists_after_acquire(all[k], size, align))
}

/// The lists of all the shards once a region has been freed on shard `k`.
pub open spec fn after_dealloc(
    all: Seq<Seq<Seq<Span>>>,
    k: int,
    counters: Counters,
    ceiling: int,
    ptr: usize,
    size: int,
    align: int,
) -> Seq<Seq<Seq<Span>>> {
    all.update(k, lists_after_dealloc(all[k], counters, ceiling, ptr, size, align))
}

/// Empty lists hold nothing.
proof fn lemma_nothing_in_empty_lists(lists: Seq<Seq<Span>>)
    requires
        forall|i: int| 0 <= i < lists.len() ==> (#[trigger] lists[i]).len() == 0,
    ensures
        flat(lists) =~= Seq::<Span>::empty(),
    decreases lists.len(),
{
    if lists.len() > 0 {
        lemma_nothing_in_empty_lists(lists.drop_first());
    }
}

/// Emptied shards hold nothing.
proof fn lemma_nothing_in_emptied_shards(all: Seq<Seq<Seq<Span>>>)
    ensures
        flat_all(emptied(all)) =~= Seq::<Span>::empty(),
    decreases all.len(),
{
    if all.len() > 0 {
        lemma_nothing_in_emptied_shards(all.drop_first());
        assert(emptied(all).drop_first() =~= emptied(all.drop_first()));
        lemma_nothing_in_empty_lists(emptied(all)[0]);
    }
}

/// New shards, of any number, are as shards are once they are emptied.
pub proof fn lemma_new_shards_are_empty(all: Seq<Seq<Seq<Span>>>)
    requires
        forall|k: int|
            0 <= k < all.len() ==> #[trigger] all[k] == Seq::new(
                MAX_CLASSES as nat,
                |i: int| Seq::<Span>::empty(),
            ),
    ensures
        all == emptied(all),
        flat_all(all) == Seq::<Span>::empty(),
{
    assert forall|k: int| 0 <= k < all.len() implies all[k] == emptied(all)[k] by {
        assert(all[k] =~= emptied(all)[k]);
    }
    assert(all =~= emptied(all));
    lemma_nothing_in_emptied_shards(all);
}

/// A new cache, of any number of shards, is in order.
pub proof fn law_new_cache_is_sound(all: Seq<Seq<Seq<Span>>>, counters: Counters)
    requires
        forall|k: int|
            0 <= k < all.len() ==> #[trigger] all[k] == Seq::new(
                MAX_CLASSES as nat,
                |i: int| Seq::<Span>::empty(),
            ),
        counters.cached_bytes == 0,
    ensures
        sound(all, counters),
{
    lemma_new_shards_are_empty(all);
}

/// Serving a request keeps the cache in order.
pub proof fn law_acquire_keeps_the_cache_sound(
    all: Seq<Seq<Seq<Span>>>,
    counters: Counters,
    k: int,
    size: int,
    align: int,
)
    requires
        sound(all, counters),
        0 <= k < all.len(),
        classed(size),
    ensures
        sound(
            after_acquire(all, k, size, align),
            counters_after_acquire(counters, all[k], size, align),
        ),
{
    if reusable(all[k], size, align) {
        lemma_reused_region(all, k, size, align);
        let i = class_for(size).index as int;
        let list = all[k][i];
        lemma_flat_all_update(all, k, i, list.drop_first());
        lemma_front(list[0], list.drop_first());
        let after = after_acquire(all, k, size, align);
        lemma_sum_len_front(list[0], flat_all(after));
        assert(well_placed(after[k])) by {
            assert forall|a: int, b: int|
                #![trigger after[k][a][b]]
                0 <= a < after[k].len() && 0 <= b < after[k][a].len() implies {
                &&& after[k][a][b].len == class_total(a)
                &&& after[k][a][b].addr as int % region_align_for(class_total(a)) == 0
            } by {
                if a == i {
                    assert(after[k][a][b] == all[k][a][b + 1]);
                } else {
                    assert(after[k][a][b] == all[k][a][b]);
                }
            }
        }
    } else {
        assert(after_acquire(all, k, size, align) =~= all);
    }
}

/// Freeing a region keeps the cache in order, provided that the region is
/// aligned as those of its class are.
pub proof fn law_dealloc_keeps_the_cache_sound(
    all: Seq<Seq<Seq<Span>>>,
    counters: Counters,
    k: int,
    ceiling: usize,
    ptr: usize,
    size: int,
    align: int,
)
    requires
        sound(all, counters),
        0 <= k < all.len(),
        classed(size),
        ptr as int % region_align_for(class_for(size).total as int) == 0,
    ensures
        sound(
            after_dealloc(all, k, counters, ceiling as int, ptr, size, align),
            counters_after_dealloc(counters, ceiling as int, size, align),
        ),
{
    let after = after_dealloc(all, k, counters, ceiling as int, ptr, size, align);
    if cacheable(counters, ceiling as int, size, align) {
        lemma_class_exists(size);
        law_retained_class_has_a_list(size);
        let i = class_for(size).index as int;
        let list = all[k][i];
        let x = region_of(ptr, size);
        lemma_flat_all_update(all, k, i, seq![x] + list);
        lemma_front(x, list);
        assert(well_placed(after[k])) by {
            assert forall|a: int, b: int|
                #![trigger after[k][a][b]]
                0 <= a < after[k].len() && 0 <= b < after[k][a].len() implies {
                &&& after[k][a][b].len == class_total(a)
                &&& after[k][a][b].addr as int % region_align_for(class_total(a)) == 0
            } by {
                if a == i {
                    if b > 0 {
                        assert(after[k][a][b] == all[k][a][b - 1]);
                    }
                } else {
                    assert(after[k][a][b] == all[k][a][b]);
                }
            }
        }
    } else {
        assert(after =~= all);
    }
}

/// Releasing the cache gives up exactly the bytes that it was said to hold, and
/// leaves a cache that is in order and holds nothing.
pub proof fn law_release_empties_the_cache(
    all: Seq<Seq<Seq<Span>>>,
    counters: Counters,
    bytes: usize,
)
    requires
        sound(all, counters),
        bytes == wrap(sum_len(flat_all(all))),
    ensures
        bytes == counters.cached_bytes,
        counters_after_release(counters, all, bytes).cached_bytes == 0,
        sound(emptied(all), counters_after_release(counters, all, bytes)),
        held(emptied(all)) == Multiset::<Span>::empty(),
{
    vstd::arithmetic::div_mod::lemma_small_mod(
        counters.cached_bytes as nat,
        (usize::MAX + 1) as nat,
    );
    lemma_nothing_in_emptied_shards(all);
    broadcast use vstd::seq_lib::group_to_multiset_ensures;

    assert(held(emptied(all)) =~= Multiset::<Span>::empty());
}

/// The cache never holds more than its ceiling, whatever is freed.
pub proof fn law_cache_stays_under_its_ceiling(
    all: Seq<Seq<Seq<Span>>>,
    counters: Counters,
    k: int,
    ceiling: usize,
    size: int,
    align: int,
)
    requires
        sound(all, counters),
        0 <= k < all.len(),
        classed(size),
        counters.cached_bytes <= ceiling,
    ensures
        counters_after_dealloc(counters, ceiling as int, size, align).cached_bytes <= ceiling,
        counters_after_acquire(counters, all[k], size, align).cached_bytes <= ceiling,
{
    law_acquire_keeps_the_cache_sound(all, counters, k, size, align);
    if reusable(all[k], size, align) {
        lemma_reused_region(all, k, size, align);
        let i = class_for(size).index as int;
        let list = all[k][i];
        lemma_flat_all_update(all, k, i, list.drop_first());
        lemma_front(list[0], list.drop_first());
    }
}

/// A region that goes into the cache is what the next request of its class on
/// that shard gets: the two undo each other, and the region comes back at the
/// address it was freed at.
pub proof fn law_freed_region_is_reused(
    all: Seq<Seq<Seq<Span>>>,
    counters: Counters,
    k: int,
    ceiling: usize,
    ptr: usize,
    size: int,
    align: int,
    next_size: int,
    next_align: int,
)
    requires
        sound(all, counters),
        0 <= k < all.len(),
        classed(size),
        classed(next_size),
        class_for(next_size) == class_for(size),
        next_align <= region_align_for(class_for(size).total as int),
        disposal(counters, ceiling as int, ptr, size, align) == Disposal::Cached,
    ensures
        ({
            let freed = after_dealloc(all, k, counters, ceiling as int, ptr, size, align);
            let counted = counters_after_dealloc(counters, ceiling as int, size, align);
            &&& acquired(freed[k], next_size, next_align) == (Acquired::Cached { addr: ptr })
            &&& after_acquire(freed, k, next_size, next_align) == all
            &&& counters_after_acquire(counted, freed[k], next_size, next_align) == (Counters {
                hits: counters.hits.wrapping_add(1),
                ..counters
            })
        }),
{
    law_retained_class_has_a_list(size);
    let freed = after_dealloc(all, k, counters, ceiling as int, ptr, size, align);
    let i = class_for(size).index as int;
    assert((seq![region_of(ptr, size)] + all[k][i]).drop_first() =~= all[k][i]);
    assert(freed[k].update(i, all[k][i]) =~= all[k]);
    assert(after_acquire(freed, k, next_size, next_align) =~= all);
}

/// What a request is served with fits it: a cached region starts at a multiple
/// of the alignment and spans at least the size; a fresh mapping is asked for
/// with an alignment that is a multiple of the one requested, and with a size
/// that covers the request and is a whole number of pages.
pub proof fn law_memory_fits_the_request(
    all: Seq<Seq<Seq<Span>>>,
    counters: Counters,
    k: int,
    size: int,
    align: usize,
)
    requires
        sound(all, counters),
        0 <= k < all.len(),
        classed(size),
        is_pow2(align as int),
    ensures
        align > 0,
        size <= class_for(size).total,
        match acquired(all[k], size, align as int) {
            Acquired::Cached { addr } => {
                &&& addr % align == 0
                &&& held(all).count(region_of(addr, size)) > 0
            },
            Acquired::Fresh { total, align: stricter } => {
                &&& total == class_for(size).total
                &&& total % PAGE == 0
                &&& is_pow2(stricter as int)
                &&& stricter % align == 0
                &&& stricter as int % region_align_for(total as int) == 0
            },
        },
{
    lemma_class_exists(size);
    let total = class_for(size).total;
    let ra = region_align_for(total as int) as usize;
    lemma_region_align_is_pow2(total as int);
    if align <= ra {
        lemma_pow2_divides(align, ra);
    } else {
        lemma_pow2_divides(ra, align);
    }
    lemma_pow2_divides(ra, ra);
    lemma_pow2_divides(align, align);
    if reusable(all[k], size, align as int) {
        lemma_reused_region(all, k, size, align as int);
        let i = class_for(size).index as int;
        let list = all[k][i];
        lemma_mod_of_multiple(list[0].addr as int, ra as int, align as int);
        lemma_flat_all_update(all, k, i, list.drop_first());
        lemma_front(list[0], list.drop_first());
        lemma_counts_add_up(
            held(after_acquire(all, k, size, align as int)),
            list.to_multiset(),
            held(all),
            list.drop_first().to_multiset(),
        );
        assert(list.to_multiset().count(list[0]) == list.drop_first().to_multiset().count(list[0])
            + 1);
        assert(held(all).count(list[0]) > 0);
        assert(list[0] == region_of(list[0].addr, size));
    }
}

/// A request that is served with a fresh mapping gets memory that fits it too:
/// the window that is carved out of the kernel's block is aligned as requested,
/// and as a region of its class is, so that it may be cached later; and it spans
/// the request without leaving the block.
pub proof fn law_fresh_mapping_serves_the_request(
    all: Seq<Seq<Seq<Span>>>,
    counters: Counters,
    k: int,
    size: int,
    align: usize,
    total: usize,
    stricter: usize,
    base: usize,
)
    requires
        sound(all, counters),
        0 <= k < all.len(),
        classed(size),
        is_pow2(align as int),
        acquired(all[k], size, align as int) == (Acquired::Fresh { total, align: stricter }),
        base % PAGE == 0,
        base + request_len(total as int, stricter as int) <= usize::MAX,
    ensures
        ({
            let addr = carve(total as int, stricter as int, base as int).addr;
            &&& align > 0 && addr % align == 0
            &&& addr as int % region_align_for(total as int) == 0
            &&& base <= addr
            &&& addr + size <= addr + total <= base + request_len(total as int, stricter as int)
        }),
{
    law_memory_fits_the_request(all, counters, k, size, align);
    law_window_is_aligned_and_inside(total, stricter, base);
    lemma_pow2_exponent(stricter);
    let addr = carve(total as int, stricter as int, base as int).addr;
    lemma_mod_of_multiple(addr as int, stricter as int, align as int);
    lemma_mod_of_multiple(addr as int, stricter as int, region_align_for(total as int));
}

/// A request that is served from the cache takes its region out of it, and
/// nothing else: what the cache holds and what is in use together stay the
/// same.
pub proof fn law_reuse_moves_a_region_out_of_the_cache(
    all: Seq<Seq<Seq<Span>>>,
    counters: Counters,
    k: int,
    size: int,
    align: int,
    addr: usize,
)
    requires
        sound(all, counters),
        0 <= k < all.len(),
        classed(size),
        acquired(all[k], size, align) == (Acquired::Cached { addr }),
    ensures
        held(after_acquire(all, k, size, align)).insert(region_of(addr, size)) == held(all),
{
    lemma_reused_region(all, k, size, align);
    let i = class_for(size).index as int;
    let list = all[k][i];
    let after = after_acquire(all, k, size, align);
    lemma_flat_all_update(all, k, i, list.drop_first());
    lemma_front(list[0], list.drop_first());
    lemma_counts_add_up(
        held(after),
        list.to_multiset(),
        held(all),
        list.drop_first().to_multiset(),
    );
    assert(list[0] == region_of(addr, size));
    assert(held(after).insert(list[0]) =~= held(all));
}

/// A region that is freed is either in the cache afterwards, once more than
/// before, or it is handed back to be unmapped and the cache is as it was.
pub proof fn law_dealloc_caches_the_region_or_gives_it_up(
    all: Seq<Seq<Seq<Span>>>,
    counters: Counters,
    k: int,
    ceiling: usize,
    ptr: usize,
    size: int,
    align: int,
)
    requires
        sound(all, counters),
        0 <= k < all.len(),
        classed(size),
    ensures
        ({
            let after = after_dealloc(all, k, counters, ceiling as int, ptr, size, align);
            match disposal(counters, ceiling as int, ptr, size, align) {
                Disposal::Cached => held(after) == held(all).insert(region_of(ptr, size)),
                Disposal::Unmap(region) => region == region_of(ptr, size) && after == all,
            }
        }),
{
    let after = after_dealloc(all, k, counters, ceiling as int, ptr, size, align);
    if cacheable(counters, ceiling as int, size, align) {
        law_retained_class_has_a_list(size);
        let i = class_for(size).index as int;
        let list = all[k][i];
        let x = region_of(ptr, size);
        lemma_flat_all_update(all, k, i, seq![x] + list);
        lemma_front(x, list);
        lemma_counts_add_up(
            held(after),
            list.to_multiset(),
            held(all),
            (seq![x] + list).to_multiset(),
        );
        assert(held(after) =~= held(all).insert(x));
    } else {
        assert(after =~= all);
    }
}

/// A region that is handed out overlaps no other: if the regions in the cache
/// and those in use (`live`) share no byte, the same holds once a request is
/// served. A fresh mapping has to be apart from them all, as the kernel makes
/// it.
pub proof fn law_handed_out_regions_never_overlap(
    all: Seq<Seq<Seq<Span>>>,
    counters: Counters,
    k: int,
    size: int,
    align: int,
    live: Multiset<Span>,
    addr: usize,
)
    requires
        sound(all, counters),
        0 <= k < all.len(),
        classed(size),
        all_apart(held(all).add(live)),
        match acquired(all[k], size, align) {
            Acquired::Cached { addr: a } => addr == a,
            Acquired::Fresh { .. } => forall|r: Span| #[trigger]
                held(all).add(live).count(r) > 0 ==> r.apart(region_of(addr, size)),
        },
    ensures
        all_apart(
            held(after_acquire(all, k, size, align)).add(live.insert(region_of(addr, size))),
        ),
{
    let x = region_of(addr, size);
    let before = held(all).add(live);
    let after = held(after_acquire(all, k, size, align)).add(live.insert(x));
    match acquired(all[k], size, align) {
        Acquired::Cached { addr: a } => {
            law_reuse_moves_a_region_out_of_the_cache(all, counters, k, size, align, addr);
            assert(after =~= before);
        },
        Acquired::Fresh { .. } => {
            assert(after_acquire(all, k, size, align) =~= all);
            assert(after =~= before.insert(x));
            lemma_class_exists(size);
            assert(!x.apart(x));
            assert(before.count(x) == 0);
            assert forall|a: Span, b: Span|
                #![trigger after.count(a), after.count(b)]
                after.count(a) > 0 && after.count(b) > 0 && a != b implies a.apart(b) by {
                assert(a != x ==> before.count(a) > 0);
                assert(b != x ==> before.count(b) > 0);
            }
            assert forall|a: Span| #[trigger] after.count(a) > 1 implies a.len == 0 by {
                assert(a != x);
                assert(before.count(a) > 1);
            }
        },
    }
}

/// Freeing a region in use never makes regions overlap either.
pub proof fn law_freeing_keeps_regions_apart(
    all: Seq<Seq<Seq<Span>>>,
    counters: Counters,
    k: int,
    ceiling: usize,
    ptr: usize,
    size: int,
    align: int,
    live: Multiset<Span>,
)
    requires
        sound(all, counters),
        0 <= k < all.len(),
        classed(size),
        all_apart(held(all).add(live)),
        live.count(region_of(ptr, size)) > 0,
    ensures
        all_apart(
            held(after_dealloc(all, k, counters, ceiling as int, ptr, size, align)).add(
                live.remove(region_of(ptr, size)),
            ),
        ),
{
    let x = region_of(ptr, size);
    let before = held(all).add(live);
    let after = held(after_dealloc(all, k, counters, ceiling as int, ptr, size, align)).add(
        live.remove(x),
    );
    law_dealloc_caches_the_region_or_gives_it_up(all, counters, k, ceiling, ptr, size, align);
    if cacheable(counters, ceiling as int, size, align) {
        assert(after =~= before);
    } else {
        assert forall|a: Span| #[trigger] after.count(a) <= before.count(a) by {}
    }
}

/// Regions that share no byte, and all end at or below `top`, have at most `top`
/// bytes between them: `occupied` is the set of their bytes.
proof fn lemma_apart_regions_fit(regions: Seq<Span>, top: int) -> (occupied: Set<int>)
    requires
        all_apart(regions.to_multiset()),
        forall|r: Span| #[trigger] regions.to_multiset().count(r) > 0 ==> r.end() <= top,
    ensures
        occupied.finite(),
        occupied.len() == sum_len(regions),
        forall|a: int| #[trigger] occupied.contains(a) ==> 0 <= a < top,
        forall|a: int| #[trigger]
            occupied.contains(a) ==> exists|r: Span| #[trigger]
                regions.to_multiset().count(r) > 0 && r.covers(a),
    decreases regions.len(),
{
    if regions.len() == 0 {
        Set::empty()
    } else {
        let x = regions[0];
        let rest = regions.drop_first();
        assert(regions =~= seq![x] + rest);
        lemma_front(x, rest);
        let all = regions.to_multiset();
        assert(all == rest.to_multiset().insert(x));
        assert(all.count(x) > 0);
        assert forall|r: Span| #[trigger] rest.to_multiset().count(r) > 0 implies {
            &&& r.end() <= top
            &&& x.apart(r)
        } by {
            assert(all.count(r) > 0);
            if r == x {
                assert(all.count(x) > 1);
            }
        }
        assert(all_apart(rest.to_multiset())) by {
            assert forall|r: Span| #[trigger] rest.to_multiset().count(r) <= all.count(r) by {}
        }
        let others = lemma_apart_regions_fit(rest, top);
        let mine = vstd::set_lib::set_int_range(x.addr as int, x.end());
        vstd::set_lib::lemma_int_range(x.addr as int, x.end());
        assert(mine.disjoint(others)) by {
            assert forall|a: int| mine.contains(a) implies !others.contains(a) by {
                if others.contains(a) {
                    let r = choose|r: Span| #[trigger]
                        rest.to_multiset().count(r) > 0 && r.covers(a);
                    assert(x.apart(r));
                }
            }
        }
        vstd::set_lib::lemma_set_disjoint_lens(mine, others);
        let occupied = mine.union(others);
        assert forall|a: int| #[trigger] occupied.contains(a) implies exists|r: Span| #[trigger]
            all.count(r) > 0 && r.covers(a) by {
            if mine.contains(a) {
                assert(all.count(x) > 0 && x.covers(a));
            } else {
                let r = choose|r: Span| #[trigger] rest.to_multiset().count(r) > 0 && r.covers(a);
                assert(all.count(r) > 0 && r.covers(a));
            }
        }
        occupied
    }
}

/// The count of cached bytes never exceeds the address space, whatever the
/// ceiling: if the cached regions share no byte and all lie below `isize::MAX`,
/// as what the kernel maps for a process does, then so is the count.
pub proof fn law_cached_bytes_fit_the_address_space(all: Seq<Seq<Seq<Span>>>, counters: Counters)
    requires
        sound(all, counters),
        all_apart(held(all)),
        forall|r: Span| #[trigger] held(all).count(r) > 0 ==> r.end() <= isize::MAX,
    ensures
        counters.cached_bytes <= isize::MAX,
{
    let occupied = lemma_apart_regions_fit(flat_all(all), isize::MAX as int);
    let space = vstd::set_lib::set_int_range(0, isize::MAX as int);
    vstd::set_lib::lemma_int_range(0, isize::MAX as int);
    vstd::set_lib::lemma_len_subset(occupied, space);
}

/// A new cache is balanced: nothing is mapped, and nothing is in use.
pub proof fn law_new_cache_is_balanced(all: Seq<Seq<Seq<Span>>>, counters: Counters)
    requires
        forall|k: int|
            0 <= k < all.len() ==> #[trigger] all[k] == Seq::new(
                MAX_CLASSES as nat,
                |i: int| Seq::<Span>::empty(),
            ),
        counters == (Counters { hits: 0, misses: 0, mapped: 0, unmapped: 0, cached_bytes: 0 }),
    ensures
        balanced(all, counters, 0),
{
    lemma_new_shards_are_empty(all);
}

/// Serving a request keeps every region accounted for. One that is served from
/// the cache, or by a mapping that the kernel grants, has one more region in use
/// afterwards; one that the kernel refuses changes nothing.
pub proof fn law_acquire_accounts_for_every_region(
    all: Seq<Seq<Seq<Span>>>,
    counters: Counters,
    k: int,
    size: int,
    align: int,
    mapped: Option<usize>,
    live: int,
)
    requires
        sound(all, counters),
        balanced(all, counters, live),
        0 <= k < all.len(),
        classed(size),
        live >= 0,
    ensures
        ({
            let after = after_acquire(all, k, size, align);
            let counted = counters_after_acquire(counters, all[k], size, align);
            match acquired(all[k], size, align) {
                Acquired::Cached { .. } => balanced(after, counted, live + 1),
                Acquired::Fresh { .. } => if mapped is Some {
                    balanced(after, counters_after_map(counted, mapped), live + 1)
                } else {
                    balanced(after, counters_after_map(counted, mapped), live)
                },
            }
        }),
{
    if reusable(all[k], size, align) {
        lemma_reused_region(all, k, size, align);
        let i = class_for(size).index as int;
        lemma_flat_all_update(all, k, i, all[k][i].drop_first());
    } else {
        assert(after_acquire(all, k, size, align) =~= all);
        lemma_wrap64_add(
            counters.unmapped + flat_all(all).len() + live,
            counters.mapped,
            1,
        );
    }
}

/// Freeing one of the regions in use keeps every region accounted for.
pub proof fn law_dealloc_accounts_for_every_region(
    all: Seq<Seq<Seq<Span>>>,
    counters: Counters,
    k: int,
    ceiling: usize,
    ptr: usize,
    size: int,
    align: int,
    live: int,
)
    requires
        sound(all, counters),
        balanced(all, counters, live),
        0 <= k < all.len(),
        classed(size),
        live > 0,
    ensures
        balanced(
            after_dealloc(all, k, counters, ceiling as int, ptr, size, align),
            counters_after_dealloc(counters, ceiling as int, size, align),
            live - 1,
        ),
{
    let after = after_dealloc(all, k, counters, ceiling as int, ptr, size, align);
    if cacheable(counters, ceiling as int, size, align) {
        law_retained_class_has_a_list(size);
        let i = class_for(size).index as int;
        lemma_flat_all_update(all, k, i, seq![region_of(ptr, size)] + all[k][i]);
    } else {
        assert(after =~= all);
        vstd::arithmetic::div_mod::lemma_small_mod(counters.unmapped as nat, (u64::MAX + 1) as nat);
        lemma_wrap64_add(counters.unmapped as int, counters.unmapped, 1);
        vstd::arithmetic::div_mod::lemma_add_mod_noop_right(
            flat_all(all).len() + live - 1,
            counters.unmapped + 1,
            u64::MAX + 1,
        );
    }
}

/// Releasing the cache keeps every region accounted for, and leaves those in use
/// alone.
pub proof fn law_release_accounts_for_every_region(
    all: Seq<Seq<Seq<Span>>>,
    counters: Counters,
    bytes: usize,
    live: int,
)
    requires
        balanced(all, counters, live),
        live >= 0,
    ensures
        balanced(emptied(all), counters_after_release(counters, all, bytes), live),
{
    lemma_nothing_in_emptied_shards(all);
    vstd::arithmetic::div_mod::lemma_add_mod_noop_right(
        live,
        counters.unmapped + flat_all(all).len(),
        u64::MAX + 1,
    );
}

/// Zeroed memory reads as zero: of a reused region, every byte that the request
/// asked for is among those that are cleared, whatever its previous tenant left
/// there, and no byte of memory outside the region is touched.
pub proof fn law_reused_memory_reads_as_zero(
    lists: Seq<Seq<Span>>,
    size: int,
    align: int,
    before: Map<int, u8>,
    after: Map<int, u8>,
    addr: usize,
)
    requires
        classed(size),
        acquired(lists, size, align) == (Acquired::Cached { addr }),
        forall|a: int| addr <= a < addr + size ==> before.dom().contains(a),
        purge_of(acquired(lists, size, align), size) matches Some(span) && cleared(
            before,
            after,
            span,
        ),
    ensures
        forall|a: int| addr <= a < addr + size ==> #[trigger] after[a] == 0,
        forall|a: int|
            before.dom().contains(a) && !region_of(addr, size).covers(a) ==> #[trigger] after[a]
                == before[a],
{
    lemma_class_exists(size);
    assert forall|a: int| addr <= a < addr + size implies #[trigger] after[a] == 0 by {
        assert(after.dom().contains(a));
    }
    assert forall|a: int|
        before.dom().contains(a) && !region_of(addr, size).covers(a) implies #[trigger] after[a]
        == before[a] by {
        assert(after.dom().contains(a));
    }
}

} // verus!
