use zk_alloc::cache::{
    alloc_zeroed, allocate, dealloc, map_fresh, release_all, shard, soften_all, Acquired, Disposal,
    Shard,
};
use zk_alloc::config::{CACHE_MAX_REGION, HUGE_PAGE, LARGE_THRESHOLD, PAGE};
use zk_alloc::free_list::{FreeList, FreeNode};
use zk_alloc::size_class::class_of;
use zk_alloc::sys::Span;
use zk_alloc::{cached_bytes, release_cache, soften_cache, stats, Counters, Stats};

const CEILING: usize = 1 << 30;

/// Memory for a node.
fn node() -> &'static mut FreeNode<'static> {
    Box::leak(Box::new(FreeNode::new()))
}

fn spans(mut list: FreeList<'_>) -> Vec<Span> {
    let mut v = Vec::new();
    while let Some(s) = list.pop() {
        v.push(s);
    }
    v
}

#[test]
fn a_miss_asks_for_a_mapping_of_the_class() {
    let mut s = Shard::new();
    let mut c = Counters::new();
    assert_eq!(
        allocate(&mut s, &mut c, 100 * 1024, 16),
        Acquired::Fresh { total: 112 * 1024, align: PAGE }
    );
    assert_eq!(
        allocate(&mut s, &mut c, 3 * HUGE_PAGE, 16),
        Acquired::Fresh { total: 3 * HUGE_PAGE, align: HUGE_PAGE }
    );
    assert_eq!(
        allocate(&mut s, &mut c, 100 * 1024, 8 * PAGE),
        Acquired::Fresh { total: 112 * 1024, align: 8 * PAGE }
    );
    assert_eq!(c, Counters::new());
}

#[test]
fn a_hit_takes_the_region_freed_last() {
    let mut s = Shard::new();
    let mut c = Counters::new();
    let total = class_of(100 * 1024).total;
    for addr in [0x10_0000, 0x20_0000] {
        assert_eq!(dealloc(&mut s, &mut c, CEILING, addr, 100 * 1024, 16, node()), Disposal::Cached);
    }
    assert_eq!(cached_bytes(&c), 2 * total);
    // Another size of the same class.
    assert_eq!(
        allocate(&mut s, &mut c, 112 * 1024, 16),
        Acquired::Cached { addr: 0x20_0000 }
    );
    assert_eq!(
        allocate(&mut s, &mut c, 97 * 1024, PAGE),
        Acquired::Cached { addr: 0x10_0000 }
    );
    assert_eq!(c.hits, 2);
    assert_eq!(cached_bytes(&c), 0);
    assert_eq!(
        allocate(&mut s, &mut c, 100 * 1024, 16),
        Acquired::Fresh { total, align: PAGE }
    );
}

#[test]
fn a_region_of_another_class_is_not_used() {
    let mut s = Shard::new();
    let mut c = Counters::new();
    dealloc(&mut s, &mut c, CEILING, 0x10_0000, 128 * 1024, 16, node());
    assert_eq!(
        allocate(&mut s, &mut c, 112 * 1024, 16),
        Acquired::Fresh { total: 112 * 1024, align: PAGE }
    );
}

#[test]
fn a_pooled_region_does_not_serve_a_stricter_alignment() {
    let mut s = Shard::new();
    let mut c = Counters::new();
    dealloc(&mut s, &mut c, CEILING, 0x10_0000, LARGE_THRESHOLD, 16, node());
    assert_eq!(
        allocate(&mut s, &mut c, LARGE_THRESHOLD, 2 * PAGE),
        Acquired::Fresh { total: LARGE_THRESHOLD, align: 2 * PAGE }
    );
    dealloc(&mut s, &mut c, CEILING, 4 * HUGE_PAGE, HUGE_PAGE, 16, node());
    assert_eq!(
        allocate(&mut s, &mut c, HUGE_PAGE, HUGE_PAGE),
        Acquired::Cached { addr: 4 * HUGE_PAGE }
    );
}

#[test]
fn what_is_not_retained_goes_straight_back() {
    let mut s = Shard::new();
    let mut c = Counters::new();
    let size = CACHE_MAX_REGION + 1;
    let total = class_of(size).total;
    assert_eq!(
        dealloc(&mut s, &mut c, usize::MAX, 0x10_0000, size, 16, node()),
        Disposal::Unmap(Span { addr: 0x10_0000, len: total })
    );
    assert_eq!(
        dealloc(&mut s, &mut c, usize::MAX, 4 * HUGE_PAGE, LARGE_THRESHOLD, 2 * HUGE_PAGE, node()),
        Disposal::Unmap(Span { addr: 4 * HUGE_PAGE, len: LARGE_THRESHOLD })
    );
    assert_eq!(c.unmapped, 2);
    assert_eq!(cached_bytes(&c), 0);
    assert_eq!(
        allocate(&mut s, &mut c, size, 16),
        Acquired::Fresh { total, align: HUGE_PAGE }
    );
    assert_eq!(
        allocate(&mut s, &mut c, LARGE_THRESHOLD, 2 * HUGE_PAGE),
        Acquired::Fresh { total: LARGE_THRESHOLD, align: 2 * HUGE_PAGE }
    );
}

#[test]
fn the_ceiling_bounds_the_cache() {
    let mut s = Shard::new();
    let mut c = Counters::new();
    let ceiling = 2 * LARGE_THRESHOLD;
    let free = |s: &mut Shard<'static>, c: &mut Counters, addr| {
        dealloc(s, c, ceiling, addr, LARGE_THRESHOLD, 16, node())
    };
    assert_eq!(free(&mut s, &mut c, 0x10_0000), Disposal::Cached);
    assert_eq!(free(&mut s, &mut c, 0x20_0000), Disposal::Cached);
    assert_eq!(
        free(&mut s, &mut c, 0x30_0000),
        Disposal::Unmap(Span { addr: 0x30_0000, len: LARGE_THRESHOLD })
    );
    assert_eq!(cached_bytes(&c), ceiling);
    assert_eq!(c.unmapped, 1);
    // A count that would overflow is past any ceiling.
    let mut full = Counters { cached_bytes: usize::MAX, ..Counters::new() };
    assert_eq!(
        dealloc(&mut s, &mut full, usize::MAX, 0x30_0000, LARGE_THRESHOLD, 16, node()),
        Disposal::Unmap(Span { addr: 0x30_0000, len: LARGE_THRESHOLD })
    );
}

#[test]
fn freeing_and_allocating_undo_each_other() {
    let mut s = Shard::new();
    let mut c = Counters::new();
    dealloc(&mut s, &mut c, CEILING, 0x10_0000, 70_000, 16, node());
    let before = c;
    dealloc(&mut s, &mut c, CEILING, 0x20_0000, 75_000, 16, node());
    assert_eq!(
        allocate(&mut s, &mut c, 70_000, 16),
        Acquired::Cached { addr: 0x20_0000 }
    );
    assert_eq!(c, Counters { hits: 1, ..before });
    let (mut regions, bytes) = s.soften();
    assert_eq!(bytes, 80 * 1024);
    assert_eq!(regions.next(), Some(Span { addr: 0x10_0000, len: 80 * 1024 }));
    assert_eq!(regions.next(), None);
    assert_eq!(regions.next(), None);
}

#[test]
fn zeroed_memory_is_purged_only_when_reused() {
    let mut s = Shard::new();
    let mut c = Counters::new();
    let size = 90_000;
    let total = class_of(size).total;
    assert_eq!(
        alloc_zeroed(&mut s, &mut c, size, 16),
        (Acquired::Fresh { total, align: PAGE }, None)
    );
    dealloc(&mut s, &mut c, CEILING, 0x10_0000, size, 16, node());
    assert_eq!(
        alloc_zeroed(&mut s, &mut c, size, 16),
        (
            Acquired::Cached { addr: 0x10_0000 },
            Some(Span { addr: 0x10_0000, len: total })
        )
    );
}

#[test]
fn a_mapping_is_counted_when_it_is_made() {
    let mut c = Counters::new();
    assert_eq!(map_fresh(&mut c, None), None);
    assert_eq!(c, Counters::new());
    assert_eq!(map_fresh(&mut c, Some(0x5000)), Some(0x5000));
    assert_eq!(c, Counters { misses: 1, mapped: 1, ..Counters::new() });
}

#[test]
fn softening_keeps_and_releasing_empties() {
    let mut shards = vec![Shard::new(), Shard::new()];
    let mut c = Counters::new();
    dealloc(&mut shards[0], &mut c, CEILING, 0x10_0000, 128 * 1024, 16, node());
    dealloc(&mut shards[0], &mut c, CEILING, 0x20_0000, 64 * 1024, 16, node());
    dealloc(&mut shards[0], &mut c, CEILING, 0x30_0000, 64 * 1024, 16, node());
    dealloc(&mut shards[1], &mut c, CEILING, 0x40_0000, 64 * 1024, 16, node());
    let held = vec![
        Span { addr: 0x30_0000, len: 64 * 1024 },
        Span { addr: 0x20_0000, len: 64 * 1024 },
        Span { addr: 0x10_0000, len: 128 * 1024 },
        Span { addr: 0x40_0000, len: 64 * 1024 },
    ];
    let bytes = 320 * 1024;
    assert_eq!(cached_bytes(&c), bytes);

    for _ in 0..2 {
        let (mut regions, softened) = soften_cache(&shards);
        assert_eq!(softened, bytes);
        for region in &held {
            assert_eq!(regions.next(), Some(*region));
        }
        assert_eq!(regions.next(), None);
    }
    assert_eq!(soften_all(&shards).1, bytes);
    assert_eq!(soften_all(&shards[1..]).1, 64 * 1024);

    let gone = release_cache(&mut shards, &mut c);
    assert_eq!(gone.bytes, bytes);
    assert_eq!(spans(gone.regions), held);
    assert_eq!(cached_bytes(&c), 0);
    assert_eq!(c.unmapped, 4);

    let nothing = release_all(&mut shards, &mut c);
    assert_eq!(nothing.bytes, 0);
    assert!(nothing.regions.is_empty());
    assert_eq!(c.unmapped, 4);
}

#[test]
fn releasing_never_takes_the_count_below_zero() {
    let mut shards = vec![Shard::new()];
    let mut c = Counters::new();
    dealloc(&mut shards[0], &mut c, CEILING, 0x10_0000, 64 * 1024, 16, node());
    c.cached_bytes = 5;
    assert_eq!(release_cache(&mut shards, &mut c).bytes, 64 * 1024);
    assert_eq!(cached_bytes(&c), 0);
}

#[test]
fn threads_pick_a_shard_by_their_anchor() {
    assert_eq!(shard(0, 1), 0);
    assert_eq!(shard(usize::MAX, 1), 0);
    assert_eq!(shard(0x7f00_0000_0040, 8), 1);
    assert_eq!(shard(0x7f00_0000_01ff, 8), 7);
    assert_eq!(shard(0x7f00_0000_0200, 8), 0);
}

#[test]
fn stats_are_a_snapshot_of_the_counters() {
    let c = Counters { hits: 1, misses: 2, mapped: 3, unmapped: 4, cached_bytes: 5 };
    assert_eq!(
        stats(&c),
        Stats {
            cache_hits: 1,
            cache_misses: 2,
            regions_mapped: 3,
            regions_unmapped: 4,
            bytes_cached: 5,
        }
    );
    assert_eq!(stats(&Counters::new()), Stats::default());
}

#[test]
fn a_shard_is_a_stack_per_class() {
    let mut s = Shard::new();
    assert_eq!(s.pop(3), None);
    s.push(3, 0x1000, 10, node());
    s.push(3, 0x2000, 20, node());
    s.push(4, 0x3000, 30, node());
    assert_eq!(s.pop(3), Some(Span { addr: 0x2000, len: 20 }));
    let mut c = Counters::new();
    let gone = s.drain(&mut c);
    assert_eq!(gone.bytes, 40);
    assert_eq!(c.unmapped, 2);
    assert_eq!(
        spans(gone.regions),
        vec![Span { addr: 0x1000, len: 10 }, Span { addr: 0x3000, len: 30 }]
    );
    assert_eq!(s.pop(4), None);
}

#[test]
fn lists_keep_their_order() {
    let one = |n: usize| Span { addr: n, len: n };
    let mut a = FreeList::new();
    assert!(a.is_empty());
    for n in [3, 2, 1] {
        a.push(one(n), node());
    }
    assert_eq!(a.bytes(), 6);
    assert_eq!(a.count(), 3);
    let mut walk = a.walk();
    for n in [1, 2, 3] {
        assert_eq!(walk.next(), Some(one(n)));
    }
    assert_eq!(walk.next(), None);
    let mut b = FreeList::new();
    b.push(one(9), node());
    b.prepend(a);
    assert_eq!(spans(b), vec![one(1), one(2), one(3), one(9)]);
}

#[test]
fn byte_counts_wrap() {
    let mut a = FreeList::new();
    a.push(Span { addr: 0, len: usize::MAX }, node());
    a.push(Span { addr: 0, len: 3 }, node());
    assert_eq!(a.bytes(), 2);
}

#[test]
fn a_list_node_fits_in_the_first_page_of_its_region() {
    assert!(std::mem::size_of::<FreeNode>() <= PAGE);
    assert_eq!(PAGE % std::mem::align_of::<FreeNode>(), 0);
    assert!(PAGE < LARGE_THRESHOLD);
}

#[test]
fn a_list_borrows_the_nodes_that_it_is_given() {
    let mut first = FreeNode::new();
    let mut second = FreeNode::new();
    let mut list = FreeList::new();
    list.push(Span { addr: 1, len: 10 }, &mut first);
    list.push(Span { addr: 2, len: 20 }, &mut second);
    assert_eq!(list.pop(), Some(Span { addr: 2, len: 20 }));
    assert_eq!(list.pop(), Some(Span { addr: 1, len: 10 }));
    assert_eq!(list.pop(), None);
    assert!(list.is_empty());
}

#[test]
fn served_is_hits_and_misses() {
    let s = Stats { cache_hits: 3, cache_misses: 4, ..Stats::default() };
    assert_eq!(s.served(), 7);
    let full = Stats { cache_hits: u64::MAX, cache_misses: u64::MAX, ..Stats::default() };
    assert_eq!(full.served(), 2 * (u64::MAX as u128));
}

#[test]
fn every_mapped_region_is_accounted_for() {
    let mut shards = vec![Shard::new()];
    let mut c = Counters::new();
    let mut live: u64 = 0;
    for (i, ptr) in [0x10_0000usize, 0x20_0000, 0x30_0000].into_iter().enumerate() {
        let a = allocate(&mut shards[0], &mut c, 64 * 1024, 16);
        assert_eq!(a, Acquired::Fresh { total: 64 * 1024, align: PAGE });
        map_fresh(&mut c, Some(ptr));
        live += 1;
        assert_eq!(c.mapped, i as u64 + 1);
        assert_eq!(c.mapped, c.unmapped + live);
    }
    // Two fit under the ceiling, the third goes back to the kernel.
    let ceiling = 2 * 64 * 1024;
    for ptr in [0x10_0000usize, 0x20_0000, 0x30_0000] {
        dealloc(&mut shards[0], &mut c, ceiling, ptr, 64 * 1024, 16, node());
        live -= 1;
    }
    assert_eq!((c.mapped, c.unmapped, live), (3, 1, 0));
    assert_eq!(cached_bytes(&c), ceiling);

    allocate(&mut shards[0], &mut c, 64 * 1024, 16);
    live += 1;
    assert_eq!(spans(release_cache(&mut shards, &mut c).regions).len(), 1);
    assert_eq!(c.mapped, c.unmapped + live);
    assert_eq!(c.misses, c.mapped);
}
