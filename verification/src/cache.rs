//! The large-region cache: the piece that wins on prover workloads.
//!
//! Every allocation at or above
//! [`LARGE_THRESHOLD`](crate::config::LARGE_THRESHOLD) is rounded to a size class
//! and served from, or returned to, a cache of resident mappings. Reusing a
//! mapping that is already faulted in is the whole point: it skips the kernel
//! page-fault-and-zero storm that the default allocator pays each time it
//! re-acquires a freed multi-megabyte buffer for the next proof round.
//!
//! ## Layout
//!
//! Free regions are kept in a [`Shard`], in one intrusive list per size class:
//! while a region sits in the cache, its first bytes can hold the [`FreeNode`]
//! that links it, so the cache needs no heap of its own. The cache
//! is split across several shards, picked per thread with [`shard`], so
//! concurrent provers rarely contend. Regions are fungible: a buffer freed on
//! one thread can be reused on any other, so a foreign free just lands in the
//! freeing thread's shard.
//!
//! A request works on one shard and on the [`Counters`], which all the shards
//! have in common.
//!
//! ## Classification
//!
//! [`dealloc`] is handed the size and alignment that the block was allocated
//! with, so the size class is recomputed exactly as on [`allocate`]: no
//! per-allocation header and no global address table. A request below the
//! threshold never reaches this module.

use vstd::arithmetic::power2::is_pow2;
use vstd::prelude::*;

use crate::config::{CACHE_MAX_REGION, HUGE_PAGE, MAX_CLASSES};
use crate::free_list::{
    lemma_sum_len_back, lemma_sum_len_concat, lemma_wrap_add, lemma_wrap_sum, sum_len, wrap, wrap64,
    FreeList, FreeNode, ListWalk,
};
use crate::size_class::{
    class_for, class_of, classed, law_retained_class_has_a_list, region_align, region_align_for,
};
use crate::stats::Counters;
use crate::sys::{lemma_pow2_exponent, Span};

verus! {

/// All the regions of a sequence of lists, list after list.
pub open spec fn flat(lists: Seq<Seq<Span>>) -> Seq<Span>
    decreases lists.len(),
{
    if lists.len() == 0 {
        Seq::empty()
    } else {
        lists[0] + flat(lists.drop_first())
    }
}

/// The free regions of one shard: one list per size class.
pub struct Shard<'a> {
    heads: [FreeList<'a>; MAX_CLASSES],
}

impl<'a> View for Shard<'a> {
    type V = Seq<Seq<Span>>;

    /// The lists by class index, each with the region that was freed last first.
    closed spec fn view(&self) -> Seq<Seq<Span>> {
        Seq::new(MAX_CLASSES as nat, |i: int| self.heads@[i]@)
    }
}

/// What is taken out of the cache to be given back.
pub struct Sweep<'a> {
    /// The regions, in the order in which they were met.
    pub regions: FreeList<'a>,
    /// Their bytes, in a counter that wraps.
    pub bytes: usize,
}

impl<'a> Sweep<'a> {
    /// The regions taken out are `regions`.
    pub open spec fn met(&self, regions: Seq<Span>) -> bool {
        &&& self.regions@ == regions
        &&& self.bytes == wrap(sum_len(regions))
    }
}

/// A walk over the cached regions of a shard, which stay in the cache.
pub struct ShardWalk<'s, 'a> {
    shard: &'s Shard<'a>,
    list: ListWalk<'s, 'a>,
    class: usize,
}

impl<'s, 'a> View for ShardWalk<'s, 'a> {
    type V = Seq<Span>;

    /// The regions that are still to come: those on the list that the walk is on,
    /// and those on the lists after it.
    closed spec fn view(&self) -> Seq<Span> {
        self.list@ + flat(self.shard@.skip(self.class as int))
    }
}

/// A walk over the cached regions of several shards, which stay in the cache.
pub struct CacheWalk<'s, 'a> {
    shards: &'s [Shard<'a>],
    walk: Option<ShardWalk<'s, 'a>>,
    next: usize,
}

impl<'s, 'a> View for CacheWalk<'s, 'a> {
    type V = Seq<Span>;

    /// The regions that are still to come: those of the shard that the walk is
    /// on, and those of the shards after it.
    closed spec fn view(&self) -> Seq<Span> {
        (match self.walk {
            Some(walk) => walk@,
            None => Seq::empty(),
        }) + flat_all(views(self.shards@).skip(self.next as int))
    }
}

/// The regions from list `i` on are those of list `i` and then the rest.
proof fn lemma_flat_skip(lists: Seq<Seq<Span>>, i: int)
    requires
        0 <= i < lists.len(),
    ensures
        flat(lists.skip(i)) == lists[i] + flat(lists.skip(i + 1)),
{
    assert(lists.skip(i).drop_first() =~= lists.skip(i + 1));
}

impl<'s, 'a> ShardWalk<'s, 'a> {
    #[verifier::type_invariant]
    spec fn wf(self) -> bool {
        self.class <= MAX_CLASSES
    }

    /// Go on to the next region, if there is one.
    pub fn next(&mut self) -> (r: Option<Span>)
        ensures
            r == (if old(self)@.len() == 0 {
                None
            } else {
                Some(old(self)@[0])
            }),
            final(self)@ == (if old(self)@.len() == 0 {
                old(self)@
            } else {
                old(self)@.drop_first()
            }),
    {
        proof {
            use_type_invariant(&*self);
        }
        let shard = self.shard;
        let mut here = ShardWalk { shard, list: shard.heads[0].walk(), class: 0 };
        std::mem::swap(self, &mut here);
        let mut list = here.list;
        let mut class: usize = here.class;
        loop
            invariant
                class <= MAX_CLASSES,
                shard@.len() == MAX_CLASSES,
                list@ + flat(shard@.skip(class as int)) == old(self)@,
            decreases MAX_CLASSES - class,
        {
            let ghost rest = list@;
            if let Some(region) = list.next() {
                *self = ShardWalk { shard, list, class };
                assert(self@ =~= old(self)@.drop_first());
                return Some(region);
            }
            if class == MAX_CLASSES {
                *self = ShardWalk { shard, list, class };
                assert(shard@.skip(class as int) =~= Seq::empty());
                assert(old(self)@ =~= Seq::empty());
                assert(self@ =~= old(self)@);
                return None;
            }
            proof {
                lemma_flat_skip(shard@, class as int);
            }
            list = shard.heads[class].walk();
            class = class + 1;
            assert(list@ + flat(shard@.skip(class as int)) =~= old(self)@);
        }
    }
}

impl<'s, 'a> CacheWalk<'s, 'a> {
    #[verifier::type_invariant]
    spec fn wf(self) -> bool {
        self.next <= self.shards@.len()
    }

    /// Go on to the next region, if there is one.
    pub fn next(&mut self) -> (r: Option<Span>)
        ensures
            r == (if old(self)@.len() == 0 {
                None
            } else {
                Some(old(self)@[0])
            }),
            final(self)@ == (if old(self)@.len() == 0 {
                old(self)@
            } else {
                old(self)@.drop_first()
            }),
    {
        proof {
            use_type_invariant(&*self);
        }
        let shards = self.shards;
        let ghost all = views(shards@);
        let mut here = CacheWalk { shards, walk: None, next: 0 };
        std::mem::swap(self, &mut here);
        let mut walk = here.walk;
        let mut next: usize = here.next;
        loop
            invariant
                next <= shards@.len(),
                all == views(shards@),
                (match walk {
                    Some(w) => w@,
                    None => Seq::empty(),
                }) + flat_all(all.skip(next as int)) == old(self)@,
            decreases shards@.len() - next,
        {
            if let Some(mut w) = walk {
                let region = w.next();
                if region.is_some() {
                    *self = CacheWalk { shards, walk: Some(w), next };
                    assert(self@ =~= old(self)@.drop_first());
                    return region;
                }
            }
            if next == shards.len() {
                *self = CacheWalk { shards, walk: None, next };
                assert(all.skip(next as int) =~= Seq::empty());
                assert(old(self)@ =~= Seq::empty());
                assert(self@ =~= old(self)@);
                return None;
            }
            proof {
                lemma_flat_all_skip(all, next as int);
            }
            walk = Some(shards[next].walk());
            next = next + 1;
            assert((match walk {
                Some(w) => w@,
                None => Seq::empty(),
            }) + flat_all(all.skip(next as int)) =~= old(self)@);
        }
    }
}

impl<'a> Shard<'a> {
    /// A shard has a list for each class.
    pub open spec fn wf(&self) -> bool {
        self@.len() == MAX_CLASSES
    }

    /// An empty shard.
    pub fn new() -> (r: Self)
        ensures
            r.wf(),
            r@ == Seq::new(MAX_CLASSES as nat, |i: int| Seq::<Span>::empty()),
    {
        let heads = [
            FreeList::new(), FreeList::new(), FreeList::new(), FreeList::new(),
            FreeList::new(), FreeList::new(), FreeList::new(), FreeList::new(),
            FreeList::new(), FreeList::new(), FreeList::new(), FreeList::new(),
            FreeList::new(), FreeList::new(), FreeList::new(), FreeList::new(),
            FreeList::new(), FreeList::new(), FreeList::new(), FreeList::new(),
            FreeList::new(), FreeList::new(), FreeList::new(), FreeList::new(),
            FreeList::new(), FreeList::new(), FreeList::new(), FreeList::new(),
            FreeList::new(), FreeList::new(), FreeList::new(), FreeList::new(),
            FreeList::new(), FreeList::new(), FreeList::new(), FreeList::new(),
            FreeList::new(), FreeList::new(), FreeList::new(), FreeList::new(),
            FreeList::new(), FreeList::new(), FreeList::new(), FreeList::new(),
            FreeList::new(), FreeList::new(), FreeList::new(), FreeList::new(),
            FreeList::new(), FreeList::new(), FreeList::new(), FreeList::new(),
            FreeList::new(), FreeList::new(), FreeList::new(), FreeList::new(),
        ];
        let r = Shard { heads };
        assert(r@ =~= Seq::new(MAX_CLASSES as nat, |i: int| Seq::<Span>::empty()));
        r
    }

    /// Take a cached region of class `index`, the one freed last.
    pub fn pop(&mut self, index: usize) -> (r: Option<Span>)
        requires
            index < old(self)@.len(),
        ensures
            ({
                let list = old(self)@[index as int];
                if list.len() == 0 {
                    r is None && final(self)@ == old(self)@
                } else {
                    &&& r == Some(list[0])
                    &&& final(self)@ == old(self)@.update(index as int, list.drop_first())
                }
            }),
    {
        let r = self.heads[index].pop();
        proof {
            let list = old(self)@[index as int];
            if list.len() == 0 {
                assert(self@ =~= old(self)@);
            } else {
                assert(self@ =~= old(self)@.update(index as int, list.drop_first()));
            }
        }
        r
    }

    /// Cache the region of `total` bytes at `region` under class `index`, linked
    /// through `node`.
    pub fn push(
        &mut self,
        index: usize,
        region: usize,
        total: usize,
        node: &'a mut FreeNode<'a>,
    )
        requires
            index < old(self)@.len(),
        ensures
            final(self)@ == old(self)@.update(
                index as int,
                seq![Span { addr: region, len: total }] + old(self)@[index as int],
            ),
    {
        self.heads[index].push(Span { addr: region, len: total }, node);
        assert(self@ =~= old(self)@.update(
            index as int,
            seq![Span { addr: region, len: total }] + old(self)@[index as int],
        ));
    }

    /// Walk over the cached regions.
    fn walk<'s>(&'s self) -> (r: ShardWalk<'s, 'a>)
        ensures
            r@ == flat(self@),
    {
        let r = ShardWalk { shard: self, list: self.heads[0].walk(), class: 1 };
        proof {
            lemma_flat_skip(self@, 0);
            assert(self@.skip(0) =~= self@);
        }
        r
    }

    /// Find every cached region, so that each may be advised `MADV_FREE`: the
    /// regions stay in the cache (warm), but the kernel may reclaim their
    /// physical pages under pressure. If a region is reused before that
    /// happens, the first write cancels the advice and no re-fault occurs. A
    /// node that lies in its region is still in use, so whoever put it there
    /// leaves its page out of the advice. Returns the regions and their bytes.
    pub fn soften<'s>(&'s self) -> (r: (ShardWalk<'s, 'a>, usize))
        ensures
            r.0@ == flat(self@),
            r.1 == wrap(sum_len(flat(self@))),
    {
        let mut bytes: usize = 0;
        let mut walk = self.walk();
        let ghost mut done: Seq<Span> = Seq::empty();
        proof {
            vstd::arithmetic::div_mod::lemma_small_mod(0, (usize::MAX + 1) as nat);
        }
        loop
            invariant
                done + walk@ == flat(self@),
                bytes == wrap(sum_len(done)),
            ensures
                bytes == wrap(sum_len(flat(self@))),
            decreases walk@.len(),
        {
            let ghost rest = walk@;
            match walk.next() {
                None => {
                    assert(done + walk@ =~= done);
                    break;
                },
                Some(region) => {
                    proof {
                        lemma_sum_len_back(done, region);
                        lemma_wrap_add(sum_len(done), bytes, region.len);
                        assert(done.push(region) + walk@ =~= done + rest);
                        done = done.push(region);
                    }
                    bytes = bytes.wrapping_add(region.len);
                },
            }
        }
        (self.walk(), bytes)
    }

    /// Give up every region held in this shard, to be unmapped.
    pub fn drain(&mut self, counters: &mut Counters) -> (r: Sweep<'a>)
        ensures
            r.met(flat(old(self)@)),
            final(self)@ == Seq::new(old(self)@.len(), |i: int| Seq::<Span>::empty()),
            *final(counters) == (Counters {
                unmapped: wrap64(old(counters).unmapped + flat(old(self)@).len()) as u64,
                ..*old(counters)
            }),
    {
        let mut regions = FreeList::new();
        let mut i: usize = MAX_CLASSES;
        assert(self@.skip(i as int) =~= Seq::empty());
        while i > 0
            invariant
                i <= MAX_CLASSES,
                self@.len() == MAX_CLASSES,
                self@.len() == old(self)@.len(),
                regions@ == flat(old(self)@.skip(i as int)),
                forall|j: int| 0 <= j < i ==> self@[j] == old(self)@[j],
                forall|j: int| i <= j < self@.len() ==> self@[j] == Seq::<Span>::empty(),
            decreases i,
        {
            i = i - 1;
            let mut list = FreeList::new();
            let ghost before = self@;
            std::mem::swap(&mut self.heads[i], &mut list);
            assert(self@ =~= before.update(i as int, Seq::empty()));
            regions.prepend(list);
            proof {
                lemma_flat_skip(old(self)@, i as int);
            }
        }
        assert(old(self)@.skip(0) =~= old(self)@);
        assert(self@ =~= Seq::new(old(self)@.len(), |i: int| Seq::<Span>::empty()));
        let bytes = regions.bytes();
        let count = regions.count();
        proof {
            lemma_wrap64_sum(counters.unmapped, count, flat(old(self)@).len() as int);
        }
        counters.unmapped = counters.unmapped.wrapping_add(count);
        Sweep { regions, bytes }
    }
}

/// Adding a count that has itself wrapped.
proof fn lemma_wrap64_sum(acc: u64, count: u64, n: int)
    requires
        n >= 0,
        count == wrap64(n),
    ensures
        acc.wrapping_add(count) == wrap64(acc + n),
{
    crate::free_list::lemma_wrap64_add(n, count, acc);
}

/// Where the memory for a large request comes from.
#[derive(Clone, Copy, Debug, PartialEq, Eq, Structural)]
pub enum Acquired {
    /// A cached region that starts at `addr`. It still holds its previous
    /// tenant's bytes.
    Cached { addr: usize },
    /// A fresh mapping of `total` bytes aligned to `align`, still to be made.
    Fresh { total: usize, align: usize },
}

/// Where a large region goes when it is freed.
#[derive(Clone, Copy, Debug, PartialEq, Eq, Structural)]
pub enum Disposal {
    /// It is in the cache now.
    Cached,
    /// It is to be unmapped.
    Unmap(Span),
}

/// Whether the regions of a request are ever kept in the cache: not if they are
/// too large to retain, or aligned beyond what a pooled region guarantees.
pub open spec fn retained(size: int, align: int) -> bool {
    class_for(size).total <= CACHE_MAX_REGION && align <= HUGE_PAGE
}

/// Whether a shard with these lists can serve the request from the cache. A
/// pooled region of a class is aligned as its class is, so it can only satisfy
/// requests whose alignment it already meets.
pub open spec fn reusable(lists: Seq<Seq<Span>>, size: int, align: int) -> bool {
    let class = class_for(size);
    &&& retained(size, align)
    &&& align <= region_align_for(class.total as int)
    &&& lists[class.index as int].len() > 0
}

/// What a request is served with.
pub open spec fn acquired(lists: Seq<Seq<Span>>, size: int, align: int) -> Acquired {
    let class = class_for(size);
    let ra = region_align_for(class.total as int);
    if reusable(lists, size, align) {
        Acquired::Cached { addr: lists[class.index as int][0].addr }
    } else {
        Acquired::Fresh {
            total: class.total,
            align: (if align >= ra {
                align
            } else {
                ra
            }) as usize,
        }
    }
}

/// The lists once the request is served: the region that serves it has left.
pub open spec fn lists_after_acquire(
    lists: Seq<Seq<Span>>,
    size: int,
    align: int,
) -> Seq<Seq<Span>> {
    let index = class_for(size).index as int;
    if reusable(lists, size, align) {
        lists.update(index, lists[index].drop_first())
    } else {
        lists
    }
}

/// The counters once the request is served. A request that needs a mapping is
/// counted when the mapping is made.
pub open spec fn counters_after_acquire(
    counters: Counters,
    lists: Seq<Seq<Span>>,
    size: int,
    align: int,
) -> Counters {
    if reusable(lists, size, align) {
        Counters {
            hits: counters.hits.wrapping_add(1),
            cached_bytes: counters.cached_bytes.wrapping_sub(class_for(size).total),
            ..counters
        }
    } else {
        counters
    }
}

/// Serve a request, from the cache if a region of its class is there.
fn acquire(shard: &mut Shard, counters: &mut Counters, size: usize, align: usize) -> (r: Acquired)
    requires
        old(shard).wf(),
        classed(size as int),
    ensures
        r == acquired(old(shard)@, size as int, align as int),
        final(shard)@ == lists_after_acquire(old(shard)@, size as int, align as int),
        *final(counters) == counters_after_acquire(
            *old(counters),
            old(shard)@,
            size as int,
            align as int,
        ),
{
    let class = class_of(size);
    let ra: usize = region_align(class.total);
    let map_align: usize = if align >= ra { align } else { ra };

    // Too large to retain, or aligned beyond what a pooled region guarantees:
    // map it directly and don't track it in the cache.
    if class.total > CACHE_MAX_REGION || align > HUGE_PAGE {
        return Acquired::Fresh { total: class.total, align: map_align };
    }
    if align <= ra {
        proof {
            law_retained_class_has_a_list(size as int);
        }
        if let Some(region) = shard.pop(class.index) {
            counters.hits = counters.hits.wrapping_add(1);
            counters.cached_bytes = counters.cached_bytes.wrapping_sub(class.total);
            return Acquired::Cached { addr: region.addr };
        }
    }
    Acquired::Fresh { total: class.total, align: map_align }
}

/// Serve a large request (`size >= LARGE_THRESHOLD`), reusing a cached region
/// when one of the right class is available.
pub fn allocate(shard: &mut Shard, counters: &mut Counters, size: usize, align: usize) -> (r: Acquired)
    requires
        old(shard).wf(),
        classed(size as int),
    ensures
        r == acquired(old(shard)@, size as int, align as int),
        final(shard)@ == lists_after_acquire(old(shard)@, size as int, align as int),
        *final(counters) == counters_after_acquire(
            *old(counters),
            old(shard)@,
            size as int,
            align as int,
        ),
{
    acquire(shard, counters, size, align)
}

/// The pages to be dropped before a region is handed out as zeroed memory: all
/// those of a reused region, which still holds its previous tenant's bytes, and
/// none of a fresh mapping, which the kernel fills with zeros on demand.
pub open spec fn purge_of(acquired: Acquired, size: int) -> Option<Span> {
    match acquired {
        Acquired::Cached { addr } => Some(Span { addr, len: class_for(size).total }),
        Acquired::Fresh { .. } => None,
    }
}

/// Like [`allocate`], for zeroed memory. The second result is the span, if any,
/// that is to be advised `MADV_DONTNEED` before the region is handed out: the
/// next read of each of its pages then returns zero lazily, like `calloc`.
pub fn alloc_zeroed(
    shard: &mut Shard,
    counters: &mut Counters,
    size: usize,
    align: usize,
) -> (r: (Acquired, Option<Span>))
    requires
        old(shard).wf(),
        classed(size as int),
    ensures
        r.0 == acquired(old(shard)@, size as int, align as int),
        r.1 == purge_of(r.0, size as int),
        final(shard)@ == lists_after_acquire(old(shard)@, size as int, align as int),
        *final(counters) == counters_after_acquire(
            *old(counters),
            old(shard)@,
            size as int,
            align as int,
        ),
{
    let acquired = acquire(shard, counters, size, align);
    let purge = match acquired {
        Acquired::Cached { addr } => Some(Span { addr, len: class_of(size).total }),
        Acquired::Fresh { .. } => None,
    };
    (acquired, purge)
}

/// Whether a freed region goes into the cache: it must be one that is retained,
/// and must not push the cache past its ceiling.
pub open spec fn cacheable(counters: Counters, ceiling: int, size: int, align: int) -> bool {
    retained(size, align) && counters.cached_bytes + class_for(size).total <= ceiling
}

/// The region that serves a request of `size` bytes and starts at `ptr`.
pub open spec fn region_of(ptr: usize, size: int) -> Span {
    Span { addr: ptr, len: class_for(size).total }
}

/// What becomes of a freed region.
pub open spec fn disposal(
    counters: Counters,
    ceiling: int,
    ptr: usize,
    size: int,
    align: int,
) -> Disposal {
    if cacheable(counters, ceiling, size, align) {
        Disposal::Cached
    } else {
        Disposal::Unmap(region_of(ptr, size))
    }
}

/// The lists once the region is freed: if it is cached, it is in front of the
/// list of its class.
pub open spec fn lists_after_dealloc(
    lists: Seq<Seq<Span>>,
    counters: Counters,
    ceiling: int,
    ptr: usize,
    size: int,
    align: int,
) -> Seq<Seq<Span>> {
    let index = class_for(size).index as int;
    if cacheable(counters, ceiling, size, align) {
        lists.update(index, seq![region_of(ptr, size)] + lists[index])
    } else {
        lists
    }
}

/// The counters once the region is freed.
pub open spec fn counters_after_dealloc(
    counters: Counters,
    ceiling: int,
    size: int,
    align: int,
) -> Counters {
    if cacheable(counters, ceiling, size, align) {
        Counters {
            cached_bytes: (counters.cached_bytes + class_for(size).total) as usize,
            ..counters
        }
    } else {
        Counters { unmapped: counters.unmapped.wrapping_add(1), ..counters }
    }
}

/// Return a large region. Caches it for reuse unless that would push the cache
/// past its byte ceiling, in which case the pages go back to the kernel.
///
/// `node` is what links the region while it is cached. It can lie in the region
/// itself, which is free memory from now on.
pub fn dealloc<'a>(
    shard: &mut Shard<'a>,
    counters: &mut Counters,
    ceiling: usize,
    ptr: usize,
    size: usize,
    align: usize,
    node: &'a mut FreeNode<'a>,
) -> (r: Disposal)
    requires
        old(shard).wf(),
        classed(size as int),
    ensures
        r == disposal(*old(counters), ceiling as int, ptr, size as int, align as int),
        final(shard)@ == lists_after_dealloc(
            old(shard)@,
            *old(counters),
            ceiling as int,
            ptr,
            size as int,
            align as int,
        ),
        *final(counters) == counters_after_dealloc(
            *old(counters),
            ceiling as int,
            size as int,
            align as int,
        ),
{
    let class = class_of(size);
    if class.total > CACHE_MAX_REGION || align > HUGE_PAGE {
        counters.unmapped = counters.unmapped.wrapping_add(1);
        return Disposal::Unmap(Span { addr: ptr, len: class.total });
    }
    if let Some(sum) = counters.cached_bytes.checked_add(class.total) {
        if sum <= ceiling {
            proof {
                law_retained_class_has_a_list(size as int);
            }
            shard.push(class.index, ptr, class.total, node);
            counters.cached_bytes = sum;
            return Disposal::Cached;
        }
    }
    counters.unmapped = counters.unmapped.wrapping_add(1);
    Disposal::Unmap(Span { addr: ptr, len: class.total })
}

/// The counters once the kernel has answered a request for a fresh mapping.
pub open spec fn counters_after_map(counters: Counters, mapped: Option<usize>) -> Counters {
    if mapped is Some {
        Counters {
            misses: counters.misses.wrapping_add(1),
            mapped: counters.mapped.wrapping_add(1),
            ..counters
        }
    } else {
        counters
    }
}

/// Take note of a fresh mapping, or of the kernel's refusal, and pass it on.
pub fn map_fresh(counters: &mut Counters, mapped: Option<usize>) -> (r: Option<usize>)
    ensures
        r == mapped,
        *final(counters) == counters_after_map(*old(counters), mapped),
{
    if mapped.is_some() {
        counters.misses = counters.misses.wrapping_add(1);
        counters.mapped = counters.mapped.wrapping_add(1);
    }
    mapped
}

/// Pick a thread's shard from an address that is the thread's own, such as that
/// of a thread-local anchor.
pub fn shard(id: usize, shards: usize) -> (r: usize)
    requires
        is_pow2(shards as int),
    ensures
        r == (id / 64) % shards,
        r < shards,
{
    proof {
        lemma_pick(id, shards);
    }
    (id >> 6) & (shards - 1)
}

/// Shift and mask pick a block of 64 bytes modulo the number of shards.
proof fn lemma_pick(id: usize, shards: usize)
    requires
        is_pow2(shards as int),
    ensures
        shards > 0,
        (id >> 6) & ((shards - 1) as usize) == (id / 64) % shards,
{
    let k = lemma_pow2_exponent(shards);
    vstd::arithmetic::power2::lemma2_to64();
    vstd::bits::lemma_usize_shr_is_div(id, 6);
    vstd::bits::lemma_usize_low_bits_mask_is_mod(id >> 6, k);
    assert(vstd::bits::low_bits_mask(k) == shards - 1);
}

/// The lists of all the shards.
pub open spec fn views<'a>(shards: Seq<Shard<'a>>) -> Seq<Seq<Seq<Span>>> {
    Seq::new(shards.len(), |i: int| shards[i]@)
}

/// All the regions of all the shards, shard after shard.
pub open spec fn flat_all(all: Seq<Seq<Seq<Span>>>) -> Seq<Span>
    decreases all.len(),
{
    if all.len() == 0 {
        Seq::empty()
    } else {
        flat(all[0]) + flat_all(all.drop_first())
    }
}

/// The regions from shard `i` on are those of shard `i` and then the rest.
proof fn lemma_flat_all_skip(all: Seq<Seq<Seq<Span>>>, i: int)
    requires
        0 <= i < all.len(),
    ensures
        flat_all(all.skip(i)) == flat(all[i]) + flat_all(all.skip(i + 1)),
{
    assert(all.skip(i).drop_first() =~= all.skip(i + 1));
}

/// Empty lists for as many shards and classes as there are in `all`.
pub open spec fn emptied(all: Seq<Seq<Seq<Span>>>) -> Seq<Seq<Seq<Span>>> {
    Seq::new(all.len(), |i: int| Seq::new(all[i].len(), |j: int| Seq::<Span>::empty()))
}

/// The counters once every cached region is given up, `bytes` in all. What is
/// given up while others are still being counted never takes the count of cached
/// bytes below zero.
pub open spec fn counters_after_release(
    counters: Counters,
    all: Seq<Seq<Seq<Span>>>,
    bytes: usize,
) -> Counters {
    Counters {
        unmapped: wrap64(counters.unmapped + flat_all(all).len()) as u64,
        cached_bytes: (if bytes <= counters.cached_bytes {
            counters.cached_bytes - bytes
        } else {
            0
        }) as usize,
        ..counters
    }
}

/// Drop every cached region, to return the address space to the kernel.
///
/// Useful between unrelated jobs in a long-lived process: it trades the warm
/// cache for a lower resident footprint. Live allocations are untouched.
pub fn release_all<'a>(shards: &mut [Shard<'a>], counters: &mut Counters) -> (r: Sweep<'a>)
    ensures
        r.met(flat_all(views(old(shards)@))),
        views(final(shards)@) == emptied(views(old(shards)@)),
        *final(counters) == counters_after_release(
            *old(counters),
            views(old(shards)@),
            r.bytes,
        ),
{
    let ghost all = views(old(shards)@);
    let mut regions = FreeList::new();
    let mut i: usize = shards.len();
    assert(all.skip(i as int) =~= Seq::empty());
    proof {
        vstd::arithmetic::div_mod::lemma_small_mod(
            counters.unmapped as nat,
            (u64::MAX + 1) as nat,
        );
    }
    while i > 0
        invariant
            i <= shards@.len(),
            shards@.len() == all.len(),
            all == views(old(shards)@),
            regions@ == flat_all(all.skip(i as int)),
            forall|j: int| 0 <= j < i ==> (#[trigger] shards@[j])@ == all[j],
            forall|j: int|
                i <= j < shards@.len() ==> (#[trigger] shards@[j])@ == emptied(all)[j],
            *counters == (Counters {
                unmapped: wrap64(
                    old(counters).unmapped + flat_all(all.skip(i as int)).len(),
                ) as u64,
                ..*old(counters)
            }),
        decreases i,
    {
        i = i - 1;
        let ghost seen = flat_all(all.skip(i + 1));
        let sweep = shards[i].drain(counters);
        regions.prepend(sweep.regions);
        proof {
            lemma_flat_all_skip(all, i as int);
            let n = flat(all[i as int]).len() as int;
            let m = old(counters).unmapped + seen.len();
            vstd::arithmetic::div_mod::lemma_add_mod_noop_right(n, m, u64::MAX + 1);
            assert(counters.unmapped == wrap64(wrap64(m) + n));
        }
    }
    assert(all.skip(0) =~= all);
    assert(views(shards@) =~= emptied(all));
    let bytes = regions.bytes();
    let dropped: usize = if bytes <= counters.cached_bytes { bytes } else { counters.cached_bytes };
    counters.cached_bytes = counters.cached_bytes - dropped;
    Sweep { regions, bytes }
}

/// Find every cached region, to be advised reclaimable under memory pressure
/// while it stays in the cache. Returns the regions and their bytes.
pub fn soften_all<'s, 'a>(shards: &'s [Shard<'a>]) -> (r: (CacheWalk<'s, 'a>, usize))
    ensures
        r.0@ == flat_all(views(shards@)),
        r.1 == wrap(sum_len(flat_all(views(shards@)))),
{
    let ghost all = views(shards@);
    let mut bytes: usize = 0;
    let mut i: usize = 0;
    let ghost mut done: Seq<Span> = Seq::empty();
    proof {
        vstd::arithmetic::div_mod::lemma_small_mod(0, (usize::MAX + 1) as nat);
        assert(all.skip(0) =~= all);
        assert(done + flat_all(all.skip(0)) =~= flat_all(all));
    }
    while i < shards.len()
        invariant
            i <= shards@.len(),
            all == views(shards@),
            done + flat_all(all.skip(i as int)) == flat_all(all),
            bytes == wrap(sum_len(done)),
        decreases shards@.len() - i,
    {
        let (_regions, softened) = shards[i].soften();
        proof {
            lemma_flat_all_skip(all, i as int);
            let here = flat(all[i as int]);
            lemma_sum_len_concat(done, here);
            lemma_wrap_sum(sum_len(done), bytes, sum_len(here), softened);
            assert(done + here + flat_all(all.skip(i + 1)) =~= done + flat_all(
                all.skip(i as int),
            ));
            done = done + here;
        }
        bytes = bytes.wrapping_add(softened);
        i = i + 1;
    }
    assert(all.skip(i as int) =~= Seq::empty());
    assert(done + flat_all(all.skip(i as int)) =~= done);
    let walk = CacheWalk { shards, walk: None, next: 0 };
    assert(walk@ =~= flat_all(all)) by {
        assert(all.skip(0) =~= all);
    }
    (walk, bytes)
}

/// Total bytes currently parked in the cache.
pub fn cached_bytes(counters: &Counters) -> (r: usize)
    ensures
        r == counters.cached_bytes,
{
    counters.cached_bytes
}

} // verus!
