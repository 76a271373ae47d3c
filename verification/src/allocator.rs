//! The [`ZkAlloc`] allocator.
//!
//! It is a thin router. Small requests go to the system allocator, which is
//! already good at them. Large requests (the prover's FFT coefficient vectors,
//! MSM bucket arrays, trace columns) go to the resident size-class cache in
//! [`crate::cache`], where the real speedup lives.
//!
//! Routing is by the size of the layout alone, and a block is freed with the
//! layout it was allocated with, so a freed block is classified without any
//! lookup.

use vstd::prelude::*;

use crate::config::LARGE_THRESHOLD;
use crate::size_class::{
    class_for, class_of, classed, largest_classed, law_class_is_a_fixed_point,
    law_class_is_monotone, law_every_layout_has_a_class, law_same_index_means_same_total,
    lemma_class_exists,
};
use crate::sys::Span;

verus! {

/// An allocator tuned for zero-knowledge provers on Linux.
#[derive(Clone, Copy, Debug, PartialEq, Eq, Structural)]
pub struct ZkAlloc;

/// Who serves a request.
#[derive(Clone, Copy, Debug, PartialEq, Eq, Structural)]
pub enum Route {
    /// The system allocator.
    System,
    /// The large-region cache.
    Cache,
}

/// How a block changes its size.
#[derive(Clone, Copy, Debug, PartialEq, Eq, Structural)]
pub enum Resize {
    /// The system allocator resizes it, in place if it can.
    System,
    /// It stays where it is: its region already spans the new size.
    Keep,
    /// It moves to a new block, to be allocated with the layout `request`: see
    /// [`ZkAlloc::relocate`].
    Move { request: BlockLayout },
}

/// The size and alignment that a block is allocated, and freed, with.
#[derive(Clone, Copy, Debug, PartialEq, Eq, Structural)]
pub struct BlockLayout {
    pub size: usize,
    pub align: usize,
}

/// A block that was allocated with `layout` and starts at `ptr`.
#[derive(Clone, Copy, Debug, PartialEq, Eq, Structural)]
pub struct Block {
    pub ptr: usize,
    pub layout: BlockLayout,
}

/// What moves a block to a new one: the bytes of `from` are copied to `to`, and
/// then the block `free` is freed, once.
#[derive(Clone, Copy, Debug, PartialEq, Eq, Structural)]
pub struct Relocation {
    pub from: Span,
    pub to: usize,
    pub free: Block,
}

/// A request is large, and goes to the cache, from [`LARGE_THRESHOLD`] on.
pub open spec fn route(size: int) -> Route {
    if size >= LARGE_THRESHOLD {
        Route::Cache
    } else {
        Route::System
    }
}

/// How a block with layout `old` becomes one of `new_size` bytes. If both sizes are
/// small, the system allocator may grow it in place. If both are large and in
/// the same size class, the existing region already spans the new size. Anything
/// else crosses the threshold or changes class, and moves to a new block of the
/// same alignment.
pub open spec fn resized(old: BlockLayout, new_size: usize) -> Resize {
    if route(old.size as int) == Route::System && route(new_size as int) == Route::System {
        Resize::System
    } else if route(old.size as int) == Route::Cache && route(new_size as int) == Route::Cache
        && class_for(old.size as int).total == class_for(new_size as int).total {
        Resize::Keep
    } else {
        Resize::Move { request: BlockLayout { size: new_size, align: old.align } }
    }
}

/// How the block at `ptr` with layout `old` moves to the new block of `new_size`
/// bytes at `fresh`: the part that the two have in common is copied, and the old
/// block is freed with the layout that it was allocated with. Without a new block
/// nothing is copied, and nothing freed.
pub open spec fn relocation(
    ptr: usize,
    old: BlockLayout,
    new_size: usize,
    fresh: Option<usize>,
) -> Option<Relocation> {
    match fresh {
        Some(to) => Some(
            Relocation {
                from: Span {
                    addr: ptr,
                    len: if old.size <= new_size {
                        old.size
                    } else {
                        new_size
                    },
                },
                to,
                free: Block { ptr, layout: old },
            },
        ),
        None => None,
    }
}

fn route_of(size: usize) -> (r: Route)
    ensures
        r == route(size as int),
{
    if size >= LARGE_THRESHOLD {
        Route::Cache
    } else {
        Route::System
    }
}

impl Default for ZkAlloc {
    fn default() -> (r: Self)
        ensures
            r == ZkAlloc,
    {
        ZkAlloc
    }
}

impl ZkAlloc {
    /// Construct the allocator.
    pub fn new() -> (r: Self)
        ensures
            r == ZkAlloc,
    {
        ZkAlloc
    }

    /// Who allocates a block of `size` bytes.
    pub fn allocate(&self, size: usize) -> (r: Route)
        ensures
            r == route(size as int),
    {
        route_of(size)
    }

    /// Who frees a block that was allocated with `size` bytes.
    pub fn dealloc(&self, size: usize) -> (r: Route)
        ensures
            r == route(size as int),
    {
        route_of(size)
    }

    /// Who allocates a zeroed block of `size` bytes.
    pub fn alloc_zeroed(&self, size: usize) -> (r: Route)
        ensures
            r == route(size as int),
    {
        route_of(size)
    }

    /// How a block that was allocated with `layout` becomes one of `new_size`
    /// bytes.
    pub fn realloc(&self, layout: BlockLayout, new_size: usize) -> (r: Resize)
        requires
            layout.size <= largest_classed(),
            new_size <= largest_classed(),
        ensures
            r == resized(layout, new_size),
    {
        let old_size: usize = layout.size;
        if old_size < LARGE_THRESHOLD && new_size < LARGE_THRESHOLD {
            return Resize::System;
        }
        if old_size >= LARGE_THRESHOLD && new_size >= LARGE_THRESHOLD && class_of(old_size).total
            == class_of(new_size).total {
            return Resize::Keep;
        }
        Resize::Move { request: BlockLayout { size: new_size, align: layout.align } }
    }

    /// Move the block at `ptr` that was allocated with `layout`, given the
    /// address of the new block of `new_size` bytes, if there was memory for it.
    /// Without a new block nothing is copied, and the old block stays as it is.
    pub fn relocate(
        &self,
        ptr: usize,
        layout: BlockLayout,
        new_size: usize,
        fresh: Option<usize>,
    ) -> (r: Option<Relocation>)
        ensures
            r == relocation(ptr, layout, new_size, fresh),
    {
        match fresh {
            Some(to) => {
                let len: usize = if layout.size <= new_size { layout.size } else { new_size };
                Some(
                    Relocation {
                        from: Span { addr: ptr, len },
                        to,
                        free: Block { ptr, layout },
                    },
                )
            },
            None => None,
        }
    }
}

/// The system allocator serves exactly the small requests, so a block is freed by
/// whoever allocated it, and the cache only ever sees sizes that have a class.
pub proof fn law_cache_serves_exactly_the_large_requests(size: int)
    ensures
        route(size) == Route::System <==> size < LARGE_THRESHOLD,
        route(size) == Route::Cache <==> size >= LARGE_THRESHOLD,
        route(size) == Route::Cache && size <= isize::MAX ==> classed(size),
{
    if size >= LARGE_THRESHOLD {
        law_every_layout_has_a_class(size, 0, 14);
    }
}

/// A block is resized by the system allocator exactly if the system allocator owns
/// it and still owns it afterwards; it stays where it is exactly if it is a region
/// of the cache of which the new size has the same class; and in every other case
/// it moves to a block of the new size and the old alignment.
pub proof fn law_resize_is_by_owner_and_class(old: BlockLayout, new_size: usize)
    ensures
        resized(old, new_size) == Resize::System <==> old.size < LARGE_THRESHOLD && new_size
            < LARGE_THRESHOLD,
        resized(old, new_size) == Resize::Keep <==> old.size >= LARGE_THRESHOLD && new_size
            >= LARGE_THRESHOLD && class_for(old.size as int).total == class_for(
            new_size as int,
        ).total,
        resized(old, new_size) is Move <==> !(old.size < LARGE_THRESHOLD && new_size
            < LARGE_THRESHOLD) && !(old.size >= LARGE_THRESHOLD && new_size >= LARGE_THRESHOLD
            && class_for(old.size as int).total == class_for(new_size as int).total),
        resized(old, new_size) matches Resize::Move { request } ==> request.size == new_size
            && request.align == old.align,
{
}

/// Resizing a block to the size that it has never moves it, and growing one within
/// its region does not either.
pub proof fn law_resize_within_a_region_never_moves(old: BlockLayout, new_size: usize)
    requires
        old.size <= new_size,
        classed(old.size as int),
        new_size <= class_for(old.size as int).total,
    ensures
        resized(old, old.size) == Resize::Keep,
        resized(old, new_size) == Resize::Keep,
{
    let top = class_for(old.size as int).total as int;
    lemma_class_exists(old.size as int);
    law_class_is_monotone(old.size as int, new_size as int);
    law_class_is_monotone(new_size as int, top);
    law_class_is_a_fixed_point(old.size as int);
}

/// A move copies what the two blocks have in common from the start of the old one
/// to the start of the new one, and frees the old one with its own layout; without
/// a new block there is no move.
pub proof fn law_relocation_copies_the_common_part(
    ptr: usize,
    old: BlockLayout,
    new_size: usize,
    fresh: Option<usize>,
)
    ensures
        relocation(ptr, old, new_size, fresh) is Some <==> fresh is Some,
        relocation(ptr, old, new_size, fresh) matches Some(m) ==> {
            &&& Some(m.to) == fresh
            &&& m.from.addr == ptr
            &&& m.from.len <= old.size && m.from.len <= new_size
            &&& m.from.len == old.size || m.from.len == new_size
            &&& m.free.ptr == ptr
            &&& m.free.layout.size == old.size
            &&& m.free.layout.align == old.align
        },
{
}

/// A block that stays where it is has room for its new size, and freeing it with
/// the new layout returns its region to the very class that it came from.
pub proof fn law_kept_region_spans_the_new_size(old: BlockLayout, new_size: usize)
    requires
        old.size <= largest_classed(),
        new_size <= largest_classed(),
        resized(old, new_size) == Resize::Keep,
    ensures
        new_size <= class_for(old.size as int).total,
        class_for(new_size as int) == class_for(old.size as int),
{
    lemma_class_exists(old.size as int);
    lemma_class_exists(new_size as int);
    law_same_index_means_same_total(old.size as int, new_size as int);
}

/// What carrying out a relocation does to the bytes of memory: those at `to` are
/// what those of `from` were, and no other byte changes.
pub open spec fn relocated(before: Map<int, u8>, after: Map<int, u8>, move_: Relocation) -> bool {
    &&& before.dom() == after.dom()
    &&& forall|a: int| #[trigger]
        after.dom().contains(a) ==> after[a] == (if move_.to <= a < move_.to + move_.from.len {
            before[move_.from.addr + (a - move_.to)]
        } else {
            before[a]
        })
}

/// A block that moves keeps its contents, as far as both sizes reach; nothing is
/// read beyond the old block, and nothing is written beyond the new one. The new
/// block has the new size and the old alignment, and the block that is freed is
/// the old one, with the layout that it was allocated with.
pub proof fn law_moved_block_keeps_its_contents(
    ptr: usize,
    old: BlockLayout,
    new_size: usize,
    request: BlockLayout,
    fresh: usize,
    move_: Relocation,
    before: Map<int, u8>,
    after: Map<int, u8>,
)
    requires
        resized(old, new_size) == (Resize::Move { request }),
        relocation(ptr, old, new_size, Some(fresh)) == Some(move_),
        forall|a: int|
            fresh <= a < fresh + request.size ==> #[trigger] before.dom().contains(a),
        relocated(before, after, move_),
    ensures
        request == (BlockLayout { size: new_size, align: old.align }),
        move_.free == (Block { ptr, layout: old }),
        forall|i: int|
            0 <= i < old.size && i < new_size ==> #[trigger] after[fresh + i] == before[ptr + i],
        move_.from.len <= old.size,
        move_.from.len <= new_size,
        forall|a: int|
            before.dom().contains(a) && !(fresh <= a < fresh + new_size) ==> #[trigger] after[a]
                == before[a],
{
    assert forall|i: int| 0 <= i < old.size && i < new_size implies #[trigger] after[fresh + i]
        == before[ptr + i] by {
        assert(before.dom().contains(fresh + i));
        assert(after.dom().contains(fresh + i));
    }
    assert forall|a: int|
        before.dom().contains(a) && !(fresh <= a < fresh + new_size) implies #[trigger] after[a]
        == before[a] by {
        assert(after.dom().contains(a));
    }
}

} // verus!
