//! A scoped bump arena for the "allocate a whole proof phase, then throw it all
//! away" pattern.
//!
//! Unlike the global allocator, an [`Arena`] does not reclaim individual frees:
//! it hands out memory by bumping a cursor and reclaims everything at once with
//! [`Arena::reset`]. That is exactly right for a witness-generation or
//! commitment phase whose scratch buffers all die together.
//!
//! An [`Arena`] has one owner. Threads that share an arena share its cursor, and
//! each works on the arena as it found it: see [`Arena::at`].

use vstd::arithmetic::power2::is_pow2;
use vstd::prelude::*;

use crate::config::{HUGE_PAGE, PAGE};
use crate::error::MapFailed;
use crate::size_class::lemma_region_align_is_pow2;
use crate::sys::{
    align_up, carve, cleared, is_power_of_two, law_window_is_aligned_and_inside, lemma_align_up,
    lemma_align_up_is_least, lemma_align_up_leaves_address_space, lemma_mask_drops_remainder,
    lemma_pow2_exponent, request_len, round_up, Span,
};

verus! {

/// A fixed-capacity bump allocator over a single mapping.
#[derive(Debug)]
pub struct Arena {
    base: usize,
    capacity: usize,
    cursor: usize,
}

/// An arena for specifications: where its mapping starts, how long it is, and
/// how many bytes of it have been handed out since the last reset.
pub struct ArenaView {
    pub base: int,
    pub capacity: int,
    pub used: int,
}

impl View for Arena {
    type V = ArenaView;

    closed spec fn view(&self) -> ArenaView {
        ArenaView {
            base: self.base as int,
            capacity: self.capacity as int,
            used: self.cursor as int,
        }
    }
}

impl ArenaView {
    /// The mapping lies in the address space, and no more of it is used than
    /// there is.
    pub open spec fn wf(self) -> bool {
        &&& 0 <= self.base
        &&& 0 <= self.used <= self.capacity
        &&& self.base + self.capacity <= usize::MAX
    }

    /// The arena with nothing handed out.
    pub open spec fn rewound(self) -> ArenaView {
        ArenaView { used: 0, ..self }
    }

    /// The address that a request gets: the first one at or above the cursor
    /// that is aligned, if the request is a proper one and fits.
    pub open spec fn grant(self, size: int, align: int) -> Option<int> {
        let addr = align_up(self.base + self.used, align);
        if size > 0 && is_pow2(align) && addr + size <= self.base + self.capacity {
            Some(addr)
        } else {
            None
        }
    }

    /// The arena once a request has been answered.
    pub open spec fn after(self, size: int, align: int) -> ArenaView {
        match self.grant(size, align) {
            Some(addr) => ArenaView { used: addr + size - self.base, ..self },
            None => self,
        }
    }
}

/// Bytes of an arena of at least `bytes`: whole huge pages.
pub open spec fn arena_capacity(bytes: int) -> int {
    align_up(
        if bytes >= PAGE {
            bytes
        } else {
            PAGE as int
        },
        HUGE_PAGE as int,
    )
}

/// Bytes for `count` values of `T`, if there is at least one and they fit in
/// the address space.
pub fn array_bytes<T>(count: usize) -> (r: Option<usize>)
    ensures
        ({
            let bytes = count * vstd::layout::size_of::<T>();
            r == (if 0 < bytes <= usize::MAX {
                Some(bytes as usize)
            } else {
                None
            })
        }),
{
    match count.checked_mul(std::mem::size_of::<T>()) {
        Some(bytes) if bytes > 0 => Some(bytes),
        _ => None,
    }
}

impl Arena {
    /// The bytes to map for an arena of at least `bytes`.
    pub fn mapping_len(bytes: usize) -> (r: usize)
        requires
            bytes + HUGE_PAGE - 1 <= usize::MAX,
        ensures
            r == arena_capacity(bytes as int),
            bytes <= r,
            r % HUGE_PAGE == 0,
    {
        proof {
            lemma_region_align_is_pow2(0);
        }
        round_up(if bytes >= PAGE { bytes } else { PAGE }, HUGE_PAGE)
    }

    /// The alignment to map an arena with, so that the kernel can back it with
    /// huge pages.
    pub fn mapping_align() -> (r: usize)
        ensures
            r == HUGE_PAGE,
            is_pow2(r as int),
    {
        proof {
            lemma_region_align_is_pow2(0);
        }
        HUGE_PAGE
    }

    /// Set up an arena of at least `bytes`, rounded up to a huge-page boundary,
    /// on the mapping of [`mapping_len`](Self::mapping_len) bytes, aligned to
    /// [`mapping_align`](Self::mapping_align), that starts at `base`, if the kernel
    /// had one.
    pub fn with_capacity(bytes: usize, base: Option<usize>) -> (r: Result<Self, MapFailed>)
        requires
            bytes + HUGE_PAGE - 1 <= usize::MAX,
            base matches Some(b) ==> b + arena_capacity(bytes as int) <= usize::MAX,
        ensures
            match base {
                Some(b) => r matches Ok(arena) && arena@ == (ArenaView {
                    base: b as int,
                    capacity: arena_capacity(bytes as int),
                    used: 0,
                }) && arena@.wf(),
                None => r == Err::<Arena, MapFailed>(
                    MapFailed { bytes: arena_capacity(bytes as int) as usize },
                ),
            },
    {
        let capacity: usize = Arena::mapping_len(bytes);
        match base {
            Some(base) => Ok(Arena { base, capacity, cursor: 0 }),
            None => Err(MapFailed { bytes: capacity }),
        }
    }

    /// The same arena with its cursor at `cursor`: how a thread that shares an
    /// arena sees it. It works out its allocation on what it sees, and then moves
    /// the shared cursor from where it found it to where the allocation ends,
    /// unless another thread has moved it in the meantime.
    pub fn at(&self, cursor: usize) -> (r: Self)
        requires
            self@.wf(),
            cursor <= self@.capacity,
        ensures
            r@ == (ArenaView { used: cursor as int, ..self@ }),
            r@.wf(),
    {
        Arena { base: self.base, capacity: self.capacity, cursor }
    }

    /// Carve out `size` bytes aligned to `align` (a power of two). Returns
    /// nothing when the arena is full: there is no fallback, by design.
    pub fn allocate(&mut self, size: usize, align: usize) -> (r: Option<usize>)
        requires
            old(self)@.wf(),
        ensures
            final(self)@ == old(self)@.after(size as int, align as int),
            final(self)@.wf(),
            match old(self)@.grant(size as int, align as int) {
                Some(addr) => r == Some(addr as usize) && addr <= usize::MAX,
                None => r is None,
            },
    {
        if size == 0 || !is_power_of_two(align) {
            return None;
        }
        let start: usize = self.base + self.cursor;
        proof {
            lemma_pow2_exponent(align);
            lemma_align_up(start as int, align as int);
        }
        let raised: usize = match start.checked_add(align - 1) {
            Some(v) => v,
            None => {
                proof {
                    lemma_align_up_leaves_address_space(start, align);
                }
                return None;
            },
        };
        proof {
            lemma_mask_drops_remainder(raised, align);
        }
        let aligned: usize = raised & !(align - 1);
        let next: usize = match (aligned - self.base).checked_add(size) {
            Some(v) => v,
            None => return None,
        };
        if next > self.capacity {
            return None;
        }
        self.cursor = next;
        Some(aligned)
    }

    /// Allocate space for `count` values of `T`, aligned for `T`. The memory is
    /// uninitialized; the caller must write before reading.
    pub fn alloc_array<T>(&mut self, count: usize) -> (r: Option<usize>)
        requires
            old(self)@.wf(),
        ensures
            ({
                let bytes = count * vstd::layout::size_of::<T>();
                let align = vstd::layout::align_of::<T>() as int;
                if 0 < bytes <= usize::MAX {
                    &&& final(self)@ == old(self)@.after(bytes, align)
                    &&& match old(self)@.grant(bytes, align) {
                        Some(addr) => r == Some(addr as usize) && addr <= usize::MAX,
                        None => r is None,
                    }
                } else {
                    r is None && final(self)@ == old(self)@
                }
            }),
            final(self)@.wf(),
    {
        match array_bytes::<T>(count) {
            Some(bytes) => self.allocate(bytes, std::mem::align_of::<T>()),
            None => None,
        }
    }

    /// Drop every allocation at once by rewinding the cursor.
    ///
    /// Invalidates all addresses handed out since the last reset.
    pub fn reset(&mut self)
        requires
            old(self)@.wf(),
        ensures
            final(self)@ == old(self)@.rewound(),
            final(self)@.wf(),
    {
        self.cursor = 0;
    }

    /// Like [`reset`](Self::reset), for arenas that held secret data: the span
    /// it returns, if any byte was handed out, is to be wiped first.
    pub fn secure_reset(&mut self) -> (r: Option<Span>)
        requires
            old(self)@.wf(),
        ensures
            final(self)@ == old(self)@.rewound(),
            final(self)@.wf(),
            r == wipe_of(old(self)@),
    {
        let used: usize = self.used();
        let wipe = if used > 0 {
            Some(Span { addr: self.base, len: used })
        } else {
            None
        };
        self.reset();
        wipe
    }

    /// Bytes handed out since the last reset.
    pub fn used(&self) -> (r: usize)
        ensures
            r == self@.used,
    {
        self.cursor
    }

    /// Total capacity in bytes.
    pub fn capacity(&self) -> (r: usize)
        ensures
            r == self@.capacity,
    {
        self.capacity
    }

    /// Bytes still available before the arena is full.
    pub fn remaining(&self) -> (r: usize)
        requires
            self@.wf(),
        ensures
            r == self@.capacity - self@.used,
    {
        self.capacity - self.used()
    }

    /// The mapping, to be unmapped when the arena is dropped.
    pub fn mapping(&self) -> (r: Span)
        ensures
            r == (Span { addr: self@.base as usize, len: self@.capacity as usize }),
    {
        Span { addr: self.base, len: self.capacity }
    }
}

/// The span that a secure reset has wiped: all that was handed out.
pub open spec fn wipe_of(arena: ArenaView) -> Option<Span> {
    if arena.used > 0 {
        Some(Span { addr: arena.base as usize, len: arena.used as usize })
    } else {
        None
    }
}

/// An arena takes the fewest huge pages that hold what was asked for, and at least
/// one.
pub proof fn law_arena_takes_the_fewest_huge_pages(bytes: int)
    requires
        bytes >= 0,
    ensures
        arena_capacity(bytes) % HUGE_PAGE as int == 0,
        bytes <= arena_capacity(bytes),
        bytes > 0 ==> arena_capacity(bytes) - HUGE_PAGE < bytes,
        bytes == 0 ==> arena_capacity(bytes) == HUGE_PAGE,
        bytes + HUGE_PAGE - 1 <= usize::MAX ==> arena_capacity(bytes) <= usize::MAX,
{
    let least = if bytes >= PAGE {
        bytes
    } else {
        PAGE as int
    };
    lemma_align_up(least, HUGE_PAGE as int);
    let capacity = arena_capacity(bytes);
    if least <= HUGE_PAGE {
        lemma_align_up_is_least(least, HUGE_PAGE as int, HUGE_PAGE as int);
        if capacity < HUGE_PAGE {
            vstd::arithmetic::div_mod::lemma_small_mod(capacity as nat, HUGE_PAGE as nat);
        }
    }
}

/// An arena is backed by huge pages: the window that is carved for it starts on a
/// huge-page boundary, spans whole huge pages, and is advised for them.
pub proof fn law_arena_is_backed_by_huge_pages(bytes: usize, base: usize)
    requires
        bytes + HUGE_PAGE - 1 <= usize::MAX,
        base % PAGE == 0,
        base + request_len(arena_capacity(bytes as int), HUGE_PAGE as int) <= usize::MAX,
    ensures
        ({
            let m = carve(arena_capacity(bytes as int), HUGE_PAGE as int, base as int);
            &&& m.addr % HUGE_PAGE == 0
            &&& arena_capacity(bytes as int) % HUGE_PAGE as int == 0
            &&& bytes <= arena_capacity(bytes as int)
            &&& m.huge
        }),
{
    lemma_region_align_is_pow2(0);
    law_arena_takes_the_fewest_huge_pages(bytes as int);
    law_window_is_aligned_and_inside(
        arena_capacity(bytes as int) as usize,
        HUGE_PAGE,
        base,
    );
}

/// What an arena hands out is aligned, lies in its mapping, and above all that
/// it handed out before; the cursor ends up behind it.
pub proof fn law_allocation_is_aligned_and_inside(arena: ArenaView, size: int, align: int)
    requires
        arena.wf(),
    ensures
        arena.after(size, align).wf(),
        arena.grant(size, align) matches Some(addr) ==> {
            &&& addr % align == 0
            &&& arena.base + arena.used <= addr
            &&& addr + size == arena.base + arena.after(size, align).used
            &&& addr + size <= arena.base + arena.capacity
            &&& arena.used < arena.after(size, align).used
        },
{
    reveal(is_pow2);
    if is_pow2(align) {
        lemma_align_up(arena.base + arena.used, align);
    }
}

/// An arena wastes nothing but the padding: what it hands out starts at the first
/// aligned address from the cursor on. A request that is not a proper one, for no
/// bytes or for an alignment that is no power of two, is refused, and a refusal
/// changes nothing.
pub proof fn law_allocation_is_the_first_aligned_one(
    arena: ArenaView,
    size: int,
    align: int,
    p: int,
)
    requires
        arena.wf(),
        p >= arena.base + arena.used,
        p % align == 0,
    ensures
        arena.grant(size, align) matches Some(addr) ==> {
            &&& addr <= p
            &&& addr < arena.base + arena.used + align
        },
        size <= 0 || !is_pow2(align) ==> arena.grant(size, align) is None,
        arena.grant(size, align) is None ==> arena.after(size, align) == arena,
        arena.after(size, align).base == arena.base,
        arena.after(size, align).capacity == arena.capacity,
{
    reveal(is_pow2);
    if is_pow2(align) {
        lemma_align_up(arena.base + arena.used, align);
        lemma_align_up_is_least(arena.base + arena.used, align, p);
    }
}

/// A proper request is refused only when there is no room: no aligned address
/// at or above the cursor leaves enough bytes.
pub proof fn law_refusal_means_no_room(arena: ArenaView, size: int, align: int, p: int)
    requires
        arena.wf(),
        size > 0,
        is_pow2(align),
        arena.grant(size, align) is None,
        p >= arena.base + arena.used,
        p % align == 0,
    ensures
        p + size > arena.base + arena.capacity,
{
    reveal(is_pow2);
    lemma_align_up_is_least(arena.base + arena.used, align, p);
}

/// The arena once a run of requests has been answered, in order.
pub open spec fn after_all(arena: ArenaView, requests: Seq<(int, int)>) -> ArenaView
    decreases requests.len(),
{
    if requests.len() == 0 {
        arena
    } else {
        after_all(arena.after(requests[0].0, requests[0].1), requests.drop_first())
    }
}

/// Answering requests never moves the cursor back, nor the mapping.
pub proof fn lemma_cursor_only_advances(arena: ArenaView, requests: Seq<(int, int)>)
    requires
        arena.wf(),
    ensures
        after_all(arena, requests).wf(),
        after_all(arena, requests).base == arena.base,
        after_all(arena, requests).capacity == arena.capacity,
        arena.used <= after_all(arena, requests).used,
    decreases requests.len(),
{
    if requests.len() > 0 {
        law_allocation_is_aligned_and_inside(arena, requests[0].0, requests[0].1);
        lemma_cursor_only_advances(
            arena.after(requests[0].0, requests[0].1),
            requests.drop_first(),
        );
    }
}

/// Two allocations from one arena never overlap, however many requests come
/// between them, as long as the arena is not reset.
pub proof fn law_allocations_never_overlap(
    arena: ArenaView,
    size: int,
    align: int,
    between: Seq<(int, int)>,
    later_size: int,
    later_align: int,
)
    requires
        arena.wf(),
    ensures
        ({
            let later = after_all(arena.after(size, align), between);
            arena.grant(size, align) matches Some(addr) ==> later.grant(
                later_size,
                later_align,
            ) matches Some(later_addr) ==> addr + size <= later_addr
        }),
{
    law_allocation_is_aligned_and_inside(arena, size, align);
    let next = arena.after(size, align);
    lemma_cursor_only_advances(next, between);
    law_allocation_is_aligned_and_inside(after_all(next, between), later_size, later_align);
}

/// A reset hands back the same memory: after any run of requests, a rewound
/// arena answers like the arena did when nothing had been handed out yet.
pub proof fn law_reset_hands_back_the_same_memory(
    arena: ArenaView,
    requests: Seq<(int, int)>,
    size: int,
    align: int,
)
    requires
        arena.wf(),
        arena.used == 0,
    ensures
        after_all(arena, requests).rewound() == arena,
        after_all(arena, requests).rewound().grant(size, align) == arena.grant(size, align),
{
    lemma_cursor_only_advances(arena, requests);
}

/// A secure reset wipes what was handed out and nothing else, and every reset
/// leaves the whole arena to be handed out again.
pub proof fn law_secure_reset_wipes_no_more_than_was_handed_out(arena: ArenaView, a: int)
    requires
        arena.wf(),
    ensures
        (wipe_of(arena) matches Some(span) && span.covers(a)) <==> arena.base <= a < arena.base
            + arena.used,
        wipe_of(arena) is None <==> arena.used == 0,
        arena.rewound().used == 0,
        arena.rewound().base == arena.base,
        arena.rewound().capacity == arena.capacity,
{
}

/// A secure reset leaves nothing behind: every byte that any allocation since
/// the last reset could have been written to is zero once the span is wiped.
pub proof fn law_secure_reset_wipes_all_that_was_handed_out(
    arena: ArenaView,
    size: int,
    align: int,
    since: Seq<(int, int)>,
    before: Map<int, u8>,
    after: Map<int, u8>,
    a: int,
)
    requires
        arena.wf(),
        arena.grant(size, align) matches Some(addr) && addr <= a < addr + size,
        before.dom().contains(a),
        wipe_of(after_all(arena.after(size, align), since)) matches Some(span) ==> cleared(
            before,
            after,
            span,
        ),
    ensures
        after[a] == 0,
{
    law_allocation_is_aligned_and_inside(arena, size, align);
    let next = arena.after(size, align);
    lemma_cursor_only_advances(next, since);
    assert(after.dom().contains(a));
}

} // verus!
