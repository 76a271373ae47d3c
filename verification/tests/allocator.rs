use std::collections::BTreeMap;

use zk_alloc::allocator::{Block, BlockLayout, Relocation, Resize, Route};
use zk_alloc::cache::{Acquired, Disposal, Shard};
use zk_alloc::config::{HUGE_PAGE, LARGE_THRESHOLD, PAGE};
use zk_alloc::free_list::FreeNode;
use zk_alloc::sys::{map_request, Span};
use zk_alloc::{Counters, ZkAlloc};

/// Memory by the page, with an allocator on top that carries out what the
/// library decides: fresh pages are zero, and a page that is not mapped cannot
/// be read or written.
struct Machine {
    pages: BTreeMap<usize, Vec<u8>>,
    next: usize,
    heap: usize,
    shards: Vec<Shard<'static>>,
    counters: Counters,
    ceiling: usize,
}

/// The shard of the thread that a test acts for.
const HERE: usize = 0;

impl Machine {
    fn new() -> Machine {
        let mut shards = Vec::new();
        for _ in 0..4 {
            shards.push(Shard::new());
        }
        Machine {
            pages: BTreeMap::new(),
            next: 0x7000_0000_1000,
            heap: 0x5000_0000_0000,
            shards,
            counters: Counters::new(),
            ceiling: 1 << 30,
        }
    }

    fn read(&self, addr: usize) -> u8 {
        self.pages[&(addr / PAGE)][addr % PAGE]
    }

    fn write(&mut self, addr: usize, byte: u8) {
        self.pages.get_mut(&(addr / PAGE)).expect("not mapped")[addr % PAGE] = byte;
    }

    fn fill(&mut self, addr: usize, len: usize, byte: u8) {
        for a in addr..addr + len {
            self.write(a, byte);
        }
    }

    fn map_pages(&mut self, addr: usize, len: usize) {
        for p in addr / PAGE..(addr + len) / PAGE {
            assert!(self.pages.insert(p, vec![0; PAGE]).is_none(), "mapped twice");
        }
    }

    fn unmap(&mut self, span: Span) {
        assert_eq!(span.addr % PAGE, 0);
        assert_eq!(span.len % PAGE, 0);
        for p in span.addr / PAGE..(span.addr + span.len) / PAGE {
            assert!(self.pages.remove(&p).is_some(), "unmapped twice");
        }
    }

    fn map(&mut self, len: usize, align: usize) -> Option<usize> {
        let request = map_request(len, align);
        let base = self.next;
        self.next += request + PAGE;
        self.map_pages(base, request);
        let mapping = zk_alloc::sys::map(len, align, Some(base))?;
        if let Some(head) = mapping.head {
            self.unmap(head);
        }
        if let Some(tail) = mapping.tail {
            self.unmap(tail);
        }
        Some(mapping.addr)
    }

    fn system_alloc(&mut self, size: usize) -> Option<usize> {
        let p = self.heap;
        let len = (size / PAGE + 1) * PAGE;
        self.heap += len;
        self.map_pages(p, len);
        Some(p)
    }

    fn system_dealloc(&mut self, ptr: usize, size: usize) {
        self.unmap(Span { addr: ptr, len: (size / PAGE + 1) * PAGE });
    }

    fn fresh(&mut self, acquired: Acquired) -> Option<usize> {
        match acquired {
            Acquired::Cached { addr } => Some(addr),
            Acquired::Fresh { total, align } => {
                let mapped = self.map(total, align);
                zk_alloc::cache::map_fresh(&mut self.counters, mapped)
            }
        }
    }

    fn alloc_on(&mut self, shard: usize, size: usize, align: usize) -> Option<usize> {
        match ZkAlloc::new().allocate(size) {
            Route::System => self.system_alloc(size),
            Route::Cache => {
                let acquired = zk_alloc::cache::allocate(
                    &mut self.shards[shard],
                    &mut self.counters,
                    size,
                    align,
                );
                self.fresh(acquired)
            }
        }
    }

    fn alloc_zeroed(&mut self, size: usize, align: usize) -> Option<usize> {
        match ZkAlloc::new().alloc_zeroed(size) {
            Route::System => self.system_alloc(size),
            Route::Cache => {
                let (acquired, purge) = zk_alloc::cache::alloc_zeroed(
                    &mut self.shards[HERE],
                    &mut self.counters,
                    size,
                    align,
                );
                if let Some(span) = purge {
                    self.fill(span.addr, span.len, 0);
                }
                self.fresh(acquired)
            }
        }
    }

    fn dealloc_on(&mut self, shard: usize, ptr: usize, size: usize, align: usize) {
        match ZkAlloc::new().dealloc(size) {
            Route::System => self.system_dealloc(ptr, size),
            Route::Cache => {
                let disposal = zk_alloc::cache::dealloc(
                    &mut self.shards[shard],
                    &mut self.counters,
                    self.ceiling,
                    ptr,
                    size,
                    align,
                    Box::leak(Box::new(FreeNode::new())),
                );
                if let Disposal::Unmap(region) = disposal {
                    self.unmap(region);
                }
            }
        }
    }

    fn allocate(&mut self, size: usize, align: usize) -> Option<usize> {
        self.alloc_on(HERE, size, align)
    }

    fn dealloc(&mut self, ptr: usize, size: usize, align: usize) {
        self.dealloc_on(HERE, ptr, size, align);
    }

    fn realloc(&mut self, ptr: usize, size: usize, align: usize, new_size: usize) -> Option<usize> {
        let layout = BlockLayout { size, align };
        match ZkAlloc::new().realloc(layout, new_size) {
            Resize::Keep => Some(ptr),
            Resize::System => {
                let fresh = self.system_alloc(new_size)?;
                for i in 0..size.min(new_size) {
                    let byte = self.read(ptr + i);
                    self.write(fresh + i, byte);
                }
                self.system_dealloc(ptr, size);
                Some(fresh)
            }
            Resize::Move { request } => {
                let fresh = self.allocate(request.size, request.align);
                let step = ZkAlloc::new().relocate(ptr, layout, new_size, fresh)?;
                for i in 0..step.from.len {
                    let byte = self.read(step.from.addr + i);
                    self.write(step.to + i, byte);
                }
                self.dealloc(step.free.ptr, step.free.layout.size, step.free.layout.align);
                fresh
            }
        }
    }

    /// Write `tag` at both ends and at each page in between.
    fn stamp(&mut self, ptr: usize, len: usize, tag: u8) {
        self.write(ptr + len - 1, tag);
        let mut off = 0;
        while off < len {
            self.write(ptr + off, tag);
            off += 4096;
        }
    }

    fn check(&self, ptr: usize, len: usize, tag: u8) {
        assert_eq!(self.read(ptr), tag, "head corrupted");
        assert_eq!(self.read(ptr + len - 1), tag, "tail corrupted");
        let mut off = 0;
        while off < len {
            assert_eq!(self.read(ptr + off), tag, "page at {off} corrupted");
            off += 4096;
        }
    }

    fn release(&mut self) -> usize {
        let mut sweep = zk_alloc::release_cache(&mut self.shards, &mut self.counters);
        while let Some(region) = sweep.regions.pop() {
            self.unmap(region);
        }
        sweep.bytes
    }
}

#[test]
fn small_roundtrip() {
    let mut m = Machine::new();
    let p = m.allocate(128, 16);
    assert!(p.is_some());
    let p = p.unwrap();
    m.fill(p, 128, 0xA5);
    assert_eq!(m.read(p), 0xA5);
    m.dealloc(p, 128, 16);
}

#[test]
fn large_roundtrip_and_reuse() {
    let size = 2 * 1024 * 1024;
    let mut m = Machine::new();
    let a = m.allocate(size, 64);
    assert!(a.is_some());
    let a = a.unwrap();
    assert_eq!(a % 64, 0);
    m.write(a, 1);
    m.write(a + size - 1, 2);
    m.dealloc(a, size, 64);

    // The next same-class request should reuse the very region we freed.
    let b = m.allocate(size, 64).unwrap();
    assert_eq!(a, b, "large free should be cached and reused");
    m.dealloc(b, size, 64);
}

#[test]
fn large_alloc_zeroed_clears_reused_region() {
    let size = 2 * 1024 * 1024;
    let mut m = Machine::new();
    let a = m.allocate(size, 64).unwrap();
    m.fill(a, size, 0xFF);
    m.dealloc(a, size, 64);

    let z = m.alloc_zeroed(size, 64).unwrap();
    assert_eq!(z, a, "should reuse the dirtied region");
    for i in 0..size {
        assert_eq!(m.read(z + i), 0, "byte {i} not zeroed");
    }
    m.dealloc(z, size, 64);
}

#[test]
fn realloc_same_class_is_in_place() {
    let mut m = Machine::new();
    let p = m.allocate(1_000_000, 8).unwrap();
    // 1_000_000 and 1_010_000 round to the same class.
    let q = m.realloc(p, 1_000_000, 8, 1_010_000).unwrap();
    assert_eq!(p, q);
    m.dealloc(q, 1_010_000, 8);
}

#[test]
fn release_is_safe_and_bounded() {
    let size = 4 * 1024 * 1024;
    let mut m = Machine::new();
    let mut ptrs = Vec::new();
    for _ in 0..8 {
        let p = m.allocate(size, 64);
        assert!(p.is_some());
        m.stamp(p.unwrap(), size, 0x7e);
        ptrs.push(p.unwrap());
    }
    for p in ptrs {
        m.check(p, size, 0x7e);
        m.dealloc(p, size, 64);
    }
    let _ = m.release();
    assert!(zk_alloc::cached_bytes(&m.counters) <= isize::MAX as usize);
    assert_eq!(zk_alloc::cached_bytes(&m.counters), 0);
    assert!(m.pages.is_empty());
}

#[test]
fn interleaved_alloc_free_is_consistent() {
    let mut m = Machine::new();
    for i in 0..60usize {
        for t in 0..4usize {
            let size = 64 * 1024 + ((t * 31 + i * 17) % 64) * 64 * 1024;
            let tag = (t * 7 + i) as u8;
            let p = m.alloc_on(t, size, 64);
            assert!(p.is_some());
            m.stamp(p.unwrap(), size, tag);
            m.check(p.unwrap(), size, tag);
            m.dealloc_on(t, p.unwrap(), size, 64);
        }
    }
    let held = m.counters.cached_bytes;
    assert_eq!(m.release(), held);
    assert!(m.pages.is_empty());
}

#[test]
fn live_buffers_are_never_overwritten() {
    let mut m = Machine::new();
    let mut live: Vec<(usize, usize, u8)> = Vec::new();
    for i in 0..120usize {
        let size = 128 * 1024 + (i % 8) * 128 * 1024;
        let tag = (i * 13) as u8;
        let p = m.alloc_on(i % 4, size, 64).unwrap();
        m.stamp(p, size, tag);
        live.push((p, size, tag));
        if i % 3 == 2 {
            // Freed on another shard than it was allocated on.
            let (q, len, t) = live.remove(i % live.len());
            m.check(q, len, t);
            m.dealloc_on((i + 1) % 4, q, len, 64);
        }
    }
    for (q, len, t) in live {
        m.check(q, len, t);
        m.dealloc_on(3, q, len, 64);
    }
    m.release();
    assert!(m.pages.is_empty());
}

#[test]
fn a_region_freed_elsewhere_is_reused_there() {
    let mut m = Machine::new();
    let a = m.alloc_on(0, 100_000, 8).unwrap();
    m.dealloc_on(1, a, 100_000, 8);
    assert_ne!(m.alloc_on(0, 100_000, 8), Some(a));
    assert_eq!(m.alloc_on(1, 100_000, 8), Some(a));
}

#[test]
fn routing_is_by_size() {
    let z = ZkAlloc::new();
    for (size, route) in [
        (0, Route::System),
        (LARGE_THRESHOLD - 1, Route::System),
        (LARGE_THRESHOLD, Route::Cache),
        (usize::MAX, Route::Cache),
    ] {
        assert_eq!(z.allocate(size), route);
        assert_eq!(z.alloc_zeroed(size), route);
        assert_eq!(z.dealloc(size), route);
    }
    assert_eq!(ZkAlloc::default(), z);
}

#[test]
fn resizing_decides_by_threshold_and_class() {
    let z = ZkAlloc::new();
    let t = LARGE_THRESHOLD;
    let of = |size: usize| BlockLayout { size, align: 32 };
    assert_eq!(z.realloc(of(10), t - 1), Resize::System);
    assert_eq!(z.realloc(of(t - 1), t), Resize::Move { request: of(t) });
    assert_eq!(z.realloc(of(t), t - 1), Resize::Move { request: of(t - 1) });
    assert_eq!(z.realloc(of(t), t + 1), Resize::Move { request: of(t + 1) });
    assert_eq!(z.realloc(of(t + 1), 80 * 1024), Resize::Keep);
    assert_eq!(z.realloc(of(80 * 1024), t + 1), Resize::Keep);
    assert_eq!(z.realloc(of(4 * t), 2 * t), Resize::Move { request: of(2 * t) });
}

#[test]
fn relocation_needs_a_new_block() {
    let z = ZkAlloc::new();
    let layout = BlockLayout { size: 7, align: 4 };
    assert_eq!(z.relocate(0x1000, layout, 5, None), None);
    for (new_size, len) in [(5, 5), (7, 7), (70_000, 7)] {
        assert_eq!(
            z.relocate(0x1000, layout, new_size, Some(0x9000)),
            Some(Relocation {
                from: Span { addr: 0x1000, len },
                to: 0x9000,
                free: Block { ptr: 0x1000, layout },
            })
        );
    }
}

#[test]
fn growing_across_classes_keeps_the_contents() {
    let mut m = Machine::new();
    let p = m.allocate(1000, 8).unwrap();
    for i in 0..1000 {
        m.write(p + i, (i % 255) as u8);
    }
    let q = m.realloc(p, 1000, 8, 70_000).unwrap();
    let r = m.realloc(q, 70_000, 8, 500_000).unwrap();
    assert_ne!(q, r);
    let s = m.realloc(r, 500_000, 8, 900).unwrap();
    for i in 0..900 {
        assert_eq!(m.read(s + i), (i % 255) as u8);
    }
}

#[test]
fn zeroed_memory_is_zero_when_fresh_too() {
    let mut m = Machine::new();
    let p = m.alloc_zeroed(100_000, 8).unwrap();
    for i in 0..100_000 {
        assert_eq!(m.read(p + i), 0);
    }
}

#[test]
fn alignment_is_met_up_to_and_beyond_a_huge_page() {
    let mut m = Machine::new();
    for align in [1, 64, PAGE, 4 * PAGE, HUGE_PAGE, 2 * HUGE_PAGE] {
        let p = m.allocate(100_000, align).unwrap();
        assert_eq!(p % align, 0);
        m.stamp(p, 100_000, 9);
        m.dealloc(p, 100_000, align);
    }
    // What was aligned beyond a huge page went back to the kernel.
    assert_eq!(m.counters.unmapped, 1);
}

#[test]
fn a_moved_block_is_freed_once_with_its_own_layout() {
    let mut m = Machine::new();
    let p = m.allocate(100_000, 4 * PAGE).unwrap();
    m.stamp(p, 100_000, 3);
    let q = m.realloc(p, 100_000, 4 * PAGE, 300_000).unwrap();
    assert_ne!(p, q);
    assert_eq!(q % (4 * PAGE), 0);
    m.check(q, 100_000, 3);
    // The old region is the one in the cache now.
    assert_eq!(zk_alloc::cached_bytes(&m.counters), 112 * 1024);
    assert_eq!(m.allocate(100_000, 8), Some(p));
    m.dealloc(p, 100_000, 8);
    m.dealloc(q, 300_000, 4 * PAGE);
    assert_eq!(m.counters.mapped, 2);
    m.release();
    assert_eq!(m.counters.unmapped, 2);
    assert!(m.pages.is_empty());
}
