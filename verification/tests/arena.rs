use zk_alloc::config::HUGE_PAGE;
use zk_alloc::sys::Span;
use zk_alloc::{Arena, MapFailed};

/// Where the mappings of these tests start.
const BASE: usize = 0x4000_0000;

/// An arena on a mapping that starts at `BASE`, and the bytes of the mapping.
fn arena_of(bytes: usize) -> (Arena, Vec<u8>) {
    let memory = vec![0u8; Arena::mapping_len(bytes)];
    let arena = Arena::with_capacity(bytes, Some(BASE)).unwrap();
    assert_eq!(arena.mapping(), Span { addr: BASE, len: memory.len() });
    (arena, memory)
}

fn fill(memory: &mut Vec<u8>, addr: usize, len: usize, byte: u8) {
    for i in 0..len {
        memory[addr - BASE + i] = byte;
    }
}

#[test]
fn bump_and_reset() {
    let (mut arena, _) = arena_of(4 * 1024 * 1024);
    assert!(arena.capacity() >= 4 * 1024 * 1024);

    let a = arena.allocate(1024, 64);
    assert!(a.is_some());
    assert_eq!(a.unwrap() % 64, 0);
    assert!(arena.used() >= 1024);

    arena.reset();
    assert_eq!(arena.used(), 0);

    let b = arena.allocate(1024, 64);
    assert_eq!(a, b, "reset should hand back the same memory");
}

#[test]
fn exhaustion_returns_null() {
    let (mut arena, _) = arena_of(HUGE_PAGE);
    assert!(arena.allocate(arena.capacity(), 1).is_some());
    assert!(arena.allocate(1, 1).is_none());
}

#[test]
fn typed_array() {
    let (mut arena, mut memory) = arena_of(HUGE_PAGE);
    let p = arena.alloc_array::<u64>(1000);
    assert!(p.is_some());
    let p = p.unwrap();
    assert_eq!(p % std::mem::align_of::<u64>(), 0);
    for i in 0..1000usize {
        let at = p - BASE + i * 8;
        memory[at..at + 8].copy_from_slice(&(i as u64).to_ne_bytes());
    }
    let at = p - BASE + 999 * 8;
    let mut last = [0u8; 8];
    last.copy_from_slice(&memory[at..at + 8]);
    assert_eq!(u64::from_ne_bytes(last), 999);
}

#[test]
fn secure_reset_zeroes() {
    let (mut arena, mut memory) = arena_of(HUGE_PAGE);
    let p = arena.allocate(4096, 8);
    fill(&mut memory, p.unwrap(), 4096, 0xCC);
    let wipe = arena.secure_reset().unwrap();
    fill(&mut memory, wipe.addr, wipe.len, 0);
    // After reset the same bytes are handed back, now zeroed.
    let q = arena.allocate(4096, 8);
    assert_eq!(p, q);
    for i in 0..4096 {
        assert_eq!(memory[q.unwrap() - BASE + i], 0);
    }
}

#[test]
fn capacity_is_whole_huge_pages() {
    for (bytes, capacity) in [
        (0, HUGE_PAGE),
        (1, HUGE_PAGE),
        (HUGE_PAGE, HUGE_PAGE),
        (HUGE_PAGE + 1, 2 * HUGE_PAGE),
    ] {
        assert_eq!(Arena::mapping_len(bytes), capacity);
        let arena = Arena::with_capacity(bytes, Some(BASE)).unwrap();
        assert_eq!(arena.capacity(), capacity);
        assert_eq!(arena.used(), 0);
        assert_eq!(arena.remaining(), capacity);
    }
}

#[test]
fn an_arena_is_mapped_for_huge_pages() {
    assert_eq!(Arena::mapping_align(), HUGE_PAGE);
    let len = Arena::mapping_len(5);
    let m = zk_alloc::sys::map(len, Arena::mapping_align(), Some(0x7000_0000_1000)).unwrap();
    assert_eq!(m.addr, 0x7000_0020_0000);
    assert!(m.huge);
}

#[test]
fn no_mapping_is_an_error() {
    let e = Arena::with_capacity(5_000_000, None).unwrap_err();
    assert_eq!(e, MapFailed { bytes: 3 * HUGE_PAGE });
    assert_eq!(e.message(), "failed to map 6291456 bytes from the kernel");
}

#[test]
fn improper_requests_are_refused() {
    let (mut arena, _) = arena_of(HUGE_PAGE);
    assert_eq!(arena.allocate(0, 8), None);
    assert_eq!(arena.allocate(8, 0), None);
    assert_eq!(arena.allocate(8, 24), None);
    assert_eq!(arena.alloc_array::<u64>(0), None);
    assert_eq!(arena.alloc_array::<()>(10), None);
    assert_eq!(arena.alloc_array::<u64>(usize::MAX), None);
    assert_eq!(arena.used(), 0);
}

#[test]
fn huge_sizes_and_alignments_are_refused() {
    let (mut arena, _) = arena_of(HUGE_PAGE);
    assert_eq!(arena.allocate(usize::MAX, 1), None);
    assert_eq!(arena.allocate(1, 1 << (usize::BITS - 1)), None);
    // At the end of the address space, rounding up leaves it.
    let last = usize::MAX - HUGE_PAGE;
    let mut high = Arena::with_capacity(HUGE_PAGE, Some(last)).unwrap();
    assert_eq!(high.allocate(1, 1 << (usize::BITS - 1)), None);
    assert_eq!(high.used(), 0);
}

#[test]
fn allocations_are_packed_and_aligned() {
    let (mut arena, _) = arena_of(HUGE_PAGE);
    assert_eq!(arena.allocate(3, 1), Some(BASE));
    assert_eq!(arena.allocate(10, 8), Some(BASE + 8));
    assert_eq!(arena.used(), 18);
    assert_eq!(arena.allocate(1, 4096), Some(BASE + 4096));
    assert_eq!(arena.used(), 4097);
    assert_eq!(arena.remaining(), HUGE_PAGE - 4097);
}

#[test]
fn a_refusal_leaves_the_arena_as_it_was() {
    let (mut arena, _) = arena_of(HUGE_PAGE);
    arena.allocate(HUGE_PAGE - 8, 1);
    assert_eq!(arena.allocate(9, 1), None);
    assert_eq!(arena.used(), HUGE_PAGE - 8);
    assert_eq!(arena.allocate(8, 1), Some(BASE + HUGE_PAGE - 8));
    assert_eq!(arena.remaining(), 0);
}

#[test]
fn secure_reset_of_an_unused_arena_wipes_nothing() {
    let (mut arena, _) = arena_of(HUGE_PAGE);
    assert_eq!(arena.secure_reset(), None);
    arena.allocate(10, 16);
    arena.allocate(10, 16);
    assert_eq!(arena.secure_reset(), Some(Span { addr: BASE, len: 26 }));
    assert_eq!(arena.used(), 0);
}

#[test]
fn threads_that_share_a_cursor_get_disjoint_memory() {
    let (arena, _) = arena_of(HUGE_PAGE);
    // Both threads find the cursor at 0; the first one moves it.
    let mut first = arena.at(0);
    let mut second = arena.at(0);
    assert_eq!(first.allocate(100, 64), Some(BASE));
    assert_eq!(second.allocate(50, 64), Some(BASE));
    let cursor = first.used();
    // The second one finds it moved, and works on what it finds now.
    let mut again = arena.at(cursor);
    assert_eq!(again.allocate(50, 64), Some(BASE + 128));
    assert_eq!(again.used(), 178);
    assert_eq!(again.remaining(), HUGE_PAGE - 178);
    assert_eq!(arena.used(), 0);
}
