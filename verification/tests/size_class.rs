use zk_alloc::config::{CACHE_MAX_REGION, HUGE_PAGE, LARGE_THRESHOLD, MAX_CLASSES, PAGE};
use zk_alloc::size_class::{class_of, region_align, Class, B_MIN};

#[test]
fn class_is_at_least_request_and_within_25_percent() {
    let mut size = LARGE_THRESHOLD;
    while size <= CACHE_MAX_REGION {
        let c = class_of(size);
        assert!(c.total >= size, "class {} < request {}", c.total, size);
        // Waste is bounded by the grid spacing (a quarter of the power).
        assert!((c.total - size) * 4 <= c.total, "waste too high at {size}");
        assert!(c.index < MAX_CLASSES, "index {} overflow", c.index);
        size += LARGE_THRESHOLD / 2 + 1;
    }
}

#[test]
fn dealloc_recovers_the_same_class() {
    // Any request and its rounded class must map to one identical class, since
    // a block is freed with the original layout (its size, not the class).
    for &s in &[
        64 * 1024,
        100 * 1024,
        1_000_000,
        2 * 1024 * 1024,
        33_000_000,
    ] {
        let c = class_of(s);
        assert_eq!(
            class_of(c.total),
            c,
            "size {s} not a fixed point of its class"
        );
    }
}

#[test]
fn classes_are_strictly_increasing() {
    let mut last = 0;
    let mut size = LARGE_THRESHOLD;
    while size <= CACHE_MAX_REGION {
        let c = class_of(size);
        assert!(c.total > last || c.total == class_of(size - 1).total);
        last = c.total;
        size *= 2;
    }
}

#[test]
fn classes_lie_on_the_quarter_grid() {
    let k = 1024;
    assert_eq!(class_of(64 * k), Class { index: 0, total: 64 * k });
    assert_eq!(class_of(64 * k + 1), Class { index: 1, total: 80 * k });
    assert_eq!(class_of(80 * k), Class { index: 1, total: 80 * k });
    assert_eq!(class_of(80 * k + 1), Class { index: 2, total: 96 * k });
    assert_eq!(class_of(112 * k), Class { index: 3, total: 112 * k });
    assert_eq!(class_of(112 * k + 1), Class { index: 4, total: 128 * k });
    assert_eq!(class_of(1_000_000), Class { index: 16, total: 1024 * k });
    assert_eq!(class_of(CACHE_MAX_REGION), Class { index: 48, total: CACHE_MAX_REGION });
    assert_eq!(LARGE_THRESHOLD, 1 << B_MIN);
}

#[test]
fn largest_size_has_a_class() {
    let largest = usize::MAX / 8 * 7 + 7;
    let c = class_of(largest);
    assert_eq!(c.total, largest);
    assert_eq!(class_of(largest - 1), c);
    assert_eq!(c.index, (usize::BITS as usize - 1 - B_MIN) * 4 + 3);
}

#[test]
fn regions_are_aligned_to_huge_pages_from_their_size_on() {
    assert_eq!(region_align(LARGE_THRESHOLD), PAGE);
    assert_eq!(region_align(HUGE_PAGE - 1), PAGE);
    assert_eq!(region_align(HUGE_PAGE), HUGE_PAGE);
    assert_eq!(region_align(CACHE_MAX_REGION), HUGE_PAGE);
}
