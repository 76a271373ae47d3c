use zk_alloc::config::{HUGE_PAGE, PAGE};
use zk_alloc::sys::{is_power_of_two, map_request, round_up, Mapping, Span};

#[test]
fn rounding_up() {
    assert_eq!(round_up(0, 8), 0);
    assert_eq!(round_up(1, 8), 8);
    assert_eq!(round_up(8, 8), 8);
    assert_eq!(round_up(4097, PAGE), 8192);
    assert_eq!(round_up(7, 1), 7);
}

#[test]
fn powers_of_two() {
    for k in 0..usize::BITS {
        assert!(is_power_of_two(1 << k));
    }
    for n in [0, 3, 5, 6, 12, 96, usize::MAX] {
        assert!(!is_power_of_two(n));
    }
}

#[test]
fn page_alignment_uses_the_block_as_it_is() {
    assert_eq!(map_request(3 * PAGE, PAGE), 3 * PAGE);
    assert_eq!(
        zk_alloc::sys::map(3 * PAGE, 64, Some(0x7000)),
        Some(Mapping { addr: 0x7000, head: None, tail: None, huge: false })
    );
}

#[test]
fn larger_alignment_carves_a_window() {
    let len = 2 * HUGE_PAGE;
    assert_eq!(map_request(len, HUGE_PAGE), 3 * HUGE_PAGE);
    let base = 5 * HUGE_PAGE + PAGE;
    let m = zk_alloc::sys::map(len, HUGE_PAGE, Some(base)).unwrap();
    assert_eq!(m.addr, 6 * HUGE_PAGE);
    assert_eq!(m.head, Some(Span { addr: base, len: HUGE_PAGE - PAGE }));
    assert_eq!(m.tail, Some(Span { addr: 8 * HUGE_PAGE, len: PAGE }));
    assert!(m.huge);
}

#[test]
fn an_aligned_block_has_all_its_slack_behind_it() {
    let m = zk_alloc::sys::map(HUGE_PAGE, HUGE_PAGE, Some(4 * HUGE_PAGE)).unwrap();
    assert_eq!(m.addr, 4 * HUGE_PAGE);
    assert_eq!(m.head, None);
    assert_eq!(m.tail, Some(Span { addr: 5 * HUGE_PAGE, len: HUGE_PAGE }));
}

#[test]
fn alignment_between_page_and_huge_page_is_not_advised() {
    let m = zk_alloc::sys::map(PAGE, 4 * PAGE, Some(PAGE)).unwrap();
    assert_eq!(m.addr, 4 * PAGE);
    assert!(!m.huge);
}

#[test]
fn no_block_no_mapping() {
    assert_eq!(zk_alloc::sys::map(PAGE, PAGE, None), None);
    assert_eq!(zk_alloc::sys::map(HUGE_PAGE, HUGE_PAGE, None), None);
}
