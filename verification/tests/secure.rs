use zk_alloc::config::PAGE;
use zk_alloc::secure::{SecretLayout, SecretPages};
use zk_alloc::sys::Span;
use zk_alloc::{MapFailed, SecretBuf};

/// Where the mappings of these tests start.
const BASE: usize = 0x10_0000;

/// The data pages of a fresh mapping for a secret of `len` bytes.
fn fresh_pages(len: usize) -> Vec<u8> {
    vec![0u8; SecretBuf::layout(BASE, len).data.len]
}

fn mapped(pages: &mut Vec<u8>) -> Option<SecretPages<'_>> {
    Some(SecretPages { base: BASE, pages, front_ok: true, rear_ok: true, locked: true })
}

#[test]
fn starts_zeroed_and_roundtrips() {
    let mut pages = fresh_pages(1024);
    let mut s = SecretBuf::new(1024, mapped(&mut pages)).ok().unwrap();
    assert!(s.as_slice().iter().all(|&b| b == 0));
    for (i, b) in s.as_mut_slice().iter_mut().enumerate() {
        *b = (i % 251) as u8;
    }
    assert_eq!(s.as_slice()[100], 100);
    assert_eq!(s.as_slice()[300], (300 % 251) as u8);
}

#[test]
fn length_is_exact_even_when_unaligned() {
    let mut pages = fresh_pages(1000);
    let s = SecretBuf::new(1000, mapped(&mut pages)).ok().unwrap();
    assert_eq!(s.as_slice().len(), 1000);
}

#[test]
fn explicit_wipe_clears() {
    let mut pages = fresh_pages(64);
    let mut s = SecretBuf::new(64, mapped(&mut pages)).ok().unwrap();
    s.as_mut_slice().fill(0xAB);
    s.wipe();
    assert!(s.as_slice().iter().all(|&b| b == 0));
}

#[test]
fn wipe_clears_the_whole_data_pages() {
    let mut pages = vec![0xEE; 2 * PAGE];
    let mut s = SecretBuf::new(PAGE + 1, mapped(&mut pages)).ok().unwrap();
    assert_eq!(s.as_mut_slice().len(), PAGE + 1);
    s.wipe();
    assert_eq!(s.as_slice().len(), PAGE + 1);
    assert!(pages.iter().all(|&b| b == 0));
}

#[test]
fn guards_fence_the_data() {
    assert_eq!(SecretBuf::mapping_len(5000), 4 * PAGE);
    assert_eq!(
        SecretBuf::layout(BASE, 5000),
        SecretLayout {
            front: Span { addr: BASE, len: PAGE },
            data: Span { addr: BASE + PAGE, len: 2 * PAGE },
            rear: Span { addr: BASE + 3 * PAGE, len: PAGE },
        }
    );
}

#[test]
fn an_empty_secret_still_has_a_page() {
    assert_eq!(SecretBuf::mapping_len(0), 3 * PAGE);
    let mut pages = fresh_pages(0);
    assert_eq!(pages.len(), PAGE);
    let s = SecretBuf::new(0, mapped(&mut pages)).ok().unwrap();
    assert!(s.as_slice().is_empty());
}

#[test]
fn no_memory_for_a_secret_is_an_error() {
    let e = SecretBuf::new(5000, None).err();
    assert_eq!(e, Some(MapFailed { bytes: 4 * PAGE }));
}

#[test]
fn a_secret_without_both_guards_is_an_error() {
    for (front_ok, rear_ok) in [(false, true), (true, false), (false, false)] {
        let mut pages = fresh_pages(5000);
        let open =
            Some(SecretPages { base: BASE, pages: &mut pages, front_ok, rear_ok, locked: true });
        assert_eq!(SecretBuf::new(5000, open).err(), Some(MapFailed { bytes: 4 * PAGE }));
    }
}

#[test]
fn the_secret_is_the_front_of_its_pages() {
    let mut pages = fresh_pages(10);
    let mut s = SecretBuf::new(10, mapped(&mut pages)).ok().unwrap();
    assert_eq!(s.as_mut_pages().len(), PAGE);
    s.as_mut_pages()[9] = 7;
    s.as_mut_pages()[10] = 8;
    assert_eq!(s.as_slice(), [0, 0, 0, 0, 0, 0, 0, 0, 0, 7]);
}

#[test]
fn a_lock_that_failed_is_reported_not_an_error() {
    let mut pages = fresh_pages(10);
    let refused = Some(SecretPages {
        base: BASE,
        pages: &mut pages,
        front_ok: true,
        rear_ok: true,
        locked: false,
    });
    let mut s = SecretBuf::new(10, refused).ok().unwrap();
    assert!(!s.is_locked());
    s.as_mut_slice()[9] = 1;
    let end = s.retire();
    assert_eq!(end.unlock, None);
    assert_eq!(end.unmap, Span { addr: BASE, len: 3 * PAGE });
    assert!(pages.iter().all(|&b| b == 0));
}

#[test]
fn retiring_wipes_then_unlocks_and_unmaps() {
    let mut pages = fresh_pages(10);
    let mut s = SecretBuf::new(10, mapped(&mut pages)).ok().unwrap();
    assert!(s.is_locked());
    s.as_mut_slice().fill(0x5A);
    let end = s.retire();
    assert_eq!(end.wipe, Span { addr: BASE + PAGE, len: PAGE });
    assert_eq!(end.unlock, Some(Span { addr: BASE + PAGE, len: PAGE }));
    assert_eq!(end.unmap, Span { addr: BASE, len: 3 * PAGE });
    assert!(pages.iter().all(|&b| b == 0));
}
