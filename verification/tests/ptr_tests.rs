use kit_kernel::paging::tree::Pageset;
use kit_kernel::paging::PageType;
use kit_kernel::ptr::{Error, UserPtr};

const P: usize = 4096;

/// Two user pages at 0x40_0000 and a kernel-only page after them.
fn pages() -> Pageset {
    let mut p = Pageset::new();
    let user = PageType::default().writable().user();
    let kernel = PageType::default().writable();
    assert_eq!(p.map_pages_with_type(0x40_0000, 0x10_0000, 2, user), Ok(()));
    assert_eq!(p.map_pages_with_type(0x40_2000, 0x20_0000, 1, kernel), Ok(()));
    p
}

/// Memory where byte `a` is `a % 7 + 1`, but for NULs at the given places.
fn memory(nuls: &'static [usize]) -> impl Fn(usize) -> u8 {
    move |a| if nuls.contains(&a) { 0 } else { (a % 7 + 1) as u8 }
}

#[test]
fn check_pages_of_user_ranges() {
    let p = pages();
    let ptr: UserPtr<u8> = UserPtr::from_addr(0x40_0ff0);
    assert_eq!(ptr.addr(), 0x40_0ff0);
    assert_eq!(ptr.check_pages(&p, 0x20), Ok(()));
    // The last byte is the last of the second user page.
    assert_eq!(ptr.check_pages(&p, 0x1010), Ok(()));
    // One byte more reaches the kernel page.
    assert_eq!(ptr.check_pages(&p, 0x1010 + 1), Err(Error::InaccessiblePage));
    // Nothing to read, nothing to check.
    assert_eq!(ptr.check_pages(&p, 0), Ok(()));
    // A range running into the kernel page is refused.
    assert_eq!(ptr.check_pages(&p, 0x1010 + P), Err(Error::InaccessiblePage));
    let unmapped: UserPtr<u8> = UserPtr::from_addr(0x50_0000);
    assert_eq!(unmapped.check_pages(&p, 2 * P), Err(Error::InaccessiblePage));
}

#[test]
fn check_pages_checks_the_page_of_a_single_byte() {
    let empty = Pageset::new();
    let ptr: UserPtr<u8> = UserPtr::from_addr(0x1000);
    assert_eq!(ptr.check_pages(&empty, 1), Err(Error::InaccessiblePage));
    assert_eq!(ptr.check_pages(&empty, 0), Ok(()));
}

#[test]
fn read_c_string_across_pages() {
    let p = pages();
    let start = 0x40_0ffc;
    let ptr: UserPtr<u8> = UserPtr::from_addr(start);
    let mem = memory(&[0x40_1002]);
    let mut buf = [0xaau8; 16];
    let s = ptr.read_c_string(&p, &mut buf, &mem).unwrap();
    assert_eq!(s.len(), 6);
    let expected: Vec<u8> = (start..start + 6).map(|a| (a % 7 + 1) as u8).collect();
    assert_eq!(s.as_bytes(), &expected[..]);
    assert_eq!(buf[6], 0);
    assert_eq!(buf[7], 0xaa);
}

#[test]
fn read_c_string_errors() {
    let p = pages();
    let ptr: UserPtr<u8> = UserPtr::from_addr(0x40_1ff0);
    // No NUL before the kernel page.
    let mut buf = [0u8; 64];
    assert_eq!(ptr.read_c_string(&p, &mut buf, &memory(&[])).err(), Some(Error::InaccessiblePage));
    // The buffer fills up first.
    let mut small = [0u8; 4];
    assert_eq!(ptr.read_c_string(&p, &mut small, &memory(&[])).err(), Some(Error::BufferTooSmall));
    // An unmapped pointer.
    let bad: UserPtr<u8> = UserPtr::from_addr(0x90_0000);
    assert_eq!(bad.read_c_string(&p, &mut buf, &memory(&[0x90_0000])).err(), Some(Error::InaccessiblePage));
}
