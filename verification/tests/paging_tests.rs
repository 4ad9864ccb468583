use kit_kernel::paging::x86_64::{Error, ModifyWhileState, Pml4Kind, Pt};
use kit_kernel::paging::PageType;

#[test]
fn page_type_flags() {
    let t = PageType::default().writable().user();
    assert!(t.is_writable());
    assert!(t.is_user());
    assert!(!t.is_executable());
    let t = t.executable().not_writable();
    assert!(t.is_executable());
    assert!(!t.is_writable());
    assert!(t.is_user());
    assert!(!t.not_user().is_user());
    assert!(!t.not_executable().is_executable());
}

#[test]
fn page_table_entry_roundtrip() {
    let mut pt = Pt::new();
    assert_eq!(pt.get(5), None);
    pt.set(5, Some((0x1234_5000, PageType::default().writable().executable())));
    // The executable flag is not recorded in the entry.
    assert_eq!(pt.get(5), Some((0x1234_5000, PageType::default().writable())));
    pt.set(6, Some((0x7fff, PageType::default().user())));
    assert_eq!(pt.get(6), Some((0x7000, PageType::default().user())));
    pt.set(5, None);
    assert_eq!(pt.get(5), None);
    assert_eq!(pt.get(512), None);
}

#[test]
fn vaddr_ranges() {
    assert!(Pml4Kind::User.vaddr_ok(0x0000_7fff_ffff_f000));
    assert!(!Pml4Kind::User.vaddr_ok(0x0000_8000_0000_0000));
    assert!(Pml4Kind::Kernel.vaddr_ok(0xffff_ffff_8000_0000));
    assert!(!Pml4Kind::Kernel.vaddr_ok(0x0000_0000_0000_1000));
    assert!(!Pml4Kind::Kernel.vaddr_ok(0xfff0_ffff_8000_0000));
}

#[test]
fn modify_state_result() {
    assert_eq!(ModifyWhileState::Done.into_result(), Ok(()));
    assert_eq!(
        ModifyWhileState::Error(Error::OutOfUserRange(5)).into_result(),
        Err(Error::OutOfUserRange(5))
    );
}

use kit_kernel::memory::InitMemoryMap;
use kit_kernel::paging::tree::{safe_lookup, PageRun, Pageset};

#[test]
fn pageset_maps_and_reads_back() {
    let mut p = Pageset::new();
    assert!(!p.is_kernel_pageset());
    let w = PageType::default().writable().user();
    assert_eq!(p.map_pages_with_type(0x40_0000, 0x20_0000, 3, w), Ok(()));
    assert_eq!(p.get(0x40_0000), Some((0x20_0000, w)));
    assert_eq!(p.get(0x40_1000), Some((0x20_1000, w)));
    assert_eq!(p.get(0x40_2000), Some((0x20_2000, w)));
    assert_eq!(p.get(0x40_3000), None);
    assert_eq!(p.lookup(0x40_1234), Some(0x20_1234));
    assert_eq!(p.unmap(0x40_1000), Ok(()));
    assert_eq!(p.get(0x40_1000), None);
    assert_eq!(p.get(0x40_2000), Some((0x20_2000, w)));
    assert_eq!(Pageset::page_size(), 4096);
}

#[test]
fn pageset_runs_across_tables() {
    let mut p = Pageset::new();
    let t = PageType::default();
    // Crosses a page table and a page directory boundary.
    let vaddr = 0x3fff_e000;
    assert_eq!(p.map_pages_with_type(vaddr, 0x100_0000, 4, t), Ok(()));
    assert_eq!(p.get(0x3fff_f000), Some((0x100_1000, t)));
    assert_eq!(p.get(0x4000_0000), Some((0x100_2000, t)));
    assert_eq!(p.get(0x4000_1000), Some((0x100_3000, t)));
    assert_eq!(p.unmap_pages(vaddr, 4), Ok(()));
    assert_eq!(p.get(0x4000_0000), None);
}

#[test]
fn pageset_range_errors() {
    let mut p = Pageset::new();
    let t = PageType::default();
    let k = 0xffff_ffff_8000_0000usize;
    assert_eq!(p.map(k, 0x1000, t), Err(Error::OutOfUserRange(k)));
    assert_eq!(p.get(k), None);
    // The last user page is stored, but the walk then leaves the half.
    assert_eq!(p.map(0x7fff_ffff_f000, 0x5000, t), Err(Error::OutOfUserRange(0x8000_0000_0000)));
    assert_eq!(p.get(0x7fff_ffff_f000), Some((0x5000, t)));
}

#[test]
fn kernel_pageset_from_boot_mappings() {
    let mut m = InitMemoryMap::default();
    let w = PageType::default().writable();
    m.boot_mappings.push((0xffff_ffff_8000_0000, 256, Some((0, w))));
    m.boot_mappings.push((0xffff_ffff_8000_1000, 1, None));
    let mut p = Pageset::new_kernel(&m);
    assert!(p.is_kernel_pageset());
    assert_eq!(p.get(0xffff_ffff_8000_0000), Some((0, w)));
    assert_eq!(p.get(0xffff_ffff_8000_1000), None);
    assert_eq!(p.get(0xffff_ffff_800f_f000), Some((0xff000, w)));
    assert_eq!(p.get(0x1000), None);
    assert_eq!(p.set(0x1000, None), Err(Error::OutOfKernelRange(0x1000)));
    // A run at the very top of the kernel half wraps to the page offset.
    assert_eq!(p.map(0xffff_ffff_ffff_f000, 0x9000, w), Err(Error::OutOfKernelRange(0)));
    assert_eq!(p.modify_while(0xffff_ffff_8000_0000, PageRun { page: None, remaining: 2 }), Ok(()));
    assert_eq!(p.get(0xffff_ffff_8000_0000), None);
    assert_eq!(p.get(0xffff_ffff_8000_2000), Some((0x2000, w)));
}

#[test]
fn safe_lookup_before_and_after_paging() {
    let mut m = InitMemoryMap::default();
    let w = PageType::default().writable();
    m.boot_mappings.push((0xffff_ffff_8000_0000, 16, Some((0x10_0000, w))));
    let p = Pageset::new_kernel(&m);
    // Before paging is initialized, the low identity map is read off.
    assert_eq!(safe_lookup(false, &p, 0xffff_ffff_8000_1234), Some(0x1234));
    assert_eq!(safe_lookup(false, &p, 0xffff_ffff_8400_0000), None);
    assert_eq!(safe_lookup(false, &p, 0x1234), None);
    // Afterwards the kernel pageset decides.
    assert_eq!(safe_lookup(true, &p, 0xffff_ffff_8000_1234), Some(0x10_1234));
    assert_eq!(safe_lookup(true, &p, 0xffff_ffff_8010_0000), None);
}
