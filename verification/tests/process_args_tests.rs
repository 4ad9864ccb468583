use kit_kernel::memory::phys::RegionState;
use kit_kernel::process::{Error, HeapChange, ProcessMem};

#[test]
fn setup_args_lays_out_pointer_table_and_text() {
    let mut phys = RegionState::initialize(&[0x100000..0x110000]);
    let mut mem = ProcessMem::new(7, 0x1_0000_0000);
    let mut mapped = Vec::new();
    let args = vec![b"init".to_vec(), b"-v".to_vec()];
    let image = mem.setup_args(&mut phys, &args, &mut mapped).unwrap().unwrap();
    // 2 pointers, "init\0" and "-v\0".
    let size = 16 + 5 + 3;
    let vaddr = (0x0000_7fee_ffff_ffffusize - size) & !0xfff;
    assert_eq!(image.argc, 2);
    assert_eq!(image.vaddr, vaddr);
    let mut expected = Vec::new();
    expected.extend_from_slice(&((vaddr + 16) as u64).to_le_bytes());
    expected.extend_from_slice(&((vaddr + 21) as u64).to_le_bytes());
    expected.extend_from_slice(b"init\0-v\0");
    assert_eq!(image.bytes, expected);
    assert_eq!(mapped.len(), 1);
    assert_eq!(mapped[0].0, vaddr);
    assert_eq!(mapped[0].2, 1);
    assert!(mapped[0].3.is_user());
}

#[test]
fn setup_args_without_args_does_nothing() {
    let mut phys = RegionState::initialize(&[0x100000..0x110000]);
    let mut mem = ProcessMem::new(7, 0x1_0000_0000);
    let mut mapped = Vec::new();
    assert!(mem.setup_args(&mut phys, &[], &mut mapped).unwrap().is_none());
    assert!(mapped.is_empty());
}

#[test]
fn setup_args_out_of_memory() {
    let mut phys = RegionState::initialize(&[]);
    let mut mem = ProcessMem::new(7, 0x1_0000_0000);
    let mut mapped = Vec::new();
    let args = vec![b"x".to_vec()];
    assert_eq!(mem.setup_args(&mut phys, &args, &mut mapped).unwrap_err(), Error::OutOfMemory(0));
}

#[test]
fn map_allocate_maps_runs_one_after_another() {
    // Two free regions of one and two pages: three pages come in two runs.
    let mut phys = RegionState::initialize(&[0x100000..0x101000, 0x200000..0x202000]);
    assert_eq!(phys.free_page_count(), 3);
    let mut mem = ProcessMem::new(7, 0x1_0000_0000);
    let mut mapped = Vec::new();
    let t = kit_kernel::paging::PageType::default().writable();
    assert_eq!(mem.map_allocate(&mut phys, 0x40_0000, 3 * 4096 - 100, t, &mut mapped), Ok(()));
    assert_eq!(mapped.len(), 2);
    assert_eq!(mapped[0].0, 0x40_0000);
    assert_eq!(mapped[1].0, 0x40_0000 + mapped[0].2 * 4096);
    assert_eq!(mapped[0].2 + mapped[1].2, 3);
    assert_ne!(mapped[0].1, mapped[1].1);
    assert!(mapped.iter().all(|m| m.3.is_user()));
    assert_eq!(phys.free_page_count(), 0);
    // Nothing is left: the next page is refused.
    assert_eq!(mem.map_allocate(&mut phys, 0x50_0000, 1, t, &mut mapped), Err(Error::OutOfMemory(0)));
}

#[test]
fn adjust_heap_acquires_pages_to_grow_and_keeps_length_on_failure() {
    let mut phys = RegionState::initialize(&[0x100000..0x103000]);
    let mut mem = ProcessMem::new(7, 0x1_0000_0000);
    let mut mapped = Vec::new();
    // Two pages' worth, rounded up: two pages acquired, mapped from the base.
    assert_eq!(
        mem.adjust_heap(&mut phys, 4096 + 10, &mut mapped),
        Ok(HeapChange::Grow { base: 0x1_0000_0000, size: 2 * 4096 })
    );
    assert_eq!(mem.heap_length(), 4096 + 10);
    assert_eq!(mapped.iter().map(|m| m.2).sum::<usize>(), 2);
    assert_eq!(mapped[0].0, 0x1_0000_0000);
    assert_eq!(phys.free_page_count(), 1);
    // Within the last page: nothing to map.
    assert_eq!(mem.adjust_heap(&mut phys, 100, &mut mapped), Ok(HeapChange::Unchanged));
    // Two more pages cannot be had: fewer are free, the length stays.
    assert_eq!(mem.adjust_heap(&mut phys, 2 * 4096, &mut mapped), Err(Error::OutOfMemory(0)));
    assert_eq!(phys.free_page_count(), 1);
    assert_eq!(mem.heap_length(), 4096 + 110);
    assert!(mem.pageset().get(0x1_0000_1000).is_some());
    // Shrinking unmaps the pages past the new end.
    assert_eq!(
        mem.adjust_heap(&mut phys, -(4096 + 110), &mut mapped),
        Ok(HeapChange::Shrink { base: 0x1_0000_0000, size: 2 * 4096 })
    );
    assert!(mem.pageset().get(0x1_0000_0000).is_none());
    assert!(mem.pageset().get(0x1_0000_1000).is_none());
    assert_eq!(mem.adjust_heap(&mut phys, -1, &mut mapped), Err(Error::Overflow));
}
