use kit_kernel::memory::large_heap::{
    allocate_pages, allocate_pages_from, deallocate_pages, pool_get, pool_get_or_create,
    preferred_region_size, HeapRegionState, HeapState, LARGE_HEAP_START, LARGE_HEAP_LENGTH, STACKS_START,
};
use kit_kernel::memory::phys::{
    kernel_acquire_and_map, release_to_free_region_list, AcquiredMappedRegion, FreeRegion,
    RegionState, RegionUser,
};
use kit_kernel::memory::pool::bitmap::{byte_size, FreeBitmap};
use kit_kernel::memory::pool::{Error, Pool, PoolConfig};
use kit_kernel::memory::{align_addr, align_addr_down, InitMemoryMap};
use kit_kernel::paging::PageType;

const P: usize = 4096;

fn region(start: usize, length: usize) -> FreeRegion {
    FreeRegion { start, length }
}

fn free_list(s: &RegionState) -> Vec<(usize, usize)> {
    s.free_regions().iter().map(|r| (r.start, r.length)).collect()
}

#[test]
fn initialize_skips_low_memory_and_partial_pages() {
    let s = RegionState::initialize(&[0..0x9f000, 0x100000..0x200000, 0x300800..0x302000]);
    // The first range is below the safe boundary; the last starts mid-page.
    assert_eq!(free_list(&s), vec![(0x301000, 1), (0x100000, 0x100)]);
    assert_eq!(s.total_page_count(), 0x101);
    assert_eq!(s.free_page_count(), 0x101);
}

#[test]
fn acquire_takes_from_end_of_first_region() {
    let mut s = RegionState::initialize(&[0x100000..0x110000]);
    assert_eq!(s.acquire_region(RegionUser::Kernel, 4), Some((0x10c000, 4)));
    assert_eq!(free_list(&s), vec![(0x100000, 12)]);
    assert_eq!(s.free_page_count(), 12);
    assert_eq!(s.acquire_region(RegionUser::Kernel, 13), None);
    assert_eq!(s.acquire_region(RegionUser::Kernel, 0), None);
    assert_eq!(s.acquire_region(RegionUser::Process(3), 12), Some((0x100000, 12)));
    assert!(free_list(&s).is_empty());
    assert_eq!(s.alloc_regions().len(), 2);
}

#[test]
fn acquire_may_return_fewer_pages() {
    let mut s = RegionState::initialize(&[0x100000..0x102000, 0x200000..0x210000]);
    // The newest region (the second range) is first in the list.
    assert_eq!(s.acquire_region(RegionUser::Kernel, 20), None);
    assert_eq!(s.acquire_region(RegionUser::Kernel, 17), Some((0x200000, 16)));
}

#[test]
fn release_undoes_acquire() {
    let mut s = RegionState::initialize(&[0x100000..0x110000]);
    let before = free_list(&s);
    let (start, n) = s.acquire_region(RegionUser::Kernel, 5).unwrap();
    s.release_region(RegionUser::Kernel, start, n);
    assert_eq!(free_list(&s), before);
    assert_eq!(s.free_page_count(), 16);
    assert!(s.alloc_regions().is_empty());
}

#[test]
fn release_with_other_user_keeps_region() {
    let mut s = RegionState::initialize(&[0x100000..0x110000]);
    let (start, n) = s.acquire_region(RegionUser::Kernel, 2).unwrap();
    assert_eq!(s.alloc_regions()[0].users, vec![RegionUser::Kernel]);
    s.release_region(RegionUser::Kernel, start, n);
    assert_eq!(s.free_page_count(), 16);
}

#[test]
fn release_merges_with_neighbours() {
    let mut list = vec![region(0x10000, 2), region(0x20000, 1)];
    // Ends where the second region starts: merged in front.
    release_to_free_region_list(&mut list, 0x1e000, 2);
    assert_eq!(list.iter().map(|r| (r.start, r.length)).collect::<Vec<_>>(), vec![(0x1e000, 3), (0x10000, 2)]);
    // Starts where the (now second) first region ends: extended in place.
    release_to_free_region_list(&mut list, 0x12000, 1);
    assert_eq!(list.iter().map(|r| (r.start, r.length)).collect::<Vec<_>>(), vec![(0x1e000, 3), (0x10000, 3)]);
    // No neighbour: pushed in front.
    release_to_free_region_list(&mut list, 0x40000, 1);
    assert_eq!(list[0].start, 0x40000);
    assert_eq!(list.len(), 3);
}

#[test]
fn kernel_acquire_in_several_regions() {
    let mut s = RegionState::initialize(&[0x100000..0x102000, 0x200000..0x203000]);
    let mut out: Vec<AcquiredMappedRegion> = Vec::new();
    assert_eq!(kernel_acquire_and_map(&mut s, 0x8000_0000, 4, &mut out), Ok(()));
    assert_eq!(out.len(), 2);
    assert_eq!(out[0], AcquiredMappedRegion { vaddr: 0x8000_0000, paddr: 0x200000, pages: 3 });
    assert_eq!(out[1], AcquiredMappedRegion { vaddr: 0x8000_0000 + 3 * P, paddr: 0x101000, pages: 1 });
    let mut more: Vec<AcquiredMappedRegion> = Vec::new();
    assert_eq!(kernel_acquire_and_map(&mut s, 0x9000_0000, 2, &mut more), Err(0));
}

#[test]
fn heap_usable_excludes_reserved_and_boot_mappings() {
    let mut map = InitMemoryMap::default();
    map.usable.push((0x100000, 0x200000));
    map.usable.push((0x300000, 0x400000));
    map.reserved.push((0x180000, 0x190000));
    map.boot_mappings.push((0xffff_8000_0000_0000usize.wrapping_add(0), 2, Some((0x300000, PageType::default()))));
    map.boot_mappings.push((0, 5, None));
    let set = map.heap_usable();
    let ranges: Vec<(usize, usize)> = set.iter().into_iter().map(|r| (r.start, r.end)).collect();
    assert_eq!(ranges, vec![(0x100000, 0x180000), (0x190000, 0x200000), (0x302000, 0x400000)]);
}

#[test]
fn heap_usable_with_an_empty_range_outside_the_others() {
    let mut map = InitMemoryMap::default();
    map.usable.push((0x100000, 0x200000));
    map.usable.push((0x500000, 0x500000));
    map.usable.push((0x300000, 0x400000));
    let set = map.heap_usable();
    let ranges: Vec<(usize, usize)> =
        set.iter().into_iter().map(|r| (r.start, r.end)).filter(|r| r.0 < r.1).collect();
    assert_eq!(ranges, vec![(0x100000, 0x200000), (0x300000, 0x400000)]);
}

#[test]
fn align_addr_rounds() {
    assert_eq!(align_addr(0x1001, 0x1000), 0x2000);
    assert_eq!(align_addr(0x1000, 0x1000), 0x1000);
    assert_eq!(align_addr(10, 3), 12);
    assert_eq!(align_addr_down(0x1fff, 0x1000), 0x1000);
    assert_eq!(align_addr_down(11, 3), 9);
}

#[test]
fn allocate_pages_from_end_of_region() {
    let mut list = vec![region(0x10000, 2), region(0x20000, 8)];
    assert_eq!(allocate_pages_from(&mut list, 4, P), Some(0x24000));
    assert_eq!(list.iter().map(|r| (r.start, r.length)).collect::<Vec<_>>(), vec![(0x10000, 2), (0x20000, 4)]);
    assert_eq!(allocate_pages_from(&mut list, 2, P), Some(0x10000));
    assert_eq!(list.iter().map(|r| (r.start, r.length)).collect::<Vec<_>>(), vec![(0x20000, 4)]);
    assert_eq!(allocate_pages_from(&mut list, 5, P), None);
}

#[test]
fn allocate_pages_from_with_large_alignment() {
    let mut list = vec![region(0x10000, 20)];
    // The allocation is aligned down; the pages after it become a region
    // starting where the allocation ends.
    assert_eq!(allocate_pages_from(&mut list, 1, 0x10000), Some(0x20000));
    assert_eq!(list.iter().map(|r| (r.start, r.length)).collect::<Vec<_>>(), vec![(0x21000, 3), (0x10000, 16)]);
}

#[test]
fn allocate_pages_from_keeps_the_page_after_the_allocation() {
    let mut list = vec![region(0x10000, 4)];
    assert_eq!(allocate_pages_from(&mut list, 1, 0x2000), Some(0x12000));
    assert_eq!(list.iter().map(|r| (r.start, r.length)).collect::<Vec<_>>(), vec![(0x13000, 1), (0x10000, 2)]);
}

#[test]
fn preferred_region_sizes() {
    assert_eq!(preferred_region_size(8), 1);
    assert_eq!(preferred_region_size(511), 1);
    assert_eq!(preferred_region_size(512), 4);
}

#[test]
fn heap_allocates_and_deallocates_pages() {
    let mut phys = RegionState::initialize(&[0x100000..0x200000]);
    let mut heap = HeapRegionState {
        alloc_physical: Vec::new(),
        free_virtual: vec![region(0x4000_0000, 0x100)],
        unused_allocated: Vec::new(),
    };
    let free_before = phys.free_page_count();
    let v = allocate_pages(&mut heap, &mut phys, 3, P).unwrap();
    assert_eq!(v, 0x4000_0000 + 0xfd * P);
    assert_eq!(phys.free_page_count(), free_before - 3);
    let mut unmapped = Vec::new();
    deallocate_pages(&mut heap, &mut phys, v, 3, &mut unmapped);
    assert_eq!(unmapped.len(), 1);
    assert_eq!(unmapped[0].vaddr, v);
    assert_eq!(unmapped[0].pages, 3);
    assert!(heap.alloc_physical.is_empty());
    assert_eq!(phys.free_page_count(), free_before);
    assert_eq!(heap.free_virtual.iter().map(|r| (r.start, r.length)).collect::<Vec<_>>(), vec![(0x4000_0000, 0x100)]);
    assert_eq!(allocate_pages(&mut heap, &mut phys, 0, P), Err(()));
}

#[test]
fn pools_are_kept_sorted() {
    let mut pools: Vec<(usize, Pool)> = Vec::new();
    assert_eq!(pool_get(&pools, 16), None);
    assert_eq!(pool_get_or_create(&mut pools, 32), 0);
    assert_eq!(pool_get_or_create(&mut pools, 16), 0);
    assert_eq!(pool_get_or_create(&mut pools, 64), 2);
    assert_eq!(pool_get_or_create(&mut pools, 32), 1);
    assert_eq!(pools.iter().map(|p| p.0).collect::<Vec<_>>(), vec![16, 32, 64]);
    assert_eq!(pool_get(&pools, 64), Some(2));
    assert_eq!(pools[2].1.region_pages(), 1);
}

#[test]
fn pool_config_math() {
    let c = PoolConfig { object_size: 8, region_pages: 1 };
    assert_eq!(c.ideal_object_capacity(), (4096 - 24) / 8);
    assert_eq!(c.region_info_size(), 88);
    assert_eq!(c.region_info_offset(), 4096 - 88);
    assert_eq!(c.object_capacity(), (4096 - 88) / 8);
}

#[test]
fn pool_allocates_from_inserted_region() {
    let mut pool = Pool::new(1024, 1);
    assert_eq!(pool.allocate(), Err(Error::NoFreeSpace));
    pool.insert_region(0x50000).unwrap();
    assert_eq!(pool.objects_capacity(), 3);
    assert_eq!(pool.allocate(), Ok(0x50000));
    assert_eq!(pool.allocate(), Ok(0x50400));
    assert_eq!(pool.allocate(), Ok(0x50800));
    assert_eq!(pool.objects_used(), 3);
    assert_eq!(pool.object_size(), 1024);
    assert_eq!(pool.allocate(), Err(Error::NoFreeSpace));
}

#[test]
fn bitmap_never_hands_out_bits_past_the_end() {
    let mut b = FreeBitmap::new(3, vec![0]);
    b.clear();
    assert!(b.is_empty());
    assert_eq!(b.acquire_bit(), Some(0));
    assert_eq!(b.acquire_bit(), Some(1));
    assert_eq!(b.acquire_bit(), Some(2));
    assert!(b.is_full());
    assert_eq!(b.acquire_bit(), None);
}

#[test]
fn bitmap_acquire_release() {
    assert_eq!(byte_size(0), 0);
    assert_eq!(byte_size(8), 1);
    assert_eq!(byte_size(9), 2);
    let mut b = FreeBitmap::new(12, vec![0xaa, 0xaa]);
    b.clear();
    assert!(b.is_empty());
    assert!(!b.is_full());
    assert_eq!(b.acquire_bit(), Some(0));
    assert_eq!(b.acquire_bit(), Some(1));
    assert_eq!(b.count_full(), 2);
    assert!(b.release_bit(0));
    assert!(!b.release_bit(0));
    assert_eq!(b.acquire_bit(), Some(0));
    assert!(b.release_bit(1));
    assert!(b.release_bit(0));
    assert!(b.is_empty());
}

#[test]
fn bitmap_full() {
    let mut b = FreeBitmap::new(8, vec![0]);
    for i in 0..8 {
        assert_eq!(b.acquire_bit(), Some(i));
    }
    assert!(b.is_full());
    assert_eq!(b.acquire_bit(), None);
    assert_eq!(b.count_full(), 8);
}

#[test]
fn heap_state_bootstraps_and_allocates_pages() {
    let mut phys = RegionState::initialize(&[0x100000..0x200000]);
    let free_before = phys.free_page_count();
    let mut heap = HeapState::initialize(&mut phys);
    // The bootstrap pages are acquired at once.
    assert_eq!(phys.free_page_count(), free_before - 24);
    // 5000 bytes take two pages, from the unused mapped bootstrap pages.
    let v = heap.allocate(&mut phys, 5000, 1);
    let bootstrap = LARGE_HEAP_START as usize + (LARGE_HEAP_LENGTH - 24) * P;
    assert!(v >= bootstrap + 16 * P && v < bootstrap + 24 * P);
    assert_eq!(v % P, 0);
    // Six unused pages were left, too few: sixteen more were acquired at the
    // end of the free space. Seventeen pages fit in neither run: fresh
    // virtual space and physical pages are taken, again at the end.
    let free_mid = phys.free_page_count();
    let w = heap.allocate(&mut phys, 17 * P, 4096);
    assert_eq!(w, LARGE_HEAP_START as usize + (LARGE_HEAP_LENGTH - 24 - 16 - 17) * P);
    assert_eq!(phys.free_page_count(), free_mid - 17);
    let mut unmapped = Vec::new();
    heap.deallocate(&mut phys, w, 17 * P, 4096, &mut unmapped);
    assert_eq!(unmapped.len(), 1);
    assert_eq!(unmapped[0].vaddr, w);
    assert_eq!(unmapped[0].pages, 17);
    assert_eq!(phys.free_page_count(), free_mid);
    // An object of a size no pool has is left alone.
    let mut none = Vec::new();
    heap.deallocate(&mut phys, 0x1234, 200, 8, &mut none);
    assert!(none.is_empty());
}

#[test]
fn heap_state_places_kernel_stacks_with_guard_pages() {
    let mut phys = RegionState::initialize(&[0x100000..0x200000]);
    let mut heap = HeapState::initialize(&mut phys);
    let free_before = phys.free_page_count();
    let first = heap.allocate_kernel_stack(&mut phys);
    assert_eq!(first, STACKS_START as usize + 9 * P + 32768);
    let second = heap.allocate_kernel_stack(&mut phys);
    assert_eq!(second, first + 9 * P);
    assert_eq!(phys.free_page_count(), free_before - 16);
}

#[test]
fn releasing_an_allocation_restores_the_free_list() {
    let mut list = vec![region(0x10000, 4)];
    let a = allocate_pages_from(&mut list, 1, 0x2000).unwrap();
    assert_eq!(a, 0x12000);
    release_to_free_region_list(&mut list, a, 1);
    let mut pages: Vec<usize> = list
        .iter()
        .flat_map(|r| (0..r.length).map(move |k| r.start + k * P))
        .collect();
    pages.sort();
    assert_eq!(pages, vec![0x10000, 0x11000, 0x12000, 0x13000]);
}

#[test]
fn pool_remove_region() {
    let mut pool = Pool::new(1024, 1);
    pool.insert_region(0x50000).unwrap();
    pool.insert_region(0x60000).unwrap();
    assert_eq!(pool.objects_capacity(), 6);
    // The newest region is on top: the object comes from it.
    assert_eq!(pool.allocate(), Ok(0x60000));
    assert_eq!(pool.remove_region(0x60000), Err(Error::RegionNotEmpty(0x60000)));
    assert_eq!(pool.objects_capacity(), 6);
    assert_eq!(pool.remove_region(0x70000), Err(Error::RegionInUse(0x70000)));
    assert_eq!(pool.remove_region(0x50000), Ok(()));
    assert_eq!(pool.objects_capacity(), 3);
    assert_eq!(pool.remove_region(0x50000), Err(Error::RegionInUse(0x50000)));
    assert_eq!(pool.allocate(), Ok(0x60400));
}

#[test]
fn phys_initialize_adjacent_ranges() {
    let phys = kit_kernel::memory::phys::RegionState::initialize(&[0x100000..0x101000, 0x101000..0x102000]);
    assert_eq!(phys.free_page_count(), 2);
    assert_eq!(phys.total_page_count(), 2);
    assert_eq!(phys.free_regions().len(), 2);
}

#[test]
fn heap_usable_with_an_empty_range_inside_a_later_one() {
    let mut map = InitMemoryMap::default();
    map.usable.push((0x150000, 0x150000));
    map.usable.push((0x100000, 0x200000));
    let set = map.heap_usable();
    let ranges: Vec<(usize, usize)> = set.iter().into_iter().map(|r| (r.start, r.end)).collect();
    assert_eq!(ranges, vec![(0x100000, 0x200000)]);
}

#[test]
fn heap_usable_empty_range_inside_an_earlier_one_cuts_it() {
    let mut map = InitMemoryMap::default();
    map.usable.push((0x100000, 0x200000));
    map.usable.push((0x150000, 0x150000));
    let set = map.heap_usable();
    let ranges: Vec<(usize, usize)> = set.iter().into_iter().map(|r| (r.start, r.end)).collect();
    assert_eq!(ranges, vec![(0x100000, 0x150000)]);
}
