//! The kernel's large heap: free virtual space, physical pages acquired for
//! it, and pages kept mapped for later use.

use vstd::prelude::*;

use crate::memory::phys::{
    acquire_map_post, covered, kernel_acquire_and_map, list_ok, pages_range, region_end, region_has,
    region_ok, total_pages, AcquiredMappedRegion, FreeRegion, PageCount, RegionState, VirtualAddress,
};
use crate::memory::phys::{
    acquired_pages, lemma_release_keeps_other_holds, release_to_free_region_list, released_into, RegionUser,
};
use crate::memory::pool::{config_ok, spec_info_offset, Pool, PoolConfig};
use crate::memory::region_math::{cut, overlaps, spec_cut, spec_max, spec_min, spec_overlaps, Cut};
use std::ops::Range;
use crate::memory::KSTACK_SIZE;
use crate::paging::PAGE_SIZE;
use crate::util::{align_down, align_up, align_up_fits, spec_align_down, spec_align_up};

verus! {

pub const LARGE_HEAP_START: u64 = 0xffff_ffff_9000_0000;

/// In pages.
pub const LARGE_HEAP_LENGTH: usize = 0x20000;

pub const STACKS_START: u64 = 0xffff_ffff_f000_0000;

pub const BOOTSTRAP_HEAP_PAGES: usize = 24;

pub const BOOTSTRAP_HEAP_POOLS: usize = 16;

/// Acquire more mapped pages when fewer than this many are unused.
pub const MIN_UNUSED_ALLOCATED: usize = 16;

/// Release mapped pages when more than this many are unused.
pub const MAX_UNUSED_ALLOCATED: usize = 64;

pub const UNUSED_ALLOCATED_ACQUIRE_SIZE: usize = 16;

/// Keep a run of at least this many unused mapped pages, for the allocator
/// and page-table structures needed to map more.
pub const REQUIRED_MIN_REGION_LENGTH: usize = 2;

pub const MIN_ALIGN: usize = 8;

/// The number of pages a pool region for objects of `object_size` bytes
/// spans.
pub fn preferred_region_size(object_size: usize) -> (r: PageCount)
    requires
        object_size > 0,
    ensures
        r == (if object_size >= PAGE_SIZE / 8 { 4usize } else { 1usize }),
{
    if object_size >= PAGE_SIZE / 8 {
        4
    } else {
        1
    }
}

/// Where an allocation of `pages` pages aligned to `align` goes in the free
/// region `r`: as near its end as alignment allows.
pub open spec fn spec_alloc_start(r: FreeRegion, pages: usize, align: usize) -> int {
    spec_align_down(region_end(r.start as int, r.length as int) - pages * PAGE_SIZE, align as int)
}

/// The allocation fits in `r`.
pub open spec fn fits(r: FreeRegion, pages: usize, align: usize) -> bool {
    r.start <= spec_alloc_start(r, pages, align)
}

/// The free list after allocating in region `i`: the region keeps what is
/// before the allocation; the whole pages between the allocation's end and
/// the region's end become a new region in front; empty regions are
/// dropped.
pub open spec fn spec_allocated(s: Seq<FreeRegion>, i: int, pages: usize, align: usize) -> Seq<FreeRegion> {
    let r = s[i];
    let start = spec_alloc_start(r, pages, align);
    let end = region_end(r.start as int, r.length as int);
    let new_length = ((start - r.start) / PAGE_SIZE as int) as usize;
    let after = FreeRegion {
        start: (start + pages * PAGE_SIZE) as usize,
        length: ((end - (start + pages * PAGE_SIZE)) / PAGE_SIZE as int) as usize,
    };
    let kept = if new_length == 0 {
        s.remove(i)
    } else {
        s.update(i, FreeRegion { start: r.start, length: new_length })
    };
    if after.length > 0 {
        seq![after] + kept
    } else {
        kept
    }
}

/// Every region ends at least `pages` pages from address zero.
pub open spec fn ends_above(s: Seq<FreeRegion>, pages: usize) -> bool {
    forall|i: int| 0 <= i < s.len() ==> pages * PAGE_SIZE <= region_end((#[trigger] s[i]).start as int, s[i].length as int)
}

/// Every region starts on a page boundary.
pub open spec fn page_aligned(s: Seq<FreeRegion>) -> bool {
    forall|i: int| 0 <= i < s.len() ==> (#[trigger] s[i]).start % PAGE_SIZE == 0
}

/// An alignment that either divides the page size or is a whole number of
/// pages, as every power of two is.
pub open spec fn page_compatible(align: usize) -> bool {
    PAGE_SIZE % align == 0 || align % PAGE_SIZE == 0
}

/// In a page-aligned region, an allocation with a page-compatible alignment
/// starts on a page boundary.
proof fn lemma_alloc_start_page_aligned(r: FreeRegion, pages: usize, align: usize)
    requires
        (r.start as int) % (PAGE_SIZE as int) == 0,
        pages * PAGE_SIZE <= region_end(r.start as int, r.length as int),
        align > 0,
        page_compatible(align),
    ensures
        spec_alloc_start(r, pages, align) % (PAGE_SIZE as int) == 0,
{
    let end = region_end(r.start as int, r.length as int);
    let x = end - pages * PAGE_SIZE;
    assert(x % (PAGE_SIZE as int) == 0) by (nonlinear_arith)
        requires
            x == r.start + r.length * PAGE_SIZE - pages * PAGE_SIZE,
            (r.start as int) % (PAGE_SIZE as int) == 0,
    ;
    crate::util::lemma_align_down_bounds(x, align as int);
    let a = spec_alloc_start(r, pages, align);
    if PAGE_SIZE % align == 0 {
        let q = x / PAGE_SIZE as int;
        let m = PAGE_SIZE as int / align as int;
        vstd::arithmetic::div_mod::lemma_fundamental_div_mod(x, PAGE_SIZE as int);
        vstd::arithmetic::div_mod::lemma_fundamental_div_mod(PAGE_SIZE as int, align as int);
        assert(x == (q * m) * align) by (nonlinear_arith)
            requires
                x == PAGE_SIZE * q,
                PAGE_SIZE == align * m,
        ;
        vstd::arithmetic::div_mod::lemma_mod_multiples_basic(q * m, align as int);
        assert(a == x);
    } else {
        let q = a / align as int;
        let m = align as int / PAGE_SIZE as int;
        vstd::arithmetic::div_mod::lemma_fundamental_div_mod(a, align as int);
        vstd::arithmetic::div_mod::lemma_fundamental_div_mod(align as int, PAGE_SIZE as int);
        assert(a == (q * m) * PAGE_SIZE) by (nonlinear_arith)
            requires
                a == align * q,
                align == PAGE_SIZE * m,
        ;
        vstd::arithmetic::div_mod::lemma_mod_multiples_basic(q * m, PAGE_SIZE as int);
    }
}

/// With page-aligned regions and an allocation starting on a page boundary,
/// an allocation takes exactly its pages out of a free region.
proof fn lemma_allocated_exact(s: Seq<FreeRegion>, i: int, pages: usize, align: usize)
    requires
        list_ok(s),
        page_aligned(s),
        0 <= i < s.len(),
        fits(s[i], pages, align),
        ends_above(s, pages),
        align > 0,
        spec_alloc_start(s[i], pages, align) % (PAGE_SIZE as int) == 0,
    ensures
        list_ok(spec_allocated(s, i, pages, align)),
        page_aligned(spec_allocated(s, i, pages, align)),
        covered(spec_allocated(s, i, pages, align)) == covered(s).difference(
            pages_range(spec_alloc_start(s[i], pages, align), pages as int),
        ),
        pages_range(spec_alloc_start(s[i], pages, align), pages as int).subset_of(covered(s)),
{
    let r = s[i];
    let end = region_end(r.start as int, r.length as int);
    assert(region_ok(r));
    assert(pages * PAGE_SIZE <= end);
    let start = spec_alloc_start(r, pages, align);
    crate::util::lemma_align_down_bounds(end - pages * PAGE_SIZE, align as int);
    assert(start <= end - pages * PAGE_SIZE);
    let new_length = (start - r.start) / PAGE_SIZE as int;
    assert((start - r.start) % (PAGE_SIZE as int) == 0) by (nonlinear_arith)
        requires
            start % (PAGE_SIZE as int) == 0,
            (r.start as int) % (PAGE_SIZE as int) == 0,
            start >= r.start,
    ;
    assert(new_length * PAGE_SIZE == start - r.start) by (nonlinear_arith)
        requires
            new_length == (start - r.start) / PAGE_SIZE as int,
            (start - r.start) % (PAGE_SIZE as int) == 0,
    ;
    let aend = start + pages * PAGE_SIZE;
    let after_length = (end - aend) / PAGE_SIZE as int;
    assert((end - aend) % (PAGE_SIZE as int) == 0) by (nonlinear_arith)
        requires
            start % (PAGE_SIZE as int) == 0,
            (r.start as int) % (PAGE_SIZE as int) == 0,
            end == r.start + r.length * PAGE_SIZE,
            aend == start + pages * PAGE_SIZE,
    ;
    assert(after_length * PAGE_SIZE == end - aend) by (nonlinear_arith)
        requires
            after_length == (end - aend) / PAGE_SIZE as int,
            (end - aend) % (PAGE_SIZE as int) == 0,
    ;
    assert(after_length >= 0) by (nonlinear_arith)
        requires
            after_length * PAGE_SIZE == end - aend,
            end >= aend,
    ;
    let tail = Set::new(|y: int| start <= y < end);
    let range = pages_range(start, pages as int);
    crate::memory::phys::lemma_covered_remove(s, i);
    crate::memory::phys::lemma_list_ok_remove(s, i);
    assert forall|y: int| tail.contains(y) implies covered(s).contains(y) by {
        assert(region_has(s[i], y));
    }
    let kept = if new_length == 0 {
        s.remove(i)
    } else {
        s.update(i, FreeRegion { start: r.start, length: new_length as usize })
    };
    if new_length == 0 {
        assert(tail =~= crate::memory::phys::region_pages(r));
        assert forall|k: int| 0 <= k < s.remove(i).len() implies (#[trigger] s.remove(i)[k]).start % PAGE_SIZE == 0 by {
            let k2 = if k < i { k } else { k + 1 };
            assert(s.remove(i)[k] == s[k2]);
        }
        assert(covered(kept) =~= covered(s).difference(tail));
    } else {
        let rest = FreeRegion { start: r.start, length: new_length as usize };
        let t = s.update(i, rest);
        assert(crate::memory::phys::region_pages(r) =~= crate::memory::phys::region_pages(rest).union(tail));
        crate::memory::phys::lemma_list_ok_push_front(rest, s.remove(i));
        crate::memory::phys::lemma_covered_push_front(rest, s.remove(i));
        assert forall|y: int| covered(t).contains(y) == covered(seq![rest] + s.remove(i)).contains(y) by {
            let u = seq![rest] + s.remove(i);
            if covered(t).contains(y) {
                let k = choose|k: int| 0 <= k < t.len() && #[trigger] region_has(t[k], y);
                let k2 = if k == i { 0 } else if k < i { k + 1 } else { k };
                assert(u[k2] == t[k]);
                assert(region_has(u[k2], y));
            }
            if covered(u).contains(y) {
                let k = choose|k: int| 0 <= k < u.len() && #[trigger] region_has(u[k], y);
                let k2 = if k == 0 { i } else if k - 1 < i { k - 1 } else { k };
                assert(u[k] == t[k2]);
                assert(region_has(t[k2], y));
            }
        }
        assert(covered(t) =~= covered(s).difference(tail));
        assert forall|a: int, b: int, y: int|
            0 <= a < t.len() && 0 <= b < t.len() && a != b && #[trigger] region_has(t[a], y) implies !#[trigger] region_has(t[b], y) by {
            let u = seq![rest] + s.remove(i);
            let a2 = if a == i { 0 } else if a < i { a + 1 } else { a };
            let b2 = if b == i { 0 } else if b < i { b + 1 } else { b };
            assert(u[a2] == t[a]);
            assert(u[b2] == t[b]);
        }
        assert forall|a: int| 0 <= a < t.len() implies region_ok(#[trigger] t[a]) by {
            let u = seq![rest] + s.remove(i);
            let a2 = if a == i { 0 } else if a < i { a + 1 } else { a };
            assert(u[a2] == t[a]);
        }
        assert(list_ok(t));
    }
    assert(list_ok(kept));
    assert(page_aligned(kept));
    assert(covered(kept) == covered(s).difference(tail));
    assert forall|y: int| range.contains(y) implies covered(s).contains(y) by {
        assert(tail.contains(y));
    }
    if after_length > 0 {
        let after = FreeRegion { start: aend as usize, length: after_length as usize };
        assert(crate::memory::phys::region_pages(after) =~= Set::new(|y: int| aend <= y < end));
        crate::memory::phys::lemma_list_ok_push_front(after, kept);
        crate::memory::phys::lemma_covered_push_front(after, kept);
        assert(aend % (PAGE_SIZE as int) == 0) by (nonlinear_arith)
            requires
                start % (PAGE_SIZE as int) == 0,
                aend == start + pages * PAGE_SIZE,
        ;
        let f = seq![after] + kept;
        assert forall|k: int| 0 <= k < f.len() implies (#[trigger] f[k]).start % PAGE_SIZE == 0 by {
            if k > 0 {
                assert(f[k] == kept[k - 1]);
            }
        }
        assert(covered(f) =~= covered(s).difference(range));
    } else {
        assert(aend == end);
        assert(tail =~= range);
    }
}

/// What `allocate_pages_from(pages, align)` does to the free list `before`
/// and returns.
pub open spec fn alloc_from_post(before: Seq<FreeRegion>, pages: usize, align: usize, after: Seq<FreeRegion>, r: Option<usize>) -> bool {
    &&& match r {
        None => after == before && forall|i: int| 0 <= i < before.len() ==> !fits(#[trigger] before[i], pages, align),
        Some(start) => exists|i: int|
            0 <= i < before.len() && fits(#[trigger] before[i], pages, align) && (forall|j: int|
                0 <= j < i ==> !fits(#[trigger] before[j], pages, align)) && start == spec_alloc_start(before[i], pages, align)
                && after == spec_allocated(before, i, pages, align),
    }
    &&& match r {
        Some(start) => page_aligned(before) && page_compatible(align) ==> {
            &&& list_ok(after)
            &&& page_aligned(after)
            &&& pages_range(start as int, pages as int).subset_of(covered(before))
            &&& covered(after) == covered(before).difference(pages_range(start as int, pages as int))
        },
        None => true,
    }
    &&& match r {
        Some(start) => start + pages * PAGE_SIZE <= usize::MAX,
        None => true,
    }
}

/// Allocate `pages` pages aligned to `align` from the first free region
/// they fit in, taking them as near its end as possible. `None` when they
/// fit nowhere.
///
/// The whole pages that alignment leaves between the allocation's end and
/// the region's end go back on the list as a region that starts where the
/// allocation ends, so that they stay free and no page is counted twice.
pub fn allocate_pages_from(vaddr_free: &mut Vec<FreeRegion>, pages: usize, align: usize) -> (r: Option<VirtualAddress>)
    requires
        list_ok(old(vaddr_free)@),
        ends_above(old(vaddr_free)@, pages),
        align > 0,
    ensures
        alloc_from_post(old(vaddr_free)@, pages, align, final(vaddr_free)@, r),
{
    let ghost s = vaddr_free@;
    let mut i: usize = 0;
    while i < vaddr_free.len()
        invariant
            vaddr_free@ == s,
            s == old(vaddr_free)@,
            i <= s.len(),
            list_ok(s),
            ends_above(s, pages),
            align > 0,
            forall|j: int| 0 <= j < i ==> !fits(#[trigger] s[j], pages, align),
        decreases s.len() - i,
    {
        let r = vaddr_free[i];
        proof {
            assert(region_ok(s[i as int]));
            assert(pages * PAGE_SIZE <= region_end(r.start as int, r.length as int));
        }
        let r_end = r.start + r.length * PAGE_SIZE;
        let alloc_start = align_down(r_end - pages * PAGE_SIZE, align);
        let alloc_end = alloc_start + pages * PAGE_SIZE;
        if r.start > alloc_start || r_end < alloc_end {
            proof {
                assert(!fits(s[i as int], pages, align));
            }
            i = i + 1;
        } else {
            let new_length = (alloc_start - r.start) / PAGE_SIZE;
            let after_length = (r_end - alloc_end) / PAGE_SIZE;
            if new_length == 0 {
                vaddr_free.remove(i);
            } else {
                vaddr_free.set(i, FreeRegion { start: r.start, length: new_length });
            }
            if after_length > 0 {
                vaddr_free.insert(0, FreeRegion { start: alloc_end, length: after_length });
            }
            proof {
                assert(fits(s[i as int], pages, align));
                assert(vaddr_free@ =~= spec_allocated(s, i as int, pages, align));
                if page_aligned(s) && page_compatible(align) {
                    lemma_alloc_start_page_aligned(s[i as int], pages, align);
                    lemma_allocated_exact(s, i as int, pages, align);
                }
            }
            return Some(alloc_start);
        }
    }
    None
}

/// Giving an allocation back to the free list it came from restores the
/// free addresses the list had before the allocation.
pub proof fn law_release_undoes_allocate(
    before: Seq<FreeRegion>,
    pages: usize,
    align: usize,
    mid: Seq<FreeRegion>,
    start: usize,
    after: Seq<FreeRegion>,
)
    requires
        page_aligned(before),
        page_compatible(align),
        alloc_from_post(before, pages, align, mid, Some(start)),
        released_into(mid, start, pages, after),
    ensures
        covered(after) == covered(before),
        pages_range(start as int, pages as int).disjoint(covered(mid)),
{
    let range = pages_range(start as int, pages as int);
    assert(covered(mid) == covered(before).difference(range));
    assert(range.subset_of(covered(before)));
    assert(covered(after) =~= covered(before));
}

/// Allocating from a free list adds at most the pages of the region used.
proof fn lemma_allocated_total(s: Seq<FreeRegion>, i: int, pages: usize, align: usize)
    requires
        0 <= i < s.len(),
        fits(s[i], pages, align),
        ends_above(s, pages),
        align > 0,
    ensures
        total_pages(spec_allocated(s, i, pages, align)) <= total_pages(s) + s[i].length,
{
    let r = s[i];
    let start = spec_alloc_start(r, pages, align);
    let end = region_end(r.start as int, r.length as int);
    assert(pages * PAGE_SIZE <= end);
    assert(start <= end - pages * PAGE_SIZE);
    let new_length = (start - r.start) / PAGE_SIZE as int;
    let after_length = (end - (start + pages * PAGE_SIZE)) / PAGE_SIZE as int;
    assert(new_length <= r.length) by (nonlinear_arith)
        requires
            new_length == (start - r.start) / PAGE_SIZE as int,
            0 <= start - r.start <= r.length * PAGE_SIZE,
    ;
    assert(0 <= after_length <= r.length) by (nonlinear_arith)
        requires
            after_length == (end - (start + pages * PAGE_SIZE)) / PAGE_SIZE as int,
            0 <= end - (start + pages * PAGE_SIZE) <= r.length * PAGE_SIZE,
    ;
    crate::memory::phys::lemma_total_pages_remove(s, i);
    let kept = if new_length == 0 {
        s.remove(i)
    } else {
        s.update(i, FreeRegion { start: r.start, length: new_length as usize })
    };
    if new_length != 0 {
        crate::memory::phys::lemma_total_pages_update(s, i, FreeRegion { start: r.start, length: new_length as usize });
    }
    if after_length > 0 {
        crate::memory::phys::lemma_total_pages_push_front(FreeRegion { start: (start + pages * PAGE_SIZE) as usize, length: after_length as usize }, kept);
    }
}

/// The large heap's memory: physical regions acquired and mapped for it,
/// its free virtual space, and pages already mapped but not yet in use.
#[derive(Debug)]
pub struct HeapRegionState {
    pub alloc_physical: Vec<AcquiredMappedRegion>,
    pub free_virtual: Vec<FreeRegion>,
    pub unused_allocated: Vec<FreeRegion>,
}

/// Physical memory bookkeeping is unchanged.
pub open spec fn phys_same(a: RegionState, b: RegionState) -> bool {
    &&& a.wf() == b.wf()
    &&& a.free_list() == b.free_list()
    &&& a.alloc_list() == b.alloc_list()
    &&& a.free_count() == b.free_count()
    &&& a.total() == b.total()
}

/// What `acquire_allocate_pages(pages, align)` does: free virtual space
/// for the pages, then fresh physical pages acquired for it, recorded as
/// allocated to the heap. The virtual space stays taken when the physical
/// pages run out.
pub open spec fn acquire_allocate_post(
    before: HeapRegionState,
    phys_before: RegionState,
    pages: usize,
    align: usize,
    after: HeapRegionState,
    phys_after: RegionState,
    r: Result<usize, ()>,
) -> bool {
    &&& after.unused_allocated@ == before.unused_allocated@
    &&& exists|start: Option<usize>| {
        &&& #[trigger] alloc_from_post(before.free_virtual@, pages, align, after.free_virtual@, start)
        &&& match start {
            None => r is Err && phys_same(phys_after, phys_before) && after.alloc_physical@ == before.alloc_physical@,
            Some(s) => exists|res: Result<(), PageCount>| {
                &&& #[trigger] acquire_map_post(phys_before, s, pages, before.alloc_physical@, phys_after, after.alloc_physical@, res)
                &&& (res is Ok ==> r == Ok::<usize, ()>(s))
                &&& (res is Err ==> r is Err)
            },
        }
    }
}

/// Take free virtual space for `pages` pages and acquire physical pages for
/// it.
pub fn acquire_allocate_pages(
    regions: &mut HeapRegionState,
    phys: &mut RegionState,
    pages: usize,
    align: usize,
) -> (r: Result<VirtualAddress, ()>)
    requires
        list_ok(old(regions).free_virtual@),
        ends_above(old(regions).free_virtual@, pages),
        align > 0,
        old(phys).wf(),
    ensures
        final(phys).wf(),
        acquire_allocate_post(*old(regions), *old(phys), pages, align, *final(regions), *final(phys), r),
{
    let got = allocate_pages_from(&mut regions.free_virtual, pages, align);
    match got {
        None => {
            proof {
                assert(alloc_from_post(old(regions).free_virtual@, pages, align, regions.free_virtual@, got));
            }
            Err(())
        },
        Some(alloc_start) => {
            let res = kernel_acquire_and_map(phys, alloc_start, pages, &mut regions.alloc_physical);
            proof {
                assert(alloc_from_post(old(regions).free_virtual@, pages, align, regions.free_virtual@, got));
                assert(acquire_map_post(*old(phys), alloc_start, pages, old(regions).alloc_physical@, *phys, regions.alloc_physical@, res));
            }
            match res {
                Ok(()) => Ok(alloc_start),
                Err(_) => Err(()),
            }
        },
    }
}

/// The largest region length in a list.
pub open spec fn max_length(s: Seq<FreeRegion>) -> nat
    decreases s.len(),
{
    if s.len() == 0 {
        0
    } else {
        let m = max_length(s.drop_first());
        if s[0].length > m {
            s[0].length as nat
        } else {
            m
        }
    }
}

/// The unused mapped pages need topping up: too few of them, or no run long
/// enough.
pub open spec fn needs_restock(unused: Seq<FreeRegion>) -> bool {
    total_pages(unused) < MIN_UNUSED_ALLOCATED || max_length(unused) < REQUIRED_MIN_REGION_LENGTH
}

/// What `restock_unused_allocated()` does.
pub open spec fn restock_post(
    before: HeapRegionState,
    phys_before: RegionState,
    after: HeapRegionState,
    phys_after: RegionState,
    restocked: bool,
) -> bool {
    &&& !needs_restock(before.unused_allocated@) ==> after == before && phys_same(phys_after, phys_before) && !restocked
    &&& needs_restock(before.unused_allocated@) ==> exists|r: Result<usize, ()>, mid: HeapRegionState| {
        &&& #[trigger] acquire_allocate_post(before, phys_before, UNUSED_ALLOCATED_ACQUIRE_SIZE, PAGE_SIZE, mid, phys_after, r)
        &&& after.alloc_physical@ == mid.alloc_physical@
        &&& after.free_virtual@ == mid.free_virtual@
        &&& match r {
            Ok(start) => restocked && after.unused_allocated@ == seq![
                FreeRegion { start, length: UNUSED_ALLOCATED_ACQUIRE_SIZE },
            ] + before.unused_allocated@,
            Err(()) => !restocked && after.unused_allocated@ == before.unused_allocated@,
        }
    }
}

/// Top up the unused mapped pages when they run low, by acquiring and
/// allocating a fresh run of pages for them.
pub fn restock_unused_allocated(regions: &mut HeapRegionState, phys: &mut RegionState) -> (restocked: bool)
    requires
        list_ok(old(regions).free_virtual@),
        ends_above(old(regions).free_virtual@, UNUSED_ALLOCATED_ACQUIRE_SIZE),
        old(phys).wf(),
        total_pages(old(regions).unused_allocated@) <= usize::MAX,
    ensures
        final(phys).wf(),
        restock_post(*old(regions), *old(phys), *final(regions), *final(phys), restocked),
{
    let mut total: usize = 0;
    let mut max: usize = 0;
    let n = regions.unused_allocated.len();
    let mut k: usize = n;
    let ghost u = regions.unused_allocated@;
    while k > 0
        invariant
            u == regions.unused_allocated@,
            n == u.len(),
            k <= n,
            total_pages(u) <= usize::MAX,
            total == total_pages(u.skip(k as int)),
            max == max_length(u.skip(k as int)),
        decreases k,
    {
        k = k - 1;
        let length = regions.unused_allocated[k].length;
        proof {
            assert(u.skip(k as int).drop_first() =~= u.skip(k + 1));
            lemma_total_pages_suffix(u, k as int);
        }
        total = total + length;
        if length > max {
            max = length;
        }
    }
    proof {
        assert(u.skip(0) =~= u);
    }
    if total < MIN_UNUSED_ALLOCATED || max < REQUIRED_MIN_REGION_LENGTH {
        let ghost before = *regions;
        let allocated = acquire_allocate_pages(regions, phys, UNUSED_ALLOCATED_ACQUIRE_SIZE, PAGE_SIZE);
        let ghost mid = *regions;
        match allocated {
            Ok(start) => {
                regions.unused_allocated.insert(0, FreeRegion { start, length: UNUSED_ALLOCATED_ACQUIRE_SIZE });
                proof {
                    assert(regions.unused_allocated@ =~= seq![FreeRegion { start, length: UNUSED_ALLOCATED_ACQUIRE_SIZE }] + u);
                    assert(acquire_allocate_post(*old(regions), *old(phys), UNUSED_ALLOCATED_ACQUIRE_SIZE, PAGE_SIZE, mid, *phys, allocated));
                    assert(restock_post(*old(regions), *old(phys), *regions, *phys, true));
                }
                true
            },
            Err(()) => {
                proof {
                    assert(acquire_allocate_post(*old(regions), *old(phys), UNUSED_ALLOCATED_ACQUIRE_SIZE, PAGE_SIZE, mid, *phys, allocated));
                    assert(restock_post(*old(regions), *old(phys), *regions, *phys, false));
                }
                false
            },
        }
    } else {
        false
    }
}

/// What `allocate_pages(pages, align)` does to the heap's regions and the
/// physical memory, and returns.
pub open spec fn allocate_pages_post(
    before: HeapRegionState,
    phys_before: RegionState,
    pages: usize,
    align: usize,
    after: HeapRegionState,
    phys_after: RegionState,
    r: Result<usize, ()>,
) -> bool {
    &&& pages == 0 ==> r is Err && after == before && phys_same(phys_after, phys_before)
    &&& pages > 0 ==> exists|got: Option<usize>, mid: HeapRegionState| {
        &&& #[trigger] alloc_from_post(before.unused_allocated@, pages, align, mid.unused_allocated@, got)
        &&& match got {
            Some(start) => {
                &&& r == Ok::<usize, ()>(start)
                &&& mid.alloc_physical@ == before.alloc_physical@
                &&& mid.free_virtual@ == before.free_virtual@
                &&& restock_post(mid, phys_before, after, phys_after, true)
                    || restock_post(mid, phys_before, after, phys_after, false)
            },
            None => acquire_allocate_post(before, phys_before, pages, align, after, phys_after, r),
        }
    }
}

/// Allocate `pages` pages aligned to `align`, preferring pages already
/// mapped: from the unused mapped pages (topping them up afterwards) when
/// they fit there, from fresh virtual space and physical pages otherwise.
pub fn allocate_pages(
    regions: &mut HeapRegionState,
    phys: &mut RegionState,
    pages: usize,
    align: usize,
) -> (r: Result<VirtualAddress, ()>)
    requires
        list_ok(old(regions).unused_allocated@),
        ends_above(old(regions).unused_allocated@, pages),
        2 * total_pages(old(regions).unused_allocated@) <= usize::MAX,
        list_ok(old(regions).free_virtual@),
        ends_above(old(regions).free_virtual@, pages),
        ends_above(old(regions).free_virtual@, UNUSED_ALLOCATED_ACQUIRE_SIZE),
        align > 0,
        old(phys).wf(),
    ensures
        final(phys).wf(),
        allocate_pages_post(*old(regions), *old(phys), pages, align, *final(regions), *final(phys), r),
{
    if pages == 0 {
        return Err(());
    }
    let ghost start_regions = *regions;
    let from_unused_allocated = allocate_pages_from(&mut regions.unused_allocated, pages, align);
    let ghost mid = *regions;
    match from_unused_allocated {
        Some(alloc_start) => {
            proof {
                let s0 = start_regions.unused_allocated@;
                let i = choose|i: int|
                    0 <= i < s0.len() && fits(#[trigger] s0[i], pages, align) && (forall|j: int|
                        0 <= j < i ==> !fits(#[trigger] s0[j], pages, align)) && alloc_start == spec_alloc_start(s0[i], pages, align)
                        && mid.unused_allocated@ == spec_allocated(s0, i, pages, align);
                lemma_allocated_total(s0, i, pages, align);
                crate::memory::phys::lemma_total_pages_remove(s0, i);
            }
            let restocked = restock_unused_allocated(regions, phys);
            proof {
                assert(alloc_from_post(old(regions).unused_allocated@, pages, align, mid.unused_allocated@, from_unused_allocated));
            }
            Ok(alloc_start)
        },
        None => {
            let r = acquire_allocate_pages(regions, phys, pages, align);
            proof {
                assert(alloc_from_post(old(regions).unused_allocated@, pages, align, mid.unused_allocated@, from_unused_allocated));
            }
            r
        },
    }
}

/// The virtual addresses an acquired region is mapped at.
pub open spec fn acq_range(a: AcquiredMappedRegion) -> Range<usize> {
    a.vaddr..(a.vaddr + a.pages * PAGE_SIZE) as usize
}

/// The part of `a` inside the virtual range, with its physical address.
pub open spec fn matching_part(a: AcquiredMappedRegion, range: Range<usize>) -> AcquiredMappedRegion {
    let start = spec_max(a.vaddr, range.start);
    let end = spec_min(acq_range(a).end, range.end);
    AcquiredMappedRegion {
        vaddr: start,
        paddr: (a.paddr + (start - a.vaddr)) as usize,
        pages: ((end - start) / PAGE_SIZE as int) as usize,
    }
}

/// The parts of `a` before and after the virtual range that stay acquired.
pub open spec fn kept_parts(a: AcquiredMappedRegion, range: Range<usize>) -> Seq<AcquiredMappedRegion> {
    let m = matching_part(a, range);
    let end = acq_range(a).end;
    let before: Seq<AcquiredMappedRegion> = if m.vaddr > a.vaddr {
        seq![AcquiredMappedRegion { vaddr: a.vaddr, paddr: a.paddr, pages: ((m.vaddr - a.vaddr) / PAGE_SIZE as int) as usize }]
    } else {
        Seq::empty()
    };
    let m_end = spec_min(end, range.end);
    let after: Seq<AcquiredMappedRegion> = if end > m_end {
        seq![AcquiredMappedRegion {
            vaddr: m_end,
            paddr: (a.paddr + (m_end - a.vaddr)) as usize,
            pages: ((end - m_end) / PAGE_SIZE as int) as usize,
        }]
    } else {
        Seq::empty()
    };
    before + after
}

/// The acquired region shares addresses with the virtual range.
pub open spec fn overlapping(a: AcquiredMappedRegion, range: Range<usize>) -> bool {
    spec_overlaps(acq_range(a), range)
}

/// The acquired regions of `s` that share addresses with the range, in
/// order.
pub open spec fn overlapping_in(s: Seq<AcquiredMappedRegion>, range: Range<usize>) -> Seq<AcquiredMappedRegion> {
    s.filter(|a: AcquiredMappedRegion| overlapping(a, range))
}

/// The acquired regions of `s` that do not.
pub open spec fn apart_from(s: Seq<AcquiredMappedRegion>, range: Range<usize>) -> Seq<AcquiredMappedRegion> {
    s.filter(|a: AcquiredMappedRegion| !overlapping(a, range))
}

/// Take the acquired regions that share addresses with `range` out of the
/// list, keeping the others in order.
fn drain_overlapping(list: &mut Vec<AcquiredMappedRegion>, range: &Range<usize>) -> (drained: Vec<AcquiredMappedRegion>)
    requires
        forall|i: int| 0 <= i < old(list)@.len() ==> (#[trigger] old(list)@[i]).vaddr + old(list)@[i].pages * PAGE_SIZE <= usize::MAX,
    ensures
        final(list)@ == apart_from(old(list)@, *range),
        drained@ == overlapping_in(old(list)@, *range),
{
    let mut kept: Vec<AcquiredMappedRegion> = Vec::new();
    let mut drained: Vec<AcquiredMappedRegion> = Vec::new();
    let mut i: usize = 0;
    let ghost s = list@;
    while i < list.len()
        invariant
            list@ == s,
            s == old(list)@,
            i <= s.len(),
            forall|k: int| 0 <= k < s.len() ==> (#[trigger] s[k]).vaddr + s[k].pages * PAGE_SIZE <= usize::MAX,
            kept@ == apart_from(s.take(i as int), *range),
            drained@ == overlapping_in(s.take(i as int), *range),
        decreases s.len() - i,
    {
        let a = list[i];
        let a_range = a.vaddr..(a.vaddr + a.pages * PAGE_SIZE);
        let ov = overlaps(&a_range, range);
        proof {
            assert(s.take(i + 1).drop_last() =~= s.take(i as int));
            assert(s.take(i + 1).last() == a);
            reveal_with_fuel(Seq::filter, 2);
            assert(ov == overlapping(a, *range));
        }
        if ov {
            drained.push(a);
        } else {
            kept.push(a);
        }
        i = i + 1;
    }
    proof {
        assert(s.take(s.len() as int) =~= s);
    }
    *list = kept;
    drained
}

/// The parts of the acquired regions `s` that stay acquired, in order.
pub open spec fn parts_of(s: Seq<AcquiredMappedRegion>, range: Range<usize>) -> Seq<AcquiredMappedRegion>
    decreases s.len(),
{
    if s.len() == 0 {
        Seq::empty()
    } else {
        parts_of(s.drop_last(), range) + kept_parts(s.last(), range)
    }
}

/// The parts of the acquired regions `s` inside the range.
pub open spec fn matching_of(s: Seq<AcquiredMappedRegion>, range: Range<usize>) -> Seq<AcquiredMappedRegion> {
    s.map_values(|a: AcquiredMappedRegion| matching_part(a, range))
}

/// Every acquired region's virtual and physical ends are addressable.
pub open spec fn acquired_ok(s: Seq<AcquiredMappedRegion>) -> bool {
    forall|i: int|
        0 <= i < s.len() ==> (#[trigger] s[i]).vaddr + s[i].pages * PAGE_SIZE <= usize::MAX && s[i].paddr + s[i].pages
            * PAGE_SIZE <= usize::MAX
}

/// The kernel holds each of the physical runs, and no two start at the same
/// address.
pub open spec fn kernel_holds_all(phys: RegionState, ms: Seq<AcquiredMappedRegion>) -> bool {
    &&& forall|k: int| 0 <= k < ms.len() ==> phys.holds(RegionUser::Kernel, (#[trigger] ms[k]).paddr, ms[k].pages)
    &&& forall|j: int, k: int| 0 <= j < k < ms.len() ==> (#[trigger] ms[j]).paddr != (#[trigger] ms[k]).paddr
}

/// Each state is the one before with the kernel's hold on the next run
/// released.
pub open spec fn release_chain(states: Seq<RegionState>, ms: Seq<AcquiredMappedRegion>) -> bool {
    &&& states.len() == ms.len() + 1
    &&& forall|k: int|
        0 <= k < ms.len() ==> (#[trigger] states[k]).release_post(RegionUser::Kernel, ms[k].paddr, states[k + 1])
            && states[k].wf()
}

proof fn lemma_acquired_pages_prefix(s: Seq<AcquiredMappedRegion>, k: int)
    requires
        0 <= k <= s.len(),
    ensures
        acquired_pages(s.take(k)) <= acquired_pages(s),
    decreases s.len() - k,
{
    if k < s.len() {
        lemma_acquired_pages_prefix(s, k + 1);
        assert(s.take(k + 1).drop_last() =~= s.take(k));
    } else {
        assert(s.take(k) =~= s);
    }
}

/// The pages at `vaddr` can be given back: every one of them was acquired
/// and mapped for the heap, and held by the kernel alone, and none is free
/// heap space.
pub open spec fn deallocate_pages_ready(regions: HeapRegionState, phys: RegionState, vaddr: VirtualAddress, pages: usize) -> bool {
    &&& phys.wf()
    &&& acquired_ok(regions.alloc_physical@)
    &&& pages > 0 ==> {
        let range = vaddr..(vaddr + pages * PAGE_SIZE) as usize;
        let ms = matching_of(overlapping_in(regions.alloc_physical@, range), range);
        &&& vaddr + pages * PAGE_SIZE <= usize::MAX
        &&& acquired_pages(ms) == pages
        &&& kernel_holds_all(phys, ms)
        &&& list_ok(regions.free_virtual@)
        &&& pages_range(vaddr as int, pages as int).disjoint(covered(regions.free_virtual@))
    }
}

/// What `deallocate_pages(vaddr, pages)` does: the physical pages mapped
/// there are released, the parts of acquired regions outside the pages stay
/// acquired, the runs to unmap are handed on, and the virtual space returns
/// to the free list.
pub open spec fn deallocate_pages_post(
    before: HeapRegionState,
    phys_before: RegionState,
    vaddr: VirtualAddress,
    pages: usize,
    unmapped_before: Seq<AcquiredMappedRegion>,
    after: HeapRegionState,
    phys_after: RegionState,
    unmapped_after: Seq<AcquiredMappedRegion>,
) -> bool {
    &&& phys_after.wf()
    &&& after.unused_allocated@ == before.unused_allocated@
    &&& pages == 0 ==> after == before && phys_same(phys_after, phys_before) && unmapped_after == unmapped_before
    &&& pages > 0 ==> {
        let range = vaddr..(vaddr + pages * PAGE_SIZE) as usize;
        let over = overlapping_in(before.alloc_physical@, range);
        let ms = matching_of(over, range);
        &&& after.alloc_physical@ == apart_from(before.alloc_physical@, range) + parts_of(over, range)
        &&& unmapped_after == unmapped_before + ms
        &&& exists|states: Seq<RegionState>|
            #[trigger] release_chain(states, ms) && states[0] == phys_before && states.last() == phys_after
        &&& released_into(before.free_virtual@, vaddr, pages, after.free_virtual@)
    }
}

/// Give back `pages` pages at `vaddr`: the acquired regions mapped there
/// are cut out (the parts outside stay acquired), their physical pages are
/// released, the runs to unmap are handed to `unmapped`, and the virtual
/// space returns to the free list.
#[verifier::rlimit(60)]
#[verifier::spinoff_prover]
pub fn deallocate_pages(
    regions: &mut HeapRegionState,
    phys: &mut RegionState,
    vaddr: VirtualAddress,
    pages: usize,
    unmapped: &mut Vec<AcquiredMappedRegion>,
)
    requires
        deallocate_pages_ready(*old(regions), *old(phys), vaddr, pages),
    ensures
        deallocate_pages_post(*old(regions), *old(phys), vaddr, pages, old(unmapped)@, *final(regions), *final(phys), final(unmapped)@),
{
    if pages == 0 {
        return;
    }
    let vaddr_end = vaddr + pages * PAGE_SIZE;
    let range = vaddr..vaddr_end;
    let ghost over = overlapping_in(old(regions).alloc_physical@, range);
    let ghost ms = matching_of(over, range);
    let ghost mut states: Seq<RegionState> = seq![*phys];
    let mut pages_to_deallocate = pages;
    let mut tries: usize = 0;
    let ghost mut first = true;
    proof {
        assert(over.len() == ms.len());
        assert(regions.alloc_physical@ =~= apart_from(old(regions).alloc_physical@, range) + parts_of(over.take(0), range)
            || first);
    }
    while pages_to_deallocate > 0 && tries < 1000
        invariant
            range == (vaddr..vaddr_end),
            vaddr_end == vaddr + pages * PAGE_SIZE,
            over == overlapping_in(old(regions).alloc_physical@, range),
            ms == matching_of(over, range),
            acquired_pages(ms) == pages,
            acquired_ok(old(regions).alloc_physical@),
            regions.unused_allocated@ == old(regions).unused_allocated@,
            regions.free_virtual@ == old(regions).free_virtual@,
            phys.wf(),
            first ==> {
                &&& tries == 0
                &&& pages_to_deallocate == pages
                &&& regions.alloc_physical@ == old(regions).alloc_physical@
                &&& unmapped@ == old(unmapped)@
                &&& states == seq![*phys]
                &&& *phys == *old(phys)
            },
            !first ==> {
                &&& pages_to_deallocate == 0
                &&& regions.alloc_physical@ == apart_from(old(regions).alloc_physical@, range) + parts_of(over, range)
                &&& unmapped@ == old(unmapped)@ + ms
                &&& release_chain(states, ms) && states[0] == *old(phys) && states.last() == *phys
            },
            kernel_holds_all(*old(phys), ms),
        decreases (if first { 1int } else { 0int }),
    {
        proof {
            assert(first);
        }
        let matching = drain_overlapping(&mut regions.alloc_physical, &range);
        let ghost kept = regions.alloc_physical@;
        let mut matched_regions: usize = 0;
        let mut k: usize = 0;
        proof {
            assert(matching@ == over);
            let pred = |a: AcquiredMappedRegion| overlapping(a, range);
            assert forall|i: int| 0 <= i < over.len() implies overlapping(#[trigger] over[i], range)
                && old(regions).alloc_physical@.contains(over[i]) by {
                old(regions).alloc_physical@.lemma_filter_pred(pred, i);
                assert(over.contains(over[i]));
                old(regions).alloc_physical@.lemma_filter_contains_rev(pred, over[i]);
            }
            assert(ms.take(0) =~= Seq::<AcquiredMappedRegion>::empty());
            assert(regions.alloc_physical@ =~= kept + parts_of(over.take(0), range));
            assert(unmapped@ =~= old(unmapped)@ + ms.take(0));
        }
        while k < matching.len()
            invariant
                matching@ == over,
                range == (vaddr..vaddr_end),
                vaddr_end == vaddr + pages * PAGE_SIZE,
                ms == matching_of(over, range),
                acquired_pages(ms) == pages,
                acquired_ok(old(regions).alloc_physical@),
                forall|i: int| 0 <= i < over.len() ==> overlapping(#[trigger] over[i], range),
                forall|i: int| 0 <= i < over.len() ==> old(regions).alloc_physical@.contains(#[trigger] over[i]),
                regions.unused_allocated@ == old(regions).unused_allocated@,
                regions.free_virtual@ == old(regions).free_virtual@,
                kept == apart_from(old(regions).alloc_physical@, range),
                k <= over.len(),
                matched_regions == k,
                regions.alloc_physical@ == kept + parts_of(over.take(k as int), range),
                unmapped@ == old(unmapped)@ + ms.take(k as int),
                pages_to_deallocate == pages - acquired_pages(ms.take(k as int)),
                phys.wf(),
                states.len() == k + 1,
                states[0] == *old(phys),
                states.last() == *phys,
                forall|j: int| 0 <= j < k ==> (#[trigger] states[j]).release_post(RegionUser::Kernel, ms[j].paddr, states[j + 1]) && states[j].wf(),
                kernel_holds_all(*old(phys), ms),
                forall|j: int| k <= j < ms.len() ==> phys.holds(RegionUser::Kernel, (#[trigger] ms[j]).paddr, ms[j].pages),
            decreases over.len() - k,
        {
            matched_regions = matched_regions + 1;
            let acq = matching[k];
            proof {
                assert(old(regions).alloc_physical@.contains(acq));
                let ix = choose|ix: int| 0 <= ix < old(regions).alloc_physical@.len() && old(regions).alloc_physical@[ix] == acq;
                assert(acquired_ok(old(regions).alloc_physical@));
                assert(old(regions).alloc_physical@[ix].vaddr + old(regions).alloc_physical@[ix].pages * PAGE_SIZE <= usize::MAX);
                assert(overlapping(over[k as int], range));
            }
            let acq_range = acq.vaddr..(acq.vaddr + acq.pages * PAGE_SIZE);
            let c = cut(acq_range, vaddr..vaddr_end);
            let c = match c {
                Some(c) => c,
                None => {
                    proof {
                        assert(false);
                    }
                    Cut { before: None, excluded: 0..0, after: None }
                },
            };
            let m = AcquiredMappedRegion {
                vaddr: c.excluded.start,
                paddr: acq.paddr + (c.excluded.start - acq.vaddr),
                pages: (c.excluded.end - c.excluded.start) / PAGE_SIZE,
            };
            proof {
                assert(m == matching_part(acq, range));
                assert(ms[k as int] == m);
            }
            let ghost before_push = regions.alloc_physical@;
            match c.before {
                Some(b) => {
                    regions.alloc_physical.push(AcquiredMappedRegion {
                        vaddr: b.start,
                        paddr: acq.paddr,
                        pages: (b.end - b.start) / PAGE_SIZE,
                    });
                },
                None => {},
            }
            match c.after {
                Some(a) => {
                    regions.alloc_physical.push(AcquiredMappedRegion {
                        vaddr: a.start,
                        paddr: acq.paddr + (a.start - acq.vaddr),
                        pages: (a.end - a.start) / PAGE_SIZE,
                    });
                },
                None => {},
            }
            proof {
                assert(regions.alloc_physical@ =~= before_push + kept_parts(acq, range));
                assert(over.take(k + 1).drop_last() =~= over.take(k as int));
                assert(over.take(k + 1).last() == acq);
                assert(regions.alloc_physical@ =~= kept + parts_of(over.take(k + 1), range));
                assert(phys.holds(RegionUser::Kernel, ms[k as int].paddr, ms[k as int].pages));
            }
            let ghost pre = *phys;
            phys.release_region(RegionUser::Kernel, m.paddr, m.pages);
            proof {
                assert forall|j: int| k + 1 <= j < ms.len() implies phys.holds(RegionUser::Kernel, (#[trigger] ms[j]).paddr, ms[j].pages) by {
                    assert(pre.holds(RegionUser::Kernel, ms[j].paddr, ms[j].pages));
                    assert(ms[k as int].paddr != ms[j].paddr);
                    lemma_release_keeps_other_holds(pre, *phys, RegionUser::Kernel, m.paddr, m.pages, RegionUser::Kernel, ms[j].paddr, ms[j].pages);
                }
                states = states.push(*phys);
                assert(ms.take(k + 1).drop_last() =~= ms.take(k as int));
                lemma_acquired_pages_prefix(ms, k + 1);
            }
            unmapped.push(m);
            pages_to_deallocate = pages_to_deallocate - m.pages;
            proof {
                assert(unmapped@ =~= old(unmapped)@ + ms.take(k + 1));
            }
            k = k + 1;
        }
        if matched_regions == 0 {
            tries = tries + 1;
        }
        proof {
            assert(over.take(over.len() as int) =~= over);
            assert(ms.take(ms.len() as int) =~= ms);
            first = false;
        }
    }
    proof {
        assert(!first);
    }
    release_to_free_region_list(&mut regions.free_virtual, vaddr, pages);
}

/// A suffix of a list holds no more pages than the list.
proof fn lemma_total_pages_suffix(s: Seq<FreeRegion>, k: int)
    requires
        0 <= k <= s.len(),
    ensures
        total_pages(s.skip(k)) <= total_pages(s),
    decreases k,
{
    if k > 0 {
        lemma_total_pages_suffix(s, k - 1);
        assert(s.skip(k - 1).drop_first() =~= s.skip(k));
        assert(total_pages(s.skip(k - 1)) == s.skip(k - 1)[0].length + total_pages(s.skip(k)));
    } else {
        assert(s.skip(0) =~= s);
    }
}

/// The sizes of a sorted list of pools.
pub open spec fn pool_sizes(pools: Seq<(usize, Pool)>) -> Seq<usize> {
    pools.map_values(|p: (usize, Pool)| p.0)
}

/// Sizes strictly increase.
pub open spec fn sizes_sorted(s: Seq<usize>) -> bool {
    forall|i: int, j: int| 0 <= i < j < s.len() ==> s[i] < s[j]
}

/// The index of the pool for objects of `size` bytes, if there is one.
pub fn pool_get(pools: &Vec<(usize, Pool)>, size: usize) -> (r: Option<usize>)
    requires
        sizes_sorted(pool_sizes(pools@)),
    ensures
        match r {
            Some(i) => i < pools@.len() && pools@[i as int].0 == size,
            None => forall|i: int| 0 <= i < pools@.len() ==> (#[trigger] pools@[i]).0 != size,
        },
{
    let mut lo: usize = 0;
    let mut hi: usize = pools.len();
    while lo < hi
        invariant
            sizes_sorted(pool_sizes(pools@)),
            lo <= hi <= pools@.len(),
            forall|i: int| 0 <= i < lo ==> (#[trigger] pools@[i]).0 < size,
            forall|i: int| hi <= i < pools@.len() ==> (#[trigger] pools@[i]).0 > size,
        decreases hi - lo,
    {
        let mid = lo + (hi - lo) / 2;
        let m = pools[mid].0;
        proof {
            assert forall|i: int| 0 <= i < pools@.len() implies (#[trigger] pools@[i]).0 == pool_sizes(pools@)[i] by {}
        }
        if m == size {
            return Some(mid);
        } else if m < size {
            lo = mid + 1;
        } else {
            hi = mid;
        }
    }
    None
}

/// The index of the pool for objects of `size` bytes, made and put in its
/// sorted place if there is none yet.
#[verifier::spinoff_prover]
pub fn pool_get_or_create(pools: &mut Vec<(usize, Pool)>, size: usize) -> (r: usize)
    requires
        size > 0,
        sizes_sorted(pool_sizes(old(pools)@)),
    ensures
        sizes_sorted(pool_sizes(final(pools)@)),
        r < final(pools)@.len(),
        final(pools)@[r as int].0 == size,
        (exists|i: int| 0 <= i < old(pools)@.len() && (#[trigger] old(pools)@[i]).0 == size)
            ==> final(pools)@ == old(pools)@,
        (forall|i: int| 0 <= i < old(pools)@.len() ==> (#[trigger] old(pools)@[i]).0 != size) ==> {
            &&& pool_sizes(final(pools)@) == pool_sizes(old(pools)@).insert(r as int, size)
            &&& final(pools)@.remove(r as int) == old(pools)@
            &&& final(pools)@[r as int].1.cfg() == (PoolConfig { object_size: size, region_pages: if size >= PAGE_SIZE / 8 { 4usize } else { 1usize } })
            &&& final(pools)@[r as int].1.used() == 0
            &&& final(pools)@[r as int].1.regions().len() == 0
        },
{
    match pool_get(pools, size) {
        Some(i) => i,
        None => {
            let pages = preferred_region_size(size);
            proof {
                let c = PoolConfig { object_size: size, region_pages: pages };
                crate::memory::pool::lemma_config_bounds(c);
            }
            let new_pool = Pool::new(size, pages);
            let mut pos: usize = 0;
            while pos < pools.len() && pools[pos].0 < size
                invariant
                    pos <= pools@.len(),
                    pools@ == old(pools)@,
                    forall|i: int| 0 <= i < pos ==> (#[trigger] pools@[i]).0 < size,
                decreases pools@.len() - pos,
            {
                pos = pos + 1;
            }
            let ghost before = pools@;
            pools.insert(pos, (size, new_pool));
            proof {
                assert(pool_sizes(pools@) =~= pool_sizes(before).insert(pos as int, size));
                assert(pools@.remove(pos as int) =~= before);
                assert forall|i: int, j: int| 0 <= i < j < pool_sizes(pools@).len() implies pool_sizes(pools@)[i] < pool_sizes(pools@)[j] by {
                    let ss = pool_sizes(before);
                    if pos < before.len() {
                        assert(before[pos as int].0 != size);
                        assert(before[pos as int].0 >= size);
                    }
                    if j < pos {
                        assert(pool_sizes(pools@)[i] == ss[i] && pool_sizes(pools@)[j] == ss[j]);
                    } else if j == pos {
                        assert(pool_sizes(pools@)[i] == ss[i]);
                    } else if i == pos {
                        assert(pool_sizes(pools@)[j] == ss[j - 1]);
                        assert(ss[pos as int] <= ss[j - 1] || j - 1 == pos);
                    } else if i < pos {
                        assert(pool_sizes(pools@)[i] == ss[i] && pool_sizes(pools@)[j] == ss[j - 1]);
                    } else {
                        assert(pool_sizes(pools@)[i] == ss[i - 1] && pool_sizes(pools@)[j] == ss[j - 1]);
                    }
                }
            }
            pos
        },
    }
}

/// The large heap: its virtual address space, the pools that small objects
/// come from, the area kernel stacks are placed in, and its memory regions.
#[derive(Debug)]
pub struct HeapState {
    start: VirtualAddress,
    end: VirtualAddress,
    length: PageCount,
    /// One pool for each object size, sorted by size.
    pools: Vec<(usize, Pool)>,
    stacks_start: VirtualAddress,
    stacks_end: VirtualAddress,
    regions: HeapRegionState,
}

/// The first address of the pages reserved for bootstrapping the heap, at
/// the end of the heap area.
pub open spec fn bootstrap_start() -> int {
    LARGE_HEAP_START + (LARGE_HEAP_LENGTH - BOOTSTRAP_HEAP_PAGES) * PAGE_SIZE
}

impl HeapState {
    pub closed spec fn start(&self) -> VirtualAddress {
        self.start
    }

    pub closed spec fn end(&self) -> VirtualAddress {
        self.end
    }

    /// In pages.
    pub closed spec fn length(&self) -> PageCount {
        self.length
    }

    pub closed spec fn pools(&self) -> Seq<(usize, Pool)> {
        self.pools@
    }

    pub closed spec fn stacks_start(&self) -> VirtualAddress {
        self.stacks_start
    }

    /// Where the last kernel stack was placed.
    pub closed spec fn stacks_end(&self) -> VirtualAddress {
        self.stacks_end
    }

    pub closed spec fn regions(&self) -> HeapRegionState {
        self.regions
    }

    /// Set up the heap: the pages at the end of its area are acquired and
    /// mapped at once, the first `BOOTSTRAP_HEAP_POOLS` of them as one region
    /// each of the pools for objects of 8, 16, ... bytes, the rest kept as
    /// unused mapped pages; the rest of the area is free.
    pub fn initialize(phys: &mut RegionState) -> (r: HeapState)
        requires
            usize::MAX == u64::MAX,
            old(phys).wf(),
            old(phys).free_count() >= BOOTSTRAP_HEAP_PAGES,
        ensures
            final(phys).wf(),
            r.start() == LARGE_HEAP_START,
            r.end() == LARGE_HEAP_START + LARGE_HEAP_LENGTH * PAGE_SIZE,
            r.length() == LARGE_HEAP_LENGTH,
            r.stacks_start() == STACKS_START,
            r.stacks_end() == STACKS_START,
            acquire_map_post(
                *old(phys),
                bootstrap_start() as usize,
                BOOTSTRAP_HEAP_PAGES,
                Seq::empty(),
                *final(phys),
                r.regions().alloc_physical@,
                Ok(()),
            ),
            r.regions().free_virtual@ == seq![
                FreeRegion { start: LARGE_HEAP_START as usize, length: (LARGE_HEAP_LENGTH - BOOTSTRAP_HEAP_PAGES) as usize },
            ],
            r.regions().unused_allocated@ == seq![
                FreeRegion {
                    start: (bootstrap_start() + BOOTSTRAP_HEAP_POOLS * PAGE_SIZE) as usize,
                    length: (BOOTSTRAP_HEAP_PAGES - BOOTSTRAP_HEAP_POOLS) as usize,
                },
            ],
            r.pools().len() == BOOTSTRAP_HEAP_POOLS,
            forall|i: int|
                0 <= i < BOOTSTRAP_HEAP_POOLS ==> {
                    let (size, pool) = #[trigger] r.pools()[i];
                    &&& size == 8 + 8 * i
                    &&& pool.cfg() == (PoolConfig { object_size: size, region_pages: 1 })
                    &&& pool.used() == 0
                    &&& pool.regions().len() == 1
                    &&& pool.regions()[0].base == bootstrap_start() + i * PAGE_SIZE
                    &&& pool.free_stack() == seq![(bootstrap_start() + i * PAGE_SIZE) as usize]
                },
    {
        let mut alloc_physical: Vec<AcquiredMappedRegion> = Vec::new();
        let bootstrap = LARGE_HEAP_START as usize + (LARGE_HEAP_LENGTH - BOOTSTRAP_HEAP_PAGES) * PAGE_SIZE;
        let res = kernel_acquire_and_map(phys, bootstrap, BOOTSTRAP_HEAP_PAGES, &mut alloc_physical);
        assert(res is Ok);
        let mut free_virtual: Vec<FreeRegion> = Vec::new();
        free_virtual.push(FreeRegion { start: LARGE_HEAP_START as usize, length: LARGE_HEAP_LENGTH - BOOTSTRAP_HEAP_PAGES });
        // Some healthy initial pools for small object sizes, since these are
        // needed almost at once: multiples of 8 bytes.
        let mut pools: Vec<(usize, Pool)> = Vec::new();
        let mut index: usize = 0;
        while index < BOOTSTRAP_HEAP_POOLS
            invariant
                usize::MAX == u64::MAX,
                index <= BOOTSTRAP_HEAP_POOLS,
                bootstrap == bootstrap_start(),
                pools@.len() == index,
                forall|i: int|
                    0 <= i < index ==> {
                        let (size, pool) = #[trigger] pools@[i];
                        &&& size == 8 + 8 * i
                        &&& pool.cfg() == (PoolConfig { object_size: size, region_pages: 1 })
                        &&& pool.used() == 0
                        &&& pool.regions().len() == 1
                        &&& pool.regions()[0].base == bootstrap_start() + i * PAGE_SIZE
                        &&& pool.free_stack() == seq![(bootstrap_start() + i * PAGE_SIZE) as usize]
                    },
            decreases BOOTSTRAP_HEAP_POOLS - index,
        {
            let size = 8 + index * 8;
            proof {
                crate::memory::pool::lemma_config_bounds(PoolConfig { object_size: size, region_pages: 1 });
            }
            let mut pool = Pool::new(size, 1);
            let base = bootstrap + index * PAGE_SIZE;
            let inserted = pool.insert_region(base);
            pools.push((size, pool));
            index = index + 1;
        }
        let mut unused_allocated: Vec<FreeRegion> = Vec::new();
        unused_allocated.push(
            FreeRegion {
                start: bootstrap + BOOTSTRAP_HEAP_POOLS * PAGE_SIZE,
                length: BOOTSTRAP_HEAP_PAGES - BOOTSTRAP_HEAP_POOLS,
            },
        );
        proof {
            assert(alloc_physical@ =~= Seq::empty() + alloc_physical@);
        }
        HeapState {
            start: LARGE_HEAP_START as usize,
            end: LARGE_HEAP_START as usize + LARGE_HEAP_LENGTH * PAGE_SIZE,
            length: LARGE_HEAP_LENGTH,
            pools,
            stacks_start: STACKS_START as usize,
            stacks_end: STACKS_START as usize,
            regions: HeapRegionState { alloc_physical, free_virtual, unused_allocated },
        }
    }

    /// Place a kernel stack after the last one, leaving a guard page on
    /// either side, and acquire its pages, to be mapped there. The stack
    /// pointer to start from: the top of the stack.
    pub fn allocate_kernel_stack(&mut self, phys: &mut RegionState) -> (r: VirtualAddress)
        requires
            old(phys).wf(),
            old(phys).free_count() >= KSTACK_SIZE / PAGE_SIZE,
            old(self).stacks_end() + (KSTACK_SIZE / PAGE_SIZE + 1) * PAGE_SIZE + KSTACK_SIZE <= usize::MAX,
        ensures
            final(self).stacks_end() == old(self).stacks_end() + (KSTACK_SIZE / PAGE_SIZE + 1) * PAGE_SIZE,
            r == final(self).stacks_end() + KSTACK_SIZE,
            acquire_map_post(
                *old(phys),
                final(self).stacks_end(),
                KSTACK_SIZE / PAGE_SIZE,
                old(self).regions().alloc_physical@,
                *final(phys),
                final(self).regions().alloc_physical@,
                Ok(()),
            ),
            final(self).regions().free_virtual@ == old(self).regions().free_virtual@,
            final(self).regions().unused_allocated@ == old(self).regions().unused_allocated@,
            final(self).pools() == old(self).pools(),
            final(self).start() == old(self).start() && final(self).end() == old(self).end(),
            final(self).length() == old(self).length(),
            final(self).stacks_start() == old(self).stacks_start(),
    {
        let pages = KSTACK_SIZE / PAGE_SIZE;
        // Skip a page each time: stacks have a guard page on either side.
        self.stacks_end = self.stacks_end + (pages + 1) * PAGE_SIZE;
        let new_stack = self.stacks_end;
        let res = kernel_acquire_and_map(phys, new_stack, pages, &mut self.regions.alloc_physical);
        assert(res is Ok);
        // The stack grows down from its top.
        new_stack + KSTACK_SIZE
    }
}

/// The alignment the heap gives a request: at least `MIN_ALIGN`.
pub open spec fn heap_align(align: usize) -> usize {
    if align < MIN_ALIGN {
        MIN_ALIGN
    } else {
        align
    }
}

/// The size of a request rounded up to its alignment.
pub open spec fn heap_size(size: usize, align: usize) -> int {
    spec_align_up(size as int, heap_align(align) as int)
}

/// The whole pages a request of a page or more takes.
pub open spec fn heap_pages(size: usize, align: usize) -> int {
    heap_size(size, align) / PAGE_SIZE as int + if heap_size(size, align) % PAGE_SIZE as int != 0 {
        1int
    } else {
        0int
    }
}

/// The heap's lists allow `allocate_pages(pages, ..)`.
pub open spec fn allocate_pages_ready(regions: HeapRegionState, pages: usize) -> bool {
    &&& list_ok(regions.unused_allocated@)
    &&& ends_above(regions.unused_allocated@, pages)
    &&& 2 * total_pages(regions.unused_allocated@) <= usize::MAX
    &&& list_ok(regions.free_virtual@)
    &&& ends_above(regions.free_virtual@, pages)
    &&& ends_above(regions.free_virtual@, UNUSED_ALLOCATED_ACQUIRE_SIZE)
}

impl HeapState {
    /// Everything but the memory regions is as in `other`.
    pub open spec fn same_but_regions(&self, other: &HeapState) -> bool {
        &&& self.start() == other.start() && self.end() == other.end() && self.length() == other.length()
        &&& self.pools() == other.pools()
        &&& self.stacks_start() == other.stacks_start() && self.stacks_end() == other.stacks_end()
    }

    /// Align a request and count its pages.
    fn request(size: usize, align: usize) -> (r: (usize, usize, usize))
        requires
            align_up_fits(size, heap_align(align)),
        ensures
            r.0 == heap_align(align),
            r.1 == heap_size(size, align),
            r.2 == heap_pages(size, align),
    {
        // There is a minimum alignment.
        let align = if align < MIN_ALIGN {
            MIN_ALIGN
        } else {
            align
        };
        // Align the requested size up to the alignment.
        let size_aligned = align_up(size, align);
        let pages = size_aligned / PAGE_SIZE + if size_aligned % PAGE_SIZE != 0 {
            1
        } else {
            0
        };
        (align, size_aligned, pages)
    }

    /// Allocate memory for `size` bytes aligned to `align`, a page or more
    /// once aligned, as whole pages: the address, or 0 when the heap is out
    /// of memory.
    pub fn allocate(&mut self, phys: &mut RegionState, size: usize, align: usize) -> (r: VirtualAddress)
        requires
            old(phys).wf(),
            align_up_fits(size, heap_align(align)),
            heap_size(size, align) >= PAGE_SIZE,
            allocate_pages_ready(old(self).regions(), heap_pages(size, align) as usize),
        ensures
            final(phys).wf(),
            final(self).same_but_regions(old(self)),
            exists|res: Result<usize, ()>|
                #[trigger] allocate_pages_post(
                    old(self).regions(),
                    *old(phys),
                    heap_pages(size, align) as usize,
                    heap_align(align),
                    final(self).regions(),
                    *final(phys),
                    res,
                ) && r == match res {
                    Ok(v) => v,
                    Err(()) => 0,
                },
    {
        let (align, _size_aligned, pages) = HeapState::request(size, align);
        let res = allocate_pages(&mut self.regions, phys, pages, align);
        proof {
            assert(allocate_pages_post(old(self).regions(), *old(phys), pages, align, self.regions(), *phys, res));
        }
        match res {
            Ok(v) => v,
            Err(()) => 0,
        }
    }

    /// Give back memory allocated for `size` bytes aligned to `align` at
    /// `ptr`. Whole pages go back to the heap; a small object of a size that
    /// no pool holds is left as it is.
    pub fn deallocate(
        &mut self,
        phys: &mut RegionState,
        ptr: VirtualAddress,
        size: usize,
        align: usize,
        unmapped: &mut Vec<AcquiredMappedRegion>,
    )
        requires
            align_up_fits(size, heap_align(align)),
            sizes_sorted(pool_sizes(old(self).pools())),
            heap_size(size, align) >= PAGE_SIZE ==> deallocate_pages_ready(
                old(self).regions(),
                *old(phys),
                ptr,
                heap_pages(size, align) as usize,
            ),
            heap_size(size, align) < PAGE_SIZE ==> forall|i: int|
                0 <= i < old(self).pools().len() ==> (#[trigger] old(self).pools()[i]).0 != heap_size(size, align),
        ensures
            final(self).same_but_regions(old(self)),
            heap_size(size, align) >= PAGE_SIZE ==> deallocate_pages_post(
                old(self).regions(),
                *old(phys),
                ptr,
                heap_pages(size, align) as usize,
                old(unmapped)@,
                final(self).regions(),
                *final(phys),
                final(unmapped)@,
            ),
            heap_size(size, align) < PAGE_SIZE ==> *final(self) == *old(self) && *final(phys) == *old(phys)
                && final(unmapped)@ == old(unmapped)@,
    {
        let (_align, size_aligned, pages) = HeapState::request(size, align);
        if size_aligned >= PAGE_SIZE {
            deallocate_pages(&mut self.regions, phys, ptr, pages, unmapped);
        } else {
            // Find the pool appropriate to the object: there is none, so the
            // pointer is unknown and nothing is done.
            let found = pool_get(&self.pools, size_aligned);
            assert(found is None);
        }
    }
}

} // verus!
