//! Physical memory management and kernel heap bookkeeping.

pub mod large_heap;
pub mod phys;
pub mod pool;
pub mod region_math;
pub mod region_set;

use vstd::prelude::*;

use crate::memory::region_math::{pair_has, range_points};
use crate::memory::region_set::RegionSet;
use crate::paging::{Page, PAGE_SIZE};

pub use phys::{PageCount, PhysicalAddress, RegionUser, VirtualAddress};

verus! {

/// The size of a kernel stack, in bytes.
pub const KSTACK_SIZE: usize = 32768;

/// The memory map that the boot loader hands over: usable and reserved
/// physical ranges as `(start, end)` pairs, and the mappings the kernel
/// needs from the start as `(virtual address, pages, page)`.
#[derive(Debug, Clone)]
#[non_exhaustive]
pub struct InitMemoryMap {
    pub usable: Vec<(PhysicalAddress, PhysicalAddress)>,
    pub reserved: Vec<(PhysicalAddress, PhysicalAddress)>,
    pub boot_mappings: Vec<(VirtualAddress, PageCount, Page)>,
}

impl Default for InitMemoryMap {
    fn default() -> (r: InitMemoryMap)
        ensures
            r.usable@.len() == 0,
            r.reserved@.len() == 0,
            r.boot_mappings@.len() == 0,
    {
        InitMemoryMap { usable: Vec::new(), reserved: Vec::new(), boot_mappings: Vec::new() }
    }
}

/// `addr` rounded up to a multiple of `align`.
pub fn align_addr(addr: usize, align: usize) -> (r: usize)
    requires
        align > 0,
        addr % align == 0 || addr + align <= usize::MAX,
    ensures
        r == crate::util::spec_align_up(addr as int, align as int),
{
    let mut addr = addr;
    if addr % align != 0 {
        addr = addr + (align - addr % align);
    }
    addr
}

/// `addr` rounded down to a multiple of `align`.
pub fn align_addr_down(addr: usize, align: usize) -> (r: usize)
    requires
        align > 0,
    ensures
        r == crate::util::spec_align_down(addr as int, align as int),
{
    let mut addr = addr;
    if addr % align != 0 {
        assert(addr % align <= addr) by (nonlinear_arith)
            requires
                align > 0,
        ;
        addr = addr - addr % align;
    }
    addr
}

/// The addresses of a list of `(start, end)` ranges.
pub open spec fn pairs_points(s: Seq<(usize, usize)>) -> Set<int> {
    Set::new(|x: int| exists|i: int| 0 <= i < s.len() && #[trigger] pair_has(s[i], x))
}

/// Physical address `x` is in the pages a boot mapping maps.
pub open spec fn boot_has(m: (usize, usize, Page), x: int) -> bool {
    match m.2 {
        Some((paddr, _)) => paddr <= x < paddr + m.1 * PAGE_SIZE,
        None => false,
    }
}

/// The physical addresses of the boot mappings that map pages.
pub open spec fn boot_points(s: Seq<(usize, usize, Page)>) -> Set<int> {
    Set::new(|x: int| exists|i: int| 0 <= i < s.len() && #[trigger] boot_has(s[i], x))
}

/// Ranges that do not run backwards, no two sharing an address, and no
/// empty one placed inside a range listed before it.
pub open spec fn pairs_separate(s: Seq<(usize, usize)>) -> bool {
    &&& forall|i: int| 0 <= i < s.len() ==> (#[trigger] s[i]).0 <= s[i].1
    &&& forall|i: int, j: int, x: int|
        0 <= i < j < s.len() && #[trigger] pair_has(s[i], x) ==> !#[trigger] pair_has(s[j], x)
    &&& forall|i: int, j: int|
        0 <= j < i < s.len() && (#[trigger] s[i]).0 == s[i].1 ==> !pair_has(#[trigger] s[j], s[i].0 as int)
}

/// The mapped physical range of a boot mapping fits in the address space.
pub open spec fn boot_mapping_ok(m: (usize, usize, Page)) -> bool {
    match m.2 {
        Some((paddr, _)) => paddr + m.1 * PAGE_SIZE <= usize::MAX,
        None => true,
    }
}

pub open spec fn boot_mappings_ok(s: Seq<(usize, usize, Page)>) -> bool {
    forall|i: int| 0 <= i < s.len() ==> boot_mapping_ok(#[trigger] s[i])
}

impl InitMemoryMap {
    /// The usable physical memory that is neither reserved nor used by a boot
    /// mapping.
    ///
    /// Inserting a usable range that begins inside a region already in the
    /// set gives that region the range's end, so the result is exactly the
    /// usable minus the excluded addresses when the usable ranges do not
    /// overlap and no empty one lies inside a range listed before it (such a
    /// range is cut short at the empty one); it never holds more.
    pub fn heap_usable(&self) -> (set: RegionSet)
        requires
            boot_mappings_ok(self.boot_mappings@),
        ensures
            set.wf(),
            set@.subset_of(pairs_points(self.usable@).difference(pairs_points(self.reserved@)).difference(
                boot_points(self.boot_mappings@),
            )),
            pairs_separate(self.usable@) ==> set@ == pairs_points(self.usable@).difference(
                pairs_points(self.reserved@),
            ).difference(boot_points(self.boot_mappings@)),
    {
        let mut set = RegionSet::new();
        let ghost sep = pairs_separate(self.usable@);
        let mut i: usize = 0;
        while i < self.usable.len()
            invariant
                i <= self.usable@.len(),
                sep == pairs_separate(self.usable@),
                set.wf(),
                set@.subset_of(pairs_points(self.usable@.take(i as int))),
                sep ==> set@ == pairs_points(self.usable@.take(i as int)),
            decreases self.usable@.len() - i,
        {
            let (start, end) = self.usable[i];
            let ghost before = set@;
            let ghost u = self.usable@;
            proof {
                set.lemma_inserted_within(start..end);
                assert forall|x: int|
                    #[trigger] pairs_points(u.take(i as int)).union(range_points(start..end)).contains(x)
                        == pairs_points(u.take(i + 1)).contains(x) by {
                    if pairs_points(u.take(i as int)).contains(x) {
                        let k = choose|k: int| 0 <= k < i && #[trigger] pair_has(u.take(i as int)[k], x);
                        assert(u.take(i + 1)[k] == u[k]);
                    }
                    if pairs_points(u.take(i + 1)).contains(x) {
                        let k = choose|k: int| 0 <= k < i + 1 && #[trigger] pair_has(u.take(i + 1)[k], x);
                        if k < i {
                            assert(u.take(i as int)[k] == u[k]);
                        }
                    }
                    if range_points(start..end).contains(x) {
                        assert(u.take(i + 1)[i as int] == u[i as int]);
                        assert(pair_has(u.take(i + 1)[i as int], x));
                    }
                }
                assert(pairs_points(u.take(i as int)).union(range_points(start..end)) =~= pairs_points(u.take(i + 1)));
                if sep {
                    assert(u[i as int].0 <= u[i as int].1);
                    if start < end {
                        assert forall|x: int| before.contains(x) implies !range_points(start..end).contains(x) by {
                            let k = choose|k: int| 0 <= k < i && #[trigger] pair_has(u.take(i as int)[k], x);
                            assert(u.take(i as int)[k] == u[k]);
                            assert(pair_has(u[k], x));
                            if range_points(start..end).contains(x) {
                                assert(pair_has(u[i as int], x));
                            }
                        }
                        set.lemma_insert_disjoint(start..end);
                    } else {
                        if before.contains(start as int) {
                            let k = choose|k: int| 0 <= k < i && #[trigger] pair_has(u.take(i as int)[k], start as int);
                            assert(u.take(i as int)[k] == u[k]);
                            assert(!pair_has(u[k], u[i as int].0 as int));
                        }
                        set.lemma_insert_empty_outside(start..end);
                        assert(range_points(start..end) =~= Set::<int>::empty());
                    }
                }
            }
            set.insert(start..end);
            i = i + 1;
        }
        proof {
            assert(self.usable@.take(self.usable@.len() as int) =~= self.usable@);
        }
        let ghost inserted = set@;
        let mut i: usize = 0;
        while i < self.reserved.len()
            invariant
                i <= self.reserved@.len(),
                set.wf(),
                set@ == inserted.difference(pairs_points(self.reserved@.take(i as int))),
            decreases self.reserved@.len() - i,
        {
            let (start, end) = self.reserved[i];
            let ghost r = self.reserved@;
            set.remove(start..end);
            proof {
                assert forall|x: int|
                    #[trigger] pairs_points(r.take(i as int)).union(range_points(start..end)).contains(x)
                        == pairs_points(r.take(i + 1)).contains(x) by {
                    if pairs_points(r.take(i as int)).contains(x) {
                        let k = choose|k: int| 0 <= k < i && #[trigger] pair_has(r.take(i as int)[k], x);
                        assert(r.take(i + 1)[k] == r[k]);
                    }
                    if pairs_points(r.take(i + 1)).contains(x) {
                        let k = choose|k: int| 0 <= k < i + 1 && #[trigger] pair_has(r.take(i + 1)[k], x);
                        if k < i {
                            assert(r.take(i as int)[k] == r[k]);
                        }
                    }
                    if range_points(start..end).contains(x) {
                        assert(r.take(i + 1)[i as int] == r[i as int]);
                        assert(pair_has(r.take(i + 1)[i as int], x));
                    }
                }
                assert(pairs_points(r.take(i as int)).union(range_points(start..end)) =~= pairs_points(r.take(i + 1)));
                assert(set@ =~= inserted.difference(pairs_points(r.take(i + 1))));
            }
            i = i + 1;
        }
        proof {
            assert(self.reserved@.take(self.reserved@.len() as int) =~= self.reserved@);
        }
        let ghost kept = set@;
        let mut i: usize = 0;
        while i < self.boot_mappings.len()
            invariant
                i <= self.boot_mappings@.len(),
                boot_mappings_ok(self.boot_mappings@),
                set.wf(),
                set@ == kept.difference(boot_points(self.boot_mappings@.take(i as int))),
            decreases self.boot_mappings@.len() - i,
        {
            let (_, pages, page) = self.boot_mappings[i];
            let ghost b = self.boot_mappings@;
            match page {
                Some((start, _)) => {
                    proof {
                        assert(boot_mapping_ok(b[i as int]));
                    }
                    set.remove(start..(start + pages * PAGE_SIZE));
                    proof {
                        assert forall|x: int|
                            #[trigger] boot_points(b.take(i as int)).union(range_points(start..(start + pages * PAGE_SIZE) as usize)).contains(x)
                                == boot_points(b.take(i + 1)).contains(x) by {
                            if boot_points(b.take(i as int)).contains(x) {
                                let k = choose|k: int| 0 <= k < i && #[trigger] boot_has(b.take(i as int)[k], x);
                                assert(b.take(i + 1)[k] == b[k]);
                            }
                            if boot_points(b.take(i + 1)).contains(x) {
                                let k = choose|k: int| 0 <= k < i + 1 && #[trigger] boot_has(b.take(i + 1)[k], x);
                                if k < i {
                                    assert(b.take(i as int)[k] == b[k]);
                                }
                            }
                            if range_points(start..(start + pages * PAGE_SIZE) as usize).contains(x) {
                                assert(b.take(i + 1)[i as int] == b[i as int]);
                                assert(boot_has(b.take(i + 1)[i as int], x));
                            }
                        }
                        assert(boot_points(b.take(i as int)).union(range_points(start..(start + pages * PAGE_SIZE) as usize)) =~= boot_points(b.take(i + 1)));
                        assert(set@ =~= kept.difference(boot_points(b.take(i + 1))));
                    }
                },
                None => {
                    proof {
                        assert forall|x: int| #[trigger] boot_points(b.take(i as int)).contains(x) == boot_points(b.take(i + 1)).contains(x) by {
                            if boot_points(b.take(i as int)).contains(x) {
                                let k = choose|k: int| 0 <= k < i && #[trigger] boot_has(b.take(i as int)[k], x);
                                assert(b.take(i + 1)[k] == b[k]);
                            }
                            if boot_points(b.take(i + 1)).contains(x) {
                                let k = choose|k: int| 0 <= k < i + 1 && #[trigger] boot_has(b.take(i + 1)[k], x);
                                assert(k < i);
                                assert(b.take(i as int)[k] == b[k]);
                            }
                        }
                        assert(boot_points(b.take(i as int)) =~= boot_points(b.take(i + 1)));
                    }
                },
            }
            i = i + 1;
        }
        proof {
            assert(self.boot_mappings@.take(self.boot_mappings@.len() as int) =~= self.boot_mappings@);
        }
        set
    }
}

} // verus!
