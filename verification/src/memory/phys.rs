//! Physical memory regions: which pages are free, which are allocated and
//! to whom.
//!
//! Free memory is a list of regions, newest first; allocating takes pages
//! from the end of the first free region, releasing merges the pages back
//! into a neighbouring free region where one ends or starts at them.

use std::ops::Range;

use vstd::prelude::*;

use crate::paging::PAGE_SIZE;

verus! {

pub type PhysicalAddress = usize;

pub type VirtualAddress = usize;

pub type PageCount = usize;

/// Memory below this address is not handed out: it holds the kernel image
/// among other things.
pub const SAFE_BOUNDARY: usize = 0x100000;

/// Who holds an allocated physical region.
#[derive(Debug, Clone, Copy, PartialEq, Eq, Structural)]
pub enum RegionUser {
    Kernel,
    Process(u32),
}

/// A run of `length` free pages starting at `start`.
#[derive(Debug, Clone, Copy)]
pub struct FreeRegion {
    pub start: usize,
    pub length: usize,
}

/// An allocated run of pages and the users holding it.
#[derive(Debug)]
pub struct AllocRegionState {
    pub start: PhysicalAddress,
    pub length: PageCount,
    pub users: Vec<RegionUser>,
}

/// The first address past a region.
pub open spec fn region_end(start: int, length: int) -> int {
    start + length * PAGE_SIZE
}

/// Address `x` lies in the region.
pub open spec fn region_has(r: FreeRegion, x: int) -> bool {
    r.start <= x < region_end(r.start as int, r.length as int)
}

/// A non-empty region whose end is addressable.
pub open spec fn region_ok(r: FreeRegion) -> bool {
    r.length > 0 && region_end(r.start as int, r.length as int) <= usize::MAX
}

/// The addresses in the regions of a list.
pub open spec fn covered(s: Seq<FreeRegion>) -> Set<int> {
    Set::new(|x: int| exists|i: int| 0 <= i < s.len() && #[trigger] region_has(s[i], x))
}

/// The total number of pages in a list.
pub open spec fn total_pages(s: Seq<FreeRegion>) -> nat
    decreases s.len(),
{
    if s.len() == 0 {
        0
    } else {
        (s[0].length + total_pages(s.drop_first())) as nat
    }
}

/// Every region is non-empty and addressable, and no two share an address.
pub open spec fn list_ok(s: Seq<FreeRegion>) -> bool {
    &&& forall|i: int| 0 <= i < s.len() ==> region_ok(#[trigger] s[i])
    &&& forall|i: int, j: int, x: int|
        0 <= i < s.len() && 0 <= j < s.len() && i != j && #[trigger] region_has(s[i], x)
            ==> !#[trigger] region_has(s[j], x)
}

/// The addresses of the page run `start`, `length`.
pub open spec fn pages_range(start: int, length: int) -> Set<int> {
    Set::new(|x: int| start <= x < region_end(start, length))
}

pub(crate) proof fn lemma_total_pages_push_front(r: FreeRegion, s: Seq<FreeRegion>)
    ensures
        total_pages(seq![r] + s) == r.length + total_pages(s),
{
    assert((seq![r] + s).drop_first() =~= s);
}

pub(crate) proof fn lemma_total_pages_remove(s: Seq<FreeRegion>, i: int)
    requires
        0 <= i < s.len(),
    ensures
        total_pages(s) == s[i].length + total_pages(s.remove(i)),
    decreases s.len(),
{
    if i == 0 {
        assert(s.remove(0) =~= s.drop_first());
    } else {
        lemma_total_pages_remove(s.drop_first(), i - 1);
        assert(s.drop_first().remove(i - 1) =~= s.remove(i).drop_first());
    }
}

pub(crate) proof fn lemma_total_pages_update(s: Seq<FreeRegion>, i: int, r: FreeRegion)
    requires
        0 <= i < s.len(),
    ensures
        total_pages(s.update(i, r)) + s[i].length == total_pages(s) + r.length,
{
    lemma_total_pages_remove(s, i);
    lemma_total_pages_remove(s.update(i, r), i);
    assert(s.update(i, r).remove(i) =~= s.remove(i));
}

/// The addresses of a region.
pub open spec fn region_pages(r: FreeRegion) -> Set<int> {
    pages_range(r.start as int, r.length as int)
}

pub(crate) proof fn lemma_covered_push_front(r: FreeRegion, s: Seq<FreeRegion>)
    ensures
        covered(seq![r] + s) == region_pages(r).union(covered(s)),
{
    let t = seq![r] + s;
    assert forall|x: int| covered(t).contains(x) == region_pages(r).union(covered(s)).contains(x) by {
        if covered(t).contains(x) {
            let i = choose|i: int| 0 <= i < t.len() && #[trigger] region_has(t[i], x);
            if i > 0 {
                assert(t[i] == s[i - 1]);
                assert(region_has(s[i - 1], x));
            }
        }
        if covered(s).contains(x) {
            let i = choose|i: int| 0 <= i < s.len() && #[trigger] region_has(s[i], x);
            assert(t[i + 1] == s[i]);
            assert(region_has(t[i + 1], x));
        }
        if region_pages(r).contains(x) {
            assert(region_has(t[0], x));
        }
    }
    assert(covered(t) =~= region_pages(r).union(covered(s)));
}

pub(crate) proof fn lemma_covered_remove(s: Seq<FreeRegion>, i: int)
    requires
        list_ok(s),
        0 <= i < s.len(),
    ensures
        covered(s.remove(i)) == covered(s).difference(region_pages(s[i])),
        covered(s) == covered(s.remove(i)).union(region_pages(s[i])),
        covered(s.remove(i)).disjoint(region_pages(s[i])),
{
    let t = s.remove(i);
    assert forall|x: int| covered(t).contains(x) == covered(s).difference(region_pages(s[i])).contains(x) by {
        if covered(t).contains(x) {
            let k = choose|k: int| 0 <= k < t.len() && #[trigger] region_has(t[k], x);
            let k2 = if k < i { k } else { k + 1 };
            assert(t[k] == s[k2]);
            assert(region_has(s[k2], x));
            assert(!region_has(s[i], x));
        }
        if covered(s).contains(x) && !region_pages(s[i]).contains(x) {
            let k = choose|k: int| 0 <= k < s.len() && #[trigger] region_has(s[k], x);
            assert(k != i);
            if k < i {
                assert(t[k] == s[k]);
                assert(region_has(t[k], x));
            } else {
                assert(t[k - 1] == s[k]);
                assert(region_has(t[k - 1], x));
            }
        }
    }
    assert(covered(t) =~= covered(s).difference(region_pages(s[i])));
    assert forall|x: int| region_pages(s[i]).contains(x) implies covered(s).contains(x) by {
        assert(region_has(s[i], x));
    }
    assert(covered(s) =~= covered(t).union(region_pages(s[i])));
}

pub(crate) proof fn lemma_list_ok_remove(s: Seq<FreeRegion>, i: int)
    requires
        list_ok(s),
        0 <= i < s.len(),
    ensures
        list_ok(s.remove(i)),
{
    let t = s.remove(i);
    assert forall|a: int, b: int, x: int|
        0 <= a < t.len() && 0 <= b < t.len() && a != b && #[trigger] region_has(t[a], x) implies !#[trigger] region_has(t[b], x) by {
        let a2 = if a < i { a } else { a + 1 };
        let b2 = if b < i { b } else { b + 1 };
        assert(t[a] == s[a2] && t[b] == s[b2]);
        assert(region_has(s[a2], x));
    }
    assert forall|a: int| 0 <= a < t.len() implies region_ok(#[trigger] t[a]) by {
        let a2 = if a < i { a } else { a + 1 };
        assert(t[a] == s[a2]);
    }
}

pub(crate) proof fn lemma_list_ok_push_front(r: FreeRegion, s: Seq<FreeRegion>)
    requires
        list_ok(s),
        region_ok(r),
        region_pages(r).disjoint(covered(s)),
    ensures
        list_ok(seq![r] + s),
{
    let t = seq![r] + s;
    assert forall|a: int, b: int, x: int|
        0 <= a < t.len() && 0 <= b < t.len() && a != b && #[trigger] region_has(t[a], x) implies !#[trigger] region_has(t[b], x) by {
        if a == 0 {
            if region_has(t[b], x) {
                assert(t[b] == s[b - 1]);
                assert(covered(s).contains(x));
                assert(region_pages(r).contains(x));
            }
        } else if b == 0 {
            assert(t[a] == s[a - 1]);
            if region_has(t[b], x) {
                assert(covered(s).contains(x));
                assert(region_pages(r).contains(x));
            }
        } else {
            assert(t[a] == s[a - 1] && t[b] == s[b - 1]);
        }
    }
    assert forall|a: int| 0 <= a < t.len() implies region_ok(#[trigger] t[a]) by {
        if a > 0 {
            assert(t[a] == s[a - 1]);
        }
    }
}

/// The free region that initialization makes of a usable range: its start
/// rounded up to a page, at least `SAFE_BOUNDARY`, with whole pages only.
pub open spec fn spec_initial_region(range: Range<usize>) -> Option<FreeRegion> {
    let addr = range.start as int;
    let len = range.end - range.start;
    let base = if addr % (PAGE_SIZE as int) != 0 {
        addr + PAGE_SIZE - addr % (PAGE_SIZE as int)
    } else {
        addr
    };
    let pages = (len - addr % (PAGE_SIZE as int)) / PAGE_SIZE as int;
    if base < SAFE_BOUNDARY {
        let diff = (SAFE_BOUNDARY - base) / PAGE_SIZE as int;
        if diff < pages {
            Some(FreeRegion { start: (base + diff * PAGE_SIZE) as usize, length: (pages - diff) as usize })
        } else {
            None
        }
    } else if pages > 0 {
        Some(FreeRegion { start: base as usize, length: pages as usize })
    } else {
        None
    }
}

/// The free list built from usable ranges, each new region put in front.
pub open spec fn spec_initial_list(ranges: Seq<Range<usize>>) -> Seq<FreeRegion>
    decreases ranges.len(),
{
    if ranges.len() == 0 {
        Seq::empty()
    } else {
        let rest = spec_initial_list(ranges.drop_last());
        match spec_initial_region(ranges.last()) {
            Some(r) => seq![r] + rest,
            None => rest,
        }
    }
}

/// The page arithmetic of initialization stays in range for `range`.
pub open spec fn usable_range_ok(range: Range<usize>) -> bool {
    &&& range.start <= range.end
    &&& range.end - range.start >= (range.start % PAGE_SIZE) as int
    &&& range.end + 2 * PAGE_SIZE <= usize::MAX
}

/// Start and length of each allocated region.
pub open spec fn as_regions(s: Seq<(usize, usize, Seq<RegionUser>)>) -> Seq<FreeRegion> {
    s.map_values(|t: (usize, usize, Seq<RegionUser>)| FreeRegion { start: t.0, length: t.1 })
}


/// Address `x` lies in the free region built from `range`.
pub open spec fn initial_has(range: Range<usize>, x: int) -> bool {
    match spec_initial_region(range) {
        Some(r) => region_has(r, x),
        None => false,
    }
}

/// The free region of whole pages that a usable range gives, above the
/// safe boundary; none when no page is left.
pub fn initial_region(range: Range<usize>) -> (r: Option<FreeRegion>)
    requires
        usable_range_ok(range),
    ensures
        r == spec_initial_region(range),
{
    proof {
        lemma_initial_region(range);
    }
    let start = range.start;
    let end = range.end;
    let len = end - start;
    let mut base = start;
    if start % PAGE_SIZE != 0 {
        base = start + (PAGE_SIZE - start % PAGE_SIZE);
    }
    let mut pages = (len - start % PAGE_SIZE) / PAGE_SIZE;
    let mut keep = true;
    if base < SAFE_BOUNDARY {
        let diff = (SAFE_BOUNDARY - base) / PAGE_SIZE;
        if diff < pages {
            proof {
                assert(diff * PAGE_SIZE <= SAFE_BOUNDARY - base) by (nonlinear_arith)
                    requires
                        diff == (SAFE_BOUNDARY - base) / PAGE_SIZE as int,
                        base < SAFE_BOUNDARY,
                ;
            }
            base = base + diff * PAGE_SIZE;
            pages = pages - diff;
        } else {
            keep = false;
        }
    }
    if keep && pages > 0 {
        Some(FreeRegion { start: base, length: pages })
    } else {
        None
    }
}

/// Physical memory bookkeeping.
pub struct RegionState {
    alloc_regions: Vec<AllocRegionState>,
    free_regions: Vec<FreeRegion>,
    total_page_count: usize,
    free_page_count: usize,
}

impl RegionState {
    /// The free regions, newest first.
    pub closed spec fn free_list(&self) -> Seq<FreeRegion> {
        self.free_regions@
    }

    /// The allocated regions, newest first: start, length and users.
    pub closed spec fn alloc_list(&self) -> Seq<(usize, usize, Seq<RegionUser>)> {
        self.alloc_regions@.map_values(|a: AllocRegionState| (a.start, a.length, a.users@))
    }

    pub closed spec fn total(&self) -> usize {
        self.total_page_count
    }

    pub closed spec fn free_count(&self) -> usize {
        self.free_page_count
    }

    /// The free addresses.
    pub open spec fn free_pages(&self) -> Set<int> {
        covered(self.free_list())
    }

    /// The allocated regions as page runs.
    pub open spec fn alloc_regions_view(&self) -> Seq<FreeRegion> {
        as_regions(self.alloc_list())
    }

    /// The allocated addresses.
    pub open spec fn alloc_pages(&self) -> Set<int> {
        covered(self.alloc_regions_view())
    }

    /// The free and allocated lists are sound and disjoint, every allocated
    /// region has a user, the free-page counter matches the free list, and
    /// every page is either free or allocated.
    pub closed spec fn wf(&self) -> bool {
        &&& list_ok(self.free_regions@)
        &&& list_ok(self.alloc_regions_view())
        &&& covered(self.free_regions@).disjoint(self.alloc_pages())
        &&& forall|i: int| 0 <= i < self.alloc_regions@.len() ==> #[trigger] self.alloc_regions@[i].users@.len() > 0
        &&& total_pages(self.free_regions@) == self.free_page_count
        &&& self.free_page_count + total_pages(self.alloc_regions_view()) == self.total_page_count
    }

    /// The free regions, newest first.
    pub fn free_regions(&self) -> (r: &[FreeRegion])
        ensures
            r@ == self.free_list(),
    {
        self.free_regions.as_slice()
    }

    /// The allocated regions, newest first.
    pub fn alloc_regions(&self) -> (r: &[AllocRegionState])
        ensures
            r@.map_values(|a: AllocRegionState| (a.start, a.length, a.users@)) == self.alloc_list(),
    {
        self.alloc_regions.as_slice()
    }

    pub fn free_page_count(&self) -> (r: usize)
        ensures
            r == self.free_count(),
    {
        self.free_page_count
    }

    pub fn total_page_count(&self) -> (r: usize)
        ensures
            r == self.total(),
    {
        self.total_page_count
    }

    /// Build the free list from the usable physical ranges, in order.
    pub fn initialize(usable: &[Range<usize>]) -> (r: RegionState)
        requires
            forall|i: int| 0 <= i < usable@.len() ==> usable_range_ok(#[trigger] usable@[i]),
            forall|i: int, j: int, x: int|
                0 <= i < j < usable@.len() && #[trigger] initial_has(usable@[i], x) ==> !#[trigger] initial_has(usable@[j], x),
            total_pages(spec_initial_list(usable@)) <= usize::MAX,
        ensures
            r.wf(),
            r.free_list() == spec_initial_list(usable@),
            r.alloc_list().len() == 0,
            r.total() == total_pages(spec_initial_list(usable@)),
            r.free_count() == r.total(),
    {
        let mut free: Vec<FreeRegion> = Vec::new();
        let mut total: usize = 0;
        let mut i: usize = 0;
        while i < usable.len()
            invariant
                i <= usable@.len(),
                forall|k: int| 0 <= k < usable@.len() ==> usable_range_ok(#[trigger] usable@[k]),
                forall|a: int, b: int, x: int|
                    0 <= a < b < usable@.len() && #[trigger] initial_has(usable@[a], x) ==> !#[trigger] initial_has(usable@[b], x),
                total_pages(spec_initial_list(usable@)) <= usize::MAX,
                free@ == spec_initial_list(usable@.take(i as int)),
                total == total_pages(free@),
                list_ok(free@),
                forall|k: int, x: int|
                    0 <= k < free@.len() && #[trigger] region_has(free@[k], x) ==> exists|a: int|
                        0 <= a < i && #[trigger] initial_has(usable@[a], x),
            decreases usable@.len() - i,
        {
            let start = usable[i].start;
            let end = usable[i].end;
            proof {
                assert(usable@.take(i + 1).drop_last() =~= usable@.take(i as int));
                assert(usable@.take(i + 1).last() == usable@[i as int]);
                lemma_initial_region(usable@[i as int]);
                lemma_initial_list_prefix(usable@, i as int + 1);
            }
            let reg = initial_region(start..end);
            if let Some(r) = reg {
                let pages = r.length;
                let ghost old_free = free@;
                proof {
                    assert(spec_initial_region(usable@[i as int]) == Some(r));
                    lemma_total_pages_push_front(r, old_free);
                }
                free.insert(0, r);
                total = total + pages;
                proof {
                    assert(free@ =~= seq![r] + old_free);
                    assert forall|k: int, x: int|
                        0 <= k < free@.len() && #[trigger] region_has(free@[k], x) implies exists|a: int|
                            0 <= a < i + 1 && #[trigger] initial_has(usable@[a], x) by {
                        if k == 0 {
                            assert(initial_has(usable@[i as int], x));
                        } else {
                            assert(free@[k] == old_free[k - 1]);
                        }
                    }
                    assert forall|a: int, b: int, x: int|
                        0 <= a < free@.len() && 0 <= b < free@.len() && a != b && #[trigger] region_has(free@[a], x)
                            implies !#[trigger] region_has(free@[b], x) by {
                        if a == 0 {
                            if region_has(free@[b], x) {
                                assert(free@[b] == old_free[b - 1]);
                                let c = choose|c: int| 0 <= c < i && #[trigger] initial_has(usable@[c], x);
                                assert(initial_has(usable@[c], x));
                                assert(initial_has(usable@[i as int], x));
                            }
                        } else if b == 0 {
                            assert(free@[a] == old_free[a - 1]);
                            if region_has(free@[b], x) {
                                let c = choose|c: int| 0 <= c < i && #[trigger] initial_has(usable@[c], x);
                                assert(initial_has(usable@[c], x));
                                assert(initial_has(usable@[i as int], x));
                            }
                        } else {
                            assert(free@[a] == old_free[a - 1]);
                            assert(free@[b] == old_free[b - 1]);
                        }
                    }
                }
            } else {
                proof {
                    assert(spec_initial_region(usable@[i as int]) is None);
                }
            }
            i = i + 1;
        }
        proof {
            assert(usable@.take(usable@.len() as int) =~= usable@);
        }
        let r = RegionState { alloc_regions: Vec::new(), free_regions: free, total_page_count: total, free_page_count: total };
        proof {
            assert(r.alloc_regions_view() =~= Seq::<FreeRegion>::empty());
            assert(r.alloc_pages() =~= Set::<int>::empty());
        }
        r
    }
}

impl RegionState {
    /// What `acquire_region(owner, pages)` does: with fewer free pages than
    /// asked, or none asked, nothing; otherwise it takes up to `pages` pages
    /// from the end of the first free region, records them as allocated to
    /// `owner` and returns their start and count.
    pub open spec fn acquire_post(
        &self,
        owner: RegionUser,
        pages: usize,
        after: RegionState,
        r: Option<(usize, usize)>,
    ) -> bool {
        if self.free_count() < pages || pages == 0 || self.free_list().len() == 0 {
            &&& r is None
            &&& after.free_list() == self.free_list()
            &&& after.alloc_list() == self.alloc_list()
            &&& after.free_count() == self.free_count()
            &&& after.total() == self.total()
        } else {
            let f = self.free_list()[0];
            let acq: usize = if f.length < pages { f.length } else { pages };
            let start = (f.start + (f.length - acq) * PAGE_SIZE) as usize;
            &&& r == Some((start, acq))
            &&& after.free_list() == (if acq == f.length {
                self.free_list().drop_first()
            } else {
                self.free_list().update(0, FreeRegion { start: f.start, length: (f.length - acq) as usize })
            })
            &&& after.alloc_list() == seq![(start, acq, seq![owner])] + self.alloc_list()
            &&& after.free_count() == self.free_count() - acq
            &&& after.total() == self.total()
        }
    }

    /// Acquire up to `pages` physical pages for `owner`: the start address
    /// and number of pages, which may be fewer than asked, or `None` when
    /// fewer than `pages` pages are free.
    pub fn acquire_region(&mut self, owner: RegionUser, pages: PageCount) -> (r: Option<(PhysicalAddress, PageCount)>)
        requires
            old(self).wf(),
        ensures
            final(self).wf(),
            old(self).acquire_post(owner, pages, *final(self), r),
            match r {
                Some((start, n)) => n > 0 && start + n * PAGE_SIZE <= usize::MAX && pages_range(start as int, n as int).subset_of(old(self).free_pages())
                    && final(self).free_pages() == old(self).free_pages().difference(pages_range(start as int, n as int))
                    && final(self).alloc_pages() == old(self).alloc_pages().union(pages_range(start as int, n as int)),
                None => final(self).free_pages() == old(self).free_pages()
                    && final(self).alloc_pages() == old(self).alloc_pages(),
            },
    {
        if self.free_page_count < pages || pages == 0 || self.free_regions.len() == 0 {
            return None;
        }
        let f = self.free_regions[0];
        let acq = if f.length < pages { f.length } else { pages };
        let ghost old_free = self.free_regions@;
        let ghost old_alloc = self.alloc_regions_view();
        proof {
            assert(region_ok(old_free[0]));
            assert((f.length - acq) * PAGE_SIZE <= f.length * PAGE_SIZE) by (nonlinear_arith)
                requires
                    acq <= f.length,
            ;
            assert(acq * PAGE_SIZE + (f.length - acq) * PAGE_SIZE == f.length * PAGE_SIZE) by (nonlinear_arith);
        }
        let start = f.start + (f.length - acq) * PAGE_SIZE;
        let taken = FreeRegion { start, length: acq };
        let rest = FreeRegion { start: f.start, length: f.length - acq };
        proof {
            // The taken pages and the rest split the first free region.
            assert forall|x: int| region_pages(f).contains(x) == (region_pages(taken).contains(x) || (rest.length > 0 && region_pages(rest).contains(x))) by {}
            assert(region_pages(taken).disjoint(region_pages(rest)));
        }
        if acq == f.length {
            self.free_regions.remove(0);
            proof {
                assert(old_free.remove(0) =~= old_free.drop_first());
                lemma_covered_remove(old_free, 0);
                lemma_list_ok_remove(old_free, 0);
                lemma_total_pages_remove(old_free, 0);
                assert(region_pages(taken) =~= region_pages(f));
            }
        } else {
            self.free_regions.set(0, rest);
            proof {
                lemma_covered_remove(old_free, 0);
                lemma_list_ok_remove(old_free, 0);
                lemma_total_pages_update(old_free, 0, rest);
                let t = old_free.update(0, rest);
                assert(t =~= seq![rest] + old_free.remove(0));
                assert(region_pages(rest).disjoint(covered(old_free.remove(0))));
                lemma_list_ok_push_front(rest, old_free.remove(0));
                lemma_covered_push_front(rest, old_free.remove(0));
            }
        }
        self.free_page_count = self.free_page_count - acq;
        let mut users: Vec<RegionUser> = Vec::new();
        users.push(owner);
        let ghost old_alloc_regions = self.alloc_regions@;
        self.alloc_regions.insert(0, AllocRegionState { start, length: acq, users });
        proof {
            assert(self.alloc_regions_view() =~= seq![taken] + old_alloc);
            assert(self.alloc_list() =~= seq![(start, acq, seq![owner])] + old(self).alloc_list());
            lemma_covered_push_front(taken, old_alloc);
            assert(region_pages(taken).disjoint(covered(old_alloc)));
            lemma_list_ok_push_front(taken, old_alloc);
            lemma_total_pages_push_front(taken, old_alloc);
            assert forall|i: int| 0 <= i < self.alloc_regions@.len() implies #[trigger] self.alloc_regions@[i].users@.len() > 0 by {
                if i > 0 {
                    assert(self.alloc_regions@[i] == old_alloc_regions[i - 1]);
                }
            }
            assert(pages_range(start as int, acq as int) =~= region_pages(taken));
            assert(self.free_pages() =~= old(self).free_pages().difference(region_pages(taken)));
        }
        Some((start, acq))
    }
}

/// The released run `start`, `length` ends where `r` starts.
pub open spec fn joins_before(r: FreeRegion, start: int, length: int) -> bool {
    region_end(start, length) == r.start
}

/// The released run `start`, `length` starts where `r` ends.
pub open spec fn joins_after(r: FreeRegion, start: int, length: int) -> bool {
    region_end(r.start as int, r.length as int) == start
}

pub open spec fn neighbor(r: FreeRegion, start: int, length: int) -> bool {
    joins_before(r, start, length) || joins_after(r, start, length)
}

/// The free list after releasing `start`, `length` into `s`: merged into
/// the first neighbouring region (a region it ends at is replaced by one in
/// front of the list; a region it starts at grows), or put in front.
pub open spec fn spec_released(s: Seq<FreeRegion>, start: usize, length: usize, i: int) -> Seq<FreeRegion> {
    if joins_before(s[i], start as int, length as int) {
        seq![FreeRegion { start, length: (length + s[i].length) as usize }] + s.remove(i)
    } else {
        s.update(i, FreeRegion { start: s[i].start, length: (s[i].length + length) as usize })
    }
}

/// What releasing `start`, `length` into the free list `before` makes of it.
pub open spec fn released_into(before: Seq<FreeRegion>, start: usize, length: usize, after: Seq<FreeRegion>) -> bool {
    &&& list_ok(after)
    &&& covered(after) == covered(before).union(pages_range(start as int, length as int))
    &&& total_pages(after) == total_pages(before) + length
    &&& (forall|i: int| 0 <= i < before.len() ==> !#[trigger] neighbor(before[i], start as int, length as int))
        ==> after == seq![FreeRegion { start, length }] + before
    &&& forall|i: int|
        0 <= i < before.len() && #[trigger] neighbor(before[i], start as int, length as int) && (forall|j: int|
            0 <= j < i ==> !#[trigger] neighbor(before[j], start as int, length as int))
            ==> after == spec_released(before, start, length, i)
}

/// Give the run of `length` pages at `start` back to a free list, merging
/// it with a neighbouring free region where there is one.
pub fn release_to_free_region_list(list: &mut Vec<FreeRegion>, start: usize, length: usize)
    requires
        list_ok(old(list)@),
        length > 0,
        region_end(start as int, length as int) <= usize::MAX,
        pages_range(start as int, length as int).disjoint(covered(old(list)@)),
    ensures
        released_into(old(list)@, start, length, final(list)@),
{
    let ghost s = list@;
    let new_region = FreeRegion { start, length };
    proof {
        assert(length * PAGE_SIZE <= usize::MAX);
        assert(length <= usize::MAX / 4096) by (nonlinear_arith)
            requires
                length * PAGE_SIZE <= usize::MAX,
        ;
    }
    let end = start + length * PAGE_SIZE;
    let mut i: usize = 0;
    while i < list.len()
        invariant
            list@ == s,
            s == old(list)@,
            i <= s.len(),
            list_ok(s),
            length > 0,
            region_end(start as int, length as int) <= usize::MAX,
            pages_range(start as int, length as int).disjoint(covered(s)),
            end == region_end(start as int, length as int),
            length <= usize::MAX / 4096,
            forall|j: int| 0 <= j < i ==> !#[trigger] neighbor(s[j], start as int, length as int),
        decreases s.len() - i,
    {
        let r = list[i];
        proof {
            assert(region_ok(s[i as int]));
            assert(r.length <= usize::MAX / 4096) by (nonlinear_arith)
                requires
                    r.start + r.length * PAGE_SIZE <= usize::MAX,
            ;
        }
        if end == r.start {
            let merged = FreeRegion { start, length: length + r.length };
            list.remove(i);
            list.insert(0, merged);
            proof {
                assert(joins_before(s[i as int], start as int, length as int));
                assert(neighbor(s[i as int], start as int, length as int));
                assert forall|k: int|
                    0 <= k < s.len() && #[trigger] neighbor(s[k], start as int, length as int) && (forall|j: int|
                        0 <= j < k ==> !#[trigger] neighbor(s[j], start as int, length as int)) implies k == i by {
                    if k > i {
                        assert(!neighbor(s[i as int], start as int, length as int));
                    }
                }
                assert(list@ =~= spec_released(s, start, length, i as int));
                lemma_release_merge(s, start, length, i as int);
            }
            return;
        }
        if r.start + r.length * PAGE_SIZE == start {
            list.set(i, FreeRegion { start: r.start, length: r.length + length });
            proof {
                assert(joins_after(s[i as int], start as int, length as int));
                assert(neighbor(s[i as int], start as int, length as int));
                assert forall|k: int|
                    0 <= k < s.len() && #[trigger] neighbor(s[k], start as int, length as int) && (forall|j: int|
                        0 <= j < k ==> !#[trigger] neighbor(s[j], start as int, length as int)) implies k == i by {
                    if k > i {
                        assert(!neighbor(s[i as int], start as int, length as int));
                    }
                }
                assert(!joins_before(s[i as int], start as int, length as int));
                assert(list@ =~= spec_released(s, start, length, i as int));
                lemma_release_merge(s, start, length, i as int);
            }
            return;
        }
        i = i + 1;
    }
    list.insert(0, new_region);
    proof {
        assert(list@ =~= seq![new_region] + s);
        lemma_covered_push_front(new_region, s);
        lemma_list_ok_push_front(new_region, s);
        lemma_total_pages_push_front(new_region, s);
        assert(region_pages(new_region) =~= pages_range(start as int, length as int));
        assert(covered(list@) == covered(s).union(pages_range(start as int, length as int)));
        assert forall|k: int|
            0 <= k < s.len() && #[trigger] neighbor(s[k], start as int, length as int) && (forall|j: int|
                0 <= j < k ==> !#[trigger] neighbor(s[j], start as int, length as int)) implies list@ == spec_released(s, start, length, k) by {
            assert(!neighbor(s[k], start as int, length as int));
        }
    }
}

/// Merging a released run into its neighbour keeps the list sound and adds
/// exactly the run.
proof fn lemma_release_merge(s: Seq<FreeRegion>, start: usize, length: usize, i: int)
    requires
        list_ok(s),
        0 <= i < s.len(),
        length > 0,
        region_end(start as int, length as int) <= usize::MAX,
        pages_range(start as int, length as int).disjoint(covered(s)),
        neighbor(s[i], start as int, length as int),
    ensures
        list_ok(spec_released(s, start, length, i)),
        covered(spec_released(s, start, length, i)) == covered(s).union(pages_range(start as int, length as int)),
        total_pages(spec_released(s, start, length, i)) == total_pages(s) + length,
{
    let r = s[i];
    let run = pages_range(start as int, length as int);
    assert(region_ok(r));
    assert(region_has(r, r.start as int));
    assert(covered(s).contains(r.start as int));
    lemma_covered_remove(s, i);
    lemma_list_ok_remove(s, i);
    lemma_total_pages_remove(s, i);
    if joins_before(r, start as int, length as int) {
        let m = FreeRegion { start, length: (length + r.length) as usize };
        assert(region_end(start as int, m.length as int) == region_end(r.start as int, r.length as int)) by (nonlinear_arith)
            requires
                m.length == length + r.length,
                r.start == start + length * PAGE_SIZE,
        ;
        assert(region_pages(m) =~= run.union(region_pages(r)));
        lemma_list_ok_push_front(m, s.remove(i));
        lemma_covered_push_front(m, s.remove(i));
        lemma_total_pages_push_front(m, s.remove(i));
        assert(covered(seq![m] + s.remove(i)) =~= covered(s).union(run));
    } else {
        let m = FreeRegion { start: r.start, length: (r.length + length) as usize };
        assert(region_end(r.start as int, m.length as int) == region_end(start as int, length as int)) by (nonlinear_arith)
            requires
                m.length == length + r.length,
                start == r.start + r.length * PAGE_SIZE,
        ;
        assert(region_pages(m) =~= region_pages(r).union(run));
        let t = s.update(i, m);
        lemma_list_ok_push_front(m, s.remove(i));
        lemma_covered_push_front(m, s.remove(i));
        lemma_total_pages_update(s, i, m);
        // The updated list is the merged region plus the others, reordered.
        assert forall|x: int| covered(t).contains(x) == covered(seq![m] + s.remove(i)).contains(x) by {
            if covered(t).contains(x) {
                let k = choose|k: int| 0 <= k < t.len() && #[trigger] region_has(t[k], x);
                if k == i {
                    assert(region_has((seq![m] + s.remove(i))[0], x));
                } else {
                    let k2 = if k < i { k + 1 } else { k };
                    assert((seq![m] + s.remove(i))[k2] == s[k]);
                    assert(region_has((seq![m] + s.remove(i))[k2], x));
                }
            }
            if covered(seq![m] + s.remove(i)).contains(x) {
                let u = seq![m] + s.remove(i);
                let k = choose|k: int| 0 <= k < u.len() && #[trigger] region_has(u[k], x);
                if k == 0 {
                    assert(region_has(t[i], x));
                } else {
                    let k2 = if k - 1 < i { k - 1 } else { k };
                    assert(u[k] == s[k2]);
                    assert(t[k2] == s[k2]);
                    assert(region_has(t[k2], x));
                }
            }
        }
        assert(covered(t) =~= covered(seq![m] + s.remove(i)));
        assert forall|a: int, b: int, x: int|
            0 <= a < t.len() && 0 <= b < t.len() && a != b && #[trigger] region_has(t[a], x) implies !#[trigger] region_has(t[b], x) by {
            let u = seq![m] + s.remove(i);
            let a2 = if a == i { 0 } else if a < i { a + 1 } else { a };
            let b2 = if b == i { 0 } else if b < i { b + 1 } else { b };
            assert(u[a2] == t[a]);
            assert(u[b2] == t[b]);
        }
        assert forall|a: int| 0 <= a < t.len() implies region_ok(#[trigger] t[a]) by {
            let u = seq![m] + s.remove(i);
            let a2 = if a == i { 0 } else if a < i { a + 1 } else { a };
            assert(u[a2] == t[a]);
        }
    }
}

/// `users` without `user`.
pub open spec fn without_user(users: Seq<RegionUser>, user: RegionUser) -> Seq<RegionUser> {
    users.filter(|u: RegionUser| u != user)
}

impl RegionState {
    /// What `release_region(user, paddr, pages)` does to the allocated
    /// region at `paddr`: `user` leaves its users; when none is left the
    /// region is no longer allocated and its pages return to the free list.
    pub open spec fn release_post(&self, user: RegionUser, paddr: usize, after: RegionState) -> bool {
        forall|i: int|
            0 <= i < self.alloc_list().len() && (#[trigger] self.alloc_list()[i]).0 == paddr ==> {
                let a = self.alloc_list()[i];
                let users = without_user(a.2, user);
                if users.len() > 0 {
                    &&& after.alloc_list() == self.alloc_list().update(i, (a.0, a.1, users))
                    &&& after.free_list() == self.free_list()
                    &&& after.free_count() == self.free_count()
                    &&& after.total() == self.total()
                } else {
                    &&& after.alloc_list() == self.alloc_list().remove(i)
                    &&& released_into(self.free_list(), a.0, a.1, after.free_list())
                    &&& after.free_count() == self.free_count() + a.1
                    &&& after.total() == self.total()
                }
            }
    }

    /// `user` holds an allocated region of `pages` pages at `paddr`.
    pub open spec fn holds(&self, user: RegionUser, paddr: usize, pages: usize) -> bool {
        exists|i: int|
            0 <= i < self.alloc_list().len() && (#[trigger] self.alloc_list()[i]).0 == paddr
                && self.alloc_list()[i].1 == pages && self.alloc_list()[i].2.contains(user)
    }

    /// Release `user`'s hold on the allocated region of `pages` pages at
    /// `paddr`; the last user to release it frees its pages.
    pub fn release_region(&mut self, user: RegionUser, paddr: PhysicalAddress, pages: PageCount)
        requires
            old(self).wf(),
            old(self).holds(user, paddr, pages),
        ensures
            final(self).wf(),
            old(self).release_post(user, paddr, *final(self)),
            final(self).free_pages() == old(self).free_pages() || final(self).free_pages()
                == old(self).free_pages().union(pages_range(paddr as int, pages as int)),
    {
        let ghost alloc = self.alloc_list();
        let ghost view = self.alloc_regions_view();
        let ghost w = choose|w: int|
            0 <= w < alloc.len() && (#[trigger] alloc[w]).0 == paddr && alloc[w].1 == pages && alloc[w].2.contains(user);
        proof {
            lemma_starts_unique(view);
            assert(view[w].start == paddr);
        }
        let mut i: usize = 0;
        while i < self.alloc_regions.len() && self.alloc_regions[i].start != paddr
            invariant
                self == old(self),
                alloc == self.alloc_list(),
                0 <= w < alloc.len(),
                alloc[w].0 == paddr,
                i <= w,
                forall|j: int| 0 <= j < i ==> self.alloc_regions@[j].start != paddr,
            decreases self.alloc_regions@.len() - i,
        {
            i = i + 1;
        }
        proof {
            assert(alloc[i as int].0 == paddr);
            assert(view[i as int].start == paddr);
            assert(i == w);
        }
        let n = self.alloc_regions[i].users.len();
        let mut new_users: Vec<RegionUser> = Vec::new();
        let mut k: usize = 0;
        while k < n
            invariant
                self == old(self),
                alloc == self.alloc_list(),
                i < self.alloc_regions@.len(),
                n == self.alloc_regions@[i as int].users@.len(),
                k <= n,
                new_users@ == without_user(self.alloc_regions@[i as int].users@.take(k as int), user),
            decreases n - k,
        {
            let u = self.alloc_regions[i].users[k];
            proof {
                let us = self.alloc_regions@[i as int].users@;
                assert(us.take(k + 1).drop_last() =~= us.take(k as int));
                assert(us.take(k + 1).last() == us[k as int]);
            }
            let keep = u != user;
            proof {
                let us = self.alloc_regions@[i as int].users@;
                assert(keep == (us[k as int] != user));
                reveal_with_fuel(Seq::filter, 2);
                assert(without_user(us.take(k + 1), user) == (if us[k as int] != user {
                    without_user(us.take(k as int), user).push(us[k as int])
                } else {
                    without_user(us.take(k as int), user)
                }));
            }
            if keep {
                new_users.push(u);
            }
            k = k + 1;
        }
        proof {
            let us = self.alloc_regions@[i as int].users@;
            assert(us.take(n as int) =~= us);
            assert(alloc[i as int].2 == us);
        }
        let a = self.alloc_regions.remove(i);
        if new_users.len() > 0 {
            self.alloc_regions.insert(i, AllocRegionState { start: a.start, length: a.length, users: new_users });
            proof {
                assert(self.alloc_list() =~= alloc.update(i as int, (a.start, a.length, new_users@)));
                assert(self.alloc_regions_view() =~= view);
                assert forall|j: int| 0 <= j < self.alloc_regions@.len() implies #[trigger] self.alloc_regions@[j].users@.len() > 0 by {
                    if j != i {
                        assert(self.alloc_regions@[j] == old(self).alloc_regions@[j]);
                    }
                }
            }
        } else {
            proof {
                assert(region_ok(view[i as int]));
                assert forall|x: int| region_pages(view[i as int]).contains(x) implies !covered(self.free_regions@).contains(x) by {
                    assert(region_has(view[i as int], x));
                    assert(old(self).alloc_pages().contains(x));
                }
                assert(region_pages(view[i as int]) == pages_range(a.start as int, a.length as int));
                lemma_total_pages_remove(view, i as int);
                lemma_covered_remove(view, i as int);
                lemma_list_ok_remove(view, i as int);
            }
            release_to_free_region_list(&mut self.free_regions, a.start, a.length);
            self.free_page_count = self.free_page_count + a.length;
            proof {
                assert(self.alloc_list() =~= alloc.remove(i as int));
                assert(self.alloc_regions_view() =~= view.remove(i as int));
                assert forall|j: int| 0 <= j < self.alloc_regions@.len() implies #[trigger] self.alloc_regions@[j].users@.len() > 0 by {
                    let j2 = if j < i { j } else { j + 1 };
                    assert(self.alloc_regions@[j] == old(self).alloc_regions@[j2]);
                }
                assert forall|x: int| covered(self.free_regions@).contains(x) implies !self.alloc_pages().contains(x) by {
                    if self.alloc_pages().contains(x) {
                        assert(old(self).alloc_pages().contains(x));
                        assert(!region_pages(view[i as int]).contains(x));
                    }
                }
            }
        }
        proof {
            assert forall|j: int|
                0 <= j < alloc.len() && (#[trigger] alloc[j]).0 == paddr implies j == i by {
                if j != i {
                    assert(view[j].start == paddr);
                }
            }
        }
    }
}

/// Taking pages from the end of the first free region removes exactly those
/// pages from the free addresses.
proof fn lemma_take_from_first(s: Seq<FreeRegion>, acq: usize, t: Seq<FreeRegion>)
    requires
        list_ok(s),
        s.len() > 0,
        0 < acq <= s[0].length,
        t == (if acq == s[0].length {
            s.drop_first()
        } else {
            s.update(0, FreeRegion { start: s[0].start, length: (s[0].length - acq) as usize })
        }),
    ensures
        covered(t) == covered(s).difference(pages_range(s[0].start + (s[0].length - acq) * PAGE_SIZE, acq as int)),
        pages_range(s[0].start + (s[0].length - acq) * PAGE_SIZE, acq as int).subset_of(covered(s)),
{
    let f = s[0];
    let st = f.start + (f.length - acq) * PAGE_SIZE;
    let range = pages_range(st, acq as int);
    assert(acq * PAGE_SIZE + (f.length - acq) * PAGE_SIZE == f.length * PAGE_SIZE) by (nonlinear_arith);
    lemma_covered_remove(s, 0);
    assert forall|x: int| range.contains(x) implies covered(s).contains(x) by {
        assert(region_has(s[0], x));
    }
    if acq == f.length {
        assert(s.remove(0) =~= s.drop_first());
        assert(range =~= region_pages(f));
    } else {
        let rest = FreeRegion { start: f.start, length: (f.length - acq) as usize };
        assert(t =~= seq![rest] + s.remove(0));
        lemma_covered_push_front(rest, s.remove(0));
        assert(covered(t) =~= covered(s).difference(range));
    }
}

/// Releasing a region that was just acquired, by the owner it was acquired
/// for, gives every page back: the free and allocated addresses, the
/// allocated regions and the free-page count are as they were before.
pub proof fn law_release_undoes_acquire(
    s0: RegionState,
    s1: RegionState,
    s2: RegionState,
    owner: RegionUser,
    pages: usize,
    start: usize,
    n: usize,
)
    requires
        s0.wf(),
        s1.wf(),
        s0.acquire_post(owner, pages, s1, Some((start, n))),
        s1.release_post(owner, start, s2),
    ensures
        s2.free_pages() == s0.free_pages(),
        s2.alloc_list() == s0.alloc_list(),
        s2.free_count() == s0.free_count(),
        s2.total() == s0.total(),
{
    let f = s0.free_list()[0];
    let acq: usize = if f.length < pages { f.length } else { pages };
    assert(region_ok(f));
    lemma_take_from_first(s0.free_list(), acq, s1.free_list());
    let a = s1.alloc_list()[0];
    assert(a == (start, n, seq![owner]));
    reveal_with_fuel(Seq::filter, 2);
    assert(seq![owner].drop_last() =~= Seq::<RegionUser>::empty());
    assert(without_user(seq![owner], owner) =~= Seq::<RegionUser>::empty());
    assert(s1.alloc_list().remove(0) =~= s0.alloc_list());
    assert(covered(s2.free_list()) =~= s0.free_pages());
}

/// Releasing one allocated region leaves every other hold in place.
pub proof fn lemma_release_keeps_other_holds(
    s: RegionState,
    after: RegionState,
    user: RegionUser,
    paddr: usize,
    pages: usize,
    other: RegionUser,
    other_paddr: usize,
    other_pages: usize,
)
    requires
        s.wf(),
        s.holds(user, paddr, pages),
        s.release_post(user, paddr, after),
        s.holds(other, other_paddr, other_pages),
        paddr != other_paddr,
    ensures
        after.holds(other, other_paddr, other_pages),
{
    let a = s.alloc_list();
    let i = choose|i: int| 0 <= i < a.len() && (#[trigger] a[i]).0 == paddr && a[i].1 == pages && a[i].2.contains(user);
    let j = choose|j: int|
        0 <= j < a.len() && (#[trigger] a[j]).0 == other_paddr && a[j].1 == other_pages && a[j].2.contains(other);
    assert(a[i].0 == paddr);
    let users = without_user(a[i].2, user);
    if users.len() > 0 {
        assert(after.alloc_list()[j] == a[j]);
    } else {
        let j2 = if j < i { j } else { j - 1 };
        assert(after.alloc_list()[j2] == a[j]);
    }
}

/// Allocated regions are non-empty and disjoint, so no two start at the
/// same address.
proof fn lemma_starts_unique(s: Seq<FreeRegion>)
    requires
        list_ok(s),
    ensures
        forall|i: int, j: int| 0 <= i < s.len() && 0 <= j < s.len() && i != j ==> (#[trigger] s[i]).start != (#[trigger] s[j]).start,
{
    assert forall|i: int, j: int| 0 <= i < s.len() && 0 <= j < s.len() && i != j implies (#[trigger] s[i]).start != (#[trigger] s[j]).start by {
        assert(region_ok(s[i]) && region_ok(s[j]));
        assert(region_has(s[i], s[i].start as int));
        if s[i].start == s[j].start {
            assert(region_has(s[j], s[i].start as int));
        }
    }
}

/// Every page is either free or allocated, never both, and the page counts
/// add up: the free pages and the allocated pages make the total.
pub proof fn law_pages_conserved(s: RegionState)
    requires
        s.wf(),
    ensures
        s.free_count() + total_pages(s.alloc_regions_view()) == s.total(),
        total_pages(s.free_list()) == s.free_count(),
        s.free_pages().disjoint(s.alloc_pages()),
{
}

/// Physical pages acquired for the kernel and the virtual address they are
/// to be mapped at.
#[derive(Debug, Clone, Copy, PartialEq, Eq, Structural)]
pub struct AcquiredMappedRegion {
    pub vaddr: VirtualAddress,
    pub paddr: PhysicalAddress,
    pub pages: PageCount,
}

/// The number of pages in a list of acquired regions.
pub open spec fn acquired_pages(s: Seq<AcquiredMappedRegion>) -> nat
    decreases s.len(),
{
    if s.len() == 0 {
        0
    } else {
        (acquired_pages(s.drop_last()) + s.last().pages) as nat
    }
}

/// The allocation records that acquiring `s` in order leaves, newest first.
pub open spec fn kernel_allocs(s: Seq<AcquiredMappedRegion>) -> Seq<(usize, usize, Seq<RegionUser>)>
    decreases s.len(),
{
    if s.len() == 0 {
        Seq::empty()
    } else {
        seq![(s.last().paddr, s.last().pages, seq![RegionUser::Kernel])] + kernel_allocs(s.drop_last())
    }
}

/// The physical addresses of a list of acquired regions.
pub open spec fn acquired_points(s: Seq<AcquiredMappedRegion>) -> Set<int> {
    Set::new(|x: int| exists|i: int| 0 <= i < s.len() && #[trigger] pages_range(s[i].paddr as int, s[i].pages as int).contains(x))
}

/// Each region follows the previous one in virtual memory, starting at
/// `vaddr`, and holds at least one page.
pub open spec fn acquired_in_order(s: Seq<AcquiredMappedRegion>, vaddr: int) -> bool {
    forall|k: int| 0 <= k < s.len() ==> (#[trigger] s[k]).vaddr == vaddr + acquired_pages(s.take(k)) * PAGE_SIZE
        && s[k].pages > 0
}

/// What `kernel_acquire_and_map(vaddr, pages)` does: regions acquired one
/// after the other, newest allocation records first, are handed on, until
/// `pages` pages are acquired or memory runs out.
pub open spec fn acquire_map_post(
    before: RegionState,
    vaddr: usize,
    pages: usize,
    out_before: Seq<AcquiredMappedRegion>,
    after: RegionState,
    out_after: Seq<AcquiredMappedRegion>,
    r: Result<(), PageCount>,
) -> bool {
    &&& after.wf()
    &&& after.total() == before.total()
    &&& exists|new: Seq<AcquiredMappedRegion>| {
        &&& out_after == out_before + new
        &&& #[trigger] acquired_in_order(new, vaddr as int)
        &&& after.alloc_list() == kernel_allocs(new) + before.alloc_list()
        &&& after.free_pages() == before.free_pages().difference(acquired_points(new))
        &&& acquired_points(new).subset_of(before.free_pages())
        &&& match r {
            Ok(()) => acquired_pages(new) == pages,
            Err(got) => got == acquired_pages(new) && got < pages && after.free_count() < pages - got,
        }
    }
}

/// Acquire `pages` physical pages for the kernel, in as many regions as it
/// takes, to be mapped one after the other from `vaddr`; each region is
/// handed to `push_region`. On running out of memory, the number of pages
/// acquired so far.
pub fn kernel_acquire_and_map(
    state: &mut RegionState,
    vaddr: VirtualAddress,
    pages: PageCount,
    push_region: &mut Vec<AcquiredMappedRegion>,
) -> (r: Result<(), PageCount>)
    requires
        old(state).wf(),
        vaddr + pages * PAGE_SIZE <= usize::MAX,
    ensures
        acquire_map_post(*old(state), vaddr, pages, old(push_region)@, *final(state), final(push_region)@, r),
        old(state).free_count() >= pages ==> r is Ok,
{
    let ghost old_out = push_region@;
    let ghost mut new: Seq<AcquiredMappedRegion> = Seq::empty();
    let mut cur_vaddr = vaddr;
    let mut cur_pages = pages;
    proof {
        assert(push_region@ =~= old_out + new);
        assert(acquired_points(new) =~= Set::<int>::empty());
        assert(state.free_pages() =~= old(state).free_pages().difference(acquired_points(new)));
        assert(kernel_allocs(new) + old(state).alloc_list() =~= old(state).alloc_list());
    }
    while cur_pages > 0
        invariant
            state.wf(),
            state.total() == old(state).total(),
            cur_pages <= pages,
            vaddr + pages * PAGE_SIZE <= usize::MAX,
            push_region@ == old_out + new,
            old_out == old(push_region)@,
            acquired_pages(new) == pages - cur_pages,
            cur_vaddr == vaddr + (pages - cur_pages) * PAGE_SIZE,
            acquired_in_order(new, vaddr as int),
            state.alloc_list() == kernel_allocs(new) + old(state).alloc_list(),
            state.free_pages() == old(state).free_pages().difference(acquired_points(new)),
            acquired_points(new).subset_of(old(state).free_pages()),
            old(state).free_count() >= pages ==> state.free_count() >= cur_pages,
        decreases cur_pages,
    {
        proof {
            law_pages_conserved(*state);
        }
        let got = state.acquire_region(RegionUser::Kernel, cur_pages);
        match got {
            None => {
                proof {
                    assert(state.free_count() < cur_pages || state.free_list().len() == 0);
                    if state.free_list().len() == 0 {
                        assert(total_pages(state.free_list()) == 0);
                    }
                }
                return Err(pages - cur_pages);
            },
            Some((got_paddr, got_pages)) => {
                let region = AcquiredMappedRegion { vaddr: cur_vaddr, paddr: got_paddr, pages: got_pages };
                push_region.push(region);
                proof {
                    let prev = new;
                    new = new.push(region);
                    assert(new.drop_last() =~= prev);
                    assert(push_region@ =~= old_out + new);
                    assert(got_pages <= cur_pages);
                    assert forall|k: int| 0 <= k < new.len() implies (#[trigger] new[k]).vaddr == vaddr
                        + acquired_pages(new.take(k)) * PAGE_SIZE && new[k].pages > 0 by {
                        if k < prev.len() {
                            assert(new.take(k) =~= prev.take(k));
                        } else {
                            assert(new.take(k) =~= prev);
                        }
                    }
                    assert(kernel_allocs(new) == seq![(got_paddr, got_pages, seq![RegionUser::Kernel])] + kernel_allocs(prev));
                    assert(state.alloc_list() =~= kernel_allocs(new) + old(state).alloc_list());
                    assert forall|x: int| acquired_points(new).contains(x) == (acquired_points(prev).contains(x)
                        || pages_range(got_paddr as int, got_pages as int).contains(x)) by {
                        if acquired_points(new).contains(x) {
                            let k = choose|k: int| 0 <= k < new.len() && #[trigger] pages_range(new[k].paddr as int, new[k].pages as int).contains(x);
                            if k < prev.len() {
                                assert(prev[k] == new[k]);
                            }
                        }
                        if acquired_points(prev).contains(x) {
                            let k = choose|k: int| 0 <= k < prev.len() && #[trigger] pages_range(prev[k].paddr as int, prev[k].pages as int).contains(x);
                            assert(new[k] == prev[k]);
                        }
                        if pages_range(got_paddr as int, got_pages as int).contains(x) {
                            assert(new[prev.len() as int] == region);
                        }
                    }
                    assert(state.free_pages() =~= old(state).free_pages().difference(acquired_points(new)));
                    assert((pages - cur_pages) * PAGE_SIZE + got_pages * PAGE_SIZE <= pages * PAGE_SIZE) by (nonlinear_arith)
                        requires
                            got_pages <= cur_pages,
                            cur_pages <= pages,
                    ;
                    assert((pages - cur_pages + got_pages) * PAGE_SIZE == (pages - cur_pages) * PAGE_SIZE + got_pages * PAGE_SIZE) by (nonlinear_arith);
                }
                cur_vaddr = cur_vaddr + got_pages * PAGE_SIZE;
                cur_pages = cur_pages - got_pages;
            },
        }
    }
    Ok(())
}

/// The region made of a usable range lies within it, give or take the last
/// page, and holds at least one page.
proof fn lemma_initial_region(range: Range<usize>)
    requires
        usable_range_ok(range),
    ensures
        match spec_initial_region(range) {
            Some(r) => range.start <= r.start && region_end(r.start as int, r.length as int)
                <= range.end + PAGE_SIZE && r.length > 0,
            None => true,
        },
{
    let addr = range.start as int;
    let len = range.end - range.start;
    let rem = addr % (PAGE_SIZE as int);
    let pages = (len - rem) / PAGE_SIZE as int;
    assert(pages * PAGE_SIZE <= len - rem) by (nonlinear_arith)
        requires
            pages == (len - rem) / PAGE_SIZE as int,
            len - rem >= 0,
    ;
    assert(pages >= 0) by (nonlinear_arith)
        requires
            pages == (len - rem) / PAGE_SIZE as int,
            len - rem >= 0,
    ;
    let base = if rem != 0 { addr + PAGE_SIZE - rem } else { addr };
    if base < SAFE_BOUNDARY {
        let diff = (SAFE_BOUNDARY - base) / PAGE_SIZE as int;
        assert(diff >= 0 && diff * PAGE_SIZE <= SAFE_BOUNDARY - base) by (nonlinear_arith)
            requires
                diff == (SAFE_BOUNDARY - base) / PAGE_SIZE as int,
                base < SAFE_BOUNDARY,
        ;
        assert(base + diff * PAGE_SIZE + (pages - diff) * PAGE_SIZE == base + pages * PAGE_SIZE) by (nonlinear_arith);
    }
}

/// The free list of a longer prefix holds at least as many pages.
proof fn lemma_initial_list_prefix(ranges: Seq<Range<usize>>, n: int)
    requires
        0 <= n <= ranges.len(),
    ensures
        total_pages(spec_initial_list(ranges.take(n))) <= total_pages(spec_initial_list(ranges)),
    decreases ranges.len() - n,
{
    if n < ranges.len() {
        lemma_initial_list_prefix(ranges, n + 1);
        let t = ranges.take(n + 1);
        assert(t.drop_last() =~= ranges.take(n));
        match spec_initial_region(t.last()) {
            Some(r) => {
                lemma_total_pages_push_front(r, spec_initial_list(ranges.take(n)));
            },
            None => {},
        }
    } else {
        assert(ranges.take(n) =~= ranges);
    }
}

} // verus!
