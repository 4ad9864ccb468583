//! Pools of equally sized objects, carved out of regions of whole pages.
//!
//! Each region ends with its bookkeeping: a header and a bitmap of the
//! objects in use. A pool keeps every region it was given, and a stack of
//! the regions that may still have room.

pub mod bitmap;

use vstd::prelude::*;

use crate::memory::align_addr;
use crate::memory::phys::{PageCount, VirtualAddress};
use crate::paging::PAGE_SIZE;
use crate::util::spec_align_up;

use bitmap::{byte_size, spec_byte_size, FreeBitmap};

verus! {

/// The size of a region's header.
pub const REGION_INFO_SIZE: usize = 24;

/// The alignment of a region's header.
pub const REGION_INFO_ALIGN: usize = 8;

#[derive(Debug, Clone, Copy, PartialEq, Eq, Structural)]
pub enum Error {
    NoFreeSpace,
    AddressNotAllocated(VirtualAddress),
    RegionInUse(VirtualAddress),
    RegionNotEmpty(VirtualAddress),
    RegionNotFound(VirtualAddress),
}

/// The object size and region length of a pool.
#[derive(Debug, Clone, Copy)]
pub struct PoolConfig {
    pub object_size: usize,
    pub region_pages: PageCount,
}

/// The objects a region could hold if not for the bitmap.
pub open spec fn spec_ideal_capacity(c: PoolConfig) -> int {
    (c.region_pages * PAGE_SIZE - spec_align_up(REGION_INFO_SIZE as int, REGION_INFO_ALIGN as int)) / c.object_size as int
}

/// The bytes of a region's bookkeeping: header and bitmap, aligned.
pub open spec fn spec_info_size(c: PoolConfig) -> int {
    spec_align_up(REGION_INFO_SIZE + spec_byte_size(spec_ideal_capacity(c)), REGION_INFO_ALIGN as int)
}

/// Where a region's bookkeeping starts.
pub open spec fn spec_info_offset(c: PoolConfig) -> int {
    c.region_pages * PAGE_SIZE - spec_info_size(c)
}

/// The objects a region holds.
pub open spec fn spec_capacity(c: PoolConfig) -> int {
    spec_info_offset(c) / c.object_size as int
}

/// The configuration can be computed with: objects and regions are
/// non-empty and a region's bytes are addressable.
pub open spec fn config_ok(c: PoolConfig) -> bool {
    &&& c.object_size > 0
    &&& c.region_pages > 0
    &&& c.region_pages * PAGE_SIZE <= usize::MAX / 2
}

pub(crate) proof fn lemma_config_bounds(c: PoolConfig)
    requires
        config_ok(c),
    ensures
        0 <= spec_ideal_capacity(c) <= c.region_pages * PAGE_SIZE,
        REGION_INFO_SIZE <= spec_info_size(c) <= REGION_INFO_SIZE + spec_ideal_capacity(c) / 8 + 1 + REGION_INFO_ALIGN,
        spec_info_size(c) < c.region_pages * PAGE_SIZE,
        0 <= spec_capacity(c) <= spec_info_offset(c),
{
    let total = c.region_pages * PAGE_SIZE;
    assert(total >= PAGE_SIZE) by (nonlinear_arith)
        requires
            c.region_pages > 0,
            total == c.region_pages * PAGE_SIZE,
    ;
    assert(spec_align_up(REGION_INFO_SIZE as int, REGION_INFO_ALIGN as int) == 24);
    let ideal = spec_ideal_capacity(c);
    assert(0 <= ideal <= total - 24) by (nonlinear_arith)
        requires
            ideal == (total - 24) / c.object_size as int,
            c.object_size > 0,
            total >= 24,
    ;
    let info = REGION_INFO_SIZE + spec_byte_size(ideal);
    assert(spec_align_up(info, 8) <= info + 7);
    assert(spec_align_up(info, 8) >= info);
    let off = spec_info_offset(c);
    assert(0 <= spec_capacity(c) <= off) by (nonlinear_arith)
        requires
            spec_capacity(c) == off / c.object_size as int,
            c.object_size > 0,
            off >= 0,
    ;
}

impl PoolConfig {
    /// The number of objects a region could hold if not for the bitmap.
    pub fn ideal_object_capacity(self) -> (r: usize)
        requires
            config_ok(self),
        ensures
            r == spec_ideal_capacity(self),
    {
        proof {
            lemma_config_bounds(self);
        }
        let available_bytes = self.region_pages * PAGE_SIZE - align_addr(REGION_INFO_SIZE, REGION_INFO_ALIGN);
        available_bytes / self.object_size
    }

    /// The number of objects a region can hold.
    pub fn object_capacity(self) -> (r: usize)
        requires
            config_ok(self),
        ensures
            r == spec_capacity(self),
    {
        let available_bytes = self.region_info_offset();
        available_bytes / self.object_size
    }

    /// The size of the region bookkeeping, including bitmap and alignment.
    pub fn region_info_size(self) -> (r: usize)
        requires
            config_ok(self),
        ensures
            r == spec_info_size(self),
    {
        proof {
            lemma_config_bounds(self);
        }
        let info_size = REGION_INFO_SIZE + byte_size(self.ideal_object_capacity());
        align_addr(info_size, REGION_INFO_ALIGN)
    }

    /// The offset from the start of a region to its bookkeeping.
    pub fn region_info_offset(self) -> (r: usize)
        requires
            config_ok(self),
        ensures
            r == spec_info_offset(self),
    {
        proof {
            lemma_config_bounds(self);
        }
        self.region_pages * PAGE_SIZE - self.region_info_size()
    }
}

/// A region of a pool: where it starts and which of its objects are in use.
#[derive(Debug)]
pub struct PoolRegion {
    pub base: VirtualAddress,
    pub bitmap: FreeBitmap,
}

/// What a region's bookkeeping shows, for debugging.
#[derive(Debug)]
pub struct RegionInfoDebug {
    pub base: VirtualAddress,
    pub bitmap: FreeBitmap,
}

/// May provide information about a region that may be empty.
#[derive(Debug, Clone)]
pub struct Deallocated {
    maybe_empty: Option<usize>,
}

impl Deallocated {
    /// The base of a region that may have become empty.
    pub closed spec fn spec_maybe_empty(&self) -> Option<usize> {
        self.maybe_empty
    }

    pub fn maybe_empty(&self) -> (r: Option<usize>)
        ensures
            r == self.spec_maybe_empty(),
    {
        self.maybe_empty
    }
}

/// `n` wrapped around to a machine word, for `n` below twice its range.
pub open spec fn wrapped(n: int) -> int {
    if n > usize::MAX {
        n - (usize::MAX + 1)
    } else {
        n
    }
}

/// A region's objects are addressable and its bitmap covers them.
pub open spec fn pool_region_ok(c: PoolConfig, r: PoolRegion) -> bool {
    &&& r.bitmap.wf()
    &&& r.bitmap.bits() == spec_capacity(c)
    &&& bitmap::padded(r.bitmap.bytes(), r.bitmap.bits() as int)
    &&& r.base > 0
    &&& r.base + c.region_pages * PAGE_SIZE + 8 * c.object_size <= usize::MAX
}

/// Every byte of the bitmap is full.
pub open spec fn bitmap_full(b: FreeBitmap) -> bool {
    full_bytes(b.bytes())
}

/// Every byte is full.
pub open spec fn full_bytes(s: Seq<u8>) -> bool {
    forall|k: int| 0 <= k < s.len() ==> #[trigger] s[k] == 0xFF
}

/// A pool of objects of one size.
#[derive(Debug)]
pub struct Pool {
    config: PoolConfig,
    objects_used: usize,
    objects_capacity: usize,
    free_stack: Vec<VirtualAddress>,
    all_stack: Vec<PoolRegion>,
}

impl Pool {
    pub closed spec fn cfg(&self) -> PoolConfig {
        self.config
    }

    pub closed spec fn used(&self) -> usize {
        self.objects_used
    }

    pub closed spec fn capacity(&self) -> usize {
        self.objects_capacity
    }

    /// The bases of the regions that may have room, top first.
    pub closed spec fn free_stack(&self) -> Seq<VirtualAddress> {
        self.free_stack@
    }

    /// Every region, newest first.
    pub closed spec fn regions(&self) -> Seq<PoolRegion> {
        self.all_stack@
    }

    /// Each region's base, object count and bitmap bytes, newest first.
    pub open spec fn regions_view(&self) -> Seq<(usize, usize, Seq<u8>)> {
        self.regions().map_values(|r: PoolRegion| (r.base, r.bitmap.bits(), r.bitmap.bytes()))
    }

    /// The index of the region based at `base`.
    pub open spec fn region_at(&self, base: VirtualAddress, i: int) -> bool {
        0 <= i < self.regions_view().len() && (#[trigger] self.regions_view()[i]).0 == base
    }

    /// Some region is based at `base`.
    pub open spec fn has_region(&self, base: VirtualAddress) -> bool {
        exists|i: int| #[trigger] self.region_at(base, i)
    }

    pub closed spec fn wf(&self) -> bool {
        &&& config_ok(self.config)
        &&& spec_info_offset(self.config) > 0
        &&& forall|i: int| 0 <= i < self.all_stack@.len() ==> pool_region_ok(self.config, #[trigger] self.all_stack@[i])
        &&& forall|i: int, j: int|
            0 <= i < self.all_stack@.len() && 0 <= j < self.all_stack@.len() && i != j
                ==> (#[trigger] self.all_stack@[i]).base != (#[trigger] self.all_stack@[j]).base
        &&& forall|k: int| 0 <= k < self.free_stack@.len() ==> self.has_region(#[trigger] self.free_stack@[k])
    }

    /// Create a new, empty pool: regions must be added before any object
    /// can be allocated.
    pub fn new(object_size: usize, region_pages: PageCount) -> (r: Pool)
        requires
            config_ok(PoolConfig { object_size, region_pages }),
            spec_info_offset(PoolConfig { object_size, region_pages }) > 0,
        ensures
            r.wf(),
            r.cfg() == (PoolConfig { object_size, region_pages }),
            r.used() == 0,
            r.capacity() == 0,
            r.regions().len() == 0,
            r.free_stack().len() == 0,
    {
        let config = PoolConfig { object_size, region_pages };
        Pool { config, objects_used: 0, objects_capacity: 0, free_stack: Vec::new(), all_stack: Vec::new() }
    }

    pub fn object_size(&self) -> (r: usize)
        ensures
            r == self.cfg().object_size,
    {
        self.config.object_size
    }

    pub fn region_pages(&self) -> (r: PageCount)
        ensures
            r == self.cfg().region_pages,
    {
        self.config.region_pages
    }

    pub fn objects_used(&self) -> (r: usize)
        ensures
            r == self.used(),
    {
        self.objects_used
    }

    pub fn objects_capacity(&self) -> (r: usize)
        ensures
            r == self.capacity(),
    {
        self.objects_capacity
    }

    /// Every region on the free stack above position `j` is full.
    pub open spec fn full_above(&self, j: int) -> bool {
        forall|k: int, i: int|
            0 <= k < j && #[trigger] self.region_at(self.free_stack()[k], i) ==> full_bytes(self.regions_view()[i].2)
    }

    /// `after` is this pool after taking object `idx` of region `i`, which
    /// is position `j` of the free stack, at address `addr`.
    pub open spec fn allocated_from(&self, after: Pool, addr: usize, j: int, i: int, idx: int) -> bool {
        let b = self.regions_view()[i].2;
        let bytes = b.update(idx / 8, b[idx / 8] | (1u8 << (idx % 8) as u8));
        &&& 0 <= j < self.free_stack().len()
        &&& self.region_at(self.free_stack()[j], i)
        &&& self.full_above(j)
        &&& !full_bytes(b)
        &&& 0 <= idx < self.regions_view()[i].1
        &&& forall|k: int| 0 <= k < idx / 8 ==> #[trigger] b[k] == 0xFF
        &&& idx / 8 < b.len()
        &&& !bitmap::used(b, idx)
        &&& forall|c: int| 0 <= c < idx % 8 ==> #[trigger] bitmap::bit_set(b[idx / 8], c)
        &&& addr == self.free_stack()[j] + idx * self.cfg().object_size
        &&& after.regions_view() == self.regions_view().update(i, (self.free_stack()[j], self.regions_view()[i].1, bytes))
        &&& after.free_stack() == (if full_bytes(bytes) {
            self.free_stack().skip(j + 1)
        } else {
            seq![self.free_stack()[j]] + self.free_stack().skip(j + 1)
        })
        &&& after.used() == wrapped(self.used() + 1)
    }

    /// Take a free object: the first free object of the first region on the
    /// free stack that has one. Full regions met on the way leave the stack;
    /// the region used stays on it unless it is now full.
    #[verifier::spinoff_prover]
    pub fn allocate(&mut self) -> (r: Result<VirtualAddress, Error>)
        requires
            old(self).wf(),
        ensures
            final(self).wf(),
            final(self).cfg() == old(self).cfg(),
            final(self).capacity() == old(self).capacity(),
            r is Err ==> {
                &&& r == Err::<VirtualAddress, Error>(Error::NoFreeSpace)
                &&& old(self).full_above(old(self).free_stack().len() as int)
                &&& final(self).free_stack().len() == 0
                &&& final(self).regions_view() == old(self).regions_view()
                &&& final(self).used() == old(self).used()
            },
            forall|addr: usize| r == Ok::<VirtualAddress, Error>(addr) ==> exists|j: int, i: int, idx: int|
                #[trigger] old(self).allocated_from(*final(self), addr, j, i, idx),
    {
        let ghost j: int = 0;
        while self.free_stack.len() > 0
            invariant
                self.wf(),
                self.config == old(self).config,
                self.objects_capacity == old(self).objects_capacity,
                self.objects_used == old(self).objects_used,
                self.regions_view() == old(self).regions_view(),
                0 <= j <= old(self).free_stack().len(),
                self.free_stack@ == old(self).free_stack().skip(j),
                old(self).full_above(j),
            decreases self.free_stack@.len(),
        {
            let ghost fs = self.free_stack@;
            let ghost pre = *self;
            proof {
                assert(pre.has_region(fs[0]));
            }
            let base = self.free_stack.remove(0);
            proof {
                assert(self.all_stack@ == pre.all_stack@);
                let m0 = choose|m: int| #[trigger] pre.region_at(fs[0], m);
                assert(self.region_at(base, m0));
                assert forall|k: int| 0 <= k < self.free_stack@.len() implies self.has_region(#[trigger] self.free_stack@[k]) by {
                    assert(self.free_stack@[k] == fs[k + 1]);
                    assert(pre.has_region(pre.free_stack@[k + 1]));
                    let m = choose|m: int| #[trigger] pre.region_at(fs[k + 1], m);
                    assert(self.region_at(fs[k + 1], m));
                }
            }
            let ghost before = *self;
            let ghost i0 = choose|i: int| #[trigger] self.region_at(base, i);
            let mut ri: usize = 0;
            while ri < self.all_stack.len() && self.all_stack[ri].base != base
                invariant
                    self.wf(),
                    self.region_at(base, i0),
                    ri <= i0,
                    forall|m: int| 0 <= m < ri ==> self.all_stack@[m].base != base,
                decreases self.all_stack@.len() - ri,
            {
                ri = ri + 1;
            }
            proof {
                assert(ri == i0);
                assert(pool_region_ok(self.config, self.all_stack@[ri as int]));
                assert(old(self).regions_view()[ri as int] == self.regions_view()[ri as int]);
            }
            let ghost before_all = self.all_stack@;
            let ghost before_free = self.free_stack@;
            let mut reg = self.all_stack.remove(ri);
            let got = reg.bitmap.acquire_bit();
            let full = reg.bitmap.is_full();
            let ghost reg_after = reg;
            self.all_stack.insert(ri, reg);
            proof {
                assert(self.all_stack@ =~= before_all.update(ri as int, reg_after));
                assert forall|a: int, b: int|
                    0 <= a < self.all_stack@.len() && 0 <= b < self.all_stack@.len() && a != b
                        implies (#[trigger] self.all_stack@[a]).base != (#[trigger] self.all_stack@[b]).base by {
                    assert(before_all[a].base == self.all_stack@[a].base);
                    assert(before_all[b].base == self.all_stack@[b].base);
                }
                assert forall|a: int| 0 <= a < self.all_stack@.len() implies pool_region_ok(self.config, #[trigger] self.all_stack@[a]) by {
                    assert(pool_region_ok(self.config, before_all[a]));
                }
                assert forall|a: int| self.region_at(base, a) <==> a == ri by {
                    if self.region_at(base, a) && a != ri {
                        assert(before_all[a].base == base);
                    }
                }
            }
            match got {
                Some(idx) => {
                    let ghost b = before_all[ri as int].bitmap;
                    proof {
                        let c = self.config;
                        lemma_config_bounds(c);
                        assert(idx < 8 * b.bytes().len());
                        assert(8 * b.bytes().len() <= spec_capacity(c) + 8) by (nonlinear_arith)
                            requires
                                b.bytes().len() == spec_byte_size(spec_capacity(c)),
                                spec_capacity(c) >= 0,
                        ;
                        assert(idx * c.object_size <= (spec_capacity(c) + 8) * c.object_size) by (nonlinear_arith)
                            requires
                                idx <= spec_capacity(c) + 8,
                                c.object_size > 0,
                        ;
                        assert(spec_capacity(c) * c.object_size <= spec_info_offset(c)) by (nonlinear_arith)
                            requires
                                spec_capacity(c) == spec_info_offset(c) / c.object_size as int,
                                c.object_size > 0,
                                spec_info_offset(c) >= 0,
                        ;
                        assert((spec_capacity(c) + 8) * c.object_size == spec_capacity(c) * c.object_size + 8 * c.object_size) by (nonlinear_arith);
                    }
                    let addr = base + idx * self.config.object_size;
                    if !full {
                        self.free_stack.insert(0, base);
                    }
                    let ghost u0 = self.objects_used;
                    assert(u0 == old(self).used());
                    self.objects_used = self.objects_used.wrapping_add(1);
                    assert(self.used() == (old(self).used() + 1) % (usize::MAX + 1)) by {
                        if u0 == usize::MAX {
                            assert(self.objects_used == 0);
                            vstd::arithmetic::div_mod::lemma_mod_self_0(usize::MAX + 1);
                        } else {
                            assert(self.objects_used == u0 + 1);
                            vstd::arithmetic::div_mod::lemma_small_mod((u0 + 1) as nat, (usize::MAX + 1) as nat);
                        }
                    }
                    proof {
                        assert forall|k: int| 0 <= k < self.free_stack@.len() implies self.has_region(#[trigger] self.free_stack@[k]) by {
                            if !full && k == 0 {
                                assert(self.region_at(base, ri as int));
                            } else {
                                let k2 = if full { k } else { k - 1 };
                                assert(self.free_stack@[k] == before_free[k2]);
                                assert(before.has_region(before.free_stack@[k2]));
                                let m = choose|m: int| #[trigger] before.region_at(before_free[k2], m);
                                assert(before_all[m].base == self.all_stack@[m].base);
                                assert(self.region_at(self.free_stack@[k], m));
                            }
                        }
                        assert(old(self).free_stack()[j] == base);
                        assert(before.regions_view() == old(self).regions_view());
                        assert(before.regions_view()[ri as int].0 == base);
                        assert(old(self).regions_view()[ri as int].0 == base);
                        assert(old(self).region_at(base, ri as int));
                        assert(self.regions_view() =~= old(self).regions_view().update(ri as int, (base, b.bits(), reg_after.bitmap.bytes())));
                        assert(old(self).free_stack().skip(j).skip(1) =~= old(self).free_stack().skip(j + 1));
                        assert(self.free_stack@ =~= (if full {
                            old(self).free_stack().skip(j + 1)
                        } else {
                            seq![old(self).free_stack()[j]] + old(self).free_stack().skip(j + 1)
                        }));
                        assert(old(self).regions_view()[ri as int].2 == b.bytes());
                        let sh = (idx % 8) as u8;
                        assert((0xFFu8 >> sh) & 1u8 == 1u8) by (bit_vector)
                            requires
                                sh < 8,
                        ;
                        assert(b.bytes()[idx as int / 8] != 0xFF);
                        assert(!full_bytes(b.bytes()));
                        let bb = b.bytes();
                        let nb = bb.update(idx as int / 8, bb[idx as int / 8] | (1u8 << (idx % 8) as u8));
                        assert(0 <= j < old(self).free_stack().len());
                        assert(old(self).region_at(old(self).free_stack()[j], ri as int));
                        assert(old(self).full_above(j));
                        assert(forall|k: int| 0 <= k < idx / 8 ==> #[trigger] bb[k] == 0xFF);
                        assert(idx / 8 < bb.len());
                        assert(!bitmap::used(bb, idx as int));
                        assert(base + idx * self.config.object_size == old(self).free_stack()[j] + idx * old(self).cfg().object_size);
                        assert(self.regions_view() == old(self).regions_view().update(ri as int, (old(self).free_stack()[j], old(self).regions_view()[ri as int].1, nb)));
                        assert(full_bytes(nb) == full);
                        assert(self.used() == (old(self).used() + 1) % (usize::MAX + 1));
                        assert(old(self).allocated_from(*self, addr, j, ri as int, idx as int));
                        assert(exists|j2: int, i2: int, idx2: int| #[trigger] old(self).allocated_from(*self, addr, j2, i2, idx2));
                    }
                    return Ok(addr);
                },
                None => {
                    proof {
                        assert(self.regions_view() =~= old(self).regions_view());
                        assert(old(self).free_stack()[j] == base);
                        assert forall|k: int, i: int|
                            0 <= k < j + 1 && #[trigger] old(self).region_at(old(self).free_stack()[k], i)
                                implies full_bytes(old(self).regions_view()[i].2) by {
                            if k == j {
                                assert(old(self).regions_view()[i].0 == base);
                                assert(self.region_at(base, i));
                                assert(i == ri);
                            }
                        }
                        assert forall|k: int| 0 <= k < self.free_stack@.len() implies self.has_region(#[trigger] self.free_stack@[k]) by {
                            assert(self.free_stack@[k] == before_free[k]);
                            assert(before.has_region(before.free_stack@[k]));
                            let m = choose|m: int| #[trigger] before.region_at(before_free[k], m);
                            assert(before_all[m].base == self.all_stack@[m].base);
                            assert(self.region_at(self.free_stack@[k], m));
                        }
                        assert(old(self).free_stack().skip(j).skip(1) =~= old(self).free_stack().skip(j + 1));
                        j = j + 1;
                    }
                },
            }
        }
        proof {
            assert(j == old(self).free_stack().len());
        }
        Err(Error::NoFreeSpace)
    }

    /// Make the region at `addr` available to the pool, with every object
    /// free.
    pub fn insert_region(&mut self, addr: usize) -> (r: Result<(), Error>)
        requires
            old(self).wf(),
            addr > 0,
            addr + old(self).cfg().region_pages * PAGE_SIZE + 8 * old(self).cfg().object_size <= usize::MAX,
            forall|i: int| 0 <= i < old(self).regions().len() ==> (#[trigger] old(self).regions()[i]).base != addr,
        ensures
            final(self).wf(),
            r is Ok,
            final(self).cfg() == old(self).cfg(),
            final(self).used() == old(self).used(),
            final(self).capacity() == wrapped(old(self).capacity() + spec_capacity(old(self).cfg())),
            final(self).free_stack() == seq![addr] + old(self).free_stack(),
            final(self).regions().len() == old(self).regions().len() + 1,
            final(self).regions()[0].base == addr,
            final(self).regions()[0].bitmap.bits() == spec_capacity(old(self).cfg()),
            final(self).regions()[0].bitmap.bytes() == Seq::new(
                spec_byte_size(spec_capacity(old(self).cfg())) as nat,
                |i: int| bitmap::cleared_byte(spec_capacity(old(self).cfg()) as usize, i),
            ),
            final(self).regions().drop_first() == old(self).regions(),
    {
        proof {
            lemma_config_bounds(self.config);
        }
        let cap = self.config.object_capacity();
        let n = byte_size(cap);
        let mut bytes: Vec<u8> = Vec::new();
        let mut i: usize = 0;
        while i < n
            invariant
                i <= n,
                bytes@.len() == i,
            decreases n - i,
        {
            bytes.push(0);
            i = i + 1;
        }
        proof {
            assert(cap + 8 <= usize::MAX);
        }
        let mut bitmap = FreeBitmap::new(cap, bytes);
        bitmap.clear();
        let ghost old_all = self.all_stack@;
        let ghost old_free = self.free_stack@;
        self.all_stack.insert(0, PoolRegion { base: addr, bitmap });
        self.free_stack.insert(0, addr);
        self.objects_capacity = self.objects_capacity.wrapping_add(cap);
        proof {
            assert(self.all_stack@.drop_first() =~= old_all);
            assert forall|k: int| 0 <= k < self.free_stack@.len() implies self.has_region(#[trigger] self.free_stack@[k]) by {
                if k == 0 {
                    assert(self.region_at(addr, 0));
                } else {
                    assert(self.free_stack@[k] == old_free[k - 1]);
                    let i = choose|i: int| #[trigger] old(self).region_at(old_free[k - 1], i);
                    assert(self.all_stack@[i + 1] == old_all[i]);
                    assert(self.region_at(self.free_stack@[k], i + 1));
                }
            }
            assert forall|i: int, j: int|
                0 <= i < self.all_stack@.len() && 0 <= j < self.all_stack@.len() && i != j
                    implies (#[trigger] self.all_stack@[i]).base != (#[trigger] self.all_stack@[j]).base by {
                if i > 0 && j > 0 {
                    assert(self.all_stack@[i] == old_all[i - 1]);
                    assert(self.all_stack@[j] == old_all[j - 1]);
                } else if i == 0 {
                    assert(self.all_stack@[j] == old_all[j - 1]);
                    assert(old(self).regions()[j - 1].base != addr);
                } else {
                    assert(self.all_stack@[i] == old_all[i - 1]);
                    assert(old(self).regions()[i - 1].base != addr);
                }
            }
            assert forall|i: int| 0 <= i < self.all_stack@.len() implies pool_region_ok(self.config, #[trigger] self.all_stack@[i]) by {
                if i > 0 {
                    assert(self.all_stack@[i] == old_all[i - 1]);
                }
            }
        }
        Ok(())
    }
}

/// `n` wrapped around to a machine word, for `n` down to minus its range.
pub open spec fn wrapped_below(n: int) -> int {
    if n < 0 {
        n + usize::MAX + 1
    } else {
        n
    }
}

/// Every object of a region with `bits` objects and bitmap `bytes` is free.
pub open spec fn region_empty(bits: usize, bytes: Seq<u8>) -> bool {
    forall|k: int| 0 <= k < bytes.len() ==> #[trigger] bytes[k] == bitmap::cleared_byte(bits, k)
}

/// The stack `s` with every entry `a` taken out.
pub open spec fn without(s: Seq<VirtualAddress>, a: VirtualAddress) -> Seq<VirtualAddress>
    decreases s.len(),
{
    if s.len() == 0 {
        s
    } else if s.last() == a {
        without(s.drop_last(), a)
    } else {
        without(s.drop_last(), a).push(s.last())
    }
}

/// `s` without its entries `a`, and whether it held any.
fn take_out(s: &Vec<VirtualAddress>, a: VirtualAddress) -> (r: (Vec<VirtualAddress>, bool))
    ensures
        r.0@ == without(s@, a),
        r.1 == s@.contains(a),
        forall|k: int| 0 <= k < r.0@.len() ==> #[trigger] r.0@[k] != a && s@.contains(r.0@[k]),
{
    let mut out: Vec<VirtualAddress> = Vec::new();
    let mut found = false;
    let mut i: usize = 0;
    while i < s.len()
        invariant
            i <= s@.len(),
            out@ == without(s@.take(i as int), a),
            found == s@.take(i as int).contains(a),
            forall|k: int| 0 <= k < out@.len() ==> #[trigger] out@[k] != a && s@.contains(out@[k]),
        decreases s@.len() - i,
    {
        let x = s[i];
        proof {
            assert(s@.take(i + 1).drop_last() =~= s@.take(i as int));
            assert(s@.take(i + 1).last() == x);
            assert(s@.take(i + 1).contains(a) == (s@.take(i as int).contains(a) || x == a)) by {
                if s@.take(i + 1).contains(a) {
                    let k = choose|k: int| 0 <= k < i + 1 && #[trigger] s@.take(i + 1)[k] == a;
                    if k < i {
                        assert(s@.take(i as int)[k] == a);
                    }
                }
                if s@.take(i as int).contains(a) {
                    let k = choose|k: int| 0 <= k < i && #[trigger] s@.take(i as int)[k] == a;
                    assert(s@.take(i + 1)[k] == a);
                }
                if x == a {
                    assert(s@.take(i + 1)[i as int] == a);
                }
            }
            assert(s@[i as int] == x);
        }
        if x == a {
            found = true;
        } else {
            out.push(x);
        }
        i = i + 1;
    }
    proof {
        assert(s@.take(s@.len() as int) =~= s@);
    }
    (out, found)
}

impl Pool {
    /// Take the region at `addr` out of the pool. A region the pool does not
    /// have is refused as in use; one with an object in use is refused as not
    /// empty and moves to the top of both stacks (the free one only if it
    /// was there); an empty one leaves both stacks and takes its objects off
    /// the capacity.
    pub fn remove_region(&mut self, addr: usize) -> (r: Result<(), Error>)
        requires
            old(self).wf(),
        ensures
            final(self).wf(),
            final(self).cfg() == old(self).cfg(),
            final(self).used() == old(self).used(),
            !old(self).has_region(addr) ==> {
                &&& r == Err::<(), Error>(Error::RegionInUse(addr))
                &&& final(self).regions() == old(self).regions()
                &&& final(self).free_stack() == old(self).free_stack()
                &&& final(self).capacity() == old(self).capacity()
            },
            forall|i: int| #[trigger] old(self).region_at(addr, i) ==> {
                let reg = old(self).regions()[i];
                let free = without(old(self).free_stack(), addr);
                if region_empty(old(self).regions_view()[i].1, old(self).regions_view()[i].2) {
                    &&& r == Ok::<(), Error>(())
                    &&& final(self).regions() == old(self).regions().remove(i)
                    &&& final(self).free_stack() == free
                    &&& final(self).capacity() == wrapped_below(old(self).capacity() - spec_capacity(old(self).cfg()))
                } else {
                    &&& r == Err::<(), Error>(Error::RegionNotEmpty(addr))
                    &&& final(self).regions() == seq![reg] + old(self).regions().remove(i)
                    &&& final(self).free_stack() == if old(self).free_stack().contains(addr) {
                        seq![addr] + free
                    } else {
                        free
                    }
                    &&& final(self).capacity() == old(self).capacity()
                }
            },
    {
        let mut ri: usize = 0;
        while ri < self.all_stack.len() && self.all_stack[ri].base != addr
            invariant
                self.wf(),
                *self == *old(self),
                ri <= self.all_stack@.len(),
                forall|m: int| 0 <= m < ri ==> self.all_stack@[m].base != addr,
            decreases self.all_stack@.len() - ri,
        {
            ri = ri + 1;
        }
        if ri == self.all_stack.len() {
            proof {
                if self.has_region(addr) {
                    let m = choose|m: int| #[trigger] self.region_at(addr, m);
                    assert(self.all_stack@[m].base == addr);
                }
            }
            return Err(Error::RegionInUse(addr));
        }
        let ghost i0 = ri as int;
        let ghost old_all = self.all_stack@;
        let ghost old_free = self.free_stack@;
        proof {
            assert(self.region_at(addr, i0));
            assert forall|i: int| #[trigger] old(self).region_at(addr, i) implies i == i0 by {
                if i != i0 {
                    assert(old_all[i].base == old_all[i0].base);
                }
            }
            lemma_config_bounds(self.config);
            assert(pool_region_ok(self.config, old_all[i0]));
        }
        let empty = self.all_stack[ri].bitmap.is_empty();
        let (rest, was_free) = take_out(&self.free_stack, addr);
        let region = self.all_stack.remove(ri);
        let ghost removed_all = self.all_stack@;
        proof {
            assert(removed_all =~= old_all.remove(i0));
        }
        if empty {
            self.free_stack = rest;
            let cap = self.config.object_capacity();
            let c = self.objects_capacity;
            if c >= cap {
                self.objects_capacity = c - cap;
            } else {
                self.objects_capacity = (usize::MAX - (cap - c)) + 1;
            }
            proof {
                self.lemma_wf_after_taking_out(*old(self), addr, i0);
            }
            Ok(())
        } else {
            self.all_stack.insert(0, region);
            if was_free {
                let mut fs = rest;
                fs.insert(0, addr);
                self.free_stack = fs;
            } else {
                self.free_stack = rest;
            }
            proof {
                assert(self.all_stack@ =~= seq![old_all[i0]] + old_all.remove(i0));
                self.lemma_wf_after_moving_up(*old(self), addr, i0);
            }
            Err(Error::RegionNotEmpty(addr))
        }
    }

    proof fn lemma_wf_after_taking_out(&self, before: Pool, addr: usize, i0: int)
        requires
            before.wf(),
            before.region_at(addr, i0),
            self.config == before.config,
            self.all_stack@ == before.all_stack@.remove(i0),
            forall|k: int| 0 <= k < self.free_stack@.len() ==> #[trigger] self.free_stack@[k] != addr
                && before.free_stack@.contains(self.free_stack@[k]),
        ensures
            self.wf(),
    {
        let old_all = before.all_stack@;
        assert forall|i: int| 0 <= i < self.all_stack@.len() implies pool_region_ok(self.config, #[trigger] self.all_stack@[i]) by {
            if i < i0 {
                assert(self.all_stack@[i] == old_all[i]);
            } else {
                assert(self.all_stack@[i] == old_all[i + 1]);
            }
        }
        assert forall|i: int, j: int|
            0 <= i < self.all_stack@.len() && 0 <= j < self.all_stack@.len() && i != j
                implies (#[trigger] self.all_stack@[i]).base != (#[trigger] self.all_stack@[j]).base by {
            let i1 = if i < i0 { i } else { i + 1 };
            let j1 = if j < i0 { j } else { j + 1 };
            assert(self.all_stack@[i] == old_all[i1]);
            assert(self.all_stack@[j] == old_all[j1]);
        }
        assert forall|k: int| 0 <= k < self.free_stack@.len() implies self.has_region(#[trigger] self.free_stack@[k]) by {
            let b = self.free_stack@[k];
            let kk = choose|kk: int| 0 <= kk < before.free_stack@.len() && #[trigger] before.free_stack@[kk] == b;
            assert(before.has_region(before.free_stack@[kk]));
            let m = choose|m: int| #[trigger] before.region_at(b, m);
            assert(m != i0);
            let m1 = if m < i0 { m } else { m - 1 };
            assert(self.all_stack@[m1] == old_all[m]);
            assert(self.region_at(b, m1));
        }
    }

    proof fn lemma_wf_after_moving_up(&self, before: Pool, addr: usize, i0: int)
        requires
            before.wf(),
            before.region_at(addr, i0),
            self.config == before.config,
            self.all_stack@ == seq![before.all_stack@[i0]] + before.all_stack@.remove(i0),
            forall|k: int| 0 <= k < self.free_stack@.len() ==> #[trigger] before.free_stack@.contains(self.free_stack@[k])
                || self.free_stack@[k] == addr,
        ensures
            self.wf(),
    {
        let old_all = before.all_stack@;
        assert forall|i: int| 0 <= i < self.all_stack@.len() implies pool_region_ok(self.config, #[trigger] self.all_stack@[i]) by {
            if i == 0 {
            } else if i - 1 < i0 {
                assert(self.all_stack@[i] == old_all[i - 1]);
            } else {
                assert(self.all_stack@[i] == old_all[i]);
            }
        }
        assert forall|i: int, j: int|
            0 <= i < self.all_stack@.len() && 0 <= j < self.all_stack@.len() && i != j
                implies (#[trigger] self.all_stack@[i]).base != (#[trigger] self.all_stack@[j]).base by {
            let i1 = if i == 0 { i0 } else if i - 1 < i0 { i - 1 } else { i };
            let j1 = if j == 0 { i0 } else if j - 1 < i0 { j - 1 } else { j };
            assert(self.all_stack@[i] == old_all[i1]);
            assert(self.all_stack@[j] == old_all[j1]);
        }
        assert forall|k: int| 0 <= k < self.free_stack@.len() implies self.has_region(#[trigger] self.free_stack@[k]) by {
            let b = self.free_stack@[k];
            if b == addr {
                assert(self.region_at(addr, 0));
            } else {
                assert(before.free_stack@.contains(b));
                let kk = choose|kk: int| 0 <= kk < before.free_stack@.len() && #[trigger] before.free_stack@[kk] == b;
                assert(before.has_region(before.free_stack@[kk]));
                let m = choose|m: int| #[trigger] before.region_at(b, m);
                assert(m != i0);
                let m1 = if m == i0 { 0 } else if m < i0 { m + 1 } else { m };
                assert(self.all_stack@[m1] == old_all[m]);
                assert(self.region_at(b, m1));
            }
        }
    }
}

} // verus!
