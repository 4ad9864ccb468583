//! x86-64 page tables: virtual address layout and page-table entry
//! encoding.

use vstd::prelude::*;

use core::ops::Range;

use super::generic::{Page, PageType};

verus! {

pub const PAGE_SIZE: usize = 4096;

/// Errors from modifying a pageset.
#[derive(PartialEq, Eq, Debug, Clone, Copy, Structural)]
pub enum Error {
    /// Tried to modify a page in the kernel pageset outside the kernel
    /// address space.
    OutOfKernelRange(usize),
    /// Tried to modify a page in the user pageset outside the user address
    /// space.
    OutOfUserRange(usize),
}

/// The low `n` bits set.
pub open spec fn low_mask(n: u64) -> u64 {
    !(!0u64 << n)
}

/// Bits `start..end` of `x`, shifted down.
pub open spec fn spec_bits(x: u64, start: u64, end: u64) -> u64 {
    (x >> start) & low_mask((end - start) as u64)
}

/// `x` with bits `start..end` replaced by the low bits of `value`.
pub open spec fn spec_set_bits(x: u64, start: u64, end: u64, value: u64) -> u64 {
    (x & !(low_mask((end - start) as u64) << start)) | ((value & low_mask((end - start) as u64)) << start)
}

/// Bit `index` of `x`.
fn bit(x: u64, index: usize) -> (r: bool)
    requires
        index < 64,
    ensures
        r == ((x >> index as u64) & 1 == 1),
{
    (x >> index) & 1 == 1
}

/// Set bit `index` of `x` to `value`.
fn set_bit(x: &mut u64, index: usize, value: bool)
    requires
        index < 64,
    ensures
        *final(x) == (*old(x) & !(1u64 << index as u64)) | ((if value { 1u64 } else { 0u64 }) << index as u64),
{
    let value_i: u64 = if value { 1 } else { 0 };
    *x = *x & !(1 << index);
    *x = *x | (value_i << index);
}

/// Bits `range` of `x`, shifted down.
fn bits(x: u64, range: Range<usize>) -> (r: u64)
    requires
        range.start <= range.end,
        range.end - range.start < 64,
        range.start < 64,
    ensures
        r == spec_bits(x, range.start as u64, range.end as u64),
{
    (x >> range.start) & !(!0 << (range.end - range.start))
}

/// Replace bits `range` of `x` with the low bits of `value`.
fn set_bits(x: &mut u64, range: Range<usize>, value: u64)
    requires
        range.start <= range.end,
        range.end - range.start < 64,
        range.start < 64,
    ensures
        *final(x) == spec_set_bits(*old(x), range.start as u64, range.end as u64, value),
{
    let mask: u64 = !(!0 << (range.end - range.start));
    *x = *x & !(mask << range.start);
    *x = *x | ((value & mask) << range.start);
}

/// The parts of a 48-bit virtual address.
pub(crate) trait VAddrExt {
    fn prefix(self) -> Self;

    fn pml4_index(self) -> Self;

    fn pdpt_index(self) -> Self;

    fn pd_index(self) -> Self;

    fn pt_index(self) -> Self;

    fn offset_1g(self) -> Self;

    fn offset_2m(self) -> Self;

    fn offset_4k(self) -> Self;
}

/// The sign-extension bits 48..64.
pub open spec fn spec_prefix(v: usize) -> usize {
    ((v as u64) / 0x1_0000_0000_0000) as usize
}

pub open spec fn spec_pml4_index(v: usize) -> usize {
    (((v as u64) / 0x80_0000_0000) % 512) as usize
}

pub open spec fn spec_pdpt_index(v: usize) -> usize {
    (((v as u64) / 0x4000_0000) % 512) as usize
}

pub open spec fn spec_pd_index(v: usize) -> usize {
    (((v as u64) / 0x20_0000) % 512) as usize
}

pub open spec fn spec_pt_index(v: usize) -> usize {
    (((v as u64) / 0x1000) % 512) as usize
}

/// The index and offset fields of an address as divisions.
proof fn lemma_address_bits(x: u64)
    by (bit_vector)
    ensures
        spec_bits(x, 48, 64) == x / 0x1_0000_0000_0000,
        spec_bits(x, 39, 48) == (x / 0x80_0000_0000) % 512,
        spec_bits(x, 30, 39) == (x / 0x4000_0000) % 512,
        spec_bits(x, 21, 30) == (x / 0x20_0000) % 512,
        spec_bits(x, 12, 21) == (x / 0x1000) % 512,
        spec_bits(x, 0, 30) == x % 0x4000_0000,
        spec_bits(x, 0, 21) == x % 0x20_0000,
        spec_bits(x, 0, 12) == x % 0x1000,
{
}

/// Low bits of an address are the same in a 64-bit word.
proof fn lemma_word_mod(v: usize)
    by (bit_vector)
    ensures
        (v as u64) % 0x4000_0000 == v % 0x4000_0000,
        (v as u64) % 0x20_0000 == v % 0x20_0000,
        (v as u64) % 0x1000 == v % 0x1000,
{
}

impl VAddrExt for usize {
    fn prefix(self) -> (r: usize)
        ensures
            r == spec_prefix(self),
    {
        let x = self as u64;
        let r = bits(x, 48..64);
        proof {
            lemma_address_bits(x);
        }
        r as usize
    }

    fn pml4_index(self) -> (r: usize)
        ensures
            r == spec_pml4_index(self),
    {
        let x = self as u64;
        let r = bits(x, 39..48);
        proof {
            lemma_address_bits(x);
        }
        r as usize
    }

    fn pdpt_index(self) -> (r: usize)
        ensures
            r == spec_pdpt_index(self),
    {
        let x = self as u64;
        let r = bits(x, 30..39);
        proof {
            lemma_address_bits(x);
        }
        r as usize
    }

    fn pd_index(self) -> (r: usize)
        ensures
            r == spec_pd_index(self),
    {
        let x = self as u64;
        let r = bits(x, 21..30);
        proof {
            lemma_address_bits(x);
        }
        r as usize
    }

    fn pt_index(self) -> (r: usize)
        ensures
            r == spec_pt_index(self),
    {
        let x = self as u64;
        let r = bits(x, 12..21);
        proof {
            lemma_address_bits(x);
        }
        r as usize
    }

    fn offset_1g(self) -> (r: usize)
        ensures
            r == self % 0x4000_0000,
    {
        let x = self as u64;
        let r = bits(x, 0..30);
        proof {
            lemma_address_bits(x);
        }
        proof {
            lemma_word_mod(self);
        }
        r as usize
    }

    fn offset_2m(self) -> (r: usize)
        ensures
            r == self % 0x20_0000,
    {
        let x = self as u64;
        let r = bits(x, 0..21);
        proof {
            lemma_address_bits(x);
        }
        proof {
            lemma_word_mod(self);
        }
        r as usize
    }

    fn offset_4k(self) -> (r: usize)
        ensures
            r == self % 0x1000,
    {
        let x = self as u64;
        let r = bits(x, 0..12);
        proof {
            lemma_address_bits(x);
        }
        proof {
            lemma_word_mod(self);
        }
        r as usize
    }
}

/// Which half of the address space a top-level table covers.
#[derive(PartialEq, Eq, Debug, Clone, Copy, Structural)]
pub enum Pml4Kind {
    User,
    Kernel,
}

/// `vaddr` is canonical and in the half of the address space of `kind`.
pub open spec fn spec_vaddr_ok(kind: Pml4Kind, vaddr: usize) -> bool {
    match kind {
        Pml4Kind::User => spec_prefix(vaddr) == 0 && spec_pml4_index(vaddr) < 256,
        Pml4Kind::Kernel => spec_prefix(vaddr) == 0xffff && spec_pml4_index(vaddr) >= 256,
    }
}

impl Pml4Kind {
    pub fn vaddr_ok(self, vaddr: usize) -> (r: bool)
        ensures
            r == spec_vaddr_ok(self, vaddr),
    {
        let index = vaddr.pml4_index();
        let prefix = vaddr.prefix();
        match self {
            Pml4Kind::User => prefix == 0 && index < 256,
            Pml4Kind::Kernel => prefix == 0xffff && index >= 256 && index < 512,
        }
    }
}

/// The outcome of modifying the pages of one table.
#[derive(PartialEq, Eq, Debug, Structural)]
pub enum ModifyWhileState {
    /// The table ran out; go on at this address.
    Continue(usize),
    Done,
    Error(Error),
}

impl ModifyWhileState {
    /// The result of a finished modification.
    pub fn into_result(self) -> (r: Result<(), Error>)
        requires
            !(self is Continue),
        ensures
            self is Done ==> r == Ok::<(), Error>(()),
            self matches ModifyWhileState::Error(e) ==> r == Err::<(), Error>(e),
    {
        match self {
            ModifyWhileState::Continue(_) => Ok(()),
            ModifyWhileState::Done => Ok(()),
            ModifyWhileState::Error(e) => Err(e),
        }
    }
}

/// Physical address bits 12..48 of a page-table entry.
pub open spec fn spec_entry_paddr(entry: u64) -> usize {
    (entry & 0x0000_ffff_ffff_f000u64) as usize
}

/// The page an entry describes: present (bit 0), writable (bit 1), user
/// (bit 2) and the physical address.
pub open spec fn spec_decode(entry: u64) -> Page {
    if entry & 1 == 1 {
        Some((spec_entry_paddr(entry), PageType::with_bits((entry & 6) as u8)))
    } else {
        None
    }
}

/// The entry for a page.
pub open spec fn spec_encode(page: Page) -> u64 {
    match page {
        Some((paddr, t)) => 1u64 | ((paddr as u64) & 0x0000_ffff_ffff_f000u64) | (if t.spec_is_writable() {
            2u64
        } else {
            0u64
        }) | (if t.spec_is_user() {
            4u64
        } else {
            0u64
        }),
        None => 0,
    }
}

/// Reading back an entry gives the page that was stored, with its address
/// cut to bits 12..48 and only the writable and user flags kept (entries
/// record no executable flag).
pub proof fn lemma_entry_roundtrip(page: Page)
    ensures
        spec_decode(spec_encode(page)) == match page {
            None => None,
            Some((paddr, t)) => Some((
                ((paddr as u64) & 0x0000_ffff_ffff_f000u64) as usize,
                PageType::with_bits(t.bits() & 6),
            )),
        },
{
    match page {
        None => {
            assert(0u64 & 1 != 1) by (bit_vector);
        },
        Some((paddr, t)) => {
            let p = paddr as u64;
            let n = t.bits();
            let e = spec_encode(page);
            let w: u64 = if t.spec_is_writable() { 2 } else { 0 };
            let u: u64 = if t.spec_is_user() { 4 } else { 0 };
            assert(e == 1u64 | (p & 0x0000_ffff_ffff_f000u64) | w | u);
            assert((1u64 | (p & 0x0000_ffff_ffff_f000u64) | w | u) & 1 == 1) by (bit_vector);
            assert(((1u64 | (p & 0x0000_ffff_ffff_f000u64) | w | u) & 0x0000_ffff_ffff_f000u64) == p & 0x0000_ffff_ffff_f000u64) by (bit_vector)
                requires
                    w == 0 || w == 2,
                    u == 0 || u == 4,
            ;
            assert(((1u64 | (p & 0x0000_ffff_ffff_f000u64) | w | u) & 6) as u8 == n & 6) by (bit_vector)
                requires
                    w == (if (n >> 1u8) & 1u8 == 1u8 { 2u64 } else { 0u64 }),
                    u == (if (n >> 2u8) & 1u8 == 1u8 { 4u64 } else { 0u64 }),
            ;
        },
    }
}

/// The flag and address fields of an entry.
proof fn lemma_entry_fields(entry: u64)
    by (bit_vector)
    ensures
        ((entry >> 0u64) & 1 == 1) == (entry & 1 == 1),
        (spec_bits(entry, 12, 48) << 12u64) == entry & 0x0000_ffff_ffff_f000u64,
        ((entry >> 1u64) & 1 == 1) == (entry & 2 == 2),
        ((entry >> 2u64) & 1 == 1) == (entry & 4 == 4),
        entry & 6 == (if entry & 2 == 2 { 2u64 } else { 0u64 }) + (if entry & 4 == 4 { 4u64 } else { 0u64 }),
{
}

/// A page table: the last level, mapping 512 pages.
pub struct Pt {
    entries: Vec<u64>,
}

impl Pt {
    pub closed spec fn entries(&self) -> Seq<u64> {
        self.entries@
    }

    /// An empty table.
    pub fn new() -> (r: Pt)
        ensures
            r.entries() == Seq::new(512, |i: int| 0u64),
    {
        let mut entries: Vec<u64> = Vec::new();
        let mut i: usize = 0;
        while i < 512
            invariant
                i <= 512,
                entries@ == Seq::new(i as nat, |j: int| 0u64),
            decreases 512 - i,
        {
            entries.push(0);
            i = i + 1;
        }
        Pt { entries }
    }

    /// The page at `index`; nothing past the end of the table.
    pub fn get(&self, index: usize) -> (r: Page)
        ensures
            index < self.entries().len() ==> r == spec_decode(self.entries()[index as int]),
            index >= self.entries().len() ==> r is None,
    {
        if index >= self.entries.len() {
            return None;
        }
        let entry = self.entries[index];
        let present: usize = 0;
        let writable: usize = 1;
        let user: usize = 2;
        if bit(entry, present) {
            let mut page_type = PageType::default();
            if bit(entry, writable) {
                page_type = page_type.writable();
            }
            if bit(entry, user) {
                page_type = page_type.user();
            }
            let paddr = (bits(entry, 12..48) << 12) as usize;
            proof {
                let t = page_type.bits();
                lemma_entry_fields(entry);
                assert((0u8 | 2u8) | 4u8 == 6u8 && 0u8 | 4u8 == 4u8 && 0u8 | 2u8 == 2u8) by (bit_vector);
                PageType::lemma_bits(page_type, PageType::with_bits((entry & 6) as u8), (entry & 6) as u8);
            }
            Some((paddr, page_type))
        } else {
            proof {
                lemma_entry_fields(entry);
            }
            None
        }
    }

    /// Store a page at `index`.
    pub fn set(&mut self, index: usize, page: Page)
        requires
            index < old(self).entries().len(),
        ensures
            final(self).entries() == old(self).entries().update(index as int, spec_encode(page)),
    {
        let entry: u64 = match page {
            Some((paddr, page_type)) => {
                let writable: usize = 1;
                let user: usize = 2;
                let mut entry: u64 = 1;
                set_bits(&mut entry, 12..48, (paddr >> 12) as u64);
                proof {
                    let p = paddr as u64;
                    assert(spec_set_bits(1u64, 12, 48, (p >> 12u64)) == 1u64 | (p & 0x0000_ffff_ffff_f000u64)) by (bit_vector);
                    assert((paddr >> 12usize) as u64 == (paddr as u64) >> 12u64) by (bit_vector);
                }
                let ghost e1 = entry;
                let ghost w: u64 = if page_type.spec_is_writable() { 2 } else { 0 };
                let ghost u: u64 = if page_type.spec_is_user() { 4 } else { 0 };
                if page_type.is_writable() {
                    set_bit(&mut entry, writable, true);
                    assert((e1 & !(1u64 << 1u64)) | (1u64 << 1u64) == e1 | 2u64) by (bit_vector);
                } else {
                    assert(e1 | 0u64 == e1) by (bit_vector);
                }
                let ghost e2 = entry;
                assert(e2 == e1 | w);
                if page_type.is_user() {
                    set_bit(&mut entry, user, true);
                    assert((e2 & !(1u64 << 2u64)) | (1u64 << 2u64) == e2 | 4u64) by (bit_vector);
                } else {
                    assert(e2 | 0u64 == e2) by (bit_vector);
                }
                assert(entry == e1 | w | u);
                entry
            },
            None => 0,
        };
        self.entries.set(index, entry);
    }
}

} // verus!
