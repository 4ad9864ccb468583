//! Target constants and the translation of low boot addresses.

use vstd::prelude::*;

verus! {

/// The offset of the identity map from zero, which contains the initial
/// kernel image.
pub const KERNEL_OFFSET: u64 = 0xffffffff80000000;

/// Start of the initial ('low') identity mapped region.
pub const KERNEL_LOW_START: u32 = 0x00000000;

/// End of the initial ('low') identity mapped region.
pub const KERNEL_LOW_END: u32 = 0x04000000;

/// The kernel-space address of a low address, only if it lies in the
/// initial identity mapped region.
pub fn translate_low_addr(addr: u32) -> (r: Option<u64>)
    ensures
        r == (if KERNEL_LOW_START <= addr < KERNEL_LOW_END { Some((KERNEL_OFFSET + addr) as u64) } else { None }),
{
    if addr >= KERNEL_LOW_START && addr < KERNEL_LOW_END {
        Some(KERNEL_OFFSET + addr as u64)
    } else {
        None
    }
}

/// The same for a pointer to be written through.
pub fn translate_low_addr_mut(addr: u32) -> (r: Option<u64>)
    ensures
        r == (if KERNEL_LOW_START <= addr < KERNEL_LOW_END { Some((KERNEL_OFFSET + addr) as u64) } else { None }),
{
    translate_low_addr(addr)
}

} // verus!
