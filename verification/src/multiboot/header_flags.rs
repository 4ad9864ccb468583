//! Flags of the multiboot header.

use vstd::prelude::*;

verus! {

/// Align all boot modules on page boundaries.
pub const PAGE_ALIGN: u32 = 0x00000001;

/// Must pass memory information to OS.
pub const MEMORY_INFO: u32 = 0x00000002;

/// Must pass video information to OS.
pub const VIDEO_MODE: u32 = 0x00000004;

/// This flag indicates the use of the address fields in the header.
pub const AOUT_KLUDGE: u32 = 0x00010000;

} // verus!
