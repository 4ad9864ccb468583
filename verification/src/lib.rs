//! Verified core logic of the Kit kernel: memory regions, allocator
//! bookkeeping, page-table entry encoding, ELF and font parsing, terminal
//! state machines and process scheduling decisions.

pub mod collections;
pub mod archive;
pub mod c_ffi;
pub mod cmdline;
pub mod constants;
pub mod cpu;
pub mod elf;
pub mod framebuffer;
pub mod keyboard;
pub mod log;
pub mod memory;
pub mod multiboot;
pub mod paging;
pub mod process;
pub mod ptr;
pub mod scheduler;
pub mod sync;
pub mod terminal;
pub mod util;

use vstd::prelude::*;

verus! {

} // verus!
