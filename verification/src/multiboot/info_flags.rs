//! Flags of the multiboot information structure.

use vstd::prelude::*;

verus! {

/// Is there basic lower/upper memory information?
pub const MEMORY: u32 = 0x00000001;

/// Is there a boot device set?
pub const BOOTDEV: u32 = 0x00000002;

/// Is the command-line defined?
pub const CMDLINE: u32 = 0x00000004;

/// Are there modules to do something with?
pub const MODS: u32 = 0x00000008;

/// Is there a symbol table loaded?
pub const AOUT_SYMS: u32 = 0x00000010;

/// Is there an ELF section header table?
pub const ELF_SHDR: u32 = 0x00000020;

/// Is there a full memory map?
pub const MEM_MAP: u32 = 0x00000040;

/// Is there drive info?
pub const DRIVE_INFO: u32 = 0x00000080;

/// Is there a config table?
pub const CONFIG_TABLE: u32 = 0x00000100;

/// Is there a boot loader name?
pub const BOOT_LOADER_NAME: u32 = 0x00000200;

/// Is there a APM table?
pub const APM_TABLE: u32 = 0x00000400;

/// Is there video information?
pub const VIDEO_INFO: u32 = 0x00000800;

/// Is there framebuffer information?
pub const FRAMEBUFFER_INFO: u32 = 0x00001000;

} // verus!
