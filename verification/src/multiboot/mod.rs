//! The multiboot boot protocol: header, boot information and memory map.

pub mod header_flags;
pub mod info_flags;

use vstd::prelude::*;

use crate::constants::{KERNEL_LOW_END, KERNEL_LOW_START, KERNEL_OFFSET};
use crate::elf::{read_u32, read_u64, spec_u32_le, spec_u64_le};
use crate::paging::generic::{Page, PageType};
use crate::paging::PAGE_SIZE;

verus! {

/// How many bytes from the start of the file we search for the header.
pub const SEARCH: usize = 8192;

/// The magic field should contain this.
pub const H_MAGIC: u32 = 0x1BADB002;

/// This should be in %eax.
pub const BOOTLOADER_MAGIC: u32 = 0x2BADB002;

/// The bits in the required part of flags field we don't support.
pub const UNSUPPORTED: u32 = 0x0000fffc;

/// Alignment of multiboot modules.
pub const MOD_ALIGN: u32 = 0x00001000;

/// Alignment of the multiboot info structure.
pub const INFO_ALIGN: u32 = 0x00000004;

/// Memory map entry kind of usable memory.
pub const MEMORY_AVAILABLE: u32 = 1;

/// Memory map entry kind of reserved memory.
pub const MEMORY_RESERVED: u32 = 2;

/// Bytes of a memory map entry, its `size` field included.
pub const MMAP_ENTRY_BYTES: usize = 24;

/// The multiboot header of a kernel image.
#[derive(Debug)]
pub struct Header {
    /// Must be H_MAGIC.
    pub magic: u32,
    /// Feature flags (see `header_flags`).
    pub flags: u32,
    /// The above fields plus this one must equal 0 mod 2^32.
    pub checksum: u32,
    pub header_addr: u32,
    pub load_addr: u32,
    pub load_end_addr: u32,
    pub bss_end_addr: u32,
    pub entry_addr: u32,
    pub mode_type: u32,
    pub width: u32,
    pub height: u32,
    pub depth: u32,
}

/// The symbol table for a.out.
#[derive(Debug, Clone, Copy)]
pub struct AoutSymbolTable {
    pub tabsize: u32,
    pub strsize: u32,
    pub addr: u32,
    pub reserved: u32,
}

/// The section header table for ELF.
#[derive(Debug, Clone, Copy)]
pub struct ElfSectionHeaderTable {
    pub num: u32,
    pub size: u32,
    pub addr: u32,
    pub shndx: u32,
}

/// Four words read either as an a.out symbol table or as an ELF section
/// header table.
#[derive(Debug, Clone, Copy)]
pub struct AoutElfTableUnion {
    data: [u32; 4],
}

impl AoutElfTableUnion {
    /// The four words, in order.
    pub closed spec fn words(&self) -> Seq<u32> {
        self.data@
    }

    pub fn new(data: [u32; 4]) -> (r: AoutElfTableUnion)
        ensures
            r.words() == data@,
    {
        AoutElfTableUnion { data }
    }

    /// Interpret the words as an a.out symbol table.
    pub fn as_aout_symbol_table(&self) -> (r: AoutSymbolTable)
        ensures
            r.tabsize == self.words()[0],
            r.strsize == self.words()[1],
            r.addr == self.words()[2],
            r.reserved == self.words()[3],
    {
        AoutSymbolTable { tabsize: self.data[0], strsize: self.data[1], addr: self.data[2], reserved: self.data[3] }
    }

    /// Interpret the words as an ELF section header table.
    pub fn as_elf_section_header_table(&self) -> (r: ElfSectionHeaderTable)
        ensures
            r.num == self.words()[0],
            r.size == self.words()[1],
            r.addr == self.words()[2],
            r.shndx == self.words()[3],
    {
        ElfSectionHeaderTable { num: self.data[0], size: self.data[1], addr: self.data[2], shndx: self.data[3] }
    }
}

/// Palette description of an indexed-color framebuffer.
#[derive(Debug, Clone, Copy)]
pub struct IndexedColor {
    pub framebuffer_palette_addr: u32,
    pub framebuffer_palette_num_colors: u16,
}

/// Channel layout of a direct-color framebuffer.
#[derive(Debug, Clone, Copy)]
pub struct RgbColor {
    pub framebuffer_red_field_position: u8,
    pub framebuffer_red_mask_size: u8,
    pub framebuffer_green_field_position: u8,
    pub framebuffer_green_mask_size: u8,
    pub framebuffer_blue_field_position: u8,
    pub framebuffer_blue_mask_size: u8,
}

/// Six bytes read either as `IndexedColor` or as `RgbColor`.
#[derive(Debug, Clone, Copy)]
pub struct ColorInfo {
    raw: [u8; 6],
}

impl ColorInfo {
    /// The six bytes, in order.
    pub closed spec fn bytes(&self) -> Seq<u8> {
        self.raw@
    }

    pub fn new(raw: [u8; 6]) -> (r: ColorInfo)
        ensures
            r.bytes() == raw@,
    {
        ColorInfo { raw }
    }

    /// The bytes as a palette description (little-endian fields).
    pub fn indexed(&self) -> (r: IndexedColor)
        ensures
            r.framebuffer_palette_addr == spec_u32_le(self.bytes(), 0),
            r.framebuffer_palette_num_colors == self.bytes()[4] + 256 * self.bytes()[5],
    {
        let b = &self.raw;
        assert(self.bytes().len() == 6);
        let addr: u32 = (b[0] as u32) + (b[1] as u32) * 256 + (b[2] as u32) * 65536 + (b[3] as u32) * 16777216;
        IndexedColor { framebuffer_palette_addr: addr, framebuffer_palette_num_colors: (b[4] as u16) + (b[5] as u16) * 256 }
    }

    /// The bytes as a channel layout.
    pub fn rgb(&self) -> (r: RgbColor)
        ensures
            r.framebuffer_red_field_position == self.bytes()[0],
            r.framebuffer_red_mask_size == self.bytes()[1],
            r.framebuffer_green_field_position == self.bytes()[2],
            r.framebuffer_green_mask_size == self.bytes()[3],
            r.framebuffer_blue_field_position == self.bytes()[4],
            r.framebuffer_blue_mask_size == self.bytes()[5],
    {
        RgbColor {
            framebuffer_red_field_position: self.raw[0],
            framebuffer_red_mask_size: self.raw[1],
            framebuffer_green_field_position: self.raw[2],
            framebuffer_green_mask_size: self.raw[3],
            framebuffer_blue_field_position: self.raw[4],
            framebuffer_blue_mask_size: self.raw[5],
        }
    }
}

/// A memory map entry.
#[derive(Debug, Clone, Copy)]
pub struct MmapEntry {
    /// Size of the rest of the entry; the next entry starts `size + 4`
    /// bytes after this one.
    pub size: u32,
    pub addr: u64,
    pub len: u64,
    /// Reserved unless equal to MEMORY_AVAILABLE.
    pub kind: u32,
}

impl MmapEntry {
    pub open spec fn spec_is_available(self) -> bool {
        self.kind == MEMORY_AVAILABLE
    }

    pub open spec fn spec_range(self) -> (usize, usize) {
        (self.addr as usize, (self.addr + self.len) as usize)
    }

    pub fn is_available(&self) -> (r: bool)
        ensures
            r == self.spec_is_available(),
    {
        self.kind == MEMORY_AVAILABLE
    }

    /// The half-open address range `[addr, addr + len)`.
    pub fn range(&self) -> (r: (usize, usize))
        requires
            self.addr + self.len <= u64::MAX,
        ensures
            r == self.spec_range(),
    {
        (self.addr as usize, (self.addr + self.len) as usize)
    }
}

/// The entry encoded at byte `pos` of a memory map.
pub open spec fn entry_at(data: Seq<u8>, pos: int) -> MmapEntry {
    MmapEntry {
        size: spec_u32_le(data, pos) as u32,
        addr: spec_u64_le(data, pos + 4) as u64,
        len: spec_u64_le(data, pos + 12) as u64,
        kind: spec_u32_le(data, pos + 20) as u32,
    }
}

/// Where the entry after the one at `pos` starts, or the end of the map.
pub open spec fn next_entry_pos(data: Seq<u8>, pos: int) -> int {
    let next = pos + entry_at(data, pos).size + 4;
    if next >= data.len() {
        data.len() as int
    } else {
        next
    }
}

/// The entries of a memory map from byte `pos` on, each starting `size + 4`
/// bytes after the previous one, up to the end of the map or to an entry
/// that does not fit in it.
pub open spec fn mmap_entries_from(data: Seq<u8>, pos: int) -> Seq<MmapEntry>
    decreases data.len() - pos,
{
    if 0 <= pos && pos + MMAP_ENTRY_BYTES <= data.len() {
        seq![entry_at(data, pos)] + mmap_entries_from(data, next_entry_pos(data, pos))
    } else {
        seq![]
    }
}

/// The ranges of the entries that are available (or, with `available`
/// false, reserved), in order.
pub open spec fn ranges_of_kind(entries: Seq<MmapEntry>, available: bool) -> Seq<(usize, usize)>
    decreases entries.len(),
{
    if entries.len() == 0 {
        seq![]
    } else {
        let e = entries[0];
        (if e.spec_is_available() == available {
            seq![e.spec_range()]
        } else {
            seq![]
        }) + ranges_of_kind(entries.drop_first(), available)
    }
}

/// No entry of the kind has an end address past `u64::MAX`.
pub open spec fn ranges_fit(entries: Seq<MmapEntry>, available: bool) -> bool {
    forall|i: int|
        0 <= i < entries.len() && (#[trigger] entries[i]).spec_is_available() == available
            ==> entries[i].addr + entries[i].len <= u64::MAX
}

/// Walks the entries of a memory map held in a byte buffer.
pub struct MmapEntryIter<'a> {
    data: &'a [u8],
    pos: usize,
}

impl<'a> MmapEntryIter<'a> {
    /// The entries not yet returned.
    pub closed spec fn remaining(&self) -> Seq<MmapEntry> {
        mmap_entries_from(self.data@, self.pos as int)
    }

    /// Iterate over the memory map encoded in `data`.
    pub fn new(data: &'a [u8]) -> (r: MmapEntryIter<'a>)
        ensures
            r.remaining() == mmap_entries_from(data@, 0),
    {
        MmapEntryIter { data, pos: 0 }
    }

    pub fn next(&mut self) -> (r: Option<MmapEntry>)
        ensures
            match r {
                None => old(self).remaining().len() == 0 && final(self).remaining().len() == 0,
                Some(e) => old(self).remaining() == seq![e] + final(self).remaining(),
            },
    {
        let len = self.data.len();
        if self.pos < len && len - self.pos >= MMAP_ENTRY_BYTES {
            let pos = self.pos;
            let entry = MmapEntry {
                size: read_u32(self.data, pos),
                addr: read_u64(self.data, pos + 4),
                len: read_u64(self.data, pos + 12),
                kind: read_u32(self.data, pos + 20),
            };
            let step: u64 = entry.size as u64 + 4;
            if step >= (len - pos) as u64 {
                self.pos = len;
            } else {
                self.pos = pos + step as usize;
            }
            assert(entry == entry_at(self.data@, pos as int));
            assert(self.pos as int == next_entry_pos(self.data@, pos as int));
            Some(entry)
        } else {
            None
        }
    }
}

/// A boot module loaded by the boot loader.
#[derive(Debug, Clone, Copy)]
pub struct Module {
    /// The module occupies the bytes from `mod_start` to `mod_end - 1`.
    pub mod_start: u32,
    pub mod_end: u32,
    /// Module command line pointer (C string).
    pub cmdline: u32,
    /// Padding to take the structure to 16 bytes (must be zero).
    pub pad: u32,
}

/// A run of pages to map: virtual start, page count and what it maps to.
pub type IdentityMap = (usize, usize, Page);

/// The number of pages that `bytes` bytes span.
pub open spec fn pages_spanning(bytes: int) -> int {
    bytes / (PAGE_SIZE as int) + if bytes % (PAGE_SIZE as int) != 0 {
        1int
    } else {
        0int
    }
}

/// Page types of the text, rodata, data, got, got.plt and bss sections.
pub open spec fn kernel_section_types() -> Seq<PageType> {
    seq![
        PageType::with_bits(1),
        PageType::with_bits(0),
        PageType::with_bits(2),
        PageType::with_bits(2),
        PageType::with_bits(2),
        PageType::with_bits(2),
    ]
}

/// A kernel section, mapped at its high address onto its low one.
pub open spec fn section_map(begin: usize, end: usize, page_type: PageType) -> IdentityMap {
    (begin, pages_spanning(end - begin) as usize, Some(((begin - KERNEL_OFFSET) as usize, page_type)))
}

/// A module, mapped read-only at the kernel offset.
pub open spec fn module_map(m: Module) -> IdentityMap {
    (
        (KERNEL_OFFSET + m.mod_start) as usize,
        pages_spanning(m.mod_end - m.mod_start) as usize,
        Some((m.mod_start as usize, PageType::with_bits(0))),
    )
}

/// The low megabyte and the bootstrap code, mapped writable at the kernel
/// offset.
pub open spec fn low_maps(bootstrap: (usize, usize)) -> Seq<IdentityMap> {
    seq![
        (KERNEL_OFFSET as usize, 256usize, Some((0usize, PageType::with_bits(2)))),
        (
            (KERNEL_OFFSET + bootstrap.0) as usize,
            pages_spanning(bootstrap.1 - bootstrap.0) as usize,
            Some((bootstrap.0, PageType::with_bits(2))),
        ),
    ]
}

/// The maps of the kernel sections, in order.
pub open spec fn section_maps(sections: Seq<(usize, usize)>, n: int) -> Seq<IdentityMap> {
    Seq::new(n as nat, |i: int| section_map(sections[i].0, sections[i].1, kernel_section_types()[i]))
}

/// The multiboot information structure handed over by the boot loader.
#[derive(Debug)]
pub struct Info {
    /// Feature flags (see `info_flags`).
    pub flags: u32,
    /// Available lower memory from BIOS.
    pub mem_lower: u32,
    /// Available upper memory from BIOS.
    pub mem_upper: u32,
    /// "root" partition.
    pub boot_device: u32,
    /// Kernel command line pointer (C string).
    pub cmdline: u32,
    /// Number of modules provided.
    pub mods_count: u32,
    /// Address of the first module.
    pub mods_addr: u32,
    pub u: AoutElfTableUnion,
    /// Memory mapping buffer length.
    pub mmap_length: u32,
    /// Memory mapping buffer address.
    pub mmap_addr: u32,
    /// Drive info buffer length.
    pub drives_length: u32,
    /// Drive info buffer address.
    pub drives_addr: u32,
    /// ROM configuration table.
    pub config_table: u32,
    /// Boot loader name pointer (C string).
    pub boot_loader_name: u32,
    /// APM table address.
    pub apm_table: u32,
    pub vbe_control_info: u32,
    pub vbe_mode_info: u32,
    pub vbe_mode: u16,
    pub vbe_interface_seg: u16,
    pub vbe_interface_off: u16,
    pub vbe_interface_len: u16,
    pub framebuffer_addr: u64,
    pub framebuffer_pitch: u32,
    pub framebuffer_width: u32,
    pub framebuffer_height: u32,
    pub framebuffer_bpp: u8,
    pub framebuffer_type: u8,
    pub color_info: ColorInfo,
}

impl Info {
    pub open spec fn has(&self, flag: u32) -> bool {
        self.flags & flag != 0
    }

    /// Available lower and upper memory sizes, if present.
    pub fn mem_sizes(&self) -> (r: Option<(usize, usize)>)
        ensures
            r == (if self.has(info_flags::MEMORY) {
                Some((self.mem_lower as usize, self.mem_upper as usize))
            } else {
                None
            }),
    {
        if self.flags & info_flags::MEMORY != 0 {
            Some((self.mem_lower as usize, self.mem_upper as usize))
        } else {
            None
        }
    }

    /// The kernel-space address of the kernel command line, if present.
    pub fn cmdline(&self) -> (r: Option<u64>)
        requires
            self.has(info_flags::CMDLINE) ==> KERNEL_LOW_START <= self.cmdline < KERNEL_LOW_END,
        ensures
            r == (if self.has(info_flags::CMDLINE) {
                Some((KERNEL_OFFSET + self.cmdline) as u64)
            } else {
                None
            }),
    {
        if self.flags & info_flags::CMDLINE != 0 {
            match crate::constants::translate_low_addr(self.cmdline) {
                Some(addr) => Some(addr),
                None => None,
            }
        } else {
            None
        }
    }

    /// The memory map entries, if present; `mmap` holds the `mmap_length`
    /// bytes at `mmap_addr`.
    pub fn mmap_entries<'a>(&self, mmap: &'a [u8]) -> (r: Option<MmapEntryIter<'a>>)
        ensures
            self.has(info_flags::MEM_MAP) <==> r is Some,
            r matches Some(it) ==> it.remaining() == mmap_entries_from(mmap@, 0),
    {
        if self.flags & info_flags::MEM_MAP != 0 {
            Some(MmapEntryIter::new(mmap))
        } else {
            None
        }
    }

    /// The modules, if present; `mods` holds the `mods_count` entries at
    /// `mods_addr`.
    pub fn modules<'a>(&self, mods: &'a [Module]) -> (r: Option<&'a [Module]>)
        ensures
            r == (if self.has(info_flags::MODS) {
                Some(mods)
            } else {
                None
            }),
    {
        if self.flags & info_flags::MODS != 0 {
            Some(mods)
        } else {
            None
        }
    }

    fn push_ranges_of_kind(&self, mmap: &[u8], available: bool, out: &mut Vec<(usize, usize)>)
        requires
            self.has(info_flags::MEM_MAP) ==> ranges_fit(mmap_entries_from(mmap@, 0), available),
        ensures
            final(out)@ == old(out)@ + (if self.has(info_flags::MEM_MAP) {
                ranges_of_kind(mmap_entries_from(mmap@, 0), available)
            } else {
                seq![]
            }),
    {
        if let Some(mut entries) = self.mmap_entries(mmap) {
            let ghost all = entries.remaining();
            let ghost start = out@;
            loop
                invariant
                    start + ranges_of_kind(all, available) == out@ + ranges_of_kind(
                        entries.remaining(),
                        available,
                    ),
                    ranges_fit(entries.remaining(), available),
                ensures
                    out@ == start + ranges_of_kind(all, available),
                decreases entries.remaining().len(),
            {
                let ghost before = entries.remaining();
                match entries.next() {
                    None => {
                        break ;
                    },
                    Some(e) => {
                        let ghost rest = entries.remaining();
                        assert(before[0] == e);
                        assert(before.drop_first() =~= rest);
                        assert forall|i: int|
                            0 <= i < rest.len() && (#[trigger] rest[i]).spec_is_available()
                                == available implies rest[i].addr + rest[i].len <= u64::MAX by {
                            assert(rest[i] == before[i + 1]);
                        }
                        let ghost pre = out@;
                        if e.is_available() == available {
                            out.push(e.range());
                            assert(out@ + ranges_of_kind(rest, available) =~= pre + (seq![e.spec_range()]
                                + ranges_of_kind(rest, available)));
                        } else {
                            assert(seq![] + ranges_of_kind(rest, available) =~= ranges_of_kind(rest, available));
                        }
                    },
                }
            }
        } else {
            assert(out@ =~= out@ + seq![]);
        }
    }

    /// Push the range of each available memory map entry onto `out`.
    pub fn parse_available(&self, mmap: &[u8], out: &mut Vec<(usize, usize)>)
        requires
            self.has(info_flags::MEM_MAP) ==> ranges_fit(mmap_entries_from(mmap@, 0), true),
        ensures
            final(out)@ == old(out)@ + (if self.has(info_flags::MEM_MAP) {
                ranges_of_kind(mmap_entries_from(mmap@, 0), true)
            } else {
                seq![]
            }),
    {
        self.push_ranges_of_kind(mmap, true, out)
    }

    /// Push the range of each reserved memory map entry onto `out`.
    pub fn parse_reserved(&self, mmap: &[u8], out: &mut Vec<(usize, usize)>)
        requires
            self.has(info_flags::MEM_MAP) ==> ranges_fit(mmap_entries_from(mmap@, 0), false),
        ensures
            final(out)@ == old(out)@ + (if self.has(info_flags::MEM_MAP) {
                ranges_of_kind(mmap_entries_from(mmap@, 0), false)
            } else {
                seq![]
            }),
    {
        self.push_ranges_of_kind(mmap, false, out)
    }
    /// Push the maps that keep the low megabyte, the kernel image and the
    /// modules reachable once the kernel's own page tables are in use:
    /// `bootstrap` is the low address range of the bootstrap code and
    /// `sections` the high address ranges of the text, rodata, data, got,
    /// got.plt and bss sections.
    pub fn generate_identity_maps(
        &self,
        bootstrap: (usize, usize),
        sections: [(usize, usize); 6],
        mods: &[Module],
        out: &mut Vec<IdentityMap>,
    )
        requires
            bootstrap.0 <= bootstrap.1,
            KERNEL_OFFSET + bootstrap.1 <= usize::MAX,
            forall|i: int| 0 <= i < 6 ==> KERNEL_OFFSET <= (#[trigger] sections@[i]).0 <= sections@[i].1,
            self.has(info_flags::MODS) ==> forall|i: int|
                0 <= i < mods@.len() ==> (#[trigger] mods@[i]).mod_start <= mods@[i].mod_end
                    && KERNEL_OFFSET + mods@[i].mod_start <= usize::MAX,
        ensures
            final(out)@ == old(out)@ + low_maps(bootstrap) + section_maps(sections@, 6) + (if self.has(
                info_flags::MODS,
            ) {
                mods@.map_values(|m: Module| module_map(m))
            } else {
                seq![]
            }),
    {
        let ghost start = out@;
        let default = PageType::default();
        let writable = default.writable();
        let executable = default.executable();
        proof {
            assert(0u8 | 2u8 == 2u8 && 0u8 | 1u8 == 1u8) by (bit_vector);
            PageType::lemma_bits(writable, PageType::with_bits(2), 2);
            PageType::lemma_bits(executable, PageType::with_bits(1), 1);
            PageType::lemma_bits(default, PageType::with_bits(0), 0);
        }
        let offset = KERNEL_OFFSET as usize;

        // The low megabyte.
        out.push((offset, 0x100000 / PAGE_SIZE, Some((0, writable))));

        // The bootstrap code, at its low address.
        let bytes = bootstrap.1 - bootstrap.0;
        let pages = bytes / PAGE_SIZE + if bytes % PAGE_SIZE != 0 {
            1
        } else {
            0
        };
        out.push((offset + bootstrap.0, pages, Some((bootstrap.0, writable))));
        assert(out@ =~= start + low_maps(bootstrap) + section_maps(sections@, 0));

        // The kernel sections, at their high addresses.
        let types: [PageType; 6] = [executable, default, writable, writable, writable, writable];
        assert(types@ =~= kernel_section_types());
        let mut i: usize = 0;
        while i < 6
            invariant
                i <= 6,
                offset == KERNEL_OFFSET,
                types@ == kernel_section_types(),
                forall|j: int| 0 <= j < 6 ==> KERNEL_OFFSET <= (#[trigger] sections@[j]).0 <= sections@[j].1,
                out@ == start + low_maps(bootstrap) + section_maps(sections@, i as int),
            decreases 6 - i,
        {
            let (begin, end) = sections[i];
            assert(KERNEL_OFFSET <= sections@[i as int].0 <= sections@[i as int].1);
            let bytes = end - begin;
            let pages = bytes / PAGE_SIZE + if bytes % PAGE_SIZE != 0 {
                1
            } else {
                0
            };
            out.push((begin, pages, Some((begin - offset, types[i]))));
            assert(section_maps(sections@, i + 1) =~= section_maps(sections@, i as int).push(
                section_map(begin, end, kernel_section_types()[i as int]),
            ));
            i = i + 1;
        }
        let ghost before_mods = out@;

        // The modules, at the kernel offset, read-only.
        if let Some(modules) = self.modules(mods) {
            let mut k: usize = 0;
            while k < modules.len()
                invariant
                    k <= modules@.len(),
                    modules@ == mods@,
                    offset == KERNEL_OFFSET,
                    default == PageType::with_bits(0),
                    forall|j: int|
                        0 <= j < mods@.len() ==> (#[trigger] mods@[j]).mod_start <= mods@[j].mod_end
                            && KERNEL_OFFSET + mods@[j].mod_start <= usize::MAX,
                    out@ == before_mods + mods@.subrange(0, k as int).map_values(|m: Module| module_map(m)),
                decreases modules@.len() - k,
            {
                let module = modules[k];
                assert(mods@[k as int] == module);
                let bytes = module.mod_end as usize - module.mod_start as usize;
                let pages = bytes / PAGE_SIZE + if bytes % PAGE_SIZE > 0 {
                    1
                } else {
                    0
                };
                out.push((offset + module.mod_start as usize, pages, Some((module.mod_start as usize, default))));
                assert(mods@.subrange(0, k + 1).map_values(|m: Module| module_map(m)) =~= mods@.subrange(
                    0,
                    k as int,
                ).map_values(|m: Module| module_map(m)).push(module_map(module)));
                k = k + 1;
            }
            assert(mods@.subrange(0, mods@.len() as int) =~= mods@);
        } else {
            assert(out@ =~= out@ + seq![]);
        }
    }
}

} // verus!
