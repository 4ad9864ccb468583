use kit_kernel::multiboot::{info_flags, AoutElfTableUnion, ColorInfo, Info, MmapEntry, MmapEntryIter, Module};
use kit_kernel::paging::PageType;
use kit_kernel::framebuffer::{ColorFormat, FramebufferConfig};
use kit_kernel::terminal::console_config;

const KERNEL_OFFSET: usize = 0xffffffff80000000;

fn info(flags: u32) -> Info {
    Info {
        flags,
        mem_lower: 639,
        mem_upper: 130048,
        boot_device: 0,
        cmdline: 0x10000,
        mods_count: 0,
        mods_addr: 0,
        u: AoutElfTableUnion::new([1, 2, 3, 4]),
        mmap_length: 0,
        mmap_addr: 0,
        drives_length: 0,
        drives_addr: 0,
        config_table: 0,
        boot_loader_name: 0,
        apm_table: 0,
        vbe_control_info: 0,
        vbe_mode_info: 0,
        vbe_mode: 0,
        vbe_interface_seg: 0,
        vbe_interface_off: 0,
        vbe_interface_len: 0,
        framebuffer_addr: 0,
        framebuffer_pitch: 0,
        framebuffer_width: 0,
        framebuffer_height: 0,
        framebuffer_bpp: 0,
        framebuffer_type: 0,
        color_info: ColorInfo::new([1, 2, 3, 4, 5, 6]),
    }
}

fn entry(bytes: &mut Vec<u8>, size: u32, addr: u64, len: u64, kind: u32) {
    bytes.extend_from_slice(&size.to_le_bytes());
    bytes.extend_from_slice(&addr.to_le_bytes());
    bytes.extend_from_slice(&len.to_le_bytes());
    bytes.extend_from_slice(&kind.to_le_bytes());
}

fn sample_mmap() -> Vec<u8> {
    let mut b = Vec::new();
    entry(&mut b, 20, 0x0, 0x9fc00, 1);
    entry(&mut b, 20, 0x9fc00, 0x400, 2);
    entry(&mut b, 20, 0x100000, 0x7ee0000, 1);
    b
}

#[test]
fn mem_sizes_only_with_the_memory_flag() {
    assert_eq!(info(info_flags::MEMORY).mem_sizes(), Some((639, 130048)));
    assert_eq!(info(0).mem_sizes(), None);
}

#[test]
fn cmdline_is_translated_to_the_kernel_offset() {
    assert_eq!(info(info_flags::CMDLINE).cmdline(), Some(0xffffffff80010000));
    assert_eq!(info(0).cmdline(), None);
}

#[test]
fn table_union_reads_both_ways() {
    let u = AoutElfTableUnion::new([7, 8, 9, 10]);
    let a = u.as_aout_symbol_table();
    assert_eq!((a.tabsize, a.strsize, a.addr, a.reserved), (7, 8, 9, 10));
    let e = u.as_elf_section_header_table();
    assert_eq!((e.num, e.size, e.addr, e.shndx), (7, 8, 9, 10));
}

#[test]
fn color_info_reads_both_ways() {
    let c = ColorInfo::new([0x78, 0x56, 0x34, 0x12, 0x10, 0x01]);
    let i = c.indexed();
    assert_eq!(i.framebuffer_palette_addr, 0x12345678);
    assert_eq!(i.framebuffer_palette_num_colors, 0x0110);
    let r = c.rgb();
    assert_eq!(r.framebuffer_red_field_position, 0x78);
    assert_eq!(r.framebuffer_blue_mask_size, 0x01);
}

#[test]
fn mmap_iteration_follows_the_size_fields() {
    let b = sample_mmap();
    let mut it = MmapEntryIter::new(&b);
    let e = it.next().unwrap();
    assert_eq!((e.addr, e.len, e.kind), (0, 0x9fc00, 1));
    assert!(e.is_available());
    assert_eq!(e.range(), (0, 0x9fc00));
    let e = it.next().unwrap();
    assert!(!e.is_available());
    let e = it.next().unwrap();
    assert_eq!(e.range(), (0x100000, 0x7fe0000));
    assert!(it.next().is_none());
}

#[test]
fn mmap_entry_with_larger_size_skips_padding() {
    let mut b = Vec::new();
    entry(&mut b, 24, 0x1000, 0x1000, 1);
    b.extend_from_slice(&[0, 0, 0, 0]);
    entry(&mut b, 20, 0x5000, 0x1000, 2);
    let mut it = MmapEntryIter::new(&b);
    assert_eq!(it.next().unwrap().addr, 0x1000);
    assert_eq!(it.next().unwrap().addr, 0x5000);
    assert!(it.next().is_none());
}

#[test]
fn truncated_mmap_entry_ends_iteration() {
    let mut b = sample_mmap();
    b.truncate(30);
    let mut it = MmapEntryIter::new(&b);
    assert!(it.next().is_some());
    assert!(it.next().is_none());
}

#[test]
fn parse_available_and_reserved() {
    let b = sample_mmap();
    let i = info(info_flags::MEM_MAP);
    let mut avail = vec![(1, 2)];
    i.parse_available(&b, &mut avail);
    assert_eq!(avail, vec![(1, 2), (0, 0x9fc00), (0x100000, 0x7fe0000)]);
    let mut reserved = Vec::new();
    i.parse_reserved(&b, &mut reserved);
    assert_eq!(reserved, vec![(0x9fc00, 0xa0000)]);
    let mut none = Vec::new();
    info(0).parse_available(&b, &mut none);
    assert!(none.is_empty());
    assert!(info(0).mmap_entries(&b).is_none());
}

#[test]
fn modules_only_with_the_mods_flag() {
    let mods = [Module { mod_start: 0x200000, mod_end: 0x201001, cmdline: 0, pad: 0 }];
    assert_eq!(info(info_flags::MODS).modules(&mods).unwrap().len(), 1);
    assert!(info(0).modules(&mods).is_none());
}

#[test]
fn identity_maps_cover_low_memory_kernel_and_modules() {
    let i = info(info_flags::MODS);
    let mods = [Module { mod_start: 0x200000, mod_end: 0x201001, cmdline: 0, pad: 0 }];
    let sections = [
        (KERNEL_OFFSET + 0x110000, KERNEL_OFFSET + 0x112000),
        (KERNEL_OFFSET + 0x112000, KERNEL_OFFSET + 0x112800),
        (KERNEL_OFFSET + 0x113000, KERNEL_OFFSET + 0x113000),
        (KERNEL_OFFSET + 0x113000, KERNEL_OFFSET + 0x113010),
        (KERNEL_OFFSET + 0x114000, KERNEL_OFFSET + 0x115000),
        (KERNEL_OFFSET + 0x115000, KERNEL_OFFSET + 0x118001),
    ];
    let mut out = Vec::new();
    i.generate_identity_maps((0x100000, 0x101800), sections, &mods, &mut out);
    let w = PageType::default().writable();
    assert_eq!(out.len(), 9);
    assert_eq!(out[0], (KERNEL_OFFSET, 256, Some((0, w))));
    assert_eq!(out[1], (KERNEL_OFFSET + 0x100000, 2, Some((0x100000, w))));
    assert_eq!(out[2], (KERNEL_OFFSET + 0x110000, 2, Some((0x110000, PageType::default().executable()))));
    assert_eq!(out[3], (KERNEL_OFFSET + 0x112000, 1, Some((0x112000, PageType::default()))));
    assert_eq!(out[4].1, 0);
    assert_eq!(out[5].1, 1);
    assert_eq!(out[7], (KERNEL_OFFSET + 0x115000, 4, Some((0x115000, w))));
    assert_eq!(out[8], (KERNEL_OFFSET + 0x200000, 2, Some((0x200000, PageType::default()))));
}

#[test]
fn identity_maps_skip_modules_without_the_flag() {
    let mods = [Module { mod_start: 0x200000, mod_end: 0x201001, cmdline: 0, pad: 0 }];
    let sections = [(KERNEL_OFFSET + 0x110000, KERNEL_OFFSET + 0x112000); 6];
    let mut out = Vec::new();
    info(0).generate_identity_maps((0x100000, 0x101000), sections, &mods, &mut out);
    assert_eq!(out.len(), 8);
    assert_eq!(out[1].1, 1);
}

#[test]
fn mmap_entry_fields() {
    let e = MmapEntry { size: 20, addr: 0x1000, len: 0x2000, kind: 3 };
    assert!(!e.is_available());
    assert_eq!(e.range(), (0x1000, 0x3000));
}

#[test]
fn console_config_by_framebuffer_type() {
    let mut linear = info(0);
    linear.framebuffer_type = 1;
    linear.framebuffer_addr = 0xfd00_0000;
    linear.framebuffer_width = 1024;
    linear.framebuffer_height = 768;
    linear.framebuffer_pitch = 4096;
    linear.framebuffer_bpp = 32;
    match console_config(&linear) {
        Some(FramebufferConfig::LinearPixel(c)) => {
            assert_eq!(c.buffer, 0xffff_ffff_0000_0000);
            assert_eq!((c.width, c.height, c.pitch, c.bits_per_pixel), (1024, 768, 4096, 32));
            let ColorFormat::Rgb { red, green, blue } = c.color_format;
            assert_eq!((red.shift, red.mask_bits), (1, 2));
            assert_eq!((green.shift, green.mask_bits), (3, 4));
            assert_eq!((blue.shift, blue.mask_bits), (5, 6));
        },
        other => panic!("expected a linear framebuffer, got {:?}", other),
    }

    let mut vga = info(0);
    vga.framebuffer_type = 2;
    vga.framebuffer_addr = 0xb8000;
    vga.framebuffer_width = 80;
    vga.framebuffer_height = 25;
    match console_config(&vga) {
        Some(FramebufferConfig::VgaTextMode(c)) => {
            assert_eq!((c.width, c.height, c.port), (80, 25, 0x3d4));
            assert_eq!(c.buffer, KERNEL_OFFSET + 0xb8000);
        },
        other => panic!("expected VGA text mode, got {:?}", other),
    }

    let mut unknown = info(0);
    unknown.framebuffer_type = 0;
    assert!(console_config(&unknown).is_none());
}

#[test]
fn program_header_page_types() {
    use_page_type(false, false, 0b100);
    use_page_type(true, false, 0b110);
    use_page_type(false, true, 0b101);
    use_page_type(true, true, 0b111);
}

fn use_page_type(writable: bool, executable: bool, bits: u8) {
    let data = [0u8; 4];
    let phdr = kit_kernel::elf::ElfProgramHeader {
        region_type: kit_kernel::elf::RegionType::Load,
        readable: true,
        writable,
        executable,
        data: &data,
        mem_offset: 0x40_0000,
        mem_size: 4,
    };
    let t = phdr.page_type();
    assert!(t.is_user());
    assert_eq!(t.is_writable(), writable);
    assert_eq!(t.is_executable(), executable);
    assert_eq!(t, PageType::from_bits(bits));
}
