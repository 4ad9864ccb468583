use kit_kernel::archive::{spawn, SpawnError};
use kit_kernel::c_ffi::CStr;
use kit_kernel::memory::phys::RegionState;
use kit_kernel::paging::x86_64::Error as PagingError;
use kit_kernel::process::x86_64::HwState;
use kit_kernel::process::{Error, ProcessMem, ProcessTable};

/// A 64-bit little-endian x86-64 ELF header of type `elf_type`, with no
/// program headers and entry point 0x40_0000.
fn elf_header(elf_type: u16) -> Vec<u8> {
    let mut b = vec![0u8; 64];
    b[0..4].copy_from_slice(&[0x7f, 0x45, 0x4c, 0x46]);
    b[4] = 2;
    b[5] = 1;
    b[6] = 1;
    b[16..18].copy_from_slice(&elf_type.to_le_bytes());
    b[18..20].copy_from_slice(&62u16.to_le_bytes());
    b[20..24].copy_from_slice(&1u32.to_le_bytes());
    b[24..32].copy_from_slice(&0x40_0000u64.to_le_bytes());
    b[32..40].copy_from_slice(&64u64.to_le_bytes());
    b[54..56].copy_from_slice(&56u16.to_le_bytes());
    b
}

fn run_spawn(name: &[u8], data: Option<&[u8]>) -> (ProcessTable, Result<u32, SpawnError>, usize) {
    let mut table = ProcessTable::initialize(HwState::new(0));
    let mut phys = RegionState::initialize(&[0x100000..0x140000]);
    let mut mapped = Vec::new();
    let mut writes = Vec::new();
    let argv = vec![b"prog".to_vec()];
    let r = spawn(
        &mut table,
        &mut phys,
        &CStr::new(name),
        data,
        &argv,
        HwState::new(0),
        &mut mapped,
        &mut writes,
    );
    (table, r, mapped.len())
}

#[test]
fn spawn_without_a_name() {
    let (_, r, n) = run_spawn(b"\0", None);
    assert_eq!(r, Err(SpawnError::NoProgramSpecified));
    assert_eq!(n, 0);
}

#[test]
fn spawn_missing_file() {
    let (_, r, _) = run_spawn(b"prog\0", None);
    assert_eq!(r, Err(SpawnError::FileNotFound));
}

#[test]
fn spawn_file_that_is_not_elf() {
    let data = b"#!/bin/sh\necho this is not an executable\n".to_vec();
    let (table, r, n) = run_spawn(b"prog\0", Some(&data));
    assert_eq!(r, Err(SpawnError::ElfVerifyError));
    assert_eq!(n, 0);
    assert!(table.by_id(1).is_none());
}

#[test]
fn spawn_relocatable_object() {
    let data = elf_header(1);
    let (_, r, _) = run_spawn(b"prog\0", Some(&data));
    assert_eq!(r, Err(SpawnError::ElfNotExecutable));
}

#[test]
fn spawn_executable_runs_new_process() {
    let data = elf_header(2);
    let (table, r, n) = run_spawn(b"prog\0", Some(&data));
    assert_eq!(r, Ok(1));
    let p = table.by_id(1).unwrap();
    assert!(p.is_running());
    assert_eq!(p.name(), "prog");
    assert_eq!(p.pgid(), 1);
    // The stack and the argument page were mapped.
    assert_eq!(n, 2);
}

#[test]
fn map_allocate_refuses_kernel_half() {
    let mut phys = RegionState::initialize(&[0x100000..0x110000]);
    let mut mem = ProcessMem::new(7, 0x1_0000_0000);
    let mut mapped = Vec::new();
    let t = kit_kernel::paging::PageType::default().writable();
    assert_eq!(
        mem.map_allocate(&mut phys, 0xffff_8000_0000_0000, 4096, t, &mut mapped),
        Err(Error::PagingError(PagingError::OutOfUserRange(0xffff_8000_0000_0000)))
    );
}

#[test]
fn unmap_deallocate_clears_pages() {
    let mut phys = RegionState::initialize(&[0x100000..0x110000]);
    let mut mem = ProcessMem::new(7, 0x1_0000_0000);
    let mut mapped = Vec::new();
    let t = kit_kernel::paging::PageType::default().writable();
    assert_eq!(mem.map_allocate(&mut phys, 0x40_0000, 3 * 4096, t, &mut mapped), Ok(()));
    assert_eq!(mem.unmap_deallocate(0x40_0000, 4096 + 1), Ok(()));
    assert!(mem.pageset().get(0x40_0000).is_none());
    assert!(mem.pageset().get(0x40_1000).is_none());
    assert!(mem.pageset().get(0x40_2000).is_some());
    assert_eq!(
        mem.unmap_deallocate(0xffff_8000_0000_0000, 1),
        Err(Error::PagingError(PagingError::OutOfUserRange(0xffff_8000_0000_0000)))
    );
}
