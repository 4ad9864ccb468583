//! Executable and Linkable Format header parsing and segment loading.

use vstd::prelude::*;

use crate::memory::phys::RegionState;
use crate::paging::{Page, PageType, PAGE_SIZE};
use crate::process::{
    entry_set, map_allocated, retyped_runs, runs_mapped, user_range_fits, spec_divup, writes_view, Error as ProcessError, Id, Image, MappedRun,
    Process, ProcessMem, SegmentWrite, State,
};

verus! {

/// Little-endian 16-bit value at `off`.
pub open spec fn spec_u16_le(b: Seq<u8>, off: int) -> int {
    b[off] + 256 * b[off + 1]
}

/// Little-endian 32-bit value at `off`.
pub open spec fn spec_u32_le(b: Seq<u8>, off: int) -> int {
    spec_u16_le(b, off) + 65536 * spec_u16_le(b, off + 2)
}

/// Little-endian 64-bit value at `off`.
pub open spec fn spec_u64_le(b: Seq<u8>, off: int) -> int {
    spec_u32_le(b, off) + 4294967296 * spec_u32_le(b, off + 4)
}

pub(crate) fn read_u16(buffer: &[u8], offset: usize) -> (r: u16)
    requires
        offset + 2 <= buffer@.len(),
    ensures
        r == spec_u16_le(buffer@, offset as int),
{
    (buffer[offset] as u16) + (buffer[offset + 1] as u16) * 256
}

pub(crate) fn read_u32(buffer: &[u8], offset: usize) -> (r: u32)
    requires
        offset + 4 <= buffer@.len(),
    ensures
        r == spec_u32_le(buffer@, offset as int),
{
    let len = buffer.len();
    assert(offset + 4 <= len);
    (read_u16(buffer, offset) as u32) + (read_u16(buffer, offset + 2) as u32) * 65536
}

pub(crate) fn read_u64(buffer: &[u8], offset: usize) -> (r: u64)
    requires
        offset + 8 <= buffer@.len(),
    ensures
        r == spec_u64_le(buffer@, offset as int),
{
    let len = buffer.len();
    assert(offset + 8 <= len);
    (read_u32(buffer, offset) as u64) + (read_u32(buffer, offset + 4) as u64) * 4294967296
}

/// The ELF magic number.
pub open spec fn has_magic(b: Seq<u8>) -> bool {
    b[0] == 0x7f && b[1] == 0x45 && b[2] == 0x4c && b[3] == 0x46
}

/// A buffer that starts with an ELF identification of version 1.
#[derive(Clone, Copy)]
pub struct Elf<'a> {
    buffer: &'a [u8],
}

impl<'a> Elf<'a> {
    pub closed spec fn bytes(&self) -> Seq<u8> {
        self.buffer@
    }

    /// At least 16 bytes, the magic number and version 1.
    pub open spec fn wf(&self) -> bool {
        self.bytes().len() >= 16 && has_magic(self.bytes()) && self.bytes()[6] == 1
    }

    pub fn new(buffer: &'a [u8]) -> (r: Option<Elf<'a>>)
        ensures
            match r {
                Some(e) => e.bytes() == buffer@ && e.wf(),
                None => !(buffer@.len() >= 16 && has_magic(buffer@) && buffer@[6] == 1),
            },
    {
        // Require at least 16 bytes.
        if buffer.len() < 16 {
            return None;
        }
        // Match magic string and version number (1).
        if buffer[0] != 0x7f || buffer[1] != 0x45 || buffer[2] != 0x4c || buffer[3] != 0x46
            || buffer[6] != 1 {
            return None;
        }
        Some(Elf { buffer })
    }

    pub fn os_abi(&self) -> (r: u8)
        requires
            self.wf(),
        ensures
            r == self.bytes()[7],
    {
        self.buffer[7]
    }

    pub fn abi_version(&self) -> (r: u8)
        requires
            self.wf(),
        ensures
            r == self.bytes()[8],
    {
        self.buffer[8]
    }

    pub fn as_elf64_le(&self) -> (r: Option<Elf64Le<'a>>)
        ensures
            match r {
                Some(e) => e.bytes() == self.bytes() && e.wf(),
                None => !elf64_le_ok(self.bytes()),
            },
    {
        Elf64Le::new(self.buffer)
    }

    pub fn as_executable(&'a self) -> (r: Option<Executable<'a>>)
        requires
            self.wf(),
        ensures
            r.is_some() == is_amd64_executable(self.bytes()),
            match r {
                Some(x) => x.elf64_le().bytes() == self.bytes(),
                None => true,
            },
    {
        Executable::new(self)
    }
}

#[derive(Debug, Clone, Copy, PartialEq, Eq, Structural)]
pub enum ElfType {
    NoType,
    Relocatable,
    Executable,
    Dynamic,
    CoreDump,
    Unknown(u16),
}

pub open spec fn elf_type_of(n: u16) -> ElfType {
    if n == 0 {
        ElfType::NoType
    } else if n == 1 {
        ElfType::Relocatable
    } else if n == 2 {
        ElfType::Executable
    } else if n == 3 {
        ElfType::Dynamic
    } else if n == 4 {
        ElfType::CoreDump
    } else {
        ElfType::Unknown(n)
    }
}

/// The ELF standard's `e_type` codes, stored little-endian as the bytes
/// `lo`, `hi`: 0 none, 1 relocatable, 2 executable, 3 shared object, 4 core
/// file; any other code is kept as it is.
pub open spec fn elf_type_code(lo: u8, hi: u8, t: ElfType) -> bool {
    &&& hi == 0 && lo == 0 ==> t == ElfType::NoType
    &&& hi == 0 && lo == 1 ==> t == ElfType::Relocatable
    &&& hi == 0 && lo == 2 ==> t == ElfType::Executable
    &&& hi == 0 && lo == 3 ==> t == ElfType::Dynamic
    &&& hi == 0 && lo == 4 ==> t == ElfType::CoreDump
    &&& (hi != 0 || lo > 4) ==> t == ElfType::Unknown((lo + 256 * hi) as u16)
}

/// The ELF standard's `e_machine` codes, stored little-endian as the bytes
/// `lo`, `hi`: 0 none, 3 Intel 80386, 62 AMD x86-64; any other code is kept
/// as it is.
pub open spec fn machine_code(lo: u8, hi: u8, m: Machine) -> bool {
    &&& hi == 0 && lo == 0 ==> m == Machine::NoMachine
    &&& hi == 0 && lo == 3 ==> m == Machine::Intel386
    &&& hi == 0 && lo == 62 ==> m == Machine::Amd64
    &&& !(hi == 0 && (lo == 0 || lo == 3 || lo == 62)) ==> m == Machine::Unknown((lo + 256 * hi) as u16)
}

/// The type and machine read from bytes 16..18 and 18..20 of a header
/// follow the standard codes.
pub proof fn law_elf_header_codes(b: Seq<u8>)
    requires
        b.len() >= 20,
    ensures
        elf_type_code(b[16], b[17], elf_type_of(spec_u16_le(b, 16) as u16)),
        machine_code(b[18], b[19], machine_of(spec_u16_le(b, 18) as u16)),
{
}

#[derive(Debug, Clone, Copy, PartialEq, Eq, Structural)]
pub enum Machine {
    NoMachine,
    Intel386,
    Amd64,
    Unknown(u16),
}

pub open spec fn machine_of(n: u16) -> Machine {
    if n == 0 {
        Machine::NoMachine
    } else if n == 3 {
        Machine::Intel386
    } else if n == 62 {
        Machine::Amd64
    } else {
        Machine::Unknown(n)
    }
}

/// At least 64 bytes, 64-bit class, little endian.
pub open spec fn elf64_le_ok(b: Seq<u8>) -> bool {
    b.len() >= 64 && b[4] == 2 && b[5] == 1
}

/// An ELF identification accepted as a 64-bit little-endian x86-64
/// executable with the System V ABI.
pub open spec fn is_amd64_executable(b: Seq<u8>) -> bool {
    &&& b[7] == 0
    &&& b[8] == 0
    &&& elf64_le_ok(b)
    &&& elf_type_of(spec_u16_le(b, 16) as u16) == ElfType::Executable
    &&& machine_of(spec_u16_le(b, 18) as u16) == Machine::Amd64
}

/// A 64-bit little-endian ELF file.
#[derive(Clone, Copy)]
pub struct Elf64Le<'a> {
    buffer: &'a [u8],
}

impl<'a> Elf64Le<'a> {
    pub closed spec fn bytes(&self) -> Seq<u8> {
        self.buffer@
    }

    pub open spec fn wf(&self) -> bool {
        elf64_le_ok(self.bytes())
    }

    fn new(buffer: &'a [u8]) -> (r: Option<Elf64Le<'a>>)
        ensures
            match r {
                Some(e) => e.bytes() == buffer@ && e.wf(),
                None => !elf64_le_ok(buffer@),
            },
    {
        // Require at least 64 bytes.
        if buffer.len() < 64 {
            return None;
        }
        // Require 64-bit class.
        if buffer[4] != 2 {
            return None;
        }
        // Require little endian.
        if buffer[5] != 1 {
            return None;
        }
        Some(Elf64Le { buffer })
    }

    pub fn elf_type(&self) -> (r: ElfType)
        requires
            self.wf(),
        ensures
            r == elf_type_of(spec_u16_le(self.bytes(), 16) as u16),
            elf_type_code(self.bytes()[16], self.bytes()[17], r),
    {
        proof {
            law_elf_header_codes(self.bytes());
        }
        match read_u16(self.buffer, 16) {
            0 => ElfType::NoType,
            1 => ElfType::Relocatable,
            2 => ElfType::Executable,
            3 => ElfType::Dynamic,
            4 => ElfType::CoreDump,
            n => ElfType::Unknown(n),
        }
    }

    pub fn machine(&self) -> (r: Machine)
        requires
            self.wf(),
        ensures
            r == machine_of(spec_u16_le(self.bytes(), 18) as u16),
            machine_code(self.bytes()[18], self.bytes()[19], r),
    {
        proof {
            law_elf_header_codes(self.bytes());
        }
        match read_u16(self.buffer, 18) {
            0 => Machine::NoMachine,
            3 => Machine::Intel386,
            62 => Machine::Amd64,
            n => Machine::Unknown(n),
        }
    }

    pub fn entry(&self) -> (r: usize)
        requires
            self.wf(),
        ensures
            r == (spec_u64_le(self.bytes(), 24) as u64) as usize,
    {
        read_u64(self.buffer, 24) as usize
    }

    pub fn program_headers(&'a self) -> (r: ElfProgramHeaders<'a>)
        requires
            self.wf(),
        ensures
            r.elf.bytes() == self.bytes(),
            r.offset == (spec_u64_le(self.bytes(), 32) as u64) as usize,
            r.header_size == spec_u16_le(self.bytes(), 54),
            r.count == spec_u16_le(self.bytes(), 56),
            r.index == 0,
    {
        let e_phoff = read_u64(self.buffer, 32) as usize;
        let e_phentsize = read_u16(self.buffer, 54) as usize;
        let e_phnum = read_u16(self.buffer, 56) as usize;
        ElfProgramHeaders {
            elf: self,
            offset: e_phoff,
            header_size: e_phentsize,
            index: 0,
            count: e_phnum,
        }
    }
}

/// Walks the program header table.
pub struct ElfProgramHeaders<'a> {
    pub elf: &'a Elf64Le<'a>,
    pub offset: usize,
    pub header_size: usize,
    pub index: usize,
    pub count: usize,
}

#[derive(Debug, Clone, Copy, PartialEq, Eq, Structural)]
pub enum RegionType {
    Null,
    Load,
    Dynamic,
    Interpreter,
    Note,
    ProgramHeader,
    Unknown(u32),
}

pub open spec fn region_type_of(n: u32) -> RegionType {
    if n == 0 {
        RegionType::Null
    } else if n == 1 {
        RegionType::Load
    } else if n == 2 {
        RegionType::Dynamic
    } else if n == 3 {
        RegionType::Interpreter
    } else if n == 4 {
        RegionType::Note
    } else if n == 6 {
        RegionType::ProgramHeader
    } else {
        RegionType::Unknown(n)
    }
}

/// One program header: the segment's type, permissions, file contents and
/// place in memory.
pub struct ElfProgramHeader<'a> {
    pub region_type: RegionType,
    pub readable: bool,
    pub writable: bool,
    pub executable: bool,
    pub data: &'a [u8],
    pub mem_offset: usize,
    pub mem_size: usize,
}

/// Offset of program header `index`.
pub open spec fn phdr_offset(offset: usize, index: usize, header_size: usize) -> int {
    offset + index * header_size
}

/// Program header `index` lies inside the buffer, and so does the file
/// data it refers to.
pub open spec fn phdr_in_bounds(b: Seq<u8>, offset: usize, index: usize, header_size: usize) -> bool {
    let o = phdr_offset(offset, index, header_size);
    &&& o + 48 <= b.len()
    &&& spec_u64_le(b, o + 8) + spec_u64_le(b, o + 32) <= b.len()
}

impl<'a> ElfProgramHeaders<'a> {
    /// The next program header, if any are left.
    pub fn next(&mut self) -> (r: Option<ElfProgramHeader<'a>>)
        requires
            old(self).index < old(self).count ==> phdr_in_bounds(
                old(self).elf.bytes(),
                old(self).offset,
                old(self).index,
                old(self).header_size,
            ),
        ensures
            final(self).elf == old(self).elf,
            final(self).offset == old(self).offset,
            final(self).header_size == old(self).header_size,
            final(self).count == old(self).count,
            old(self).index < old(self).count ==> final(self).index == old(self).index + 1,
            old(self).index >= old(self).count ==> final(self).index == old(self).index && r.is_none(),
            match r {
                Some(ph) => {
                    let b = old(self).elf.bytes();
                    let o = phdr_offset(old(self).offset, old(self).index, old(self).header_size);
                    let flags = spec_u32_le(b, o + 4) as u32;
                    let start = spec_u64_le(b, o + 8);
                    &&& old(self).index < old(self).count
                    &&& ph.region_type == region_type_of(spec_u32_le(b, o) as u32)
                    &&& ph.readable == (flags & 4 == 4)
                    &&& ph.writable == (flags & 2 == 2)
                    &&& ph.executable == (flags & 1 == 1)
                    &&& ph.data@ == b.subrange(start, start + spec_u64_le(b, o + 32))
                    &&& ph.mem_offset == (spec_u64_le(b, o + 16) as u64) as usize
                    &&& ph.mem_size == (spec_u64_le(b, o + 40) as u64) as usize
                },
                None => old(self).index >= old(self).count,
            },
    {
        if self.index < self.count {
            let buffer = self.elf.buffer;
            let len = buffer.len();
            proof {
                assert(self.index * self.header_size <= len) by (nonlinear_arith)
                    requires
                        self.offset + self.index * self.header_size + 48 <= len,
                        self.offset >= 0,
                ;
            }
            let o = self.offset + self.index * self.header_size;
            self.index = self.index + 1;
            let flags = read_u32(buffer, o + 4);
            let data_start = read_u64(buffer, o + 8) as usize;
            let data_end = data_start + read_u64(buffer, o + 32) as usize;
            let region_type = match read_u32(buffer, o) {
                0 => RegionType::Null,
                1 => RegionType::Load,
                2 => RegionType::Dynamic,
                3 => RegionType::Interpreter,
                4 => RegionType::Note,
                6 => RegionType::ProgramHeader,
                n => RegionType::Unknown(n),
            };
            Some(
                ElfProgramHeader {
                    region_type,
                    readable: flags & 4 == 4,
                    writable: flags & 2 == 2,
                    executable: flags & 1 == 1,
                    data: &buffer[data_start..data_end],
                    mem_offset: read_u64(buffer, o + 16) as usize,
                    mem_size: read_u64(buffer, o + 40) as usize,
                },
            )
        } else {
            None
        }
    }
}

/// The bits of the page type of a loaded segment: user-accessible, then
/// writable and executable as its flags say.
pub open spec fn phdr_page_bits(writable: bool, executable: bool) -> u8 {
    let b = 0u8 | 4u8;
    let b = if writable {
        b | 2u8
    } else {
        b
    };
    if executable {
        b | 1u8
    } else {
        b
    }
}

impl<'a> ElfProgramHeader<'a> {
    /// The page type the segment's pages are given once loaded:
    /// user-accessible, writable and executable as its flags say.
    pub fn page_type(&self) -> (r: crate::paging::PageType)
        ensures
            r.bits() == phdr_page_bits(self.writable, self.executable),
            r.spec_is_user(),
            r.spec_is_writable() == self.writable,
            r.spec_is_executable() == self.executable,
    {
        let base = crate::paging::PageType::default();
        proof {
            let z = base.bits();
            assert(z == 0u8 ==> (z >> 0u8) & 1u8 != 1u8 && (z >> 1u8) & 1u8 != 1u8) by (bit_vector);
        }
        let mut page_type = base.user();
        if self.writable {
            page_type = page_type.writable();
        }
        if self.executable {
            page_type = page_type.executable();
        }
        page_type
    }

    /// Copy the data referenced by the program header into the destination
    /// buffer. The buffer must be large enough to fit the entire `mem_size`
    /// specified by the header, or `Err` will be returned with the
    /// difference. The bytes past the data, up to `mem_size`, are zeroed.
    pub fn load_into(&self, destination: &mut [u8]) -> (r: Result<(), usize>)
        requires
            self.mem_size == 0 || self.data@.len() <= self.mem_size,
        ensures
            self.mem_size == 0 ==> r == Ok::<(), usize>(()) && final(destination)@ == old(destination)@,
            self.mem_size > 0 && old(destination)@.len() < self.mem_size ==> r == Err::<(), usize>(
                (self.mem_size - old(destination)@.len()) as usize,
            ) && final(destination)@ == old(destination)@,
            self.mem_size > 0 && old(destination)@.len() >= self.mem_size ==> {
                &&& r == Ok::<(), usize>(())
                &&& final(destination)@.len() == old(destination)@.len()
                &&& final(destination)@.subrange(0, self.data@.len() as int) == self.data@
                &&& forall|i: int|
                    self.data@.len() <= i < self.mem_size ==> final(destination)@[i] == 0u8
                &&& forall|i: int|
                    self.mem_size <= i < old(destination)@.len() ==> final(destination)@[i]
                        == old(destination)@[i]
            },
    {
        if self.mem_size == 0 {
            return Ok(());
        }
        if destination.len() < self.mem_size {
            Err(self.mem_size - destination.len())
        } else {
            crate::util::copy_memory(self.data, destination);
            let mut i = self.data.len();
            while i < self.mem_size
                invariant
                    self.data@.len() <= i <= self.mem_size <= destination@.len(),
                    destination@.len() == old(destination)@.len(),
                    destination@.subrange(0, self.data@.len() as int) == self.data@,
                    forall|k: int| self.data@.len() <= k < i ==> destination@[k] == 0u8,
                    forall|k: int|
                        self.mem_size <= k < destination@.len() ==> destination@[k]
                            == old(destination)@[k],
                decreases self.mem_size - i,
            {
                destination[i] = 0;
                proof {
                    assert(destination@.subrange(0, self.data@.len() as int) =~= self.data@);
                }
                i = i + 1;
            }
            Ok(())
        }
    }
}

/// An ELF file accepted for execution.
#[derive(Clone, Copy)]
pub struct Executable<'a> {
    elf: &'a Elf<'a>,
    elf64_le: Elf64Le<'a>,
}

impl<'a> Executable<'a> {
    pub closed spec fn elf64_le(&self) -> Elf64Le<'a> {
        self.elf64_le
    }

    pub fn new(elf: &'a Elf<'a>) -> (r: Option<Executable<'a>>)
        requires
            elf.wf(),
        ensures
            r.is_some() == is_amd64_executable(elf.bytes()),
            match r {
                Some(x) => x.elf64_le().bytes() == elf.bytes() && x.elf64_le().wf(),
                None => true,
            },
    {
        if elf.os_abi() != 0 {
            return None;
        }
        if elf.abi_version() != 0 {
            return None;
        }
        if let Some(elf64_le) = Elf64Le::new(elf.buffer) {
            if elf64_le.elf_type() != ElfType::Executable {
                return None;
            }
            if elf64_le.machine() != Machine::Amd64 {
                return None;
            }
            Some(Executable { elf, elf64_le })
        } else {
            None
        }
    }

    /// The entry point address.
    pub fn entry(&self) -> (r: usize)
        requires
            self.elf64_le().wf(),
        ensures
            r == (spec_u64_le(self.elf64_le().bytes(), 24) as u64) as usize,
    {
        self.elf64_le.entry()
    }
}

/// A program header as the loader sees it: whether it is to be loaded,
/// whether it is writable and executable, its file bytes, and its address
/// and size in memory.
pub type SegmentSpec = (bool, bool, bool, Seq<u8>, usize, usize);

/// Program header `k` of the table at `offset`.
pub open spec fn header_at(b: Seq<u8>, offset: usize, header_size: usize, k: int) -> SegmentSpec {
    let o = phdr_offset(offset, k as usize, header_size);
    let flags = spec_u32_le(b, o + 4) as u32;
    let start = spec_u64_le(b, o + 8);
    (
        region_type_of(spec_u32_le(b, o) as u32) == RegionType::Load,
        flags & 2 == 2,
        flags & 1 == 1,
        b.subrange(start, start + spec_u64_le(b, o + 32)),
        (spec_u64_le(b, o + 16) as u64) as usize,
        (spec_u64_le(b, o + 40) as u64) as usize,
    )
}

/// The program header table: its offset, the size of an entry, and the
/// number of entries.
pub open spec fn phdr_table(b: Seq<u8>) -> (usize, usize, usize) {
    ((spec_u64_le(b, 32) as u64) as usize, spec_u16_le(b, 54) as usize, spec_u16_le(b, 56) as usize)
}

/// The program headers, in order.
pub open spec fn headers(b: Seq<u8>) -> Seq<SegmentSpec> {
    Seq::new(phdr_table(b).2 as nat, |k: int| header_at(b, phdr_table(b).0, phdr_table(b).1, k))
}

/// A segment to load fits its data in its memory size, and its pages in
/// the address space.
pub open spec fn segment_loadable(h: SegmentSpec) -> bool {
    h.0 ==> (h.5 == 0 || h.3.len() <= h.5) && h.4 + spec_divup(h.5 as int, PAGE_SIZE as int) * PAGE_SIZE
        <= usize::MAX + 1
}

/// Every program header lies in the file, and every segment to load is
/// loadable.
pub open spec fn image_loadable(b: Seq<u8>) -> bool {
    &&& elf64_le_ok(b)
    &&& forall|k: int|
        0 <= k < phdr_table(b).2 ==> phdr_in_bounds(b, phdr_table(b).0, k as usize, phdr_table(b).1)
            && segment_loadable(#[trigger] header_at(b, phdr_table(b).0, phdr_table(b).1, k))
}

/// The bytes a segment holds in memory: its file bytes, then zeros up to
/// its memory size.
pub open spec fn segment_bytes(data: Seq<u8>, size: usize) -> Seq<u8> {
    if size == 0 {
        seq![]
    } else {
        data + Seq::new((size - data.len()) as nat, |i: int| 0u8)
    }
}

/// Loading one program header into the memory space `id`: a header not to
/// load changes nothing; otherwise its pages are acquired and mapped
/// writable (failing as `map_allocate` fails), its bytes are to be written
/// at its address, and the runs are then mapped again with the type its
/// flags give.
#[verifier::opaque]
pub open spec fn seg_loaded(
    h: SegmentSpec,
    id: Id,
    m0: Seq<Page>,
    p0: RegionState,
    m1: Seq<Page>,
    p1: RegionState,
    runs: Seq<MappedRun>,
    writes: Seq<(usize, Seq<u8>)>,
    r: Result<(), ProcessError>,
) -> bool {
    if !h.0 {
        m1 == m0 && p1 == p0 && runs.len() == 0 && writes.len() == 0 && r is Ok
    } else {
        let pages = spec_divup(h.5 as int, PAGE_SIZE as int);
        ||| r is Err && writes.len() == 0 && map_allocated(id, m0, m1, p0, p1, h.4, pages, 6u8, runs, r)
        ||| r is Ok && writes == seq![(h.4, segment_bytes(h.3, h.5))] && exists|m: Seq<Page>|
            map_allocated(id, m0, m, p0, p1, h.4, pages, 6u8, runs, Ok(())) && m1 == #[trigger] runs_mapped(
                m,
                retyped_runs(runs, PageType::with_bits(phdr_page_bits(h.1, h.2))),
            )
    }
}

/// The result of loading step `q` of `n`: that of the whole for the last.
pub open spec fn step_result(q: int, n: int, r: Result<(), ProcessError>) -> Result<(), ProcessError> {
    if q == n - 1 {
        r
    } else {
        Ok(())
    }
}

/// The steps of loading the first `n` program headers of `hs` in order:
/// step `q` takes the pages and physical memory from `ms[q]`, `ps[q]` to
/// `ms[q + 1]`, `ps[q + 1]`, acquiring the runs and making the writes
/// between positions `ri[q]`, `ri[q + 1]` and `wi[q]`, `wi[q + 1]`; every
/// step but the last succeeds, and the last has the result `r`.
pub open spec fn load_steps(
    hs: Seq<SegmentSpec>,
    id: Id,
    ms: Seq<Seq<Page>>,
    ps: Seq<RegionState>,
    ri: Seq<int>,
    wi: Seq<int>,
    runs: Seq<MappedRun>,
    writes: Seq<(usize, Seq<u8>)>,
    n: int,
    r: Result<(), ProcessError>,
) -> bool {
    &&& 0 <= n <= hs.len()
    &&& ms.len() == n + 1 && ps.len() == n + 1 && ri.len() == n + 1 && wi.len() == n + 1
    &&& ri[0] == 0 && wi[0] == 0 && ri[n] == runs.len() && wi[n] == writes.len()
    &&& forall|a: int, b: int| 0 <= a <= b <= n ==> #[trigger] ri[a] <= #[trigger] ri[b]
    &&& forall|a: int, b: int| 0 <= a <= b <= n ==> #[trigger] wi[a] <= #[trigger] wi[b]
    &&& forall|q: int|
        #![trigger hs[q]]
        0 <= q < n ==> seg_loaded(
            hs[q],
            id,
            ms[q],
            ps[q],
            ms[q + 1],
            ps[q + 1],
            runs.subrange(ri[q], ri[q + 1]),
            writes.subrange(wi[q], wi[q + 1]),
            step_result(q, n, r),
        )
    &&& n == 0 ==> r is Ok
}

/// Loading the program headers `hs` in order, stopping at the first
/// failure: all of them with `Ok`, or some first ones, the last failing.
pub open spec fn segs_loaded(
    hs: Seq<SegmentSpec>,
    id: Id,
    m0: Seq<Page>,
    p0: RegionState,
    m1: Seq<Page>,
    p1: RegionState,
    runs: Seq<MappedRun>,
    writes: Seq<(usize, Seq<u8>)>,
    r: Result<(), ProcessError>,
) -> bool {
    exists|ms: Seq<Seq<Page>>, ps: Seq<RegionState>, ri: Seq<int>, wi: Seq<int>, n: int|
        #[trigger] load_steps(hs, id, ms, ps, ri, wi, runs, writes, n, r) && ms[0] == m0 && ps[0] == p0 && ms[n] == m1
            && ps[n] == p1 && (r is Ok ==> n == hs.len())
}

/// The pages a program header takes when loaded: those of its memory size,
/// for a header to be loaded.
pub open spec fn seg_need(h: SegmentSpec) -> int {
    if h.0 {
        spec_divup(h.5 as int, PAGE_SIZE as int)
    } else {
        0
    }
}

/// The pages the program headers from `q` on take when loaded.
pub open spec fn need_from(hs: Seq<SegmentSpec>, q: int) -> int
    decreases hs.len() - q,
{
    if q < 0 || q >= hs.len() {
        0
    } else {
        seg_need(hs[q]) + need_from(hs, q + 1)
    }
}

/// Every segment to be loaded lies below the end of the user half.
pub open spec fn segs_fit(hs: Seq<SegmentSpec>) -> bool {
    forall|k: int|
        0 <= k < hs.len() && (#[trigger] hs[k]).0 ==> user_range_fits(hs[k].4 as int, spec_divup(hs[k].5 as int, PAGE_SIZE as int))
}

proof fn lemma_need_nonneg(hs: Seq<SegmentSpec>, q: int)
    ensures
        need_from(hs, q) >= 0,
    decreases hs.len() - q,
{
    if 0 <= q < hs.len() {
        lemma_need_nonneg(hs, q + 1);
    }
}

/// Each successful loading step takes exactly the pages of its header.
proof fn lemma_steps_free(
    hs: Seq<SegmentSpec>,
    id: Id,
    ms: Seq<Seq<Page>>,
    ps: Seq<RegionState>,
    ri: Seq<int>,
    wi: Seq<int>,
    runs: Seq<MappedRun>,
    writes: Seq<(usize, Seq<u8>)>,
    n: int,
    r: Result<(), ProcessError>,
    q: int,
)
    requires
        load_steps(hs, id, ms, ps, ri, wi, runs, writes, n, r),
        0 <= q < n,
    ensures
        ps[q].free_count() == ps[0].free_count() - (need_from(hs, 0) - need_from(hs, q)),
    decreases q,
{
    if q > 0 {
        lemma_steps_free(hs, id, ms, ps, ri, wi, runs, writes, n, r, q - 1);
        let k = q - 1;
        let h = hs[k];
        assert(step_result(k, n, r) == Ok::<(), ProcessError>(()));
        let rs = runs.subrange(ri[k], ri[k + 1]);
        assert(seg_loaded(h, id, ms[k], ps[k], ms[k + 1], ps[k + 1], rs, writes.subrange(wi[k], wi[k + 1]), Ok(())));
        reveal(seg_loaded);
        if h.0 {
            let m = choose|m: Seq<Page>|
                map_allocated(id, ms[k], m, ps[k], ps[k + 1], h.4, spec_divup(h.5 as int, PAGE_SIZE as int), 6u8, rs, Ok(()))
                    && ms[k + 1] == #[trigger] runs_mapped(m, retyped_runs(rs, PageType::with_bits(phdr_page_bits(h.1, h.2))));
            assert(map_allocated(id, ms[k], m, ps[k], ps[k + 1], h.4, spec_divup(h.5 as int, PAGE_SIZE as int), 6u8, rs, Ok(())));
        }
        assert(need_from(hs, k) == seg_need(hs[k]) + need_from(hs, q));
    }
}

/// Loading with at least as many free pages as the segments take, each
/// segment below the end of the user half, succeeds and takes exactly those
/// pages.
pub proof fn law_load_with_enough_memory(
    hs: Seq<SegmentSpec>,
    id: Id,
    m0: Seq<Page>,
    p0: RegionState,
    m1: Seq<Page>,
    p1: RegionState,
    runs: Seq<MappedRun>,
    writes: Seq<(usize, Seq<u8>)>,
    r: Result<(), ProcessError>,
)
    requires
        segs_loaded(hs, id, m0, p0, m1, p1, runs, writes, r),
        segs_fit(hs),
        p0.free_count() >= need_from(hs, 0),
    ensures
        r is Ok,
        p1.free_count() == p0.free_count() - need_from(hs, 0),
{
    let (ms, ps, ri, wi, n) = choose|ms: Seq<Seq<Page>>, ps: Seq<RegionState>, ri: Seq<int>, wi: Seq<int>, n: int|
        #[trigger] load_steps(hs, id, ms, ps, ri, wi, runs, writes, n, r) && ms[0] == m0 && ps[0] == p0 && ms[n] == m1
            && ps[n] == p1 && (r is Ok ==> n == hs.len());
    if n == 0 {
        assert(r is Ok);
        assert(need_from(hs, 0) == 0);
    } else {
        let k = n - 1;
        lemma_steps_free(hs, id, ms, ps, ri, wi, runs, writes, n, r, k);
        lemma_need_nonneg(hs, k + 1);
        let h = hs[k];
        let rs = runs.subrange(ri[k], ri[k + 1]);
        assert(step_result(k, n, r) == r);
        assert(seg_loaded(h, id, ms[k], ps[k], ms[k + 1], ps[k + 1], rs, writes.subrange(wi[k], wi[k + 1]), r));
        assert(need_from(hs, k) == seg_need(h) + need_from(hs, k + 1));
        reveal(seg_loaded);
        if h.0 {
            assert(user_range_fits(h.4 as int, spec_divup(h.5 as int, PAGE_SIZE as int)));
            if r is Err {
                assert(map_allocated(id, ms[k], ms[k + 1], ps[k], ps[k + 1], h.4, spec_divup(h.5 as int, PAGE_SIZE as int), 6u8, rs, r));
            } else {
                let m = choose|m: Seq<Page>|
                    map_allocated(id, ms[k], m, ps[k], ps[k + 1], h.4, spec_divup(h.5 as int, PAGE_SIZE as int), 6u8, rs, Ok(()))
                        && ms[k + 1] == #[trigger] runs_mapped(m, retyped_runs(rs, PageType::with_bits(phdr_page_bits(h.1, h.2))));
                assert(map_allocated(id, ms[k], m, ps[k], ps[k + 1], h.4, spec_divup(h.5 as int, PAGE_SIZE as int), 6u8, rs, Ok(())));
            }
        }
        assert(r is Ok);
        assert(n == hs.len());
        assert(need_from(hs, n) == 0);
    }
}

/// One more loading step after `k` successful ones.
proof fn lemma_steps_push(
    hs: Seq<SegmentSpec>,
    id: Id,
    ms: Seq<Seq<Page>>,
    ps: Seq<RegionState>,
    ri: Seq<int>,
    wi: Seq<int>,
    runs: Seq<MappedRun>,
    writes: Seq<(usize, Seq<u8>)>,
    k: int,
    r2: Seq<MappedRun>,
    w2: Seq<(usize, Seq<u8>)>,
    m1: Seq<Page>,
    p1: RegionState,
    res: Result<(), ProcessError>,
)
    requires
        load_steps(hs, id, ms, ps, ri, wi, runs, writes, k, Ok(())),
        k < hs.len(),
        seg_loaded(hs[k], id, ms[k], ps[k], m1, p1, r2, w2, res),
    ensures
        load_steps(
            hs,
            id,
            ms.push(m1),
            ps.push(p1),
            ri.push((runs + r2).len() as int),
            wi.push((writes + w2).len() as int),
            runs + r2,
            writes + w2,
            k + 1,
            res,
        ),
{
    let ms2 = ms.push(m1);
    let ps2 = ps.push(p1);
    let ri2 = ri.push((runs + r2).len() as int);
    let wi2 = wi.push((writes + w2).len() as int);
    let rn = runs + r2;
    let wn = writes + w2;
    assert forall|a: int, b: int| 0 <= a <= b <= k + 1 implies #[trigger] ri2[a] <= #[trigger] ri2[b] by {
        if b <= k {
            assert(ri2[a] == ri[a] && ri2[b] == ri[b]);
        } else if a <= k {
            assert(ri2[a] == ri[a] && ri[a] <= ri[k]);
        }
    }
    assert forall|a: int, b: int| 0 <= a <= b <= k + 1 implies #[trigger] wi2[a] <= #[trigger] wi2[b] by {
        if b <= k {
            assert(wi2[a] == wi[a] && wi2[b] == wi[b]);
        } else if a <= k {
            assert(wi2[a] == wi[a] && wi[a] <= wi[k]);
        }
    }
    assert forall|q: int| 0 <= q < k + 1 implies #[trigger] seg_loaded(
        hs[q],
        id,
        ms2[q],
        ps2[q],
        ms2[q + 1],
        ps2[q + 1],
        rn.subrange(ri2[q], ri2[q + 1]),
        wn.subrange(wi2[q], wi2[q + 1]),
        step_result(q, k + 1, res),
    ) by {
        if q < k {
            assert(0 <= ri[0] <= ri[q] <= ri[q + 1] <= ri[k] && 0 <= wi[0] <= wi[q] <= wi[q + 1] <= wi[k]);
            assert(hs[q] == hs[q]);
            assert(rn.subrange(ri2[q], ri2[q + 1]) =~= runs.subrange(ri[q], ri[q + 1]));
            assert(wn.subrange(wi2[q], wi2[q + 1]) =~= writes.subrange(wi[q], wi[q + 1]));
            assert(seg_loaded(
                hs[q],
                id,
                ms[q],
                ps[q],
                ms[q + 1],
                ps[q + 1],
                runs.subrange(ri[q], ri[q + 1]),
                writes.subrange(wi[q], wi[q + 1]),
                step_result(q, k, Ok(())),
            ));
        } else {
            assert(rn.subrange(ri2[q], ri2[q + 1]) =~= r2);
            assert(wn.subrange(wi2[q], wi2[q + 1]) =~= w2);
        }
    }
}

/// The loader's view of a program header.
pub open spec fn spec_of(h: ElfProgramHeader) -> SegmentSpec {
    (h.region_type == RegionType::Load, h.writable, h.executable, h.data@, h.mem_offset, h.mem_size)
}

/// Load one program header to be loaded into `mem`.
fn load_segment(
    h: &ElfProgramHeader,
    mem: &mut ProcessMem,
    phys: &mut RegionState,
    mapped: &mut Vec<MappedRun>,
    writes: &mut Vec<SegmentWrite>,
) -> (r: Result<(), ProcessError>)
    requires
        h.region_type == RegionType::Load,
        segment_loadable(spec_of(*h)),
        old(mem).wf(),
        old(phys).wf(),
        usize::MAX == u64::MAX,
    ensures
        final(mem).wf(),
        final(phys).wf(),
        final(mem).spec_id() == old(mem).spec_id(),
        final(mem).spec_heap_base() == old(mem).spec_heap_base(),
        final(mem).spec_heap_length() == old(mem).spec_heap_length(),
        final(mapped)@.len() >= old(mapped)@.len(),
        final(mapped)@.take(old(mapped)@.len() as int) == old(mapped)@,
        final(writes)@.len() >= old(writes)@.len(),
        final(writes)@.take(old(writes)@.len() as int) == old(writes)@,
        seg_loaded(
            spec_of(*h),
            old(mem).spec_id(),
            old(mem).spec_pages(),
            *old(phys),
            final(mem).spec_pages(),
            *final(phys),
            final(mapped)@.skip(old(mapped)@.len() as int),
            writes_view(final(writes)@.skip(old(writes)@.len() as int)),
            r,
        ),
{
    let ghost m0 = mem.spec_pages();
    let ghost p0 = *phys;
    let ghost r0 = mapped@.len() as int;
    let ghost w0 = writes@;
    let writable = PageType::default().writable();
    proof {
        crate::process::lemma_type_bits();
    }
    let start = mapped.len();
    let res = mem.map_allocate(phys, h.mem_offset, h.mem_size, writable, mapped);
    proof {
        assert(mapped@.take(r0) =~= old(mapped)@) by {
            assert forall|k: int| 0 <= k < r0 implies mapped@.take(r0)[k] == old(mapped)@[k] by {}
        }
        assert(writes_view(writes@.skip(w0.len() as int)) =~= Seq::<(usize, Seq<u8>)>::empty());
        assert(writes@.take(w0.len() as int) =~= w0);
    }
    match res {
        Err(e) => {
            proof {
                reveal(seg_loaded);
            }
            return Err(e);
        },
        Ok(()) => {},
    }
    let ghost m = mem.spec_pages();
    let mut bytes: Vec<u8> = Vec::new();
    while bytes.len() < h.mem_size
        invariant
            bytes@ == Seq::new(bytes@.len(), |i: int| 0u8),
            bytes@.len() <= h.mem_size,
        decreases h.mem_size - bytes@.len(),
    {
        bytes.push(0);
        assert(bytes@ =~= Seq::new(bytes@.len(), |i: int| 0u8));
    }
    let loaded = h.load_into(bytes.as_mut_slice());
    proof {
        if h.mem_size > 0 {
            assert(bytes@ =~= segment_bytes(h.data@, h.mem_size)) by {
                assert(bytes@.subrange(0, h.data@.len() as int) == h.data@);
            }
        } else {
            assert(bytes@ =~= segment_bytes(h.data@, h.mem_size));
        }
    }
    writes.push(SegmentWrite { vaddr: h.mem_offset, bytes });
    let ghost wv = writes@;
    let t = h.page_type();
    let (_, runs) = mapped.as_slice().split_at(start);
    proof {
        assert(runs@ == mapped@.skip(r0));
        assert forall|k: int| 0 <= k < runs@.len() implies (#[trigger] runs@[k]).1 + runs@[k].2 * PAGE_SIZE <= usize::MAX by {
            assert(runs@[k] == mapped@.skip(r0)[k]);
        }
    }
    let r = mem.set_permissions(runs, t);
    proof {
        crate::paging::PageType::lemma_bits(t, PageType::with_bits(phdr_page_bits(h.writable, h.executable)), phdr_page_bits(h.writable, h.executable));
        assert(writes_view(writes@.skip(w0.len() as int)) =~= seq![(h.mem_offset, segment_bytes(h.data@, h.mem_size))]);
        assert(writes@.take(w0.len() as int) =~= w0);
        reveal(seg_loaded);
        let hs0 = spec_of(*h);
        let pages = spec_divup(hs0.5 as int, PAGE_SIZE as int);
        assert(map_allocated(old(mem).spec_id(), m0, m, p0, *phys, hs0.4, pages, 6u8, mapped@.skip(r0), Ok(())));
        assert(mem.spec_pages() == runs_mapped(m, retyped_runs(mapped@.skip(r0), PageType::with_bits(phdr_page_bits(hs0.1, hs0.2)))));
    }
    r
}

impl<'a> Image for Executable<'a> {
    open spec fn loadable(&self) -> bool {
        image_loadable(self.elf64_le().bytes())
    }

    open spec fn loads(
        &self,
        before: Process,
        after: Process,
        id: Id,
        pages0: Seq<Page>,
        pages1: Seq<Page>,
        phys0: RegionState,
        phys1: RegionState,
        runs: Seq<MappedRun>,
        writes: Seq<(usize, Seq<u8>)>,
        r: Result<(), ProcessError>,
    ) -> bool {
        &&& entry_set(before, after, (spec_u64_le(self.elf64_le().bytes(), 24) as u64) as usize)
        &&& segs_loaded(headers(self.elf64_le().bytes()), id, pages0, phys0, pages1, phys1, runs, writes, r)
    }

    /// Load each program header to be loaded, in order, stopping at the
    /// first failure; then set the entry point.
    fn load_into(
        &self,
        process: &mut Process,
        mem: &mut ProcessMem,
        phys: &mut RegionState,
        mapped: &mut Vec<MappedRun>,
        writes: &mut Vec<SegmentWrite>,
    ) -> (r: Result<(), ProcessError>) {
        let ghost b = self.elf64_le().bytes();
        let ghost hs = headers(b);
        let ghost id = mem.spec_id();
        let ghost m0 = mem.spec_pages();
        let ghost p0 = *phys;
        let ghost r0 = mapped@.len() as int;
        let ghost w0 = writes@.len() as int;
        let entry = self.elf64_le.entry();
        let mut it = self.elf64_le.program_headers();
        let ghost mut ms: Seq<Seq<Page>> = seq![m0];
        let ghost mut ps: Seq<RegionState> = seq![p0];
        let ghost mut ri: Seq<int> = seq![0];
        let ghost mut wi: Seq<int> = seq![0];
        proof {
            assert(mapped@.skip(r0) =~= Seq::<MappedRun>::empty());
            assert(writes_view(writes@.skip(w0)) =~= Seq::<(usize, Seq<u8>)>::empty());
            assert(mapped@.take(r0) =~= mapped@);
            assert(writes@.take(w0) =~= writes@);
        }
        while it.index < it.count
            invariant
                it.elf.bytes() == b,
                b == self.elf64_le().bytes(),
                image_loadable(b),
                hs == headers(b),
                (it.offset, it.header_size, it.count) == phdr_table(b),
                it.index <= it.count,
                mem.wf(),
                phys.wf(),
                usize::MAX == u64::MAX,
                mem.spec_id() == id,
                id == old(mem).spec_id(),
                m0 == old(mem).spec_pages(),
                p0 == *old(phys),
                mem.spec_heap_base() == old(mem).spec_heap_base(),
                mem.spec_heap_length() == old(mem).spec_heap_length(),
                *process == *old(process),
                old(process).spec_state() == State::Loading,
                entry == (spec_u64_le(b, 24) as u64) as usize,
                r0 == old(mapped)@.len(),
                w0 == old(writes)@.len(),
                mapped@.len() >= r0,
                mapped@.take(r0) == old(mapped)@,
                writes@.len() >= w0,
                writes@.take(w0) == old(writes)@,
                load_steps(hs, id, ms, ps, ri, wi, mapped@.skip(r0), writes_view(writes@.skip(w0)), it.index as int, Ok(())),
                ms[0] == m0,
                ps[0] == p0,
                ms[it.index as int] == mem.spec_pages(),
                ps[it.index as int] == *phys,
            decreases it.count - it.index,
        {
            let ghost k = it.index as int;
            let ghost mm = mem.spec_pages();
            let ghost pp = *phys;
            let ghost ml = mapped@;
            let ghost wl = writes@;
            proof {
                let o = phdr_table(b).0;
                let s = phdr_table(b).1;
                let n = phdr_table(b).2;
                assert(o == it.offset && s == it.header_size && n == it.count);
                assert(0 <= k < n);
                assert(image_loadable(b));
                let hk0 = header_at(b, o, s, k);
                assert(segment_loadable(hk0));
                assert(phdr_in_bounds(b, o, k as usize, s));
                assert(hs.len() == n);
            }
            let h = match it.next() {
                Some(h) => h,
                None => {
                    proof {
                        assert(false);
                    }
                    return Ok(());
                },
            };
            proof {
                assert(spec_of(h) == hs[k]);
            }
            let res = if h.region_type == RegionType::Load {
                load_segment(&h, mem, phys, mapped, writes)
            } else {
                Ok(())
            };
            proof {
                let rs0 = ml.skip(r0);
                let ws0 = writes_view(wl.skip(w0));
                let r2 = mapped@.skip(ml.len() as int);
                let w2 = writes_view(writes@.skip(wl.len() as int));
                if h.region_type != RegionType::Load {
                    assert(r2 =~= Seq::<MappedRun>::empty());
                    assert(w2 =~= Seq::<(usize, Seq<u8>)>::empty());
                    assert(seg_loaded(hs[k], id, mm, pp, mem.spec_pages(), *phys, r2, w2, res)) by {
                        reveal(seg_loaded);
                    }
                }
                assert(mapped@.take(r0) =~= old(mapped)@) by {
                    assert forall|q: int| 0 <= q < r0 implies mapped@.take(r0)[q] == old(mapped)@[q] by {
                        assert(mapped@[q] == ml[q]);
                        assert(ml.take(r0)[q] == old(mapped)@[q]);
                    }
                }
                assert(writes@.take(w0) =~= old(writes)@) by {
                    assert forall|q: int| 0 <= q < w0 implies writes@.take(w0)[q] == old(writes)@[q] by {
                        assert(writes@[q] == wl[q]);
                        assert(wl.take(w0)[q] == old(writes)@[q]);
                    }
                }
                assert(mapped@.skip(r0) =~= rs0 + r2);
                assert(writes_view(writes@.skip(w0)) =~= ws0 + w2);
                lemma_steps_push(hs, id, ms, ps, ri, wi, rs0, ws0, k, r2, w2, mem.spec_pages(), *phys, res);
                ms = ms.push(mem.spec_pages());
                ps = ps.push(*phys);
                ri = ri.push((rs0 + r2).len() as int);
                wi = wi.push((ws0 + w2).len() as int);
            }
            match res {
                Err(e) => {
                    process.set_entry_point(entry);
                    proof {
                        assert(load_steps(hs, id, ms, ps, ri, wi, mapped@.skip(r0), writes_view(writes@.skip(w0)), k + 1, res));
                    }
                    return Err(e);
                },
                Ok(u) => {
                    proof {
                        assert(res == Ok::<(), ProcessError>(u));
                        assert(res == Ok::<(), ProcessError>(()));
                        assert(load_steps(hs, id, ms, ps, ri, wi, mapped@.skip(r0), writes_view(writes@.skip(w0)), k + 1, Ok(())));
                        assert(it.index == k + 1);
                    }
                },
            }
        }
        process.set_entry_point(entry);
        Ok(())
    }
}

} // verus!
