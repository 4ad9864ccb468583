//! Starting programs: a file from the system archive, checked to be an
//! executable, loaded into a new process that is then queued to run.

use vstd::prelude::*;

use crate::c_ffi::{c_str_len, CStr};
use crate::elf::{
    has_magic, headers, image_loadable, is_amd64_executable, law_load_with_enough_memory, need_from, segs_fit, Elf,
    Executable,
};
use crate::memory::phys::RegionState;
use crate::paging::PAGE_SIZE;
use crate::process::x86_64::{HwState, ARGS_TOP_ADDR, STACK_SIZE};
use crate::process::{args_size, args_view, spec_divup, Id, MappedRun, ProcessTable, SegmentWrite, State};

verus! {

/// The text that `String::from_utf8_lossy` decodes from `bytes`.
pub uninterp spec fn utf8_lossy(bytes: Seq<u8>) -> Seq<char>;

/// `String::from_utf8_lossy`: the bytes decoded as UTF-8, each invalid
/// sequence replaced by U+FFFD. The contract only names the result: it
/// depends on the bytes alone.
#[verifier::external_body]
fn string_from_utf8_lossy(bytes: &[u8]) -> (r: String)
    ensures
        r@ == utf8_lossy(bytes@),
{
    String::from_utf8_lossy(bytes).into_owned()
}

/// Why a program could not be started.
#[derive(Debug, Clone, Copy, PartialEq, Eq, Structural)]
pub enum SpawnError {
    NoProgramSpecified,
    FileNotFound,
    ElfVerifyError,
    ElfNotExecutable,
    ExecLoadError,
    SetArgsError,
}

/// The bytes start with an ELF identification of version 1.
pub open spec fn elf_ok(b: Seq<u8>) -> bool {
    b.len() >= 16 && has_magic(b) && b[6] == 1
}

/// The file is there and is not an ELF file.
pub open spec fn not_elf(data: Option<&[u8]>) -> bool {
    match data {
        Some(d) => !elf_ok(d@),
        None => false,
    }
}

/// The file is an ELF file but not an executable for this machine.
pub open spec fn not_executable(data: Option<&[u8]>) -> bool {
    match data {
        Some(d) => elf_ok(d@) && !is_amd64_executable(d@),
        None => false,
    }
}

/// The file is an executable for this machine.
pub open spec fn executable(data: Option<&[u8]>) -> bool {
    match data {
        Some(d) => elf_ok(d@) && is_amd64_executable(d@),
        None => false,
    }
}

/// The file is a named executable whose segments lie in the user half, and
/// there are free pages for the stack, the segments and the arguments: then
/// starting it succeeds.
pub open spec fn enough_to_spawn(phys: RegionState, filename: &CStr, data: Option<&[u8]>, argv: Seq<Vec<u8>>) -> bool {
    &&& c_str_len(filename.buffer()) != 0
    &&& executable(data)
    &&& segs_fit(headers(data.unwrap()@))
    &&& phys.free_count() >= STACK_SIZE / PAGE_SIZE + need_from(headers(data.unwrap()@), 0) + spec_divup(
        args_size(args_view(argv)),
        PAGE_SIZE as int,
    )
}

/// Start the program `filename`, whose file holds `data` (none if the file
/// was not found), with the arguments `argv`: it must be named, found, an
/// ELF file and an executable, in that order; then a new process named
/// after it is created with the hardware state `hw`, the executable is
/// loaded into it and the arguments are set, and the process runs and is
/// queued. The runs of pages acquired go to `mapped`, the bytes to write
/// into the new process's memory to `writes`.
pub fn spawn(
    table: &mut ProcessTable,
    phys: &mut RegionState,
    filename: &CStr,
    data: Option<&[u8]>,
    argv: &[Vec<u8>],
    hw: HwState,
    mapped: &mut Vec<MappedRun>,
    writes: &mut Vec<SegmentWrite>,
) -> (r: Result<Id, SpawnError>)
    requires
        old(table).wf(),
        old(table).spec_next_id() != u32::MAX,
        old(phys).wf(),
        old(phys).free_count() >= STACK_SIZE / PAGE_SIZE,
        usize::MAX == u64::MAX,
        argv@.len() <= i32::MAX,
        args_size(args_view(argv@)) <= ARGS_TOP_ADDR,
        executable(data) ==> image_loadable(data.unwrap()@),
    ensures
        final(table).wf(),
        final(phys).wf(),
        c_str_len(filename.buffer()) == 0 ==> r == Err::<Id, SpawnError>(SpawnError::NoProgramSpecified),
        c_str_len(filename.buffer()) != 0 && data is None ==> r == Err::<Id, SpawnError>(SpawnError::FileNotFound),
        c_str_len(filename.buffer()) != 0 && not_elf(data) ==> r == Err::<Id, SpawnError>(SpawnError::ElfVerifyError),
        c_str_len(filename.buffer()) != 0 && not_executable(data) ==> r == Err::<Id, SpawnError>(
            SpawnError::ElfNotExecutable,
        ),
        !(c_str_len(filename.buffer()) != 0 && executable(data)) ==> {
            &&& *final(table) == *old(table)
            &&& *final(phys) == *old(phys)
            &&& final(mapped)@ == old(mapped)@
            &&& final(writes)@ == old(writes)@
        },
        c_str_len(filename.buffer()) != 0 && executable(data) ==> {
            let id = old(table).spec_next_id();
            let p = final(table).procs().last();
            &&& r == Ok::<Id, SpawnError>(id) || r == Err::<Id, SpawnError>(SpawnError::ExecLoadError) || r == Err::<
                Id,
                SpawnError,
            >(SpawnError::SetArgsError)
            &&& final(table).spec_next_id() == id + 1
            &&& final(table).procs().len() == old(table).procs().len() + 1
            &&& final(table).procs().drop_last() == old(table).procs()
            &&& p.spec_id() == id
            &&& p.spec_pgid() == id
            &&& p.spec_name() == utf8_lossy(filename.buffer().subrange(0, c_str_len(filename.buffer())))
            &&& p.spec_mem() == Some(id)
            &&& final(table).current_id() == old(table).current_id()
            &&& r is Ok ==> p.spec_state() == State::Running && final(table).run_queue() == old(table).run_queue().push(id)
            &&& r is Err ==> p.spec_state() == State::Loading && final(table).run_queue() == old(table).run_queue()
        },
        enough_to_spawn(*old(phys), filename, data, argv@) ==> r == Ok::<Id, SpawnError>(old(table).spec_next_id()),
{
    if filename.is_empty() {
        return Err(SpawnError::NoProgramSpecified);
    }
    let data = match data {
        Some(d) => d,
        None => {
            return Err(SpawnError::FileNotFound);
        },
    };
    let elf = match Elf::new(data) {
        Some(e) => e,
        None => {
            return Err(SpawnError::ElfVerifyError);
        },
    };
    let exe = match elf.as_executable() {
        Some(x) => x,
        None => {
            return Err(SpawnError::ElfNotExecutable);
        },
    };
    let name = string_from_utf8_lossy(filename.as_bytes());
    let ghost enough = enough_to_spawn(*old(phys), filename, Some(data), argv@);
    let id = table.create(phys, name, hw, mapped);
    let ghost t1 = *table;
    let ghost p1 = *phys;
    let ghost mapped1 = mapped@;
    let ghost writes1 = writes@;
    proof {
        assert(enough ==> p1.free_count() == old(phys).free_count() - STACK_SIZE / PAGE_SIZE);
        let a = args_view(argv@);
        crate::process::lemma_args_text_len_prefix(a, a.len() as int);
        assert(a.take(a.len() as int) =~= a);
        assert(spec_divup(args_size(a), PAGE_SIZE as int) >= 0);
    }
    let loaded = table.load_newest(&exe, phys, mapped, writes);
    proof {
        if enough {
            law_load_with_enough_memory(
                headers(data@),
                t1.mems().last().spec_id(),
                t1.mems().last().spec_pages(),
                p1,
                table.mems().last().spec_pages(),
                *phys,
                mapped@.skip(mapped1.len() as int),
                crate::process::writes_view(writes@.skip(writes1.len() as int)),
                loaded,
            );
        }
    }
    match loaded {
        Ok(()) => {},
        Err(_) => {
            return Err(SpawnError::ExecLoadError);
        },
    }
    assert(enough ==> phys.free_count() >= spec_divup(args_size(args_view(argv@)), PAGE_SIZE as int));
    let image = table.set_args_newest(phys, argv, mapped);
    match image {
        Ok(Some(image)) => {
            writes.push(SegmentWrite { vaddr: image.vaddr, bytes: image.bytes });
        },
        Ok(None) => {},
        Err(_) => {
            return Err(SpawnError::SetArgsError);
        },
    }
    let i = match table.index_of(id) {
        Some(i) => i,
        None => {
            proof {
                let n = table.procs().len() - 1;
                assert(table.at(id, n));
            }
            return Err(SpawnError::SetArgsError);
        },
    };
    proof {
        let n = table.procs().len() - 1;
        assert(table.at(id, n));
        table.lemma_at_unique(id, i as int, n);
    }
    let ghost before_run = *table;
    table.set_state(id, i, State::Running);
    proof {
        assert(table.at(id, i as int));
        table.lemma_state_at(id, i as int);
    }
    crate::scheduler::push(table, id);
    proof {
        assert(table.procs().drop_last() =~= old(table).procs()) by {
            assert forall|q: int| 0 <= q < old(table).procs().len() implies table.procs().drop_last()[q] == old(table).procs()[q] by {
                assert(table.procs()[q] == before_run.procs()[q]);
            }
        }
    }
    Ok(id)
}

} // verus!
