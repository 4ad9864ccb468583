//! Processes, their life cycle, and the table of all processes.

pub mod x86_64;

use vstd::prelude::*;

use crate::memory::phys::{acquire_map_post, kernel_acquire_and_map, pages_range, AcquiredMappedRegion, PageCount, RegionState, RegionUser};
use crate::paging::tree::{half_end, half_exit, range_error, with_run, Pageset};
use crate::paging::x86_64::{spec_vaddr_ok, Pml4Kind};
use crate::paging::{Error as PagingError, Page, PageType, PAGE_SIZE};
use crate::sync::WaitQueue;

use x86_64::{HwState, Registers};

verus! {

pub type Id = u32;

/// Where a process is in its life.
#[derive(PartialEq, Eq, PartialOrd, Ord, Copy, Clone, Debug, Structural)]
pub enum State {
    Loading,
    Running,
    Sleeping,
    Dead,
}

impl State {
    /// A short name for the state, for listings.
    pub fn short_description(&self) -> (r: &'static str)
        ensures
            r@ == match *self {
                State::Loading => "Load"@,
                State::Running => "Run"@,
                State::Sleeping => "Slp"@,
                State::Dead => "Dead"@,
            },
    {
        match *self {
            State::Loading => "Load",
            State::Running => "Run",
            State::Sleeping => "Slp",
            State::Dead => "Dead",
        }
    }
}

/// Errors of process memory management.
#[derive(PartialEq, Eq, Debug, Clone, Copy)]
pub enum Error {
    /// An error occurred while trying to modify pages.
    PagingError(PagingError),
    /// Ran out of free physical regions to allocate pages with (the number of
    /// pages allocated).
    OutOfMemory(usize),
    /// An integer overflow occurred (parameter too big or too small).
    Overflow,
    /// Unknown process id.
    UnknownPid(Id),
}

impl From<PagingError> for Error {
    fn from(paging_error: PagingError) -> (r: Error) {
        Error::PagingError(paging_error)
    }
}

impl vstd::std_specs::convert::FromSpecImpl<PagingError> for Error {
    open spec fn obeys_from_spec() -> bool {
        true
    }

    open spec fn from_spec(paging_error: PagingError) -> Error {
        Error::PagingError(paging_error)
    }
}

/// Something that can be loaded into a process: into its memory space
/// `mem`, with physical pages from `phys`. The runs of pages acquired are
/// recorded in `mapped`; the bytes to be written into user memory, at the
/// addresses given, are recorded in `writes`.
pub trait Image {
    /// The image is well enough formed to be loaded.
    spec fn loadable(&self) -> bool;

    /// Loading the image turns the process `before` into `after`, the
    /// pages of its memory space `id` from `pages0` into `pages1` and the
    /// physical memory from `phys0` into `phys1`, acquiring `runs` and
    /// leaving `writes` to be made, with the result `r`.
    spec fn loads(
        &self,
        before: Process,
        after: Process,
        id: Id,
        pages0: Seq<Page>,
        pages1: Seq<Page>,
        phys0: RegionState,
        phys1: RegionState,
        runs: Seq<MappedRun>,
        writes: Seq<(usize, Seq<u8>)>,
        r: Result<(), Error>,
    ) -> bool;

    fn load_into(
        &self,
        process: &mut Process,
        mem: &mut ProcessMem,
        phys: &mut RegionState,
        mapped: &mut Vec<MappedRun>,
        writes: &mut Vec<SegmentWrite>,
    ) -> (r: Result<(), Error>)
        requires
            self.loadable(),
            old(mem).wf(),
            old(phys).wf(),
            usize::MAX == u64::MAX,
            old(process).spec_state() == State::Loading,
        ensures
            final(mem).wf(),
            final(phys).wf(),
            final(mem).spec_id() == old(mem).spec_id(),
            final(mem).spec_heap_base() == old(mem).spec_heap_base(),
            final(mem).spec_heap_length() == old(mem).spec_heap_length(),
            final(mapped)@.len() >= old(mapped)@.len(),
            final(mapped)@.take(old(mapped)@.len() as int) == old(mapped)@,
            final(writes)@.len() >= old(writes)@.len(),
            final(writes)@.take(old(writes)@.len() as int) == old(writes)@,
            self.loads(
                *old(process),
                *final(process),
                old(mem).spec_id(),
                old(mem).spec_pages(),
                final(mem).spec_pages(),
                *old(phys),
                *final(phys),
                final(mapped)@.skip(old(mapped)@.len() as int),
                writes_view(final(writes)@.skip(old(writes)@.len() as int)),
                r,
            ),
    ;
}

/// Bytes to be written into user memory at `vaddr`.
#[derive(Debug)]
pub struct SegmentWrite {
    pub vaddr: usize,
    pub bytes: Vec<u8>,
}

/// The address and bytes of each write.
pub open spec fn writes_view(s: Seq<SegmentWrite>) -> Seq<(usize, Seq<u8>)> {
    s.map_values(|w: SegmentWrite| (w.vaddr, w.bytes@))
}

/// `after` is `before` with the user instruction pointer at `vaddr`.
pub open spec fn entry_set(before: Process, after: Process, vaddr: usize) -> bool {
    &&& after.same_but_state(before)
    &&& after.spec_state() == before.spec_state()
    &&& *after.spec_hw_state().kernel_state() == *before.spec_hw_state().kernel_state()
    &&& after.spec_hw_state().user_state().registers == (Registers {
        rip: vaddr,
        ..before.spec_hw_state().user_state().registers
    })
}

/// A process.
#[derive(Debug)]
pub struct Process {
    id: Id,
    /// Subprocesses spawned from the same process share it.
    pgid: Id,
    name: String,
    state: State,
    hw_state: HwState,
    /// The id of the memory space, which subprocesses share.
    mem: Option<Id>,
    exit_status: i32,
    /// The processes waiting for this one to exit.
    exit_wait: WaitQueue,
}

impl Process {
    pub closed spec fn spec_id(&self) -> Id {
        self.id
    }

    pub closed spec fn spec_pgid(&self) -> Id {
        self.pgid
    }

    pub closed spec fn spec_name(&self) -> Seq<char> {
        self.name@
    }

    pub closed spec fn spec_state(&self) -> State {
        self.state
    }

    pub closed spec fn spec_mem(&self) -> Option<Id> {
        self.mem
    }

    /// The saved hardware state.
    pub closed spec fn spec_hw_state(&self) -> HwState {
        self.hw_state
    }

    pub closed spec fn spec_exit_status(&self) -> i32 {
        self.exit_status
    }

    pub closed spec fn spec_exit_wait(&self) -> Seq<Id> {
        self.exit_wait.queue()
    }

    /// The process is running or sleeping.
    pub open spec fn alive(&self) -> bool {
        self.spec_state() == State::Running || self.spec_state() == State::Sleeping
    }

    /// A new process in the `Loading` state.
    pub fn new(id: Id, pgid: Id, name: String, hw_state: HwState, mem: Option<Id>) -> (r: Process)
        ensures
            r.spec_id() == id,
            r.spec_pgid() == pgid,
            r.spec_name() == name@,
            r.spec_state() == State::Loading,
            r.spec_mem() == mem,
            r.spec_exit_status() == 0,
            r.spec_exit_wait().len() == 0,
    {
        Process { id, pgid, name, state: State::Loading, hw_state, mem, exit_status: 0, exit_wait: WaitQueue::new() }
    }

    pub fn id(&self) -> (r: Id)
        ensures
            r == self.spec_id(),
    {
        self.id
    }

    pub fn pgid(&self) -> (r: Id)
        ensures
            r == self.spec_pgid(),
    {
        self.pgid
    }

    pub fn name(&self) -> (r: &str)
        ensures
            r@ == self.spec_name(),
    {
        self.name.as_str()
    }

    pub fn set_name(&mut self, name: String)
        ensures
            final(self).spec_name() == name@,
            final(self).spec_id() == old(self).spec_id(),
            final(self).spec_pgid() == old(self).spec_pgid(),
            final(self).spec_state() == old(self).spec_state(),
            final(self).spec_mem() == old(self).spec_mem(),
            final(self).spec_exit_status() == old(self).spec_exit_status(),
            final(self).spec_exit_wait() == old(self).spec_exit_wait(),
    {
        self.name = name;
    }

    pub fn state(&self) -> (r: State)
        ensures
            r == self.spec_state(),
    {
        self.state
    }

    /// The id of the process's memory space, if it has one.
    pub fn mem(&self) -> (r: Option<Id>)
        ensures
            r == self.spec_mem(),
    {
        self.mem
    }

    pub fn hw_state(&self) -> (r: &HwState)
        ensures
            *r == self.spec_hw_state(),
    {
        &self.hw_state
    }

    pub fn hw_state_mut(&mut self) -> (r: &mut HwState)
        ensures
            *r == old(self).spec_hw_state(),
            final(self).spec_hw_state() == *final(r),
            final(self).spec_id() == old(self).spec_id(),
            final(self).spec_pgid() == old(self).spec_pgid(),
            final(self).spec_name() == old(self).spec_name(),
            final(self).spec_state() == old(self).spec_state(),
            final(self).spec_mem() == old(self).spec_mem(),
            final(self).spec_exit_status() == old(self).spec_exit_status(),
            final(self).spec_exit_wait() == old(self).spec_exit_wait(),
    {
        &mut self.hw_state
    }

    /// The processes waiting for this one to exit.
    pub fn exit_wait(&self) -> (r: &WaitQueue)
        ensures
            r.queue() == self.spec_exit_wait(),
    {
        &self.exit_wait
    }

    pub fn exit_wait_mut(&mut self) -> (r: &mut WaitQueue)
        ensures
            r.queue() == old(self).spec_exit_wait(),
            final(self).spec_exit_wait() == final(r).queue(),
            final(self).spec_id() == old(self).spec_id(),
            final(self).spec_pgid() == old(self).spec_pgid(),
            final(self).spec_name() == old(self).spec_name(),
            final(self).spec_state() == old(self).spec_state(),
            final(self).spec_mem() == old(self).spec_mem(),
            final(self).spec_exit_status() == old(self).spec_exit_status(),
    {
        &mut self.exit_wait
    }

    pub fn is_running(&self) -> (r: bool)
        ensures
            r == (self.spec_state() == State::Running),
    {
        self.state == State::Running
    }

    pub fn is_sleeping(&self) -> (r: bool)
        ensures
            r == (self.spec_state() == State::Sleeping),
    {
        self.state == State::Sleeping
    }

    /// True if the process is `Running` or `Sleeping`.
    pub fn is_alive(&self) -> (r: bool)
        ensures
            r == self.alive(),
    {
        self.is_running() || self.is_sleeping()
    }

    pub fn is_loading(&self) -> (r: bool)
        ensures
            r == (self.spec_state() == State::Loading),
    {
        self.state == State::Loading
    }

    pub fn is_dead(&self) -> (r: bool)
        ensures
            r == (self.spec_state() == State::Dead),
    {
        self.state == State::Dead
    }

    /// The exit status of the process if it has exited.
    pub fn exit_status(&self) -> (r: Option<i32>)
        ensures
            r == (if self.spec_state() == State::Dead { Some(self.spec_exit_status()) } else { None }),
    {
        if self.state == State::Dead {
            Some(self.exit_status)
        } else {
            None
        }
    }

    /// Load an image into the process and its memory space `mem`.
    pub fn load<T: Image>(
        &mut self,
        image: &T,
        mem: &mut ProcessMem,
        phys: &mut RegionState,
        mapped: &mut Vec<MappedRun>,
        writes: &mut Vec<SegmentWrite>,
    ) -> (r: Result<(), Error>)
        requires
            image.loadable(),
            old(mem).wf(),
            old(phys).wf(),
            usize::MAX == u64::MAX,
            old(self).spec_state() == State::Loading,
        ensures
            final(mem).wf(),
            final(phys).wf(),
            final(mem).spec_id() == old(mem).spec_id(),
            final(mem).spec_heap_base() == old(mem).spec_heap_base(),
            final(mem).spec_heap_length() == old(mem).spec_heap_length(),
            final(mapped)@.len() >= old(mapped)@.len(),
            final(mapped)@.take(old(mapped)@.len() as int) == old(mapped)@,
            final(writes)@.len() >= old(writes)@.len(),
            final(writes)@.take(old(writes)@.len() as int) == old(writes)@,
            image.loads(
                *old(self),
                *final(self),
                old(mem).spec_id(),
                old(mem).spec_pages(),
                final(mem).spec_pages(),
                *old(phys),
                *final(phys),
                final(mapped)@.skip(old(mapped)@.len() as int),
                writes_view(final(writes)@.skip(old(writes)@.len() as int)),
                r,
            ),
    {
        image.load_into(self, mem, phys, mapped, writes)
    }

    /// Pass the arguments `(argc, argv)`, or none, to the entry point.
    pub fn set_args(&mut self, args: Option<(i32, usize)>)
        requires
            old(self).spec_state() == State::Loading,
        ensures
            final(self).same_but_state(*old(self)),
            final(self).spec_state() == old(self).spec_state(),
            *final(self).spec_hw_state().kernel_state() == *old(self).spec_hw_state().kernel_state(),
            final(self).spec_hw_state().user_state().registers == (match args {
                Some((argc, argv)) => Registers { rdi: argc as usize, rsi: argv, ..old(self).spec_hw_state().user_state().registers },
                None => Registers { rdi: 0, rsi: 0, ..old(self).spec_hw_state().user_state().registers },
            }),
    {
        self.hw_state.user_mut().set_args(args);
    }

    /// Set the address the process starts executing at.
    pub fn set_entry_point(&mut self, vaddr: usize)
        requires
            old(self).spec_state() == State::Loading,
        ensures
            entry_set(*old(self), *final(self), vaddr),
    {
        self.hw_state.user_mut().set_instruction_pointer(vaddr);
    }

    /// Finish loading: the process may now be scheduled.
    pub fn run(&mut self)
        requires
            old(self).spec_state() == State::Loading,
        ensures
            final(self).spec_state() == State::Running,
            final(self).same_but_state(*old(self)),
    {
        self.state = State::Running;
    }

    /// Put a running or sleeping process to sleep.
    pub fn sleep(&mut self)
        requires
            old(self).alive(),
        ensures
            final(self).spec_state() == State::Sleeping,
            final(self).same_but_state(*old(self)),
    {
        self.state = State::Sleeping;
    }

    /// Wake a running or sleeping process.
    pub fn awaken(&mut self)
        requires
            old(self).alive(),
        ensures
            final(self).spec_state() == State::Running,
            final(self).same_but_state(*old(self)),
    {
        self.state = State::Running;
    }

    /// The process is dead, with the given exit status.
    pub fn exit(&mut self, exit_status: i32)
        ensures
            final(self).spec_state() == State::Dead,
            final(self).spec_exit_status() == exit_status,
            final(self).spec_id() == old(self).spec_id(),
            final(self).spec_pgid() == old(self).spec_pgid(),
            final(self).spec_name() == old(self).spec_name(),
            final(self).spec_mem() == old(self).spec_mem(),
            final(self).spec_exit_wait() == old(self).spec_exit_wait(),
    {
        self.state = State::Dead;
        self.exit_status = exit_status;
    }

    /// Everything but the exit wait queue is as in `other`.
    pub open spec fn same_but_exit_wait(&self, other: Process) -> bool {
        &&& self.spec_id() == other.spec_id()
        &&& self.spec_pgid() == other.spec_pgid()
        &&& self.spec_name() == other.spec_name()
        &&& self.spec_mem() == other.spec_mem()
        &&& self.spec_state() == other.spec_state()
        &&& self.spec_exit_status() == other.spec_exit_status()
    }

    /// Everything but the state is as in `other`.
    pub open spec fn same_but_state(&self, other: Process) -> bool {
        &&& self.spec_id() == other.spec_id()
        &&& self.spec_pgid() == other.spec_pgid()
        &&& self.spec_name() == other.spec_name()
        &&& self.spec_mem() == other.spec_mem()
        &&& self.spec_exit_status() == other.spec_exit_status()
        &&& self.spec_exit_wait() == other.spec_exit_wait()
    }
}

/// A mapping of a physical run into a process: virtual address, physical
/// address, pages and page type.
pub type MappedRun = (usize, usize, usize, PageType);

/// The memory space of a process: its page tables and its heap.
pub struct ProcessMem {
    id: Id,
    pageset: Pageset,
    heap_base: usize,
    heap_length: usize,
}

/// `n` divided by `d`, rounded up.
pub open spec fn spec_divup(n: int, d: int) -> int {
    if n % d == 0 {
        n / d
    } else {
        n / d + 1
    }
}

fn divup(dividend: usize, divisor: usize) -> (r: usize)
    requires
        divisor > 0,
    ensures
        r == spec_divup(dividend as int, divisor as int),
{
    if dividend % divisor == 0 {
        dividend / divisor
    } else {
        assert(dividend / divisor < usize::MAX) by (nonlinear_arith)
            requires
                divisor > 1,
        ;
        dividend / divisor + 1
    }
}

/// A change to the pages of a heap: pages to map (grow) or to unmap
/// (shrink).
#[derive(Debug, Clone, Copy, PartialEq, Eq, Structural)]
pub enum HeapChange {
    Unchanged,
    Grow { base: usize, size: usize },
    Shrink { base: usize, size: usize },
}

/// The little-endian bytes of the low `n` bytes of `x`.
pub open spec fn le_bytes(x: nat, n: nat) -> Seq<u8>
    decreases n,
{
    if n == 0 {
        seq![]
    } else {
        seq![(x % 256) as u8] + le_bytes(x / 256, (n - 1) as nat)
    }
}

/// The bytes the arguments take with a NUL after each.
pub open spec fn args_text_len(args: Seq<Seq<u8>>) -> int
    decreases args.len(),
{
    if args.len() == 0 {
        0
    } else {
        args_text_len(args.drop_last()) + args.last().len() + 1
    }
}

/// The bytes of the arguments, each followed by a NUL.
pub open spec fn args_text(args: Seq<Seq<u8>>) -> Seq<u8>
    decreases args.len(),
{
    if args.len() == 0 {
        seq![]
    } else {
        args_text(args.drop_last()) + args.last() + seq![0u8]
    }
}

/// The pointer table: for each argument, the address it is copied to, as
/// a little-endian 64-bit word; the text starts at `text`.
pub open spec fn args_pointers(args: Seq<Seq<u8>>, text: int) -> Seq<u8>
    decreases args.len(),
{
    if args.len() == 0 {
        seq![]
    } else {
        args_pointers(args.drop_last(), text) + le_bytes(
            (text + args_text_len(args.drop_last())) as nat,
            8,
        )
    }
}

/// The bytes the arguments take in the process: the pointer table and the
/// text.
pub open spec fn args_size(args: Seq<Seq<u8>>) -> int {
    args_text_len(args) + 8 * args.len()
}

/// Where the arguments go: below `ARGS_TOP_ADDR`, page-aligned.
pub open spec fn args_vaddr(args: Seq<Seq<u8>>) -> int {
    (x86_64::ARGS_TOP_ADDR - args_size(args)) - (x86_64::ARGS_TOP_ADDR - args_size(args)) % (PAGE_SIZE as int)
}

/// The view of an argument list.
pub open spec fn args_view(args: Seq<Vec<u8>>) -> Seq<Seq<u8>> {
    args.map_values(|a: Vec<u8>| a@)
}

/// The arguments of a process as they are to be placed in its memory: the
/// count, the address of the pointer table, and the bytes from there on.
#[derive(Debug, Clone)]
pub struct ArgsImage {
    pub argc: i32,
    pub vaddr: usize,
    pub bytes: Vec<u8>,
}

fn push_le_bytes(out: &mut Vec<u8>, x: u64, n: usize)
    requires
        n <= 8,
    ensures
        final(out)@ == old(out)@ + le_bytes(x as nat, n as nat),
    decreases n,
{
    if n > 0 {
        out.push((x % 256) as u8);
        push_le_bytes(out, x / 256, n - 1);
        assert(old(out)@ + le_bytes(x as nat, n as nat) =~= old(out)@.push((x % 256) as u8) + le_bytes(
            (x / 256) as nat,
            (n - 1) as nat,
        ));
    }
}

fn args_image(args: &[Vec<u8>], vaddr: usize) -> (r: Vec<u8>)
    requires
        vaddr + args_size(args_view(args@)) <= u64::MAX,
    ensures
        r@ == args_pointers(args_view(args@), vaddr + 8 * args@.len()) + args_text(args_view(args@)),
{
    let ghost a = args_view(args@);
    let n = args.len();
    proof {
        lemma_args_text_len_prefix(a, a.len() as int);
        assert(a.take(a.len() as int) =~= a);
    }
    let text_start: u64 = vaddr as u64 + 8 * n as u64;
    let mut table: Vec<u8> = Vec::new();
    let mut text: Vec<u8> = Vec::new();
    let mut i: usize = 0;
    while i < n
        invariant
            i <= n == args@.len(),
            a == args_view(args@),
            text_start == vaddr + 8 * n,
            vaddr + args_size(a) <= u64::MAX,
            forall|k: int| 0 <= k <= n ==> args_text_len(#[trigger] a.take(k)) <= args_text_len(a),
            table@ == args_pointers(a.take(i as int), text_start as int),
            text@ == args_text(a.take(i as int)),
            text@.len() == args_text_len(a.take(i as int)),
        decreases n - i,
    {
        let ghost t = a.take(i as int);
        let ghost t1 = a.take(i + 1);
        assert(t1.drop_last() =~= t);
        assert(t1.last() == args@[i as int]@);
        assert(args_text_len(t1) <= args_text_len(a));
        let ptr: u64 = text_start + text.len() as u64;
        push_le_bytes(&mut table, ptr, 8);
        let arg = &args[i];
        let mut k: usize = 0;
        let ghost before = text@;
        while k < arg.len()
            invariant
                k <= arg@.len(),
                text@ == before + arg@.take(k as int),
            decreases arg@.len() - k,
        {
            text.push(arg[k]);
            k = k + 1;
            assert(before + arg@.take(k as int) =~= (before + arg@.take((k - 1) as int)).push(arg@[k - 1]));
        }
        text.push(0);
        assert(arg@.take(arg@.len() as int) =~= arg@);
        i = i + 1;
    }
    assert(a.take(n as int) =~= a);
    let mut r = table;
    let mut j: usize = 0;
    let ghost head = r@;
    while j < text.len()
        invariant
            j <= text@.len(),
            r@ == head + text@.take(j as int),
        decreases text@.len() - j,
    {
        r.push(text[j]);
        j = j + 1;
        assert(head + text@.take(j as int) =~= (head + text@.take((j - 1) as int)).push(text@[j - 1]));
    }
    assert(text@.take(text@.len() as int) =~= text@);
    r
}

pub(crate) proof fn lemma_args_text_len_prefix(a: Seq<Seq<u8>>, m: int)
    requires
        0 <= m <= a.len(),
    ensures
        forall|k: int| 0 <= k <= m ==> args_text_len(#[trigger] a.take(k)) <= args_text_len(a.take(m)),
        args_text_len(a.take(m)) >= 0,
    decreases m,
{
    if m > 0 {
        lemma_args_text_len_prefix(a, m - 1);
        assert(a.take(m).drop_last() =~= a.take(m - 1));
    }
    assert(a.take(a.len() as int) =~= a);
}

impl ProcessMem {
    pub closed spec fn spec_id(&self) -> Id {
        self.id
    }

    pub closed spec fn spec_heap_base(&self) -> usize {
        self.heap_base
    }

    pub closed spec fn spec_heap_length(&self) -> usize {
        self.heap_length
    }

    /// The pages of the memory space, by page number.
    pub closed spec fn spec_pages(&self) -> Seq<Page> {
        self.pageset.pages()
    }

    /// The page tables cover the user half.
    pub closed spec fn wf(&self) -> bool {
        self.pageset.kind() == Pml4Kind::User
    }

    /// A memory space with nothing mapped and an empty heap at `heap_base`.
    pub fn new(id: Id, heap_base: usize) -> (r: ProcessMem)
        ensures
            r.wf(),
            r.spec_id() == id,
            r.spec_heap_base() == heap_base,
            r.spec_heap_length() == 0,
            r.spec_pages() == Seq::new(0x10_0000_0000, |i: int| None::<(usize, PageType)>),
    {
        ProcessMem { id, pageset: Pageset::new(), heap_base, heap_length: 0 }
    }

    /// The page tables of the memory space.
    pub fn pageset(&self) -> (r: &Pageset)
        ensures
            r.pages() == self.spec_pages(),
            self.wf() ==> r.kind() == Pml4Kind::User,
    {
        &self.pageset
    }

    /// Map the runs of pages `runs` again, in order, with the type
    /// `page_type`: the pages they hold get that type.
    pub fn set_permissions(&mut self, runs: &[MappedRun], page_type: PageType) -> (r: Result<(), Error>)
        requires
            old(self).wf(),
            usize::MAX == u64::MAX,
            forall|k: int| 0 <= k < runs@.len() ==> (#[trigger] runs@[k]).1 + runs@[k].2 * PAGE_SIZE <= usize::MAX,
        ensures
            final(self).wf(),
            final(self).spec_id() == old(self).spec_id(),
            final(self).spec_heap_base() == old(self).spec_heap_base(),
            final(self).spec_heap_length() == old(self).spec_heap_length(),
            runs_fit(runs@) ==> r is Ok && final(self).spec_pages() == runs_mapped(
                old(self).spec_pages(),
                retyped_runs(runs@, page_type),
            ),
            r is Err ==> !runs_fit(runs@),
    {
        let mut k: usize = 0;
        while k < runs.len()
            invariant
                self.wf(),
                usize::MAX == u64::MAX,
                k <= runs@.len(),
                forall|q: int| 0 <= q < runs@.len() ==> (#[trigger] runs@[q]).1 + runs@[q].2 * PAGE_SIZE <= usize::MAX,
                runs_fit(runs@.take(k as int)),
                self.spec_pages() == runs_mapped(old(self).spec_pages(), retyped_runs(runs@.take(k as int), page_type)),
                self.spec_id() == old(self).spec_id(),
                self.spec_heap_base() == old(self).spec_heap_base(),
                self.spec_heap_length() == old(self).spec_heap_length(),
            decreases runs@.len() - k,
        {
            let run = runs[k];
            let ghost pre = self.spec_pages();
            let res = self.pageset.map_pages_with_type(run.0, run.1, run.2, page_type);
            proof {
                let rr = (run.0, run.1, run.2, page_type);
                assert(retyped_runs(runs@.take(k + 1), page_type).drop_last() =~= retyped_runs(runs@.take(k as int), page_type));
                assert(retyped_runs(runs@.take(k + 1), page_type).last() == rr);
                assert(self.spec_pages() == map_run(pre, rr));
            }
            match res {
                Ok(()) => {},
                Err(e) => {
                    proof {
                        assert(runs@[k as int] == run);
                    }
                    return Err(Error::PagingError(e));
                },
            }
            proof {
                assert forall|q: int| 0 <= q < k + 1 implies run_fits(#[trigger] runs@.take(k + 1)[q]) by {
                    if q < k {
                        assert(runs@.take(k + 1)[q] == runs@.take(k as int)[q]);
                    }
                }
            }
            k = k + 1;
        }
        proof {
            assert(runs@.take(k as int) =~= runs@);
        }
        Ok(())
    }

    pub fn heap_base(&self) -> (r: usize)
        ensures
            r == self.spec_heap_base(),
    {
        self.heap_base
    }

    pub fn heap_length(&self) -> (r: usize)
        ensures
            r == self.spec_heap_length(),
    {
        self.heap_length
    }

    /// The end of the heap, rounded up to a page.
    pub fn heap_end(&self) -> (r: usize)
        requires
            self.spec_heap_base() + self.spec_heap_length() + PAGE_SIZE <= usize::MAX,
        ensures
            r == crate::util::spec_align_up(self.spec_heap_base() + self.spec_heap_length(), PAGE_SIZE as int),
    {
        let page_size = PAGE_SIZE;
        let mut heap_end = self.heap_base + self.heap_length;
        if heap_end % page_size != 0 {
            heap_end = heap_end + (page_size - heap_end % page_size);
        }
        heap_end
    }

    /// Unmap the pages for `size` bytes from `vaddr` on. Their physical
    /// pages stay with this memory space: nothing here releases them.
    pub fn unmap_deallocate(&mut self, vaddr: usize, size: usize) -> (r: Result<(), Error>)
        requires
            old(self).wf(),
            usize::MAX == u64::MAX,
        ensures
            final(self).wf(),
            final(self).spec_id() == old(self).spec_id(),
            final(self).spec_heap_base() == old(self).spec_heap_base(),
            final(self).spec_heap_length() == old(self).spec_heap_length(),
            r is Ok || r matches Err(Error::PagingError(_)),
            unmapped(
                old(self).spec_pages(),
                final(self).spec_pages(),
                vaddr,
                spec_divup(size as int, PAGE_SIZE as int),
                match r {
                    Err(Error::PagingError(e)) => Err(e),
                    _ => Ok(()),
                },
            ),
    {
        let pages = divup(size, PAGE_SIZE);
        match self.pageset.unmap_pages(vaddr, pages) {
            Ok(()) => Ok(()),
            Err(e) => Err(Error::PagingError(e)),
        }
    }

    /// Map pages for `size` bytes from `vaddr` on, with `page_type` made
    /// user accessible: physical pages are acquired for this memory space a
    /// run at a time, each run mapped where the runs before it end and
    /// recorded in `mapped`. On running out of memory, the number of pages
    /// mapped so far; a run that leaves the user half is the paging error
    /// that mapping it gives.
    #[verifier::spinoff_prover]
    #[verifier::rlimit(80)]
    pub fn map_allocate(
        &mut self,
        phys: &mut RegionState,
        vaddr: usize,
        size: usize,
        page_type: PageType,
        mapped: &mut Vec<MappedRun>,
    ) -> (r: Result<(), Error>)
        requires
            old(self).wf(),
            old(phys).wf(),
            usize::MAX == u64::MAX,
            vaddr + spec_divup(size as int, PAGE_SIZE as int) * PAGE_SIZE <= usize::MAX + 1,
        ensures
            final(self).wf(),
            final(phys).wf(),
            final(self).spec_id() == old(self).spec_id(),
            final(self).spec_heap_base() == old(self).spec_heap_base(),
            final(self).spec_heap_length() == old(self).spec_heap_length(),
            final(mapped)@.len() >= old(mapped)@.len(),
            forall|k: int| 0 <= k < old(mapped)@.len() ==> final(mapped)@[k] == old(mapped)@[k],
            map_allocated(
                old(self).spec_id(),
                old(self).spec_pages(),
                final(self).spec_pages(),
                *old(phys),
                *final(phys),
                vaddr,
                spec_divup(size as int, PAGE_SIZE as int),
                page_type.bits() | 4,
                final(mapped)@.skip(old(mapped)@.len() as int),
                r,
            ),
    {
        let pages = divup(size, PAGE_SIZE);
        let t = page_type.user();
        let mut got: usize = 0;
        let ghost start = mapped@.len() as int;
        proof {
            assert(mapped@.skip(start) =~= Seq::<MappedRun>::empty());
            assert(runs_pages(mapped@.skip(start)) =~= Set::<int>::empty());
            assert(phys.free_pages().difference(Set::<int>::empty()) =~= phys.free_pages());
        }
        while got < pages
            invariant
                self.wf(),
                phys.wf(),
                usize::MAX == u64::MAX,
                pages == spec_divup(size as int, PAGE_SIZE as int),
                vaddr + pages * PAGE_SIZE <= usize::MAX + 1,
                got <= pages,
                old(phys).free_count() >= pages ==> phys.free_count() >= pages - got,
                start == old(mapped)@.len(),
                mapped@.len() >= start,
                forall|k: int| 0 <= k < start ==> mapped@[k] == old(mapped)@[k],
                t.bits() == page_type.bits() | 4,
                mapped_pages(mapped@.skip(start)) == got,
                runs_acquired(*old(phys), *phys, old(self).spec_id(), vaddr, t.bits(), mapped@.skip(start)),
                runs_fit(mapped@.skip(start)),
                self.spec_pages() == runs_mapped(old(self).spec_pages(), mapped@.skip(start)),
                self.spec_id() == old(self).spec_id(),
                self.spec_heap_base() == old(self).spec_heap_base(),
                self.spec_heap_length() == old(self).spec_heap_length(),
            decreases pages - got,
        {
            proof {
                crate::memory::phys::law_pages_conserved(*phys);
            }
            let ghost pre = *phys;
            let ghost pre_pages = self.spec_pages();
            match phys.acquire_region(RegionUser::Process(self.id), pages - got) {
                None => {
                    proof {
                        if old(phys).free_count() >= pages {
                            assert(phys.free_list().len() == 0);
                            lemma_total_pages_of_empty(phys.free_list());
                        }
                    }
                    return Err(Error::OutOfMemory(got));
                },
                Some((paddr, n)) => {
                    proof {
                        assert(got + n <= pages);
                        assert(got * PAGE_SIZE <= pages * PAGE_SIZE) by (nonlinear_arith)
                            requires
                                got <= pages,
                        ;
                    }
                    let run_vaddr = vaddr + got * PAGE_SIZE;
                    let ghost before = mapped@;
                    mapped.push((run_vaddr, paddr, n, t));
                    let res = self.pageset.map_pages_with_type(run_vaddr, paddr, n, t);
                    proof {
                        let s0 = before.skip(start);
                        let s1 = mapped@.skip(start);
                        let run = (run_vaddr, paddr, n, t);
                        assert(s1 =~= s0.push(run));
                        assert(s1.drop_last() =~= s0);
                        lemma_runs_acquired_push(*old(phys), pre, *phys, self.id, vaddr, t.bits(), s0, run, (pages - got) as usize);
                        assert(self.spec_pages() == map_run(pre_pages, run));
                        assert(self.spec_pages() == runs_mapped(old(self).spec_pages(), s1));
                    }
                    match res {
                        Ok(()) => {},
                        Err(e) => {
                            proof {
                                let s1 = mapped@.skip(start);
                                assert(!run_fits(s1.last()));
                                assert(runs_fit(s1.drop_last()));
                            }
                            return Err(Error::PagingError(e));
                        },
                    }
                    proof {
                        let s1 = mapped@.skip(start);
                        assert forall|k: int| 0 <= k < s1.len() implies run_fits(#[trigger] s1[k]) by {
                            if k < s1.len() - 1 {
                                assert(s1[k] == s1.drop_last()[k]);
                            }
                        }
                    }
                    got = got + n;
                },
            }
        }
        Ok(())
    }

    /// Map memory for the arguments below `ARGS_TOP_ADDR` and lay them out:
    /// a table of pointers to the arguments, then each argument with a NUL
    /// after it. Nothing to do without arguments.
    pub fn setup_args(
        &mut self,
        phys: &mut RegionState,
        args: &[Vec<u8>],
        mapped: &mut Vec<MappedRun>,
    ) -> (r: Result<Option<ArgsImage>, Error>)
        requires
            old(self).wf(),
            old(phys).wf(),
            usize::MAX == u64::MAX,
            args@.len() <= i32::MAX,
            args_size(args_view(args@)) <= x86_64::ARGS_TOP_ADDR,
        ensures
            final(self).wf(),
            final(phys).wf(),
            final(self).spec_id() == old(self).spec_id(),
            args@.len() == 0 ==> (r matches Ok(None) && *final(phys) == *old(phys) && final(mapped)@ == old(mapped)@),
            args@.len() > 0 ==> {
                let vaddr = args_vaddr(args_view(args@));
                let size = args_size(args_view(args@));
                let runs = final(mapped)@.skip(old(mapped)@.len() as int);
                &&& forall|k: int| 0 <= k < old(mapped)@.len() ==> final(mapped)@[k] == old(mapped)@[k]
                &&& map_allocated(
                    old(self).spec_id(),
                    old(self).spec_pages(),
                    final(self).spec_pages(),
                    *old(phys),
                    *final(phys),
                    vaddr as usize,
                    spec_divup(size, PAGE_SIZE as int),
                    4,
                    runs,
                    match r {
                        Ok(_) => Ok(()),
                        Err(e) => Err(e),
                    },
                )
                &&& old(phys).free_count() >= spec_divup(size, PAGE_SIZE as int) ==> r is Ok
                &&& match r {
                    Ok(image) => image matches Some(image) && image.argc == args@.len() && image.vaddr == vaddr
                        && image.bytes@ == args_pointers(args_view(args@), vaddr + 8 * args@.len()) + args_text(
                        args_view(args@),
                    ),
                    Err(_) => true,
                }
            },
    {
        if args.len() == 0 {
            return Ok(None);
        }
        let ghost a = args_view(args@);
        let mut text_len: usize = 0;
        let mut i: usize = 0;
        proof {
            lemma_args_text_len_prefix(a, a.len() as int);
            assert(a.take(a.len() as int) =~= a);
        }
        while i < args.len()
            invariant
                i <= args@.len(),
                a == args_view(args@),
                usize::MAX == u64::MAX,
                args_size(a) <= x86_64::ARGS_TOP_ADDR,
                forall|k: int| 0 <= k <= a.len() ==> args_text_len(#[trigger] a.take(k)) <= args_text_len(a),
                text_len == args_text_len(a.take(i as int)),
            decreases args@.len() - i,
        {
            assert(a.take(i + 1).drop_last() =~= a.take(i as int));
            assert(a.take(i + 1).last() == args@[i as int]@);
            assert(args_text_len(a.take(i + 1)) <= args_text_len(a));
            text_len = text_len + args[i].len() + 1;
            i = i + 1;
        }
        assert(a.take(args@.len() as int) =~= a);
        let args_size = text_len + 8 * args.len();
        let top = x86_64::ARGS_TOP_ADDR as usize;
        let vaddr = top - args_size;
        let vaddr = vaddr - vaddr % PAGE_SIZE;
        let page_type = PageType::default();
        proof {
            lemma_type_bits();
            assert(spec_divup(args_size as int, PAGE_SIZE as int) * PAGE_SIZE <= args_size + PAGE_SIZE) by (nonlinear_arith)
                requires
                    spec_divup(args_size as int, PAGE_SIZE as int) == (if args_size % 4096 == 0 {
                        (args_size / 4096) as int
                    } else {
                        args_size / 4096 + 1
                    }),
            ;
            assert(user_range_fits(vaddr as int, spec_divup(args_size as int, PAGE_SIZE as int))) by (nonlinear_arith)
                requires
                    vaddr + args_size <= 0x0000_7fee_ffff_ffff,
                    spec_divup(args_size as int, PAGE_SIZE as int) * 4096 <= args_size + 4096,
                    spec_divup(args_size as int, PAGE_SIZE as int) >= 0,
            ;
        }
        match self.map_allocate(phys, vaddr, args_size, page_type, mapped) {
            Err(e) => {
                return Err(e);
            },
            Ok(()) => {},
        }
        let bytes = args_image(args, vaddr);
        Ok(Some(ArgsImage { argc: args.len() as i32, vaddr, bytes }))
    }

    /// Grow or shrink the heap by `amount` bytes, taking on the new length:
    /// the pages it grows by are acquired from `phys` for this memory space
    /// (handed to `mapped`, as `map_allocate` does); the pages it shrinks by
    /// are unmapped, their physical pages staying with this memory space.
    /// The pages grown by are user-accessible and writable. `Overflow` when
    /// the length would go below zero or past the address space;
    /// `OutOfMemory` when the pages to grow by cannot all be had; a paging
    /// error when the pages to unmap leave the user half. On an error the
    /// length stays.
    pub fn adjust_heap(
        &mut self,
        phys: &mut RegionState,
        amount: isize,
        mapped: &mut Vec<MappedRun>,
    ) -> (r: Result<HeapChange, Error>)
        requires
            old(self).wf(),
            old(phys).wf(),
            usize::MAX == u64::MAX,
            old(self).spec_heap_base() + old(self).spec_heap_length() + 2 * PAGE_SIZE <= usize::MAX,
            amount > 0 ==> old(self).spec_heap_base() + old(self).spec_heap_length() + amount + PAGE_SIZE <= usize::MAX,
        ensures
            final(self).wf(),
            final(phys).wf(),
            final(self).spec_id() == old(self).spec_id(),
            final(self).spec_heap_base() == old(self).spec_heap_base(),
            (amount < 0 && old(self).spec_heap_length() < -amount) || (amount > 0 && usize::MAX - old(self).spec_heap_length()
                < amount) <==> r == Err::<HeapChange, Error>(Error::Overflow),
            r is Err ==> final(self).spec_heap_length() == old(self).spec_heap_length(),
            forall|k: int| 0 <= k < old(mapped)@.len() ==> final(mapped)@[k] == old(mapped)@[k],
            final(mapped)@.len() >= old(mapped)@.len(),
            ({
                let old_pages = spec_divup(old(self).spec_heap_length() as int, PAGE_SIZE as int);
                let new_pages = spec_divup(old(self).spec_heap_length() + amount, PAGE_SIZE as int);
                let runs = final(mapped)@.skip(old(mapped)@.len() as int);
                if r != Err::<HeapChange, Error>(Error::Overflow) && new_pages > old_pages {
                    map_allocated(
                        old(self).spec_id(),
                        old(self).spec_pages(),
                        final(self).spec_pages(),
                        *old(phys),
                        *final(phys),
                        (old(self).spec_heap_base() + old_pages * PAGE_SIZE) as usize,
                        new_pages - old_pages,
                        6u8,
                        runs,
                        match r {
                            Ok(_) => Ok(()),
                            Err(e) => Err(e),
                        },
                    )
                } else if r != Err::<HeapChange, Error>(Error::Overflow) && new_pages < old_pages {
                    &&& *final(phys) == *old(phys)
                    &&& final(mapped)@ == old(mapped)@
                    &&& (r is Ok || r matches Err(Error::PagingError(_)))
                    &&& unmapped(
                        old(self).spec_pages(),
                        final(self).spec_pages(),
                        (old(self).spec_heap_base() + new_pages * PAGE_SIZE) as usize,
                        old_pages - new_pages,
                        match r {
                            Err(Error::PagingError(e)) => Err(e),
                            _ => Ok(()),
                        },
                    )
                } else {
                    &&& *final(phys) == *old(phys)
                    &&& final(mapped)@ == old(mapped)@
                    &&& final(self).spec_pages() == old(self).spec_pages()
                }
            }),
            match r {
                Ok(change) => {
                    let new_len = old(self).spec_heap_length() + amount;
                    let old_pages = spec_divup(old(self).spec_heap_length() as int, PAGE_SIZE as int);
                    let new_pages = spec_divup(new_len, PAGE_SIZE as int);
                    &&& final(self).spec_heap_length() == new_len
                    &&& change == (if new_pages > old_pages {
                        HeapChange::Grow {
                            base: (old(self).spec_heap_base() + old_pages * PAGE_SIZE) as usize,
                            size: ((new_pages - old_pages) * PAGE_SIZE) as usize,
                        }
                    } else if new_pages < old_pages {
                        HeapChange::Shrink {
                            base: (old(self).spec_heap_base() + new_pages * PAGE_SIZE) as usize,
                            size: ((old_pages - new_pages) * PAGE_SIZE) as usize,
                        }
                    } else {
                        HeapChange::Unchanged
                    })
                },
                Err(_) => true,
            },
    {
        if amount < 0 && (self.heap_length as i128) < -(amount as i128) {
            return Err(Error::Overflow);
        }
        if amount > 0 && ((usize::MAX - self.heap_length) as i128) < (amount as i128) {
            return Err(Error::Overflow);
        }
        let new_heap_length: usize = if amount >= 0 {
            self.heap_length + (amount as usize)
        } else {
            self.heap_length - ((-(amount as i128)) as usize)
        };
        let page_size = PAGE_SIZE;
        let old_heap_pages = divup(self.heap_length, page_size);
        let new_heap_pages = divup(new_heap_length, page_size);
        proof {
            assert(old_heap_pages * PAGE_SIZE <= self.heap_length + PAGE_SIZE) by (nonlinear_arith)
                requires
                    old_heap_pages == spec_divup(self.heap_length as int, PAGE_SIZE as int),
            ;
            assert(new_heap_pages * PAGE_SIZE <= new_heap_length + PAGE_SIZE) by (nonlinear_arith)
                requires
                    new_heap_pages == spec_divup(new_heap_length as int, PAGE_SIZE as int),
            ;
            assert(new_heap_pages * PAGE_SIZE >= 0 && old_heap_pages * PAGE_SIZE >= 0) by (nonlinear_arith);
        }
        let change = if new_heap_pages > old_heap_pages {
            proof {
                assert((new_heap_pages - old_heap_pages) * PAGE_SIZE <= new_heap_pages * PAGE_SIZE) by (nonlinear_arith)
                    requires
                        new_heap_pages > old_heap_pages,
                ;
            }
            let base = self.heap_base + old_heap_pages * page_size;
            let size = (new_heap_pages - old_heap_pages) * page_size;
            proof {
                let d = new_heap_pages - old_heap_pages;
                assert(size % 4096 == 0 && size / 4096 == d) by (nonlinear_arith)
                    requires
                        size == d * 4096,
                        d > 0,
                ;
                assert(base + d * 4096 == self.heap_base + new_heap_pages * 4096) by (nonlinear_arith)
                    requires
                        base == self.heap_base + old_heap_pages * 4096,
                        d == new_heap_pages - old_heap_pages,
                ;
            }
            let page_type = PageType::default().writable();
            proof {
                lemma_type_bits();
            }
            match self.map_allocate(phys, base, size, page_type, mapped) {
                Ok(()) => {},
                Err(e) => {
                    return Err(e);
                },
            }
            HeapChange::Grow { base, size }
        } else if new_heap_pages < old_heap_pages {
            proof {
                assert((old_heap_pages - new_heap_pages) * PAGE_SIZE <= old_heap_pages * PAGE_SIZE) by (nonlinear_arith)
                    requires
                        new_heap_pages < old_heap_pages,
                ;
            }
            let base = self.heap_base + new_heap_pages * page_size;
            let size = (old_heap_pages - new_heap_pages) * page_size;
            proof {
                let d = old_heap_pages - new_heap_pages;
                assert(size % 4096 == 0 && size / 4096 == d) by (nonlinear_arith)
                    requires
                        size == d * 4096,
                        d > 0,
                ;
            }
            match self.unmap_deallocate(base, size) {
                Ok(()) => {},
                Err(e) => {
                    return Err(e);
                },
            }
            HeapChange::Shrink { base, size }
        } else {
            HeapChange::Unchanged
        };
        self.heap_length = new_heap_length;
        Ok(change)
    }
}

/// Unmapping `n` pages at `vaddr` in a user pageset whose pages were
/// `before` leaves the pages `after` and returns `r`: nothing outside the
/// user half; otherwise the pages from `vaddr` on are cleared up to the end
/// of the half, and an error names where the run left it.
pub open spec fn unmapped(before: Seq<Page>, after: Seq<Page>, vaddr: usize, n: int, r: Result<(), PagingError>) -> bool {
    let i = (vaddr as int % 0x1_0000_0000_0000) / 4096;
    if !spec_vaddr_ok(Pml4Kind::User, vaddr) {
        r == Err::<(), PagingError>(range_error(Pml4Kind::User, vaddr)) && after == before
    } else {
        &&& after == with_run(before, i, half_end(Pml4Kind::User), None, n)
        &&& r == if i + n < half_end(Pml4Kind::User) {
            Ok::<(), PagingError>(())
        } else {
            Err(range_error(Pml4Kind::User, half_exit(Pml4Kind::User, vaddr as int) as usize))
        }
    }
}

/// An empty free list holds no pages.
proof fn lemma_total_pages_of_empty(s: Seq<crate::memory::phys::FreeRegion>)
    requires
        s.len() == 0,
    ensures
        crate::memory::phys::total_pages(s) == 0,
{
}

/// The current process exits with `status`: it is dead and the processes
/// waiting for it are woken. The caller then yields to the scheduler.
pub fn exit(table: &mut ProcessTable, status: i32)
    requires
        old(table).wf(),
        old(table).current_id() != 0,
        forall|i: int| old(table).at(old(table).current_id(), i) ==> (#[trigger] old(table).procs()[i]).spec_exit_wait().no_duplicates(),
    ensures
        final(table).wf(),
        final(table).current_id() == old(table).current_id(),
        final(table).state_of(old(table).current_id()) == Some(State::Dead),
{
    let id = table.current().id();
    let i = match table.index_of(id) {
        Some(i) => i,
        None => {
            proof {
                assert(false);
            }
            0
        },
    };
    table.exit_at(i, status);
    let queue = table.procs_at(i).exit_wait().snapshot();
    proof {
        assert(old(table).at(id, i as int));
    }
    let ghost mid = *table;
    queue.awaken_all(table);
    proof {
        assert(table.procs()[i as int].spec_id() == id);
        assert(table.procs()[i as int].spec_state() == State::Dead);
        table.lemma_state_at(id, i as int);
    }
}

/// The number of pages of a list of mapped runs.
pub open spec fn mapped_pages(s: Seq<MappedRun>) -> nat
    decreases s.len(),
{
    if s.len() == 0 {
        0
    } else {
        (mapped_pages(s.drop_last()) + s.last().2) as nat
    }
}

/// The physical addresses of a list of mapped runs.
pub open spec fn runs_pages(s: Seq<MappedRun>) -> Set<int>
    decreases s.len(),
{
    if s.len() == 0 {
        Set::empty()
    } else {
        runs_pages(s.drop_last()).union(pages_range(s.last().1 as int, s.last().2 as int))
    }
}

/// The runs were acquired from `before`, giving `after`, for the process
/// `id`: each is a non-empty region that `after` records as held by the
/// process, typed `type_bits`, to be mapped where the runs before it end,
/// from `vaddr` on; their pages were free in `before` and are the pages no
/// longer free in `after`, whose free count fell by their number.
pub open spec fn runs_acquired(
    before: RegionState,
    after: RegionState,
    id: Id,
    vaddr: usize,
    type_bits: u8,
    runs: Seq<MappedRun>,
) -> bool {
    &&& forall|k: int|
        0 <= k < runs.len() ==> {
            &&& (#[trigger] runs[k]).0 == vaddr + mapped_pages(runs.take(k)) * PAGE_SIZE
            &&& runs[k].2 > 0
            &&& runs[k].3.bits() == type_bits
            &&& runs[k].1 + runs[k].2 * PAGE_SIZE <= usize::MAX
            &&& after.holds(RegionUser::Process(id), runs[k].1, runs[k].2)
        }
    &&& runs_pages(runs).subset_of(before.free_pages())
    &&& after.free_pages() == before.free_pages().difference(runs_pages(runs))
    &&& after.free_count() == before.free_count() - mapped_pages(runs)
}

/// The bits of a user page, and of a writable user page.
pub(crate) proof fn lemma_type_bits()
    ensures
        0u8 | 4u8 == 4u8,
        0u8 | 2u8 | 4u8 == 6u8,
{
    assert(0u8 | 4u8 == 4u8 && 0u8 | 2u8 | 4u8 == 6u8) by (bit_vector);
}

/// The page number of `v` in the 48-bit space.
pub open spec fn page_index(v: usize) -> int {
    (v as int % 0x1_0000_0000_0000) / 4096
}

/// A run of mapped pages lies in the user half, below its end.
pub open spec fn run_fits(run: MappedRun) -> bool {
    spec_vaddr_ok(Pml4Kind::User, run.0) && page_index(run.0) + run.2 < half_end(Pml4Kind::User)
}

/// Every run fits in the user half.
pub open spec fn runs_fit(runs: Seq<MappedRun>) -> bool {
    forall|k: int| 0 <= k < runs.len() ==> run_fits(#[trigger] runs[k])
}

/// The paging error of mapping a run that does not fit in the user half.
pub open spec fn run_error(run: MappedRun) -> PagingError {
    if !spec_vaddr_ok(Pml4Kind::User, run.0) {
        range_error(Pml4Kind::User, run.0)
    } else {
        range_error(Pml4Kind::User, half_exit(Pml4Kind::User, run.0 as int) as usize)
    }
}

/// The pages after mapping a run in the user half: its pages, as far as
/// the half goes; nothing for an address outside it.
pub open spec fn map_run(pages: Seq<Page>, run: MappedRun) -> Seq<Page> {
    if spec_vaddr_ok(Pml4Kind::User, run.0) {
        with_run(pages, page_index(run.0), half_end(Pml4Kind::User), Some((run.1, run.3)), run.2 as int)
    } else {
        pages
    }
}

/// The pages after mapping the runs in order.
pub open spec fn runs_mapped(pages: Seq<Page>, runs: Seq<MappedRun>) -> Seq<Page>
    decreases runs.len(),
{
    if runs.len() == 0 {
        pages
    } else {
        map_run(runs_mapped(pages, runs.drop_last()), runs.last())
    }
}

/// The runs with the type `t`.
pub open spec fn retyped_runs(runs: Seq<MappedRun>, t: PageType) -> Seq<MappedRun> {
    runs.map_values(|r: MappedRun| (r.0, r.1, r.2, t))
}

/// What `map_allocate` did, for `pages` pages from `vaddr` typed
/// `type_bits`, in the memory space `id` whose pages were `before` (giving
/// `after`) with physical
/// memory `phys0` (giving `phys1`): the runs it acquired were mapped in order;
/// it succeeded with all the pages, ran out of memory with fewer, or met a
/// last run that did not fit in the user half.
pub open spec fn map_allocated(
    id: Id,
    before: Seq<Page>,
    after: Seq<Page>,
    phys0: RegionState,
    phys1: RegionState,
    vaddr: usize,
    pages: int,
    type_bits: u8,
    runs: Seq<MappedRun>,
    r: Result<(), Error>,
) -> bool {
    &&& runs_acquired(phys0, phys1, id, vaddr, type_bits, runs)
    &&& after == runs_mapped(before, runs)
    &&& phys0.free_count() >= pages && user_range_fits(vaddr as int, pages) ==> r is Ok
    &&& match r {
        Ok(()) => runs_fit(runs) && mapped_pages(runs) == pages,
        Err(Error::OutOfMemory(m)) => runs_fit(runs) && m == mapped_pages(runs) && m < pages && phys1.free_count()
            < pages - m,
        Err(Error::PagingError(e)) => runs.len() > 0 && runs_fit(runs.drop_last()) && !run_fits(runs.last()) && e
            == run_error(runs.last()) && mapped_pages(runs.drop_last()) < pages,
        _ => false,
    }
}

/// `pages` pages from `vaddr` lie below the end of the user half.
pub open spec fn user_range_fits(vaddr: int, pages: int) -> bool {
    0 <= vaddr && vaddr / 4096 + pages < half_end(Pml4Kind::User)
}

/// Acquiring one more run keeps what `runs_acquired` says of the runs
/// before it.
proof fn lemma_runs_acquired_push(
    before: RegionState,
    mid: RegionState,
    after: RegionState,
    id: Id,
    vaddr: usize,
    type_bits: u8,
    runs: Seq<MappedRun>,
    run: MappedRun,
    asked: usize,
)
    requires
        runs_acquired(before, mid, id, vaddr, type_bits, runs),
        mid.acquire_post(RegionUser::Process(id), asked, after, Some((run.1, run.2))),
        run.2 > 0,
        pages_range(run.1 as int, run.2 as int).subset_of(mid.free_pages()),
        after.free_pages() == mid.free_pages().difference(pages_range(run.1 as int, run.2 as int)),
        run.0 == vaddr + mapped_pages(runs) * PAGE_SIZE,
        run.3.bits() == type_bits,
        run.1 + run.2 * PAGE_SIZE <= usize::MAX,
    ensures
        runs_acquired(before, after, id, vaddr, type_bits, runs.push(run)),
{
    let s = runs.push(run);
    assert(s.drop_last() =~= runs);
    assert(after.alloc_list() == seq![(run.1, run.2, seq![RegionUser::Process(id)])] + mid.alloc_list());
    assert forall|k: int| 0 <= k < s.len() implies {
        &&& (#[trigger] s[k]).0 == vaddr + mapped_pages(s.take(k)) * PAGE_SIZE
        &&& s[k].2 > 0
        &&& s[k].3.bits() == type_bits
        &&& s[k].1 + s[k].2 * PAGE_SIZE <= usize::MAX
        &&& after.holds(RegionUser::Process(id), s[k].1, s[k].2)
    } by {
        if k < runs.len() {
            assert(s[k] == runs[k]);
            assert(s.take(k) =~= runs.take(k));
            assert(runs_acquired(before, mid, id, vaddr, type_bits, runs));
            assert(runs[k].0 == vaddr + mapped_pages(runs.take(k)) * PAGE_SIZE);
            assert(mid.holds(RegionUser::Process(id), runs[k].1, runs[k].2));
            let i = choose|i: int|
                0 <= i < mid.alloc_list().len() && (#[trigger] mid.alloc_list()[i]).0 == runs[k].1
                    && mid.alloc_list()[i].1 == runs[k].2 && mid.alloc_list()[i].2.contains(RegionUser::Process(id));
            assert(after.alloc_list()[i + 1] == mid.alloc_list()[i]);
        } else {
            assert(s.take(k) =~= runs);
            assert(after.alloc_list()[0] == (run.1, run.2, seq![RegionUser::Process(id)]));
            assert(after.alloc_list()[0].2[0] == RegionUser::Process(id));
        }
    }
    assert(runs_pages(s) == runs_pages(runs).union(pages_range(run.1 as int, run.2 as int)));
    assert(after.free_pages() =~= before.free_pages().difference(runs_pages(s)));
}

/// The table of all processes, which one is current, and the scheduler's
/// run queue.
pub struct ProcessTable {
    current_process: Id,
    /// Ordered by id.
    process_tree: Vec<Process>,
    next_id: Id,
    mems: Vec<ProcessMem>,
    run_queue: Vec<Id>,
}

/// The process with id `id` is at position `i` of `s`.
pub open spec fn proc_at(s: Seq<Process>, id: Id, i: int) -> bool {
    0 <= i < s.len() && (#[trigger] s[i]).spec_id() == id
}

/// `s` holds a process with id `id`.
pub open spec fn proc_has(s: Seq<Process>, id: Id) -> bool {
    exists|i: int| #[trigger] proc_at(s, id, i)
}

/// The state of the process with id `id` in `s`, if there is one.
pub open spec fn proc_state(s: Seq<Process>, id: Id) -> Option<State> {
    if proc_has(s, id) {
        Some(s[choose|i: int| #[trigger] proc_at(s, id, i)].spec_state())
    } else {
        None
    }
}

/// Ids strictly increase.
pub open spec fn ids_sorted(s: Seq<Process>) -> bool {
    forall|i: int, j: int| 0 <= i < j < s.len() ==> (#[trigger] s[i]).spec_id() < (#[trigger] s[j]).spec_id()
}

impl ProcessTable {
    pub closed spec fn procs(&self) -> Seq<Process> {
        self.process_tree@
    }

    pub closed spec fn current_id(&self) -> Id {
        self.current_process
    }

    pub closed spec fn spec_next_id(&self) -> Id {
        self.next_id
    }

    /// The processes waiting to run, first to run first.
    pub closed spec fn run_queue(&self) -> Seq<Id> {
        self.run_queue@
    }

    /// The memory spaces, by id.
    pub closed spec fn mems(&self) -> Seq<ProcessMem> {
        self.mems@
    }

    /// The process with id `id` is at position `i`.
    pub open spec fn at(&self, id: Id, i: int) -> bool {
        proc_at(self.procs(), id, i)
    }

    /// There is a process with id `id`.
    pub open spec fn has(&self, id: Id) -> bool {
        proc_has(self.procs(), id)
    }

    /// Ids increase along the table and are below the next id; the kernel
    /// process (id 0) comes first; the current process is in the table.
    pub closed spec fn wf(&self) -> bool {
        &&& ids_sorted(self.process_tree@)
        &&& forall|i: int| 0 <= i < self.process_tree@.len() ==> (#[trigger] self.process_tree@[i]).spec_id() < self.next_id
        &&& self.process_tree@.len() > 0
        &&& self.process_tree@[0].spec_id() == 0
        &&& self.has(self.current_process)
    }

    /// The table with the kernel process (id 0, running, named "kernel") as
    /// the only and current process.
    pub fn initialize(kernel_hw_state: HwState) -> (r: ProcessTable)
        ensures
            r.wf(),
            r.procs().len() == 1,
            r.procs()[0].spec_id() == 0,
            r.procs()[0].spec_pgid() == 0,
            r.procs()[0].spec_state() == State::Running,
            r.procs()[0].spec_mem() is None,
            r.current_id() == 0,
            r.spec_next_id() == 1,
            r.run_queue().len() == 0,
    {
        let mut kernel_process = Process::new(0, 0, String::from_str("kernel"), kernel_hw_state, None);
        kernel_process.run();
        let mut process_tree: Vec<Process> = Vec::new();
        process_tree.push(kernel_process);
        let r = ProcessTable { current_process: 0, process_tree, next_id: 1, mems: Vec::new(), run_queue: Vec::new() };
        proof {
            assert(r.at(0, 0));
        }
        r
    }

    /// The position of the process with id `id`.
    pub(crate) fn index_of(&self, id: Id) -> (r: Option<usize>)
        requires
            self.wf(),
        ensures
            match r {
                Some(i) => self.at(id, i as int),
                None => !self.has(id),
            },
    {
        let mut i: usize = 0;
        while i < self.process_tree.len()
            invariant
                i <= self.process_tree@.len(),
                forall|j: int| 0 <= j < i ==> self.process_tree@[j].spec_id() != id,
            decreases self.process_tree@.len() - i,
        {
            if self.process_tree[i].id == id {
                return Some(i);
            }
            i = i + 1;
        }
        None
    }

    /// The process at position `i`.
    pub fn procs_at(&self, i: usize) -> (r: &Process)
        requires
            i < self.procs().len(),
        ensures
            *r == self.procs()[i as int],
    {
        &self.process_tree[i]
    }

    /// The kernel process.
    pub fn kernel(&self) -> (r: &Process)
        requires
            self.wf(),
        ensures
            r.spec_id() == 0,
            *r == self.procs()[0],
    {
        &self.process_tree[0]
    }

    /// The current process.
    pub fn current(&self) -> (r: &Process)
        requires
            self.wf(),
        ensures
            r.spec_id() == self.current_id(),
            exists|i: int| self.at(self.current_id(), i) && *r == self.procs()[i],
    {
        let i = self.index_of(self.current_process);
        match i {
            Some(i) => &self.process_tree[i],
            None => {
                proof {
                    assert(false);
                }
                &self.process_tree[0]
            },
        }
    }

    /// The process with the given id.
    pub fn by_id(&self, id: Id) -> (r: Option<&Process>)
        requires
            self.wf(),
        ensures
            match r {
                Some(p) => exists|i: int| self.at(id, i) && *p == self.procs()[i],
                None => !self.has(id),
            },
    {
        match self.index_of(id) {
            Some(i) => Some(&self.process_tree[i]),
            None => None,
        }
    }

    /// The ids of the processes in the process group `pgid`, in id order.
    pub fn by_pgid(&self, pgid: Id) -> (r: Vec<Id>)
        ensures
            r@ == self.procs().filter(|p: Process| p.spec_pgid() == pgid).map_values(|p: Process| p.spec_id()),
    {
        let mut r: Vec<Id> = Vec::new();
        let mut i: usize = 0;
        let ghost s = self.process_tree@;
        while i < self.process_tree.len()
            invariant
                s == self.process_tree@,
                i <= s.len(),
                r@ == s.take(i as int).filter(|p: Process| p.spec_pgid() == pgid).map_values(|p: Process| p.spec_id()),
            decreases s.len() - i,
        {
            proof {
                assert(s.take(i + 1).drop_last() =~= s.take(i as int));
                assert(s.take(i + 1).last() == s[i as int]);
                reveal_with_fuel(Seq::filter, 2);
            }
            let ghost before = r@;
            if self.process_tree[i].pgid == pgid {
                r.push(self.process_tree[i].id);
                proof {
                    let f = s.take(i as int).filter(|p: Process| p.spec_pgid() == pgid);
                    assert(s.take(i + 1).filter(|p: Process| p.spec_pgid() == pgid) == f.push(s[i as int]));
                    assert(r@ =~= f.push(s[i as int]).map_values(|p: Process| p.spec_id()));
                }
            } else {
                proof {
                    let f = s.take(i as int).filter(|p: Process| p.spec_pgid() == pgid);
                    assert(s.take(i + 1).filter(|p: Process| p.spec_pgid() == pgid) == f);
                }
            }
            i = i + 1;
        }
        proof {
            assert(s.take(s.len() as int) =~= s);
        }
        r
    }

    /// The ids of all processes, in order.
    pub fn all(&self) -> (r: Vec<Id>)
        ensures
            r@ == self.procs().map_values(|p: Process| p.spec_id()),
    {
        let mut r: Vec<Id> = Vec::new();
        let mut i: usize = 0;
        while i < self.process_tree.len()
            invariant
                i <= self.process_tree@.len(),
                r@ == self.process_tree@.take(i as int).map_values(|p: Process| p.spec_id()),
            decreases self.process_tree@.len() - i,
        {
            r.push(self.process_tree[i].id);
            proof {
                assert(r@ =~= self.process_tree@.take(i + 1).map_values(|p: Process| p.spec_id()));
            }
            i = i + 1;
        }
        proof {
            assert(self.process_tree@.take(self.process_tree@.len() as int) =~= self.process_tree@);
        }
        r
    }

    /// The state of the process with id `id`, if there is one.
    pub open spec fn state_of(&self, id: Id) -> Option<State> {
        proc_state(self.procs(), id)
    }

    /// The table with the state of the process at position `i` changed.
    pub open spec fn with_state(&self, after: ProcessTable, i: int, state: State) -> bool {
        &&& after.procs().len() == self.procs().len()
        &&& forall|j: int| 0 <= j < self.procs().len() && j != i ==> #[trigger] after.procs()[j] == self.procs()[j]
        &&& after.procs()[i].spec_state() == state
        &&& after.procs()[i].same_but_state(self.procs()[i])
        &&& after.current_id() == self.current_id()
        &&& after.spec_next_id() == self.spec_next_id()
        &&& after.mems() == self.mems()
    }

    /// Ids are unique, so a process has one position.
    pub proof fn lemma_at_unique(&self, id: Id, i: int, j: int)
        requires
            self.wf(),
            self.at(id, i),
            self.at(id, j),
        ensures
            i == j,
    {
        if i < j {
            assert(self.procs()[i].spec_id() < self.procs()[j].spec_id());
        } else if j < i {
            assert(self.procs()[j].spec_id() < self.procs()[i].spec_id());
        }
    }

    /// The state of the process at position `i` is the state of its id.
    pub proof fn lemma_state_at(&self, id: Id, i: int)
        requires
            self.wf(),
            self.at(id, i),
        ensures
            self.state_of(id) == Some(self.procs()[i].spec_state()),
    {
        let j = choose|j: int| #[trigger] proc_at(self.procs(), id, j);
        self.lemma_at_unique(id, i, j);
    }

    /// Set the state of the process with id `id`.
    pub(crate) fn set_state(&mut self, id: Id, i: usize, state: State)
        requires
            old(self).wf(),
            old(self).at(id, i as int),
            state == State::Running || state == State::Sleeping ==> old(self).procs()[i as int].alive() || state
                == State::Running && old(self).procs()[i as int].spec_state() == State::Loading,
        ensures
            final(self).wf(),
            old(self).with_state(*final(self), i as int, state),
            final(self).run_queue() == old(self).run_queue(),
    {
        let mut p = self.process_tree.remove(i);
        if state == State::Running {
            if p.state == State::Loading {
                p.run();
            } else {
                p.awaken();
            }
        } else if state == State::Sleeping {
            p.sleep();
        } else if state == State::Dead {
            let status = p.exit_status;
            p.exit(status);
        } else {
            p.state = State::Loading;
        }
        self.process_tree.insert(i, p);
        proof {
            assert forall|a: int, b: int| 0 <= a < b < self.process_tree@.len() implies (#[trigger] self.process_tree@[a]).spec_id() < (#[trigger] self.process_tree@[b]).spec_id() by {
                assert(self.process_tree@[a].spec_id() == old(self).process_tree@[a].spec_id());
                assert(self.process_tree@[b].spec_id() == old(self).process_tree@[b].spec_id());
            }
            assert forall|a: int| 0 <= a < self.process_tree@.len() implies (#[trigger] self.process_tree@[a]).spec_id() < self.next_id by {
                assert(self.process_tree@[a].spec_id() == old(self).process_tree@[a].spec_id());
            }
            let c = choose|c: int| #[trigger] proc_at(old(self).procs(), old(self).current_process, c);
            assert(self.process_tree@[c].spec_id() == old(self).process_tree@[c].spec_id());
            assert(self.at(self.current_process, c));
            assert(self.process_tree@[0].spec_id() == old(self).process_tree@[0].spec_id());
        }
    }

    /// Put a process at the end of the run queue.
    pub(crate) fn run_queue_push(&mut self, id: Id)
        requires
            old(self).wf(),
        ensures
            final(self).wf(),
            final(self).run_queue() == old(self).run_queue().push(id),
            final(self).procs() == old(self).procs(),
            final(self).current_id() == old(self).current_id(),
            final(self).spec_next_id() == old(self).spec_next_id(),
            final(self).mems() == old(self).mems(),
    {
        let ghost pre = *self;
        self.run_queue.push(id);
        proof {
            let c = choose|c: int| #[trigger] proc_at(pre.procs(), pre.current_process, c);
            assert(self.at(self.current_process, c));
        }
    }

    /// Take the first process off the run queue.
    pub(crate) fn run_queue_pop(&mut self) -> (r: Option<Id>)
        requires
            old(self).wf(),
        ensures
            final(self).wf(),
            old(self).run_queue().len() == 0 ==> r is None && final(self).run_queue() == old(self).run_queue(),
            old(self).run_queue().len() > 0 ==> r == Some(old(self).run_queue()[0]) && final(self).run_queue()
                == old(self).run_queue().drop_first(),
            final(self).procs() == old(self).procs(),
            final(self).current_id() == old(self).current_id(),
            final(self).spec_next_id() == old(self).spec_next_id(),
            final(self).mems() == old(self).mems(),
    {
        if self.run_queue.len() == 0 {
            return None;
        }
        let ghost pre = *self;
        let id = self.run_queue.remove(0);
        proof {
            let c = choose|c: int| #[trigger] proc_at(pre.procs(), pre.current_process, c);
            assert(self.at(self.current_process, c));
            assert(self.run_queue@ =~= pre.run_queue@.drop_first());
        }
        Some(id)
    }

    /// Make the process `id` current.
    pub(crate) fn set_current(&mut self, id: Id)
        requires
            old(self).wf(),
            old(self).has(id),
        ensures
            final(self).wf(),
            final(self).current_id() == id,
            final(self).procs() == old(self).procs(),
            final(self).run_queue() == old(self).run_queue(),
            final(self).spec_next_id() == old(self).spec_next_id(),
            final(self).mems() == old(self).mems(),
    {
        let ghost pre = *self;
        self.current_process = id;
        proof {
            let c = choose|c: int| #[trigger] proc_at(pre.procs(), id, c);
            assert(self.at(id, c));
        }
    }

    /// Mark the process at position `i` dead with the given exit status.
    #[verifier::spinoff_prover]
    fn exit_at(&mut self, i: usize, status: i32)
        requires
            old(self).wf(),
            i < old(self).procs().len(),
        ensures
            final(self).wf(),
            final(self).procs().len() == old(self).procs().len(),
            forall|j: int| 0 <= j < old(self).procs().len() && j != i ==> #[trigger] final(self).procs()[j] == old(self).procs()[j],
            final(self).procs()[i as int].spec_state() == State::Dead,
            final(self).procs()[i as int].spec_exit_status() == status,
            final(self).procs()[i as int].spec_id() == old(self).procs()[i as int].spec_id(),
            final(self).procs()[i as int].spec_pgid() == old(self).procs()[i as int].spec_pgid(),
            final(self).procs()[i as int].spec_exit_wait() == old(self).procs()[i as int].spec_exit_wait(),
            final(self).current_id() == old(self).current_id(),
            final(self).run_queue() == old(self).run_queue(),
    {
        let mut p = self.process_tree.remove(i);
        p.exit(status);
        self.process_tree.insert(i, p);
        proof {
            assert forall|a: int, b: int| 0 <= a < b < self.process_tree@.len() implies (#[trigger] self.process_tree@[a]).spec_id() < (#[trigger] self.process_tree@[b]).spec_id() by {
                assert(self.process_tree@[a].spec_id() == old(self).process_tree@[a].spec_id());
                assert(self.process_tree@[b].spec_id() == old(self).process_tree@[b].spec_id());
            }
            assert forall|a: int| 0 <= a < self.process_tree@.len() implies (#[trigger] self.process_tree@[a]).spec_id() < self.next_id by {
                assert(self.process_tree@[a].spec_id() == old(self).process_tree@[a].spec_id());
            }
            let c = choose|c: int| #[trigger] proc_at(old(self).procs(), old(self).current_process, c);
            assert(self.process_tree@[c].spec_id() == old(self).process_tree@[c].spec_id());
            assert(self.at(self.current_process, c));
            assert(self.process_tree@[0].spec_id() == old(self).process_tree@[0].spec_id());
        }
    }

    /// Add `pid` to the exit wait queue of the process at position `i`.
    fn wait_on(&mut self, i: usize, pid: Id)
        requires
            old(self).wf(),
            i < old(self).procs().len(),
        ensures
            final(self).wf(),
            final(self).procs().len() == old(self).procs().len(),
            forall|j: int| 0 <= j < old(self).procs().len() && j != i ==> #[trigger] final(self).procs()[j] == old(self).procs()[j],
            final(self).procs()[i as int].same_but_exit_wait(old(self).procs()[i as int]),
            old(self).procs()[i as int].spec_exit_wait().contains(pid) ==> final(self).procs()[i as int].spec_exit_wait()
                == old(self).procs()[i as int].spec_exit_wait(),
            !old(self).procs()[i as int].spec_exit_wait().contains(pid) ==> final(self).procs()[i as int].spec_exit_wait()
                == old(self).procs()[i as int].spec_exit_wait().push(pid),
            final(self).current_id() == old(self).current_id(),
            final(self).run_queue() == old(self).run_queue(),
    {
        let mut p = self.process_tree.remove(i);
        p.exit_wait.insert(pid);
        self.process_tree.insert(i, p);
        proof {
            assert forall|a: int, b: int| 0 <= a < b < self.process_tree@.len() implies (#[trigger] self.process_tree@[a]).spec_id() < (#[trigger] self.process_tree@[b]).spec_id() by {
                assert(self.process_tree@[a].spec_id() == old(self).process_tree@[a].spec_id());
                assert(self.process_tree@[b].spec_id() == old(self).process_tree@[b].spec_id());
            }
            assert forall|a: int| 0 <= a < self.process_tree@.len() implies (#[trigger] self.process_tree@[a]).spec_id() < self.next_id by {
                assert(self.process_tree@[a].spec_id() == old(self).process_tree@[a].spec_id());
            }
            let c = choose|c: int| #[trigger] proc_at(old(self).procs(), old(self).current_process, c);
            assert(self.process_tree@[c].spec_id() == old(self).process_tree@[c].spec_id());
            assert(self.at(self.current_process, c));
            assert(self.process_tree@[0].spec_id() == old(self).process_tree@[0].spec_id());
        }
    }

    /// Take the next process id.
    fn next_id(&mut self) -> (r: Id)
        requires
            old(self).wf(),
            old(self).spec_next_id() != u32::MAX,
        ensures
            final(self).wf(),
            r == old(self).spec_next_id(),
            final(self).spec_next_id() == r + 1,
            final(self).procs() == old(self).procs(),
            final(self).current_id() == old(self).current_id(),
            final(self).run_queue() == old(self).run_queue(),
            final(self).mems() == old(self).mems(),
    {
        let next_id = self.next_id;
        self.next_id = self.next_id + 1;
        proof {
            assert(self.has(self.current_process)) by {
                let i = choose|i: int| #[trigger] proc_at(old(self).procs(), old(self).current_process, i);
                assert(self.at(self.current_process, i));
            }
        }
        next_id
    }

    /// Add a process at the end of the table; its id is above all others.
    fn add(&mut self, process: Process)
        requires
            old(self).wf(),
            process.spec_id() == old(self).spec_next_id() - 1,
            forall|i: int| 0 <= i < old(self).procs().len() ==> (#[trigger] old(self).procs()[i]).spec_id() < process.spec_id(),
        ensures
            final(self).wf(),
            final(self).procs() == old(self).procs().push(process),
            final(self).spec_next_id() == old(self).spec_next_id(),
            final(self).current_id() == old(self).current_id(),
            final(self).run_queue() == old(self).run_queue(),
            final(self).mems() == old(self).mems(),
    {
        let ghost old_tree = self.process_tree@;
        self.process_tree.push(process);
        proof {
            let i = choose|i: int| #[trigger] proc_at(old(self).procs(), old(self).current_process, i);
            assert(self.process_tree@[i] == old_tree[i]);
            assert(self.at(self.current_process, i));
            assert(self.process_tree@[0] == old_tree[0]);
        }
    }

    /// The newest process and memory space, taken out to work on, and put
    /// back: the table keeps its ids.
    proof fn lemma_same_ids(&self, after: ProcessTable)
        requires
            self.wf(),
            after.procs().len() == self.procs().len(),
            forall|i: int| 0 <= i < self.procs().len() ==> (#[trigger] after.procs()[i]).spec_id() == self.procs()[i].spec_id(),
            after.current_id() == self.current_id(),
            after.spec_next_id() == self.spec_next_id(),
        ensures
            after.wf(),
            forall|id: Id| #[trigger] after.has(id) == self.has(id),
    {
        assert forall|id: Id| #[trigger] after.has(id) == self.has(id) by {
            if after.has(id) {
                let i = choose|i: int| #[trigger] proc_at(after.procs(), id, i);
                assert(proc_at(self.procs(), id, i));
            }
            if self.has(id) {
                let i = choose|i: int| #[trigger] proc_at(self.procs(), id, i);
                assert(proc_at(after.procs(), id, i));
            }
        }
        assert(ids_sorted(after.procs())) by {
            assert forall|i: int, j: int| 0 <= i < j < after.procs().len() implies (#[trigger] after.procs()[i]).spec_id()
                < (#[trigger] after.procs()[j]).spec_id() by {
                assert(self.procs()[i].spec_id() < self.procs()[j].spec_id());
            }
        }
        assert(after.procs()[0].spec_id() == self.procs()[0].spec_id());
        assert forall|i: int| 0 <= i < after.procs().len() implies (#[trigger] after.procs()[i]).spec_id() < after.spec_next_id() by {
            assert(self.procs()[i].spec_id() < self.spec_next_id());
        }
    }

    /// Load the executable into the newest process and memory space.
    pub(crate) fn load_newest(
        &mut self,
        exe: &crate::elf::Executable,
        phys: &mut RegionState,
        mapped: &mut Vec<MappedRun>,
        writes: &mut Vec<SegmentWrite>,
    ) -> (r: Result<(), Error>)
        requires
            old(self).wf(),
            old(self).procs().len() > 1,
            old(self).mems().len() > 0,
            old(self).mems().last().wf(),
            old(self).procs().last().spec_state() == State::Loading,
            exe.loadable(),
            old(phys).wf(),
            usize::MAX == u64::MAX,
        ensures
            final(self).wf(),
            final(phys).wf(),
            final(self).procs().len() == old(self).procs().len(),
            final(self).procs().drop_last() == old(self).procs().drop_last(),
            final(self).procs().last().same_but_state(old(self).procs().last()),
            final(self).procs().last().spec_state() == State::Loading,
            final(self).mems().len() == old(self).mems().len(),
            final(self).mems().drop_last() == old(self).mems().drop_last(),
            final(self).mems().last().wf(),
            final(self).mems().last().spec_id() == old(self).mems().last().spec_id(),
            final(self).mems().last().spec_heap_base() == old(self).mems().last().spec_heap_base(),
            final(self).mems().last().spec_heap_length() == old(self).mems().last().spec_heap_length(),
            final(self).current_id() == old(self).current_id(),
            final(self).spec_next_id() == old(self).spec_next_id(),
            final(self).run_queue() == old(self).run_queue(),
            final(mapped)@.len() >= old(mapped)@.len(),
            final(mapped)@.take(old(mapped)@.len() as int) == old(mapped)@,
            final(writes)@.len() >= old(writes)@.len(),
            final(writes)@.take(old(writes)@.len() as int) == old(writes)@,
            exe.loads(
                old(self).procs().last(),
                final(self).procs().last(),
                old(self).mems().last().spec_id(),
                old(self).mems().last().spec_pages(),
                final(self).mems().last().spec_pages(),
                *old(phys),
                *final(phys),
                final(mapped)@.skip(old(mapped)@.len() as int),
                writes_view(final(writes)@.skip(old(writes)@.len() as int)),
                r,
            ),
    {
        let ghost pre = *self;
        let mut p = self.process_tree.pop().unwrap();
        let mut m = self.mems.pop().unwrap();
        let r = p.load(exe, &mut m, phys, mapped, writes);
        self.process_tree.push(p);
        self.mems.push(m);
        proof {
            assert(self.procs().drop_last() =~= pre.procs().drop_last());
            assert(self.mems().drop_last() =~= pre.mems().drop_last());
            assert forall|i: int| 0 <= i < pre.procs().len() implies (#[trigger] self.procs()[i]).spec_id() == pre.procs()[i].spec_id() by {
                if i < pre.procs().len() - 1 {
                    assert(self.procs()[i] == pre.procs().drop_last()[i]);
                }
            }
            pre.lemma_same_ids(*self);
        }
        r
    }

    /// Lay out the arguments in the newest memory space and pass them to the
    /// newest process.
    pub(crate) fn set_args_newest(
        &mut self,
        phys: &mut RegionState,
        args: &[Vec<u8>],
        mapped: &mut Vec<MappedRun>,
    ) -> (r: Result<Option<ArgsImage>, Error>)
        requires
            old(self).wf(),
            old(self).procs().len() > 1,
            old(self).mems().len() > 0,
            old(self).mems().last().wf(),
            old(self).procs().last().spec_state() == State::Loading,
            old(phys).wf(),
            usize::MAX == u64::MAX,
            args@.len() <= i32::MAX,
            args_size(args_view(args@)) <= x86_64::ARGS_TOP_ADDR,
        ensures
            final(self).wf(),
            final(phys).wf(),
            final(self).procs().len() == old(self).procs().len(),
            final(self).procs().drop_last() == old(self).procs().drop_last(),
            final(self).procs().last().same_but_state(old(self).procs().last()),
            final(self).procs().last().spec_state() == State::Loading,
            final(self).mems().len() == old(self).mems().len(),
            final(self).mems().drop_last() == old(self).mems().drop_last(),
            final(self).mems().last().wf(),
            final(self).current_id() == old(self).current_id(),
            final(self).spec_next_id() == old(self).spec_next_id(),
            final(self).run_queue() == old(self).run_queue(),
            old(phys).free_count() >= spec_divup(args_size(args_view(args@)), PAGE_SIZE as int) ==> r is Ok,
            match r {
                Ok(Some(image)) => final(self).procs().last().spec_hw_state().user_state().registers.rdi == image.argc as usize
                    && final(self).procs().last().spec_hw_state().user_state().registers.rsi == image.vaddr,
                Ok(None) => args@.len() == 0,
                Err(_) => true,
            },
    {
        let ghost pre = *self;
        let mut p = self.process_tree.pop().unwrap();
        let mut m = self.mems.pop().unwrap();
        let r = m.setup_args(phys, args, mapped);
        match &r {
            Ok(Some(image)) => p.set_args(Some((image.argc, image.vaddr))),
            Ok(None) => p.set_args(None),
            Err(_) => {},
        }
        self.process_tree.push(p);
        self.mems.push(m);
        proof {
            assert(self.procs().drop_last() =~= pre.procs().drop_last());
            assert(self.mems().drop_last() =~= pre.mems().drop_last());
            assert forall|i: int| 0 <= i < pre.procs().len() implies (#[trigger] self.procs()[i]).spec_id() == pre.procs()[i].spec_id() by {
                if i < pre.procs().len() - 1 {
                    assert(self.procs()[i] == pre.procs().drop_last()[i]);
                }
            }
            pre.lemma_same_ids(*self);
        }
        r
    }

    /// Create a process named `name` in its own memory space with its own
    /// process group, and acquire the physical pages of its stack (handed to
    /// `mapped`, to be mapped below `STACK_BASE_ADDR`). The process is
    /// `Loading`.
    pub fn create(
        &mut self,
        phys: &mut RegionState,
        name: String,
        hw_state: HwState,
        mapped: &mut Vec<MappedRun>,
    ) -> (r: Id)
        requires
            old(self).wf(),
            old(self).spec_next_id() != u32::MAX,
            old(phys).wf(),
            old(phys).free_count() >= x86_64::STACK_SIZE / PAGE_SIZE,
            usize::MAX == u64::MAX,
        ensures
            final(self).wf(),
            final(phys).wf(),
            r == old(self).spec_next_id(),
            final(self).spec_next_id() == r + 1,
            final(self).procs().len() == old(self).procs().len() + 1,
            final(self).procs().len() > 1,
            final(self).procs().drop_last() == old(self).procs(),
            final(self).procs().last().spec_id() == r,
            final(self).procs().last().spec_pgid() == r,
            final(self).procs().last().spec_name() == name@,
            final(self).procs().last().spec_state() == State::Loading,
            final(self).procs().last().spec_mem() == Some(r),
            final(self).mems().len() == old(self).mems().len() + 1,
            final(self).mems().last().spec_id() == r,
            final(self).mems().last().spec_heap_base() == x86_64::HEAP_BASE_ADDR,
            final(self).mems().last().spec_heap_length() == 0,
            final(self).mems().last().wf(),
            final(self).mems().drop_last() == old(self).mems(),
            final(self).current_id() == old(self).current_id(),
            final(self).run_queue() == old(self).run_queue(),
            forall|k: int| 0 <= k < old(mapped)@.len() ==> final(mapped)@[k] == old(mapped)@[k],
            ({
                let runs = final(mapped)@.skip(old(mapped)@.len() as int);
                &&& runs_acquired(
                    *old(phys),
                    *final(phys),
                    r,
                    (x86_64::STACK_BASE_ADDR - x86_64::STACK_SIZE) as usize,
                    6u8,
                    runs,
                )
                &&& runs_fit(runs)
                &&& mapped_pages(runs) == x86_64::STACK_SIZE / PAGE_SIZE
                &&& final(self).mems().last().spec_pages() == runs_mapped(
                    Seq::new(0x10_0000_0000, |i: int| None::<(usize, PageType)>),
                    runs,
                )
            }),
    {
        let id = self.next_id();
        let mut process_mem = ProcessMem::new(id, x86_64::HEAP_BASE_ADDR as usize);
        let stack_bottom = (x86_64::STACK_BASE_ADDR as usize).wrapping_sub(x86_64::STACK_SIZE);
        let page_type = PageType::default().writable();
        proof {
            assert(stack_bottom == 0x7fff_ffff_d000);
            assert(user_range_fits(stack_bottom as int, 2));
            lemma_type_bits();
        }
        let res = process_mem.map_allocate(phys, stack_bottom, x86_64::STACK_SIZE, page_type, mapped);
        proof {
            assert(res is Ok);
        }
        let ghost pre = *self;
        self.mems.push(process_mem);
        proof {
            let i = choose|i: int| #[trigger] proc_at(pre.procs(), pre.current_process, i);
            assert(self.at(self.current_process, i));
        }
        let process = Process::new(id, id, name, hw_state, Some(id));
        self.add(process);
        proof {
            assert(self.procs().drop_last() =~= old(self).procs());
        }
        id
    }

    /// Create a process sharing the memory space, process group and name of
    /// the process `parent`, which must not be dead. The process is
    /// `Loading`.
    pub fn create_subprocess(&mut self, parent: Id, hw_state: HwState) -> (r: Option<Id>)
        requires
            old(self).wf(),
            old(self).spec_next_id() != u32::MAX,
            forall|i: int| old(self).at(parent, i) ==> (#[trigger] old(self).procs()[i]).spec_state() != State::Dead,
        ensures
            final(self).wf(),
            !old(self).has(parent) ==> r is None && final(self).procs() == old(self).procs()
                && final(self).spec_next_id() == old(self).spec_next_id() + 1,
            old(self).has(parent) ==> exists|i: int| {
                let p = old(self).procs()[i];
                &&& #[trigger] old(self).at(parent, i)
                &&& r == Some(old(self).spec_next_id())
                &&& final(self).procs().len() == old(self).procs().len() + 1
                &&& final(self).procs().drop_last() == old(self).procs()
                &&& final(self).procs().last().spec_id() == old(self).spec_next_id()
                &&& final(self).procs().last().spec_pgid() == p.spec_pgid()
                &&& final(self).procs().last().spec_name() == p.spec_name()
                &&& final(self).procs().last().spec_mem() == p.spec_mem()
                &&& final(self).procs().last().spec_state() == State::Loading
                &&& final(self).spec_next_id() == old(self).spec_next_id() + 1
            },
            final(self).current_id() == old(self).current_id(),
            final(self).run_queue() == old(self).run_queue(),
    {
        let id = self.next_id();
        match self.index_of(parent) {
            None => {
                proof {
                    if old(self).has(parent) {
                        let i = choose|i: int| #[trigger] proc_at(old(self).procs(), parent, i);
                        assert(self.at(parent, i));
                    }
                }
                None
            },
            Some(i) => {
                let pgid = self.process_tree[i].pgid;
                let name = self.process_tree[i].name.clone();
                let mem = self.process_tree[i].mem;
                let process = Process::new(id, pgid, name, hw_state, mem);
                proof {
                    assert(process.spec_name() == old(self).procs()[i as int].spec_name());
                }
                self.add(process);
                proof {
                    assert(self.procs().drop_last() =~= old(self).procs());
                    assert(old(self).at(parent, i as int));
                    let p = old(self).procs()[i as int];
                    assert(self.procs().last() == process);
                    assert(self.procs().last().spec_pgid() == p.spec_pgid());
                    assert({
                        let p = old(self).procs()[i as int];
                        &&& old(self).at(parent, i as int)
                        &&& Some(id) == Some(old(self).spec_next_id())
                        &&& self.procs().len() == old(self).procs().len() + 1
                        &&& self.procs().drop_last() == old(self).procs()
                        &&& self.procs().last().spec_id() == old(self).spec_next_id()
                        &&& self.procs().last().spec_pgid() == p.spec_pgid()
                        &&& self.procs().last().spec_name() == p.spec_name()
                        &&& self.procs().last().spec_mem() == p.spec_mem()
                        &&& self.procs().last().spec_state() == State::Loading
                        &&& self.spec_next_id() == old(self).spec_next_id() + 1
                    });
                }
                Some(id)
            },
        }
    }
}

} // verus!
