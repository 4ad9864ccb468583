//! x86-64 hardware state of a process: the registers saved on a switch.

use vstd::prelude::*;

verus! {

pub const ARGS_TOP_ADDR: u64 = 0x0000_7fee_ffff_ffff;

pub const STACK_BASE_ADDR: u64 = 0x0000_7fff_ffff_f000;

pub const HEAP_BASE_ADDR: u64 = 0x0000_0001_0000_0000;

pub const STACK_SIZE: usize = 8192;

/// One 128-bit SSE register.
#[derive(Debug, Default, Clone, Copy)]
pub struct SSEReg(pub u32, pub u32, pub u32, pub u32);

/// A complete set of user registers.
#[derive(Debug)]
pub struct Registers {
    pub rax: usize,
    pub rcx: usize,
    pub rdx: usize,
    pub rbx: usize,
    pub rsp: usize,
    pub rbp: usize,
    pub rsi: usize,
    pub rdi: usize,
    pub r8: usize,
    pub r9: usize,
    pub r10: usize,
    pub r11: usize,
    pub r12: usize,
    pub r13: usize,
    pub r14: usize,
    pub r15: usize,
    pub rip: usize,
    pub eflags: u32,
    pub fxsave: [SSEReg; 32],
}

impl Default for Registers {
    fn default() -> (r: Registers)
        ensures
            r.rsp == 0 && r.rbp == 0 && r.rsi == 0 && r.rdi == 0 && r.rip == 0 && r.rax == 0,
    {
        Registers {
            rax: 0,
            rcx: 0,
            rdx: 0,
            rbx: 0,
            rsp: 0,
            rbp: 0,
            rsi: 0,
            rdi: 0,
            r8: 0,
            r9: 0,
            r10: 0,
            r11: 0,
            r12: 0,
            r13: 0,
            r14: 0,
            r15: 0,
            rip: 0,
            eflags: 0,
            fxsave: [SSEReg(0, 0, 0, 0); 32],
        }
    }
}

/// The callee-saved registers of the kernel side of a process.
#[derive(Debug, Default, Clone)]
pub struct KernelRegisters {
    pub rip: usize,
    pub rsp: usize,
    pub rbp: usize,
    pub rbx: usize,
    pub r12: usize,
    pub r13: usize,
    pub r14: usize,
    pub r15: usize,
}

/// The kernel part of the hardware state: its stack and registers.
#[derive(Debug)]
pub struct KernelHwState {
    pub kstack: usize,
    pub registers: KernelRegisters,
}

impl KernelHwState {
    /// The state of a process about to start on the kernel stack whose top
    /// is `kstack`.
    pub fn new(kstack: usize) -> (r: KernelHwState)
        ensures
            r.kstack == kstack,
            r.registers.rsp == kstack && r.registers.rbp == kstack && r.registers.rip == 0,
    {
        KernelHwState {
            kstack,
            registers: KernelRegisters { rip: 0, rsp: kstack, rbp: kstack, rbx: 0, r12: 0, r13: 0, r14: 0, r15: 0 },
        }
    }

    /// Set the address to jump to on process switch.
    pub fn set_instruction_pointer(&mut self, ip: usize)
        ensures
            final(self).registers.rip == ip,
            final(self).registers.rsp == old(self).registers.rsp,
            final(self).kstack == old(self).kstack,
    {
        self.registers.rip = ip;
    }
}

/// The user part of the hardware state.
#[derive(Debug)]
pub struct UserHwState {
    pub registers: Registers,
}

impl UserHwState {
    pub fn new() -> (r: UserHwState)
        ensures
            r.registers.rsp == 0 && r.registers.rip == 0 && r.registers.rdi == 0 && r.registers.rsi == 0,
    {
        UserHwState { registers: Registers::default() }
    }

    /// Set the entry point arguments to `(argc, argv)`, or `(0, NULL)`.
    pub fn set_args(&mut self, args: Option<(i32, usize)>)
        ensures
            final(self).registers == (match args {
                Some((argc, argv)) => Registers { rdi: argc as usize, rsi: argv, ..old(self).registers },
                None => Registers { rdi: 0, rsi: 0, ..old(self).registers },
            }),
    {
        match args {
            Some((argc, argv)) => {
                self.registers.rdi = argc as usize;
                self.registers.rsi = argv;
            },
            None => {
                self.registers.rdi = 0;
                self.registers.rsi = 0;
            },
        }
    }

    /// Set the instruction pointer to the given address.
    pub fn set_instruction_pointer(&mut self, vaddr: usize)
        ensures
            final(self).registers == (Registers { rip: vaddr, ..old(self).registers }),
    {
        self.registers.rip = vaddr;
    }

    /// Set the stack pointer (and frame pointer) to the given address.
    pub fn set_stack_pointer(&mut self, vaddr: usize)
        ensures
            final(self).registers == (Registers { rsp: vaddr, rbp: vaddr, ..old(self).registers }),
    {
        self.registers.rsp = vaddr;
        self.registers.rbp = vaddr;
    }
}

/// The hardware state of a process.
#[derive(Debug)]
pub struct HwState {
    kernel: KernelHwState,
    user: UserHwState,
}

impl HwState {
    pub closed spec fn kernel_state(&self) -> &KernelHwState {
        &self.kernel
    }

    pub closed spec fn user_state(&self) -> &UserHwState {
        &self.user
    }

    /// The state of a new process with the kernel stack whose top is
    /// `kstack`.
    pub fn new(kstack: usize) -> (r: HwState)
        ensures
            r.kernel_state().kstack == kstack,
            r.kernel_state().registers.rsp == kstack,
            r.kernel_state().registers.rip == 0,
            r.user_state().registers.rip == 0,
            r.user_state().registers.rsp == 0,
    {
        HwState { kernel: KernelHwState::new(kstack), user: UserHwState::new() }
    }

    pub fn kernel(&self) -> (r: &KernelHwState)
        ensures
            r == self.kernel_state(),
    {
        &self.kernel
    }

    pub fn kernel_mut(&mut self) -> (r: &mut KernelHwState)
        ensures
            *r == *old(self).kernel_state(),
            *final(self).kernel_state() == *final(r),
            *final(self).user_state() == *old(self).user_state(),
    {
        &mut self.kernel
    }

    pub fn user(&self) -> (r: &UserHwState)
        ensures
            r == self.user_state(),
    {
        &self.user
    }

    pub fn user_mut(&mut self) -> (r: &mut UserHwState)
        ensures
            *r == *old(self).user_state(),
            *final(self).user_state() == *final(r),
            *final(self).kernel_state() == *old(self).kernel_state(),
    {
        &mut self.user
    }
}

} // verus!
