//! Data local to each CPU.

use vstd::prelude::*;

verus! {

/// What each CPU keeps for the syscall and interrupt entry code.
pub struct CpuLocalData {
    /// A guaranteed valid place for a small amount of temporary data; the
    /// syscall handler keeps the user stack pointer here.
    pub scratch: [u64; 4],
    /// The address of the current process's hardware state.
    pub hwstate: u64,
}

impl CpuLocalData {
    /// Zeroed data, as the boot CPU's starts out.
    pub fn new() -> (r: CpuLocalData)
        ensures
            r.scratch@ == seq![0u64, 0u64, 0u64, 0u64],
            r.hwstate == 0,
    {
        let r = CpuLocalData { scratch: [0, 0, 0, 0], hwstate: 0 };
        assert(r.scratch@ =~= seq![0u64, 0u64, 0u64, 0u64]);
        r
    }
}

} // verus!
