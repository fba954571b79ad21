//! Execution contexts: the saved register snapshot and the thread record.
use vstd::prelude::*;

verus! {

/// A snapshot of the CPU registers that the trap layer saves on entry and
/// restores on return. The scheduler copies it whole; it reads only the program
/// counter, and for a duplicated thread writes the stack pointer and `x[0]`.
#[derive(Clone, Copy)]
pub struct CpuState {
    /// General-purpose registers `x0` to `x30`.
    pub x: [u64; 31],
    /// Stack pointer of the interrupted code.
    pub sp: u64,
    /// Program counter at which the interrupted code resumes.
    pub pc: u64,
    /// Saved processor state.
    pub pstate: u64,
}

impl CpuState {
    /// A snapshot with every register zero.
    pub fn zeroed() -> (r: CpuState)
        ensures
            r.sp == 0,
            r.pc == 0,
            r.pstate == 0,
            forall|i: int| 0 <= i < 31 ==> #[trigger] r.x@[i] == 0,
    {
        let x: [u64; 31] = [0u64; 31];
        CpuState { x, sp: 0, pc: 0, pstate: 0 }
    }
}

/// Where a thread is in its life.
#[derive(Clone, Copy, PartialEq, Eq, Structural, Debug)]
pub enum ThreadState {
    Ready,
    Running,
    Zombie,
}

/// One execution context.
#[derive(Clone, Copy)]
pub struct Thread {
    /// Sequential id; it is also the thread's slot in the scheduler.
    pub id: u32,
    /// Registers saved when the thread was last switched out.
    pub cpu_state: CpuState,
    /// Address of the lowest byte of the thread's own stack.
    pub stack: u64,
    /// Bytes in the stack.
    pub stack_size: usize,
    /// Address of the code that the thread starts in.
    pub entry: u64,
    /// Addresses `[start, end)` of the thread's code: it may only be switched out
    /// while running there.
    pub code_range: (u64, u64),
    pub state: ThreadState,
}

impl Thread {
    /// A ready thread that starts at `entry` with `args` in `x0`, on a stack of
    /// `stack_size` bytes at `stack`, whose code spans `entry_size` bytes.
    pub fn new(id: u32, stack: u64, stack_size: usize, entry: u64, entry_size: u64, args: u64) -> (r: Thread)
        requires
            stack + stack_size <= u64::MAX,
            entry + entry_size <= u64::MAX,
        ensures
            r.id == id,
            r.stack == stack,
            r.stack_size == stack_size,
            r.entry == entry,
            r.code_range == (entry, (entry + entry_size) as u64),
            r.state == ThreadState::Ready,
            r.cpu_state.pc == entry,
            r.cpu_state.sp == stack + stack_size,
            r.cpu_state.x@[0] == args,
            r.cpu_state.pstate == 0,
            forall|i: int| 1 <= i < 31 ==> #[trigger] r.cpu_state.x@[i] == 0,
    {
        let mut cpu_state = CpuState::zeroed();
        cpu_state.x[0] = args;
        cpu_state.pc = entry;
        cpu_state.sp = stack + stack_size as u64;
        Thread {
            id,
            cpu_state,
            stack,
            stack_size,
            entry,
            code_range: (entry, entry + entry_size),
            state: ThreadState::Ready,
        }
    }

    /// `pc` lies in the thread's code.
    pub open spec fn runs_own_code(&self, pc: u64) -> bool {
        self.code_range.0 <= pc < self.code_range.1
    }
}

} // verus!
