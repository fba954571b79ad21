//! The round-robin scheduler: the thread table, the ready and zombie queues, the
//! current thread, and the switches between them at trap boundaries.
use vstd::prelude::*;
use std::collections::VecDeque;
use crate::buddy::{alloc_post, can_serve, lemma_alloc_keeps_allocated, layout_order, BuddyAllocator, BuddyState};
use crate::frame::{frame_addr, frame_index, FRAME_SIZE, MEMORY_START, NFRAME};
use crate::thread::{CpuState, Thread, ThreadState};

verus! {

/// Bytes in each thread's stack.
pub const STACK_SIZE: usize = 0x2000;

/// Alignment asked for each thread's stack.
pub const STACK_ALIGN: usize = 16;

/// Period of the scheduling tick, in microseconds: a 32nd of a second.
pub const TICK_MICROS: u64 = 31250;

/// Why a scheduler operation could not be carried out. Each one halts the kernel.
#[derive(Clone, Copy, PartialEq, Eq, Structural, Debug)]
pub enum SchedError {
    /// No block was free for a new stack.
    OutOfMemory,
    /// The trap interrupted code outside the current thread's code.
    PcOutsideCode,
    /// The last runnable thread exited.
    NoReadyThread,
}

pub struct Scheduler {
    pub current: Option<usize>,
    pub threads: Vec<Option<Thread>>,
    pub ready_queue: VecDeque<usize>,
    pub zombie_queue: VecDeque<usize>,
    /// Set when the periodic tick was asked to be armed; the trap layer clears it
    /// once it has registered the timer.
    pub timer_armed: bool,
}

/// The stack at `addr` starts at a frame that the allocator has handed out.
pub open spec fn stack_held(frames: Seq<BuddyState>, addr: u64) -> bool {
    &&& MEMORY_START <= addr
    &&& 0 <= frame_index(addr as int) < NFRAME
    &&& frame_addr(frame_index(addr as int)) == addr
    &&& frames[frame_index(addr as int)] == BuddyState::Allocated
}

/// A thread record that can sit in slot `t`.
pub open spec fn thread_ok(th: Thread, t: int) -> bool {
    &&& th.id == t
    &&& th.stack + th.stack_size <= u64::MAX
}

/// `th` with the registers `regs` saved and in state `st`.
pub open spec fn saved(th: Thread, regs: CpuState, st: ThreadState) -> Thread {
    Thread { cpu_state: regs, state: st, ..th }
}

/// `th` in state `st`.
pub open spec fn with_state(th: Thread, st: ThreadState) -> Thread {
    Thread { state: st, ..th }
}

/// `th` is what `create_thread` makes: a ready thread with id `id` that starts at
/// `entry` with `args`, on the stack at `stack`.
pub open spec fn fresh_thread(th: Thread, id: int, stack: u64, entry: u64, entry_size: u64, args: u64) -> bool {
    &&& th.id == id
    &&& th.stack == stack
    &&& th.stack_size == STACK_SIZE
    &&& th.entry == entry
    &&& th.code_range == (entry, (entry + entry_size) as u64)
    &&& th.state == ThreadState::Ready
    &&& th.cpu_state.pc == entry
    &&& th.cpu_state.sp == stack + STACK_SIZE
    &&& th.cpu_state.x@[0] == args
    &&& th.cpu_state.pstate == 0
    &&& forall|i: int| 1 <= i < 31 ==> #[trigger] th.cpu_state.x@[i] == 0
}

/// `child` is the duplicate of `parent`, interrupted with registers `regs`, on its
/// own stack at `stack`: it resumes at the same depth of its own stack, with 0 as
/// the result of the call.
pub open spec fn forked(child: Thread, parent: Thread, regs: CpuState, id: int, stack: u64) -> bool {
    &&& child.id == id
    &&& child.stack == stack
    &&& child.stack_size == parent.stack_size
    &&& child.entry == parent.entry
    &&& child.code_range == parent.code_range
    &&& child.state == ThreadState::Ready
    &&& child.cpu_state.pc == regs.pc
    &&& child.cpu_state.pstate == regs.pstate
    &&& child.cpu_state.x@ == regs.x@.update(0, 0)
    &&& child.cpu_state.sp == regs.sp.wrapping_sub(parent.stack).wrapping_add(stack)
}

/// The order of the block that holds a stack of `size` bytes.
pub open spec fn stack_order(size: usize) -> nat {
    layout_order(size as nat, STACK_ALIGN as nat)
}

impl Scheduler {
    /// Slot `t` holds a thread in state `st`.
    pub open spec fn in_state(&self, t: int, st: ThreadState) -> bool {
        &&& 0 <= t < self.threads@.len()
        &&& self.threads@[t] matches Some(th)
        &&& th.state == st
    }

    /// The thread in slot `t`.
    pub open spec fn thread(&self, t: int) -> Thread {
        self.threads@[t]->Some_0
    }

    pub open spec fn wf(&self) -> bool {
        &&& self.threads@.len() <= u32::MAX
        &&& forall|t: int| 0 <= t < self.threads@.len() && (#[trigger] self.threads@[t]) is Some ==> thread_ok(self.threads@[t]->Some_0, t)
        &&& forall|p: int| 0 <= p < self.ready_queue@.len() ==> self.in_state(#[trigger] self.ready_queue@[p] as int, ThreadState::Ready)
        &&& self.ready_queue@.no_duplicates()
        &&& forall|p: int| 0 <= p < self.zombie_queue@.len() ==> self.in_state(#[trigger] self.zombie_queue@[p] as int, ThreadState::Zombie)
        &&& self.zombie_queue@.no_duplicates()
        &&& self.current matches Some(c) ==> self.in_state(c as int, ThreadState::Running)
    }

    /// Every thread's stack is a block that `frames` shows as handed out.
    pub open spec fn stacks_held(&self, frames: Seq<BuddyState>) -> bool {
        forall|t: int| 0 <= t < self.threads@.len() && (#[trigger] self.threads@[t]) is Some
            ==> stack_held(frames, self.threads@[t]->Some_0.stack)
    }

    /// The current thread followed by the ready queue: the order in which the
    /// threads get the CPU.
    pub open spec fn run_order(&self) -> Seq<usize> {
        seq![self.current->Some_0] + self.ready_queue@
    }

    /// An empty scheduler: no threads, nothing running.
    pub fn new() -> (r: Self)
        ensures
            r.wf(),
            r.current is None,
            r.threads@.len() == 0,
            r.ready_queue@.len() == 0,
            r.zombie_queue@.len() == 0,
            !r.timer_armed,
    {
        Scheduler {
            current: None,
            threads: Vec::new(),
            ready_queue: VecDeque::new(),
            zombie_queue: VecDeque::new(),
            timer_armed: false,
        }
    }

    /// Appends a ready thread and queues it.
    fn add(&mut self, thread: Thread)
        requires
            old(self).wf(),
            old(self).threads@.len() < u32::MAX,
            thread_ok(thread, old(self).threads@.len() as int),
            thread.state == ThreadState::Ready,
        ensures
            final(self).wf(),
            final(self).threads@ == old(self).threads@.push(Some(thread)),
            final(self).ready_queue@ == old(self).ready_queue@.push(old(self).threads@.len() as usize),
            final(self).zombie_queue == old(self).zombie_queue,
            final(self).current == old(self).current,
            final(self).timer_armed == old(self).timer_armed,
    {
        let ghost pre = *self;
        let id = self.threads.len();
        self.threads.push(Some(thread));
        self.ready_queue.push_back(id);
        proof {
            assert forall|p: int| 0 <= p < self.ready_queue@.len() implies self.in_state(#[trigger] self.ready_queue@[p] as int, ThreadState::Ready) by {
                if p < pre.ready_queue@.len() {
                    assert(pre.in_state(pre.ready_queue@[p] as int, ThreadState::Ready));
                }
            }
            assert forall|p: int| 0 <= p < self.zombie_queue@.len() implies self.in_state(#[trigger] self.zombie_queue@[p] as int, ThreadState::Zombie) by {
                assert(pre.in_state(pre.zombie_queue@[p] as int, ThreadState::Zombie));
            }
            assert forall|p: int, q: int| 0 <= p < q < self.ready_queue@.len() implies self.ready_queue@[p] != self.ready_queue@[q] by {
                if q == pre.ready_queue@.len() {
                    assert(pre.in_state(pre.ready_queue@[p] as int, ThreadState::Ready));
                }
            }
        }
    }

    /// Asks for the periodic scheduling tick to be armed, and gives its period in
    /// microseconds.
    pub fn sched_timer(&mut self) -> (r: u64)
        ensures
            r == TICK_MICROS,
            final(self).timer_armed,
            final(self).current == old(self).current,
            final(self).threads == old(self).threads,
            final(self).ready_queue == old(self).ready_queue,
            final(self).zombie_queue == old(self).zombie_queue,
    {
        self.timer_armed = true;
        TICK_MICROS
    }

    /// Round-robin step at a timer tick, with `frame` the registers of the
    /// interrupted thread. With no other thread ready it does nothing. When the
    /// interrupted code is not the current thread's own, it refuses to switch.
    /// Otherwise the current thread's registers are saved, it goes to the back of
    /// the ready queue, and the first ready thread's registers are installed.
    pub fn schedule(&mut self, frame: &mut CpuState) -> (r: Result<(), SchedError>)
        requires
            old(self).wf(),
            old(self).current is Some,
        ensures
            final(self).wf(),
            ({
                let c = old(self).current->Some_0 as int;
                let next = old(self).ready_queue@[0];
                if old(self).ready_queue@.len() == 0 {
                    r == Ok::<(), SchedError>(()) && *final(self) == *old(self) && *final(frame) == *old(frame)
                } else if !old(self).thread(c).runs_own_code(old(frame).pc) {
                    r == Err::<(), SchedError>(SchedError::PcOutsideCode) && *final(self) == *old(self) && *final(frame) == *old(frame)
                } else {
                    &&& r == Ok::<(), SchedError>(())
                    &&& final(self).current == Some(next)
                    &&& final(self).ready_queue@ == old(self).ready_queue@.subrange(1, old(self).ready_queue@.len() as int).push(c as usize)
                    &&& final(self).run_order() == old(self).run_order().subrange(1, old(self).run_order().len() as int).push(c as usize)
                    &&& final(self).threads@ == old(self).threads@
                        .update(c, Some(saved(old(self).thread(c), *old(frame), ThreadState::Ready)))
                        .update(next as int, Some(with_state(old(self).thread(next as int), ThreadState::Running)))
                    &&& *final(frame) == old(self).thread(next as int).cpu_state
                    &&& final(self).zombie_queue == old(self).zombie_queue
                    &&& final(self).timer_armed == old(self).timer_armed
                }
            }),
    {
        if self.ready_queue.len() == 0 {
            return Ok(());
        }
        let current = match self.current {
            Some(c) => c,
            None => {
                return Ok(());
            },
        };
        let range = match self.threads[current] {
            Some(th) => th.code_range,
            None => {
                return Ok(());
            },
        };
        if !(range.0 <= frame.pc && frame.pc < range.1) {
            return Err(SchedError::PcOutsideCode);
        }
        let ghost pre = *self;
        let next = match self.ready_queue.pop_front() {
            Some(n) => n,
            None => {
                return Ok(());
            },
        };
        proof {
            assert(pre.in_state(pre.ready_queue@[0] as int, ThreadState::Ready));
        }
        self.ready_queue.push_back(current);
        self.current = Some(next);
        self.save_current(current, frame);
        self.restore_next(next, frame);
        proof {
            assert(self.run_order() =~= pre.run_order().subrange(1, pre.run_order().len() as int).push(current));
            assert forall|p: int| 0 <= p < self.ready_queue@.len() implies self.in_state(#[trigger] self.ready_queue@[p] as int, ThreadState::Ready) by {
                if p + 1 < pre.ready_queue@.len() {
                    assert(self.ready_queue@[p] == pre.ready_queue@[p + 1]);
                    assert(pre.in_state(pre.ready_queue@[p + 1] as int, ThreadState::Ready));
                }
            }
            assert forall|p: int| 0 <= p < self.zombie_queue@.len() implies self.in_state(#[trigger] self.zombie_queue@[p] as int, ThreadState::Zombie) by {
                assert(pre.in_state(pre.zombie_queue@[p] as int, ThreadState::Zombie));
            }
            assert forall|p: int, q: int| 0 <= p < q < self.ready_queue@.len() implies self.ready_queue@[p] != self.ready_queue@[q] by {
                if q + 1 == pre.ready_queue@.len() + 0 && q == self.ready_queue@.len() - 1 {
                    assert(pre.in_state(pre.ready_queue@[p + 1] as int, ThreadState::Ready));
                } else {
                    assert(self.ready_queue@[p] == pre.ready_queue@[p + 1]);
                    assert(self.ready_queue@[q] == pre.ready_queue@[q + 1]);
                }
            }
        }
        Ok(())
    }

    /// Saves the interrupted registers into the thread in slot `t`, which becomes
    /// ready.
    fn save_current(&mut self, t: usize, frame: &CpuState)
        requires
            t < old(self).threads@.len(),
            old(self).threads@[t as int] is Some,
        ensures
            final(self).threads@ == old(self).threads@.update(t as int, Some(saved(old(self).thread(t as int), *frame, ThreadState::Ready))),
            final(self).current == old(self).current,
            final(self).ready_queue == old(self).ready_queue,
            final(self).zombie_queue == old(self).zombie_queue,
            final(self).timer_armed == old(self).timer_armed,
    {
        if let Some(th) = self.threads[t] {
            let mut th = th;
            th.cpu_state = *frame;
            th.state = ThreadState::Ready;
            self.threads.set(t, Some(th));
        }
    }

    /// Installs the saved registers of the thread in slot `t`, which becomes the
    /// running one.
    fn restore_next(&mut self, t: usize, frame: &mut CpuState)
        requires
            t < old(self).threads@.len(),
            old(self).threads@[t as int] is Some,
        ensures
            final(self).threads@ == old(self).threads@.update(t as int, Some(with_state(old(self).thread(t as int), ThreadState::Running))),
            *final(frame) == old(self).thread(t as int).cpu_state,
            final(self).current == old(self).current,
            final(self).ready_queue == old(self).ready_queue,
            final(self).zombie_queue == old(self).zombie_queue,
            final(self).timer_armed == old(self).timer_armed,
    {
        if let Some(th) = self.threads[t] {
            let mut th = th;
            *frame = th.cpu_state;
            th.state = ThreadState::Running;
            self.threads.set(t, Some(th));
        }
    }

    /// Ends the current thread: it becomes a zombie and the scheduling tick is
    /// re-armed. The first ready thread is then installed and its slot returned;
    /// with none left there is nothing to run, which halts the kernel. A zombie
    /// keeps its slot and its stack: neither the id nor the memory is reused.
    pub fn exit(&mut self, frame: &mut CpuState, status: u64) -> (r: Result<usize, SchedError>)
        requires
            old(self).wf(),
            old(self).current is Some,
        ensures
            final(self).wf(),
            ({
                let c = old(self).current->Some_0 as int;
                let next = old(self).ready_queue@[0];
                let dead = old(self).threads@.update(c, Some(with_state(old(self).thread(c), ThreadState::Zombie)));
                &&& final(self).zombie_queue@ == old(self).zombie_queue@.push(c as usize)
                &&& final(self).timer_armed
                &&& if old(self).ready_queue@.len() == 0 {
                    &&& r == Err::<usize, SchedError>(SchedError::NoReadyThread)
                    &&& final(self).current is None
                    &&& final(self).threads@ == dead
                    &&& final(self).ready_queue@ == old(self).ready_queue@
                    &&& *final(frame) == *old(frame)
                } else {
                    &&& r == Ok::<usize, SchedError>(next)
                    &&& final(self).current == Some(next)
                    &&& final(self).threads@ == dead.update(next as int, Some(with_state(old(self).thread(next as int), ThreadState::Running)))
                    &&& final(self).ready_queue@ == old(self).ready_queue@.subrange(1, old(self).ready_queue@.len() as int)
                    &&& *final(frame) == old(self).thread(next as int).cpu_state
                }
            }),
    {
        let ghost pre = *self;
        let current = match self.current {
            Some(c) => c,
            None => {
                return Err(SchedError::NoReadyThread);
            },
        };
        if let Some(th) = self.threads[current] {
            let mut th = th;
            th.state = ThreadState::Zombie;
            self.threads.set(current, Some(th));
        }
        self.zombie_queue.push_back(current);
        self.current = None;
        self.sched_timer();
        proof {
            assert forall|p: int| 0 <= p < self.zombie_queue@.len() implies self.in_state(#[trigger] self.zombie_queue@[p] as int, ThreadState::Zombie) by {
                if p < pre.zombie_queue@.len() {
                    assert(pre.in_state(pre.zombie_queue@[p] as int, ThreadState::Zombie));
                }
            }
            assert forall|p: int, q: int| 0 <= p < q < self.zombie_queue@.len() implies self.zombie_queue@[p] != self.zombie_queue@[q] by {
                if q == pre.zombie_queue@.len() {
                    assert(pre.in_state(pre.zombie_queue@[p] as int, ThreadState::Zombie));
                }
            }
            assert forall|p: int| 0 <= p < self.ready_queue@.len() implies self.in_state(#[trigger] self.ready_queue@[p] as int, ThreadState::Ready) by {
                assert(pre.in_state(pre.ready_queue@[p] as int, ThreadState::Ready));
            }
        }
        let ghost mid = *self;
        match self.ready_queue.pop_front() {
            Some(next) => {
                proof {
                    assert(mid.in_state(mid.ready_queue@[0] as int, ThreadState::Ready));
                }
                self.current = Some(next);
                self.restore_next(next, frame);
                proof {
                    assert forall|p: int| 0 <= p < self.ready_queue@.len() implies self.in_state(#[trigger] self.ready_queue@[p] as int, ThreadState::Ready) by {
                        assert(self.ready_queue@[p] == mid.ready_queue@[p + 1]);
                        assert(mid.in_state(mid.ready_queue@[p + 1] as int, ThreadState::Ready));
                    }
                    assert forall|p: int| 0 <= p < self.zombie_queue@.len() implies self.in_state(#[trigger] self.zombie_queue@[p] as int, ThreadState::Zombie) by {
                        assert(mid.in_state(mid.zombie_queue@[p] as int, ThreadState::Zombie));
                    }
                    assert forall|p: int, q: int| 0 <= p < q < self.ready_queue@.len() implies self.ready_queue@[p] != self.ready_queue@[q] by {
                        assert(self.ready_queue@[p] == mid.ready_queue@[p + 1]);
                        assert(self.ready_queue@[q] == mid.ready_queue@[q + 1]);
                    }
                }
                Ok(next)
            },
            None => Err(SchedError::NoReadyThread),
        }
    }

    /// Starts threaded execution at boot: arms the tick, takes the first ready
    /// thread as the running one, and gives the program counter and stack pointer
    /// to enter it with.
    pub fn run_threads(&mut self) -> (r: (u64, u64))
        requires
            old(self).wf(),
            old(self).current is None,
            old(self).ready_queue@.len() > 0,
        ensures
            final(self).wf(),
            ({
                let next = old(self).ready_queue@[0];
                let th = old(self).thread(next as int);
                &&& final(self).current == Some(next)
                &&& final(self).threads@ == old(self).threads@.update(next as int, Some(with_state(th, ThreadState::Running)))
                &&& final(self).ready_queue@ == old(self).ready_queue@.subrange(1, old(self).ready_queue@.len() as int)
                &&& final(self).zombie_queue == old(self).zombie_queue
                &&& final(self).timer_armed
                &&& r == (th.entry, (th.stack + th.stack_size) as u64)
            }),
    {
        self.sched_timer();
        let ghost mid = *self;
        let next = match self.ready_queue.pop_front() {
            Some(n) => n,
            None => {
                return (0, 0);
            },
        };
        proof {
            assert(mid.in_state(mid.ready_queue@[0] as int, ThreadState::Ready));
        }
        self.current = Some(next);
        let mut out: (u64, u64) = (0, 0);
        if let Some(th) = self.threads[next] {
            proof {
                assert(thread_ok(th, next as int));
            }
            out = (th.entry, th.stack + th.stack_size as u64);
            let mut th = th;
            th.state = ThreadState::Running;
            self.threads.set(next, Some(th));
        }
        proof {
            assert forall|p: int| 0 <= p < self.ready_queue@.len() implies self.in_state(#[trigger] self.ready_queue@[p] as int, ThreadState::Ready) by {
                assert(self.ready_queue@[p] == mid.ready_queue@[p + 1]);
                assert(mid.in_state(mid.ready_queue@[p + 1] as int, ThreadState::Ready));
            }
            assert forall|p: int| 0 <= p < self.zombie_queue@.len() implies self.in_state(#[trigger] self.zombie_queue@[p] as int, ThreadState::Zombie) by {
                assert(mid.in_state(mid.zombie_queue@[p] as int, ThreadState::Zombie));
            }
            assert forall|p: int, q: int| 0 <= p < q < self.ready_queue@.len() implies self.ready_queue@[p] != self.ready_queue@[q] by {
                assert(self.ready_queue@[p] == mid.ready_queue@[p + 1]);
                assert(self.ready_queue@[q] == mid.ready_queue@[q + 1]);
            }
        }
        out
    }

    /// Creates a ready thread on a new stack from `alloc` and gives its slot. The
    /// thread starts at `entry` with `args` in `x0`; `entry` is the code that calls
    /// the thread's function and then exits, and with that function it spans
    /// `entry_size` bytes, the range in which the thread may be preempted.
    pub fn create_thread(&mut self, alloc: &mut BuddyAllocator, entry: u64, entry_size: u64, args: u64) -> (r: Result<usize, SchedError>)
        requires
            old(self).wf(),
            old(alloc).wf(),
            old(self).stacks_held(old(alloc).frames@),
            old(self).threads@.len() < u32::MAX,
            entry + entry_size <= u64::MAX,
        ensures
            final(self).wf(),
            final(alloc).wf(),
            final(self).stacks_held(final(alloc).frames@),
            r is Ok <==> can_serve(old(alloc).frames@, stack_order(STACK_SIZE)),
            r is Err ==> r == Err::<usize, SchedError>(SchedError::OutOfMemory) && *final(self) == *old(self)
                && final(alloc).frames@ == old(alloc).frames@,
            r matches Ok(id) ==> {
                &&& id == old(self).threads@.len()
                &&& final(self).threads@.len() == id + 1
                &&& final(self).threads@.subrange(0, id as int) == old(self).threads@
                &&& final(self).threads@[id as int] is Some
                &&& exists|h: usize| #[trigger] frame_addr(h as int) == final(self).thread(id as int).stack
                    && alloc_post(old(alloc).frames@, stack_order(STACK_SIZE), Some(h), final(alloc).frames@)
                &&& fresh_thread(final(self).thread(id as int), id as int, final(self).thread(id as int).stack, entry, entry_size, args)
                &&& final(self).ready_queue@ == old(self).ready_queue@.push(id)
                &&& final(self).current == old(self).current
                &&& final(self).zombie_queue == old(self).zombie_queue
                &&& final(self).timer_armed == old(self).timer_armed
            },
    {
        let ghost frames0 = alloc.frames@;
        let stack = match alloc.allocate(STACK_SIZE, STACK_ALIGN) {
            Some(a) => a,
            None => {
                return Err(SchedError::OutOfMemory);
            },
        };
        let ghost h = choose|h: usize| stack == frame_addr(h as int)
            && alloc_post(frames0, stack_order(STACK_SIZE), Some(h), alloc.frames@);
        proof {
            lemma_alloc_keeps_allocated(frames0, stack_order(STACK_SIZE), Some(h), alloc.frames@);
            crate::frame::lemma_frame_index_addr(h as int);
        }
        let id = self.threads.len();
        let thread = Thread::new(id as u32, stack as u64, STACK_SIZE, entry, entry_size, args);
        let ghost pre = *self;
        self.add(thread);
        proof {
            assert(self.threads@.subrange(0, id as int) =~= pre.threads@);
            assert forall|t: int| 0 <= t < self.threads@.len() && (#[trigger] self.threads@[t]) is Some
                implies stack_held(alloc.frames@, self.threads@[t]->Some_0.stack) by {
                if t < id {
                    assert(self.threads@[t] == pre.threads@[t]);
                    assert(stack_held(frames0, pre.threads@[t]->Some_0.stack));
                }
            }
        }
        Ok(id)
    }

    /// Duplicates the current thread, interrupted with registers `frame`, onto a new
    /// stack from `alloc`: the duplicate resumes at the same depth of its own stack
    /// and sees 0 as the call's result, while the caller gets its slot.
    pub fn fork(&mut self, alloc: &mut BuddyAllocator, frame: &CpuState) -> (r: Result<usize, SchedError>)
        requires
            old(self).wf(),
            old(alloc).wf(),
            old(self).stacks_held(old(alloc).frames@),
            old(self).current is Some,
            old(self).threads@.len() < u32::MAX,
        ensures
            final(self).wf(),
            final(alloc).wf(),
            final(self).stacks_held(final(alloc).frames@),
            ({
                let c = old(self).current->Some_0 as int;
                let parent = old(self).thread(c);
                &&& r is Ok <==> (stack_order(parent.stack_size) < crate::frame::LAYER_COUNT
                    && can_serve(old(alloc).frames@, stack_order(parent.stack_size)))
                &&& r is Err ==> r == Err::<usize, SchedError>(SchedError::OutOfMemory) && *final(self) == *old(self)
                    && final(alloc).frames@ == old(alloc).frames@
                &&& r matches Ok(id) ==> {
                    let child = final(self).thread(id as int);
                    &&& id == old(self).threads@.len()
                    &&& final(self).threads@ == old(self).threads@
                        .update(c, Some(saved(parent, *frame, ThreadState::Running))).push(Some(child))
                    &&& forked(child, parent, *frame, id as int, child.stack)
                    &&& forall|t: int| 0 <= t < old(self).threads@.len() && (#[trigger] old(self).threads@[t]) is Some
                        ==> old(self).threads@[t]->Some_0.stack != child.stack
                    &&& exists|h: usize| #[trigger] frame_addr(h as int) == child.stack
                        && alloc_post(old(alloc).frames@, stack_order(parent.stack_size), Some(h), final(alloc).frames@)
                    &&& final(self).ready_queue@ == old(self).ready_queue@.push(id)
                    &&& final(self).current == old(self).current
                    &&& final(self).zombie_queue == old(self).zombie_queue
                    &&& final(self).timer_armed == old(self).timer_armed
                }
            }),
    {
        let ghost frames0 = alloc.frames@;
        let ghost pre = *self;
        let current = match self.current {
            Some(c) => c,
            None => {
                return Err(SchedError::OutOfMemory);
            },
        };
        let parent = match self.threads[current] {
            Some(th) => th,
            None => {
                return Err(SchedError::OutOfMemory);
            },
        };
        let stack = match alloc.allocate(parent.stack_size, STACK_ALIGN) {
            Some(a) => a,
            None => {
                return Err(SchedError::OutOfMemory);
            },
        };
        let ghost h = choose|h: usize| stack == frame_addr(h as int)
            && alloc_post(frames0, stack_order(parent.stack_size), Some(h), alloc.frames@);
        proof {
            lemma_alloc_keeps_allocated(frames0, stack_order(parent.stack_size), Some(h), alloc.frames@);
            crate::frame::lemma_frame_index_addr(h as int);
            crate::buddy::lemma_layout_order(parent.stack_size as nat, STACK_ALIGN as nat, 0);
            crate::frame::lemma_order_values();
            if stack_order(parent.stack_size) < 11 {
                vstd::arithmetic::power2::lemma_pow2_strictly_increases(stack_order(parent.stack_size), 11);
            }
            assert(parent.stack_size <= crate::frame::order_bytes(stack_order(parent.stack_size)));
            assert forall|t: int| 0 <= t < pre.threads@.len() && (#[trigger] pre.threads@[t]) is Some
                implies pre.threads@[t]->Some_0.stack != stack by {
                assert(stack_held(frames0, pre.threads@[t]->Some_0.stack));
            }
        }
        let mut regs = *frame;
        regs.x[0] = 0;
        regs.sp = frame.sp.wrapping_sub(parent.stack).wrapping_add(stack as u64);
        let child = Thread {
            id: self.threads.len() as u32,
            cpu_state: regs,
            stack: stack as u64,
            stack_size: parent.stack_size,
            entry: parent.entry,
            code_range: parent.code_range,
            state: ThreadState::Ready,
        };
        let mut me = parent;
        me.cpu_state = *frame;
        self.threads.set(current, Some(me));
        let ghost mid = *self;
        proof {
            assert forall|p: int| 0 <= p < mid.ready_queue@.len() implies mid.in_state(#[trigger] mid.ready_queue@[p] as int, ThreadState::Ready) by {
                assert(pre.in_state(pre.ready_queue@[p] as int, ThreadState::Ready));
            }
            assert forall|p: int| 0 <= p < mid.zombie_queue@.len() implies mid.in_state(#[trigger] mid.zombie_queue@[p] as int, ThreadState::Zombie) by {
                assert(pre.in_state(pre.zombie_queue@[p] as int, ThreadState::Zombie));
            }
        }
        let id = self.threads.len();
        self.add(child);
        proof {
            assert(saved(parent, *frame, ThreadState::Running) == me);
            assert forall|t: int| 0 <= t < self.threads@.len() && (#[trigger] self.threads@[t]) is Some
                implies stack_held(alloc.frames@, self.threads@[t]->Some_0.stack) by {
                if t < id {
                    assert(stack_held(frames0, pre.threads@[t]->Some_0.stack));
                }
            }
        }
        Ok(id)
    }
}

/// `s` turned `m` places to the left.
pub open spec fn rotated(s: Seq<usize>, m: int) -> Seq<usize> {
    s.subrange(m, s.len() as int) + s.subrange(0, m)
}

/// Round robin: when each of `n` ticks switches threads, the thread that runs
/// after the `n`-th tick is the one `n` places after the first in the initial
/// run order, cyclically.
pub proof fn lemma_round_robin(states: Seq<Scheduler>, n: nat)
    requires
        n < states.len(),
        forall|i: int| 0 <= i < n ==> (#[trigger] states[i + 1]).run_order()
            == states[i].run_order().subrange(1, states[i].run_order().len() as int).push(states[i].run_order()[0]),
    ensures
        states[n as int].run_order() == rotated(states[0].run_order(), (n as int) % (states[0].run_order().len() as int)),
        states[n as int].current->Some_0 == states[0].run_order()[(n as int) % (states[0].run_order().len() as int)],
    decreases n,
{
    let s = states[0].run_order();
    let len = s.len();
    assert(len >= 1);
    let r = (n as int) % (len as int);
    if n == 0 {
        vstd::arithmetic::div_mod::lemma_small_mod(0, len as nat);
        assert(rotated(s, 0) =~= s);
    } else {
        lemma_round_robin(states, (n - 1) as nat);
        let m = ((n - 1) as int) % (len as int);
        vstd::arithmetic::div_mod::lemma_fundamental_div_mod((n - 1) as int, len as int);
        vstd::arithmetic::div_mod::lemma_mod_bound((n - 1) as int, len as int);
        let prev = states[n - 1].run_order();
        assert(prev == rotated(s, m));
        assert(states[n as int] == states[(n - 1) + 1]);
        let next = prev.subrange(1, len as int).push(prev[0]);
        assert(states[n as int].run_order() == next);
        let q = ((n - 1) as int) / (len as int);
        if m + 1 < len {
            assert(n as int == (len as int) * q + (m + 1));
            assert(r == m + 1) by {
                vstd::arithmetic::div_mod::lemma_fundamental_div_mod_converse(n as int, len as int, q, m + 1);
            }
            assert(next =~= rotated(s, m + 1));
        } else {
            assert(n as int == (len as int) * (q + 1) + 0) by (nonlinear_arith)
                requires (n - 1) as int == (len as int) * q + m, m + 1 == len as int, n >= 1;
            assert(r == 0) by {
                vstd::arithmetic::div_mod::lemma_fundamental_div_mod_converse(n as int, len as int, q + 1, 0);
            }
            assert(next =~= rotated(s, 0));
        }
    }
    assert(0 <= r < len) by {
        vstd::arithmetic::div_mod::lemma_mod_bound(n as int, len as int);
    }
    assert(states[n as int].run_order() == rotated(s, r));
    assert(rotated(s, r)[0] == s[r]);
    assert(states[n as int].run_order()[0] == states[n as int].current->Some_0);
}

} // verus!
