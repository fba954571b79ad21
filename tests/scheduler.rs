use kernel::buddy::BuddyAllocator;
use kernel::frame::MEMORY_START;
use kernel::scheduler::{SchedError, Scheduler, STACK_SIZE, TICK_MICROS};
use kernel::thread::{CpuState, ThreadState};

fn setup(n: usize) -> (Scheduler, BuddyAllocator) {
    let mut alloc = BuddyAllocator::new();
    alloc.init();
    let mut s = Scheduler::new();
    for t in 0..n {
        let id = s.create_thread(&mut alloc, 0x8_0000 + 0x1000 * t as u64, 0x100, t as u64).unwrap();
        assert_eq!(id, t);
    }
    (s, alloc)
}

fn frame_at(pc: u64) -> CpuState {
    let mut f = CpuState::zeroed();
    f.pc = pc;
    f
}

#[test]
fn new_scheduler_is_empty() {
    let s = Scheduler::new();
    assert!(s.current.is_none());
    assert!(s.threads.is_empty());
    assert!(s.ready_queue.is_empty());
    assert!(s.zombie_queue.is_empty());
}

#[test]
fn create_thread_sets_up_context() {
    let (s, _) = setup(2);
    let t1 = s.threads[1].unwrap();
    assert_eq!(t1.id, 1);
    assert_eq!(t1.stack, MEMORY_START as u64 + 0x2000);
    assert_eq!(t1.stack_size, STACK_SIZE);
    assert_eq!(t1.cpu_state.pc, 0x8_1000);
    assert_eq!(t1.cpu_state.sp, t1.stack + STACK_SIZE as u64);
    assert_eq!(t1.cpu_state.x[0], 1);
    assert_eq!(t1.code_range, (0x8_1000, 0x8_1100));
    assert_eq!(t1.state, ThreadState::Ready);
    assert_eq!(s.ready_queue.iter().copied().collect::<Vec<_>>(), vec![0, 1]);
}

#[test]
fn create_thread_out_of_memory() {
    let mut alloc = BuddyAllocator::new();
    let mut s = Scheduler::new();
    assert_eq!(s.create_thread(&mut alloc, 0x8_0000, 0x10, 0), Err(SchedError::OutOfMemory));
    assert!(s.threads.is_empty());
}

#[test]
fn sched_timer_arms_tick() {
    let mut s = Scheduler::new();
    assert!(!s.timer_armed);
    assert_eq!(s.sched_timer(), TICK_MICROS);
    assert_eq!(TICK_MICROS, 1_000_000 / 32);
    assert!(s.timer_armed);
}

#[test]
fn run_threads_enters_first_thread() {
    let (mut s, _) = setup(2);
    let (pc, sp) = s.run_threads();
    assert_eq!(pc, 0x8_0000);
    assert_eq!(sp, MEMORY_START as u64 + STACK_SIZE as u64);
    assert_eq!(s.current, Some(0));
    assert!(s.timer_armed);
    assert_eq!(s.threads[0].unwrap().state, ThreadState::Running);
}

#[test]
fn schedule_is_round_robin() {
    let (mut s, _) = setup(3);
    s.run_threads();
    let mut order = Vec::new();
    for _ in 0..7 {
        let cur = s.current.unwrap();
        let mut f = frame_at(0x8_0000 + 0x1000 * cur as u64 + 4);
        s.schedule(&mut f).unwrap();
        order.push(s.current.unwrap());
        let next = s.threads[s.current.unwrap()].unwrap();
        assert_eq!(f.pc, next.cpu_state.pc);
    }
    assert_eq!(order, vec![1, 2, 0, 1, 2, 0, 1]);
}

#[test]
fn schedule_saves_and_restores_registers() {
    let (mut s, _) = setup(2);
    s.run_threads();
    let mut f = frame_at(0x8_0010);
    f.x[5] = 55;
    s.schedule(&mut f).unwrap();
    assert_eq!(s.threads[0].unwrap().cpu_state.x[5], 55);
    assert_eq!(s.threads[0].unwrap().state, ThreadState::Ready);
    assert_eq!(f.pc, 0x8_1000);
    assert_eq!(f.x[0], 1);
    let mut g = frame_at(0x8_1004);
    s.schedule(&mut g).unwrap();
    assert_eq!(g.x[5], 55);
    assert_eq!(g.pc, 0x8_0010);
}

#[test]
fn schedule_with_no_ready_thread_does_nothing() {
    let (mut s, _) = setup(1);
    s.run_threads();
    let mut f = frame_at(0x9_9999);
    assert_eq!(s.schedule(&mut f), Ok(()));
    assert_eq!(s.current, Some(0));
    assert_eq!(f.pc, 0x9_9999);
}

#[test]
fn schedule_refuses_pc_outside_code() {
    let (mut s, _) = setup(2);
    s.run_threads();
    let mut f = frame_at(0x8_0100);
    assert_eq!(s.schedule(&mut f), Err(SchedError::PcOutsideCode));
    assert_eq!(s.current, Some(0));
    assert_eq!(s.ready_queue.iter().copied().collect::<Vec<_>>(), vec![1]);
    assert_eq!(f.pc, 0x8_0100);
}

#[test]
fn fork_duplicates_current_thread() {
    let (mut s, mut alloc) = setup(1);
    s.run_threads();
    let parent = s.threads[0].unwrap();
    let mut f = frame_at(0x8_0020);
    f.sp = parent.stack + 0x1800;
    f.x[0] = 99;
    f.x[3] = 7;
    let child_id = s.fork(&mut alloc, &f).unwrap();
    assert_eq!(child_id, 1);
    let child = s.threads[1].unwrap();
    assert_eq!(child.id, 1);
    assert_ne!(child.stack, parent.stack);
    assert_eq!(child.stack_size, parent.stack_size);
    assert_eq!(child.cpu_state.x[0], 0);
    assert_eq!(child.cpu_state.x[3], 7);
    assert_eq!(child.cpu_state.sp, child.stack + 0x1800);
    assert_eq!(child.cpu_state.pc, 0x8_0020);
    assert_eq!(child.code_range, parent.code_range);
    assert_eq!(s.threads[0].unwrap().cpu_state.x[0], 99);
    assert_eq!(s.ready_queue.iter().copied().collect::<Vec<_>>(), vec![1]);
    // The child resumes with 0 where the parent got the child's id.
    let mut g = frame_at(0x8_0030);
    s.schedule(&mut g).unwrap();
    assert_eq!(g.x[0], 0);
    assert_eq!(g.pc, 0x8_0020);
}

#[test]
fn fork_out_of_memory() {
    let (mut s, mut alloc) = setup(1);
    s.run_threads();
    while alloc.allocate(1, 1).is_some() {}
    let f = frame_at(0x8_0020);
    assert_eq!(s.fork(&mut alloc, &f), Err(SchedError::OutOfMemory));
    assert_eq!(s.threads.len(), 1);
}

#[test]
fn exit_switches_to_next_thread() {
    let (mut s, _) = setup(2);
    s.run_threads();
    let mut f = frame_at(0x8_0004);
    assert_eq!(s.exit(&mut f, 3), Ok(1));
    assert_eq!(s.current, Some(1));
    assert_eq!(s.threads[0].unwrap().state, ThreadState::Zombie);
    assert_eq!(s.zombie_queue.iter().copied().collect::<Vec<_>>(), vec![0]);
    assert_eq!(f.pc, 0x8_1000);
    assert!(s.timer_armed);
}

#[test]
fn exit_of_last_thread_is_fatal() {
    let (mut s, _) = setup(1);
    s.run_threads();
    let mut f = frame_at(0x8_0004);
    assert_eq!(s.exit(&mut f, 0), Err(SchedError::NoReadyThread));
    assert!(s.current.is_none());
    assert_eq!(s.threads[0].unwrap().state, ThreadState::Zombie);
}

#[test]
fn thread_ids_are_never_reused() {
    let (mut s, mut alloc) = setup(2);
    s.run_threads();
    let mut f = frame_at(0x8_0004);
    s.exit(&mut f, 0).unwrap();
    let id = s.create_thread(&mut alloc, 0x9_0000, 0x10, 0).unwrap();
    assert_eq!(id, 2);
}
