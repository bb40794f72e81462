use kernova::sched::thread::{Thread, ThreadId, STACK_SIZE, STACK_WORDS};
use kernova::sched::Scheduler;
use kernova::usermode::UserMode;

const BASE: usize = 0x20_0000;

#[test]
fn bootstrap_is_thread_zero() {
    let t = Thread::bootstrap();
    assert_eq!(t.id, ThreadId(0));
    assert_eq!(t.saved_rsp, 0);
}

#[test]
fn ids_count_up_and_wrap() {
    let mut c = 1u64;
    assert_eq!(ThreadId::next(&mut c), ThreadId(1));
    assert_eq!(ThreadId::next(&mut c), ThreadId(2));
    assert_eq!(c, 3);
    let mut m = u64::MAX;
    assert_eq!(ThreadId::next(&mut m), ThreadId(u64::MAX));
    assert_eq!(m, 0);
}

#[test]
fn new_thread_frame_below_aligned_top() {
    let mut c = 5u64;
    let t = Thread::new(0x1111, 0x2222, vec![0u64; STACK_WORDS], BASE, &mut c);
    assert_eq!(t.id, ThreadId(5));
    assert_eq!(c, 6);
    // base is 16-aligned, so the top is base + STACK_SIZE
    assert_eq!(t.saved_rsp, BASE + STACK_SIZE - 7 * 8);
}

#[test]
fn new_thread_on_unaligned_top() {
    let mut c = 1u64;
    let base = BASE + 8;
    let t = Thread::new(1, 2, vec![0u64; STACK_WORDS], base, &mut c);
    // (base + STACK_SIZE) rounds down by 8 to a 16-byte boundary
    assert_eq!(t.saved_rsp, base + STACK_SIZE - 8 - 7 * 8);
}

#[test]
fn round_robin_cycles_through_threads() {
    let mut s = Scheduler::new();
    s.init();
    let a = s.spawn(0x10, 0x99, vec![0u64; STACK_WORDS], BASE);
    let b = s.spawn(0x20, 0x99, vec![0u64; STACK_WORDS], BASE + STACK_SIZE);
    assert_eq!(a, ThreadId(1));
    assert_eq!(b, ThreadId(2));
    let rsp_a = BASE + STACK_SIZE - 56;
    let rsp_b = BASE + 2 * STACK_SIZE - 56;
    // thread 0 runs; the first switch goes to a, then b, then back to 0
    assert_eq!(s.preempt(&UserMode::new()), Some(rsp_a));
    assert_eq!(s.preempt(&UserMode::new()), Some(rsp_b));
    assert_eq!(s.preempt(&UserMode::new()), Some(0));
    assert_eq!(s.preempt(&UserMode::new()), Some(rsp_a));
}

#[test]
fn preempt_before_init_does_nothing() {
    let mut s = Scheduler::new();
    s.spawn(1, 2, vec![0u64; STACK_WORDS], BASE);
    assert_eq!(s.preempt(&UserMode::new()), None);
}

#[test]
fn lone_thread_keeps_running() {
    let mut s = Scheduler::new();
    s.init();
    assert_eq!(s.schedule(false), None);
    assert_eq!(s.preempt(&UserMode::new()), None);
}

#[test]
fn exiting_thread_is_not_requeued() {
    let mut s = Scheduler::new();
    s.init();
    s.spawn(1, 2, vec![0u64; STACK_WORDS], BASE);
    let rsp_a = BASE + STACK_SIZE - 56;
    // thread 0 exits: thread 1 runs and nothing else is queued
    assert_eq!(s.schedule(true), Some(rsp_a));
    assert_eq!(s.schedule(false), None);
}

#[test]
fn rsp_slot_records_outgoing_stack() {
    let mut s = Scheduler::new();
    s.init();
    s.spawn(1, 2, vec![0u64; STACK_WORDS], BASE);
    if let Some(slot) = s.current_rsp_slot() {
        *slot = 0xabc0;
    }
    s.schedule(false);
    // the bootstrap thread is queued with the stored stack pointer
    assert_eq!(s.schedule(false), Some(0xabc0));
}

#[test]
fn no_preemption_while_user_program_runs() {
    let mut s = Scheduler::new();
    s.init();
    s.spawn(1, 2, vec![0u64; STACK_WORDS], BASE);
    let mut u = UserMode::new();
    u.enter();
    assert_eq!(s.preempt(&u), None);
    assert_eq!(s.preempt(&u), None);
    u.leave();
    assert_eq!(s.preempt(&u), Some(BASE + STACK_SIZE - 56));
}
