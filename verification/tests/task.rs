use lib::mm::PhysicalMemoryAllocator;
use lib::task::{
    Cpu, Task, TaskManager, TaskState, KERNEL_STACK_SIZE, MAX_TASKS, SCHEDULER_MAX_TASKS,
};
use lib::trap::{TrapFrame, TRAP_FRAME_SIZE};

const STACK_A: usize = 0x8700_0000;
const STACK_B: usize = 0x8700_1000;
const STACK_C: usize = 0x8700_2000;

#[test]
fn empty_task_is_unused() {
    let t = Task::empty();
    assert_eq!(t.pid, 0);
    assert_eq!(t.state, TaskState::Unused);
    assert_eq!(t.kernel_stack, 0);
    assert_eq!(t.trap_frame, 0);
}

#[test]
fn new_task_frame_at_stack_top() {
    let (t, f) = Task::new(7, STACK_A, 0x8020_1000, 0x11, 0x22, 0x120);
    assert_eq!(t.pid, 7);
    assert_eq!(t.state, TaskState::Runnable);
    assert_eq!(t.kernel_stack, STACK_A);
    assert_eq!(t.trap_frame, STACK_A + KERNEL_STACK_SIZE - TRAP_FRAME_SIZE);
    assert_eq!(f, TrapFrame::for_kernel_task(0x8020_1000, STACK_A + 4096, 0x11, 0x22, 0x120));
    assert_eq!(f.sepc, 0x8020_1000);
    assert_eq!(f.sp, STACK_A + 4096);
}

#[test]
fn create_assigns_increasing_pids() {
    let mut m = TaskManager::new();
    let (p1, _) = m.create_task(STACK_A, 1, 0, 0, 0).unwrap();
    let (p2, _) = m.create_task(STACK_B, 2, 0, 0, 0).unwrap();
    assert_eq!(p1, 1);
    assert_eq!(p2, 2);
    assert_eq!(m.index_of_pid(1), Some(0));
    assert_eq!(m.index_of_pid(2), Some(1));
    assert_eq!(m.index_of_pid(3), None);
    assert_eq!(m.get(2).unwrap().kernel_stack, STACK_B);
    assert!(m.get(0).is_none());
    assert_eq!(m.current_task(), None);
}

#[test]
fn create_fails_when_table_full() {
    let mut m = TaskManager::new();
    for i in 0..MAX_TASKS {
        assert_eq!(m.create_task(STACK_A, 0, 0, 0, 0).map(|x| x.0), Some(i + 1));
    }
    assert!(m.create_task(STACK_A, 0, 0, 0, 0).is_none());
}

#[test]
fn third_task_does_not_fit_the_default_table() {
    let mut m = TaskManager::new();
    assert_eq!(m.create_task(STACK_A, 0x1000, 0, 0, 0x120).map(|x| x.0), Some(1));
    assert_eq!(m.create_task(STACK_B, 0x2000, 0, 0, 0x120).map(|x| x.0), Some(2));
    assert!(m.create_task(STACK_C, 0x3000, 0, 0, 0x120).is_none());
    assert_eq!(m.index_of_pid(1), Some(0));
    assert_eq!(m.index_of_pid(2), Some(1));
    assert_eq!(m.index_of_pid(3), None);
}

#[test]
fn scheduler_table_holds_sixteen_tasks() {
    let mut m = TaskManager::with_capacity(SCHEDULER_MAX_TASKS);
    for i in 0..SCHEDULER_MAX_TASKS {
        assert_eq!(m.create_task(STACK_A, 0, 0, 0, 0).map(|x| x.0), Some(i + 1));
    }
    assert!(m.create_task(STACK_A, 0, 0, 0, 0).is_none());
}

#[test]
fn find_pid_ignores_state() {
    let m = TaskManager::new();
    assert_eq!(m.find_pid(0), Some(0));
    assert_eq!(m.index_of_pid(0), None);
}

#[test]
fn next_runnable_wraps_around() {
    let mut m = TaskManager::new();
    m.create_task(STACK_A, 1, 0, 0, 0);
    m.create_task(STACK_B, 2, 0, 0, 0);
    assert_eq!(m.find_next_runnable_index(0), Some(1));
    assert_eq!(m.find_next_runnable_index(1), Some(0));
    assert_eq!(m.find_next_runnable_index(5), Some(0));
}

#[test]
fn next_runnable_excludes_current() {
    let mut m = TaskManager::new();
    m.create_task(STACK_A, 1, 0, 0, 0);
    assert_eq!(m.find_next_runnable_index(0), None);
}

#[test]
fn tick_without_current_keeps_frame() {
    let mut m = TaskManager::new();
    m.create_task(STACK_A, 1, 0, 0, 0);
    assert_eq!(m.timer_tick(0x1234), 0x1234);
    assert_eq!(m.task_at(0).state, TaskState::Runnable);
}

#[test]
fn tick_round_robin_between_two_tasks() {
    let mut m = TaskManager::new();
    m.create_task(STACK_A, 1, 0, 0, 0);
    m.create_task(STACK_B, 2, 0, 0, 0);
    m.start_first(1);
    assert_eq!(m.current_task(), Some(1));
    assert_eq!(m.task_at(0).state, TaskState::Running);
    let frame2 = m.task_at(1).trap_frame;
    assert_eq!(m.timer_tick(0xAAA0), frame2);
    assert_eq!(m.current_task(), Some(2));
    assert_eq!(m.task_at(0).state, TaskState::Runnable);
    assert_eq!(m.task_at(0).trap_frame, 0xAAA0);
    assert_eq!(m.task_at(1).state, TaskState::Running);
    assert_eq!(m.timer_tick(0xBBB0), 0xAAA0);
    assert_eq!(m.current_task(), Some(1));
    assert_eq!(m.task_at(1).trap_frame, 0xBBB0);
}

#[test]
fn tick_with_single_task_keeps_running() {
    let mut m = TaskManager::new();
    m.create_task(STACK_A, 1, 0, 0, 0);
    m.start_first(1);
    assert_eq!(m.timer_tick(0x5550), 0x5550);
    assert_eq!(m.current_task(), Some(1));
    assert_eq!(m.task_at(0).state, TaskState::Running);
    assert_eq!(m.task_at(0).trap_frame, 0x5550);
}

#[test]
fn tick_skips_to_nearest_runnable() {
    let mut m = TaskManager::with_capacity(SCHEDULER_MAX_TASKS);
    m.create_task(STACK_A, 1, 0, 0, 0);
    m.create_task(STACK_B, 2, 0, 0, 0);
    m.create_task(STACK_C, 3, 0, 0, 0);
    m.start_first(2);
    let f3 = m.task_at(2).trap_frame;
    assert_eq!(m.timer_tick(0x10), f3);
    assert_eq!(m.current_task(), Some(3));
    let f1 = m.task_at(0).trap_frame;
    assert_eq!(m.timer_tick(0x20), f1);
    assert_eq!(m.current_task(), Some(1));
}

#[test]
fn prepare_scheduler_builds_two_tasks() {
    let mut kmem = PhysicalMemoryAllocator::new(0x8700_0000);
    kmem.kinit(0x8700_0000, 0x8700_3000);
    let mut m = TaskManager::new();
    let s = m.prepare_scheduler(&mut kmem, 0x8020_0100, 0x8020_0200, 7, 8, 0x120);
    assert_eq!(s.pid1, 1);
    assert_eq!(s.pid2, 2);
    assert_eq!(s.stack1, 0x8700_2000);
    assert_eq!(s.stack2, 0x8700_1000);
    assert_eq!(s.first_context.ra, 0x8020_0100);
    assert_eq!(s.first_context.sp, 0x8700_3000);
    assert_eq!(s.frame2.sepc, 0x8020_0200);
    assert_eq!(s.frame2.gp, 7);
    assert_eq!(s.frame2.tp, 8);
    assert_eq!(s.frame2.sstatus, 0x120);
    assert_eq!(m.current_task(), Some(1));
    assert_eq!(m.task_at(0).state, TaskState::Running);
    assert_eq!(m.task_at(1).state, TaskState::Runnable);
    assert_eq!(kmem.kalloc(), 0x8700_0000);
    assert_eq!(kmem.kalloc(), 0);
}

#[test]
fn claim_and_finish_run() {
    let mut m = TaskManager::with_capacity(SCHEDULER_MAX_TASKS);
    m.create_task(STACK_A, 1, 0, 0, 0);
    m.create_task(STACK_B, 2, 0, 0, 0);
    assert_eq!(m.claim_runnable(), Some((0, 1)));
    assert_eq!(m.claim_runnable(), Some((1, 2)));
    assert_eq!(m.claim_runnable(), None);
    m.finish_run(0);
    assert_eq!(m.task_at(0).state, TaskState::Runnable);
    m.finish_run(5);
    assert_eq!(m.task_at(5).state, TaskState::Unused);
    assert_eq!(m.claim_runnable(), Some((0, 1)));
}

#[test]
fn cpu_yield_bookkeeping() {
    let mut c = Cpu::new();
    assert_eq!(c.current_task, None);
    assert_eq!(c.scheduler_context.ra, 0);
    c.current_task = Some(3);
    assert_eq!(c.take_current(), Some(3));
    assert_eq!(c.current_task, None);
    assert_eq!(c.take_current(), None);
}
