use os::manager::{stride_less, TaskManager, BIG_STRIDE};
use os::task::{SyscallCounter, TaskContext, TaskControlBlock, TaskStatus};

fn task(priority: usize, stride: usize, ra: usize) -> TaskControlBlock {
    TaskControlBlock {
        task_status: TaskStatus::Ready,
        task_cx: TaskContext { ra, sp: 0, s: [0; 12] },
        syscall_counter: SyscallCounter { write: 0, exit: 0, yield_: 0, get_time: 0, trace: 0 },
        priority,
        stride,
    }
}

#[test]
fn stride_less_wraps() {
    assert!(stride_less(1, 2));
    assert!(!stride_less(2, 1));
    assert!(!stride_less(5, 5));
    // a stride that wrapped past zero is still ahead of one near the top
    assert!(stride_less(usize::MAX - 10, 3));
    assert!(!stride_less(3, usize::MAX - 10));
}

#[test]
fn fetch_empty_is_none() {
    let mut m = TaskManager::new();
    assert!(m.fetch().is_none());
}

#[test]
fn fetch_takes_least_stride_and_advances_it() {
    let mut m = TaskManager::new();
    m.add(task(16, 300, 1));
    m.add(task(2, 100, 2));
    m.add(task(16, 200, 3));
    let t = m.fetch().unwrap();
    assert_eq!(t.task_cx.ra, 2);
    assert_eq!(t.stride, 100 + BIG_STRIDE / 2);
    let t = m.fetch().unwrap();
    assert_eq!(t.task_cx.ra, 3);
    assert_eq!(t.stride, 200 + BIG_STRIDE / 16);
    let t = m.fetch().unwrap();
    assert_eq!(t.task_cx.ra, 1);
    assert!(m.fetch().is_none());
}

#[test]
fn fetch_ties_go_to_the_earlier_task() {
    let mut m = TaskManager::new();
    m.add(task(4, 50, 1));
    m.add(task(4, 50, 2));
    assert_eq!(m.fetch().unwrap().task_cx.ra, 1);
    assert_eq!(m.fetch().unwrap().task_cx.ra, 2);
}

#[test]
fn fetch_pass_is_at_least_one() {
    let mut m = TaskManager::new();
    m.add(task(usize::MAX, 7, 1));
    assert_eq!(m.fetch().unwrap().stride, 8);
}

#[test]
fn fetch_stride_wraps_around() {
    let mut m = TaskManager::new();
    m.add(task(1, usize::MAX - 5, 1));
    let t = m.fetch().unwrap();
    assert_eq!(t.stride, (usize::MAX - 5).wrapping_add(BIG_STRIDE));
}

#[test]
fn fetch_prefers_wrapped_stride_order() {
    let mut m = TaskManager::new();
    m.add(task(1, 10, 1));
    m.add(task(1, usize::MAX - 10, 2));
    // usize::MAX - 10 is behind 10 in wrapped order
    assert_eq!(m.fetch().unwrap().task_cx.ra, 2);
}

#[test]
fn task_status_values() {
    let t = task(1, 0, 0);
    assert_eq!(t.task_status, TaskStatus::Ready);
    assert_ne!(TaskStatus::Running, TaskStatus::Exited);
    assert_ne!(TaskStatus::UnInit, TaskStatus::Ready);
}

#[test]
fn higher_priority_gets_smaller_pass() {
    let mut m = TaskManager::new();
    m.add(task(3, 0, 1));
    let low = m.fetch().unwrap().stride;
    m.add(task(30, 0, 2));
    let high = m.fetch().unwrap().stride;
    assert_eq!(low, BIG_STRIDE / 3);
    assert_eq!(high, BIG_STRIDE / 30);
    assert!(high <= low);
}

#[test]
fn strides_half_the_range_apart_come_before_each_other() {
    let half = usize::MAX / 2 + 1;
    assert!(stride_less(0, half));
    assert!(stride_less(half, 0));
}

#[test]
fn peek_next_is_what_fetch_takes() {
    let mut m = TaskManager::new();
    assert!(m.peek_next().is_none());
    m.add(task(0, 900, 1));
    m.add(task(8, 100, 2));
    assert_eq!(m.peek_next().unwrap().task_cx.ra, 2);
    assert_eq!(m.fetch().unwrap().task_cx.ra, 2);
    assert_eq!(m.peek_next().unwrap().task_cx.ra, 1);
}
