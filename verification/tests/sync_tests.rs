use os::banker::{semaphore_state_is_safe, semaphore_sums_fit};
use os::request::{KernelRequest, SyscallStep};
use os::sync::{
    mutex_lock_acquired, mutex_unlock_released, semaphore_down_done, semaphore_up_done,
    sys_condvar_create, sys_condvar_signal, sys_condvar_wait, sys_enable_deadlock_detect,
    sys_mutex_create, sys_mutex_lock, sys_mutex_unlock, sys_semaphore_create, sys_semaphore_down,
    sys_semaphore_down_checked, sys_semaphore_up, sys_sleep, MutexKind, ProcessControlBlockInner,
    EDEADLK,
};
use os::wait_graph::has_mutex_cycle;

fn lock_and_acquire(inner: &mut ProcessControlBlockInner, tid: usize, mutex_id: usize) {
    assert_eq!(
        sys_mutex_lock(inner, tid, mutex_id),
        SyscallStep::RunThenComplete(KernelRequest::MutexLock { mutex_id })
    );
    assert_eq!(mutex_lock_acquired(inner, tid, mutex_id), 0);
}

#[test]
fn edeadlk_value() {
    assert_eq!(EDEADLK, -0xdead);
}

#[test]
fn mutex_create_uses_lowest_free_slot() {
    let mut inner = ProcessControlBlockInner::new();
    assert_eq!(sys_mutex_create(&mut inner, false), 0);
    assert_eq!(sys_mutex_create(&mut inner, true), 1);
    assert_eq!(sys_mutex_create(&mut inner, true), 2);
    assert_eq!(inner.mutex_list, vec![Some(MutexKind::Spin), Some(MutexKind::Blocking), Some(MutexKind::Blocking)]);
    inner.mutex_list[1] = None;
    inner.mutex_owner[1] = Some(7);
    assert_eq!(sys_mutex_create(&mut inner, false), 1);
    assert_eq!(inner.mutex_list[1], Some(MutexKind::Spin));
    assert_eq!(inner.mutex_owner[1], None);
}

#[test]
fn mutex_create_grows_owner_table() {
    let mut inner = ProcessControlBlockInner::new();
    inner.mutex_list = vec![Some(MutexKind::Spin), Some(MutexKind::Spin), None];
    assert_eq!(sys_mutex_create(&mut inner, true), 2);
    assert_eq!(inner.mutex_owner, vec![None, None, None]);
}

#[test]
fn mutex_lock_unknown_is_refused() {
    let mut inner = ProcessControlBlockInner::new();
    assert_eq!(sys_mutex_lock(&mut inner, 1, 0), SyscallStep::Return(-1));
    sys_mutex_create(&mut inner, true);
    inner.mutex_list[0] = None;
    assert_eq!(sys_mutex_lock(&mut inner, 1, 0), SyscallStep::Return(-1));
    assert_eq!(sys_mutex_unlock(&inner, 0), SyscallStep::Return(-1));
    assert_eq!(sys_mutex_unlock(&inner, 5), SyscallStep::Return(-1));
}

#[test]
fn mutex_lock_unlock_round_trip() {
    let mut inner = ProcessControlBlockInner::new();
    let m = sys_mutex_create(&mut inner, true) as usize;
    lock_and_acquire(&mut inner, 3, m);
    assert_eq!(inner.mutex_owner[m], Some(3));
    assert_eq!(sys_mutex_unlock(&inner, m), SyscallStep::RunThenComplete(KernelRequest::MutexUnlock { mutex_id: m }));
    assert_eq!(mutex_unlock_released(&mut inner, 3, m), 0);
    assert_eq!(inner.mutex_owner[m], None);
    assert!(inner.thread_wait_mutex.is_empty());
}

#[test]
fn mutex_unlock_by_other_thread_keeps_owner() {
    let mut inner = ProcessControlBlockInner::new();
    let m = sys_mutex_create(&mut inner, true) as usize;
    lock_and_acquire(&mut inner, 3, m);
    assert_eq!(mutex_unlock_released(&mut inner, 4, m), 0);
    assert_eq!(inner.mutex_owner[m], Some(3));
}

#[test]
fn mutex_lock_without_detection_never_refuses() {
    let mut inner = ProcessControlBlockInner::new();
    let m = sys_mutex_create(&mut inner, true) as usize;
    lock_and_acquire(&mut inner, 1, m);
    assert_eq!(sys_mutex_lock(&mut inner, 1, m), SyscallStep::RunThenComplete(KernelRequest::MutexLock { mutex_id: m }));
    assert!(inner.thread_wait_mutex.is_empty());
}

#[test]
fn mutex_relock_is_deadlock() {
    let mut inner = ProcessControlBlockInner::new();
    assert_eq!(sys_enable_deadlock_detect(&mut inner, 1), 0);
    let m = sys_mutex_create(&mut inner, true) as usize;
    lock_and_acquire(&mut inner, 1, m);
    assert_eq!(sys_mutex_lock(&mut inner, 1, m), SyscallStep::Return(EDEADLK));
    assert!(inner.thread_wait_mutex.get(&1).is_none());
}

#[test]
fn mutex_two_thread_cycle_is_deadlock() {
    let mut inner = ProcessControlBlockInner::new();
    sys_enable_deadlock_detect(&mut inner, 1);
    let a = sys_mutex_create(&mut inner, true) as usize;
    let b = sys_mutex_create(&mut inner, true) as usize;
    lock_and_acquire(&mut inner, 1, a);
    lock_and_acquire(&mut inner, 2, b);
    // thread 1 waits for b: no cycle yet
    assert_eq!(sys_mutex_lock(&mut inner, 1, b), SyscallStep::RunThenComplete(KernelRequest::MutexLock { mutex_id: b }));
    assert_eq!(inner.thread_wait_mutex.get(&1), Some(&b));
    // thread 2 waiting for a would close the cycle
    assert_eq!(sys_mutex_lock(&mut inner, 2, a), SyscallStep::Return(EDEADLK));
    assert!(inner.thread_wait_mutex.get(&2).is_none());
    assert_eq!(inner.thread_wait_mutex.get(&1), Some(&b));
}

#[test]
fn mutex_chain_without_cycle_is_allowed() {
    let mut inner = ProcessControlBlockInner::new();
    sys_enable_deadlock_detect(&mut inner, 1);
    let a = sys_mutex_create(&mut inner, true) as usize;
    let b = sys_mutex_create(&mut inner, true) as usize;
    lock_and_acquire(&mut inner, 1, a);
    lock_and_acquire(&mut inner, 2, b);
    assert_eq!(sys_mutex_lock(&mut inner, 1, b), SyscallStep::RunThenComplete(KernelRequest::MutexLock { mutex_id: b }));
    // thread 3 waits for a: 3 -> 1 -> 2, no cycle through 3
    assert_eq!(sys_mutex_lock(&mut inner, 3, a), SyscallStep::RunThenComplete(KernelRequest::MutexLock { mutex_id: a }));
    assert_eq!(inner.thread_wait_mutex.get(&3), Some(&a));
}

#[test]
fn has_mutex_cycle_examples() {
    let mut inner = ProcessControlBlockInner::new();
    inner.mutex_list = vec![Some(MutexKind::Blocking); 3];
    inner.mutex_owner = vec![Some(1), Some(2), Some(3)];
    inner.thread_wait_mutex.insert(1, 1);
    inner.thread_wait_mutex.insert(2, 2);
    assert!(!has_mutex_cycle(&inner, 1));
    inner.thread_wait_mutex.insert(3, 0);
    assert!(has_mutex_cycle(&inner, 1));
    assert!(has_mutex_cycle(&inner, 3));
    // a cycle that does not pass through thread 4
    inner.thread_wait_mutex.insert(4, 0);
    assert!(!has_mutex_cycle(&inner, 4));
    // an owner index beyond the owner table
    inner.thread_wait_mutex.insert(5, 9);
    assert!(!has_mutex_cycle(&inner, 5));
}

#[test]
fn enable_deadlock_detect_values() {
    let mut inner = ProcessControlBlockInner::new();
    assert_eq!(sys_enable_deadlock_detect(&mut inner, 2), -1);
    assert!(!inner.deadlock_detect_enabled);
    assert_eq!(sys_enable_deadlock_detect(&mut inner, 1), 0);
    assert!(inner.deadlock_detect_enabled);
    inner.thread_wait_mutex.insert(1, 0);
    inner.thread_wait_semaphore.insert(2, 0);
    assert_eq!(sys_enable_deadlock_detect(&mut inner, 5), -1);
    assert!(inner.deadlock_detect_enabled);
    assert_eq!(inner.thread_wait_mutex.len(), 1);
    assert_eq!(sys_enable_deadlock_detect(&mut inner, 0), 0);
    assert!(!inner.deadlock_detect_enabled);
    assert!(inner.thread_wait_mutex.is_empty());
    assert!(inner.thread_wait_semaphore.is_empty());
}

#[test]
fn semaphore_create_and_reuse() {
    let mut inner = ProcessControlBlockInner::new();
    assert_eq!(sys_semaphore_create(&mut inner, 3), 0);
    assert_eq!(sys_semaphore_create(&mut inner, 1), 1);
    assert_eq!(inner.semaphore_available, vec![3, 1]);
    assert_eq!(inner.semaphore_allocation.len(), 2);
    inner.semaphore_list[0] = None;
    inner.semaphore_allocation[0].insert(9, 2);
    assert_eq!(sys_semaphore_create(&mut inner, 5), 0);
    assert_eq!(inner.semaphore_list[0], Some(5));
    assert_eq!(inner.semaphore_available[0], 5);
    assert!(inner.semaphore_allocation[0].is_empty());
}

#[test]
fn semaphore_unknown_is_refused() {
    let mut inner = ProcessControlBlockInner::new();
    assert_eq!(sys_semaphore_up(&inner, 0), SyscallStep::Return(-1));
    assert_eq!(sys_semaphore_down(&mut inner, 1, 0, 0), SyscallStep::Return(-1));
}

#[test]
fn semaphore_down_then_up_restores_allocation() {
    let mut inner = ProcessControlBlockInner::new();
    let s = sys_semaphore_create(&mut inner, 2) as usize;
    assert_eq!(sys_semaphore_down(&mut inner, 4, s, 2), SyscallStep::RunThenComplete(KernelRequest::SemaphoreDown { sem_id: s }));
    assert_eq!(semaphore_down_done(&mut inner, 4, s, 1), 0);
    assert_eq!(inner.semaphore_available[s], 1);
    assert_eq!(inner.semaphore_allocation[s].get(&4), Some(&1));
    assert_eq!(semaphore_down_done(&mut inner, 4, s, 0), 0);
    assert_eq!(inner.semaphore_allocation[s].get(&4), Some(&2));
    assert_eq!(sys_semaphore_up(&inner, s), SyscallStep::RunThenComplete(KernelRequest::SemaphoreUp { sem_id: s }));
    assert_eq!(semaphore_up_done(&mut inner, 4, s, 1), 0);
    assert_eq!(inner.semaphore_allocation[s].get(&4), Some(&1));
    assert_eq!(semaphore_up_done(&mut inner, 4, s, 2), 0);
    assert!(inner.semaphore_allocation[s].get(&4).is_none());
    assert_eq!(inner.semaphore_available[s], 2);
}

#[test]
fn semaphore_negative_count_records_zero_available() {
    let mut inner = ProcessControlBlockInner::new();
    let s = sys_semaphore_create(&mut inner, 0) as usize;
    assert_eq!(sys_semaphore_down(&mut inner, 1, s, -3), SyscallStep::RunThenComplete(KernelRequest::SemaphoreDown { sem_id: s }));
    assert_eq!(inner.semaphore_available[s], 0);
    assert!(inner.thread_wait_semaphore.is_empty());
}

#[test]
fn semaphore_down_unsafe_is_deadlock() {
    let mut inner = ProcessControlBlockInner::new();
    sys_enable_deadlock_detect(&mut inner, 1);
    let a = sys_semaphore_create(&mut inner, 1) as usize;
    let b = sys_semaphore_create(&mut inner, 1) as usize;
    // thread 1 holds a, thread 2 holds b
    sys_semaphore_down(&mut inner, 1, a, 1);
    semaphore_down_done(&mut inner, 1, a, 0);
    sys_semaphore_down(&mut inner, 2, b, 1);
    semaphore_down_done(&mut inner, 2, b, 0);
    // thread 1 waits for b: thread 2 can still finish, so this is safe
    assert_eq!(sys_semaphore_down(&mut inner, 1, b, 0), SyscallStep::RunThenComplete(KernelRequest::SemaphoreDown { sem_id: b }));
    assert_eq!(inner.thread_wait_semaphore.get(&1), Some(&b));
    // thread 2 waiting for a leaves nobody able to finish
    assert_eq!(sys_semaphore_down(&mut inner, 2, a, 0), SyscallStep::Return(EDEADLK));
    assert!(inner.thread_wait_semaphore.get(&2).is_none());
    assert_eq!(inner.thread_wait_semaphore.get(&1), Some(&b));
}

#[test]
fn semaphore_state_is_safe_examples() {
    let mut inner = ProcessControlBlockInner::new();
    assert!(semaphore_state_is_safe(&inner));
    inner.semaphore_list = vec![Some(1), Some(2)];
    inner.semaphore_available = vec![0, 1];
    inner.semaphore_allocation = vec![Default::default(), Default::default()];
    inner.semaphore_allocation[0].insert(1, 1);
    inner.semaphore_allocation[1].insert(2, 1);
    // thread 3 waits for semaphore 1, which has a free resource
    inner.thread_wait_semaphore.insert(3, 1);
    assert!(semaphore_state_is_safe(&inner));
    // thread 2 waits for semaphore 0, held by thread 1, which waits for nothing
    inner.thread_wait_semaphore.insert(2, 0);
    assert!(semaphore_state_is_safe(&inner));
    // thread 1 waits for semaphore 1: 3 finishes, but 1 and 2 wait on each other
    inner.semaphore_available[1] = 0;
    inner.thread_wait_semaphore.insert(1, 1);
    assert!(!semaphore_state_is_safe(&inner));
    // a wait on a semaphore that does not exist can never be served
    let mut other = ProcessControlBlockInner::new();
    other.thread_wait_semaphore.insert(1, 4);
    assert!(!semaphore_state_is_safe(&other));
}

#[test]
fn semaphore_release_order_matters_for_safety() {
    // thread 2 can finish only after thread 1 releases its resources
    let mut inner = ProcessControlBlockInner::new();
    inner.semaphore_list = vec![Some(2)];
    inner.semaphore_available = vec![0];
    inner.semaphore_allocation = vec![Default::default()];
    inner.semaphore_allocation[0].insert(1, 2);
    inner.thread_wait_semaphore.insert(2, 0);
    assert!(semaphore_state_is_safe(&inner));
}

#[test]
fn condvar_create_signal_wait() {
    let mut inner = ProcessControlBlockInner::new();
    assert_eq!(sys_condvar_create(&mut inner), 0);
    assert_eq!(sys_condvar_create(&mut inner), 1);
    inner.condvar_list[0] = false;
    assert_eq!(sys_condvar_create(&mut inner), 0);
    assert_eq!(inner.condvar_list, vec![true, true]);
    assert_eq!(sys_condvar_signal(&inner, 1), SyscallStep::RunThenReturn(KernelRequest::CondvarSignal { condvar_id: 1 }, 0));
    let m = sys_mutex_create(&mut inner, true) as usize;
    assert_eq!(
        sys_condvar_wait(&inner, 0, m),
        SyscallStep::RunThenReturn(KernelRequest::CondvarWait { condvar_id: 0, mutex_id: m }, 0)
    );
}

#[test]
fn sleep_expires_after_delay() {
    assert_eq!(sys_sleep(1000, 250), SyscallStep::RunThenReturn(KernelRequest::Sleep { expire_ms: 1250 }, 0));
}

#[test]
fn semaphore_holders_without_waiters_are_safe() {
    let mut inner = ProcessControlBlockInner::new();
    inner.semaphore_list = vec![Some(1), Some(1)];
    inner.semaphore_available = vec![-2, 0];
    inner.semaphore_allocation = vec![Default::default(), Default::default()];
    inner.semaphore_allocation[0].insert(1, 1);
    inner.semaphore_allocation[1].insert(2, 1);
    inner.semaphore_allocation[1].insert(3, 4);
    assert!(semaphore_state_is_safe(&inner));
}

#[test]
fn semaphore_down_without_detection_never_refuses() {
    let mut inner = ProcessControlBlockInner::new();
    let a = sys_semaphore_create(&mut inner, 1) as usize;
    let b = sys_semaphore_create(&mut inner, 1) as usize;
    sys_semaphore_down(&mut inner, 1, a, 1);
    semaphore_down_done(&mut inner, 1, a, 0);
    sys_semaphore_down(&mut inner, 2, b, 1);
    semaphore_down_done(&mut inner, 2, b, 0);
    assert_eq!(sys_semaphore_down(&mut inner, 1, b, 0), SyscallStep::RunThenComplete(KernelRequest::SemaphoreDown { sem_id: b }));
    assert_eq!(sys_semaphore_down(&mut inner, 2, a, 0), SyscallStep::RunThenComplete(KernelRequest::SemaphoreDown { sem_id: a }));
    assert!(inner.thread_wait_semaphore.is_empty());
}

fn aligned(inner: &ProcessControlBlockInner) -> bool {
    inner.mutex_owner.len() == inner.mutex_list.len()
        && inner.semaphore_available.len() == inner.semaphore_list.len()
        && inner.semaphore_allocation.len() == inner.semaphore_list.len()
}

#[test]
fn tables_stay_aligned() {
    let mut inner = ProcessControlBlockInner::new();
    assert!(aligned(&inner));
    sys_enable_deadlock_detect(&mut inner, 1);
    let m = sys_mutex_create(&mut inner, true) as usize;
    sys_mutex_create(&mut inner, false);
    assert!(aligned(&inner));
    sys_mutex_lock(&mut inner, 1, m);
    mutex_lock_acquired(&mut inner, 1, m);
    assert!(aligned(&inner));
    sys_mutex_lock(&mut inner, 1, 7);
    mutex_unlock_released(&mut inner, 1, m);
    assert!(aligned(&inner));
    let a = sys_semaphore_create(&mut inner, 1) as usize;
    let b = sys_semaphore_create(&mut inner, 0) as usize;
    assert!(aligned(&inner));
    sys_semaphore_down(&mut inner, 1, a, 1);
    semaphore_down_done(&mut inner, 1, a, 0);
    sys_semaphore_down(&mut inner, 2, b, 0);
    assert!(aligned(&inner));
    semaphore_up_done(&mut inner, 1, a, 1);
    sys_semaphore_down(&mut inner, 1, 9, 0);
    assert!(aligned(&inner));
}

#[test]
fn lock_right_after_create_goes_through() {
    let mut inner = ProcessControlBlockInner::new();
    sys_enable_deadlock_detect(&mut inner, 1);
    let m = sys_mutex_create(&mut inner, true) as usize;
    assert_eq!(sys_mutex_lock(&mut inner, 4, m), SyscallStep::RunThenComplete(KernelRequest::MutexLock { mutex_id: m }));
    assert!(inner.thread_wait_mutex.is_empty());
}

#[test]
fn more_available_keeps_safe_state_safe() {
    let mut inner = ProcessControlBlockInner::new();
    inner.semaphore_list = vec![Some(1), Some(1)];
    inner.semaphore_available = vec![0, 0];
    inner.semaphore_allocation = vec![Default::default(), Default::default()];
    inner.semaphore_allocation[0].insert(1, 1);
    inner.thread_wait_semaphore.insert(2, 0);
    assert!(semaphore_state_is_safe(&inner));
    inner.semaphore_available = vec![3, 5];
    assert!(semaphore_state_is_safe(&inner));
}

#[test]
fn sums_fit_examples() {
    let mut inner = ProcessControlBlockInner::new();
    assert!(semaphore_sums_fit(&inner));
    inner.semaphore_list = vec![Some(1)];
    inner.semaphore_available = vec![isize::MAX - 3];
    inner.semaphore_allocation = vec![Default::default()];
    inner.semaphore_allocation[0].insert(1, 3);
    assert!(semaphore_sums_fit(&inner));
    inner.semaphore_allocation[0].insert(2, 1);
    assert!(!semaphore_sums_fit(&inner));
    inner.semaphore_available = vec![-5];
    inner.semaphore_allocation[0].insert(2, usize::MAX);
    assert!(!semaphore_sums_fit(&inner));
}

#[test]
fn down_checked_refuses_overflowing_check() {
    let mut inner = ProcessControlBlockInner::new();
    sys_enable_deadlock_detect(&mut inner, 1);
    let s = sys_semaphore_create(&mut inner, 1) as usize;
    inner.semaphore_allocation[s].insert(1, usize::MAX);
    assert_eq!(sys_semaphore_down_checked(&mut inner, 2, s, 0), None);
    assert!(inner.thread_wait_semaphore.is_empty());
    assert_eq!(inner.semaphore_available[s], 0);
    // without the overflow the request goes through as sys_semaphore_down's would
    inner.semaphore_allocation[s].insert(1, 1);
    assert_eq!(
        sys_semaphore_down_checked(&mut inner, 2, s, 0),
        Some(SyscallStep::RunThenComplete(KernelRequest::SemaphoreDown { sem_id: s }))
    );
    assert_eq!(inner.thread_wait_semaphore.get(&2), Some(&s));
    // unchecked requests need no test
    assert_eq!(sys_semaphore_down_checked(&mut inner, 3, 8, 0), Some(SyscallStep::Return(-1)));
}
