use vstd::prelude::*;
use std::collections::BTreeMap;
use crate::banker::{alloc_view, banker_fits, semaphore_state_is_safe, semaphore_state_safe, semaphore_sums_fit};
use crate::request::{KernelRequest, SyscallStep};
use crate::wait_graph::{has_mutex_cycle, mutex_cycle_through};

verus! {

/// Error code returned when a request would deadlock the process.
pub const EDEADLK: isize = -0xdead;

/// The two kinds of mutex a process can create.
#[derive(Copy, Clone, Debug, PartialEq, Eq, Structural)]
pub enum MutexKind {
    /// A mutex that spins (yielding) until it is free.
    Spin,
    /// A mutex that blocks the waiting thread.
    Blocking,
}

/// The synchronisation state that a process keeps about its mutexes,
/// semaphores and condition variables, and the bookkeeping used for
/// deadlock detection.
pub struct ProcessControlBlockInner {
    /// Mutex slots: `Some(kind)` for a live mutex, `None` for a free slot.
    pub mutex_list: Vec<Option<MutexKind>>,
    /// For each mutex slot, the thread that currently holds it.
    pub mutex_owner: Vec<Option<usize>>,
    /// Semaphore slots: `Some(initial count)` for a live semaphore.
    pub semaphore_list: Vec<Option<usize>>,
    /// For each semaphore, the number of resources still available.
    pub semaphore_available: Vec<isize>,
    /// For each semaphore, how many of its resources each thread holds.
    pub semaphore_allocation: Vec<BTreeMap<usize, usize>>,
    /// Condition variable slots: `true` for a live condition variable.
    pub condvar_list: Vec<bool>,
    /// The mutex each thread is waiting for.
    pub thread_wait_mutex: BTreeMap<usize, usize>,
    /// The semaphore each thread is waiting for.
    pub thread_wait_semaphore: BTreeMap<usize, usize>,
    /// Whether lock and down requests are checked for deadlock.
    pub deadlock_detect_enabled: bool,
}

/// The mathematical value of a `ProcessControlBlockInner`.
pub struct SyncView {
    /// Mutex slots.
    pub mutex_list: Seq<Option<MutexKind>>,
    /// Mutex owners, by slot.
    pub mutex_owner: Seq<Option<usize>>,
    /// Semaphore slots.
    pub semaphore_list: Seq<Option<usize>>,
    /// Available resources, by semaphore.
    pub semaphore_available: Seq<isize>,
    /// Resources held by each thread, by semaphore.
    pub semaphore_allocation: Seq<Map<usize, usize>>,
    /// Condition variable slots.
    pub condvar_list: Seq<bool>,
    /// The mutex each thread waits for.
    pub thread_wait_mutex: Map<usize, usize>,
    /// The semaphore each thread waits for.
    pub thread_wait_semaphore: Map<usize, usize>,
    /// Whether deadlock detection is on.
    pub deadlock_detect_enabled: bool,
}

impl View for ProcessControlBlockInner {
    type V = SyncView;

    open spec fn view(&self) -> SyncView {
        SyncView {
            mutex_list: self.mutex_list@,
            mutex_owner: self.mutex_owner@,
            semaphore_list: self.semaphore_list@,
            semaphore_available: self.semaphore_available@,
            semaphore_allocation: alloc_view(self.semaphore_allocation@),
            condvar_list: self.condvar_list@,
            thread_wait_mutex: self.thread_wait_mutex@,
            thread_wait_semaphore: self.thread_wait_semaphore@,
            deadlock_detect_enabled: self.deadlock_detect_enabled,
        }
    }
}

impl SyncView {
    /// Every semaphore with an availability count also has an allocation map.
    pub open spec fn wf(self) -> bool {
        self.semaphore_available.len() <= self.semaphore_allocation.len()
    }

    /// Every mutex slot has an owner entry, and every semaphore slot an
    /// availability count and an allocation map, with no entry to spare.
    pub open spec fn tables_aligned(self) -> bool {
        &&& self.mutex_owner.len() == self.mutex_list.len()
        &&& self.semaphore_available.len() == self.semaphore_list.len()
        &&& self.semaphore_allocation.len() == self.semaphore_list.len()
    }

    /// `mutex_id` names a live mutex.
    pub open spec fn mutex_valid(self, mutex_id: usize) -> bool {
        mutex_id < self.mutex_list.len() && self.mutex_list[mutex_id as int] is Some
    }

    /// `sem_id` names a live semaphore.
    pub open spec fn semaphore_valid(self, sem_id: usize) -> bool {
        sem_id < self.semaphore_list.len() && self.semaphore_list[sem_id as int] is Some
    }

    /// `condvar_id` names a live condition variable.
    pub open spec fn condvar_valid(self, condvar_id: usize) -> bool {
        condvar_id < self.condvar_list.len() && self.condvar_list[condvar_id as int]
    }
}

impl ProcessControlBlockInner {
    /// A process with no mutex, semaphore or condition variable, and with
    /// deadlock detection off.
    pub fn new() -> (r: Self)
        ensures
            r@.mutex_list.len() == 0,
            r@.mutex_owner.len() == 0,
            r@.semaphore_list.len() == 0,
            r@.semaphore_available.len() == 0,
            r@.semaphore_allocation.len() == 0,
            r@.condvar_list.len() == 0,
            r@.thread_wait_mutex == Map::<usize, usize>::empty(),
            r@.thread_wait_semaphore == Map::<usize, usize>::empty(),
            !r@.deadlock_detect_enabled,
            r@.wf(),
            r@.tables_aligned(),
    {
        ProcessControlBlockInner {
            mutex_list: Vec::new(),
            mutex_owner: Vec::new(),
            semaphore_list: Vec::new(),
            semaphore_available: Vec::new(),
            semaphore_allocation: Vec::new(),
            condvar_list: Vec::new(),
            thread_wait_mutex: BTreeMap::new(),
            thread_wait_semaphore: BTreeMap::new(),
            deadlock_detect_enabled: false,
        }
    }
}

/// `s` lengthened with `fill` to at least `len` entries.
pub open spec fn grown<A>(s: Seq<A>, len: int, fill: A) -> Seq<A> {
    if len <= s.len() {
        s
    } else {
        s + Seq::new((len - s.len()) as nat, |_i: int| fill)
    }
}

/// Slot `i` is the lowest free slot of `s`.
pub open spec fn is_first_free<A>(s: Seq<Option<A>>, i: int) -> bool {
    &&& 0 <= i < s.len()
    &&& s[i] is None
    &&& forall|j: int| 0 <= j < i ==> s[j] is Some
}

/// `s` has a free slot.
pub open spec fn has_free<A>(s: Seq<Option<A>>) -> bool {
    exists|i: int| 0 <= i < s.len() && s[i] is None
}

/// Slot `i` is the lowest `false` entry of `s`.
pub open spec fn is_first_unset(s: Seq<bool>, i: int) -> bool {
    &&& 0 <= i < s.len()
    &&& !s[i]
    &&& forall|j: int| 0 <= j < i ==> s[j]
}

/// `s` has a `false` entry.
pub open spec fn has_unset(s: Seq<bool>) -> bool {
    exists|i: int| 0 <= i < s.len() && !s[i]
}

/// The lowest free slot of `list`, if any.
fn first_free_slot<T>(list: &Vec<Option<T>>) -> (r: Option<usize>)
    ensures
        match r {
            Some(i) => is_first_free(list@, i as int),
            None => !has_free(list@),
        },
{
    let mut i: usize = 0;
    while i < list.len()
        invariant
            i <= list.len(),
            forall|j: int| 0 <= j < i ==> list@[j] is Some,
        decreases list.len() - i,
    {
        if list[i].is_none() {
            return Some(i);
        }
        i = i + 1;
    }
    None
}

/// Lengthens `v` with `fill` to at least `len` entries.
fn grow_to<T: Copy>(v: &mut Vec<T>, len: usize, fill: T)
    ensures
        final(v)@ == grown(old(v)@, len as int, fill),
{
    if v.len() >= len {
        return;
    }
    let ghost start = v@;
    while v.len() < len
        invariant
            start.len() <= v.len() <= len,
            v@ == start + Seq::new((v.len() - start.len()) as nat, |_i: int| fill),
        decreases len - v.len(),
    {
        v.push(fill);
        proof {
            assert(v@ =~= start + Seq::new((v.len() - start.len()) as nat, |_i: int| fill));
        }
    }
}

/// Lengthens `v` with empty maps to at least `len` entries.
fn grow_allocation(v: &mut Vec<BTreeMap<usize, usize>>, len: usize)
    ensures
        final(v).len() >= len,
        final(v).len() >= old(v).len(),
        alloc_view(final(v)@) == grown(alloc_view(old(v)@), len as int, Map::<usize, usize>::empty()),
{
    let ghost start = alloc_view(v@);
    if v.len() >= len {
        return;
    }
    while v.len() < len
        invariant
            start.len() == old(v).len(),
            start.len() <= v.len() <= len,
            alloc_view(v@) == start + Seq::new((v.len() - start.len()) as nat, |_i: int| Map::<usize, usize>::empty()),
        decreases len - v.len(),
    {
        let ghost prev = alloc_view(v@);
        let m: BTreeMap<usize, usize> = BTreeMap::new();
        v.push(m);
        proof {
            assert(alloc_view(v@) =~= prev.push(Map::<usize, usize>::empty()));
            assert(alloc_view(v@) =~= start + Seq::new((v.len() - start.len()) as nat, |_i: int| Map::<usize, usize>::empty()));
        }
    }
}

/// The kind of mutex that `sys_mutex_create(blocking)` creates.
pub open spec fn mutex_kind(blocking: bool) -> MutexKind {
    if blocking {
        MutexKind::Blocking
    } else {
        MutexKind::Spin
    }
}

/// Creates a mutex in the lowest free slot, or in a new slot at the end,
/// and returns its id.
pub fn sys_mutex_create(inner: &mut ProcessControlBlockInner, blocking: bool) -> (r: isize)
    requires
        old(inner).mutex_list.len() < isize::MAX,
    ensures
        old(inner)@.tables_aligned() ==> final(inner)@.tables_aligned(),
        ({
            let s = old(inner)@;
            let kind = mutex_kind(blocking);
            if has_free(s.mutex_list) {
                &&& is_first_free(s.mutex_list, r as int)
                &&& final(inner)@ == SyncView {
                    mutex_list: s.mutex_list.update(r as int, Some(kind)),
                    mutex_owner: grown(s.mutex_owner, r + 1, None).update(r as int, None),
                    ..s
                }
            } else {
                &&& r == s.mutex_list.len()
                &&& final(inner)@ == SyncView {
                    mutex_list: s.mutex_list.push(Some(kind)),
                    mutex_owner: s.mutex_owner.push(None),
                    ..s
                }
            }
        }),
        r >= 0,
        final(inner)@.mutex_valid(r as usize),
        old(inner)@.tables_aligned() ==> final(inner)@.mutex_owner[r as int] is None,
{
    let kind = if blocking { MutexKind::Blocking } else { MutexKind::Spin };
    match first_free_slot(&inner.mutex_list) {
        Some(id) => {
            inner.mutex_list.set(id, Some(kind));
            if id >= inner.mutex_owner.len() {
                grow_to(&mut inner.mutex_owner, id + 1, None);
            }
            inner.mutex_owner.set(id, None);
            proof {
                assert(inner.mutex_owner@ == grown(old(inner)@.mutex_owner, id + 1, None).update(id as int, None));
            }
            id as isize
        },
        None => {
            inner.mutex_list.push(Some(kind));
            inner.mutex_owner.push(None);
            (inner.mutex_list.len() - 1) as isize
        },
    }
}


/// The owners of the mutexes once `sys_mutex_lock` has made room for `mutex_id`.
pub open spec fn owners_for(s: SyncView, mutex_id: usize) -> Seq<Option<usize>> {
    grown(s.mutex_owner, mutex_id + 1, None)
}

/// The lock request of `tid` on `mutex_id` is checked for deadlock: detection
/// is on and another thread holds the mutex.
pub open spec fn lock_checked(s: SyncView, mutex_id: usize) -> bool {
    s.deadlock_detect_enabled && owners_for(s, mutex_id)[mutex_id as int] is Some
}

/// Waiting for `mutex_id` would close a cycle of threads that wait for each
/// other through `tid`.
pub open spec fn lock_deadlocks(s: SyncView, tid: usize, mutex_id: usize) -> bool {
    &&& lock_checked(s, mutex_id)
    &&& mutex_cycle_through(s.thread_wait_mutex.insert(tid, mutex_id), owners_for(s, mutex_id), tid)
}

/// What the lock syscall hands back.
pub open spec fn lock_step(s: SyncView, tid: usize, mutex_id: usize) -> SyscallStep {
    if !s.mutex_valid(mutex_id) {
        SyscallStep::Return(-1isize)
    } else if lock_deadlocks(s, tid, mutex_id) {
        SyscallStep::Return(EDEADLK)
    } else {
        SyscallStep::RunThenComplete(KernelRequest::MutexLock { mutex_id })
    }
}

/// The state the lock syscall leaves.
pub open spec fn lock_state(s: SyncView, tid: usize, mutex_id: usize) -> SyncView {
    if !s.mutex_valid(mutex_id) {
        s
    } else if lock_deadlocks(s, tid, mutex_id) {
        SyncView { mutex_owner: owners_for(s, mutex_id), thread_wait_mutex: s.thread_wait_mutex.remove(tid), ..s }
    } else if lock_checked(s, mutex_id) {
        SyncView {
            mutex_owner: owners_for(s, mutex_id),
            thread_wait_mutex: s.thread_wait_mutex.insert(tid, mutex_id),
            ..s
        }
    } else {
        SyncView { mutex_owner: owners_for(s, mutex_id), ..s }
    }
}

/// First half of the lock syscall: refuses an unknown mutex with -1 and,
/// when deadlock detection is on, a lock that would deadlock with `EDEADLK`;
/// otherwise records that `tid` waits for the mutex and asks the kernel to lock it.
pub fn sys_mutex_lock(inner: &mut ProcessControlBlockInner, tid: usize, mutex_id: usize) -> (r: SyscallStep)
    ensures
        old(inner)@.tables_aligned() ==> final(inner)@.tables_aligned(),
        r == lock_step(old(inner)@, tid, mutex_id),
        final(inner)@ == lock_state(old(inner)@, tid, mutex_id),
{
    if mutex_id >= inner.mutex_list.len() || inner.mutex_list[mutex_id].is_none() {
        return SyscallStep::Return(-1);
    }
    if mutex_id >= inner.mutex_owner.len() {
        grow_to(&mut inner.mutex_owner, mutex_id + 1, None);
    }
    if inner.deadlock_detect_enabled && inner.mutex_owner[mutex_id].is_some() {
        inner.thread_wait_mutex.insert(tid, mutex_id);
        if has_mutex_cycle(inner, tid) {
            inner.thread_wait_mutex.remove(&tid);
            proof {
                assert(inner.thread_wait_mutex@ =~= old(inner)@.thread_wait_mutex.remove(tid));
            }
            return SyscallStep::Return(EDEADLK);
        }
    }
    SyscallStep::RunThenComplete(KernelRequest::MutexLock { mutex_id })
}

/// The state once `tid` has acquired `mutex_id`: it owns the mutex and waits
/// for nothing.
pub open spec fn lock_acquired(s: SyncView, tid: usize, mutex_id: usize) -> SyncView {
    SyncView {
        mutex_owner: if mutex_id < s.mutex_owner.len() {
            s.mutex_owner.update(mutex_id as int, Some(tid))
        } else {
            s.mutex_owner
        },
        thread_wait_mutex: s.thread_wait_mutex.remove(tid),
        ..s
    }
}

/// The state once `tid` has released `mutex_id`: if it owned the mutex, nobody does.
pub open spec fn unlock_released(s: SyncView, tid: usize, mutex_id: usize) -> SyncView {
    SyncView {
        mutex_owner: if mutex_id < s.mutex_owner.len() && s.mutex_owner[mutex_id as int] == Some(tid) {
            s.mutex_owner.update(mutex_id as int, None)
        } else {
            s.mutex_owner
        },
        ..s
    }
}

/// Second half of the lock syscall, once the kernel has locked the mutex:
/// `tid` owns it and waits for nothing. Returns 0.
pub fn mutex_lock_acquired(inner: &mut ProcessControlBlockInner, tid: usize, mutex_id: usize) -> (r: isize)
    ensures
        old(inner)@.tables_aligned() ==> final(inner)@.tables_aligned(),
        r == 0,
        final(inner)@ == lock_acquired(old(inner)@, tid, mutex_id),
{
    if mutex_id < inner.mutex_owner.len() {
        inner.mutex_owner.set(mutex_id, Some(tid));
    }
    inner.thread_wait_mutex.remove(&tid);
    0
}

/// First half of the unlock syscall: refuses an unknown mutex with -1,
/// otherwise asks the kernel to unlock it.
pub fn sys_mutex_unlock(inner: &ProcessControlBlockInner, mutex_id: usize) -> (r: SyscallStep)
    ensures
        r == if inner@.mutex_valid(mutex_id) {
            SyscallStep::RunThenComplete(KernelRequest::MutexUnlock { mutex_id })
        } else {
            SyscallStep::Return(-1isize)
        },
{
    if mutex_id >= inner.mutex_list.len() || inner.mutex_list[mutex_id].is_none() {
        return SyscallStep::Return(-1);
    }
    SyscallStep::RunThenComplete(KernelRequest::MutexUnlock { mutex_id })
}

/// Second half of the unlock syscall, once the kernel has unlocked the mutex:
/// if `tid` owned it, it no longer does. Returns 0.
pub fn mutex_unlock_released(inner: &mut ProcessControlBlockInner, tid: usize, mutex_id: usize) -> (r: isize)
    ensures
        old(inner)@.tables_aligned() ==> final(inner)@.tables_aligned(),
        r == 0,
        final(inner)@ == unlock_released(old(inner)@, tid, mutex_id),
{
    if mutex_id < inner.mutex_owner.len() && inner.mutex_owner[mutex_id] == Some(tid) {
        inner.mutex_owner.set(mutex_id, None);
    }
    0
}


/// Creates a semaphore with `res_count` resources in the lowest free slot, or
/// in a new slot at the end, and returns its id.
pub fn sys_semaphore_create(inner: &mut ProcessControlBlockInner, res_count: usize) -> (r: isize)
    requires
        old(inner).semaphore_list.len() < isize::MAX,
    ensures
        old(inner)@.tables_aligned() ==> final(inner)@.tables_aligned(),
        ({
            let s = old(inner)@;
            if has_free(s.semaphore_list) {
                &&& is_first_free(s.semaphore_list, r as int)
                &&& final(inner)@ == SyncView {
                    semaphore_list: s.semaphore_list.update(r as int, Some(res_count)),
                    semaphore_available: grown(s.semaphore_available, r + 1, 0).update(r as int, res_count as isize),
                    semaphore_allocation: grown(s.semaphore_allocation, r + 1, Map::empty()).update(r as int, Map::empty()),
                    ..s
                }
            } else {
                &&& r == s.semaphore_list.len()
                &&& final(inner)@ == SyncView {
                    semaphore_list: s.semaphore_list.push(Some(res_count)),
                    semaphore_available: s.semaphore_available.push(res_count as isize),
                    semaphore_allocation: s.semaphore_allocation.push(Map::empty()),
                    ..s
                }
            }
        }),
        r >= 0,
        final(inner)@.semaphore_valid(r as usize),
        old(inner)@.wf() ==> final(inner)@.wf(),
{
    match first_free_slot(&inner.semaphore_list) {
        Some(id) => {
            inner.semaphore_list.set(id, Some(res_count));
            if id >= inner.semaphore_available.len() {
                grow_to(&mut inner.semaphore_available, id + 1, 0);
            }
            inner.semaphore_available.set(id, res_count as isize);
            if id >= inner.semaphore_allocation.len() {
                grow_allocation(&mut inner.semaphore_allocation, id + 1);
            }
            let ghost before = alloc_view(inner.semaphore_allocation@);
            let empty: BTreeMap<usize, usize> = BTreeMap::new();
            inner.semaphore_allocation.set(id, empty);
            proof {
                assert(alloc_view(inner.semaphore_allocation@) =~= before.update(id as int, Map::empty()));
                assert(inner.semaphore_available@ == grown(old(inner)@.semaphore_available, id + 1, 0).update(id as int, res_count as isize));
            }
            id as isize
        },
        None => {
            inner.semaphore_list.push(Some(res_count));
            inner.semaphore_available.push(res_count as isize);
            let ghost before = alloc_view(inner.semaphore_allocation@);
            let empty: BTreeMap<usize, usize> = BTreeMap::new();
            inner.semaphore_allocation.push(empty);
            proof {
                assert(alloc_view(inner.semaphore_allocation@) =~= before.push(Map::empty()));
            }
            (inner.semaphore_list.len() - 1) as isize
        },
    }
}

/// First half of the up syscall: refuses an unknown semaphore with -1,
/// otherwise asks the kernel to release one resource.
pub fn sys_semaphore_up(inner: &ProcessControlBlockInner, sem_id: usize) -> (r: SyscallStep)
    ensures
        r == if inner@.semaphore_valid(sem_id) {
            SyscallStep::RunThenComplete(KernelRequest::SemaphoreUp { sem_id })
        } else {
            SyscallStep::Return(-1isize)
        },
{
    if sem_id >= inner.semaphore_list.len() || inner.semaphore_list[sem_id].is_none() {
        return SyscallStep::Return(-1);
    }
    SyscallStep::RunThenComplete(KernelRequest::SemaphoreUp { sem_id })
}

/// The resources still available when the semaphore's count is `count`.
pub open spec fn available_of(count: isize) -> isize {
    if count > 0 {
        count
    } else {
        0
    }
}

/// `m` after `tid` gave back one of its resources: the entry is gone once it
/// would hold none.
pub open spec fn release_one(m: Map<usize, usize>, tid: usize) -> Map<usize, usize> {
    if m.contains_key(tid) {
        if m[tid] <= 1 {
            m.remove(tid)
        } else {
            m.insert(tid, (m[tid] - 1) as usize)
        }
    } else {
        m
    }
}

/// `m` after `tid` took one more resource.
pub open spec fn acquire_one(m: Map<usize, usize>, tid: usize) -> Map<usize, usize> {
    if m.contains_key(tid) {
        m.insert(tid, (m[tid] + 1) as usize)
    } else {
        m.insert(tid, 1)
    }
}

/// The number of resources of a semaphore as the process records it.
fn record_available(inner: &mut ProcessControlBlockInner, sem_id: usize, sem_count: isize)
    requires
        sem_id < usize::MAX,
    ensures
        ({
            let s = old(inner)@;
            final(inner)@ == SyncView {
                semaphore_available: grown(s.semaphore_available, sem_id + 1, 0).update(sem_id as int, available_of(sem_count)),
                semaphore_allocation: grown(s.semaphore_allocation, sem_id + 1, Map::empty()),
                ..s
            }
        }),
        final(inner).semaphore_available.len() > sem_id,
        final(inner).semaphore_allocation.len() > sem_id,
{
    if sem_id >= inner.semaphore_available.len() {
        grow_to(&mut inner.semaphore_available, sem_id + 1, 0);
    }
    let avail = if sem_count > 0 { sem_count } else { 0 };
    inner.semaphore_available.set(sem_id, avail);
    if sem_id >= inner.semaphore_allocation.len() {
        grow_allocation(&mut inner.semaphore_allocation, sem_id + 1);
    }
}

/// The state once the up syscall has finished: the available resources
/// recorded and `tid` holding one fewer.
pub open spec fn up_done_state(s: SyncView, tid: usize, sem_id: usize, sem_count: isize) -> SyncView {
    let alloc = grown(s.semaphore_allocation, sem_id + 1, Map::empty());
    SyncView {
        semaphore_available: grown(s.semaphore_available, sem_id + 1, 0).update(sem_id as int, available_of(sem_count)),
        semaphore_allocation: alloc.update(sem_id as int, release_one(alloc[sem_id as int], tid)),
        ..s
    }
}

/// Second half of the up syscall, given the semaphore's count after the
/// release: records the available resources and that `tid` holds one fewer.
/// Returns 0.
pub fn semaphore_up_done(inner: &mut ProcessControlBlockInner, tid: usize, sem_id: usize, sem_count: isize) -> (r: isize)
    requires
        old(inner)@.semaphore_valid(sem_id),
    ensures
        old(inner)@.tables_aligned() ==> final(inner)@.tables_aligned(),
        r == 0,
        final(inner)@ == up_done_state(old(inner)@, tid, sem_id, sem_count),
        old(inner)@.wf() ==> final(inner)@.wf(),
{
    let n = inner.semaphore_list.len();
    assert(sem_id < n);
    record_available(inner, sem_id, sem_count);
    let ghost before = alloc_view(inner.semaphore_allocation@);
    let held = match inner.semaphore_allocation[sem_id].get(&tid) {
        Some(c) => Some(*c),
        None => None,
    };
    match held {
        Some(c) => {
            let c = if c > 0 { c - 1 } else { c };
            if c == 0 {
                inner.semaphore_allocation[sem_id].remove(&tid);
            } else {
                inner.semaphore_allocation[sem_id].insert(tid, c);
            }
        },
        None => {},
    }
    proof {
        assert(alloc_view(inner.semaphore_allocation@) =~= before.update(sem_id as int, release_one(before[sem_id as int], tid)));
    }
    0
}


/// The state once a down request on `sem_id` has recorded the semaphore's
/// current count `sem_count`.
pub open spec fn with_count(s: SyncView, sem_id: usize, sem_count: isize) -> SyncView {
    SyncView {
        semaphore_available: grown(s.semaphore_available, sem_id + 1, 0).update(sem_id as int, available_of(sem_count)),
        semaphore_allocation: grown(s.semaphore_allocation, sem_id + 1, Map::empty()),
        ..s
    }
}

/// The down request of `tid` is checked for deadlock: detection is on and
/// the semaphore has no free resource.
pub open spec fn down_checked(s: SyncView, sem_count: isize) -> bool {
    s.deadlock_detect_enabled && sem_count <= 0
}

/// Letting `tid` wait for `sem_id` would leave the process in a state from
/// which not every thread can finish.
pub open spec fn down_deadlocks(s: SyncView, tid: usize, sem_id: usize, sem_count: isize) -> bool {
    let c = with_count(s, sem_id, sem_count);
    &&& down_checked(s, sem_count)
    &&& !semaphore_state_safe(c.semaphore_available, c.semaphore_allocation, s.thread_wait_semaphore.insert(tid, sem_id))
}

/// When the down request is checked for deadlock, the safety check can run:
/// every semaphore with an availability count has an allocation map, and the
/// check's sums stay within `isize`.
pub open spec fn down_check_runs(s: SyncView, tid: usize, sem_id: usize, sem_count: isize) -> bool {
    s.semaphore_valid(sem_id) && down_checked(s, sem_count) ==> s.wf() && ({
        let c = with_count(s, sem_id, sem_count);
        banker_fits(c.semaphore_available, c.semaphore_allocation, s.thread_wait_semaphore.insert(tid, sem_id))
    })
}

/// What the down syscall hands back.
pub open spec fn down_step(s: SyncView, tid: usize, sem_id: usize, sem_count: isize) -> SyscallStep {
    if !s.semaphore_valid(sem_id) {
        SyscallStep::Return(-1isize)
    } else if down_deadlocks(s, tid, sem_id, sem_count) {
        SyscallStep::Return(EDEADLK)
    } else {
        SyscallStep::RunThenComplete(KernelRequest::SemaphoreDown { sem_id })
    }
}

/// The state the down syscall leaves.
pub open spec fn down_state(s: SyncView, tid: usize, sem_id: usize, sem_count: isize) -> SyncView {
    let c = with_count(s, sem_id, sem_count);
    if !s.semaphore_valid(sem_id) {
        s
    } else if down_deadlocks(s, tid, sem_id, sem_count) {
        SyncView { thread_wait_semaphore: s.thread_wait_semaphore.remove(tid), ..c }
    } else if down_checked(s, sem_count) {
        SyncView { thread_wait_semaphore: s.thread_wait_semaphore.insert(tid, sem_id), ..c }
    } else {
        c
    }
}

/// First half of the down syscall, given the semaphore's current count:
/// refuses an unknown semaphore with -1; records the available resources;
/// when deadlock detection is on and no resource is free, refuses with
/// `EDEADLK` a wait that would leave the process unsafe; otherwise asks the
/// kernel to acquire a resource.
pub fn sys_semaphore_down(inner: &mut ProcessControlBlockInner, tid: usize, sem_id: usize, sem_count: isize) -> (r: SyscallStep)
    requires
        down_check_runs(old(inner)@, tid, sem_id, sem_count),
    ensures
        old(inner)@.tables_aligned() ==> final(inner)@.tables_aligned(),
        old(inner)@.wf() ==> final(inner)@.wf(),
        r == down_step(old(inner)@, tid, sem_id, sem_count),
        final(inner)@ == down_state(old(inner)@, tid, sem_id, sem_count),
{
    if sem_id >= inner.semaphore_list.len() || inner.semaphore_list[sem_id].is_none() {
        return SyscallStep::Return(-1);
    }
    record_available(inner, sem_id, sem_count);
    if inner.deadlock_detect_enabled && sem_count <= 0 {
        inner.thread_wait_semaphore.insert(tid, sem_id);
        if !semaphore_state_is_safe(inner) {
            inner.thread_wait_semaphore.remove(&tid);
            proof {
                assert(inner.thread_wait_semaphore@ =~= old(inner)@.thread_wait_semaphore.remove(tid));
            }
            return SyscallStep::Return(EDEADLK);
        }
    }
    SyscallStep::RunThenComplete(KernelRequest::SemaphoreDown { sem_id })
}

/// The down syscall for callers that cannot know whether the deadlock check
/// can run: it tests that first. `None` when the request is checked for
/// deadlock but the check cannot run (an availability count without
/// allocation map, or sums beyond `isize`); the state then has at most the
/// semaphore's count recorded. Otherwise what `sys_semaphore_down` gives.
pub fn sys_semaphore_down_checked(
    inner: &mut ProcessControlBlockInner,
    tid: usize,
    sem_id: usize,
    sem_count: isize,
) -> (r: Option<SyscallStep>)
    ensures
        r is None <==> !down_check_runs(old(inner)@, tid, sem_id, sem_count),
        r is None ==> final(inner)@ == if old(inner)@.wf() {
            with_count(old(inner)@, sem_id, sem_count)
        } else {
            old(inner)@
        },
        r matches Some(step) ==> {
            &&& step == down_step(old(inner)@, tid, sem_id, sem_count)
            &&& final(inner)@ == down_state(old(inner)@, tid, sem_id, sem_count)
        },
{
    let valid = sem_id < inner.semaphore_list.len() && inner.semaphore_list[sem_id].is_some();
    if !valid || !(inner.deadlock_detect_enabled && sem_count <= 0) {
        return Some(sys_semaphore_down(inner, tid, sem_id, sem_count));
    }
    if inner.semaphore_available.len() > inner.semaphore_allocation.len() {
        return None;
    }
    let ghost s = inner@;
    record_available(inner, sem_id, sem_count);
    let ghost c = inner@;
    let prev = match inner.thread_wait_semaphore.get(&tid) {
        Some(p) => Some(*p),
        None => None,
    };
    inner.thread_wait_semaphore.insert(tid, sem_id);
    let fits = semaphore_sums_fit(inner);
    match prev {
        Some(p) => {
            inner.thread_wait_semaphore.insert(tid, p);
        },
        None => {
            inner.thread_wait_semaphore.remove(&tid);
        },
    }
    proof {
        assert(inner.thread_wait_semaphore@ =~= s.thread_wait_semaphore);
        assert(inner@ == c);
        assert(with_count(c, sem_id, sem_count).semaphore_available =~= c.semaphore_available);
        assert(with_count(c, sem_id, sem_count).semaphore_allocation =~= c.semaphore_allocation);
        assert(with_count(c, sem_id, sem_count) == c);
    }
    if !fits {
        return None;
    }
    Some(sys_semaphore_down(inner, tid, sem_id, sem_count))
}

/// Second half of the down syscall, once the kernel has acquired a resource
/// and given the semaphore's count afterwards: `tid` waits for nothing, the
/// available resources are recorded and `tid` holds one more. Returns 0.
pub fn semaphore_down_done(inner: &mut ProcessControlBlockInner, tid: usize, sem_id: usize, sem_count: isize) -> (r: isize)
    requires
        old(inner)@.semaphore_valid(sem_id),
        ({
            let alloc = grown(old(inner)@.semaphore_allocation, sem_id + 1, Map::empty());
            alloc[sem_id as int].contains_key(tid) ==> alloc[sem_id as int][tid] < usize::MAX
        }),
    ensures
        old(inner)@.tables_aligned() ==> final(inner)@.tables_aligned(),
        r == 0,
        ({
            let s = old(inner)@;
            let c = with_count(s, sem_id, sem_count);
            final(inner)@ == SyncView {
                thread_wait_semaphore: s.thread_wait_semaphore.remove(tid),
                semaphore_allocation: c.semaphore_allocation.update(
                    sem_id as int,
                    acquire_one(c.semaphore_allocation[sem_id as int], tid),
                ),
                ..c
            }
        }),
        old(inner)@.wf() ==> final(inner)@.wf(),
{
    inner.thread_wait_semaphore.remove(&tid);
    let n = inner.semaphore_list.len();
    assert(sem_id < n);
    record_available(inner, sem_id, sem_count);
    let ghost before = alloc_view(inner.semaphore_allocation@);
    let held = match inner.semaphore_allocation[sem_id].get(&tid) {
        Some(c) => *c,
        None => 0,
    };
    inner.semaphore_allocation[sem_id].insert(tid, held + 1);
    proof {
        assert(alloc_view(inner.semaphore_allocation@) =~= before.update(sem_id as int, acquire_one(before[sem_id as int], tid)));
    }
    0
}

/// Creates a condition variable in the lowest free slot, or in a new slot at
/// the end, and returns its id.
pub fn sys_condvar_create(inner: &mut ProcessControlBlockInner) -> (r: isize)
    requires
        old(inner).condvar_list.len() < isize::MAX,
    ensures
        old(inner)@.tables_aligned() ==> final(inner)@.tables_aligned(),
        ({
            let s = old(inner)@;
            if has_unset(s.condvar_list) {
                &&& is_first_unset(s.condvar_list, r as int)
                &&& final(inner)@ == SyncView { condvar_list: s.condvar_list.update(r as int, true), ..s }
            } else {
                &&& r == s.condvar_list.len()
                &&& final(inner)@ == SyncView { condvar_list: s.condvar_list.push(true), ..s }
            }
        }),
        r >= 0,
        final(inner)@.condvar_valid(r as usize),
{
    let mut i: usize = 0;
    while i < inner.condvar_list.len()
        invariant
            i <= inner.condvar_list.len(),
            inner.condvar_list.len() < isize::MAX,
            inner@ == old(inner)@,
            forall|j: int| 0 <= j < i ==> inner.condvar_list@[j],
        decreases inner.condvar_list.len() - i,
    {
        if !inner.condvar_list[i] {
            proof {
                assert(has_unset(old(inner)@.condvar_list) && !old(inner)@.condvar_list[i as int]);
            }
            inner.condvar_list.set(i, true);
            proof {
                assert(inner@ == SyncView { condvar_list: old(inner)@.condvar_list.update(i as int, true), ..old(inner)@ });
            }
            return i as isize;
        }
        i = i + 1;
    }
    inner.condvar_list.push(true);
    (inner.condvar_list.len() - 1) as isize
}

/// The signal syscall: asks the kernel to wake a thread waiting on the
/// condition variable, then returns 0.
pub fn sys_condvar_signal(inner: &ProcessControlBlockInner, condvar_id: usize) -> (r: SyscallStep)
    requires
        inner@.condvar_valid(condvar_id),
    ensures
        r == SyscallStep::RunThenReturn(KernelRequest::CondvarSignal { condvar_id }, 0),
{
    SyscallStep::RunThenReturn(KernelRequest::CondvarSignal { condvar_id }, 0)
}

/// The wait syscall: asks the kernel to make the current thread wait on the
/// condition variable, releasing the mutex meanwhile, then returns 0.
pub fn sys_condvar_wait(inner: &ProcessControlBlockInner, condvar_id: usize, mutex_id: usize) -> (r: SyscallStep)
    requires
        inner@.condvar_valid(condvar_id),
        inner@.mutex_valid(mutex_id),
    ensures
        r == SyscallStep::RunThenReturn(KernelRequest::CondvarWait { condvar_id, mutex_id }, 0),
{
    SyscallStep::RunThenReturn(KernelRequest::CondvarWait { condvar_id, mutex_id }, 0)
}

/// Turns deadlock detection on (`1`) or off (`0`); turning it off forgets
/// which threads wait for what. Any other value is refused with -1.
pub fn sys_enable_deadlock_detect(inner: &mut ProcessControlBlockInner, enabled: usize) -> (r: isize)
    ensures
        old(inner)@.tables_aligned() ==> final(inner)@.tables_aligned(),
        ({
            let s = old(inner)@;
            if enabled > 1 {
                r == -1 && final(inner)@ == s
            } else if enabled == 1 {
                r == 0 && final(inner)@ == SyncView { deadlock_detect_enabled: true, ..s }
            } else {
                &&& r == 0
                &&& final(inner)@ == SyncView {
                    deadlock_detect_enabled: false,
                    thread_wait_mutex: Map::empty(),
                    thread_wait_semaphore: Map::empty(),
                    ..s
                }
            }
        }),
{
    if enabled > 1 {
        return -1;
    }
    inner.deadlock_detect_enabled = enabled == 1;
    if !inner.deadlock_detect_enabled {
        inner.thread_wait_mutex.clear();
        inner.thread_wait_semaphore.clear();
    }
    0
}

/// The sleep syscall, given the current time in milliseconds: asks the kernel
/// to block the current thread until `now_ms + ms`, then returns 0.
pub fn sys_sleep(now_ms: usize, ms: usize) -> (r: SyscallStep)
    requires
        now_ms + ms <= usize::MAX,
    ensures
        r == SyscallStep::RunThenReturn(KernelRequest::Sleep { expire_ms: (now_ms + ms) as usize }, 0),
{
    let expire_ms = now_ms + ms;
    SyscallStep::RunThenReturn(KernelRequest::Sleep { expire_ms }, 0)
}

} // verus!
