use vstd::prelude::*;
use crate::banker::{can_finish, is_safe_sequence, sem_threads, semaphore_state_safe};
use crate::manager::{pass_of, stride_before, BIG_STRIDE};
use crate::mm::{va_of, va_space, PageTableEntry};
use crate::process::{addr_allows, mmap_step, range_allows, time_val_of, trace_step};
use crate::mm::MapPermission;
use crate::sync::{down_state, down_step, lock_state, lock_step, up_done_state, EDEADLK};
use crate::wait_graph::{mutex_cycle_through, wait_next};
use crate::mm::{phys_addr, vpn_floor, PTE_R, PTE_W};
use crate::request::{KernelRequest, SyscallStep};
use crate::banker::{held, held_by, work_after};
use crate::manager::after_turn;
use crate::task::TaskControlBlock;
use crate::sync::{
    acquire_one, down_deadlocks, lock_acquired, lock_checked, lock_deadlocks, owners_for, release_one,
    unlock_released, SyncView,
};
use crate::wait_graph::wait_chain;

verus! {

/// With deadlock detection off, neither a lock nor a down request is ever
/// refused as a deadlock.
pub proof fn lemma_detection_off_never_refuses(s: SyncView, tid: usize, mutex_id: usize, sem_id: usize, sem_count: isize)
    requires
        !s.deadlock_detect_enabled,
    ensures
        !lock_deadlocks(s, tid, mutex_id),
        !down_deadlocks(s, tid, sem_id, sem_count),
{
}

/// With deadlock detection on, a thread that locks a mutex it already holds
/// is refused as a deadlock.
pub proof fn lemma_relock_is_deadlock(s: SyncView, tid: usize, mutex_id: usize)
    requires
        s.deadlock_detect_enabled,
        s.mutex_valid(mutex_id),
        owners_for(s, mutex_id)[mutex_id as int] == Some(tid),
    ensures
        lock_deadlocks(s, tid, mutex_id),
{
    let w = s.thread_wait_mutex.insert(tid, mutex_id);
    let o = owners_for(s, mutex_id);
    assert(wait_chain(w, o, tid, 0) == Some(tid));
    assert(wait_chain(w, o, tid, 1) == Some(tid));
}

/// Locking and then unlocking a mutex by the same thread leaves the mutex
/// without owner and the thread waiting for no mutex.
pub proof fn lemma_unlock_undoes_lock(s: SyncView, tid: usize, mutex_id: usize)
    requires
        mutex_id < s.mutex_owner.len(),
    ensures
        unlock_released(lock_acquired(s, tid, mutex_id), tid, mutex_id) == (SyncView {
            mutex_owner: s.mutex_owner.update(mutex_id as int, None),
            thread_wait_mutex: s.thread_wait_mutex.remove(tid),
            ..s
        }),
{
    assert(s.mutex_owner.update(mutex_id as int, Some(tid)).update(mutex_id as int, None) =~= s.mutex_owner.update(mutex_id as int, None));
}

/// Releasing one resource undoes acquiring one: the allocation map comes
/// back unchanged, unless it recorded that the thread held none.
pub proof fn lemma_release_undoes_acquire(m: Map<usize, usize>, tid: usize)
    requires
        m.contains_key(tid) ==> 0 < m[tid] < usize::MAX,
    ensures
        release_one(acquire_one(m, tid), tid) == m,
{
    if m.contains_key(tid) {
        assert(m.insert(tid, (m[tid] + 1) as usize).insert(tid, m[tid]) =~= m);
    } else {
        assert(m.insert(tid, 1).remove(tid) =~= m);
    }
}

/// A thread that waits for a semaphore that does not exist can never
/// finish, so the state is unsafe.
pub proof fn lemma_waiting_on_missing_semaphore_is_unsafe(
    avail: Seq<isize>,
    alloc: Seq<Map<usize, usize>>,
    wait: Map<usize, usize>,
    tid: usize,
)
    requires
        wait.contains_key(tid),
        wait[tid] >= avail.len(),
    ensures
        !semaphore_state_safe(avail, alloc, wait),
{
    if semaphore_state_safe(avail, alloc, wait) {
        let s = choose|s: Seq<usize>| is_safe_sequence(avail, alloc, wait, s);
        assert(sem_threads(alloc, wait).contains(tid));
        assert(s.to_set().contains(tid));
        let i = choose|i: int| 0 <= i < s.len() && s[i] == tid;
        assert(can_finish(avail, alloc, wait, s.take(i).to_set(), s[i]));
    }
}

proof fn lemma_holders_finite(alloc: Seq<Map<usize, usize>>, k: int)
    requires
        0 <= k <= alloc.len(),
        forall|sid: int| 0 <= sid < alloc.len() ==> (#[trigger] alloc[sid]).dom().finite(),
    ensures
        Set::new(|t: usize| exists|sid: int| 0 <= sid < k && #[trigger] alloc[sid].contains_key(t) && alloc[sid][t] > 0).finite(),
    decreases k,
{
    let sk = Set::new(|t: usize| exists|sid: int| 0 <= sid < k && #[trigger] alloc[sid].contains_key(t) && alloc[sid][t] > 0);
    if k == 0 {
        assert(sk =~= Set::empty());
    } else {
        lemma_holders_finite(alloc, k - 1);
        let prev = Set::new(|t: usize| exists|sid: int| 0 <= sid < k - 1 && #[trigger] alloc[sid].contains_key(t) && alloc[sid][t] > 0);
        let last = alloc[k - 1].dom();
        assert(sk.subset_of(prev.union(last))) by {
            assert forall|t: usize| sk.contains(t) implies prev.union(last).contains(t) by {
                let sid = choose|sid: int| 0 <= sid < k && #[trigger] alloc[sid].contains_key(t) && alloc[sid][t] > 0;
                if sid < k - 1 {
                    assert(prev.contains(t));
                }
            }
        }
        vstd::set_lib::lemma_set_subset_finite(prev.union(last), sk);
    }
}

proof fn lemma_enumerate(s: Set<usize>) -> (q: Seq<usize>)
    requires
        s.finite(),
    ensures
        q.no_duplicates(),
        q.to_set() == s,
    decreases s.len(),
{
    if s.len() == 0 {
        assert(s =~= Set::empty());
        assert(Seq::<usize>::empty().to_set() =~= s);
        Seq::empty()
    } else {
        let x = s.choose();
        let rest = lemma_enumerate(s.remove(x));
        let q = rest.push(x);
        assert(q.to_set() =~= s) by {
            assert forall|t: usize| q.contains(t) <==> s.contains(t) by {
                if q.contains(t) {
                    let i = choose|i: int| 0 <= i < q.len() && q[i] == t;
                    if i < rest.len() {
                        assert(rest.to_set().contains(rest[i]));
                    }
                }
                if s.contains(t) && t != x {
                    assert(rest.to_set().contains(t));
                    let i = choose|i: int| 0 <= i < rest.len() && rest[i] == t;
                    assert(q[i] == t);
                }
                if t == x {
                    assert(q[rest.len() as int] == t);
                }
            }
        }
        assert(!rest.contains(x)) by {
            if rest.contains(x) {
                assert(rest.to_set().contains(x));
            }
        }
        q
    }
}

/// While no thread waits for a semaphore, the semaphore state is safe:
/// every holder can finish in any order.
pub proof fn lemma_no_waiter_is_safe(avail: Seq<isize>, alloc: Seq<Map<usize, usize>>)
    requires
        forall|sid: int| 0 <= sid < alloc.len() ==> (#[trigger] alloc[sid]).dom().finite(),
    ensures
        semaphore_state_safe(avail, alloc, Map::empty()),
{
    let wait = Map::<usize, usize>::empty();
    let all = sem_threads(alloc, wait);
    lemma_holders_finite(alloc, alloc.len() as int);
    let holders = Set::new(|t: usize| exists|sid: int| 0 <= sid < alloc.len() && #[trigger] alloc[sid].contains_key(t) && alloc[sid][t] > 0);
    assert(all =~= holders);
    let q = lemma_enumerate(all);
    assert(is_safe_sequence(avail, alloc, wait, q));
}

/// Every scheduled task advances its stride by at least 1 and at most
/// `BIG_STRIDE`.
pub proof fn lemma_pass_bounds(priority: usize)
    requires
        priority > 0,
    ensures
        1 <= pass_of(priority) <= BIG_STRIDE,
{
    vstd::arithmetic::div_mod::lemma_div_is_ordered_by_denominator(BIG_STRIDE as int, 1, priority as int);
}

/// A task of higher priority advances its stride by no more than one of
/// lower priority.
pub proof fn lemma_pass_decreases_with_priority(p1: usize, p2: usize)
    requires
        0 < p1 <= p2,
    ensures
        pass_of(p2) <= pass_of(p1),
{
    vstd::arithmetic::div_mod::lemma_div_is_ordered_by_denominator(BIG_STRIDE as int, p1 as int, p2 as int);
}

/// Stride order is asymmetric: of two strides that are not exactly half the
/// `usize` range apart, at most one comes before the other.
pub proof fn lemma_stride_before_asymmetric(a: usize, b: usize)
    requires
        a.wrapping_sub(b) != usize::MAX / 2 + 1,
    ensures
        stride_before(a, b) ==> !stride_before(b, a),
{
}

/// Checking a one-byte range is checking the page of that byte.
pub proof fn lemma_one_byte_range(pt: Map<usize, PageTableEntry>, addr: usize, perm: u8)
    requires
        addr < usize::MAX,
        va_of(addr) + 1 < va_space(),
    ensures
        range_allows(pt, addr, 1, perm) == addr_allows(pt, addr, perm),
{
    let m = va_space();
    vstd::arithmetic::div_mod::lemma_add_mod_noop(addr as int, 1, m);
    vstd::arithmetic::div_mod::lemma_small_mod(1, m as nat);
    vstd::arithmetic::div_mod::lemma_small_mod((va_of(addr) + 1) as nat, m as nat);
    assert(va_of((addr + 1) as usize) == va_of(addr) + 1);
}

/// The time reported for `us` microseconds is exact: whole seconds plus the
/// remaining microseconds, fewer than a million.
pub proof fn lemma_time_val_exact(us: usize)
    ensures
        time_val_of(us).sec * 1_000_000 + time_val_of(us).usec == us,
        time_val_of(us).usec < 1_000_000,
{
}

/// More available resources never make a safe semaphore state unsafe: the
/// same order still lets every thread finish.
pub proof fn lemma_more_available_stays_safe(
    avail: Seq<isize>,
    more: Seq<isize>,
    alloc: Seq<Map<usize, usize>>,
    wait: Map<usize, usize>,
)
    requires
        more.len() == avail.len(),
        forall|i: int| 0 <= i < avail.len() ==> more[i] >= avail[i],
        semaphore_state_safe(avail, alloc, wait),
    ensures
        semaphore_state_safe(more, alloc, wait),
{
    let s = choose|s: Seq<usize>| is_safe_sequence(avail, alloc, wait, s);
    assert forall|i: int| 0 <= i < s.len() implies #[trigger] can_finish(more, alloc, wait, s.take(i).to_set(), s[i]) by {
        assert(can_finish(avail, alloc, wait, s.take(i).to_set(), s[i]));
        if wait.contains_key(s[i]) {
            let sid = wait[s[i]] as int;
            assert(work_after(more, alloc, s.take(i).to_set(), sid) >= work_after(avail, alloc, s.take(i).to_set(), sid));
        }
    }
    assert(is_safe_sequence(more, alloc, wait, s));
}

/// A traced read of a byte that a traced write stored goes to the same
/// physical address the write went to, so it reads the low byte of the
/// written data back (what the byte holds is the kernel's memory).
pub proof fn lemma_trace_read_sees_write(pt: Map<usize, PageTableEntry>, addr: usize, data: usize, ignored: usize)
    requires
        addr_allows(pt, addr, PTE_R),
        addr_allows(pt, addr, PTE_W),
    ensures
        ({
            let pa = phys_addr(pt[vpn_floor(addr) as usize], addr) as usize;
            &&& trace_step(pt, 1, addr, data) == SyscallStep::RunThenReturn(
                KernelRequest::WritePhysByte { pa, value: data as u8 },
                0,
            )
            &&& trace_step(pt, 0, addr, ignored) == SyscallStep::RunForResult(KernelRequest::ReadPhysByte { pa })
        }),
{
}

/// Locking a live mutex that nobody owns is never refused, so a lock right
/// after `sys_mutex_create` (whose new mutex has no owner while the owner
/// table matches the mutex table) goes through.
pub proof fn lemma_unowned_mutex_lock_goes_through(s: SyncView, tid: usize, mutex_id: usize)
    requires
        s.mutex_valid(mutex_id),
        mutex_id < s.mutex_owner.len(),
        s.mutex_owner[mutex_id as int] is None,
    ensures
        !lock_checked(s, mutex_id),
        !lock_deadlocks(s, tid, mutex_id),
{
}

/// mmap refuses an unaligned start, and a `prot` with no permission bit or
/// with a bit above the lowest three; otherwise it asks for a user mapping
/// that is readable exactly when bit 0 of `prot` is set, writable exactly
/// when bit 1 is, and executable exactly when bit 2 is.
pub proof fn lemma_mmap_perm_follows_prot_bits(start: usize, len: usize, prot: usize)
    ensures
        (mmap_step(start, len, prot) == SyscallStep::Return(-1isize))
            <==> (start % 4096 != 0 || prot & 7 == 0 || prot & !7usize != 0),
        !(start % 4096 != 0 || prot & 7 == 0 || prot & !7usize != 0) ==> mmap_step(start, len, prot)
            == SyscallStep::RunThenComplete(
            KernelRequest::Mmap {
                start,
                len,
                perm: MapPermission { r: prot & 1 != 0, w: prot & 2 != 0, x: prot & 4 != 0, u: true },
            },
        ),
{
    assert((prot & 7 == 0) == (prot % 8 == 0) && (prot & !7usize != 0) == (prot > 7)) by (bit_vector);
    assert((prot & 1 != 0) == (prot % 2 == 1) && (prot & 2 != 0) == ((prot / 2) % 2 == 1) && (prot & 4 != 0) == ((prot / 4) % 2 == 1)) by (bit_vector);
}

/// Up releases only the caller's own holding of that semaphore: a thread
/// that held nothing stays holding nothing, a holding of more than one
/// drops by exactly one, a holding of one (or a recorded zero) is gone, and
/// every other thread's holding and every other semaphore stay as they were.
pub proof fn lemma_up_releases_only_own_holding(s: SyncView, tid: usize, sem_id: usize, sem_count: isize)
    requires
        s.semaphore_valid(sem_id),
    ensures
        ({
            let before = if sem_id < s.semaphore_allocation.len() {
                s.semaphore_allocation[sem_id as int]
            } else {
                Map::<usize, usize>::empty()
            };
            let after_all = up_done_state(s, tid, sem_id, sem_count).semaphore_allocation;
            let after = after_all[sem_id as int];
            &&& after_all.len() >= s.semaphore_allocation.len()
            &&& after_all.len() > sem_id
            &&& forall|j: int| 0 <= j < s.semaphore_allocation.len() && j != sem_id ==> after_all[j] == s.semaphore_allocation[j]
            &&& forall|t: usize| t != tid ==> (#[trigger] after.contains_key(t) <==> before.contains_key(t))
            &&& forall|t: usize| t != tid && before.contains_key(t) ==> #[trigger] after[t] == before[t]
            &&& !before.contains_key(tid) ==> !after.contains_key(tid)
            &&& before.contains_key(tid) && before[tid] > 1 ==> after.contains_key(tid) && after[tid] == before[tid] - 1
            &&& before.contains_key(tid) && before[tid] <= 1 ==> !after.contains_key(tid)
        }),
{
}

/// The availability counts the safety check sees when a down request on
/// `sem_id` finds no free resource: zero for `sem_id`, and the table
/// lengthened with zeros to reach it.
pub open spec fn avail_when_empty(s: SyncView, sem_id: usize) -> Seq<isize> {
    let n = if sem_id < s.semaphore_available.len() { s.semaphore_available.len() as int } else { sem_id + 1 };
    Seq::new(n as nat, |i: int| if i == sem_id { 0isize } else if i < s.semaphore_available.len() { s.semaphore_available[i] } else { 0isize })
}

/// The allocation maps the safety check sees for a down request on
/// `sem_id`: the table lengthened with empty maps to reach it.
pub open spec fn alloc_reaching(s: SyncView, sem_id: usize) -> Seq<Map<usize, usize>> {
    let n = if sem_id < s.semaphore_allocation.len() { s.semaphore_allocation.len() as int } else { sem_id + 1 };
    Seq::new(n as nat, |i: int| if i < s.semaphore_allocation.len() { s.semaphore_allocation[i] } else { Map::empty() })
}

/// With deadlock detection on, a down request on a live semaphore whose
/// count is zero or below is refused with `EDEADLK` exactly when letting the
/// thread wait would leave no order in which every thread can finish. A
/// refused thread waits for nothing; an accepted one is recorded as waiting
/// for the semaphore and the kernel is asked to acquire it.
pub proof fn lemma_down_refuses_exactly_unsafe_waits(s: SyncView, tid: usize, sem_id: usize, sem_count: isize)
    requires
        s.deadlock_detect_enabled,
        s.semaphore_valid(sem_id),
        sem_count <= 0,
    ensures
        ({
            let unsafe_wait = !semaphore_state_safe(
                avail_when_empty(s, sem_id),
                alloc_reaching(s, sem_id),
                s.thread_wait_semaphore.insert(tid, sem_id),
            );
            &&& unsafe_wait ==> down_step(s, tid, sem_id, sem_count) == SyscallStep::Return(EDEADLK)
            &&& unsafe_wait ==> down_state(s, tid, sem_id, sem_count).thread_wait_semaphore == s.thread_wait_semaphore.remove(tid)
            &&& !unsafe_wait ==> down_step(s, tid, sem_id, sem_count) == SyscallStep::RunThenComplete(KernelRequest::SemaphoreDown { sem_id })
            &&& !unsafe_wait ==> down_state(s, tid, sem_id, sem_count).thread_wait_semaphore == s.thread_wait_semaphore.insert(tid, sem_id)
        }),
{
    let c = crate::sync::with_count(s, sem_id, sem_count);
    assert(c.semaphore_available =~= avail_when_empty(s, sem_id));
    assert(c.semaphore_allocation =~= alloc_reaching(s, sem_id));
}

/// A down request that finds a free resource (count above zero) is never
/// refused and never recorded as a wait.
pub proof fn lemma_down_with_free_resource_goes_through(s: SyncView, tid: usize, sem_id: usize, sem_count: isize)
    requires
        s.semaphore_valid(sem_id),
        sem_count > 0,
    ensures
        down_step(s, tid, sem_id, sem_count) == SyscallStep::RunThenComplete(KernelRequest::SemaphoreDown { sem_id }),
        down_state(s, tid, sem_id, sem_count).thread_wait_semaphore == s.thread_wait_semaphore,
{
}

/// The page that holds byte `a`, by the SV39 rule: the low 39 bits of the
/// address, divided by the page size.
pub open spec fn page_of(a: int) -> int {
    (a % 0x80_0000_0000) / 4096
}

/// `pt` maps the page that holds byte `a` for user access with `perm`.
pub open spec fn byte_allowed(pt: Map<usize, PageTableEntry>, a: int, perm: u8) -> bool {
    &&& pt.contains_key(page_of(a) as usize)
    &&& crate::mm::pte_allows(pt[page_of(a) as usize], perm)
}

proof fn lemma_va_of_offset(start: usize, d: int)
    requires
        0 <= d,
        va_of(start) + d < va_space(),
        start + d <= usize::MAX,
    ensures
        (start + d) % 0x80_0000_0000 == va_of(start) + d,
{
    let m = va_space();
    vstd::arithmetic::div_mod::lemma_add_mod_noop(start as int, d, m);
    vstd::arithmetic::div_mod::lemma_small_mod(d as nat, m as nat);
    vstd::arithmetic::div_mod::lemma_small_mod((va_of(start) + d) as nat, m as nat);
}

/// A user range check grants a non-empty range inside the address space
/// exactly when every byte of it lies in a page mapped for user access with
/// `perm`: the first page as much as the last.
pub proof fn lemma_range_grants_exactly_every_byte(pt: Map<usize, PageTableEntry>, start: usize, len: usize, perm: u8)
    requires
        len > 0,
        start + len <= usize::MAX,
        va_of(start) + len < va_space(),
    ensures
        range_allows(pt, start, len, perm) <==> forall|a: int| start <= a < start + len ==> #[trigger] byte_allowed(pt, a, perm),
{
    let end = (start + len) as usize;
    lemma_va_of_offset(start, len as int);
    assert(va_of(end) == va_of(start) + len);
    vstd::arithmetic::div_mod::lemma_div_is_ordered(va_of(start), va_of(end), 4096);
    assert(vpn_floor(start) <= crate::mm::vpn_ceil(end));
    if range_allows(pt, start, len, perm) {
        assert forall|a: int| start <= a < start + len implies #[trigger] byte_allowed(pt, a, perm) by {
            lemma_va_of_offset(start, a - start);
            let va = va_of(start) + (a - start);
            assert(a % 0x80_0000_0000 == va);
            vstd::arithmetic::div_mod::lemma_div_is_ordered(va_of(start), va, 4096);
            vstd::arithmetic::div_mod::lemma_div_is_ordered(va, va_of(end) - 1, 4096);
            assert((va_of(end) - 1) / 4096 < crate::mm::vpn_ceil(end));
            let v = page_of(a) as usize;
            assert(vpn_floor(start) <= v < crate::mm::vpn_ceil(end));
            assert(pt.contains_key(v));
        }
    }
    if forall|a: int| start <= a < start + len ==> #[trigger] byte_allowed(pt, a, perm) {
        assert forall|v: usize| vpn_floor(start) <= v < crate::mm::vpn_ceil(end) implies {
            &&& #[trigger] pt.contains_key(v)
            &&& crate::mm::pte_allows(pt[v], perm)
        } by {
            let va = if v * 4096 > va_of(start) { v * 4096 } else { va_of(start) };
            assert(va < va_of(end));
            let a = start + (va - va_of(start));
            lemma_va_of_offset(start, va - va_of(start));
            assert(a % 0x80_0000_0000 == va);
            assert(byte_allowed(pt, a, perm));
            assert(page_of(a) == v);
        }
        assert(end == (start + len) as usize);
        assert(!(crate::mm::vpn_ceil(end) < vpn_floor(start)));
        assert(range_allows(pt, start, len, perm));
    }
}

/// The owner of mutex `m` in `s`, none past the owner table.
pub open spec fn owner_of(s: SyncView, m: int) -> Option<usize> {
    if 0 <= m < s.mutex_owner.len() {
        s.mutex_owner[m]
    } else {
        None
    }
}

/// `p` is a ring of threads, each waiting (with `tid` now waiting for
/// `mutex_id`) for a mutex owned by the next, the last for one owned by the
/// first, which is `tid`.
pub open spec fn is_wait_ring(s: SyncView, tid: usize, mutex_id: usize, p: Seq<usize>) -> bool {
    let w = s.thread_wait_mutex.insert(tid, mutex_id);
    &&& p.len() >= 1
    &&& p[0] == tid
    &&& forall|i: int|
        0 <= i < p.len() ==> {
            &&& #[trigger] w.contains_key(p[i])
            &&& owner_of(s, w[p[i]] as int) == Some(if i + 1 < p.len() { p[i + 1] } else { p[0] })
        }
}

proof fn lemma_ring_is_chain(s: SyncView, tid: usize, mutex_id: usize, p: Seq<usize>, k: int)
    requires
        s.mutex_valid(mutex_id),
        is_wait_ring(s, tid, mutex_id, p),
        0 <= k <= p.len(),
    ensures
        wait_chain(s.thread_wait_mutex.insert(tid, mutex_id), owners_for(s, mutex_id), tid, k as nat)
            == Some(if k < p.len() { p[k] } else { p[0] }),
    decreases k,
{
    let w = s.thread_wait_mutex.insert(tid, mutex_id);
    let o = owners_for(s, mutex_id);
    if k > 0 {
        lemma_ring_is_chain(s, tid, mutex_id, p, k - 1);
        let i = k - 1;
        assert(w.contains_key(p[i]));
        let mm = w[p[i]] as int;
        assert(owner_of(s, mm) == Some(if i + 1 < p.len() { p[i + 1] } else { p[0] }));
        assert(mm < s.mutex_owner.len());
        assert(o[mm] == s.mutex_owner[mm]);
        assert(wait_next(w, o, p[i]) == Some(if i + 1 < p.len() { p[i + 1] } else { p[0] }));
    }
}

/// With deadlock detection on, a lock on a live mutex is refused with
/// `EDEADLK` whenever the new wait closes a ring of threads of any length,
/// each waiting for a mutex the next one owns; the refused thread then
/// waits for nothing.
pub proof fn lemma_lock_refuses_any_wait_ring(s: SyncView, tid: usize, mutex_id: usize, p: Seq<usize>)
    requires
        s.deadlock_detect_enabled,
        s.mutex_valid(mutex_id),
        is_wait_ring(s, tid, mutex_id, p),
    ensures
        lock_step(s, tid, mutex_id) == SyscallStep::Return(EDEADLK),
        lock_state(s, tid, mutex_id).thread_wait_mutex == s.thread_wait_mutex.remove(tid),
{
    let w = s.thread_wait_mutex.insert(tid, mutex_id);
    let o = owners_for(s, mutex_id);
    lemma_ring_is_chain(s, tid, mutex_id, p, p.len() as int);
    assert(wait_chain(w, o, tid, p.len() as nat) == Some(tid));
    assert(mutex_cycle_through(w, o, tid));
    assert(w.contains_key(p[0]));
    assert(w[tid] == mutex_id);
    assert(owner_of(s, mutex_id as int) is Some);
    assert(o[mutex_id as int] == s.mutex_owner[mutex_id as int]);
}

/// Conversely, a lock is refused only when the new wait closes such a ring.
pub proof fn lemma_lock_refusal_has_wait_ring(s: SyncView, tid: usize, mutex_id: usize)
    requires
        lock_step(s, tid, mutex_id) == SyscallStep::Return(EDEADLK),
    ensures
        s.deadlock_detect_enabled,
        s.mutex_valid(mutex_id),
        exists|p: Seq<usize>| is_wait_ring(s, tid, mutex_id, p),
{
    let w = s.thread_wait_mutex.insert(tid, mutex_id);
    let o = owners_for(s, mutex_id);
    assert(EDEADLK != -1isize);
    assert(s.mutex_valid(mutex_id));
    assert(mutex_cycle_through(w, o, tid));
    let k = choose|k: nat| k >= 1 && #[trigger] wait_chain(w, o, tid, k) == Some(tid);
    assert forall|j: nat| j <= k implies #[trigger] wait_chain(w, o, tid, j) is Some by {
        if wait_chain(w, o, tid, j) is None {
            crate::wait_graph::lemma_chain_ends(w, o, tid, j, k);
        }
    }
    let p = Seq::new(k, |i: int| wait_chain(w, o, tid, i as nat)->0);
    assert forall|i: int| 0 <= i < p.len() implies {
        &&& #[trigger] w.contains_key(p[i])
        &&& owner_of(s, w[p[i]] as int) == Some(if i + 1 < p.len() { p[i + 1] } else { p[0] })
    } by {
        assert(wait_chain(w, o, tid, i as nat) is Some);
        assert(wait_chain(w, o, tid, (i + 1) as nat) is Some);
        assert(wait_chain(w, o, tid, (i + 1) as nat) == wait_next(w, o, p[i]));
        let mm = w[p[i]] as int;
        assert(mm < o.len());
        if mm >= s.mutex_owner.len() {
            assert(o[mm] is None);
        }
        assert(p[0] == tid);
    }
    assert(is_wait_ring(s, tid, mutex_id, p));
}

/// Acquiring a resource adds exactly one to the caller's holding (starting
/// from none) and leaves every other thread's holding as it was.
pub proof fn lemma_acquire_adds_one(m: Map<usize, usize>, tid: usize)
    requires
        m.contains_key(tid) ==> m[tid] < usize::MAX,
    ensures
        acquire_one(m, tid).contains_key(tid),
        acquire_one(m, tid)[tid] == if m.contains_key(tid) { m[tid] + 1 } else { 1 },
        forall|t: usize| t != tid ==> (#[trigger] acquire_one(m, tid).contains_key(t) <==> m.contains_key(t)),
        forall|t: usize| t != tid && m.contains_key(t) ==> #[trigger] acquire_one(m, tid)[t] == m[t],
{
}

proof fn lemma_held_by_none(alloc: Seq<Map<usize, usize>>, sid: int, f: Set<usize>)
    requires
        f.finite(),
        forall|u: usize| #[trigger] held(alloc, sid, u) == 0,
    ensures
        held_by(alloc, sid, f) == 0,
    decreases f.len(),
{
    if f.len() == 0 {
        assert(f =~= Set::empty());
        crate::banker::lemma_held_by_empty(alloc, sid);
    } else {
        let a = f.choose();
        lemma_held_by_none(alloc, sid, f.remove(a));
        assert(f =~= f.remove(a).insert(a));
        crate::banker::lemma_held_by_insert(alloc, sid, f.remove(a), a);
    }
}

/// A thread that waits for a semaphore with no free resource, of which no
/// thread holds any, can never finish: the state is unsafe.
pub proof fn lemma_waiting_on_exhausted_semaphore_is_unsafe(
    avail: Seq<isize>,
    alloc: Seq<Map<usize, usize>>,
    wait: Map<usize, usize>,
    tid: usize,
)
    requires
        wait.contains_key(tid),
        wait[tid] < avail.len(),
        avail[wait[tid] as int] <= 0,
        forall|u: usize| #[trigger] held(alloc, wait[tid] as int, u) == 0,
    ensures
        !semaphore_state_safe(avail, alloc, wait),
{
    if semaphore_state_safe(avail, alloc, wait) {
        let s = choose|s: Seq<usize>| is_safe_sequence(avail, alloc, wait, s);
        assert(sem_threads(alloc, wait).contains(tid));
        assert(s.to_set().contains(tid));
        let i = choose|i: int| 0 <= i < s.len() && s[i] == tid;
        assert(can_finish(avail, alloc, wait, s.take(i).to_set(), s[i]));
        vstd::seq_lib::seq_to_set_is_finite(s.take(i));
        lemma_held_by_none(alloc, wait[tid] as int, s.take(i).to_set());
    }
}

/// The stride a task of `priority` advances by is its share of `BIG_STRIDE`:
/// the largest whole number of `priority`-sized parts that fit, but at least 1.
pub proof fn lemma_pass_is_share_of_big_stride(priority: usize)
    requires
        priority > 0,
    ensures
        pass_of(priority) >= 1,
        pass_of(priority) == 1 || pass_of(priority) * priority <= BIG_STRIDE < (pass_of(priority) + 1) * priority,
        priority <= BIG_STRIDE ==> pass_of(priority) * priority <= BIG_STRIDE < (pass_of(priority) + 1) * priority,
{
    let q = BIG_STRIDE as int / priority as int;
    let r = BIG_STRIDE as int % priority as int;
    vstd::arithmetic::div_mod::lemma_fundamental_div_mod(BIG_STRIDE as int, priority as int);
    assert(0 <= r < priority) by {
        vstd::arithmetic::div_mod::lemma_mod_bound(BIG_STRIDE as int, priority as int);
    }
    assert(q * priority <= BIG_STRIDE < (q + 1) * priority) by (nonlinear_arith)
        requires
            BIG_STRIDE as int == priority * q + r,
            0 <= r < priority,
    ;
    if priority <= BIG_STRIDE {
        assert(q >= 1) by (nonlinear_arith)
            requires
                BIG_STRIDE as int == priority * q + r,
                0 <= r < priority,
                priority <= BIG_STRIDE,
        ;
    }
}

/// A turn advances the task's stride by its pass, modulo the `usize` range,
/// and changes nothing else about the task.
pub proof fn lemma_turn_advances_stride_by_pass(t: TaskControlBlock)
    requires
        t.priority > 0,
    ensures
        after_turn(t).stride as int == (t.stride as int + pass_of(t.priority) as int) % (usize::MAX as int + 1),
        after_turn(t).priority == t.priority,
        after_turn(t).task_status == t.task_status,
        after_turn(t).task_cx == t.task_cx,
        after_turn(t).syscall_counter == t.syscall_counter,
{
    lemma_pass_bounds(t.priority);
    let m = usize::MAX as int + 1;
    let x = t.stride as int + pass_of(t.priority) as int;
    if x < m {
        vstd::arithmetic::div_mod::lemma_small_mod(x as nat, m as nat);
    } else {
        vstd::arithmetic::div_mod::lemma_small_mod((x - m) as nat, m as nat);
        vstd::arithmetic::div_mod::lemma_mod_add_multiples_vanish(x - m, m);
    }
}

/// After a lock is acquired the caller owns the mutex and waits for no
/// mutex; no other mutex changes hands.
pub proof fn lemma_acquired_lock_is_owned(s: SyncView, tid: usize, mutex_id: usize)
    requires
        mutex_id < s.mutex_owner.len(),
    ensures
        lock_acquired(s, tid, mutex_id).mutex_owner[mutex_id as int] == Some(tid),
        !lock_acquired(s, tid, mutex_id).thread_wait_mutex.contains_key(tid),
        lock_acquired(s, tid, mutex_id).mutex_owner.len() == s.mutex_owner.len(),
        forall|j: int| 0 <= j < s.mutex_owner.len() && j != mutex_id ==> #[trigger] lock_acquired(s, tid, mutex_id).mutex_owner[j] == s.mutex_owner[j],
{
}

/// Once an up or a down has run, the semaphore's recorded free resources
/// are its count, or zero when the count is negative; no other semaphore's
/// record changes.
pub proof fn lemma_recorded_available_is_clamped_count(s: SyncView, tid: usize, sem_id: usize, sem_count: isize)
    requires
        s.semaphore_valid(sem_id),
    ensures
        up_done_state(s, tid, sem_id, sem_count).semaphore_available[sem_id as int] == if sem_count > 0 { sem_count } else { 0 },
        forall|j: int| 0 <= j < s.semaphore_available.len() && j != sem_id
            ==> #[trigger] up_done_state(s, tid, sem_id, sem_count).semaphore_available[j] == s.semaphore_available[j],
        down_state(s, tid, sem_id, sem_count).semaphore_available[sem_id as int] == if sem_count > 0 { sem_count } else { 0 },
        forall|j: int| 0 <= j < s.semaphore_available.len() && j != sem_id
            ==> #[trigger] down_state(s, tid, sem_id, sem_count).semaphore_available[j] == s.semaphore_available[j],
{
}

} // verus!
