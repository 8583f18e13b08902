use vstd::prelude::*;
use crate::mm::{
    ceil_vpn, floor_vpn, pte_allows, pte_has_perm, phys_addr, vpn_ceil,
    vpn_floor, MapPermission, PageTable, PAGE_SIZE, PTE_R, PTE_W,
};
use crate::request::{KernelRequest, SyscallStep};

verus! {

/// Seconds and microseconds, as `sys_get_time` reports them.
#[derive(Copy, Clone, Debug, PartialEq, Eq, Structural)]
pub struct TimeVal {
    pub sec: usize,
    pub usec: usize,
}

/// The page that holds `addr` is mapped for user access with `perm`.
pub open spec fn addr_allows(pt: Map<usize, crate::mm::PageTableEntry>, addr: usize, perm: u8) -> bool {
    let vpn = vpn_floor(addr) as usize;
    pt.contains_key(vpn) && pte_allows(pt[vpn], perm)
}

/// Every page that `[start, start + len)` touches is mapped for user access
/// with `perm`; a range whose end overflows is refused, an empty one granted,
/// and one that wraps past the end of the address space refused.
pub open spec fn range_allows(pt: Map<usize, crate::mm::PageTableEntry>, start: usize, len: usize, perm: u8) -> bool {
    if start + len > usize::MAX {
        false
    } else if len == 0 {
        true
    } else if vpn_ceil((start + len) as usize) < vpn_floor(start) {
        false
    } else {
        forall|v: usize|
            vpn_floor(start) <= v < vpn_ceil((start + len) as usize) ==> {
                &&& #[trigger] pt.contains_key(v)
                &&& pte_allows(pt[v], perm)
            }
    }
}

/// Whether the page that holds `addr` is mapped for user access with `perm`.
pub fn user_addr_has_perm(pt: &PageTable, addr: usize, perm: u8) -> (r: bool)
    ensures
        r == addr_allows(pt@, addr, perm),
{
    let pte = match pt.translate(floor_vpn(addr)) {
        Some(pte) => pte,
        None => {
            return false;
        },
    };
    pte_has_perm(pte, perm)
}

/// Whether every page of `[start, start + len)` is mapped for user access with `perm`.
pub fn user_range_has_perm(pt: &PageTable, start: usize, len: usize, perm: u8) -> (r: bool)
    ensures
        r == range_allows(pt@, start, len, perm),
{
    let end = match start.checked_add(len) {
        Some(end) => end,
        None => {
            return false;
        },
    };
    if len == 0 {
        return true;
    }
    let start_vpn = floor_vpn(start);
    let end_vpn = ceil_vpn(end);
    if end_vpn < start_vpn {
        // The range wraps past the end of the address space: the walk upward
        // from its first page never meets its end page, so it is refused.
        return false;
    }
    let mut vpn = start_vpn;
    while vpn != end_vpn
        invariant
            start_vpn <= vpn,
            len > 0,
            start + len <= usize::MAX,
            start_vpn == vpn_floor(start),
            end_vpn == vpn_ceil(end),
            end == start + len,
            vpn <= end_vpn,
            forall|v: usize| start_vpn <= v < vpn ==> {
                &&& #[trigger] pt@.contains_key(v)
                &&& pte_allows(pt@[v], perm)
            },
        decreases end_vpn - vpn,
    {
        let pte = match pt.translate(vpn) {
            Some(pte) => pte,
            None => {
                return false;
            },
        };
        if !pte_has_perm(pte, perm) {
            return false;
        }
        let ghost prev = vpn;
        vpn = vpn + 1;
        proof {
            assert forall|v: usize| start_vpn <= v < vpn implies {
                &&& #[trigger] pt@.contains_key(v)
                &&& pte_allows(pt@[v], perm)
            } by {
                if v == prev {
                    assert(pt@.contains_key(prev));
                    assert(pte == pt@[prev]);
                    assert(pte_allows(pte, perm));
                } else {
                    assert(v < prev);
                    assert(pt@.contains_key(v));
                    assert(pte_allows(pt@[v], perm));
                }
            }
        }
    }
    proof {
        assert(end == (start + len) as usize);
        assert forall|v: usize| vpn_floor(start) <= v < vpn_ceil((start + len) as usize) implies {
            &&& #[trigger] pt@.contains_key(v)
            &&& pte_allows(pt@[v], perm)
        } by {
            assert(start_vpn <= v < vpn);
        }
        assert(start + len <= usize::MAX);
        assert(len != 0);
        assert(range_allows(pt@, start, len, perm));
    }
    true
}

/// The exit syscall: asks the kernel to exit the current task, which submits
/// `exit_code`; -1 is what reaches user space should it ever return.
pub fn sys_exit(exit_code: i32) -> (r: SyscallStep)
    ensures
        r == SyscallStep::RunThenReturn(KernelRequest::ExitCurrent { exit_code }, -1isize),
{
    SyscallStep::RunThenReturn(KernelRequest::ExitCurrent { exit_code }, -1)
}

/// The yield syscall: asks the kernel to run another task, then returns 0.
pub fn sys_yield() -> (r: SyscallStep)
    ensures
        r == SyscallStep::RunThenReturn(KernelRequest::SuspendCurrent, 0),
{
    SyscallStep::RunThenReturn(KernelRequest::SuspendCurrent, 0)
}

/// The time `us` microseconds after boot, in seconds and microseconds.
pub open spec fn time_val_of(us: usize) -> TimeVal {
    TimeVal { sec: us / 1_000_000, usec: us % 1_000_000 }
}

/// The get-time syscall, given the current time in microseconds: refuses a
/// buffer that is not writable from user mode with -1, otherwise asks the
/// kernel to copy the time to it and returns 0.
pub fn sys_get_time(pt: &PageTable, ts: usize, _tz: usize, us: usize) -> (r: SyscallStep)
    ensures
        r == if range_allows(pt@, ts, vstd::layout::size_of::<TimeVal>() as usize, PTE_W) {
            SyscallStep::RunThenReturn(KernelRequest::CopyTimeVal { ts, tv: time_val_of(us) }, 0)
        } else {
            SyscallStep::Return(-1isize)
        },
{
    let len = core::mem::size_of::<TimeVal>();
    if !user_range_has_perm(pt, ts, len, PTE_W) {
        return SyscallStep::Return(-1);
    }
    let tv = TimeVal { sec: us / 1_000_000, usec: us % 1_000_000 };
    SyscallStep::RunThenReturn(KernelRequest::CopyTimeVal { ts, tv }, 0)
}

/// The physical address that user address `addr` reaches, when its page is mapped.
fn translated_addr(pt: &PageTable, addr: usize) -> (r: usize)
    requires
        pt.wf(),
        pt@.contains_key(vpn_floor(addr) as usize),
    ensures
        r == phys_addr(pt@[vpn_floor(addr) as usize], addr),
{
    let vpn = floor_vpn(addr);
    let pte = match pt.translate(vpn) {
        Some(pte) => pte,
        None => {
            return 0;
        },
    };
    let shifted = pte.ppn * PAGE_SIZE;
    let offset = addr & 0xfff;
    assert(offset == addr % 4096) by (bit_vector)
        requires
            offset == addr & 0xfff,
    ;
    shifted + offset
}

/// What the trace syscall does for `trace_request`, `id` and `data`.
pub open spec fn trace_step(
    pt: Map<usize, crate::mm::PageTableEntry>,
    trace_request: usize,
    id: usize,
    data: usize,
) -> SyscallStep {
    if trace_request == 0 {
        if addr_allows(pt, id, PTE_R) {
            SyscallStep::RunForResult(KernelRequest::ReadPhysByte { pa: phys_addr(pt[vpn_floor(id) as usize], id) as usize })
        } else {
            SyscallStep::Return(-1isize)
        }
    } else if trace_request == 1 {
        if addr_allows(pt, id, PTE_W) {
            SyscallStep::RunThenReturn(
                KernelRequest::WritePhysByte { pa: phys_addr(pt[vpn_floor(id) as usize], id) as usize, value: data as u8 },
                0,
            )
        } else {
            SyscallStep::Return(-1isize)
        }
    } else if trace_request == 2 {
        SyscallStep::RunForResult(KernelRequest::SyscallCount { id })
    } else {
        SyscallStep::Return(-1isize)
    }
}

/// The trace syscall. Request 0 reads the byte at user address `id`, request
/// 1 writes the low byte of `data` there (each refused with -1 unless the
/// page is mapped for user reads, resp. writes), request 2 counts the
/// current task's syscalls numbered `id`; any other request is refused with -1.
pub fn sys_trace(pt: &PageTable, trace_request: usize, id: usize, data: usize) -> (r: SyscallStep)
    requires
        pt.wf(),
    ensures
        r == trace_step(pt@, trace_request, id, data),
{
    if trace_request == 0 {
        if !user_addr_has_perm(pt, id, PTE_R) {
            return SyscallStep::Return(-1);
        }
        let pa = translated_addr(pt, id);
        SyscallStep::RunForResult(KernelRequest::ReadPhysByte { pa })
    } else if trace_request == 1 {
        if !user_addr_has_perm(pt, id, PTE_W) {
            return SyscallStep::Return(-1);
        }
        let pa = translated_addr(pt, id);
        SyscallStep::RunThenReturn(KernelRequest::WritePhysByte { pa, value: data as u8 }, 0)
    } else if trace_request == 2 {
        SyscallStep::RunForResult(KernelRequest::SyscallCount { id })
    } else {
        SyscallStep::Return(-1)
    }
}

/// The permissions that `sys_mmap` grants for `prot`: user access plus read,
/// write and execute from bits 0, 1 and 2.
pub open spec fn perm_of(prot: usize) -> MapPermission {
    MapPermission { r: prot % 2 == 1, w: (prot / 2) % 2 == 1, x: (prot / 4) % 2 == 1, u: true }
}

/// What the mmap syscall hands back.
pub open spec fn mmap_step(start: usize, len: usize, prot: usize) -> SyscallStep {
    if start % PAGE_SIZE != 0 || prot == 0 || prot > 7 {
        SyscallStep::Return(-1isize)
    } else {
        SyscallStep::RunThenComplete(KernelRequest::Mmap { start, len, perm: perm_of(prot) })
    }
}

/// The mmap syscall: refuses a start that is not page aligned, or a `prot`
/// that is zero or has bits beyond the lowest three, with -1; otherwise asks
/// the kernel to map the range with the permissions `prot` names.
pub fn sys_mmap(start: usize, len: usize, prot: usize) -> (r: SyscallStep)
    ensures
        r == mmap_step(start, len, prot),
{
    if virt_addr_offset(start) != 0 {
        return SyscallStep::Return(-1);
    }
    let high = prot & !0x7usize;
    let low = prot & 0x7usize;
    assert((high != 0) == (prot > 7) && (low == 0) == (prot % 8 == 0)) by (bit_vector)
        requires
            high == prot & !0x7usize,
            low == prot & 0x7usize,
    ;
    if high != 0 || low == 0 {
        return SyscallStep::Return(-1);
    }
    let r = prot & 0x1 != 0;
    let w = prot & 0x2 != 0;
    let x = prot & 0x4 != 0;
    assert(r == (prot % 2 == 1) && w == ((prot / 2) % 2 == 1) && x == ((prot / 4) % 2 == 1)) by (bit_vector)
        requires
            r == (prot & 0x1 != 0),
            w == (prot & 0x2 != 0),
            x == (prot & 0x4 != 0),
    ;
    let perm = MapPermission { r, w, x, u: true };
    SyscallStep::RunThenComplete(KernelRequest::Mmap { start, len, perm })
}

/// The offset of `addr` inside its page.
fn virt_addr_offset(addr: usize) -> (r: usize)
    ensures
        r == addr % PAGE_SIZE,
{
    let off = addr & 0xfff;
    assert(off == addr % 4096) by (bit_vector)
        requires
            off == addr & 0xfff,
    ;
    off
}

/// The munmap syscall: refuses a start that is not page aligned with -1,
/// otherwise asks the kernel to unmap the range.
pub fn sys_munmap(start: usize, len: usize) -> (r: SyscallStep)
    ensures
        r == if start % PAGE_SIZE != 0 {
            SyscallStep::Return(-1isize)
        } else {
            SyscallStep::RunThenComplete(KernelRequest::Munmap { start, len })
        },
{
    if virt_addr_offset(start) != 0 {
        return SyscallStep::Return(-1);
    }
    SyscallStep::RunThenComplete(KernelRequest::Munmap { start, len })
}

/// Second half of mmap and munmap: 0 when the kernel mapped (unmapped) the
/// range, -1 when it refused.
pub fn mapping_done(ok: bool) -> (r: isize)
    ensures
        r == if ok { 0isize } else { -1isize },
{
    if ok {
        0
    } else {
        -1
    }
}

/// The sbrk syscall: asks the kernel to move the program break by `size`.
pub fn sys_sbrk(size: i32) -> (r: SyscallStep)
    ensures
        r == SyscallStep::RunThenComplete(KernelRequest::ChangeBrk { size }),
{
    SyscallStep::RunThenComplete(KernelRequest::ChangeBrk { size })
}

/// Second half of sbrk: the old program break, or -1 when the kernel refused
/// to move it.
pub fn brk_done(old_brk: Option<usize>) -> (r: isize)
    ensures
        r == match old_brk {
            Some(b) => b as isize,
            None => -1isize,
        },
{
    match old_brk {
        Some(b) => b as isize,
        None => -1,
    }
}

} // verus!
