use os::mm::{MapPermission, PageTable, PageTableEntry, PTE_R, PTE_U, PTE_V, PTE_W, PTE_X};
use os::process::{
    brk_done, mapping_done, sys_exit, sys_get_time, sys_mmap, sys_munmap, sys_sbrk, sys_trace,
    sys_yield, user_addr_has_perm, user_range_has_perm, TimeVal,
};
use os::request::{KernelRequest, SyscallStep};

fn user_table() -> PageTable {
    let mut pt = PageTable::new();
    // pages 0x10 and 0x11 readable and writable, page 0x12 read-only,
    // page 0x13 valid but kernel-only
    pt.map(0x10, PageTableEntry { ppn: 0x80010, flags: PTE_V | PTE_R | PTE_W | PTE_U });
    pt.map(0x11, PageTableEntry { ppn: 0x80020, flags: PTE_V | PTE_R | PTE_W | PTE_U });
    pt.map(0x12, PageTableEntry { ppn: 0x80030, flags: PTE_V | PTE_R | PTE_U });
    pt.map(0x13, PageTableEntry { ppn: 0x80040, flags: PTE_V | PTE_R | PTE_W });
    pt.map(0x14, PageTableEntry { ppn: 0x80050, flags: PTE_R | PTE_W | PTE_U });
    pt
}

#[test]
fn exit_and_yield() {
    assert_eq!(sys_exit(3), SyscallStep::RunThenReturn(KernelRequest::ExitCurrent { exit_code: 3 }, -1));
    assert_eq!(sys_exit(-7), SyscallStep::RunThenReturn(KernelRequest::ExitCurrent { exit_code: -7 }, -1));
    assert_eq!(sys_yield(), SyscallStep::RunThenReturn(KernelRequest::SuspendCurrent, 0));
}

#[test]
fn mmap_checks_alignment_and_prot() {
    assert_eq!(sys_mmap(0x1001, 4096, 1), SyscallStep::Return(-1));
    assert_eq!(sys_mmap(0x1000, 4096, 0), SyscallStep::Return(-1));
    assert_eq!(sys_mmap(0x1000, 4096, 8), SyscallStep::Return(-1));
    assert_eq!(sys_mmap(0x1000, 4096, 0xf), SyscallStep::Return(-1));
    assert_eq!(
        sys_mmap(0x1000, 4096, 3),
        SyscallStep::RunThenComplete(KernelRequest::Mmap {
            start: 0x1000,
            len: 4096,
            perm: MapPermission { r: true, w: true, x: false, u: true },
        })
    );
    assert_eq!(
        sys_mmap(0x2000, 10, 4),
        SyscallStep::RunThenComplete(KernelRequest::Mmap {
            start: 0x2000,
            len: 10,
            perm: MapPermission { r: false, w: false, x: true, u: true },
        })
    );
    assert_eq!(
        sys_mmap(0, 1, 7),
        SyscallStep::RunThenComplete(KernelRequest::Mmap {
            start: 0,
            len: 1,
            perm: MapPermission { r: true, w: true, x: true, u: true },
        })
    );
}

#[test]
fn munmap_checks_alignment() {
    assert_eq!(sys_munmap(0x1234, 4096), SyscallStep::Return(-1));
    assert_eq!(sys_munmap(0x3000, 4096), SyscallStep::RunThenComplete(KernelRequest::Munmap { start: 0x3000, len: 4096 }));
}

#[test]
fn mapping_and_brk_results() {
    assert_eq!(mapping_done(true), 0);
    assert_eq!(mapping_done(false), -1);
    assert_eq!(sys_sbrk(-16), SyscallStep::RunThenComplete(KernelRequest::ChangeBrk { size: -16 }));
    assert_eq!(brk_done(Some(0x8000)), 0x8000);
    assert_eq!(brk_done(None), -1);
}

#[test]
fn addr_permissions() {
    let pt = user_table();
    assert!(user_addr_has_perm(&pt, 0x10_123, PTE_R));
    assert!(user_addr_has_perm(&pt, 0x10_123, PTE_W));
    assert!(!user_addr_has_perm(&pt, 0x12_000, PTE_W));
    assert!(user_addr_has_perm(&pt, 0x12_fff, PTE_R));
    assert!(!user_addr_has_perm(&pt, 0x12_000, PTE_X));
    assert!(!user_addr_has_perm(&pt, 0x13_000, PTE_R));
    assert!(!user_addr_has_perm(&pt, 0x14_000, PTE_R));
    assert!(!user_addr_has_perm(&pt, 0x20_000, PTE_R));
    // only the low 39 bits of an address count
    assert!(user_addr_has_perm(&pt, (1usize << 39) + 0x10_000, PTE_R));
}

#[test]
fn range_permissions() {
    let pt = user_table();
    assert!(user_range_has_perm(&pt, 0x10_ff0, 0x20, PTE_W));
    assert!(!user_range_has_perm(&pt, 0x11_ff0, 0x20, PTE_W));
    assert!(user_range_has_perm(&pt, 0x11_ff0, 0x20, PTE_R));
    assert!(user_range_has_perm(&pt, 0x10_000, 0x2000, PTE_W));
    assert!(!user_range_has_perm(&pt, 0x10_000, 0x2001, PTE_W));
    assert!(user_range_has_perm(&pt, 0x99_999, 0, PTE_W));
    assert!(!user_range_has_perm(&pt, usize::MAX, 2, PTE_R));
}

#[test]
fn get_time_writes_to_writable_buffer() {
    let pt = user_table();
    assert_eq!(
        sys_get_time(&pt, 0x10_100, 0, 3_250_000),
        SyscallStep::RunThenReturn(KernelRequest::CopyTimeVal { ts: 0x10_100, tv: TimeVal { sec: 3, usec: 250_000 } }, 0)
    );
    assert_eq!(sys_get_time(&pt, 0x12_000, 0, 5), SyscallStep::Return(-1));
    // a buffer that straddles a writable and a read-only page
    assert_eq!(sys_get_time(&pt, 0x11_ff8, 0, 5), SyscallStep::Return(-1));
    assert_eq!(
        sys_get_time(&pt, 0x10_ff8, 0, 999_999),
        SyscallStep::RunThenReturn(KernelRequest::CopyTimeVal { ts: 0x10_ff8, tv: TimeVal { sec: 0, usec: 999_999 } }, 0)
    );
}

#[test]
fn trace_requests() {
    let pt = user_table();
    assert_eq!(
        sys_trace(&pt, 0, 0x12_345, 0),
        SyscallStep::RunForResult(KernelRequest::ReadPhysByte { pa: 0x80030_345 })
    );
    assert_eq!(sys_trace(&pt, 0, 0x13_000, 0), SyscallStep::Return(-1));
    assert_eq!(
        sys_trace(&pt, 1, 0x10_001, 0x1ff),
        SyscallStep::RunThenReturn(KernelRequest::WritePhysByte { pa: 0x80010_001, value: 0xff }, 0)
    );
    assert_eq!(sys_trace(&pt, 1, 0x12_000, 1), SyscallStep::Return(-1));
    assert_eq!(sys_trace(&pt, 2, 64, 0), SyscallStep::RunForResult(KernelRequest::SyscallCount { id: 64 }));
    assert_eq!(sys_trace(&pt, 3, 0x10_000, 0), SyscallStep::Return(-1));
}

#[test]
fn one_byte_range_is_the_page_check() {
    let pt = user_table();
    for addr in [0x10_000usize, 0x11_fff, 0x12_800, 0x13_000, 0x14_000, 0x77_000] {
        for perm in [PTE_R, PTE_W] {
            assert_eq!(user_range_has_perm(&pt, addr, 1, perm), user_addr_has_perm(&pt, addr, perm));
        }
    }
}

#[test]
fn range_wrapping_past_address_space_is_refused() {
    let pt = user_table();
    let top = 1usize << 39;
    assert!(!user_range_has_perm(&pt, top - 0x10, 0x20, PTE_R));
}

#[test]
fn traced_read_targets_the_written_byte() {
    let pt = user_table();
    let write = sys_trace(&pt, 1, 0x11_0a0, 0x1234);
    let read = sys_trace(&pt, 0, 0x11_0a0, 0);
    match (write, read) {
        (
            SyscallStep::RunThenReturn(KernelRequest::WritePhysByte { pa: wpa, value }, 0),
            SyscallStep::RunForResult(KernelRequest::ReadPhysByte { pa: rpa }),
        ) => {
            assert_eq!(wpa, rpa);
            assert_eq!(value, 0x34);
        },
        _ => panic!("unexpected trace steps"),
    }
}
