use vstd::prelude::*;
use crate::mm::MapPermission;
use crate::process::TimeVal;

verus! {

/// Work that a syscall asks the kernel to do on behalf of the current thread.
#[derive(Copy, Clone, Debug, PartialEq, Eq, Structural)]
pub enum KernelRequest {
    /// Exit the current task with `exit_code` and run the next one.
    ExitCurrent { exit_code: i32 },
    /// Suspend the current task and run the next one.
    SuspendCurrent,
    /// Register a timer that wakes the current task at `expire_ms`, then block it.
    Sleep { expire_ms: usize },
    /// Map `len` bytes at `start` into the current address space.
    Mmap { start: usize, len: usize, perm: MapPermission },
    /// Unmap `len` bytes at `start` from the current address space.
    Munmap { start: usize, len: usize },
    /// Move the program break by `size` bytes.
    ChangeBrk { size: i32 },
    /// Lock the mutex `mutex_id` (may block).
    MutexLock { mutex_id: usize },
    /// Unlock the mutex `mutex_id`.
    MutexUnlock { mutex_id: usize },
    /// Release one resource of semaphore `sem_id`.
    SemaphoreUp { sem_id: usize },
    /// Acquire one resource of semaphore `sem_id` (may block).
    SemaphoreDown { sem_id: usize },
    /// Wake one thread waiting on condition variable `condvar_id`.
    CondvarSignal { condvar_id: usize },
    /// Wait on condition variable `condvar_id`, releasing mutex `mutex_id` meanwhile.
    CondvarWait { condvar_id: usize, mutex_id: usize },
    /// Copy `tv` to the user buffer at virtual address `ts`.
    CopyTimeVal { ts: usize, tv: TimeVal },
    /// Read the byte at physical address `pa`.
    ReadPhysByte { pa: usize },
    /// Write `value` to the byte at physical address `pa`.
    WritePhysByte { pa: usize, value: u8 },
    /// Count how many times the current task has issued syscall `id`.
    SyscallCount { id: usize },
}

/// What a syscall hands back to the kernel.
#[derive(Copy, Clone, Debug, PartialEq, Eq, Structural)]
pub enum SyscallStep {
    /// The syscall is over: return this value to user space.
    Return(isize),
    /// Perform the request, then return the value to user space.
    RunThenReturn(KernelRequest, isize),
    /// Perform the request, then hand its outcome to the matching completion
    /// function, whose result is returned to user space.
    RunThenComplete(KernelRequest),
    /// Perform the request; what it yields is returned to user space.
    RunForResult(KernelRequest),
}

} // verus!
