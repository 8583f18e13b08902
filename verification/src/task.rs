use vstd::prelude::*;

verus! {

/// Per-task syscall counters used by `sys_trace`.
#[derive(Copy, Clone, Debug)]
pub struct SyscallCounter {
    /// Number of `write` syscalls issued by the task.
    pub write: usize,
    /// Number of `exit` syscalls issued by the task.
    pub exit: usize,
    /// Number of `yield` syscalls issued by the task.
    pub yield_: usize,
    /// Number of `get_time` syscalls issued by the task.
    pub get_time: usize,
    /// Number of `trace` syscalls issued by the task.
    pub trace: usize,
}

/// The status of a task
#[derive(Copy, Clone, Debug, PartialEq, Eq, Structural)]
pub enum TaskStatus {
    /// uninitialized
    UnInit,
    /// ready to run
    Ready,
    /// running
    Running,
    /// exited
    Exited,
}

/// The registers saved when a task is switched out: the return address,
/// the stack pointer and the callee-saved registers `s0`..`s11`.
#[derive(Copy, Clone, Debug)]
pub struct TaskContext {
    /// Return address.
    pub ra: usize,
    /// Stack pointer.
    pub sp: usize,
    /// Callee-saved registers.
    pub s: [usize; 12],
}

/// The task control block (TCB) of a task.
#[derive(Copy, Clone, Debug)]
pub struct TaskControlBlock {
    /// The task status in it's lifecycle
    pub task_status: TaskStatus,
    /// The task context
    pub task_cx: TaskContext,
    /// How many syscalls of each kind the task has issued
    pub syscall_counter: SyscallCounter,
    /// Scheduling priority; the stride grows by `BIG_STRIDE / priority` per turn.
    pub priority: usize,
    /// Stride-scheduling pass value: the task with the least stride runs next.
    pub stride: usize,
}

} // verus!
