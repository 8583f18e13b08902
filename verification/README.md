# os

The verified core of a small RISC-V teaching kernel's process syscalls.

- `src/sync.rs`: a process's mutexes, semaphores and condition variables,
  and the syscalls that create and use them, with deadlock detection.
- `src/wait_graph.rs`: cycle detection in the mutex wait-for graph.
- `src/banker.rs`: the banker's safety check on the semaphore state.
- `src/manager.rs`: the stride scheduler's ready queue.
- `src/process.rs`, `src/mm.rs`: exit, yield, time, trace, mmap, munmap
  and sbrk, with user page permission checks.
- `src/request.rs`: what a syscall asks the kernel to do (block, map,
  copy out) and how it finishes once that is done.
- `src/laws.rs`: properties that relate several syscalls.
- `app/`: the global ready queue.

A syscall that needs the running kernel (blocking, timers, page tables in
memory) returns a `SyscallStep`; the kernel performs the request and, where
the step says so, hands the outcome to the matching completion function.
