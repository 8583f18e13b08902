//! Verified core of a teaching kernel's process syscalls: the bookkeeping
//! of mutexes, semaphores and condition variables with deadlock detection,
//! a stride scheduler's ready queue, and the argument checks of the
//! memory and time syscalls.

pub mod banker;
pub mod laws;
pub mod manager;
pub mod mm;
pub mod process;
pub mod request;
pub mod sync;
pub mod task;
pub mod wait_graph;
