//! Process management and virtual memory for a small single-core kernel.
//!
//! The kernel is an explicit value, [`task::Kernel`]: a task table, the
//! running task, a FIFO run queue, a pool of physical frames, a table of
//! program images and a clock. System calls are functions from that state
//! to its successor; every one of them carries a contract over the
//! mathematical view of the state.

pub mod config;
pub mod laws;
pub mod loader;
pub mod mm;
pub mod syscall;
pub mod task;
