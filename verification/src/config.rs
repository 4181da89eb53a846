//! Sizes and limits shared by the whole kernel.

use vstd::prelude::*;

verus! {

/// Bytes in one page of virtual or physical memory.
pub const PAGE_SIZE: usize = 4096;

/// Number of slots in a task's table of system call counters.
pub const MAX_SYSCALL_NUM: usize = 500;

/// Upper bound on process identifiers: every pid is below this value.
pub const MAX_TASKS: usize = 65536;

/// Bytes in one kernel stack.
pub const KERNEL_STACK_SIZE: usize = 8192;

/// Address just above the kernel stack of the task with pid 0.
pub const KERNEL_STACK_BASE: usize = 0xFFFF_F000;

} // verus!
