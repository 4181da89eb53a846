//! The system call layer: the calls themselves, and the dispatch that
//! finds the call for a number, counts it and hands its result to the
//! caller.

pub mod process;

use crate::syscall::process::exec_outcome;
use crate::syscall::process::fork_outcome;
use crate::syscall::process::mmap_outcome;
use crate::syscall::process::munmap_outcome;
use crate::syscall::process::spawn_fails;
use crate::syscall::process::spawn_outcome;
use crate::syscall::process::store_outcome;
use crate::syscall::process::sys_exec;
use crate::syscall::process::sys_exit;
use crate::syscall::process::sys_fork;
use crate::syscall::process::sys_get_time;
use crate::syscall::process::sys_getpid;
use crate::syscall::process::sys_mmap;
use crate::syscall::process::sys_munmap;
use crate::syscall::process::sys_sbrk;
use crate::syscall::process::sys_set_priority;
use crate::syscall::process::sys_spawn;
use crate::syscall::process::sys_task_info;
use crate::syscall::process::sys_waitpid;
use crate::syscall::process::sys_yield;
use crate::syscall::process::task_info_bytes;
use crate::syscall::process::time_val;
use crate::syscall::process::time_val_bytes;
use crate::syscall::process::waitpid_outcome;
use crate::syscall::process::FAILED;
use crate::task::kernel::Kernel;
use crate::task::model::Fatal;
use crate::task::model::KernelView;
use crate::task::tcb::TaskStatus;
use crate::task::tcb::TaskView;
use crate::task::trap::TrapContext;
use vstd::prelude::*;

verus! {

pub const SYSCALL_EXIT: usize = 93;

pub const SYSCALL_YIELD: usize = 124;

pub const SYSCALL_SET_PRIORITY: usize = 140;

pub const SYSCALL_GET_TIME: usize = 169;

pub const SYSCALL_GETPID: usize = 172;

pub const SYSCALL_SBRK: usize = 214;

pub const SYSCALL_MUNMAP: usize = 215;

pub const SYSCALL_FORK: usize = 220;

pub const SYSCALL_EXEC: usize = 221;

pub const SYSCALL_MMAP: usize = 222;

pub const SYSCALL_WAITPID: usize = 260;

pub const SYSCALL_SPAWN: usize = 400;

pub const SYSCALL_TASK_INFO: usize = 410;

/// How a system call ended.
#[derive(Clone, Copy, Debug, PartialEq, Eq, Structural)]
pub enum Served {
    /// The call returned this value; it stands in the result register of
    /// the caller.
    Returned(isize),
    /// The caller exited; the task with the given pid runs now.
    Exited(usize),
    /// The caller exited and the run queue is empty: no task can ever run
    /// again.
    Halted,
}

/// `r` is what the call `id` with the arguments `args` returns in the
/// kernel `v`. A number that names no call returns -1.
pub open spec fn call_returns(v: KernelView, id: usize, args: Seq<usize>, r: isize) -> bool {
    if id == SYSCALL_YIELD {
        r == 0
    } else if id == SYSCALL_GETPID {
        r == v.current.unwrap()
    } else if id == SYSCALL_FORK {
        if v.has_free_pid() {
            r >= 0 && v.is_free_pid(r as usize)
        } else {
            r == FAILED
        }
    } else if id == SYSCALL_EXEC {
        r == exec_outcome(v, args[0]).1
    } else if id == SYSCALL_WAITPID {
        r == waitpid_outcome(v, args[0] as isize, args[1]).1
    } else if id == SYSCALL_GET_TIME {
        r == store_outcome(v, args[0], time_val_bytes(time_val(v.clock_us))).1
    } else if id == SYSCALL_TASK_INFO {
        r == store_outcome(
            v,
            args[0],
            task_info_bytes(TaskStatus::Running, v.running().syscall_count, v.elapsed_ms()),
        ).1
    } else if id == SYSCALL_MMAP {
        r == mmap_outcome(v, args[0], args[1], args[2]).1
    } else if id == SYSCALL_MUNMAP {
        r == munmap_outcome(v, args[0], args[1]).1
    } else if id == SYSCALL_SBRK {
        match v.brk_outcome(args[0] as i32).1 {
            Some(brk) => r == brk,
            None => r == FAILED,
        }
    } else if id == SYSCALL_SPAWN {
        if spawn_fails(v, args[0]) {
            r == FAILED
        } else {
            r >= 0 && v.is_free_pid(r as usize)
        }
    } else {
        r == FAILED
    }
}

/// The kernel after the call `id` with the arguments `args` returned `r`,
/// before the caller got its result.
pub open spec fn after_call(v: KernelView, id: usize, args: Seq<usize>, r: isize) -> KernelView {
    if id == SYSCALL_YIELD {
        v.after_yield()
    } else if id == SYSCALL_FORK {
        fork_outcome(v, r)
    } else if id == SYSCALL_EXEC {
        exec_outcome(v, args[0]).0
    } else if id == SYSCALL_WAITPID {
        waitpid_outcome(v, args[0] as isize, args[1]).0
    } else if id == SYSCALL_GET_TIME {
        store_outcome(v, args[0], time_val_bytes(time_val(v.clock_us))).0
    } else if id == SYSCALL_TASK_INFO {
        store_outcome(
            v,
            args[0],
            task_info_bytes(TaskStatus::Running, v.running().syscall_count, v.elapsed_ms()),
        ).0
    } else if id == SYSCALL_MMAP {
        mmap_outcome(v, args[0], args[1], args[2]).0
    } else if id == SYSCALL_MUNMAP {
        munmap_outcome(v, args[0], args[1]).0
    } else if id == SYSCALL_SBRK {
        v.brk_outcome(args[0] as i32).0
    } else if id == SYSCALL_SPAWN {
        spawn_outcome(v, args[0], r)
    } else {
        v
    }
}

/// What the call `id`, which returned `r`, left of the memory and the
/// frames: a fork or a spawn that succeeded made one task on frames of its
/// own, a call that acts on the memory of its caller changed that memory
/// alone, and every other call kept all memory.
pub open spec fn memory_after(before: &Kernel, after: &Kernel, id: usize, r: isize) -> bool {
    if id == SYSCALL_FORK || id == SYSCALL_SPAWN {
        if r >= 0 {
            after.grown(before, r as usize)
        } else {
            after.kept(before)
        }
    } else if id == SYSCALL_EXEC || id == SYSCALL_WAITPID || id == SYSCALL_GET_TIME || id
        == SYSCALL_TASK_INFO || id == SYSCALL_MMAP || id == SYSCALL_MUNMAP || id == SYSCALL_SBRK {
        after.changed(before, before@.current.unwrap())
    } else {
        after.kept(before)
    }
}

/// Serves the system call `id` of the current task with the arguments
/// `args`: counts the call, makes it, and puts its result into the result
/// register of the caller. A call to exit leaves no result.
pub fn syscall(kernel: &mut Kernel, id: usize, args: [usize; 3]) -> (served: Served)
    requires
        old(kernel).wf(),
        old(kernel)@.current is Some,
    ensures
        final(kernel).wf(),
        match served {
            Served::Returned(r) => memory_after(old(kernel), final(kernel), id, r),
            _ => final(kernel).changed(old(kernel), old(kernel)@.current.unwrap()),
        },
        match served {
            Served::Returned(r) => id != SYSCALL_EXIT && call_returns(
                old(kernel)@.after_count(id),
                id,
                args@,
                r,
            ) && final(kernel)@ == after_call(
                old(kernel)@.after_count(id),
                id,
                args@,
                r,
            ).with_result(old(kernel)@.current.unwrap(), r),
            Served::Exited(next) => id == SYSCALL_EXIT && final(kernel)@ == old(kernel)@.after_count(
                id,
            ).after_exit(args[0] as i32) && final(kernel)@.current == Some(next),
            Served::Halted => id == SYSCALL_EXIT && final(kernel)@ == old(kernel)@.after_count(
                id,
            ).after_exit(args[0] as i32) && final(kernel)@.current is None,
        },
{
    let caller = match kernel.current_pid() {
        Some(pid) => pid,
        None => 0,
    };
    kernel.count_syscall(id);
    proof {
        old(kernel).lemma_view_wf();
        assert(old(kernel)@.has(caller));
    }
    let ghost counted = kernel@;
    let ghost first = *kernel;
    proof {
        assert forall|q: usize| old(kernel)@.has(q) <==> #[trigger] first@.has(q) by {}
    }
    let r = if id == SYSCALL_EXIT {
        let r = sys_exit(kernel, #[verifier::truncate] (args[0] as i32));
        proof {
            kernel.lemma_kept_then_changed(&first, old(kernel), caller);
        }
        return match r {
            Ok(next) => Served::Exited(next),
            Err(Fatal::RunQueueEmpty) => Served::Halted,
        };
    } else if id == SYSCALL_YIELD {
        sys_yield(kernel)
    } else if id == SYSCALL_GETPID {
        sys_getpid(kernel)
    } else if id == SYSCALL_FORK {
        sys_fork(kernel)
    } else if id == SYSCALL_EXEC {
        sys_exec(kernel, args[0])
    } else if id == SYSCALL_WAITPID {
        sys_waitpid(kernel, #[verifier::truncate] (args[0] as isize), args[1])
    } else if id == SYSCALL_GET_TIME {
        sys_get_time(kernel, args[0], args[1])
    } else if id == SYSCALL_TASK_INFO {
        sys_task_info(kernel, args[0])
    } else if id == SYSCALL_MMAP {
        sys_mmap(kernel, args[0], args[1], args[2])
    } else if id == SYSCALL_MUNMAP {
        sys_munmap(kernel, args[0], args[1])
    } else if id == SYSCALL_SBRK {
        sys_sbrk(kernel, #[verifier::truncate] (args[0] as i32))
    } else if id == SYSCALL_SPAWN {
        sys_spawn(kernel, args[0])
    } else if id == SYSCALL_SET_PRIORITY {
        sys_set_priority(#[verifier::truncate] (args[0] as isize))
    } else {
        -1
    };
    proof {
        assert(call_returns(counted, id, args@, r));
        assert(kernel@ == after_call(counted, id, args@, r));
    }
    let ghost made = *kernel;
    kernel.set_result(caller, r);
    proof {
        first.lemma_view_wf();
        made.lemma_view_wf();
        assert forall|q: usize| made@.has(q) <==> #[trigger] kernel@.has(q) by {}
        if (id == SYSCALL_FORK || id == SYSCALL_SPAWN) && r >= 0 {
            assert(made@.has(r as usize));
            assert forall|q: usize| first@.has(q) implies #[trigger] made@.has(q) by {}
            kernel.lemma_grown_between_kept(&made, &first, old(kernel), r as usize);
        } else if id == SYSCALL_EXEC || id == SYSCALL_WAITPID || id == SYSCALL_GET_TIME || id
            == SYSCALL_TASK_INFO || id == SYSCALL_MMAP || id == SYSCALL_MUNMAP || id
            == SYSCALL_SBRK {
            assert(made@.has(caller));
            made.lemma_kept_then_changed(&first, old(kernel), caller);
            kernel.lemma_changed_then_kept(&made, old(kernel), caller);
        } else {
            made.lemma_kept_then_kept(&first, old(kernel));
            kernel.lemma_kept_then_kept(&made, old(kernel));
        }
    }
    Served::Returned(r)
}

/// The kernel after a trap saved the user registers `cx` of the current
/// task.
pub open spec fn trapped(v: KernelView, cx: TrapContext) -> KernelView {
    v.with_running(TaskView { trap_cx: cx@, ..v.running() })
}

/// Handles the trap of a system call: the user registers `cx` of the
/// current task overwrite its saved ones, and the call that they ask for
/// is served with the arguments that they hold.
pub fn trap_syscall(kernel: &mut Kernel, cx: TrapContext) -> (served: Served)
    requires
        old(kernel).wf(),
        old(kernel)@.current is Some,
    ensures
        final(kernel).wf(),
        match served {
            Served::Returned(r) => cx@.syscall_id() != SYSCALL_EXIT && call_returns(
                trapped(old(kernel)@, cx).after_count(cx@.syscall_id()),
                cx@.syscall_id(),
                cx@.syscall_args(),
                r,
            ) && final(kernel)@ == after_call(
                trapped(old(kernel)@, cx).after_count(cx@.syscall_id()),
                cx@.syscall_id(),
                cx@.syscall_args(),
                r,
            ).with_result(old(kernel)@.current.unwrap(), r) && memory_after(
                old(kernel),
                final(kernel),
                cx@.syscall_id(),
                r,
            ),
            _ => cx@.syscall_id() == SYSCALL_EXIT && final(kernel)@ == trapped(
                old(kernel)@,
                cx,
            ).after_count(cx@.syscall_id()).after_exit(cx@.syscall_args()[0] as i32)
                && final(kernel).changed(old(kernel), old(kernel)@.current.unwrap()) && (served
                == Served::Halted <==> final(kernel)@.current is None) && (served
                matches Served::Exited(next) ==> final(kernel)@.current == Some(next)),
        },
{
    let id = cx.syscall_id();
    let args = cx.syscall_args();
    kernel.save_trap_context(cx);
    let ghost saved = *kernel;
    proof {
        old(kernel).lemma_view_wf();
        let c = old(kernel)@.current.unwrap();
        assert(old(kernel)@.has(c));
        assert forall|q: usize| old(kernel)@.has(q) <==> #[trigger] saved@.has(q) by {}
    }
    let served = syscall(kernel, id, args);
    proof {
        let c = old(kernel)@.current.unwrap();
        match served {
            Served::Returned(r) => {
                if (id == SYSCALL_FORK || id == SYSCALL_SPAWN) && r >= 0 {
                    assert forall|q: usize| old(kernel)@.has(q) && kernel@.has(q) implies #[trigger] kernel.space_of(
                    q) == old(kernel).space_of(q) by {
                        assert(saved@.has(q));
                        assert(saved.space_of(q) == old(kernel).space_of(q));
                    }
                } else if id == SYSCALL_EXEC || id == SYSCALL_WAITPID || id == SYSCALL_GET_TIME
                    || id == SYSCALL_TASK_INFO || id == SYSCALL_MMAP || id == SYSCALL_MUNMAP || id
                    == SYSCALL_SBRK {
                    kernel.lemma_kept_then_changed(&saved, old(kernel), c);
                } else {
                    assert forall|q: usize| old(kernel)@.has(q) && kernel@.has(q) implies #[trigger] kernel.space_of(
                    q) == old(kernel).space_of(q) by {
                        assert(saved@.has(q));
                        assert(saved.space_of(q) == old(kernel).space_of(q));
                    }
                }
            },
            _ => {
                kernel.lemma_kept_then_changed(&saved, old(kernel), c);
            },
        }
    }
    served
}

} // verus!
