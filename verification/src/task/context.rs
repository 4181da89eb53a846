//! The kernel registers that a task switch saves.

use crate::task::kernel::Kernel;
use crate::task::model::Fatal;
use crate::task::model::KernelView;
use vstd::prelude::*;

verus! {

/// Where a task continues when it is next switched to.
#[derive(Clone, Copy, Debug, PartialEq, Eq, Structural)]
pub enum SwitchTarget {
    /// Nowhere: the context was never filled.
    Unset,
    /// The return path of the trap handler, which restores the user
    /// registers.
    TrapReturn,
    /// The first-dispatch routine, which loads the task's program before
    /// it takes the return path.
    FirstDispatch,
}

/// The kernel-mode registers of a task that is not running: where it
/// continues, its kernel stack pointer and the callee-saved registers.
#[derive(Clone, Copy, Debug)]
pub struct TaskContext {
    ra: SwitchTarget,
    sp: usize,
    s: [usize; 12],
}

/// The mathematical content of a task context.
pub struct TaskContextView {
    pub ra: SwitchTarget,
    pub sp: usize,
    pub s: Seq<usize>,
}

impl TaskContextView {
    /// A context that continues at `ra` on the stack `sp`, with cleared
    /// callee-saved registers.
    pub open spec fn fresh(ra: SwitchTarget, sp: usize) -> TaskContextView {
        TaskContextView { ra, sp, s: Seq::new(12, |i: int| 0usize) }
    }
}

impl View for TaskContext {
    type V = TaskContextView;

    closed spec fn view(&self) -> TaskContextView {
        TaskContextView { ra: self.ra, sp: self.sp, s: self.s@ }
    }
}

impl TaskContext {
    /// A context with every register cleared.
    pub fn zero_init() -> (cx: TaskContext)
        ensures
            cx@ == TaskContextView::fresh(SwitchTarget::Unset, 0),
    {
        let cx = TaskContext { ra: SwitchTarget::Unset, sp: 0, s: [0; 12] };
        assert(cx@.s =~= TaskContextView::fresh(SwitchTarget::Unset, 0).s);
        cx
    }

    /// A context that continues on the trap handler's return path, on the
    /// kernel stack `kstack_ptr`.
    pub fn goto_trap_return(kstack_ptr: usize) -> (cx: TaskContext)
        ensures
            cx@ == TaskContextView::fresh(SwitchTarget::TrapReturn, kstack_ptr),
    {
        let cx = TaskContext { ra: SwitchTarget::TrapReturn, sp: kstack_ptr, s: [0; 12] };
        assert(cx@.s =~= TaskContextView::fresh(SwitchTarget::TrapReturn, kstack_ptr).s);
        cx
    }

    /// A context that continues in the first-dispatch routine, on the
    /// kernel stack `kstack_ptr`.
    pub fn goto_trap_exec(kstack_ptr: usize) -> (cx: TaskContext)
        ensures
            cx@ == TaskContextView::fresh(SwitchTarget::FirstDispatch, kstack_ptr),
    {
        let cx = TaskContext { ra: SwitchTarget::FirstDispatch, sp: kstack_ptr, s: [0; 12] };
        assert(cx@.s =~= TaskContextView::fresh(SwitchTarget::FirstDispatch, kstack_ptr).s);
        cx
    }

    /// Where the task continues.
    pub fn target(&self) -> (ra: SwitchTarget)
        ensures
            ra == self@.ra,
    {
        self.ra
    }

    /// The kernel stack pointer.
    pub fn stack_pointer(&self) -> (sp: usize)
        ensures
            sp == self@.sp,
    {
        self.sp
    }
}

/// What becomes of the kernel when its current task, spawned to run a
/// program, is dispatched for the first time: it loads the program, or,
/// if the program is not there any more, exits with the code 1.
pub open spec fn first_dispatch(v: KernelView) -> KernelView {
    match v.image(v.running().pending_exec_path.unwrap()) {
        Some(image) => v.after_first_exec(image),
        None => v.after_first_miss().after_exit(1),
    }
}

/// The first dispatch of a spawned task: the current task loads the
/// program it was spawned for and goes on to the trap handler's return
/// path. If the program is not there any more, the task exits with the
/// code 1 and the head of the run queue gets the processor. Returns the
/// pid of the task that runs now; with an empty run queue the kernel
/// cannot go on.
pub fn trap_exec(kernel: &mut Kernel) -> (r: Result<usize, Fatal>)
    requires
        old(kernel).wf(),
        old(kernel)@.current is Some,
        old(kernel)@.running().pending_exec_path is Some,
    ensures
        final(kernel).wf(),
        final(kernel).changed(old(kernel), old(kernel)@.current.unwrap()),
        final(kernel)@ == first_dispatch(old(kernel)@),
        r == match final(kernel)@.current {
            Some(pid) => Ok::<usize, Fatal>(pid),
            None => Err::<usize, Fatal>(Fatal::RunQueueEmpty),
        },
{
    if kernel.first_exec() {
        match kernel.current_pid() {
            Some(pid) => Ok(pid),
            None => Err(Fatal::RunQueueEmpty),
        }
    } else {
        match kernel.exit_current(1) {
            Some(pid) => Ok(pid),
            None => Err(Fatal::RunQueueEmpty),
        }
    }
}

} // verus!
