//! The user registers that a trap saves.

use vstd::prelude::*;

verus! {

/// Index of the stack pointer among the general registers.
pub const REG_SP: usize = 2;

/// Index of the register that carries a system call's result, and its
/// first argument.
pub const REG_RET: usize = 10;

/// Index of the register that carries the number of a system call.
pub const REG_SYSCALL: usize = 17;

/// The user-mode registers of a task, as saved when it trapped into the
/// kernel.
#[derive(Clone, Copy, Debug)]
pub struct TrapContext {
    /// The general registers.
    pub x: [usize; 32],
    /// The address at which user code resumes.
    pub sepc: usize,
}

/// The mathematical content of a trap context.
pub struct TrapView {
    pub x: Seq<usize>,
    pub sepc: usize,
}

impl View for TrapContext {
    type V = TrapView;

    open spec fn view(&self) -> TrapView {
        TrapView { x: self.x@, sepc: self.sepc }
    }
}

impl TrapView {
    /// The registers of a program about to start at `entry` on the stack
    /// `sp`: all zero but the stack pointer.
    pub open spec fn initial(entry: usize, sp: usize) -> TrapView {
        TrapView { x: Seq::new(32, |i: int| if i == REG_SP { sp } else { 0usize }), sepc: entry }
    }

    /// The number of the system call that these registers ask for.
    pub open spec fn syscall_id(self) -> usize {
        self.x[REG_SYSCALL as int]
    }

    /// The three arguments of the system call that these registers ask
    /// for.
    pub open spec fn syscall_args(self) -> Seq<usize> {
        self.x.subrange(REG_RET as int, REG_RET + 3)
    }

    /// These registers with `value` as the result of the system call.
    pub open spec fn returning(self, value: usize) -> TrapView {
        TrapView { x: self.x.update(REG_RET as int, value), sepc: self.sepc }
    }
}

impl TrapContext {
    /// The registers of a program about to start at `entry` on the stack
    /// `sp`.
    pub fn app_init_context(entry: usize, sp: usize) -> (cx: TrapContext)
        ensures
            cx@ == TrapView::initial(entry, sp),
    {
        let mut x = [0usize; 32];
        x[REG_SP] = sp;
        let cx = TrapContext { x, sepc: entry };
        assert(cx@.x =~= TrapView::initial(entry, sp).x);
        cx
    }

    /// The number of the system call that these registers ask for.
    pub fn syscall_id(&self) -> (id: usize)
        ensures
            id == self@.syscall_id(),
    {
        self.x[REG_SYSCALL]
    }

    /// The three arguments of the system call that these registers ask
    /// for.
    pub fn syscall_args(&self) -> (args: [usize; 3])
        ensures
            args@ == self@.syscall_args(),
    {
        let args = [self.x[REG_RET], self.x[REG_RET + 1], self.x[REG_RET + 2]];
        assert(args@ =~= self@.syscall_args());
        args
    }

    /// Makes `value` the result that the task finds when it resumes.
    pub fn set_return_value(&mut self, value: usize)
        ensures
            final(self)@ == old(self)@.returning(value),
    {
        self.x[REG_RET] = value;
        assert(self@.x =~= old(self)@.returning(value).x);
    }
}

} // verus!
