//! The task control block.

use crate::config::MAX_SYSCALL_NUM;
use crate::mm::space::AddressSpace;
use crate::mm::space::SpaceView;
use crate::task::context::TaskContext;
use crate::task::context::TaskContextView;
use crate::task::trap::TrapContext;
use crate::task::trap::TrapView;
use vstd::prelude::*;

verus! {

/// Where a task stands in its life.
#[derive(Clone, Copy, Debug, PartialEq, Eq, Structural)]
pub enum TaskStatus {
    /// Waiting in the run queue.
    Ready,
    /// On the processor.
    Running,
    /// Terminated; its exit code waits for the parent to collect it.
    Zombie,
}

/// Everything the kernel keeps about one task.
pub struct Task {
    pub(crate) pid: usize,
    pub(crate) status: TaskStatus,
    pub(crate) parent: Option<usize>,
    pub(crate) children: Vec<usize>,
    pub(crate) space: AddressSpace,
    pub(crate) trap_cx: TrapContext,
    pub(crate) task_cx: TaskContext,
    pub(crate) syscall_count: Vec<u32>,
    pub(crate) running_time: Option<u64>,
    pub(crate) exit_code: i32,
    pub(crate) pending_exec_path: Option<Vec<u8>>,
    pub(crate) heap_bottom: usize,
    pub(crate) program_brk: usize,
}

/// The mathematical content of a task.
pub struct TaskView {
    /// The process identifier.
    pub pid: usize,
    pub status: TaskStatus,
    /// The pid of the task that created this one, while that task lives.
    pub parent: Option<usize>,
    /// The pids of the tasks this one created and has not collected, in
    /// the order of their creation.
    pub children: Seq<usize>,
    pub space: SpaceView,
    pub trap_cx: TrapView,
    pub task_cx: TaskContextView,
    /// How often each system call was made, by its number.
    pub syscall_count: Seq<u32>,
    /// The clock, in milliseconds, when the task was first dispatched.
    pub running_time: Option<u64>,
    /// Meaningful once the task is a zombie.
    pub exit_code: i32,
    /// The name of the program that the first dispatch will load.
    pub pending_exec_path: Option<Seq<u8>>,
    /// The lowest value of the program break.
    pub heap_bottom: usize,
    /// The program break.
    pub program_brk: usize,
}

/// A table of system call counters that are all zero.
pub open spec fn no_calls() -> Seq<u32> {
    Seq::new(MAX_SYSCALL_NUM as nat, |i: int| 0u32)
}

impl View for Task {
    type V = TaskView;

    closed spec fn view(&self) -> TaskView {
        TaskView {
            pid: self.pid,
            status: self.status,
            parent: self.parent,
            children: self.children@,
            space: self.space@,
            trap_cx: self.trap_cx@,
            task_cx: self.task_cx@,
            syscall_count: self.syscall_count@,
            running_time: self.running_time,
            exit_code: self.exit_code,
            pending_exec_path: match self.pending_exec_path {
                Some(path) => Some(path@),
                None => None,
            },
            heap_bottom: self.heap_bottom,
            program_brk: self.program_brk,
        }
    }
}

impl Task {
    /// The process identifier.
    pub fn pid(&self) -> (r: usize)
        ensures
            r == self@.pid,
    {
        self.pid
    }

    pub fn status(&self) -> (r: TaskStatus)
        ensures
            r == self@.status,
    {
        self.status
    }

    /// The pid of the parent, while the parent lives.
    pub fn parent(&self) -> (r: Option<usize>)
        ensures
            r == self@.parent,
    {
        self.parent
    }

    /// The pids of the children that are not collected, in the order of
    /// their creation.
    pub fn children(&self) -> (r: &Vec<usize>)
        ensures
            r@ == self@.children,
    {
        &self.children
    }

    /// The memory of the task is well formed.
    pub closed spec fn sound(&self) -> bool {
        self.space.wf()
    }

    /// The memory of the task, with the frames behind it.
    pub closed spec fn memory(&self) -> AddressSpace {
        self.space
    }

    /// The memory of the task.
    pub fn space(&self) -> (r: &AddressSpace)
        ensures
            *r == self.memory(),
            r@ == self@.space,
            self.sound() ==> r.wf(),
    {
        &self.space
    }

    /// The saved user registers.
    pub fn trap_cx(&self) -> (r: &TrapContext)
        ensures
            r@ == self@.trap_cx,
    {
        &self.trap_cx
    }

    /// The saved kernel registers.
    pub fn task_cx(&self) -> (r: &TaskContext)
        ensures
            r@ == self@.task_cx,
    {
        &self.task_cx
    }

    /// How often each system call was made, by its number.
    pub fn syscall_count(&self) -> (r: &Vec<u32>)
        ensures
            r@ == self@.syscall_count,
    {
        &self.syscall_count
    }

    /// The clock, in milliseconds, when the task was first dispatched.
    pub fn running_time(&self) -> (r: Option<u64>)
        ensures
            r == self@.running_time,
    {
        self.running_time
    }

    /// The exit code; it has a meaning once the task is a zombie.
    pub fn exit_code(&self) -> (r: i32)
        ensures
            r == self@.exit_code,
    {
        self.exit_code
    }

    /// Whether the task still has to load the program it was spawned for.
    pub fn awaits_first_dispatch(&self) -> (r: bool)
        ensures
            r == self@.pending_exec_path is Some,
    {
        self.pending_exec_path.is_some()
    }

    /// The program break.
    pub fn program_brk(&self) -> (r: usize)
        ensures
            r == self@.program_brk,
    {
        self.program_brk
    }

    /// What the view of a task holds, field by field.
    pub(crate) proof fn lemma_view(&self)
        ensures
            self.sound() == self.space.wf(),
            self.memory() == self.space,
            self@ == (TaskView {
                pid: self.pid,
                status: self.status,
                parent: self.parent,
                children: self.children@,
                space: self.space@,
                trap_cx: self.trap_cx@,
                task_cx: self.task_cx@,
                syscall_count: self.syscall_count@,
                running_time: self.running_time,
                exit_code: self.exit_code,
                pending_exec_path: match self.pending_exec_path {
                    Some(path) => Some(path@),
                    None => None,
                },
                heap_bottom: self.heap_bottom,
                program_brk: self.program_brk,
            }),
    {
    }
}

/// A table of `MAX_SYSCALL_NUM` counters that are all zero.
pub fn zero_counters() -> (v: Vec<u32>)
    ensures
        v@ == no_calls(),
{
    let mut v: Vec<u32> = Vec::new();
    let mut i: usize = 0;
    while i < MAX_SYSCALL_NUM
        invariant
            i <= MAX_SYSCALL_NUM,
            v.len() == i,
            forall|j: int| 0 <= j < i ==> v[j] == 0,
        decreases MAX_SYSCALL_NUM - i,
    {
        v.push(0);
        i += 1;
    }
    assert(v@ =~= no_calls());
    v
}

} // verus!
