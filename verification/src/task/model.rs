//! The mathematical model of the kernel: its view, what makes a view well
//! formed, and the step that every operation takes on it.

use crate::config::KERNEL_STACK_BASE;
use crate::config::KERNEL_STACK_SIZE;
use crate::config::MAX_SYSCALL_NUM;
use crate::config::MAX_TASKS;
use crate::config::PAGE_SIZE;
use crate::loader::drop_image;
use crate::loader::find_image;
use crate::loader::Image;
use crate::mm::permission::MapPermission;
use crate::mm::space::page_ceil;
use crate::mm::space::with_pages;
use crate::mm::space::without_pages;
use crate::mm::space::SpaceView;
use crate::task::context::SwitchTarget;
use crate::task::context::TaskContextView;
use crate::task::tcb::no_calls;
use crate::task::tcb::TaskStatus;
use crate::task::tcb::TaskView;
use crate::task::trap::TrapView;
use vstd::prelude::*;

verus! {

/// Why a wait did not collect a child.
#[derive(Clone, Copy, Debug, PartialEq, Eq, Structural)]
pub enum WaitStatus {
    /// No child of the caller is asked for.
    NoSuchChild,
    /// A child is asked for, but none that is asked for has terminated.
    StillRunning,
}

/// The one condition from which the kernel cannot go on.
#[derive(Clone, Copy, Debug, PartialEq, Eq, Structural)]
pub enum Fatal {
    /// The processor is free and the run queue is empty: no task can ever
    /// run again.
    RunQueueEmpty,
}

/// The top of the kernel stack of the task `pid`.
pub open spec fn kernel_stack_top(pid: usize) -> usize {
    (KERNEL_STACK_BASE - pid * (KERNEL_STACK_SIZE + PAGE_SIZE)) as usize
}

/// The pid by which a wait asks for any child.
pub const ANY_CHILD: isize = -1;

/// A wait for `pid` asks for the child `child`: `-1` asks for any.
pub open spec fn wanted(pid: isize, child: usize) -> bool {
    pid == ANY_CHILD || pid == child
}

/// The memory and the program break of a task after its break, which was
/// `brk`, moved by `delta` bytes, or `None` when the break cannot move
/// there: when it would leave the heap, which begins at `heap_bottom`, or
/// the addresses that a result can name, or when the pages to map
/// intersect a mapped region. A break that rises maps the pages it
/// reaches, each as a region of its own that user code may read and write;
/// a break that falls unmaps the pages it leaves.
pub open spec fn brk_step(space: SpaceView, heap_bottom: usize, brk: usize, delta: i32) -> Option<
    (SpaceView, usize),
> {
    let new = brk + delta;
    if brk > isize::MAX || new < heap_bottom || new > isize::MAX {
        None
    } else if delta >= 0 {
        let from = page_ceil(brk as int) as usize;
        let to = page_ceil(new) as usize;
        let pages = ((to - from) / (PAGE_SIZE as int)) as nat;
        if pages > 0 && space.overlaps(from, to) {
            None
        } else {
            Some((with_pages(space, from, pages, MapPermission::heap()), new as usize))
        }
    } else {
        let from = page_ceil(new) as usize;
        let to = page_ceil(brk as int) as usize;
        let pages = ((to - from) / (PAGE_SIZE as int)) as nat;
        Some((without_pages(space, from, pages), new as usize))
    }
}

/// The mathematical content of the kernel.
pub struct KernelView {
    /// The living tasks, zombies among them, by pid.
    pub tasks: Map<usize, TaskView>,
    /// The pid of the task on the processor.
    pub current: Option<usize>,
    /// The pids of the tasks that wait for the processor, first come
    /// first.
    pub ready: Seq<usize>,
    /// The clock in microseconds; it never goes back.
    pub clock_us: u64,
    /// The programs that tasks can be started from.
    pub images: Seq<Image>,
}

impl KernelView {
    /// The task `p` lives.
    pub open spec fn has(self, p: usize) -> bool {
        self.tasks.dom().contains(p)
    }

    /// Every task is sound in itself.
    pub open spec fn tasks_wf(self) -> bool {
        forall|p: usize| #[trigger]
            self.has(p) ==> {
                let t = self.tasks[p];
                &&& p < MAX_TASKS
                &&& t.pid == p
                &&& t.parent != Some(p)
                &&& t.space.wf()
                &&& t.syscall_count.len() == MAX_SYSCALL_NUM
                &&& t.children.no_duplicates()
                &&& (t.status == TaskStatus::Zombie ==> t.parent is Some && t.children.len() == 0
                    && t.space == SpaceView::empty())
                &&& (t.running_time matches Some(ms) ==> ms <= self.clock_us / 1000)
                &&& (t.status == TaskStatus::Running ==> t.running_time is Some)
                &&& (t.pending_exec_path is Some <==> t.task_cx.ra == SwitchTarget::FirstDispatch)
            }
    }

    /// At most one task runs, and it is the current one; the run queue
    /// holds exactly the ready tasks, each once.
    pub open spec fn sched_wf(self) -> bool {
        &&& self.current matches Some(c) ==> self.has(c) && self.tasks[c].status
            == TaskStatus::Running
        &&& forall|p: usize| #[trigger]
            self.has(p) && self.tasks[p].status == TaskStatus::Running ==> self.current == Some(p)
        &&& self.ready.no_duplicates()
        &&& forall|i: int|
            0 <= i < self.ready.len() ==> self.has(#[trigger] self.ready[i])
                && self.tasks[self.ready[i]].status == TaskStatus::Ready
        &&& forall|p: usize| #[trigger]
            self.has(p) && self.tasks[p].status == TaskStatus::Ready ==> self.ready.contains(p)
    }

    /// A task's parent lives and lists it as a child; a task's children
    /// live and name it as their parent.
    pub open spec fn family_wf(self) -> bool {
        &&& forall|p: usize| #[trigger]
            self.has(p) ==> (self.tasks[p].parent matches Some(q) ==> self.has(q)
                && self.tasks[q].children.contains(p))
        &&& forall|p: usize, i: int|
            self.has(p) && 0 <= i < self.tasks[p].children.len() ==> self.has(
                #[trigger] self.tasks[p].children[i],
            ) && self.tasks[self.tasks[p].children[i]].parent == Some(p)
    }

    /// The images are well formed.
    pub open spec fn images_wf(self) -> bool {
        forall|i: int| 0 <= i < self.images.len() ==> (#[trigger] self.images[i]).wf()
    }

    pub open spec fn wf(self) -> bool {
        &&& self.tasks_wf()
        &&& self.sched_wf()
        &&& self.family_wf()
        &&& self.images_wf()
    }

    /// The kernel with `t` as the task `p`.
    pub open spec fn with_task(self, p: usize, t: TaskView) -> KernelView {
        KernelView { tasks: self.tasks.insert(p, t), ..self }
    }

    /// The current task.
    pub open spec fn running(self) -> TaskView {
        self.tasks[self.current.unwrap()]
    }

    /// The kernel with `t` as the current task.
    pub open spec fn with_running(self, t: TaskView) -> KernelView {
        self.with_task(self.current.unwrap(), t)
    }

    /// The kernel with `images` as its programs.
    pub open spec fn with_images(self, images: Seq<Image>) -> KernelView {
        KernelView { images, ..self }
    }

    /// The kernel after `image` was added behind its programs.
    pub open spec fn after_register(self, image: Image) -> KernelView {
        self.with_images(self.images.push(image))
    }

    /// The kernel after the first program called `name` was taken away.
    pub open spec fn after_unregister(self, name: Seq<u8>) -> KernelView {
        self.with_images(drop_image(self.images, name))
    }

    /// The kernel after the clock was read as `now_us`.
    pub open spec fn after_tick(self, now_us: u64) -> KernelView {
        KernelView {
            clock_us: if now_us > self.clock_us {
                now_us
            } else {
                self.clock_us
            },
            ..self
        }
    }

    /// The kernel after the processor, which was free, went to the head of
    /// the run queue. With an empty queue it stays free.
    pub open spec fn after_dispatch(self) -> KernelView {
        if self.ready.len() == 0 {
            KernelView { current: None, ..self }
        } else {
            let n = self.ready[0];
            let t = self.tasks[n];
            KernelView {
                tasks: self.tasks.insert(
                    n,
                    TaskView {
                        status: TaskStatus::Running,
                        running_time: Some(
                            match t.running_time {
                                Some(ms) => ms,
                                None => self.clock_us / 1000,
                            },
                        ),
                        ..t
                    },
                ),
                current: Some(n),
                ready: self.ready.drop_first(),
                ..self
            }
        }
    }

    /// The kernel after the current task went to the tail of the run queue
    /// and left the processor.
    pub open spec fn after_suspend(self) -> KernelView {
        let c = self.current.unwrap();
        KernelView {
            tasks: self.tasks.insert(c, TaskView { status: TaskStatus::Ready, ..self.tasks[c] }),
            current: None,
            ready: self.ready.push(c),
            ..self
        }
    }

    /// The kernel after the current task yielded the processor.
    pub open spec fn after_yield(self) -> KernelView {
        self.after_suspend().after_dispatch()
    }

    /// The tasks after the task `c` gave up its children: those that have
    /// terminated are released, the others have no parent any more.
    pub open spec fn orphaned(self, c: usize) -> Map<usize, TaskView> {
        Map::new(
            |p: usize|
                self.has(p) && !(self.tasks[p].parent == Some(c) && self.tasks[p].status
                    == TaskStatus::Zombie),
            |p: usize|
                if self.tasks[p].parent == Some(c) {
                    TaskView { parent: None, ..self.tasks[p] }
                } else {
                    self.tasks[p]
                },
        )
    }

    /// The kernel after the current task terminated with `code` and left
    /// the processor: it gave up its children and its memory and is a
    /// zombie, or is released at once if it has no parent.
    pub open spec fn after_terminate(self, code: i32) -> KernelView {
        let c = self.current.unwrap();
        let t = self.tasks[c];
        let rest = self.orphaned(c);
        let zombie = TaskView {
            status: TaskStatus::Zombie,
            exit_code: code,
            children: Seq::empty(),
            space: SpaceView::empty(),
            ..t
        };
        KernelView {
            tasks: if t.parent is Some {
                rest.insert(c, zombie)
            } else {
                rest.remove(c)
            },
            current: None,
            ..self
        }
    }

    /// The kernel after the current task exited with `code`.
    pub open spec fn after_exit(self, code: i32) -> KernelView {
        self.after_terminate(code).after_dispatch()
    }

    /// `p` is the pid that the next new task gets: the least one that no
    /// living task has.
    pub open spec fn is_free_pid(self, p: usize) -> bool {
        &&& p < MAX_TASKS
        &&& !self.has(p)
        &&& forall|q: usize| q < p ==> #[trigger] self.has(q)
    }

    /// Some pid is free.
    pub open spec fn has_free_pid(self) -> bool {
        exists|p: usize| self.is_free_pid(p)
    }

    /// The kernel after the task `child`, with the pid `pid`, was created
    /// by the current task and queued.
    pub open spec fn with_child(self, pid: usize, child: TaskView) -> KernelView {
        let c = self.current.unwrap();
        let t = self.tasks[c];
        KernelView {
            tasks: self.tasks.insert(pid, child).insert(
                c,
                TaskView { children: t.children.push(pid), ..t },
            ),
            ready: self.ready.push(pid),
            ..self
        }
    }

    /// The child that a fork of the current task creates under `pid`: a
    /// copy of the parent's memory and user registers, with 0 as the
    /// result of the call.
    pub open spec fn forked(self, pid: usize) -> TaskView {
        let t = self.running();
        TaskView {
            pid,
            status: TaskStatus::Ready,
            parent: self.current,
            children: Seq::empty(),
            space: t.space,
            trap_cx: t.trap_cx.returning(0),
            task_cx: TaskContextView::fresh(SwitchTarget::TrapReturn, kernel_stack_top(pid)),
            syscall_count: no_calls(),
            running_time: None,
            exit_code: 0,
            pending_exec_path: None,
            heap_bottom: t.heap_bottom,
            program_brk: t.program_brk,
        }
    }

    /// The kernel after the current task forked the child `pid`.
    pub open spec fn after_fork(self, pid: usize) -> KernelView {
        self.with_child(pid, self.forked(pid))
    }

    /// The child that a spawn of the program `path` creates under `pid`:
    /// it has no memory yet and loads `path` when it is first dispatched.
    pub open spec fn spawned(self, pid: usize, path: Seq<u8>) -> TaskView {
        TaskView {
            pid,
            status: TaskStatus::Ready,
            parent: self.current,
            children: Seq::empty(),
            space: SpaceView::empty(),
            trap_cx: TrapView::initial(0, 0),
            task_cx: TaskContextView::fresh(SwitchTarget::FirstDispatch, kernel_stack_top(pid)),
            syscall_count: no_calls(),
            running_time: None,
            exit_code: 0,
            pending_exec_path: Some(path),
            heap_bottom: 0,
            program_brk: 0,
        }
    }

    /// The kernel after the current task spawned the child `pid` to run
    /// the program `path`.
    pub open spec fn after_spawn(self, pid: usize, path: Seq<u8>) -> KernelView {
        self.with_child(pid, self.spawned(pid, path))
    }

    /// The task that a launch of `image` creates under `pid`: it has no
    /// parent and is about to start the program.
    pub open spec fn launched(pid: usize, image: Image) -> TaskView {
        TaskView {
            pid,
            status: TaskStatus::Ready,
            parent: None,
            children: Seq::empty(),
            space: image.space(),
            trap_cx: TrapView::initial(image.entry, image.stack_top),
            task_cx: TaskContextView::fresh(SwitchTarget::TrapReturn, kernel_stack_top(pid)),
            syscall_count: no_calls(),
            running_time: None,
            exit_code: 0,
            pending_exec_path: None,
            heap_bottom: image.stack_top,
            program_brk: image.stack_top,
        }
    }

    /// The kernel after a task without parent was created under `pid` to
    /// run `image`, and queued.
    pub open spec fn after_launch(self, pid: usize, image: Image) -> KernelView {
        KernelView {
            tasks: self.tasks.insert(pid, Self::launched(pid, image)),
            ready: self.ready.push(pid),
            ..self
        }
    }

    /// The task `t` after it loaded `image`: the image's memory, the
    /// registers of a program about to start, and the break above its
    /// stack.
    pub open spec fn loaded(t: TaskView, image: Image) -> TaskView {
        TaskView {
            space: image.space(),
            trap_cx: TrapView::initial(image.entry, image.stack_top),
            heap_bottom: image.stack_top,
            program_brk: image.stack_top,
            ..t
        }
    }

    /// The kernel after the current task replaced its program by `image`.
    pub open spec fn after_exec(self, image: Image) -> KernelView {
        self.with_running(Self::loaded(self.running(), image))
    }

    /// The kernel after the current task, on its first dispatch, loaded
    /// `image` as the program it was spawned for.
    pub open spec fn after_first_exec(self, image: Image) -> KernelView {
        let t = Self::loaded(self.running(), image);
        self.with_running(
            TaskView {
                pending_exec_path: None,
                task_cx: TaskContextView::fresh(SwitchTarget::TrapReturn, t.task_cx.sp),
                ..t
            },
        )
    }

    /// The kernel after the current task, on its first dispatch, found no
    /// image for the program it was spawned for: the name is used up.
    pub open spec fn after_first_miss(self) -> KernelView {
        let t = self.running();
        self.with_running(
            TaskView {
                pending_exec_path: None,
                task_cx: TaskContextView::fresh(SwitchTarget::TrapReturn, t.task_cx.sp),
                ..t
            },
        )
    }

    /// The image that `name` stands for.
    pub open spec fn image(self, name: Seq<u8>) -> Option<Image> {
        find_image(self.images, name)
    }

    /// Child number `i` of the current task is the first that a wait for
    /// `pid` asks for and that has terminated.
    pub open spec fn is_first_zombie(self, pid: isize, i: int) -> bool {
        let kids = self.running().children;
        &&& 0 <= i < kids.len()
        &&& wanted(pid, kids[i])
        &&& self.tasks[kids[i]].status == TaskStatus::Zombie
        &&& forall|j: int|
            0 <= j < i ==> !(wanted(pid, #[trigger] kids[j]) && self.tasks[kids[j]].status
                == TaskStatus::Zombie)
    }

    /// A wait for `pid` asks for some child of the current task.
    pub open spec fn has_wanted_child(self, pid: isize) -> bool {
        exists|i: int|
            0 <= i < self.running().children.len() && wanted(
                pid,
                #[trigger] self.running().children[i],
            )
    }

    /// What a wait for `pid` finds: the number, among the current task's
    /// children, of the one to collect, or why there is none.
    pub open spec fn wait_result(self, pid: isize) -> Result<int, WaitStatus> {
        if !self.has_wanted_child(pid) {
            Err(WaitStatus::NoSuchChild)
        } else if exists|i: int| self.is_first_zombie(pid, i) {
            Ok(choose|i: int| self.is_first_zombie(pid, i))
        } else {
            Err(WaitStatus::StillRunning)
        }
    }

    /// The kernel after the current task collected its child number `i`:
    /// the child is released and leaves the list of children.
    pub open spec fn after_collect(self, i: int) -> KernelView {
        let c = self.current.unwrap();
        let t = self.tasks[c];
        KernelView {
            tasks: self.tasks.remove(t.children[i]).insert(
                c,
                TaskView { children: t.children.remove(i), ..t },
            ),
            ..self
        }
    }

    /// The kernel after the current task made the system call `id`: its
    /// counter for `id` went up by one, unless it was at its greatest
    /// value or `id` is no system call number.
    pub open spec fn after_count(self, id: usize) -> KernelView {
        let t = self.running();
        if id < MAX_SYSCALL_NUM && t.syscall_count[id as int] < u32::MAX {
            self.with_running(
                TaskView {
                    syscall_count: t.syscall_count.update(
                        id as int,
                        (t.syscall_count[id as int] + 1) as u32,
                    ),
                    ..t
                },
            )
        } else {
            self
        }
    }

    /// What becomes of the kernel, and what the call returns, when the
    /// current task moves its program break by `delta` bytes: the break
    /// before the call, or `None` and no change when the break cannot
    /// move there.
    pub open spec fn brk_outcome(self, delta: i32) -> (KernelView, Option<usize>) {
        let t = self.running();
        match brk_step(t.space, t.heap_bottom, t.program_brk, delta) {
            Some((space, program_brk)) => (
                self.with_running(TaskView { space, program_brk, ..t }),
                Some(t.program_brk),
            ),
            None => (self, None),
        }
    }

    /// The kernel after `r` was put into the result register of the task
    /// `pid`. A task that is gone, or a zombie, gets no result.
    pub open spec fn with_result(self, pid: usize, r: isize) -> KernelView {
        if self.has(pid) && self.tasks[pid].status != TaskStatus::Zombie {
            self.with_task(
                pid,
                TaskView { trap_cx: self.tasks[pid].trap_cx.returning(r as usize), ..self.tasks[pid] },
            )
        } else {
            self
        }
    }

    /// The milliseconds for which the current task has run: from its
    /// first dispatch to now.
    pub open spec fn elapsed_ms(self) -> u64 {
        (self.clock_us / 1000 - self.running().running_time.unwrap()) as u64
    }

    /// Reading the clock keeps the kernel well formed.
    pub proof fn lemma_tick_wf(self, now_us: u64)
        requires
            self.wf(),
        ensures
            self.after_tick(now_us).wf(),
    {
        let next = self.after_tick(now_us);
        assert forall|p: usize| #[trigger] next.has(p) implies self.has(p) by {}
        assert(next.tasks_wf()) by {
            assert forall|p: usize| #[trigger] next.has(p) implies {
                let t = next.tasks[p];
                t.running_time matches Some(ms) ==> ms <= next.clock_us / 1000
            } by {
                assert(self.has(p));
            }
        }
    }

    /// Replacing the memory, the saved registers, the counters, the break
    /// or the pending program of a living task keeps the kernel well
    /// formed.
    pub proof fn lemma_with_task_wf(self, p: usize, t: TaskView)
        requires
            self.wf(),
            self.has(p),
            t.space.wf(),
            t.syscall_count.len() == MAX_SYSCALL_NUM,
            t.status != TaskStatus::Zombie || t.space == SpaceView::empty(),
            t.pending_exec_path is Some <==> t.task_cx.ra == SwitchTarget::FirstDispatch,
            t == (TaskView {
                space: t.space,
                trap_cx: t.trap_cx,
                task_cx: t.task_cx,
                syscall_count: t.syscall_count,
                pending_exec_path: t.pending_exec_path,
                heap_bottom: t.heap_bottom,
                program_brk: t.program_brk,
                ..self.tasks[p]
            }),
        ensures
            self.with_task(p, t).wf(),
    {
        let next = self.with_task(p, t);
        assert forall|q: usize| #[trigger] next.has(q) implies self.has(q) by {}
        assert forall|q: usize| #[trigger] self.has(q) implies next.has(q) by {}
        assert(next.tasks_wf()) by {
            assert forall|q: usize| #[trigger] next.has(q) implies {
                let u = next.tasks[q];
                &&& q < MAX_TASKS
                &&& u.pid == q
                &&& u.parent != Some(q)
                &&& u.space.wf()
                &&& u.syscall_count.len() == MAX_SYSCALL_NUM
                &&& u.children.no_duplicates()
                &&& (u.status == TaskStatus::Zombie ==> u.parent is Some && u.children.len() == 0
                    && u.space == SpaceView::empty())
                &&& (u.running_time matches Some(ms) ==> ms <= next.clock_us / 1000)
                &&& (u.status == TaskStatus::Running ==> u.running_time is Some)
                &&& (u.pending_exec_path is Some <==> u.task_cx.ra == SwitchTarget::FirstDispatch)
            } by {
                assert(self.has(q));
            }
        }
        assert(next.sched_wf()) by {
            assert forall|q: usize| #[trigger]
                next.has(q) && next.tasks[q].status == TaskStatus::Running implies next.current
                == Some(q) by {
                assert(self.has(q));
            }
            assert forall|i: int| 0 <= i < next.ready.len() implies next.has(
                #[trigger] next.ready[i],
            ) && next.tasks[next.ready[i]].status == TaskStatus::Ready by {
                assert(self.has(self.ready[i]));
            }
            assert forall|q: usize| #[trigger]
                next.has(q) && next.tasks[q].status == TaskStatus::Ready implies next.ready.contains(
                q) by {
                assert(self.has(q));
            }
        }
        assert(next.family_wf()) by {
            assert forall|q: usize| #[trigger] next.has(q) implies (next.tasks[q].parent matches Some(
                r,
            ) ==> next.has(r) && next.tasks[r].children.contains(q)) by {
                assert(self.has(q));
            }
            assert forall|q: usize, i: int|
                next.has(q) && 0 <= i < next.tasks[q].children.len() implies next.has(
                    #[trigger] next.tasks[q].children[i],
                ) && next.tasks[next.tasks[q].children[i]].parent == Some(q) by {
                assert(self.has(q));
                assert(self.has(self.tasks[q].children[i]));
            }
        }
    }

    /// Dispatching on a free processor keeps the kernel well formed.
    pub proof fn lemma_dispatch_wf(self)
        requires
            self.wf(),
            self.current is None,
        ensures
            self.after_dispatch().wf(),
            self.ready.len() > 0 ==> self.after_dispatch().current == Some(self.ready[0]),
            self.ready.len() == 0 ==> self.after_dispatch() == self,
    {
        let next = self.after_dispatch();
        if self.ready.len() > 0 {
            let n = self.ready[0];
            assert(self.has(n));
            assert forall|q: usize| #[trigger] next.has(q) implies self.has(q) by {}
            assert forall|q: usize| #[trigger] self.has(q) implies next.has(q) by {}
            assert(next.tasks_wf()) by {
                assert forall|q: usize| #[trigger] next.has(q) implies {
                    let u = next.tasks[q];
                    &&& q < MAX_TASKS
                    &&& u.pid == q
                    &&& u.parent != Some(q)
                    &&& u.space.wf()
                    &&& u.syscall_count.len() == MAX_SYSCALL_NUM
                    &&& u.children.no_duplicates()
                    &&& (u.status == TaskStatus::Zombie ==> u.parent is Some && u.children.len()
                        == 0 && u.space == SpaceView::empty())
                    &&& (u.running_time matches Some(ms) ==> ms <= next.clock_us / 1000)
                    &&& (u.status == TaskStatus::Running ==> u.running_time is Some)
                    &&& (u.pending_exec_path is Some <==> u.task_cx.ra
                        == SwitchTarget::FirstDispatch)
                } by {
                    assert(self.has(q));
                }
            }
            assert(next.sched_wf()) by {
                assert forall|q: usize| #[trigger]
                    next.has(q) && next.tasks[q].status == TaskStatus::Running implies next.current
                    == Some(q) by {
                    assert(self.has(q));
                }
                assert forall|i: int| 0 <= i < next.ready.len() implies next.has(
                    #[trigger] next.ready[i],
                ) && next.tasks[next.ready[i]].status == TaskStatus::Ready by {
                    assert(next.ready[i] == self.ready[i + 1]);
                    assert(self.has(self.ready[i + 1]));
                }
                assert forall|q: usize| #[trigger]
                    next.has(q) && next.tasks[q].status
                    == TaskStatus::Ready implies next.ready.contains(q) by {
                    assert(self.has(q));
                    assert(self.ready.contains(q));
                    let i = choose|i: int| 0 <= i < self.ready.len() && self.ready[i] == q;
                    assert(next.ready[i - 1] == q);
                }
                assert(next.ready.no_duplicates()) by {
                    assert forall|i: int, j: int|
                        0 <= i < next.ready.len() && 0 <= j < next.ready.len() && i
                            != j implies next.ready[i] != next.ready[j] by {
                        assert(self.ready[i + 1] != self.ready[j + 1]);
                    }
                }
            }
            assert(next.family_wf()) by {
                assert forall|q: usize| #[trigger] next.has(q) implies (
                next.tasks[q].parent matches Some(r) ==> next.has(r)
                    && next.tasks[r].children.contains(q)) by {
                    assert(self.has(q));
                }
                assert forall|q: usize, i: int|
                    next.has(q) && 0 <= i < next.tasks[q].children.len() implies next.has(
                        #[trigger] next.tasks[q].children[i],
                    ) && next.tasks[next.tasks[q].children[i]].parent == Some(q) by {
                    assert(self.has(q));
                    assert(self.has(self.tasks[q].children[i]));
                }
            }
        }
    }

    /// Suspending the current task keeps the kernel well formed and frees
    /// the processor.
    pub proof fn lemma_suspend_wf(self)
        requires
            self.wf(),
            self.current is Some,
        ensures
            self.after_suspend().wf(),
            self.after_suspend().current is None,
            self.after_suspend().ready.len() > 0,
    {
        let next = self.after_suspend();
        let c = self.current.unwrap();
        assert forall|q: usize| #[trigger] next.has(q) implies self.has(q) by {}
        assert forall|q: usize| #[trigger] self.has(q) implies next.has(q) by {}
        assert(next.tasks_wf()) by {
            assert forall|q: usize| #[trigger] next.has(q) implies {
                let u = next.tasks[q];
                &&& q < MAX_TASKS
                &&& u.pid == q
                &&& u.parent != Some(q)
                &&& u.space.wf()
                &&& u.syscall_count.len() == MAX_SYSCALL_NUM
                &&& u.children.no_duplicates()
                &&& (u.status == TaskStatus::Zombie ==> u.parent is Some && u.children.len() == 0
                    && u.space == SpaceView::empty())
                &&& (u.running_time matches Some(ms) ==> ms <= next.clock_us / 1000)
                &&& (u.status == TaskStatus::Running ==> u.running_time is Some)
                &&& (u.pending_exec_path is Some <==> u.task_cx.ra == SwitchTarget::FirstDispatch)
            } by {
                assert(self.has(q));
            }
        }
        assert(next.sched_wf()) by {
            assert forall|q: usize| #[trigger]
                next.has(q) && next.tasks[q].status == TaskStatus::Running implies next.current
                == Some(q) by {
                assert(self.has(q));
            }
            assert forall|i: int| 0 <= i < next.ready.len() implies next.has(
                #[trigger] next.ready[i],
            ) && next.tasks[next.ready[i]].status == TaskStatus::Ready by {
                if i < self.ready.len() {
                    assert(self.has(self.ready[i]));
                }
            }
            assert forall|q: usize| #[trigger]
                next.has(q) && next.tasks[q].status == TaskStatus::Ready implies next.ready.contains(
                q) by {
                assert(self.has(q));
                if q == c {
                    assert(next.ready[self.ready.len() as int] == c);
                } else {
                    assert(self.ready.contains(q));
                    let i = choose|i: int| 0 <= i < self.ready.len() && self.ready[i] == q;
                    assert(next.ready[i] == q);
                }
            }
            assert(next.ready.no_duplicates()) by {
                assert forall|i: int, j: int|
                    0 <= i < next.ready.len() && 0 <= j < next.ready.len() && i
                        != j implies next.ready[i] != next.ready[j] by {
                    if i < self.ready.len() {
                        assert(self.has(self.ready[i]));
                    }
                    if j < self.ready.len() {
                        assert(self.has(self.ready[j]));
                    }
                }
            }
        }
        assert(next.family_wf()) by {
            assert forall|q: usize| #[trigger] next.has(q) implies (next.tasks[q].parent matches Some(
                r,
            ) ==> next.has(r) && next.tasks[r].children.contains(q)) by {
                assert(self.has(q));
            }
            assert forall|q: usize, i: int|
                next.has(q) && 0 <= i < next.tasks[q].children.len() implies next.has(
                    #[trigger] next.tasks[q].children[i],
                ) && next.tasks[next.tasks[q].children[i]].parent == Some(q) by {
                assert(self.has(q));
                assert(self.has(self.tasks[q].children[i]));
            }
        }
    }

    /// A yield keeps the kernel well formed, and some task runs after it.
    pub proof fn lemma_yield_wf(self)
        requires
            self.wf(),
            self.current is Some,
        ensures
            self.after_yield().wf(),
            self.after_yield().current is Some,
    {
        self.lemma_suspend_wf();
        self.after_suspend().lemma_dispatch_wf();
    }

    /// Terminating the current task keeps the kernel well formed and frees
    /// the processor.
    pub proof fn lemma_terminate_wf(self, code: i32)
        requires
            self.wf(),
            self.current is Some,
        ensures
            self.after_terminate(code).wf(),
            self.after_terminate(code).current is None,
    {
        let next = self.after_terminate(code);
        let c = self.current.unwrap();
        let t = self.tasks[c];
        assert(self.has(c));
        assert forall|q: usize| #[trigger] next.has(q) implies self.has(q) by {}
        // A task other than `c` that stays keeps everything but, perhaps, its parent.
        assert forall|q: usize| #[trigger] next.has(q) && q != c implies next.tasks[q] == (TaskView {
            parent: next.tasks[q].parent,
            ..self.tasks[q]
        }) && (self.tasks[q].parent == Some(c) ==> next.tasks[q].parent is None
            && self.tasks[q].status != TaskStatus::Zombie) && (self.tasks[q].parent != Some(c)
            ==> next.tasks[q].parent == self.tasks[q].parent) by {}
        // A task with another parent than `c` stays.
        assert forall|q: usize| #[trigger] self.has(q) && q != c && self.tasks[q].parent != Some(
            c,
        ) implies next.has(q) by {}
        assert forall|q: usize| #[trigger] self.has(q) && q != c && self.tasks[q].status
            != TaskStatus::Zombie implies next.has(q) by {}
        assert(next.tasks_wf()) by {
            assert forall|q: usize| #[trigger] next.has(q) implies {
                let u = next.tasks[q];
                &&& q < MAX_TASKS
                &&& u.pid == q
                &&& u.parent != Some(q)
                &&& u.space.wf()
                &&& u.syscall_count.len() == MAX_SYSCALL_NUM
                &&& u.children.no_duplicates()
                &&& (u.status == TaskStatus::Zombie ==> u.parent is Some && u.children.len() == 0
                    && u.space == SpaceView::empty())
                &&& (u.running_time matches Some(ms) ==> ms <= next.clock_us / 1000)
                &&& (u.status == TaskStatus::Running ==> u.running_time is Some)
                &&& (u.pending_exec_path is Some <==> u.task_cx.ra == SwitchTarget::FirstDispatch)
            } by {
                assert(self.has(q));
                if q == c {
                    assert(next.tasks[q].children =~= Seq::<usize>::empty());
                }
            }
        }
        assert(next.sched_wf()) by {
            assert forall|q: usize| #[trigger]
                next.has(q) && next.tasks[q].status == TaskStatus::Running implies next.current
                == Some(q) by {
                assert(self.has(q));
            }
            assert forall|i: int| 0 <= i < next.ready.len() implies next.has(
                #[trigger] next.ready[i],
            ) && next.tasks[next.ready[i]].status == TaskStatus::Ready by {
                assert(self.has(self.ready[i]));
            }
            assert forall|q: usize| #[trigger]
                next.has(q) && next.tasks[q].status == TaskStatus::Ready implies next.ready.contains(
                q) by {
                assert(self.has(q));
            }
        }
        assert(next.family_wf()) by {
            assert forall|q: usize| #[trigger] next.has(q) implies (next.tasks[q].parent matches Some(
                r,
            ) ==> next.has(r) && next.tasks[r].children.contains(q)) by {
                assert(self.has(q));
                if next.tasks[q].parent is Some {
                    let r = next.tasks[q].parent.unwrap();
                    assert(self.tasks[q].parent == Some(r));
                    assert(r != c || q == c);
                    assert(self.has(r));
                    assert(self.tasks[r].children.contains(q));
                    // `r` has a child, so it is no zombie.
                    assert(self.tasks[r].status != TaskStatus::Zombie);
                    assert(r != c);
                    assert(next.has(r));
                }
            }
            assert forall|q: usize, i: int|
                next.has(q) && 0 <= i < next.tasks[q].children.len() implies next.has(
                    #[trigger] next.tasks[q].children[i],
                ) && next.tasks[next.tasks[q].children[i]].parent == Some(q) by {
                assert(self.has(q));
                assert(q != c);
                let k = self.tasks[q].children[i];
                assert(self.has(k));
                assert(self.tasks[k].parent == Some(q));
                if k == c {
                    assert(t.parent is Some);
                } else {
                    assert(next.has(k));
                }
            }
        }
    }

    /// An exit keeps the kernel well formed.
    pub proof fn lemma_exit_wf(self, code: i32)
        requires
            self.wf(),
            self.current is Some,
        ensures
            self.after_exit(code).wf(),
    {
        self.lemma_terminate_wf(code);
        self.after_terminate(code).lemma_dispatch_wf();
    }

    /// Creating a child of the current task under a free pid keeps the
    /// kernel well formed.
    pub proof fn lemma_with_child_wf(self, pid: usize, child: TaskView)
        requires
            self.wf(),
            self.current is Some,
            self.is_free_pid(pid),
            child.pid == pid,
            child.status == TaskStatus::Ready,
            child.parent == self.current,
            child.children.len() == 0,
            child.space.wf(),
            child.syscall_count.len() == MAX_SYSCALL_NUM,
            child.running_time is None,
            child.pending_exec_path is Some <==> child.task_cx.ra == SwitchTarget::FirstDispatch,
        ensures
            self.with_child(pid, child).wf(),
            self.with_child(pid, child).current == self.current,
    {
        let next = self.with_child(pid, child);
        let c = self.current.unwrap();
        let t = self.tasks[c];
        assert(self.has(c));
        assert(pid != c);
        assert forall|q: usize| #[trigger] next.has(q) implies self.has(q) || q == pid by {}
        assert forall|q: usize| #[trigger] self.has(q) implies next.has(q) by {}
        // Nobody names the free pid as a child or as its parent.
        assert forall|q: usize, i: int|
            self.has(q) && 0 <= i < self.tasks[q].children.len() implies #[trigger] self.tasks[q].children[i]
            != pid by {
            assert(self.has(self.tasks[q].children[i]));
        }
        assert(next.tasks_wf()) by {
            assert forall|q: usize| #[trigger] next.has(q) implies {
                let u = next.tasks[q];
                &&& q < MAX_TASKS
                &&& u.pid == q
                &&& u.parent != Some(q)
                &&& u.space.wf()
                &&& u.syscall_count.len() == MAX_SYSCALL_NUM
                &&& u.children.no_duplicates()
                &&& (u.status == TaskStatus::Zombie ==> u.parent is Some && u.children.len() == 0
                    && u.space == SpaceView::empty())
                &&& (u.running_time matches Some(ms) ==> ms <= next.clock_us / 1000)
                &&& (u.status == TaskStatus::Running ==> u.running_time is Some)
                &&& (u.pending_exec_path is Some <==> u.task_cx.ra == SwitchTarget::FirstDispatch)
            } by {
                if q == c {
                    assert(self.has(c));
                    assert forall|i: int, j: int|
                        0 <= i < next.tasks[c].children.len() && 0 <= j
                            < next.tasks[c].children.len() && i != j implies next.tasks[c].children[i]
                        != next.tasks[c].children[j] by {
                        if i < t.children.len() {
                            assert(t.children[i] != pid);
                        }
                        if j < t.children.len() {
                            assert(t.children[j] != pid);
                        }
                    }
                } else if q != pid {
                    assert(self.has(q));
                }
            }
        }
        assert(next.sched_wf()) by {
            assert forall|q: usize| #[trigger]
                next.has(q) && next.tasks[q].status == TaskStatus::Running implies next.current
                == Some(q) by {
                if q != pid {
                    assert(self.has(q));
                }
            }
            assert forall|i: int| 0 <= i < next.ready.len() implies next.has(
                #[trigger] next.ready[i],
            ) && next.tasks[next.ready[i]].status == TaskStatus::Ready by {
                if i < self.ready.len() {
                    assert(self.has(self.ready[i]));
                }
            }
            assert forall|q: usize| #[trigger]
                next.has(q) && next.tasks[q].status == TaskStatus::Ready implies next.ready.contains(
                q) by {
                if q == pid {
                    assert(next.ready[self.ready.len() as int] == pid);
                } else {
                    assert(self.has(q));
                    assert(self.ready.contains(q));
                    let i = choose|i: int| 0 <= i < self.ready.len() && self.ready[i] == q;
                    assert(next.ready[i] == q);
                }
            }
            assert(next.ready.no_duplicates()) by {
                assert forall|i: int, j: int|
                    0 <= i < next.ready.len() && 0 <= j < next.ready.len() && i
                        != j implies next.ready[i] != next.ready[j] by {
                    if i < self.ready.len() {
                        assert(self.has(self.ready[i]));
                    }
                    if j < self.ready.len() {
                        assert(self.has(self.ready[j]));
                    }
                }
            }
        }
        assert(next.family_wf()) by {
            assert forall|q: usize| #[trigger] next.has(q) implies (next.tasks[q].parent matches Some(
                r,
            ) ==> next.has(r) && next.tasks[r].children.contains(q)) by {
                if q == pid {
                    assert(next.tasks[c].children[t.children.len() as int] == pid);
                } else {
                    assert(self.has(q));
                    if self.tasks[q].parent is Some {
                        let r = self.tasks[q].parent.unwrap();
                        assert(self.tasks[r].children.contains(q));
                        let i = choose|i: int|
                            0 <= i < self.tasks[r].children.len() && self.tasks[r].children[i] == q;
                        assert(next.tasks[r].children[i] == q);
                    }
                }
            }
            assert forall|q: usize, i: int|
                next.has(q) && 0 <= i < next.tasks[q].children.len() implies next.has(
                    #[trigger] next.tasks[q].children[i],
                ) && next.tasks[next.tasks[q].children[i]].parent == Some(q) by {
                if q == c {
                    if i < t.children.len() {
                        assert(self.has(t.children[i]));
                        assert(t.children[i] != pid);
                    }
                } else {
                    assert(self.has(q));
                    assert(self.has(self.tasks[q].children[i]));
                    assert(self.tasks[q].children[i] != pid);
                }
            }
        }
    }

    /// The children of the current task without child number `i`: the
    /// other children, in their order.
    proof fn lemma_kids_without(self, i: int)
        requires
            self.tasks_wf(),
            self.current is Some,
            self.has(self.current.unwrap()),
            0 <= i < self.running().children.len(),
        ensures
            forall|j: int|
                0 <= j < self.running().children.remove(i).len() ==> (
                #[trigger] self.running().children.remove(i)[j]) != self.running().children[i],
            forall|q: usize|
                q != self.running().children[i] && self.running().children.contains(q)
                    ==> self.running().children.remove(i).contains(q),
            forall|q: usize|
                self.running().children.remove(i).contains(q) ==> self.running().children.contains(
                    q,
                ),
            self.running().children.remove(i).no_duplicates(),
    {
        let t = self.running();
        let kids = t.children.remove(i);
        assert(t.children.no_duplicates());
        assert forall|j: int| 0 <= j < kids.len() implies (#[trigger] kids[j]) != t.children[i] by {
            let j0 = if j < i { j } else { j + 1 };
            assert(kids[j] == t.children[j0]);
        }
        assert forall|q: usize| q != t.children[i] && t.children.contains(q) implies kids.contains(
            q,
        ) by {
            let j = choose|j: int| 0 <= j < t.children.len() && t.children[j] == q;
            let j1 = if j < i { j } else { j - 1 };
            assert(kids[j1] == q);
        }
        assert forall|q: usize| kids.contains(q) implies t.children.contains(q) by {
            let j = choose|j: int| 0 <= j < kids.len() && kids[j] == q;
            let j0 = if j < i { j } else { j + 1 };
            assert(t.children[j0] == q);
        }
        assert forall|j: int, k: int|
            0 <= j < kids.len() && 0 <= k < kids.len() && j != k implies kids[j] != kids[k] by {
            let j0 = if j < i { j } else { j + 1 };
            let k0 = if k < i { k } else { k + 1 };
            assert(t.children[j0] != t.children[k0]);
        }
    }

    /// Collecting a terminated child of the current task keeps the kernel
    /// well formed.
    pub proof fn lemma_collect_wf(self, i: int)
        requires
            self.wf(),
            self.current is Some,
            0 <= i < self.running().children.len(),
            self.tasks[self.running().children[i]].status == TaskStatus::Zombie,
        ensures
            self.after_collect(i).wf(),
            self.after_collect(i).current == self.current,
            !self.after_collect(i).running().children.contains(self.running().children[i]),
    {
        let next = self.after_collect(i);
        let c = self.current.unwrap();
        let t = self.tasks[c];
        let z = t.children[i];
        let kids = t.children.remove(i);
        assert(self.has(c));
        assert(self.has(z));
        assert(self.tasks[z].parent == Some(c));
        assert(z != c);
        self.lemma_kids_without(i);
        assert(next.tasks[c] == TaskView { children: kids, ..t });
        assert forall|q: usize| #[trigger] next.has(q) implies self.has(q) && q != z && (q != c
            ==> next.tasks[q] == self.tasks[q]) by {}
        assert forall|q: usize| #[trigger] self.has(q) && q != z implies next.has(q) by {}
        if kids.contains(z) {
            let j = choose|j: int| 0 <= j < kids.len() && kids[j] == z;
            assert(kids[j] != z);
        }
        self.lemma_collect_tasks_wf(i);
        self.lemma_collect_sched_wf(i);
        self.lemma_collect_family_wf(i);
    }

    proof fn lemma_collect_tasks_wf(self, i: int)
        requires
            self.tasks_wf(),
            self.current is Some,
            self.has(self.current.unwrap()),
            0 <= i < self.running().children.len(),
            self.running().children.remove(i).no_duplicates(),
        ensures
            self.after_collect(i).tasks_wf(),
    {
        let next = self.after_collect(i);
        let c = self.current.unwrap();
        assert forall|q: usize| #[trigger] next.has(q) implies {
            let u = next.tasks[q];
            &&& q < MAX_TASKS
            &&& u.pid == q
            &&& u.parent != Some(q)
            &&& u.space.wf()
            &&& u.syscall_count.len() == MAX_SYSCALL_NUM
            &&& u.children.no_duplicates()
            &&& (u.status == TaskStatus::Zombie ==> u.parent is Some && u.children.len() == 0
                && u.space == SpaceView::empty())
            &&& (u.running_time matches Some(ms) ==> ms <= next.clock_us / 1000)
            &&& (u.status == TaskStatus::Running ==> u.running_time is Some)
            &&& (u.pending_exec_path is Some <==> u.task_cx.ra == SwitchTarget::FirstDispatch)
        } by {
            assert(self.has(q));
        }
    }

    proof fn lemma_collect_sched_wf(self, i: int)
        requires
            self.wf(),
            self.current is Some,
            0 <= i < self.running().children.len(),
            self.tasks[self.running().children[i]].status == TaskStatus::Zombie,
        ensures
            self.after_collect(i).sched_wf(),
    {
        let next = self.after_collect(i);
        let c = self.current.unwrap();
        let z = self.tasks[c].children[i];
        assert(self.has(c));
        assert forall|q: usize| #[trigger] next.has(q) implies self.has(q) && q != z
            && next.tasks[q].status == self.tasks[q].status by {}
        assert forall|q: usize| #[trigger] self.has(q) && q != z implies next.has(q) by {}
        assert forall|q: usize| #[trigger]
            next.has(q) && next.tasks[q].status == TaskStatus::Running implies next.current
            == Some(q) by {
            assert(self.has(q));
        }
        assert forall|j: int| 0 <= j < next.ready.len() implies next.has(#[trigger] next.ready[j])
            && next.tasks[next.ready[j]].status == TaskStatus::Ready by {
            assert(self.has(self.ready[j]));
        }
        assert forall|q: usize| #[trigger]
            next.has(q) && next.tasks[q].status == TaskStatus::Ready implies next.ready.contains(
            q) by {
            assert(self.has(q));
        }
    }

    proof fn lemma_collect_family_wf(self, i: int)
        requires
            self.wf(),
            self.current is Some,
            0 <= i < self.running().children.len(),
            self.tasks[self.running().children[i]].status == TaskStatus::Zombie,
            forall|j: int|
                0 <= j < self.running().children.remove(i).len() ==> (
                #[trigger] self.running().children.remove(i)[j]) != self.running().children[i],
            forall|q: usize|
                q != self.running().children[i] && self.running().children.contains(q)
                    ==> self.running().children.remove(i).contains(q),
            forall|q: usize|
                self.running().children.remove(i).contains(q) ==> self.running().children.contains(
                    q,
                ),
        ensures
            self.after_collect(i).family_wf(),
    {
        let next = self.after_collect(i);
        let c = self.current.unwrap();
        let t = self.tasks[c];
        let z = t.children[i];
        let kids = t.children.remove(i);
        assert(self.has(c));
        assert(self.has(z));
        assert(z != c);
        assert(next.tasks[c] == TaskView { children: kids, ..t });
        assert forall|q: usize| #[trigger] next.has(q) implies self.has(q) && q != z && (q != c
            ==> next.tasks[q] == self.tasks[q]) by {}
        assert forall|q: usize| #[trigger] self.has(q) && q != z implies next.has(q) by {}
        assert forall|q: usize| #[trigger] next.has(q) implies (next.tasks[q].parent matches Some(
            r,
        ) ==> next.has(r) && next.tasks[r].children.contains(q)) by {
            assert(self.has(q));
            if self.tasks[q].parent is Some {
                let r = self.tasks[q].parent.unwrap();
                assert(self.has(r));
                assert(self.tasks[r].children.contains(q));
                assert(r != z);
            }
        }
        assert forall|q: usize, j: int|
            next.has(q) && 0 <= j < next.tasks[q].children.len() implies next.has(
                #[trigger] next.tasks[q].children[j],
            ) && next.tasks[next.tasks[q].children[j]].parent == Some(q) by {
            assert(self.has(q));
            if q == c {
                let k = kids[j];
                assert(kids.contains(k));
                assert(t.children.contains(k));
                let j0 = choose|j0: int| 0 <= j0 < t.children.len() && t.children[j0] == k;
                assert(self.has(t.children[j0]));
            } else {
                let k = self.tasks[q].children[j];
                assert(self.has(k));
                assert(self.tasks[k].parent == Some(q));
            }
        }
    }

    /// In a well-formed kernel at most one child is the first terminated
    /// one that a wait asks for.
    pub proof fn lemma_first_zombie_unique(self, pid: isize, i: int, j: int)
        requires
            self.is_first_zombie(pid, i),
            self.is_first_zombie(pid, j),
        ensures
            i == j,
    {
        if i < j {
            assert(wanted(pid, self.running().children[i]));
        } else if j < i {
            assert(wanted(pid, self.running().children[j]));
        }
    }

    /// Launching a task without parent under a free pid keeps the kernel
    /// well formed.
    pub proof fn lemma_launch_wf(self, pid: usize, image: Image)
        requires
            self.wf(),
            self.is_free_pid(pid),
            image.space().wf(),
        ensures
            self.after_launch(pid, image).wf(),
            self.after_launch(pid, image).current == self.current,
    {
        let next = self.after_launch(pid, image);
        assert forall|q: usize| #[trigger] next.has(q) implies (self.has(q) && next.tasks[q]
            == self.tasks[q]) || q == pid by {}
        assert forall|q: usize| #[trigger] self.has(q) implies next.has(q) && q != pid by {}
        assert forall|q: usize, i: int|
            self.has(q) && 0 <= i < self.tasks[q].children.len() implies #[trigger] self.tasks[q].children[i]
            != pid by {
            assert(self.has(self.tasks[q].children[i]));
        }
        assert(next.tasks_wf()) by {
            assert forall|q: usize| #[trigger] next.has(q) implies {
                let u = next.tasks[q];
                &&& q < MAX_TASKS
                &&& u.pid == q
                &&& u.parent != Some(q)
                &&& u.space.wf()
                &&& u.syscall_count.len() == MAX_SYSCALL_NUM
                &&& u.children.no_duplicates()
                &&& (u.status == TaskStatus::Zombie ==> u.parent is Some && u.children.len() == 0
                    && u.space == SpaceView::empty())
                &&& (u.running_time matches Some(ms) ==> ms <= next.clock_us / 1000)
                &&& (u.status == TaskStatus::Running ==> u.running_time is Some)
                &&& (u.pending_exec_path is Some <==> u.task_cx.ra == SwitchTarget::FirstDispatch)
            } by {
                if q != pid {
                    assert(self.has(q));
                }
            }
        }
        assert(next.sched_wf()) by {
            assert forall|q: usize| #[trigger]
                next.has(q) && next.tasks[q].status == TaskStatus::Running implies next.current
                == Some(q) by {
                if q != pid {
                    assert(self.has(q));
                }
            }
            assert forall|i: int| 0 <= i < next.ready.len() implies next.has(
                #[trigger] next.ready[i],
            ) && next.tasks[next.ready[i]].status == TaskStatus::Ready by {
                if i < self.ready.len() {
                    assert(self.has(self.ready[i]));
                }
            }
            assert forall|q: usize| #[trigger]
                next.has(q) && next.tasks[q].status == TaskStatus::Ready implies next.ready.contains(
                q) by {
                if q == pid {
                    assert(next.ready[self.ready.len() as int] == pid);
                } else {
                    assert(self.has(q));
                    assert(self.ready.contains(q));
                    let i = choose|i: int| 0 <= i < self.ready.len() && self.ready[i] == q;
                    assert(next.ready[i] == q);
                }
            }
            assert(next.ready.no_duplicates()) by {
                assert forall|i: int, j: int|
                    0 <= i < next.ready.len() && 0 <= j < next.ready.len() && i
                        != j implies next.ready[i] != next.ready[j] by {
                    if i < self.ready.len() {
                        assert(self.has(self.ready[i]));
                    }
                    if j < self.ready.len() {
                        assert(self.has(self.ready[j]));
                    }
                }
            }
        }
        assert(next.family_wf()) by {
            assert forall|q: usize| #[trigger] next.has(q) implies (next.tasks[q].parent matches Some(
                r,
            ) ==> next.has(r) && next.tasks[r].children.contains(q)) by {
                if q != pid {
                    assert(self.has(q));
                }
            }
            assert forall|q: usize, i: int|
                next.has(q) && 0 <= i < next.tasks[q].children.len() implies next.has(
                    #[trigger] next.tasks[q].children[i],
                ) && next.tasks[next.tasks[q].children[i]].parent == Some(q) by {
                if q != pid {
                    assert(self.has(q));
                    assert(self.has(self.tasks[q].children[i]));
                    assert(self.tasks[q].children[i] != pid);
                }
            }
        }
    }

    /// Another table of well-formed programs keeps the kernel well formed.
    pub proof fn lemma_images_wf(self, images: Seq<Image>)
        requires
            self.wf(),
            forall|i: int| 0 <= i < images.len() ==> (#[trigger] images[i]).wf(),
        ensures
            self.with_images(images).wf(),
    {
        let next = self.with_images(images);
        assert forall|q: usize| #[trigger] next.has(q) implies self.has(q) by {}
        assert(next.tasks_wf()) by {
            assert forall|q: usize| #[trigger] next.has(q) implies {
                let u = next.tasks[q];
                &&& q < MAX_TASKS
                &&& u.pid == q
                &&& u.parent != Some(q)
                &&& u.space.wf()
                &&& u.syscall_count.len() == MAX_SYSCALL_NUM
                &&& u.children.no_duplicates()
                &&& (u.status == TaskStatus::Zombie ==> u.parent is Some && u.children.len() == 0
                    && u.space == SpaceView::empty())
                &&& (u.running_time matches Some(ms) ==> ms <= next.clock_us / 1000)
                &&& (u.status == TaskStatus::Running ==> u.running_time is Some)
                &&& (u.pending_exec_path is Some <==> u.task_cx.ra == SwitchTarget::FirstDispatch)
            } by {
                assert(self.has(q));
            }
        }
        assert(next.sched_wf()) by {
            assert forall|q: usize| #[trigger]
                next.has(q) && next.tasks[q].status == TaskStatus::Running implies next.current
                == Some(q) by {
                assert(self.has(q));
            }
            assert forall|i: int| 0 <= i < next.ready.len() implies next.has(
                #[trigger] next.ready[i],
            ) && next.tasks[next.ready[i]].status == TaskStatus::Ready by {
                assert(self.has(self.ready[i]));
            }
            assert forall|q: usize| #[trigger]
                next.has(q) && next.tasks[q].status == TaskStatus::Ready implies next.ready.contains(
                q) by {
                assert(self.has(q));
            }
        }
        assert(next.family_wf()) by {
            assert forall|q: usize| #[trigger] next.has(q) implies (next.tasks[q].parent matches Some(
                r,
            ) ==> next.has(r) && next.tasks[r].children.contains(q)) by {
                assert(self.has(q));
            }
            assert forall|q: usize, i: int|
                next.has(q) && 0 <= i < next.tasks[q].children.len() implies next.has(
                    #[trigger] next.tasks[q].children[i],
                ) && next.tasks[next.tasks[q].children[i]].parent == Some(q) by {
                assert(self.has(q));
                assert(self.has(self.tasks[q].children[i]));
            }
        }
    }
}

} // verus!
