//! The kernel state and the operations of its tasks.

use crate::config::KERNEL_STACK_BASE;
use crate::config::KERNEL_STACK_SIZE;
use crate::config::MAX_SYSCALL_NUM;
use crate::config::MAX_TASKS;
use crate::config::PAGE_SIZE;
use crate::loader::Image;
use crate::loader::Loader;
use crate::mm::bridge::write_bytes;
use crate::mm::bridge::Fault;
use crate::mm::frame::FrameAllocator;
use crate::mm::permission::MapPermission;
use crate::mm::space::page_ceil;
use crate::mm::space::AddressSpace;
use crate::mm::space::MemoryError;
use crate::task::context::SwitchTarget;
use crate::task::context::TaskContext;
use crate::task::model::brk_step;
use crate::task::model::kernel_stack_top;
use crate::task::model::wanted;
use crate::task::model::KernelView;
use crate::task::model::WaitStatus;
use crate::task::tcb::zero_counters;
use crate::task::tcb::Task;
use crate::task::tcb::TaskStatus;
use crate::task::tcb::TaskView;
use crate::task::trap::TrapContext;
use vstd::prelude::*;

verus! {

/// The kernel: the table of tasks, the task on the processor, the run
/// queue, the pool of frames, the program images and the clock.
pub struct Kernel {
    /// The task with pid `p` stands in slot `p`.
    tasks: Vec<Option<Task>>,
    current: Option<usize>,
    ready: Vec<usize>,
    pool: FrameAllocator,
    loader: Loader,
    clock_us: u64,
}

/// The tasks in the slots of a table, by pid.
spec fn tasks_of(slots: Seq<Option<Task>>) -> Map<usize, TaskView> {
    Map::new(
        |p: usize| (p as int) < slots.len() && slots[p as int] is Some,
        |p: usize| slots[p as int].unwrap()@,
    )
}

/// Some task in the table holds the frame `p`.
spec fn held(slots: Seq<Option<Task>>, p: usize) -> bool {
    exists|i: int|
        0 <= i < slots.len() && (#[trigger] slots[i]) is Some
            && slots[i].unwrap().space.frames().contains(p)
}

/// Every task stands in the slot of its pid, on memory that is sound and
/// backed by frames of the pool that no other task holds; a zombie holds
/// no frame, and every frame that the pool hands out is held by a task.
spec fn slots_wf(slots: Seq<Option<Task>>, pool: FrameAllocator) -> bool {
    &&& slots.len() <= MAX_TASKS
    &&& forall|i: int|
        0 <= i < slots.len() ==> (#[trigger] slots[i] matches Some(t) ==> t.pid == i
            && t.space.wf() && t.space.backed_by(&pool) && (t.status == TaskStatus::Zombie
            ==> t.space.frames() == Set::<usize>::empty()))
    &&& forall|i: int, j: int|
        0 <= i < slots.len() && 0 <= j < slots.len() && i != j ==> (#[trigger] slots[i] matches Some(
            t,
        ) ==> (#[trigger] slots[j] matches Some(u) ==> t.space.frames().disjoint(
            u.space.frames(),
        )))
    &&& forall|p: usize| pool.allocated().contains(p) ==> #[trigger] held(slots, p)
}

/// Putting a task into a slot puts its view under the slot's number.
proof fn lemma_slot_set(slots: Seq<Option<Task>>, i: int, t: Task)
    requires
        0 <= i < slots.len(),
        slots.len() <= MAX_TASKS,
    ensures
        tasks_of(slots.update(i, Some(t))) == tasks_of(slots).insert(i as usize, t@),
{
    assert(tasks_of(slots.update(i, Some(t))) =~= tasks_of(slots).insert(i as usize, t@));
}

/// Emptying a slot removes the task under the slot's number.
proof fn lemma_slot_clear(slots: Seq<Option<Task>>, i: int)
    requires
        0 <= i < slots.len(),
        slots.len() <= MAX_TASKS,
    ensures
        tasks_of(slots.update(i, None)) == tasks_of(slots).remove(i as usize),
{
    assert(tasks_of(slots.update(i, None)) =~= tasks_of(slots).remove(i as usize));
}

/// A new slot with a task puts its view under the new slot's number.
proof fn lemma_slot_push(slots: Seq<Option<Task>>, t: Task)
    requires
        slots.len() < MAX_TASKS,
    ensures
        tasks_of(slots.push(Some(t))) == tasks_of(slots).insert(slots.len() as usize, t@),
{
    assert(tasks_of(slots.push(Some(t))) =~= tasks_of(slots).insert(slots.len() as usize, t@));
}

/// A table stays sound when the task in slot `c` is replaced by one whose
/// memory took frames from the pool, or gave frames back, without touching
/// a frame of another task.
proof fn lemma_slots_step(
    slots: Seq<Option<Task>>,
    before: FrameAllocator,
    after: FrameAllocator,
    c: int,
    task: Task,
)
    requires
        slots_wf(slots, before),
        0 <= c < slots.len(),
        slots[c] is Some,
        task.pid == c,
        task.space.wf(),
        task.space.backed_by(&after),
        task.space.foreign(&after) == slots[c].unwrap().space.foreign(&before),
        task.status == TaskStatus::Zombie ==> task.space.frames() == Set::<usize>::empty(),
    ensures
        slots_wf(slots.update(c, Some(task)), after),
{
    let next = slots.update(c, Some(task));
    let was = slots[c].unwrap();
    let others = was.space.foreign(&before);
    assert forall|i: int| 0 <= i < slots.len() && i != c && slots[i] is Some implies (
    #[trigger] slots[i]).unwrap().space.frames().subset_of(others) by {
        let u = slots[i].unwrap();
        assert(u.space.backed_by(&before));
        assert(slots[c] is Some);
        assert(u.space.frames().disjoint(was.space.frames()));
    }
    assert forall|i: int| 0 <= i < next.len() implies (#[trigger] next[i] matches Some(t) ==> t.pid
        == i && t.space.wf() && t.space.backed_by(&after) && (t.status == TaskStatus::Zombie
        ==> t.space.frames() == Set::<usize>::empty())) by {
        if i != c && next[i] is Some {
            assert(slots[i] is Some);
            assert(slots[i].unwrap().space.frames().subset_of(others));
        }
    }
    assert forall|i: int, j: int|
        0 <= i < next.len() && 0 <= j < next.len() && i != j implies (#[trigger] next[i] matches Some(
        t) ==> (#[trigger] next[j] matches Some(u) ==> t.space.frames().disjoint(u.space.frames()))) by {
        if next[i] is Some && next[j] is Some {
            if i == c {
                assert(slots[j] is Some);
                assert(slots[j].unwrap().space.frames().subset_of(others));
            } else if j == c {
                assert(slots[i] is Some);
                assert(slots[i].unwrap().space.frames().subset_of(others));
            } else {
                assert(slots[i] is Some && slots[j] is Some);
            }
        }
    }
    assert forall|p: usize| after.allocated().contains(p) implies #[trigger] held(next, p) by {
        if task.space.frames().contains(p) {
            assert(next[c] is Some && next[c].unwrap().space.frames().contains(p));
        } else {
            assert(task.space.foreign(&after).contains(p));
            assert(others.contains(p));
            assert(held(slots, p));
            let i = choose|i: int|
                0 <= i < slots.len() && (#[trigger] slots[i]) is Some
                    && slots[i].unwrap().space.frames().contains(p);
            assert(i != c);
            assert(next[i] is Some && next[i].unwrap().space.frames().contains(p));
        }
    }
}

/// A table stays sound when a task whose memory stands on frames fresh
/// from the pool is put into the empty slot `pid`, or into a new slot.
proof fn lemma_slots_install(
    slots: Seq<Option<Task>>,
    before: FrameAllocator,
    after: FrameAllocator,
    pid: int,
    task: Task,
)
    requires
        slots_wf(slots, before),
        0 <= pid <= slots.len(),
        pid < MAX_TASKS,
        pid < slots.len() ==> slots[pid] is None,
        task.pid == pid,
        task.status != TaskStatus::Zombie,
        task.space.wf(),
        task.space.frames().disjoint(before.allocated()),
        after.allocated() == before.allocated().union(task.space.frames()),
    ensures
        slots_wf(
            if pid < slots.len() {
                slots.update(pid, Some(task))
            } else {
                slots.push(Some(task))
            },
            after,
        ),
{
    let next = if pid < slots.len() {
        slots.update(pid, Some(task))
    } else {
        slots.push(Some(task))
    };
    assert forall|i: int| 0 <= i < slots.len() && slots[i] is Some implies (#[trigger] slots[i]).unwrap().space.frames().subset_of(
    before.allocated()) by {
        assert(slots[i].unwrap().space.backed_by(&before));
    }
    assert forall|i: int| 0 <= i < next.len() implies (#[trigger] next[i] matches Some(t) ==> t.pid
        == i && t.space.wf() && t.space.backed_by(&after) && (t.status == TaskStatus::Zombie
        ==> t.space.frames() == Set::<usize>::empty())) by {
        if i != pid && next[i] is Some {
            assert(slots[i] is Some);
            assert(slots[i].unwrap().space.frames().subset_of(before.allocated()));
        }
    }
    assert forall|i: int, j: int|
        0 <= i < next.len() && 0 <= j < next.len() && i != j implies (#[trigger] next[i] matches Some(
        t) ==> (#[trigger] next[j] matches Some(u) ==> t.space.frames().disjoint(u.space.frames()))) by {
        if next[i] is Some && next[j] is Some {
            if i == pid {
                assert(slots[j] is Some);
                assert(slots[j].unwrap().space.frames().subset_of(before.allocated()));
            } else if j == pid {
                assert(slots[i] is Some);
                assert(slots[i].unwrap().space.frames().subset_of(before.allocated()));
            } else {
                assert(slots[i] is Some && slots[j] is Some);
            }
        }
    }
    assert forall|p: usize| after.allocated().contains(p) implies #[trigger] held(next, p) by {
        if task.space.frames().contains(p) {
            assert(next[pid] is Some && next[pid].unwrap().space.frames().contains(p));
        } else {
            assert(before.allocated().contains(p));
            assert(held(slots, p));
            let i = choose|i: int|
                0 <= i < slots.len() && (#[trigger] slots[i]) is Some
                    && slots[i].unwrap().space.frames().contains(p);
            assert(next[i] is Some && next[i].unwrap().space.frames().contains(p));
        }
    }
}

/// A table stays sound when a slot whose task holds no frame is emptied.
proof fn lemma_slots_drop(slots: Seq<Option<Task>>, pool: FrameAllocator, i: int)
    requires
        slots_wf(slots, pool),
        0 <= i < slots.len(),
        slots[i] matches Some(t) ==> t.space.frames() == Set::<usize>::empty(),
    ensures
        slots_wf(slots.update(i, None), pool),
{
    let next = slots.update(i, None);
    assert forall|j: int| 0 <= j < next.len() implies (#[trigger] next[j] matches Some(t) ==> t.pid
        == j && t.space.wf() && t.space.backed_by(&pool) && (t.status == TaskStatus::Zombie
        ==> t.space.frames() == Set::<usize>::empty())) by {
        if next[j] is Some {
            assert(slots[j] is Some);
        }
    }
    assert forall|j: int, k: int|
        0 <= j < next.len() && 0 <= k < next.len() && j != k implies (#[trigger] next[j] matches Some(
        t) ==> (#[trigger] next[k] matches Some(u) ==> t.space.frames().disjoint(u.space.frames()))) by {
        if next[j] is Some && next[k] is Some {
            assert(slots[j] is Some && slots[k] is Some);
        }
    }
    assert forall|p: usize| pool.allocated().contains(p) implies #[trigger] held(next, p) by {
        assert(held(slots, p));
        let j = choose|j: int|
            0 <= j < slots.len() && (#[trigger] slots[j]) is Some
                && slots[j].unwrap().space.frames().contains(p);
        assert(j != i);
        assert(next[j] is Some && next[j].unwrap().space.frames().contains(p));
    }
}

/// The view is well formed; kept closed where the parts of that are not
/// needed.
#[verifier::opaque]
spec fn sound_view(v: KernelView) -> bool {
    v.wf()
}

/// A table in which a new task was put into the slot `pid` and the task
/// in the slot `c` was changed without touching its memory holds the
/// memory that it held before, and that of the new task.
proof fn lemma_adopted(
    before: Seq<Option<Task>>,
    mid: Seq<Option<Task>>,
    after: Seq<Option<Task>>,
    pid: int,
    c: int,
)
    requires
        0 <= pid <= before.len(),
        0 <= c < before.len(),
        c != pid,
        before[c] is Some,
        pid < before.len() ==> before[pid] is None,
        mid == (if pid < before.len() {
            before.update(pid, mid[pid])
        } else {
            before.push(mid[pid])
        }),
        mid[pid] is Some,
        after.len() == mid.len(),
        after[c] is Some,
        after[c].unwrap().space == mid[c].unwrap().space,
        forall|j: int| 0 <= j < mid.len() && j != c ==> after[j] == mid[j],
    ensures
        after[pid].unwrap().space == mid[pid].unwrap().space,
        forall|q: int|
            0 <= q < before.len() && (#[trigger] before[q]) is Some ==> after[q] is Some
                && after[q].unwrap().space == before[q].unwrap().space,
{
    assert forall|q: int| 0 <= q < before.len() && (#[trigger] before[q]) is Some implies after[q] is Some
        && after[q].unwrap().space == before[q].unwrap().space by {
        assert(q != pid);
        assert(mid[q] == before[q]);
    }
}

/// What becomes of a slot when the task `c` gives up its children: a
/// terminated child leaves, another child has no parent any more, and
/// every other slot stays as it is.
spec fn orphan_ok(was: Option<Task>, now: Option<Task>, c: usize) -> bool {
    match was {
        Some(t) => if t@.parent == Some(c) {
            if t@.status == TaskStatus::Zombie {
                now is None
            } else {
                now is Some && now.unwrap()@ == (TaskView { parent: None, ..t@ })
            }
        } else {
            now == was
        },
        None => now is None,
    }
}

/// The least multiple of the page size that is not below `x`.
fn page_up(x: usize) -> (r: usize)
    requires
        x + PAGE_SIZE - 1 <= usize::MAX,
    ensures
        r == page_ceil(x as int),
        r % PAGE_SIZE == 0,
        x <= r < x + PAGE_SIZE,
{
    ((x + (PAGE_SIZE - 1)) / PAGE_SIZE) * PAGE_SIZE
}

/// Moves the program break of `task` by `delta` bytes and maps or unmaps
/// the pages between the old break and the new one.
fn move_break(task: &mut Task, pool: &mut FrameAllocator, delta: i32) -> (r: Option<usize>)
    requires
        old(task).space.wf(),
        old(pool).wf(),
        old(task).space.backed_by(old(pool)),
    ensures
        final(task).space.wf(),
        final(pool).wf(),
        final(task).space.backed_by(final(pool)),
        final(task).space.foreign(final(pool)) == old(task).space.foreign(old(pool)),
        final(task).space.keeps_frames(&old(task).space),
        *final(task) == (Task {
            space: final(task).space,
            program_brk: final(task).program_brk,
            ..*old(task)
        }),
        match brk_step(old(task).space@, old(task).heap_bottom, old(task).program_brk, delta) {
            Some((space, program_brk)) => r == Some(old(task).program_brk) && final(task).space@
                == space && final(task).program_brk == program_brk,
            None => r is None && *final(task) == *old(task) && *final(pool) == *old(pool),
        },
        r matches Some(brk) ==> brk <= isize::MAX,
{
    let limit = isize::MAX as usize;
    let brk = task.program_brk;
    if brk > limit {
        return None;
    }
    if delta >= 0 {
        let up = delta as usize;
        if up > limit - brk || brk + up < task.heap_bottom {
            return None;
        }
        let new = brk + up;
        let from = page_up(brk);
        let to = page_up(new);
        let pages = (to - from) / PAGE_SIZE;
        let perm = MapPermission { user: true, read: true, write: true, execute: false };
        if task.space.map_pages(pool, from, pages, perm) {
            task.program_brk = new;
            Some(brk)
        } else {
            None
        }
    } else {
        let down = (-(delta as i64)) as usize;
        if down > brk || brk - down < task.heap_bottom {
            return None;
        }
        let new = brk - down;
        let from = page_up(new);
        let to = page_up(brk);
        let pages = (to - from) / PAGE_SIZE;
        task.space.unmap_pages(pool, from, pages);
        task.program_brk = new;
        Some(brk)
    }
}

impl View for Kernel {
    type V = KernelView;

    closed spec fn view(&self) -> KernelView {
        KernelView {
            tasks: tasks_of(self.tasks@),
            current: self.current,
            ready: self.ready@,
            clock_us: self.clock_us,
            images: self.loader@,
        }
    }
}

impl Kernel {
    /// What holds of the kernel between any two operations.
    pub closed spec fn wf(&self) -> bool {
        &&& self@.wf()
        &&& self.pool.wf()
        &&& self.loader.wf()
        &&& slots_wf(self.tasks@, self.pool)
    }

    /// The view of a well-formed kernel is well formed.
    pub proof fn lemma_view_wf(&self)
        requires
            self.wf(),
        ensures
            self@.wf(),
    {
    }

    /// The memory of the task `pid`, with the frames behind it.
    pub closed spec fn space_of(&self, pid: usize) -> AddressSpace {
        self.tasks[pid as int].unwrap().space
    }

    /// The pool of frames.
    pub closed spec fn pool(&self) -> FrameAllocator {
        self.pool
    }

    /// Every task but `c` that lives before and after has the memory and
    /// the frames that it had in `before`.
    pub open spec fn keeps_spaces_but(&self, before: &Kernel, c: usize) -> bool {
        forall|q: usize|
            q != c && before@.has(q) && self@.has(q) ==> #[trigger] self.space_of(q)
                == before.space_of(q)
    }

    /// The pool is as it was in `before`, and every task that lives before
    /// and after has the memory and the frames that it had.
    pub open spec fn kept(&self, before: &Kernel) -> bool {
        &&& self.pool() == before.pool()
        &&& forall|q: usize|
            before@.has(q) && self@.has(q) ==> #[trigger] self.space_of(q) == before.space_of(q)
    }

    /// Only the memory of the task `c` has changed since `before`: it took
    /// frames from the pool, or gave frames back, and touched no frame of
    /// another task. If the task is gone, the pool has all its frames
    /// back.
    pub open spec fn changed(&self, before: &Kernel, c: usize) -> bool {
        &&& self.keeps_spaces_but(before, c)
        &&& if self@.has(c) {
            AddressSpace::accounted(
                &before.space_of(c),
                &before.pool(),
                &self.space_of(c),
                &self.pool(),
            )
        } else {
            self.pool().wf() && self.pool().allocated() == before.space_of(c).foreign(
                &before.pool(),
            )
        }
    }

    /// Only the memory of the task `c` has changed since `before`, and
    /// every address of it that stays mapped keeps its frame.
    pub open spec fn changed_in_place(&self, before: &Kernel, c: usize) -> bool {
        &&& self.changed(before, c)
        &&& self.space_of(c).keeps_frames(&before.space_of(c))
    }

    /// The task `pid` is new since `before`: its memory stands on frames
    /// that the pool had not handed out, and every other task has the
    /// memory and the frames that it had.
    pub open spec fn grown(&self, before: &Kernel, pid: usize) -> bool {
        &&& forall|q: usize|
            before@.has(q) && self@.has(q) ==> #[trigger] self.space_of(q) == before.space_of(q)
        &&& self.space_of(pid).wf()
        &&& self.space_of(pid).frames().disjoint(before.pool().allocated())
        &&& self.pool().allocated() == before.pool().allocated().union(
            self.space_of(pid).frames(),
        )
    }

    /// In a well-formed kernel the memory of a task is what its view
    /// says, every frame that the pool hands out is held by exactly one
    /// living task, and a zombie holds none.
    pub proof fn lemma_frame_ownership(&self)
        requires
            self.wf(),
        ensures
            self.pool().wf(),
            forall|pid: usize|
                self@.has(pid) ==> (#[trigger] self.space_of(pid)).wf() && self.space_of(pid)@
                    == self@.tasks[pid].space && self.space_of(pid).backed_by(&self.pool()),
            forall|p: usize|
                self.pool().allocated().contains(p) ==> exists|pid: usize|
                    self@.has(pid) && (#[trigger] self.space_of(pid)).frames().contains(p),
            forall|a: usize, b: usize|
                a != b && self@.has(a) && self@.has(b) ==> (#[trigger] self.space_of(a)).frames().disjoint(
                    (#[trigger] self.space_of(b)).frames(),
                ),
            forall|pid: usize|
                self@.has(pid) && self@.tasks[pid].status == TaskStatus::Zombie ==> (
                #[trigger] self.space_of(pid)).frames() == Set::<usize>::empty(),
    {
        let slots = self.tasks@;
        assert(slots_wf(slots, self.pool));
        assert forall|pid: usize| self@.has(pid) implies (#[trigger] self.space_of(pid)).wf()
            && self.space_of(pid)@ == self@.tasks[pid].space && self.space_of(pid).backed_by(
            &self.pool(),
        ) && (self@.tasks[pid].status == TaskStatus::Zombie ==> self.space_of(pid).frames()
            == Set::<usize>::empty()) by {
            assert(slots[pid as int] is Some);
            slots[pid as int].unwrap().lemma_view();
        }
        assert forall|p: usize| self.pool().allocated().contains(p) implies exists|pid: usize|
            self@.has(pid) && (#[trigger] self.space_of(pid)).frames().contains(p) by {
            assert(held(slots, p));
            let i = choose|i: int|
                0 <= i < slots.len() && (#[trigger] slots[i]) is Some
                    && slots[i].unwrap().space.frames().contains(p);
            assert(self@.has(i as usize));
            assert(self.space_of(i as usize).frames().contains(p));
        }
        assert forall|a: usize, b: usize| a != b && self@.has(a) && self@.has(b) implies (
        #[trigger] self.space_of(a)).frames().disjoint((#[trigger] self.space_of(b)).frames()) by {
            assert(slots[a as int] is Some && slots[b as int] is Some);
        }
    }

    /// A kernel that did not change has, trivially, changed only the
    /// memory of its current task.
    pub proof fn lemma_unchanged(&self)
        requires
            self.wf(),
            self@.current is Some,
        ensures
            self.kept(self),
            self.changed(self, self@.current.unwrap()),
            self.space_of(self@.current.unwrap()).keeps_frames(
                &self.space_of(self@.current.unwrap()),
            ),
    {
        self.lemma_frame_ownership();
        assert(self@.has(self@.current.unwrap()));
    }

    /// A change of the memory of the task `c`, followed by a step that
    /// keeps all memory and the task `c`, is a change of the memory of
    /// `c`.
    pub proof fn lemma_changed_then_kept(&self, first: &Kernel, before: &Kernel, c: usize)
        requires
            first.changed(before, c),
            self.kept(first),
            first@.has(c),
            self@.has(c),
            forall|q: usize| self@.has(q) ==> #[trigger] first@.has(q),
        ensures
            self.changed(before, c),
            first.space_of(c).keeps_frames(&before.space_of(c)) ==> self.space_of(c).keeps_frames(
                &before.space_of(c),
            ),
    {
        assert(self.space_of(c) == first.space_of(c));
        assert forall|q: usize| q != c && before@.has(q) && self@.has(q) implies #[trigger] self.space_of(
            q,
        ) == before.space_of(q) by {
            assert(first@.has(q));
            assert(self.space_of(q) == first.space_of(q));
        }
    }

    /// A step that keeps all memory and all tasks, followed by a change of
    /// the memory of the task `c`, is a change of the memory of `c`.
    pub proof fn lemma_kept_then_changed(&self, mid: &Kernel, before: &Kernel, c: usize)
        requires
            mid.kept(before),
            self.changed(mid, c),
            before@.has(c),
            forall|q: usize| before@.has(q) <==> #[trigger] mid@.has(q),
        ensures
            self.changed(before, c),
            self.space_of(c).keeps_frames(&mid.space_of(c)) ==> self.space_of(c).keeps_frames(
                &before.space_of(c),
            ),
    {
        assert(mid@.has(c));
        assert(mid.space_of(c) == before.space_of(c));
        assert forall|q: usize| q != c && before@.has(q) && self@.has(q) implies #[trigger] self.space_of(
            q,
        ) == before.space_of(q) by {
            assert(mid@.has(q));
            assert(mid.space_of(q) == before.space_of(q));
        }
    }

    /// Two steps that keep all memory, with the same tasks between them,
    /// keep all memory.
    pub proof fn lemma_kept_then_kept(&self, mid: &Kernel, before: &Kernel)
        requires
            mid.kept(before),
            self.kept(mid),
            forall|q: usize| before@.has(q) && self@.has(q) ==> #[trigger] mid@.has(q),
        ensures
            self.kept(before),
    {
        assert forall|q: usize| before@.has(q) && self@.has(q) implies #[trigger] self.space_of(q)
            == before.space_of(q) by {
            assert(mid@.has(q));
            assert(mid.space_of(q) == before.space_of(q));
        }
    }

    /// A new task stays new when steps that keep all memory and all tasks
    /// come before and after its creation.
    pub proof fn lemma_grown_between_kept(
        &self,
        made: &Kernel,
        counted: &Kernel,
        before: &Kernel,
        pid: usize,
    )
        requires
            counted.kept(before),
            made.grown(counted, pid),
            self.kept(made),
            forall|q: usize| before@.has(q) <==> #[trigger] counted@.has(q),
            forall|q: usize| made@.has(q) <==> #[trigger] self@.has(q),
            forall|q: usize| counted@.has(q) ==> #[trigger] made@.has(q),
            made@.has(pid),
        ensures
            self.grown(before, pid),
    {
        assert(self@.has(pid));
        assert(self.space_of(pid) == made.space_of(pid));
        assert forall|q: usize| before@.has(q) && self@.has(q) implies #[trigger] self.space_of(q)
            == before.space_of(q) by {
            assert(counted@.has(q));
            assert(made@.has(q));
            assert(made.space_of(q) == counted.space_of(q));
            assert(counted.space_of(q) == before.space_of(q));
        }
    }

    /// A kernel without tasks for the programs of `loader`.
    pub fn new(loader: Loader) -> (k: Kernel)
        requires
            loader.wf(),
        ensures
            k.wf(),
            k@ == (KernelView {
                tasks: Map::empty(),
                current: None,
                ready: Seq::empty(),
                clock_us: 0,
                images: loader@,
            }),
    {
        let k = Kernel {
            tasks: Vec::new(),
            current: None,
            ready: Vec::new(),
            pool: FrameAllocator::new(),
            loader,
            clock_us: 0,
        };
        assert(k@.tasks =~= Map::<usize, TaskView>::empty());
        k
    }

    /// The pid of the task on the processor.
    pub fn current_pid(&self) -> (r: Option<usize>)
        ensures
            r == self@.current,
    {
        self.current
    }

    /// The clock in microseconds.
    pub fn now_us(&self) -> (r: u64)
        ensures
            r == self@.clock_us,
    {
        self.clock_us
    }

    /// Takes a reading of the clock. A reading below the clock is ignored:
    /// the clock never goes back.
    pub fn tick(&mut self, now_us: u64)
        requires
            old(self).wf(),
        ensures
            final(self).wf(),
            final(self).kept(old(self)),
            final(self)@ == old(self)@.after_tick(now_us),
    {
        if now_us > self.clock_us {
            self.clock_us = now_us;
        }
        proof {
            old(self)@.lemma_tick_wf(now_us);
        }
    }

    /// Gives the free processor to the head of the run queue and returns
    /// its pid, or `None` if the queue is empty.
    pub fn dispatch(&mut self) -> (r: Option<usize>)
        requires
            old(self).wf(),
            old(self)@.current is None,
        ensures
            final(self).wf(),
            final(self).kept(old(self)),
            final(self)@ == old(self)@.after_dispatch(),
            r == final(self)@.current,
    {
        proof {
            old(self)@.lemma_dispatch_wf();
        }
        if self.ready.len() == 0 {
            return None;
        }
        let next = self.ready.remove(0);
        assert(self.ready@ =~= old(self).ready@.drop_first());
        assert(old(self)@.has(old(self)@.ready[0]));
        let now_ms = self.clock_us / 1000;
        match &mut self.tasks[next] {
            Some(t) => {
                t.status = TaskStatus::Running;
                if t.running_time.is_none() {
                    t.running_time = Some(now_ms);
                }
            },
            None => {},
        }
        self.current = Some(next);
        proof {
            let t = self.tasks[next as int].unwrap();
            let was = old(self).tasks[next as int].unwrap();
            assert(self.tasks@ =~= old(self).tasks@.update(next as int, Some(t)));
            lemma_slot_set(old(self).tasks@, next as int, t);
            assert(old(self)@.tasks[next] == was@);
            t.lemma_view();
            was.lemma_view();
            assert(t@ == TaskView {
                status: TaskStatus::Running,
                running_time: Some(
                    match was@.running_time {
                        Some(ms) => ms,
                        None => (old(self)@.clock_us / 1000) as u64,
                    },
                ),
                ..was@
            });
            assert(self@.tasks == old(self)@.after_dispatch().tasks);
            assert(self@ == old(self)@.after_dispatch());
            lemma_slots_step(old(self).tasks@, self.pool, self.pool, next as int, t);
        }
        Some(next)
    }

    /// The current task goes to the tail of the run queue and the head of
    /// the queue gets the processor. Returns the pid of the task that runs
    /// now.
    pub fn yield_now(&mut self) -> (r: usize)
        requires
            old(self).wf(),
            old(self)@.current is Some,
        ensures
            final(self).wf(),
            final(self).kept(old(self)),
            final(self)@ == old(self)@.after_yield(),
            final(self)@.current == Some(r),
    {
        proof {
            old(self)@.lemma_suspend_wf();
            old(self)@.lemma_yield_wf();
        }
        let c = match self.current {
            Some(c) => c,
            None => 0,
        };
        assert(old(self)@.has(c));
        match &mut self.tasks[c] {
            Some(t) => {
                t.status = TaskStatus::Ready;
            },
            None => {},
        }
        self.ready.push(c);
        self.current = None;
        proof {
            let t = self.tasks[c as int].unwrap();
            let was = old(self).tasks[c as int].unwrap();
            assert(self.tasks@ =~= old(self).tasks@.update(c as int, Some(t)));
            lemma_slot_set(old(self).tasks@, c as int, t);
            t.lemma_view();
            was.lemma_view();
            assert(self@.tasks == old(self)@.after_suspend().tasks);
            assert(self@ == old(self)@.after_suspend());
            lemma_slots_step(old(self).tasks@, self.pool, self.pool, c as int, t);
        }
        match self.dispatch() {
            Some(r) => r,
            None => c,
        }
    }

    /// The pid that the next new task gets.
    pub fn free_pid(&self) -> (r: Option<usize>)
        requires
            self.wf(),
        ensures
            match r {
                Some(p) => self@.is_free_pid(p),
                None => !self@.has_free_pid(),
            },
    {
        let mut i: usize = 0;
        while i < self.tasks.len()
            invariant
                i <= self.tasks.len(),
                self.wf(),
                forall|q: usize| q < i ==> #[trigger] self@.has(q),
            decreases self.tasks.len() - i,
        {
            if self.tasks[i].is_none() {
                assert(!self@.has(i));
                assert(slots_wf(self.tasks@, self.pool));
                return Some(i);
            }
            assert(self@.has(i));
            i += 1;
        }
        assert(slots_wf(self.tasks@, self.pool));
        if i < MAX_TASKS {
            assert(!self@.has(i));
            Some(i)
        } else {
            proof {
                assert forall|p: usize| !self@.is_free_pid(p) by {
                    if p < MAX_TASKS {
                        assert(self@.has(p));
                    }
                }
            }
            None
        }
    }

    /// The top of the kernel stack of the task `pid`.
    pub fn kernel_stack(pid: usize) -> (sp: usize)
        requires
            pid < MAX_TASKS,
        ensures
            sp == kernel_stack_top(pid),
    {
        let stride: usize = KERNEL_STACK_SIZE + PAGE_SIZE;
        assert(pid * stride <= MAX_TASKS * stride) by (nonlinear_arith)
            requires
                pid < MAX_TASKS,
                stride > 0,
        ;
        KERNEL_STACK_BASE - pid * stride
    }

    /// Puts `task` into the slot of the free pid `pid`.
    fn install(&mut self, pid: usize, task: Task)
        requires
            old(self).tasks@.len() <= MAX_TASKS,
            old(self)@.is_free_pid(pid),
        ensures
            final(self).tasks@ == (if pid < old(self).tasks.len() {
                old(self).tasks@.update(pid as int, Some(task))
            } else {
                old(self).tasks@.push(Some(task))
            }),
            pid <= old(self).tasks.len(),
            pid < old(self).tasks.len() ==> old(self).tasks[pid as int] is None,
            tasks_of(final(self).tasks@) == tasks_of(old(self).tasks@).insert(pid, task@),
            final(self).current == old(self).current,
            final(self).ready == old(self).ready,
            final(self).pool == old(self).pool,
            final(self).loader == old(self).loader,
            final(self).clock_us == old(self).clock_us,
    {
        proof {
            if pid > self.tasks.len() {
                assert(self@.has(self.tasks.len() as usize));
            }
            assert(!self@.has(pid));
        }
        if pid < self.tasks.len() {
            proof {
                assert(tasks_of(self.tasks@.update(pid as int, Some(task))) =~= tasks_of(
                    self.tasks@,
                ).insert(pid, task@));
            }
            self.tasks[pid] = Some(task);
        } else {
            proof {
                lemma_slot_push(self.tasks@, task);
            }
            self.tasks.push(Some(task));
        }
    }

    /// Creates a task without parent that runs the program `name`, and
    /// queues it. Returns its pid, or `None` if there is no such program
    /// or no pid is free.
    pub fn launch(&mut self, name: &Vec<u8>) -> (r: Option<usize>)
        requires
            old(self).wf(),
        ensures
            final(self).wf(),
            match r {
                Some(pid) => final(self).grown(old(self), pid),
                None => final(self).kept(old(self)),
            },
            match r {
                Some(pid) => old(self)@.image(name@) is Some && old(self)@.is_free_pid(pid)
                    && final(self)@ == old(self)@.after_launch(
                    pid,
                    old(self)@.image(name@).unwrap(),
                ),
                None => (old(self)@.image(name@) is None || !old(self)@.has_free_pid())
                    && final(self)@ == old(self)@,
            },
    {
        let pid = match self.free_pid() {
            Some(pid) => pid,
            None => {
                return None;
            },
        };
        let image = match self.loader.lookup(name) {
            Some(image) => image,
            None => {
                return None;
            },
        };
        let mut space = AddressSpace::new();
        let ghost empty = space;
        assert(empty.foreign(&self.pool) =~= self.pool.allocated());
        space.replace_with(&mut self.pool, image);
        proof {
            let held = old(self).pool.allocated();
            assert(space.foreign(&self.pool) == held);
            assert forall|p: usize| held.contains(p) implies self.pool.allocated().contains(p)
                && !space.frames().contains(p) by {
                assert(space.foreign(&self.pool).contains(p));
            }
        }
        let task = Task {
            pid,
            status: TaskStatus::Ready,
            parent: None,
            children: Vec::new(),
            space,
            trap_cx: TrapContext::app_init_context(image.entry, image.stack_top),
            task_cx: TaskContext::goto_trap_return(Self::kernel_stack(pid)),
            syscall_count: zero_counters(),
            running_time: None,
            exit_code: 0,
            pending_exec_path: None,
            heap_bottom: image.stack_top,
            program_brk: image.stack_top,
        };
        proof {
            task.lemma_view();
            task.space.lemma_view_wf();
            assert(task@ == KernelView::launched(pid, *image));
            old(self)@.lemma_launch_wf(pid, *image);
            assert(task.space.frames().disjoint(old(self).pool.allocated()));
            assert(self.pool.allocated() =~= old(self).pool.allocated().union(
                task.space.frames(),
            ));
            assert(slots_wf(old(self).tasks@, old(self).pool));
        }
        self.install(pid, task);
        self.ready.push(pid);
        proof {
            lemma_slots_install(old(self).tasks@, old(self).pool, self.pool, pid as int, task);
            assert(self@ == old(self)@.after_launch(pid, *image));
        }
        Some(pid)
    }

    /// Makes `child` a task under the free pid `pid`, a child of the
    /// current task, and queues it. The memory of the child stands on the
    /// frames that the pool has handed out since it was `before`.
    fn adopt(&mut self, pid: usize, child: Task, Ghost(before): Ghost<FrameAllocator>)
        requires
            sound_view(old(self)@.with_child(pid, child@)),
            old(self)@.has(old(self)@.current.unwrap()),
            old(self).tasks@.len() <= MAX_TASKS,
            old(self).pool.wf(),
            old(self).loader.wf(),
            slots_wf(old(self).tasks@, before),
            old(self)@.current is Some,
            old(self)@.is_free_pid(pid),
            child.pid == pid,
            child.status == TaskStatus::Ready,
            child.parent == old(self)@.current,
            child.children@.len() == 0,
            child.space.wf(),
            child.space.frames().disjoint(before.allocated()),
            old(self).pool.allocated() == before.allocated().union(child.space.frames()),
            child.syscall_count@.len() == MAX_SYSCALL_NUM,
            child.running_time is None,
            child.pending_exec_path is Some <==> child.task_cx@.ra == SwitchTarget::FirstDispatch,
        ensures
            final(self).wf(),
            final(self).pool == old(self).pool,
            final(self).space_of(pid) == child.space,
            forall|q: usize|
                old(self)@.has(q) ==> #[trigger] final(self).space_of(q) == old(self).space_of(q),
            final(self)@ == old(self)@.with_child(pid, child@),
    {
        let c = match self.current {
            Some(c) => c,
            None => 0,
        };
        self.install(pid, child);
        let ghost mid = self.tasks@;
        proof {
            lemma_slots_install(old(self).tasks@, before, self.pool, pid as int, child);
        }
        match &mut self.tasks[c] {
            Some(t) => {
                t.children.push(pid);
            },
            None => {},
        }
        self.ready.push(pid);
        proof {
            let t = self.tasks[c as int].unwrap();
            let was = old(self).tasks[c as int].unwrap();
            assert(mid[c as int] == Some(was));
            assert(self.tasks@ =~= mid.update(c as int, Some(t)));
            lemma_slot_set(mid, c as int, t);
            t.lemma_view();
            was.lemma_view();
            assert(old(self)@.tasks[c] == was@);
            assert(t@ == TaskView { children: was@.children.push(pid), ..was@ });
            assert(self@.tasks == old(self)@.with_child(pid, child@).tasks);
            assert(self@ == old(self)@.with_child(pid, child@));
            lemma_slots_step(mid, self.pool, self.pool, c as int, t);
            lemma_adopted(old(self).tasks@, mid, self.tasks@, pid as int, c as int);
            assert(self@.wf()) by {
                reveal(sound_view);
            }
        }
    }

    /// The current task forks: the child is a copy of the parent whose
    /// system call returns 0. Returns the child's pid, or `None` if no pid
    /// is free.
    pub fn fork(&mut self) -> (r: Option<usize>)
        requires
            old(self).wf(),
            old(self)@.current is Some,
        ensures
            final(self).wf(),
            match r {
                Some(pid) => final(self).grown(old(self), pid),
                None => final(self).kept(old(self)),
            },
            match r {
                Some(pid) => old(self)@.is_free_pid(pid) && final(self)@ == old(self)@.after_fork(
                    pid,
                ),
                None => !old(self)@.has_free_pid() && final(self)@ == old(self)@,
            },
    {
        let pid = match self.free_pid() {
            Some(pid) => pid,
            None => {
                return None;
            },
        };
        let c = match self.current {
            Some(c) => c,
            None => 0,
        };
        proof {
            assert(old(self)@.has(c));
            assert(slots_wf(self.tasks@, self.pool));
        }
        let child = match &self.tasks[c] {
            Some(t) => {
                let space = t.space.duplicate(&mut self.pool);
                let mut trap_cx = t.trap_cx;
                trap_cx.set_return_value(0);
                Task {
                    pid,
                    status: TaskStatus::Ready,
                    parent: Some(c),
                    children: Vec::new(),
                    space,
                    trap_cx,
                    task_cx: TaskContext::goto_trap_return(Self::kernel_stack(pid)),
                    syscall_count: zero_counters(),
                    running_time: None,
                    exit_code: 0,
                    pending_exec_path: None,
                    heap_bottom: t.heap_bottom,
                    program_brk: t.program_brk,
                }
            },
            None => {
                return None;
            },
        };
        proof {
            let was = old(self).tasks[c as int].unwrap();
            was.lemma_view();
            child.lemma_view();
            assert(old(self)@.tasks[c] == was@);
            assert(child@ == old(self)@.forked(pid));
            child.space.lemma_view_wf();
            old(self)@.lemma_with_child_wf(pid, child@);
            assert(sound_view(old(self)@.with_child(pid, child@))) by {
                reveal(sound_view);
            }
        }
        self.adopt(pid, child, Ghost(old(self).pool));
        Some(pid)
    }

    /// The current task spawns a child that will run the program `path`:
    /// the child loads it when it is first dispatched. Returns the child's
    /// pid, or `None` if there is no such program or no pid is free.
    pub fn spawn(&mut self, path: Vec<u8>) -> (r: Option<usize>)
        requires
            old(self).wf(),
            old(self)@.current is Some,
        ensures
            final(self).wf(),
            r matches Some(pid) ==> final(self).grown(old(self), pid),
            match r {
                Some(pid) => old(self)@.image(path@) is Some && old(self)@.is_free_pid(pid)
                    && final(self)@ == old(self)@.after_spawn(pid, path@),
                None => (old(self)@.image(path@) is None || !old(self)@.has_free_pid())
                    && *final(self) == *old(self),
            },
    {
        if self.loader.lookup(&path).is_none() {
            return None;
        }
        let pid = match self.free_pid() {
            Some(pid) => pid,
            None => {
                return None;
            },
        };
        let ghost name = path@;
        let child = Task {
            pid,
            status: TaskStatus::Ready,
            parent: self.current,
            children: Vec::new(),
            space: AddressSpace::new(),
            trap_cx: TrapContext::app_init_context(0, 0),
            task_cx: TaskContext::goto_trap_exec(Self::kernel_stack(pid)),
            syscall_count: zero_counters(),
            running_time: None,
            exit_code: 0,
            pending_exec_path: Some(path),
            heap_bottom: 0,
            program_brk: 0,
        };
        proof {
            child.lemma_view();
            assert(child@ == old(self)@.spawned(pid, name));
            assert(slots_wf(self.tasks@, self.pool));
            assert(self.pool.allocated() =~= self.pool.allocated().union(child.space.frames()));
            child.space.lemma_view_wf();
            old(self)@.lemma_with_child_wf(pid, child@);
            assert(sound_view(old(self)@.with_child(pid, child@))) by {
                reveal(sound_view);
            }
            assert(old(self)@.has(old(self)@.current.unwrap()));
        }
        self.adopt(pid, child, Ghost(self.pool));
        Some(pid)
    }

    /// The current task replaces its program by the one called `name`.
    /// Without such a program nothing changes and the result is `false`.
    pub fn exec(&mut self, name: &Vec<u8>) -> (ok: bool)
        requires
            old(self).wf(),
            old(self)@.current is Some,
        ensures
            final(self).wf(),
            ok ==> final(self).changed(old(self), old(self)@.current.unwrap()),
            match old(self)@.image(name@) {
                Some(image) => ok && final(self)@ == old(self)@.after_exec(image),
                None => !ok && *final(self) == *old(self),
            },
    {
        let image = match self.loader.lookup(name) {
            Some(image) => image,
            None => {
                return false;
            },
        };
        let c = match self.current {
            Some(c) => c,
            None => 0,
        };
        proof {
            assert(old(self)@.has(c));
            assert(slots_wf(self.tasks@, self.pool));
        }
        match &mut self.tasks[c] {
            Some(t) => {
                t.space.replace_with(&mut self.pool, image);
                t.trap_cx = TrapContext::app_init_context(image.entry, image.stack_top);
                t.heap_bottom = image.stack_top;
                t.program_brk = image.stack_top;
            },
            None => {},
        }
        proof {
            let t = self.tasks[c as int].unwrap();
            let was = old(self).tasks[c as int].unwrap();
            assert(self.tasks@ =~= old(self).tasks@.update(c as int, Some(t)));
            lemma_slot_set(old(self).tasks@, c as int, t);
            t.lemma_view();
            was.lemma_view();
            t.space.lemma_view_wf();
            assert(old(self)@.tasks[c] == was@);
            assert(t@ == KernelView::loaded(was@, *image));
            assert(self@ == old(self)@.after_exec(*image));
            old(self)@.lemma_with_task_wf(c, t@);
            lemma_slots_step(old(self).tasks@, old(self).pool, self.pool, c as int, t);
        }
        true
    }

    /// The current task, dispatched for the first time after a spawn,
    /// loads the program it was spawned for. Without such a program its
    /// memory stays empty and the result is `false`; the name is used up
    /// either way.
    pub fn first_exec(&mut self) -> (ok: bool)
        requires
            old(self).wf(),
            old(self)@.current is Some,
            old(self)@.running().pending_exec_path is Some,
        ensures
            final(self).wf(),
            final(self).changed(old(self), old(self)@.current.unwrap()),
            match old(self)@.image(old(self)@.running().pending_exec_path.unwrap()) {
                Some(image) => ok && final(self)@ == old(self)@.after_first_exec(image),
                None => !ok && final(self)@ == old(self)@.after_first_miss(),
            },
    {
        let c = match self.current {
            Some(c) => c,
            None => 0,
        };
        proof {
            assert(old(self)@.has(c));
            assert(slots_wf(self.tasks@, self.pool));
            old(self).tasks[c as int].unwrap().lemma_view();
        }
        let path = match &mut self.tasks[c] {
            Some(t) => {
                let sp = t.task_cx.stack_pointer();
                t.task_cx = TaskContext::goto_trap_return(sp);
                match t.pending_exec_path.take() {
                    Some(path) => path,
                    None => Vec::new(),
                }
            },
            None => Vec::new(),
        };
        let ghost mid = self.tasks@;
        let ok = match self.loader.lookup(&path) {
            Some(image) => {
                match &mut self.tasks[c] {
                    Some(t) => {
                        t.space.replace_with(&mut self.pool, image);
                        t.trap_cx = TrapContext::app_init_context(image.entry, image.stack_top);
                        t.heap_bottom = image.stack_top;
                        t.program_brk = image.stack_top;
                    },
                    None => {},
                }
                true
            },
            None => false,
        };
        proof {
            let t = self.tasks[c as int].unwrap();
            let was = old(self).tasks[c as int].unwrap();
            assert(self.tasks@ =~= old(self).tasks@.update(c as int, Some(t)));
            lemma_slot_set(old(self).tasks@, c as int, t);
            t.lemma_view();
            was.lemma_view();
            t.space.lemma_view_wf();
            assert(old(self)@.tasks[c] == was@);
            if ok {
                let image = old(self)@.image(path@).unwrap();
                assert(self@ == old(self)@.after_first_exec(image));
            } else {
                assert(self@ == old(self)@.after_first_miss());
            }
            old(self)@.lemma_with_task_wf(c, t@);
            lemma_slots_step(old(self).tasks@, old(self).pool, self.pool, c as int, t);
        }
        ok
    }

    /// The task `c` gives up its children: those that have terminated are
    /// released, the others have no parent any more.
    fn orphan_children(&mut self, c: usize)
        requires
            slots_wf(old(self).tasks@, old(self).pool),
        ensures
            slots_wf(final(self).tasks@, final(self).pool),
            final(self).tasks.len() == old(self).tasks.len(),
            forall|j: int|
                0 <= j < old(self).tasks.len() && (#[trigger] final(self).tasks[j]) is Some
                    ==> old(self).tasks[j] is Some && final(self).tasks[j].unwrap().space
                    == old(self).tasks[j].unwrap().space,
            forall|j: int|
                0 <= j < old(self).tasks.len() ==> orphan_ok(
                    #[trigger] old(self).tasks[j],
                    final(self).tasks[j],
                    c,
                ),
            final(self).current == old(self).current,
            final(self).ready == old(self).ready,
            final(self).pool == old(self).pool,
            final(self).loader == old(self).loader,
            final(self).clock_us == old(self).clock_us,
    {
        let mut i: usize = 0;
        while i < self.tasks.len()
            invariant
                i <= self.tasks.len(),
                self.tasks.len() == old(self).tasks.len(),
                slots_wf(self.tasks@, self.pool),
                forall|j: int| i <= j < self.tasks.len() ==> self.tasks[j] == old(self).tasks[j],
                forall|j: int|
                    0 <= j < i ==> orphan_ok(#[trigger] old(self).tasks[j], self.tasks[j], c),
                forall|j: int|
                    0 <= j < self.tasks.len() && (#[trigger] self.tasks[j]) is Some ==> old(
                        self,
                    ).tasks[j] is Some && self.tasks[j].unwrap().space == old(
                        self,
                    ).tasks[j].unwrap().space,
                self.current == old(self).current,
                self.ready == old(self).ready,
                self.pool == old(self).pool,
                self.loader == old(self).loader,
                self.clock_us == old(self).clock_us,
            decreases self.tasks.len() - i,
        {
            let ghost before = self.tasks@;
            let (mine, dead) = match &self.tasks[i] {
                Some(t) => {
                    proof {
                        t.lemma_view();
                    }
                    let mine = match t.parent {
                        Some(q) => q == c,
                        None => false,
                    };
                    (mine, t.status == TaskStatus::Zombie)
                },
                None => (false, false),
            };
            if mine && dead {
                self.tasks[i] = None;
                proof {
                    lemma_slots_drop(before, self.pool, i as int);
                }
            } else if mine {
                match &mut self.tasks[i] {
                    Some(t) => {
                        t.parent = None;
                    },
                    None => {},
                }
                proof {
                    let t = self.tasks[i as int].unwrap();
                    let was = before[i as int].unwrap();
                    t.lemma_view();
                    was.lemma_view();
                    assert(self.tasks@ =~= before.update(i as int, Some(t)));
                    lemma_slots_step(before, self.pool, self.pool, i as int, t);
                }
            }
            i += 1;
        }
    }

    /// The current task terminates with `code` and the head of the run
    /// queue gets the processor. Returns the pid of the task that runs
    /// now, or `None` if the run queue was empty: then no task can ever
    /// run again.
    pub fn exit_current(&mut self, code: i32) -> (r: Option<usize>)
        requires
            old(self).wf(),
            old(self)@.current is Some,
        ensures
            final(self).wf(),
            final(self).changed(old(self), old(self)@.current.unwrap()),
            final(self)@ == old(self)@.after_exit(code),
            r == final(self)@.current,
    {
        let c = match self.current {
            Some(c) => c,
            None => 0,
        };
        proof {
            old(self)@.lemma_terminate_wf(code);
            assert(old(self)@.has(c));
            assert(slots_wf(self.tasks@, self.pool));
            old(self).tasks[c as int].unwrap().lemma_view();
        }
        self.orphan_children(c);
        let ghost mid = self.tasks@;
        assert(mid[c as int] == old(self).tasks[c as int]);
        let has_parent = match &mut self.tasks[c] {
            Some(t) => {
                t.space.clear(&mut self.pool);
                t.status = TaskStatus::Zombie;
                t.exit_code = code;
                t.children.clear();
                t.parent.is_some()
            },
            None => false,
        };
        let ghost zombie = self.tasks[c as int].unwrap();
        let ghost full = self.tasks@;
        proof {
            let was = old(self).tasks[c as int].unwrap();
            assert(full =~= mid.update(c as int, Some(zombie)));
            assert(zombie.space.foreign(&self.pool) =~= was.space.foreign(&old(self).pool));
            lemma_slots_step(mid, old(self).pool, self.pool, c as int, zombie);
            zombie.lemma_view();
        }
        if !has_parent {
            self.tasks[c] = None;
            proof {
                lemma_slots_drop(full, self.pool, c as int);
            }
        }
        self.current = None;
        proof {
            let target = old(self)@.after_terminate(code);
            let was = old(self).tasks[c as int].unwrap();
            assert(old(self)@.tasks[c] == was@);
            assert forall|p: usize| #[trigger] self@.tasks.dom().contains(p) implies target.tasks.dom().contains(
            p) && self@.tasks[p] == target.tasks[p] by {
                if p != c {
                    assert(orphan_ok(old(self).tasks[p as int], mid[p as int], c));
                }
            }
            assert forall|p: usize| #[trigger] target.tasks.dom().contains(p) implies self@.tasks.dom().contains(
            p) by {
                if p != c {
                    assert(old(self)@.has(p));
                    assert(orphan_ok(old(self).tasks[p as int], mid[p as int], c));
                }
            }
            assert(self@.tasks =~= target.tasks);
            assert(self@ == target);
        }
        self.dispatch()
    }

    /// Looks among the children of the current task for the one that a
    /// wait for `pid` collects, and returns its number among them.
    pub fn wait(&self, pid: isize) -> (r: Result<usize, WaitStatus>)
        requires
            self.wf(),
            self@.current is Some,
        ensures
            match self@.wait_result(pid) {
                Ok(i) => r == Ok::<usize, WaitStatus>(i as usize),
                Err(e) => r == Err::<usize, WaitStatus>(e),
            },
            r matches Ok(i) ==> self@.is_first_zombie(pid, i as int),
    {
        let c = match self.current {
            Some(c) => c,
            None => 0,
        };
        proof {
            assert(self@.has(c));
            assert(slots_wf(self.tasks@, self.pool));
            self.tasks[c as int].unwrap().lemma_view();
        }
        match &self.tasks[c] {
            Some(t) => {
                let mut i: usize = 0;
                let mut seen = false;
                while i < t.children.len()
                    invariant
                        i <= t.children.len(),
                        self.wf(),
                        self@.current == Some(c),
                        self@.has(c),
                        self@.tasks[c].children == t.children@,
                        seen <==> exists|j: int| 0 <= j < i && wanted(pid, #[trigger] t.children[j]),
                        forall|j: int|
                            0 <= j < i ==> !(wanted(pid, #[trigger] t.children[j])
                                && self@.tasks[t.children[j]].status == TaskStatus::Zombie),
                    decreases t.children.len() - i,
                {
                    let k = t.children[i];
                    let want = pid == -1 || (pid >= 0 && pid as usize == k);
                    assert(want == wanted(pid, k));
                    proof {
                        assert(self@.has(self@.tasks[c].children[i as int]));
                        assert(slots_wf(self.tasks@, self.pool));
                        self.tasks[k as int].unwrap().lemma_view();
                    }
                    if want {
                        seen = true;
                        let dead = match &self.tasks[k] {
                            Some(u) => u.status == TaskStatus::Zombie,
                            None => false,
                        };
                        if dead {
                            proof {
                                assert(self@.is_first_zombie(pid, i as int));
                                assert(self@.has_wanted_child(pid));
                                let found = choose|j: int| self@.is_first_zombie(pid, j);
                                self@.lemma_first_zombie_unique(pid, i as int, found);
                            }
                            return Ok(i);
                        }
                    }
                    i += 1;
                }
                proof {
                    assert(!exists|j: int| self@.is_first_zombie(pid, j));
                    assert(seen == self@.has_wanted_child(pid));
                }
                if seen {
                    Err(WaitStatus::StillRunning)
                } else {
                    Err(WaitStatus::NoSuchChild)
                }
            },
            None => Err(WaitStatus::NoSuchChild),
        }
    }

    /// The current task collects its terminated child number `i`: the
    /// child is released. Returns the child's pid and exit code.
    pub fn collect(&mut self, i: usize) -> (r: (usize, i32))
        requires
            old(self).wf(),
            old(self)@.current is Some,
            i < old(self)@.running().children.len(),
            old(self)@.tasks[old(self)@.running().children[i as int]].status == TaskStatus::Zombie,
        ensures
            final(self).wf(),
            final(self).kept(old(self)),
            final(self)@ == old(self)@.after_collect(i as int),
            r.0 == old(self)@.running().children[i as int],
            r.1 == old(self)@.tasks[r.0].exit_code,
    {
        let c = match self.current {
            Some(c) => c,
            None => 0,
        };
        proof {
            assert(old(self)@.has(c));
            assert(slots_wf(self.tasks@, self.pool));
            old(self).tasks[c as int].unwrap().lemma_view();
            assert(old(self)@.has(old(self)@.tasks[c].children[i as int]));
        }
        let child = match &mut self.tasks[c] {
            Some(t) => t.children.remove(i),
            None => 0,
        };
        let ghost mid = self.tasks@;
        proof {
            let t = mid[c as int].unwrap();
            let was = old(self).tasks[c as int].unwrap();
            t.lemma_view();
            assert(mid =~= old(self).tasks@.update(c as int, Some(t)));
            lemma_slot_set(old(self).tasks@, c as int, t);
            lemma_slots_step(old(self).tasks@, self.pool, self.pool, c as int, t);
            old(self).tasks[child as int].unwrap().lemma_view();
            assert(child != c);
        }
        let code = match &self.tasks[child] {
            Some(u) => u.exit_code,
            None => 0,
        };
        self.tasks[child] = None;
        proof {
            lemma_slot_clear(mid, child as int);
            lemma_slots_drop(mid, self.pool, child as int);
            assert(self@.tasks =~= old(self)@.after_collect(i as int).tasks);
            assert(self@ == old(self)@.after_collect(i as int));
            assert(self@.wf()) by {
                old(self)@.lemma_collect_wf(i as int);
            }
        }
        (child, code)
    }

    /// The memory of the current task.
    pub fn current_space(&self) -> (space: &AddressSpace)
        requires
            self.wf(),
            self@.current is Some,
        ensures
            space.wf(),
            space@ == self@.running().space,
            *space == self.space_of(self@.current.unwrap()),
    {
        let c = match self.current {
            Some(c) => c,
            None => 0,
        };
        proof {
            assert(self@.has(c));
            assert(slots_wf(self.tasks@, self.pool));
            self.tasks[c as int].unwrap().lemma_view();
        }
        &self.tasks[c].as_ref().unwrap().space
    }

    /// What the kernel becomes when the memory of its current task is
    /// replaced by one that took or gave frames without touching another
    /// task's.
    proof fn lemma_space_changed(&self, next: &Kernel)
        requires
            self.wf(),
            self.current is Some,
            next.current == self.current,
            next.ready == self.ready,
            next.loader == self.loader,
            next.clock_us == self.clock_us,
            next.pool.wf(),
            next.tasks@.len() == self.tasks@.len(),
            forall|j: int|
                0 <= j < self.tasks@.len() && j != self.current.unwrap() ==> next.tasks@[j]
                    == self.tasks@[j],
            next.tasks@[self.current.unwrap() as int] is Some,
            next.tasks@[self.current.unwrap() as int].unwrap() == (Task {
                space: next.tasks@[self.current.unwrap() as int].unwrap().space,
                program_brk: next.tasks@[self.current.unwrap() as int].unwrap().program_brk,
                ..self.tasks@[self.current.unwrap() as int].unwrap()
            }),
            next.tasks@[self.current.unwrap() as int].unwrap().space.wf(),
            next.tasks@[self.current.unwrap() as int].unwrap().space.backed_by(&next.pool),
            next.tasks@[self.current.unwrap() as int].unwrap().space.foreign(&next.pool)
                == self.tasks@[self.current.unwrap() as int].unwrap().space.foreign(&self.pool),
        ensures
            next.wf(),
            next.changed(self, self.current.unwrap()),
            next@ == self@.with_running(
                TaskView {
                    space: next.tasks@[self.current.unwrap() as int].unwrap().space@,
                    program_brk: next.tasks@[self.current.unwrap() as int].unwrap().program_brk,
                    ..self@.running()
                },
            ),
            next.tasks@[self.current.unwrap() as int].unwrap().program_brk
                == self.tasks@[self.current.unwrap() as int].unwrap().program_brk ==> next@
                == self@.with_running(
                TaskView {
                    space: next.tasks@[self.current.unwrap() as int].unwrap().space@,
                    ..self@.running()
                },
            ),
    {
        let c = self.current.unwrap();
        let t = next.tasks@[c as int].unwrap();
        assert(self@.has(c));
        let was = self.tasks@[c as int].unwrap();
        assert(next.tasks@ =~= self.tasks@.update(c as int, Some(t)));
        lemma_slot_set(self.tasks@, c as int, t);
        t.lemma_view();
        was.lemma_view();
        t.space.lemma_view_wf();
        assert(self@.tasks[c] == was@);
        let tv = TaskView { space: t.space@, program_brk: t.program_brk, ..was@ };
        assert(t@ == tv);
        assert(next@ == self@.with_running(tv));
        self@.lemma_with_task_wf(c, tv);
        lemma_slots_step(self.tasks@, self.pool, next.pool, c as int, t);
    }

    /// Maps a zeroed region into the memory of the current task.
    pub fn map_current(&mut self, start: usize, end: usize, perm: MapPermission) -> (r: Result<
        (),
        MemoryError,
    >)
        requires
            old(self).wf(),
            old(self)@.current is Some,
            start % PAGE_SIZE == 0,
            start < end,
            end + PAGE_SIZE - 1 <= usize::MAX,
        ensures
            final(self).wf(),
            final(self).changed_in_place(old(self), old(self)@.current.unwrap()),
            r == old(self)@.running().space.map_result(start, end, perm),
            r is Ok ==> final(self)@ == old(self)@.with_running(
                TaskView {
                    space: old(self)@.running().space.after_map(
                        start,
                        page_ceil(end as int) as usize,
                        perm,
                        Seq::empty(),
                    ),
                    ..old(self)@.running()
                },
            ),
            r is Err ==> final(self)@ == old(self)@,
    {
        let c = match self.current {
            Some(c) => c,
            None => 0,
        };
        proof {
            assert(old(self)@.has(c));
            assert(slots_wf(self.tasks@, self.pool));
            old(self).tasks[c as int].unwrap().lemma_view();
        }
        let r = match &mut self.tasks[c] {
            Some(t) => t.space.allocate_region(&mut self.pool, start, end, perm),
            None => Err(MemoryError::NotFound),
        };
        proof {
            old(self).lemma_space_changed(self);
            if r is Err {
                assert(self@.tasks =~= old(self)@.tasks);
            }
        }
        r
    }

    /// Unmaps the region with the bounds `start..end` from the memory of
    /// the current task.
    pub fn unmap_current(&mut self, start: usize, end: usize) -> (r: Result<(), MemoryError>)
        requires
            old(self).wf(),
            old(self)@.current is Some,
        ensures
            final(self).wf(),
            final(self).changed_in_place(old(self), old(self)@.current.unwrap()),
            r == old(self)@.running().space.free_result(start, end),
            r is Ok ==> final(self)@ == old(self)@.with_running(
                TaskView {
                    space: old(self)@.running().space.after_free(start, end),
                    ..old(self)@.running()
                },
            ),
            r is Err ==> final(self)@ == old(self)@,
    {
        let c = match self.current {
            Some(c) => c,
            None => 0,
        };
        proof {
            assert(old(self)@.has(c));
            assert(slots_wf(self.tasks@, self.pool));
            old(self).tasks[c as int].unwrap().lemma_view();
        }
        let r = match &mut self.tasks[c] {
            Some(t) => t.space.free_region(&mut self.pool, start, end),
            None => Err(MemoryError::NotFound),
        };
        proof {
            old(self).lemma_space_changed(self);
            if r is Err {
                assert(self@.tasks =~= old(self)@.tasks);
            }
        }
        r
    }

    /// Writes `bytes` to the memory of the current task from `va` on:
    /// all of them or, where user code may not write one, none.
    pub fn write_current(&mut self, va: usize, bytes: &Vec<u8>) -> (r: Result<(), Fault>)
        requires
            old(self).wf(),
            old(self)@.current is Some,
        ensures
            final(self).wf(),
            final(self).changed_in_place(old(self), old(self)@.current.unwrap()),
            r is Ok <==> old(self)@.running().space.range_writable(va, bytes.len() as nat),
            r is Ok ==> final(self)@ == old(self)@.with_running(
                TaskView {
                    space: old(self)@.running().space.after_store(va, bytes@),
                    ..old(self)@.running()
                },
            ),
            r is Err ==> final(self)@ == old(self)@,
    {
        let c = match self.current {
            Some(c) => c,
            None => 0,
        };
        proof {
            assert(old(self)@.has(c));
            assert(slots_wf(self.tasks@, self.pool));
            old(self).tasks[c as int].unwrap().lemma_view();
        }
        let r = match &mut self.tasks[c] {
            Some(t) => write_bytes(&mut t.space, va, bytes),
            None => Err(Fault),
        };
        proof {
            old(self).lemma_space_changed(self);
            if r is Err {
                assert(self@.tasks =~= old(self)@.tasks);
            }
        }
        r
    }

    /// Counts one more call of the system call `id` for the current task.
    pub fn count_syscall(&mut self, id: usize)
        requires
            old(self).wf(),
            old(self)@.current is Some,
        ensures
            final(self).wf(),
            final(self).kept(old(self)),
            final(self)@ == old(self)@.after_count(id),
    {
        let c = match self.current {
            Some(c) => c,
            None => 0,
        };
        proof {
            assert(old(self)@.has(c));
            assert(slots_wf(self.tasks@, self.pool));
            old(self).tasks[c as int].unwrap().lemma_view();
        }
        if id >= MAX_SYSCALL_NUM {
            return;
        }
        match &mut self.tasks[c] {
            Some(t) => {
                if t.syscall_count[id] < u32::MAX {
                    t.syscall_count[id] = t.syscall_count[id] + 1;
                }
            },
            None => {},
        }
        proof {
            let t = self.tasks[c as int].unwrap();
            let was = old(self).tasks[c as int].unwrap();
            assert(self.tasks@ =~= old(self).tasks@.update(c as int, Some(t)));
            lemma_slot_set(old(self).tasks@, c as int, t);
            t.lemma_view();
            assert(old(self)@.tasks[c] == was@);
            if was@.syscall_count[id as int] < u32::MAX {
                old(self)@.lemma_with_task_wf(c, t@);
                assert(self@ == old(self)@.after_count(id));
            } else {
                assert(t@ == was@);
                assert(self@.tasks =~= old(self)@.tasks);
            }
            lemma_slots_step(old(self).tasks@, self.pool, self.pool, c as int, t);
        }
    }

    /// The pid and the exit code of child number `i` of the current task.
    pub fn child_at(&self, i: usize) -> (r: (usize, i32))
        requires
            self.wf(),
            self@.current is Some,
            i < self@.running().children.len(),
        ensures
            r.0 == self@.running().children[i as int],
            r.1 == self@.tasks[r.0].exit_code,
            r.0 < MAX_TASKS,
    {
        let c = match self.current {
            Some(c) => c,
            None => 0,
        };
        proof {
            assert(self@.has(c));
            assert(slots_wf(self.tasks@, self.pool));
            self.tasks[c as int].unwrap().lemma_view();
            assert(self@.has(self@.tasks[c].children[i as int]));
        }
        let child = match &self.tasks[c] {
            Some(t) => t.children[i],
            None => 0,
        };
        proof {
            self.tasks[child as int].unwrap().lemma_view();
        }
        let code = match &self.tasks[child] {
            Some(u) => u.exit_code,
            None => 0,
        };
        (child, code)
    }

    /// The system call counters of the current task.
    pub fn current_counts(&self) -> (v: Vec<u32>)
        requires
            self.wf(),
            self@.current is Some,
        ensures
            v@ == self@.running().syscall_count,
    {
        let c = match self.current {
            Some(c) => c,
            None => 0,
        };
        proof {
            assert(self@.has(c));
            assert(slots_wf(self.tasks@, self.pool));
            self.tasks[c as int].unwrap().lemma_view();
        }
        let mut v: Vec<u32> = Vec::new();
        match &self.tasks[c] {
            Some(t) => {
                let mut i: usize = 0;
                while i < t.syscall_count.len()
                    invariant
                        i <= t.syscall_count.len(),
                        v@ == t.syscall_count@.subrange(0, i as int),
                    decreases t.syscall_count.len() - i,
                {
                    v.push(t.syscall_count[i]);
                    assert(v@ =~= t.syscall_count@.subrange(0, i + 1));
                    i += 1;
                }
                assert(v@ =~= t.syscall_count@);
            },
            None => {},
        }
        v
    }

    /// The milliseconds for which the current task has run.
    pub fn current_elapsed_ms(&self) -> (ms: u64)
        requires
            self.wf(),
            self@.current is Some,
        ensures
            ms == self@.elapsed_ms(),
            self@.running().running_time is Some,
            self@.running().running_time.unwrap() <= self@.clock_us / 1000,
    {
        let c = match self.current {
            Some(c) => c,
            None => 0,
        };
        proof {
            assert(self@.has(c));
            assert(slots_wf(self.tasks@, self.pool));
            self.tasks[c as int].unwrap().lemma_view();
        }
        let since = match &self.tasks[c] {
            Some(t) => match t.running_time {
                Some(ms) => ms,
                None => 0,
            },
            None => 0,
        };
        self.clock_us / 1000 - since
    }

    /// The current task moves its program break by `delta` bytes. Returns
    /// the break before the call, or `None` if the break cannot move
    /// there.
    pub fn change_program_brk(&mut self, delta: i32) -> (r: Option<usize>)
        requires
            old(self).wf(),
            old(self)@.current is Some,
        ensures
            final(self).wf(),
            final(self).changed_in_place(old(self), old(self)@.current.unwrap()),
            (final(self)@, r) == old(self)@.brk_outcome(delta),
            r matches Some(brk) ==> brk <= isize::MAX,
    {
        let c = match self.current {
            Some(c) => c,
            None => 0,
        };
        proof {
            assert(old(self)@.has(c));
            assert(slots_wf(self.tasks@, self.pool));
            old(self).tasks[c as int].unwrap().lemma_view();
        }
        let r = match &mut self.tasks[c] {
            Some(t) => move_break(t, &mut self.pool, delta),
            None => None,
        };
        proof {
            old(self).lemma_space_changed(self);
            if r is None {
                assert(self@.tasks =~= old(self)@.tasks);
            }
        }
        r
    }

    /// The task with the pid `pid`, if it lives.
    pub fn task(&self, pid: usize) -> (r: Option<&Task>)
        requires
            self.wf(),
        ensures
            match r {
                Some(t) => self@.has(pid) && t@ == self@.tasks[pid] && t.sound() && t.memory()
                    == self.space_of(pid),
                None => !self@.has(pid),
            },
    {
        proof {
            assert(slots_wf(self.tasks@, self.pool));
            if pid < self.tasks.len() && self.tasks[pid as int] is Some {
                self.tasks[pid as int].unwrap().lemma_view();
            }
        }
        if pid < self.tasks.len() {
            self.tasks[pid].as_ref()
        } else {
            None
        }
    }

    /// The pids of the tasks that wait for the processor, first come
    /// first.
    pub fn ready_queue(&self) -> (r: &Vec<usize>)
        ensures
            r@ == self@.ready,
    {
        &self.ready
    }

    /// The pool of frames.
    pub fn frame_pool(&self) -> (r: &FrameAllocator)
        requires
            self.wf(),
        ensures
            r.wf(),
            *r == self.pool(),
    {
        &self.pool
    }

    /// Adds `image` behind the programs of the kernel, if it is well
    /// formed, and says whether it did.
    pub fn register(&mut self, image: Image) -> (ok: bool)
        requires
            old(self).wf(),
        ensures
            final(self).wf(),
            final(self).kept(old(self)),
            ok == image.wf(),
            ok ==> final(self)@ == old(self)@.after_register(image),
            !ok ==> final(self)@ == old(self)@,
    {
        let ok = self.loader.register(image);
        proof {
            old(self)@.lemma_images_wf(self.loader@);
        }
        ok
    }

    /// Takes the first program called `name` away, and says whether there
    /// was one. A task that was spawned to run it finds no program when it
    /// is first dispatched.
    pub fn unregister(&mut self, name: &Vec<u8>) -> (found: bool)
        requires
            old(self).wf(),
        ensures
            final(self).wf(),
            final(self).kept(old(self)),
            found == old(self)@.image(name@) is Some,
            final(self)@ == old(self)@.after_unregister(name@),
    {
        let found = self.loader.unregister(name);
        proof {
            old(self)@.lemma_images_wf(self.loader@);
        }
        found
    }

    /// Puts `r` into the result register of the task `pid`, unless that
    /// task is gone or a zombie.
    pub fn set_result(&mut self, pid: usize, r: isize)
        requires
            old(self).wf(),
        ensures
            final(self).wf(),
            final(self).kept(old(self)),
            final(self)@ == old(self)@.with_result(pid, r),
    {
        proof {
            assert(slots_wf(self.tasks@, self.pool));
        }
        if pid >= self.tasks.len() {
            return;
        }
        let alive = match &self.tasks[pid] {
            Some(t) => {
                proof {
                    t.lemma_view();
                }
                t.status != TaskStatus::Zombie
            },
            None => false,
        };
        if !alive {
            return;
        }
        match &mut self.tasks[pid] {
            Some(t) => {
                t.trap_cx.set_return_value(#[verifier::truncate] (r as usize));
            },
            None => {},
        }
        proof {
            let t = self.tasks[pid as int].unwrap();
            let was = old(self).tasks[pid as int].unwrap();
            assert(self.tasks@ =~= old(self).tasks@.update(pid as int, Some(t)));
            lemma_slot_set(old(self).tasks@, pid as int, t);
            t.lemma_view();
            was.lemma_view();
            t.space.lemma_view_wf();
            assert(old(self)@.tasks[pid] == was@);
            old(self)@.lemma_with_task_wf(pid, t@);
            lemma_slots_step(old(self).tasks@, self.pool, self.pool, pid as int, t);
        }
    }

    /// Replaces the saved user registers of the current task: a trap
    /// overwrites them with the registers that the task had in user mode.
    pub fn save_trap_context(&mut self, cx: TrapContext)
        requires
            old(self).wf(),
            old(self)@.current is Some,
        ensures
            final(self).wf(),
            final(self).kept(old(self)),
            final(self)@ == old(self)@.with_running(
                TaskView { trap_cx: cx@, ..old(self)@.running() },
            ),
    {
        let c = match self.current {
            Some(c) => c,
            None => 0,
        };
        proof {
            assert(old(self)@.has(c));
            assert(slots_wf(self.tasks@, self.pool));
        }
        match &mut self.tasks[c] {
            Some(t) => {
                t.trap_cx = cx;
            },
            None => {},
        }
        proof {
            let t = self.tasks[c as int].unwrap();
            let was = old(self).tasks[c as int].unwrap();
            assert(self.tasks@ =~= old(self).tasks@.update(c as int, Some(t)));
            lemma_slot_set(old(self).tasks@, c as int, t);
            t.lemma_view();
            was.lemma_view();
            t.space.lemma_view_wf();
            assert(old(self)@.tasks[c] == was@);
            old(self)@.lemma_with_task_wf(c, t@);
            lemma_slots_step(old(self).tasks@, self.pool, self.pool, c as int, t);
        }
    }
}

} // verus!
