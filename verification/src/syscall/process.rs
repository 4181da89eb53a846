//! The system calls that manage processes and their memory.
//!
//! Every call acts for the current task of the kernel and returns the
//! value that the task finds in its result register: zero or more on
//! success, a negative number on failure. A pointer argument is a virtual
//! address of the calling task and is only reached through the bridge
//! to user memory; a call that finds such an address unmapped, or without
//! the permission it needs, fails with -1 and changes nothing.

use crate::config::PAGE_SIZE;
use crate::mm::bridge::i32_le;
use crate::mm::bridge::push_i32;
use crate::mm::bridge::push_u32;
use crate::mm::bridge::push_u32s;
use crate::mm::bridge::push_u64;
use crate::mm::bridge::read_str;
use crate::mm::bridge::string_at;
use crate::mm::bridge::u32_le;
use crate::mm::bridge::u32s_le;
use crate::mm::bridge::u64_le;
use crate::mm::permission::lemma_port_rejected;
use crate::mm::permission::MapPermission;
use crate::mm::space::page_ceil;
use crate::task::kernel::Kernel;
use crate::task::model::Fatal;
use crate::task::model::KernelView;
use crate::task::model::WaitStatus;
use crate::task::tcb::TaskStatus;
use crate::task::tcb::TaskView;
use vstd::prelude::*;

verus! {

/// What a call returns when it fails.
pub const FAILED: isize = -1;

/// What a wait returns when a child is asked for and none that is asked
/// for has terminated.
pub const STILL_RUNNING: isize = -2;

/// A time of day: whole seconds, and the microseconds beyond them.
#[derive(Clone, Copy, Debug, PartialEq, Eq, Structural)]
pub struct TimeVal {
    pub sec: u64,
    pub usec: u64,
}

/// What a task learns about itself.
pub struct TaskInfo {
    /// Where the task stands in its life.
    pub status: TaskStatus,
    /// How often the task made each system call, by its number.
    pub syscall_times: Vec<u32>,
    /// The milliseconds since the task was first dispatched.
    pub time: u64,
}

/// The number that stands for a status in user memory.
pub open spec fn status_code(status: TaskStatus) -> u32 {
    match status {
        TaskStatus::Ready => 0,
        TaskStatus::Running => 1,
        TaskStatus::Zombie => 2,
    }
}

/// The time of day at `clock_us` microseconds.
pub open spec fn time_val(clock_us: u64) -> TimeVal {
    TimeVal { sec: clock_us / 1_000_000, usec: clock_us % 1_000_000 }
}

/// A time of day as it stands in user memory: seconds, then
/// microseconds, eight bytes each, lowest first.
pub open spec fn time_val_bytes(tv: TimeVal) -> Seq<u8> {
    u64_le(tv.sec) + u64_le(tv.usec)
}

/// A task's information as it stands in user memory: the status in four
/// bytes, four bytes for each counter, the time in eight bytes, all
/// lowest first.
pub open spec fn task_info_bytes(status: TaskStatus, counts: Seq<u32>, time: u64) -> Seq<u8> {
    u32_le(status_code(status)) + u32s_le(counts) + u64_le(time)
}

impl TimeVal {
    /// The bytes of this time of day in user memory.
    pub fn to_bytes(&self) -> (v: Vec<u8>)
        ensures
            v@ == time_val_bytes(*self),
    {
        let mut v: Vec<u8> = Vec::new();
        push_u64(&mut v, self.sec);
        push_u64(&mut v, self.usec);
        assert(v@ =~= time_val_bytes(*self));
        v
    }
}

impl TaskInfo {
    /// The bytes of this information in user memory.
    pub fn to_bytes(&self) -> (v: Vec<u8>)
        ensures
            v@ == task_info_bytes(self.status, self.syscall_times@, self.time),
    {
        let mut v: Vec<u8> = Vec::new();
        let code: u32 = match self.status {
            TaskStatus::Ready => 0,
            TaskStatus::Running => 1,
            TaskStatus::Zombie => 2,
        };
        push_u32(&mut v, code);
        push_u32s(&mut v, &self.syscall_times);
        push_u64(&mut v, self.time);
        assert(v@ =~= task_info_bytes(self.status, self.syscall_times@, self.time));
        v
    }
}

/// The kernel after the current task stored `bytes` at `va`.
pub open spec fn stored(v: KernelView, va: usize, bytes: Seq<u8>) -> KernelView {
    v.with_running(TaskView { space: v.running().space.after_store(va, bytes), ..v.running() })
}

/// What becomes of the kernel, and what the call returns, when the
/// current task asks for `bytes` to be written at `va`: 0 if user code
/// may write there, else -1 and no change.
pub open spec fn store_outcome(v: KernelView, va: usize, bytes: Seq<u8>) -> (KernelView, isize) {
    if v.running().space.range_writable(va, bytes.len()) {
        (stored(v, va, bytes), 0)
    } else {
        (v, FAILED)
    }
}

/// The current task exits with `exit_code`. Returns the pid of the task
/// that runs next; with an empty run queue the kernel cannot go on.
pub fn sys_exit(kernel: &mut Kernel, exit_code: i32) -> (r: Result<usize, Fatal>)
    requires
        old(kernel).wf(),
        old(kernel)@.current is Some,
    ensures
        final(kernel).wf(),
        final(kernel).changed(old(kernel), old(kernel)@.current.unwrap()),
        final(kernel)@ == old(kernel)@.after_exit(exit_code),
        r == match final(kernel)@.current {
            Some(next) => Ok::<usize, Fatal>(next),
            None => Err::<usize, Fatal>(Fatal::RunQueueEmpty),
        },
{
    match kernel.exit_current(exit_code) {
        Some(next) => Ok(next),
        None => Err(Fatal::RunQueueEmpty),
    }
}

/// The current task gives up the processor and queues behind the ready
/// tasks.
pub fn sys_yield(kernel: &mut Kernel) -> (r: isize)
    requires
        old(kernel).wf(),
        old(kernel)@.current is Some,
    ensures
        final(kernel).wf(),
        final(kernel).kept(old(kernel)),
        final(kernel)@ == old(kernel)@.after_yield(),
        r == 0,
{
    kernel.yield_now();
    0
}

/// The pid of the current task.
pub fn sys_getpid(kernel: &Kernel) -> (r: isize)
    requires
        kernel.wf(),
        kernel@.current is Some,
    ensures
        r == kernel@.current.unwrap(),
{
    proof {
        kernel.lemma_view_wf();
        assert(kernel@.has(kernel@.current.unwrap()));
    }
    match kernel.current_pid() {
        Some(pid) => pid as isize,
        None => -1,
    }
}

/// What a fork returns to the parent, and what becomes of the kernel:
/// the child's pid, or -1 and no change when no pid is free.
pub open spec fn fork_outcome(v: KernelView, r: isize) -> KernelView {
    if r >= 0 {
        v.after_fork(r as usize)
    } else {
        v
    }
}

/// The current task forks. The child finds 0 in its result register; the
/// parent gets the child's pid, or -1 if no pid is free.
pub fn sys_fork(kernel: &mut Kernel) -> (r: isize)
    requires
        old(kernel).wf(),
        old(kernel)@.current is Some,
    ensures
        final(kernel).wf(),
        r >= 0 ==> final(kernel).grown(old(kernel), r as usize),
        r < 0 ==> final(kernel).kept(old(kernel)),
        final(kernel)@ == fork_outcome(old(kernel)@, r),
        r >= 0 ==> old(kernel)@.is_free_pid(r as usize),
        r < 0 ==> r == -1 && !old(kernel)@.has_free_pid(),
{
    match kernel.fork() {
        Some(pid) => pid as isize,
        None => -1,
    }
}

/// What becomes of the kernel, and what the call returns, when the
/// current task asks to run the program whose name stands at `path`.
pub open spec fn exec_outcome(v: KernelView, path: usize) -> (KernelView, isize) {
    match string_at(v.running().space, path) {
        Some(name) => match v.image(name) {
            Some(image) => (v.after_exec(image), 0),
            None => (v, FAILED),
        },
        None => (v, FAILED),
    }
}

/// The current task replaces its program by the one whose name stands at
/// `path`. Returns 0, or -1 if there is no such program or no readable
/// name: then nothing changes.
pub fn sys_exec(kernel: &mut Kernel, path: usize) -> (r: isize)
    requires
        old(kernel).wf(),
        old(kernel)@.current is Some,
    ensures
        final(kernel).wf(),
        final(kernel).changed(old(kernel), old(kernel)@.current.unwrap()),
        (final(kernel)@, r) == exec_outcome(old(kernel)@, path),
        r == -1 ==> *final(kernel) == *old(kernel),
{
    proof {
        kernel.lemma_unchanged();
    }
    let name = match read_str(kernel.current_space(), path) {
        Ok(name) => name,
        Err(_) => {
            return -1;
        },
    };
    if kernel.exec(&name) {
        0
    } else {
        -1
    }
}

/// What becomes of the kernel, and what the call returns, when the
/// current task waits for `pid` and wants the exit code at
/// `exit_code_ptr`.
pub open spec fn waitpid_outcome(v: KernelView, pid: isize, exit_code_ptr: usize) -> (
    KernelView,
    isize,
) {
    match v.wait_result(pid) {
        Err(WaitStatus::NoSuchChild) => (v, FAILED),
        Err(WaitStatus::StillRunning) => (v, STILL_RUNNING),
        Ok(i) => {
            let child = v.running().children[i];
            let code = i32_le(v.tasks[child].exit_code);
            if v.running().space.range_writable(exit_code_ptr, 4) {
                (stored(v, exit_code_ptr, code).after_collect(i), child as isize)
            } else {
                (v, FAILED)
            }
        },
    }
}

/// The current task collects a terminated child: any, if `pid` is -1,
/// else the one with that pid. The first such child in the order of
/// creation is released, its exit code is written at `exit_code_ptr` and
/// its pid returned. Returns -1 if no child is asked for, and -2 if none
/// that is asked for has terminated. Returns -1 and collects nothing if
/// user code may not write the four bytes at `exit_code_ptr`.
pub fn sys_waitpid(kernel: &mut Kernel, pid: isize, exit_code_ptr: usize) -> (r: isize)
    requires
        old(kernel).wf(),
        old(kernel)@.current is Some,
    ensures
        final(kernel).wf(),
        final(kernel).changed_in_place(old(kernel), old(kernel)@.current.unwrap()),
        (final(kernel)@, r) == waitpid_outcome(old(kernel)@, pid, exit_code_ptr),
{
    proof {
        kernel.lemma_unchanged();
    }
    let i = match kernel.wait(pid) {
        Ok(i) => i,
        Err(WaitStatus::NoSuchChild) => {
            return -1;
        },
        Err(WaitStatus::StillRunning) => {
            return -2;
        },
    };
    let (child, code) = kernel.child_at(i);
    let mut bytes: Vec<u8> = Vec::new();
    push_i32(&mut bytes, code);
    assert(bytes@ =~= i32_le(code));
    match kernel.write_current(exit_code_ptr, &bytes) {
        Ok(()) => {
            proof {
                kernel.lemma_view_wf();
                old(kernel).lemma_view_wf();
                let c = old(kernel)@.current.unwrap();
                assert(old(kernel)@.has(c));
                assert(old(kernel)@.has(child));
                assert(child != c);
            }
            let ghost stored = *kernel;
            kernel.collect(i);
            proof {
                let c = old(kernel)@.current.unwrap();
                kernel.lemma_view_wf();
                assert(kernel@.has(c));
                assert(stored@.has(c));
                kernel.lemma_changed_then_kept(&stored, old(kernel), c);
            }
            child as isize
        },
        Err(_) => -1,
    }
}

/// The current task reads the clock into the sixteen bytes at `ts`.
/// Returns 0, or -1 if user code may not write there.
pub fn sys_get_time(kernel: &mut Kernel, ts: usize, _tz: usize) -> (r: isize)
    requires
        old(kernel).wf(),
        old(kernel)@.current is Some,
    ensures
        final(kernel).wf(),
        final(kernel).changed_in_place(old(kernel), old(kernel)@.current.unwrap()),
        (final(kernel)@, r) == store_outcome(
            old(kernel)@,
            ts,
            time_val_bytes(time_val(old(kernel)@.clock_us)),
        ),
{
    let us = kernel.now_us();
    let tv = TimeVal { sec: us / 1_000_000, usec: us % 1_000_000 };
    let bytes = tv.to_bytes();
    match kernel.write_current(ts, &bytes) {
        Ok(()) => 0,
        Err(_) => -1,
    }
}

/// The current task reads its own information into user memory at `ti`:
/// its status, which is running, its system call counters and the
/// milliseconds since it was first dispatched. Returns 0, or -1 if user
/// code may not write there.
pub fn sys_task_info(kernel: &mut Kernel, ti: usize) -> (r: isize)
    requires
        old(kernel).wf(),
        old(kernel)@.current is Some,
    ensures
        final(kernel).wf(),
        final(kernel).changed_in_place(old(kernel), old(kernel)@.current.unwrap()),
        (final(kernel)@, r) == store_outcome(
            old(kernel)@,
            ti,
            task_info_bytes(
                TaskStatus::Running,
                old(kernel)@.running().syscall_count,
                old(kernel)@.elapsed_ms(),
            ),
        ),
{
    let info = TaskInfo {
        status: TaskStatus::Running,
        syscall_times: kernel.current_counts(),
        time: kernel.current_elapsed_ms(),
    };
    let bytes = info.to_bytes();
    match kernel.write_current(ti, &bytes) {
        Ok(()) => 0,
        Err(_) => -1,
    }
}

/// What becomes of the kernel, and what the call returns, when the
/// current task asks to map `len` bytes from `start` on with the
/// permission that `port` stands for.
pub open spec fn mmap_outcome(v: KernelView, start: usize, len: usize, port: usize) -> (
    KernelView,
    isize,
) {
    let space = v.running().space;
    let perm = MapPermission::of_port(port);
    if start % PAGE_SIZE != 0 || !MapPermission::port_valid(port) {
        (v, FAILED)
    } else if len == 0 {
        (v, 0)
    } else if start + len + PAGE_SIZE - 1 > usize::MAX {
        (v, FAILED)
    } else if space.overlaps(start, (start + len) as usize) {
        (v, FAILED)
    } else {
        (
            v.with_running(
                TaskView {
                    space: space.after_map(
                        start,
                        page_ceil(start + len) as usize,
                        perm,
                        Seq::empty(),
                    ),
                    ..v.running()
                },
            ),
            0,
        )
    }
}

/// The current task maps zeroed memory: the pages from `start` that hold
/// `len` bytes, for user code with the permission of `port`, whose bit 0
/// grants read, bit 1 write and bit 2 execute. Returns 0, or -1 and maps
/// nothing if `start` is not page aligned, if `port` is zero or has
/// another bit set, if the range leaves the address space or if it
/// intersects a mapped region. A `len` of zero maps nothing and returns 0.
pub fn sys_mmap(kernel: &mut Kernel, start: usize, len: usize, port: usize) -> (r: isize)
    requires
        old(kernel).wf(),
        old(kernel)@.current is Some,
    ensures
        final(kernel).wf(),
        final(kernel).changed_in_place(old(kernel), old(kernel)@.current.unwrap()),
        (final(kernel)@, r) == mmap_outcome(old(kernel)@, start, len, port),
{
    proof {
        kernel.lemma_unchanged();
    }
    if start % PAGE_SIZE != 0 {
        return -1;
    }
    let perm = match MapPermission::from_port(port) {
        Some(perm) => perm,
        None => {
            return -1;
        },
    };
    if len == 0 {
        return 0;
    }
    if start > usize::MAX - (PAGE_SIZE - 1) || len > usize::MAX - (PAGE_SIZE - 1) - start {
        return -1;
    }
    proof {
        lemma_port_rejected(port);
    }
    match kernel.map_current(start, start + len, perm) {
        Ok(()) => 0,
        Err(_) => -1,
    }
}

/// What becomes of the kernel, and what the call returns, when the
/// current task asks to unmap `len` bytes from `start` on.
pub open spec fn munmap_outcome(v: KernelView, start: usize, len: usize) -> (KernelView, isize) {
    let space = v.running().space;
    if start % PAGE_SIZE != 0 || start + len > usize::MAX || !space.has_region(
        start,
        (start + len) as usize,
    ) {
        (v, FAILED)
    } else {
        (
            v.with_running(
                TaskView { space: space.after_free(start, (start + len) as usize), ..v.running() },
            ),
            0,
        )
    }
}

/// The current task unmaps the region that begins at `start` and is `len`
/// bytes long. Returns 0, or -1 and unmaps nothing if no region has
/// exactly these bounds.
pub fn sys_munmap(kernel: &mut Kernel, start: usize, len: usize) -> (r: isize)
    requires
        old(kernel).wf(),
        old(kernel)@.current is Some,
    ensures
        final(kernel).wf(),
        final(kernel).changed_in_place(old(kernel), old(kernel)@.current.unwrap()),
        (final(kernel)@, r) == munmap_outcome(old(kernel)@, start, len),
{
    proof {
        kernel.lemma_unchanged();
    }
    if start % PAGE_SIZE != 0 {
        return -1;
    }
    if len > usize::MAX - start {
        return -1;
    }
    match kernel.unmap_current(start, start + len) {
        Ok(()) => 0,
        Err(_) => -1,
    }
}

/// The current task moves its program break by `size` bytes. Returns the
/// break before the call, or -1 if the break cannot move there: then
/// nothing changes.
pub fn sys_sbrk(kernel: &mut Kernel, size: i32) -> (r: isize)
    requires
        old(kernel).wf(),
        old(kernel)@.current is Some,
    ensures
        final(kernel).wf(),
        final(kernel).changed_in_place(old(kernel), old(kernel)@.current.unwrap()),
        final(kernel)@ == old(kernel)@.brk_outcome(size).0,
        match old(kernel)@.brk_outcome(size).1 {
            Some(brk) => r == brk,
            None => r == -1,
        },
{
    match kernel.change_program_brk(size) {
        Some(brk) => brk as isize,
        None => -1,
    }
}

/// What becomes of the kernel when a spawn returns `r`.
pub open spec fn spawn_outcome(v: KernelView, path: usize, r: isize) -> KernelView {
    if r >= 0 {
        v.after_spawn(r as usize, string_at(v.running().space, path).unwrap())
    } else {
        v
    }
}

/// A spawn of the program whose name stands at `path` fails: there is no
/// readable name, no such program, or no free pid.
pub open spec fn spawn_fails(v: KernelView, path: usize) -> bool {
    match string_at(v.running().space, path) {
        Some(name) => v.image(name) is None || !v.has_free_pid(),
        None => true,
    }
}

/// The current task creates a child that runs the program whose name
/// stands at `path`; the child loads the program when it is first
/// dispatched. Returns the child's pid, or -1 if there is no such
/// program, no readable name or no free pid: then nothing changes.
pub fn sys_spawn(kernel: &mut Kernel, path: usize) -> (r: isize)
    requires
        old(kernel).wf(),
        old(kernel)@.current is Some,
    ensures
        final(kernel).wf(),
        r >= 0 ==> final(kernel).grown(old(kernel), r as usize),
        r < 0 ==> final(kernel).kept(old(kernel)),
        final(kernel)@ == spawn_outcome(old(kernel)@, path, r),
        r >= 0 ==> old(kernel)@.is_free_pid(r as usize),
        (r < 0) == spawn_fails(old(kernel)@, path),
        r < 0 ==> r == -1 && *final(kernel) == *old(kernel),
{
    proof {
        kernel.lemma_unchanged();
    }
    let name = match read_str(kernel.current_space(), path) {
        Ok(name) => name,
        Err(_) => {
            return -1;
        },
    };
    match kernel.spawn(name) {
        Some(pid) => pid as isize,
        None => -1,
    }
}

/// Priorities are not implemented: the call fails for every argument.
pub fn sys_set_priority(_prio: isize) -> (r: isize)
    ensures
        r == -1,
{
    -1
}

} // verus!
