//! What holds of the memory and process operations taken together.
//!
//! Each statement is about the mathematical views that the contracts of
//! the operations speak of, so it holds of every run of the executable
//! code.

use crate::config::MAX_TASKS;
use crate::config::PAGE_SIZE;
use crate::loader::Image;
use crate::mm::bridge::i32_le;
use crate::mm::bridge::i32_of;
use crate::mm::bridge::lemma_i32_bytes;
use crate::mm::bridge::string_at;
use crate::mm::frame::FrameAllocator;
use crate::mm::permission::lemma_port_rejected;
use crate::mm::permission::MapPermission;
use crate::mm::space::fill;
use crate::mm::space::page_ceil;
use crate::mm::space::AddressSpace;
use crate::mm::space::MemoryError;
use crate::mm::space::RegionView;
use crate::mm::space::SpaceView;
use crate::syscall::process::exec_outcome;
use crate::syscall::process::mmap_outcome;
use crate::syscall::process::munmap_outcome;
use crate::syscall::process::spawn_fails;
use crate::syscall::process::spawn_outcome;
use crate::syscall::process::stored;
use crate::syscall::process::waitpid_outcome;
use crate::syscall::process::FAILED;
use crate::syscall::process::STILL_RUNNING;
use crate::task::kernel::Kernel;
use crate::task::model::wanted;
use crate::task::model::ANY_CHILD;
use crate::task::model::KernelView;
use crate::task::tcb::TaskStatus;
use crate::task::tcb::TaskView;
use vstd::prelude::*;

verus! {

/// Mapping a region that intersects no other succeeds and keeps the space
/// well formed.
pub proof fn lemma_map_keeps_wf(
    v: SpaceView,
    start: usize,
    end: usize,
    perm: MapPermission,
    data: Seq<u8>,
)
    requires
        v.wf(),
        start % PAGE_SIZE == 0,
        end % PAGE_SIZE == 0,
        start < end,
        !v.overlaps(start, end),
    ensures
        v.after_map(start, end, perm, data).wf(),
{
    let m = v.after_map(start, end, perm, data);
    let r = RegionView { start, end, perm };
    assert forall|a: usize| m.mem.dom().contains(a) <==> m.covers(a) by {
        if m.mem.dom().contains(a) {
            if start <= a < end {
                assert(m.regions.contains(r) && r.contains(a));
            } else {
                assert(v.mem.dom().contains(a));
                assert(v.covers(a));
                let s = choose|s: RegionView| #[trigger] v.regions.contains(s) && s.contains(a);
                assert(m.regions.contains(s) && s.contains(a));
            }
        }
        if m.covers(a) {
            let s = choose|s: RegionView| #[trigger] m.regions.contains(s) && s.contains(a);
            if s != r {
                assert(v.regions.contains(s) && s.contains(a));
                assert(v.covers(a));
            } else {
                assert(fill(start, end, data).dom().contains(a));
            }
        }
    }
    assert forall|s: RegionView, t: RegionView|
        #[trigger] m.regions.contains(s) && #[trigger] m.regions.contains(t) && s.start < t.end
            && t.start < s.end implies s == t by {
        if s != r && t != r {
            assert(v.regions.contains(s) && v.regions.contains(t));
        } else if s == r && t != r {
            assert(v.regions.contains(t));
        } else if t == r && s != r {
            assert(v.regions.contains(s));
        }
    }
}

/// Mapping a region and unmapping it at once, by the same bounds, succeeds
/// both times and leaves the address space as it was: its regions, and
/// every byte of its memory.
pub proof fn lemma_map_then_free_restores(
    v: SpaceView,
    start: usize,
    end: usize,
    perm: MapPermission,
    data: Seq<u8>,
)
    requires
        v.wf(),
        start % PAGE_SIZE == 0,
        end % PAGE_SIZE == 0,
        start < end,
        !v.overlaps(start, end),
        perm.has_access(),
    ensures
        page_ceil(end as int) == end,
        v.map_result(start, end, perm) == Ok::<(), MemoryError>(()),
        v.after_map(start, end, perm, data).wf(),
        v.after_map(start, end, perm, data).free_result(start, end) == Ok::<(), MemoryError>(()),
        v.after_map(start, end, perm, data).after_free(start, end) == v,
{
    let m = v.after_map(start, end, perm, data);
    let r = RegionView { start, end, perm };
    let back = m.after_free(start, end);
    lemma_map_keeps_wf(v, start, end, perm, data);
    assert(m.regions.contains(r));
    assert(back.regions =~= v.regions) by {
        assert forall|s: RegionView| v.regions.contains(s) implies back.regions.contains(s) by {
            assert(m.regions.contains(s));
            if s.start == start && s.end == end {
                assert(s.wf());
                assert(s.start < end && start < s.end);
            }
        }
    }
    assert(back.mem =~= v.mem) by {
        assert forall|a: usize| v.mem.dom().contains(a) implies !(start <= a < end) by {
            assert(v.covers(a));
            let s = choose|s: RegionView| #[trigger] v.regions.contains(s) && s.contains(a);
            if start <= a < end {
                assert(s.start < end && start < s.end);
            }
        }
    }
}

/// When a space changes and changes back, through a state in which all
/// its addresses stay mapped, every address has its frame again and the
/// pool hands out the frames that it handed out before.
pub proof fn lemma_frames_restored(
    first: &AddressSpace,
    pool_first: &FrameAllocator,
    mid: &AddressSpace,
    pool_mid: &FrameAllocator,
    last: &AddressSpace,
    pool_last: &FrameAllocator,
)
    requires
        first.wf(),
        first.backed_by(pool_first),
        AddressSpace::accounted(first, pool_first, mid, pool_mid),
        mid.keeps_frames(first),
        AddressSpace::accounted(mid, pool_mid, last, pool_last),
        last.keeps_frames(mid),
        forall|a: usize| #[trigger] first@.covers(a) ==> mid@.covers(a),
        last@ == first@,
    ensures
        forall|a: usize| first@.covers(a) ==> #[trigger] last.frame_of(a) == first.frame_of(a),
        last.frames() == first.frames(),
        pool_last.allocated() == pool_first.allocated(),
{
    assert forall|a: usize| first@.covers(a) implies #[trigger] last.frame_of(a) == first.frame_of(a) by {
        assert(mid@.covers(a));
        assert(mid.frame_of(a) == first.frame_of(a));
        assert(last@.covers(a));
    }
    first.lemma_frames();
    last.lemma_frames();
    assert(last.frames() =~= first.frames()) by {
        assert forall|p: usize| last.frames().contains(p) implies first.frames().contains(p) by {
            let a = choose|a: usize| last@.covers(a) && #[trigger] last.frame_of(a) == p;
            assert(first@.covers(a) && first.frame_of(a) == p);
        }
        assert forall|p: usize| first.frames().contains(p) implies last.frames().contains(p) by {
            let a = choose|a: usize| first@.covers(a) && #[trigger] first.frame_of(a) == p;
            assert(last@.covers(a) && last.frame_of(a) == p);
        }
    }
    assert(pool_last.allocated() =~= pool_first.allocated()) by {
        assert(last.foreign(pool_last) == first.foreign(pool_first));
        assert forall|p: usize| pool_last.allocated().contains(p) implies pool_first.allocated().contains(p) by {
            if !last.frames().contains(p) {
                assert(last.foreign(pool_last).contains(p));
                assert(first.foreign(pool_first).contains(p));
            }
        }
        assert forall|p: usize| pool_first.allocated().contains(p) implies pool_last.allocated().contains(p) by {
            if !first.frames().contains(p) {
                assert(first.foreign(pool_first).contains(p));
                assert(last.foreign(pool_last).contains(p));
            }
        }
    }
}

/// Mapping a region and unmapping it at once leaves the frames as they
/// were: every address that was mapped translates as before, and the pool
/// hands out the frames that it handed out before.
pub proof fn lemma_map_then_free_restores_frames(
    first: &AddressSpace,
    pool_first: &FrameAllocator,
    mid: &AddressSpace,
    pool_mid: &FrameAllocator,
    last: &AddressSpace,
    pool_last: &FrameAllocator,
    start: usize,
    end: usize,
    perm: MapPermission,
    data: Seq<u8>,
)
    requires
        first.wf(),
        first.backed_by(pool_first),
        start % PAGE_SIZE == 0,
        end % PAGE_SIZE == 0,
        start < end,
        !first@.overlaps(start, end),
        perm.has_access(),
        mid@ == first@.after_map(start, end, perm, data),
        AddressSpace::accounted(first, pool_first, mid, pool_mid),
        mid.keeps_frames(first),
        last@ == mid@.after_free(start, end),
        AddressSpace::accounted(mid, pool_mid, last, pool_last),
        last.keeps_frames(mid),
    ensures
        last@ == first@,
        forall|a: usize| first@.covers(a) ==> #[trigger] last.frame_of(a) == first.frame_of(a),
        pool_last.allocated() == pool_first.allocated(),
{
    first.lemma_view_wf();
    lemma_map_then_free_restores(first@, start, end, perm, data);
    assert forall|a: usize| #[trigger] first@.covers(a) implies mid@.covers(a) by {
        let r = choose|r: RegionView| #[trigger] first@.regions.contains(r) && r.contains(a);
        assert(mid@.regions.contains(r) && r.contains(a));
    }
    lemma_frames_restored(first, pool_first, mid, pool_mid, last, pool_last);
}

/// A request to map a range that intersects a mapped region fails with
/// `Overlap`, whatever its permission; a request for a range that
/// intersects none succeeds if its permission grants some access.
pub proof fn lemma_map_result(v: SpaceView, start: usize, end: usize, perm: MapPermission)
    ensures
        v.overlaps(start, end) ==> v.map_result(start, end, perm) == Err::<(), MemoryError>(
            MemoryError::Overlap,
        ),
        !v.overlaps(start, end) && perm.has_access() ==> v.map_result(start, end, perm) == Ok::<
            (),
            MemoryError,
        >(()),
        !v.overlaps(start, end) && !perm.has_access() ==> v.map_result(start, end, perm) == Err::<
            (),
            MemoryError,
        >(MemoryError::InvalidPermission),
{
}

/// While a region is mapped, every request for a range that intersects it
/// fails with `Overlap`.
pub proof fn lemma_mapped_region_blocks(
    v: SpaceView,
    start: usize,
    end: usize,
    perm: MapPermission,
    data: Seq<u8>,
    other_start: usize,
    other_end: usize,
    other_perm: MapPermission,
)
    requires
        other_start < end,
        start < other_end,
    ensures
        v.after_map(start, end, perm, data).map_result(other_start, other_end, other_perm) == Err::<
            (),
            MemoryError,
        >(MemoryError::Overlap),
{
    let m = v.after_map(start, end, perm, data);
    let r = RegionView { start, end, perm };
    assert(m.regions.contains(r) && r.start < other_end && other_start < r.end);
}

/// A request to unmap bounds that no region has fails with `NotFound`.
/// So does every request whose bounds intersect a region without being
/// its bounds: a region is unmapped whole or not at all.
pub proof fn lemma_inexact_free_refused(v: SpaceView, r: RegionView, start: usize, end: usize)
    requires
        v.wf(),
        v.regions.contains(r),
        start < r.end,
        r.start < end,
        !(start == r.start && end == r.end),
    ensures
        !v.has_region(start, end),
        v.free_result(start, end) == Err::<(), MemoryError>(MemoryError::NotFound),
{
    if v.has_region(start, end) {
        let s = choose|s: RegionView| #[trigger]
            v.regions.contains(s) && s.start == start && s.end == end;
        assert(s.start < r.end && r.start < s.end);
    }
}

/// Bytes that were stored are the bytes that a load from the same address
/// returns, wherever the range lies: inside one page, across the boundary
/// of two pages or across two regions. The store changes no other byte and
/// no region.
pub proof fn lemma_store_then_load(v: SpaceView, va: usize, bytes: Seq<u8>)
    requires
        v.wf(),
        v.range_writable(va, bytes.len()),
    ensures
        v.after_store(va, bytes).wf(),
        v.after_store(va, bytes).load(va, bytes.len()) == bytes,
        v.after_store(va, bytes).regions == v.regions,
        forall|a: usize|
            !(va <= a < va + bytes.len()) && v.mem.dom().contains(a) ==> v.after_store(
                va,
                bytes,
            ).mem[a] == v.mem[a],
{
    let w = v.after_store(va, bytes);
    assert forall|i: int| 0 <= i < bytes.len() implies w.load(va, bytes.len())[i] == bytes[i] by {
        assert(v.writable_at(va + i));
        let a = (va + i) as usize;
        let r = choose|r: RegionView| #[trigger]
            v.regions.contains(r) && r.contains(a) && r.perm.user && r.perm.write;
        assert(v.covers(a));
        assert(v.mem.dom().contains(a));
    }
    assert(w.load(va, bytes.len()) =~= bytes);
    assert forall|a: usize| w.mem.dom().contains(a) <==> w.covers(a) by {
        assert(v.mem.dom().contains(a) <==> v.covers(a));
        if v.covers(a) {
            let r = choose|r: RegionView| #[trigger] v.regions.contains(r) && r.contains(a);
            assert(w.regions.contains(r) && r.contains(a));
        }
        if w.covers(a) {
            let r = choose|r: RegionView| #[trigger] w.regions.contains(r) && r.contains(a);
            assert(v.regions.contains(r) && r.contains(a));
        }
    }
}

/// Two stores of the same bytes, one across a page boundary and one
/// inside a page, read back as the same bytes.
pub proof fn lemma_straddling_store_reads_alike(
    v: SpaceView,
    across: usize,
    within: usize,
    bytes: Seq<u8>,
)
    requires
        v.wf(),
        v.range_writable(across, bytes.len()),
        v.range_writable(within, bytes.len()),
    ensures
        v.after_store(across, bytes).load(across, bytes.len()) == v.after_store(
            within,
            bytes,
        ).load(within, bytes.len()),
{
    lemma_store_then_load(v, across, bytes);
    lemma_store_then_load(v, within, bytes);
}

/// A request to map memory with a `port` that is zero, or has a bit set
/// outside its three lowest, fails and changes nothing.
pub proof fn lemma_mmap_rejects_port(v: KernelView, start: usize, len: usize, port: usize)
    requires
        port == 0 || port & !7usize != 0,
    ensures
        mmap_outcome(v, start, len, port) == (v, FAILED),
{
    lemma_port_rejected(port);
}

/// Mapping memory and unmapping it at once, by the same bounds, returns 0
/// both times and leaves the kernel as it was.
pub proof fn lemma_mmap_then_munmap_restores(v: KernelView, start: usize, len: usize, port: usize)
    requires
        v.wf(),
        v.current is Some,
        len > 0,
        len % PAGE_SIZE == 0,
        mmap_outcome(v, start, len, port).1 == 0,
    ensures
        munmap_outcome(mmap_outcome(v, start, len, port).0, start, len) == (v, 0isize),
{
    assert(v.has(v.current.unwrap()));
    lemma_mmap_round_trip(v, start, len, port);
}

proof fn lemma_mmap_round_trip(v: KernelView, start: usize, len: usize, port: usize)
    requires
        v.current is Some,
        v.has(v.current.unwrap()),
        v.running().space.wf(),
        len > 0,
        len % PAGE_SIZE == 0,
        mmap_outcome(v, start, len, port).1 == 0,
    ensures
        munmap_outcome(mmap_outcome(v, start, len, port).0, start, len) == (v, 0isize),
{
    let c = v.current.unwrap();
    let t = v.running();
    let end = (start + len) as usize;
    let perm = MapPermission::of_port(port);
    lemma_port_rejected(port);
    assert(end % PAGE_SIZE == 0);
    lemma_map_then_free_restores(t.space, start, end, perm, Seq::empty());
    let mapped = t.space.after_map(start, end, perm, Seq::empty());
    let m = v.with_running(TaskView { space: mapped, ..t });
    assert(mmap_outcome(v, start, len, port).0 == m);
    assert(m.running() == TaskView { space: mapped, ..t });
    assert(mapped.has_region(start, end));
    let back = m.with_running(TaskView { space: mapped.after_free(start, end), ..m.running() });
    assert(munmap_outcome(m, start, len) == (back, 0isize));
    assert(back.tasks =~= v.tasks);
}

/// A wait for a child that was just forked, and has not exited, returns
/// -2 and changes nothing. So does a wait for any child, if no child had
/// terminated before the fork.
pub proof fn lemma_wait_after_fork(v: KernelView, pid: usize, ptr: usize)
    requires
        v.wf(),
        v.current is Some,
        v.is_free_pid(pid),
    ensures
        waitpid_outcome(v.after_fork(pid), pid as isize, ptr) == (v.after_fork(pid), STILL_RUNNING),
        (forall|i: int|
            0 <= i < v.running().children.len() ==> v.tasks[#[trigger] v.running().children[i]].status
                != TaskStatus::Zombie) ==> waitpid_outcome(v.after_fork(pid), ANY_CHILD, ptr) == (
            v.after_fork(pid),
            STILL_RUNNING,
        ),
{
    let w = v.after_fork(pid);
    let c = v.current.unwrap();
    assert(v.has(c));
    let kids = w.running().children;
    assert(kids == v.running().children.push(pid));
    assert(kids[kids.len() - 1] == pid);
    assert(wanted(pid as isize, kids[kids.len() - 1]));
    assert(w.has_wanted_child(pid as isize));
    assert(w.has_wanted_child(ANY_CHILD));
    let asked = pid as isize;
    assert forall|i: int| !#[trigger] w.is_first_zombie(asked, i) by {
        if w.is_first_zombie(asked, i) {
            assert(kids[i] == pid);
            assert(w.tasks[pid].status == TaskStatus::Ready);
        }
    }
    if forall|i: int|
        0 <= i < v.running().children.len() ==> v.tasks[#[trigger] v.running().children[i]].status
            != TaskStatus::Zombie {
        assert forall|i: int| !#[trigger] w.is_first_zombie(ANY_CHILD, i) by {
            if w.is_first_zombie(ANY_CHILD, i) {
                if i < v.running().children.len() {
                    let k = v.running().children[i];
                    assert(v.has(k));
                    assert(k != pid && k != c);
                    assert(w.tasks[k] == v.tasks[k]);
                } else {
                    assert(kids[i] == pid);
                }
            }
        }
    }
}

/// A task with a living parent that exits becomes a zombie that keeps its
/// exit code, and stays among the children of its parent.
pub proof fn lemma_exit_leaves_zombie(v: KernelView, code: i32)
    requires
        v.wf(),
        v.current is Some,
        v.running().parent is Some,
    ensures
        v.after_exit(code).wf(),
        v.after_exit(code).has(v.current.unwrap()),
        v.after_exit(code).tasks[v.current.unwrap()].status == TaskStatus::Zombie,
        v.after_exit(code).tasks[v.current.unwrap()].exit_code == code,
        v.after_exit(code).tasks[v.current.unwrap()].parent == v.running().parent,
        v.after_exit(code).has(v.running().parent.unwrap()),
        v.after_exit(code).tasks[v.running().parent.unwrap()].children
            == v.tasks[v.running().parent.unwrap()].children,
{
    let c = v.current.unwrap();
    let p = v.running().parent.unwrap();
    assert(v.has(c));
    assert(v.has(p));
    assert(v.tasks[p].children.contains(c));
    assert(v.tasks[p].status != TaskStatus::Zombie);
    v.lemma_terminate_wf(code);
    v.lemma_exit_wf(code);
    let mid = v.after_terminate(code);
    assert(mid.has(c) && mid.has(p));
    assert(mid.tasks[p].children == v.tasks[p].children);
    mid.lemma_dispatch_wf();
    if mid.ready.len() > 0 {
        assert(mid.has(mid.ready[0]));
    }
}

/// A wait that finds a terminated child returns its pid, stores its exit
/// code at the pointer of the caller and releases the child, so that a
/// second wait for the same pid returns -1: a child is collected once.
pub proof fn lemma_wait_collects_once(v: KernelView, pid: isize, ptr: usize, again: usize)
    requires
        v.wf(),
        v.current is Some,
        v.wait_result(pid) is Ok,
        v.running().space.range_writable(ptr, 4),
    ensures
        ({
            let child = v.running().children[v.wait_result(pid).unwrap()];
            let (w, r) = waitpid_outcome(v, pid, ptr);
            &&& r == child
            &&& w.wf()
            &&& w.current == v.current
            &&& v.tasks[child].status == TaskStatus::Zombie
            &&& w.running().space.load(ptr, 4) == i32_le(v.tasks[child].exit_code)
            &&& i32_of(w.running().space.load(ptr, 4)) == v.tasks[child].exit_code
            &&& !w.has(child)
            &&& !w.running().children.contains(child)
            &&& waitpid_outcome(w, child as isize, again) == (w, FAILED)
        }),
{
    lemma_found_child(v, pid);
    lemma_collects_once(v, pid, ptr, again);
    reveal(sound);
}

proof fn lemma_collects_once(v: KernelView, pid: isize, ptr: usize, again: usize)
    requires
        sound(v),
        v.current is Some,
        v.wait_result(pid) is Ok,
        v.running().space.range_writable(ptr, 4),
        v.has(v.current.unwrap()),
        v.is_first_zombie(pid, v.wait_result(pid).unwrap()),
        v.has(v.running().children[v.wait_result(pid).unwrap()]),
        v.running().children[v.wait_result(pid).unwrap()] != v.current.unwrap(),
        v.running().children[v.wait_result(pid).unwrap()] < MAX_TASKS,
        v.running().space.wf(),
    ensures
        ({
            let child = v.running().children[v.wait_result(pid).unwrap()];
            let (w, r) = waitpid_outcome(v, pid, ptr);
            &&& r == child
            &&& sound(w)
            &&& w.current == v.current
            &&& v.tasks[child].status == TaskStatus::Zombie
            &&& w.running().space.load(ptr, 4) == i32_le(v.tasks[child].exit_code)
            &&& i32_of(w.running().space.load(ptr, 4)) == v.tasks[child].exit_code
            &&& !w.has(child)
            &&& !w.running().children.contains(child)
            &&& waitpid_outcome(w, child as isize, again) == (w, FAILED)
        }),
{
    let i = v.wait_result(pid).unwrap();
    let child = v.running().children[i];
    let code = i32_le(v.tasks[child].exit_code);
    lemma_store_keeps_sound(v, ptr, code);
    lemma_stored_shape(v, ptr, code, child);
    lemma_collect_keeps_sound(stored(v, ptr, code), i);
    lemma_collected_shape(stored(v, ptr, code), i);
    lemma_wait_for_stranger(stored(v, ptr, code).after_collect(i), child as isize, again);
    lemma_i32_bytes(v.tasks[child].exit_code);
}

/// The kernel is well formed; kept closed where the parts of that are
/// not needed.
#[verifier::opaque]
spec fn sound(v: KernelView) -> bool {
    v.wf()
}

/// What holds of the child that a wait finds.
proof fn lemma_found_child(v: KernelView, pid: isize)
    requires
        v.wf(),
        v.current is Some,
        v.wait_result(pid) is Ok,
    ensures
        sound(v),
        v.has(v.current.unwrap()),
        v.is_first_zombie(pid, v.wait_result(pid).unwrap()),
        v.has(v.running().children[v.wait_result(pid).unwrap()]),
        v.running().children[v.wait_result(pid).unwrap()] != v.current.unwrap(),
        v.running().children[v.wait_result(pid).unwrap()] < MAX_TASKS,
        v.running().space.wf(),
{
    reveal(sound);
    let c = v.current.unwrap();
    let i = v.wait_result(pid).unwrap();
    assert(v.has(c));
    assert(v.is_first_zombie(pid, i));
    assert(v.has(v.running().children[i]));
}

/// A store to the memory of the current task keeps the kernel well
/// formed, and the bytes can be loaded again.
proof fn lemma_store_keeps_sound(v: KernelView, ptr: usize, bytes: Seq<u8>)
    requires
        sound(v),
        v.current is Some,
        v.has(v.current.unwrap()),
        v.running().space.wf(),
        v.running().space.range_writable(ptr, bytes.len()),
    ensures
        sound(stored(v, ptr, bytes)),
        v.running().space.after_store(ptr, bytes).load(ptr, bytes.len()) == bytes,
{
    reveal(sound);
    let t = v.running();
    lemma_store_then_load(t.space, ptr, bytes);
    v.lemma_with_task_wf(
        v.current.unwrap(),
        TaskView { space: t.space.after_store(ptr, bytes), ..t },
    );
}

/// Collecting a terminated child keeps the kernel well formed and takes
/// the child from the children of the current task.
proof fn lemma_collect_keeps_sound(s: KernelView, i: int)
    requires
        sound(s),
        s.current is Some,
        0 <= i < s.running().children.len(),
        s.tasks[s.running().children[i]].status == TaskStatus::Zombie,
    ensures
        sound(s.after_collect(i)),
        !s.after_collect(i).running().children.contains(s.running().children[i]),
{
    reveal(sound);
    s.lemma_collect_wf(i);
}

/// A store to the memory of the current task leaves its children and
/// every other task as they are.
proof fn lemma_stored_shape(v: KernelView, ptr: usize, bytes: Seq<u8>, other: usize)
    requires
        v.current is Some,
        v.has(v.current.unwrap()),
        other != v.current.unwrap(),
    ensures
        stored(v, ptr, bytes).current == v.current,
        stored(v, ptr, bytes).has(v.current.unwrap()),
        stored(v, ptr, bytes).running().children == v.running().children,
        stored(v, ptr, bytes).running().space == v.running().space.after_store(ptr, bytes),
        stored(v, ptr, bytes).tasks[other] == v.tasks[other],
        stored(v, ptr, bytes).has(other) == v.has(other),
{
}

/// Collecting a child leaves the memory of the current task as it is and
/// removes the child from the tasks.
proof fn lemma_collected_shape(s: KernelView, i: int)
    requires
        s.current is Some,
        s.has(s.current.unwrap()),
        0 <= i < s.running().children.len(),
        s.running().children[i] != s.current.unwrap(),
    ensures
        s.after_collect(i).current == s.current,
        s.after_collect(i).running().space == s.running().space,
        s.after_collect(i).running().children == s.running().children.remove(i),
        !s.after_collect(i).has(s.running().children[i]),
{
}

/// A wait for a pid that is no child of the caller returns -1 and changes
/// nothing, whether a task with that pid lives or not.
pub proof fn lemma_wait_for_stranger(v: KernelView, pid: isize, ptr: usize)
    requires
        v.current is Some,
        pid != ANY_CHILD,
        forall|i: int| 0 <= i < v.running().children.len() ==> v.running().children[i] != pid,
    ensures
        waitpid_outcome(v, pid, ptr) == (v, FAILED),
{
    assert(!v.has_wanted_child(pid));
}

/// A request to run a program that does not exist returns -1 and changes
/// nothing: the memory and the registers of the caller stay as they are.
pub proof fn lemma_exec_missing(v: KernelView, path: usize)
    requires
        string_at(v.running().space, path) matches Some(name) ==> v.image(name) is None,
    ensures
        exec_outcome(v, path) == (v, FAILED),
{
}

/// A request to spawn a program that does not exist fails, and a spawn
/// that fails changes nothing: no task is created and the run queue stays
/// as it is.
pub proof fn lemma_spawn_missing(v: KernelView, path: usize)
    requires
        string_at(v.running().space, path) matches Some(name) ==> v.image(name) is None,
    ensures
        spawn_fails(v, path),
        spawn_outcome(v, path, FAILED) == v,
        spawn_outcome(v, path, FAILED).ready == v.ready,
        spawn_outcome(v, path, FAILED).tasks == v.tasks,
{
}

/// A task that exits gives every frame of its memory back to the pool,
/// and the pool hands out no frame that it did not hand out before.
pub proof fn lemma_exit_returns_frames(before: &Kernel, after: &Kernel, code: i32)
    requires
        before.wf(),
        after.wf(),
        before@.current is Some,
        after@ == before@.after_exit(code),
        after.changed(before, before@.current.unwrap()),
    ensures
        after.pool().allocated() == before.pool().allocated().difference(
            before.space_of(before@.current.unwrap()).frames(),
        ),
{
    let c = before@.current.unwrap();
    before.lemma_view_wf();
    before.lemma_frame_ownership();
    after.lemma_frame_ownership();
    assert(before@.has(c));
    if after@.has(c) {
        let mid = before@.after_terminate(code);
        before@.lemma_terminate_wf(code);
        mid.lemma_dispatch_wf();
        if mid.has(c) {
            assert(mid.tasks[c].status == TaskStatus::Zombie);
            if mid.ready.len() > 0 {
                assert(mid.has(mid.ready[0]));
                assert(mid.ready[0] != c);
            }
        }
        assert(after@.tasks[c].status == TaskStatus::Zombie);
        assert(after.space_of(c).frames() == Set::<usize>::empty());
        assert(after.pool().allocated() =~= after.space_of(c).foreign(&after.pool()));
    }
}

/// The task `p`, a zombie in `v`, is in `w` the zombie that it was, or is
/// gone.
pub open spec fn rests(v: KernelView, w: KernelView, p: usize) -> bool {
    !w.has(p) || w.tasks[p] == v.tasks[p]
}

/// No step of the kernel changes a zombie: it stays as it is until it is
/// released. And whenever the kernel is well formed with a current task,
/// that task is the only one that runs.
pub proof fn lemma_zombies_rest(
    v: KernelView,
    p: usize,
    code: i32,
    pid: usize,
    path: Seq<u8>,
    image: Image,
    i: int,
    va: usize,
    bytes: Seq<u8>,
)
    requires
        v.wf(),
        v.current is Some,
        v.has(p),
        v.tasks[p].status == TaskStatus::Zombie,
    ensures
        rests(v, v.after_yield(), p),
        rests(v, v.after_exit(code), p),
        v.is_free_pid(pid) ==> rests(v, v.after_fork(pid), p) && rests(
            v,
            v.after_spawn(pid, path),
            p,
        ),
        rests(v, v.after_exec(image), p),
        rests(v, v.after_first_exec(image), p),
        rests(v, stored(v, va, bytes), p),
        0 <= i < v.running().children.len() ==> rests(v, v.after_collect(i), p),
        forall|q: usize|
            v.has(q) && v.tasks[q].status == TaskStatus::Running ==> v.current == Some(q),
{
    let c = v.current.unwrap();
    assert(v.has(c));
    assert(p != c);
    assert(!v.ready.contains(p)) by {
        if v.ready.contains(p) {
            let k = choose|k: int| 0 <= k < v.ready.len() && v.ready[k] == p;
            assert(v.has(v.ready[k]));
        }
    }
    lemma_rests(v, p, code, pid, path, image, i, va, bytes);
}

proof fn lemma_rests(
    v: KernelView,
    p: usize,
    code: i32,
    pid: usize,
    path: Seq<u8>,
    image: Image,
    i: int,
    va: usize,
    bytes: Seq<u8>,
)
    requires
        v.current is Some,
        v.has(v.current.unwrap()),
        v.has(p),
        v.tasks[p].status == TaskStatus::Zombie,
        p != v.current.unwrap(),
        !v.ready.contains(p),
    ensures
        rests(v, v.after_yield(), p),
        rests(v, v.after_exit(code), p),
        v.is_free_pid(pid) ==> rests(v, v.after_fork(pid), p) && rests(
            v,
            v.after_spawn(pid, path),
            p,
        ),
        rests(v, v.after_exec(image), p),
        rests(v, v.after_first_exec(image), p),
        rests(v, stored(v, va, bytes), p),
        0 <= i < v.running().children.len() ==> rests(v, v.after_collect(i), p),
{
    assert(rests(v, v.after_yield(), p)) by {
        let mid = v.after_suspend();
        if v.ready.len() > 0 {
            assert(v.ready.contains(v.ready[0]));
        }
        assert(mid.ready[0] != p);
    }
    assert(rests(v, v.after_exit(code), p)) by {
        let mid = v.after_terminate(code);
        if mid.ready.len() > 0 {
            assert(v.ready.contains(mid.ready[0]));
        }
    }
}

} // verus!
