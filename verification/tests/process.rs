use os::loader::{Image, Loader, Segment};
use os::mm::bridge::{read_bytes, read_i32, write_bytes};
use os::mm::permission::MapPermission;
use os::task::context::{trap_exec, SwitchTarget};
use os::task::kernel::Kernel;
use os::task::model::{Fatal, WaitStatus};
use os::task::tcb::TaskStatus;

const TEXT: usize = 0x1_0000;
const STACK: usize = 0x2_0000;
const STACK_TOP: usize = 0x2_2000;

fn image(name: &str, text: &[u8]) -> Image {
    Image {
        name: name.as_bytes().to_vec(),
        entry: TEXT,
        stack_top: STACK_TOP,
        segments: vec![
            Segment {
                start: TEXT,
                end: TEXT + 0x1000,
                perm: MapPermission { user: true, read: true, write: false, execute: true },
                data: text.to_vec(),
            },
            Segment {
                start: STACK,
                end: STACK_TOP,
                perm: MapPermission { user: true, read: true, write: true, execute: false },
                data: vec![],
            },
        ],
    }
}

fn loader() -> Loader {
    let mut loader = Loader::new();
    assert!(loader.register(image("init", b"init-text")));
    assert!(loader.register(image("shell", b"shell-text")));
    loader
}

/// A kernel whose first task, pid 0, runs "init".
fn booted() -> Kernel {
    let mut kernel = Kernel::new(loader());
    assert_eq!(kernel.launch(&b"init".to_vec()), Some(0));
    assert_eq!(kernel.dispatch(), Some(0));
    kernel
}

fn status(kernel: &Kernel, pid: usize) -> Option<TaskStatus> {
    kernel.task(pid).map(|t| t.status())
}

#[test]
fn image_with_overlapping_segments_is_refused() {
    let mut bad = image("bad", b"x");
    bad.segments[1].start = TEXT;
    assert!(!bad.check());
    let mut loader = Loader::new();
    assert!(!loader.register(bad));
    assert!(loader.lookup(&b"bad".to_vec()).is_none());
}

#[test]
fn image_with_misaligned_or_empty_segment_is_refused() {
    let mut a = image("a", b"x");
    a.segments[0].start = TEXT + 1;
    assert!(!a.check());
    let mut b = image("b", b"x");
    b.segments[0].end = TEXT;
    assert!(!b.check());
    let mut c = image("c", b"x");
    c.segments[0].perm = MapPermission { user: true, read: false, write: false, execute: false };
    assert!(!c.check());
    let mut d = image("d", b"x");
    d.segments[0].data = vec![0; 0x1001];
    assert!(!d.check());
    assert!(image("e", b"x").check());
}

#[test]
fn lookup_finds_the_first_image_of_a_name() {
    let mut loader = loader();
    let mut second = image("init", b"other-text");
    second.entry = 0x1_0004;
    assert!(loader.register(second));
    assert_eq!(loader.lookup(&b"init".to_vec()).unwrap().entry, TEXT);
    assert_eq!(loader.lookup(&b"shell".to_vec()).unwrap().name, b"shell".to_vec());
    assert!(loader.lookup(&b"ini".to_vec()).is_none());
    assert!(loader.lookup(&b"".to_vec()).is_none());
}

#[test]
fn new_kernel_has_no_task() {
    let mut kernel = Kernel::new(loader());
    assert_eq!(kernel.current_pid(), None);
    assert!(kernel.ready_queue().is_empty());
    assert!(kernel.task(0).is_none());
    assert_eq!(kernel.free_pid(), Some(0));
    assert_eq!(kernel.dispatch(), None);
    assert_eq!(kernel.launch(&b"nothing".to_vec()), None);
    assert!(kernel.task(0).is_none());
}

#[test]
fn launched_task_holds_the_image() {
    let kernel = booted();
    let task = kernel.task(0).unwrap();
    assert_eq!(task.pid(), 0);
    assert_eq!(task.status(), TaskStatus::Running);
    assert_eq!(task.parent(), None);
    assert!(task.children().is_empty());
    assert_eq!(task.trap_cx().sepc, TEXT);
    assert_eq!(task.trap_cx().x[2], STACK_TOP);
    assert_eq!(task.task_cx().target(), SwitchTarget::TrapReturn);
    assert_eq!(task.task_cx().stack_pointer(), 0xFFFF_F000);
    assert_eq!(task.program_brk(), STACK_TOP);
    assert_eq!(task.syscall_count().len(), 500);
    assert_eq!(task.space().region_count(), 2);
    assert_eq!(read_bytes(task.space(), TEXT, 10), Ok(b"init-text\0".to_vec()));
    assert_eq!(read_bytes(task.space(), STACK_TOP - 4, 4), Ok(vec![0; 4]));
    assert_eq!(kernel.current_pid(), Some(0));
    assert!(kernel.ready_queue().is_empty());
}

#[test]
fn fork_copies_the_parent() {
    let mut kernel = booted();
    let mut bytes = vec![1u8, 2, 3];
    let c = kernel.current_pid().unwrap();
    assert_eq!(kernel.write_current(STACK, &bytes), Ok(()));
    assert_eq!(kernel.fork(), Some(1));
    let child = kernel.task(1).unwrap();
    assert_eq!(child.status(), TaskStatus::Ready);
    assert_eq!(child.parent(), Some(c));
    assert_eq!(child.trap_cx().x[10], 0);
    assert_eq!(child.trap_cx().sepc, TEXT);
    assert_eq!(child.trap_cx().x[2], STACK_TOP);
    assert_eq!(child.task_cx().target(), SwitchTarget::TrapReturn);
    assert_eq!(child.task_cx().stack_pointer(), 0xFFFF_F000 - 12288);
    assert_eq!(child.running_time(), None);
    assert_eq!(read_bytes(child.space(), STACK, 3), Ok(bytes.clone()));
    assert_eq!(kernel.task(0).unwrap().children(), &vec![1]);
    assert_eq!(kernel.ready_queue(), &vec![1]);
    assert_eq!(kernel.current_pid(), Some(0));
    // The copy does not follow the parent.
    bytes[0] = 9;
    assert_eq!(kernel.write_current(STACK, &bytes), Ok(()));
    assert_eq!(read_bytes(kernel.task(1).unwrap().space(), STACK, 3), Ok(vec![1, 2, 3]));
    assert_eq!(read_bytes(kernel.task(0).unwrap().space(), STACK, 3), Ok(vec![9, 2, 3]));
}

#[test]
fn yield_is_first_come_first_served() {
    let mut kernel = booted();
    assert_eq!(kernel.fork(), Some(1));
    assert_eq!(kernel.fork(), Some(2));
    assert_eq!(kernel.ready_queue(), &vec![1, 2]);
    assert_eq!(kernel.yield_now(), 1);
    assert_eq!(kernel.ready_queue(), &vec![2, 0]);
    assert_eq!(status(&kernel, 0), Some(TaskStatus::Ready));
    assert_eq!(status(&kernel, 1), Some(TaskStatus::Running));
    assert_eq!(kernel.yield_now(), 2);
    assert_eq!(kernel.yield_now(), 0);
    assert_eq!(kernel.ready_queue(), &vec![1, 2]);
}

#[test]
fn lone_task_yields_to_itself() {
    let mut kernel = booted();
    assert_eq!(kernel.yield_now(), 0);
    assert_eq!(kernel.current_pid(), Some(0));
    assert_eq!(status(&kernel, 0), Some(TaskStatus::Running));
    assert!(kernel.ready_queue().is_empty());
}

#[test]
fn exit_with_empty_queue_leaves_no_task_to_run() {
    let mut kernel = booted();
    assert_eq!(kernel.exit_current(3), None);
    assert_eq!(kernel.current_pid(), None);
    // A task without parent is released at once.
    assert!(kernel.task(0).is_none());
}

#[test]
fn wait_finds_the_first_terminated_child() {
    let mut kernel = booted();
    assert_eq!(kernel.wait(-1), Err(WaitStatus::NoSuchChild));
    assert_eq!(kernel.fork(), Some(1));
    assert_eq!(kernel.fork(), Some(2));
    assert_eq!(kernel.fork(), Some(3));
    assert_eq!(kernel.wait(-1), Err(WaitStatus::StillRunning));
    assert_eq!(kernel.wait(2), Err(WaitStatus::StillRunning));
    assert_eq!(kernel.wait(7), Err(WaitStatus::NoSuchChild));
    assert_eq!(kernel.wait(0), Err(WaitStatus::NoSuchChild));
    assert_eq!(kernel.wait(-2), Err(WaitStatus::NoSuchChild));
    // Children 3 and 2 terminate, in this order.
    assert_eq!(kernel.yield_now(), 1);
    assert_eq!(kernel.yield_now(), 2);
    assert_eq!(kernel.exit_current(20), Some(3));
    assert_eq!(kernel.exit_current(30), Some(0));
    assert_eq!(status(&kernel, 2), Some(TaskStatus::Zombie));
    assert_eq!(status(&kernel, 3), Some(TaskStatus::Zombie));
    assert_eq!(kernel.task(2).unwrap().space().region_count(), 0);
    // Child 2 stands before child 3 among the children.
    assert_eq!(kernel.wait(-1), Ok(1));
    assert_eq!(kernel.wait(3), Ok(2));
    assert_eq!(kernel.wait(1), Err(WaitStatus::StillRunning));
    assert_eq!(kernel.child_at(1), (2, 20));
    assert_eq!(kernel.collect(1), (2, 20));
    assert!(kernel.task(2).is_none());
    assert_eq!(kernel.task(0).unwrap().children(), &vec![1, 3]);
    assert_eq!(kernel.wait(-1), Ok(1));
    assert_eq!(kernel.collect(1), (3, 30));
    assert_eq!(kernel.wait(-1), Err(WaitStatus::StillRunning));
    assert_eq!(kernel.wait(2), Err(WaitStatus::NoSuchChild));
}

#[test]
fn exit_releases_memory_and_orphans_children() {
    let mut kernel = booted();
    assert_eq!(kernel.fork(), Some(1));
    assert_eq!(kernel.yield_now(), 1);
    // Task 1 has two children; one of them terminates.
    assert_eq!(kernel.fork(), Some(2));
    assert_eq!(kernel.fork(), Some(3));
    assert_eq!(kernel.yield_now(), 0);
    assert_eq!(kernel.yield_now(), 2);
    assert_eq!(kernel.exit_current(5), Some(3));
    assert_eq!(status(&kernel, 2), Some(TaskStatus::Zombie));
    assert_eq!(kernel.yield_now(), 1);
    let frame = kernel.task(1).unwrap().space().translate(STACK).unwrap().ppn;
    assert!(kernel.frame_pool().is_allocated(frame));
    // Task 1 exits: its zombie child goes, its living child has no parent.
    assert_eq!(kernel.exit_current(6), Some(0));
    assert!(kernel.task(2).is_none());
    assert_eq!(kernel.task(3).unwrap().parent(), None);
    assert_eq!(status(&kernel, 3), Some(TaskStatus::Ready));
    let zombie = kernel.task(1).unwrap();
    assert_eq!(zombie.status(), TaskStatus::Zombie);
    assert_eq!(zombie.exit_code(), 6);
    assert!(zombie.children().is_empty());
    assert_eq!(zombie.space().region_count(), 0);
    assert!(!kernel.frame_pool().is_allocated(frame));
    assert_eq!(kernel.task(0).unwrap().children(), &vec![1]);
    // The pid of the released task is the next to be handed out.
    assert_eq!(kernel.free_pid(), Some(2));
    // The orphan is released as soon as it exits.
    assert_eq!(kernel.yield_now(), 3);
    assert_eq!(kernel.exit_current(0), Some(0));
    assert!(kernel.task(3).is_none());
}

#[test]
fn exec_replaces_memory_and_registers() {
    let mut kernel = booted();
    assert_eq!(kernel.fork(), Some(1));
    assert_eq!(kernel.write_current(STACK, &vec![5, 5]), Ok(()));
    assert!(kernel.exec(&b"shell".to_vec()));
    let task = kernel.task(0).unwrap();
    assert_eq!(task.pid(), 0);
    assert_eq!(task.status(), TaskStatus::Running);
    assert_eq!(task.children(), &vec![1]);
    assert_eq!(task.trap_cx().sepc, TEXT);
    assert_eq!(task.trap_cx().x[2], STACK_TOP);
    assert_eq!(task.trap_cx().x[10], 0);
    assert_eq!(read_bytes(task.space(), TEXT, 10), Ok(b"shell-text".to_vec()));
    assert_eq!(read_bytes(task.space(), STACK, 2), Ok(vec![0, 0]));
    assert_eq!(kernel.task(1).unwrap().parent(), Some(0));
}

#[test]
fn exec_of_a_missing_image_changes_nothing() {
    let mut kernel = booted();
    assert_eq!(kernel.write_current(STACK, &vec![5, 5]), Ok(()));
    let frame = kernel.task(0).unwrap().space().translate(STACK).unwrap();
    assert!(!kernel.exec(&b"nothing".to_vec()));
    let task = kernel.task(0).unwrap();
    assert_eq!(read_bytes(task.space(), TEXT, 9), Ok(b"init-text".to_vec()));
    assert_eq!(read_bytes(task.space(), STACK, 2), Ok(vec![5, 5]));
    assert_eq!(task.space().translate(STACK), Some(frame));
    assert_eq!(task.trap_cx().sepc, TEXT);
    assert_eq!(task.trap_cx().x[2], STACK_TOP);
    assert_eq!(task.status(), TaskStatus::Running);
}

#[test]
fn spawned_task_loads_its_program_on_first_dispatch() {
    let mut kernel = booted();
    assert_eq!(kernel.spawn(b"shell".to_vec()), Some(1));
    {
        let child = kernel.task(1).unwrap();
        assert_eq!(child.status(), TaskStatus::Ready);
        assert_eq!(child.parent(), Some(0));
        assert!(child.awaits_first_dispatch());
        assert_eq!(child.task_cx().target(), SwitchTarget::FirstDispatch);
        assert_eq!(child.task_cx().stack_pointer(), 0xFFFF_F000 - 12288);
        assert_eq!(child.space().region_count(), 0);
    }
    assert_eq!(kernel.task(0).unwrap().children(), &vec![1]);
    assert_eq!(kernel.ready_queue(), &vec![1]);
    assert_eq!(kernel.yield_now(), 1);
    assert_eq!(trap_exec(&mut kernel), Ok(1));
    let child = kernel.task(1).unwrap();
    assert_eq!(child.status(), TaskStatus::Running);
    assert!(!child.awaits_first_dispatch());
    assert_eq!(child.task_cx().target(), SwitchTarget::TrapReturn);
    assert_eq!(child.task_cx().stack_pointer(), 0xFFFF_F000 - 12288);
    assert_eq!(child.trap_cx().sepc, TEXT);
    assert_eq!(child.trap_cx().x[2], STACK_TOP);
    assert_eq!(read_bytes(child.space(), TEXT, 10), Ok(b"shell-text".to_vec()));
    // The parent's memory is not shared.
    assert_ne!(
        child.space().translate(TEXT).unwrap().ppn,
        kernel.task(0).unwrap().space().translate(TEXT).unwrap().ppn
    );
}

#[test]
fn spawn_of_a_missing_image_creates_no_task() {
    let mut kernel = booted();
    assert_eq!(kernel.spawn(b"nothing".to_vec()), None);
    assert!(kernel.task(1).is_none());
    assert!(kernel.ready_queue().is_empty());
    assert!(kernel.task(0).unwrap().children().is_empty());
    assert_eq!(kernel.free_pid(), Some(1));
}

#[test]
fn first_dispatch_without_image_exits_with_one() {
    let mut kernel = booted();
    assert_eq!(kernel.spawn(b"shell".to_vec()), Some(1));
    // The image goes away between the spawn and the first dispatch.
    assert!(kernel.unregister(&b"shell".to_vec()));
    assert!(!kernel.unregister(&b"shell".to_vec()));
    assert_eq!(kernel.yield_now(), 1);
    assert_eq!(trap_exec(&mut kernel), Ok(0));
    assert_eq!(kernel.current_pid(), Some(0));
    let child = kernel.task(1).unwrap();
    assert_eq!(child.status(), TaskStatus::Zombie);
    assert_eq!(child.exit_code(), 1);
    assert!(!child.awaits_first_dispatch());
    assert_eq!(kernel.wait(-1), Ok(0));
    assert_eq!(kernel.collect(0), (1, 1));
    // A spawn of the missing image fails from now on.
    assert_eq!(kernel.spawn(b"shell".to_vec()), None);
}

#[test]
fn first_dispatch_of_the_last_task_can_be_fatal() {
    let mut kernel = booted();
    assert_eq!(kernel.spawn(b"shell".to_vec()), Some(1));
    assert!(kernel.unregister(&b"shell".to_vec()));
    assert_eq!(kernel.exit_current(0), Some(1));
    assert_eq!(kernel.task(1).unwrap().parent(), None);
    assert_eq!(trap_exec(&mut kernel), Err(Fatal::RunQueueEmpty));
    assert!(kernel.task(1).is_none());
    assert_eq!(kernel.current_pid(), None);
}

#[test]
fn registered_image_can_be_launched() {
    let mut kernel = booted();
    assert_eq!(kernel.launch(&b"extra".to_vec()), None);
    let mut bad = image("bad", b"x");
    bad.segments[0].end = TEXT;
    assert!(!kernel.register(bad));
    assert!(kernel.register(image("extra", b"extra-text")));
    assert_eq!(kernel.launch(&b"extra".to_vec()), Some(1));
    assert_eq!(kernel.task(1).unwrap().parent(), None);
    assert_eq!(kernel.ready_queue(), &vec![1]);
    assert_eq!(read_bytes(kernel.task(1).unwrap().space(), TEXT, 10), Ok(b"extra-text".to_vec()));
}

#[test]
fn clock_never_goes_back() {
    let mut kernel = booted();
    kernel.tick(5_000);
    assert_eq!(kernel.now_us(), 5_000);
    kernel.tick(4_000);
    assert_eq!(kernel.now_us(), 5_000);
    kernel.tick(5_001);
    assert_eq!(kernel.now_us(), 5_001);
}

#[test]
fn running_time_is_stamped_at_the_first_dispatch() {
    let mut kernel = Kernel::new(loader());
    kernel.tick(7_000_000);
    assert_eq!(kernel.launch(&b"init".to_vec()), Some(0));
    assert_eq!(kernel.task(0).unwrap().running_time(), None);
    kernel.tick(7_250_999);
    assert_eq!(kernel.dispatch(), Some(0));
    assert_eq!(kernel.task(0).unwrap().running_time(), Some(7_250));
    assert_eq!(kernel.current_elapsed_ms(), 0);
    kernel.tick(9_251_000);
    assert_eq!(kernel.yield_now(), 0);
    assert_eq!(kernel.task(0).unwrap().running_time(), Some(7_250));
    assert_eq!(kernel.current_elapsed_ms(), 2_001);
}

#[test]
fn system_calls_are_counted_up_to_the_limit() {
    let mut kernel = booted();
    kernel.count_syscall(64);
    kernel.count_syscall(64);
    kernel.count_syscall(499);
    kernel.count_syscall(500);
    kernel.count_syscall(usize::MAX);
    let counts = kernel.current_counts();
    assert_eq!(counts.len(), 500);
    assert_eq!(counts[64], 2);
    assert_eq!(counts[499], 1);
    assert_eq!(counts.iter().map(|c| *c as u64).sum::<u64>(), 3);
}

#[test]
fn program_break_maps_and_unmaps_pages() {
    let mut kernel = booted();
    assert_eq!(kernel.change_program_brk(0), Some(STACK_TOP));
    assert_eq!(kernel.task(0).unwrap().space().region_count(), 2);
    assert_eq!(kernel.change_program_brk(1), Some(STACK_TOP));
    assert_eq!(kernel.task(0).unwrap().program_brk(), STACK_TOP + 1);
    assert_eq!(kernel.task(0).unwrap().space().region_count(), 3);
    assert_eq!(kernel.write_current(STACK_TOP, &vec![1, 2]), Ok(()));
    assert_eq!(kernel.change_program_brk(0x2000), Some(STACK_TOP + 1));
    assert_eq!(kernel.task(0).unwrap().space().region_count(), 5);
    assert_eq!(kernel.write_current(STACK_TOP + 0x2ffe, &vec![1, 2]), Ok(()));
    assert!(kernel.write_current(STACK_TOP + 0x2fff, &vec![1, 2]).is_err());
    // Below the heap there is nothing to give back.
    assert_eq!(kernel.change_program_brk(-0x2002), None);
    assert_eq!(kernel.change_program_brk(-0x2001), Some(STACK_TOP + 0x2001));
    assert_eq!(kernel.task(0).unwrap().program_brk(), STACK_TOP);
    assert_eq!(kernel.task(0).unwrap().space().region_count(), 2);
    assert!(kernel.write_current(STACK_TOP, &vec![1]).is_err());
}

#[test]
fn program_break_stops_at_mapped_memory() {
    let mut kernel = booted();
    let rw = MapPermission { user: true, read: true, write: true, execute: false };
    assert_eq!(kernel.map_current(STACK_TOP + 0x1000, STACK_TOP + 0x2000, rw), Ok(()));
    assert_eq!(kernel.change_program_brk(0x1000), Some(STACK_TOP));
    assert_eq!(kernel.change_program_brk(1), None);
    assert_eq!(kernel.task(0).unwrap().program_brk(), STACK_TOP + 0x1000);
    assert_eq!(kernel.task(0).unwrap().space().region_count(), 4);
}

#[test]
fn fatal_condition_is_told_apart() {
    let mut kernel = booted();
    assert_eq!(os::syscall::process::sys_exit(&mut kernel, 0), Err(Fatal::RunQueueEmpty));
}

#[test]
fn forked_memory_survives_the_parents_exit() {
    let mut kernel = booted();
    assert_eq!(kernel.write_current(STACK, &vec![4, 2]), Ok(()));
    assert_eq!(kernel.fork(), Some(1));
    assert_eq!(kernel.exit_current(0), Some(1));
    assert!(kernel.task(0).is_none());
    let child = kernel.task(1).unwrap();
    assert_eq!(child.parent(), None);
    assert_eq!(read_bytes(child.space(), STACK, 2), Ok(vec![4, 2]));
    let mut copy = child.space().duplicate(&mut os::mm::frame::FrameAllocator::new());
    assert_eq!(write_bytes(&mut copy, STACK, &vec![1]), Ok(()));
}

/// The frames behind the mapped pages of every living task, by pid.
fn frames_by_task(kernel: &Kernel) -> Vec<(usize, Vec<usize>)> {
    let mut all = Vec::new();
    for pid in 0..8 {
        if let Some(task) = kernel.task(pid) {
            let space = task.space();
            let mut frames = Vec::new();
            for i in 0..space.region_count() {
                let region = space.region(i);
                let mut a = region.start;
                while a < region.end {
                    frames.push(space.translate(a).unwrap().ppn);
                    a += 0x1000;
                }
            }
            all.push((pid, frames));
        }
    }
    all
}

fn assert_every_frame_has_one_owner(kernel: &Kernel) {
    let by_task = frames_by_task(kernel);
    let mut held: Vec<usize> = by_task.iter().flat_map(|(_, f)| f.iter().copied()).collect();
    let total = held.len();
    held.sort();
    held.dedup();
    assert_eq!(held.len(), total);
    for frame in 0..64 {
        assert_eq!(kernel.frame_pool().is_allocated(frame), held.contains(&frame));
    }
}

#[test]
fn every_frame_in_use_has_one_owner() {
    let mut kernel = booted();
    assert_every_frame_has_one_owner(&kernel);
    assert_eq!(kernel.fork(), Some(1));
    assert_eq!(kernel.fork(), Some(2));
    assert_every_frame_has_one_owner(&kernel);
    let rw = MapPermission { user: true, read: true, write: true, execute: false };
    assert_eq!(kernel.map_current(0x100_0000, 0x100_3000, rw), Ok(()));
    assert_eq!(kernel.change_program_brk(0x1800), Some(STACK_TOP));
    assert_every_frame_has_one_owner(&kernel);
    assert_eq!(kernel.yield_now(), 1);
    assert!(kernel.exec(&b"shell".to_vec()));
    assert_every_frame_has_one_owner(&kernel);
    assert_eq!(kernel.spawn(b"shell".to_vec()), Some(3));
    assert_eq!(kernel.exit_current(4), Some(2));
    assert_every_frame_has_one_owner(&kernel);
    assert_eq!(kernel.yield_now(), 0);
    assert_eq!(kernel.unmap_current(0x100_0000, 0x100_3000), Ok(()));
    assert_eq!(kernel.change_program_brk(-0x1000), Some(STACK_TOP + 0x1800));
    assert_every_frame_has_one_owner(&kernel);
    assert_eq!(kernel.wait(1), Ok(0));
    assert_eq!(kernel.collect(0), (1, 4));
    assert_eq!(kernel.yield_now(), 3);
    assert_eq!(trap_exec(&mut kernel), Ok(3));
    assert_every_frame_has_one_owner(&kernel);
    assert_eq!(kernel.exit_current(0), Some(2));
    assert_eq!(kernel.exit_current(0), Some(0));
    assert_eq!(kernel.exit_current(0), None);
    assert_every_frame_has_one_owner(&kernel);
    assert!(frames_by_task(&kernel).is_empty());
}

#[test]
fn exit_code_can_be_read_back_as_a_number() {
    let mut kernel = booted();
    assert_eq!(kernel.fork(), Some(1));
    assert_eq!(kernel.yield_now(), 1);
    assert_eq!(kernel.exit_current(-123_456), Some(0));
    assert_eq!(os::syscall::process::sys_waitpid(&mut kernel, 1, STACK + 0xffd), 1);
    assert_eq!(read_i32(kernel.current_space(), STACK + 0xffd), Ok(-123_456));
}
