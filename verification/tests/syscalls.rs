use os::loader::{Image, Loader, Segment};
use os::mm::bridge::read_bytes;
use os::mm::permission::MapPermission;
use os::mm::space::RegionView;
use os::syscall::process::{
    sys_exec, sys_exit, sys_fork, sys_get_time, sys_getpid, sys_mmap, sys_munmap, sys_sbrk,
    sys_set_priority, sys_spawn, sys_task_info, sys_waitpid, sys_yield, TaskInfo, TimeVal,
};
use os::task::context::trap_exec;
use os::task::kernel::Kernel;
use os::task::tcb::TaskStatus;

const TEXT: usize = 0x1_0000;
const STACK: usize = 0x2_0000;
const STACK_TOP: usize = 0x2_2000;

fn image(name: &str, text: &[u8]) -> Image {
    Image {
        name: name.as_bytes().to_vec(),
        entry: TEXT,
        stack_top: STACK_TOP,
        segments: vec![
            Segment {
                start: TEXT,
                end: TEXT + 0x1000,
                perm: MapPermission { user: true, read: true, write: false, execute: true },
                data: text.to_vec(),
            },
            Segment {
                start: STACK,
                end: STACK_TOP,
                perm: MapPermission { user: true, read: true, write: true, execute: false },
                data: vec![],
            },
        ],
    }
}

/// A kernel whose first task, pid 0, runs "init"; "shell" can be run too.
fn booted() -> Kernel {
    let mut loader = Loader::new();
    assert!(loader.register(image("init", b"init-text")));
    assert!(loader.register(image("shell", b"shell-text")));
    let mut kernel = Kernel::new(loader);
    assert_eq!(kernel.launch(&b"init".to_vec()), Some(0));
    assert_eq!(kernel.dispatch(), Some(0));
    kernel
}

fn user_bytes(kernel: &Kernel, va: usize, len: usize) -> Vec<u8> {
    read_bytes(kernel.current_space(), va, len).unwrap()
}

fn put_str(kernel: &mut Kernel, va: usize, s: &str) {
    let mut bytes = s.as_bytes().to_vec();
    bytes.push(0);
    assert_eq!(kernel.write_current(va, &bytes), Ok(()));
}

#[test]
fn getpid_names_the_current_task() {
    let mut kernel = booted();
    assert_eq!(sys_getpid(&kernel), 0);
    assert_eq!(sys_fork(&mut kernel), 1);
    assert_eq!(sys_yield(&mut kernel), 0);
    assert_eq!(sys_getpid(&kernel), 1);
}

#[test]
fn set_priority_always_fails() {
    assert_eq!(sys_set_priority(0), -1);
    assert_eq!(sys_set_priority(5), -1);
    assert_eq!(sys_set_priority(-3), -1);
    assert_eq!(sys_set_priority(isize::MAX), -1);
}

#[test]
fn fork_wait_exit_collects_once() {
    let mut kernel = booted();
    let ptr = STACK + 0x100;
    assert_eq!(sys_fork(&mut kernel), 1);
    // The child has not exited.
    assert_eq!(sys_waitpid(&mut kernel, -1, ptr), -2);
    assert_eq!(sys_waitpid(&mut kernel, 1, ptr), -2);
    assert_eq!(user_bytes(&kernel, ptr, 4), vec![0, 0, 0, 0]);
    // The child runs, finds 0 as the result of its fork, and exits.
    assert_eq!(sys_yield(&mut kernel), 0);
    assert_eq!(sys_getpid(&kernel), 1);
    assert_eq!(kernel.task(1).unwrap().trap_cx().x[10], 0);
    assert_eq!(sys_exit(&mut kernel, -7), Ok(0));
    // The parent collects the child and its exit code.
    assert_eq!(sys_getpid(&kernel), 0);
    assert_eq!(sys_waitpid(&mut kernel, -1, ptr), 1);
    assert_eq!(user_bytes(&kernel, ptr, 4), vec![0xf9, 0xff, 0xff, 0xff]);
    assert!(kernel.task(1).is_none());
    // There is nothing left to collect.
    assert_eq!(sys_waitpid(&mut kernel, 1, ptr), -1);
    assert_eq!(sys_waitpid(&mut kernel, -1, ptr), -1);
}

#[test]
fn waitpid_for_a_stranger_fails() {
    let mut kernel = booted();
    let ptr = STACK;
    assert_eq!(sys_fork(&mut kernel), 1);
    assert_eq!(sys_yield(&mut kernel), 0);
    // Task 1 forks task 2, which exits at once.
    assert_eq!(sys_fork(&mut kernel), 2);
    assert_eq!(sys_yield(&mut kernel), 0);
    assert_eq!(sys_getpid(&kernel), 0);
    // Task 2 lives, terminated or not, but is no child of task 0.
    assert_eq!(sys_waitpid(&mut kernel, 2, ptr), -1);
    assert_eq!(sys_yield(&mut kernel), 0);
    assert_eq!(sys_getpid(&kernel), 2);
    assert_eq!(sys_exit(&mut kernel, 9), Ok(1));
    assert_eq!(sys_yield(&mut kernel), 0);
    assert_eq!(sys_getpid(&kernel), 0);
    assert_eq!(kernel.task(2).unwrap().status(), TaskStatus::Zombie);
    assert_eq!(sys_waitpid(&mut kernel, 2, ptr), -1);
    assert_eq!(sys_waitpid(&mut kernel, 0, ptr), -1);
    assert_eq!(sys_waitpid(&mut kernel, 99, ptr), -1);
    assert_eq!(sys_waitpid(&mut kernel, -5, ptr), -1);
    assert_eq!(kernel.task(2).unwrap().status(), TaskStatus::Zombie);
}

#[test]
fn waitpid_with_a_bad_pointer_collects_nothing() {
    let mut kernel = booted();
    assert_eq!(sys_fork(&mut kernel), 1);
    assert_eq!(sys_yield(&mut kernel), 0);
    assert_eq!(sys_exit(&mut kernel, 3), Ok(0));
    // Unmapped, read-only, and two bytes short of the end of the stack.
    assert_eq!(sys_waitpid(&mut kernel, -1, 0x9_0000), -1);
    assert_eq!(sys_waitpid(&mut kernel, -1, TEXT), -1);
    assert_eq!(sys_waitpid(&mut kernel, -1, STACK_TOP - 2), -1);
    assert_eq!(kernel.task(1).unwrap().status(), TaskStatus::Zombie);
    assert_eq!(user_bytes(&kernel, STACK_TOP - 2, 2), vec![0, 0]);
    // The exit code may straddle the two pages of the stack.
    assert_eq!(sys_waitpid(&mut kernel, -1, STACK + 0xffe), 1);
    assert_eq!(user_bytes(&kernel, STACK + 0xffe, 4), vec![3, 0, 0, 0]);
}

#[test]
fn exec_loads_the_named_image() {
    let mut kernel = booted();
    put_str(&mut kernel, STACK + 0xffa, "shell");
    assert_eq!(sys_exec(&mut kernel, STACK + 0xffa), 0);
    assert_eq!(user_bytes(&kernel, TEXT, 10), b"shell-text".to_vec());
    assert_eq!(kernel.task(0).unwrap().trap_cx().sepc, TEXT);
    assert_eq!(sys_getpid(&kernel), 0);
}

#[test]
fn exec_of_a_missing_image_returns_minus_one() {
    let mut kernel = booted();
    put_str(&mut kernel, STACK, "nothing");
    let before = user_bytes(&kernel, STACK, 0x2000);
    let frame = kernel.current_space().translate(TEXT);
    assert_eq!(sys_exec(&mut kernel, STACK), -1);
    assert_eq!(user_bytes(&kernel, STACK, 0x2000), before);
    assert_eq!(user_bytes(&kernel, TEXT, 9), b"init-text".to_vec());
    assert_eq!(kernel.current_space().translate(TEXT), frame);
    assert_eq!(kernel.task(0).unwrap().trap_cx().sepc, TEXT);
    assert_eq!(kernel.task(0).unwrap().trap_cx().x[2], STACK_TOP);
    // A name that cannot be read fails in the same way.
    assert_eq!(sys_exec(&mut kernel, 0x9_0000), -1);
    assert_eq!(user_bytes(&kernel, TEXT, 9), b"init-text".to_vec());
}

#[test]
fn spawn_creates_a_child_that_loads_later() {
    let mut kernel = booted();
    put_str(&mut kernel, STACK, "shell");
    assert_eq!(sys_spawn(&mut kernel, STACK), 1);
    assert_eq!(kernel.ready_queue(), &vec![1]);
    assert_eq!(kernel.task(1).unwrap().space().region_count(), 0);
    assert_eq!(sys_yield(&mut kernel), 0);
    assert_eq!(trap_exec(&mut kernel), Ok(1));
    assert_eq!(user_bytes(&kernel, TEXT, 10), b"shell-text".to_vec());
    assert_eq!(sys_exit(&mut kernel, 11), Ok(0));
    assert_eq!(sys_waitpid(&mut kernel, 1, STACK + 8), 1);
    assert_eq!(user_bytes(&kernel, STACK + 8, 4), vec![11, 0, 0, 0]);
}

#[test]
fn spawn_of_a_missing_image_returns_minus_one() {
    let mut kernel = booted();
    put_str(&mut kernel, STACK, "nothing");
    assert_eq!(sys_spawn(&mut kernel, STACK), -1);
    assert!(kernel.ready_queue().is_empty());
    assert!(kernel.task(1).is_none());
    assert!(kernel.task(0).unwrap().children().is_empty());
    assert_eq!(sys_spawn(&mut kernel, 0x9_0000), -1);
    assert!(kernel.ready_queue().is_empty());
}

#[test]
fn mmap_checks_its_arguments() {
    let mut kernel = booted();
    let at = 0x1000_0000;
    assert_eq!(sys_mmap(&mut kernel, at + 1, 0x1000, 3), -1);
    assert_eq!(sys_mmap(&mut kernel, at, 0x1000, 0), -1);
    assert_eq!(sys_mmap(&mut kernel, at, 0x1000, 8), -1);
    assert_eq!(sys_mmap(&mut kernel, at, 0x1000, 9), -1);
    assert_eq!(sys_mmap(&mut kernel, at, 0x1000, 0x10), -1);
    assert_eq!(sys_mmap(&mut kernel, at, 0x1000, usize::MAX), -1);
    assert_eq!(sys_mmap(&mut kernel, at, usize::MAX, 3), -1);
    assert_eq!(sys_mmap(&mut kernel, at, usize::MAX - at, 3), -1);
    assert_eq!(kernel.current_space().region_count(), 2);
    for port in 1..8usize {
        let start = at + port * 0x10_000;
        assert_eq!(sys_mmap(&mut kernel, start, 0x1000, port), 0);
        let region = kernel.current_space().region(1 + port);
        assert_eq!(
            region,
            RegionView {
                start,
                end: start + 0x1000,
                perm: MapPermission {
                    user: true,
                    read: port & 1 != 0,
                    write: port & 2 != 0,
                    execute: port & 4 != 0,
                },
            }
        );
    }
}

#[test]
fn mmap_rounds_the_length_up_and_refuses_overlap() {
    let mut kernel = booted();
    let at = 0x1000_0000;
    assert_eq!(sys_mmap(&mut kernel, at, 0, 3), 0);
    assert_eq!(kernel.current_space().region_count(), 2);
    assert_eq!(sys_mmap(&mut kernel, at, 0x1001, 3), 0);
    assert_eq!(kernel.current_space().region(2).end, at + 0x2000);
    assert_eq!(kernel.write_current(at + 0x1ffe, &vec![1, 2]), Ok(()));
    assert_eq!(sys_mmap(&mut kernel, at, 0x1000, 3), -1);
    assert_eq!(sys_mmap(&mut kernel, at + 0x1000, 0x1000, 1), -1);
    assert_eq!(sys_mmap(&mut kernel, at - 0x1000, 0x1001, 3), -1);
    assert_eq!(sys_mmap(&mut kernel, STACK, 0x1000, 3), -1);
    assert_eq!(sys_mmap(&mut kernel, at + 0x2000, 0x1000, 1), 0);
    assert_eq!(sys_mmap(&mut kernel, at - 0x1000, 0x1000, 2), 0);
    assert_eq!(kernel.current_space().region_count(), 5);
}

#[test]
fn munmap_needs_the_exact_region() {
    let mut kernel = booted();
    let at = 0x1000_0000;
    assert_eq!(sys_mmap(&mut kernel, at, 0x3000, 3), 0);
    assert_eq!(sys_munmap(&mut kernel, at + 1, 0x3000), -1);
    assert_eq!(sys_munmap(&mut kernel, at, 0x2000), -1);
    assert_eq!(sys_munmap(&mut kernel, at, 0x2fff), -1);
    assert_eq!(sys_munmap(&mut kernel, at, 0x4000), -1);
    assert_eq!(sys_munmap(&mut kernel, at + 0x1000, 0x2000), -1);
    assert_eq!(sys_munmap(&mut kernel, at, 0), -1);
    assert_eq!(sys_munmap(&mut kernel, at, usize::MAX), -1);
    assert_eq!(kernel.current_space().region_count(), 3);
    assert_eq!(sys_munmap(&mut kernel, at, 0x3000), 0);
    assert_eq!(kernel.current_space().region_count(), 2);
    assert_eq!(sys_munmap(&mut kernel, at, 0x3000), -1);
    assert!(kernel.write_current(at, &vec![1]).is_err());
}

#[test]
fn mmap_then_munmap_restores_the_space() {
    let mut kernel = booted();
    let at = 0x1000_0000;
    let frame = kernel.current_space().translate(STACK);
    assert_eq!(sys_mmap(&mut kernel, at, 0x2000, 3), 0);
    assert_eq!(sys_munmap(&mut kernel, at, 0x2000), 0);
    assert_eq!(kernel.current_space().region_count(), 2);
    assert_eq!(kernel.current_space().translate(STACK), frame);
    assert_eq!(kernel.current_space().translate(at), None);
    assert_eq!(sys_mmap(&mut kernel, at, 0x2000, 1), 0);
}

#[test]
fn get_time_writes_seconds_and_microseconds() {
    let mut kernel = booted();
    kernel.tick(3_000_005);
    assert_eq!(sys_get_time(&mut kernel, STACK, 0), 0);
    assert_eq!(
        user_bytes(&kernel, STACK, 16),
        vec![3, 0, 0, 0, 0, 0, 0, 0, 5, 0, 0, 0, 0, 0, 0, 0]
    );
    // Across the boundary of the two pages of the stack.
    kernel.tick(0x0102_0304_0506 * 1_000_000 + 999_999);
    assert_eq!(sys_get_time(&mut kernel, STACK + 0xff9, 0), 0);
    assert_eq!(
        user_bytes(&kernel, STACK + 0xff9, 16),
        vec![0x06, 0x05, 0x04, 0x03, 0x02, 0x01, 0, 0, 0x3f, 0x42, 0x0f, 0, 0, 0, 0, 0]
    );
    assert_eq!(sys_get_time(&mut kernel, STACK_TOP - 15, 0), -1);
    assert_eq!(sys_get_time(&mut kernel, TEXT, 0), -1);
    assert_eq!(user_bytes(&kernel, STACK_TOP - 15, 15), vec![0; 15]);
}

#[test]
fn time_val_is_sixteen_bytes() {
    let tv = TimeVal { sec: 0x0807_0605_0403_0201, usec: 0x100 };
    assert_eq!(tv.to_bytes(), vec![1, 2, 3, 4, 5, 6, 7, 8, 0, 1, 0, 0, 0, 0, 0, 0]);
}

#[test]
fn task_info_bytes_hold_status_counters_and_time() {
    let mut counts = vec![0u32; 3];
    counts[1] = 0x0a0b_0c0d;
    let info = TaskInfo { status: TaskStatus::Zombie, syscall_times: counts, time: 0x0102 };
    assert_eq!(
        info.to_bytes(),
        vec![2, 0, 0, 0, 0, 0, 0, 0, 0x0d, 0x0c, 0x0b, 0x0a, 0, 0, 0, 0, 2, 1, 0, 0, 0, 0, 0, 0]
    );
}

#[test]
fn task_info_reports_counters_and_elapsed_time() {
    let mut kernel = Kernel::new({
        let mut loader = Loader::new();
        assert!(loader.register(image("init", b"init-text")));
        loader
    });
    kernel.tick(100_000_000);
    assert_eq!(kernel.launch(&b"init".to_vec()), Some(0));
    assert_eq!(kernel.dispatch(), Some(0));
    kernel.count_syscall(169);
    kernel.count_syscall(169);
    kernel.count_syscall(0);
    kernel.count_syscall(499);
    // Twenty hours later: more than sixteen bits of seconds.
    kernel.tick(100_000_000 + 72_000_000_000 + 1_999);
    // The information is 2012 bytes long and crosses a page boundary.
    let at = STACK + 0x900;
    assert_eq!(sys_task_info(&mut kernel, at), 0);
    let bytes = user_bytes(&kernel, at, 2012);
    assert_eq!(&bytes[0..4], &[1, 0, 0, 0]);
    assert_eq!(&bytes[4..8], &[1, 0, 0, 0]);
    assert_eq!(&bytes[4 + 4 * 169..8 + 4 * 169], &[2, 0, 0, 0]);
    assert_eq!(&bytes[4 + 4 * 499..8 + 4 * 499], &[1, 0, 0, 0]);
    let counted: u32 = bytes[4..2004].iter().map(|b| *b as u32).sum();
    assert_eq!(counted, 4);
    assert_eq!(&bytes[2004..2012], &72_000_001u64.to_le_bytes());
    assert_eq!(sys_task_info(&mut kernel, STACK_TOP - 2011), -1);
    assert_eq!(sys_task_info(&mut kernel, 0), -1);
}

#[test]
fn sbrk_returns_the_old_break() {
    let mut kernel = booted();
    assert_eq!(sys_sbrk(&mut kernel, 0), STACK_TOP as isize);
    assert_eq!(sys_sbrk(&mut kernel, 0x1800), STACK_TOP as isize);
    assert_eq!(sys_sbrk(&mut kernel, 0), (STACK_TOP + 0x1800) as isize);
    assert_eq!(kernel.write_current(STACK_TOP + 0x17fc, &vec![1, 2, 3, 4]), Ok(()));
    assert_eq!(sys_sbrk(&mut kernel, -0x1801), -1);
    assert_eq!(sys_sbrk(&mut kernel, i32::MIN), -1);
    assert_eq!(sys_sbrk(&mut kernel, -0x800), (STACK_TOP + 0x1800) as isize);
    assert_eq!(kernel.task(0).unwrap().program_brk(), STACK_TOP + 0x1000);
    assert!(kernel.write_current(STACK_TOP + 0x1000, &vec![1]).is_err());
    assert_eq!(user_bytes(&kernel, STACK_TOP, 1), vec![0]);
}

#[test]
fn yield_returns_zero_and_switches() {
    let mut kernel = booted();
    assert_eq!(sys_yield(&mut kernel), 0);
    assert_eq!(sys_getpid(&kernel), 0);
    assert_eq!(sys_fork(&mut kernel), 1);
    assert_eq!(sys_fork(&mut kernel), 2);
    assert_eq!(sys_yield(&mut kernel), 0);
    assert_eq!(sys_getpid(&kernel), 1);
    assert_eq!(sys_exit(&mut kernel, 0), Ok(2));
    assert_eq!(sys_getpid(&kernel), 2);
    assert_eq!(kernel.ready_queue(), &vec![0]);
}
