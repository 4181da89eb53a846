use os::loader::{Image, Loader, Segment};
use os::mm::bridge::read_bytes;
use os::mm::permission::MapPermission;
use os::syscall::{
    syscall, trap_syscall, Served, SYSCALL_EXEC, SYSCALL_EXIT, SYSCALL_FORK, SYSCALL_GETPID, SYSCALL_GET_TIME,
    SYSCALL_MMAP, SYSCALL_MUNMAP, SYSCALL_SBRK, SYSCALL_SET_PRIORITY, SYSCALL_SPAWN,
    SYSCALL_TASK_INFO, SYSCALL_WAITPID, SYSCALL_YIELD,
};
use os::task::kernel::Kernel;
use os::task::tcb::TaskStatus;
use os::task::trap::TrapContext;

const TEXT: usize = 0x1_0000;
const STACK: usize = 0x2_0000;
const STACK_TOP: usize = 0x2_2000;

fn image(name: &str, text: &[u8]) -> Image {
    Image {
        name: name.as_bytes().to_vec(),
        entry: TEXT,
        stack_top: STACK_TOP,
        segments: vec![
            Segment {
                start: TEXT,
                end: TEXT + 0x1000,
                perm: MapPermission { user: true, read: true, write: false, execute: true },
                data: text.to_vec(),
            },
            Segment {
                start: STACK,
                end: STACK_TOP,
                perm: MapPermission { user: true, read: true, write: true, execute: false },
                data: vec![],
            },
        ],
    }
}

fn running_kernel() -> Kernel {
    let mut loader = Loader::new();
    assert!(loader.register(image("init", b"init-text")));
    assert!(loader.register(image("shell", b"shell-text")));
    let mut kernel = Kernel::new(loader);
    assert_eq!(kernel.launch(&b"init".to_vec()), Some(0));
    assert_eq!(kernel.dispatch(), Some(0));
    kernel
}

fn result_register(kernel: &Kernel, pid: usize) -> usize {
    kernel.task(pid).unwrap().trap_cx().x[10]
}

fn count(kernel: &Kernel, pid: usize, id: usize) -> u32 {
    kernel.task(pid).unwrap().syscall_count()[id]
}

#[test]
fn call_numbers_are_the_usual_ones() {
    assert_eq!(
        [
            SYSCALL_EXIT,
            SYSCALL_YIELD,
            SYSCALL_SET_PRIORITY,
            SYSCALL_GET_TIME,
            SYSCALL_GETPID,
            SYSCALL_SBRK,
            SYSCALL_MUNMAP,
            SYSCALL_FORK,
            SYSCALL_EXEC,
            SYSCALL_MMAP,
            SYSCALL_WAITPID,
            SYSCALL_SPAWN,
            SYSCALL_TASK_INFO,
        ],
        [93, 124, 140, 169, 172, 214, 215, 220, 221, 222, 260, 400, 410]
    );
}

#[test]
fn result_stands_in_the_callers_register() {
    let mut kernel = running_kernel();
    assert_eq!(syscall(&mut kernel, SYSCALL_FORK, [0, 0, 0]), Served::Returned(1));
    assert_eq!(result_register(&kernel, 0), 1);
    assert_eq!(result_register(&kernel, 1), 0);
    assert_eq!(syscall(&mut kernel, SYSCALL_SET_PRIORITY, [3, 0, 0]), Served::Returned(-1));
    assert_eq!(result_register(&kernel, 0), usize::MAX);
    assert_eq!(result_register(&kernel, 1), 0);
    assert_eq!(count(&kernel, 0, SYSCALL_FORK), 1);
    assert_eq!(count(&kernel, 0, SYSCALL_SET_PRIORITY), 1);
    assert_eq!(count(&kernel, 1, SYSCALL_FORK), 0);
}

#[test]
fn yield_gives_zero_to_the_task_that_yielded() {
    let mut kernel = running_kernel();
    assert_eq!(syscall(&mut kernel, SYSCALL_FORK, [0, 0, 0]), Served::Returned(1));
    assert_eq!(syscall(&mut kernel, SYSCALL_GETPID, [0, 0, 0]), Served::Returned(0));
    assert_eq!(syscall(&mut kernel, SYSCALL_FORK, [0, 0, 0]), Served::Returned(2));
    assert_eq!(result_register(&kernel, 0), 2);
    assert_eq!(syscall(&mut kernel, SYSCALL_YIELD, [0, 0, 0]), Served::Returned(0));
    assert_eq!(kernel.current_pid(), Some(1));
    assert_eq!(result_register(&kernel, 0), 0);
    assert_eq!(kernel.task(0).unwrap().status(), TaskStatus::Ready);
    assert_eq!(count(&kernel, 0, SYSCALL_YIELD), 1);
    assert_eq!(count(&kernel, 1, SYSCALL_YIELD), 0);
    assert_eq!(syscall(&mut kernel, SYSCALL_GETPID, [0, 0, 0]), Served::Returned(1));
    assert_eq!(result_register(&kernel, 1), 1);
}

#[test]
fn exit_leaves_no_result() {
    let mut kernel = running_kernel();
    assert_eq!(syscall(&mut kernel, SYSCALL_FORK, [0, 0, 0]), Served::Returned(1));
    assert_eq!(syscall(&mut kernel, SYSCALL_YIELD, [0, 0, 0]), Served::Returned(0));
    let code = (-3isize) as usize;
    assert_eq!(syscall(&mut kernel, SYSCALL_EXIT, [code, 0, 0]), Served::Exited(0));
    assert_eq!(kernel.task(1).unwrap().exit_code(), -3);
    assert_eq!(result_register(&kernel, 1), 0);
    assert_eq!(count(&kernel, 1, SYSCALL_EXIT), 1);
    let any = (-1isize) as usize;
    assert_eq!(syscall(&mut kernel, SYSCALL_WAITPID, [any, STACK, 0]), Served::Returned(1));
    assert_eq!(read_bytes(kernel.current_space(), STACK, 4), Ok(vec![0xfd, 0xff, 0xff, 0xff]));
    assert_eq!(syscall(&mut kernel, SYSCALL_WAITPID, [any, STACK, 0]), Served::Returned(-1));
    assert_eq!(syscall(&mut kernel, SYSCALL_EXIT, [0, 0, 0]), Served::Halted);
    assert_eq!(kernel.current_pid(), None);
}

#[test]
fn unknown_call_fails_and_is_not_counted_beyond_the_table() {
    let mut kernel = running_kernel();
    assert_eq!(syscall(&mut kernel, 7, [0, 0, 0]), Served::Returned(-1));
    assert_eq!(count(&kernel, 0, 7), 1);
    assert_eq!(syscall(&mut kernel, 5000, [0, 0, 0]), Served::Returned(-1));
    assert_eq!(result_register(&kernel, 0), usize::MAX);
    let total: u64 = kernel.current_counts().iter().map(|c| *c as u64).sum();
    assert_eq!(total, 1);
}

#[test]
fn memory_calls_go_through_the_dispatch() {
    let mut kernel = running_kernel();
    let at = 0x1000_0000;
    assert_eq!(syscall(&mut kernel, SYSCALL_MMAP, [at, 0x1000, 3]), Served::Returned(0));
    assert_eq!(syscall(&mut kernel, SYSCALL_MMAP, [at, 0x1000, 3]), Served::Returned(-1));
    assert_eq!(syscall(&mut kernel, SYSCALL_MMAP, [at + 0x1000, 0x1000, 0]), Served::Returned(-1));
    assert_eq!(syscall(&mut kernel, SYSCALL_MUNMAP, [at, 0x800, 0]), Served::Returned(-1));
    assert_eq!(syscall(&mut kernel, SYSCALL_MUNMAP, [at, 0x1000, 0]), Served::Returned(0));
    assert_eq!(
        syscall(&mut kernel, SYSCALL_SBRK, [0x10, 0, 0]),
        Served::Returned(STACK_TOP as isize)
    );
    let down = (-0x11isize) as usize;
    assert_eq!(syscall(&mut kernel, SYSCALL_SBRK, [down, 0, 0]), Served::Returned(-1));
    assert_eq!(count(&kernel, 0, SYSCALL_MMAP), 3);
    assert_eq!(count(&kernel, 0, SYSCALL_MUNMAP), 2);
    assert_eq!(count(&kernel, 0, SYSCALL_SBRK), 2);
}

#[test]
fn exec_gives_zero_to_the_new_program() {
    let mut kernel = running_kernel();
    assert_eq!(kernel.write_current(STACK, &b"shell\0".to_vec()), Ok(()));
    assert_eq!(syscall(&mut kernel, SYSCALL_EXEC, [STACK, 0, 0]), Served::Returned(0));
    assert_eq!(result_register(&kernel, 0), 0);
    assert_eq!(kernel.task(0).unwrap().trap_cx().x[2], STACK_TOP);
    assert_eq!(read_bytes(kernel.current_space(), TEXT, 5), Ok(b"shell".to_vec()));
    assert_eq!(syscall(&mut kernel, SYSCALL_EXEC, [STACK, 0, 0]), Served::Returned(-1));
    assert_eq!(syscall(&mut kernel, SYSCALL_SPAWN, [STACK, 0, 0]), Served::Returned(-1));
    assert_eq!(count(&kernel, 0, SYSCALL_EXEC), 2);
}

#[test]
fn task_info_counts_the_call_that_asks() {
    let mut kernel = running_kernel();
    kernel.tick(5_000);
    assert_eq!(syscall(&mut kernel, SYSCALL_GET_TIME, [STACK, 0, 0]), Served::Returned(0));
    assert_eq!(syscall(&mut kernel, SYSCALL_TASK_INFO, [STACK + 0x100, 0, 0]), Served::Returned(0));
    let bytes = read_bytes(kernel.current_space(), STACK + 0x100, 2012).unwrap();
    assert_eq!(&bytes[0..4], &[1, 0, 0, 0]);
    assert_eq!(&bytes[4 + 4 * SYSCALL_GET_TIME..8 + 4 * SYSCALL_GET_TIME], &[1, 0, 0, 0]);
    assert_eq!(&bytes[4 + 4 * SYSCALL_TASK_INFO..8 + 4 * SYSCALL_TASK_INFO], &[1, 0, 0, 0]);
    assert_eq!(&bytes[2004..2012], &[5, 0, 0, 0, 0, 0, 0, 0]);
}

#[test]
fn trap_overwrites_the_saved_registers() {
    let mut kernel = running_kernel();
    let mut cx = TrapContext::app_init_context(TEXT + 8, STACK_TOP - 32);
    cx.x[17] = SYSCALL_GETPID;
    kernel.save_trap_context(cx);
    let saved = kernel.task(0).unwrap().trap_cx();
    assert_eq!(saved.sepc, TEXT + 8);
    assert_eq!(saved.x[2], STACK_TOP - 32);
    assert_eq!(saved.x[17], SYSCALL_GETPID);
    kernel.set_result(0, 44);
    assert_eq!(result_register(&kernel, 0), 44);
    assert_eq!(kernel.task(0).unwrap().trap_cx().x[17], SYSCALL_GETPID);
    kernel.set_result(9, 1);
    assert!(kernel.task(9).is_none());
}

#[test]
fn trap_saves_registers_and_serves_the_call_they_ask_for() {
    let mut kernel = running_kernel();
    let mut cx = TrapContext::app_init_context(TEXT + 0x40, STACK_TOP - 64);
    cx.x[17] = SYSCALL_MMAP;
    cx.x[10] = 0x1000_0000;
    cx.x[11] = 0x2000;
    cx.x[12] = 3;
    assert_eq!(cx.syscall_id(), SYSCALL_MMAP);
    assert_eq!(cx.syscall_args(), [0x1000_0000, 0x2000, 3]);
    assert_eq!(trap_syscall(&mut kernel, cx), Served::Returned(0));
    let saved = kernel.task(0).unwrap().trap_cx();
    assert_eq!(saved.sepc, TEXT + 0x40);
    assert_eq!(saved.x[2], STACK_TOP - 64);
    assert_eq!(saved.x[17], SYSCALL_MMAP);
    assert_eq!(saved.x[11], 0x2000);
    assert_eq!(saved.x[10], 0);
    assert_eq!(count(&kernel, 0, SYSCALL_MMAP), 1);
    assert_eq!(kernel.current_space().region_count(), 3);
    // The same registers again: the range is mapped now.
    assert_eq!(trap_syscall(&mut kernel, cx), Served::Returned(-1));
    assert_eq!(result_register(&kernel, 0), usize::MAX);
    cx.x[17] = SYSCALL_EXIT;
    cx.x[10] = 5;
    assert_eq!(trap_syscall(&mut kernel, cx), Served::Halted);
    assert!(kernel.task(0).is_none());
}

#[test]
fn trap_of_a_fork_gives_the_child_the_saved_registers() {
    let mut kernel = running_kernel();
    let mut cx = TrapContext::app_init_context(TEXT + 0x10, STACK_TOP - 16);
    cx.x[17] = SYSCALL_FORK;
    cx.x[10] = 77;
    cx.x[9] = 9;
    assert_eq!(trap_syscall(&mut kernel, cx), Served::Returned(1));
    let parent = kernel.task(0).unwrap().trap_cx();
    let child = kernel.task(1).unwrap().trap_cx();
    assert_eq!(parent.x[10], 1);
    assert_eq!(child.x[10], 0);
    assert_eq!(child.x[9], 9);
    assert_eq!(child.x[17], SYSCALL_FORK);
    assert_eq!(child.sepc, TEXT + 0x10);
    assert_eq!(child.x[2], STACK_TOP - 16);
}
