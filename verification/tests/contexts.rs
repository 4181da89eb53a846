use os::task::context::{SwitchTarget, TaskContext};
use os::task::trap::TrapContext;

#[test]
fn zero_context_continues_nowhere() {
    let cx = TaskContext::zero_init();
    assert_eq!(cx.target(), SwitchTarget::Unset);
    assert_eq!(cx.stack_pointer(), 0);
}

#[test]
fn trap_return_context_keeps_the_stack_pointer() {
    let cx = TaskContext::goto_trap_return(0x8000_1000);
    assert_eq!(cx.target(), SwitchTarget::TrapReturn);
    assert_eq!(cx.stack_pointer(), 0x8000_1000);
}

#[test]
fn first_dispatch_context_keeps_the_stack_pointer() {
    let cx = TaskContext::goto_trap_exec(0x8000_3000);
    assert_eq!(cx.target(), SwitchTarget::FirstDispatch);
    assert_eq!(cx.stack_pointer(), 0x8000_3000);
}

#[test]
fn initial_registers_hold_entry_and_stack() {
    let cx = TrapContext::app_init_context(0x1_0000, 0x2_2000);
    assert_eq!(cx.sepc, 0x1_0000);
    assert_eq!(cx.x[2], 0x2_2000);
    for i in 0..32 {
        if i != 2 {
            assert_eq!(cx.x[i], 0);
        }
    }
}

#[test]
fn return_value_goes_to_register_ten() {
    let mut cx = TrapContext::app_init_context(0x1_0000, 0x2_2000);
    cx.set_return_value(77);
    assert_eq!(cx.x[10], 77);
    assert_eq!(cx.x[2], 0x2_2000);
    assert_eq!(cx.sepc, 0x1_0000);
}
