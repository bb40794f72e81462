use kernova::interrupts::{kill_user_if_ring3, FaultAction, InterruptIndex, PIC_1_OFFSET, PIC_2_OFFSET};
use kernova::usermode::programs::{by_name, Program};
use kernova::usermode::syscall::{dispatch, render_user_bytes, sys_write, SyscallAction, SYS_EXIT, SYS_GETPID, SYS_READ, SYS_WRITE};
use kernova::usermode::{UserMode, USER_BASE, USER_CODE_TOP, USER_STACK, USER_STACK_TOP};

#[test]
fn layout_constants() {
    assert_eq!(USER_STACK, USER_BASE + 0x10_0000);
    assert_eq!(USER_STACK_TOP, USER_STACK + 0x1000);
}

#[test]
fn read_is_eof_and_getpid_is_one() {
    assert_eq!(dispatch(SYS_READ, 0, 0, 0), SyscallAction::Return(0));
    assert_eq!(dispatch(SYS_GETPID, 7, 8, 9), SyscallAction::Return(1));
}

#[test]
fn unknown_syscall_fails() {
    assert_eq!(dispatch(99, 0, 0, 0), SyscallAction::Return(u64::MAX));
}

#[test]
fn exit_passes_code() {
    assert_eq!(dispatch(SYS_EXIT, 42, 0, 0), SyscallAction::Exit(42));
    assert_eq!(dispatch(SYS_EXIT, u64::MAX, 0, 0), SyscallAction::Exit(-1));
}

#[test]
fn write_checks_fd_and_range() {
    assert_eq!(dispatch(SYS_WRITE, 1, USER_BASE, 32), SyscallAction::Write { buf: USER_BASE, len: 32 });
    assert_eq!(dispatch(SYS_WRITE, 2, USER_BASE, 32), SyscallAction::Return(u64::MAX));
    assert_eq!(sys_write(1, USER_BASE - 1, 1), SyscallAction::Return(u64::MAX));
    assert_eq!(sys_write(1, USER_STACK_TOP - 4, 4), SyscallAction::Write { buf: USER_STACK_TOP - 4, len: 4 });
    assert_eq!(sys_write(1, USER_STACK_TOP - 4, 5), SyscallAction::Return(u64::MAX));
    assert_eq!(sys_write(1, USER_BASE, u64::MAX), SyscallAction::Return(u64::MAX));
    assert_eq!(sys_write(1, USER_STACK_TOP, 0), SyscallAction::Return(u64::MAX));
}

#[test]
fn write_refuses_unmapped_user_pages() {
    assert_eq!(USER_CODE_TOP, USER_BASE + 0x1000);
    assert_eq!(sys_write(1, USER_CODE_TOP - 8, 8), SyscallAction::Write { buf: USER_CODE_TOP - 8, len: 8 });
    assert_eq!(sys_write(1, USER_CODE_TOP - 8, 9), SyscallAction::Return(u64::MAX));
    assert_eq!(sys_write(1, USER_CODE_TOP, 1), SyscallAction::Return(u64::MAX));
    assert_eq!(sys_write(1, USER_BASE + 0x8_0000, 16), SyscallAction::Return(u64::MAX));
    assert_eq!(sys_write(1, USER_STACK - 1, 1), SyscallAction::Return(u64::MAX));
    assert_eq!(sys_write(1, USER_STACK - 1, 2), SyscallAction::Return(u64::MAX));
    assert_eq!(sys_write(1, USER_STACK, 0x1000), SyscallAction::Write { buf: USER_STACK, len: 0x1000 });
    assert_eq!(dispatch(SYS_WRITE, 1, USER_BASE, 0x1000), SyscallAction::Write { buf: USER_BASE, len: 0x1000 });
}

#[test]
fn rendering_masks_unprintable_bytes() {
    let out: String = render_user_bytes(b"hi\n\x07\xff~ ").into_iter().collect();
    assert_eq!(out, "hi\n??~ ");
}

#[test]
fn programs_by_name() {
    assert_eq!(by_name("hello"), Some(Program::Hello));
    assert_eq!(by_name("getpid"), Some(Program::Getpid));
    assert_eq!(by_name("fault"), Some(Program::Fault));
    assert_eq!(by_name("priv"), Some(Program::Privileged));
    assert_eq!(by_name("privileged"), None);
    assert_eq!(by_name(""), None);
}

#[test]
fn run_reports_last_exit_code() {
    let mut u = UserMode::new();
    assert!(!u.in_user());
    u.enter();
    assert!(u.in_user());
    u.set_exit_code(7);
    u.set_exit_code(139);
    assert_eq!(u.leave(), 139);
    assert!(!u.in_user());
    u.enter();
    assert_eq!(u.leave(), 0);
}

#[test]
fn interrupt_vectors() {
    assert_eq!(PIC_1_OFFSET, 32);
    assert_eq!(PIC_2_OFFSET, 40);
    assert_eq!(InterruptIndex::Timer.as_u8(), 32);
    assert_eq!(InterruptIndex::Keyboard.as_u8(), 33);
}

#[test]
fn ring3_faults_kill_the_program() {
    // user code selector with RPL 3
    assert_eq!(kill_user_if_ring3(0x23), FaultAction::KillUser { exit_code: 139 });
    assert_eq!(kill_user_if_ring3(0x1b), FaultAction::KillUser { exit_code: 139 });
    assert_eq!(kill_user_if_ring3(0x08), FaultAction::KernelFault);
    assert_eq!(kill_user_if_ring3(0x0a), FaultAction::KernelFault);
}
