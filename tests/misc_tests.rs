use rcore_os::cell::SMPSafeCell;
use rcore_os::console::colored_output;
use rcore_os::fs::{EasyFileSystem, Inode, ROOT_INODE};
use rcore_os::process::{SIGILL, SIGSEGV};
use rcore_os::rtrace::{find_symbol, is_sd_decodable, is_sp_decodable, sd_ra, InstructionSp};
use rcore_os::syscall::{
    can_append_entry, read_name, sys_get_time, sys_linkat, sys_task_info, sys_unlinkat,
    SyscallCounter, MAX_SYSCALL_NUM,
};
use rcore_os::task::TaskStatus;
use rcore_os::trap::{
    kernel_trap_action, syscall_resume_pc, user_trap_action, KernelTrapAction, TrapCause,
    UserTrapAction,
};

#[test]
fn decodes_stack_adjustments() {
    // addi sp, sp, -48
    assert_eq!(InstructionSp::new(0xfd010113), InstructionSp::Addi(48));
    // c.addi sp, -16
    assert_eq!(InstructionSp::new(0x1141), InstructionSp::CAddi(16));
    // c.addi16sp sp, -64
    assert_eq!(InstructionSp::new(0x7139), InstructionSp::CAddi16Sp(64));
    // c.addi a0, -1 does not touch sp
    assert_eq!(InstructionSp::new(0x157d), InstructionSp::Unknown);
    // c.li
    assert_eq!(InstructionSp::new(0x4501), InstructionSp::Unknown);
}

#[test]
fn decodes_ra_stores() {
    // sd ra, 40(sp)
    assert_eq!(sd_ra(0x02113423), Some(40));
    // c.sdsp ra, 8(sp)
    assert_eq!(sd_ra(0xe406), Some(8));
    // sd s0, 32(sp): not ra
    assert_eq!(sd_ra(0x02813023), None);
    // sw ra, 12(sp): not a doubleword store
    assert_eq!(sd_ra(0x00112623), None);
    assert_eq!(sd_ra(0x4501), None);
}

#[test]
fn finds_symbol_of_return_address() {
    let addrs = vec![0x1000, 0x1100, 0x1300];
    assert_eq!(find_symbol(&addrs, 0x1000), Some(0));
    assert_eq!(find_symbol(&addrs, 0x10ff), Some(0));
    assert_eq!(find_symbol(&addrs, 0x1200), Some(1));
    assert_eq!(find_symbol(&addrs, 0x1300), Some(2));
    assert_eq!(find_symbol(&addrs, 0x1301), None);
    assert_eq!(find_symbol(&addrs, 0x10), None);
}

#[test]
fn console_colors_by_hart() {
    assert_eq!(colored_output(0, b"hi"), b"\x1b[31mhi\x1b[0m".to_vec());
    assert_eq!(colored_output(1, b"x"), b"\x1b[93mx\x1b[0m".to_vec());
    assert_eq!(colored_output(2, b""), b"\x1b[34m\x1b[0m".to_vec());
    assert_eq!(colored_output(3, b"y"), b"\x1b[32my\x1b[0m".to_vec());
    assert_eq!(colored_output(7, b"z"), b"\x1b[mz\x1b[0m".to_vec());
}

#[test]
fn trap_actions() {
    assert_eq!(user_trap_action(TrapCause::UserEnvCall), UserTrapAction::Syscall);
    assert_eq!(user_trap_action(TrapCause::LoadPageFault), UserTrapAction::Signal(SIGSEGV));
    assert_eq!(user_trap_action(TrapCause::StoreFault), UserTrapAction::Signal(SIGSEGV));
    assert_eq!(user_trap_action(TrapCause::IllegalInstruction), UserTrapAction::Signal(SIGILL));
    assert_eq!(user_trap_action(TrapCause::SupervisorTimer), UserTrapAction::Preempt);
    assert_eq!(user_trap_action(TrapCause::Other), UserTrapAction::Fatal);
    assert_eq!(kernel_trap_action(TrapCause::SupervisorTimer), KernelTrapAction::ResetTimer);
    assert_eq!(kernel_trap_action(TrapCause::SupervisorSoft), KernelTrapAction::Fatal);
    assert_eq!(kernel_trap_action(TrapCause::LoadFault), KernelTrapAction::Fatal);
    assert_eq!(syscall_resume_pc(0x1000), 0x1004);
}

#[test]
fn names_stop_at_nul_and_limit() {
    assert_eq!(read_name(b"abc\0def"), b"abc".to_vec());
    assert_eq!(read_name(b""), Vec::<u8>::new());
    assert_eq!(read_name(&[b'q'; 40]), vec![b'q'; 27]);
}

#[test]
fn linkat_and_unlinkat() {
    let mut fs = EasyFileSystem::create(8, 16);
    let root = Inode::new(ROOT_INODE);
    root.create(&mut fs, b"a").unwrap();
    assert!(can_append_entry(&fs));
    assert_eq!(sys_linkat(&mut fs, b"a\0", b"a\0junk"), -1);
    assert_eq!(sys_linkat(&mut fs, b"missing\0", b"b\0"), -1);
    assert_eq!(sys_linkat(&mut fs, b"a\0", b"b\0"), 0);
    assert_eq!(root.get_link_count_from_root(&fs, 1), 2);
    assert_eq!(sys_unlinkat(&mut fs, b"a\0"), 0);
    assert_eq!(sys_unlinkat(&mut fs, b"a\0"), -1);
    assert_eq!(root.get_link_count_from_root(&fs, 1), 1);
}

#[test]
fn no_room_for_an_entry_without_free_blocks() {
    let mut fs = EasyFileSystem::create(32, 1);
    let root = Inode::new(ROOT_INODE);
    for i in 0..16u8 {
        root.create(&mut fs, &[b'a' + i]).unwrap();
    }
    assert!(!can_append_entry(&fs));
}

#[test]
fn time_and_task_info() {
    let t = sys_get_time(12_345);
    assert_eq!(t.sec, 12);
    assert_eq!(t.usec, 345_000);
    let mut c = SyscallCounter::new();
    c.record_syscall(64);
    c.record_syscall(64);
    c.record_syscall(169);
    c.record_syscall(MAX_SYSCALL_NUM);
    let info = sys_task_info(TaskStatus::Running, &c, 100, 350);
    assert_eq!(info.status, TaskStatus::Running);
    assert_eq!(info.time, 250);
    assert_eq!(info.syscall_times.len(), MAX_SYSCALL_NUM);
    assert_eq!(info.syscall_times[64], 2);
    assert_eq!(info.syscall_times[169], 1);
    assert_eq!(info.syscall_times[0], 0);
}

#[test]
fn cell_guard_reads_and_writes() {
    let mut cell = SMPSafeCell::new(5u32);
    {
        let mut g = cell.exclusive_access();
        assert_eq!(*g.get(), 5);
        *g.get_mut() = 9;
    }
    let g = cell.exclusive_access();
    assert_eq!(*g.get(), 9);
}

#[test]
fn decodability_checks() {
    // addi sp, sp, -48 lowers sp; addi sp, sp, 16 raises it
    assert!(is_sp_decodable(0xfd010113));
    assert!(!is_sp_decodable(0x01010113));
    // c.addi sp, 16 raises sp; c.addi16sp sp, 64 raises it
    assert!(!is_sp_decodable(0x0141));
    assert!(!is_sp_decodable(0x6121));
    assert!(is_sp_decodable(0x7139));
    assert!(is_sp_decodable(0x4501));
    // sd ra, 40(sp) stores above sp; sd ra, -8(sp) below it
    assert!(is_sd_decodable(0x02113423));
    assert!(!is_sd_decodable(0xfe113c23));
    assert!(is_sd_decodable(0xe406));
}

#[test]
fn exec_counts_arguments_or_fails() {
    let mut fs = EasyFileSystem::create(8, 16);
    let root = Inode::new(ROOT_INODE);
    root.create(&mut fs, b"hello").unwrap();
    let args = vec![b"hello".to_vec(), b"-v".to_vec()];
    assert_eq!(rcore_os::syscall::sys_exec(&fs, b"hello", &args), 2);
    assert_eq!(rcore_os::syscall::sys_exec(&fs, b"nope", &args), -1);
}
