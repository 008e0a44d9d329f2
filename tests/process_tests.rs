use rcore_os::process::{
    check_signals, insert_into_pid2process, pid2process, remove_from_pid2process, sys_close,
    sys_dup, sys_exit, sys_fork, sys_getpid, sys_kill, sys_open, sys_read, sys_spawn,
    sys_waitpid, sys_write, FileHandle, ProcessTable, SignalFlags, INITPROC_PID, SIGILL, SIGINT,
    SIGSEGV,
};
use rcore_os::task::{TaskControlBlock, TimerList};

fn handle(file: usize, readable: bool, writable: bool) -> FileHandle {
    FileHandle { file, readable, writable }
}

#[test]
fn fork_clears_child_signals_and_keeps_parent_ones() {
    let mut t = ProcessTable::new();
    assert_eq!(sys_kill(&mut t, INITPROC_PID, SIGINT), 0);
    let child = sys_fork(&mut t, INITPROC_PID);
    assert_eq!(child, 1);
    let c = pid2process(&t, 1).unwrap();
    assert_eq!(c.signals.bits, 0);
    assert_eq!(c.live_threads, 1);
    let p = pid2process(&t, INITPROC_PID).unwrap();
    assert_eq!(p.signals.bits, SIGINT);
    assert_eq!(p.children, vec![1]);
}

#[test]
fn fork_copies_descriptor_table() {
    let mut t = ProcessTable::new();
    let c = sys_fork(&mut t, INITPROC_PID) as usize;
    {
        // give the child an open file and a closed slot, then fork it
        let mut p = rcore_os::process::ProcessControlBlock {
            pid: c,
            children: Vec::new(),
            is_zombie: false,
            exit_code: 0,
            signals: SignalFlags::empty(),
            fd_table: vec![Some(handle(9, true, false))],
            live_threads: 1,
            sync: rcore_os::sync::ProcessSync::new(),
            memory_set: rcore_os::mm::MemorySet::new_bare(),
            trap_cx: rcore_os::trap::TrapContext::zero(),
        };
        p.fd_table.push(None);
        insert_into_pid2process(&mut t, p);
    }
    let g = sys_fork(&mut t, c) as usize;
    let gp = pid2process(&t, g).unwrap();
    assert_eq!(gp.fd_table, vec![Some(handle(9, true, false)), None]);
}

#[test]
fn waitpid_reaps_exited_children_in_exit_order() {
    let mut t = ProcessTable::new();
    let a = sys_fork(&mut t, INITPROC_PID) as usize;
    let b = sys_fork(&mut t, INITPROC_PID) as usize;
    let c = sys_fork(&mut t, INITPROC_PID) as usize;
    // the children sleep 150, 50 and 100 ms, then exit
    let mut timers = TimerList::new();
    rcore_os::task::sys_sleep(&mut timers, TaskControlBlock::new(a, 0), 0, 150);
    rcore_os::task::sys_sleep(&mut timers, TaskControlBlock::new(b, 0), 0, 50);
    rcore_os::task::sys_sleep(&mut timers, TaskControlBlock::new(c, 0), 0, 100);
    assert_eq!(sys_waitpid(&mut t, INITPROC_PID, -1).0, -2);
    let mut reaped = Vec::new();
    for now in [50u64, 100, 150] {
        for task in timers.check_timer(now) {
            sys_exit(&mut t, task.pid, task.pid as i32 * 10);
        }
        let (pid, code) = sys_waitpid(&mut t, INITPROC_PID, -1);
        assert_eq!(code, pid as i32 * 10);
        reaped.push(pid as usize);
    }
    assert_eq!(reaped, vec![b, c, a]);
    assert_eq!(sys_waitpid(&mut t, INITPROC_PID, -1).0, -1);
    assert!(pid2process(&t, a).is_none());
}

#[test]
fn waitpid_for_a_given_pid() {
    let mut t = ProcessTable::new();
    let a = sys_fork(&mut t, INITPROC_PID) as usize;
    let b = sys_fork(&mut t, INITPROC_PID) as usize;
    assert_eq!(sys_waitpid(&mut t, INITPROC_PID, 42).0, -1);
    sys_exit(&mut t, a, 3);
    assert_eq!(sys_waitpid(&mut t, INITPROC_PID, b as isize).0, -2);
    assert_eq!(sys_waitpid(&mut t, INITPROC_PID, a as isize), (a as isize, 3));
    assert_eq!(pid2process(&t, INITPROC_PID).unwrap().children, vec![b]);
}

#[test]
fn exit_hands_children_to_init() {
    let mut t = ProcessTable::new();
    let a = sys_fork(&mut t, INITPROC_PID) as usize;
    let g = sys_fork(&mut t, a) as usize;
    sys_exit(&mut t, a, 0);
    let init = pid2process(&t, INITPROC_PID).unwrap();
    assert_eq!(init.children, vec![a, g]);
    let pa = pid2process(&t, a).unwrap();
    assert!(pa.is_zombie);
    assert!(pa.children.is_empty());
}

#[test]
fn exit_of_one_thread_of_two_keeps_process_alive() {
    let mut t = ProcessTable::new();
    let a = sys_fork(&mut t, INITPROC_PID) as usize;
    t.procs[1].live_threads = 2;
    sys_exit(&mut t, a, 5);
    let pa = pid2process(&t, a).unwrap();
    assert!(!pa.is_zombie);
    assert_eq!(pa.live_threads, 1);
}

#[test]
fn kill_checks_pid_and_signal_bits() {
    let mut t = ProcessTable::new();
    assert_eq!(sys_kill(&mut t, 99, SIGINT), -1);
    assert_eq!(sys_kill(&mut t, INITPROC_PID, 1 << 3), -1);
    assert_eq!(sys_kill(&mut t, INITPROC_PID, SIGSEGV), 0);
    assert_eq!(sys_kill(&mut t, INITPROC_PID, SIGILL), 0);
    assert_eq!(pid2process(&t, INITPROC_PID).unwrap().signals.bits, SIGSEGV | SIGILL);
}

#[test]
fn signals_map_to_exit_codes_in_order() {
    assert_eq!(check_signals(SignalFlags::empty()), None);
    assert_eq!(check_signals(SignalFlags { bits: SIGSEGV }), Some(-11));
    assert_eq!(check_signals(SignalFlags { bits: SIGILL }), Some(-4));
    assert_eq!(check_signals(SignalFlags { bits: SIGSEGV | SIGINT }), Some(-2));
    assert_eq!(SignalFlags::from_bits(SIGINT | SIGILL), Some(SignalFlags { bits: SIGINT | SIGILL }));
    assert_eq!(SignalFlags::from_bits(1), None);
}

#[test]
fn pid_map_insert_and_remove() {
    let mut t = ProcessTable::new();
    let c = sys_fork(&mut t, INITPROC_PID) as usize;
    assert!(pid2process(&t, c).is_some());
    remove_from_pid2process(&mut t, c);
    assert!(pid2process(&t, c).is_none());
    assert!(pid2process(&t, INITPROC_PID).is_some());
}

#[test]
fn descriptor_table_open_close_dup() {
    let mut t = ProcessTable::new();
    let p = &mut t.procs[0];
    assert_eq!(sys_open(p, None), -1);
    assert_eq!(sys_open(p, Some(handle(1, true, false))), 0);
    assert_eq!(sys_open(p, Some(handle(2, false, true))), 1);
    assert_eq!(sys_dup(p, 0), 2);
    assert_eq!(p.fd_table[2], Some(handle(1, true, false)));
    assert_eq!(sys_close(p, 0), 0);
    assert_eq!(sys_close(p, 0), -1);
    assert_eq!(sys_close(p, 17), -1);
    assert_eq!(sys_dup(p, 0), -1);
    // the freed slot is reused first
    assert_eq!(sys_dup(p, 1), 0);
    assert_eq!(sys_read(p, 2), Some(handle(1, true, false)));
    assert_eq!(sys_read(p, 1), None);
    assert_eq!(sys_write(p, 1), Some(handle(2, false, true)));
    assert_eq!(sys_write(p, 2), None);
    assert_eq!(sys_write(p, 40), None);
}

#[test]
fn getpid_and_spawn() {
    assert_eq!(sys_getpid(&TaskControlBlock::new(42, 3)), 42);
    assert_eq!(sys_spawn(&b"ch6_spawn".to_vec()), -1);
}

#[test]
fn waitpid_returns_sleepers_in_wake_order() {
    let mut t = ProcessTable::new();
    let pids: Vec<usize> = (0..3).map(|_| sys_fork(&mut t, INITPROC_PID) as usize).collect();
    let mut timers = TimerList::new();
    for (k, pid) in pids.iter().enumerate() {
        rcore_os::task::sys_sleep(&mut timers, TaskControlBlock::new(*pid, 0), 0, 50 * (k as u64 + 1));
    }
    let mut reaped = Vec::new();
    let mut now = 0u64;
    while reaped.len() < 3 {
        now += 10;
        for task in timers.check_timer(now) {
            sys_exit(&mut t, task.pid, 0);
        }
        loop {
            let (pid, code) = sys_waitpid(&mut t, INITPROC_PID, -1);
            if pid < 0 {
                break;
            }
            assert_eq!(code, 0);
            reaped.push(pid as usize);
        }
    }
    assert_eq!(reaped, pids);
    assert_eq!(now, 150);
}

#[test]
fn pipe_takes_two_lowest_free_descriptors() {
    let mut t = ProcessTable::new();
    let p = &mut t.procs[0];
    sys_open(p, Some(handle(1, true, true)));
    sys_open(p, Some(handle(2, true, true)));
    sys_close(p, 0);
    let (r, rfd, wfd) = rcore_os::process::sys_pipe(p, handle(5, true, false), handle(5, false, true));
    assert_eq!((r, rfd, wfd), (0, 0, 2));
    assert_eq!(p.fd_table[0], Some(handle(5, true, false)));
    assert_eq!(p.fd_table[2], Some(handle(5, false, true)));
}

#[test]
fn fork_copies_address_space_and_zeroes_child_return_register() {
    let mut t = ProcessTable::new();
    assert_eq!(rcore_os::mm::sys_mmap(&mut t.procs[0].memory_set, 0x10000000, 8192, 3), 0);
    t.procs[0].trap_cx.x[10] = 64;
    t.procs[0].trap_cx.x[11] = 7;
    t.procs[0].trap_cx.sepc = 0x1004;
    let c = sys_fork(&mut t, INITPROC_PID) as usize;
    let child = pid2process(&t, c).unwrap();
    assert_eq!(child.memory_set.areas, pid2process(&t, INITPROC_PID).unwrap().memory_set.areas);
    assert_eq!(child.trap_cx.x[10], 0);
    assert_eq!(child.trap_cx.x[11], 7);
    assert_eq!(child.trap_cx.sepc, 0x1004);
    assert_eq!(pid2process(&t, INITPROC_PID).unwrap().trap_cx.x[10], 64);
    assert_eq!(child.sync.mutexes.available.len(), 0);
}
