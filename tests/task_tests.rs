use rcore_os::task::{
    add_stopping_task, add_task, add_task_at_this_hart, fetch_task, remove_task, run_next,
    sys_set_priority, sys_sleep, sys_yield, wakeup_task, TaskControlBlock, TaskManager, TaskStatus,
    TimerList, BIG_STRIDE,
};

fn harts(n: usize) -> Vec<TaskManager> {
    (0..n).map(|_| TaskManager::new()).collect()
}

fn with_stride(pid: usize, tid: usize, stride: u64) -> TaskControlBlock {
    let mut t = TaskControlBlock::new(pid, tid);
    t.stride = stride;
    t
}

#[test]
fn fetch_picks_smallest_stride_first_among_equals() {
    let mut m = TaskManager::new();
    m.add(with_stride(1, 0, 30));
    m.add(with_stride(2, 0, 10));
    m.add(with_stride(3, 0, 10));
    m.add(with_stride(4, 0, 20));
    assert_eq!(m.fetch().unwrap().pid, 2);
    assert_eq!(m.fetch().unwrap().pid, 3);
    assert_eq!(m.fetch().unwrap().pid, 4);
    assert_eq!(m.fetch().unwrap().pid, 1);
    assert!(m.fetch().is_none());
}

#[test]
fn add_task_goes_to_shortest_queue() {
    let mut hs = harts(3);
    add_task_at_this_hart(&mut hs, 0, TaskControlBlock::new(1, 0));
    add_task_at_this_hart(&mut hs, 1, TaskControlBlock::new(2, 0));
    add_task(&mut hs, TaskControlBlock::new(3, 0));
    assert_eq!(hs[2].ready_queue.len(), 1);
    add_task(&mut hs, TaskControlBlock::new(4, 0));
    assert_eq!(hs[0].ready_queue.len(), 2);
    assert_eq!(hs[0].ready_queue[1].pid, 4);
}

#[test]
fn wakeup_marks_ready() {
    let mut hs = harts(1);
    let mut t = TaskControlBlock::new(5, 1);
    t.task_status = TaskStatus::Blocked;
    wakeup_task(&mut hs, t);
    assert_eq!(hs[0].ready_queue[0].task_status, TaskStatus::Ready);
}

#[test]
fn remove_and_stop_slot() {
    let mut hs = harts(1);
    add_task_at_this_hart(&mut hs, 0, TaskControlBlock::new(1, 0));
    add_task_at_this_hart(&mut hs, 0, TaskControlBlock::new(1, 1));
    remove_task(&mut hs, 0, &TaskControlBlock::new(1, 0));
    assert_eq!(hs[0].ready_queue.len(), 1);
    assert_eq!(hs[0].ready_queue[0].tid, 1);
    remove_task(&mut hs, 0, &TaskControlBlock::new(9, 9));
    assert_eq!(hs[0].ready_queue.len(), 1);
    add_stopping_task(&mut hs, 0, TaskControlBlock::new(7, 0));
    assert_eq!(hs[0].stop_task.unwrap().pid, 7);
    assert_eq!(fetch_task(&mut hs, 0).unwrap().tid, 1);
    assert!(fetch_task(&mut hs, 0).is_none());
}

#[test]
fn run_next_advances_stride_and_start_time() {
    let mut hs = harts(1);
    let mut t = TaskControlBlock::new(1, 0);
    assert_eq!(sys_set_priority(&mut t, 4), 0);
    add_task_at_this_hart(&mut hs, 0, t);
    let r = run_next(&mut hs, 0, 123).unwrap();
    assert_eq!(r.stride, BIG_STRIDE / 4);
    assert_eq!(r.task_status, TaskStatus::Running);
    assert!(r.is_started);
    assert_eq!(r.start_time, 123);
    add_task_at_this_hart(&mut hs, 0, r);
    let r2 = run_next(&mut hs, 0, 500).unwrap();
    assert_eq!(r2.stride, 2 * (BIG_STRIDE / 4));
    assert_eq!(r2.start_time, 123);
    assert!(run_next(&mut hs, 0, 600).is_none());
}

#[test]
fn stride_saturates_at_the_top() {
    let mut hs = harts(1);
    add_task_at_this_hart(&mut hs, 0, with_stride(1, 0, u64::MAX - 1));
    assert_eq!(run_next(&mut hs, 0, 0).unwrap().stride, u64::MAX);
}

#[test]
fn set_priority_rejects_below_two() {
    let mut t = TaskControlBlock::new(1, 0);
    assert_eq!(sys_set_priority(&mut t, 1), -1);
    assert_eq!(sys_set_priority(&mut t, -5), -1);
    assert_eq!(t.priority, 16);
    assert_eq!(sys_set_priority(&mut t, 2), 0);
    assert_eq!(t.priority, 2);
}

#[test]
fn equal_threads_each_run_once_per_round() {
    let mut hs = harts(1);
    for pid in 0..5 {
        add_task_at_this_hart(&mut hs, 0, TaskControlBlock::new(pid, 0));
    }
    let mut seen = vec![0; 5];
    for _ in 0..5 {
        let t = run_next(&mut hs, 0, 0).unwrap();
        seen[t.pid] += 1;
        add_task_at_this_hart(&mut hs, 0, t);
    }
    assert_eq!(seen, vec![1; 5]);
}

#[test]
fn higher_priority_runs_more_often() {
    let mut hs = harts(1);
    let mut a = TaskControlBlock::new(0, 0);
    sys_set_priority(&mut a, 32);
    let mut b = TaskControlBlock::new(1, 0);
    sys_set_priority(&mut b, 8);
    add_task_at_this_hart(&mut hs, 0, a);
    add_task_at_this_hart(&mut hs, 0, b);
    let mut runs = [0; 2];
    for _ in 0..50 {
        let t = run_next(&mut hs, 0, 0).unwrap();
        runs[t.pid] += 1;
        add_task_at_this_hart(&mut hs, 0, t);
    }
    assert_eq!(runs[0], 40);
    assert_eq!(runs[1], 10);
}

#[test]
fn four_harts_share_cpu_evenly() {
    // 16 CPU-bound threads of equal priority on 4 harts, 10 ms slices for 200 ms
    let mut hs = harts(4);
    for pid in 0..16 {
        add_task(&mut hs, TaskControlBlock::new(pid, 0));
    }
    let mut ms = vec![0u64; 16];
    let mut now = 0u64;
    while now < 200 {
        for hart in 0..4 {
            let t = run_next(&mut hs, hart, now).unwrap();
            ms[t.pid] += 10;
            let r = sys_yield(&mut hs, t);
            assert_eq!(r, 0);
        }
        now += 10;
    }
    let total: u64 = ms.iter().sum();
    assert_eq!(total, 800);
    for used in ms {
        let share = used as f64 / total as f64;
        assert!((share - 1.0 / 16.0).abs() <= 0.1 / 16.0, "share {}", share);
    }
}

#[test]
fn timers_wake_in_due_order() {
    let mut timers = TimerList::new();
    assert_eq!(sys_sleep(&mut timers, TaskControlBlock::new(3, 0), 0, 150), 0);
    assert_eq!(sys_sleep(&mut timers, TaskControlBlock::new(1, 0), 0, 50), 0);
    assert_eq!(sys_sleep(&mut timers, TaskControlBlock::new(2, 0), 0, 100), 0);
    assert!(timers.check_timer(49).is_empty());
    let due: Vec<usize> = timers.check_timer(100).iter().map(|t| t.pid).collect();
    assert_eq!(due, vec![1, 2]);
    let due: Vec<usize> = timers.check_timer(1000).iter().map(|t| t.pid).collect();
    assert_eq!(due, vec![3]);
    assert!(timers.entries.is_empty());
}

#[test]
fn sleep_deadline_saturates() {
    let mut timers = TimerList::new();
    sys_sleep(&mut timers, TaskControlBlock::new(1, 0), u64::MAX - 1, 10);
    assert_eq!(timers.entries[0].expire_ms, u64::MAX);
}
