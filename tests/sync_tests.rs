use rcore_os::sync::{
    sys_condvar_create, sys_condvar_signal, sys_condvar_wait, sys_enable_deadlock_detect,
    sys_mutex_create, sys_mutex_lock, sys_mutex_unlock, sys_semaphore_create, sys_semaphore_down,
    sys_semaphore_up, ProcessSync, SyncOutcome, DEADLOCK,
};

fn process_with_threads(n: usize) -> ProcessSync {
    let mut p = ProcessSync::new();
    for _ in 0..n {
        p.add_thread();
    }
    p
}

#[test]
fn deadlock_detected_on_opposite_lock_order() {
    let mut p = process_with_threads(2);
    assert_eq!(sys_enable_deadlock_detect(&mut p, 1), 0);
    let m0 = sys_mutex_create(&mut p, true) as usize;
    let m1 = sys_mutex_create(&mut p, true) as usize;
    assert_eq!(sys_mutex_lock(&mut p, 0, m0), SyncOutcome::Return(0));
    assert_eq!(sys_mutex_lock(&mut p, 1, m1), SyncOutcome::Return(0));
    // thread 0 may wait for m1: thread 1 can still finish
    assert_eq!(sys_mutex_lock(&mut p, 0, m1), SyncOutcome::Block);
    // thread 1 asking for m0 would close the cycle
    assert_eq!(sys_mutex_lock(&mut p, 1, m0), SyncOutcome::Return(DEADLOCK));
    assert_eq!(DEADLOCK, -0xDEAD);
    // the refused request left no trace: thread 1 is not queued
    assert_eq!(p.mutexes.waiters[m0], Vec::<usize>::new());
    assert_eq!(p.mutexes.need[1][m0], 0);
}

#[test]
fn no_detection_lets_the_cycle_form() {
    let mut p = process_with_threads(2);
    let m0 = sys_mutex_create(&mut p, true) as usize;
    let m1 = sys_mutex_create(&mut p, true) as usize;
    sys_mutex_lock(&mut p, 0, m0);
    sys_mutex_lock(&mut p, 1, m1);
    assert_eq!(sys_mutex_lock(&mut p, 0, m1), SyncOutcome::Block);
    assert_eq!(sys_mutex_lock(&mut p, 1, m0), SyncOutcome::Block);
}

#[test]
fn enable_deadlock_detect_values() {
    let mut p = ProcessSync::new();
    assert_eq!(sys_enable_deadlock_detect(&mut p, 1), 0);
    assert!(p.detect_deadlock);
    assert_eq!(sys_enable_deadlock_detect(&mut p, 0), 0);
    assert!(!p.detect_deadlock);
    assert_eq!(sys_enable_deadlock_detect(&mut p, 2), -1);
    assert!(!p.detect_deadlock);
}

#[test]
fn unlock_hands_mutex_to_first_waiter() {
    let mut p = process_with_threads(3);
    let m = sys_mutex_create(&mut p, true) as usize;
    assert_eq!(sys_mutex_lock(&mut p, 0, m), SyncOutcome::Return(0));
    assert_eq!(sys_mutex_lock(&mut p, 1, m), SyncOutcome::Block);
    assert_eq!(sys_mutex_lock(&mut p, 2, m), SyncOutcome::Block);
    assert_eq!(sys_mutex_unlock(&mut p, 0, m), SyncOutcome::ReturnAndWake(0, 1));
    assert_eq!(p.mutexes.allocated[1][m], 1);
    assert_eq!(p.mutexes.allocated[0][m], 0);
    assert_eq!(p.mutexes.available[m], 0);
    assert_eq!(sys_mutex_unlock(&mut p, 1, m), SyncOutcome::ReturnAndWake(0, 2));
    assert_eq!(sys_mutex_unlock(&mut p, 2, m), SyncOutcome::Return(0));
    assert_eq!(p.mutexes.available[m], 1);
}

#[test]
fn unlock_by_non_holder_and_bad_ids_fail() {
    let mut p = process_with_threads(2);
    let m = sys_mutex_create(&mut p, false) as usize;
    assert_eq!(sys_mutex_unlock(&mut p, 0, m), SyncOutcome::Return(-1));
    assert_eq!(sys_mutex_lock(&mut p, 0, 7), SyncOutcome::Return(-1));
    assert_eq!(sys_semaphore_up(&mut p, 0, 3), SyncOutcome::Return(-1));
    assert_eq!(sys_semaphore_down(&mut p, 0, 3), SyncOutcome::Return(-1));
    assert_eq!(sys_condvar_signal(&mut p, 0), SyncOutcome::Return(-1));
}

#[test]
fn spin_mutex_contention_spins() {
    let mut p = process_with_threads(2);
    let m = sys_mutex_create(&mut p, false) as usize;
    assert_eq!(sys_mutex_lock(&mut p, 0, m), SyncOutcome::Return(0));
    assert_eq!(sys_mutex_lock(&mut p, 1, m), SyncOutcome::Spin);
}

#[test]
fn semaphore_down_on_empty_blocks_and_up_wakes_one() {
    let mut p = process_with_threads(3);
    let s = sys_semaphore_create(&mut p, 0) as usize;
    assert_eq!(sys_semaphore_down(&mut p, 1, s), SyncOutcome::Block);
    assert_eq!(sys_semaphore_down(&mut p, 2, s), SyncOutcome::Block);
    assert_eq!(sys_semaphore_up(&mut p, 0, s), SyncOutcome::ReturnAndWake(0, 1));
    assert_eq!(p.semaphores.waiters[s], vec![2]);
    assert_eq!(sys_semaphore_up(&mut p, 0, s), SyncOutcome::ReturnAndWake(0, 2));
    assert_eq!(sys_semaphore_up(&mut p, 0, s), SyncOutcome::Return(0));
    assert_eq!(p.semaphores.available[s], 1);
}

#[test]
fn producer_consumer_returns_to_initial_counts() {
    // thread 0 produces, thread 1 consumes; `full` starts empty, `empty` holds 3 slots
    let mut p = process_with_threads(2);
    let full = sys_semaphore_create(&mut p, 0) as usize;
    let empty = sys_semaphore_create(&mut p, 3) as usize;
    let mut produced = 0;
    let mut consumed = 0;
    let mut producer_waiting = false;
    let mut consumer_waiting = false;
    while consumed < 100 {
        if produced < 100 && !producer_waiting {
            match sys_semaphore_down(&mut p, 0, empty) {
                SyncOutcome::Return(0) => {
                    produced += 1;
                    if let SyncOutcome::ReturnAndWake(0, 1) = sys_semaphore_up(&mut p, 0, full) {
                        consumer_waiting = false;
                        consumed += 1;
                        if let SyncOutcome::ReturnAndWake(0, 0) = sys_semaphore_up(&mut p, 1, empty) {
                            producer_waiting = false;
                            produced += 1;
                            sys_semaphore_up(&mut p, 0, full);
                        }
                    }
                }
                SyncOutcome::Block => producer_waiting = true,
                other => panic!("unexpected {:?}", other),
            }
        }
        if !consumer_waiting && consumed < produced {
            match sys_semaphore_down(&mut p, 1, full) {
                SyncOutcome::Return(0) => {
                    consumed += 1;
                    if let SyncOutcome::ReturnAndWake(0, 0) = sys_semaphore_up(&mut p, 1, empty) {
                        producer_waiting = false;
                        produced += 1;
                        if let SyncOutcome::ReturnAndWake(0, 1) = sys_semaphore_up(&mut p, 0, full) {
                            consumer_waiting = false;
                            consumed += 1;
                        }
                    }
                }
                SyncOutcome::Block => consumer_waiting = true,
                other => panic!("unexpected {:?}", other),
            }
        } else if !consumer_waiting && consumed == produced && produced < 100 && producer_waiting {
            panic!("both sides stuck");
        }
    }
    assert_eq!(produced, 100);
    assert_eq!(consumed, 100);
    assert_eq!(p.semaphores.available, vec![0, 3]);
}

#[test]
fn condvar_wait_releases_mutex_and_signal_wakes() {
    let mut p = process_with_threads(2);
    let m = sys_mutex_create(&mut p, true) as usize;
    let c = sys_condvar_create(&mut p) as usize;
    assert_eq!(sys_mutex_lock(&mut p, 0, m), SyncOutcome::Return(0));
    assert_eq!(sys_condvar_wait(&mut p, 0, c, m), SyncOutcome::Block);
    assert_eq!(p.mutexes.available[m], 1);
    assert_eq!(sys_mutex_lock(&mut p, 1, m), SyncOutcome::Return(0));
    assert_eq!(sys_condvar_signal(&mut p, c), SyncOutcome::ReturnAndWake(0, 0));
    assert_eq!(sys_condvar_signal(&mut p, c), SyncOutcome::Return(0));
    // the woken thread takes the mutex again once it is free
    assert_eq!(sys_mutex_lock(&mut p, 0, m), SyncOutcome::Block);
    assert_eq!(sys_mutex_unlock(&mut p, 1, m), SyncOutcome::ReturnAndWake(0, 0));
}

#[test]
fn condvar_wait_without_mutex_fails() {
    let mut p = process_with_threads(1);
    let m = sys_mutex_create(&mut p, true) as usize;
    let c = sys_condvar_create(&mut p) as usize;
    assert_eq!(sys_condvar_wait(&mut p, 0, c, m), SyncOutcome::Return(-1));
}

#[test]
fn producer_up_lowers_its_holding() {
    let mut p = process_with_threads(2);
    let s = sys_semaphore_create(&mut p, 0) as usize;
    assert_eq!(sys_semaphore_up(&mut p, 0, s), SyncOutcome::Return(0));
    assert_eq!(p.semaphores.available[s], 1);
    assert_eq!(p.semaphores.produced[0][s], 1);
    assert_eq!(p.semaphores.capacity[s], 0);
    // available 1, holdings -1 and 0: the creation count 0
    assert_eq!(sys_semaphore_down(&mut p, 1, s), SyncOutcome::Return(0));
    assert_eq!(p.semaphores.allocated[1][s], 1);
    assert_eq!(p.semaphores.available[s], 0);
}
