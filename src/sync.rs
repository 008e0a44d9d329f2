//! Mutexes, semaphores and condition variables of one process, with the
//! system calls that create and use them.
//!
//! A call never waits inside this module: when the calling thread has to
//! wait, the outcome says so and the scheduler parks it; when a call lets
//! a waiting thread go on, the outcome names it.
use vstd::prelude::*;
use crate::banker::{column_total, is_safe};
use crate::resource::{add_resource_effect, release_effect, request_effect, with_entry, Grant, Release, ResourceTable};

verus! {

/// What `sys_mutex_lock` and `sys_semaphore_down` return when the wait
/// would leave the process without a safe sequence.
pub const DEADLOCK: isize = -0xDEAD;

/// What the scheduler does after a synchronisation call.
#[derive(PartialEq, Eq, Structural, Debug, Clone, Copy)]
pub enum SyncOutcome {
    /// The caller gets this value back and goes on.
    Return(isize),
    /// The caller gets this value back and goes on; the named thread may run again.
    ReturnAndWake(isize, usize),
    /// The caller waits until it is woken; its call then returns 0.
    Block,
    /// The caller waits and the named thread may run again.
    BlockAndWake(usize),
    /// The caller keeps polling a spin mutex, yielding between attempts;
    /// the lock is handed to it when released.
    Spin,
}

/// How a lock or down call settled its request, read off its outcome.
pub open spec fn grant_of(out: SyncOutcome) -> Grant {
    if out == SyncOutcome::Return(DEADLOCK) {
        Grant::Refused
    } else if out == SyncOutcome::Return(0) {
        Grant::Granted
    } else {
        Grant::Queued
    }
}

/// How an unlock, up or condvar wait settled its release, read off its outcome.
pub open spec fn release_of(out: SyncOutcome) -> Release {
    match out {
        SyncOutcome::ReturnAndWake(_, w) => Release::HandedTo(w),
        SyncOutcome::BlockAndWake(w) => Release::HandedTo(w),
        SyncOutcome::Return(v) => if v == 0 {
            Release::Returned
        } else {
            Release::Saturated
        },
        _ => Release::Returned,
    }
}

/// Synchronisation state of one process.
pub struct ProcessSync {
    /// Whether each mutex puts waiters to sleep (`true`) or lets them spin.
    pub mutex_blocking: Vec<bool>,
    pub mutexes: ResourceTable,
    pub semaphores: ResourceTable,
    /// Threads waiting on each condition variable, first to be signalled first.
    pub condvars: Vec<Vec<usize>>,
    pub detect_deadlock: bool,
}

impl ProcessSync {
    pub open spec fn threads(&self) -> nat {
        self.mutexes.threads()
    }

    pub open spec fn wf(&self) -> bool {
        &&& self.mutexes.wf()
        &&& self.semaphores.wf()
        &&& self.mutexes.threads() == self.semaphores.threads()
        &&& self.mutex_blocking@.len() == self.mutexes.resources()
        &&& forall|m: int| 0 <= m < self.mutexes.resources() ==> #[trigger] self.mutexes.total@[m] == 1
        &&& forall|m: int| 0 <= m < self.mutexes.resources() ==> #[trigger] self.mutexes.capacity@[m] == 1
        &&& forall|c: int, i: int|
            0 <= c < self.condvars@.len() && 0 <= i < self.condvars@[c]@.len() ==> #[trigger] self.condvars@[c]@[i]
                < self.threads()
    }

    /// Thread `t` waits on some primitive.
    pub open spec fn is_blocked(&self, t: usize) -> bool {
        ||| self.mutexes.is_waiting(t)
        ||| self.semaphores.is_waiting(t)
        ||| exists|c: int| 0 <= c < self.condvars@.len() && #[trigger] self.condvars@[c]@.contains(t)
    }

    /// A process with no thread and no primitive, with detection off.
    pub fn new() -> (p: Self)
        ensures
            p.wf(),
            p.threads() == 0,
            p.mutexes.resources() == 0,
            p.semaphores.resources() == 0,
            p.mutex_blocking@.len() == 0,
            p.condvars@.len() == 0,
            !p.detect_deadlock,
    {
        ProcessSync {
            mutex_blocking: Vec::new(),
            mutexes: ResourceTable::new(),
            semaphores: ResourceTable::new(),
            condvars: Vec::new(),
            detect_deadlock: false,
        }
    }

    /// Gives a new thread its rows; returns its id.
    pub fn add_thread(&mut self) -> (tid: usize)
        requires
            old(self).wf(),
            old(self).threads() < usize::MAX,
        ensures
            final(self).wf(),
            tid == old(self).threads(),
            final(self).threads() == old(self).threads() + 1,
            !final(self).is_blocked(tid),
            final(self).mutexes.avail() == old(self).mutexes.avail(),
            final(self).semaphores.avail() == old(self).semaphores.avail(),
            final(self).mutexes.waiters@ == old(self).mutexes.waiters@,
            final(self).semaphores.waiters@ == old(self).semaphores.waiters@,
            final(self).mutex_blocking == old(self).mutex_blocking,
            final(self).condvars == old(self).condvars,
            final(self).detect_deadlock == old(self).detect_deadlock,
    {
        let ghost pre = *self;
        let tid = self.mutexes.add_thread();
        self.semaphores.add_thread();
        proof {
            assert forall|r: int, i: int| 0 <= r < self.mutexes.resources() && 0 <= i < self.mutexes.queue(r).len()
                implies #[trigger] self.mutexes.queue(r)[i] < tid by {
                assert(pre.mutexes.queue(r)[i] < pre.threads());
            }
            assert forall|r: int, i: int| 0 <= r < self.semaphores.resources() && 0 <= i < self.semaphores.queue(r).len()
                implies #[trigger] self.semaphores.queue(r)[i] < tid by {
                assert(pre.semaphores.queue(r)[i] < pre.semaphores.threads());
            }
            assert forall|r: int| 0 <= r < self.mutexes.resources() implies !#[trigger] self.mutexes.queue(r).contains(tid) by {
                if self.mutexes.queue(r).contains(tid) {
                    let i = choose|i: int| 0 <= i < self.mutexes.queue(r).len() && self.mutexes.queue(r)[i] == tid;
                }
            }
            assert forall|r: int| 0 <= r < self.semaphores.resources() implies !#[trigger] self.semaphores.queue(r).contains(tid) by {
                if self.semaphores.queue(r).contains(tid) {
                    let i = choose|i: int| 0 <= i < self.semaphores.queue(r).len() && self.semaphores.queue(r)[i] == tid;
                }
            }
            assert forall|c: int| 0 <= c < self.condvars@.len() implies !#[trigger] self.condvars@[c]@.contains(tid) by {
                if self.condvars@[c]@.contains(tid) {
                    let i = choose|i: int| 0 <= i < self.condvars@[c]@.len() && self.condvars@[c]@[i] == tid;
                }
            }
        }
        tid
    }
}

/// Creates a mutex with one unit, spinning or blocking; returns its id.
pub fn sys_mutex_create(p: &mut ProcessSync, blocking: bool) -> (id: isize)
    requires
        old(p).wf(),
        old(p).mutexes.resources() < isize::MAX,
    ensures
        final(p).wf(),
        id == old(p).mutexes.resources(),
        final(p).mutex_blocking@ == old(p).mutex_blocking@.push(blocking),
        add_resource_effect(old(p).mutexes, final(p).mutexes, 1),
        final(p).semaphores == old(p).semaphores,
        final(p).threads() == old(p).threads(),
        final(p).condvars == old(p).condvars,
        final(p).detect_deadlock == old(p).detect_deadlock,
{
    let id = p.mutexes.add_resource(1);
    p.mutex_blocking.push(blocking);
    id as isize
}

/// Thread `tid` locks mutex `mutex_id`.
pub fn sys_mutex_lock(p: &mut ProcessSync, tid: usize, mutex_id: usize) -> (out: SyncOutcome)
    requires
        old(p).wf(),
        tid < old(p).threads(),
        !old(p).is_blocked(tid),
    ensures
        final(p).wf(),
        final(p).threads() == old(p).threads(),
        final(p).semaphores == old(p).semaphores,
        final(p).condvars == old(p).condvars,
        final(p).mutex_blocking == old(p).mutex_blocking,
        final(p).detect_deadlock == old(p).detect_deadlock,
        mutex_id >= old(p).mutexes.resources() ==> out == SyncOutcome::Return(-1isize) && *final(p) == *old(p),
        mutex_id < old(p).mutexes.resources() ==> request_effect(
            old(p).mutexes,
            final(p).mutexes,
            tid,
            mutex_id,
            old(p).detect_deadlock,
            grant_of(out),
        ),
        mutex_id < old(p).mutexes.resources() ==> {
            let m = mutex_id as int;
            let safe = is_safe(
                old(p).mutexes.avail(),
                with_entry(old(p).mutexes.need_m(), tid as int, m, 1),
                old(p).mutexes.alloc_m(),
            );
            if old(p).detect_deadlock && !safe {
                out == SyncOutcome::Return(DEADLOCK) && *final(p) == *old(p)
            } else if old(p).mutexes.avail()[m] > 0 {
                &&& out == SyncOutcome::Return(0isize)
                &&& final(p).mutexes.avail()[m] == 0
                &&& final(p).mutexes.alloc_m()[tid as int][m] == old(p).mutexes.alloc_m()[tid as int][m] + 1
            } else {
                &&& out == if old(p).mutex_blocking@[m] {
                    SyncOutcome::Block
                } else {
                    SyncOutcome::Spin
                }
                &&& final(p).mutexes.queue(m) == old(p).mutexes.queue(m).push(tid)
                &&& final(p).mutexes.alloc_m() == old(p).mutexes.alloc_m()
            }
        },
{
    if mutex_id >= p.mutex_blocking.len() {
        return SyncOutcome::Return(-1);
    }
    let ghost pre = *p;
    proof {
        crate::banker::lemma_column_total_nonneg(pre.mutexes.alloc_m(), mutex_id as int);
        assert(pre.mutexes.total@[mutex_id as int] == 1);
        assert(pre.mutexes.alloc_m()[tid as int].len() == pre.mutexes.avail().len());
        crate::banker::lemma_entry_le_column_total(pre.mutexes.alloc_m(), tid as int, mutex_id as int);
    }
    let g = p.mutexes.request(tid, mutex_id, p.detect_deadlock);
    proof {
        assert forall|m: int| 0 <= m < p.mutexes.resources() implies #[trigger] p.mutexes.total@[m] == 1 by {
            assert(pre.mutexes.total@[m] == 1);
        }
    }
    match g {
        Grant::Refused => {
            proof {
                assert(p.mutexes == pre.mutexes);
                assert(*p == pre);
            }
            SyncOutcome::Return(DEADLOCK)
        },
        Grant::Granted => SyncOutcome::Return(0),
        Grant::Queued => {
            proof {
                assert(grant_of(SyncOutcome::Block) == Grant::Queued);
                assert(grant_of(SyncOutcome::Spin) == Grant::Queued);
            }
            if p.mutex_blocking[mutex_id] {
                SyncOutcome::Block
            } else {
                SyncOutcome::Spin
            }
        },
    }
}

/// Thread `tid` unlocks mutex `mutex_id`, which it must hold.  With a
/// thread waiting, the unit passes straight to the first waiter, whose
/// lock call then returns 0 holding it; otherwise the mutex becomes free.
pub fn sys_mutex_unlock(p: &mut ProcessSync, tid: usize, mutex_id: usize) -> (out: SyncOutcome)
    requires
        old(p).wf(),
        tid < old(p).threads(),
        !old(p).is_blocked(tid),
    ensures
        final(p).wf(),
        final(p).threads() == old(p).threads(),
        final(p).semaphores == old(p).semaphores,
        final(p).condvars == old(p).condvars,
        (mutex_id >= old(p).mutexes.resources() || old(p).mutexes.alloc_m()[tid as int][mutex_id as int] == 0)
            ==> out == SyncOutcome::Return(-1isize) && *final(p) == *old(p),
        final(p).mutex_blocking == old(p).mutex_blocking,
        final(p).detect_deadlock == old(p).detect_deadlock,
        (mutex_id < old(p).mutexes.resources() && old(p).mutexes.alloc_m()[tid as int][mutex_id as int] > 0)
            ==> release_effect(old(p).mutexes, final(p).mutexes, tid, mutex_id, release_of(out)),
        (mutex_id < old(p).mutexes.resources() && old(p).mutexes.alloc_m()[tid as int][mutex_id as int] > 0)
            ==> {
            let m = mutex_id as int;
            let q = old(p).mutexes.queue(m);
            &&& final(p).mutexes.alloc_m()[tid as int][m] == old(p).mutexes.alloc_m()[tid as int][m] - 1
            &&& if q.len() > 0 {
                &&& out == SyncOutcome::ReturnAndWake(0, q[0])
                &&& final(p).mutexes.queue(m) == q.drop_first()
                &&& final(p).mutexes.alloc_m()[q[0] as int][m] == 1
            } else {
                &&& out == SyncOutcome::Return(0isize)
                &&& final(p).mutexes.avail()[m] == 1
            }
        },
{
    if mutex_id >= p.mutex_blocking.len() {
        return SyncOutcome::Return(-1);
    }
    proof {
        assert(p.mutexes.allocated@[tid as int]@ == p.mutexes.alloc_m()[tid as int]);
    }
    if p.mutexes.allocated[tid][mutex_id] == 0 {
        return SyncOutcome::Return(-1);
    }
    let ghost pre = *p;
    let rel = p.mutexes.release(tid, mutex_id);
    proof {
        assert forall|m: int| 0 <= m < p.mutexes.resources() implies #[trigger] p.mutexes.total@[m] == 1 by {
            assert(pre.mutexes.total@[m] == 1);
        }
        let m = mutex_id as int;
        let q = pre.mutexes.queue(m);
        crate::banker::lemma_entry_le_column_total(pre.mutexes.alloc_m(), tid as int, m);
        crate::banker::lemma_column_total_nonneg(pre.mutexes.alloc_m(), m);
        if q.len() > 0 {
            assert(q[0] != tid) by {
                assert(q.contains(q[0]));
            }
            assert(pre.mutexes.need_m()[q[0] as int][m] == 1) by {
                assert(q.contains(q[0]));
            }
            let a1 = with_entry(pre.mutexes.alloc_m(), tid as int, m, (pre.mutexes.alloc_m()[tid as int][m] - 1) as usize);
            assert(pre.mutexes.avail()[m] == 0);
            crate::banker::lemma_masked_sum_update_row(
                pre.mutexes.alloc_m(),
                tid as int,
                a1[tid as int],
                crate::banker::full_mask(pre.threads() as int),
                m,
                pre.threads() as int,
            );
            crate::banker::lemma_entry_le_column_total(a1, q[0] as int, m);
        }
    }
    match rel {
        Release::HandedTo(w) => SyncOutcome::ReturnAndWake(0, w),
        _ => SyncOutcome::Return(0),
    }
}

/// Creates a semaphore holding `res_count` units; returns its id.
pub fn sys_semaphore_create(p: &mut ProcessSync, res_count: usize) -> (id: isize)
    requires
        old(p).wf(),
        old(p).semaphores.resources() < isize::MAX,
    ensures
        final(p).wf(),
        id == old(p).semaphores.resources(),
        final(p).semaphores.avail() == old(p).semaphores.avail().push(res_count),
        add_resource_effect(old(p).semaphores, final(p).semaphores, res_count),
        final(p).semaphores.total@ == old(p).semaphores.total@.push(res_count),
        final(p).semaphores.capacity@ == old(p).semaphores.capacity@.push(res_count),
        final(p).semaphores.queue(id as int) == Seq::<usize>::empty(),
        final(p).mutexes == old(p).mutexes,
        final(p).mutex_blocking == old(p).mutex_blocking,
        final(p).condvars == old(p).condvars,
        final(p).detect_deadlock == old(p).detect_deadlock,
{
    let id = p.semaphores.add_resource(res_count);
    id as isize
}

/// Thread `tid` gives one unit to semaphore `sem_id`: the first waiting
/// thread takes it and may run again, its down call returning 0 with the
/// unit held; or the count goes up.
pub fn sys_semaphore_up(p: &mut ProcessSync, tid: usize, sem_id: usize) -> (out: SyncOutcome)
    requires
        old(p).wf(),
        tid < old(p).threads(),
        !old(p).is_blocked(tid),
    ensures
        final(p).wf(),
        final(p).threads() == old(p).threads(),
        final(p).mutexes == old(p).mutexes,
        final(p).condvars == old(p).condvars,
        final(p).mutex_blocking == old(p).mutex_blocking,
        final(p).detect_deadlock == old(p).detect_deadlock,
        sem_id >= old(p).semaphores.resources() ==> out == SyncOutcome::Return(-1isize) && *final(p) == *old(p),
        sem_id < old(p).semaphores.resources() ==> release_effect(
            old(p).semaphores,
            final(p).semaphores,
            tid,
            sem_id,
            release_of(out),
        ),
        sem_id < old(p).semaphores.resources() ==> {
            let s = sem_id as int;
            let q = old(p).semaphores.queue(s);
            let held = old(p).semaphores.alloc_m()[tid as int][s];
            if held == 0 && old(p).semaphores.total@[s] == usize::MAX {
                out == SyncOutcome::Return(-1isize) && *final(p) == *old(p)
            } else {
                &&& final(p).semaphores.capacity@ == old(p).semaphores.capacity@
                &&& final(p).semaphores.held(tid as int, s) == old(p).semaphores.held(tid as int, s) - 1
                &&& if q.len() > 0 {
                    &&& out == SyncOutcome::ReturnAndWake(0, q[0])
                    &&& final(p).semaphores.queue(s) == q.drop_first()
                    &&& final(p).semaphores.avail() == old(p).semaphores.avail()
                } else {
                    &&& out == SyncOutcome::Return(0isize)
                    &&& final(p).semaphores.avail()[s] == old(p).semaphores.avail()[s] + 1
                }
            }
        },
{
    if sem_id >= p.semaphores.available.len() {
        return SyncOutcome::Return(-1);
    }
    let ghost pre = *p;
    let rel = p.semaphores.release(tid, sem_id);
    proof {
        crate::banker::lemma_column_total_nonneg(pre.semaphores.alloc_m(), sem_id as int);
        crate::banker::lemma_entry_le_column_total(pre.semaphores.alloc_m(), tid as int, sem_id as int);
        assert(pre.semaphores.avail()[sem_id as int] + column_total(pre.semaphores.alloc_m(), sem_id as int)
            == pre.semaphores.total@[sem_id as int]);
    }
    match rel {
        Release::HandedTo(w) => SyncOutcome::ReturnAndWake(0, w),
        Release::Returned => SyncOutcome::Return(0),
        Release::Saturated => {
            proof {
                assert(p.semaphores == pre.semaphores);
                assert(*p == pre);
            }
            SyncOutcome::Return(-1)
        },
    }
}

/// Thread `tid` takes one unit of semaphore `sem_id`, waiting if there is none.
pub fn sys_semaphore_down(p: &mut ProcessSync, tid: usize, sem_id: usize) -> (out: SyncOutcome)
    requires
        old(p).wf(),
        tid < old(p).threads(),
        !old(p).is_blocked(tid),
    ensures
        final(p).wf(),
        final(p).threads() == old(p).threads(),
        final(p).mutexes == old(p).mutexes,
        final(p).condvars == old(p).condvars,
        final(p).semaphores.total@ == old(p).semaphores.total@,
        final(p).mutex_blocking == old(p).mutex_blocking,
        final(p).detect_deadlock == old(p).detect_deadlock,
        sem_id >= old(p).semaphores.resources() ==> out == SyncOutcome::Return(-1isize) && *final(p) == *old(p),
        sem_id < old(p).semaphores.resources() ==> request_effect(
            old(p).semaphores,
            final(p).semaphores,
            tid,
            sem_id,
            old(p).detect_deadlock,
            grant_of(out),
        ),
        sem_id < old(p).semaphores.resources() ==> {
            let s = sem_id as int;
            let safe = is_safe(
                old(p).semaphores.avail(),
                with_entry(old(p).semaphores.need_m(), tid as int, s, 1),
                old(p).semaphores.alloc_m(),
            );
            if old(p).detect_deadlock && !safe {
                out == SyncOutcome::Return(DEADLOCK) && *final(p) == *old(p)
            } else if old(p).semaphores.avail()[s] > 0 {
                &&& out == SyncOutcome::Return(0isize)
                &&& final(p).semaphores.avail()[s] == old(p).semaphores.avail()[s] - 1
                &&& final(p).semaphores.alloc_m()[tid as int][s] == old(p).semaphores.alloc_m()[tid as int][s] + 1
            } else {
                &&& out == SyncOutcome::Block
                &&& final(p).semaphores.queue(s) == old(p).semaphores.queue(s).push(tid)
                &&& final(p).semaphores.avail() == old(p).semaphores.avail()
            }
        },
{
    if sem_id >= p.semaphores.available.len() {
        return SyncOutcome::Return(-1);
    }
    let ghost pre = *p;
    proof {
        assert(pre.semaphores.alloc_m()[tid as int].len() == pre.semaphores.avail().len());
        crate::banker::lemma_entry_le_column_total(pre.semaphores.alloc_m(), tid as int, sem_id as int);
        assert(pre.semaphores.avail()[sem_id as int] + column_total(pre.semaphores.alloc_m(), sem_id as int)
            == pre.semaphores.total@[sem_id as int]);
    }
    let g = p.semaphores.request(tid, sem_id, p.detect_deadlock);
    match g {
        Grant::Refused => {
            proof {
                assert(p.semaphores == pre.semaphores);
                assert(*p == pre);
            }
            SyncOutcome::Return(DEADLOCK)
        },
        Grant::Granted => SyncOutcome::Return(0),
        Grant::Queued => {
            proof {
                assert(grant_of(SyncOutcome::Block) == Grant::Queued);
            }
            SyncOutcome::Block
        },
    }
}

/// Creates a condition variable; returns its id.
pub fn sys_condvar_create(p: &mut ProcessSync) -> (id: isize)
    requires
        old(p).wf(),
        old(p).condvars@.len() < isize::MAX,
    ensures
        final(p).wf(),
        id == old(p).condvars@.len(),
        final(p).condvars@.len() == old(p).condvars@.len() + 1,
        final(p).condvars@[id as int]@ == Seq::<usize>::empty(),
        forall|c: int| 0 <= c < old(p).condvars@.len() ==> #[trigger] final(p).condvars@[c] == old(p).condvars@[c],
        final(p).mutexes == old(p).mutexes,
        final(p).semaphores == old(p).semaphores,
{
    p.condvars.push(Vec::new());
    (p.condvars.len() - 1) as isize
}

/// Wakes the first thread waiting on condition variable `condvar_id`, if
/// any; once running, that thread locks its mutex again.
pub fn sys_condvar_signal(p: &mut ProcessSync, condvar_id: usize) -> (out: SyncOutcome)
    requires
        old(p).wf(),
    ensures
        final(p).wf(),
        final(p).mutexes == old(p).mutexes,
        final(p).semaphores == old(p).semaphores,
        final(p).condvars@.len() == old(p).condvars@.len(),
        condvar_id >= old(p).condvars@.len() ==> out == SyncOutcome::Return(-1isize) && *final(p) == *old(p),
        condvar_id < old(p).condvars@.len() ==> {
            let q = old(p).condvars@[condvar_id as int]@;
            &&& forall|c: int| 0 <= c < old(p).condvars@.len() && c != condvar_id ==> #[trigger] final(p).condvars@[c] == old(p).condvars@[c]
            &&& if q.len() > 0 {
                &&& out == SyncOutcome::ReturnAndWake(0, q[0])
                &&& final(p).condvars@[condvar_id as int]@ == q.drop_first()
            } else {
                &&& out == SyncOutcome::Return(0isize)
                &&& final(p).condvars@[condvar_id as int]@ == q
            }
        },
{
    if condvar_id >= p.condvars.len() {
        return SyncOutcome::Return(-1);
    }
    let ghost pre = *p;
    if p.condvars[condvar_id].len() == 0 {
        return SyncOutcome::Return(0);
    }
    let w = p.condvars[condvar_id][0];
    let mut rest: Vec<usize> = Vec::new();
    let len = p.condvars[condvar_id].len();
    let mut i: usize = 1;
    while i < len
        invariant
            1 <= i <= len,
            condvar_id < p.condvars@.len(),
            len == p.condvars@[condvar_id as int]@.len(),
            rest@ == p.condvars@[condvar_id as int]@.subrange(1, i as int),
        decreases len - i,
    {
        rest.push(p.condvars[condvar_id][i]);
        i += 1;
        proof {
            assert(rest@ =~= p.condvars@[condvar_id as int]@.subrange(1, i as int));
        }
    }
    p.condvars.set(condvar_id, rest);
    proof {
        let q = pre.condvars@[condvar_id as int]@;
        assert(p.condvars@[condvar_id as int]@ =~= q.drop_first());
        assert forall|c: int, j: int|
            0 <= c < p.condvars@.len() && 0 <= j < p.condvars@[c]@.len() implies #[trigger] p.condvars@[c]@[j]
                < p.threads() by {
            if c == condvar_id {
                assert(p.condvars@[c]@[j] == q[j + 1]);
            } else {
                assert(p.condvars@[c] == pre.condvars@[c]);
            }
        }
    }
    SyncOutcome::ReturnAndWake(0, w)
}

/// Thread `tid` releases mutex `mutex_id`, which it must hold, and waits on
/// condition variable `condvar_id`.
pub fn sys_condvar_wait(p: &mut ProcessSync, tid: usize, condvar_id: usize, mutex_id: usize) -> (out: SyncOutcome)
    requires
        old(p).wf(),
        tid < old(p).threads(),
        !old(p).is_blocked(tid),
    ensures
        final(p).wf(),
        final(p).threads() == old(p).threads(),
        final(p).semaphores == old(p).semaphores,
        final(p).condvars@.len() == old(p).condvars@.len(),
        (condvar_id >= old(p).condvars@.len() || mutex_id >= old(p).mutexes.resources()
            || old(p).mutexes.alloc_m()[tid as int][mutex_id as int] == 0) ==> out == SyncOutcome::Return(-1isize)
            && *final(p) == *old(p),
        final(p).mutex_blocking == old(p).mutex_blocking,
        final(p).detect_deadlock == old(p).detect_deadlock,
        (condvar_id < old(p).condvars@.len() && mutex_id < old(p).mutexes.resources()
            && old(p).mutexes.alloc_m()[tid as int][mutex_id as int] > 0) ==> release_effect(
            old(p).mutexes,
            final(p).mutexes,
            tid,
            mutex_id,
            release_of(out),
        ),
        (condvar_id < old(p).condvars@.len() && mutex_id < old(p).mutexes.resources()
            && old(p).mutexes.alloc_m()[tid as int][mutex_id as int] > 0) ==> forall|c: int|
            0 <= c < old(p).condvars@.len() && c != condvar_id ==> #[trigger] final(p).condvars@[c] == old(p).condvars@[c],
        (condvar_id < old(p).condvars@.len() && mutex_id < old(p).mutexes.resources()
            && old(p).mutexes.alloc_m()[tid as int][mutex_id as int] > 0) ==> {
            let m = mutex_id as int;
            let q = old(p).mutexes.queue(m);
            &&& final(p).condvars@[condvar_id as int]@ == old(p).condvars@[condvar_id as int]@.push(tid)
            &&& final(p).mutexes.alloc_m()[tid as int][m] == 0
            &&& if q.len() > 0 {
                &&& out == SyncOutcome::BlockAndWake(q[0])
                &&& final(p).mutexes.queue(m) == q.drop_first()
            } else {
                &&& out == SyncOutcome::Block
                &&& final(p).mutexes.avail()[m] == 1
            }
        },
{
    if condvar_id >= p.condvars.len() || mutex_id >= p.mutex_blocking.len() {
        return SyncOutcome::Return(-1);
    }
    let ghost pre = *p;
    let out = sys_mutex_unlock(p, tid, mutex_id);
    match out {
        SyncOutcome::Return(r) => {
            if r != 0 {
                return out;
            }
        },
        _ => {},
    }
    proof {
        crate::banker::lemma_entry_le_column_total(pre.mutexes.alloc_m(), tid as int, mutex_id as int);
        crate::banker::lemma_column_total_nonneg(pre.mutexes.alloc_m(), mutex_id as int);
        assert(pre.mutexes.total@[mutex_id as int] == 1);
        assert(pre.mutexes.avail()[mutex_id as int] + column_total(pre.mutexes.alloc_m(), mutex_id as int) == 1);
    }
    let mut q = p.condvars[condvar_id].clone();
    q.push(tid);
    p.condvars.set(condvar_id, q);
    proof {
        assert forall|c: int, j: int|
            0 <= c < p.condvars@.len() && 0 <= j < p.condvars@[c]@.len() implies #[trigger] p.condvars@[c]@[j]
                < p.threads() by {
            if c != condvar_id {
                assert(p.condvars@[c] == pre.condvars@[c]);
            } else if j < pre.condvars@[c]@.len() {
                assert(p.condvars@[c]@[j] == pre.condvars@[c]@[j]);
            }
        }
    }
    match out {
        SyncOutcome::ReturnAndWake(_, w) => SyncOutcome::BlockAndWake(w),
        _ => SyncOutcome::Block,
    }
}

/// Turns deadlock detection off (0) or on (1); any other value is refused.
pub fn sys_enable_deadlock_detect(p: &mut ProcessSync, enabled: usize) -> (r: isize)
    ensures
        enabled == 0 ==> r == 0 && !final(p).detect_deadlock,
        enabled == 1 ==> r == 0 && final(p).detect_deadlock,
        enabled > 1 ==> r == -1 && final(p).detect_deadlock == old(p).detect_deadlock,
        final(p).mutexes == old(p).mutexes,
        final(p).semaphores == old(p).semaphores,
        final(p).condvars == old(p).condvars,
        final(p).mutex_blocking == old(p).mutex_blocking,
{
    if enabled == 0 {
        p.detect_deadlock = false;
        0
    } else if enabled == 1 {
        p.detect_deadlock = true;
        0
    } else {
        -1
    }
}

/// For every mutex and semaphore, the units held by all threads plus the
/// units available equal the count it was created with: one for a mutex.
/// A thread that releases a unit it does not hold (a producer) holds one
/// unit less, down to negative holdings.
pub proof fn lemma_units_conserved(p: &ProcessSync)
    requires
        p.wf(),
    ensures
        forall|m: int|
            0 <= m < p.mutexes.resources() ==> #[trigger] p.mutexes.avail()[m] + p.mutexes.held_sum(
                m,
                p.threads() as int,
            ) == 1,
        forall|s: int|
            0 <= s < p.semaphores.resources() ==> #[trigger] p.semaphores.avail()[s] + p.semaphores.held_sum(
                s,
                p.semaphores.threads() as int,
            ) == p.semaphores.capacity@[s],
{
    assert forall|m: int| 0 <= m < p.mutexes.resources() implies #[trigger] p.mutexes.avail()[m]
        + p.mutexes.held_sum(m, p.threads() as int) == 1 by {
        assert(p.mutexes.capacity@[m] == 1);
    }
}

} // verus!
