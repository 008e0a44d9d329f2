//! Threads and the per-hart stride scheduler.
//!
//! Each hart owns a ready queue.  New work goes to the hart with the
//! shortest queue; a hart runs the queued thread of smallest stride (the
//! earliest queued among equals) and advances that thread's stride by
//! `BIG_STRIDE / priority`.
use vstd::prelude::*;

verus! {

/// Stride added, divided by the priority, each time a thread is dispatched.
pub const BIG_STRIDE: u64 = 32768;

/// Lowest priority a thread may have.
pub const MIN_PRIORITY: u64 = 2;

/// Priority a thread starts with.
pub const DEFAULT_PRIORITY: u64 = 16;

/// Life-cycle state of a thread.
#[derive(PartialEq, Eq, Structural, Debug, Clone, Copy)]
pub enum TaskStatus {
    Ready,
    Running,
    Blocked,
    Zombie,
}

/// A thread as the scheduler sees it.
#[derive(PartialEq, Eq, Structural, Debug, Clone, Copy)]
pub struct TaskControlBlock {
    /// Process the thread belongs to.
    pub pid: usize,
    /// Index of the thread within its process.
    pub tid: usize,
    pub task_status: TaskStatus,
    pub stride: u64,
    pub priority: u64,
    /// Time of first dispatch, in milliseconds.
    pub start_time: u64,
    pub is_started: bool,
}

impl TaskControlBlock {
    /// A fresh ready thread with stride 0 and the default priority.
    pub fn new(pid: usize, tid: usize) -> (t: Self)
        ensures
            t.pid == pid,
            t.tid == tid,
            t.task_status == TaskStatus::Ready,
            t.stride == 0,
            t.priority == DEFAULT_PRIORITY,
            !t.is_started,
    {
        TaskControlBlock {
            pid,
            tid,
            task_status: TaskStatus::Ready,
            stride: 0,
            priority: DEFAULT_PRIORITY,
            start_time: 0,
            is_started: false,
        }
    }

    /// The same thread, as `remove` compares them.
    pub open spec fn same_thread(&self, other: &Self) -> bool {
        self.pid == other.pid && self.tid == other.tid
    }
}

/// What one dispatch adds to a thread's stride.
pub open spec fn pass_of(priority: u64) -> u64
    recommends
        priority > 0,
{
    (BIG_STRIDE / priority) as u64
}

/// A thread's stride after one dispatch; it stays at the top once there.
pub open spec fn next_stride(stride: u64, priority: u64) -> u64 {
    if stride > u64::MAX - pass_of(priority) {
        u64::MAX
    } else {
        (stride + pass_of(priority)) as u64
    }
}

/// Index of the first entry of smallest stride.
pub open spec fn is_first_min(q: Seq<TaskControlBlock>, i: int) -> bool {
    &&& 0 <= i < q.len()
    &&& forall|j: int| 0 <= j < q.len() ==> q[i].stride <= #[trigger] q[j].stride
    &&& forall|j: int| 0 <= j < i ==> q[i].stride < #[trigger] q[j].stride
}

/// The ready queue of one hart, with the slot that keeps the last exited
/// thread until the hart has switched away from its kernel stack.
pub struct TaskManager {
    pub ready_queue: Vec<TaskControlBlock>,
    pub stop_task: Option<TaskControlBlock>,
}

impl TaskManager {
    pub open spec fn queue(&self) -> Seq<TaskControlBlock> {
        self.ready_queue@
    }

    /// An empty manager.
    pub fn new() -> (m: Self)
        ensures
            m.queue() == Seq::<TaskControlBlock>::empty(),
            m.stop_task is None,
    {
        TaskManager { ready_queue: Vec::new(), stop_task: None }
    }

    /// Puts `task` at the back of the queue.
    pub fn add(&mut self, task: TaskControlBlock)
        ensures
            final(self).queue() == old(self).queue().push(task),
            final(self).stop_task == old(self).stop_task,
    {
        self.ready_queue.push(task);
    }

    /// Takes out the queued thread of smallest stride, the earliest among equals.
    pub fn fetch(&mut self) -> (t: Option<TaskControlBlock>)
        ensures
            final(self).stop_task == old(self).stop_task,
            old(self).queue().len() == 0 ==> t is None && final(self).queue() == old(self).queue(),
            old(self).queue().len() > 0 ==> exists|i: int|
                #[trigger] is_first_min(old(self).queue(), i) && t == Some(old(self).queue()[i])
                    && final(self).queue() == old(self).queue().remove(i),
    {
        if self.ready_queue.len() == 0 {
            return None;
        }
        let mut best: usize = 0;
        let mut i: usize = 1;
        while i < self.ready_queue.len()
            invariant
                1 <= i <= self.ready_queue@.len(),
                best < i,
                forall|j: int| 0 <= j < i ==> self.ready_queue@[best as int].stride <= #[trigger] self.ready_queue@[j].stride,
                forall|j: int| 0 <= j < best ==> self.ready_queue@[best as int].stride < #[trigger] self.ready_queue@[j].stride,
            decreases self.ready_queue@.len() - i,
        {
            if self.ready_queue[i].stride < self.ready_queue[best].stride {
                best = i;
            }
            i += 1;
        }
        let t = self.ready_queue.remove(best);
        proof {
            assert(is_first_min(old(self).queue(), best as int));
        }
        Some(t)
    }

    /// Takes `task` out of the queue if it is there.
    pub fn remove(&mut self, task: &TaskControlBlock)
        ensures
            final(self).stop_task == old(self).stop_task,
            (forall|j: int| 0 <= j < old(self).queue().len() ==> !(#[trigger] old(self).queue()[j]).same_thread(task))
                ==> final(self).queue() == old(self).queue(),
            (exists|j: int| 0 <= j < old(self).queue().len() && (#[trigger] old(self).queue()[j]).same_thread(task))
                ==> exists|i: int|
                0 <= i < old(self).queue().len() && (#[trigger] old(self).queue()[i]).same_thread(task)
                    && (forall|j: int| 0 <= j < i ==> !(#[trigger] old(self).queue()[j]).same_thread(task))
                    && final(self).queue() == old(self).queue().remove(i),
    {
        let mut i: usize = 0;
        while i < self.ready_queue.len()
            invariant
                i <= self.ready_queue@.len(),
                self.ready_queue@ == old(self).ready_queue@,
                self.stop_task == old(self).stop_task,
                forall|j: int| 0 <= j < i ==> !(#[trigger] self.ready_queue@[j]).same_thread(task),
            decreases self.ready_queue@.len() - i,
        {
            if self.ready_queue[i].pid == task.pid && self.ready_queue[i].tid == task.tid {
                self.ready_queue.remove(i);
                proof {
                    assert(old(self).queue()[i as int].same_thread(task));
                }
                return;
            }
            i += 1;
        }
    }

    /// Keeps `task` in the stop slot, releasing the one kept before.
    pub fn add_stop(&mut self, task: TaskControlBlock)
        ensures
            final(self).queue() == old(self).queue(),
            final(self).stop_task == Some(task),
    {
        self.stop_task = Some(task);
    }
}

/// Hart whose queue is shortest, the lowest-numbered among equals.
pub open spec fn is_shortest(harts: Seq<TaskManager>, h: int) -> bool {
    &&& 0 <= h < harts.len()
    &&& forall|k: int| 0 <= k < harts.len() ==> harts[h].queue().len() <= #[trigger] harts[k].queue().len()
    &&& forall|k: int| 0 <= k < h ==> harts[h].queue().len() < #[trigger] harts[k].queue().len()
}

/// Queues `task` on the hart with the shortest ready queue.
pub fn add_task(harts: &mut Vec<TaskManager>, task: TaskControlBlock)
    requires
        old(harts)@.len() > 0,
    ensures
        final(harts)@.len() == old(harts)@.len(),
        exists|h: int|
            #[trigger] is_shortest(old(harts)@, h) && final(harts)@ == old(harts)@.update(
                h,
                TaskManager {
                    ready_queue: final(harts)@[h].ready_queue,
                    stop_task: old(harts)@[h].stop_task,
                },
            ) && final(harts)@[h].queue() == old(harts)@[h].queue().push(task),
{
    let mut best: usize = 0;
    let mut i: usize = 1;
    while i < harts.len()
        invariant
            1 <= i <= harts@.len(),
            best < i,
            forall|k: int| 0 <= k < i ==> harts@[best as int].queue().len() <= #[trigger] harts@[k].queue().len(),
            forall|k: int| 0 <= k < best ==> harts@[best as int].queue().len() < #[trigger] harts@[k].queue().len(),
        decreases harts@.len() - i,
    {
        if harts[i].ready_queue.len() < harts[best].ready_queue.len() {
            best = i;
        }
        i += 1;
    }
    add_task_at_this_hart(harts, best, task);
    proof {
        assert(is_shortest(old(harts)@, best as int));
    }
}

/// Queues `task` on hart `hart`.
pub fn add_task_at_this_hart(harts: &mut Vec<TaskManager>, hart: usize, task: TaskControlBlock)
    requires
        hart < old(harts)@.len(),
    ensures
        final(harts)@ == old(harts)@.update(
            hart as int,
            TaskManager {
                ready_queue: final(harts)@[hart as int].ready_queue,
                stop_task: old(harts)@[hart as int].stop_task,
            },
        ),
        final(harts)@[hart as int].queue() == old(harts)@[hart as int].queue().push(task),
{
    let mut m = TaskManager::new();
    std::mem::swap(&mut m, &mut harts[hart]);
    m.add(task);
    harts.set(hart, m);
}

/// Marks `task` ready and queues it on the hart with the shortest queue.
pub fn wakeup_task(harts: &mut Vec<TaskManager>, task: TaskControlBlock)
    requires
        old(harts)@.len() > 0,
    ensures
        final(harts)@.len() == old(harts)@.len(),
        exists|h: int|
            #[trigger] is_shortest(old(harts)@, h) && final(harts)@[h].queue() == old(harts)@[h].queue().push(
                TaskControlBlock { task_status: TaskStatus::Ready, ..task },
            ) && forall|k: int| 0 <= k < old(harts)@.len() && k != h ==> #[trigger] final(harts)@[k] == old(harts)@[k],
{
    let mut t = task;
    t.task_status = TaskStatus::Ready;
    add_task(harts, t);
}

/// Takes `task` out of the ready queue of hart `hart`.
pub fn remove_task(harts: &mut Vec<TaskManager>, hart: usize, task: &TaskControlBlock)
    requires
        hart < old(harts)@.len(),
    ensures
        final(harts)@.len() == old(harts)@.len(),
        forall|k: int| 0 <= k < old(harts)@.len() && k != hart ==> #[trigger] final(harts)@[k] == old(harts)@[k],
        final(harts)@[hart as int].stop_task == old(harts)@[hart as int].stop_task,
        (forall|j: int|
            0 <= j < old(harts)@[hart as int].queue().len() ==> !(#[trigger] old(harts)@[hart as int].queue()[j]).same_thread(task))
            ==> final(harts)@[hart as int].queue() == old(harts)@[hart as int].queue(),
        (exists|j: int|
            0 <= j < old(harts)@[hart as int].queue().len() && (#[trigger] old(harts)@[hart as int].queue()[j]).same_thread(task))
            ==> exists|i: int|
            0 <= i < old(harts)@[hart as int].queue().len() && (#[trigger] old(harts)@[hart as int].queue()[i]).same_thread(task)
                && (forall|j: int| 0 <= j < i ==> !(#[trigger] old(harts)@[hart as int].queue()[j]).same_thread(task))
                && final(harts)@[hart as int].queue() == old(harts)@[hart as int].queue().remove(i),
{
    let mut m = TaskManager::new();
    std::mem::swap(&mut m, &mut harts[hart]);
    m.remove(task);
    harts.set(hart, m);
}

/// Takes the next thread to run out of the ready queue of hart `hart`.
pub fn fetch_task(harts: &mut Vec<TaskManager>, hart: usize) -> (t: Option<TaskControlBlock>)
    requires
        hart < old(harts)@.len(),
    ensures
        final(harts)@.len() == old(harts)@.len(),
        forall|k: int| 0 <= k < old(harts)@.len() && k != hart ==> #[trigger] final(harts)@[k] == old(harts)@[k],
        final(harts)@[hart as int].stop_task == old(harts)@[hart as int].stop_task,
        ({
            let q = old(harts)@[hart as int].queue();
            &&& q.len() == 0 ==> t is None && final(harts)@[hart as int].queue() == q
            &&& q.len() > 0 ==> exists|i: int|
                #[trigger] is_first_min(q, i) && t == Some(q[i]) && final(harts)@[hart as int].queue() == q.remove(i)
        }),
{
    let mut m = TaskManager::new();
    std::mem::swap(&mut m, &mut harts[hart]);
    let t = m.fetch();
    harts.set(hart, m);
    t
}

/// Keeps `task` in the stop slot of hart `hart`.
pub fn add_stopping_task(harts: &mut Vec<TaskManager>, hart: usize, task: TaskControlBlock)
    requires
        hart < old(harts)@.len(),
    ensures
        final(harts)@.len() == old(harts)@.len(),
        forall|k: int| 0 <= k < old(harts)@.len() && k != hart ==> #[trigger] final(harts)@[k] == old(harts)@[k],
        final(harts)@[hart as int].queue() == old(harts)@[hart as int].queue(),
        final(harts)@[hart as int].stop_task == Some(task),
{
    let mut m = TaskManager::new();
    std::mem::swap(&mut m, &mut harts[hart]);
    m.add_stop(task);
    harts.set(hart, m);
}

/// One pass of a hart's idle loop: takes the next thread, marks it
/// running, records its first start time and advances its stride.
pub fn run_next(harts: &mut Vec<TaskManager>, hart: usize, now_ms: u64) -> (t: Option<TaskControlBlock>)
    requires
        hart < old(harts)@.len(),
        forall|k: int, j: int|
            0 <= k < old(harts)@.len() && 0 <= j < old(harts)@[k].queue().len() ==> (#[trigger] old(harts)@[k].queue()[j]).priority
                >= MIN_PRIORITY,
    ensures
        final(harts)@.len() == old(harts)@.len(),
        forall|k: int| 0 <= k < old(harts)@.len() && k != hart ==> #[trigger] final(harts)@[k] == old(harts)@[k],
        ({
            let q = old(harts)@[hart as int].queue();
            &&& q.len() == 0 ==> t is None && final(harts)@[hart as int].queue() == q
            &&& q.len() > 0 ==> exists|i: int|
                #[trigger] is_first_min(q, i) && final(harts)@[hart as int].queue() == q.remove(i) && t == Some(
                    TaskControlBlock {
                        task_status: TaskStatus::Running,
                        stride: next_stride(q[i].stride, q[i].priority),
                        start_time: if q[i].is_started {
                            q[i].start_time
                        } else {
                            now_ms
                        },
                        is_started: true,
                        ..q[i]
                    },
                )
        }),
{
    let fetched = fetch_task(harts, hart);
    match fetched {
        None => None,
        Some(task) => {
            let mut t = task;
            proof {
                let q = old(harts)@[hart as int].queue();
                let i = choose|i: int| #[trigger] is_first_min(q, i) && fetched == Some(q[i]) && harts@[hart as int].queue() == q.remove(i);
                assert(q[i].priority >= MIN_PRIORITY);
            }
            if !t.is_started {
                t.start_time = now_ms;
                t.is_started = true;
            }
            let pass = BIG_STRIDE / t.priority;
            t.stride = if t.stride > u64::MAX - pass {
                u64::MAX
            } else {
                t.stride + pass
            };
            t.task_status = TaskStatus::Running;
            Some(t)
        },
    }
}

/// Sets the priority of `task`; priorities below `MIN_PRIORITY` are refused.
pub fn sys_set_priority(task: &mut TaskControlBlock, prio: isize) -> (r: isize)
    ensures
        prio >= MIN_PRIORITY ==> r == 0 && *final(task) == (TaskControlBlock { priority: prio as u64, ..*old(task) }),
        prio < MIN_PRIORITY ==> r == -1 && *final(task) == *old(task),
{
    if prio < MIN_PRIORITY as isize {
        return -1;
    }
    task.priority = prio as u64;
    0
}

/// A sleeping thread and the time it is due, in milliseconds.
#[derive(PartialEq, Eq, Structural, Debug, Clone, Copy)]
pub struct TimerEntry {
    pub expire_ms: u64,
    pub task: TaskControlBlock,
}

/// Sleeping threads, soonest due first; threads due at the same time
/// keep the order in which they went to sleep.
pub struct TimerList {
    pub entries: Vec<TimerEntry>,
}

pub open spec fn due_in_order(s: Seq<TimerEntry>) -> bool {
    forall|i: int, j: int| 0 <= i < j < s.len() ==> #[trigger] s[i].expire_ms <= #[trigger] s[j].expire_ms
}

impl TimerList {
    pub open spec fn wf(&self) -> bool {
        due_in_order(self.entries@)
    }

    /// No sleeping thread.
    pub fn new() -> (t: Self)
        ensures
            t.wf(),
            t.entries@ == Seq::<TimerEntry>::empty(),
    {
        TimerList { entries: Vec::new() }
    }

    /// Puts `task` to sleep until `expire_ms`, after every entry due no later.
    pub fn add_timer(&mut self, expire_ms: u64, task: TaskControlBlock)
        requires
            old(self).wf(),
        ensures
            final(self).wf(),
            exists|pos: int|
                0 <= pos <= old(self).entries@.len() && final(self).entries@ == old(self).entries@.insert(
                    pos,
                    TimerEntry { expire_ms, task },
                ) && (forall|k: int| 0 <= k < pos ==> (#[trigger] old(self).entries@[k]).expire_ms <= expire_ms)
                    && (forall|k: int| pos <= k < old(self).entries@.len() ==> (#[trigger] old(self).entries@[k]).expire_ms > expire_ms),
    {
        let mut pos: usize = 0;
        while pos < self.entries.len() && self.entries[pos].expire_ms <= expire_ms
            invariant
                pos <= self.entries@.len(),
                self.entries@ == old(self).entries@,
                forall|k: int| 0 <= k < pos ==> (#[trigger] self.entries@[k]).expire_ms <= expire_ms,
            decreases self.entries@.len() - pos,
        {
            pos += 1;
        }
        let ghost old_s = self.entries@;
        proof {
            assert forall|k: int| pos <= k < old_s.len() implies (#[trigger] old_s[k]).expire_ms > expire_ms by {
                assert(old_s[pos as int].expire_ms > expire_ms);
                if k > pos {
                    assert(old_s[pos as int].expire_ms <= old_s[k].expire_ms);
                }
            }
        }
        let e = TimerEntry { expire_ms, task };
        self.entries.insert(pos, e);
        proof {
            let ns = self.entries@;
            assert forall|i: int, j: int| 0 <= i < j < ns.len() implies #[trigger] ns[i].expire_ms <= #[trigger] ns[j].expire_ms by {
                let oi = if i < pos { i } else { i - 1 };
                let oj = if j < pos { j } else { j - 1 };
                if i != pos && j != pos {
                    assert(old_s[oi].expire_ms <= old_s[oj].expire_ms);
                } else if i == pos {
                    assert(old_s[oj].expire_ms > expire_ms);
                } else {
                    assert(old_s[oi].expire_ms <= expire_ms);
                }
            }
        }
    }

    /// Takes out every thread due at or before `now_ms`, soonest first.
    pub fn check_timer(&mut self, now_ms: u64) -> (due: Vec<TaskControlBlock>)
        requires
            old(self).wf(),
        ensures
            final(self).wf(),
            exists|k: int|
                0 <= k <= old(self).entries@.len() && final(self).entries@ == old(self).entries@.subrange(
                    k,
                    old(self).entries@.len() as int,
                ) && due@ == old(self).entries@.subrange(0, k).map_values(|e: TimerEntry| e.task)
                    && (forall|i: int| 0 <= i < k ==> (#[trigger] old(self).entries@[i]).expire_ms <= now_ms)
                    && (forall|i: int| k <= i < old(self).entries@.len() ==> (#[trigger] old(self).entries@[i]).expire_ms > now_ms),
    {
        let ghost s = self.entries@;
        let mut k: usize = 0;
        let mut due: Vec<TaskControlBlock> = Vec::new();
        while k < self.entries.len() && self.entries[k].expire_ms <= now_ms
            invariant
                k <= self.entries@.len(),
                self.entries@ == s,
                due@ == s.subrange(0, k as int).map_values(|e: TimerEntry| e.task),
                forall|i: int| 0 <= i < k ==> (#[trigger] s[i]).expire_ms <= now_ms,
            decreases self.entries@.len() - k,
        {
            due.push(self.entries[k].task);
            k += 1;
            proof {
                assert(due@ =~= s.subrange(0, k as int).map_values(|e: TimerEntry| e.task));
            }
        }
        proof {
            assert forall|i: int| k <= i < s.len() implies (#[trigger] s[i]).expire_ms > now_ms by {
                assert(s[k as int].expire_ms > now_ms);
                if i > k {
                    assert(s[k as int].expire_ms <= s[i].expire_ms);
                }
            }
        }
        let mut rest: Vec<TimerEntry> = Vec::new();
        let mut i: usize = k;
        while i < self.entries.len()
            invariant
                k <= i <= self.entries@.len(),
                self.entries@ == s,
                rest@ == s.subrange(k as int, i as int),
            decreases self.entries@.len() - i,
        {
            rest.push(self.entries[i]);
            i += 1;
            proof {
                assert(rest@ =~= s.subrange(k as int, i as int));
            }
        }
        self.entries = rest;
        due
    }
}

/// When a sleep of `ms` milliseconds from `now_ms` ends; the clock's end
/// stands for any later time.
pub open spec fn sleep_deadline(now_ms: u64, ms: u64) -> u64 {
    if now_ms > u64::MAX - ms {
        u64::MAX
    } else {
        (now_ms + ms) as u64
    }
}

/// The calling thread sleeps for `ms` milliseconds from `now_ms`; the
/// caller then blocks it.  Always returns 0.
pub fn sys_sleep(timers: &mut TimerList, task: TaskControlBlock, now_ms: u64, ms: u64) -> (r: isize)
    requires
        old(timers).wf(),
    ensures
        r == 0,
        final(timers).wf(),
        exists|pos: int|
            0 <= pos <= old(timers).entries@.len() && final(timers).entries@ == #[trigger] old(timers).entries@.insert(
                pos,
                TimerEntry { expire_ms: sleep_deadline(now_ms, ms), task },
            ),
{
    let expire = if now_ms > u64::MAX - ms {
        u64::MAX
    } else {
        now_ms + ms
    };
    timers.add_timer(expire, task);
    0
}

/// The calling thread gives up the hart: it is marked ready and queued
/// again on the hart with the shortest queue.  Always returns 0.
pub fn sys_yield(harts: &mut Vec<TaskManager>, task: TaskControlBlock) -> (r: isize)
    requires
        old(harts)@.len() > 0,
    ensures
        r == 0,
        final(harts)@.len() == old(harts)@.len(),
        exists|h: int|
            #[trigger] is_shortest(old(harts)@, h) && final(harts)@[h].queue() == old(harts)@[h].queue().push(
                TaskControlBlock { task_status: TaskStatus::Ready, ..task },
            ),
{
    wakeup_task(harts, task);
    0
}

/// Number of queued threads whose stride is below `t`.
pub open spec fn count_below(q: Seq<TaskControlBlock>, t: int) -> nat
    decreases q.len(),
{
    if q.len() == 0 {
        0
    } else {
        count_below(q.drop_last(), t) + if (q.last().stride as int) < t {
            1nat
        } else {
            0nat
        }
    }
}

proof fn lemma_count_below_append(a: Seq<TaskControlBlock>, b: Seq<TaskControlBlock>, t: int)
    ensures
        count_below(a + b, t) == count_below(a, t) + count_below(b, t),
    decreases b.len(),
{
    if b.len() > 0 {
        lemma_count_below_append(a, b.drop_last(), t);
        assert((a + b).drop_last() =~= a + b.drop_last());
    } else {
        assert(a + b =~= a);
    }
}

proof fn lemma_count_below_remove_push(q: Seq<TaskControlBlock>, i: int, x: TaskControlBlock, t: int)
    requires
        0 <= i < q.len(),
    ensures
        count_below(q.remove(i).push(x), t) + (if (q[i].stride as int) < t { 1int } else { 0int })
            == count_below(q, t) + (if (x.stride as int) < t { 1int } else { 0int }),
{
    let a = q.subrange(0, i);
    let b = q.subrange(i + 1, q.len() as int);
    assert(q =~= a + seq![q[i]] + b);
    assert(q.remove(i).push(x) =~= a + b + seq![x]);
    lemma_count_below_append(a + seq![q[i]], b, t);
    lemma_count_below_append(a, seq![q[i]], t);
    lemma_count_below_append(a + b, seq![x], t);
    lemma_count_below_append(a, b, t);
    assert(seq![q[i]].drop_last() =~= Seq::<TaskControlBlock>::empty());
    assert(seq![x].drop_last() =~= Seq::<TaskControlBlock>::empty());
}

proof fn lemma_count_below_witness(q: Seq<TaskControlBlock>, t: int)
    ensures
        count_below(q, t) > 0 ==> exists|k: int| 0 <= k < q.len() && (#[trigger] q[k].stride as int) < t,
        count_below(q, t) == 0 ==> forall|k: int| 0 <= k < q.len() ==> (#[trigger] q[k].stride as int) >= t,
    decreases q.len(),
{
    if q.len() > 0 {
        lemma_count_below_witness(q.drop_last(), t);
        let d = q.drop_last();
        assert forall|k: int| 0 <= k < d.len() implies d[k] == q[k] by {}
        if count_below(q, t) > 0 && count_below(d, t) > 0 {
            let k = choose|k: int| 0 <= k < d.len() && (#[trigger] d[k].stride as int) < t;
            assert(q[k] == d[k]);
        }
    }
}

/// One idle-loop iteration on a hart: the thread at `i`, the first of
/// smallest stride, is dispatched, and goes back to the end of the queue
/// with its stride advanced.
pub open spec fn dispatch_step(q: Seq<TaskControlBlock>, i: int, next: Seq<TaskControlBlock>) -> bool {
    &&& is_first_min(q, i)
    &&& next.len() == q.len()
    &&& next == q.remove(i).push(next.last())
    &&& next.last().same_thread(&q[i])
    &&& next.last().priority == q[i].priority
    &&& next.last().stride == next_stride(q[i].stride, q[i].priority)
}

/// One of the dispatches `picks` of the queues `qs` ran thread `t`.
pub open spec fn was_dispatched(qs: Seq<Seq<TaskControlBlock>>, picks: Seq<int>, t: TaskControlBlock) -> bool {
    exists|j: int| 0 <= j < picks.len() && #[trigger] qs[j][picks[j]].same_thread(&t)
}

/// Some queued thread is `t`.
pub open spec fn has_thread(q: Seq<TaskControlBlock>, t: TaskControlBlock) -> bool {
    exists|y: int| 0 <= y < q.len() && #[trigger] q[y].same_thread(&t)
}

/// The round invariant after `j` dispatches.
spec fn round_inv(qs: Seq<Seq<TaskControlBlock>>, picks: Seq<int>, m: int, pass: int, p: u64, j: int) -> bool {
    let k = qs[0].len() as int;
    let q = qs[j];
    &&& q.len() == k
    &&& forall|y: int|
        0 <= y < k ==> (#[trigger] q[y]).priority == p && m <= q[y].stride < m + 2 * pass
    &&& forall|y: int|
        0 <= y < k && (#[trigger] q[y]).stride >= m + pass ==> exists|jj: int|
            0 <= jj < j && #[trigger] qs[jj][picks[jj]].same_thread(&q[y])
    &&& count_below(q, m + pass) == k - j
    &&& forall|x: int| 0 <= x < k ==> has_thread(q, #[trigger] qs[0][x])
}

proof fn lemma_round_step(qs: Seq<Seq<TaskControlBlock>>, picks: Seq<int>, m: int, pass: int, p: u64, j: int)
    requires
        0 <= j < qs[0].len(),
        qs.len() == qs[0].len() + 1,
        picks.len() == qs[0].len(),
        pass == pass_of(p),
        pass > 0,
        m + 2 * pass <= u64::MAX,
        round_inv(qs, picks, m, pass, p, j),
        dispatch_step(qs[j], picks[j], qs[j + 1]),
    ensures
        round_inv(qs, picks, m, pass, p, j + 1),
{
    let k = qs[0].len() as int;
    let q = qs[j];
    let n = qs[j + 1];
    let i = picks[j];
    let t = m + pass;
    lemma_count_below_witness(q, t);
    let w = choose|w: int| 0 <= w < q.len() && (#[trigger] q[w].stride as int) < t;
    assert(q[i].stride <= q[w].stride);
    let x = n.last();
    assert(x.stride == q[i].stride + pass);
    lemma_count_below_remove_push(q, i, x, t);
    assert(n =~= q.remove(i).push(x));
    assert forall|y: int| 0 <= y < k implies (#[trigger] n[y]).priority == p && m <= n[y].stride < m + 2 * pass by {
        if y < k - 1 {
            let src = if y < i { y } else { y + 1 };
            assert(n[y] == q[src]);
        }
    }
    assert forall|y: int|
        0 <= y < k && (#[trigger] n[y]).stride >= t implies exists|jj: int|
        0 <= jj < j + 1 && #[trigger] qs[jj][picks[jj]].same_thread(&n[y]) by {
        if y == k - 1 {
            assert(qs[j][picks[j]].same_thread(&n[y]));
        } else {
            let src = if y < i { y } else { y + 1 };
            assert(n[y] == q[src]);
            let jj = choose|jj: int| 0 <= jj < j && #[trigger] qs[jj][picks[jj]].same_thread(&q[src]);
            assert(qs[jj][picks[jj]].same_thread(&n[y]));
        }
    }
    assert forall|xx: int| 0 <= xx < k implies has_thread(n, #[trigger] qs[0][xx]) by {
        assert(has_thread(q, qs[0][xx]));
        let y0 = choose|y: int| 0 <= y < q.len() && #[trigger] q[y].same_thread(&qs[0][xx]);
        if y0 == i {
            assert(n[k - 1].same_thread(&qs[0][xx]));
        } else {
            let dst = if y0 < i { y0 } else { y0 - 1 };
            assert(n[dst] == q[y0]);
            assert(n[dst].same_thread(&qs[0][xx]));
        }
    }
    assert(count_below(n, t) == k - (j + 1));
}

/// Stride fairness: when every queued thread has the same priority and
/// the strides lie within one pass of each other, as many idle-loop
/// iterations as there are queued threads dispatch every one of them.
pub proof fn lemma_stride_round_fair(qs: Seq<Seq<TaskControlBlock>>, picks: Seq<int>, m: u64, p: u64)
    requires
        qs.len() == qs[0].len() + 1,
        picks.len() == qs[0].len(),
        MIN_PRIORITY <= p <= BIG_STRIDE,
        m + 2 * pass_of(p) <= u64::MAX,
        forall|y: int|
            0 <= y < qs[0].len() ==> (#[trigger] qs[0][y]).priority == p && m <= qs[0][y].stride < m + pass_of(p),
        forall|j: int| 0 <= j < qs[0].len() ==> dispatch_step(#[trigger] qs[j], picks[j], qs[j + 1]),
    ensures
        forall|x: int| 0 <= x < qs[0].len() ==> was_dispatched(qs, picks, #[trigger] qs[0][x]),
{
    let k = qs[0].len() as int;
    let pass = pass_of(p) as int;
    assert(pass > 0) by {
        assert(BIG_STRIDE / p >= 1) by (nonlinear_arith)
            requires
                2 <= p <= BIG_STRIDE,
        ;
    }
    lemma_round_start(qs, picks, m as int, pass, p);
    lemma_round_upto(qs, picks, m as int, pass, p, k);
    lemma_round_end(qs, picks, m as int, pass, p);
}

proof fn lemma_round_start(qs: Seq<Seq<TaskControlBlock>>, picks: Seq<int>, m: int, pass: int, p: u64)
    requires
        qs.len() >= 1,
        forall|y: int|
            0 <= y < qs[0].len() ==> (#[trigger] qs[0][y]).priority == p && m <= qs[0][y].stride < m + pass,
    ensures
        round_inv(qs, picks, m, pass, p, 0),
{
    let k = qs[0].len() as int;
    lemma_count_below_all(qs[0], m + pass);
    assert forall|x: int| 0 <= x < k implies has_thread(qs[0], #[trigger] qs[0][x]) by {
        assert(qs[0][x].same_thread(&qs[0][x]));
    }
}

proof fn lemma_round_end(qs: Seq<Seq<TaskControlBlock>>, picks: Seq<int>, m: int, pass: int, p: u64)
    requires
        qs.len() == qs[0].len() + 1,
        picks.len() == qs[0].len(),
        round_inv(qs, picks, m, pass, p, qs[0].len() as int),
    ensures
        forall|x: int| 0 <= x < qs[0].len() ==> was_dispatched(qs, picks, #[trigger] qs[0][x]),
{
    let k = qs[0].len() as int;
    lemma_count_below_witness(qs[k], m + pass);
    assert forall|x: int| 0 <= x < k implies was_dispatched(qs, picks, #[trigger] qs[0][x]) by {
        assert(has_thread(qs[k], qs[0][x]));
        let y = choose|y: int| 0 <= y < qs[k].len() && #[trigger] qs[k][y].same_thread(&qs[0][x]);
        assert(qs[k][y].stride >= m + pass);
        let jj = choose|jj: int| 0 <= jj < k && #[trigger] qs[jj][picks[jj]].same_thread(&qs[k][y]);
        assert(qs[jj][picks[jj]].same_thread(&qs[0][x]));
    }
}

proof fn lemma_round_upto(qs: Seq<Seq<TaskControlBlock>>, picks: Seq<int>, m: int, pass: int, p: u64, j: int)
    requires
        0 <= j <= qs[0].len(),
        qs.len() == qs[0].len() + 1,
        picks.len() == qs[0].len(),
        pass == pass_of(p),
        pass > 0,
        m + 2 * pass <= u64::MAX,
        round_inv(qs, picks, m, pass, p, 0),
        forall|jj: int| 0 <= jj < qs[0].len() ==> dispatch_step(#[trigger] qs[jj], picks[jj], qs[jj + 1]),
    ensures
        round_inv(qs, picks, m, pass, p, j),
    decreases j,
{
    if j > 0 {
        lemma_round_upto(qs, picks, m, pass, p, j - 1);
        lemma_round_step(qs, picks, m, pass, p, j - 1);
    }
}

proof fn lemma_count_below_all(q: Seq<TaskControlBlock>, t: int)
    requires
        forall|y: int| 0 <= y < q.len() ==> (#[trigger] q[y].stride as int) < t,
    ensures
        count_below(q, t) == q.len(),
    decreases q.len(),
{
    if q.len() > 0 {
        let d = q.drop_last();
        assert forall|y: int| 0 <= y < d.len() implies (#[trigger] d[y].stride as int) < t by {
            assert(d[y] == q[y]);
        }
        lemma_count_below_all(d, t);
    }
}

} // verus!
