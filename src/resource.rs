//! Per-process accounting of one kind of synchronisation resource (mutexes
//! or semaphores): units available, units each thread holds, units each
//! thread waits for, and the FIFO of waiting threads of each resource.
use vstd::prelude::*;
use crate::banker::{
    column_total, full_mask, is_safe, is_safe_state, lemma_column_total_nonneg, lemma_entry_le_column_total,
    lemma_masked_sum_agree, lemma_masked_sum_update_row, lemma_masked_sum_zero_column, masked_sum,
    rows, totals_fit, well_shaped,
};

verus! {

/// Resource matrices of one kind of primitive.
pub struct ResourceTable {
    /// Units of each resource not held by any thread.
    pub available: Vec<usize>,
    /// `need[t][r]`: units of `r` that thread `t` waits for.
    pub need: Vec<Vec<usize>>,
    /// `allocated[t][r]`: units of `r` that thread `t` holds.
    pub allocated: Vec<Vec<usize>>,
    /// Units of each resource in circulation: available plus allocated.
    pub total: Vec<usize>,
    /// Units each resource was created with.
    pub capacity: Vec<usize>,
    /// `produced[t][r]`: units of `r` that thread `t` released without
    /// holding them (a producer); it holds `allocated - produced` units.
    pub produced: Vec<Vec<usize>>,
    /// Threads waiting for each resource, first to be served first.
    pub waiters: Vec<Vec<usize>>,
}

/// How a request for one unit was settled.
pub enum Grant {
    /// The unit was taken at once.
    Granted,
    /// The thread now waits in the resource's queue.
    Queued,
    /// Taking part in the wait would leave the process without a safe sequence.
    Refused,
}

/// How a release of one unit was settled.
pub enum Release {
    /// The unit went back to the pool.
    Returned,
    /// The unit went to the first waiting thread, which may run again.
    HandedTo(usize),
    /// The unit count cannot grow further.
    Saturated,
}

/// Row `t` of `m` with entry `r` replaced by `v`.
pub open spec fn with_entry(m: Seq<Seq<usize>>, t: int, r: int, v: usize) -> Seq<Seq<usize>> {
    m.update(t, m[t].update(r, v))
}

fn set_entry(m: &mut Vec<Vec<usize>>, t: usize, r: usize, v: usize)
    requires
        t < old(m)@.len(),
        r < rows(old(m)@)[t as int].len(),
    ensures
        final(m)@.len() == old(m)@.len(),
        rows(final(m)@) == with_entry(rows(old(m)@), t as int, r as int, v),
{
    let mut row = m[t].clone();
    row.set(r, v);
    m.set(t, row);
    proof {
        assert(rows(m@) =~= with_entry(rows(old(m)@), t as int, r as int, v));
    }
}

fn push_column(m: &mut Vec<Vec<usize>>)
    ensures
        final(m)@.len() == old(m)@.len(),
        forall|t: int| 0 <= t < old(m)@.len() ==> #[trigger] rows(final(m)@)[t] == rows(old(m)@)[t].push(0),
{
    let ghost start = rows(m@);
    let mut out: Vec<Vec<usize>> = Vec::new();
    let mut i: usize = 0;
    while i < m.len()
        invariant
            i <= m@.len(),
            start == rows(m@),
            out@.len() == i,
            forall|t: int| 0 <= t < i ==> #[trigger] out@[t]@ == start[t].push(0),
        decreases m@.len() - i,
    {
        let mut row = m[i].clone();
        row.push(0);
        out.push(row);
        i += 1;
    }
    *m = out;
}

fn copy_matrix(m: &Vec<Vec<usize>>) -> (c: Vec<Vec<usize>>)
    ensures
        c@.len() == m@.len(),
        rows(c@) == rows(m@),
{
    let mut out: Vec<Vec<usize>> = Vec::new();
    let mut i: usize = 0;
    while i < m.len()
        invariant
            i <= m@.len(),
            out@.len() == i,
            forall|t: int| 0 <= t < i ==> #[trigger] out@[t]@ == m@[t]@,
        decreases m@.len() - i,
    {
        out.push(m[i].clone());
        i += 1;
    }
    proof {
        assert(rows(out@) =~= rows(m@));
    }
    out
}

fn zero_row(width: usize) -> (r: Vec<usize>)
    ensures
        r@.len() == width,
        forall|i: int| 0 <= i < width ==> #[trigger] r@[i] == 0,
{
    let mut row: Vec<usize> = Vec::new();
    let mut i: usize = 0;
    while i < width
        invariant
            i <= width,
            row@.len() == i,
            forall|j: int| 0 <= j < i ==> #[trigger] row@[j] == 0,
        decreases width - i,
    {
        row.push(0);
        i += 1;
    }
    row
}

/// What `add_resource(count)` did: one more column, `count` units free,
/// nobody needing, holding or waiting for it; everything else as it was.
pub open spec fn add_resource_effect(pre: ResourceTable, post: ResourceTable, count: usize) -> bool {
    &&& post.threads() == pre.threads()
    &&& post.resources() == pre.resources() + 1
    &&& post.avail() == pre.avail().push(count)
    &&& post.total@ == pre.total@.push(count)
    &&& post.capacity@ == pre.capacity@.push(count)
    &&& forall|t: int| 0 <= t < pre.threads() ==> #[trigger] post.prod_m()[t] == pre.prod_m()[t].push(0)
    &&& forall|t: int| 0 <= t < pre.threads() ==> #[trigger] post.need_m()[t] == pre.need_m()[t].push(0)
    &&& forall|t: int| 0 <= t < pre.threads() ==> #[trigger] post.alloc_m()[t] == pre.alloc_m()[t].push(0)
    &&& forall|r: int| 0 <= r < pre.resources() ==> #[trigger] post.queue(r) == pre.queue(r)
    &&& post.queue(pre.resources() as int) == Seq::<usize>::empty()
}

/// What `request` did: refused and changed nothing when the wait would be
/// unsafe under detection; otherwise took the unit if one was free, and
/// queued the thread if none was.
pub open spec fn request_effect(pre: ResourceTable, post: ResourceTable, tid: usize, r: usize, detect: bool, g: Grant) -> bool {
    &&& post.threads() == pre.threads()
    &&& post.resources() == pre.resources()
    &&& post.total@ == pre.total@
    &&& post.capacity@ == pre.capacity@
    &&& post.prod_m() == pre.prod_m()
    &&& (detect && !is_safe(
                pre.avail(),
                with_entry(pre.need_m(), tid as int, r as int, 1),
                pre.alloc_m(),
            )) ==> g is Refused && post == pre
    &&& (!detect || is_safe(
                pre.avail(),
                with_entry(pre.need_m(), tid as int, r as int, 1),
                pre.alloc_m(),
            )) ==> {
                if pre.avail()[r as int] > 0 {
                    &&& g is Granted
                    &&& post.avail() == pre.avail().update(r as int, (pre.avail()[r as int] - 1) as usize)
                    &&& post.alloc_m() == with_entry(
                        pre.alloc_m(),
                        tid as int,
                        r as int,
                        (pre.alloc_m()[tid as int][r as int] + 1) as usize,
                    )
                    &&& post.need_m() == pre.need_m()
                    &&& post.waiters@ == pre.waiters@
                } else {
                    &&& g is Queued
                    &&& post.avail() == pre.avail()
                    &&& post.alloc_m() == pre.alloc_m()
                    &&& post.need_m() == with_entry(pre.need_m(), tid as int, r as int, 1)
                    &&& post.queue(r as int) == pre.queue(r as int).push(tid)
                    &&& forall|q: int| 0 <= q < pre.resources() && q != r ==> #[trigger] post.queue(q) == pre.queue(q)
                }
            }
}

/// What `release` did: a holder gives its unit back, a thread holding none
/// adds one; the unit goes to the first waiter, or to the pool.
pub open spec fn release_effect(pre: ResourceTable, post: ResourceTable, tid: usize, r: usize, out: Release) -> bool {
    &&& post.threads() == pre.threads()
    &&& post.resources() == pre.resources()
    &&& ({
                let held = pre.alloc_m()[tid as int][r as int];
                let q = pre.queue(r as int);
                let alloc1 = if held > 0 {
                    with_entry(pre.alloc_m(), tid as int, r as int, (held - 1) as usize)
                } else {
                    pre.alloc_m()
                };
                if held == 0 && pre.total@[r as int] == usize::MAX {
                    out is Saturated && post == pre
                } else {
                    &&& post.total@ == if held > 0 {
                        pre.total@
                    } else {
                        pre.total@.update(r as int, (pre.total@[r as int] + 1) as usize)
                    }
                    &&& post.capacity@ == pre.capacity@
                    &&& post.prod_m() == if held > 0 {
                        pre.prod_m()
                    } else {
                        with_entry(pre.prod_m(), tid as int, r as int, (pre.prod_m()[tid as int][r as int] + 1) as usize)
                    }
                    &&& post.held(tid as int, r as int) == pre.held(tid as int, r as int) - 1
                    &&& q.len() > 0 ==> post.held(q[0] as int, r as int) == pre.held(q[0] as int, r as int) + 1
                    &&& forall|x: int| 0 <= x < pre.resources() && x != r ==> #[trigger] post.queue(x) == pre.queue(x)
                    &&& if q.len() > 0 {
                        &&& out == Release::HandedTo(q[0])
                        &&& post.queue(r as int) == q.drop_first()
                        &&& post.avail() == pre.avail()
                        &&& post.alloc_m() == with_entry(alloc1, q[0] as int, r as int, (alloc1[q[0] as int][r as int] + 1) as usize)
                        &&& post.need_m() == with_entry(pre.need_m(), q[0] as int, r as int, 0)
                    } else {
                        &&& out is Returned
                        &&& post.queue(r as int) == q
                        &&& post.avail() == pre.avail().update(r as int, (pre.avail()[r as int] + 1) as usize)
                        &&& post.alloc_m() == alloc1
                        &&& post.need_m() == pre.need_m()
                    }
                }
            })
}

impl ResourceTable {
    pub open spec fn avail(&self) -> Seq<usize> {
        self.available@
    }

    pub open spec fn need_m(&self) -> Seq<Seq<usize>> {
        rows(self.need@)
    }

    pub open spec fn alloc_m(&self) -> Seq<Seq<usize>> {
        rows(self.allocated@)
    }

    /// The queue of resource `r`.
    pub open spec fn queue(&self, r: int) -> Seq<usize> {
        self.waiters@[r]@
    }

    /// Number of threads with a row.
    pub open spec fn threads(&self) -> nat {
        self.need@.len()
    }

    /// Number of resources.
    pub open spec fn resources(&self) -> nat {
        self.available@.len()
    }

    /// Thread `t` waits in some queue.
    pub open spec fn is_waiting(&self, t: usize) -> bool {
        exists|r: int| 0 <= r < self.resources() && #[trigger] self.queue(r).contains(t)
    }

    pub open spec fn prod_m(&self) -> Seq<Seq<usize>> {
        rows(self.produced@)
    }

    /// Units of `r` that thread `t` holds: taken minus released unheld.
    pub open spec fn held(&self, t: int, r: int) -> int {
        self.alloc_m()[t][r] - self.prod_m()[t][r]
    }

    /// Units of `r` held by the first `n` threads.
    pub open spec fn held_sum(&self, r: int, n: int) -> int
        decreases n,
    {
        if n <= 0 {
            0
        } else {
            self.held_sum(r, n - 1) + self.held(n - 1, r)
        }
    }

    /// Units in circulation are the available ones plus the allocated ones.
    pub open spec fn in_circulation(&self) -> bool {
        forall|r: int|
            0 <= r < self.resources() ==> #[trigger] self.avail()[r] + column_total(self.alloc_m(), r)
                == self.total@[r]
    }

    /// Units in circulation are the creation count plus what producers added.
    pub open spec fn produced_ok(&self) -> bool {
        &&& self.capacity@.len() == self.resources()
        &&& self.produced@.len() == self.threads()
        &&& forall|t: int| 0 <= t < self.threads() ==> #[trigger] self.prod_m()[t].len() == self.resources()
        &&& forall|r: int|
            0 <= r < self.resources() ==> #[trigger] self.total@[r] == self.capacity@[r] + column_total(
                self.prod_m(),
                r,
            )
    }

    /// For every resource, the units held by all threads plus the units
    /// available equal the count it was created with.
    pub open spec fn conserved(&self) -> bool {
        forall|r: int|
            0 <= r < self.resources() ==> #[trigger] self.avail()[r] + self.held_sum(r, self.threads() as int)
                == self.capacity@[r]
    }

    proof fn lemma_held_sum(&self, r: int, n: int)
        requires
            0 <= n <= self.threads(),
            self.alloc_m().len() == self.threads(),
            self.prod_m().len() == self.threads(),
        ensures
            self.held_sum(r, n) == masked_sum(self.alloc_m(), full_mask(self.threads() as int), r, n) - masked_sum(
                self.prod_m(),
                full_mask(self.threads() as int),
                r,
                n,
            ),
        decreases n,
    {
        if n > 0 {
            self.lemma_held_sum(r, n - 1);
        }
    }

    /// The counting invariants give conservation against the creation count.
    proof fn lemma_conserved(&self)
        requires
            self.in_circulation(),
            self.produced_ok(),
            self.alloc_m().len() == self.threads(),
        ensures
            self.conserved(),
    {
        assert forall|r: int| 0 <= r < self.resources() implies #[trigger] self.avail()[r] + self.held_sum(
            r,
            self.threads() as int,
        ) == self.capacity@[r] by {
            self.lemma_held_sum(r, self.threads() as int);
        }
    }

    pub open spec fn wf(&self) -> bool {
        &&& well_shaped(self.avail(), self.need_m(), self.alloc_m())
        &&& self.total@.len() == self.resources()
        &&& self.waiters@.len() == self.resources()
        &&& self.in_circulation()
        &&& self.produced_ok()
        &&& self.conserved()
        &&& forall|r: int| 0 <= r < self.resources() ==> #[trigger] self.queue(r).no_duplicates()
        &&& forall|r: int, i: int|
            0 <= r < self.resources() && 0 <= i < self.queue(r).len() ==> #[trigger] self.queue(r)[i]
                < self.threads()
        // a thread needs exactly the units it queues for
        &&& forall|t: usize, r: int|
            t < self.threads() && 0 <= r < self.resources() ==> #[trigger] self.need_m()[t as int][r]
                == if self.queue(r).contains(t) {
                1usize
            } else {
                0usize
            }
        // nobody waits for a resource that has units to give
        &&& forall|r: int|
            0 <= r < self.resources() && #[trigger] self.queue(r).len() > 0 ==> self.avail()[r] == 0
    }

    /// A table with no thread and no resource.
    pub fn new() -> (s: Self)
        ensures
            s.wf(),
            s.threads() == 0,
            s.resources() == 0,
    {
        ResourceTable {
            available: Vec::new(),
            need: Vec::new(),
            allocated: Vec::new(),
            total: Vec::new(),
            capacity: Vec::new(),
            produced: Vec::new(),
            waiters: Vec::new(),
        }
    }

    /// Gives a new thread an empty row; returns its index.
    pub fn add_thread(&mut self) -> (tid: usize)
        requires
            old(self).wf(),
            old(self).threads() < usize::MAX,
        ensures
            final(self).wf(),
            tid == old(self).threads(),
            final(self).threads() == old(self).threads() + 1,
            final(self).avail() == old(self).avail(),
            final(self).total@ == old(self).total@,
            final(self).waiters@ == old(self).waiters@,
            final(self).need_m() == old(self).need_m().push(Seq::new(old(self).resources(), |r: int| 0usize)),
            final(self).alloc_m() == old(self).alloc_m().push(Seq::new(old(self).resources(), |r: int| 0usize)),
            final(self).prod_m() == old(self).prod_m().push(Seq::new(old(self).resources(), |r: int| 0usize)),
            final(self).capacity@ == old(self).capacity@,
    {
        let ghost pre = *self;
        let tid = self.need.len();
        let width = self.available.len();
        self.need.push(zero_row(width));
        self.allocated.push(zero_row(width));
        self.produced.push(zero_row(width));
        proof {
            let zeros0 = Seq::new(pre.resources(), |r: int| 0usize);
            assert(self.produced@.last()@ =~= zeros0);
            assert(self.prod_m() =~= pre.prod_m().push(zeros0)) by {
                assert forall|i: int| 0 <= i < pre.threads() implies self.produced@[i] == pre.produced@[i] by {}
            }
            let n0 = pre.threads() as int;
            assert forall|r: int| 0 <= r < self.resources() implies #[trigger] self.total@[r] == self.capacity@[r]
                + column_total(self.prod_m(), r) by {
                lemma_masked_sum_agree(self.prod_m(), full_mask(n0 + 1), pre.prod_m(), full_mask(n0), r, n0);
            }
            assert(self.produced_ok());
            let zeros = Seq::new(pre.resources(), |r: int| 0usize);
            assert(self.need@.last()@ =~= zeros);
            assert(self.allocated@.last()@ =~= zeros);
            assert(self.need_m() =~= pre.need_m().push(zeros)) by {
                assert forall|i: int| 0 <= i < pre.threads() implies self.need@[i] == pre.need@[i] by {}
            }
            assert(self.alloc_m() =~= pre.alloc_m().push(zeros)) by {
                assert forall|i: int| 0 <= i < pre.threads() implies self.allocated@[i] == pre.allocated@[i] by {}
            }
            let n = pre.threads() as int;
            assert forall|r: int| 0 <= r < self.resources() implies #[trigger] self.avail()[r]
                + column_total(self.alloc_m(), r) == self.total@[r] by {
                lemma_masked_sum_agree(
                    self.alloc_m(),
                    full_mask(n + 1),
                    pre.alloc_m(),
                    full_mask(n),
                    r,
                    n,
                );
            }
            assert forall|t: usize, r: int|
                t < self.threads() && 0 <= r < self.resources() implies #[trigger] self.need_m()[t as int][r]
                == if self.queue(r).contains(t) {
                1usize
            } else {
                0usize
            } by {
                assert(self.queue(r) == pre.queue(r));
                if t == n {
                    if self.queue(r).contains(t) {
                        let i = choose|i: int| 0 <= i < self.queue(r).len() && self.queue(r)[i] == t;
                        assert(pre.queue(r)[i] < n);
                    }
                }
            }
            assert(well_shaped(self.avail(), self.need_m(), self.alloc_m()));
            assert(self.in_circulation());
            assert forall|r: int| 0 <= r < self.resources() implies #[trigger] self.queue(r).no_duplicates() by {
                assert(self.queue(r) == pre.queue(r));
            }
            assert forall|r: int, i: int|
                0 <= r < self.resources() && 0 <= i < self.queue(r).len() implies #[trigger] self.queue(r)[i]
                    < self.threads() by {
                assert(self.queue(r) == pre.queue(r));
                assert(pre.queue(r)[i] < pre.threads());
            }
            assert forall|r: int|
                0 <= r < self.resources() && #[trigger] self.queue(r).len() > 0 implies self.avail()[r] == 0 by {
                assert(self.queue(r) == pre.queue(r));
            }
            self.lemma_conserved();
        }
        tid
    }

    /// Creates a resource with `count` units; returns its index.
    pub fn add_resource(&mut self, count: usize) -> (id: usize)
        requires
            old(self).wf(),
        ensures
            final(self).wf(),
            id == old(self).resources(),
            add_resource_effect(*old(self), *final(self), count),
    {
        let ghost pre = *self;
        let id = self.available.len();
        self.available.push(count);
        self.total.push(count);
        self.capacity.push(count);
        self.waiters.push(Vec::new());
        push_column(&mut self.need);
        push_column(&mut self.allocated);
        push_column(&mut self.produced);
        proof {
            let n = pre.threads() as int;
            assert forall|r: int| 0 <= r < self.resources() implies #[trigger] self.total@[r] == self.capacity@[r]
                + column_total(self.prod_m(), r) by {
                if r < id {
                    lemma_masked_sum_agree(self.prod_m(), full_mask(n), pre.prod_m(), full_mask(n), r, n);
                } else {
                    lemma_masked_sum_zero_column(self.prod_m(), full_mask(n), r, n);
                }
            }
            assert forall|t: int| 0 <= t < self.threads() implies #[trigger] self.prod_m()[t].len() == self.resources() by {
                assert(self.prod_m()[t] == pre.prod_m()[t].push(0));
            }
            assert(self.produced_ok());
            assert forall|r: int| 0 <= r < self.resources() implies #[trigger] self.avail()[r]
                + column_total(self.alloc_m(), r) == self.total@[r] by {
                if r < id {
                    lemma_masked_sum_agree(self.alloc_m(), full_mask(n), pre.alloc_m(), full_mask(n), r, n);
                } else {
                    lemma_masked_sum_zero_column(self.alloc_m(), full_mask(n), r, n);
                }
            }
            assert forall|r: int| 0 <= r < self.resources() implies #[trigger] self.queue(r).no_duplicates() by {
                if r < id {
                    assert(self.queue(r) == pre.queue(r));
                }
            }
            assert forall|t: usize, r: int|
                t < self.threads() && 0 <= r < self.resources() implies #[trigger] self.need_m()[t as int][r]
                == if self.queue(r).contains(t) {
                1usize
            } else {
                0usize
            } by {
                if r < id {
                    assert(self.queue(r) == pre.queue(r));
                    assert(self.need_m()[t as int][r] == pre.need_m()[t as int][r]);
                } else {
                    assert(self.queue(r) =~= Seq::<usize>::empty());
                }
            }
            assert(well_shaped(self.avail(), self.need_m(), self.alloc_m()));
            assert forall|r: int, i: int|
                0 <= r < self.resources() && 0 <= i < self.queue(r).len() implies #[trigger] self.queue(r)[i]
                    < self.threads() by {
                assert(self.queue(r) == pre.queue(r));
                assert(pre.queue(r)[i] < pre.threads());
            }
            assert forall|r: int|
                0 <= r < self.resources() && #[trigger] self.queue(r).len() > 0 implies self.avail()[r] == 0 by {
                assert(self.queue(r) == pre.queue(r));
            }
            assert(self.in_circulation());
            self.lemma_conserved();
        }
        id
    }

    /// Whether the process stays safe if `tid` comes to wait for one more unit of `r`.
    fn safe_with_request(&self, tid: usize, r: usize) -> (ok: bool)
        requires
            self.wf(),
            tid < self.threads(),
            r < self.resources(),
        ensures
            ok == is_safe(self.avail(), with_entry(self.need_m(), tid as int, r as int, 1), self.alloc_m()),
    {
        let mut need = copy_matrix(&self.need);
        set_entry(&mut need, tid, r, 1);
        proof {
            assert forall|q: int| 0 <= q < self.resources() implies #[trigger] self.avail()[q]
                + column_total(self.alloc_m(), q) <= usize::MAX by {}
            assert(totals_fit(self.avail(), self.alloc_m()));
        }
        is_safe_state(&self.available, &need, &self.allocated)
    }

    /// Thread `tid` asks for one unit of `r`.  With `detect` set, the
    /// request is first refused if waiting for the unit could leave the
    /// process without a safe sequence.  Otherwise the unit is taken if
    /// there is one, and the thread joins the queue if not.
    pub fn request(&mut self, tid: usize, r: usize, detect: bool) -> (g: Grant)
        requires
            old(self).wf(),
            tid < old(self).threads(),
            r < old(self).resources(),
            !old(self).is_waiting(tid),
        ensures
            final(self).wf(),
            final(self).threads() == old(self).threads(),
            final(self).resources() == old(self).resources(),
            final(self).total@ == old(self).total@,
            request_effect(*old(self), *final(self), tid, r, detect, g),
    {
        if detect {
            let ok = self.safe_with_request(tid, r);
            if !ok {
                return Grant::Refused;
            }
        }
        let ghost pre = *self;
        if self.available[r] > 0 {
            proof {
                lemma_entry_le_column_total(pre.alloc_m(), tid as int, r as int);
            }
            let held = self.allocated[tid][r];
            set_entry(&mut self.allocated, tid, r, held + 1);
            self.available.set(r, self.available[r] - 1);
            proof {
                let n = pre.threads() as int;
                assert forall|q: int| 0 <= q < self.resources() implies #[trigger] self.avail()[q]
                    + column_total(self.alloc_m(), q) == self.total@[q] by {
                    lemma_masked_sum_update_row(
                        pre.alloc_m(),
                        tid as int,
                        pre.alloc_m()[tid as int].update(r as int, (held + 1) as usize),
                        full_mask(n),
                        q,
                        n,
                    );
                }
                assert(well_shaped(self.avail(), self.need_m(), self.alloc_m()));
                assert(self.in_circulation());
                assert forall|x: int| 0 <= x < self.resources() implies #[trigger] self.queue(x).no_duplicates() by {
                    assert(self.queue(x) == pre.queue(x));
                }
                assert forall|x: int, i: int|
                    0 <= x < self.resources() && 0 <= i < self.queue(x).len() implies #[trigger] self.queue(x)[i]
                        < self.threads() by {
                    assert(self.queue(x) == pre.queue(x));
                    assert(pre.queue(x)[i] < pre.threads());
                }
                assert forall|x: int|
                    0 <= x < self.resources() && #[trigger] self.queue(x).len() > 0 implies self.avail()[x] == 0 by {
                    assert(self.queue(x) == pre.queue(x));
                    assert(pre.queue(x).len() > 0);
                }
                assert forall|t: usize, x: int|
                    t < self.threads() && 0 <= x < self.resources() implies #[trigger] self.need_m()[t as int][x]
                    == if self.queue(x).contains(t) {
                    1usize
                } else {
                    0usize
                } by {
                    assert(self.queue(x) == pre.queue(x));
                    assert(self.need_m()[t as int][x] == pre.need_m()[t as int][x]);
                }
                assert(self.produced_ok());
                self.lemma_conserved();
            }
            Grant::Granted
        } else {
            set_entry(&mut self.need, tid, r, 1);
            let mut q = self.waiters[r].clone();
            q.push(tid);
            self.waiters.set(r, q);
            proof {
                assert(!pre.queue(r as int).contains(tid));
                assert(self.queue(r as int) =~= pre.queue(r as int).push(tid));
                assert forall|x: int| 0 <= x < self.resources() && x != r implies #[trigger] self.queue(x)
                    == pre.queue(x) by {}
                assert forall|x: int| 0 <= x < self.resources() implies #[trigger] self.queue(x).no_duplicates() by {
                    if x == r {
                        assert(pre.queue(x).no_duplicates());
                        assert forall|a: int, b: int|
                            0 <= a < self.queue(x).len() && 0 <= b < self.queue(x).len() && a != b
                            implies self.queue(x)[a] != self.queue(x)[b] by {
                            if a == pre.queue(x).len() {
                                assert(pre.queue(x).contains(self.queue(x)[b]));
                            } else if b == pre.queue(x).len() {
                                assert(pre.queue(x).contains(self.queue(x)[a]));
                            } else {
                                assert(self.queue(x)[a] == pre.queue(x)[a]);
                                assert(self.queue(x)[b] == pre.queue(x)[b]);
                            }
                        }
                    }
                }
                assert forall|t: usize, x: int|
                    t < self.threads() && 0 <= x < self.resources() implies #[trigger] self.need_m()[t as int][x]
                    == if self.queue(x).contains(t) {
                    1usize
                } else {
                    0usize
                } by {
                    if x == r {
                        if t == tid {
                            assert(self.queue(x)[pre.queue(x).len() as int] == tid);
                        } else {
                            if self.queue(x).contains(t) {
                                let i = choose|i: int| 0 <= i < self.queue(x).len() && self.queue(x)[i] == t;
                                assert(pre.queue(x)[i] == t);
                            }
                            if pre.queue(x).contains(t) {
                                let i = choose|i: int| 0 <= i < pre.queue(x).len() && pre.queue(x)[i] == t;
                                assert(self.queue(x)[i] == t);
                            }
                        }
                    }
                }
                assert(well_shaped(self.avail(), self.need_m(), self.alloc_m()));
                assert(self.produced_ok());
                self.lemma_conserved();
            }
            Grant::Queued
        }
    }

    /// Thread `tid` gives back one unit of `r`.  A thread that holds none
    /// adds a new unit instead (a producer), unless the count of units
    /// would overflow.  The unit goes to the first waiting thread if there
    /// is one, and back to the pool if not.
    pub fn release(&mut self, tid: usize, r: usize) -> (out: Release)
        requires
            old(self).wf(),
            tid < old(self).threads(),
            r < old(self).resources(),
            !old(self).is_waiting(tid),
        ensures
            final(self).wf(),
            final(self).threads() == old(self).threads(),
            final(self).resources() == old(self).resources(),
            release_effect(*old(self), *final(self), tid, r, out),
    {
        let ghost pre = *self;
        let ghost n = pre.threads() as int;
        proof {
            assert(self.allocated@[tid as int]@ == self.alloc_m()[tid as int]);
        }
        let held = self.allocated[tid][r];
        if held == 0 && self.total[r] == usize::MAX {
            return Release::Saturated;
        }
        proof {
            assert(pre.avail()[r as int] + column_total(pre.alloc_m(), r as int) == pre.total@[r as int]);
        }
        if held > 0 {
            set_entry(&mut self.allocated, tid, r, held - 1);
            proof {
                assert forall|x: int| 0 <= x < self.resources() implies #[trigger] self.avail()[x]
                    + column_total(self.alloc_m(), x) + (if x == r { 1int } else { 0int }) == self.total@[x] by {
                    lemma_masked_sum_update_row(
                        pre.alloc_m(),
                        tid as int,
                        pre.alloc_m()[tid as int].update(r as int, (held - 1) as usize),
                        full_mask(n),
                        x,
                        n,
                    );
                }
            }
        } else {
            proof {
                assert(self.produced@[tid as int]@ == self.prod_m()[tid as int]);
                assert(pre.total@[r as int] == pre.capacity@[r as int] + column_total(pre.prod_m(), r as int));
                lemma_entry_le_column_total(pre.prod_m(), tid as int, r as int);
            }
            let made = self.produced[tid][r];
            set_entry(&mut self.produced, tid, r, made + 1);
            self.total.set(r, self.total[r] + 1);
            proof {
                assert forall|x: int| 0 <= x < self.resources() implies #[trigger] self.total@[x] == self.capacity@[x]
                    + column_total(self.prod_m(), x) by {
                    assert(pre.total@[x] == pre.capacity@[x] + column_total(pre.prod_m(), x));
                    lemma_masked_sum_update_row(
                        pre.prod_m(),
                        tid as int,
                        pre.prod_m()[tid as int].update(r as int, (made + 1) as usize),
                        full_mask(n),
                        x,
                        n,
                    );
                }
                assert forall|t: int| 0 <= t < self.threads() implies #[trigger] self.prod_m()[t].len() == self.resources() by {
                    assert(pre.prod_m()[t].len() == pre.resources());
                }
            }
        }
        proof {
            assert(self.produced_ok());
        }
        let ghost mid = *self;
        proof {
            assert forall|x: int| 0 <= x < self.resources() implies #[trigger] self.avail()[x]
                + column_total(self.alloc_m(), x) + (if x == r { 1int } else { 0int }) == self.total@[x] by {}
        }
        if self.waiters[r].len() > 0 {
            let w = self.waiters[r][0];
            proof {
                assert(pre.queue(r as int)[0] < n);
                assert(pre.queue(r as int).contains(w));
                assert(w != tid);
                lemma_entry_le_column_total(mid.alloc_m(), w as int, r as int);
                assert(mid.avail()[r as int] + column_total(mid.alloc_m(), r as int) + 1 == mid.total@[r as int]);
                assert(self.allocated@[w as int]@ == mid.alloc_m()[w as int]);
            }
            let got = self.allocated[w][r];
            set_entry(&mut self.allocated, w, r, got + 1);
            set_entry(&mut self.need, w, r, 0);
            let mut q: Vec<usize> = Vec::new();
            let mut i: usize = 1;
            let len = self.waiters[r].len();
            while i < len
                invariant
                    1 <= i <= len,
                    r < self.waiters@.len(),
                    len == self.waiters@[r as int]@.len(),
                    q@ == self.waiters@[r as int]@.subrange(1, i as int),
                decreases len - i,
            {
                q.push(self.waiters[r][i]);
                i += 1;
                proof {
                    assert(q@ =~= self.waiters@[r as int]@.subrange(1, i as int));
                }
            }
            self.waiters.set(r, q);
            proof {
                let pq = pre.queue(r as int);
                assert(self.queue(r as int) =~= pq.drop_first());
                assert forall|x: int| 0 <= x < self.resources() implies #[trigger] self.avail()[x]
                    + column_total(self.alloc_m(), x) == self.total@[x] by {
                    assert(mid.avail()[x] + column_total(mid.alloc_m(), x) + (if x == r { 1int } else { 0int })
                        == mid.total@[x]);
                    lemma_masked_sum_update_row(
                        mid.alloc_m(),
                        w as int,
                        mid.alloc_m()[w as int].update(r as int, (got + 1) as usize),
                        full_mask(n),
                        x,
                        n,
                    );
                }
                assert(pq.no_duplicates());
                assert forall|x: int| 0 <= x < self.resources() implies #[trigger] self.queue(x).no_duplicates() by {
                    if x != r {
                        assert(self.queue(x) == pre.queue(x));
                    } else {
                        assert forall|a: int, b: int|
                            0 <= a < self.queue(x).len() && 0 <= b < self.queue(x).len() && a != b
                            implies self.queue(x)[a] != self.queue(x)[b] by {
                            assert(self.queue(x)[a] == pq[a + 1]);
                            assert(self.queue(x)[b] == pq[b + 1]);
                        }
                    }
                }
                assert forall|x: int, j: int|
                    0 <= x < self.resources() && 0 <= j < self.queue(x).len() implies #[trigger] self.queue(x)[j]
                        < self.threads() by {
                    if x != r {
                        assert(self.queue(x) == pre.queue(x));
                        assert(pre.queue(x)[j] < pre.threads());
                    } else {
                        assert(self.queue(x)[j] == pq[j + 1]);
                        assert(pq[j + 1] < pre.threads());
                    }
                }
                assert forall|x: int|
                    0 <= x < self.resources() && #[trigger] self.queue(x).len() > 0 implies self.avail()[x] == 0 by {
                    if x != r {
                        assert(self.queue(x) == pre.queue(x));
                    }
                    assert(pre.queue(x).len() > 0);
                }
                assert forall|t: usize, x: int|
                    t < self.threads() && 0 <= x < self.resources() implies #[trigger] self.need_m()[t as int][x]
                    == if self.queue(x).contains(t) {
                    1usize
                } else {
                    0usize
                } by {
                    assert(pre.need_m()[t as int][x] == if pre.queue(x).contains(t) { 1usize } else { 0usize });
                    if x != r {
                        assert(self.queue(x) == pre.queue(x));
                    } else if t == w {
                        if self.queue(x).contains(t) {
                            let j = choose|j: int| 0 <= j < self.queue(x).len() && self.queue(x)[j] == t;
                            assert(pq[j + 1] == pq[0]);
                        }
                    } else {
                        if self.queue(x).contains(t) {
                            let j = choose|j: int| 0 <= j < self.queue(x).len() && self.queue(x)[j] == t;
                            assert(pq[j + 1] == t);
                        }
                        if pq.contains(t) {
                            let j = choose|j: int| 0 <= j < pq.len() && pq[j] == t;
                            assert(j != 0);
                            assert(self.queue(x)[j - 1] == t);
                        }
                    }
                }
                assert(well_shaped(self.avail(), self.need_m(), self.alloc_m()));
                assert(self.produced_ok());
                self.lemma_conserved();
            }
            Release::HandedTo(w)
        } else {
            proof {
                lemma_column_total_nonneg(self.alloc_m(), r as int);
                assert(mid.avail()[r as int] + column_total(mid.alloc_m(), r as int) + 1 == mid.total@[r as int]);
            }
            self.available.set(r, self.available[r] + 1);
            proof {
                assert forall|x: int| 0 <= x < self.resources() implies #[trigger] self.queue(x).no_duplicates() by {
                    assert(self.queue(x) == pre.queue(x));
                }
                assert forall|x: int, j: int|
                    0 <= x < self.resources() && 0 <= j < self.queue(x).len() implies #[trigger] self.queue(x)[j]
                        < self.threads() by {
                    assert(self.queue(x) == pre.queue(x));
                    assert(pre.queue(x)[j] < pre.threads());
                }
                assert forall|x: int|
                    0 <= x < self.resources() && #[trigger] self.queue(x).len() > 0 implies self.avail()[x] == 0 by {
                    assert(self.queue(x) == pre.queue(x));
                    assert(pre.queue(x).len() > 0);
                }
                assert forall|t: usize, x: int|
                    t < self.threads() && 0 <= x < self.resources() implies #[trigger] self.need_m()[t as int][x]
                    == if self.queue(x).contains(t) {
                    1usize
                } else {
                    0usize
                } by {
                    assert(self.queue(x) == pre.queue(x));
                    assert(self.need_m()[t as int][x] == pre.need_m()[t as int][x]);
                }
                assert(well_shaped(self.avail(), self.need_m(), self.alloc_m()));
                assert forall|x: int| 0 <= x < self.resources() implies #[trigger] self.avail()[x]
                    + column_total(self.alloc_m(), x) == self.total@[x] by {
                    assert(mid.avail()[x] + column_total(mid.alloc_m(), x) + (if x == r { 1int } else { 0int })
                        == mid.total@[x]);
                }
                assert(self.produced_ok());
                self.lemma_conserved();
            }
            Release::Returned
        }
    }
}

} // verus!
