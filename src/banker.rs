//! Banker's-algorithm safety check over a process's resource matrices.
//!
//! A state is described by the vector `available[r]` and the two matrices
//! `need[t][r]` and `allocated[t][r]`, one row per thread.  The state is safe
//! when the threads can be finished one after the other, each one finding
//! its whole outstanding need covered by what is available plus what the
//! threads finished before it have handed back.
use vstd::prelude::*;

verus! {

/// The rows of a matrix held as a vector of vectors.
pub open spec fn rows(m: Seq<Vec<usize>>) -> Seq<Seq<usize>> {
    m.map_values(|row: Vec<usize>| row@)
}

/// Every row of `need` and `alloc` has one column per resource, and both
/// matrices have one row per thread.
pub open spec fn well_shaped(avail: Seq<usize>, need: Seq<Seq<usize>>, alloc: Seq<Seq<usize>>) -> bool {
    &&& need.len() == alloc.len()
    &&& forall|t: int| 0 <= t < need.len() ==> #[trigger] need[t].len() == avail.len()
    &&& forall|t: int| 0 <= t < alloc.len() ==> #[trigger] alloc[t].len() == avail.len()
}

/// Sum of column `r` of `alloc` over the first `n` rows whose `mask` entry is set.
pub open spec fn masked_sum(alloc: Seq<Seq<usize>>, mask: Seq<bool>, r: int, n: int) -> int
    decreases n,
{
    if n <= 0 {
        0
    } else {
        masked_sum(alloc, mask, r, n - 1) + if mask[n - 1] {
            alloc[n - 1][r] as int
        } else {
            0int
        }
    }
}

/// The mask that selects every row.
pub open spec fn full_mask(n: int) -> Seq<bool> {
    Seq::new(n as nat, |t: int| true)
}

/// Sum of column `r` over all rows.
pub open spec fn column_total(alloc: Seq<Seq<usize>>, r: int) -> int {
    masked_sum(alloc, full_mask(alloc.len() as int), r, alloc.len() as int)
}

/// What is at hand for resource `r` once the threads selected by `mask`
/// have finished and returned what they hold.
pub open spec fn work_of(avail: Seq<usize>, alloc: Seq<Seq<usize>>, mask: Seq<bool>, r: int) -> int {
    avail[r] + masked_sum(alloc, mask, r, alloc.len() as int)
}

/// The need row `row` is covered once the threads of `mask` have finished.
pub open spec fn covered(row: Seq<usize>, avail: Seq<usize>, alloc: Seq<Seq<usize>>, mask: Seq<bool>) -> bool {
    forall|r: int| 0 <= r < avail.len() ==> #[trigger] row[r] as int <= work_of(avail, alloc, mask, r)
}

/// The mask of the threads named in `order`.
pub open spec fn mask_of(order: Seq<int>, n: int) -> Seq<bool> {
    Seq::new(n as nat, |t: int| order.contains(t))
}

/// `order` names distinct threads, each of which can finish after those before it.
pub open spec fn finishes_in_order(
    avail: Seq<usize>,
    need: Seq<Seq<usize>>,
    alloc: Seq<Seq<usize>>,
    order: Seq<int>,
) -> bool {
    let n = need.len() as int;
    &&& order.no_duplicates()
    &&& forall|k: int| 0 <= k < order.len() ==> 0 <= #[trigger] order[k] < n
    &&& forall|k: int|
        0 <= k < order.len() ==> covered(
            need[#[trigger] order[k]],
            avail,
            alloc,
            mask_of(order.take(k), n),
        )
}

/// `order` is a safe sequence: it finishes every thread.
pub open spec fn is_safe_order(
    avail: Seq<usize>,
    need: Seq<Seq<usize>>,
    alloc: Seq<Seq<usize>>,
    order: Seq<int>,
) -> bool {
    &&& finishes_in_order(avail, need, alloc, order)
    &&& forall|t: int| 0 <= t < need.len() ==> #[trigger] order.contains(t)
}

/// The state admits a safe sequence.
pub open spec fn is_safe(avail: Seq<usize>, need: Seq<Seq<usize>>, alloc: Seq<Seq<usize>>) -> bool {
    exists|order: Seq<int>| is_safe_order(avail, need, alloc, order)
}

/// Sums over all threads fit in a machine word.
pub open spec fn totals_fit(avail: Seq<usize>, alloc: Seq<Seq<usize>>) -> bool {
    forall|r: int| 0 <= r < avail.len() ==> #[trigger] avail[r] + column_total(alloc, r) <= usize::MAX
}

/// Number of unset entries of `mask` among its first `n`.
pub open spec fn count_unset(mask: Seq<bool>, n: int) -> nat
    decreases n,
{
    if n <= 0 {
        0
    } else {
        count_unset(mask, n - 1) + if mask[n - 1] {
            0nat
        } else {
            1nat
        }
    }
}

proof fn lemma_masked_sum_mono(alloc: Seq<Seq<usize>>, m1: Seq<bool>, m2: Seq<bool>, r: int, n: int)
    requires
        n <= m1.len(),
        n <= m2.len(),
        forall|t: int| 0 <= t < n && #[trigger] m1[t] ==> m2[t],
    ensures
        masked_sum(alloc, m1, r, n) <= masked_sum(alloc, m2, r, n),
    decreases n,
{
    if n > 0 {
        lemma_masked_sum_mono(alloc, m1, m2, r, n - 1);
    }
}

proof fn lemma_masked_sum_set(alloc: Seq<Seq<usize>>, m: Seq<bool>, t: int, r: int, n: int)
    requires
        0 <= t < m.len(),
        n <= m.len(),
        !m[t],
    ensures
        masked_sum(alloc, m.update(t, true), r, n) == masked_sum(alloc, m, r, n) + if t < n {
            alloc[t][r] as int
        } else {
            0int
        },
    decreases n,
{
    if n > 0 {
        lemma_masked_sum_set(alloc, m, t, r, n - 1);
    }
}

proof fn lemma_count_unset_set(m: Seq<bool>, t: int, n: int)
    requires
        0 <= t < n <= m.len(),
        !m[t],
    ensures
        count_unset(m.update(t, true), n) + 1 == count_unset(m, n),
    decreases n,
{
    if n - 1 > t {
        lemma_count_unset_set(m, t, n - 1);
    } else {
        lemma_count_unset_same(m, m.update(t, true), n - 1);
    }
}

proof fn lemma_count_unset_same(m1: Seq<bool>, m2: Seq<bool>, n: int)
    requires
        n <= m1.len(),
        n <= m2.len(),
        forall|t: int| 0 <= t < n ==> m1[t] == m2[t],
    ensures
        count_unset(m1, n) == count_unset(m2, n),
    decreases n,
{
    if n > 0 {
        lemma_count_unset_same(m1, m2, n - 1);
    }
}

proof fn lemma_masked_sum_same(alloc: Seq<Seq<usize>>, m1: Seq<bool>, m2: Seq<bool>, r: int, n: int)
    requires
        n <= m1.len(),
        n <= m2.len(),
        forall|t: int| 0 <= t < n ==> m1[t] == m2[t],
    ensures
        masked_sum(alloc, m1, r, n) == masked_sum(alloc, m2, r, n),
    decreases n,
{
    if n > 0 {
        lemma_masked_sum_same(alloc, m1, m2, r, n - 1);
    }
}

/// A closed set of finished threads contains every thread of a safe sequence.
proof fn lemma_closed_contains_safe_order(
    avail: Seq<usize>,
    need: Seq<Seq<usize>>,
    alloc: Seq<Seq<usize>>,
    fin: Seq<bool>,
    order: Seq<int>,
)
    requires
        fin.len() == need.len(),
        need.len() == alloc.len(),
        finishes_in_order(avail, need, alloc, order),
        forall|t: int|
            0 <= t < need.len() && !fin[t] ==> !#[trigger] covered(need[t], avail, alloc, fin),
    ensures
        forall|k: int| 0 <= k < order.len() ==> fin[#[trigger] order[k]],
{
    let n = need.len() as int;
    assert forall|k: int| 0 <= k < order.len() implies fin[#[trigger] order[k]] by {
        lemma_order_prefix_finished(avail, need, alloc, fin, order, k);
    }
}

proof fn lemma_order_prefix_finished(
    avail: Seq<usize>,
    need: Seq<Seq<usize>>,
    alloc: Seq<Seq<usize>>,
    fin: Seq<bool>,
    order: Seq<int>,
    k: int,
)
    requires
        fin.len() == need.len(),
        need.len() == alloc.len(),
        finishes_in_order(avail, need, alloc, order),
        forall|t: int|
            0 <= t < need.len() && !fin[t] ==> !#[trigger] covered(need[t], avail, alloc, fin),
        0 <= k < order.len(),
    ensures
        fin[order[k]],
    decreases k,
{
    let n = need.len() as int;
    assert forall|j: int| 0 <= j < k implies fin[#[trigger] order[j]] by {
        lemma_order_prefix_finished(avail, need, alloc, fin, order, j);
    }
    let pm = mask_of(order.take(k), n);
    assert forall|t: int| 0 <= t < n && #[trigger] pm[t] implies fin[t] by {
        assert(order.take(k).contains(t));
        let j = choose|j: int| 0 <= j < k && order.take(k)[j] == t;
        assert(order[j] == t);
    }
    let t = order[k];
    assert(covered(need[t], avail, alloc, pm));
    assert forall|r: int| 0 <= r < avail.len() implies #[trigger] need[t][r] as int <= work_of(
        avail,
        alloc,
        fin,
        r,
    ) by {
        lemma_masked_sum_mono(alloc, pm, fin, r, n);
        assert(need[t][r] as int <= work_of(avail, alloc, pm, r));
    }
    assert(covered(need[t], avail, alloc, fin));
}

/// Whether `need[t]` is covered by `work`, entry by entry.
fn row_covered(need_row: &Vec<usize>, work: &Vec<usize>) -> (r: bool)
    requires
        need_row@.len() == work@.len(),
    ensures
        r == (forall|i: int| 0 <= i < work@.len() ==> #[trigger] need_row@[i] <= work@[i]),
{
    let mut i: usize = 0;
    while i < work.len()
        invariant
            i <= work@.len(),
            need_row@.len() == work@.len(),
            forall|j: int| 0 <= j < i ==> #[trigger] need_row@[j] <= work@[j],
        decreases work@.len() - i,
    {
        if need_row[i] > work[i] {
            return false;
        }
        i += 1;
    }
    true
}

/// Runs the Banker's safety check: starting from `available`, repeatedly
/// finishes any thread whose whole need is covered and takes back what it
/// holds, until no thread can progress.  Returns whether every thread finished.
pub fn is_safe_state(available: &Vec<usize>, need: &Vec<Vec<usize>>, allocated: &Vec<Vec<usize>>) -> (r: bool)
    requires
        well_shaped(available@, rows(need@), rows(allocated@)),
        totals_fit(available@, rows(allocated@)),
    ensures
        r == is_safe(available@, rows(need@), rows(allocated@)),
{
    let ghost av = available@;
    let ghost nd = rows(need@);
    let ghost al = rows(allocated@);
    let n = need.len();
    let m = available.len();
    let mut finished: Vec<bool> = Vec::new();
    let mut i: usize = 0;
    while i < n
        invariant
            i <= n,
            finished@.len() == i,
            forall|t: int| 0 <= t < i ==> !#[trigger] finished@[t],
        decreases n - i,
    {
        finished.push(false);
        i += 1;
    }
    let mut work = available.clone();
    let ghost mut order: Seq<int> = Seq::empty();
    proof {
        assert forall|t: int| 0 <= t < n implies finished@[t] == mask_of(order, n as int)[t] by {}
        assert forall|r: int| 0 <= r < m implies #[trigger] work@[r] == work_of(av, al, finished@, r) by {
            lemma_masked_sum_mono(al, finished@, Seq::new(n as nat, |t: int| false), r, n as int);
            lemma_masked_sum_zero(al, finished@, r, n as int);
        }
    }
    loop
        invariant
            n == nd.len(),
            m == av.len(),
            av == available@,
            nd == rows(need@),
            al == rows(allocated@),
            well_shaped(av, nd, al),
            totals_fit(av, al),
            finished@.len() == n,
            work@.len() == m,
            forall|r: int| 0 <= r < m ==> #[trigger] work@[r] == work_of(av, al, finished@, r),
            finishes_in_order(av, nd, al, order),
            forall|t: int| 0 <= t < n ==> finished@[t] == #[trigger] order.contains(t),
        ensures
            finished@.len() == n,
            finishes_in_order(av, nd, al, order),
            forall|t: int| 0 <= t < n ==> finished@[t] == #[trigger] order.contains(t),
            forall|u: int| 0 <= u < n && !finished@[u] ==> !#[trigger] covered(nd[u], av, al, finished@),
        decreases count_unset(finished@, n as int),
    {
        let ghost start_unset = count_unset(finished@, n as int);
        let mut updateable = false;
        let mut t: usize = 0;
        while t < n
            invariant
                n == nd.len(),
                m == av.len(),
                av == available@,
                nd == rows(need@),
                al == rows(allocated@),
                well_shaped(av, nd, al),
                totals_fit(av, al),
                t <= n,
                finished@.len() == n,
                work@.len() == m,
                forall|r: int| 0 <= r < m ==> #[trigger] work@[r] == work_of(av, al, finished@, r),
                finishes_in_order(av, nd, al, order),
                forall|u: int| 0 <= u < n ==> finished@[u] == #[trigger] order.contains(u),
                updateable ==> count_unset(finished@, n as int) < start_unset,
                !updateable ==> count_unset(finished@, n as int) == start_unset,
                !updateable ==> forall|u: int|
                    0 <= u < t && !finished@[u] ==> !#[trigger] covered(nd[u], av, al, finished@),
            decreases n - t,
        {
            if !finished[t] {
                proof {
                    assert(need@[t as int]@ == nd[t as int]);
                }
                let can_finish = row_covered(&need[t], &work);
                if can_finish {
                    let ghost old_fin = finished@;
                    proof {
                        assert(covered(nd[t as int], av, al, mask_of(order, n as int))) by {
                            assert forall|r: int| 0 <= r < m implies #[trigger] nd[t as int][r] as int
                                <= work_of(av, al, mask_of(order, n as int), r) by {
                                lemma_masked_sum_same(al, finished@, mask_of(order, n as int), r, n as int);
                            }
                        }
                        lemma_count_unset_set(old_fin, t as int, n as int);
                    }
                    finished.set(t, true);
                    let mut r: usize = 0;
                    while r < m
                        invariant
                            n == nd.len(),
                            m == av.len(),
                            al == rows(allocated@),
                            well_shaped(av, nd, al),
                            totals_fit(av, al),
                            t < n,
                            r <= m,
                            work@.len() == m,
                            !old_fin[t as int],
                            old_fin.len() == n,
                            finished@ == old_fin.update(t as int, true),
                            forall|q: int| 0 <= q < r ==> #[trigger] work@[q] == work_of(av, al, finished@, q),
                            forall|q: int| r <= q < m ==> #[trigger] work@[q] == work_of(av, al, old_fin, q),
                        decreases m - r,
                    {
                        proof {
                            lemma_masked_sum_set(al, old_fin, t as int, r as int, n as int);
                            lemma_masked_sum_mono(al, finished@, full_mask(n as int), r as int, n as int);
                            assert(allocated@[t as int]@ == al[t as int]);
                        }
                        work.set(r, work[r] + allocated[t][r]);
                        r += 1;
                    }
                    proof {
                        let k = order.len() as int;
                        let new_order = order.push(t as int);
                        assert(new_order.take(k) =~= order);
                        assert forall|a: int, b: int|
                            0 <= a < new_order.len() && 0 <= b < new_order.len() && a != b
                            implies new_order[a] != new_order[b] by {
                            if a == k {
                                assert(order.contains(new_order[b]));
                            } else if b == k {
                                assert(order.contains(new_order[a]));
                            }
                        }
                        assert forall|j: int| 0 <= j < new_order.len() implies covered(
                            nd[#[trigger] new_order[j]],
                            av,
                            al,
                            mask_of(new_order.take(j), n as int),
                        ) by {
                            if j < k {
                                assert(new_order.take(j) =~= order.take(j));
                            }
                        }
                        assert forall|u: int| 0 <= u < n implies finished@[u] == #[trigger] new_order.contains(u) by {
                            if u == t {
                                assert(new_order[k] == u);
                            } else if order.contains(u) {
                                let j = choose|j: int| 0 <= j < order.len() && order[j] == u;
                                assert(new_order[j] == u);
                            } else if new_order.contains(u) {
                                let j = choose|j: int| 0 <= j < new_order.len() && new_order[j] == u;
                                assert(order[j] == u);
                            }
                        }
                        order = new_order;
                    }
                    updateable = true;
                }
            }
            t += 1;
        }
        if !updateable {
            break;
        }
    }
    let mut all = true;
    let mut t: usize = 0;
    while t < n
        invariant
            t <= n,
            finished@.len() == n,
            all == (forall|u: int| 0 <= u < t ==> #[trigger] finished@[u]),
        decreases n - t,
    {
        if !finished[t] {
            all = false;
        }
        t += 1;
    }
    proof {
        if all {
            assert(is_safe_order(av, nd, al, order));
        } else {
            if is_safe(av, nd, al) {
                let o = choose|o: Seq<int>| is_safe_order(av, nd, al, o);
                lemma_closed_contains_safe_order(av, nd, al, finished@, o);
                let u = choose|u: int| 0 <= u < n && !finished@[u];
                assert(o.contains(u));
            }
        }
    }
    all
}

proof fn lemma_masked_sum_zero(alloc: Seq<Seq<usize>>, m: Seq<bool>, r: int, n: int)
    requires
        n <= m.len(),
        forall|t: int| 0 <= t < n ==> !m[t],
    ensures
        masked_sum(alloc, m, r, n) == 0,
    decreases n,
{
    if n > 0 {
        lemma_masked_sum_zero(alloc, m, r, n - 1);
    }
}


/// Sums agree where masks agree and the selected entries agree.
pub proof fn lemma_masked_sum_agree(
    a1: Seq<Seq<usize>>,
    m1: Seq<bool>,
    a2: Seq<Seq<usize>>,
    m2: Seq<bool>,
    r: int,
    n: int,
)
    requires
        n <= m1.len(),
        n <= m2.len(),
        forall|t: int| 0 <= t < n ==> #[trigger] m1[t] == m2[t],
        forall|t: int| 0 <= t < n && #[trigger] m1[t] ==> a1[t][r] == a2[t][r],
    ensures
        masked_sum(a1, m1, r, n) == masked_sum(a2, m2, r, n),
    decreases n,
{
    if n > 0 {
        lemma_masked_sum_agree(a1, m1, a2, m2, r, n - 1);
    }
}

/// A column whose selected entries are all zero sums to zero.
pub proof fn lemma_masked_sum_zero_column(alloc: Seq<Seq<usize>>, m: Seq<bool>, r: int, n: int)
    requires
        n <= m.len(),
        forall|t: int| 0 <= t < n && #[trigger] m[t] ==> alloc[t][r] == 0,
    ensures
        masked_sum(alloc, m, r, n) == 0,
    decreases n,
{
    if n > 0 {
        lemma_masked_sum_zero_column(alloc, m, r, n - 1);
    }
}

/// Replacing row `t` moves the sum by the change of its entry in column `r`.
pub proof fn lemma_masked_sum_update_row(
    alloc: Seq<Seq<usize>>,
    t: int,
    row: Seq<usize>,
    m: Seq<bool>,
    r: int,
    n: int,
)
    requires
        0 <= t < alloc.len(),
        n <= m.len(),
        n <= alloc.len(),
    ensures
        masked_sum(alloc.update(t, row), m, r, n) == masked_sum(alloc, m, r, n) + if t < n && m[t] {
            row[r] - alloc[t][r]
        } else {
            0int
        },
    decreases n,
{
    if n > 0 {
        lemma_masked_sum_update_row(alloc, t, row, m, r, n - 1);
    }
}

/// One entry of a column is at most the column's total.
pub proof fn lemma_entry_le_column_total(alloc: Seq<Seq<usize>>, t: int, r: int)
    requires
        0 <= t < alloc.len(),
    ensures
        alloc[t][r] as int <= column_total(alloc, r),
{
    let n = alloc.len() as int;
    let single = Seq::new(n as nat, |u: int| u == t);
    lemma_masked_sum_mono(alloc, single, full_mask(n), r, n);
    lemma_masked_sum_single(alloc, single, t, r, n);
}

proof fn lemma_masked_sum_single(alloc: Seq<Seq<usize>>, m: Seq<bool>, t: int, r: int, n: int)
    requires
        0 <= t < n <= m.len(),
        forall|u: int| 0 <= u < m.len() ==> #[trigger] m[u] == (u == t),
    ensures
        masked_sum(alloc, m, r, n) == alloc[t][r],
    decreases n,
{
    if n - 1 > t {
        lemma_masked_sum_single(alloc, m, t, r, n - 1);
    } else {
        lemma_masked_sum_zero_column(alloc, m, r, n - 1);
    }
}

/// Column totals are never negative.
pub proof fn lemma_column_total_nonneg(alloc: Seq<Seq<usize>>, r: int)
    ensures
        column_total(alloc, r) >= 0,
{
    let n = alloc.len() as int;
    let none = Seq::new(n as nat, |t: int| false);
    lemma_masked_sum_mono(alloc, none, full_mask(n), r, n);
    lemma_masked_sum_zero(alloc, none, r, n);
}

/// A state is unsafe when some thread is left out of a set of threads
/// such that no thread outside the set can finish even after every thread
/// in it has finished.
pub proof fn lemma_stuck_is_unsafe(
    avail: Seq<usize>,
    need: Seq<Seq<usize>>,
    alloc: Seq<Seq<usize>>,
    fin: Seq<bool>,
    t: int,
)
    requires
        fin.len() == need.len(),
        need.len() == alloc.len(),
        0 <= t < need.len(),
        !fin[t],
        forall|u: int| 0 <= u < need.len() && !fin[u] ==> !#[trigger] covered(need[u], avail, alloc, fin),
    ensures
        !is_safe(avail, need, alloc),
{
    if is_safe(avail, need, alloc) {
        let o = choose|o: Seq<int>| is_safe_order(avail, need, alloc, o);
        lemma_closed_contains_safe_order(avail, need, alloc, fin, o);
        assert(o.contains(t));
    }
}

} // verus!
