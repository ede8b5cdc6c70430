//! Banker-style deadlock detection over one class of resources.
use vstd::prelude::*;

verus! {

/// Sum of column `j` of `rows` over the rows named by `order`.
pub open spec fn col_sum(rows: Seq<Seq<u32>>, order: Seq<int>, j: int) -> int
    decreases order.len(),
{
    if order.len() == 0 {
        0
    } else {
        col_sum(rows, order.drop_last(), j) + rows[order.last()][j] as int
    }
}

/// The resources free once the threads in `order` have finished and released
/// what they hold.
pub open spec fn work_after(
    available: Seq<u32>,
    allocation: Seq<Seq<u32>>,
    order: Seq<int>,
    j: int,
) -> int {
    available[j] as int + col_sum(allocation, order, j)
}

/// Thread `i` can run to completion with `work` free.
pub open spec fn can_finish(need: Seq<Seq<u32>>, i: int, work: Seq<int>) -> bool {
    forall|j: int| 0 <= j < work.len() ==> (#[trigger] need[i][j]) as int <= work[j]
}

/// What is free after the threads in `order` have finished.
pub open spec fn work_seq(available: Seq<u32>, allocation: Seq<Seq<u32>>, order: Seq<int>) -> Seq<int> {
    Seq::new(available.len(), |j: int| work_after(available, allocation, order, j))
}

/// `order` lists distinct threads, each of which can finish with what is free
/// once the threads before it have finished and released what they hold.
pub open spec fn is_finishing_order(
    available: Seq<u32>,
    allocation: Seq<Seq<u32>>,
    need: Seq<Seq<u32>>,
    order: Seq<int>,
) -> bool {
    &&& order.no_duplicates()
    &&& forall|k: int| 0 <= k < order.len() ==> 0 <= #[trigger] order[k] < allocation.len()
    &&& forall|k: int|
        0 <= k < order.len() ==> can_finish(
            need,
            #[trigger] order[k],
            work_seq(available, allocation, order.take(k)),
        )
}

/// The state is safe: some finishing order lets every thread complete.
pub open spec fn safe_state(
    available: Seq<u32>,
    allocation: Seq<Seq<u32>>,
    need: Seq<Seq<u32>>,
) -> bool {
    exists|order: Seq<int>|
        #![trigger is_finishing_order(available, allocation, need, order)]
        is_finishing_order(available, allocation, need, order) && forall|i: int|
            0 <= i < allocation.len() ==> #[trigger] order.contains(i)
}

/// Deadlock detector state for one resource class.
pub struct DeadLockDetect {
    /// Available resources
    pub available: Vec<u32>,
    /// Allocated resources, one row per thread
    pub allocation: Vec<Vec<u32>>,
    /// Needed resources, one row per thread
    pub need: Vec<Vec<u32>>,
}

impl DeadLockDetect {
    /// One row per thread, one column per resource.
    pub open spec fn wf(&self) -> bool {
        &&& self.allocation@.len() == self.need@.len()
        &&& self.allocation@.len() <= u32::MAX
        &&& forall|i: int|
            0 <= i < self.allocation@.len() ==> (#[trigger] self.allocation@[i])@.len()
                == self.available@.len()
        &&& forall|i: int|
            0 <= i < self.need@.len() ==> (#[trigger] self.need@[i])@.len()
                == self.available@.len()
    }

    /// Allocation matrix as plain rows.
    pub open spec fn alloc_rows(&self) -> Seq<Seq<u32>> {
        self.allocation@.map_values(|r: Vec<u32>| r@)
    }

    /// Need matrix as plain rows.
    pub open spec fn need_rows(&self) -> Seq<Seq<u32>> {
        self.need@.map_values(|r: Vec<u32>| r@)
    }

    pub open spec fn threads(&self) -> int {
        self.allocation@.len() as int
    }

    pub open spec fn resources(&self) -> int {
        self.available@.len() as int
    }

    /// Units of resource `r`: those free plus those held by some thread.
    pub open spec fn total(&self, r: int) -> int {
        self.available@[r] as int + col_total(self.alloc_rows(), self.threads(), r)
    }

    /// What is free after the threads in `order` have finished.
    pub open spec fn work_seq(&self, order: Seq<int>) -> Seq<int> {
        work_seq(self.available@, self.alloc_rows(), order)
    }

    /// `order` is a finishing order of this state.
    pub open spec fn is_finishing_order(&self, order: Seq<int>) -> bool {
        is_finishing_order(self.available@, self.alloc_rows(), self.need_rows(), order)
    }

    /// The state is safe: some finishing order lets every thread complete.
    pub open spec fn is_safe(&self) -> bool {
        safe_state(self.available@, self.alloc_rows(), self.need_rows())
    }
}


/// Sum of column `j` over the first `k` rows.
pub open spec fn col_total(rows: Seq<Seq<u32>>, k: int, j: int) -> int
    decreases k,
{
    if k <= 0 {
        0
    } else {
        col_total(rows, k - 1, j) + rows[k - 1][j] as int
    }
}

proof fn lemma_col_total_same(rows1: Seq<Seq<u32>>, rows2: Seq<Seq<u32>>, k: int, j: int)
    requires
        forall|i: int| 0 <= i < k ==> (#[trigger] rows1[i])[j] == rows2[i][j],
    ensures
        col_total(rows1, k, j) == col_total(rows2, k, j),
    decreases k,
{
    if k > 0 {
        lemma_col_total_same(rows1, rows2, k - 1, j);
    }
}

proof fn lemma_col_total_update(rows: Seq<Seq<u32>>, t: int, row: Seq<u32>, k: int, j: int)
    requires
        0 <= t < k <= rows.len(),
    ensures
        col_total(rows.update(t, row), k, j) == col_total(rows, k, j) + row[j] as int
            - rows[t][j] as int,
    decreases k,
{
    if t < k - 1 {
        lemma_col_total_update(rows, t, row, k - 1, j);
    } else {
        assert forall|i: int| 0 <= i < k - 1 implies (#[trigger] rows.update(t, row)[i])[j]
            == rows[i][j] by {}
        lemma_col_total_same(rows.update(t, row), rows, k - 1, j);
    }
}

proof fn lemma_col_total_zero(rows: Seq<Seq<u32>>, k: int, j: int)
    requires
        forall|i: int| 0 <= i < k ==> (#[trigger] rows[i])[j] == 0u32,
    ensures
        col_total(rows, k, j) == 0,
    decreases k,
{
    if k > 0 {
        lemma_col_total_zero(rows, k - 1, j);
    }
}

/// Number of threads not yet marked finished.
pub open spec fn count_false(s: Seq<bool>) -> nat
    decreases s.len(),
{
    if s.len() == 0 {
        0
    } else {
        count_false(s.drop_last()) + if s.last() {
            0nat
        } else {
            1nat
        }
    }
}

proof fn lemma_count_false_set(s: Seq<bool>, i: int)
    requires
        0 <= i < s.len(),
        !s[i],
    ensures
        count_false(s.update(i, true)) + 1 == count_false(s),
    decreases s.len(),
{
    if i == s.len() - 1 {
        assert(s.update(i, true).drop_last() =~= s.drop_last());
    } else {
        lemma_count_false_set(s.drop_last(), i);
        assert(s.update(i, true).drop_last() =~= s.drop_last().update(i, true));
    }
}

proof fn lemma_count_false_bound(s: Seq<bool>)
    ensures
        count_false(s) <= s.len(),
    decreases s.len(),
{
    if s.len() > 0 {
        lemma_count_false_bound(s.drop_last());
    }
}

proof fn lemma_count_false_n(s: Seq<bool>)
    requires
        forall|i: int| 0 <= i < s.len() ==> !(#[trigger] s[i]),
    ensures
        count_false(s) == s.len(),
    decreases s.len(),
{
    if s.len() > 0 {
        lemma_count_false_n(s.drop_last());
    }
}

proof fn lemma_col_sum_bounds(rows: Seq<Seq<u32>>, order: Seq<int>, j: int)
    ensures
        0 <= col_sum(rows, order, j) <= order.len() * 0xffff_ffff,
    decreases order.len(),
{
    if order.len() > 0 {
        lemma_col_sum_bounds(rows, order.drop_last(), j);
    }
}

proof fn lemma_col_sum_remove(rows: Seq<Seq<u32>>, b: Seq<int>, p: int, j: int)
    requires
        0 <= p < b.len(),
    ensures
        col_sum(rows, b, j) == col_sum(rows, b.remove(p), j) + rows[b[p]][j] as int,
    decreases b.len(),
{
    if p == b.len() - 1 {
        assert(b.remove(p) =~= b.drop_last());
    } else {
        lemma_col_sum_remove(rows, b.drop_last(), p, j);
        assert(b.remove(p).drop_last() =~= b.drop_last().remove(p));
        assert(b.remove(p).last() == b.last());
    }
}

/// A column sum over distinct threads, all of them in `b`, is at most the sum over `b`.
proof fn lemma_col_sum_subset(rows: Seq<Seq<u32>>, a: Seq<int>, b: Seq<int>, j: int)
    requires
        a.no_duplicates(),
        b.no_duplicates(),
        forall|k: int| 0 <= k < a.len() ==> b.contains(#[trigger] a[k]),
    ensures
        col_sum(rows, a, j) <= col_sum(rows, b, j),
    decreases a.len(),
{
    lemma_col_sum_bounds(rows, b, j);
    if a.len() > 0 {
        let x = a.last();
        assert(b.contains(a[a.len() - 1]));
        let p = choose|p: int| 0 <= p < b.len() && b[p] == x;
        let b2 = b.remove(p);
        let a2 = a.drop_last();
        assert forall|k: int| 0 <= k < a2.len() implies b2.contains(#[trigger] a2[k]) by {
            assert(a[k] == a2[k]);
            assert(b.contains(a[k]));
            let q = choose|q: int| 0 <= q < b.len() && b[q] == a[k];
            assert(q != p);
            if q < p {
                assert(b2[q] == a2[k]);
            } else {
                assert(b2[q - 1] == a2[k]);
            }
        }
        assert forall|u: int, v: int| 0 <= u < b2.len() && 0 <= v < b2.len() && u != v
            implies b2[u] != b2[v] by {
            let u2 = if u < p { u } else { u + 1 };
            let v2 = if v < p { v } else { v + 1 };
            assert(b2[u] == b[u2] && b2[v] == b[v2]);
        }
        assert forall|u: int, v: int| 0 <= u < a2.len() && 0 <= v < a2.len() && u != v
            implies a2[u] != a2[v] by {
            assert(a2[u] == a[u] && a2[v] == a[v]);
        }
        lemma_col_sum_subset(rows, a2, b2, j);
        lemma_col_sum_remove(rows, b, p, j);
    }
}

/// Every thread of `s` before position `k` is already in `order`, when the
/// threads outside `order` cannot finish with what `order` frees.
proof fn lemma_prefix_in_order(
    available: Seq<u32>,
    allocation: Seq<Seq<u32>>,
    need: Seq<Seq<u32>>,
    order: Seq<int>,
    s: Seq<int>,
    k: int,
)
    requires
        is_finishing_order(available, allocation, need, order),
        is_finishing_order(available, allocation, need, s),
        0 <= k <= s.len(),
        forall|i: int|
            0 <= i < allocation.len() ==> order.contains(i) || !can_finish(
                need,
                i,
                work_seq(available, allocation, order),
            ),
    ensures
        forall|k2: int| 0 <= k2 < k ==> order.contains(#[trigger] s[k2]),
    decreases k,
{
    if k > 0 {
        lemma_prefix_in_order(available, allocation, need, order, s, k - 1);
        let pre = s.take(k - 1);
        assert forall|u: int, v: int| 0 <= u < pre.len() && 0 <= v < pre.len() && u != v
            implies pre[u] != pre[v] by {
            assert(pre[u] == s[u] && pre[v] == s[v]);
        }
        assert forall|t: int| 0 <= t < pre.len() implies order.contains(#[trigger] pre[t]) by {
            assert(pre[t] == s[t]);
        }
        let x = s[k - 1];
        assert(can_finish(need, x, work_seq(available, allocation, s.take(k - 1))));
        assert forall|j: int| 0 <= j < work_seq(available, allocation, order).len() implies (
        #[trigger] need[x][j]) as int <= work_seq(available, allocation, order)[j] by {
            lemma_col_sum_subset(allocation, pre, order, j);
            assert(need[x][j] as int <= work_seq(available, allocation, pre)[j]);
        }
        assert(can_finish(need, x, work_seq(available, allocation, order)));
    }
}

/// When the greedy search is stuck with some thread unfinished, no finishing
/// order exists.
proof fn lemma_stuck_is_unsafe(
    available: Seq<u32>,
    allocation: Seq<Seq<u32>>,
    need: Seq<Seq<u32>>,
    order: Seq<int>,
    x: int,
)
    requires
        is_finishing_order(available, allocation, need, order),
        0 <= x < allocation.len(),
        !order.contains(x),
        forall|i: int|
            0 <= i < allocation.len() ==> order.contains(i) || !can_finish(
                need,
                i,
                work_seq(available, allocation, order),
            ),
    ensures
        !safe_state(available, allocation, need),
{
    if safe_state(available, allocation, need) {
        let s = choose|s: Seq<int>|
            is_finishing_order(available, allocation, need, s) && forall|i: int|
                0 <= i < allocation.len() ==> #[trigger] s.contains(i);
        assert(s.contains(x));
        lemma_prefix_in_order(available, allocation, need, order, s, s.len() as int);
        let p = choose|p: int| 0 <= p < s.len() && s[p] == x;
        assert(order.contains(s[p]));
    }
}


/// `rows` with entry `(t, r)` moved by `delta`.
pub open spec fn bump(rows: Seq<Seq<u32>>, t: int, r: int, delta: int) -> Seq<Seq<u32>> {
    rows.update(t, rows[t].update(r, (rows[t][r] + delta) as u32))
}

impl DeadLockDetect {
    /// A detector for `threads` threads and no resources yet.
    pub fn new(threads: u32) -> (r: Self)
        ensures
            r.wf(),
            r.threads() == threads as int,
            r.resources() == 0,
    {
        let mut allocation: Vec<Vec<u32>> = Vec::new();
        let mut need: Vec<Vec<u32>> = Vec::new();
        let mut i: u32 = 0;
        while i < threads
            invariant
                i <= threads,
                allocation@.len() == i as int,
                need@.len() == i as int,
                forall|k: int| 0 <= k < i ==> (#[trigger] allocation@[k])@.len() == 0,
                forall|k: int| 0 <= k < i ==> (#[trigger] need@[k])@.len() == 0,
            decreases threads - i,
        {
            allocation.push(Vec::new());
            need.push(Vec::new());
            i = i + 1;
        }
        DeadLockDetect { available: Vec::new(), allocation, need }
    }

    /// `self` is `prev` with one more resource of `count` free units: a zero
    /// column for every thread, and every earlier total kept.
    pub open spec fn added_resource(&self, prev: &Self, count: u32) -> bool {
        &&& self.wf()
        &&& self.threads() == prev.threads()
        &&& self.available@ == prev.available@.push(count)
        &&& forall|t: int| 0 <= t < prev.threads() ==> (#[trigger] self.alloc_rows()[t]) == prev.alloc_rows()[t].push(0)
        &&& forall|t: int| 0 <= t < prev.threads() ==> (#[trigger] self.need_rows()[t]) == prev.need_rows()[t].push(0)
        &&& forall|r: int| 0 <= r < prev.resources() ==> #[trigger] self.total(r) == prev.total(r)
        &&& self.total(prev.resources()) == count as int
    }

    /// Registers a new resource with `count` free units.
    pub fn add_resource(&mut self, count: u32)
        requires
            old(self).wf(),
        ensures
            final(self).added_resource(old(self), count),
    {
        self.available.push(count);
        let n = self.allocation.len();
        let mut t: usize = 0;
        while t < n
            invariant
                n == old(self).allocation@.len(),
                n == old(self).need@.len(),
                t <= n,
                self.available@ == old(self).available@.push(count),
                self.allocation@.len() == n,
                self.need@.len() == n,
                forall|k: int|
                    0 <= k < t ==> (#[trigger] self.allocation@[k])@ == old(self).allocation@[k]@.push(0),
                forall|k: int| t <= k < n ==> #[trigger] self.allocation@[k] == old(self).allocation@[k],
                forall|k: int|
                    0 <= k < t ==> (#[trigger] self.need@[k])@ == old(self).need@[k]@.push(0),
                forall|k: int| t <= k < n ==> #[trigger] self.need@[k] == old(self).need@[k],
            decreases n - t,
        {
            self.allocation[t].push(0);
            self.need[t].push(0);
            t = t + 1;
        }
        proof {
            let m = old(self).resources();
            assert forall|r: int| 0 <= r < m implies #[trigger] self.total(r) == old(self).total(r) by {
                assert forall|i: int| 0 <= i < n implies (#[trigger] self.alloc_rows()[i])[r]
                    == old(self).alloc_rows()[i][r] by {
                    assert(old(self).allocation@[i]@.len() == m);
                }
                lemma_col_total_same(self.alloc_rows(), old(self).alloc_rows(), n as int, r);
            }
            assert forall|i: int| 0 <= i < n implies (#[trigger] self.alloc_rows()[i])[m] == 0u32 by {
                assert(old(self).allocation@[i]@.len() == m);
            }
            lemma_col_total_zero(self.alloc_rows(), n as int, m);
        }
    }

    /// Records that thread `tid` asks for one unit of resource `id`.
    pub fn request(&mut self, tid: usize, id: usize)
        requires
            old(self).wf(),
            tid < old(self).threads(),
            id < old(self).resources(),
            old(self).need_rows()[tid as int][id as int] < u32::MAX,
        ensures
            final(self).wf(),
            final(self).threads() == old(self).threads(),
            final(self).resources() == old(self).resources(),
            final(self).available@ == old(self).available@,
            final(self).alloc_rows() == old(self).alloc_rows(),
            final(self).need_rows() == bump(old(self).need_rows(), tid as int, id as int, 1),
    {
        let v = self.need[tid][id];
        self.need[tid][id] = v + 1;
        assert(self.alloc_rows() =~= old(self).alloc_rows());
        assert(self.need_rows() =~= bump(old(self).need_rows(), tid as int, id as int, 1));
    }

    /// Withdraws a request of thread `tid` for resource `id`.
    pub fn cancel(&mut self, tid: usize, id: usize)
        requires
            old(self).wf(),
            tid < old(self).threads(),
            id < old(self).resources(),
            old(self).need_rows()[tid as int][id as int] > 0,
        ensures
            final(self).wf(),
            final(self).threads() == old(self).threads(),
            final(self).resources() == old(self).resources(),
            final(self).available@ == old(self).available@,
            final(self).alloc_rows() == old(self).alloc_rows(),
            final(self).need_rows() == bump(old(self).need_rows(), tid as int, id as int, -1),
    {
        let v = self.need[tid][id];
        self.need[tid][id] = v - 1;
        assert(self.alloc_rows() =~= old(self).alloc_rows());
        assert(self.need_rows() =~= bump(old(self).need_rows(), tid as int, id as int, -1));
    }

    /// Thread `tid` has obtained the unit of resource `id` it asked for.
    pub fn grant(&mut self, tid: usize, id: usize)
        requires
            old(self).wf(),
            tid < old(self).threads(),
            id < old(self).resources(),
            old(self).need_rows()[tid as int][id as int] > 0,
            old(self).alloc_rows()[tid as int][id as int] < u32::MAX,
            old(self).available@[id as int] > 0,
        ensures
            final(self).wf(),
            final(self).threads() == old(self).threads(),
            final(self).resources() == old(self).resources(),
            final(self).available@ == old(self).available@.update(
                id as int,
                (old(self).available@[id as int] - 1) as u32,
            ),
            final(self).need_rows() == bump(old(self).need_rows(), tid as int, id as int, -1),
            final(self).alloc_rows() == bump(old(self).alloc_rows(), tid as int, id as int, 1),
            forall|r: int| 0 <= r < old(self).resources() ==> #[trigger] final(self).total(r) == old(self).total(r),
            granted(*old(self), *final(self), tid as int, id as int),
    {
        let v = self.need[tid][id];
        self.need[tid][id] = v - 1;
        let a = self.allocation[tid][id];
        self.allocation[tid][id] = a + 1;
        let f = self.available[id];
        self.available[id] = f - 1;
        assert(self.need_rows() =~= bump(old(self).need_rows(), tid as int, id as int, -1));
        assert(self.alloc_rows() =~= bump(old(self).alloc_rows(), tid as int, id as int, 1));
        proof { self.lemma_move_unit(old(self), tid as int, id as int); }
    }

    /// Thread `tid` gives back one unit of resource `id`.
    pub fn release(&mut self, tid: usize, id: usize)
        requires
            old(self).wf(),
            tid < old(self).threads(),
            id < old(self).resources(),
            old(self).alloc_rows()[tid as int][id as int] > 0,
            old(self).available@[id as int] < u32::MAX,
        ensures
            final(self).wf(),
            final(self).threads() == old(self).threads(),
            final(self).resources() == old(self).resources(),
            final(self).available@ == old(self).available@.update(
                id as int,
                (old(self).available@[id as int] + 1) as u32,
            ),
            final(self).need_rows() == old(self).need_rows(),
            final(self).alloc_rows() == bump(old(self).alloc_rows(), tid as int, id as int, -1),
            forall|r: int| 0 <= r < old(self).resources() ==> #[trigger] final(self).total(r) == old(self).total(r),
            released(*old(self), *final(self), tid as int, id as int),
    {
        let a = self.allocation[tid][id];
        self.allocation[tid][id] = a - 1;
        let f = self.available[id];
        self.available[id] = f + 1;
        assert(self.need_rows() =~= old(self).need_rows());
        assert(self.alloc_rows() =~= bump(old(self).alloc_rows(), tid as int, id as int, -1));
        proof { self.lemma_move_unit(old(self), tid as int, id as int); }
    }

    /// Moving one unit between `available` and a thread's row keeps every total.
    proof fn lemma_move_unit(&self, prev: &Self, tid: int, id: int)
        requires
            prev.wf(),
            self.wf(),
            0 <= tid < prev.threads(),
            0 <= id < prev.resources(),
            self.threads() == prev.threads(),
            self.alloc_rows() == prev.alloc_rows().update(tid, self.alloc_rows()[tid]),
            forall|r: int| 0 <= r < prev.resources() && r != id ==> #[trigger] self.alloc_rows()[tid][r] == prev.alloc_rows()[tid][r],
            forall|r: int| 0 <= r < prev.resources() && r != id ==> #[trigger] self.available@[r] == prev.available@[r],
            self.available@.len() == prev.available@.len(),
            self.available@[id] + self.alloc_rows()[tid][id] == prev.available@[id] + prev.alloc_rows()[tid][id],
        ensures
            forall|r: int| 0 <= r < prev.resources() ==> #[trigger] self.total(r) == prev.total(r),
    {
        assert forall|r: int| 0 <= r < prev.resources() implies #[trigger] self.total(r) == prev.total(r) by {
            lemma_col_total_update(prev.alloc_rows(), tid, self.alloc_rows()[tid], prev.threads(), r);
        }
    }
}


impl DeadLockDetect {
    /// Runs the safety test: true when no finishing order lets every thread
    /// complete, that is when granting the pending requests could deadlock.
    pub fn detect(&self) -> (r: bool)
        requires
            self.wf(),
        ensures
            r == !self.is_safe(),
    {
        let n = self.allocation.len();
        let m = self.available.len();
        let mut work: Vec<u64> = Vec::new();
        let mut j: usize = 0;
        while j < m
            invariant
                j <= m,
                m == self.available@.len(),
                work@.len() == j,
                forall|k: int| 0 <= k < j ==> work@[k] as int == self.available@[k] as int,
            decreases m - j,
        {
            work.push(self.available[j] as u64);
            j = j + 1;
        }
        let mut finish: Vec<bool> = Vec::new();
        let mut i: usize = 0;
        while i < n
            invariant
                i <= n,
                finish@.len() == i,
                forall|k: int| 0 <= k < i ==> !(#[trigger] finish@[k]),
            decreases n - i,
        {
            finish.push(false);
            i = i + 1;
        }
        let ghost order: Seq<int> = Seq::empty();
        proof {
            assert forall|k: int| 0 <= k < m implies work@[k] as int == work_after(
                self.available@,
                self.alloc_rows(),
                order,
                k,
            ) by {}
            assert forall|k: int| 0 <= k < n implies (finish@[k] <==> order.contains(k)) by {}
            lemma_count_false_n(finish@);
        }
        loop
            invariant
                self.wf(),
                n == self.threads(),
                m == self.resources(),
                work@.len() == m,
                finish@.len() == n,
                forall|k: int|
                    0 <= k < m ==> #[trigger] work@[k] as int == work_after(
                        self.available@,
                        self.alloc_rows(),
                        order,
                        k,
                    ),
                self.is_finishing_order(order),
                forall|k: int| 0 <= k < n ==> (#[trigger] finish@[k] <==> order.contains(k)),
                order.len() + count_false(finish@) == n,
            ensures
                self.is_finishing_order(order),
                forall|k: int| 0 <= k < n ==> (#[trigger] finish@[k] <==> order.contains(k)),
                forall|k: int|
                    0 <= k < n ==> #[trigger] order.contains(k) || !can_finish(
                        self.need_rows(),
                        k,
                        self.work_seq(order),
                    ),
            decreases count_false(finish@),
        {
            let ghost count0 = count_false(finish@);
            let mut progress = false;
            let mut i: usize = 0;
            while i < n
                invariant
                    self.wf(),
                    n == self.threads(),
                    m == self.resources(),
                    i <= n,
                    work@.len() == m,
                    finish@.len() == n,
                    forall|k: int|
                        0 <= k < m ==> #[trigger] work@[k] as int == work_after(
                            self.available@,
                            self.alloc_rows(),
                            order,
                            k,
                        ),
                    self.is_finishing_order(order),
                    forall|k: int| 0 <= k < n ==> (#[trigger] finish@[k] <==> order.contains(k)),
                    order.len() + count_false(finish@) == n,
                    progress ==> count_false(finish@) < count0,
                    !progress ==> count_false(finish@) == count0,
                    !progress ==> forall|k: int|
                        0 <= k < i ==> #[trigger] order.contains(k) || !can_finish(
                            self.need_rows(),
                            k,
                            self.work_seq(order),
                        ),
                decreases n - i,
            {
                if !finish[i] {
                    let mut can_alloc = true;
                    let mut j: usize = 0;
                    while j < m
                        invariant_except_break
                            can_alloc,
                        invariant
                            self.wf(),
                            i < n,
                            n == self.threads(),
                            m == self.resources(),
                            j <= m,
                            work@.len() == m,
                            forall|k: int|
                                0 <= k < j ==> (#[trigger] self.need_rows()[i as int][k]) as int
                                    <= work@[k] as int,
                        ensures
                            can_alloc ==> j == m,
                            !can_alloc ==> j < m && self.need_rows()[i as int][j as int] as int
                                > work@[j as int] as int,
                        decreases m - j,
                    {
                        if self.need[i][j] as u64 > work[j] {
                            can_alloc = false;
                            break;
                        }
                        j = j + 1;
                    }
                    if !can_alloc {
                        assert(!can_finish(self.need_rows(), i as int, self.work_seq(order)));
                    }
                    if can_alloc {
                        assert(can_finish(self.need_rows(), i as int, self.work_seq(order)));
                        let ghost next = order.push(i as int);
                        proof {
                            lemma_count_false_bound(finish@);
                            lemma_count_false_set(finish@, i as int);
                            assert forall|k: int| 0 <= k < m implies work_after(
                                self.available@,
                                self.alloc_rows(),
                                next,
                                k,
                            ) <= 0xffff_ffff_ffff_ffff by {
                                lemma_col_sum_bounds(self.alloc_rows(), next, k);
                                assert(next.len() <= 0xffff_ffff);
                                assert(next.len() * 0xffff_ffff <= 0xffff_ffff * 0xffff_ffff)
                                    by (nonlinear_arith)
                                    requires
                                        next.len() <= 0xffff_ffff,
                                ;
                                assert(next.drop_last() =~= order);
                            }
                        }
                        let mut j: usize = 0;
                        while j < m
                            invariant
                                self.wf(),
                                i < n,
                                n == self.threads(),
                                m == self.resources(),
                                j <= m,
                                work@.len() == m,
                                next == order.push(i as int),
                                forall|k: int|
                                    0 <= k < j ==> #[trigger] work@[k] as int == work_after(
                                        self.available@,
                                        self.alloc_rows(),
                                        next,
                                        k,
                                    ),
                                forall|k: int|
                                    j <= k < m ==> #[trigger] work@[k] as int == work_after(
                                        self.available@,
                                        self.alloc_rows(),
                                        order,
                                        k,
                                    ),
                                forall|k: int|
                                    0 <= k < m ==> work_after(
                                        self.available@,
                                        self.alloc_rows(),
                                        next,
                                        k,
                                    ) <= 0xffff_ffff_ffff_ffff,
                            decreases m - j,
                        {
                            proof {
                                assert(next.drop_last() =~= order);
                                assert(work_after(
                                    self.available@,
                                    self.alloc_rows(),
                                    next,
                                    j as int,
                                ) <= 0xffff_ffff_ffff_ffff);
                            }
                            work.set(j, work[j] + self.allocation[i][j] as u64);
                            j = j + 1;
                        }
                        proof {
                            lemma_count_false_set(finish@, i as int);
                            assert forall|k: int| 0 <= k < next.len() implies 0 <= #[trigger] next[k]
                                < self.threads() by {
                                if k < order.len() {
                                    assert(next[k] == order[k]);
                                }
                            }
                            assert forall|k: int| 0 <= k < next.len() implies can_finish(
                                self.need_rows(),
                                #[trigger] next[k],
                                self.work_seq(next.take(k)),
                            ) by {
                                if k < order.len() {
                                    assert(next[k] == order[k]);
                                    assert(next.take(k) =~= order.take(k));
                                } else {
                                    assert(next.take(k) =~= order);
                                }
                            }
                            assert forall|u: int, v: int|
                                0 <= u < next.len() && 0 <= v < next.len() && u != v implies next[u]
                                != next[v] by {
                                if u < order.len() {
                                    assert(next[u] == order[u]);
                                }
                                if v < order.len() {
                                    assert(next[v] == order[v]);
                                }
                            }
                        }
                        finish.set(i, true);
                        proof {
                            let prev = order;
                            order = next;
                            assert forall|k: int| 0 <= k < n implies (#[trigger] finish@[k]
                                <==> order.contains(k)) by {
                                if k != i {
                                    if order.contains(k) {
                                        let q = choose|q: int| 0 <= q < order.len() && order[q] == k;
                                        assert(prev[q] == k);
                                    }
                                    if prev.contains(k) {
                                        let q = choose|q: int| 0 <= q < prev.len() && prev[q] == k;
                                        assert(order[q] == k);
                                    }
                                } else {
                                    assert(order[order.len() - 1] == k);
                                }
                            }
                        }
                        progress = true;
                    }
                }
                i = i + 1;
            }
            if !progress {
                break;
            }
        }
        let mut all = true;
        let mut i: usize = 0;
        while i < n
            invariant
                i <= n,
                finish@.len() == n,
                all == forall|k: int| 0 <= k < i ==> #[trigger] finish@[k],
            decreases n - i,
        {
            if !finish[i] {
                all = false;
            }
            i = i + 1;
        }
        proof {
            if all {
                assert forall|k: int| 0 <= k < n implies #[trigger] order.contains(k) by {
                    assert(finish@[k]);
                }
            } else {
                let x = choose|x: int| 0 <= x < n && !finish@[x];
                lemma_stuck_is_unsafe(self.available@, self.alloc_rows(), self.need_rows(), order, x);
            }
        }
        !all
    }
}


/// `after` is `before` once thread `tid` obtained a unit of resource `id`.
pub open spec fn granted(before: DeadLockDetect, after: DeadLockDetect, tid: int, id: int) -> bool {
    &&& after.wf()
    &&& after.threads() == before.threads()
    &&& after.resources() == before.resources()
    &&& after.available@ == before.available@.update(id, (before.available@[id] - 1) as u32)
    &&& after.need_rows() == bump(before.need_rows(), tid, id, -1)
    &&& after.alloc_rows() == bump(before.alloc_rows(), tid, id, 1)
}

/// `after` is `before` once thread `tid` gave back a unit of resource `id`.
pub open spec fn released(before: DeadLockDetect, after: DeadLockDetect, tid: int, id: int) -> bool {
    &&& after.wf()
    &&& after.threads() == before.threads()
    &&& after.resources() == before.resources()
    &&& after.available@ == before.available@.update(id, (before.available@[id] + 1) as u32)
    &&& after.need_rows() == before.need_rows()
    &&& after.alloc_rows() == bump(before.alloc_rows(), tid, id, -1)
}

/// Acquiring then releasing a unit keeps, for every resource, the units free
/// plus the units held equal to what they were (for a resource just created:
/// its initial count), and leaves `available` and the allocation as before.
pub proof fn lemma_acquire_release_conserves(
    d0: DeadLockDetect,
    d1: DeadLockDetect,
    d2: DeadLockDetect,
    tid: int,
    id: int,
)
    requires
        d0.wf(),
        0 <= tid < d0.threads(),
        0 <= id < d0.resources(),
        d0.available@[id] > 0,
        d0.alloc_rows()[tid][id] < u32::MAX,
        granted(d0, d1, tid, id),
        released(d1, d2, tid, id),
    ensures
        forall|r: int| 0 <= r < d0.resources() ==> #[trigger] d2.total(r) == d0.total(r),
        d2.available@ == d0.available@,
        d2.alloc_rows() == d0.alloc_rows(),
{
    assert(d2.available@ =~= d0.available@);
    assert(d2.alloc_rows() =~~= d0.alloc_rows());
}

/// A resource's total is its initial count for as long as units only move
/// between `available` and the allocation: `available[r]` is the count minus
/// the units threads hold.
pub proof fn lemma_available_is_count_minus_held(d: DeadLockDetect, r: int, count: u32)
    requires
        0 <= r < d.resources(),
        d.total(r) == count,
    ensures
        d.available@[r] == count - col_total(d.alloc_rows(), d.threads(), r),
{
}

} // verus!
