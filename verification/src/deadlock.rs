//! Deadlock detection for mutexes and semaphores.
//!
//! Each synchronisation resource `rid` has a number of free units
//! (`available`), each thread `tid` holds some units of each resource
//! (`allocation`) and waits for some more (`need`).  The detector runs the
//! classical safety check: it repeatedly picks a thread whose needs can be
//! met from the free units, lets it finish and take back what it holds.
use std::collections::BTreeMap;
use vstd::prelude::*;
use vstd::std_specs::iter::IteratorSpec;

verus! {

/// Per-thread, per-resource counters as a mathematical map.
pub type Table = Map<usize, Map<usize, usize>>;

/// The mathematical model of a [`DeadlockDetectData`].
#[verifier::ext_equal]
pub struct DeadlockState {
    pub available: Map<usize, usize>,
    pub allocation: Table,
    pub need: Table,
}

/// No resources and no threads.
pub open spec fn empty_state() -> DeadlockState {
    DeadlockState { available: Map::empty(), allocation: Map::empty(), need: Map::empty() }
}

/// A table whose rows are all the given keys, each mapped to zero.
pub open spec fn zero_row(keys: Set<usize>) -> Map<usize, usize> {
    Map::new(|r: usize| keys.contains(r), |r: usize| 0usize)
}

/// What thread `t` holds of resource `r` (zero where the table has no entry).
pub open spec fn held(a: Table, t: usize, r: usize) -> nat {
    if a.contains_key(t) && a[t].contains_key(r) {
        a[t][r] as nat
    } else {
        0
    }
}

/// What the threads of `ts` hold of resource `r` together.
pub open spec fn held_sum(a: Table, ts: Seq<usize>, r: usize) -> nat
    decreases ts.len(),
{
    if ts.len() == 0 {
        0
    } else {
        held_sum(a, ts.drop_last(), r) + held(a, ts.last(), r)
    }
}

impl DeadlockState {
    /// The shape the operations keep: every thread has a row for every
    /// resource in both tables, and no resource's free units plus the
    /// units held by any set of threads exceeds what a `usize` holds.
    pub open spec fn wf(self) -> bool {
        &&& self.allocation.dom() =~= self.need.dom()
        &&& forall|t: usize| #[trigger]
            self.need.contains_key(t) ==> self.need[t].dom() =~= self.available.dom()
                && self.allocation[t].dom() =~= self.available.dom()
        &&& forall|ts: Seq<usize>, r: usize|
            ts.no_duplicates() && self.available.contains_key(r) ==> self.available[r]
                + #[trigger] held_sum(self.allocation, ts, r) <= usize::MAX
    }

    /// Thread `t` can run to completion once the threads of `done` have
    /// finished and given back what they hold.
    pub open spec fn can_finish(self, done: Seq<usize>, t: usize) -> bool {
        forall|r: usize| #[trigger]
            self.need[t].contains_key(r) ==> self.need[t][r] <= self.available[r] + held_sum(
                self.allocation,
                done,
                r,
            )
    }

    /// `order` lists every thread once, and each can finish after those
    /// before it.
    pub open spec fn is_safe_sequence(self, order: Seq<usize>) -> bool {
        &&& order.no_duplicates()
        &&& order.to_set() =~= self.need.dom()
        &&& forall|i: int| 0 <= i < order.len() ==> #[trigger] self.can_finish(order.take(i), order[i])
    }

    /// No deadlock: some order lets every thread finish.
    pub open spec fn deadlock_free(self) -> bool {
        exists|order: Seq<usize>| #[trigger] self.is_safe_sequence(order)
    }

    pub open spec fn thread_created(self, tid: usize) -> DeadlockState {
        DeadlockState {
            available: self.available,
            allocation: self.allocation.insert(tid, zero_row(self.available.dom())),
            need: self.need.insert(tid, zero_row(self.available.dom())),
        }
    }

    pub open spec fn thread_released(self, tid: usize) -> DeadlockState {
        DeadlockState {
            available: self.available,
            allocation: self.allocation.remove(tid),
            need: self.need.remove(tid),
        }
    }

    pub open spec fn resource_created(self, rid: usize, count: usize) -> DeadlockState {
        DeadlockState {
            available: self.available.insert(rid, count),
            allocation: Map::new(
                |t: usize| self.allocation.contains_key(t),
                |t: usize| self.allocation[t].insert(rid, 0usize),
            ),
            need: Map::new(
                |t: usize| self.need.contains_key(t),
                |t: usize| self.need[t].insert(rid, 0usize),
            ),
        }
    }

    /// Thread `tid` takes one unit of resource `rid`.
    pub open spec fn taken(self, rid: usize, tid: usize) -> DeadlockState {
        DeadlockState {
            available: self.available.insert(rid, (self.available[rid] - 1) as usize),
            allocation: self.allocation.insert(
                tid,
                self.allocation[tid].insert(rid, (self.allocation[tid][rid] + 1) as usize),
            ),
            need: self.need,
        }
    }

    /// Thread `tid` gives one unit of resource `rid` back.
    pub open spec fn given_back(self, rid: usize, tid: usize) -> DeadlockState {
        DeadlockState {
            available: self.available.insert(rid, (self.available[rid] + 1) as usize),
            allocation: self.allocation.insert(
                tid,
                self.allocation[tid].insert(rid, (self.allocation[tid][rid] - 1) as usize),
            ),
            need: self.need,
        }
    }

    /// The need of thread `tid` for resource `rid` changes by `delta`.
    pub open spec fn need_changed(self, tid: usize, rid: usize, delta: int) -> DeadlockState {
        DeadlockState {
            available: self.available,
            allocation: self.allocation,
            need: self.need.insert(tid, self.need[tid].insert(rid, (self.need[tid][rid] + delta) as usize)),
        }
    }
}

// ---------------------------------------------------------------------------
// Lemmas on sums of held units.

/// Appending a thread adds what it holds.
pub proof fn lemma_held_sum_push(a: Table, ts: Seq<usize>, t: usize, r: usize)
    ensures
        held_sum(a, ts.push(t), r) == held_sum(a, ts, r) + held(a, t, r),
{
    assert(ts.push(t).drop_last() =~= ts);
}

/// Removing the thread at index `k` takes away what it holds.
pub proof fn lemma_held_sum_remove(a: Table, ts: Seq<usize>, k: int, r: usize)
    requires
        0 <= k < ts.len(),
    ensures
        held_sum(a, ts, r) == held_sum(a, ts.remove(k), r) + held(a, ts[k], r),
    decreases ts.len(),
{
    if k == ts.len() - 1 {
        assert(ts.remove(k) =~= ts.drop_last());
    } else {
        let init = ts.drop_last();
        lemma_held_sum_remove(a, init, k, r);
        assert(ts.remove(k) =~= init.remove(k).push(ts.last()));
        lemma_held_sum_push(a, init.remove(k), ts.last(), r);
    }
}

/// The threads of a duplicate-free sequence drawn from another
/// duplicate-free sequence hold no more than those of the latter.
pub proof fn lemma_held_sum_subset(a: Table, xs: Seq<usize>, ys: Seq<usize>, r: usize)
    requires
        xs.no_duplicates(),
        ys.no_duplicates(),
        forall|i: int| 0 <= i < xs.len() ==> ys.contains(#[trigger] xs[i]),
    ensures
        held_sum(a, xs, r) <= held_sum(a, ys, r),
    decreases xs.len(),
{
    if xs.len() > 0 {
        let x = xs.last();
        let init = xs.drop_last();
        assert(ys.contains(xs[xs.len() - 1]));
        let k = ys.index_of(x);
        let rest = ys.remove(k);
        lemma_held_sum_remove(a, ys, k, r);
        assert forall|i: int| 0 <= i < init.len() implies rest.contains(#[trigger] init[i]) by {
            assert(init[i] == xs[i]);
            assert(ys.contains(xs[i]));
            let j = ys.index_of(xs[i]);
            assert(j != k);
            if j < k {
                assert(rest[j] == ys[j]);
            } else {
                assert(rest[j - 1] == ys[j]);
            }
        }
        assert(rest.no_duplicates()) by {
            assert forall|i: int, j: int| 0 <= i < rest.len() && 0 <= j < rest.len() && i != j
                implies rest[i] != rest[j] by {
                let ii = if i < k { i } else { i + 1 };
                let jj = if j < k { j } else { j + 1 };
                assert(rest[i] == ys[ii]);
                assert(rest[j] == ys[jj]);
            }
        }
        lemma_held_sum_subset(a, init, rest, r);
        lemma_held_sum_push(a, init, x, r);
        assert(init.push(x) =~= xs);
    }
}

/// A table in which no thread holds any unit of `r` sums to zero.
pub proof fn lemma_held_sum_zero(a: Table, ts: Seq<usize>, r: usize)
    requires
        forall|t: usize| #[trigger] held(a, t, r) == 0,
    ensures
        held_sum(a, ts, r) == 0,
    decreases ts.len(),
{
    if ts.len() > 0 {
        lemma_held_sum_zero(a, ts.drop_last(), r);
        assert(held(a, ts.last(), r) == 0);
    }
}

/// Sums of a table that holds no more, thread by thread, are no larger.
pub proof fn lemma_held_sum_le(a: Table, b: Table, ts: Seq<usize>, r: usize)
    requires
        forall|t: usize| held(b, t, r) <= #[trigger] held(a, t, r),
    ensures
        held_sum(b, ts, r) <= held_sum(a, ts, r),
    decreases ts.len(),
{
    if ts.len() > 0 {
        lemma_held_sum_le(a, b, ts.drop_last(), r);
        assert(held(b, ts.last(), r) <= held(a, ts.last(), r));
    }
}

/// Sums of two tables that agree on resource `r` agree.
pub proof fn lemma_held_sum_eq(a: Table, b: Table, ts: Seq<usize>, r: usize)
    requires
        forall|t: usize| held(b, t, r) == #[trigger] held(a, t, r),
    ensures
        held_sum(b, ts, r) == held_sum(a, ts, r),
    decreases ts.len(),
{
    if ts.len() > 0 {
        lemma_held_sum_eq(a, b, ts.drop_last(), r);
        assert(held(b, ts.last(), r) == held(a, ts.last(), r));
    }
}

/// A table that changes one thread's holding of `r` by `delta` changes the
/// sum of a duplicate-free sequence by `delta` exactly when it lists that
/// thread.
pub proof fn lemma_held_sum_bump(a: Table, b: Table, ts: Seq<usize>, t0: usize, r: usize, delta: int)
    requires
        ts.no_duplicates(),
        forall|t: usize| t != t0 ==> held(b, t, r) == #[trigger] held(a, t, r),
        held(b, t0, r) == held(a, t0, r) + delta,
    ensures
        held_sum(b, ts, r) == held_sum(a, ts, r) + if ts.contains(t0) { delta } else { 0 },
    decreases ts.len(),
{
    if ts.len() > 0 {
        let init = ts.drop_last();
        assert(init.no_duplicates());
        lemma_held_sum_bump(a, b, init, t0, r, delta);
        if ts.last() == t0 {
            assert(!init.contains(t0)) by {
                if init.contains(t0) {
                    let j = init.index_of(t0);
                    assert(ts[j] == ts[ts.len() - 1]);
                }
            }
            assert(ts.contains(t0)) by { assert(ts[ts.len() - 1] == t0); }
        } else {
            assert(held(b, ts.last(), r) == held(a, ts.last(), r));
            assert(init.contains(t0) == ts.contains(t0)) by {
                if ts.contains(t0) {
                    let j = ts.index_of(t0);
                    assert(j < ts.len() - 1);
                    assert(init[j] == t0);
                }
                if init.contains(t0) {
                    let j = init.index_of(t0);
                    assert(ts[j] == t0);
                }
            }
        }
    }
}


// ---------------------------------------------------------------------------
// The executable detector.

/// Data the detector keeps for one kind of synchronisation resource.
#[derive(Debug)]
pub struct DeadlockDetectData {
    /// Free units of each resource.
    pub available: BTreeMap<usize, usize>,
    /// Units of each resource that each thread holds.
    pub allocation: BTreeMap<usize, BTreeMap<usize, usize>>,
    /// Units of each resource that each thread waits for.
    pub need: BTreeMap<usize, BTreeMap<usize, usize>>,
}

/// The mathematical view of a table of per-thread rows.
pub open spec fn table_view(m: BTreeMap<usize, BTreeMap<usize, usize>>) -> Table {
    Map::new(|t: usize| m@.contains_key(t), |t: usize| m@[t]@)
}

impl View for DeadlockDetectData {
    type V = DeadlockState;

    open spec fn view(&self) -> DeadlockState {
        DeadlockState {
            available: self.available@,
            allocation: table_view(self.allocation),
            need: table_view(self.need),
        }
    }
}

/// The keys of a map, each once.
pub fn keys_of<V>(m: &BTreeMap<usize, V>) -> (keys: Vec<usize>)
    ensures
        keys@.no_duplicates(),
        keys@.to_set() =~= m@.dom(),
{
    let mut keys: Vec<usize> = Vec::new();
    let ghost all = vstd::std_specs::btree::spec_keys_iter(m).remaining();
    for k in it: m.keys()
        invariant
            it.seq() == all,
            keys.len() == it.index(),
            forall|j: int| 0 <= j < keys.len() ==> keys@[j] == *it.seq()[j],
    {
        keys.push(*k);
    }
    proof {
        assert(keys@ =~= all.unref());
    }
    keys
}

/// Every need of the row can be met from `work`.
pub open spec fn fits(need_row: Map<usize, usize>, work: Map<usize, usize>) -> bool {
    forall|r: usize| #[trigger] need_row.contains_key(r) ==> need_row[r] <= work[r]
}

/// Appending a value not yet listed keeps a sequence free of duplicates.
proof fn lemma_push_no_dup(xs: Seq<usize>, x: usize)
    requires
        xs.no_duplicates(),
        !xs.contains(x),
    ensures
        xs.push(x).no_duplicates(),
{
    assert forall|i: int, j: int| 0 <= i < xs.len() + 1 && 0 <= j < xs.len() + 1 && i != j
        implies xs.push(x)[i] != xs.push(x)[j] by {
        if i < xs.len() && j < xs.len() {
        } else if i < xs.len() {
            assert(xs.contains(xs[i]));
        } else {
            assert(xs.contains(xs[j]));
        }
    }
}

/// The first entry of `order` that `done` does not list.
proof fn lemma_first_outside(order: Seq<usize>, done: Seq<usize>, x: usize) -> (j: int)
    requires
        order.contains(x),
        !done.contains(x),
    ensures
        0 <= j < order.len(),
        !done.contains(order[j]),
        forall|k: int| 0 <= k < j ==> done.contains(#[trigger] order[k]),
    decreases order.len(),
{
    if !done.contains(order[0]) {
        0
    } else {
        let rest = order.subrange(1, order.len() as int);
        let i = order.index_of(x);
        assert(i != 0);
        assert(rest[i - 1] == x);
        let j = lemma_first_outside(rest, done, x);
        assert forall|k: int| 0 <= k < j + 1 implies done.contains(#[trigger] order[k]) by {
            if k > 0 {
                assert(order[k] == rest[k - 1]);
            }
        }
        j + 1
    }
}

/// Value stored under `k`.
fn row_get(m: &BTreeMap<usize, usize>, k: usize) -> (v: usize)
    requires
        m@.contains_key(k),
    ensures
        v == m@[k],
{
    *m.get(&k).unwrap()
}

/// Row stored under `k` in a table.
fn table_row(m: &BTreeMap<usize, BTreeMap<usize, usize>>, k: usize) -> (row: &BTreeMap<usize, usize>)
    requires
        m@.contains_key(k),
    ensures
        row@ == table_view(*m)[k],
{
    m.get(&k).unwrap()
}

/// Whether every need of the row can be met from `work`; both maps have
/// exactly the keys listed in `rids`.
fn row_fits(need_row: &BTreeMap<usize, usize>, work: &BTreeMap<usize, usize>, rids: &Vec<usize>) -> (b: bool)
    requires
        need_row@.dom() =~= rids@.to_set(),
        work@.dom() =~= rids@.to_set(),
    ensures
        b == fits(need_row@, work@),
{
    let mut k: usize = 0;
    while k < rids.len()
        invariant
            k <= rids.len(),
            need_row@.dom() =~= rids@.to_set(),
            work@.dom() =~= rids@.to_set(),
            forall|j: int| 0 <= j < k ==> need_row@[#[trigger] rids@[j]] <= work@[rids@[j]],
        decreases rids.len() - k,
    {
        let r = rids[k];
        assert(rids@.to_set().contains(rids@[k as int]));
        if row_get(need_row, r) > row_get(work, r) {
            return false;
        }
        k += 1;
    }
    assert forall|r: usize| #[trigger] need_row@.contains_key(r) implies need_row@[r] <= work@[r] by {
        assert(rids@.to_set().contains(r));
        let j = rids@.index_of(r);
        assert(rids@[j] == r);
    }
    true
}

impl DeadlockDetectData {
    /// Whether the threads can all run to completion: runs the safety
    /// check, repeatedly letting finish a thread whose needs the free units
    /// cover, and reports whether every thread finished.
    pub fn check_dead_lock(&self) -> (ok: bool)
        requires
            self@.wf(),
        ensures
            ok == self@.deadlock_free(),
    {
        let ghost s = self@;
        let mut work = self.available.clone();
        let tids = keys_of(&self.need);
        let rids = keys_of(&self.available);
        let n = tids.len();
        proof {
            tids@.unique_seq_to_set();
        }
        let mut finish: Vec<bool> = Vec::new();
        for i in 0..n
            invariant
                finish.len() == i,
                forall|j: int| 0 <= j < i ==> !finish@[j],
        {
            finish.push(false);
        }
        let ghost mut done: Seq<usize> = Seq::empty();
        loop
            invariant
                s == self@,
                s.wf(),
                tids@.no_duplicates(),
                tids@.to_set() =~= s.need.dom(),
                tids@.to_set().len() == n,
                n == tids.len(),
                rids@.no_duplicates(),
                rids@.to_set() =~= s.available.dom(),
                finish.len() == n,
                work@.dom() =~= s.available.dom(),
                forall|r: usize| #[trigger] s.available.contains_key(r) ==> work@[r] == s.available[r]
                    + held_sum(s.allocation, done, r),
                done.no_duplicates(),
                done.len() <= n,
                forall|i: int| 0 <= i < n ==> (#[trigger] finish@[i] <==> done.contains(tids@[i])),
                forall|x: usize| #[trigger] done.contains(x) ==> s.need.contains_key(x),
                forall|i: int| 0 <= i < done.len() ==> #[trigger] s.can_finish(done.take(i), done[i]),
            ensures
                forall|j: int| 0 <= j < n ==> #[trigger] finish@[j] || !fits(s.need[tids@[j]], work@),
            decreases n - done.len(),
        {
            let mut i: usize = 0;
            let mut found: usize = n;
            while i < n
                invariant_except_break
                    found == n,
                invariant
                    s == self@,
                    s.wf(),
                    i <= n,
                    n == tids.len(),
                    finish.len() == n,
                    tids@.to_set() =~= s.need.dom(),
                    rids@.to_set() =~= s.available.dom(),
                    work@.dom() =~= s.available.dom(),
                    forall|j: int| 0 <= j < i ==> #[trigger] finish@[j] || !fits(s.need[tids@[j]], work@),
                ensures
                    found <= n,
                    found == n ==> forall|j: int| 0 <= j < n ==> #[trigger] finish@[j] || !fits(s.need[tids@[j]], work@),
                    found < n ==> !finish@[found as int] && fits(s.need[tids@[found as int]], work@),
                decreases n - i,
            {
                assert(tids@.to_set().contains(tids@[i as int]));
                if !finish[i] && row_fits(table_row(&self.need, tids[i]), &work, &rids) {
                    found = i;
                    break;
                }
                i += 1;
            }
            if found == n {
                break;
            }
            let t = tids[found];
            assert(tids@.to_set().contains(t));
            let arow = table_row(&self.allocation, t);
            assert(!done.contains(t));
            let ghost next = done.push(t);
            proof {
                lemma_push_no_dup(done, t);
                assert forall|r: usize| #[trigger] s.available.contains_key(r) implies s.available[r]
                    + held_sum(s.allocation, next, r) <= usize::MAX by {
                    assert(s.available[r] + held_sum(s.allocation, next, r) <= usize::MAX);
                }
            }
            let mut k: usize = 0;
            while k < rids.len()
                invariant
                    s == self@,
                    s.wf(),
                    k <= rids.len(),
                    rids@.no_duplicates(),
                    rids@.to_set() =~= s.available.dom(),
                    s.need.contains_key(t),
                    arow@ == s.allocation[t],
                    next == done.push(t),
                    work@.dom() =~= s.available.dom(),
                    forall|r: usize| #[trigger] s.available.contains_key(r) ==> s.available[r]
                        + held_sum(s.allocation, next, r) <= usize::MAX,
                    forall|j: int| 0 <= j < k ==> work@[#[trigger] rids@[j]] == s.available[rids@[j]]
                        + held_sum(s.allocation, next, rids@[j]),
                    forall|j: int| k <= j < rids.len() ==> work@[#[trigger] rids@[j]] == s.available[rids@[j]]
                        + held_sum(s.allocation, done, rids@[j]),
                decreases rids.len() - k,
            {
                let r = rids[k];
                assert(rids@.to_set().contains(r));
                let w = row_get(&work, r);
                let c = row_get(arow, r);
                proof {
                    lemma_held_sum_push(s.allocation, done, t, r);
                }
                work.insert(r, w + c);
                proof {
                    assert forall|j: int| 0 <= j < rids.len() && j != k implies rids@[j] != r by {}
                }
                k += 1;
            }
            finish.set(found, true);
            proof {
                assert forall|r: usize| #[trigger] s.available.contains_key(r) implies work@[r]
                    == s.available[r] + held_sum(s.allocation, next, r) by {
                    assert(rids@.to_set().contains(r));
                    let j = rids@.index_of(r);
                    assert(rids@[j] == r);
                }
                assert forall|i: int| 0 <= i < next.len() implies #[trigger] s.can_finish(next.take(i), next[i]) by {
                    if i < done.len() {
                        assert(next.take(i) =~= done.take(i));
                        assert(s.can_finish(done.take(i), done[i]));
                    } else {
                        assert(next.take(i) =~= done);
                    }
                }
                assert forall|i: int| 0 <= i < n implies (#[trigger] finish@[i] <==> next.contains(tids@[i])) by {
                    if i == found {
                        assert(next[next.len() - 1] == t);
                    } else {
                        assert(tids@[i] != t);
                        if next.contains(tids@[i]) {
                            let j = next.index_of(tids@[i]);
                            assert(j < done.len());
                            assert(done[j] == tids@[i]);
                        }
                        if done.contains(tids@[i]) {
                            let j = done.index_of(tids@[i]);
                            assert(next[j] == tids@[i]);
                        }
                    }
                }
                assert forall|x: usize| #[trigger] next.contains(x) implies s.need.contains_key(x) by {
                    let j = next.index_of(x);
                    if j < done.len() {
                        assert(done[j] == x);
                        assert(done.contains(x));
                    } else {
                        assert(next[next.len() - 1] == t);
                        assert(x == t);
                        assert(s.need.dom().contains(t));
                    }
                }
                // a finished thread was not finished before, so fewer than n were
                next.unique_seq_to_set();
                assert forall|x: usize| #[trigger] next.to_set().contains(x) implies tids@.to_set().contains(x) by {
                    assert(next.contains(x));
                }
                vstd::set_lib::lemma_len_subset(next.to_set(), tids@.to_set());
                done = next;
            }
        }
        let mut all = true;
        let mut i: usize = 0;
        while i < n
            invariant
                i <= n,
                finish.len() == n,
                all == forall|j: int| 0 <= j < i ==> #[trigger] finish@[j],
            decreases n - i,
        {
            if !finish[i] {
                all = false;
            }
            i += 1;
        }
        proof {
            if all {
                assert forall|x: usize| #[trigger] s.need.contains_key(x) implies done.to_set().contains(x) by {
                    assert(tids@.to_set().contains(x));
                    let j = tids@.index_of(x);
                    assert(finish@[j]);
                }
                assert(s.is_safe_sequence(done));
            } else {
                let i0 = choose|j: int| 0 <= j < n && !#[trigger] finish@[j];
                let x = tids@[i0];
                if s.deadlock_free() {
                    let order = choose|order: Seq<usize>| #[trigger] s.is_safe_sequence(order);
                    assert(s.is_safe_sequence(order));
                    assert(tids@.to_set().contains(x));
                    assert(order.to_set().contains(x));
                    let j = lemma_first_outside(order, done, x);
                    let y = order[j];
                    let pre = order.take(j);
                    assert(s.can_finish(pre, y));
                    assert(order.to_set().contains(y));
                    assert(pre.no_duplicates());
                    assert forall|k: int| 0 <= k < pre.len() implies done.contains(#[trigger] pre[k]) by {
                        assert(pre[k] == order[k]);
                    }
                    assert forall|r: usize| #[trigger] s.need[y].contains_key(r) implies s.need[y][r] <= work@[r] by {
                        lemma_held_sum_subset(s.allocation, pre, done, r);
                    }
                    assert(fits(s.need[y], work@));
                    assert(tids@.to_set().contains(y));
                    let jj = tids@.index_of(y);
                    assert(!finish@[jj]);
                    assert(false);
                }
            }
        }
        all
    }
}

impl Default for DeadlockDetectData {
    /// No resources and no threads.
    fn default() -> (d: Self)
        ensures
            d@.available == Map::<usize, usize>::empty(),
            d@.allocation == Table::empty(),
            d@.need == Table::empty(),
            d@.wf(),
    {
        let d = DeadlockDetectData {
            available: BTreeMap::new(),
            allocation: BTreeMap::new(),
            need: BTreeMap::new(),
        };
        proof {
            assert(d@.allocation =~= Table::empty());
            assert(d@.need =~= Table::empty());
            assert forall|ts: Seq<usize>, r: usize|
                ts.no_duplicates() && d@.available.contains_key(r) implies d@.available[r]
                + #[trigger] held_sum(d@.allocation, ts, r) <= usize::MAX by {}
        }
        d
    }
}

/// A map from each listed key to zero.
fn zero_row_of(rids: &Vec<usize>) -> (row: BTreeMap<usize, usize>)
    ensures
        row@ == zero_row(rids@.to_set()),
{
    let mut row: BTreeMap<usize, usize> = BTreeMap::new();
    let mut k: usize = 0;
    while k < rids.len()
        invariant
            k <= rids.len(),
            row@ =~= zero_row(rids@.subrange(0, k as int).to_set()),
        decreases rids.len() - k,
    {
        row.insert(rids[k], 0);
        proof {
            assert(rids@.subrange(0, k + 1).to_set() =~= rids@.subrange(0, k as int).to_set().insert(rids@[k as int])) by {
                assert forall|x: usize| rids@.subrange(0, k + 1).to_set().contains(x) implies
                    rids@.subrange(0, k as int).to_set().insert(rids@[k as int]).contains(x) by {
                    let j = rids@.subrange(0, k + 1).index_of(x);
                    if j < k {
                        assert(rids@.subrange(0, k as int)[j] == x);
                    }
                }
                assert forall|x: usize| rids@.subrange(0, k as int).to_set().insert(rids@[k as int]).contains(x)
                    implies rids@.subrange(0, k + 1).to_set().contains(x) by {
                    if x == rids@[k as int] {
                        assert(rids@.subrange(0, k + 1)[k as int] == x);
                    } else {
                        let j = rids@.subrange(0, k as int).index_of(x);
                        assert(rids@.subrange(0, k + 1)[j] == x);
                    }
                }
            }
        }
        k += 1;
    }
    assert(rids@.subrange(0, rids.len() as int) =~= rids@);
    row
}

/// The table after the row under `k` is replaced.
proof fn lemma_table_insert(m: BTreeMap<usize, BTreeMap<usize, usize>>, m2: BTreeMap<usize, BTreeMap<usize, usize>>, k: usize, row: BTreeMap<usize, usize>)
    requires
        m2@ == m@.insert(k, row),
    ensures
        table_view(m2) == table_view(m).insert(k, row@),
{
    assert(table_view(m2) =~= table_view(m).insert(k, row@));
}

impl DeadlockDetectData {
    /// Registers thread `tid` holding and needing nothing of any resource
    /// (a thread of that id loses what it held and needed).
    pub fn create_thread(&mut self, tid: usize)
        requires
            old(self)@.wf(),
        ensures
            final(self)@ == old(self)@.thread_created(tid),
            final(self)@.wf(),
    {
        let ghost s = self@;
        let rids = keys_of(&self.available);
        let empty_map = zero_row_of(&rids);
        let old_alloc = self.allocation.clone();
        let copy = empty_map.clone();
        self.allocation.insert(tid, copy);
        proof { lemma_table_insert(old_alloc, self.allocation, tid, copy); }
        let old_need = self.need.clone();
        self.need.insert(tid, empty_map);
        proof {
            lemma_table_insert(old_need, self.need, tid, empty_map);
            let n = s.thread_created(tid);
            assert(self@ =~= n);
            assert forall|ts: Seq<usize>, r: usize|
                ts.no_duplicates() && n.available.contains_key(r) implies n.available[r]
                + #[trigger] held_sum(n.allocation, ts, r) <= usize::MAX by {
                assert forall|t: usize| held(n.allocation, t, r) <= #[trigger] held(s.allocation, t, r) by {}
                lemma_held_sum_le(s.allocation, n.allocation, ts, r);
                assert(s.available[r] + held_sum(s.allocation, ts, r) <= usize::MAX);
            }
        }
    }

    /// Forgets thread `tid`; what it held is not returned to the free units.
    pub fn release_thread(&mut self, tid: usize)
        requires
            old(self)@.wf(),
        ensures
            final(self)@ == old(self)@.thread_released(tid),
            final(self)@.wf(),
    {
        let ghost s = self@;
        self.allocation.remove(&tid);
        self.need.remove(&tid);
        proof {
            let n = s.thread_released(tid);
            assert(self@.allocation =~= n.allocation);
            assert(self@.need =~= n.need);
            assert(self@ =~= n);
            assert forall|ts: Seq<usize>, r: usize|
                ts.no_duplicates() && n.available.contains_key(r) implies n.available[r]
                + #[trigger] held_sum(n.allocation, ts, r) <= usize::MAX by {
                assert forall|t: usize| held(n.allocation, t, r) <= #[trigger] held(s.allocation, t, r) by {}
                lemma_held_sum_le(s.allocation, n.allocation, ts, r);
                assert(s.available[r] + held_sum(s.allocation, ts, r) <= usize::MAX);
            }
        }
    }

    /// Registers resource `rid` with `count` free units; every thread holds
    /// and needs none of it (a resource of that id is reset).
    pub fn create_res(&mut self, rid: usize, count: usize)
        requires
            old(self)@.wf(),
        ensures
            final(self)@ == old(self)@.resource_created(rid, count),
            final(self)@.wf(),
            final(self)@.available == old(self)@.available.insert(rid, count),
            final(self)@.allocation.dom() == old(self)@.allocation.dom(),
            final(self)@.need.dom() == old(self)@.need.dom(),
            forall|t: usize, r: usize| #[trigger] old(self)@.allocation.contains_key(t) && r != rid ==> (
                #[trigger] final(self)@.allocation[t].contains_key(r) == old(self)@.allocation[t].contains_key(r)
                && final(self)@.allocation[t][r] == old(self)@.allocation[t][r]),
            forall|t: usize, r: usize| #[trigger] old(self)@.need.contains_key(t) && r != rid ==> (
                #[trigger] final(self)@.need[t].contains_key(r) == old(self)@.need[t].contains_key(r)
                && final(self)@.need[t][r] == old(self)@.need[t][r]),
            forall|t: usize| #[trigger] old(self)@.need.contains_key(t) ==> final(self)@.allocation[t][rid] == 0
                && final(self)@.need[t][rid] == 0,
    {
        proof {
            lemma_resource_created_keeps_others(self@, rid, count);
        }
        let ghost s = self@;
        self.available.insert(rid, count);
        let tids = keys_of(&self.allocation);
        let mut k: usize = 0;
        while k < tids.len()
            invariant
                k <= tids.len(),
                tids@.no_duplicates(),
                tids@.to_set() =~= s.allocation.dom(),
                self@.allocation.dom() =~= s.allocation.dom(),
                forall|j: int| 0 <= j < k ==> self@.allocation[#[trigger] tids@[j]] == s.allocation[tids@[j]].insert(rid, 0usize),
                forall|j: int| k <= j < tids.len() ==> self@.allocation[#[trigger] tids@[j]] == s.allocation[tids@[j]],
                self@.need == s.need,
                self@.available == s.available.insert(rid, count),
            decreases tids.len() - k,
        {
            let t = tids[k];
            assert(tids@.to_set().contains(t));
            let mut row = table_row(&self.allocation, t).clone();
            row.insert(rid, 0);
            let before = self.allocation.clone();
            self.allocation.insert(t, row);
            proof {
                lemma_table_insert(before, self.allocation, t, row);
                assert forall|j: int| 0 <= j < tids.len() && j != k implies tids@[j] != t by {}
            }
            k += 1;
        }
        let tids = keys_of(&self.need);
        let mut k: usize = 0;
        let ghost alloc_done = self@.allocation;
        while k < tids.len()
            invariant
                k <= tids.len(),
                tids@.no_duplicates(),
                tids@.to_set() =~= s.need.dom(),
                self@.need.dom() =~= s.need.dom(),
                forall|j: int| 0 <= j < k ==> self@.need[#[trigger] tids@[j]] == s.need[tids@[j]].insert(rid, 0usize),
                forall|j: int| k <= j < tids.len() ==> self@.need[#[trigger] tids@[j]] == s.need[tids@[j]],
                self@.allocation == alloc_done,
                self@.available == s.available.insert(rid, count),
            decreases tids.len() - k,
        {
            let t = tids[k];
            assert(tids@.to_set().contains(t));
            let mut row = table_row(&self.need, t).clone();
            row.insert(rid, 0);
            let before = self.need.clone();
            self.need.insert(t, row);
            proof {
                lemma_table_insert(before, self.need, t, row);
                assert forall|j: int| 0 <= j < tids.len() && j != k implies tids@[j] != t by {}
            }
            k += 1;
        }
        proof {
            let n = s.resource_created(rid, count);
            assert(self@.allocation =~= n.allocation) by {
                assert forall|t: usize| #[trigger] n.allocation.contains_key(t) implies self@.allocation[t] == n.allocation[t] by {
                    assert(s.allocation.dom().contains(t));
                }
            }
            assert(self@.need =~= n.need) by {
                assert forall|t: usize| #[trigger] n.need.contains_key(t) implies self@.need[t] == n.need[t] by {
                    let j = tids@.index_of(t);
                    assert(tids@.to_set().contains(t));
                    assert(tids@[j] == t);
                }
            }
            assert(self@ =~= n);
            assert forall|t: usize| #[trigger] n.need.contains_key(t) implies n.need[t].dom() =~= n.available.dom()
                && n.allocation[t].dom() =~= n.available.dom() by {
                assert(s.need.contains_key(t));
            }
            assert forall|ts: Seq<usize>, r: usize|
                ts.no_duplicates() && n.available.contains_key(r) implies n.available[r]
                + #[trigger] held_sum(n.allocation, ts, r) <= usize::MAX by {
                if r == rid {
                    assert forall|t: usize| #[trigger] held(n.allocation, t, r) == 0 by {}
                    lemma_held_sum_zero(n.allocation, ts, r);
                } else {
                    assert forall|t: usize| held(n.allocation, t, r) == #[trigger] held(s.allocation, t, r) by {}
                    lemma_held_sum_eq(s.allocation, n.allocation, ts, r);
                    assert(s.available[r] + held_sum(s.allocation, ts, r) <= usize::MAX);
                }
            }
        }
    }
}

/// What one thread holds alone.
proof fn lemma_held_sum_single(a: Table, t: usize, r: usize)
    ensures
        held_sum(a, seq![t], r) == held(a, t, r),
{
    assert(seq![t].drop_last() =~= Seq::<usize>::empty());
    assert(held_sum(a, Seq::<usize>::empty(), r) == 0);
    assert(seq![t].last() == t);
}

impl DeadlockDetectData {
    /// Thread `tid` takes one free unit of resource `rid`.
    pub fn down(&mut self, rid: usize, tid: usize)
        requires
            old(self)@.wf(),
            old(self)@.allocation.contains_key(tid),
            old(self)@.available.contains_key(rid),
            old(self)@.available[rid] > 0,
        ensures
            final(self)@ == old(self)@.taken(rid, tid),
            final(self)@.wf(),
    {
        let ghost s = self@;
        proof {
            assert(s.need.contains_key(tid));
            lemma_held_sum_single(s.allocation, tid, rid);
            assert(s.available[rid] + held_sum(s.allocation, seq![tid], rid) <= usize::MAX);
        }
        let mut row = table_row(&self.allocation, tid).clone();
        let pre = row_get(&row, rid);
        row.insert(rid, pre + 1);
        let before = self.allocation.clone();
        self.allocation.insert(tid, row);
        proof { lemma_table_insert(before, self.allocation, tid, row); }
        let free = row_get(&self.available, rid);
        self.available.insert(rid, free - 1);
        proof {
            let n = s.taken(rid, tid);
            assert(self@ =~= n);
            assert forall|t: usize| #[trigger] n.need.contains_key(t) implies n.need[t].dom() =~= n.available.dom()
                && n.allocation[t].dom() =~= n.available.dom() by {
                assert(s.need.contains_key(t));
            }
            assert forall|ts: Seq<usize>, r: usize|
                ts.no_duplicates() && n.available.contains_key(r) implies n.available[r]
                + #[trigger] held_sum(n.allocation, ts, r) <= usize::MAX by {
                assert(s.available[r] + held_sum(s.allocation, ts, r) <= usize::MAX);
                if r == rid {
                    assert forall|t: usize| t != tid implies held(n.allocation, t, r) == #[trigger] held(s.allocation, t, r) by {}
                    lemma_held_sum_bump(s.allocation, n.allocation, ts, tid, r, 1);
                } else {
                    assert forall|t: usize| held(n.allocation, t, r) == #[trigger] held(s.allocation, t, r) by {}
                    lemma_held_sum_eq(s.allocation, n.allocation, ts, r);
                }
            }
        }
    }

    /// Thread `tid` waits for one more unit of resource `rid`.
    pub fn need(&mut self, tid: usize, rid: usize)
        requires
            old(self)@.wf(),
            old(self)@.need.contains_key(tid),
            old(self)@.available.contains_key(rid),
            old(self)@.need[tid][rid] < usize::MAX,
        ensures
            final(self)@ == old(self)@.need_changed(tid, rid, 1),
            final(self)@.wf(),
    {
        let ghost s = self@;
        let mut row = table_row(&self.need, tid).clone();
        let pre = row_get(&row, rid);
        row.insert(rid, pre + 1);
        let before = self.need.clone();
        self.need.insert(tid, row);
        proof {
            lemma_table_insert(before, self.need, tid, row);
            let n = s.need_changed(tid, rid, 1);
            assert(self@ =~= n);
            assert forall|t: usize| #[trigger] n.need.contains_key(t) implies n.need[t].dom() =~= n.available.dom()
                && n.allocation[t].dom() =~= n.available.dom() by {
                assert(s.need.contains_key(t));
            }
        }
    }

    /// Thread `tid` waits for one unit of resource `rid` less.
    pub fn satisfy(&mut self, tid: usize, rid: usize)
        requires
            old(self)@.wf(),
            old(self)@.need.contains_key(tid),
            old(self)@.available.contains_key(rid),
            old(self)@.need[tid][rid] > 0,
        ensures
            final(self)@ == old(self)@.need_changed(tid, rid, -1),
            final(self)@.wf(),
    {
        let ghost s = self@;
        let mut row = table_row(&self.need, tid).clone();
        let pre = row_get(&row, rid);
        row.insert(rid, pre - 1);
        let before = self.need.clone();
        self.need.insert(tid, row);
        proof {
            lemma_table_insert(before, self.need, tid, row);
            let n = s.need_changed(tid, rid, -1);
            assert(self@ =~= n);
            assert forall|t: usize| #[trigger] n.need.contains_key(t) implies n.need[t].dom() =~= n.available.dom()
                && n.allocation[t].dom() =~= n.available.dom() by {
                assert(s.need.contains_key(t));
            }
        }
    }

    /// Thread `tid` gives one unit of resource `rid` back.
    pub fn up(&mut self, rid: usize, tid: usize)
        requires
            old(self)@.wf(),
            old(self)@.allocation.contains_key(tid),
            old(self)@.available.contains_key(rid),
            old(self)@.allocation[tid][rid] > 0,
        ensures
            final(self)@ == old(self)@.given_back(rid, tid),
            final(self)@.wf(),
    {
        let ghost s = self@;
        proof {
            assert(s.need.contains_key(tid));
            lemma_held_sum_single(s.allocation, tid, rid);
            assert(s.available[rid] + held_sum(s.allocation, seq![tid], rid) <= usize::MAX);
        }
        let mut row = table_row(&self.allocation, tid).clone();
        let pre = row_get(&row, rid);
        row.insert(rid, pre - 1);
        let before = self.allocation.clone();
        self.allocation.insert(tid, row);
        proof { lemma_table_insert(before, self.allocation, tid, row); }
        let free = row_get(&self.available, rid);
        self.available.insert(rid, free + 1);
        proof {
            let n = s.given_back(rid, tid);
            assert(self@ =~= n);
            assert forall|t: usize| #[trigger] n.need.contains_key(t) implies n.need[t].dom() =~= n.available.dom()
                && n.allocation[t].dom() =~= n.available.dom() by {
                assert(s.need.contains_key(t));
            }
            assert forall|ts: Seq<usize>, r: usize|
                ts.no_duplicates() && n.available.contains_key(r) implies n.available[r]
                + #[trigger] held_sum(n.allocation, ts, r) <= usize::MAX by {
                assert(s.available[r] + held_sum(s.allocation, ts, r) <= usize::MAX);
                if r == rid {
                    assert forall|t: usize| t != tid implies held(n.allocation, t, r) == #[trigger] held(s.allocation, t, r) by {}
                    lemma_held_sum_bump(s.allocation, n.allocation, ts, tid, r, -1);
                    if !ts.contains(tid) {
                        lemma_push_no_dup(ts, tid);
                        lemma_held_sum_push(s.allocation, ts, tid, r);
                        assert(s.available[r] + held_sum(s.allocation, ts.push(tid), r) <= usize::MAX);
                    }
                } else {
                    assert forall|t: usize| held(n.allocation, t, r) == #[trigger] held(s.allocation, t, r) by {}
                    lemma_held_sum_eq(s.allocation, n.allocation, ts, r);
                }
            }
        }
    }
}

// ---------------------------------------------------------------------------
// Laws relating the operations.

/// Taking a unit of `rid` moves exactly one unit from the free units of
/// `rid` to what `tid` holds of it; every other count stays.
pub proof fn lemma_take_moves_one_unit(s: DeadlockState, rid: usize, tid: usize)
    requires
        s.wf(),
        s.allocation.contains_key(tid),
        s.available.contains_key(rid),
        s.available[rid] > 0,
    ensures
        s.taken(rid, tid).available[rid] + 1 == s.available[rid],
        held(s.taken(rid, tid).allocation, tid, rid) == held(s.allocation, tid, rid) + 1,
        forall|r: usize| r != rid ==> #[trigger] s.taken(rid, tid).available.contains_key(r) == s.available.contains_key(r)
            && s.taken(rid, tid).available[r] == s.available[r],
        forall|t: usize, r: usize| (t, r) != (tid, rid) ==> #[trigger] held(s.taken(rid, tid).allocation, t, r) == held(
            s.allocation,
            t,
            r,
        ),
        s.taken(rid, tid).need == s.need,
{
    assert(s.need.contains_key(tid));
    lemma_held_sum_single(s.allocation, tid, rid);
    assert(s.available[rid] + held_sum(s.allocation, seq![tid], rid) <= usize::MAX);
}

/// Giving a unit of `rid` back moves exactly one unit from what `tid` holds
/// of it to the free units of `rid`; every other count stays.
pub proof fn lemma_give_back_moves_one_unit(s: DeadlockState, rid: usize, tid: usize)
    requires
        s.wf(),
        s.allocation.contains_key(tid),
        s.available.contains_key(rid),
        s.allocation[tid][rid] > 0,
    ensures
        s.given_back(rid, tid).available[rid] == s.available[rid] + 1,
        held(s.given_back(rid, tid).allocation, tid, rid) + 1 == held(s.allocation, tid, rid),
        forall|r: usize| r != rid ==> #[trigger] s.given_back(rid, tid).available.contains_key(r) == s.available.contains_key(r)
            && s.given_back(rid, tid).available[r] == s.available[r],
        forall|t: usize, r: usize| (t, r) != (tid, rid) ==> #[trigger] held(s.given_back(rid, tid).allocation, t, r) == held(
            s.allocation,
            t,
            r,
        ),
        s.given_back(rid, tid).need == s.need,
{
    assert(s.need.contains_key(tid));
    assert(s.allocation[tid].contains_key(rid));
    lemma_held_sum_single(s.allocation, tid, rid);
    assert(s.available[rid] + held_sum(s.allocation, seq![tid], rid) <= usize::MAX);
}

/// Raising a need adds one to what `tid` needs of `rid`, and meeting one
/// takes one away; every other count stays.
pub proof fn lemma_need_moves_by_one(s: DeadlockState, tid: usize, rid: usize, delta: int)
    requires
        s.wf(),
        s.need.contains_key(tid),
        s.available.contains_key(rid),
        delta == 1 || delta == -1,
        0 <= s.need[tid][rid] + delta <= usize::MAX,
    ensures
        s.need_changed(tid, rid, delta).need[tid][rid] == s.need[tid][rid] + delta,
        s.need_changed(tid, rid, delta).need.dom() == s.need.dom(),
        forall|t: usize, r: usize| #[trigger] s.need.contains_key(t) && s.need[t].contains_key(r) && (t, r) != (tid, rid)
            ==> #[trigger] s.need_changed(tid, rid, delta).need[t][r] == s.need[t][r],
        s.need_changed(tid, rid, delta).need[tid].dom() == s.need[tid].dom(),
        s.need_changed(tid, rid, delta).allocation == s.allocation,
        s.need_changed(tid, rid, delta).available == s.available,
{
    assert(s.need[tid].contains_key(rid));
    assert(s.need_changed(tid, rid, delta).need.dom() =~= s.need.dom());
    assert(s.need_changed(tid, rid, delta).need[tid].dom() =~= s.need[tid].dom());
}

/// Registering thread `tid` gives it a row of zeros for every resource in
/// both tables and leaves the other threads and the free units alone;
/// forgetting it removes its rows and leaves the rest alone.
pub proof fn lemma_thread_rows(s: DeadlockState, tid: usize)
    ensures
        s.thread_created(tid).need.contains_key(tid),
        s.thread_created(tid).allocation.contains_key(tid),
        forall|r: usize| #[trigger] s.thread_created(tid).need[tid].contains_key(r) == s.available.contains_key(r),
        forall|r: usize| #[trigger] s.thread_created(tid).allocation[tid].contains_key(r) == s.available.contains_key(r),
        forall|r: usize| s.available.contains_key(r) ==> #[trigger] s.thread_created(tid).need[tid][r] == 0
            && s.thread_created(tid).allocation[tid][r] == 0,
        forall|t: usize| t != tid ==> (#[trigger] s.thread_created(tid).need.contains_key(t) == s.need.contains_key(t)
            && s.thread_created(tid).need[t] == s.need[t] && s.thread_created(tid).allocation[t] == s.allocation[t]),
        s.thread_created(tid).available == s.available,
        !s.thread_released(tid).need.contains_key(tid),
        !s.thread_released(tid).allocation.contains_key(tid),
        forall|t: usize| t != tid ==> (#[trigger] s.thread_released(tid).need.contains_key(t) == s.need.contains_key(t)
            && s.thread_released(tid).need[t] == s.need[t] && s.thread_released(tid).allocation[t] == s.allocation[t]),
        s.thread_released(tid).available == s.available,
{
}

/// Registering resource `rid` touches nothing of any other resource: the
/// free units, the holdings and the needs of every other resource stay as
/// they were, and every thread holds and needs none of `rid`.
pub proof fn lemma_resource_created_keeps_others(s: DeadlockState, rid: usize, count: usize)
    requires
        s.wf(),
    ensures
        s.resource_created(rid, count).available == s.available.insert(rid, count),
        s.resource_created(rid, count).allocation.dom() == s.allocation.dom(),
        s.resource_created(rid, count).need.dom() == s.need.dom(),
        forall|t: usize, r: usize| #[trigger] s.allocation.contains_key(t) && r != rid ==> (
            #[trigger] s.resource_created(rid, count).allocation[t].contains_key(r) == s.allocation[t].contains_key(r)
            && s.resource_created(rid, count).allocation[t][r] == s.allocation[t][r]),
        forall|t: usize, r: usize| #[trigger] s.need.contains_key(t) && r != rid ==> (
            #[trigger] s.resource_created(rid, count).need[t].contains_key(r) == s.need[t].contains_key(r)
            && s.resource_created(rid, count).need[t][r] == s.need[t][r]),
        forall|t: usize| #[trigger] s.need.contains_key(t) ==> s.resource_created(rid, count).allocation[t][rid] == 0
            && s.resource_created(rid, count).need[t][rid] == 0,
{
    let n = s.resource_created(rid, count);
    assert(n.allocation.dom() =~= s.allocation.dom());
    assert(n.need.dom() =~= s.need.dom());
}

/// Registering a new resource keeps the answer of the check: no thread holds or needs
/// any of it, so the state after it is deadlock-free if and only if the
/// state before it is.
pub proof fn lemma_new_resource_keeps_verdict(s: DeadlockState, rid: usize, count: usize)
    requires
        s.wf(),
        !s.available.contains_key(rid),
    ensures
        s.resource_created(rid, count).deadlock_free() == s.deadlock_free(),
{
    let n = s.resource_created(rid, count);
    lemma_resource_created_keeps_others(s, rid, count);
    assert(n.need.dom() =~= s.need.dom());
    assert forall|r: usize, t: usize| r != rid implies held(n.allocation, t, r) == #[trigger] held(s.allocation, t, r) by {}
    if s.deadlock_free() {
        let order = choose|order: Seq<usize>| #[trigger] s.is_safe_sequence(order);
        assert forall|i: int| 0 <= i < order.len() implies #[trigger] n.can_finish(order.take(i), order[i]) by {
            assert(s.can_finish(order.take(i), order[i]));
            assert(order.to_set().contains(order[i]));
            assert forall|r: usize| #[trigger] n.need[order[i]].contains_key(r) implies n.need[order[i]][r]
                <= n.available[r] + held_sum(n.allocation, order.take(i), r) by {
                if r != rid {
                    assert(s.need[order[i]].contains_key(r));
                    lemma_held_sum_eq(s.allocation, n.allocation, order.take(i), r);
                }
            }
        }
        assert(n.is_safe_sequence(order));
    }
    if n.deadlock_free() {
        let order = choose|order: Seq<usize>| #[trigger] n.is_safe_sequence(order);
        assert forall|i: int| 0 <= i < order.len() implies #[trigger] s.can_finish(order.take(i), order[i]) by {
            assert(n.can_finish(order.take(i), order[i]));
            assert(order.to_set().contains(order[i]));
            assert forall|r: usize| #[trigger] s.need[order[i]].contains_key(r) implies s.need[order[i]][r]
                <= s.available[r] + held_sum(s.allocation, order.take(i), r) by {
                assert(r != rid);
                assert(n.need[order[i]].contains_key(r));
                lemma_held_sum_eq(s.allocation, n.allocation, order.take(i), r);
            }
        }
        assert(s.is_safe_sequence(order));
    }
}

/// Adding an idle thread, one holding and needing no unit, leaves the
/// state deadlock-free if and only if it is deadlock-free beforehand.
pub proof fn lemma_idle_thread_keeps_verdict(s: DeadlockState, tid: usize)
    requires
        s.wf(),
        !s.need.contains_key(tid),
    ensures
        s.thread_created(tid).deadlock_free() == s.deadlock_free(),
{
    let n = s.thread_created(tid);
    assert(!s.allocation.contains_key(tid));
    assert forall|r: usize, t: usize| held(n.allocation, t, r) == #[trigger] held(s.allocation, t, r) by {}
    if s.deadlock_free() {
        let order = choose|order: Seq<usize>| #[trigger] s.is_safe_sequence(order);
        let o2 = order.push(tid);
        assert(!order.contains(tid)) by {
            if order.contains(tid) {
                assert(order.to_set().contains(tid));
            }
        }
        lemma_push_no_dup(order, tid);
        assert(o2.to_set() =~= n.need.dom()) by {
            assert forall|x: usize| o2.to_set().contains(x) implies n.need.dom().contains(x) by {
                let j = o2.index_of(x);
                if j < order.len() {
                    assert(order[j] == x);
                    assert(order.to_set().contains(x));
                }
            }
            assert forall|x: usize| n.need.dom().contains(x) implies o2.to_set().contains(x) by {
                if x == tid {
                    assert(o2[order.len() as int] == x);
                } else {
                    assert(order.to_set().contains(x));
                    let j = order.index_of(x);
                    assert(o2[j] == x);
                }
            }
        }
        assert forall|i: int| 0 <= i < o2.len() implies #[trigger] n.can_finish(o2.take(i), o2[i]) by {
            if i < order.len() {
                assert(o2.take(i) =~= order.take(i));
                assert(s.can_finish(order.take(i), order[i]));
                assert(order.to_set().contains(order[i]));
                assert forall|r: usize| #[trigger] n.need[o2[i]].contains_key(r) implies n.need[o2[i]][r]
                    <= n.available[r] + held_sum(n.allocation, o2.take(i), r) by {
                    lemma_held_sum_eq(s.allocation, n.allocation, order.take(i), r);
                }
            }
        }
        assert(n.is_safe_sequence(o2));
    }
    if n.deadlock_free() {
        let o2 = choose|order: Seq<usize>| #[trigger] n.is_safe_sequence(order);
        assert(o2.to_set().contains(tid));
        let k = o2.index_of(tid);
        let order = o2.remove(k);
        assert(order.no_duplicates()) by {
            assert forall|i: int, j: int| 0 <= i < order.len() && 0 <= j < order.len() && i != j
                implies order[i] != order[j] by {
                let ii = if i < k { i } else { i + 1 };
                let jj = if j < k { j } else { j + 1 };
                assert(order[i] == o2[ii]);
                assert(order[j] == o2[jj]);
            }
        }
        assert(order.to_set() =~= s.need.dom()) by {
            assert forall|x: usize| order.to_set().contains(x) implies s.need.dom().contains(x) by {
                let j = order.index_of(x);
                let jj = if j < k { j } else { j + 1 };
                assert(order[j] == o2[jj]);
                assert(o2.to_set().contains(x));
                assert(x != tid);
            }
            assert forall|x: usize| s.need.dom().contains(x) implies order.to_set().contains(x) by {
                assert(n.need.dom().contains(x));
                assert(o2.to_set().contains(x));
                let j = o2.index_of(x);
                assert(j != k);
                if j < k {
                    assert(order[j] == x);
                } else {
                    assert(order[j - 1] == x);
                }
            }
        }
        assert forall|i: int| 0 <= i < order.len() implies #[trigger] s.can_finish(order.take(i), order[i]) by {
            let j = if i < k { i } else { i + 1 };
            assert(order[i] == o2[j]);
            assert(n.can_finish(o2.take(j), o2[j]));
            assert(o2[j] != tid);
            assert(o2.to_set().contains(o2[j]));
            assert forall|r: usize| #[trigger] s.need[order[i]].contains_key(r) implies s.need[order[i]][r]
                <= s.available[r] + held_sum(s.allocation, order.take(i), r) by {
                assert(n.need[o2[j]].contains_key(r));
                lemma_held_sum_eq(s.allocation, n.allocation, order.take(i), r);
                if i < k {
                    assert(o2.take(j) =~= order.take(i));
                } else {
                    assert(o2.take(j).remove(k) =~= order.take(i));
                    lemma_held_sum_remove(n.allocation, o2.take(j), k, r);
                    assert(o2.take(j)[k] == tid);
                }
            }
        }
        assert(s.is_safe_sequence(order));
    }
}

/// Taking a unit and giving it back leaves the data as it was.
pub proof fn lemma_down_then_up(s: DeadlockState, rid: usize, tid: usize)
    requires
        s.wf(),
        s.allocation.contains_key(tid),
        s.available.contains_key(rid),
        s.available[rid] > 0,
    ensures
        s.taken(rid, tid).given_back(rid, tid) == s,
{
    let n = s.taken(rid, tid).given_back(rid, tid);
    assert(s.need.contains_key(tid));
    assert(s.allocation[tid].contains_key(rid));
    lemma_held_sum_single(s.allocation, tid, rid);
    assert(s.available[rid] + held_sum(s.allocation, seq![tid], rid) <= usize::MAX);
    assert(n.available =~= s.available);
    assert(n.allocation[tid] =~= s.allocation[tid]);
    assert(n.allocation =~= s.allocation);
    assert(n =~= s);
}

/// Raising a need and then meeting it leaves the data as it was.
pub proof fn lemma_need_then_satisfy(s: DeadlockState, tid: usize, rid: usize)
    requires
        s.wf(),
        s.need.contains_key(tid),
        s.available.contains_key(rid),
        s.need[tid][rid] < usize::MAX,
    ensures
        s.need_changed(tid, rid, 1).need_changed(tid, rid, -1) == s,
{
    let n = s.need_changed(tid, rid, 1).need_changed(tid, rid, -1);
    assert(s.need[tid].contains_key(rid));
    assert(n.need[tid] =~= s.need[tid]);
    assert(n.need =~= s.need);
    assert(n =~= s);
}

/// Taking a unit moves it from the free units to the taker: the free units
/// plus what any set of threads that includes the taker holds stay the same.
pub proof fn lemma_down_conserves(s: DeadlockState, rid: usize, tid: usize, ts: Seq<usize>)
    requires
        s.wf(),
        s.allocation.contains_key(tid),
        s.available.contains_key(rid),
        s.available[rid] > 0,
        ts.no_duplicates(),
        ts.contains(tid),
    ensures
        s.taken(rid, tid).available[rid] + held_sum(s.taken(rid, tid).allocation, ts, rid)
            == s.available[rid] + held_sum(s.allocation, ts, rid),
{
    let n = s.taken(rid, tid);
    assert(s.need.contains_key(tid));
    lemma_held_sum_single(s.allocation, tid, rid);
    assert(s.available[rid] + held_sum(s.allocation, seq![tid], rid) <= usize::MAX);
    assert forall|t: usize| t != tid implies held(n.allocation, t, rid) == #[trigger] held(s.allocation, t, rid) by {}
    lemma_held_sum_bump(s.allocation, n.allocation, ts, tid, rid, 1);
}

/// Giving a unit back moves it from the giver to the free units.
pub proof fn lemma_up_conserves(s: DeadlockState, rid: usize, tid: usize, ts: Seq<usize>)
    requires
        s.wf(),
        s.allocation.contains_key(tid),
        s.available.contains_key(rid),
        s.allocation[tid][rid] > 0,
        ts.no_duplicates(),
        ts.contains(tid),
    ensures
        s.given_back(rid, tid).available[rid] + held_sum(s.given_back(rid, tid).allocation, ts, rid)
            == s.available[rid] + held_sum(s.allocation, ts, rid),
{
    let n = s.given_back(rid, tid);
    assert(s.need.contains_key(tid));
    lemma_held_sum_single(s.allocation, tid, rid);
    assert(s.available[rid] + held_sum(s.allocation, seq![tid], rid) <= usize::MAX);
    assert forall|t: usize| t != tid implies held(n.allocation, t, rid) == #[trigger] held(s.allocation, t, rid) by {}
    lemma_held_sum_bump(s.allocation, n.allocation, ts, tid, rid, -1);
}

} // verus!
