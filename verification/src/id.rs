//! Recycling allocator of small integer ids (thread ids, process ids).
use vstd::prelude::*;

verus! {

/// Hands out ids `0, 1, 2, ...`, reusing the most recently returned id
/// first.
pub struct RecycleAllocator {
    /// Every id below this one has been handed out at some time.
    pub current: usize,
    /// Ids handed back and not yet handed out again, the last one first.
    pub recycled: Vec<usize>,
}

/// The mathematical model of a [`RecycleAllocator`].
#[verifier::ext_equal]
pub struct RecycleState {
    pub current: usize,
    pub recycled: Seq<usize>,
}

impl View for RecycleAllocator {
    type V = RecycleState;

    open spec fn view(&self) -> RecycleState {
        RecycleState { current: self.current, recycled: self.recycled@ }
    }
}

impl RecycleState {
    /// Handed-back ids are distinct and were handed out before.
    pub open spec fn wf(self) -> bool {
        &&& self.recycled.no_duplicates()
        &&& forall|i: int| 0 <= i < self.recycled.len() ==> #[trigger] self.recycled[i] < self.current
    }

    /// The ids currently handed out.
    pub open spec fn in_use(self) -> Set<usize> {
        Set::new(|id: usize| id < self.current && !self.recycled.contains(id))
    }

    /// An id can be handed out without the counter overflowing.
    pub open spec fn can_alloc(self) -> bool {
        self.recycled.len() > 0 || self.current < usize::MAX
    }

    /// The id the next allocation hands out.
    pub open spec fn next_id(self) -> usize {
        if self.recycled.len() > 0 {
            self.recycled.last()
        } else {
            self.current
        }
    }

    /// The allocator after handing out `next_id`.
    pub open spec fn allocated(self) -> RecycleState {
        if self.recycled.len() > 0 {
            RecycleState { current: self.current, recycled: self.recycled.drop_last() }
        } else {
            RecycleState { current: (self.current + 1) as usize, recycled: self.recycled }
        }
    }

    /// The allocator after `id` is handed back.
    pub open spec fn deallocated(self, id: usize) -> RecycleState {
        RecycleState { current: self.current, recycled: self.recycled.push(id) }
    }
}

impl RecycleAllocator {
    /// An allocator that has handed out nothing.
    pub fn new() -> (a: Self)
        ensures
            a@.current == 0,
            a@.recycled == Seq::<usize>::empty(),
            a@.wf(),
            a@.in_use() == Set::<usize>::empty(),
    {
        let a = RecycleAllocator { current: 0, recycled: Vec::new() };
        assert(a@.in_use() =~= Set::<usize>::empty());
        a
    }

    /// Hands out the most recently returned id, or else the next fresh one.
    pub fn alloc_id(&mut self) -> (id: usize)
        requires
            old(self)@.wf(),
            old(self)@.can_alloc(),
        ensures
            id == old(self)@.next_id(),
            final(self)@ == old(self)@.allocated(),
            final(self)@.wf(),
            !old(self)@.in_use().contains(id),
            final(self)@.in_use() == old(self)@.in_use().insert(id),
    {
        proof {
            lemma_alloc_step(self@);
        }
        if let Some(id) = self.recycled.pop() {
            id
        } else {
            self.current += 1;
            self.current - 1
        }
    }

    /// Takes back id `id`, which must be in use.
    pub fn dealloc_id(&mut self, id: usize)
        requires
            old(self)@.wf(),
            id < old(self)@.current,
            !old(self)@.recycled.contains(id),
        ensures
            final(self)@ == old(self)@.deallocated(id),
            final(self)@.wf(),
            final(self)@.in_use() == old(self)@.in_use().remove(id),
    {
        let ghost s = self@;
        self.recycled.push(id);
        proof {
            assert forall|i: int, j: int| 0 <= i < self.recycled.len() && 0 <= j < self.recycled.len() && i != j
                implies self.recycled@[i] != self.recycled@[j] by {
                if i < s.recycled.len() && j < s.recycled.len() {
                } else if i < s.recycled.len() {
                    assert(s.recycled.contains(s.recycled[i]));
                } else {
                    assert(s.recycled.contains(s.recycled[j]));
                }
            }
            assert forall|x: usize| #[trigger] self@.in_use().contains(x) == s.in_use().remove(id).contains(x) by {
                if s.recycled.contains(x) {
                    let j = s.recycled.index_of(x);
                    assert(self.recycled@[j] == x);
                }
                if self.recycled@.contains(x) && x != id {
                    let j = self.recycled@.index_of(x);
                    assert(j < s.recycled.len());
                    assert(s.recycled[j] == x);
                }
                if x == id {
                    assert(self.recycled@[s.recycled.len() as int] == id);
                }
            }
            assert(self@.in_use() =~= s.in_use().remove(id));
        }
    }
}


/// Removing an entry keeps a sequence free of duplicates.
pub proof fn lemma_remove_no_dup(xs: Seq<usize>, k: int)
    requires
        xs.no_duplicates(),
        0 <= k < xs.len(),
    ensures
        xs.remove(k).no_duplicates(),
        forall|x: usize| #[trigger] xs.remove(k).contains(x) <==> xs.contains(x) && x != xs[k],
{
    let rest = xs.remove(k);
    assert forall|i: int, j: int| 0 <= i < rest.len() && 0 <= j < rest.len() && i != j
        implies rest[i] != rest[j] by {
        let ii = if i < k { i } else { i + 1 };
        let jj = if j < k { j } else { j + 1 };
        assert(rest[i] == xs[ii]);
        assert(rest[j] == xs[jj]);
    }
    assert forall|x: usize| #[trigger] rest.contains(x) <==> xs.contains(x) && x != xs[k] by {
        if rest.contains(x) {
            let i = rest.index_of(x);
            let ii = if i < k { i } else { i + 1 };
            assert(rest[i] == xs[ii]);
            assert(ii != k);
        }
        if xs.contains(x) && x != xs[k] {
            let i = xs.index_of(x);
            assert(i != k);
            if i < k {
                assert(rest[i] == x);
            } else {
                assert(rest[i - 1] == x);
            }
        }
    }
}

/// A duplicate-free sequence of values below `n` has at most `n` entries.
pub proof fn lemma_bounded_distinct_len(xs: Seq<usize>, n: usize)
    requires
        xs.no_duplicates(),
        forall|i: int| 0 <= i < xs.len() ==> #[trigger] xs[i] < n,
    ensures
        xs.len() <= n,
    decreases n,
{
    if n == 0 {
        if xs.len() > 0 {
            assert(xs[0] < n);
        }
    } else {
        let m = (n - 1) as usize;
        if xs.contains(m) {
            let k = xs.index_of(m);
            lemma_remove_no_dup(xs, k);
            let rest = xs.remove(k);
            assert forall|i: int| 0 <= i < rest.len() implies #[trigger] rest[i] < m by {
                assert(rest.contains(rest[i]));
                let ii = if i < k { i } else { i + 1 };
                assert(rest[i] == xs[ii]);
            }
            lemma_bounded_distinct_len(rest, m);
        } else {
            assert forall|i: int| 0 <= i < xs.len() implies #[trigger] xs[i] < m by {
                assert(xs.contains(xs[i]));
            }
            lemma_bounded_distinct_len(xs, m);
        }
    }
}

/// No more ids are handed back than were ever handed out.
pub proof fn lemma_recycled_len(s: RecycleState)
    requires
        s.wf(),
    ensures
        s.recycled.len() <= s.current,
{
    lemma_bounded_distinct_len(s.recycled, s.current);
}

/// One allocation hands out an id not in use and marks it in use.
pub proof fn lemma_alloc_step(s: RecycleState)
    requires
        s.wf(),
        s.can_alloc(),
    ensures
        s.allocated().wf(),
        !s.in_use().contains(s.next_id()),
        s.allocated().in_use() == s.in_use().insert(s.next_id()),
        s.next_id() < s.allocated().current,
{
    let id = s.next_id();
    let a = s.allocated();
    if s.recycled.len() > 0 {
        let r = s.recycled;
        let k = r.len() - 1;
        lemma_remove_no_dup(r, k);
        assert(r.remove(k) =~= r.drop_last());
        assert(r.contains(r[k]));
        assert forall|i: int| 0 <= i < a.recycled.len() implies #[trigger] a.recycled[i] < a.current by {
            assert(a.recycled[i] == r[i]);
        }
        assert forall|x: usize| #[trigger] a.in_use().contains(x) == s.in_use().insert(id).contains(x) by {
            assert(a.recycled.contains(x) <==> r.contains(x) && x != r[k]);
        }
        assert(a.in_use() =~= s.in_use().insert(id));
    } else {
        assert(a.in_use() =~= s.in_use().insert(id));
    }
}

/// Handing an id back and allocating again yields the same id and the
/// allocator as it was.
pub proof fn lemma_dealloc_then_alloc(s: RecycleState, id: usize)
    requires
        s.wf(),
        id < s.current,
        !s.recycled.contains(id),
    ensures
        s.deallocated(id).next_id() == id,
        s.deallocated(id).allocated() == s,
{
    assert(s.recycled.push(id).drop_last() =~= s.recycled);
}

/// An allocated id is in use until it is handed back; then it is free.
pub proof fn lemma_alloc_then_dealloc(s: RecycleState)
    requires
        s.wf(),
        s.can_alloc(),
    ensures
        s.allocated().in_use().contains(s.next_id()),
        s.allocated().current > s.next_id(),
        s.allocated().deallocated(s.next_id()).in_use() == s.in_use(),
{
    let a = s.allocated();
    let id = s.next_id();
    if s.recycled.len() > 0 {
        assert(s.recycled.contains(s.recycled[s.recycled.len() - 1]));
        assert(!a.recycled.contains(id)) by {
            if a.recycled.contains(id) {
                let j = a.recycled.index_of(id);
                assert(s.recycled[j] == s.recycled[s.recycled.len() - 1]);
            }
        }
        assert(a.deallocated(id).recycled =~= s.recycled);
    } else {
    }
    assert(a.deallocated(id).in_use() =~= s.in_use()) by {
        assert forall|x: usize| #[trigger] a.deallocated(id).in_use().contains(x) == s.in_use().contains(x) by {
            if x == id && s.recycled.len() == 0 {
                assert(a.deallocated(id).recycled[0] == id);
            }
        }
    }
}

} // verus!
