//! Bump allocation: a cursor that only moves forward, with the whole region
//! reclaimed at once when the last outstanding allocation is freed.
//!
//! Memory is never reclaimed piece by piece: one long-lived allocation keeps
//! every later allocation's memory in use until it is freed too.
use vstd::prelude::*;

use crate::allocator::{align_up_spec, checked_align_up, is_power_of_two, lemma_align_up, AllocError};

verus! {

/// The abstract state of a bump allocator.
pub struct BumpState {
    pub heap_start: int,
    pub heap_end: int,
    pub next: int,
    pub allocations: int,
    pub initialized: bool,
}

impl BumpState {
    /// The cursor lies inside the heap and every quantity fits in a `usize`.
    pub open spec fn wf(self) -> bool {
        &&& self.cursor_in_heap()
        &&& 0 <= self.allocations <= usize::MAX
    }

    /// The cursor lies inside the heap, which lies inside the address space.
    pub open spec fn cursor_in_heap(self) -> bool {
        0 <= self.heap_start <= self.next <= self.heap_end <= usize::MAX
    }

    /// The state of an allocator that has not been given a heap yet.
    pub open spec fn empty() -> BumpState {
        BumpState { heap_start: 0, heap_end: 0, next: 0, allocations: 0, initialized: false }
    }

    /// The state right after the heap `[start, start + size)` is handed over.
    pub open spec fn initial(start: int, size: int) -> BumpState {
        BumpState {
            heap_start: start,
            heap_end: start + size,
            next: start,
            allocations: 0,
            initialized: true,
        }
    }

    /// What a request for `size` bytes aligned to `align` returns.
    pub open spec fn alloc_result(self, size: usize, align: usize) -> Result<usize, AllocError> {
        let start = align_up_spec(self.next, align as int);
        if start + size > usize::MAX {
            Err(AllocError::AddressOverflow)
        } else if start + size > self.heap_end {
            Err(AllocError::OutOfSpace)
        } else {
            Ok(start as usize)
        }
    }

    /// The state after a request for `size` bytes aligned to `align`.
    pub open spec fn after_alloc(self, size: usize, align: usize) -> BumpState {
        match self.alloc_result(size, align) {
            Ok(start) => BumpState {
                next: start + size,
                allocations: self.allocations + 1,
                ..self
            },
            Err(_) => self,
        }
    }

    /// The state after one allocation is freed.
    pub open spec fn after_dealloc(self) -> BumpState {
        let left = self.allocations - 1;
        BumpState {
            next: if left == 0 { self.heap_start } else { self.next },
            allocations: left,
            ..self
        }
    }
}

/// A bump allocator over one heap region.
pub struct BumpAllocator {
    heap_start: usize,
    heap_end: usize,
    next: usize,
    allocations: usize,
    initialized: bool,
}

impl View for BumpAllocator {
    type V = BumpState;

    closed spec fn view(&self) -> BumpState {
        BumpState {
            heap_start: self.heap_start as int,
            heap_end: self.heap_end as int,
            next: self.next as int,
            allocations: self.allocations as int,
            initialized: self.initialized,
        }
    }
}

impl BumpAllocator {
    /// Creates a bump allocator that has no heap yet.
    pub fn empty() -> (r: Self)
        ensures
            r@ == BumpState::empty(),
            r@.wf(),
    {
        BumpAllocator { heap_start: 0, heap_end: 0, next: 0, allocations: 0, initialized: false }
    }

    /// Hands the heap `[heap_start, heap_start + heap_size)` to the allocator.
    /// This may happen once only.
    pub fn init(&mut self, heap_start: usize, heap_size: usize)
        requires
            !old(self)@.initialized,
            heap_start + heap_size <= usize::MAX,
        ensures
            final(self)@ == BumpState::initial(heap_start as int, heap_size as int),
            final(self)@.wf(),
    {
        self.heap_start = heap_start;
        self.heap_end = heap_start + heap_size;
        self.next = heap_start;
        self.allocations = 0;
        self.initialized = true;
    }

    /// The number of allocations not freed yet.
    pub fn outstanding(&self) -> (r: usize)
        ensures
            r == self@.allocations,
    {
        self.allocations
    }

    /// Whether the allocator has been given its heap.
    pub fn is_initialized(&self) -> (r: bool)
        ensures
            r == self@.initialized,
    {
        self.initialized
    }

    /// Hands out `size` bytes aligned to `align` at the cursor, or fails and
    /// leaves the allocator unchanged.
    pub fn allocate(&mut self, size: usize, align: usize) -> (r: Result<usize, AllocError>)
        requires
            old(self)@.wf(),
            is_power_of_two(align as int),
            old(self)@.allocations < usize::MAX,
        ensures
            r == old(self)@.alloc_result(size, align),
            final(self)@ == old(self)@.after_alloc(size, align),
            final(self)@.wf(),
            r matches Ok(a) ==> old(self)@.next <= a && a + size <= old(self)@.heap_end && a % align == 0,
    {
        proof {
            lemma_alloc_in_heap(self@, size, align);
        }
        let alloc_start = match checked_align_up(self.next, align) {
            Some(a) => a,
            None => {
                return Err(AllocError::AddressOverflow);
            },
        };
        let alloc_end = match alloc_start.checked_add(size) {
            Some(end) => end,
            None => {
                return Err(AllocError::AddressOverflow);
            },
        };
        if alloc_end <= self.heap_end {
            self.next = alloc_end;
            self.allocations = self.allocations + 1;
            Ok(alloc_start)
        } else {
            Err(AllocError::OutOfSpace)
        }
    }

    /// Frees one allocation; when none is left outstanding the cursor returns
    /// to the start of the heap. The block itself is not examined.
    pub fn deallocate(&mut self, ptr: usize, size: usize, align: usize)
        requires
            old(self)@.wf(),
            old(self)@.allocations > 0,
        ensures
            final(self)@ == old(self)@.after_dealloc(),
            final(self)@.wf(),
    {
        self.allocations = self.allocations - 1;
        if self.allocations == 0 {
            self.next = self.heap_start;
        }
    }
}

/// The states and results of a run of requests `(size, align)` served one
/// after another, with nothing freed in between.
pub open spec fn run_allocs(s: BumpState, reqs: Seq<(usize, usize)>) -> (BumpState, Seq<Result<usize, AllocError>>)
    decreases reqs.len(),
{
    if reqs.len() == 0 {
        (s, seq![])
    } else {
        let rest = run_allocs(s.after_alloc(reqs[0].0, reqs[0].1), reqs.drop_first());
        (rest.0, seq![s.alloc_result(reqs[0].0, reqs[0].1)] + rest.1)
    }
}

/// The state after `n` allocations are freed one after another.
pub open spec fn run_deallocs(s: BumpState, n: nat) -> BumpState
    decreases n,
{
    if n == 0 {
        s
    } else {
        run_deallocs(s.after_dealloc(), (n - 1) as nat)
    }
}

/// A request served by a bump allocator lies inside the heap, at or after
/// the cursor, and moves the cursor to its end.
pub proof fn lemma_alloc_in_heap(s: BumpState, size: usize, align: usize)
    requires
        s.cursor_in_heap(),
        is_power_of_two(align as int),
    ensures
        s.after_alloc(size, align).heap_start == s.heap_start,
        s.after_alloc(size, align).heap_end == s.heap_end,
        s.after_alloc(size, align).next >= s.next,
        s.after_alloc(size, align).next <= s.heap_end,
        s.alloc_result(size, align) is Ok ==> {
            let a = s.alloc_result(size, align)->Ok_0;
            &&& s.next <= a
            &&& a + size == s.after_alloc(size, align).next
            &&& (a as int) % (align as int) == 0
        },
{
    lemma_align_up(s.next, align as int);
}

/// Successful requests of one run never overlap: each block ends at or
/// before the start of every block handed out after it, and all of them lie
/// inside the heap.
pub proof fn lemma_bump_blocks_disjoint(s: BumpState, reqs: Seq<(usize, usize)>)
    requires
        s.cursor_in_heap(),
        forall|i: int| 0 <= i < reqs.len() ==> is_power_of_two(#[trigger] reqs[i].1 as int),
    ensures
        ({
            let outs = run_allocs(s, reqs).1;
            &&& outs.len() == reqs.len()
            &&& forall|i: int| 0 <= i < reqs.len() && #[trigger] outs[i] is Ok ==> {
                &&& s.next <= outs[i]->Ok_0
                &&& outs[i]->Ok_0 + reqs[i].0 <= run_allocs(s, reqs).0.next
                &&& run_allocs(s, reqs).0.next <= s.heap_end
            }
            &&& forall|i: int, j: int|
                0 <= i < j < reqs.len() && #[trigger] outs[i] is Ok && #[trigger] outs[j] is Ok
                    ==> outs[i]->Ok_0 + reqs[i].0 <= outs[j]->Ok_0
        }),
        run_allocs(s, reqs).0.next >= s.next,
        run_allocs(s, reqs).0.heap_start == s.heap_start,
        run_allocs(s, reqs).0.heap_end == s.heap_end,
        run_allocs(s, reqs).0.next <= s.heap_end,
    decreases reqs.len(),
{
    if reqs.len() > 0 {
        let (size, align) = reqs[0];
        let s1 = s.after_alloc(size, align);
        let tail = reqs.drop_first();
        assert(is_power_of_two(reqs[0].1 as int));
        lemma_alloc_in_heap(s, size, align);
        assert forall|i: int| 0 <= i < tail.len() implies is_power_of_two(#[trigger] tail[i].1 as int) by {
            assert(tail[i] == reqs[i + 1]);
        }
        lemma_bump_blocks_disjoint(s1, tail);
        let outs = run_allocs(s, reqs).1;
        let rest = run_allocs(s1, tail).1;
        assert(outs == seq![s.alloc_result(size, align)] + rest);
        assert forall|i: int| 0 <= i < reqs.len() && #[trigger] outs[i] is Ok implies {
            &&& s.next <= outs[i]->Ok_0
            &&& outs[i]->Ok_0 + reqs[i].0 <= run_allocs(s, reqs).0.next
            &&& run_allocs(s, reqs).0.next <= s.heap_end
        } by {
            if i > 0 {
                assert(outs[i] == rest[i - 1]);
                assert(reqs[i] == tail[i - 1]);
            }
        }
        assert forall|i: int, j: int|
            0 <= i < j < reqs.len() && #[trigger] outs[i] is Ok && #[trigger] outs[j] is Ok
                implies outs[i]->Ok_0 + reqs[i].0 <= outs[j]->Ok_0 by {
            assert(outs[j] == rest[j - 1]);
            assert(reqs[j] == tail[j - 1]);
            if i > 0 {
                assert(outs[i] == rest[i - 1]);
                assert(reqs[i] == tail[i - 1]);
            }
        }
    }
}

/// The room that a run of requests needs at most: each request's size plus
/// the most padding that its alignment can cost.
pub open spec fn worst_case_need(reqs: Seq<(usize, usize)>) -> int
    decreases reqs.len(),
{
    if reqs.len() == 0 {
        0
    } else {
        reqs[0].0 + reqs[0].1 - 1 + worst_case_need(reqs.drop_first())
    }
}

/// A run of requests is served in full when their sizes, each with the most
/// padding its alignment can cost, add up to no more than the room left
/// after the cursor.
pub proof fn lemma_bump_all_fit(s: BumpState, reqs: Seq<(usize, usize)>)
    requires
        s.cursor_in_heap(),
        forall|i: int| 0 <= i < reqs.len() ==> is_power_of_two(#[trigger] reqs[i].1 as int),
        worst_case_need(reqs) <= s.heap_end - s.next,
    ensures
        run_allocs(s, reqs).1.len() == reqs.len(),
        forall|i: int| 0 <= i < reqs.len() ==> #[trigger] run_allocs(s, reqs).1[i] is Ok,
    decreases reqs.len(),
{
    if reqs.len() > 0 {
        let (size, align) = reqs[0];
        let tail = reqs.drop_first();
        assert(is_power_of_two(reqs[0].1 as int));
        lemma_align_up(s.next, align as int);
        crate::allocator::lemma_power_of_two_positive(align as int);
        assert forall|i: int| 0 <= i < tail.len() implies is_power_of_two(#[trigger] tail[i].1 as int) by {
            assert(tail[i] == reqs[i + 1]);
        }
        lemma_need_nonneg(tail);
        assert(s.alloc_result(size, align) is Ok);
        let s1 = s.after_alloc(size, align);
        lemma_bump_all_fit(s1, tail);
        let outs = run_allocs(s, reqs).1;
        let rest = run_allocs(s1, tail).1;
        assert(outs == seq![s.alloc_result(size, align)] + rest);
        assert forall|i: int| 0 <= i < reqs.len() implies #[trigger] outs[i] is Ok by {
            if i > 0 {
                assert(outs[i] == rest[i - 1]);
            }
        }
    }
}

proof fn lemma_need_nonneg(reqs: Seq<(usize, usize)>)
    requires
        forall|i: int| 0 <= i < reqs.len() ==> is_power_of_two(#[trigger] reqs[i].1 as int),
    ensures
        worst_case_need(reqs) >= 0,
    decreases reqs.len(),
{
    if reqs.len() > 0 {
        let tail = reqs.drop_first();
        assert(is_power_of_two(reqs[0].1 as int));
        crate::allocator::lemma_power_of_two_positive(reqs[0].1 as int);
        assert forall|i: int| 0 <= i < tail.len() implies is_power_of_two(#[trigger] tail[i].1 as int) by {
            assert(tail[i] == reqs[i + 1]);
        }
        lemma_need_nonneg(tail);
    }
}

/// A request that fails leaves the cursor where it was, so any request that
/// would have succeeded before it still succeeds, with the same address.
pub proof fn lemma_failed_alloc_keeps_cursor(s: BumpState, size: usize, align: usize, size2: usize, align2: usize)
    requires
        s.alloc_result(size, align) is Err,
    ensures
        s.after_alloc(size, align) == s,
        s.after_alloc(size, align).alloc_result(size2, align2) == s.alloc_result(size2, align2),
{
}

/// The number of successful requests in a run.
pub open spec fn count_ok(outs: Seq<Result<usize, AllocError>>) -> nat
    decreases outs.len(),
{
    if outs.len() == 0 {
        0
    } else {
        (if outs[0] is Ok { 1nat } else { 0nat }) + count_ok(outs.drop_first())
    }
}

proof fn lemma_run_counts(s: BumpState, reqs: Seq<(usize, usize)>)
    ensures
        run_allocs(s, reqs).0.allocations == s.allocations + count_ok(run_allocs(s, reqs).1),
        run_allocs(s, reqs).0.heap_start == s.heap_start,
        run_allocs(s, reqs).0.heap_end == s.heap_end,
        run_allocs(s, reqs).1.len() == reqs.len(),
    decreases reqs.len(),
{
    if reqs.len() > 0 {
        let s1 = s.after_alloc(reqs[0].0, reqs[0].1);
        lemma_run_counts(s1, reqs.drop_first());
        let outs = run_allocs(s, reqs).1;
        assert(outs.drop_first() == run_allocs(s1, reqs.drop_first()).1);
    }
}

proof fn lemma_count_all_ok(outs: Seq<Result<usize, AllocError>>)
    requires
        forall|i: int| 0 <= i < outs.len() ==> #[trigger] outs[i] is Ok,
    ensures
        count_ok(outs) == outs.len(),
    decreases outs.len(),
{
    if outs.len() > 0 {
        let tail = outs.drop_first();
        assert forall|i: int| 0 <= i < tail.len() implies #[trigger] tail[i] is Ok by {
            assert(tail[i] == outs[i + 1]);
        }
        lemma_count_all_ok(tail);
    }
}

proof fn lemma_deallocs_reset(s: BumpState, n: nat)
    requires
        s.allocations == n,
        n > 0,
    ensures
        run_deallocs(s, n).next == s.heap_start,
        run_deallocs(s, n).allocations == 0,
        run_deallocs(s, n).heap_start == s.heap_start,
        run_deallocs(s, n).heap_end == s.heap_end,
    decreases n,
{
    assert(run_deallocs(s, n) == run_deallocs(s.after_dealloc(), (n - 1) as nat));
    if n > 1 {
        lemma_deallocs_reset(s.after_dealloc(), (n - 1) as nat);
    } else {
        assert(run_deallocs(s.after_dealloc(), 0) == s.after_dealloc());
    }
}

/// When every one of `n` requests made with nothing outstanding succeeds,
/// freeing `n` allocations reclaims the whole heap: the next request is
/// served at the first suitably aligned address of the heap, which is its
/// start when the start is aligned.
pub proof fn lemma_full_reclaim(s: BumpState, reqs: Seq<(usize, usize)>, size: usize, align: usize)
    requires
        s.wf(),
        s.allocations == 0,
        reqs.len() > 0,
        forall|i: int| 0 <= i < reqs.len() ==> #[trigger] run_allocs(s, reqs).1[i] is Ok,
        is_power_of_two(align as int),
        s.heap_start % (align as int) == 0,
        s.heap_start + size <= s.heap_end,
    ensures
        ({
            let t = run_deallocs(run_allocs(s, reqs).0, reqs.len());
            &&& t.next == s.heap_start
            &&& t.allocations == 0
            &&& t.alloc_result(size, align) == Ok::<usize, AllocError>(s.heap_start as usize)
        }),
{
    lemma_run_counts(s, reqs);
    lemma_count_all_ok(run_allocs(s, reqs).1);
    let u = run_allocs(s, reqs).0;
    lemma_deallocs_reset(u, reqs.len());
    lemma_align_up(s.heap_start, align as int);
}

} // verus!
