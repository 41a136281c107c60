//! Free-list allocation: free regions are kept as `(start, size)` records in
//! list order, most recently inserted first. Requests are served first-fit,
//! the slack on either side of a block goes back on the list when it is big
//! enough to be worth a record, and freed blocks are merged with the free
//! regions they touch.
use vstd::prelude::*;

use crate::allocator::{align_up_spec, checked_align_up, is_power_of_two, lemma_align_up, AllocError};

verus! {

/// The smallest region that the allocator keeps track of, in bytes.
pub const MIN_REGION_SIZE: usize = 16;

/// The alignment that the start of the heap must have.
pub const REGION_ALIGN: usize = 8;

/// One free region of the heap.
#[derive(Debug, Clone, Copy, PartialEq, Eq, Structural)]
pub struct ListNode {
    pub start: usize,
    pub size: usize,
}

impl ListNode {
    /// The address one past the region's last byte.
    pub open spec fn end(self) -> int {
        self.start + self.size
    }

    /// Describes the free region of `size` bytes at `start`.
    pub fn new(start: usize, size: usize) -> (r: Self)
        ensures
            r == (ListNode { start, size }),
    {
        ListNode { start, size }
    }

    /// The region's first address.
    pub fn start_addr(&self) -> (r: usize)
        ensures
            r == self.start,
    {
        self.start
    }

    /// The address one past the region's last byte.
    pub fn end_addr(&self) -> (r: usize)
        requires
            self.end() <= usize::MAX,
        ensures
            r == self.end(),
    {
        self.start + self.size
    }
}

/// Whether a block of `size` bytes aligned to `align` fits in `n`.
pub open spec fn fits(n: ListNode, size: int, align: int) -> bool {
    align_up_spec(n.start as int, align) + size <= n.end()
}

/// The position of the first region of `s` that a request fits in.
pub open spec fn first_fit(s: Seq<ListNode>, size: int, align: int) -> Option<int>
    decreases s.len(),
{
    if s.len() == 0 {
        None
    } else if fits(s[0], size, align) {
        Some(0)
    } else {
        match first_fit(s.drop_first(), size, align) {
            Some(i) => Some(i + 1),
            None => None,
        }
    }
}

/// The one-record list holding `n` when it is big enough to be kept, and the
/// empty list otherwise.
pub open spec fn kept_slack(n: ListNode) -> Seq<ListNode> {
    if n.size >= MIN_REGION_SIZE {
        seq![n]
    } else {
        seq![]
    }
}

/// Whether region `n` overlaps or is adjacent to `[lo, hi)`.
pub open spec fn touches(n: ListNode, lo: int, hi: int) -> bool {
    n.start <= hi && lo <= n.end()
}

/// One pass over the list from its head: each region that touches the span
/// grown so far, starting from `[lo, hi)`, is taken out and merged into the
/// span. Gives the regions that stay and the bounds of the merged span.
pub open spec fn coalesce(s: Seq<ListNode>, lo: int, hi: int) -> (Seq<ListNode>, int, int)
    decreases s.len(),
{
    if s.len() == 0 {
        (s, lo, hi)
    } else if touches(s[0], lo, hi) {
        coalesce(
            s.drop_first(),
            if s[0].start < lo { s[0].start as int } else { lo },
            if s[0].end() > hi { s[0].end() } else { hi },
        )
    } else {
        let rest = coalesce(s.drop_first(), lo, hi);
        (seq![s[0]] + rest.0, rest.1, rest.2)
    }
}

/// The abstract state of a free-list allocator.
pub struct FreeListState {
    pub heap_start: int,
    pub heap_end: int,
    pub regions: Seq<ListNode>,
    pub initialized: bool,
}

impl FreeListState {
    /// Every free region lies inside the heap, which lies inside the address
    /// space; an allocator without a heap has no free region.
    pub open spec fn wf(self) -> bool {
        &&& 0 <= self.heap_start <= self.heap_end <= usize::MAX
        &&& forall|i: int|
            0 <= i < self.regions.len() ==> self.heap_start <= (#[trigger] self.regions[i]).start
                && self.regions[i].end() <= self.heap_end
        &&& !self.initialized ==> self.regions.len() == 0
    }

    /// The state of an allocator that has not been given a heap yet.
    pub open spec fn empty() -> FreeListState {
        FreeListState { heap_start: 0, heap_end: 0, regions: seq![], initialized: false }
    }

    /// The state right after the heap `[start, start + size)` is handed over.
    pub open spec fn initial(start: usize, size: usize) -> FreeListState {
        FreeListState {
            heap_start: start as int,
            heap_end: start + size,
            regions: seq![ListNode { start, size }],
            initialized: true,
        }
    }

    /// What a request for `size` bytes aligned to `align` returns: the first
    /// suitably aligned address of the first region that the block fits in.
    pub open spec fn alloc_result(self, size: usize, align: usize) -> Result<usize, AllocError> {
        match first_fit(self.regions, size as int, align as int) {
            Some(i) => Ok(align_up_spec(self.regions[i].start as int, align as int) as usize),
            None => Err(AllocError::Unsatisfiable),
        }
    }

    /// The state after a request for `size` bytes aligned to `align`: the
    /// chosen region leaves the list, and the slack before and after the
    /// block goes to its head when it is big enough to be kept.
    pub open spec fn after_alloc(self, size: usize, align: usize) -> FreeListState {
        match first_fit(self.regions, size as int, align as int) {
            Some(i) => {
                let n = self.regions[i];
                let a = align_up_spec(n.start as int, align as int);
                let before = ListNode { start: n.start, size: (a - n.start) as usize };
                let after = ListNode { start: (a + size) as usize, size: (n.end() - a - size) as usize };
                FreeListState {
                    regions: kept_slack(before) + kept_slack(after) + self.regions.remove(i),
                    ..self
                }
            },
            None => self,
        }
    }

    /// The state after the block of `size` bytes at `addr` is freed: it is
    /// merged with the regions it touches and the result goes to the head.
    pub open spec fn after_dealloc(self, addr: usize, size: usize) -> FreeListState {
        let merged = coalesce(self.regions, addr as int, addr + size);
        FreeListState {
            regions: seq![ListNode { start: merged.1 as usize, size: (merged.2 - merged.1) as usize }]
                + merged.0,
            ..self
        }
    }
}

/// `first_fit` names the first region that the request fits in, and none
/// when no region fits.
pub proof fn lemma_first_fit(s: Seq<ListNode>, size: int, align: int)
    ensures
        match first_fit(s, size, align) {
            Some(i) => 0 <= i < s.len() && fits(s[i], size, align) && forall|j: int|
                0 <= j < i ==> !fits(#[trigger] s[j], size, align),
            None => forall|j: int| 0 <= j < s.len() ==> !fits(#[trigger] s[j], size, align),
        },
    decreases s.len(),
{
    if s.len() > 0 {
        let t = s.drop_first();
        lemma_first_fit(t, size, align);
        if !fits(s[0], size, align) {
            match first_fit(t, size, align) {
                Some(i) => {
                    assert(s[i + 1] == t[i]);
                    assert forall|j: int| 0 <= j < i + 1 implies !fits(#[trigger] s[j], size, align) by {
                        if j > 0 {
                            assert(s[j] == t[j - 1]);
                        }
                    }
                },
                None => {
                    assert forall|j: int| 0 <= j < s.len() implies !fits(#[trigger] s[j], size, align) by {
                        if j > 0 {
                            assert(s[j] == t[j - 1]);
                        }
                    }
                },
            }
        }
    }
}

/// A region that fits, with none before it that does, is the first fit.
proof fn lemma_first_fit_at(s: Seq<ListNode>, size: int, align: int, i: int)
    requires
        0 <= i <= s.len(),
        forall|j: int| 0 <= j < i ==> !fits(#[trigger] s[j], size, align),
        i < s.len() ==> fits(s[i], size, align),
    ensures
        first_fit(s, size, align) == (if i < s.len() { Some(i) } else { None::<int> }),
{
    lemma_first_fit(s, size, align);
    match first_fit(s, size, align) {
        Some(k) => {
            if k < i {
                assert(!fits(s[k], size, align));
            } else if k > i {
                assert(!fits(s[i], size, align));
            }
        },
        None => {
            if i < s.len() {
                assert(!fits(s[i], size, align));
            }
        },
    }
}

/// Merging never shrinks the span, stays inside bounds that hold the span
/// and every region, and keeps only regions of the list.
pub proof fn lemma_coalesce_bounds(s: Seq<ListNode>, lo: int, hi: int, b0: int, b1: int)
    requires
        b0 <= lo <= hi <= b1,
        forall|i: int| 0 <= i < s.len() ==> b0 <= (#[trigger] s[i]).start && s[i].end() <= b1,
    ensures
        ({
            let c = coalesce(s, lo, hi);
            &&& b0 <= c.1 <= lo
            &&& hi <= c.2 <= b1
            &&& c.0.len() <= s.len()
            &&& forall|i: int| 0 <= i < c.0.len() ==> b0 <= (#[trigger] c.0[i]).start && c.0[i].end() <= b1
        }),
    decreases s.len(),
{
    if s.len() > 0 {
        let t = s.drop_first();
        assert forall|i: int| 0 <= i < t.len() implies b0 <= (#[trigger] t[i]).start && t[i].end() <= b1 by {
            assert(t[i] == s[i + 1]);
        }
        assert(b0 <= s[0].start && s[0].end() <= b1);
        if touches(s[0], lo, hi) {
            lemma_coalesce_bounds(
                t,
                if s[0].start < lo { s[0].start as int } else { lo },
                if s[0].end() > hi { s[0].end() } else { hi },
                b0,
                b1,
            );
        } else {
            lemma_coalesce_bounds(t, lo, hi, b0, b1);
            let rest = coalesce(t, lo, hi);
            let out = seq![s[0]] + rest.0;
            assert forall|i: int| 0 <= i < out.len() implies b0 <= (#[trigger] out[i]).start && out[i].end() <= b1 by {
                if i > 0 {
                    assert(out[i] == rest.0[i - 1]);
                }
            }
        }
    }
}

/// A request leaves a well-formed allocator well-formed.
pub proof fn lemma_after_alloc_wf(st: FreeListState, size: usize, align: usize)
    requires
        st.wf(),
        is_power_of_two(align as int),
    ensures
        st.after_alloc(size, align).wf(),
        st.after_alloc(size, align).heap_start == st.heap_start,
        st.after_alloc(size, align).heap_end == st.heap_end,
        st.after_alloc(size, align).initialized == st.initialized,
        st.alloc_result(size, align) is Ok ==> {
            let a = st.alloc_result(size, align)->Ok_0;
            &&& st.heap_start <= a
            &&& a + size <= st.heap_end
            &&& (a as int) % (align as int) == 0
        },
{
    lemma_first_fit(st.regions, size as int, align as int);
    match first_fit(st.regions, size as int, align as int) {
        Some(i) => {
            let n = st.regions[i];
            lemma_align_up(n.start as int, align as int);
            let a = align_up_spec(n.start as int, align as int);
            let before = ListNode { start: n.start, size: (a - n.start) as usize };
            let after = ListNode { start: (a + size) as usize, size: (n.end() - a - size) as usize };
            let head = kept_slack(before) + kept_slack(after);
            let rest = st.regions.remove(i);
            let out = head + rest;
            assert(before.end() == a);
            assert(after.end() == n.end());
            assert forall|k: int| 0 <= k < out.len() implies st.heap_start <= (#[trigger] out[k]).start
                && out[k].end() <= st.heap_end by {
                if k >= head.len() {
                    assert(out[k] == rest[k - head.len()]);
                    if k - head.len() < i {
                        assert(rest[k - head.len()] == st.regions[k - head.len()]);
                    } else {
                        assert(rest[k - head.len()] == st.regions[k - head.len() + 1]);
                    }
                }
            }
        },
        None => {},
    }
}

/// Freeing a block inside the heap leaves a well-formed allocator
/// well-formed, with the merged region at the head spanning the block.
pub proof fn lemma_after_dealloc_wf(st: FreeListState, addr: usize, size: usize)
    requires
        st.wf(),
        st.initialized,
        st.heap_start <= addr,
        addr + size <= st.heap_end,
    ensures
        st.after_dealloc(addr, size).wf(),
        st.after_dealloc(addr, size).heap_start == st.heap_start,
        st.after_dealloc(addr, size).heap_end == st.heap_end,
        st.after_dealloc(addr, size).initialized,
        st.after_dealloc(addr, size).regions.len() >= 1,
        st.after_dealloc(addr, size).regions[0].start <= addr,
        addr + size <= st.after_dealloc(addr, size).regions[0].end(),
{
    lemma_coalesce_bounds(st.regions, addr as int, addr + size, st.heap_start, st.heap_end);
    let c = coalesce(st.regions, addr as int, addr + size);
    let out = st.after_dealloc(addr, size).regions;
    assert forall|k: int| 0 <= k < out.len() implies st.heap_start <= (#[trigger] out[k]).start
        && out[k].end() <= st.heap_end by {
        if k > 0 {
            assert(out[k] == c.0[k - 1]);
        }
    }
}

/// Whether the spans `[a_lo, a_hi)` and `[b_lo, b_hi)` share no byte.
pub open spec fn apart(a_lo: int, a_hi: int, b_lo: int, b_hi: int) -> bool {
    a_lo == a_hi || b_lo == b_hi || a_hi <= b_lo || b_hi <= a_lo
}

/// Whether no two regions of the list share a byte.
pub open spec fn regions_apart(s: Seq<ListNode>) -> bool {
    forall|i: int, j: int|
        0 <= i < j < s.len() ==> apart(
            (#[trigger] s[i]).start as int,
            s[i].end(),
            (#[trigger] s[j]).start as int,
            s[j].end(),
        )
}

/// A span that shares no byte with the starting span nor with any region of
/// the list shares no byte with the merged span.
proof fn lemma_coalesce_span_apart(s: Seq<ListNode>, lo: int, hi: int, w_lo: int, w_hi: int)
    requires
        lo <= hi,
        w_lo <= w_hi,
        apart(w_lo, w_hi, lo, hi),
        forall|k: int| 0 <= k < s.len() ==> apart(w_lo, w_hi, (#[trigger] s[k]).start as int, s[k].end()),
    ensures
        apart(w_lo, w_hi, coalesce(s, lo, hi).1, coalesce(s, lo, hi).2),
    decreases s.len(),
{
    if s.len() > 0 {
        let t = s.drop_first();
        assert forall|k: int| 0 <= k < t.len() implies apart(w_lo, w_hi, (#[trigger] t[k]).start as int, t[k].end()) by {
            assert(t[k] == s[k + 1]);
        }
        assert(apart(w_lo, w_hi, s[0].start as int, s[0].end()));
        if touches(s[0], lo, hi) {
            lemma_coalesce_span_apart(
                t,
                if s[0].start < lo { s[0].start as int } else { lo },
                if s[0].end() > hi { s[0].end() } else { hi },
                w_lo,
                w_hi,
            );
        } else {
            lemma_coalesce_span_apart(t, lo, hi, w_lo, w_hi);
        }
    }
}

/// Merging a span that shares no byte with any region of a list whose
/// regions share no byte gives a merged span and kept regions that share no
/// byte with one another.
proof fn lemma_coalesce_apart(s: Seq<ListNode>, lo: int, hi: int)
    requires
        lo <= hi,
        regions_apart(s),
        forall|k: int| 0 <= k < s.len() ==> apart((#[trigger] s[k]).start as int, s[k].end(), lo, hi),
    ensures
        ({
            let c = coalesce(s, lo, hi);
            &&& c.1 <= c.2
            &&& regions_apart(c.0)
            &&& forall|k: int| 0 <= k < c.0.len() ==> apart((#[trigger] c.0[k]).start as int, c.0[k].end(), c.1, c.2)
            &&& forall|k: int| 0 <= k < c.0.len() ==> s.contains(#[trigger] c.0[k])
        }),
    decreases s.len(),
{
    if s.len() > 0 {
        let t = s.drop_first();
        let r = s[0];
        assert forall|i: int, j: int| 0 <= i < j < t.len() implies apart(
            (#[trigger] t[i]).start as int,
            t[i].end(),
            (#[trigger] t[j]).start as int,
            t[j].end(),
        ) by {
            assert(t[i] == s[i + 1] && t[j] == s[j + 1]);
        }
        assert forall|k: int| 0 <= k < t.len() implies apart(r.start as int, r.end(), (#[trigger] t[k]).start as int, t[k].end()) by {
            assert(t[k] == s[k + 1]);
        }
        assert(apart(r.start as int, r.end(), lo, hi));
        if touches(r, lo, hi) {
            let lo2 = if r.start < lo { r.start as int } else { lo };
            let hi2 = if r.end() > hi { r.end() } else { hi };
            assert forall|k: int| 0 <= k < t.len() implies apart((#[trigger] t[k]).start as int, t[k].end(), lo2, hi2) by {
                assert(t[k] == s[k + 1]);
                assert(apart(t[k].start as int, t[k].end(), lo, hi));
            }
            lemma_coalesce_apart(t, lo2, hi2);
            let c = coalesce(t, lo2, hi2);
            assert forall|k: int| 0 <= k < c.0.len() implies s.contains(#[trigger] c.0[k]) by {
                let j = choose|j: int| 0 <= j < t.len() && t[j] == c.0[k];
                assert(s[j + 1] == c.0[k]);
            }
        } else {
            assert forall|k: int| 0 <= k < t.len() implies apart((#[trigger] t[k]).start as int, t[k].end(), lo, hi) by {
                assert(t[k] == s[k + 1]);
            }
            lemma_coalesce_apart(t, lo, hi);
            let rest = coalesce(t, lo, hi);
            let out = seq![r] + rest.0;
            assert forall|k: int| 0 <= k < rest.0.len() implies s.contains(#[trigger] rest.0[k]) by {
                let j = choose|j: int| 0 <= j < t.len() && t[j] == rest.0[k];
                assert(s[j + 1] == rest.0[k]);
            }
            assert forall|i: int, j: int| 0 <= i < j < out.len() implies apart(
                (#[trigger] out[i]).start as int,
                out[i].end(),
                (#[trigger] out[j]).start as int,
                out[j].end(),
            ) by {
                assert(out[j] == rest.0[j - 1]);
                if i > 0 {
                    assert(out[i] == rest.0[i - 1]);
                } else {
                    let m = choose|m: int| 0 <= m < t.len() && t[m] == rest.0[j - 1];
                    assert(apart(r.start as int, r.end(), t[m].start as int, t[m].end()));
                }
            }
            lemma_coalesce_span_apart(t, lo, hi, r.start as int, r.end());
            assert forall|k: int| 0 <= k < out.len() implies apart((#[trigger] out[k]).start as int, out[k].end(), rest.1, rest.2) by {
                if k > 0 {
                    assert(out[k] == rest.0[k - 1]);
                }
            }
            assert forall|k: int| 0 <= k < out.len() implies s.contains(#[trigger] out[k]) by {
                if k > 0 {
                    assert(out[k] == rest.0[k - 1]);
                } else {
                    assert(s[0] == out[0]);
                }
            }
        }
    }
}

/// Where no two free regions share a byte, a served block shares no byte
/// with any region left free, and still no two free regions share a byte.
pub proof fn lemma_alloc_keeps_apart(st: FreeListState, size: usize, align: usize)
    requires
        st.wf(),
        is_power_of_two(align as int),
        regions_apart(st.regions),
    ensures
        regions_apart(st.after_alloc(size, align).regions),
        st.alloc_result(size, align) matches Ok(a) ==> forall|k: int|
            0 <= k < st.after_alloc(size, align).regions.len() ==> apart(
                (#[trigger] st.after_alloc(size, align).regions[k]).start as int,
                st.after_alloc(size, align).regions[k].end(),
                a as int,
                a + size,
            ),
{
    lemma_first_fit(st.regions, size as int, align as int);
    match first_fit(st.regions, size as int, align as int) {
        Some(i) => {
            let n = st.regions[i];
            assert(st.heap_start <= n.start && n.end() <= st.heap_end);
            lemma_align_up(n.start as int, align as int);
            let x = align_up_spec(n.start as int, align as int);
            let before = ListNode { start: n.start, size: (x - n.start) as usize };
            let after = ListNode { start: (x + size) as usize, size: (n.end() - x - size) as usize };
            let head = kept_slack(before) + kept_slack(after);
            let others = st.regions.remove(i);
            let out = head + others;
            assert(st.after_alloc(size, align).regions == out);
            assert forall|k: int| 0 <= k < others.len() implies (k < i ==> #[trigger] others[k] == st.regions[k])
                && (k >= i ==> others[k] == st.regions[k + 1]) by {}
            assert forall|k: int| 0 <= k < others.len() implies apart(
                (#[trigger] others[k]).start as int,
                others[k].end(),
                n.start as int,
                n.end(),
            ) by {
                if k < i {
                    assert(apart(st.regions[k].start as int, st.regions[k].end(), st.regions[i].start as int, st.regions[i].end()));
                } else {
                    assert(apart(st.regions[i].start as int, st.regions[i].end(), st.regions[k + 1].start as int, st.regions[k + 1].end()));
                }
            }
            assert forall|k: int| 0 <= k < head.len() implies n.start <= (#[trigger] head[k]).start
                && head[k].end() <= n.end() && apart(head[k].start as int, head[k].end(), x, x + size) by {}
            assert forall|p: int, q: int| 0 <= p < q < out.len() implies apart(
                (#[trigger] out[p]).start as int,
                out[p].end(),
                (#[trigger] out[q]).start as int,
                out[q].end(),
            ) by {
                if q < head.len() {
                    assert(head.len() == 2 && out[p] == before && out[q] == after);
                } else if p < head.len() {
                    assert(out[q] == others[q - head.len()]);
                    assert(out[p] == head[p]);
                } else {
                    assert(out[q] == others[q - head.len()]);
                    assert(out[p] == others[p - head.len()]);
                    let p0 = p - head.len();
                    let q0 = q - head.len();
                    let pi = if p0 < i { p0 } else { p0 + 1 };
                    let qi = if q0 < i { q0 } else { q0 + 1 };
                    assert(apart(st.regions[pi].start as int, st.regions[pi].end(), st.regions[qi].start as int, st.regions[qi].end()));
                }
            }
            assert forall|k: int| 0 <= k < out.len() implies apart(
                (#[trigger] out[k]).start as int,
                out[k].end(),
                x,
                x + size,
            ) by {
                if k >= head.len() {
                    assert(out[k] == others[k - head.len()]);
                } else {
                    assert(out[k] == head[k]);
                }
            }
        },
        None => {},
    }
}

/// Where no two free regions share a byte and the freed block shares no
/// byte with any of them, after the block is freed still no two free
/// regions share a byte.
pub proof fn lemma_dealloc_keeps_apart(st: FreeListState, addr: usize, size: usize)
    requires
        st.wf(),
        st.initialized,
        st.heap_start <= addr,
        addr + size <= st.heap_end,
        regions_apart(st.regions),
        forall|k: int| 0 <= k < st.regions.len() ==> apart(
            (#[trigger] st.regions[k]).start as int,
            st.regions[k].end(),
            addr as int,
            addr + size,
        ),
    ensures
        regions_apart(st.after_dealloc(addr, size).regions),
{
    lemma_coalesce_apart(st.regions, addr as int, addr + size);
    lemma_coalesce_bounds(st.regions, addr as int, addr + size, st.heap_start, st.heap_end);
    let c = coalesce(st.regions, addr as int, addr + size);
    let out = st.after_dealloc(addr, size).regions;
    assert forall|p: int, q: int| 0 <= p < q < out.len() implies apart(
        (#[trigger] out[p]).start as int,
        out[p].end(),
        (#[trigger] out[q]).start as int,
        out[q].end(),
    ) by {
        assert(out[q] == c.0[q - 1]);
        if p > 0 {
            assert(out[p] == c.0[p - 1]);
        } else {
            assert(apart(c.0[q - 1].start as int, c.0[q - 1].end(), c.1, c.2));
        }
    }
}

/// Right after the heap `[start, start + size)` is handed over, a request for
/// the whole heap is served at its start, and a request for one byte more
/// cannot be served.
pub proof fn lemma_whole_heap_after_init(start: usize, size: usize)
    requires
        start + size <= usize::MAX,
        size < usize::MAX,
    ensures
        FreeListState::initial(start, size).alloc_result(size, 1) == Ok::<usize, AllocError>(start),
        FreeListState::initial(start, size).alloc_result((size + 1) as usize, 1) == Err::<usize, AllocError>(
            AllocError::Unsatisfiable,
        ),
{
    let st = FreeListState::initial(start, size);
    assert(align_up_spec(start as int, 1) == start);
    assert(fits(st.regions[0], size as int, 1));
    assert(first_fit(st.regions, size as int, 1) == Some(0int));
    lemma_first_fit(st.regions, (size + 1) as int, 1);
    assert(!fits(st.regions[0], (size + 1) as int, 1));
}

/// Merging with regions none of which touches the span changes nothing.
proof fn lemma_coalesce_untouched(s: Seq<ListNode>, lo: int, hi: int)
    requires
        forall|k: int| 0 <= k < s.len() ==> !touches(#[trigger] s[k], lo, hi),
    ensures
        coalesce(s, lo, hi) == (s, lo, hi),
    decreases s.len(),
{
    if s.len() > 0 {
        let t = s.drop_first();
        assert forall|k: int| 0 <= k < t.len() implies !touches(#[trigger] t[k], lo, hi) by {
            assert(t[k] == s[k + 1]);
        }
        assert(!touches(s[0], lo, hi));
        lemma_coalesce_untouched(t, lo, hi);
        assert(seq![s[0]] + t =~= s);
    }
}

/// A block that is served, freed, and asked for again with the same size and
/// alignment comes back at the same address, provided no other free region
/// touches the region that the block was first served from. In particular
/// this holds right after the heap is handed over.
pub proof fn lemma_reuse_after_free(st: FreeListState, size: usize, align: usize)
    requires
        st.wf(),
        is_power_of_two(align as int),
        st.alloc_result(size, align) is Ok,
        forall|j: int|
            0 <= j < st.regions.len() && j != first_fit(st.regions, size as int, align as int)->Some_0
                ==> !touches(
                #[trigger] st.regions[j],
                st.regions[first_fit(st.regions, size as int, align as int)->Some_0].start as int,
                st.regions[first_fit(st.regions, size as int, align as int)->Some_0].end(),
            ),
    ensures
        ({
            let x = st.alloc_result(size, align)->Ok_0;
            let again = st.after_alloc(size, align).after_dealloc(x, size);
            again.alloc_result(size, align) == Ok::<usize, AllocError>(x)
        }),
{
    lemma_first_fit(st.regions, size as int, align as int);
    let i = first_fit(st.regions, size as int, align as int)->Some_0;
    let node = st.regions[i];
    assert(st.heap_start <= node.start && node.end() <= st.heap_end);
    lemma_align_up(node.start as int, align as int);
    let x = align_up_spec(node.start as int, align as int);
    let before = ListNode { start: node.start, size: (x - node.start) as usize };
    let after = ListNode { start: (x + size) as usize, size: (node.end() - x - size) as usize };
    let others = st.regions.remove(i);
    let s1 = st.after_alloc(size, align);
    assert(s1.regions == kept_slack(before) + kept_slack(after) + others);
    let lo: int = if before.size >= MIN_REGION_SIZE { node.start as int } else { x };
    let hi: int = if after.size >= MIN_REGION_SIZE { node.end() } else { x + size };
    assert forall|k: int| 0 <= k < others.len() implies !touches(#[trigger] others[k], lo, hi) by {
        if k < i {
            assert(others[k] == st.regions[k]);
            assert(!touches(st.regions[k], node.start as int, node.end()));
        } else {
            assert(others[k] == st.regions[k + 1]);
            assert(!touches(st.regions[k + 1], node.start as int, node.end()));
        }
    }
    lemma_coalesce_untouched(others, lo, hi);
    let t = kept_slack(after) + others;
    assert(coalesce(t, lo, x + size) == (others, lo, hi)) by {
        if after.size >= MIN_REGION_SIZE {
            assert(t.drop_first() =~= others);
            assert(t[0] == after);
            assert(touches(t[0], lo, x + size));
            assert(coalesce(t, lo, x + size) == coalesce(t.drop_first(), lo, hi));
        } else {
            assert(t =~= others);
        }
    }
    assert(coalesce(s1.regions, x, x + size) == (others, lo, hi)) by {
        if before.size >= MIN_REGION_SIZE {
            assert(s1.regions.drop_first() =~= t);
            assert(s1.regions[0] == before);
            assert(touches(s1.regions[0], x, x + size));
            assert(coalesce(s1.regions, x, x + size) == coalesce(t, lo, x + size));
        } else {
            assert(s1.regions =~= t);
        }
    }
    let s2 = s1.after_dealloc(x as usize, size);
    let m = ListNode { start: lo as usize, size: (hi - lo) as usize };
    assert(s2.regions == seq![m] + others);
    lemma_align_up(lo, align as int);
    assert(align_up_spec(lo, align as int) == x);
    assert(fits(s2.regions[0], size as int, align as int));
    assert(first_fit(s2.regions, size as int, align as int) == Some(0int));
}

/// Right after the heap is handed over, the one free region touches no
/// other, so a block served, freed and asked for again comes back at the
/// same address.
pub proof fn lemma_reuse_after_init(start: usize, heap_size: usize, size: usize, align: usize)
    requires
        start + heap_size <= usize::MAX,
        is_power_of_two(align as int),
        FreeListState::initial(start, heap_size).alloc_result(size, align) is Ok,
    ensures
        ({
            let s0 = FreeListState::initial(start, heap_size);
            let x = s0.alloc_result(size, align)->Ok_0;
            let again = s0.after_alloc(size, align).after_dealloc(x, size);
            again.alloc_result(size, align) == Ok::<usize, AllocError>(x)
        }),
{
    let s0 = FreeListState::initial(start, heap_size);
    lemma_first_fit(s0.regions, size as int, align as int);
    lemma_reuse_after_free(s0, size, align);
}

/// Merging with a list whose head touches the span takes the head in.
proof fn lemma_head_absorbed(s: Seq<ListNode>, lo: int, hi: int, b0: int, b1: int)
    requires
        s.len() >= 1,
        touches(s[0], lo, hi),
        b0 <= lo <= hi <= b1,
        forall|i: int| 0 <= i < s.len() ==> b0 <= (#[trigger] s[i]).start && s[i].end() <= b1,
    ensures
        b0 <= coalesce(s, lo, hi).1 <= lo,
        coalesce(s, lo, hi).2 <= b1,
        coalesce(s, lo, hi).1 <= s[0].start,
        coalesce(s, lo, hi).2 >= hi,
        coalesce(s, lo, hi).2 >= s[0].end(),
{
    let t = s.drop_first();
    assert forall|i: int| 0 <= i < t.len() implies b0 <= (#[trigger] t[i]).start && t[i].end() <= b1 by {
        assert(t[i] == s[i + 1]);
    }
    assert(b0 <= s[0].start && s[0].end() <= b1);
    lemma_coalesce_bounds(
        t,
        if s[0].start < lo { s[0].start as int } else { lo },
        if s[0].end() > hi { s[0].end() } else { hi },
        b0,
        b1,
    );
}

/// A region at the head of the list that can hold `size` bytes makes a
/// request for `size` bytes with no alignment succeed.
proof fn lemma_head_serves(st: FreeListState, size: usize)
    requires
        st.regions.len() >= 1,
        st.regions[0].start + size <= st.regions[0].end(),
    ensures
        st.alloc_result(size, 1) is Ok,
{
    assert(align_up_spec(st.regions[0].start as int, 1) == st.regions[0].start);
    assert(fits(st.regions[0], size as int, 1));
    assert(first_fit(st.regions, size as int, 1) == Some(0int));
}

/// Freeing two address-adjacent blocks, in either order, leaves one free
/// region at the head of the list that spans both, so a request for their
/// combined size succeeds.
pub proof fn lemma_adjacent_frees_merge(st: FreeListState, addr: usize, size1: usize, size2: usize)
    requires
        st.wf(),
        st.initialized,
        st.heap_start <= addr,
        addr + size1 + size2 <= st.heap_end,
    ensures
        ({
            let second = (addr + size1) as usize;
            let total = (size1 + size2) as usize;
            let s12 = st.after_dealloc(addr, size1).after_dealloc(second, size2);
            let s21 = st.after_dealloc(second, size2).after_dealloc(addr, size1);
            &&& s12.regions[0].start <= addr && addr + total <= s12.regions[0].end()
            &&& s21.regions[0].start <= addr && addr + total <= s21.regions[0].end()
            &&& s12.alloc_result(total, 1) is Ok
            &&& s21.alloc_result(total, 1) is Ok
        }),
{
    let second = (addr + size1) as usize;
    let total = (size1 + size2) as usize;
    let a = st.after_dealloc(addr, size1);
    lemma_after_dealloc_wf(st, addr, size1);
    lemma_head_absorbed(a.regions, second as int, second + size2, st.heap_start, st.heap_end);
    let s12 = a.after_dealloc(second, size2);
    lemma_head_serves(s12, total);
    let b = st.after_dealloc(second, size2);
    lemma_after_dealloc_wf(st, second, size2);
    lemma_head_absorbed(b.regions, addr as int, addr + size1, st.heap_start, st.heap_end);
    let s21 = b.after_dealloc(addr, size1);
    lemma_head_serves(s21, total);
}

/// A first-fit free-list allocator over one heap region.
pub struct LinkedListAllocator {
    heap_start: usize,
    heap_end: usize,
    regions: Vec<ListNode>,
    initialized: bool,
}

impl View for LinkedListAllocator {
    type V = FreeListState;

    closed spec fn view(&self) -> FreeListState {
        FreeListState {
            heap_start: self.heap_start as int,
            heap_end: self.heap_end as int,
            regions: self.regions@,
            initialized: self.initialized,
        }
    }
}

impl LinkedListAllocator {
    /// Creates a free-list allocator that has no heap yet.
    pub fn empty() -> (r: Self)
        ensures
            r@ == FreeListState::empty(),
            r@.wf(),
    {
        LinkedListAllocator { heap_start: 0, heap_end: 0, regions: Vec::new(), initialized: false }
    }

    /// Hands the heap `[heap_start, heap_start + heap_size)` to the allocator
    /// as its one free region. This may happen once only, with a heap that
    /// can hold a region record and starts at a suitable alignment.
    pub fn init(&mut self, heap_start: usize, heap_size: usize)
        requires
            old(self)@.wf(),
            !old(self)@.initialized,
            heap_size >= MIN_REGION_SIZE,
            heap_start % REGION_ALIGN == 0,
            heap_start + heap_size <= usize::MAX,
        ensures
            final(self)@ == FreeListState::initial(heap_start, heap_size),
            final(self)@.wf(),
    {
        self.heap_start = heap_start;
        self.heap_end = heap_start + heap_size;
        self.initialized = true;
        self.add_free_region(heap_start, heap_size);
        proof {
            assert(self.regions@ =~= seq![ListNode { start: heap_start, size: heap_size }]);
        }
    }

    /// Whether the allocator has been given its heap.
    pub fn is_initialized(&self) -> (r: bool)
        ensures
            r == self@.initialized,
    {
        self.initialized
    }

    /// Whether the block of `size` bytes at `addr` lies inside the heap.
    pub fn contains_block(&self, addr: usize, size: usize) -> (r: bool)
        ensures
            r == (self@.initialized && self@.heap_start <= addr && addr + size <= self@.heap_end),
    {
        self.initialized && self.heap_start <= addr && addr <= self.heap_end && size <= self.heap_end - addr
    }

    /// Serves a request for `size` bytes aligned to `align` from the first
    /// region that can hold it, or fails and leaves the allocator unchanged.
    pub fn allocate(&mut self, size: usize, align: usize) -> (r: Result<usize, AllocError>)
        requires
            old(self)@.wf(),
            is_power_of_two(align as int),
        ensures
            r == old(self)@.alloc_result(size, align),
            final(self)@ == old(self)@.after_alloc(size, align),
            final(self)@.wf(),
            r matches Ok(a) ==> old(self)@.heap_start <= a && a + size <= old(self)@.heap_end && a % align
                == 0,
    {
        proof {
            lemma_after_alloc_wf(self@, size, align);
        }
        let ghost s = self.regions@;
        let mut i: usize = 0;
        let mut found: Option<usize> = None;
        while i < self.regions.len()
            invariant_except_break
                found is None,
            invariant
                self@ == old(self)@,
                self.regions@ == s,
                old(self)@.wf(),
                is_power_of_two(align as int),
                0 <= i <= s.len(),
                forall|j: int| 0 <= j < i ==> !fits(#[trigger] s[j], size as int, align as int),
            ensures
                found is None ==> i == s.len(),
                found matches Some(a) ==> i < s.len() && fits(s[i as int], size as int, align as int)
                    && a == align_up_spec(s[i as int].start as int, align as int),
            decreases s.len() - i,
        {
            let n = self.regions[i];
            assert(s[i as int] == n);
            assert(self@.regions == s);
            assert(self@.heap_start <= s[i as int].start && s[i as int].end() <= self@.heap_end);
            let end = n.start + n.size;
            if let Some(a) = checked_align_up(n.start, align) {
                if let Some(e) = a.checked_add(size) {
                    if e <= end {
                        found = Some(a);
                        break;
                    }
                }
            }
            i = i + 1;
        }
        match found {
            None => {
                proof {
                    lemma_first_fit_at(s, size as int, align as int, i as int);
                }
                Err(AllocError::Unsatisfiable)
            },
            Some(a) => {
                proof {
                    lemma_first_fit_at(s, size as int, align as int, i as int);
                    lemma_align_up(s[i as int].start as int, align as int);
                }
                let n = self.regions.remove(i);
                let after = ListNode::new(a + size, n.start + n.size - a - size);
                let before = ListNode::new(n.start, a - n.start);
                if after.size >= MIN_REGION_SIZE {
                    self.add_free_region(after.start, after.size);
                }
                if before.size >= MIN_REGION_SIZE {
                    self.add_free_region(before.start, before.size);
                }
                proof {
                    assert(self.regions@ =~= kept_slack(before) + kept_slack(after) + s.remove(i as int));
                }
                Ok(a)
            },
        }
    }

    /// Frees the block of `size` bytes at `addr`: merges it with every free
    /// region it touches, in one pass from the head, and puts the merged
    /// region at the head of the list.
    pub fn deallocate(&mut self, addr: usize, size: usize, align: usize)
        requires
            old(self)@.wf(),
            old(self)@.initialized,
            old(self)@.heap_start <= addr,
            addr + size <= old(self)@.heap_end,
        ensures
            final(self)@ == old(self)@.after_dealloc(addr, size),
            final(self)@.wf(),
    {
        proof {
            lemma_after_dealloc_wf(self@, addr, size);
        }
        let ghost s = self.regions@;
        let mut kept: Vec<ListNode> = Vec::new();
        let mut lo: usize = addr;
        let mut hi: usize = addr + size;
        let mut j: usize = 0;
        proof {
            assert(s.skip(0) =~= s);
            assert(kept@ + coalesce(s, addr as int, addr + size).0 =~= coalesce(s, addr as int, addr + size).0);
        }
        while j < self.regions.len()
            invariant
                self@ == old(self)@,
                self.regions@ == s,
                old(self)@.wf(),
                0 <= j <= s.len(),
                self.heap_start <= lo <= hi <= self.heap_end,
                coalesce(s, addr as int, addr + size) == ({
                    let c = coalesce(s.skip(j as int), lo as int, hi as int);
                    (kept@ + c.0, c.1, c.2)
                }),
            decreases s.len() - j,
        {
            let n = self.regions[j];
            assert(s[j as int] == n);
            assert(self@.regions == s);
            assert(self@.heap_start <= s[j as int].start && s[j as int].end() <= self@.heap_end);
            let ghost t = s.skip(j as int);
            assert(t.drop_first() =~= s.skip(j + 1));
            assert(t[0] == n);
            if n.start <= hi && lo <= n.start + n.size {
                if n.start < lo {
                    lo = n.start;
                }
                if n.start + n.size > hi {
                    hi = n.start + n.size;
                }
            } else {
                let ghost c = coalesce(s.skip(j + 1), lo as int, hi as int);
                let ghost before = kept@;
                kept.push(n);
                assert(before + (seq![n] + c.0) =~= kept@ + c.0);
            }
            j = j + 1;
        }
        assert(s.skip(j as int) =~= Seq::<ListNode>::empty());
        kept.insert(0, ListNode::new(lo, hi - lo));
        self.regions = kept;
        proof {
            let c = coalesce(s, addr as int, addr + size);
            assert(self.regions@ =~= seq![ListNode { start: c.1 as usize, size: (c.2 - c.1) as usize }] + c.0);
        }
    }

    /// Puts the region of `size` bytes at `addr` at the head of the list.
    fn add_free_region(&mut self, addr: usize, size: usize)
        ensures
            final(self).regions@ == seq![ListNode { start: addr, size }] + old(self).regions@,
            final(self).heap_start == old(self).heap_start,
            final(self).heap_end == old(self).heap_end,
            final(self).initialized == old(self).initialized,
    {
        self.regions.insert(0, ListNode::new(addr, size));
        proof {
            assert(self.regions@ =~= seq![ListNode { start: addr, size }] + old(self).regions@);
        }
    }
}

} // verus!
