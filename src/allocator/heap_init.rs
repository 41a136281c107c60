//! The plan for backing the heap with memory: every page that the heap
//! touches is mapped to a fresh frame, one after another, and the allocation
//! strategy receives the heap once all of them are mapped. The first page
//! that cannot be mapped ends the plan; pages mapped before it stay mapped.
use vstd::prelude::*;

verus! {

/// Size of a page of virtual memory in bytes.
pub const PAGE_SIZE: u64 = 4096;

/// The start of the page that holds `addr`.
pub open spec fn page_of(addr: int) -> int {
    addr - addr % (PAGE_SIZE as int)
}

/// Why the heap could not be backed with memory.
#[derive(Debug, Clone, Copy, PartialEq, Eq, Structural)]
pub enum HeapInitError {
    /// No physical frame was left for a page.
    FrameExhausted,
    /// The page could not be mapped to the frame it was given.
    MappingConflict,
}

/// What became of the attempt to map one page.
#[derive(Debug, Clone, Copy, PartialEq, Eq, Structural)]
pub enum PageOutcome {
    /// The page is mapped and its translation refreshed.
    Mapped,
    /// No frame was available for the page.
    NoFrame,
    /// Mapping the page to its frame failed.
    MapFailed,
}

/// What the caller has to do next.
#[derive(Debug, Clone, Copy, PartialEq, Eq, Structural)]
pub enum InitStep {
    /// Take a frame and map the page that starts at this address to it.
    MapPage(u64),
    /// Hand the heap to the allocation strategy.
    InitStrategy,
    /// The plan is over without a heap.
    Failed(HeapInitError),
    /// The heap has been handed over.
    Done,
}

/// The abstract state of the plan.
pub struct HeapInitState {
    pub heap_start: int,
    pub heap_size: int,
    pub next_page: int,
    pub pages_left: int,
    pub failure: Option<HeapInitError>,
    pub handed_over: bool,
}

impl HeapInitState {
    /// The pages still to map are `pages_left` consecutive pages from
    /// `next_page`, the last of them holding the heap's last byte.
    pub open spec fn wf(self) -> bool {
        &&& self.heap_size > 0
        &&& 0 <= self.heap_start
        &&& self.heap_start + self.heap_size - 1 <= u64::MAX
        &&& 0 <= self.pages_left
        &&& self.pages_left > 0 ==> self.next_page + (self.pages_left - 1) * (PAGE_SIZE as int)
            == page_of(self.heap_start + self.heap_size - 1)
        &&& 0 <= self.next_page <= u64::MAX
        &&& self.handed_over ==> self.pages_left == 0 && self.failure is None
    }

    /// The step that the plan asks for in this state.
    pub open spec fn step(self) -> InitStep {
        match self.failure {
            Some(e) => InitStep::Failed(e),
            None => if self.handed_over {
                InitStep::Done
            } else if self.pages_left > 0 {
                InitStep::MapPage(self.next_page as u64)
            } else {
                InitStep::InitStrategy
            },
        }
    }
}

/// The plan for mapping the heap `[heap_start, heap_start + heap_size)`.
pub struct HeapInit {
    heap_start: u64,
    heap_size: u64,
    next_page: u64,
    pages_left: u64,
    failure: Option<HeapInitError>,
    handed_over: bool,
}

impl View for HeapInit {
    type V = HeapInitState;

    closed spec fn view(&self) -> HeapInitState {
        HeapInitState {
            heap_start: self.heap_start as int,
            heap_size: self.heap_size as int,
            next_page: self.next_page as int,
            pages_left: self.pages_left as int,
            failure: self.failure,
            handed_over: self.handed_over,
        }
    }
}

impl HeapInit {
    /// Starts the plan at the page that holds the heap's first byte; the
    /// last page to map holds its last byte.
    pub fn new(heap_start: u64, heap_size: u64) -> (r: Self)
        requires
            heap_size > 0,
            heap_start + heap_size - 1 <= u64::MAX,
        ensures
            r@.wf(),
            r@.heap_start == heap_start,
            r@.heap_size == heap_size,
            r@.next_page == page_of(heap_start as int),
            r@.pages_left == (page_of(heap_start + heap_size - 1) - page_of(heap_start as int)) / (
            PAGE_SIZE as int) + 1,
            r@.failure is None,
            !r@.handed_over,
    {
        let last_byte = heap_start + (heap_size - 1);
        let first_page = heap_start - heap_start % PAGE_SIZE;
        let last_page = last_byte - last_byte % PAGE_SIZE;
        proof {
            let f = heap_start as int;
            let l = last_byte as int;
            let p = PAGE_SIZE as int;
            vstd::arithmetic::div_mod::lemma_fundamental_div_mod(f, p);
            vstd::arithmetic::div_mod::lemma_fundamental_div_mod(l, p);
            assert(first_page == p * (f / p));
            assert(last_page == p * (l / p));
            assert(f / p <= l / p) by {
                vstd::arithmetic::div_mod::lemma_div_is_ordered(f, l, p);
            }
            assert(last_page - first_page == p * (l / p - f / p)) by (nonlinear_arith)
                requires
                    first_page == p * (f / p),
                    last_page == p * (l / p),
            ;
            vstd::arithmetic::div_mod::lemma_div_multiples_vanish(l / p - f / p, p);
            assert(first_page + ((last_page - first_page) / p) * p == last_page) by (nonlinear_arith)
                requires
                    last_page - first_page == p * (l / p - f / p),
                    (p * (l / p - f / p)) / p == l / p - f / p,
            ;
        }
        HeapInit {
            heap_start,
            heap_size,
            next_page: first_page,
            pages_left: (last_page - first_page) / PAGE_SIZE + 1,
            failure: None,
            handed_over: false,
        }
    }

    /// The step that the plan asks for now.
    pub fn next_step(&self) -> (r: InitStep)
        ensures
            r == self@.step(),
    {
        match self.failure {
            Some(e) => InitStep::Failed(e),
            None => if self.handed_over {
                InitStep::Done
            } else if self.pages_left > 0 {
                InitStep::MapPage(self.next_page)
            } else {
                InitStep::InitStrategy
            },
        }
    }

    /// Records what became of the page that the plan asked to map: a mapped
    /// page moves the plan to the next one, and a failure ends it.
    pub fn record(&mut self, outcome: PageOutcome)
        requires
            old(self)@.wf(),
            old(self)@.step() is MapPage,
        ensures
            final(self)@.wf(),
            final(self)@.heap_start == old(self)@.heap_start,
            final(self)@.heap_size == old(self)@.heap_size,
            !final(self)@.handed_over,
            outcome == PageOutcome::Mapped ==> {
                &&& final(self)@.failure is None
                &&& final(self)@.pages_left == old(self)@.pages_left - 1
                &&& final(self)@.pages_left > 0 ==> final(self)@.next_page == old(self)@.next_page
                    + PAGE_SIZE
            },
            outcome == PageOutcome::NoFrame ==> final(self)@.failure == Some(
                HeapInitError::FrameExhausted,
            ),
            outcome == PageOutcome::MapFailed ==> final(self)@.failure == Some(
                HeapInitError::MappingConflict,
            ),
    {
        match outcome {
            PageOutcome::Mapped => {
                self.pages_left = self.pages_left - 1;
                if self.pages_left > 0 {
                    proof {
                        let p = PAGE_SIZE as int;
                        let k = self.pages_left as int;
                        assert(k * p >= p) by (nonlinear_arith)
                            requires
                                k >= 1,
                                p > 0,
                        ;
                        assert(old(self).next_page + k * p == page_of(
                            self.heap_start + self.heap_size - 1,
                        ));
                        assert(self.next_page + p + (k - 1) * p == self.next_page + k * p)
                            by (nonlinear_arith);
                    }
                    self.next_page = self.next_page + PAGE_SIZE;
                }
            },
            PageOutcome::NoFrame => {
                self.failure = Some(HeapInitError::FrameExhausted);
            },
            PageOutcome::MapFailed => {
                self.failure = Some(HeapInitError::MappingConflict);
            },
        }
    }

    /// Records that the heap has been handed to the allocation strategy,
    /// which happens once, after every page is mapped.
    pub fn finish(&mut self)
        requires
            old(self)@.wf(),
            old(self)@.step() == InitStep::InitStrategy,
        ensures
            final(self)@ == (HeapInitState { handed_over: true, ..old(self)@ }),
            final(self)@.wf(),
            final(self)@.step() == InitStep::Done,
    {
        self.handed_over = true;
    }
}

} // verus!
