//! A bump (cursor) allocator over a fixed byte range. It never reclaims.
use vstd::prelude::*;

verus! {

/// Rounds `x` up to the next multiple of `align`.
pub open spec fn round_up(x: int, align: int) -> int
    recommends
        align > 0,
{
    if x % align == 0 {
        x
    } else {
        x + (align - x % align)
    }
}

/// The abstract state of a bump allocator: the backing range `[start, end)`
/// and the cursor, an offset from `start`.
pub struct BumpView {
    pub start: int,
    pub end: int,
    pub head: int,
}

/// A bump allocator. All addresses are plain integers into the backing range.
pub struct LinearAllocator {
    /// Offset from `start` of the first byte that was never handed out.
    head: usize,
    /// First address of the backing range.
    start: usize,
    /// One past the last address of the backing range.
    end: usize,
}

impl View for LinearAllocator {
    type V = BumpView;

    closed spec fn view(&self) -> BumpView {
        BumpView { start: self.start as int, end: self.end as int, head: self.head as int }
    }
}

impl BumpView {
    /// The cursor stays within the backing range.
    pub open spec fn wf(self) -> bool {
        &&& 0 <= self.start <= self.end <= usize::MAX
        &&& 0 <= self.head
        &&& self.start + self.head <= self.end
    }

    /// Where a request aligned to `align` would begin, as an offset.
    pub open spec fn aligned_head(self, align: int) -> int {
        round_up(self.head, align)
    }

    /// Whether a request of `size` bytes aligned to `align` fits.
    pub open spec fn fits(self, size: int, align: int) -> bool {
        self.start + self.aligned_head(align) + size <= self.end
    }

    /// The outcome of one allocation request: on success the cursor moves past
    /// the returned block; on failure nothing changes.
    pub open spec fn alloc_result(
        self,
        size: int,
        align: int,
        post: BumpView,
        r: Option<usize>,
    ) -> bool {
        if self.fits(size, align) {
            &&& r == Some((self.start + self.aligned_head(align)) as usize)
            &&& post == BumpView { head: self.aligned_head(align) + size, ..self }
        } else {
            r.is_none() && post == self
        }
    }
}

/// Rounding up gives a multiple of `align` no smaller than `x` and less than
/// `align` above it.
pub proof fn lemma_round_up(x: int, align: int)
    requires
        x >= 0,
        align > 0,
    ensures
        x <= round_up(x, align) < x + align,
        round_up(x, align) % align == 0,
{
    let m = x % align;
    let q = x / align;
    assert(x == align * q + m && 0 <= m < align) by (nonlinear_arith)
        requires
            align > 0,
            m == x % align,
            q == x / align,
    ;
    if m != 0 {
        assert((x + (align - m)) % align == 0) by (nonlinear_arith)
            requires
                x == align * q + m,
                align > 0,
        {
            assert(x + (align - m) == align * (q + 1));
        }
    }
}

/// A successful allocation lies between the cursor before the request and
/// the cursor after it, and the cursor never moves back.
pub proof fn lemma_allocation_within_cursor(
    pre: BumpView,
    size: int,
    align: int,
    post: BumpView,
    r: Option<usize>,
)
    requires
        pre.wf(),
        size >= 0,
        align > 0,
        pre.alloc_result(size, align, post, r),
    ensures
        post.start == pre.start && post.end == pre.end,
        pre.head <= post.head,
        post.wf(),
        r is Some ==> pre.start + pre.head <= r->0 && r->0 + size == post.start + post.head,
{
    lemma_round_up(pre.head, align);
}

/// A sequence of requests `reqs` (each a size and an alignment) made one after
/// the other: `states[k + 1]` is the allocator after request `k`, which
/// returned `results[k]`.
pub open spec fn is_trace(
    states: Seq<BumpView>,
    reqs: Seq<(int, int)>,
    results: Seq<Option<usize>>,
) -> bool {
    &&& states.len() == reqs.len() + 1
    &&& results.len() == reqs.len()
    &&& forall|k: int|
        0 <= k < reqs.len() ==> #[trigger] reqs[k].0 >= 0 && reqs[k].1 > 0
            && states[k].alloc_result(reqs[k].0, reqs[k].1, states[k + 1], results[k])
}

/// Along a trace the allocator stays well formed, keeps its range, and its
/// cursor only grows.
pub proof fn lemma_trace_cursor_grows(
    states: Seq<BumpView>,
    reqs: Seq<(int, int)>,
    results: Seq<Option<usize>>,
    i: int,
    j: int,
)
    requires
        states[0].wf(),
        is_trace(states, reqs, results),
        0 <= i <= j < states.len(),
    ensures
        states[j].wf(),
        states[j].start == states[i].start,
        states[i].head <= states[j].head,
    decreases j,
{
    if j > 0 {
        if i < j {
            lemma_trace_cursor_grows(states, reqs, results, i, j - 1);
        } else {
            lemma_trace_cursor_grows(states, reqs, results, 0, j - 1);
        }
        let _ = reqs[j - 1];
        lemma_allocation_within_cursor(
            states[j - 1],
            reqs[j - 1].0,
            reqs[j - 1].1,
            states[j],
            results[j - 1],
        );
    }
}

/// Monotonicity: in any sequence of requests, the blocks handed out are
/// pairwise disjoint, each ending at or before the start of any later one,
/// and their starts strictly increase as long as the earlier block is not
/// empty.
pub proof fn lemma_allocations_disjoint_and_increasing(
    states: Seq<BumpView>,
    reqs: Seq<(int, int)>,
    results: Seq<Option<usize>>,
    i: int,
    j: int,
)
    requires
        states[0].wf(),
        is_trace(states, reqs, results),
        0 <= i < j < reqs.len(),
        results[i] is Some,
        results[j] is Some,
    ensures
        results[i]->0 + reqs[i].0 <= results[j]->0,
        reqs[i].0 > 0 ==> results[i]->0 < results[j]->0,
{
    let _ = reqs[i];
    let _ = reqs[j];
    lemma_trace_cursor_grows(states, reqs, results, 0, i);
    lemma_trace_cursor_grows(states, reqs, results, 0, j);
    lemma_trace_cursor_grows(states, reqs, results, i + 1, j);
    lemma_allocation_within_cursor(states[i], reqs[i].0, reqs[i].1, states[i + 1], results[i]);
    lemma_allocation_within_cursor(states[j], reqs[j].0, reqs[j].1, states[j + 1], results[j]);
}

/// Alignment: when the backing range starts at a multiple of `align`, every
/// address handed out for that alignment is a multiple of it.
pub proof fn lemma_allocation_aligned(
    pre: BumpView,
    size: int,
    align: int,
    post: BumpView,
    r: Option<usize>,
)
    requires
        pre.wf(),
        size >= 0,
        align > 0,
        pre.start % align == 0,
        pre.alloc_result(size, align, post, r),
        r is Some,
    ensures
        (r->0 as int) % align == 0,
{
    lemma_round_up(pre.head, align);
    let a = pre.aligned_head(align);
    assert((pre.start + a) % align == 0) by (nonlinear_arith)
        requires
            align > 0,
            pre.start % align == 0,
            a % align == 0,
    {
        assert(pre.start == align * (pre.start / align));
        assert(a == align * (a / align));
        assert(pre.start + a == align * (pre.start / align + a / align));
    }
    assert(r->0 == pre.start + a);
}

/// Exhaustion boundary: on a fresh range of `size` bytes one request of
/// `size` bytes succeeds and a following request of one byte fails, while a
/// request of `size + 1` bytes fails at once, whatever the alignments.
pub proof fn lemma_exhaustion_boundary(start: int, size: int, align1: int, align2: int)
    requires
        0 <= start,
        0 <= size,
        start + size <= usize::MAX,
        align1 > 0,
        align2 > 0,
    ensures
        ({
            let fresh = BumpView { start, end: start + size, head: 0 };
            let full = BumpView { head: size, ..fresh };
            &&& fresh.fits(size, align1)
            &&& fresh.alloc_result(size, align1, full, Some(start as usize))
            &&& !full.fits(1, align2)
            &&& !fresh.fits(size + 1, align1)
        }),
{
    lemma_round_up(0, align1);
    lemma_round_up(size, align2);
}

impl LinearAllocator {
    /// An allocator with an empty backing range; `init` gives it one.
    pub fn empty() -> (r: Self)
        ensures
            r@ == (BumpView { start: 0, end: 0, head: 0 }),
            r@.wf(),
    {
        LinearAllocator { head: 0, start: 0, end: 0 }
    }

    /// Records the backing range `[start, start + size)`. Called once, before
    /// the first allocation.
    pub fn init(&mut self, start: usize, size: usize)
        requires
            old(self)@.head == 0,
            start + size <= usize::MAX,
        ensures
            final(self)@ == (BumpView { start: start as int, end: start + size, head: 0 }),
            final(self)@.wf(),
    {
        self.start = start;
        self.end = start + size;
    }

    /// Hands out `size` bytes whose offset from the start of the range is a
    /// multiple of `align`, or `None` when they do not fit before the end.
    pub fn allocate(&mut self, size: usize, align: usize) -> (r: Option<usize>)
        requires
            old(self)@.wf(),
            align > 0,
        ensures
            old(self)@.alloc_result(size as int, align as int, final(self)@, r),
            final(self)@.wf(),
    {
        proof {
            lemma_round_up(self.head as int, align as int);
        }
        let mut head: usize = self.head;
        if head % align != 0 {
            let pad: usize = align - head % align;
            if pad > usize::MAX - head {
                return None;
            }
            head = head + pad;
        }
        if size > usize::MAX - head || head + size > self.end - self.start {
            return None;
        }
        let new_head: usize = head + size;
        self.head = new_head;
        Some(self.start + head)
    }

    /// Freeing is a no-op: a bump allocator never reclaims.
    pub fn deallocate(&self, ptr: usize, size: usize) {
    }
}

} // verus!
