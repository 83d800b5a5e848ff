//! A page-granular frame allocator. One metadata byte per page records
//! whether the page is taken and whether it ends an allocation run; the
//! table is hosted in the first pages of the region it describes.
use vstd::prelude::*;

verus! {

/// Bytes per page, as a power of two.
pub const PAGE_ORDER: usize = 12;

/// Bytes per page.
pub const PAGE_SIZE: usize = 4096;

/// Machine words per page.
pub const WORDS_PER_PAGE: usize = 512;

/// The flag bits of a page's metadata entry.
#[derive(Clone, Copy)]
pub enum PageBits {
    Empty,
    Taken,
    Last,
}

impl PageBits {
    /// The bit pattern of the flag.
    pub open spec fn bits(self) -> u8 {
        match self {
            PageBits::Empty => 0,
            PageBits::Taken => 1,
            PageBits::Last => 2,
        }
    }

    /// The flag as a byte.
    pub fn val(self) -> (r: u8)
        ensures
            r == self.bits(),
    {
        match self {
            PageBits::Empty => 0,
            PageBits::Taken => 1,
            PageBits::Last => 2,
        }
    }
}

/// The metadata entry of one page.
#[derive(Clone, Copy)]
pub struct Page {
    flags: u8,
}

impl View for Page {
    type V = u8;

    /// The flag byte.
    closed spec fn view(&self) -> u8 {
        self.flags
    }
}

/// Entry of a free page.
pub const FREE: u8 = 0;

/// Entry of a taken page that is not the last of its run.
pub const TAKEN: u8 = 1;

/// Entry of the taken page that ends its run.
pub const TAKEN_LAST: u8 = 3;

/// How the flag tests read the three entries that a well-formed table holds.
proof fn lemma_entry_bits(f: u8)
    ensures
        f == 0u8 ==> (f & 1u8 == 0u8 && f & 2u8 == 0u8 && (f | 1u8) == 1u8),
        f == 1u8 ==> (f & 1u8 != 0u8 && f & 2u8 == 0u8 && (f | 2u8) == 3u8),
        f == 3u8 ==> (f & 1u8 != 0u8 && f & 2u8 != 0u8),
{
    assert(f == 0u8 ==> (f & 1u8 == 0u8 && f & 2u8 == 0u8 && (f | 1u8) == 1u8)) by (bit_vector);
    assert(f == 1u8 ==> (f & 1u8 != 0u8 && f & 2u8 == 0u8 && (f | 2u8) == 3u8)) by (bit_vector);
    assert(f == 3u8 ==> (f & 1u8 != 0u8 && f & 2u8 != 0u8)) by (bit_vector);
}

impl Page {
    /// A free entry.
    pub fn new() -> (r: Page)
        ensures
            r@ == 0,
    {
        Page { flags: 0 }
    }

    /// Whether the page ends an allocation run.
    pub fn is_last(&self) -> (r: bool)
        ensures
            r == (self@ & 2u8 != 0u8),
    {
        self.flags & PageBits::Last.val() != 0
    }

    /// Whether the page is allocated.
    pub fn is_taken(&self) -> (r: bool)
        ensures
            r == (self@ & 1u8 != 0u8),
    {
        self.flags & PageBits::Taken.val() != 0
    }

    /// Whether the page is not allocated.
    pub fn is_free(&self) -> (r: bool)
        ensures
            r == (self@ & 1u8 == 0u8),
    {
        !self.is_taken()
    }

    /// Clears every flag.
    pub fn clear(&mut self)
        ensures
            final(self)@ == 0,
    {
        self.flags = PageBits::Empty.val();
    }

    /// Sets one flag, keeping the others.
    pub fn set_flag(&mut self, flag: PageBits)
        ensures
            final(self)@ == old(self)@ | flag.bits(),
    {
        self.flags = self.flags | flag.val();
    }

    /// Clears one flag, keeping the others.
    pub fn clear_flag(&mut self, flag: PageBits)
        ensures
            final(self)@ == old(self)@ & !flag.bits(),
    {
        self.flags = self.flags & !flag.val();
    }
}

/// The abstract state of a frame allocator: where its region and its first
/// allocatable page begin, one flag byte per page, and the contents of the
/// allocatable pages as machine words.
pub struct FrameView {
    pub heap_start: int,
    pub alloc_start: int,
    pub table: Seq<u8>,
    pub words: Seq<u64>,
}

/// Pages of metadata in front of the allocatable pages: one byte per page,
/// rounded up to whole pages.
pub open spec fn meta_pages(num_pages: int) -> int {
    (num_pages + PAGE_SIZE - 1) / PAGE_SIZE as int
}

/// Address of the first allocatable page of the region `[heap_start, heap_start + heap_size)`.
pub open spec fn alloc_start_of(heap_start: int, heap_size: int) -> int {
    heap_start + meta_pages(heap_size / PAGE_SIZE as int) * PAGE_SIZE
}

/// Pages `[i, i + k)` exist and are all free.
pub open spec fn free_span(t: Seq<u8>, i: int, k: int) -> bool {
    &&& 0 <= i
    &&& i + k <= t.len()
    &&& forall|j: int| i <= j < i + k ==> #[trigger] t[j] == FREE
}

/// `i` is the lowest index at which `k` free pages begin.
pub open spec fn first_fit(t: Seq<u8>, k: int, i: int) -> bool {
    &&& free_span(t, i, k)
    &&& forall|j: int| 0 <= j < i ==> !#[trigger] free_span(t, j, k)
}

/// The table with pages `[i, i + k)` made one run.
pub open spec fn mark_run(t: Seq<u8>, i: int, k: int) -> Seq<u8> {
    Seq::new(
        t.len(),
        |j: int|
            if i <= j < i + k - 1 {
                TAKEN
            } else if j == i + k - 1 {
                TAKEN_LAST
            } else {
                t[j]
            },
    )
}

/// Pages `[i, i + len)` form one run: taken, with the last flag on the final page only.
pub open spec fn is_run(t: Seq<u8>, i: int, len: int) -> bool {
    &&& 0 <= i
    &&& 1 <= len
    &&& i + len <= t.len()
    &&& forall|j: int| i <= j < i + len - 1 ==> #[trigger] t[j] == TAKEN
    &&& t[i + len - 1] == TAKEN_LAST
}

/// Page `i` is taken and is the first page of its run.
pub open spec fn is_run_start(t: Seq<u8>, i: int) -> bool {
    &&& 0 <= i < t.len()
    &&& t[i] != FREE
    &&& (i == 0 || t[i - 1] != TAKEN)
}

/// The table with pages `[i, i + len)` free.
pub open spec fn clear_run(t: Seq<u8>, i: int, len: int) -> Seq<u8> {
    Seq::new(t.len(), |j: int| if i <= j < i + len { FREE } else { t[j] })
}

impl FrameView {
    /// Number of pages the table describes.
    pub open spec fn num_pages(self) -> int {
        self.table.len() as int
    }

    /// Address of page `i`.
    pub open spec fn page_addr(self, i: int) -> int {
        self.alloc_start + PAGE_SIZE * i
    }

    /// Index of the page holding address `ptr`.
    pub open spec fn page_index(self, ptr: int) -> int {
        (ptr - self.alloc_start) / PAGE_SIZE as int
    }

    /// Every entry is free, taken, or taken and last; every taken page that
    /// is not last is followed by another taken page, so each run ends with
    /// its last page inside the table; all addresses fit in a machine word.
    pub open spec fn wf(self) -> bool {
        &&& 0 <= self.heap_start <= self.alloc_start
        &&& self.alloc_start + PAGE_SIZE * self.num_pages() <= usize::MAX
        &&& self.words.len() == WORDS_PER_PAGE * self.num_pages()
        &&& forall|j: int|
            0 <= j < self.table.len() ==> #[trigger] self.table[j] == FREE || self.table[j]
                == TAKEN || self.table[j] == TAKEN_LAST
        &&& forall|j: int|
            0 <= j < self.table.len() && #[trigger] self.table[j] == TAKEN ==> j + 1
                < self.table.len() && self.table[j + 1] != FREE
    }

    /// The outcome of a request for `k` contiguous pages, for the table and
    /// the returned address: the first fit is marked as one run and its
    /// address returned; without any fit nothing changes.
    pub open spec fn alloc_table_result(self, k: int, post: FrameView, r: Option<usize>) -> bool {
        &&& post.heap_start == self.heap_start
        &&& post.alloc_start == self.alloc_start
        &&& match r {
            Some(p) => exists|i: int|
                first_fit(self.table, k, i) && p == self.page_addr(i) && #[trigger] mark_run(
                    self.table,
                    i,
                    k,
                ) == post.table,
            None => (forall|i: int| !#[trigger] free_span(self.table, i, k)) && post.table
                == self.table,
        }
    }

    /// `ptr` may be freed: it lies in the first page of a live run.
    pub open spec fn can_free(self, ptr: int) -> bool {
        &&& self.alloc_start <= ptr
        &&& is_run_start(self.table, self.page_index(ptr))
    }

    /// The outcome of freeing `ptr`: its whole run becomes free, nothing else changes.
    pub open spec fn dealloc_result(self, ptr: int, post: FrameView) -> bool {
        &&& post.heap_start == self.heap_start
        &&& post.alloc_start == self.alloc_start
        &&& post.words == self.words
        &&& exists|len: int|
            is_run(self.table, self.page_index(ptr), len) && #[trigger] clear_run(
                self.table,
                self.page_index(ptr),
                len,
            ) == post.table
    }
}

/// A frame allocator over a region whose first pages hold its metadata table.
pub struct FrameAllocator {
    /// One entry per page of the region.
    pages: Vec<Page>,
    /// First address of the region.
    heap_start: usize,
    /// Address of page 0, past the metadata pages.
    alloc_start: usize,
    /// The allocatable pages, word by word.
    memory: Vec<u64>,
}

impl View for FrameAllocator {
    type V = FrameView;

    closed spec fn view(&self) -> FrameView {
        FrameView {
            heap_start: self.heap_start as int,
            alloc_start: self.alloc_start as int,
            table: self.pages@.map_values(|p: Page| p@),
            words: self.memory@,
        }
    }
}

impl FrameAllocator {
    /// Takes over the region `[heap_start, heap_start + heap_size)`: one page
    /// per whole `PAGE_SIZE` bytes, all free, the first allocatable page
    /// placed after the metadata table.
    pub fn new(heap_start: usize, heap_size: usize) -> (r: FrameAllocator)
        requires
            alloc_start_of(heap_start as int, heap_size as int) + PAGE_SIZE * (heap_size
                / PAGE_SIZE) <= usize::MAX,
        ensures
            r@.wf(),
            r@.heap_start == heap_start,
            r@.alloc_start == alloc_start_of(heap_start as int, heap_size as int),
            r@.num_pages() == heap_size / PAGE_SIZE,
            forall|j: int| 0 <= j < r@.num_pages() ==> #[trigger] r@.table[j] == FREE,
            forall|w: int| 0 <= w < r@.words.len() ==> #[trigger] r@.words[w] == 0,
    {
        let num_pages: usize = heap_size / PAGE_SIZE;
        let meta: usize = (num_pages + PAGE_SIZE - 1) / PAGE_SIZE;
        assert(meta * PAGE_SIZE <= num_pages + PAGE_SIZE) by (nonlinear_arith)
            requires
                meta == (num_pages + PAGE_SIZE - 1) / PAGE_SIZE as int,
        ;
        let alloc_start: usize = heap_start + meta * PAGE_SIZE;
        let mut pages: Vec<Page> = Vec::new();
        let mut i: usize = 0;
        while i < num_pages
            invariant
                i <= num_pages,
                pages@.len() == i,
                forall|j: int| 0 <= j < i ==> #[trigger] pages@[j]@ == FREE,
            decreases num_pages - i,
        {
            pages.push(Page::new());
            i = i + 1;
        }
        let num_words: usize = num_pages * WORDS_PER_PAGE;
        let mut memory: Vec<u64> = Vec::new();
        let mut w: usize = 0;
        while w < num_words
            invariant
                w <= num_words,
                memory@.len() == w,
                forall|v: int| 0 <= v < w ==> #[trigger] memory@[v] == 0,
            decreases num_words - w,
        {
            memory.push(0);
            w = w + 1;
        }
        FrameAllocator { pages, heap_start, alloc_start, memory }
    }

    /// Number of pages the table describes.
    pub fn num_pages(&self) -> (r: usize)
        ensures
            r == self@.num_pages(),
    {
        self.pages.len()
    }

    /// Address of the first allocatable page.
    pub fn alloc_start(&self) -> (r: usize)
        ensures
            r == self@.alloc_start,
    {
        self.alloc_start
    }
}

/// Finds the first run of `pages` free pages, scanning from page 0, marks it
/// taken with the last flag on its final page, and returns its address;
/// returns `None`, changing nothing, when no such run exists.
pub fn allocate(heap: &mut FrameAllocator, pages: usize) -> (r: Option<usize>)
    requires
        old(heap)@.wf(),
        pages >= 1,
    ensures
        final(heap)@.wf(),
        old(heap)@.alloc_table_result(pages as int, final(heap)@, r),
        final(heap)@.words == old(heap)@.words,
{
    let ghost t = heap@.table;
    let num_pages: usize = heap.pages.len();
    if pages > num_pages {
        return None;
    }
    let mut i: usize = 0;
    while i <= num_pages - pages
        invariant
            heap@ == old(heap)@,
            old(heap)@.wf(),
            t == heap@.table,
            num_pages == t.len(),
            1 <= pages <= num_pages,
            i <= num_pages - pages + 1,
            forall|j: int| 0 <= j < i ==> !#[trigger] free_span(t, j, pages as int),
        decreases num_pages - pages + 1 - i,
    {
        let mut found: bool = false;
        if heap.pages[i].is_free() {
            found = true;
            let mut j: usize = i;
            while j < i + pages
                invariant
                    heap@ == old(heap)@,
                    old(heap)@.wf(),
                    t == heap@.table,
                    num_pages == t.len(),
                    i + pages <= num_pages,
                    i <= j <= i + pages,
                    found ==> forall|m: int| i <= m < j ==> #[trigger] t[m] == FREE,
                    !found ==> !free_span(t, i as int, pages as int),
                ensures
                    found ==> free_span(t, i as int, pages as int),
                    !found ==> !free_span(t, i as int, pages as int),
                decreases i + pages - j,
            {
                proof {
                    assert(t[j as int] == heap.pages@[j as int]@);
                    lemma_entry_bits(t[j as int]);
                }
                if heap.pages[j].is_taken() {
                    found = false;
                    break;
                }
                j = j + 1;
            }
        } else {
            proof {
                lemma_entry_bits(t[i as int]);
            }
        }
        if found {
            let ghost before = heap.pages@;
            let mut k: usize = i;
            while k < i + pages - 1
                invariant
                    free_span(t, i as int, pages as int),
                    i <= k <= i + pages - 1,
                    i + pages <= num_pages,
                    num_pages == t.len(),
                    heap.pages@.len() == num_pages,
                    heap.heap_start == old(heap).heap_start,
                    heap.alloc_start == old(heap).alloc_start,
                    heap.memory@ == old(heap).memory@,
                    t == old(heap)@.table,
                    forall|m: int|
                        0 <= m < num_pages ==> #[trigger] heap.pages@[m]@ == if i <= m < k {
                            TAKEN
                        } else {
                            t[m]
                        },
                decreases i + pages - 1 - k,
            {
                let mut page: Page = heap.pages[k];
                proof {
                    lemma_entry_bits(page@);
                }
                page.set_flag(PageBits::Taken);
                heap.pages.set(k, page);
                k = k + 1;
            }
            let last: usize = i + pages - 1;
            let mut page: Page = heap.pages[last];
            proof {
                lemma_entry_bits(page@);
            }
            page.set_flag(PageBits::Taken);
            proof {
                lemma_entry_bits(page@);
            }
            page.set_flag(PageBits::Last);
            heap.pages.set(last, page);
            proof {
                let post = heap@;
                assert(post.table =~= mark_run(t, i as int, pages as int));
                assert(first_fit(t, pages as int, i as int));
                lemma_mark_run_wf(old(heap)@, i as int, pages as int);
            }
            return Some(heap.alloc_start + PAGE_SIZE * i);
        }
        i = i + 1;
    }
    proof {
        assert forall|j: int| !#[trigger] free_span(t, j, pages as int) by {
            if 0 <= j && j + pages <= t.len() {
                assert(j < i);
            }
        }
    }
    None
}

/// Marking a free span as one run keeps the table well formed.
proof fn lemma_mark_run_wf(v: FrameView, i: int, k: int)
    requires
        v.wf(),
        k >= 1,
        free_span(v.table, i, k),
    ensures
        (FrameView { table: mark_run(v.table, i, k), ..v }).wf(),
        is_run(mark_run(v.table, i, k), i, k),
{
    let t2 = mark_run(v.table, i, k);
    assert forall|j: int| 0 <= j < t2.len() && #[trigger] t2[j] == TAKEN implies j + 1 < t2.len()
        && t2[j + 1] != FREE by {
        if !(i <= j < i + k) {
            assert(v.table[j] == TAKEN);
            if i <= j + 1 < i + k {
            } else {
                assert(v.table[j + 1] != FREE);
            }
        }
    }
}

/// Frees the run that begins in the page holding `ptr`: walks forward
/// clearing taken pages up to and including the one flagged last.
/// Freeing anything but the start of a live run, a second free among them,
/// is ruled out by the precondition; `can_deallocate` tests it.
pub fn deallocate(heap: &mut FrameAllocator, ptr: usize)
    requires
        old(heap)@.wf(),
        old(heap)@.can_free(ptr as int),
    ensures
        final(heap)@.wf(),
        old(heap)@.dealloc_result(ptr as int, final(heap)@),
{
    let ghost t = heap@.table;
    let idx: usize = (ptr - heap.alloc_start) / PAGE_SIZE;
    assert(idx == heap@.page_index(ptr as int));
    let mut p: usize = idx;
    proof {
        assert(t[p as int] == heap.pages@[p as int]@);
        lemma_entry_bits(t[p as int]);
    }
    while heap.pages[p].is_taken() && !heap.pages[p].is_last()
        invariant
            old(heap)@.wf(),
            t == old(heap)@.table,
            is_run_start(t, idx as int),
            idx <= p < t.len(),
            t[p as int] != FREE,
            heap.pages@.len() == t.len(),
            heap.heap_start == old(heap).heap_start,
            heap.alloc_start == old(heap).alloc_start,
            heap.memory@ == old(heap).memory@,
            forall|m: int| idx <= m < p ==> #[trigger] t[m] == TAKEN,
            forall|m: int|
                0 <= m < t.len() ==> #[trigger] heap.pages@[m]@ == if idx <= m < p {
                    FREE
                } else {
                    t[m]
                },
        decreases t.len() - p,
    {
        proof {
            lemma_entry_bits(t[p as int]);
        }
        let mut page: Page = heap.pages[p];
        page.clear();
        heap.pages.set(p, page);
        p = p + 1;
        proof {
            lemma_entry_bits(t[p as int]);
        }
    }
    proof {
        lemma_entry_bits(t[p as int]);
    }
    let mut page: Page = heap.pages[p];
    page.clear();
    heap.pages.set(p, page);
    proof {
        let len = p - idx + 1;
        assert(is_run(t, idx as int, len));
        assert(heap@.table =~= clear_run(t, idx as int, len));
        lemma_clear_run_wf(old(heap)@, idx as int, len);
    }
}

/// Clearing a run that starts at a run start keeps the table well formed.
proof fn lemma_clear_run_wf(v: FrameView, i: int, len: int)
    requires
        v.wf(),
        is_run_start(v.table, i),
        is_run(v.table, i, len),
    ensures
        (FrameView { table: clear_run(v.table, i, len), ..v }).wf(),
{
    let t2 = clear_run(v.table, i, len);
    assert forall|j: int| 0 <= j < t2.len() && #[trigger] t2[j] == TAKEN implies j + 1 < t2.len()
        && t2[j + 1] != FREE by {
        assert(v.table[j] == TAKEN);
        if j + 1 == i {
            assert(v.table[i - 1] != TAKEN);
        }
    }
}

/// Whether `ptr` lies in the first page of a live run, so that
/// `deallocate` may be called on it.
pub fn can_deallocate(heap: &FrameAllocator, ptr: usize) -> (r: bool)
    requires
        heap@.wf(),
    ensures
        r == heap@.can_free(ptr as int),
{
    if ptr < heap.alloc_start {
        return false;
    }
    let idx: usize = (ptr - heap.alloc_start) / PAGE_SIZE;
    if idx >= heap.pages.len() {
        return false;
    }
    proof {
        lemma_entry_bits(heap@.table[idx as int]);
        if idx > 0 {
            lemma_entry_bits(heap@.table[idx - 1]);
        }
    }
    if heap.pages[idx].is_free() {
        return false;
    }
    idx == 0 || !heap.pages[idx - 1].is_taken() || heap.pages[idx - 1].is_last()
}

/// Like `allocate`, and on success also sets every word of the returned
/// pages to zero, word by word.
pub fn zeroing_allocate(heap: &mut FrameAllocator, pages: usize) -> (r: Option<usize>)
    requires
        old(heap)@.wf(),
        pages >= 1,
    ensures
        final(heap)@.wf(),
        old(heap)@.alloc_table_result(pages as int, final(heap)@, r),
        match r {
            Some(p) => {
                let first = WORDS_PER_PAGE * final(heap)@.page_index(p as int);
                forall|w: int|
                    0 <= w < final(heap)@.words.len() ==> #[trigger] final(heap)@.words[w] == if first
                        <= w < first + WORDS_PER_PAGE * pages {
                        0
                    } else {
                        old(heap)@.words[w]
                    }
            },
            None => final(heap)@.words == old(heap)@.words,
        },
{
    let ret = allocate(heap, pages);
    match ret {
        Some(addr) => {
            let ghost i = choose|i: int|
                first_fit(old(heap)@.table, pages as int, i) && addr == old(heap)@.page_addr(i)
                    && #[trigger] mark_run(old(heap)@.table, i, pages as int) == heap@.table;
            assert(heap@.page_index(addr as int) == i);
            let first: usize = (addr - heap.alloc_start) / PAGE_SIZE * WORDS_PER_PAGE;
            let count: usize = PAGE_SIZE * pages / 8;
            assert(first + count <= heap.memory@.len()) by (nonlinear_arith)
                requires
                    first == WORDS_PER_PAGE * i,
                    count == WORDS_PER_PAGE * pages,
                    i + pages <= heap@.num_pages(),
                    heap.memory@.len() == WORDS_PER_PAGE * heap@.num_pages(),
            ;
            let ghost mid = heap.memory@;
            let ghost marked = heap@;
            let mut w: usize = 0;
            while w < count
                invariant
                    w <= count,
                    first + count <= mid.len(),
                    mid.len() <= usize::MAX,
                    heap.memory@.len() == mid.len(),
                    marked.words == mid,
                    heap@.table == marked.table,
                    heap@.heap_start == marked.heap_start,
                    heap@.alloc_start == marked.alloc_start,
                    forall|v: int|
                        0 <= v < mid.len() ==> #[trigger] heap.memory@[v] == if first <= v < first
                            + w {
                            0
                        } else {
                            mid[v]
                        },
                decreases count - w,
            {
                heap.memory.set(first + w, 0);
                w = w + 1;
            }
        },
        None => {},
    }
    ret
}

/// Entry `e` describes a live run of `v`: its first page's address and its length.
pub open spec fn describes_run(v: FrameView, e: (usize, usize)) -> bool {
    exists|i: int|
        is_run_start(v.table, i) && #[trigger] is_run(v.table, i, e.1 as int) && e.0
            == v.page_addr(i)
}

/// `r` lists every live run of `v` exactly once, by increasing address.
pub open spec fn lists_runs(v: FrameView, r: Seq<(usize, usize)>) -> bool {
    &&& forall|k: int| 0 <= k < r.len() ==> describes_run(v, #[trigger] r[k])
    &&& forall|k: int, l: int| 0 <= k < l < r.len() ==> #[trigger] r[k].0 < #[trigger] r[l].0
    &&& forall|i: int|
        #[trigger] is_run_start(v.table, i) ==> exists|k: int|
            0 <= k < r.len() && #[trigger] r[k].0 == v.page_addr(i)
}

/// The length of the run whose first page is `start`, walking forward to
/// the page flagged last.
fn run_length(heap: &FrameAllocator, start: usize) -> (len: usize)
    requires
        heap@.wf(),
        0 <= start < heap@.num_pages(),
        heap@.table[start as int] != FREE,
    ensures
        is_run(heap@.table, start as int, len as int),
{
    let ghost t = heap@.table;
    let n: usize = heap.pages.len();
    let mut p: usize = start;
    proof {
        lemma_entry_bits(t[p as int]);
    }
    while !heap.pages[p].is_last()
        invariant
            heap@.wf(),
            t == heap@.table,
            n == t.len(),
            start <= p < n,
            t[p as int] != FREE,
            forall|m: int| start <= m < p ==> #[trigger] t[m] == TAKEN,
        decreases n - p,
    {
        proof {
            assert(t[p as int] == heap.pages@[p as int]@);
            lemma_entry_bits(t[p as int]);
        }
        p = p + 1;
        proof {
            lemma_entry_bits(t[p as int]);
        }
    }
    proof {
        assert(t[p as int] == heap.pages@[p as int]@);
        lemma_entry_bits(t[p as int]);
    }
    p - start + 1
}

/// Lists every live run as its first page's address and its number of
/// pages, scanning the table once from the start. Reads only.
pub fn describe_allocations(heap: &FrameAllocator) -> (r: Vec<(usize, usize)>)
    requires
        heap@.wf(),
    ensures
        lists_runs(heap@, r@),
{
    let ghost v = heap@;
    let ghost t = heap@.table;
    let n: usize = heap.pages.len();
    let mut out: Vec<(usize, usize)> = Vec::new();
    let mut p: usize = 0;
    while p < n
        invariant
            v == heap@,
            v.wf(),
            t == v.table,
            n == t.len(),
            p <= n,
            p == 0 || t[p - 1] != TAKEN,
            forall|k: int| 0 <= k < out@.len() ==> describes_run(v, #[trigger] out@[k]),
            forall|k: int, l: int|
                0 <= k < l < out@.len() ==> #[trigger] out@[k].0 < #[trigger] out@[l].0,
            forall|k: int| 0 <= k < out@.len() ==> #[trigger] out@[k].0 < v.page_addr(p as int),
            forall|i: int|
                0 <= i < p && #[trigger] is_run_start(t, i) ==> exists|k: int|
                    0 <= k < out@.len() && #[trigger] out@[k].0 == v.page_addr(i),
        decreases n - p,
    {
        proof {
            assert(t[p as int] == heap.pages@[p as int]@);
            lemma_entry_bits(t[p as int]);
        }
        if heap.pages[p].is_taken() {
            let start: usize = p;
            let len: usize = run_length(heap, start);
            let entry: (usize, usize) = (heap.alloc_start + PAGE_SIZE * start, len);
            let ghost old_out = out@;
            proof {
                assert(is_run(t, start as int, entry.1 as int));
                assert(is_run_start(t, start as int));
            }
            out.push(entry);
            p = start + len;
            proof {
                assert(describes_run(v, out@[out@.len() - 1]));
                assert forall|i: int|
                    0 <= i < p && #[trigger] is_run_start(t, i) implies exists|k: int|
                        0 <= k < out@.len() && #[trigger] out@[k].0 == v.page_addr(i) by {
                    if i < start {
                        let k = choose|k: int|
                            0 <= k < old_out.len() && #[trigger] old_out[k].0 == v.page_addr(i);
                        assert(out@[k] == old_out[k]);
                    } else if i == start {
                        assert(out@[out@.len() - 1].0 == v.page_addr(i));
                    } else {
                        assert(t[i - 1] == TAKEN);
                    }
                }
                assert forall|k: int| 0 <= k < out@.len() implies describes_run(
                    v,
                    #[trigger] out@[k],
                ) by {
                    if k < old_out.len() {
                        assert(out@[k] == old_out[k]);
                    }
                }
            }
        } else {
            p = p + 1;
        }
    }
    out
}

/// A run starting at a given page has one length only.
proof fn lemma_run_len_unique(t: Seq<u8>, i: int, a: int, b: int)
    requires
        is_run(t, i, a),
        is_run(t, i, b),
    ensures
        a == b,
{
    if a < b {
        assert(t[i + a - 1] == TAKEN);
    } else if b < a {
        assert(t[i + b - 1] == TAKEN);
    }
}

/// Round trip: allocating `k` pages and then freeing the returned address
/// is allowed and gives back exactly the state before the allocation.
pub proof fn lemma_allocate_then_free_restores(
    pre: FrameView,
    k: int,
    mid: FrameView,
    r: Option<usize>,
    post: FrameView,
)
    requires
        pre.wf(),
        k >= 1,
        pre.alloc_table_result(k, mid, r),
        mid.words == pre.words,
        r is Some,
        mid.dealloc_result(r->0 as int, post),
    ensures
        mid.can_free(r->0 as int),
        post == pre,
{
    let t = pre.table;
    let i = choose|i: int|
        first_fit(t, k, i) && r->0 == pre.page_addr(i) && #[trigger] mark_run(t, i, k)
            == mid.table;
    lemma_mark_run_wf(pre, i, k);
    assert(mid.page_index(r->0 as int) == i);
    if i > 0 {
        assert(t[i] == FREE);
        assert(mid.table[i - 1] != TAKEN);
    }
    assert(mid.can_free(r->0 as int));
    let len = choose|len: int|
        is_run(mid.table, i, len) && #[trigger] clear_run(mid.table, i, len) == post.table;
    lemma_run_len_unique(mid.table, i, len, k);
    assert(post.table =~= t);
}

/// No partial allocation: when no `k` free pages stand side by side, a
/// request for `k` pages fails and leaves every page as it was.
pub proof fn lemma_no_partial_allocation(pre: FrameView, k: int, post: FrameView, r: Option<usize>)
    requires
        pre.wf(),
        k >= 1,
        forall|i: int| !#[trigger] free_span(pre.table, i, k),
        pre.alloc_table_result(k, post, r),
    ensures
        r is None,
        post.table == pre.table,
{
    if let Some(p) = r {
        let i = choose|i: int|
            first_fit(pre.table, k, i) && p == pre.page_addr(i) && #[trigger] mark_run(
                pre.table,
                i,
                k,
            ) == post.table;
        assert(free_span(pre.table, i, k));
    }
}

/// A second free of the same address is refused: once a run is freed its
/// first page is free, so the address no longer starts a live run.
pub proof fn lemma_double_free_rejected(pre: FrameView, ptr: int, post: FrameView)
    requires
        pre.wf(),
        pre.can_free(ptr),
        pre.dealloc_result(ptr, post),
    ensures
        !post.can_free(ptr),
{
    let idx = pre.page_index(ptr);
    let len = choose|len: int|
        is_run(pre.table, idx, len) && #[trigger] clear_run(pre.table, idx, len) == post.table;
    assert(post.table[idx] == FREE);
}

impl FrameAllocator {
    /// The word at address `addr` of the allocatable pages.
    pub fn read_word(&self, addr: usize) -> (r: u64)
        requires
            self@.wf(),
            self@.alloc_start <= addr,
            (addr - self@.alloc_start) / 8 < self@.words.len(),
        ensures
            r == self@.words[(addr - self@.alloc_start) / 8],
    {
        self.memory[(addr - self.alloc_start) / 8]
    }

    /// Stores `value` in the word at address `addr` of the allocatable pages.
    pub fn write_word(&mut self, addr: usize, value: u64)
        requires
            old(self)@.wf(),
            old(self)@.alloc_start <= addr,
            (addr - old(self)@.alloc_start) / 8 < old(self)@.words.len(),
        ensures
            final(self)@ == (FrameView {
                words: old(self)@.words.update((addr - old(self)@.alloc_start) / 8, value),
                ..old(self)@
            }),
            final(self)@.wf(),
    {
        let w: usize = (addr - self.alloc_start) / 8;
        self.memory.set(w, value);
    }
}

} // verus!
