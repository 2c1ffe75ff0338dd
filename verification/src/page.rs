//! The page-frame allocator.
//!
//! A [`Heap`] owns one descriptor byte per frame and the bytes of the usable
//! frames themselves. `alloc_pages` marks a first-fit run of descriptors,
//! `dealloc` clears a run and traps double frees, `zalloc` additionally
//! zeroes the allocated bytes.
//!
//! Two boundary decisions are deliberate. The first-fit scan's upper bound
//! is exclusive (`i < num_pages - pages`), so the last possible starting
//! index is never examined and the topmost frame is never handed out; with
//! the descriptor table occupying at least one page, every address the
//! allocator returns therefore stays inside the heap region. And the table
//! keeps one descriptor per frame of the whole heap, with the usable area
//! simply beginning at the page boundary above the table, so frame index
//! `i` stands for the address `alloc_start + i * PAGE_SIZE`.

use vstd::arithmetic::div_mod::{
    lemma_fundamental_div_mod, lemma_mod_bound, lemma_mod_multiples_basic,
};
use vstd::arithmetic::power2::{lemma2_to64, pow2};
use vstd::bits::{
    lemma_usize_low_bits_mask_is_mod, lemma_usize_pow2_no_overflow, lemma_usize_shl_is_mul,
    low_bits_mask,
};
use vstd::prelude::*;

verus! {

/// Base-two logarithm of the frame size.
pub const PAGE_ORDER: usize = 12;

/// Size of one page frame in bytes.
pub const PAGE_SIZE: usize = 4096;

/// Descriptor flag bit: the frame is part of a live allocation.
pub const TAKEN: u8 = 1;

/// Descriptor flag bit: the frame is the final frame of its run.
pub const LAST: u8 = 2;

/// Both flag bits at once, the marking of a run's final frame.
pub const TAKEN_LAST: u8 = 3;

/// One frame descriptor: a single byte holding the `TAKEN` and `LAST` bits.
pub struct Page {
    /// The raw flag byte. Only the `TAKEN` and `LAST` bits are ever set.
    pub flags: u8,
}

impl Clone for Page {
    fn clone(&self) -> (r: Self)
        ensures
            r == *self,
    {
        Page { flags: self.flags }
    }
}

impl Copy for Page {}

impl Page {
    /// The frame is part of a live allocation.
    pub open spec fn taken(&self) -> bool {
        self.flags & TAKEN != 0
    }

    /// The frame is the final frame of its allocation run.
    pub open spec fn last(&self) -> bool {
        self.flags & LAST != 0
    }

    /// The frame belongs to no live allocation.
    pub open spec fn free(&self) -> bool {
        !self.taken()
    }

    /// The descriptor byte holds only defined flag values: all bits other
    /// than `TAKEN` and `LAST` are zero, and `LAST` never appears alone.
    pub open spec fn valid(&self) -> bool {
        self.flags == 0 || self.flags == TAKEN || self.flags == TAKEN_LAST
    }

    pub fn is_last(&self) -> (r: bool)
        ensures
            r == self.last(),
    {
        self.flags & LAST != 0
    }

    pub fn is_taken(&self) -> (r: bool)
        ensures
            r == self.taken(),
    {
        self.flags & TAKEN != 0
    }

    pub fn is_free(&self) -> (r: bool)
        ensures
            r == self.free(),
    {
        !self.is_taken()
    }

    /// Reset the descriptor to the free state.
    pub fn clear(&mut self)
        ensures
            final(self).flags == 0,
    {
        self.flags = 0;
    }

    /// Mark the frame as an interior (non-final) frame of a run.
    pub fn mark_taken(&mut self)
        ensures
            final(self).flags == TAKEN,
    {
        self.flags = TAKEN;
    }

    /// Mark the frame as the final frame of a run.
    pub fn alloc_last(&mut self)
        ensures
            final(self).flags == TAKEN_LAST,
    {
        self.flags = TAKEN_LAST;
    }
}

/// What each defined flag byte means for the `taken` and `last` bits.
pub proof fn lemma_page_bits(p: Page)
    ensures
        p.flags == 0 ==> (!p.taken() && !p.last()),
        p.flags == TAKEN ==> (p.taken() && !p.last()),
        p.flags == TAKEN_LAST ==> (p.taken() && p.last()),
        p.valid() && p.free() ==> p.flags == 0,
        p.valid() ==> (p.last() ==> p.taken()),
{
    let f = p.flags;
    assert((f == 0 ==> (f & 1 == 0 && f & 2 == 0)) && (f == 1 ==> (f & 1 != 0 && f & 2 == 0))
        && (f == 3 ==> (f & 1 != 0 && f & 2 != 0))) by (bit_vector);
}

/// The least multiple of `p` that is at least `val`, for a positive
/// granularity `p`.
pub open spec fn spec_align_val(val: int, p: int) -> int {
    ((val + p - 1) / p) * p
}

/// `spec_align_val` rounds up to the nearest multiple: the result is a
/// multiple of `p` and lies in `[val, val + p)`.
pub proof fn lemma_align_val_properties(val: int, p: int)
    requires
        0 <= val,
        0 < p,
    ensures
        spec_align_val(val, p) % p == 0,
        val <= spec_align_val(val, p) < val + p,
{
    let s = val + p - 1;
    let q = s / p;
    lemma_fundamental_div_mod(s, p);
    lemma_mod_bound(s, p);
    lemma_mod_multiples_basic(q, p);
    assert(q * p == p * q) by (nonlinear_arith);
    assert(spec_align_val(val, p) == s - s % p);
}

/// Round `val` up to the next multiple of `2^order`.
pub fn align_val(val: usize, order: usize) -> (r: usize)
    requires
        order < usize::BITS,
        val + pow2(order as nat) - 1 <= usize::MAX,
    ensures
        r == spec_align_val(val as int, pow2(order as nat) as int),
{
    proof {
        lemma_usize_pow2_no_overflow(order as nat);
        lemma_usize_shl_is_mul(1, order);
    }
    let p: usize = 1usize << order;
    let o: usize = p - 1;
    let s: usize = val + o;
    proof {
        assert(s & !o == s - (s & o)) by (bit_vector);
        assert(o == low_bits_mask(order as nat));
        lemma_usize_low_bits_mask_is_mod(s, order as nat);
        assert(s & !o == s - s % p);
        let si = s as int;
        let pi = p as int;
        lemma_fundamental_div_mod(si, pi);
        assert((si / pi) * pi == pi * (si / pi)) by (nonlinear_arith);
        assert(spec_align_val(val as int, pi) == (si / pi) * pi);
        assert(s & !o == spec_align_val(val as int, pi));
    }
    (val + o) & !o
}

/// Every descriptor in the table holds only defined flag values.
pub open spec fn pages_valid(s: Seq<Page>) -> bool {
    forall|i: int| 0 <= i < s.len() ==> (#[trigger] s[i]).valid()
}

/// A taken descriptor that is not the final frame of its run is followed by
/// another taken descriptor. Together with validity this makes every
/// allocation run end in a `LAST` descriptor inside the table.
pub open spec fn run_continues(s: Seq<Page>) -> bool {
    forall|i: int|
        0 <= i < s.len() && (#[trigger] s[i]).taken() && !s[i].last() ==> i + 1 < s.len()
            && s[i + 1].taken()
}

/// The `k` descriptors starting at `i` are all free.
pub open spec fn window_free(s: Seq<Page>, i: int, k: int) -> bool {
    forall|j: int| i <= j < i + k ==> (#[trigger] s[j]).free()
}

/// Descriptor `i` is the first frame of an allocation run: it is taken, and
/// it is not preceded by an interior run frame.
pub open spec fn run_start(s: Seq<Page>, i: int) -> bool {
    &&& 0 <= i < s.len()
    &&& s[i].taken()
    &&& (i == 0 || s[i - 1].free() || s[i - 1].last())
}

/// The index of the final frame of the run beginning at `i`: the first
/// descriptor at or after `i` marked `LAST`. Yields `s.len()` when no such
/// descriptor exists.
pub open spec fn run_end(s: Seq<Page>, i: int) -> int
    decreases s.len() - i,
{
    if !(0 <= i < s.len()) {
        s.len() as int
    } else if s[i].last() {
        i
    } else {
        run_end(s, i + 1)
    }
}

/// The descriptor table after marking the run `[i, i + k)`: interior frames
/// become `TAKEN`, the final frame `TAKEN | LAST`, all others are unchanged.
pub open spec fn mark_run(s: Seq<Page>, i: int, k: int) -> Seq<Page> {
    Seq::new(
        s.len(),
        |j: int|
            if i <= j < i + k - 1 {
                Page { flags: TAKEN }
            } else if j == i + k - 1 {
                Page { flags: TAKEN_LAST }
            } else {
                s[j]
            },
    )
}

/// The descriptor table after clearing the run beginning at `i`: the
/// descriptors `[i, run_end(s, i)]` become zero, all others are unchanged.
pub open spec fn clear_run(s: Seq<Page>, i: int) -> Seq<Page> {
    Seq::new(
        s.len(),
        |j: int|
            if i <= j <= run_end(s, i) {
                Page { flags: 0 }
            } else {
                s[j]
            },
    )
}

/// The number of starting indices the first-fit scan examines: `n - k` for a
/// request of `k` frames out of `n`, and none when the request exceeds the
/// table.
pub open spec fn spec_search_bound(n: int, k: int) -> int {
    if k <= n {
        n - k
    } else {
        0
    }
}

/// The first-fit search from index `i` (exclusive upper bound `bound`):
/// the least starting index at or after `i` whose `k`-frame window is
/// entirely free, or `-1` when there is none.
pub open spec fn first_fit_from(s: Seq<Page>, k: int, i: int, bound: int) -> int
    decreases bound - i,
{
    if !(0 <= i < bound) {
        -1
    } else if window_free(s, i, k) {
        i
    } else {
        first_fit_from(s, k, i + 1, bound)
    }
}

/// The least starting index below `bound` whose `k`-frame window is entirely
/// free, or `-1` when there is none.
pub open spec fn first_fit(s: Seq<Page>, k: int, bound: int) -> int {
    first_fit_from(s, k, 0, bound)
}

/// The number of taken descriptors among the first `i`.
pub open spec fn count_taken_prefix(s: Seq<Page>, i: int) -> int
    decreases i,
{
    if i <= 0 {
        0
    } else {
        count_taken_prefix(s, i - 1) + if s[i - 1].taken() {
            1int
        } else {
            0int
        }
    }
}

/// The number of taken descriptors in the whole table, which equals the sum
/// of the lengths of all live allocation runs.
pub open spec fn count_taken(s: Seq<Page>) -> int {
    count_taken_prefix(s, s.len() as int)
}

/// The byte sequence `m` with `[off, off + cnt)` zeroed and the rest
/// unchanged.
pub open spec fn zero_range(m: Seq<u8>, off: int, cnt: int) -> Seq<u8> {
    Seq::new(
        m.len(),
        |b: int|
            if off <= b < off + cnt {
                0u8
            } else {
                m[b]
            },
    )
}

/// A fatal condition detected by `dealloc`. The surrounding kernel treats
/// each of these as an abort: it prints a diagnostic and halts.
#[derive(Clone, Copy, Debug, PartialEq, Eq, Structural)]
pub enum PageFault {
    /// The pointer was null.
    NullPointer,
    /// The pointer lies outside the usable frame area.
    OutOfRange,
    /// A free descriptor was found before the run's `LAST` marker — the
    /// pointer's run was already freed (or never allocated).
    DoubleFree,
}

/// The page-frame allocator: the configuration of the heap region, one
/// descriptor per frame, and the bytes of the usable frames.
///
/// Addresses handed out by `alloc_pages`/`zalloc` lie in
/// `[alloc_start, alloc_start + num_pages * PAGE_SIZE)`; the bytes of the
/// frame with index `i` sit at offset `i * PAGE_SIZE` of `mem`.
pub struct Heap {
    heap_start: usize,
    heap_size: usize,
    num_pages: usize,
    alloc_start: usize,
    pages: Vec<Page>,
    mem: Vec<u8>,
}

impl Heap {
    /// Physical address of the start of the heap region.
    pub closed spec fn spec_heap_start(&self) -> int {
        self.heap_start as int
    }

    /// Byte length of the heap region.
    pub closed spec fn spec_heap_size(&self) -> int {
        self.heap_size as int
    }

    /// Number of frames, `heap_size / PAGE_SIZE`; also the byte length of
    /// the descriptor table.
    pub closed spec fn spec_num_pages(&self) -> int {
        self.num_pages as int
    }

    /// Physical address of the first usable frame: the heap start plus the
    /// descriptor table, rounded up to a page boundary.
    pub closed spec fn spec_alloc_start(&self) -> int {
        self.alloc_start as int
    }

    /// The descriptor table.
    pub closed spec fn spec_pages(&self) -> Seq<Page> {
        self.pages@
    }

    /// The bytes of the usable frames.
    pub closed spec fn spec_mem(&self) -> Seq<u8> {
        self.mem@
    }

    /// The configuration of the heap region: everything except the
    /// descriptors and the frame bytes.
    pub open spec fn config(&self) -> (int, int, int, int) {
        (self.spec_heap_start(), self.spec_heap_size(), self.spec_num_pages(),
        self.spec_alloc_start())
    }

    /// `addr` lies inside some usable frame.
    pub open spec fn in_frame_range(&self, addr: int) -> bool {
        self.spec_alloc_start() <= addr < self.spec_alloc_start() + self.spec_num_pages()
            * PAGE_SIZE
    }

    /// The frame index that `addr` falls in.
    pub open spec fn frame_index(&self, addr: int) -> int {
        (addr - self.spec_alloc_start()) / PAGE_SIZE as int
    }

    /// Well-formedness: the configuration is internally consistent and the
    /// descriptor table describes disjoint, properly terminated runs.
    pub closed spec fn wf(&self) -> bool {
        &&& self.num_pages == self.heap_size / PAGE_SIZE
        &&& self.heap_start % PAGE_SIZE == 0
        &&& self.heap_size % PAGE_SIZE == 0
        &&& self.num_pages >= 1
        &&& self.alloc_start == spec_align_val(
            self.heap_start + self.num_pages,
            PAGE_SIZE as int,
        )
        &&& self.alloc_start % PAGE_SIZE == 0
        &&& self.alloc_start >= PAGE_SIZE
        &&& self.alloc_start + self.num_pages * PAGE_SIZE <= usize::MAX
        &&& self.pages.len() == self.num_pages
        &&& self.mem.len() == self.num_pages * PAGE_SIZE
        &&& pages_valid(self.pages@)
        &&& run_continues(self.pages@)
        &&& self.pages@[self.num_pages - 1].free()
    }

    /// What well-formedness guarantees about the observable state.
    pub proof fn lemma_wf_properties(&self)
        requires
            self.wf(),
        ensures
            self.spec_pages().len() == self.spec_num_pages(),
            self.spec_mem().len() == self.spec_num_pages() * PAGE_SIZE,
            pages_valid(self.spec_pages()),
            run_continues(self.spec_pages()),
            self.spec_num_pages() == self.spec_heap_size() / PAGE_SIZE as int,
            self.spec_heap_start() % PAGE_SIZE as int == 0,
            self.spec_alloc_start() == spec_align_val(
                self.spec_heap_start() + self.spec_num_pages(),
                PAGE_SIZE as int,
            ),
            self.spec_alloc_start() % PAGE_SIZE as int == 0,
            self.spec_alloc_start() >= PAGE_SIZE,
            self.spec_alloc_start() + self.spec_num_pages() * PAGE_SIZE <= usize::MAX,
            self.spec_num_pages() >= 1,
            self.spec_pages()[self.spec_num_pages() - 1].free(),
    {
    }

    /// Set up the allocator for the heap region `[heap_start, heap_start +
    /// heap_size)`: one zeroed descriptor per frame, and the first usable
    /// frame at the page boundary above the descriptor table.
    pub fn init(heap_start: usize, heap_size: usize) -> (h: Heap)
        requires
            heap_start % PAGE_SIZE == 0,
            heap_size % PAGE_SIZE == 0,
            PAGE_SIZE <= heap_size,
            spec_align_val(heap_start + heap_size / PAGE_SIZE, PAGE_SIZE as int) + (heap_size
                / PAGE_SIZE) * PAGE_SIZE <= usize::MAX,
        ensures
            h.wf(),
            h.spec_heap_start() == heap_start,
            h.spec_heap_size() == heap_size,
            h.spec_num_pages() == heap_size / PAGE_SIZE,
            h.spec_alloc_start() == spec_align_val(
                heap_start + heap_size / PAGE_SIZE,
                PAGE_SIZE as int,
            ),
            forall|i: int|
                0 <= i < h.spec_num_pages() ==> (#[trigger] h.spec_pages()[i]).flags == 0,
            h.spec_mem() == Seq::new((h.spec_num_pages() * PAGE_SIZE) as nat, |b: int| 0u8),
    {
        let num_pages = heap_size / PAGE_SIZE;
        proof {
            lemma2_to64();
            assert(pow2(12) == 4096);
            assert(num_pages >= 1);
            lemma_align_val_properties(heap_start + num_pages, PAGE_SIZE as int);
            assert(num_pages * PAGE_SIZE >= 1 * PAGE_SIZE) by (nonlinear_arith)
                requires
                    num_pages >= 1,
            ;
        }
        let alloc_start = align_val(heap_start + num_pages, PAGE_ORDER);
        proof {
            lemma_multiple_at_least(alloc_start as int, PAGE_SIZE as int);
        }
        let mut pages: Vec<Page> = Vec::new();
        let mut i: usize = 0;
        while i < num_pages
            invariant
                i <= num_pages,
                pages.len() == i,
                forall|j: int| 0 <= j < i ==> (#[trigger] pages@[j]).flags == 0,
            decreases num_pages - i,
        {
            pages.push(Page { flags: 0 });
            i = i + 1;
        }
        let num_bytes = num_pages * PAGE_SIZE;
        let mut mem: Vec<u8> = Vec::new();
        let mut b: usize = 0;
        while b < num_bytes
            invariant
                b <= num_bytes,
                mem.len() == b,
                forall|j: int| 0 <= j < b ==> mem@[j] == 0u8,
            decreases num_bytes - b,
        {
            mem.push(0u8);
            b = b + 1;
        }
        let h = Heap { heap_start, heap_size, num_pages, alloc_start, pages, mem };
        proof {
            assert forall|j: int| 0 <= j < h.pages@.len() implies (#[trigger] h.pages@[j]).valid()
                && !h.pages@[j].taken() && !h.pages@[j].last() by {
                lemma_page_bits(h.pages@[j]);
            }
            assert(h.spec_mem() =~= Seq::new((h.spec_num_pages() * PAGE_SIZE) as nat, |x: int| 0u8));
        }
        h
    }

    /// Whether the `count` descriptors starting at `start` are all free.
    fn window_is_free(&self, start: usize, count: usize) -> (r: bool)
        requires
            start + count <= self.spec_pages().len(),
        ensures
            r == window_free(self.spec_pages(), start as int, count as int),
    {
        proof {
            assert(self.pages@.len() == self.pages.len());
        }
        let end = start + count;
        let mut j = start;
        while j < end
            invariant
                start <= j <= end,
                end == start + count,
                end <= self.spec_pages().len(),
                forall|jj: int| start <= jj < j ==> (#[trigger] self.spec_pages()[jj]).free(),
            decreases start + count - j,
        {
            if self.pages[j].is_taken() {
                return false;
            }
            j = j + 1;
        }
        true
    }

    /// Allocate a contiguous run of `pages` frames by first-fit search and
    /// return the physical address of its first frame, or `0` when no free
    /// window of that length exists below the search bound.
    ///
    /// On success the first `pages - 1` descriptors of the run are marked
    /// `TAKEN` and the final one `TAKEN | LAST`; nothing else changes, and
    /// the returned address is page-aligned, at or above `alloc_start`, and
    /// the run's frames lie entirely inside the usable area.
    pub fn alloc_pages(&mut self, pages: usize) -> (r: usize)
        requires
            old(self).wf(),
            1 <= pages,
        ensures
            final(self).wf(),
            final(self).config() == old(self).config(),
            final(self).spec_mem() == old(self).spec_mem(),
            ({
                let s = old(self).spec_pages();
                let k = pages as int;
                let ff = first_fit(s, k, spec_search_bound(old(self).spec_num_pages(), k));
                &&& (ff == -1 ==> r == 0 && *final(self) == *old(self))
                &&& (ff >= 0 ==> {
                    &&& r == old(self).spec_alloc_start() + ff * PAGE_SIZE
                    &&& r != 0
                    &&& final(self).spec_pages() == mark_run(s, ff, k)
                })
            }),
            r != 0 ==> (r as int) % (PAGE_SIZE as int) == 0 && r >= old(self).spec_alloc_start() && r + pages
                * PAGE_SIZE <= old(self).spec_alloc_start() + old(self).spec_num_pages()
                * PAGE_SIZE,
            r == 0 ==> *final(self) == *old(self),
    {
        let ghost s = self.pages@;
        let ghost k = pages as int;
        let ghost n = self.spec_num_pages();
        if pages > self.num_pages {
            return 0;
        }
        let bound = self.num_pages - pages;
        let ghost bnd = bound as int;
        let mut i: usize = 0;
        while i < bound
            invariant
                *self == *old(self),
                self.wf(),
                1 <= pages <= self.num_pages,
                s == self.pages@,
                k == pages as int,
                n == self.spec_num_pages(),
                bound == self.num_pages - pages,
                bnd == bound as int,
                i <= bound,
                forall|j: int| 0 <= j < i ==> !window_free(s, j, k),
            decreases bound - i,
        {
            let mut found = false;
            if self.pages[i].is_free() {
                found = self.window_is_free(i, pages);
            }
            proof {
                if !found {
                    assert(!window_free(s, i as int, k));
                }
            }
            if found {
                proof {
                    lemma_first_fit_from_props(s, k, 0, bnd);
                    assert(first_fit(s, k, bnd) == i as int);
                }
                let ghost ii = i as int;
                let last_idx = i + pages - 1;
                let mut t = i;
                while t < last_idx
                    invariant
                        i <= t <= last_idx,
                        last_idx == i + pages - 1,
                        i + pages <= self.pages.len(),
                        self.heap_start == old(self).heap_start,
                        self.heap_size == old(self).heap_size,
                        self.num_pages == old(self).num_pages,
                        self.alloc_start == old(self).alloc_start,
                        self.mem == old(self).mem,
                        self.pages.len() == s.len(),
                        forall|j: int| i <= j < t ==> (#[trigger] self.pages@[j]).flags == TAKEN,
                        forall|j: int|
                            0 <= j < s.len() && !(i <= j < t) ==> #[trigger] self.pages@[j] == s[j],
                    decreases last_idx - t,
                {
                    let mut pg = self.pages[t];
                    pg.mark_taken();
                    self.pages[t] = pg;
                    t = t + 1;
                }
                let mut pg = self.pages[last_idx];
                pg.alloc_last();
                self.pages[last_idx] = pg;
                proof {
                    assert(self.pages@ =~= mark_run(s, ii, k));
                    lemma_mark_run_wf(s, ii, k, n);
                    assert(ii * PAGE_SIZE + k * PAGE_SIZE == (ii + k) * PAGE_SIZE) by (nonlinear_arith);
                    assert((ii + k) * PAGE_SIZE <= n * PAGE_SIZE) by (nonlinear_arith)
                        requires
                            ii + k <= n,
                            PAGE_SIZE > 0,
                    ;
                    assert(ii * PAGE_SIZE >= 0) by (nonlinear_arith)
                        requires
                            ii >= 0,
                            PAGE_SIZE > 0,
                    ;
                    lemma_fundamental_div_mod(self.alloc_start as int, PAGE_SIZE as int);
                    lemma_mod_multiples_basic(
                        self.alloc_start as int / (PAGE_SIZE as int) + ii,
                        PAGE_SIZE as int,
                    );
                    assert((self.alloc_start as int / (PAGE_SIZE as int) + ii) * (PAGE_SIZE as int)
                        == self.alloc_start + ii * PAGE_SIZE) by (nonlinear_arith)
                        requires
                            self.alloc_start == (PAGE_SIZE as int) * (self.alloc_start as int / (
                            PAGE_SIZE as int)),
                    ;
                }
                return self.alloc_start + PAGE_SIZE * i;
            }
            i = i + 1;
        }
        proof {
            lemma_first_fit_from_props(s, k, 0, bnd);
            assert(first_fit(s, k, spec_search_bound(n, k)) == -1);
        }
        0
    }

    /// Free the allocation run whose first frame `ptr` points into, clearing
    /// its descriptors from the first frame through the one marked `LAST`.
    ///
    /// A null pointer, a pointer outside the usable frame area, and a
    /// pointer whose descriptor is already free (a double free) are fatal:
    /// the corresponding fault is returned and nothing changes. `ptr` must
    /// not point into the middle of a live run; a pointer returned by
    /// `alloc_pages` or `zalloc` and not freed since never does.
    pub fn dealloc(&mut self, ptr: usize) -> (r: Result<(), PageFault>)
        requires
            old(self).wf(),
            old(self).in_frame_range(ptr as int) && old(self).spec_pages()[old(self).frame_index(
                ptr as int,
            )].taken() ==> run_start(old(self).spec_pages(), old(self).frame_index(ptr as int)),
        ensures
            final(self).wf(),
            final(self).config() == old(self).config(),
            final(self).spec_mem() == old(self).spec_mem(),
            ({
                let s = old(self).spec_pages();
                let idx = old(self).frame_index(ptr as int);
                let in_range = old(self).in_frame_range(ptr as int);
                &&& (r == Ok::<(), PageFault>(()) <==> ptr != 0 && in_range && s[idx].taken())
                &&& (ptr == 0 ==> r == Err::<(), PageFault>(PageFault::NullPointer))
                &&& (ptr != 0 && !in_range ==> r == Err::<(), PageFault>(PageFault::OutOfRange))
                &&& (ptr != 0 && in_range && s[idx].free() ==> r == Err::<(), PageFault>(
                    PageFault::DoubleFree,
                ))
                &&& (r is Ok ==> final(self).spec_pages() == clear_run(s, idx))
                &&& (r is Err ==> *final(self) == *old(self))
            }),
    {
        let ghost s = self.pages@;
        if ptr == 0 {
            return Err(PageFault::NullPointer);
        }
        if ptr < self.alloc_start {
            proof {
                lemma_div_neg_range(ptr as int - self.spec_alloc_start(), PAGE_SIZE as int);
            }
            return Err(PageFault::OutOfRange);
        }
        let idx = (ptr - self.alloc_start) / PAGE_SIZE;
        proof {
            lemma_div_ge_iff(
                ptr as int - self.spec_alloc_start(),
                self.spec_num_pages(),
                PAGE_SIZE as int,
            );
        }
        if idx >= self.num_pages {
            return Err(PageFault::OutOfRange);
        }
        let ghost i0 = idx as int;
        if self.pages[idx].is_free() {
            proof {
                lemma_page_bits(s[i0]);
            }
            return Err(PageFault::DoubleFree);
        }
        proof {
            lemma_run_end_props(s, i0);
        }
        let ghost e = run_end(s, i0);
        let mut j = idx;
        while !self.pages[j].is_last()
            invariant
                idx <= j,
                i0 == idx as int,
                j as int <= e,
                e == run_end(s, i0),
                e < s.len(),
                pages_valid(s),
                run_continues(s),
                s[i0].taken(),
                forall|jj: int| i0 <= jj < e ==> (#[trigger] s[jj]).taken() && !s[jj].last(),
                s[e].last(),
                self.heap_start == old(self).heap_start,
                self.heap_size == old(self).heap_size,
                self.num_pages == old(self).num_pages,
                self.alloc_start == old(self).alloc_start,
                self.mem == old(self).mem,
                self.pages.len() == s.len(),
                forall|jj: int| i0 <= jj < j ==> (#[trigger] self.pages@[jj]).flags == 0,
                forall|jj: int|
                    0 <= jj < s.len() && !(i0 <= jj < j) ==> #[trigger] self.pages@[jj] == s[jj],
            decreases e - j,
        {
            let mut pg = self.pages[j];
            pg.clear();
            self.pages[j] = pg;
            j = j + 1;
            proof {
                lemma_page_bits(s[j - 1]);
                lemma_page_bits(s[j as int]);
            }
        }
        proof {
            assert(j as int == e);
        }
        let mut pg = self.pages[j];
        pg.clear();
        self.pages[j] = pg;
        proof {
            assert(self.pages@ =~= clear_run(s, i0));
            lemma_clear_run_wf(s, i0);
        }
        Ok(())
    }

    /// Allocate a run of `pages` frames as `alloc_pages` does, and
    /// additionally zero every byte of the allocated frames. Returns the
    /// same address, or `0` when no free window of that length exists.
    pub fn zalloc(&mut self, pages: usize) -> (r: usize)
        requires
            old(self).wf(),
            1 <= pages,
        ensures
            final(self).wf(),
            final(self).config() == old(self).config(),
            ({
                let s = old(self).spec_pages();
                let k = pages as int;
                let ff = first_fit(s, k, spec_search_bound(old(self).spec_num_pages(), k));
                &&& (ff == -1 ==> r == 0 && *final(self) == *old(self))
                &&& (ff >= 0 ==> {
                    &&& r == old(self).spec_alloc_start() + ff * PAGE_SIZE
                    &&& r != 0
                    &&& final(self).spec_pages() == mark_run(s, ff, k)
                    &&& final(self).spec_mem() == zero_range(
                        old(self).spec_mem(),
                        ff * PAGE_SIZE,
                        k * PAGE_SIZE,
                    )
                })
            }),
            r != 0 ==> (r as int) % (PAGE_SIZE as int) == 0 && r >= old(self).spec_alloc_start()
                && r + pages * PAGE_SIZE <= old(self).spec_alloc_start() + old(
                self,
            ).spec_num_pages() * PAGE_SIZE,
            r != 0 ==> forall|b: int|
                r - old(self).spec_alloc_start() <= b < r - old(self).spec_alloc_start() + pages
                    * PAGE_SIZE ==> final(self).spec_mem()[b] == 0u8,
            r == 0 ==> *final(self) == *old(self),
    {
        let ghost k = pages as int;
        let ghost s = self.pages@;
        let ghost m0 = self.mem@;
        let ret = self.alloc_pages(pages);
        if ret != 0 {
            let ghost ff = first_fit(s, k, spec_search_bound(self.spec_num_pages(), k));
            let off = ret - self.alloc_start;
            proof {
                lemma_first_fit_from_props(s, k, 0, spec_search_bound(self.spec_num_pages(), k));
                assert(off as int == ff * PAGE_SIZE);
                assert(k * PAGE_SIZE >= 1 * PAGE_SIZE) by (nonlinear_arith)
                    requires
                        k >= 1,
                        PAGE_SIZE > 0,
                ;
                assert(ff * PAGE_SIZE + k * PAGE_SIZE == (ff + k) * PAGE_SIZE) by (nonlinear_arith);
                assert((ff + k) * PAGE_SIZE <= self.spec_num_pages() * PAGE_SIZE)
                    by (nonlinear_arith)
                    requires
                        ff + k <= self.spec_num_pages(),
                        PAGE_SIZE > 0,
                ;
            }
            let cnt = pages * PAGE_SIZE;
            let stop = off + cnt;
            let mut b = off;
            while b < stop
                invariant
                    off <= b <= stop,
                    stop == off + cnt,
                    cnt == pages * PAGE_SIZE,
                    stop <= self.mem.len(),
                    self.heap_start == old(self).heap_start,
                    self.heap_size == old(self).heap_size,
                    self.num_pages == old(self).num_pages,
                    self.alloc_start == old(self).alloc_start,
                    self.pages@ == mark_run(s, ff, k),
                    self.pages.len() == s.len(),
                    pages_valid(self.pages@),
                    run_continues(self.pages@),
                    self.wf(),
                    self.mem.len() == m0.len(),
                    forall|x: int| off <= x < b ==> #[trigger] self.mem@[x] == 0u8,
                    forall|x: int| 0 <= x < m0.len() && !(off <= x < b) ==> #[trigger] self.mem@[x]
                        == m0[x],
                decreases stop - b,
            {
                self.mem[b] = 0u8;
                b = b + 1;
            }
            proof {
                assert(self.mem@ =~= zero_range(m0, ff * PAGE_SIZE, k * PAGE_SIZE));
            }
        }
        ret
    }

    /// Read the byte at physical address `addr`, which must lie inside the
    /// usable frame area.
    pub fn read_byte(&self, addr: usize) -> (b: u8)
        requires
            self.wf(),
            self.in_frame_range(addr as int),
        ensures
            b == self.spec_mem()[addr - self.spec_alloc_start()],
    {
        self.mem[addr - self.alloc_start]
    }

    /// Write the byte at physical address `addr`, which must lie inside the
    /// usable frame area. Descriptors and configuration are untouched.
    pub fn write_byte(&mut self, addr: usize, val: u8)
        requires
            old(self).wf(),
            old(self).in_frame_range(addr as int),
        ensures
            final(self).wf(),
            final(self).config() == old(self).config(),
            final(self).spec_pages() == old(self).spec_pages(),
            final(self).spec_mem() == old(self).spec_mem().update(
                addr - old(self).spec_alloc_start(),
                val,
            ),
    {
        self.mem[addr - self.alloc_start] = val;
    }

    /// Physical address of the start of the heap region.
    pub fn heap_start(&self) -> (r: usize)
        ensures
            r == self.spec_heap_start(),
    {
        self.heap_start
    }

    /// Byte length of the heap region.
    pub fn heap_size(&self) -> (r: usize)
        ensures
            r == self.spec_heap_size(),
    {
        self.heap_size
    }

    /// Number of frames (and descriptor bytes).
    pub fn num_pages(&self) -> (r: usize)
        ensures
            r == self.spec_num_pages(),
    {
        self.num_pages
    }

    /// Physical address of the first usable frame.
    pub fn alloc_start(&self) -> (r: usize)
        ensures
            r == self.spec_alloc_start(),
    {
        self.alloc_start
    }

    /// The flag byte of descriptor `idx`, for inspection.
    pub fn descriptor(&self, idx: usize) -> (f: u8)
        requires
            self.wf(),
            idx < self.spec_num_pages(),
        ensures
            f == self.spec_pages()[idx as int].flags,
    {
        self.pages[idx].flags
    }

    /// One entry per live allocation run, in increasing address order: the
    /// physical address of the run's first byte, the physical address of its
    /// last byte, and its length in pages. This is the content of the
    /// diagnostic allocation dump; the caller formats and prints it.
    #[verifier::loop_isolation(false)]
    #[verifier::rlimit(100)]
    #[verifier::spinoff_prover]
    pub fn allocation_runs(&self) -> (runs: Vec<(usize, usize, usize)>)
        requires
            self.wf(),
        ensures
            ({
                let s = self.spec_pages();
                let starts = run_start_indices(s, 0);
                let a = self.spec_alloc_start();
                &&& runs@.len() == starts.len()
                &&& forall|q: int|
                    0 <= q < starts.len() ==> {
                        let st = starts[q];
                        let e = run_end(s, st);
                        &&& (#[trigger] runs@[q]).0 == a + st * PAGE_SIZE
                        &&& runs@[q].1 == a + (e + 1) * PAGE_SIZE - 1
                        &&& runs@[q].2 == e - st + 1
                    }
            }),
    {
        let ghost s = self.pages@;
        let ghost starts = run_start_indices(s, 0);
        let ghost a = self.spec_alloc_start();
        let mut runs: Vec<(usize, usize, usize)> = Vec::new();
        let mut i: usize = 0;
        while i < self.num_pages
            invariant
                self.wf(),
                s == self.spec_pages(),
                a == self.spec_alloc_start(),
                starts == run_start_indices(s, 0),
                i <= self.spec_num_pages(),
                i == 0 || s[i - 1].free() || s[i - 1].last(),
                run_start_indices(s, i as int) == starts.skip(runs@.len() as int),
                runs@.len() <= starts.len(),
                forall|q: int|
                    0 <= q < runs@.len() ==> {
                        let st = starts[q];
                        let e = run_end(s, st);
                        &&& (#[trigger] runs@[q]).0 == a + st * PAGE_SIZE
                        &&& runs@[q].1 == a + (e + 1) * PAGE_SIZE - 1
                        &&& runs@[q].2 == e - st + 1
                    },
            decreases self.spec_num_pages() - i,
        {
            let ghost qdone = runs@.len() as int;
            if self.pages[i].is_taken() {
                proof {
                    assert(run_start(s, i as int));
                    lemma_run_end_props(s, i as int);
                    lemma_run_start_indices_skip(s, i as int);
                    assert(run_start_indices(s, i as int).len() >= 1);
                    assert(starts.skip(qdone)[0] == starts[qdone]);
                    assert(starts[qdone] == i as int);
                }
                let ghost e = run_end(s, i as int);
                let mut j = i;
                while !self.pages[j].is_last()
                    invariant
                        self.wf(),
                        s == self.spec_pages(),
                        i as int <= j as int <= e,
                        e == run_end(s, i as int),
                        e < s.len(),
                        s[e].last(),
                        forall|jj: int| i <= jj < e ==> (#[trigger] s[jj]).taken() && !s[jj].last(),
                    decreases e - j,
                {
                    j = j + 1;
                }
                proof {
                    assert(j as int == e);
                    assert((e + 1) * PAGE_SIZE <= self.spec_num_pages() * PAGE_SIZE)
                        by (nonlinear_arith)
                        requires
                            e + 1 <= self.spec_num_pages(),
                            PAGE_SIZE > 0,
                    ;
                    assert(i as int * PAGE_SIZE >= 0) by (nonlinear_arith)
                        requires
                            i as int >= 0,
                            PAGE_SIZE > 0,
                    ;
                    assert((e + 1) * PAGE_SIZE == e * PAGE_SIZE + PAGE_SIZE);
                    assert(e * PAGE_SIZE >= i as int * PAGE_SIZE) by (nonlinear_arith)
                        requires
                            e >= i as int,
                            PAGE_SIZE > 0,
                    ;
                }
                let start_addr = self.alloc_start + i * PAGE_SIZE;
                let end_addr = self.alloc_start + (j + 1) * PAGE_SIZE - 1;
                let npages = j - i + 1;
                runs.push((start_addr, end_addr, npages));
                proof {
                    let tail = run_start_indices(s, e + 1);
                    assert(run_start_indices(s, i as int) == seq![i as int] + tail);
                    assert(tail.len() == starts.skip(qdone + 1).len());
                    assert forall|x: int| 0 <= x < tail.len() implies tail[x] == starts.skip(
                        qdone + 1,
                    )[x] by {
                        assert(run_start_indices(s, i as int)[x + 1] == starts.skip(qdone)[x + 1]);
                        assert((seq![i as int] + tail)[x + 1] == tail[x]);
                        assert(starts.skip(qdone)[x + 1] == starts[qdone + 1 + x]);
                        assert(starts.skip(qdone + 1)[x] == starts[qdone + 1 + x]);
                    }
                    assert(run_start_indices(s, e + 1) =~= starts.skip(qdone + 1));
                    assert forall|q: int|
                        0 <= q < runs@.len() implies {
                        let st = starts[q];
                        let en = run_end(s, st);
                        &&& (#[trigger] runs@[q]).0 == a + st * PAGE_SIZE
                        &&& runs@[q].1 == a + (en + 1) * PAGE_SIZE - 1
                        &&& runs@[q].2 == en - st + 1
                    } by {
                        if q < qdone {
                            assert(runs@[q] == runs@.subrange(0, qdone)[q]);
                        }
                    }
                }
                i = j + 1;
            } else {
                proof {
                    assert(!run_start(s, i as int));
                    assert(run_start_indices(s, i as int) == run_start_indices(s, i as int + 1));
                }
                i = i + 1;
            }
        }
        proof {
            assert(run_start_indices(s, i as int) =~= Seq::<int>::empty());
            assert(starts.skip(runs@.len() as int).len() == 0);
            assert(runs@.len() == starts.len());
        }
        runs
    }

    /// The number of taken descriptors: the total number of frames held by
    /// live allocations. The number of free frames is `num_pages` less this.
    pub fn taken_count(&self) -> (c: usize)
        requires
            self.wf(),
        ensures
            c == count_taken(self.spec_pages()),
            c <= self.spec_num_pages(),
    {
        let ghost s = self.pages@;
        let mut c: usize = 0;
        let mut i: usize = 0;
        while i < self.num_pages
            invariant
                self.wf(),
                s == self.spec_pages(),
                i <= self.spec_num_pages(),
                c as int == count_taken_prefix(s, i as int),
                c <= i,
            decreases self.spec_num_pages() - i,
        {
            if self.pages[i].is_taken() {
                c = c + 1;
            }
            i = i + 1;
        }
        c
    }
}

/// In a table whose descriptors are all valid, no frame is marked `LAST`
/// without also being `TAKEN`.
pub proof fn lemma_no_last_without_taken(s: Seq<Page>)
    requires
        pages_valid(s),
    ensures
        forall|i: int| 0 <= i < s.len() ==> !((#[trigger] s[i]).last() && s[i].free()),
{
    assert forall|i: int| 0 <= i < s.len() implies !((#[trigger] s[i]).last() && s[i].free()) by {
        lemma_page_bits(s[i]);
    }
}

/// When the descriptors before and including `e` carry no `LAST` mark except
/// at `e` itself, the run beginning at `i` ends exactly at `e`.
pub proof fn lemma_run_end_value(s: Seq<Page>, i: int, e: int)
    requires
        0 <= i <= e < s.len(),
        forall|j: int| i <= j < e ==> !(#[trigger] s[j]).last(),
        s[e].last(),
    ensures
        run_end(s, i) == e,
    decreases e - i,
{
    if i < e {
        lemma_run_end_value(s, i + 1, e);
    }
}

/// Two distinct live allocations are disjoint: their runs occupy disjoint
/// descriptor intervals, so the physical byte ranges they confer are
/// disjoint as well.
pub proof fn lemma_runs_disjoint(s: Seq<Page>, alloc_start: int, i1: int, i2: int)
    requires
        pages_valid(s),
        run_continues(s),
        run_start(s, i1),
        run_start(s, i2),
        i1 != i2,
    ensures
        run_end(s, i1) < i2 || run_end(s, i2) < i1,
        alloc_start + (run_end(s, i1) + 1) * PAGE_SIZE <= alloc_start + i2 * PAGE_SIZE
            || alloc_start + (run_end(s, i2) + 1) * PAGE_SIZE <= alloc_start + i1 * PAGE_SIZE,
{
    lemma_run_end_props(s, i1);
    lemma_run_end_props(s, i2);
    if i1 < i2 {
        // Were the first run to reach `i2`, the frame before `i2` would be
        // an interior frame of it, contradicting `run_start(s, i2)`.
        if run_end(s, i1) >= i2 {
            assert(s[i2 - 1].taken() && !s[i2 - 1].last());
            assert(false);
        }
    } else {
        if run_end(s, i2) >= i1 {
            assert(s[i1 - 1].taken() && !s[i1 - 1].last());
            assert(false);
        }
    }
}

/// Round trip: allocating a free window of `k` frames at `i` and then
/// freeing the pointer of frame `i` restores the descriptor table exactly —
/// the run's descriptors return to all-zero and no other descriptor ever
/// changed.
pub proof fn lemma_alloc_dealloc_roundtrip(s: Seq<Page>, i: int, k: int)
    requires
        pages_valid(s),
        run_continues(s),
        1 <= k,
        0 <= i,
        i + k <= s.len(),
        window_free(s, i, k),
    ensures
        run_start(mark_run(s, i, k), i),
        run_end(mark_run(s, i, k), i) == i + k - 1,
        clear_run(mark_run(s, i, k), i) == s,
{
    let m = mark_run(s, i, k);
    lemma_page_bits(m[i]);
    if i > 0 {
        lemma_page_bits(s[i - 1]);
        lemma_page_bits(m[i - 1]);
        if s[i - 1].taken() && !s[i - 1].last() {
            // An interior run frame just below a free window would have to
            // be followed by a taken frame.
            assert(s[i].taken());
            assert(false);
        }
    }
    assert forall|j: int| i <= j < i + k - 1 implies !(#[trigger] m[j]).last() by {
        lemma_page_bits(m[j]);
    }
    lemma_page_bits(m[i + k - 1]);
    lemma_run_end_value(m, i, i + k - 1);
    assert forall|j: int| 0 <= j < s.len() implies clear_run(m, i)[j] == s[j] by {
        if i <= j <= i + k - 1 {
            lemma_page_bits(s[j]);
        }
    }
    assert(clear_run(m, i) =~= s);
}

/// Double frees are trapped: once the run beginning at `i` is cleared, its
/// first descriptor is free, so by `dealloc`'s contract a second `dealloc`
/// of the same pointer returns `PageFault::DoubleFree` and changes nothing.
pub proof fn lemma_double_free_trapped(s: Seq<Page>, i: int)
    requires
        pages_valid(s),
        run_continues(s),
        run_start(s, i),
    ensures
        clear_run(s, i)[i].flags == 0,
        clear_run(s, i)[i].free(),
{
    lemma_run_end_props(s, i);
    lemma_page_bits(clear_run(s, i)[i]);
}

/// Coalescing: after freeing two adjacent runs of lengths `a` and `b`, the
/// `a + b` descriptors from the lower start are one free window, so a
/// request for `a + b` frames is satisfied at or below that start whenever
/// the search bound reaches it.
pub proof fn lemma_coalesce(s: Seq<Page>, i: int, a: int, b: int)
    requires
        pages_valid(s),
        run_continues(s),
        1 <= a,
        1 <= b,
        run_start(s, i),
        run_end(s, i) == i + a - 1,
        run_start(s, i + a),
        run_end(s, i + a) == i + a + b - 1,
    ensures
        ({
            let s2 = clear_run(clear_run(s, i), i + a);
            &&& window_free(s2, i, a + b)
            &&& forall|bound: int|
                i < bound ==> 0 <= #[trigger] first_fit(s2, a + b, bound) <= i
        }),
{
    lemma_run_end_props(s, i);
    lemma_run_end_props(s, i + a);
    let s1 = clear_run(s, i);
    lemma_run_end_congruent(s, s1, i + a);
    let s2 = clear_run(s1, i + a);
    assert forall|j: int| i <= j < i + a + b implies (#[trigger] s2[j]).free() by {
        lemma_page_bits(s2[j]);
    }
    assert(window_free(s2, i, a + b));
    assert forall|bound: int| i < bound implies 0 <= #[trigger] first_fit(s2, a + b, bound) <= i by {
        lemma_first_fit_from_props(s2, a + b, 0, bound);
        let ff = first_fit(s2, a + b, bound);
        if ff == -1 {
            assert(!window_free(s2, i, a + b));
            assert(false);
        }
        if ff > i {
            assert(!window_free(s2, i, a + b));
            assert(false);
        }
    }
}

/// The number of taken descriptors among the first `i` when all of them are
/// taken.
proof fn lemma_count_taken_all(s: Seq<Page>, i: int)
    requires
        0 <= i <= s.len(),
        forall|j: int| 0 <= j < i ==> (#[trigger] s[j]).taken(),
    ensures
        count_taken_prefix(s, i) == i,
    decreases i,
{
    if i > 0 {
        lemma_count_taken_all(s, i - 1);
    }
}

/// Exhaustion: once a single-frame request finds no fit, every descriptor
/// below the search bound is taken, so the live allocations together hold
/// exactly the usable frames — the heap size less the descriptor table,
/// in pages, provided the table fits inside one page. (The one frame at the
/// very top of the table is never allocatable, because the first-fit scan
/// stops one window short of the table's end.)
pub proof fn lemma_exhaustion(s: Seq<Page>, heap_size: int)
    requires
        pages_valid(s),
        1 <= s.len() <= PAGE_SIZE,
        heap_size == s.len() * PAGE_SIZE,
        first_fit(s, 1, s.len() - 1) == -1,
        s[s.len() - 1].free(),
    ensures
        count_taken(s) == (heap_size - s.len()) / (PAGE_SIZE as int),
{
    let n = s.len() as int;
    lemma_first_fit_from_props(s, 1, 0, n - 1);
    assert forall|j: int| 0 <= j < n - 1 implies (#[trigger] s[j]).taken() by {
        if s[j].free() {
            assert(window_free(s, j, 1));
        }
    }
    lemma_count_taken_all(s, n - 1);
    assert(count_taken(s) == n - 1);
    vstd::arithmetic::div_mod::lemma_fundamental_div_mod_converse(
        n * PAGE_SIZE - n,
        PAGE_SIZE as int,
        n - 1,
        PAGE_SIZE - n,
    );
}

/// A negative dividend over a positive divisor yields a negative quotient,
/// so an address below `alloc_start` never maps to a frame index in range.
proof fn lemma_div_neg_range(x: int, p: int)
    requires
        x < 0,
        0 < p,
    ensures
        x / p < 0,
{
    lemma_fundamental_div_mod(x, p);
    lemma_mod_bound(x, p);
    let q = x / p;
    assert(q >= 0 ==> p * q + (x % p) >= 0) by (nonlinear_arith)
        requires
            p > 0,
            x % p >= 0,
    ;
}

/// The run beginning at a taken descriptor `i` is properly terminated: its
/// final frame `run_end(s, i)` lies inside the table and is marked `LAST`,
/// and every frame before it in the run is taken and unmarked.
pub proof fn lemma_run_end_props(s: Seq<Page>, i: int)
    requires
        pages_valid(s),
        run_continues(s),
        0 <= i < s.len(),
        s[i].taken(),
    ensures
        i <= run_end(s, i) < s.len(),
        s[run_end(s, i)].taken(),
        s[run_end(s, i)].last(),
        forall|j: int| i <= j < run_end(s, i) ==> (#[trigger] s[j]).taken() && !s[j].last(),
    decreases s.len() - i,
{
    if !s[i].last() {
        lemma_run_end_props(s, i + 1);
    }
}

/// `run_end` reads only the descriptors at or after its start index.
pub proof fn lemma_run_end_congruent(s1: Seq<Page>, s2: Seq<Page>, i: int)
    requires
        s1.len() == s2.len(),
        0 <= i,
        forall|j: int| i <= j < s1.len() ==> s1[j] == s2[j],
    ensures
        run_end(s1, i) == run_end(s2, i),
    decreases s1.len() - i,
{
    if 0 <= i < s1.len() && !s1[i].last() {
        lemma_run_end_congruent(s1, s2, i + 1);
    }
}

/// For non-negative `x` and `n` and positive `p`, the quotient `x / p`
/// reaches `n` exactly when `x` reaches `n * p`.
proof fn lemma_div_ge_iff(x: int, n: int, p: int)
    requires
        0 <= x,
        0 <= n,
        0 < p,
    ensures
        x / p >= n <==> x >= n * p,
{
    lemma_fundamental_div_mod(x, p);
    lemma_mod_bound(x, p);
    let q = x / p;
    let r = x % p;
    assert(q < 0 ==> p * q + r < 0) by (nonlinear_arith)
        requires
            p > 0,
            r < p,
    ;
    assert(q >= n ==> p * q >= n * p) by (nonlinear_arith)
        requires
            p > 0,
            n >= 0,
    ;
    assert(q < n ==> p * q + r < n * p) by (nonlinear_arith)
        requires
            p > 0,
            0 <= r < p,
            q >= 0,
    ;
}

/// Clearing a whole run of a well-formed table, from its first frame, keeps
/// the table well-formed.
proof fn lemma_clear_run_wf(s: Seq<Page>, i: int)
    requires
        pages_valid(s),
        run_continues(s),
        run_start(s, i),
        s.len() >= 1,
        s[s.len() - 1].free(),
    ensures
        pages_valid(clear_run(s, i)),
        run_continues(clear_run(s, i)),
        clear_run(s, i)[s.len() - 1].free(),
{
    let c = clear_run(s, i);
    let e = run_end(s, i);
    lemma_run_end_props(s, i);
    assert forall|j: int| 0 <= j < c.len() implies (#[trigger] c[j]).valid() by {
        lemma_page_bits(c[j]);
    }
    assert forall|j: int| 0 <= j < c.len() && (#[trigger] c[j]).taken() && !c[j].last() implies j + 1
        < c.len() && c[j + 1].taken() by {
        lemma_page_bits(c[j]);
        lemma_page_bits(s[j]);
        if j + 1 < c.len() {
            lemma_page_bits(c[j + 1]);
            lemma_page_bits(s[j + 1]);
        }
        if i <= j + 1 <= e {
            // `c[j]` is taken, so it lies outside the cleared range; its
            // successor can only fall inside that range at the run's first
            // frame, which `run_start` rules out.
            assert(j == i - 1);
            assert(false);
        }
    }
    lemma_page_bits(c[s.len() - 1]);
    lemma_page_bits(s[s.len() - 1]);
}

/// Marking a free window of a well-formed table keeps the table
/// well-formed: every descriptor stays a defined flag byte, runs still
/// continue to a `LAST` marker, and the topmost frame stays free.
proof fn lemma_mark_run_wf(s: Seq<Page>, i: int, k: int, n: int)
    requires
        pages_valid(s),
        run_continues(s),
        s.len() == n,
        1 <= k,
        0 <= i,
        i + k <= n - 1,
        n >= 1,
        s[n - 1].free(),
    ensures
        pages_valid(mark_run(s, i, k)),
        run_continues(mark_run(s, i, k)),
        mark_run(s, i, k)[n - 1].free(),
{
    let m = mark_run(s, i, k);
    assert forall|j: int| 0 <= j < m.len() implies (#[trigger] m[j]).valid() by {
        lemma_page_bits(m[j]);
    }
    assert forall|j: int| 0 <= j < m.len() && (#[trigger] m[j]).taken() && !m[j].last() implies j + 1
        < m.len() && m[j + 1].taken() by {
        lemma_page_bits(m[j]);
        lemma_page_bits(m[j + 1]);
        lemma_page_bits(s[j]);
        if j + 1 < m.len() {
            lemma_page_bits(s[j + 1]);
        }
    }
    lemma_page_bits(m[n - 1]);
    lemma_page_bits(s[n - 1]);
}

/// What the first-fit search returns: `-1` exactly when no window at or
/// after `i` fits, and otherwise the least fitting index at or after `i`.
pub proof fn lemma_first_fit_from_props(s: Seq<Page>, k: int, i: int, bound: int)
    requires
        0 <= i,
    ensures
        first_fit_from(s, k, i, bound) == -1 ==> forall|j: int|
            i <= j < bound ==> !window_free(s, j, k),
        first_fit_from(s, k, i, bound) != -1 ==> {
            let w = first_fit_from(s, k, i, bound);
            &&& i <= w < bound
            &&& window_free(s, w, k)
            &&& forall|j: int| i <= j < w ==> !window_free(s, j, k)
        },
    decreases bound - i,
{
    if 0 <= i < bound && !window_free(s, i, k) {
        lemma_first_fit_from_props(s, k, i + 1, bound);
    }
}

/// A positive multiple of a positive `p` is at least `p`.
proof fn lemma_multiple_at_least(x: int, p: int)
    requires
        0 < p,
        0 < x,
        x % p == 0,
    ensures
        x >= p,
{
    lemma_fundamental_div_mod(x, p);
    let q = x / p;
    assert(q > 0 ==> p * q >= p) by (nonlinear_arith)
        requires
            p > 0,
    ;
    assert(q <= 0 ==> p * q <= 0) by (nonlinear_arith)
        requires
            p > 0,
    ;
}

/// The number of taken descriptors at or after `i`.
pub open spec fn count_taken_from(s: Seq<Page>, i: int) -> int
    decreases s.len() - i,
{
    if !(0 <= i < s.len()) {
        0
    } else {
        (if s[i].taken() {
            1int
        } else {
            0int
        }) + count_taken_from(s, i + 1)
    }
}

/// The taken descriptors split at any index into those before and after it.
proof fn lemma_count_taken_split(s: Seq<Page>, i: int)
    requires
        0 <= i <= s.len(),
    ensures
        count_taken_prefix(s, i) + count_taken_from(s, i) == count_taken(s),
    decreases s.len() - i,
{
    if i < s.len() {
        lemma_count_taken_split(s, i + 1);
    }
}

/// Over a stretch of taken descriptors the suffix count telescopes.
proof fn lemma_count_taken_from_stretch(s: Seq<Page>, lo: int, hi: int)
    requires
        0 <= lo <= hi <= s.len(),
        forall|j: int| lo <= j < hi ==> (#[trigger] s[j]).taken(),
    ensures
        count_taken_from(s, lo) == (hi - lo) + count_taken_from(s, hi),
    decreases hi - lo,
{
    if lo < hi {
        lemma_count_taken_from_stretch(s, lo + 1, hi);
    }
}

/// The sum, over every allocation run starting at or after `i`, of the
/// run's length in frames.
pub open spec fn sum_run_lengths(s: Seq<Page>, i: int) -> int
    decreases s.len() - i,
{
    if !(0 <= i < s.len()) {
        0
    } else {
        (if run_start(s, i) {
            run_end(s, i) - i + 1
        } else {
            0int
        }) + sum_run_lengths(s, i + 1)
    }
}

/// Indices that start no run contribute nothing to the sum.
proof fn lemma_sum_run_lengths_none(s: Seq<Page>, lo: int, hi: int)
    requires
        0 <= lo <= hi <= s.len(),
        forall|j: int| lo <= j < hi ==> !run_start(s, j),
    ensures
        sum_run_lengths(s, lo) == sum_run_lengths(s, hi),
    decreases hi - lo,
{
    if lo < hi {
        lemma_sum_run_lengths_none(s, lo + 1, hi);
    }
}

/// From any index that is not interior to a run, the summed run lengths
/// equal the count of taken descriptors from there on.
proof fn lemma_sum_run_lengths_from(s: Seq<Page>, i: int)
    requires
        pages_valid(s),
        run_continues(s),
        0 <= i <= s.len(),
        i == 0 || s[i - 1].free() || s[i - 1].last(),
    ensures
        sum_run_lengths(s, i) == count_taken_from(s, i),
    decreases s.len() - i,
{
    if i < s.len() {
        if s[i].taken() {
            let e = run_end(s, i);
            lemma_run_end_props(s, i);
            lemma_page_bits(s[e]);
            assert forall|j: int| i + 1 <= j < e + 1 implies !run_start(s, j) by {
                assert(s[j - 1].taken() && !s[j - 1].last());
                lemma_page_bits(s[j - 1]);
            }
            lemma_sum_run_lengths_none(s, i + 1, e + 1);
            lemma_count_taken_from_stretch(s, i, e + 1);
            lemma_sum_run_lengths_from(s, e + 1);
        } else {
            lemma_sum_run_lengths_from(s, i + 1);
        }
    }
}

/// The sum of the lengths of all live allocation runs is exactly the
/// number of taken descriptors: runs partition the taken frames.
pub proof fn lemma_run_lengths_sum(s: Seq<Page>)
    requires
        pages_valid(s),
        run_continues(s),
    ensures
        sum_run_lengths(s, 0) == count_taken(s),
{
    lemma_sum_run_lengths_from(s, 0);
    lemma_count_taken_split(s, 0);
}

/// The starting indices of all allocation runs at or after `i`, in
/// increasing order.
pub open spec fn run_start_indices(s: Seq<Page>, i: int) -> Seq<int>
    decreases s.len() - i,
{
    if !(0 <= i < s.len()) {
        Seq::empty()
    } else if run_start(s, i) {
        seq![i] + run_start_indices(s, i + 1)
    } else {
        run_start_indices(s, i + 1)
    }
}

/// Scanning over indices that start no run finds the same runs.
proof fn lemma_run_start_indices_none(s: Seq<Page>, lo: int, hi: int)
    requires
        0 <= lo <= hi <= s.len(),
        forall|j: int| lo <= j < hi ==> !run_start(s, j),
    ensures
        run_start_indices(s, lo) == run_start_indices(s, hi),
    decreases hi - lo,
{
    if lo < hi {
        lemma_run_start_indices_none(s, lo + 1, hi);
    }
}

/// The runs at or after a run's start are that run followed by the runs
/// after its final frame.
proof fn lemma_run_start_indices_skip(s: Seq<Page>, i: int)
    requires
        pages_valid(s),
        run_continues(s),
        run_start(s, i),
    ensures
        run_start_indices(s, i) == seq![i] + run_start_indices(s, run_end(s, i) + 1),
{
    let e = run_end(s, i);
    lemma_run_end_props(s, i);
    assert forall|j: int| i + 1 <= j < e + 1 implies !run_start(s, j) by {
        assert(s[j - 1].taken() && !s[j - 1].last());
        lemma_page_bits(s[j - 1]);
    }
    lemma_run_start_indices_none(s, i + 1, e + 1);
}

} // verus!
