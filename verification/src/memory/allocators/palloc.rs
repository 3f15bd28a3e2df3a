//! The allocator of physical pages: a bitmap searched first-fit from the bottom.

use vstd::prelude::*;

use crate::address::PhysicalAddr;
use crate::bits::{bit, clear_bit, lemma_constant_bits, ones, set_bit, test_bit};
use crate::layout::{KERNEL_STACK, MAX_GUEST_MEMORY, PAGE_SIZE};
use crate::memory::errors::{MemoryError, Result};

verus! {

/// Address of the first page that can be handed out.
pub const PALLOC_FIRST_PAGE: u64 = KERNEL_STACK;

/// Number of pages that the bitmap covers.
pub const PAGE_COUNT: u64 = MAX_GUEST_MEMORY / PAGE_SIZE;

const BITMAP_SIZE: u64 = PAGE_COUNT / 64;

/// Pages below the first one that can be handed out.
pub const RESERVED_PAGES: u64 = KERNEL_STACK / PAGE_SIZE;

/// What the allocator reports of itself.
#[derive(Debug, Clone, Copy, PartialEq, Eq, Structural)]
pub struct Stats {
    pub used_pages: u64,
    pub used_bytes: u64,
    pub peak_memory_usage: u64,
    pub allocatable_limit_pages: u64,
    pub allocatable_limit_bytes: u64,
}

/// Hands out runs of physical pages and takes single pages back.
pub struct PageAllocator {
    bitmap: Vec<u64>,
    peak_memory_usage: u64,
}

/// Pages `start .. start + n` exist and none of them is in use.
pub open spec fn free_run(used: Seq<bool>, start: int, n: int) -> bool {
    &&& 0 <= start
    &&& start + n <= used.len()
    &&& forall|k: int| start <= k < start + n ==> !#[trigger] used[k]
}

/// `start` is the lowest page at which a run of `n` free pages begins.
pub open spec fn first_free_run(used: Seq<bool>, start: int, n: int) -> bool {
    &&& free_run(used, start, n)
    &&& forall|s: int| s < start ==> !#[trigger] free_run(used, s, n)
}

/// The lowest run of `n` free pages, if there is one.
pub open spec fn lowest_run(used: Seq<bool>, n: int) -> Option<int> {
    if exists|s: int| first_free_run(used, s, n) {
        Some(choose|s: int| first_free_run(used, s, n))
    } else {
        None
    }
}

/// `used` with pages `start .. start + n` marked `value`.
pub open spec fn mark(used: Seq<bool>, start: int, n: int, value: bool) -> Seq<bool> {
    Seq::new(used.len(), |k: int| if start <= k < start + n { value } else { used[k] })
}

/// How many pages are in use.
pub open spec fn count_used(used: Seq<bool>) -> nat
    decreases used.len(),
{
    if used.len() == 0 {
        0
    } else {
        count_used(used.drop_last()) + if used.last() { 1nat } else { 0nat }
    }
}

pub open spec fn saturating_sub(a: int, b: int) -> int {
    if a >= b { a - b } else { 0 }
}

/// The bytes from the first page that is given out to the end of page `p`.
pub open spec fn reach_of(p: int) -> int {
    saturating_sub(p + 1, RESERVED_PAGES as int) * PAGE_SIZE
}

/// What becomes of the peak while pages come into use and none is given back: it rises to the end of the highest page that
/// came into use.
#[verifier::opaque]
pub open spec fn peak_grows(used: Seq<bool>, peak: int, used_after: Seq<bool>, peak_after: int) -> bool {
    &&& used_after.len() == used.len()
    &&& forall|p: int| 0 <= p < used.len() && #[trigger] used[p] ==> used_after[p]
    &&& peak <= peak_after
    &&& forall|p: int| 0 <= p < used.len() && !used[p] && #[trigger] used_after[p] ==> reach_of(p) <= peak_after
    &&& peak_after == peak || exists|p: int|
        0 <= p < used.len() && !used[p] && #[trigger] used_after[p] && peak_after == reach_of(p)
}

/// The peak stays where no page comes into use.
pub broadcast proof fn lemma_peak_stays(used: Seq<bool>, peak: int)
    ensures
        #[trigger] peak_grows(used, peak, used, peak),
{
    reveal(peak_grows);
}

/// Two times in a row.
pub broadcast proof fn lemma_peak_on(a: Seq<bool>, pa: int, b: Seq<bool>, pb: int, c: Seq<bool>, pc: int)
    requires
        #[trigger] peak_grows(a, pa, b, pb),
        #[trigger] peak_grows(b, pb, c, pc),
    ensures
        peak_grows(a, pa, c, pc),
{
    reveal(peak_grows);
    assert forall|p: int| 0 <= p < a.len() && #[trigger] a[p] implies c[p] by {
        assert(b[p]);
    }
    assert forall|p: int| 0 <= p < a.len() && !a[p] && #[trigger] c[p] implies reach_of(p) <= pc by {
        if b[p] {
            assert(reach_of(p) <= pb);
        }
    }
    if pc != pb {
        let p = choose|p: int| 0 <= p < b.len() && !b[p] && #[trigger] c[p] && pc == reach_of(p);
        assert(!a[p] && c[p]);
    } else if pb != pa {
        let p = choose|p: int| 0 <= p < a.len() && !a[p] && #[trigger] b[p] && pb == reach_of(p);
        assert(!a[p] && c[p]);
    }
}

/// Allocating a run raises the peak to its end.
proof fn lemma_peak_run(used: Seq<bool>, peak: int, s: int, n: int)
    requires
        0 < n,
        free_run(used, s, n),
    ensures
        peak_grows(
            used,
            peak,
            mark(used, s, n, true),
            vstd::math::max(peak, saturating_sub(s + n, RESERVED_PAGES as int) * PAGE_SIZE),
        ),
{
    reveal(peak_grows);
    let last = s + n - 1;
    assert(!used[last]);
    assert(reach_of(last) == saturating_sub(s + n, RESERVED_PAGES as int) * PAGE_SIZE);
    let after = mark(used, s, n, true);
    assert(after[last]);
    assert forall|p: int| 0 <= p < used.len() && !used[p] && #[trigger] after[p] implies reach_of(p) <= reach_of(last) by {
        assert(s <= p <= last);
    }
}

pub broadcast group group_peak {
    lemma_peak_stays,
    lemma_peak_on,
}

impl View for PageAllocator {
    type V = Seq<bool>;

    /// For each page of guest memory, whether it is in use.
    closed spec fn view(&self) -> Seq<bool> {
        Seq::new(PAGE_COUNT as nat, |k: int| bit(self.bitmap@[k / 64], k % 64))
    }
}

impl PageAllocator {
    pub closed spec fn wf(&self) -> bool {
        &&& self.bitmap@.len() == BITMAP_SIZE
        &&& self.peak_memory_usage <= MAX_GUEST_MEMORY
    }

    /// The view covers all of guest memory.
    pub proof fn lemma_page_count(&self)
        ensures
            self@.len() == PAGE_COUNT,
    {
    }

    /// Highest end of any run handed out so far, in bytes past the reserved pages.
    pub closed spec fn peak(&self) -> int {
        self.peak_memory_usage as int
    }

    pub fn new() -> (r: Self)
        ensures
            r.wf(),
            r@ == Seq::new(PAGE_COUNT as nat, |k: int| k < RESERVED_PAGES),
            r.peak() == 0,
    {
        let mut bitmap: Vec<u64> = Vec::new();
        while bitmap.len() < BITMAP_SIZE as usize
            invariant
                bitmap@.len() <= BITMAP_SIZE,
                forall|i: int| 0 <= i < bitmap@.len() ==> bitmap@[i] == 0,
            decreases BITMAP_SIZE - bitmap@.len(),
        {
            bitmap.push(0);
        }
        let mut r = PageAllocator { bitmap, peak_memory_usage: 0 };
        proof {
            lemma_constant_bits();
        }
        assert(r@ =~= Seq::new(PAGE_COUNT as nat, |k: int| false));
        r.mark_pages(0, RESERVED_PAGES, true);
        r
    }

    /// Allocates `pages` contiguous pages at the lowest address where they fit.
    pub fn allocate(&mut self, pages: u64) -> (r: Result<PhysicalAddr>)
        requires
            old(self).wf(),
        ensures
            final(self).wf(),
            if pages == 0 {
                &&& r == Err::<PhysicalAddr, MemoryError>(MemoryError::InvalidPageCount { pages })
                &&& *final(self) == *old(self)
            } else {
                match lowest_run(old(self)@, pages as int) {
                    None => {
                        &&& r == Err::<PhysicalAddr, MemoryError>(MemoryError::OutOfMemory)
                        &&& *final(self) == *old(self)
                    },
                    Some(s) => {
                        &&& r matches Ok(addr)
                        &&& addr.0 == s * PAGE_SIZE
                        &&& final(self)@ == mark(old(self)@, s, pages as int, true)
                        &&& final(self).peak() == vstd::math::max(
                            old(self).peak(),
                            saturating_sub(s + pages, RESERVED_PAGES as int) * PAGE_SIZE,
                        )
                    },
                }
            },
            peak_grows(old(self)@, old(self).peak(), final(self)@, final(self).peak()),
    {
        proof {
            lemma_peak_stays(self@, self.peak());
        }
        if pages == 0 {
            return Err(MemoryError::InvalidPageCount { pages });
        }
        if pages > PAGE_COUNT {
            proof {
                lemma_no_run(self@, pages as int);
            }
            return Err(MemoryError::OutOfMemory);
        }
        let mut run_start: u64 = 0;
        let mut run_len: u64 = 0;
        let mut page: u64 = 0;
        while page < PAGE_COUNT
            invariant
                *self == *old(self),
                self.wf(),
                0 < pages <= PAGE_COUNT,
                page <= PAGE_COUNT,
                run_len < pages,
                run_len <= page,
                run_len > 0 ==> run_start + run_len == page,
                free_run(self@, page - run_len, run_len as int),
                run_len < page ==> self@[page - run_len - 1],
                forall|s: int| s < page - run_len ==> !#[trigger] free_run(self@, s, pages as int),
            decreases PAGE_COUNT - page,
        {
            if self.is_page_used(page) {
                assert forall|s: int| s < page + 1 implies !#[trigger] free_run(self@, s, pages as int) by {
                    if s >= page - run_len {
                        assert(self@[page as int]);
                    }
                }
                run_len = 0;
                page += 1;
                continue;
            }
            if run_len == 0 {
                run_start = page;
            }
            run_len += 1;
            if run_len == pages {
                self.mark_pages(run_start, pages, true);
                let end: u64 = run_start + pages;
                let footprint_pages: u64 = if end >= RESERVED_PAGES { end - RESERVED_PAGES } else { 0 };
                let footprint: u64 = footprint_pages * PAGE_SIZE;
                if self.peak_memory_usage < footprint {
                    self.peak_memory_usage = footprint;
                }
                assert(self@ =~= mark(old(self)@, run_start as int, pages as int, true));
                proof {
                    lemma_lowest_run(old(self)@, run_start as int, pages as int);
                    lemma_peak_run(old(self)@, old(self).peak(), run_start as int, pages as int);
                }
                return Ok(PhysicalAddr::new(run_start * PAGE_SIZE));
            }
            page += 1;
        }
        proof {
            lemma_no_run(self@, pages as int);
        }
        Err(MemoryError::OutOfMemory)
    }

    /// Gives back the one page that holds `addr`.
    pub fn free(&mut self, addr: PhysicalAddr) -> (r: Result<()>)
        requires
            old(self).wf(),
            addr.0 < MAX_GUEST_MEMORY,
        ensures
            final(self).wf(),
            r == Ok::<(), MemoryError>(()),
            final(self)@ == old(self)@.update(addr.0 as int / PAGE_SIZE as int, false),
            final(self).peak() == old(self).peak(),
    {
        let page_index: u64 = addr.as_u64() / PAGE_SIZE;
        self.mark_pages(page_index, 1, false);
        assert(self@ =~= old(self)@.update(page_index as int, false));
        Ok(())
    }

    fn is_page_used(&self, page_index: u64) -> (b: bool)
        requires
            self.wf(),
            page_index < PAGE_COUNT,
        ensures
            b == self@[page_index as int],
    {
        test_bit(self.bitmap[(page_index / 64) as usize], page_index % 64)
    }

    fn mark_pages(&mut self, start_page: u64, pages: u64, used: bool)
        requires
            old(self).wf(),
            start_page + pages <= PAGE_COUNT,
        ensures
            final(self).wf(),
            final(self)@ == mark(old(self)@, start_page as int, pages as int, used),
            final(self).peak_memory_usage == old(self).peak_memory_usage,
    {
        let mut page: u64 = start_page;
        assert(self@ =~= mark(old(self)@, start_page as int, 0, used));
        while page < start_page + pages
            invariant
                self.wf(),
                start_page <= page <= start_page + pages <= PAGE_COUNT,
                self@ == mark(old(self)@, start_page as int, page - start_page, used),
                self.peak_memory_usage == old(self).peak_memory_usage,
            decreases start_page + pages - page,
        {
            let ghost before = self@;
            let ghost words = self.bitmap@;
            let word: usize = (page / 64) as usize;
            let index: u64 = page % 64;
            let value: u64 = if used {
                set_bit(self.bitmap[word], index)
            } else {
                clear_bit(self.bitmap[word], index)
            };
            self.bitmap.set(word, value);
            assert forall|k: int| 0 <= k < PAGE_COUNT implies self@[k] == (if k == page { used } else { before[k] }) by {
                assert(self@[k] == bit(self.bitmap@[k / 64], k % 64));
                assert(before[k] == bit(words[k / 64], k % 64));
                if k / 64 == word {
                    assert(k == page <==> k % 64 == index);
                }
            }
            page += 1;
            assert(self@ =~= mark(old(self)@, start_page as int, page - start_page, used));
        }
    }

    fn used_pages(&self) -> (n: u64)
        requires
            self.wf(),
        ensures
            n == saturating_sub(count_used(self@) as int, RESERVED_PAGES as int),
            n <= PAGE_COUNT,
    {
        let mut used: u64 = 0;
        let mut i: u64 = 0;
        assert(self@.take(0) =~= Seq::empty());
        while i < BITMAP_SIZE
            invariant
                self.wf(),
                i <= BITMAP_SIZE,
                used == count_used(self@.take(i * 64)),
                used <= i * 64,
            decreases BITMAP_SIZE - i,
        {
            let word: u64 = self.bitmap[i as usize];
            proof {
                self.lemma_count_word(i as int, 64);
                lemma_ones_bound(word, 64);
            }
            used += word.count_ones() as u64;
            i += 1;
        }
        assert(self@.take(PAGE_COUNT as int) =~= self@);
        if used >= RESERVED_PAGES { used - RESERVED_PAGES } else { 0 }
    }

    /// Counting the first `n` pages of word `i` is counting the word's low bits.
    proof fn lemma_count_word(&self, i: int, n: nat)
        requires
            self.wf(),
            0 <= i < BITMAP_SIZE,
            n <= 64,
        ensures
            count_used(self@.take(i * 64 + n)) == count_used(self@.take(i * 64)) + ones(self.bitmap@[i], n),
        decreases n,
    {
        if n > 0 {
            self.lemma_count_word(i, (n - 1) as nat);
            let k = i * 64 + n - 1;
            assert(self@.take(k + 1).drop_last() =~= self@.take(k));
            assert(k / 64 == i && k % 64 == n - 1);
            assert(self@[k] == bit(self.bitmap@[i], n - 1));
        }
    }

    pub fn get_stats(&self) -> (s: Stats)
        requires
            self.wf(),
        ensures
            s.used_pages == saturating_sub(count_used(self@) as int, RESERVED_PAGES as int),
            s.used_bytes == s.used_pages * PAGE_SIZE,
            s.peak_memory_usage == self.peak(),
            s.allocatable_limit_pages == PAGE_COUNT - RESERVED_PAGES,
            s.allocatable_limit_bytes == (PAGE_COUNT - RESERVED_PAGES) * PAGE_SIZE,
    {
        let used_pages: u64 = self.used_pages();
        let limit: u64 = PAGE_COUNT - RESERVED_PAGES;
        Stats {
            used_pages,
            used_bytes: used_pages * PAGE_SIZE,
            peak_memory_usage: self.peak_memory_usage,
            allocatable_limit_pages: limit,
            allocatable_limit_bytes: limit * PAGE_SIZE,
        }
    }
}

/// There is only one lowest run.
pub proof fn lemma_lowest_run(used: Seq<bool>, s: int, n: int)
    requires
        first_free_run(used, s, n),
    ensures
        lowest_run(used, n) == Some(s),
{
    let t = choose|t: int| first_free_run(used, t, n);
    assert(first_free_run(used, t, n));
    if s < t {
        assert(free_run(used, s, n));
    } else if t < s {
        assert(free_run(used, t, n));
    }
}

/// The lowest run is free.
pub proof fn lemma_lowest_run_is_free(used: Seq<bool>, n: int)
    ensures
        lowest_run(used, n) matches Some(s) ==> first_free_run(used, s, n),
{
}

/// Without a free run there is no lowest one.
pub proof fn lemma_no_run(used: Seq<bool>, n: int)
    requires
        forall|s: int| !#[trigger] free_run(used, s, n),
    ensures
        lowest_run(used, n) is None,
{
    if exists|s: int| first_free_run(used, s, n) {
        let s = choose|s: int| first_free_run(used, s, n);
        assert(free_run(used, s, n));
    }
}

proof fn lemma_ones_bound(w: u64, n: nat)
    ensures
        ones(w, n) <= n,
    decreases n,
{
    if n > 0 {
        lemma_ones_bound(w, (n - 1) as nat);
    }
}

/// Marking a free run as used raises the number of used pages by its length.
pub proof fn law_allocate_counts(used: Seq<bool>, start: int, n: int)
    requires
        free_run(used, start, n),
        n >= 0,
    ensures
        count_used(mark(used, start, n, true)) == count_used(used) + n,
    decreases used.len(),
{
    let marked = mark(used, start, n, true);
    if n == 0 {
        assert(marked =~= used);
    } else if start + n == used.len() {
        assert(marked.drop_last() =~= mark(used.drop_last(), start, n - 1, true));
        assert(!used[used.len() - 1]);
        law_allocate_counts(used.drop_last(), start, n - 1);
    } else {
        assert(marked.drop_last() =~= mark(used.drop_last(), start, n, true));
        law_allocate_counts(used.drop_last(), start, n);
    }
}

/// Freeing a used page lowers the number of used pages by one.
pub proof fn law_free_counts(used: Seq<bool>, page: int)
    requires
        0 <= page < used.len(),
        used[page],
    ensures
        count_used(used.update(page, false)) == count_used(used) - 1,
{
    let freed = used.update(page, false);
    law_allocate_counts(freed, page, 1);
    assert(mark(freed, page, 1, true) =~= used);
}

/// Freeing every page of a run just allocated leaves the same pages in use as before.
pub proof fn law_free_undoes_allocate(used: Seq<bool>, start: int, n: int)
    requires
        free_run(used, start, n),
    ensures
        mark(mark(used, start, n, true), start, n, false) == used,
{
    assert(mark(mark(used, start, n, true), start, n, false) =~= used);
}

/// A page freed below every other free page is the next single page handed out.
pub proof fn law_lowest_free_page_is_reused(used: Seq<bool>, page: int)
    requires
        0 <= page < used.len(),
        forall|k: int| 0 <= k < page ==> used[k],
    ensures
        lowest_run(used.update(page, false), 1) == Some(page),
{
    let freed = used.update(page, false);
    assert forall|s: int| s < page implies !#[trigger] free_run(freed, s, 1) by {
        if s >= 0 {
            assert(freed[s]);
        }
    }
    lemma_lowest_run(freed, page, 1);
}

/// The number of used pages never exceeds the number of pages.
pub proof fn lemma_count_bound(used: Seq<bool>)
    ensures
        count_used(used) <= used.len(),
    decreases used.len(),
{
    if used.len() > 0 {
        lemma_count_bound(used.drop_last());
    }
}

} // verus!
