//! Runs of the user's pages: mapping fresh memory, and giving it back.

use vstd::math::{max, min};
use vstd::prelude::*;

use crate::address::{PhysicalAddr, VirtualAddr};
use crate::bits::{align_down, law_round_down, round_down};
use crate::layout::{DAX_WINDOW_BASE, DAX_WINDOW_SIZE, MAX_GUEST_MEMORY, PAGE_SIZE};
use crate::memory::access::{byte, fill, range, read_bytes, same_window, within, write_bytes, wrote, Memory};
use crate::memory::allocators::mmap_alloc::{reaches_free_pages, zero_page, zeros};
use crate::memory::allocators::palloc::{
    count_used, free_run, law_allocate_counts, lemma_count_bound, lemma_lowest_run, lemma_lowest_run_is_free,
    lowest_run, mark, PAGE_COUNT, PageAllocator, reach_of,
};
use crate::memory::page_table::{page_of, PageEntry, PageTable};
use crate::syscall::errno::ENOMEM;

verus! {

/// `v` is the address of one of the `n` pages from `start` on.
pub open spec fn in_run(v: u64, start: int, n: int) -> bool {
    start <= v < start + n * PAGE_SIZE && (v - start) % (PAGE_SIZE as int) == 0
}

/// The entry of a present page.
pub open spec fn entry(page: int) -> PageEntry {
    PageEntry { paddr: (page * PAGE_SIZE) as u64, present: true }
}

/// The mappings with `pages` mapped from `start` on.
pub open spec fn with_run(m: Map<u64, PageEntry>, start: int, pages: Seq<int>) -> Map<u64, PageEntry> {
    Map::new(
        |v: u64| m.contains_key(v) || in_run(v, start, pages.len() as int),
        |v: u64|
            if in_run(v, start, pages.len() as int) {
                entry(pages[(v - start) / PAGE_SIZE as int])
            } else {
                m[v]
            },
    )
}

/// The mappings without the `n` pages from `start` on.
pub open spec fn without_run(m: Map<u64, PageEntry>, start: int, n: int) -> Map<u64, PageEntry> {
    Map::new(|v: u64| m.contains_key(v) && !in_run(v, start, n), |v: u64| m[v])
}

/// The pages in use, and `pages` besides.
pub open spec fn with_used(used: Seq<bool>, pages: Seq<int>) -> Seq<bool> {
    Seq::new(used.len(), |p: int| used[p] || pages.contains(p))
}

/// The `n` lowest free pages, lowest first.
pub open spec fn fresh_pages(used: Seq<bool>, n: int) -> Seq<int>
    decreases n,
{
    if n <= 0 {
        Seq::empty()
    } else {
        let fewer = fresh_pages(used, n - 1);
        fewer.push(lowest_run(with_used(used, fewer), 1)->0)
    }
}

/// Whether a physical address lies in the direct-access window.
pub open spec fn is_dax(paddr: u64) -> bool {
    DAX_WINDOW_BASE <= paddr < DAX_WINDOW_BASE + DAX_WINDOW_SIZE
}

/// The pages in use once the pages behind the `n` mappings from `start` on are given back;
/// those of the direct-access window are not the page allocator's.
pub open spec fn given_back(used: Seq<bool>, m: Map<u64, PageEntry>, start: int, n: int) -> Seq<bool>
    decreases n,
{
    if n <= 0 {
        used
    } else {
        let fewer = given_back(used, m, start, n - 1);
        let v = (start + (n - 1) * PAGE_SIZE) as u64;
        if m.contains_key(v) && !is_dax(m[v].paddr) {
            fewer.update(m[v].paddr as int / PAGE_SIZE as int, false)
        } else {
            fewer
        }
    }
}

/// Every mapping leads to a page of guest memory or of the direct-access window.
pub open spec fn mappings_sound(m: Map<u64, PageEntry>) -> bool {
    forall|v: u64|
        #[trigger] m.contains_key(v) ==> {
            &&& v % PAGE_SIZE == 0
            &&& m[v].paddr % PAGE_SIZE == 0
            &&& is_dax(m[v].paddr) || m[v].paddr < MAX_GUEST_MEMORY
        }
}

/// The memory after `pages` were set to zero.
pub open spec fn zeroed<M: Memory>(before: &M, after: &M, pages: Seq<int>) -> bool {
    &&& same_window(before, after)
    &&& forall|a: int|
        within(before, a, 1) ==> #[trigger] byte(after, a) == (if pages.contains(a / PAGE_SIZE as int) {
            0
        } else {
            byte(before, a)
        })
}

/// A page that is free is the lowest of some run.
proof fn lemma_has_lowest(used: Seq<bool>, p: int)
    requires
        0 <= p < used.len(),
        !used[p],
    ensures
        lowest_run(used, 1) is Some,
    decreases p,
{
    if exists|q: int| 0 <= q < p && !used[q] {
        let q = choose|q: int| 0 <= q < p && !used[q];
        lemma_has_lowest(used, q);
    } else {
        assert forall|s: int| s < p implies !#[trigger] free_run(used, s, 1) by {
            if 0 <= s {
                assert(used[s]);
            }
        }
        lemma_lowest_run(used, p, 1);
    }
}

/// If not every page is in use, then one is free.
proof fn lemma_count_full(used: Seq<bool>)
    requires
        forall|p: int| 0 <= p < used.len() ==> used[p],
    ensures
        count_used(used) == used.len(),
    decreases used.len(),
{
    if used.len() > 0 {
        lemma_count_full(used.drop_last());
    }
}

/// There is a lowest free page exactly if not every page is in use.
pub proof fn law_lowest_page(used: Seq<bool>)
    ensures
        lowest_run(used, 1) is Some <==> count_used(used) < used.len(),
{
    if count_used(used) < used.len() {
        if forall|p: int| 0 <= p < used.len() ==> used[p] {
            lemma_count_full(used);
        }
        let p = choose|p: int| 0 <= p < used.len() && !used[p];
        lemma_has_lowest(used, p);
    } else if lowest_run(used, 1) is Some {
        lemma_lowest_run_is_free(used, 1);
        let s = lowest_run(used, 1)->0;
        law_allocate_counts(used, s, 1);
        lemma_count_bound(mark(used, s, 1, true));
    }
}

/// The fresh pages are free, distinct, and as many as asked for, if that many are free.
pub proof fn law_fresh_pages(used: Seq<bool>, n: int)
    requires
        0 <= n,
        count_used(used) + n <= used.len(),
    ensures
        ({
            let s = fresh_pages(used, n);
            &&& s.len() == n
            &&& s.no_duplicates()
            &&& forall|j: int, k: int| 0 <= j < k < n ==> #[trigger] s[j] < #[trigger] s[k]
            &&& forall|k: int| 0 <= k < n ==> 0 <= #[trigger] s[k] < used.len() && !used[s[k]]
            &&& count_used(with_used(used, s)) == count_used(used) + n
        }),
    decreases n,
{
    let s = fresh_pages(used, n);
    if n == 0 {
        assert(with_used(used, s) =~= used);
    } else {
        law_fresh_pages(used, n - 1);
        let fewer = fresh_pages(used, n - 1);
        let u = with_used(used, fewer);
        law_lowest_page(u);
        lemma_lowest_run_is_free(u, 1);
        let p = lowest_run(u, 1)->0;
        assert(!u[p]);
        law_allocate_counts(u, p, 1);
        lemma_with_used_push(used, fewer, p);
        if n > 1 {
            let u2 = with_used(used, fresh_pages(used, n - 2));
            let q = fewer.last();
            lemma_lowest_run_is_free(u2, 1);
            law_fresh_pages(used, n - 2);
            law_lowest_page(u2);
            lemma_with_used_push(used, fresh_pages(used, n - 2), q);
            assert(u == mark(u2, q, 1, true));
            if p < q {
                assert(free_run(u2, p, 1));
            }
        }
    }
}

/// How many of the first of the `n` pages from `start` on are not mapped.
pub open spec fn clear_pages(m: Map<u64, PageEntry>, start: int, n: int) -> int
    decreases n,
{
    if n <= 0 {
        0
    } else {
        let k = clear_pages(m, start, n - 1);
        if k == n - 1 && !m.contains_key((start + (n - 1) * PAGE_SIZE) as u64) {
            n
        } else {
            k
        }
    }
}

/// How many fresh pages are taken to be mapped at the `n` pages from `start` on: one for each, up to the first that is mapped
/// already, as long as there are any.
pub open spec fn pages_taken(used: Seq<bool>, m: Map<u64, PageEntry>, start: int, n: int) -> int {
    min(n, min(used.len() - count_used(used), clear_pages(m, start, n) + 1))
}

/// The fresh pages that are taken.
pub open spec fn taken_pages(used: Seq<bool>, m: Map<u64, PageEntry>, start: int, n: int) -> Seq<int> {
    fresh_pages(used, pages_taken(used, m, start, n))
}

/// The peak once these pages were taken, of which the last is the highest.
pub open spec fn peak_with(peak: int, pages: Seq<int>) -> int {
    if pages.len() == 0 {
        peak
    } else {
        max(peak, reach_of(pages.last()))
    }
}

/// The first `i` pages are not mapped.
proof fn lemma_clear_pages(m: Map<u64, PageEntry>, start: int, i: int, n: int)
    requires
        0 <= i <= n,
        forall|j: int| 0 <= j < i ==> !m.contains_key(#[trigger] ((start + j * PAGE_SIZE) as u64)),
    ensures
        i <= clear_pages(m, start, n) <= n,
        i < n && m.contains_key((start + i * PAGE_SIZE) as u64) ==> clear_pages(m, start, n) == i,
    decreases n,
{
    if n > 0 {
        if i == n {
            lemma_clear_pages(m, start, i - 1, n - 1);
            assert(!m.contains_key((start + (n - 1) * PAGE_SIZE) as u64));
        } else {
            lemma_clear_pages(m, start, i, n - 1);
        }
    }
}

/// Marking one more page is having one more page.
proof fn lemma_with_used_push(used: Seq<bool>, pages: Seq<int>, p: int)
    requires
        0 <= p < used.len(),
    ensures
        mark(with_used(used, pages), p, 1, true) == with_used(used, pages.push(p)),
{
    let a = mark(with_used(used, pages), p, 1, true);
    let b = with_used(used, pages.push(p));
    assert forall|q: int| 0 <= q < used.len() implies a[q] == b[q] by {
        assert(pages.push(p)[pages.len() as int] == p);
        if pages.contains(q) {
            let k = choose|k: int| 0 <= k < pages.len() && pages[k] == q;
            assert(pages.push(p)[k] == q);
        }
        if pages.push(p).contains(q) && q != p {
            let k = choose|k: int| 0 <= k < pages.push(p).len() && pages.push(p)[k] == q;
            assert(pages[k] == q);
        }
    }
    assert(a =~= b);
}

/// Mapping one more page is having one more page mapped.
proof fn lemma_with_run_push(m: Map<u64, PageEntry>, start: int, pages: Seq<int>, p: int)
    requires
        0 <= start,
        start % (PAGE_SIZE as int) == 0,
        start + (pages.len() + 1) * PAGE_SIZE <= u64::MAX,
    ensures
        with_run(m, start, pages).insert((start + pages.len() * PAGE_SIZE) as u64, entry(p)) == with_run(
            m,
            start,
            pages.push(p),
        ),
        in_run((start + pages.len() * PAGE_SIZE) as u64, start, pages.len() as int + 1),
        !in_run((start + pages.len() * PAGE_SIZE) as u64, start, pages.len() as int),
{
    let n = pages.len() as int;
    let last = (start + n * PAGE_SIZE) as u64;
    let a = with_run(m, start, pages).insert(last, entry(p));
    let b = with_run(m, start, pages.push(p));
    assert forall|v: u64| in_run(v, start, n + 1) == (in_run(v, start, n) || v == last) by {}
    assert forall|v: u64| a.contains_key(v) implies #[trigger] a[v] == b[v] by {
        if in_run(v, start, n) {
            assert(pages.push(p)[(v - start) / PAGE_SIZE as int] == pages[(v - start) / PAGE_SIZE as int]);
        }
    }
    assert(a =~= b);
}

/// Undoing a run of fresh mappings restores the mappings.
pub proof fn law_unmap_undoes_map(m: Map<u64, PageEntry>, start: int, pages: Seq<int>)
    requires
        forall|v: u64| in_run(v, start, pages.len() as int) ==> !m.contains_key(v),
    ensures
        without_run(with_run(m, start, pages), start, pages.len() as int) == m,
{
    assert(without_run(with_run(m, start, pages), start, pages.len() as int) =~= m);
}

/// Giving back the pages of a run of fresh mappings restores the pages in use.
pub proof fn law_give_back_undoes_map(used: Seq<bool>, m: Map<u64, PageEntry>, start: int, pages: Seq<int>, k: int)
    requires
        0 <= k <= pages.len(),
        used.len() == PAGE_COUNT,
        0 <= start,
        start + pages.len() * PAGE_SIZE <= u64::MAX,
        pages.no_duplicates(),
        forall|i: int| 0 <= i < pages.len() ==> 0 <= #[trigger] pages[i] < used.len() && !used[pages[i]],
    ensures
        given_back(with_used(used, pages), with_run(m, start, pages), start, k) == with_used(used, pages.skip(k)),
    decreases k,
{
    let all = with_used(used, pages);
    let mapped = with_run(m, start, pages);
    if k == 0 {
        assert(pages.skip(0) =~= pages);
    } else {
        law_give_back_undoes_map(used, m, start, pages, k - 1);
        let v = (start + (k - 1) * PAGE_SIZE) as u64;
        assert(v - start == (k - 1) * PAGE_SIZE);
        assert((v - start) % (PAGE_SIZE as int) == 0 && (v - start) / PAGE_SIZE as int == k - 1) by {
            vstd::arithmetic::div_mod::lemma_div_multiples_vanish(k - 1, PAGE_SIZE as int);
            vstd::arithmetic::div_mod::lemma_mod_multiples_basic(k - 1, PAGE_SIZE as int);
        }
        assert(in_run(v, start, pages.len() as int));
        assert(mapped.contains_key(v));
        let p = pages[k - 1];
        assert(mapped[v] == entry(p));
        let a = with_used(used, pages.skip(k - 1)).update(p, false);
        let b = with_used(used, pages.skip(k));
        assert forall|q: int| 0 <= q < used.len() implies a[q] == b[q] by {
            let longer = pages.skip(k - 1);
            let shorter = pages.skip(k);
            if shorter.contains(q) {
                let i = choose|i: int| 0 <= i < shorter.len() && shorter[i] == q;
                assert(longer[i + 1] == q);
                assert(pages[k + i] == q);
            }
            if longer.contains(q) && q != p {
                let i = choose|i: int| 0 <= i < longer.len() && longer[i] == q;
                assert(i > 0);
                assert(shorter[i - 1] == q);
            }
        }
        assert(a =~= b);
        assert(mapped[v].paddr as int / PAGE_SIZE as int == p);
    }
}

/// Mappings of guest pages are sound.
proof fn lemma_sound_with(m: Map<u64, PageEntry>, start: int, pages: Seq<int>)
    requires
        mappings_sound(m),
        0 <= start,
        start % (PAGE_SIZE as int) == 0,
        start + pages.len() * PAGE_SIZE <= u64::MAX,
        forall|k: int| 0 <= k < pages.len() ==> 0 <= #[trigger] pages[k] < PAGE_COUNT,
    ensures
        mappings_sound(with_run(m, start, pages)),
{
    let w = with_run(m, start, pages);
    assert forall|v: u64| #[trigger] w.contains_key(v) implies {
        &&& v % PAGE_SIZE == 0
        &&& w[v].paddr % PAGE_SIZE == 0
        &&& is_dax(w[v].paddr) || w[v].paddr < MAX_GUEST_MEMORY
    } by {
        if in_run(v, start, pages.len() as int) {
            let k = (v - start) / PAGE_SIZE as int;
            assert(0 <= pages[k] < PAGE_COUNT);
        } else {
            assert(m.contains_key(v));
        }
    }
}

/// Whether a physical address lies in the direct-access window.
pub fn is_dax_page(paddr: PhysicalAddr) -> (r: bool)
    ensures
        r == is_dax(paddr.0),
{
    let addr: u64 = paddr.as_u64();
    addr >= DAX_WINDOW_BASE && addr < DAX_WINDOW_BASE + DAX_WINDOW_SIZE
}

/// Unmaps the `n` pages from `start` on, and gives those of guest memory back.
pub fn unmap_run<P: PageTable>(palloc: &mut PageAllocator, pt: &mut P, start: u64, n: u64)
    requires
        old(palloc).wf(),
        mappings_sound(old(pt).mappings()),
        start % PAGE_SIZE == 0,
        start + n * PAGE_SIZE <= u64::MAX,
    ensures
        final(palloc).peak() == old(palloc).peak(),
        final(palloc).wf(),
        mappings_sound(final(pt).mappings()),
        final(pt).mappings() == without_run(old(pt).mappings(), start as int, n as int),
        final(palloc)@ == given_back(old(palloc)@, old(pt).mappings(), start as int, n as int),
{
    let ghost m = pt.mappings();
    let mut i: u64 = 0;
    proof {
        assert(without_run(m, start as int, 0) =~= m);
    }
    while i < n
        invariant
            i <= n,
            palloc.wf(),
            m == old(pt).mappings(),
            mappings_sound(m),
            start % PAGE_SIZE == 0,
            start + n * PAGE_SIZE <= u64::MAX,
            pt.mappings() == without_run(m, start as int, i as int),
            palloc@ == given_back(old(palloc)@, m, start as int, i as int),
            palloc.peak() == old(palloc).peak(),
        decreases n - i,
    {
        let v: u64 = start + i * PAGE_SIZE;
        proof {
            assert(v % PAGE_SIZE == 0);
            assert(page_of(v) == v);
            assert forall|w: u64| in_run(w, start as int, i + 1) == (in_run(w, start as int, i as int) || w == v) by {}
            assert(!in_run(v, start as int, i as int));
            assert(without_run(m, start as int, i as int).remove(v) =~= without_run(m, start as int, i + 1));
            if !m.contains_key(v) {
                assert(without_run(m, start as int, i as int) =~= without_run(m, start as int, i + 1));
            }
            assert(m.contains_key(v) ==> m[v].paddr % PAGE_SIZE == 0);
        }
        if let Ok(paddr) = pt.unmap_2mb(VirtualAddr::new(v)) {
            if !is_dax_page(paddr) {
                let _ = palloc.free(paddr);
            }
        }
        i += 1;
    }
}

/// Maps zeroed pages at the `pages` pages from `vaddr` on. If that fails, nothing stays mapped.
#[verifier::rlimit(40)]
pub fn map_anonymous_pages<M: Memory, P: PageTable>(
    palloc: &mut PageAllocator,
    pt: &mut P,
    dm: &mut M,
    vaddr: u64,
    pages: u64,
) -> (r: Result<(), i64>)
    requires
        old(palloc).wf(),
        mappings_sound(old(pt).mappings()),
        reaches_free_pages(old(dm), old(palloc)@),
        vaddr % PAGE_SIZE == 0,
        vaddr + pages * PAGE_SIZE <= u64::MAX,
    ensures
        final(palloc).peak() == peak_with(
            old(palloc).peak(),
            taken_pages(old(palloc)@, old(pt).mappings(), vaddr as int, pages as int),
        ),
        zeroed(old(dm), final(dm), taken_pages(old(palloc)@, old(pt).mappings(), vaddr as int, pages as int)),
        final(palloc).wf(),
        mappings_sound(final(pt).mappings()),
        r is Ok <==> count_used(old(palloc)@) + pages <= PAGE_COUNT && forall|v: u64|
            in_run(v, vaddr as int, pages as int) ==> !#[trigger] old(pt).mappings().contains_key(v),
        match r {
            Ok(()) => {
                let fresh = fresh_pages(old(palloc)@, pages as int);
                &&& final(palloc)@ == with_used(old(palloc)@, fresh)
                &&& final(pt).mappings() == with_run(old(pt).mappings(), vaddr as int, fresh)
                &&& fresh == taken_pages(old(palloc)@, old(pt).mappings(), vaddr as int, pages as int)
            },
            Err(e) => {
                &&& e == ENOMEM
                &&& final(palloc)@ == old(palloc)@
                &&& final(pt).mappings() == old(pt).mappings()
            },
        },
{
    let ghost used = palloc@;
    let ghost m = pt.mappings();
    let mut i: u64 = 0;
    proof {
        palloc.lemma_page_count();
        assert(with_used(used, fresh_pages(used, 0)) =~= used);
        assert(with_run(m, vaddr as int, fresh_pages(used, 0)) =~= m);
        lemma_count_bound(used);
    }
    while i < pages
        invariant
            i <= pages,
            palloc.wf(),
            used == old(palloc)@,
            used.len() == PAGE_COUNT,
            m == old(pt).mappings(),
            mappings_sound(m),
            reaches_free_pages(old(dm), used),
            vaddr % PAGE_SIZE == 0,
            vaddr + pages * PAGE_SIZE <= u64::MAX,
            count_used(used) + i <= PAGE_COUNT,
            palloc@ == with_used(used, fresh_pages(used, i as int)),
            palloc.peak() == peak_with(old(palloc).peak(), fresh_pages(used, i as int)),
            pt.mappings() == with_run(m, vaddr as int, fresh_pages(used, i as int)),
            forall|v: u64| in_run(v, vaddr as int, i as int) ==> !#[trigger] m.contains_key(v),
            zeroed(old(dm), dm, fresh_pages(used, i as int)),
        decreases pages - i,
    {
        let ghost fresh = fresh_pages(used, i as int);
        let v: u64 = vaddr + i * PAGE_SIZE;
        proof {
            law_fresh_pages(used, i as int);
            assert(v % PAGE_SIZE == 0);
            assert(page_of(v) == v);
            assert(in_run(v, vaddr as int, pages as int));
            law_lowest_page(palloc@);
        }
        let paddr: PhysicalAddr = match palloc.allocate(1) {
            Ok(p) => p,
            Err(_) => {
                proof {
                    lemma_rollback(used, m, vaddr as int, fresh);
                    lemma_zeroed_keeps(old(dm), dm, used, fresh);
                    lemma_sound_with(m, vaddr as int, fresh);
                }
                unmap_run(palloc, pt, vaddr, i);
                proof {
                    lemma_taken(used, m, vaddr as int, i as int, pages as int);
                }
                return Err(ENOMEM);
            },
        };
        let ghost p = lowest_run(with_used(used, fresh), 1)->0;
        proof {
            lemma_lowest_run_is_free(with_used(used, fresh), 1);
            assert(!with_used(used, fresh)[p]);
            assert(!used[p]);
            assert(within(old(dm), p * PAGE_SIZE, PAGE_SIZE as int));
        }
        let ghost before = *dm;
        zero_page(dm, paddr);
        proof {
            assert(fresh_pages(used, i + 1) == fresh.push(p));
            lemma_zero_one_more(old(dm), &before, dm, fresh, p);
            lemma_with_used_push(used, fresh, p);
            lemma_with_run_push(m, vaddr as int, fresh, p);
            law_allocate_counts(with_used(used, fresh), p, 1);
            lemma_count_bound(with_used(used, fresh.push(p)));
            law_fresh_pages(used, i + 1);
            if i > 0 {
                assert(fresh_pages(used, i + 1)[i - 1] == fresh.last());
                assert(fresh_pages(used, i + 1)[i as int] == p);
                assert(fresh.last() < p);
            }
        }
        if pt.map_2mb(VirtualAddr::new(v), paddr).is_err() {
            let _ = palloc.free(paddr);
            proof {
                assert(m.contains_key(v));
                assert(palloc@ =~= with_used(used, fresh));
                lemma_rollback(used, m, vaddr as int, fresh);
                lemma_zeroed_keeps(old(dm), dm, used, fresh.push(p));
                lemma_sound_with(m, vaddr as int, fresh);
            }
            unmap_run(palloc, pt, vaddr, i);
            proof {
                lemma_taken(used, m, vaddr as int, i as int, pages as int);
            }
            return Err(ENOMEM);
        }
        proof {
            assert(!m.contains_key(v));
            assert forall|w: u64| in_run(w, vaddr as int, i + 1) implies !#[trigger] m.contains_key(w) by {
                assert(in_run(w, vaddr as int, i as int) || w == v);
            }
        }
        i += 1;
    }
    proof {
        law_fresh_pages(used, pages as int);
        lemma_taken(used, m, vaddr as int, pages as int, pages as int);
        lemma_sound_with(m, vaddr as int, fresh_pages(used, pages as int));
    }
    Ok(())
}

/// How many pages were taken where mapping ends at page `i`.
proof fn lemma_taken(used: Seq<bool>, m: Map<u64, PageEntry>, start: int, i: int, n: int)
    requires
        0 <= start,
        0 <= i <= n,
        start + n * PAGE_SIZE <= u64::MAX,
        count_used(used) + i <= used.len(),
        forall|v: u64| in_run(v, start, i) ==> !#[trigger] m.contains_key(v),
    ensures
        i == n ==> pages_taken(used, m, start, n) == n,
        count_used(used) + i == used.len() ==> pages_taken(used, m, start, n) == i,
        i < n && count_used(used) + i < used.len() && m.contains_key((start + i * PAGE_SIZE) as u64) ==> pages_taken(
            used,
            m,
            start,
            n,
        ) == i + 1,
{
    assert forall|j: int| 0 <= j < i implies !m.contains_key(#[trigger] ((start + j * PAGE_SIZE) as u64)) by {
        assert(in_run((start + j * PAGE_SIZE) as u64, start, i));
    }
    lemma_clear_pages(m, start, i, n);
}

/// The pages that are taken were free, so that zeroing them leaves those in use alone.
pub proof fn lemma_taken_keeps<M: Memory>(before: &M, after: &M, used: Seq<bool>, m: Map<u64, PageEntry>, start: int, n: int)
    requires
        0 <= n,
        zeroed(before, after, taken_pages(used, m, start, n)),
    ensures
        keeps_used_pages(before, after, used),
{
    lemma_count_bound(used);
    lemma_clear_pages(m, start, 0, n);
    law_fresh_pages(used, pages_taken(used, m, start, n));
    lemma_zeroed_keeps(before, after, used, taken_pages(used, m, start, n));
}

/// Page `p` of guest memory is free.
pub open spec fn is_free(used: Seq<bool>, p: int) -> bool {
    0 <= p < used.len() && !used[p]
}

/// No byte differs between the two states, except in pages that were free.
pub open spec fn keeps_used_pages<M: Memory>(before: &M, after: &M, used: Seq<bool>) -> bool {
    &&& same_window(before, after)
    &&& forall|a: int|
        within(before, a, 1) && !is_free(used, a / PAGE_SIZE as int) ==> #[trigger] byte(after, a) == byte(before, a)
}

/// Zeroing pages that were free leaves those in use alone.
pub proof fn lemma_zeroed_keeps<M: Memory>(before: &M, after: &M, used: Seq<bool>, pages: Seq<int>)
    requires
        zeroed(before, after, pages),
        forall|k: int| 0 <= k < pages.len() ==> 0 <= #[trigger] pages[k] < used.len() && !used[pages[k]],
    ensures
        keeps_used_pages(before, after, used),
{
}

/// Zeroing one more page.
proof fn lemma_zero_one_more<M: Memory>(start: &M, before: &M, after: &M, pages: Seq<int>, p: int)
    requires
        zeroed(start, before, pages),
        0 <= p,
        within(before, p * PAGE_SIZE, PAGE_SIZE as int),
        wrote(before, after, p * PAGE_SIZE, zeros(PAGE_SIZE as int)),
    ensures
        zeroed(start, after, pages.push(p)),
{
    assert forall|a: int| within(start, a, 1) implies #[trigger] byte(after, a) == (if pages.push(p).contains(
        a / PAGE_SIZE as int,
    ) {
        0
    } else {
        byte(start, a)
    }) by {
        let q = a / PAGE_SIZE as int;
        assert(byte(before, a) == (if pages.contains(q) { 0 } else { byte(start, a) }));
        assert(pages.push(p)[pages.len() as int] == p);
        if pages.contains(q) {
            let k = choose|k: int| 0 <= k < pages.len() && pages[k] == q;
            assert(pages.push(p)[k] == q);
        }
        if pages.push(p).contains(q) && q != p {
            let k = choose|k: int| 0 <= k < pages.push(p).len() && pages.push(p)[k] == q;
            assert(pages[k] == q);
        }
    }
}

/// Undoing a run of fresh mappings restores everything.
proof fn lemma_rollback(used: Seq<bool>, m: Map<u64, PageEntry>, start: int, pages: Seq<int>)
    requires
        used.len() == PAGE_COUNT,
        0 <= start,
        start + pages.len() * PAGE_SIZE <= u64::MAX,
        forall|v: u64| in_run(v, start, pages.len() as int) ==> !m.contains_key(v),
        pages.no_duplicates(),
        forall|i: int| 0 <= i < pages.len() ==> 0 <= #[trigger] pages[i] < used.len() && !used[pages[i]],
    ensures
        without_run(with_run(m, start, pages), start, pages.len() as int) == m,
        given_back(with_used(used, pages), with_run(m, start, pages), start, pages.len() as int) == used,
{
    law_unmap_undoes_map(m, start, pages);
    law_give_back_undoes_map(used, m, start, pages, pages.len() as int);
    assert(with_used(used, pages.skip(pages.len() as int)) =~= used);
}

/// The window reaches every page that is mapped.
pub open spec fn reaches_mapped<M: Memory>(dm: &M, m: Map<u64, PageEntry>) -> bool {
    forall|v: u64| #[trigger] m.contains_key(v) ==> within(dm, m[v].paddr as int, PAGE_SIZE as int)
}

/// The mappings and the pages in use once the page at `v` can be written to without touching
/// the host's files: mapped, present, and of guest memory. A page that is hidden stays hidden.
pub open spec fn ensure_one(m: Map<u64, PageEntry>, used: Seq<bool>, v: u64) -> Option<(Map<u64, PageEntry>, Seq<bool>)> {
    if m.contains_key(v) && m[v].present && !is_dax(m[v].paddr) {
        Some((m, used))
    } else if m.contains_key(v) && !m[v].present {
        None
    } else {
        match lowest_run(used, 1) {
            None => None,
            Some(p) => Some((m.insert(v, entry(p)), mark(used, p, 1, true))),
        }
    }
}

/// The same for the `n` pages from `start` on, up to the first one that cannot be had; and
/// whether all of them could.
pub open spec fn ensured(m: Map<u64, PageEntry>, used: Seq<bool>, start: int, n: int) -> (
    Map<u64, PageEntry>,
    Seq<bool>,
    bool,
)
    decreases n,
{
    if n <= 0 {
        (m, used, true)
    } else {
        let (m1, used1, ok) = ensured(m, used, start, n - 1);
        if !ok {
            (m1, used1, false)
        } else {
            match ensure_one(m1, used1, (start + (n - 1) * PAGE_SIZE) as u64) {
                None => (m1, used1, false),
                Some((m2, used2)) => (m2, used2, true),
            }
        }
    }
}

/// How many of these pages could be had.
pub open spec fn ensured_count(m: Map<u64, PageEntry>, used: Seq<bool>, start: int, n: int) -> int
    decreases n,
{
    if n <= 0 {
        0
    } else if ensured(m, used, start, n).2 {
        n
    } else {
        ensured_count(m, used, start, n - 1)
    }
}

/// The page that is taken for the page at `v`, if one is needed and there is one. Behind a page that is hidden it is given back.
pub open spec fn page_for(m: Map<u64, PageEntry>, used: Seq<bool>, v: u64) -> Option<int> {
    if m.contains_key(v) && m[v].present && !is_dax(m[v].paddr) {
        None
    } else {
        lowest_run(used, 1)
    }
}

/// The peak once these pages were taken.
pub open spec fn ensured_peak(m: Map<u64, PageEntry>, used: Seq<bool>, peak: int, start: int, n: int) -> int
    decreases n,
{
    if n <= 0 {
        peak
    } else {
        let (m1, used1, ok) = ensured(m, used, start, n - 1);
        let before = ensured_peak(m, used, peak, start, n - 1);
        if !ok {
            before
        } else {
            match page_for(m1, used1, (start + (n - 1) * PAGE_SIZE) as u64) {
                None => before,
                Some(p) => max(before, reach_of(p)),
            }
        }
    }
}

/// The page that was taken for the first page that could not be had, and given back.
pub open spec fn ensured_tried(m: Map<u64, PageEntry>, used: Seq<bool>, start: int, n: int) -> Option<int>
    decreases n,
{
    if n <= 0 || ensured(m, used, start, n).2 {
        None
    } else {
        let (m1, used1, ok) = ensured(m, used, start, n - 1);
        if !ok {
            ensured_tried(m, used, start, n - 1)
        } else {
            page_for(m1, used1, (start + (n - 1) * PAGE_SIZE) as u64)
        }
    }
}

/// The pages but for those that were taken meanwhile, to keep or to try.
pub open spec fn not_taken(used: Seq<bool>, used_after: Seq<bool>, tried: Option<int>) -> Seq<bool> {
    Seq::new(used.len(), |q: int| used[q] || !(used_after[q] || tried == Some(q)))
}

/// What becomes of memory when the `n` pages from `start` on are made private, up to the first one that cannot be had: only
/// pages that were free and are taken change, each of which is filled; a page that was tried holds zeros.
pub open spec fn made_private<M: Memory>(before: &M, after: &M, m: Map<u64, PageEntry>, used: Seq<bool>, start: int, n: int) -> bool {
    let (m1, used1, ok) = ensured(m, used, start, n);
    let tried = ensured_tried(m, used, start, n);
    &&& keeps_used_pages(before, after, not_taken(used, used1, tried))
    &&& tried matches Some(p) ==> forall|a: int| p * PAGE_SIZE <= a < (p + 1) * PAGE_SIZE ==> #[trigger] byte(after, a) == 0
    &&& forall|v: u64|
        #[trigger] in_run(v, start, ensured_count(m, used, start, n)) ==> m1.contains_key(v) && filled(before, after, m, m1, v)
}

/// Nothing happens behind the first page that cannot be had.
proof fn lemma_ensured_stops(m: Map<u64, PageEntry>, used: Seq<bool>, peak: int, start: int, k: int, n: int)
    requires
        0 < k <= n,
        !ensured(m, used, start, k).2,
    ensures
        ensured(m, used, start, n) == ensured(m, used, start, k),
        ensured_peak(m, used, peak, start, n) == ensured_peak(m, used, peak, start, k),
        ensured_tried(m, used, start, n) == ensured_tried(m, used, start, k),
        ensured_count(m, used, start, n) == ensured_count(m, used, start, k),
    decreases n - k,
{
    if k < n {
        lemma_ensured_stops(m, used, peak, start, k, n - 1);
    }
}

/// Copies one page of physical memory.
fn copy_page<M: Memory>(dm: &mut M, src: PhysicalAddr, dst: PhysicalAddr)
    requires
        within(old(dm), src.0 as int, PAGE_SIZE as int),
        within(old(dm), dst.0 as int, PAGE_SIZE as int),
        src.0 + PAGE_SIZE <= u64::MAX,
        dst.0 + PAGE_SIZE <= u64::MAX,
    ensures
        wrote(old(dm), final(dm), dst.0 as int, range(old(dm), src.0 as int, PAGE_SIZE as int)),
{
    let data = read_bytes(dm, src.as_u64(), PAGE_SIZE);
    write_bytes(dm, dst.as_u64(), data.as_slice());
}

/// Puts a private copy in place of a page of the direct-access window.
pub fn replace_dax_with_private<M: Memory, P: PageTable>(
    palloc: &mut PageAllocator,
    pt: &mut P,
    dm: &mut M,
    va: u64,
    dax_paddr: PhysicalAddr,
) -> (r: Result<(), i64>)
    requires
        old(palloc).wf(),
        reaches_free_pages(old(dm), old(palloc)@),
        within(old(dm), dax_paddr.0 as int, PAGE_SIZE as int),
        dax_paddr.0 + PAGE_SIZE <= u64::MAX,
        va % PAGE_SIZE == 0,
        old(pt).mappings().contains_key(va),
    ensures
        final(palloc).wf(),
        match lowest_run(old(palloc)@, 1) {
            None => {
                &&& r == Err::<(), i64>(ENOMEM)
                &&& final(palloc)@ == old(palloc)@
                &&& final(palloc).peak() == old(palloc).peak()
                &&& final(pt).mappings() == old(pt).mappings()
                &&& *final(dm) == *old(dm)
            },
            Some(p) => {
                &&& r is Ok
                &&& final(palloc)@ == mark(old(palloc)@, p, 1, true)
                &&& final(palloc).peak() == max(old(palloc).peak(), reach_of(p))
                &&& final(pt).mappings() == old(pt).mappings().insert(va, entry(p))
                &&& wrote(old(dm), final(dm), p * PAGE_SIZE, range(old(dm), dax_paddr.0 as int, PAGE_SIZE as int))
            },
        },
{
    let ghost used = palloc@;
    let new_paddr: PhysicalAddr = match palloc.allocate(1) {
        Ok(p) => p,
        Err(_) => {
            return Err(ENOMEM);
        },
    };
    proof {
        palloc.lemma_page_count();
        let p = lowest_run(used, 1)->0;
        lemma_lowest_run_is_free(used, 1);
        assert(!used[p]);
        assert(page_of(va) == va);
        assert(old(pt).mappings().remove(va).insert(va, entry(p)) =~= old(pt).mappings().insert(va, entry(p)));
    }
    copy_page(dm, dax_paddr, new_paddr);
    if pt.unmap_2mb(VirtualAddr::new(va)).is_err() {
        return Err(ENOMEM);
    }
    if pt.map_2mb(VirtualAddr::new(va), new_paddr).is_err() {
        let _ = pt.map_2mb(VirtualAddr::new(va), dax_paddr);
        let _ = palloc.free(new_paddr);
        return Err(ENOMEM);
    }
    Ok(())
}

/// What stands in the page at `v` once it was made private: what stood in the window's page, or
/// zeros if nothing was mapped.
pub open spec fn filled<M: Memory>(
    before: &M,
    after: &M,
    m: Map<u64, PageEntry>,
    m_after: Map<u64, PageEntry>,
    v: u64,
) -> bool {
    m.contains_key(v) && m[v].present && !is_dax(m[v].paddr) || forall|k: int|
        0 <= k < PAGE_SIZE ==> #[trigger] byte(after, m_after[v].paddr + k) == (if m.contains_key(v) {
            byte(before, m[v].paddr + k)
        } else {
            0
        })
}

/// Makes every one of the `n` pages from `start` on a private page that can be written to.
#[verifier::rlimit(60)]
pub fn ensure_run<M: Memory, P: PageTable>(
    palloc: &mut PageAllocator,
    pt: &mut P,
    dm: &mut M,
    start: u64,
    n: u64,
) -> (r: Result<(), i64>)
    requires
        old(palloc).wf(),
        mappings_sound(old(pt).mappings()),
        reaches_free_pages(old(dm), old(palloc)@),
        reaches_mapped(old(dm), old(pt).mappings()),
        start % PAGE_SIZE == 0,
        start + n * PAGE_SIZE <= u64::MAX,
    ensures
        final(palloc).peak() == ensured_peak(old(pt).mappings(), old(palloc)@, old(palloc).peak(), start as int, n as int),
        final(palloc).wf(),
        mappings_sound(final(pt).mappings()),
        reaches_free_pages(final(dm), final(palloc)@),
        reaches_mapped(final(dm), final(pt).mappings()),
        (final(pt).mappings(), final(palloc)@, r is Ok) == ensured(
            old(pt).mappings(),
            old(palloc)@,
            start as int,
            n as int,
        ),
        r matches Err(e) ==> e == ENOMEM,
        keeps_used_pages(old(dm), final(dm), old(palloc)@),
        made_private(old(dm), final(dm), old(pt).mappings(), old(palloc)@, start as int, n as int),
{
    let ghost m0 = pt.mappings();
    let ghost used0 = palloc@;
    let mut i: u64 = 0;
    proof {
        palloc.lemma_page_count();
    }
    while i < n
        invariant
            i <= n,
            start % PAGE_SIZE == 0,
            start + n * PAGE_SIZE <= u64::MAX,
            palloc.wf(),
            m0 == old(pt).mappings(),
            used0 == old(palloc)@,
            palloc@.len() == PAGE_COUNT,
            palloc.peak() == ensured_peak(m0, used0, old(palloc).peak(), start as int, i as int),
            used0.len() == PAGE_COUNT,
            mappings_sound(m0),
            mappings_sound(pt.mappings()),
            reaches_free_pages(dm, palloc@),
            reaches_mapped(dm, pt.mappings()),
            reaches_mapped(old(dm), m0),
            (pt.mappings(), palloc@, true) == ensured(m0, used0, start as int, i as int),
            keeps_used_pages(old(dm), dm, not_taken(used0, palloc@, None)),
            forall|p: int| 0 <= p < used0.len() && #[trigger] used0[p] ==> palloc@[p],
            forall|v: u64| !in_run(v, start as int, i as int) ==> #[trigger] pt.mappings().contains_key(v) == m0.contains_key(v),
            forall|v: u64|
                !in_run(v, start as int, i as int) && #[trigger] pt.mappings().contains_key(v) ==> pt.mappings()[v] == m0[v],
            forall|v: u64|
                #[trigger] in_run(v, start as int, i as int) ==> pt.mappings().contains_key(v) && ({
                    ||| m0.contains_key(v) && m0[v].present && !is_dax(m0[v].paddr)
                    ||| pt.mappings()[v].paddr < MAX_GUEST_MEMORY && palloc@[pt.mappings()[v].paddr as int
                        / PAGE_SIZE as int] && !used0[pt.mappings()[v].paddr as int / PAGE_SIZE as int]
                }) && filled(old(dm), dm, m0, pt.mappings(), v),
        decreases n - i,
    {
        let va: u64 = start + i * PAGE_SIZE;
        let ghost m = pt.mappings();
        let ghost used = palloc@;
        let ghost before = *dm;
        proof {
            assert(va % PAGE_SIZE == 0);
            assert(page_of(va) == va);
            assert(!in_run(va, start as int, i as int));
            assert forall|w: u64| #[trigger] in_run(w, start as int, i + 1) == (in_run(w, start as int, i as int) || w == va) by {}
            lemma_lowest_run_is_free(used, 1);
        }
        let ghost p = lowest_run(used, 1)->0;
        match pt.get_if_present(VirtualAddr::new(va)) {
            Some(paddr) => {
                if is_dax_page(paddr) {
                    proof {
                        assert(m.contains_key(va));
                        assert(m0.contains_key(va));
                    }
                    if let Err(e) = replace_dax_with_private(palloc, pt, dm, va, paddr) {
                        proof {
                            lemma_ensured_stops(m0, used0, old(palloc).peak(), start as int, i + 1, n as int);
                            assert(ensured_count(m0, used0, start as int, i as int) == i);
                            assert(ensured_tried(m0, used0, start as int, i + 1) is None);
                            lemma_keeps_fewer(old(dm), dm, not_taken(used0, palloc@, None), used0);
                        }
                        return Err(e);
                    }
                    proof {
                        lemma_new_page(old(dm), &before, dm, m0, m, used0, used, va, p, start as int, i as int);
                    }
                } else {
                    proof {
                        assert(m.contains_key(va));
                    }
                }
            },
            None => {
                let paddr: PhysicalAddr = match palloc.allocate(1) {
                    Ok(p) => p,
                    Err(_) => {
                        proof {
                            lemma_ensured_stops(m0, used0, old(palloc).peak(), start as int, i + 1, n as int);
                            assert(ensured_count(m0, used0, start as int, i as int) == i);
                            assert(ensured_tried(m0, used0, start as int, i + 1) is None);
                            lemma_keeps_fewer(old(dm), dm, not_taken(used0, palloc@, None), used0);
                        }
                        return Err(ENOMEM);
                    },
                };
                proof {
                    assert(!used[p]);
                }
                zero_page(dm, paddr);
                if pt.map_2mb(VirtualAddr::new(va), paddr).is_err() {
                    let _ = palloc.free(paddr);
                    proof {
                        assert(palloc@ =~= used);
                        assert(m.contains_key(va) && !m[va].present);
                        lemma_free_page_written(
                            old(dm),
                            &before,
                            dm,
                            not_taken(used0, used, None),
                            not_taken(used0, used, Some(p)),
                            p,
                        );
                        lemma_filled_kept(old(dm), &before, dm, m0, m, used0, used, p, start as int, i as int);
                        lemma_same_reach(&before, dm, m, used);
                        lemma_ensured_stops(m0, used0, old(palloc).peak(), start as int, i + 1, n as int);
                        assert(ensured_count(m0, used0, start as int, i as int) == i);
                        assert(ensured_tried(m0, used0, start as int, i + 1) == Some(p));
                        assert forall|a: int| p * PAGE_SIZE <= a < (p + 1) * PAGE_SIZE implies #[trigger] byte(dm, a) == 0 by {}
                        lemma_keeps_fewer(old(dm), dm, not_taken(used0, used, Some(p)), used0);
                    }
                    return Err(ENOMEM);
                }
                proof {
                    lemma_new_page(old(dm), &before, dm, m0, m, used0, used, va, p, start as int, i as int);
                }
            },
        }
        i += 1;
    }
    proof {
        lemma_keeps_fewer(old(dm), dm, not_taken(used0, palloc@, None), used0);
    }
    Ok(())
}

/// What holds of more pages holds of fewer.
proof fn lemma_keeps_fewer<M: Memory>(before: &M, after: &M, more: Seq<bool>, fewer: Seq<bool>)
    requires
        keeps_used_pages(before, after, more),
        more.len() == fewer.len(),
        forall|q: int| 0 <= q < fewer.len() && #[trigger] fewer[q] ==> more[q],
    ensures
        keeps_used_pages(before, after, fewer),
{
    assert forall|a: int| within(before, a, 1) && !is_free(fewer, a / PAGE_SIZE as int) implies #[trigger] byte(after, a) == byte(
        before,
        a,
    ) by {
        assert(!is_free(more, a / PAGE_SIZE as int));
    }
}

/// Writing to one page more.
proof fn lemma_free_page_written<M: Memory>(start: &M, before: &M, after: &M, more: Seq<bool>, fewer: Seq<bool>, p: int)
    requires
        keeps_used_pages(start, before, more),
        more.len() == fewer.len(),
        0 <= p < fewer.len(),
        !fewer[p],
        forall|q: int| 0 <= q < fewer.len() && #[trigger] fewer[q] ==> more[q],
        same_window(before, after),
        forall|a: int| within(before, a, 1) && !(p * PAGE_SIZE <= a < (p + 1) * PAGE_SIZE) ==> #[trigger] byte(after, a) == byte(before, a),
    ensures
        keeps_used_pages(start, after, fewer),
{
    assert forall|a: int| within(start, a, 1) && !is_free(fewer, a / PAGE_SIZE as int) implies #[trigger] byte(after, a) == byte(
        start,
        a,
    ) by {
        if p * PAGE_SIZE <= a < (p + 1) * PAGE_SIZE {
            assert(a / PAGE_SIZE as int == p);
        }
        assert(!is_free(more, a / PAGE_SIZE as int));
        assert(byte(before, a) == byte(start, a));
    }
}

/// Pages that were filled stay so when a free page is written to.
proof fn lemma_filled_kept<M: Memory>(
    start: &M,
    before: &M,
    after: &M,
    m0: Map<u64, PageEntry>,
    m: Map<u64, PageEntry>,
    used0: Seq<bool>,
    used: Seq<bool>,
    p: int,
    first: int,
    i: int,
)
    requires
        used0.len() == PAGE_COUNT,
        used.len() == PAGE_COUNT,
        0 <= p < used.len(),
        !used[p],
        reaches_mapped(before, m),
        mappings_sound(m),
        same_window(before, after),
        forall|a: int| within(before, a, 1) && !(p * PAGE_SIZE <= a < (p + 1) * PAGE_SIZE) ==> #[trigger] byte(after, a) == byte(before, a),
        forall|v: u64|
            #[trigger] in_run(v, first, i) ==> m.contains_key(v) && ({
                ||| m0.contains_key(v) && m0[v].present && !is_dax(m0[v].paddr)
                ||| m[v].paddr < MAX_GUEST_MEMORY && used[m[v].paddr as int / PAGE_SIZE as int] && !used0[m[v].paddr as int
                    / PAGE_SIZE as int]
            }) && filled(start, before, m0, m, v),
    ensures
        forall|v: u64| #[trigger] in_run(v, first, i) ==> filled(start, after, m0, m, v),
{
    assert forall|v: u64| #[trigger] in_run(v, first, i) implies filled(start, after, m0, m, v) by {
        if !(m0.contains_key(v) && m0[v].present && !is_dax(m0[v].paddr)) {
            assert(m[v].paddr as int / PAGE_SIZE as int != p);
            assert forall|k: int| 0 <= k < PAGE_SIZE implies #[trigger] byte(after, m[v].paddr + k) == (if m0.contains_key(v) {
                byte(start, m0[v].paddr + k)
            } else {
                0
            }) by {
                assert(within(before, m[v].paddr as int, PAGE_SIZE as int));
                assert(m[v].paddr % PAGE_SIZE == 0);
                assert(byte(before, m[v].paddr + k) == (if m0.contains_key(v) {
                    byte(start, m0[v].paddr + k)
                } else {
                    0
                }));
            }
        }
    }
}

/// What the window reaches does not depend on what stands there.
pub proof fn lemma_same_reach<M: Memory>(before: &M, after: &M, m: Map<u64, PageEntry>, used: Seq<bool>)
    requires
        same_window(before, after),
        reaches_free_pages(before, used),
        reaches_mapped(before, m),
    ensures
        reaches_free_pages(after, used),
        reaches_mapped(after, m),
{
    assert forall|q: int| 0 <= q < used.len() && !(#[trigger] used[q]) implies within(after, q * PAGE_SIZE, PAGE_SIZE as int) by {
        assert(within(before, q * PAGE_SIZE, PAGE_SIZE as int));
    }
    assert forall|v: u64| #[trigger] m.contains_key(v) implies within(after, m[v].paddr as int, PAGE_SIZE as int) by {
        assert(within(before, m[v].paddr as int, PAGE_SIZE as int));
    }
}

/// One more page of the run, mapped to a page that was free.
#[verifier::rlimit(60)]
proof fn lemma_new_page<M: Memory>(
    start: &M,
    before: &M,
    after: &M,
    m0: Map<u64, PageEntry>,
    m: Map<u64, PageEntry>,
    used0: Seq<bool>,
    used: Seq<bool>,
    va: u64,
    p: int,
    first: int,
    i: int,
)
    requires
        keeps_used_pages(start, before, not_taken(used0, used, None)),
        used0.len() == PAGE_COUNT,
        used.len() == PAGE_COUNT,
        0 <= p < used.len(),
        !used[p],
        forall|q: int| 0 <= q < used0.len() && #[trigger] used0[q] ==> used[q],
        reaches_free_pages(before, used),
        reaches_mapped(before, m),
        reaches_mapped(start, m0),
        mappings_sound(m0),
        mappings_sound(m),
        va % PAGE_SIZE == 0,
        first % (PAGE_SIZE as int) == 0,
        va == first + i * PAGE_SIZE,
        0 <= i,
        0 <= first,
        m.contains_key(va) == m0.contains_key(va),
        m.contains_key(va) ==> m[va] == m0[va] && m0[va].present && is_dax(m0[va].paddr),
        wrote(
            before,
            after,
            p * PAGE_SIZE,
            if m0.contains_key(va) {
                range(before, m0[va].paddr as int, PAGE_SIZE as int)
            } else {
                zeros(PAGE_SIZE as int)
            },
        ),
        forall|v: u64|
            #[trigger] in_run(v, first, i) ==> m.contains_key(v) && ({
                ||| m0.contains_key(v) && m0[v].present && !is_dax(m0[v].paddr)
                ||| m[v].paddr < MAX_GUEST_MEMORY && used[m[v].paddr as int / PAGE_SIZE as int] && !used0[m[v].paddr as int
                    / PAGE_SIZE as int]
            }) && filled(start, before, m0, m, v),
    ensures
        keeps_used_pages(start, after, not_taken(used0, mark(used, p, 1, true), None)),
        mappings_sound(m.insert(va, entry(p))),
        reaches_free_pages(after, mark(used, p, 1, true)),
        reaches_mapped(after, m.insert(va, entry(p))),
        forall|v: u64|
            #[trigger] in_run(v, first, i + 1) ==> m.insert(va, entry(p)).contains_key(v) && ({
                let e = m.insert(va, entry(p))[v];
                ||| m0.contains_key(v) && m0[v].present && !is_dax(m0[v].paddr)
                ||| e.paddr < MAX_GUEST_MEMORY && mark(used, p, 1, true)[e.paddr as int / PAGE_SIZE as int] && !used0[e.paddr as int
                    / PAGE_SIZE as int]
            }) && filled(start, after, m0, m.insert(va, entry(p)), v),
{
    let m2 = m.insert(va, entry(p));
    let used2 = mark(used, p, 1, true);
    assert(within(before, p * PAGE_SIZE, PAGE_SIZE as int));
    assert(!used0[p]) by {
        if used0[p] {
            assert(used[p]);
        }
    }
    lemma_free_page_written(start, before, after, not_taken(used0, used, None), not_taken(used0, used2, None), p);
    lemma_filled_kept(start, before, after, m0, m, used0, used, p, first, i);
    lemma_same_reach(before, after, m, used);
    assert forall|q: int| 0 <= q < used2.len() && !(#[trigger] used2[q]) implies within(after, q * PAGE_SIZE, PAGE_SIZE as int) by {
        assert(!used[q]);
    }
    assert forall|v: u64| #[trigger] in_run(v, first, i + 1) implies m2.contains_key(v) && ({
        let e = m2[v];
        ||| m0.contains_key(v) && m0[v].present && !is_dax(m0[v].paddr)
        ||| e.paddr < MAX_GUEST_MEMORY && used2[e.paddr as int / PAGE_SIZE as int] && !used0[e.paddr as int / PAGE_SIZE as int]
    }) && filled(start, after, m0, m2, v) by {
        if v == va {
            assert forall|k: int| 0 <= k < PAGE_SIZE implies #[trigger] byte(after, m2[va].paddr + k) == (if m0.contains_key(va) {
                byte(start, m0[va].paddr + k)
            } else {
                0
            }) by {
                assert(m2[va].paddr == p * PAGE_SIZE);
                if m0.contains_key(va) {
                    let a = m0[va].paddr + k;
                    assert(within(start, m0[va].paddr as int, PAGE_SIZE as int));
                    assert(!is_free(not_taken(used0, used, None), a / PAGE_SIZE as int));
                    assert(byte(before, a) == byte(start, a));
                }
            }
        } else {
            assert(in_run(v, first, i));
            assert(m2[v] == m[v]);
            assert(filled(start, after, m0, m, v));
        }
    }
}

/// Where the byte at virtual address `a` lies in physical memory.
pub open spec fn phys(m: Map<u64, PageEntry>, a: int) -> int {
    m[round_down(a, PAGE_SIZE as int) as u64].paddr + a % (PAGE_SIZE as int)
}

/// The bytes at the virtual addresses `lo .. hi` were set to zero, and no others changed.
pub open spec fn cleared<M: Memory>(before: &M, after: &M, m: Map<u64, PageEntry>, lo: int, hi: int) -> bool {
    &&& same_window(before, after)
    &&& forall|a: int| lo <= a < hi ==> byte(after, #[trigger] phys(m, a)) == 0
    &&& forall|b: int|
        within(before, b, 1) && (forall|a: int| lo <= a < hi ==> #[trigger] phys(m, a) != b) ==> #[trigger] byte(after, b)
            == byte(before, b)
}

/// Sets the user's bytes `lo .. hi` to zero, page by page. The pages are mapped and present.
#[verifier::rlimit(40)]
pub fn clear_range<M: Memory, P: PageTable>(pt: &P, dm: &mut M, lo: u64, hi: u64)
    requires
        mappings_sound(pt.mappings()),
        reaches_mapped(old(dm), pt.mappings()),
        lo <= hi,
        forall|v: u64|
            #![trigger pt.mappings().contains_key(v)]
            v % PAGE_SIZE == 0 && lo < v + PAGE_SIZE && v < hi ==> pt.mappings().contains_key(v) && pt.mappings()[v].present,
    ensures
        cleared(old(dm), final(dm), pt.mappings(), lo as int, hi as int),
{
    let ghost m = pt.mappings();
    let mut at: u64 = lo;
    while at < hi
        invariant
            m == pt.mappings(),
            mappings_sound(m),
            reaches_mapped(old(dm), m),
            same_window(old(dm), dm),
            lo <= at <= hi,
            forall|v: u64|
                #![trigger pt.mappings().contains_key(v)]
                v % PAGE_SIZE == 0 && lo < v + PAGE_SIZE && v < hi ==> pt.mappings().contains_key(v) && pt.mappings()[v].present,
            cleared(old(dm), dm, m, lo as int, at as int),
        decreases hi - at,
    {
        proof {
            law_round_down(at as int, PAGE_SIZE as int);
        }
        let page: u64 = align_down(at, PAGE_SIZE);
        let end: u64 = if hi - page <= PAGE_SIZE { hi } else { page + PAGE_SIZE };
        proof {
            assert(page_of(page) == page);
            assert(page % PAGE_SIZE == 0);
            assert(lo < page + PAGE_SIZE);
            assert(pt.mappings().contains_key(page));
            assert(within(old(dm), m[page].paddr as int, PAGE_SIZE as int));
        }
        let paddr: u64 = match pt.get_if_present(VirtualAddr::new(page)) {
            Some(p) => p.as_u64(),
            None => {
                proof {
                    assert(false);
                }
                return;
            },
        };
        let ghost before = *dm;
        fill(dm, paddr + (at - page), 0, end - at);
        proof {
            assert forall|a: int| at <= a < end implies #[trigger] phys(m, a) == paddr + (a - page) by {
                assert(round_down(a, PAGE_SIZE as int) == page);
            }
            assert forall|a: int| lo <= a < end implies byte(dm, #[trigger] phys(m, a)) == 0 by {
                if a < at {
                    assert(byte(&before, phys(m, a)) == 0);
                    law_round_down(a, PAGE_SIZE as int);
                    let v = round_down(a, PAGE_SIZE as int) as u64;
                    assert(m.contains_key(v));
                    assert(within(old(dm), m[v].paddr as int, PAGE_SIZE as int));
                }
            }
            assert forall|b: int|
                within(old(dm), b, 1) && (forall|a: int| lo <= a < end ==> #[trigger] phys(m, a) != b) implies #[trigger] byte(dm, b)
                == byte(old(dm), b) by {
                assert(forall|a: int| lo <= a < at ==> #[trigger] phys(m, a) != b);
                assert(byte(&before, b) == byte(old(dm), b));
                if paddr + (at - page) <= b < paddr + (end - page) {
                    let a = b - paddr + page;
                    assert(phys(m, a) == b);
                }
            }
        }
        at = end;
    }
}

} // verus!
