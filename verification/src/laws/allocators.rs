//! Memory of the kernel: pages, and pieces of them.

use vstd::prelude::*;

use crate::address::PhysicalAddr;
use crate::layout::{MAX_GUEST_MEMORY, PAGE_SIZE};
use crate::memory::access::{byte, Memory};
use crate::memory::allocators::kmalloc::{law_live_allocations_disjoint, KernelAllocator, HEADER_SIZE};
use crate::memory::allocators::palloc::{free_run, first_free_run, lowest_run, PageAllocator, PAGE_COUNT};
use crate::memory::errors::MemoryError;

verus! {

/// The `n` pages from `s` on are all free.
pub open spec fn run_is_free(used: Seq<bool>, s: int, n: int) -> bool {
    0 <= s && s + n <= used.len() && forall|k: int| s <= k < s + n ==> !#[trigger] used[k]
}

proof fn lemma_some_first(used: Seq<bool>, s: int, n: int)
    requires
        run_is_free(used, s, n),
    ensures
        exists|t: int| #[trigger] first_free_run(used, t, n),
    decreases s,
{
    assert(free_run(used, s, n));
    if exists|t: int| t < s && #[trigger] free_run(used, t, n) {
        let t = choose|t: int| t < s && #[trigger] free_run(used, t, n);
        lemma_some_first(used, t, n);
    } else {
        assert(first_free_run(used, s, n));
    }
}

/// Pages that are given out were free, lie next to each other, and are taken afterwards; no other page changes. They are the
/// lowest that there are; and there are none only if there is no such run of free pages.
pub proof fn law_pages_given_out_were_free(palloc: &mut PageAllocator, pages: u64, r: Result<PhysicalAddr, MemoryError>)
    requires
        call_ensures(PageAllocator::allocate, (palloc, pages), r),
    ensures
        ({
            let a = old(palloc)@;
            let b = final(palloc)@;
            &&& pages == 0 ==> r is Err
            &&& r matches Ok(addr) ==> {
                let s = addr.0 as int / PAGE_SIZE as int;
                &&& addr.0 == s * PAGE_SIZE
                &&& run_is_free(a, s, pages as int)
                &&& b.len() == a.len()
                &&& forall|k: int| 0 <= k < a.len() ==> #[trigger] b[k] == (a[k] || s <= k < s + pages)
                &&& forall|t: int| t < s ==> !run_is_free(a, t, pages as int)
            }
            &&& r is Err ==> b == a && (pages > 0 ==> forall|t: int| !run_is_free(a, t, pages as int))
        }),
{
    let a = old(palloc)@;
    if pages > 0 {
        if let Some(s) = lowest_run(a, pages as int) {
            assert(first_free_run(a, s, pages as int));
            assert forall|t: int| t < s implies !run_is_free(a, t, pages as int) by {
                assert(!free_run(a, t, pages as int));
            }
            assert(s * PAGE_SIZE / PAGE_SIZE as int == s);
        } else {
            assert forall|t: int| !run_is_free(a, t, pages as int) by {
                if run_is_free(a, t, pages as int) {
                    lemma_some_first(a, t, pages as int);
                }
            }
        }
    }
}

/// A page that is given back is free, and no other page changes.
pub proof fn law_page_given_back_is_free(palloc: &mut PageAllocator, addr: PhysicalAddr, r: Result<(), MemoryError>)
    requires
        call_ensures(PageAllocator::free, (palloc, addr), r),
        addr.0 < MAX_GUEST_MEMORY,
        old(palloc)@.len() == PAGE_COUNT,
    ensures
        r is Ok,
        !final(palloc)@[addr.0 as int / PAGE_SIZE as int],
        final(palloc)@.len() == old(palloc)@.len(),
        forall|k: int| 0 <= k < old(palloc)@.len() && k != addr.0 as int / PAGE_SIZE as int ==> #[trigger] final(palloc)@[k] == old(palloc)@[k],
{
}

/// A piece that was given out is new, lies apart from all others, and is as large as asked for. What the others hold is kept. If
/// there is none, all stays as it was given out.
pub proof fn law_piece_lies_apart<M: Memory>(
    heap: &mut KernelAllocator,
    palloc: &mut PageAllocator,
    dm: &mut M,
    size: u64,
    r: Result<PhysicalAddr, MemoryError>,
)
    requires
        call_ensures(KernelAllocator::calloc::<M>, (heap, palloc, dm, size), r),
    ensures
        r matches Ok(addr) ==> {
            let s = addr.0 - HEADER_SIZE;
            let a = old(heap).live();
            let b = final(heap).live();
            &&& size <= 0x100_0000
            &&& !a.contains_key(s) && b.contains_key(s)
            &&& addr.0 + size <= s + b[s]
            &&& forall|t: int| #[trigger] a.contains_key(t) ==> b.contains_key(t) && b[t] == a[t] && (t + a[t] <= s || s + b[s] <= t)
            &&& forall|t: int, x: int|
                a.contains_key(t) && t <= x < t + #[trigger] a[t] ==> #[trigger] byte(final(dm), x) == byte(old(dm), x)
            &&& forall|x: int| addr.0 <= x < addr.0 + size ==> #[trigger] byte(final(dm), x) == 0
        },
        r is Err ==> final(heap).live() == old(heap).live(),
        size > 0x100_0000 ==> r is Err,
{
    if let Ok(addr) = r {
        let s = addr.0 - HEADER_SIZE;
        let a = old(heap).live();
        let b = final(heap).live();
        assert forall|t: int| #[trigger] a.contains_key(t) implies b.contains_key(t) && b[t] == a[t] && (t + a[t] <= s || s + b[s] <= t) by {
            law_live_allocations_disjoint(*final(heap), final(palloc)@, final(dm), s, t);
        }
    }
}

/// A piece that is given back is not given out any more; all others still are, and hold what they held.
pub proof fn law_piece_given_back_is_gone<M: Memory>(heap: &mut KernelAllocator, palloc: &PageAllocator, dm: &mut M, ptr: PhysicalAddr, r: ())
    requires
        call_ensures(KernelAllocator::free::<M>, (heap, palloc, dm, ptr), r),
    ensures
        ({
            let s = ptr.0 - HEADER_SIZE;
            let a = old(heap).live();
            let b = final(heap).live();
            &&& !b.contains_key(s)
            &&& forall|t: int| t != s ==> (#[trigger] b.contains_key(t) <==> a.contains_key(t)) && (a.contains_key(t) ==> b[t] == a[t])
            &&& forall|t: int, x: int|
                b.contains_key(t) && t <= x < t + #[trigger] b[t] ==> #[trigger] byte(final(dm), x) == byte(old(dm), x)
        }),
{
}

} // verus!
