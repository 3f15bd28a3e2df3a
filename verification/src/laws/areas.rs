//! The user's mappings, and the pages behind them.

use vstd::prelude::*;

use super::words::byte_at;
use crate::address::{PhysicalAddr, VirtualAddr};
use crate::memory::access::{within, Memory};
use crate::memory::allocators::mmap_alloc::reaches_free_pages;
use crate::memory::allocators::palloc::{PageAllocator, PAGE_COUNT};
use crate::memory::page_table::PageTable;
use crate::memory::pages::{
    clear_range, fresh_pages, in_run, law_fresh_pages, map_anonymous_pages, replace_dax_with_private, unmap_run,
};
use crate::memory::vma::{
    index_of_holder, law_found_range_is_free, law_found_range_is_highest, law_remove_overlapping, Vma, VmaTable,
};

verus! {

proof fn lemma_holder(s: Seq<Vma>, addr: int, from: int)
    requires
        0 <= from,
    ensures
        match index_of_holder(s, addr, from) {
            Some(i) => from <= i < s.len() && s[i].start.0 <= addr < s[i].end.0,
            None => forall|k: int| from <= k < s.len() ==> !((#[trigger] s[k]).start.0 <= addr < s[k].end.0),
        },
    decreases s.len() - from,
{
    if from < s.len() && !s[from].holds(addr) {
        lemma_holder(s, addr, from + 1);
    }
}

/// A mapping that is found holds the address; if none is found, none holds it.
pub proof fn law_found_mapping_holds_the_address<'a>(t: &'a VmaTable, addr: VirtualAddr, r: Option<&'a Vma>)
    requires
        call_ensures(VmaTable::find, (t, addr), r),
    ensures
        r matches Some(v) ==> t@.contains(*v) && v.start.0 <= addr.0 < v.end.0,
        r is None ==> forall|k: int| 0 <= k < t@.len() ==> !((#[trigger] t@[k]).start.0 <= addr.0 < t@[k].end.0),
{
    lemma_holder(t@, addr.0 as int, 0);
}

/// A free range lies below the limit, touches no mapping, starts at a multiple of the alignment, and is the highest such range; if
/// none is found, there is none.
pub proof fn law_free_range_is_the_highest(t: &VmaTable, high: VirtualAddr, len: u64, align: u64, r: Option<VirtualAddr>, other: int)
    requires
        call_ensures(VmaTable::find_free_downward_aligned, (t, high, len, align), r),
        0 < len,
        0 < align,
    ensures
        r matches Some(a) ==> a.0 + len <= high.0 && a.0 % align == 0 && forall|k: int|
            0 <= k < t@.len() ==> (#[trigger] t@[k]).end.0 <= a.0 || a.0 + len <= t@[k].start.0,
        0 <= other && other + len <= high.0 && other % align as int == 0 && (forall|k: int|
            0 <= k < t@.len() ==> (#[trigger] t@[k]).end.0 <= other || other + len <= t@[k].start.0) ==> (r matches Some(a) && other <= a.0),
{
    law_found_range_is_free(t@, high.0 as int, len as int, align as int);
    if 0 <= other && other + len <= high.0 && other % align as int == 0 && (forall|k: int|
        0 <= k < t@.len() ==> (#[trigger] t@[k]).end.0 <= other || other + len <= t@[k].start.0) {
        law_found_range_is_highest(t@, high.0 as int, len as int, align as int, other);
    }
}

/// The mappings that share an address with a range are taken out, and no others; none is lost.
pub proof fn law_overlapping_mappings_leave(t: &mut VmaTable, start: VirtualAddr, end: VirtualAddr, r: Vec<Vma>)
    requires
        call_ensures(VmaTable::remove_overlapping, (t, start, end), r),
    ensures
        forall|k: int| 0 <= k < r@.len() ==> start.0 < (#[trigger] r@[k]).end.0 && r@[k].start.0 < end.0,
        forall|k: int| 0 <= k < final(t)@.len() ==> !(start.0 < (#[trigger] final(t)@[k]).end.0 && final(t)@[k].start.0 < end.0),
        (r@ + final(t)@).to_multiset() == old(t)@.to_multiset(),
{
    law_remove_overlapping(old(t)@, start.0 as int, end.0 as int, 0);
}

/// The pages of a range are no longer mapped; all others are as they were.
pub proof fn law_unmapped_pages_are_gone<P: PageTable>(palloc: &mut PageAllocator, pt: &mut P, start: u64, n: u64, v: u64)
    requires
        call_ensures(unmap_run::<P>, (palloc, pt, start, n), ()),
        start % 0x20_0000 == 0,
        v % 0x20_0000 == 0,
    ensures
        start <= v < start + n * 0x20_0000 ==> !final(pt).mappings().contains_key(v),
        !(start <= v < start + n * 0x20_0000) ==> (final(pt).mappings().contains_key(v) <==> old(pt).mappings().contains_key(v))
            && (old(pt).mappings().contains_key(v) ==> final(pt).mappings()[v] == old(pt).mappings()[v]),
{
    if start <= v < start + n * 0x20_0000 {
        assert((v - start) % 0x20_0000 == 0);
        assert(in_run(v, start as int, n as int));
    } else {
        assert(!in_run(v, start as int, n as int));
    }
}

/// Each page of a new range leads to a page of its own that was free, is in use now, and holds zeros.
pub proof fn law_new_pages_are_zero_and_apart<M: Memory, P: PageTable>(
    palloc: &mut PageAllocator,
    pt: &mut P,
    dm: &mut M,
    vaddr: u64,
    pages: u64,
    r: Result<(), i64>,
    i: int,
    j: int,
)
    requires
        call_ensures(map_anonymous_pages::<M, P>, (palloc, pt, dm, vaddr, pages), r),
        old(palloc).wf(),
        vaddr % 0x20_0000 == 0,
        vaddr + pages * 0x20_0000 <= u64::MAX,
        0 <= i < pages,
        0 <= j < pages,
        i != j,
        r is Ok,
    ensures
        ({
            let at = (vaddr + i * 0x20_0000) as u64;
            let other = (vaddr + j * 0x20_0000) as u64;
            let m = final(pt).mappings();
            let page = m[at].paddr as int / 0x20_0000;
            &&& !old(pt).mappings().contains_key(at)
            &&& m.contains_key(at) && m[at].present && m[at].paddr % 0x20_0000 == 0
            &&& m[at].paddr != m[other].paddr
            &&& !old(palloc)@[page] && final(palloc)@[page]
            &&& forall|k: int|
                0 <= k < 0x20_0000 && within(old(dm), m[at].paddr + k, 1) ==> #[trigger] byte_at(final(dm), m[at].paddr + k) == 0
        }),
{
    let u = old(palloc)@;
    let fresh = fresh_pages(u, pages as int);
    old(palloc).lemma_page_count();
    law_fresh_pages(u, pages as int);
    let at = (vaddr + i * 0x20_0000) as u64;
    let other = (vaddr + j * 0x20_0000) as u64;
    assert(vaddr + i * 0x20_0000 <= u64::MAX && vaddr + j * 0x20_0000 <= u64::MAX);
    assert(at == vaddr + i * 0x20_0000 && other == vaddr + j * 0x20_0000);
    assert((at - vaddr) / 0x20_0000 == i && (at - vaddr) % 0x20_0000 == 0);
    assert((other - vaddr) / 0x20_0000 == j && (other - vaddr) % 0x20_0000 == 0);
    assert(in_run(at, vaddr as int, pages as int) && in_run(other, vaddr as int, pages as int));
    assert(fresh[i] != fresh[j]);
    assert(0 <= fresh[i] < PAGE_COUNT && 0 <= fresh[j] < PAGE_COUNT);
    let m = final(pt).mappings();
    assert(m[at].paddr == fresh[i] * 0x20_0000);
    assert(m[other].paddr == fresh[j] * 0x20_0000);
    assert(fresh.contains(fresh[i]));
    assert forall|k: int| 0 <= k < 0x20_0000 && within(old(dm), m[at].paddr + k, 1) implies #[trigger] byte_at(final(dm), m[at].paddr + k)
        == 0 by {
        assert((m[at].paddr + k) / 0x20_0000 == fresh[i]);
        assert(crate::memory::access::byte(final(dm), m[at].paddr + k) == 0);
    }
}

/// A page that is copied out of the direct-access window leads to a page of its own, with the bytes that the window shows.
pub proof fn law_private_copy_holds_the_bytes<M: Memory, P: PageTable>(
    palloc: &mut PageAllocator,
    pt: &mut P,
    dm: &mut M,
    va: u64,
    dax_paddr: PhysicalAddr,
    r: Result<(), i64>,
    k: int,
)
    requires
        call_ensures(replace_dax_with_private::<M, P>, (palloc, pt, dm, va, dax_paddr), r),
        old(palloc).wf(),
        r is Ok,
        within(old(dm), dax_paddr.0 as int, 0x20_0000),
        reaches_free_pages(old(dm), old(palloc)@),
        0 <= k < 0x20_0000,
    ensures
        ({
            let m = final(pt).mappings();
            &&& m.contains_key(va) && m[va].present
            &&& !old(palloc)@[m[va].paddr as int / 0x20_0000] && final(palloc)@[m[va].paddr as int / 0x20_0000]
            &&& byte_at(final(dm), m[va].paddr + k) == byte_at(old(dm), dax_paddr.0 + k)
            &&& forall|v: u64| v != va ==> (#[trigger] m.contains_key(v) <==> old(pt).mappings().contains_key(v)) && m[v] == old(pt).mappings()[v]
        }),
{
    let u = old(palloc)@;
    crate::memory::allocators::palloc::lemma_lowest_run_is_free(u, 1);
    let p = crate::memory::allocators::palloc::lowest_run(u, 1)->0;
    assert(!u[p]);
    old(palloc).lemma_page_count();
    assert(final(pt).mappings()[va].paddr == p * 0x20_0000);
    assert(crate::memory::access::range(old(dm), dax_paddr.0 as int, 0x20_0000)[k] == old(dm).bytes()[dax_paddr.0 + k - old(dm).base()]);
    assert(final(dm).bytes()[p * 0x20_0000 + k - final(dm).base()] == crate::memory::access::range(old(dm), dax_paddr.0 as int, 0x20_0000)[k]);
}

/// The bytes of a range that is cleared are zero behind the mappings.
pub proof fn law_cleared_range_is_zero<M: Memory, P: PageTable>(pt: &P, dm: &mut M, lo: u64, hi: u64, a: int)
    requires
        call_ensures(clear_range::<M, P>, (pt, dm, lo, hi), ()),
        lo <= a < hi,
    ensures
        byte_at(final(dm), pt.mappings()[(a - a % 0x20_0000) as u64].paddr + a % 0x20_0000) == 0,
{
    assert(crate::memory::access::byte(final(dm), crate::memory::pages::phys(pt.mappings(), a)) == 0);
}

} // verus!
