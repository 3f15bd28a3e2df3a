//! Small mappings, several to a page.

use vstd::prelude::*;

use super::words::byte_at;
use crate::address::VirtualAddr;
use crate::bits::law_round_up;
use crate::memory::access::{within, Memory};
use crate::memory::allocators::mmap_alloc::{
    arena_with_run, highest_run, lemma_arena_with_run, lemma_highest_run_is_free, reaches_arenas, zeros, Arena, MmapArena, UserMmapAllocator,
};
use crate::memory::allocators::palloc::{free_run, lemma_lowest_run_is_free, lowest_run, PageAllocator};
use crate::memory::errors::MemoryError;
use crate::memory::page_table::PageTable;
use crate::memory::vma::VmaTable;

verus! {

/// Of `used`, none of the `n` from `s` on.
pub open spec fn none_of(used: Seq<bool>, s: int, n: int) -> bool {
    0 <= s && s + n <= used.len() && forall|k: int| s <= k < s + n ==> !#[trigger] used[k]
}

/// The two differ in the `n` from `s` on, which `b` has all, and `a` none of.
pub open spec fn came_into_use(a: Seq<bool>, b: Seq<bool>, s: int, n: int) -> bool {
    &&& none_of(a, s, n)
    &&& b.len() == a.len()
    &&& forall|k: int| 0 <= k < a.len() ==> #[trigger] b[k] == (a[k] || s <= k < s + n)
}

/// Frames that a page gives out were free and lie next to each other, as high as possible; it gives none out only if there are no
/// such frames.
pub proof fn law_frames_given_out_were_free(arena: &mut MmapArena, frames: u64, r: Option<VirtualAddr>)
    requires
        call_ensures(MmapArena::allocate, (arena, frames), r),
        frames > 0,
    ensures
        ({
            let a = old(arena)@;
            let b = final(arena)@;
            &&& b.vaddr == a.vaddr && b.paddr == a.paddr
            &&& r matches Some(v) ==> {
                let s = (v.0 - a.vaddr) / 4096;
                &&& v.0 == a.vaddr + s * 4096
                &&& came_into_use(a.used, b.used, s, frames as int)
                &&& forall|t: int| t > s ==> !#[trigger] none_of(a.used, t, frames as int)
            }
            &&& r is None ==> b == a
        }),
{
    let a = old(arena)@;
    lemma_highest_run_is_free(a.used, frames as int);
    if let Some(s) = highest_run(a.used, frames as int) {
        assert forall|t: int| t > s implies !#[trigger] none_of(a.used, t, frames as int) by {
            assert(!free_run(a.used, t, frames as int));
        }
    }
}

/// Frames that are given back are free, and no others change.
pub proof fn law_frames_given_back_are_free(arena: &mut MmapArena, vaddr: VirtualAddr, frames: u64)
    requires
        call_ensures(MmapArena::free, (arena, vaddr, frames), ()),
    ensures
        ({
            let a = old(arena)@;
            let b = final(arena)@;
            let s = (vaddr.0 - a.vaddr) / 4096;
            &&& b.vaddr == a.vaddr && b.paddr == a.paddr && b.used.len() == a.used.len()
            &&& forall|k: int| 0 <= k < a.used.len() ==> #[trigger] b.used[k] == (a.used[k] && !(s <= k < s + frames))
        }),
{
}

/// The small mapping of `size` bytes at `v` lies in arena `k`, in frames that nobody had.
pub open spec fn lies_in(a: Seq<Arena>, b: Seq<Arena>, k: int, v: int, size: int) -> bool {
    let s = (v - b[k].vaddr) / 4096;
    &&& 0 <= k < b.len()
    &&& v == b[k].vaddr + s * 4096
    &&& k < a.len() ==> b.len() == a.len() && b[k].vaddr == a[k].vaddr && b[k].paddr == a[k].paddr && came_into_use(a[k].used, b[k].used, s, size
        / 4096)
    &&& k >= a.len() ==> b.len() == a.len() + 1 && b[k].used.len() == 512 && forall|i: int|
        0 <= i < 512 ==> #[trigger] b[k].used[i] == (s <= i < s + size / 4096)
    &&& forall|j: int| 0 <= j < a.len() && j != k ==> #[trigger] b[j] == a[j]
}

/// A small mapping has as many whole frames as its length asks for; they lie next to each other, nobody had them, and they hold
/// zeros. A new page is taken only if no page has room, and was free.
pub proof fn law_small_mapping_is_new_and_zero<M: Memory, P: PageTable>(
    arenas: &mut UserMmapAllocator,
    len: u64,
    palloc: &mut PageAllocator,
    pt: &mut P,
    vmas: &VmaTable,
    dm: &mut M,
    r: Result<(VirtualAddr, u64), MemoryError>,
)
    requires
        call_ensures(UserMmapAllocator::allocate::<M, P>, (arenas, len, palloc, pt, vmas, dm), r),
        0 < len,
        old(arenas).wf(),
        reaches_arenas(old(dm), old(arenas)@, old(palloc)@),
    ensures
        r matches Ok((v, size)) ==> {
            &&& size % 4096 == 0 && len <= size < len + 4096 && size <= 0x20_0000
            &&& exists|k: int| #[trigger]
                lies_in(old(arenas)@, final(arenas)@, k, v.0 as int, size as int) && (forall|x: int|
                    v.0 <= x < v.0 + size ==> #[trigger] byte_at(final(dm), final(arenas)@[k].paddr + x - final(arenas)@[k].vaddr) == 0) && (k < old(
                    arenas,
                )@.len() ==> final(palloc)@ == old(palloc)@ && final(pt).mappings() == old(pt).mappings()) && (k >= old(arenas)@.len() ==> {
                    let p = final(arenas)@[k].paddr / 0x20_0000;
                    &&& !old(palloc)@[p] && final(palloc)@[p]
                    &&& !old(pt).mappings().contains_key(final(arenas)@[k].vaddr as u64)
                    &&& final(pt).mappings().contains_key(final(arenas)@[k].vaddr as u64)
                    &&& final(pt).mappings()[final(arenas)@[k].vaddr as u64].paddr == final(arenas)@[k].paddr
                })
        },
        r is Err ==> final(arenas)@ == old(arenas)@ && final(palloc)@ == old(palloc)@ && final(pt).mappings() == old(pt).mappings(),
{
    let a = old(arenas)@;
    let b = final(arenas)@;
    law_round_up(len as int, 4096);
    if let Ok((v, size)) = r {
        let n = size as int / 4096;
        old(palloc).lemma_page_count();
        lemma_arena_with_run(a, n, 0);
        match arena_with_run(a, n, 0) {
            Some(k) => {
                let s = highest_run(a[k].used, n)->0;
                lemma_highest_run_is_free(a[k].used, n);
                old(arenas).lemma_placed();
                assert(a[k].used.len() == 512);
                assert(within(old(dm), a[k].paddr, 0x20_0000));
                assert(lies_in(a, b, k, v.0 as int, size as int));
                let z = zeros(size as int);
                assert forall|x: int| v.0 <= x < v.0 + size implies #[trigger] byte_at(final(dm), b[k].paddr + x - b[k].vaddr) == 0 by {
                    assert(z[x - v.0] == 0);
                    assert(b[k].paddr + x - b[k].vaddr == a[k].paddr + s * 4096 + (x - v.0));
                }
            },
            None => {
                let k = a.len() as int;
                lemma_lowest_run_is_free(old(palloc)@, 1);
                let p = lowest_run(old(palloc)@, 1)->0;
                assert(!old(palloc)@[p]);
                assert(within(old(dm), p * 0x20_0000, 0x20_0000));
                assert(lies_in(a, b, k, v.0 as int, size as int));
                let z = zeros(0x20_0000);
                assert forall|x: int| v.0 <= x < v.0 + size implies #[trigger] byte_at(final(dm), b[k].paddr + x - b[k].vaddr) == 0 by {
                    assert(z[x - b[k].vaddr] == 0);
                }
            },
        }
    }
}

} // verus!
