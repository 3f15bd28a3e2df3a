//! Giving memory back, hiding it, and the heap.

use vstd::prelude::*;

use super::mappings::{all_free, all_mapped, lemma_page};
use super::transfers::nowhere;
use crate::bits::{law_round_down, law_round_up, lemma_page_sizes, round_down, round_up};
use crate::fs::client::{since, Fs, FsEvent, FuseClient};
use crate::layout::{BASE_PAGE_SIZE, DIRECT_MAP_OFFSET, PAGE_SIZE};
use crate::memory::access::{Memory};
use crate::memory::page_table::{PageEntry, PageTable};
use crate::memory::pages::{fresh_pages, in_run, law_fresh_pages, without_run};
use crate::memory::space::{tear_down_trace, vma_sound, Space, UserSpace};
use crate::memory::vma::{index_of_holder, index_of_start, swap_removed, MappingBacking, Vma};
use crate::syscall::args::{SyscallArgs, SyscallResult};
use crate::syscall::handlers::memory::{flushed, munmap, pages_unmapped, run_available, sys_brk, sys_mprotect, sys_munmap, vma_dropped};

verus! {

/// Every page whose address is not in the range is mapped as it was.
pub open spec fn same_outside(a: Map<u64, PageEntry>, b: Map<u64, PageEntry>, lo: int, hi: int) -> bool {
    forall|v: u64|
        #![trigger b.contains_key(v)]
        #![trigger b[v]]
        !(lo <= v < hi) ==> (b.contains_key(v) <==> a.contains_key(v)) && (a.contains_key(v) ==> b[v] == a[v])
}

/// No two mappings share an address.
pub open spec fn apart(s: Seq<Vma>) -> bool {
    forall|i: int, j: int| 0 <= i < j < s.len() ==> (#[trigger] s[i]).end.0 <= (#[trigger] s[j]).start.0 || s[j].end.0 <= s[i].start.0
}

/// All mappings but the one at `i` are left, and that one is not.
pub open spec fn all_but(a: Seq<Vma>, b: Seq<Vma>, i: int) -> bool {
    &&& b.len() == a.len() - 1
    &&& forall|k: int| 0 <= k < a.len() && k != i ==> b.contains(#[trigger] a[k])
    &&& !b.contains(a[i])
}

/// The page that holds `a`.
pub open spec fn page_start(a: int) -> int {
    a - a % (PAGE_SIZE as int)
}

/// The end of the pages that reach to `a`.
pub open spec fn page_end(a: int) -> int {
    page_start(a + PAGE_SIZE - 1)
}

proof fn lemma_ends(a: int)
    requires
        0 <= a,
    ensures
        page_end(a) == round_up(a, PAGE_SIZE as int),
        page_start(a) == round_down(a, PAGE_SIZE as int),
        a <= page_end(a),
        page_start(a) <= a,
        page_end(a) % PAGE_SIZE as int == 0,
        page_start(a) % PAGE_SIZE as int == 0,
        0 <= page_start(a),
{
    law_round_up(a, PAGE_SIZE as int);
    law_round_down(a, PAGE_SIZE as int);
}

proof fn lemma_gone(m: Map<u64, PageEntry>, lo: int, n: int)
    requires
        0 <= lo,
        0 <= n,
        lo % PAGE_SIZE as int == 0,
        lo + n * PAGE_SIZE <= u64::MAX,
    ensures
        forall|a: int| lo <= a < lo + n * PAGE_SIZE && a < DIRECT_MAP_OFFSET ==> #[trigger] nowhere(without_run(m, lo, n), a),
        forall|v: u64|
            #![trigger without_run(m, lo, n).contains_key(v)]
            !in_run(v, lo, n) ==> (without_run(m, lo, n).contains_key(v) <==> m.contains_key(v)),
        same_outside(m, without_run(m, lo, n), lo, lo + n * PAGE_SIZE),
{
    reveal(nowhere);
    assert forall|a: int| lo <= a < lo + n * PAGE_SIZE && a < DIRECT_MAP_OFFSET implies #[trigger] nowhere(without_run(m, lo, n), a) by {
        lemma_page(a, lo, n);
    }
}

proof fn lemma_holder(s: Seq<Vma>, addr: int, from: int)
    requires
        0 <= from,
    ensures
        match index_of_holder(s, addr, from) {
            Some(i) => from <= i < s.len() && s[i].holds(addr),
            None => forall|k: int| from <= k < s.len() ==> !(#[trigger] s[k]).holds(addr),
        },
    decreases s.len() - from,
{
    if from < s.len() && !s[from].holds(addr) {
        lemma_holder(s, addr, from + 1);
    }
}

proof fn lemma_start(s: Seq<Vma>, i: int, from: int)
    requires
        0 <= from <= i < s.len(),
        apart(s),
        forall|k: int| 0 <= k < s.len() ==> (#[trigger] s[k]).start.0 < s[k].end.0,
    ensures
        index_of_start(s, s[i].start.0, from) == Some(i),
    decreases i - from,
{
    if from < i {
        assert(s[from].start.0 < s[from].end.0 && s[i].start.0 < s[i].end.0);
        lemma_start(s, i, from + 1);
    }
}

proof fn lemma_swap_removed(s: Seq<Vma>, i: int)
    requires
        0 <= i < s.len(),
        apart(s),
        forall|k: int| 0 <= k < s.len() ==> (#[trigger] s[k]).start.0 < s[k].end.0,
    ensures
        all_but(s, swap_removed(s, i), i),
{
    let b = swap_removed(s, i);
    assert forall|k: int| 0 <= k < s.len() && k != i implies b.contains(#[trigger] s[k]) by {
        if k < s.len() - 1 {
            assert(b[k] == s[k]);
        } else {
            assert(b[i] == s[k]);
        }
    }
    if b.contains(s[i]) {
        let k = choose|k: int| 0 <= k < b.len() && b[k] == s[i];
        let j = if k == i { s.len() - 1 } else { k };
        assert(s[j] == s[i] && j != i);
        assert(s[j].start.0 < s[j].end.0);
        if i < j {
            assert(s[i].end.0 <= s[j].start.0 || s[j].end.0 <= s[i].start.0);
        } else {
            assert(s[j].end.0 <= s[i].start.0 || s[i].end.0 <= s[j].start.0);
        }
    }
}

/// The pages of the range are gone, and nothing else.
pub open spec fn pages_gone(a: Space, b: Space, t: Seq<FsEvent>, addr: int, len: int) -> bool {
    &&& b.vmas == a.vmas
    &&& t.len() == 0
    &&& all_free(b.mappings, addr, len)
    &&& same_outside(a.mappings, b.mappings, page_start(addr), page_end(addr + len))
}

/// The mapping at `k` is gone with all its pages, and nothing else. If it was shared with the host, the host was told.
pub open spec fn mapping_gone(a: Space, b: Space, t: Seq<FsEvent>, k: int) -> bool {
    let v = a.vmas[k];
    &&& all_but(a.vmas, b.vmas, k)
    &&& v.backing != MappingBacking::AnonymousSmall && v.end.0 <= DIRECT_MAP_OFFSET ==> all_free(
        b.mappings,
        v.start.0 as int,
        v.end.0 - v.start.0,
    ) && same_outside(a.mappings, b.mappings, v.start.0 as int, v.end.0 as int)
    &&& match v.backing {
        MappingBacking::Dax { dax_offset, .. } => t.len() == 1 && (t[0] matches FsEvent::RemoveMapping { dax_offset: d, len, .. } && d
            == dax_offset && len == v.end.0 - v.start.0),
        _ => t.len() == 0,
    }
}

proof fn lemma_pages_gone(a: Space, t: Seq<FsEvent>, addr: int, len: int)
    requires
        0 <= addr,
        0 <= len,
        addr + len + PAGE_SIZE <= DIRECT_MAP_OFFSET,
        t.len() == 0,
    ensures
        pages_gone(a, flushed(pages_unmapped(a, page_start(addr), page_end(addr + len))), t, addr, len),
{
    lemma_ends(addr);
    lemma_ends(addr + len);
    let lo = page_start(addr);
    let hi = page_end(addr + len);
    let n = (hi - lo) / PAGE_SIZE as int;
    assert(n * PAGE_SIZE == hi - lo);
    lemma_gone(a.mappings, lo, n);
}

proof fn lemma_mapping_gone(a: Space, t: Seq<FsEvent>, k: int)
    requires
        0 <= k < a.vmas.len(),
        apart(a.vmas),
        forall|i: int| 0 <= i < a.vmas.len() ==> (#[trigger] a.vmas[i]).start.0 < a.vmas[i].end.0,
        vma_sound(a.vmas[k]),
        tear_down_trace(t, a.vmas[k]),
        a.vmas[k].backing != MappingBacking::AnonymousSmall,
    ensures
        vma_dropped(a, a.vmas[k].start.0).1 == Some(a.vmas[k]),
        mapping_gone(a, flushed(vma_dropped(a, a.vmas[k].start.0).0), t, k),
{
    let v = a.vmas[k];
    lemma_start(a.vmas, k, 0);
    lemma_swap_removed(a.vmas, k);
    let m = (v.end.0 - v.start.0) / PAGE_SIZE as int;
    assert(m * PAGE_SIZE == v.end.0 - v.start.0);
    lemma_gone(a.mappings, v.start.0 as int, m);
}

/// Unmapping a range of pages. If it covers the mapping that it begins in, that mapping goes, with all its pages; if that was
/// shared with the host, the host is told, and of nothing else. If it covers no more than a part of a mapping, or begins in none,
/// the pages of the range go. Nothing else changes: no other page and no other mapping.
pub proof fn law_unmapped_is_gone<C: FuseClient, P: PageTable>(
    args: &SyscallArgs,
    space: &mut UserSpace<P>,
    fs: &mut Fs<C>,
    r: SyscallResult,
)
    requires
        call_ensures(sys_munmap::<C, P>, (args, space, fs), r),
        old(space).sound(),
        apart(old(space)@.vmas),
        args.arg0 + args.arg1 + PAGE_SIZE <= DIRECT_MAP_OFFSET,
        forall|k: int|
            0 <= k < old(space)@.vmas.len() && (#[trigger] old(space)@.vmas[k]).backing == MappingBacking::AnonymousSmall ==> !old(
                space,
            )@.vmas[k].holds(args.arg0 - args.arg0 % BASE_PAGE_SIZE) && !old(space)@.vmas[k].holds(page_start(args.arg0 as int)),
    ensures
        ({
            let a = old(space)@;
            let b = final(space)@;
            let t = since(old(fs).log(), final(fs).log());
            let lo = page_start(args.arg0 as int);
            let hi = page_end(args.arg0 + args.arg1);
            &&& r == 0
            &&& (forall|k: int| 0 <= k < a.vmas.len() ==> !(#[trigger] a.vmas[k]).holds(lo)) ==> pages_gone(
                a,
                b,
                t,
                args.arg0 as int,
                args.arg1 as int,
            )
            &&& forall|k: int|
                0 <= k < a.vmas.len() && (#[trigger] a.vmas[k]).holds(lo) ==> if lo <= a.vmas[k].start.0 && a.vmas[k].end.0 <= hi {
                    mapping_gone(a, b, t, k)
                } else {
                    pages_gone(a, b, t, args.arg0 as int, args.arg1 as int)
                }
        }),
{
    lemma_unmapped(
        old(space)@,
        args.arg0,
        args.arg1,
        since(old(fs).log(), final(fs).log()),
    );
}

proof fn lemma_unmapped(a: Space, addr: u64, len: u64, t: Seq<FsEvent>)
    requires
        apart(a.vmas),
        addr + len + PAGE_SIZE <= DIRECT_MAP_OFFSET,
        forall|k: int| 0 <= k < a.vmas.len() ==> vma_sound(#[trigger] a.vmas[k]),
        forall|k: int|
            0 <= k < a.vmas.len() && (#[trigger] a.vmas[k]).backing == MappingBacking::AnonymousSmall ==> !a.vmas[k].holds(
                addr - addr % BASE_PAGE_SIZE,
            ) && !a.vmas[k].holds(page_start(addr as int)),
        munmap(a, addr, len).2 matches Some(v) ==> tear_down_trace(t, v),
        munmap(a, addr, len).2 is None ==> t.len() == 0,
    ensures
        ({
            let b = munmap(a, addr, len).1;
            let lo = page_start(addr as int);
            let hi = page_end(addr + len);
            &&& munmap(a, addr, len).0 == 0
            &&& (forall|k: int| 0 <= k < a.vmas.len() ==> !(#[trigger] a.vmas[k]).holds(lo)) ==> pages_gone(
                a,
                b,
                t,
                addr as int,
                len as int,
            )
            &&& forall|k: int|
                0 <= k < a.vmas.len() && (#[trigger] a.vmas[k]).holds(lo) ==> if lo <= a.vmas[k].start.0 && a.vmas[k].end.0 <= hi {
                    mapping_gone(a, b, t, k)
                } else {
                    pages_gone(a, b, t, addr as int, len as int)
                }
        }),
{
    let end = addr + len;
    let lo = page_start(addr as int);
    let hi = page_end(end);
    lemma_page_sizes();
    lemma_ends(addr as int);
    lemma_ends(end);
    lemma_holder(a.vmas, addr - addr % BASE_PAGE_SIZE, 0);
    lemma_holder(a.vmas, lo, 0);
    match index_of_holder(a.vmas, lo, 0) {
        Some(i) => {
            assert forall|k: int| 0 <= k < a.vmas.len() && (#[trigger] a.vmas[k]).holds(lo) implies k == i by {
                if k < i {
                    assert(a.vmas[k].end.0 <= a.vmas[i].start.0 || a.vmas[i].end.0 <= a.vmas[k].start.0);
                } else if i < k {
                    assert(a.vmas[i].end.0 <= a.vmas[k].start.0 || a.vmas[k].end.0 <= a.vmas[i].start.0);
                }
            }
            if lo <= a.vmas[i].start.0 && a.vmas[i].end.0 <= hi {
                lemma_start(a.vmas, i, 0);
                lemma_mapping_gone(a, t, i);
            } else {
                lemma_pages_gone(a, t, addr as int, len as int);
            }
        },
        None => {
            lemma_pages_gone(a, t, addr as int, len as int);
        },
    }
}

/// Protecting a range: if all access is taken away, its addresses lead nowhere; else every page of it that there is leads where
/// it led. No page outside of the pages of the range changes, and no page comes or goes.
pub proof fn law_protection_hides_or_shows<P: PageTable>(args: &SyscallArgs, space: &mut UserSpace<P>, r: SyscallResult)
    requires
        call_ensures(sys_mprotect::<P>, (args, space), r),
        args.arg1 > 0,
        args.arg0 + args.arg1 + PAGE_SIZE <= DIRECT_MAP_OFFSET,
        crate::memory::allocators::mmap_alloc::arena_holding(
            old(space)@.arenas,
            args.arg0 - args.arg0 % BASE_PAGE_SIZE,
            0,
        ) is None,
    ensures
        ({
            let a = old(space)@;
            let b = final(space)@;
            &&& r == 0
            &&& b.vmas == a.vmas && b.used == a.used
            &&& same_outside(a.mappings, b.mappings, page_start(args.arg0 as int), page_end(args.arg0 + args.arg1))
            &&& forall|v: u64| #[trigger] b.mappings.contains_key(v) <==> a.mappings.contains_key(v)
            &&& forall|v: u64| #![trigger b.mappings[v]] a.mappings.contains_key(v) ==> b.mappings[v].paddr == a.mappings[v].paddr
            &&& args.arg2 as i32 == 0 ==> all_free(b.mappings, args.arg0 as int, args.arg1 as int)
            &&& args.arg2 as i32 != 0 ==> forall|x: int|
                args.arg0 <= x < args.arg0 + args.arg1 && a.mappings.contains_key(page_start(x) as u64) ==> !#[trigger] nowhere(
                    b.mappings,
                    x,
                )
        }),
{
    reveal(nowhere);
    let a = old(space)@;
    let b = final(space)@;
    let addr = args.arg0 as int;
    let end = args.arg0 + args.arg1;
    lemma_page_sizes();
    lemma_ends(addr);
    lemma_ends(end);
    let lo = page_start(addr);
    let n = (page_end(end) - lo) / PAGE_SIZE as int;
    assert(n * PAGE_SIZE == page_end(end) - lo);
    assert forall|x: int| addr <= x < end implies in_run(#[trigger] page_start(x) as u64, lo, n) by {
        lemma_page(x, lo, n);
    }
    assert forall|x: int| addr <= x < end && args.arg2 as i32 == 0 implies #[trigger] nowhere(b.mappings, x) by {
        assert(in_run(page_start(x) as u64, lo, n));
    }
    assert forall|x: int| addr <= x < end && args.arg2 as i32 != 0 && a.mappings.contains_key(page_start(x) as u64) implies !#[trigger] nowhere(
        b.mappings,
        x,
    ) by {
        assert(in_run(page_start(x) as u64, lo, n));
    }
}

/// The end of the heap is what the call says it is: the one asked for, or the old one if it cannot be had. A heap that grows
/// gets pages that were free, up to its new end; one that shrinks loses the pages past its new end; and all other pages stay.
pub proof fn law_heap_reaches_to_its_end<M: Memory, P: PageTable>(
    args: &SyscallArgs,
    space: &mut UserSpace<P>,
    dm: &mut M,
    r: SyscallResult,
)
    requires
        call_ensures(sys_brk::<M, P>, (args, space, dm), r),
        old(space).sound(),
        old(space)@.brk_base <= old(space)@.brk_current,
        old(space)@.brk_current + PAGE_SIZE <= DIRECT_MAP_OFFSET,
        old(space)@.brk_current <= i64::MAX,
        args.arg0 + PAGE_SIZE <= DIRECT_MAP_OFFSET,
        args.arg0 <= i64::MAX,
    ensures
        ({
            let a = old(space)@;
            let b = final(space)@;
            let was = page_end(a.brk_current as int);
            let is = page_end(b.brk_current as int);
            &&& r == b.brk_current
            &&& b.brk_current == args.arg0 || b.brk_current == a.brk_current
            &&& args.arg0 < a.brk_base || args.arg0 == 0 ==> b == a
            &&& a.brk_base <= args.arg0 <= a.brk_current && args.arg0 != 0 ==> b.brk_current == args.arg0
            &&& b.brk_base == a.brk_base && b.vmas == a.vmas
            &&& was <= is ==> all_free(a.mappings, was, is - was) && all_mapped(b.mappings, was, is - was) && same_outside(
                a.mappings,
                b.mappings,
                was,
                is,
            )
            &&& is < was ==> all_free(b.mappings, is, was - is) && same_outside(a.mappings, b.mappings, is, was)
        }),
{
    let a = old(space)@;
    let b = final(space)@;
    lemma_page_sizes();
    lemma_ends(a.brk_current as int);
    lemma_ends(args.arg0 as int);
    let was = page_end(a.brk_current as int);
    let new = page_end(args.arg0 as int);
    let n = (new - was) / PAGE_SIZE as int;
    old(space).palloc.lemma_page_count();
    if args.arg0 != 0 && args.arg0 >= a.brk_base {
        if new > was {
            assert(n * PAGE_SIZE == new - was);
            if run_available(a, was, n) {
                law_fresh_pages(a.used, n);
                super::mappings::lemma_fresh_run(a.mappings, was, fresh_pages(a.used, n));
            }
        } else {
            let k = (was - new) / PAGE_SIZE as int;
            assert(k * PAGE_SIZE == was - new);
            lemma_gone(a.mappings, new, k);
        }
    }
}

} // verus!
