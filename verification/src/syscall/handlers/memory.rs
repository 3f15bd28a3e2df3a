//! System calls on the user's address space.

use vstd::prelude::*;

use crate::address::VirtualAddr;
use crate::bits::{align_down, align_up, law_round_down, law_round_up, round_down, round_up};
use crate::fs::client::{extends, since, Fs, FuseClient};
use crate::layout::{BASE_PAGE_SIZE, PAGE_SIZE};
use crate::memory::access::{same_window, within, Memory};
use crate::memory::allocators::mmap_alloc::{arena_holding, reaches_arenas};
use crate::memory::allocators::palloc::{count_used, PAGE_COUNT};
use crate::memory::page_table::{page_of, PageEntry, PageTable};
use crate::memory::pages::{
    fresh_pages, given_back, in_run, keeps_used_pages, law_fresh_pages, law_give_back_undoes_map,
    law_unmap_undoes_map, lemma_same_reach, lemma_taken_keeps, lemma_zeroed_keeps, map_anonymous_pages,
    mappings_sound, peak_with, reaches_mapped, taken_pages, unmap_run, with_run, with_used, without_run, zeroed,
};
use crate::memory::space::{
    law_give_back_keeps_reach, lemma_removed_sound, lemma_torn_down_sound, rolled_back, tear_down_trace, torn_down,
    vma_sound, Space, UserSpace,
};
use crate::memory::vma::{index_of_holder, index_of_start, swap_removed, MappingBacking, Vma};
use crate::syscall::args::{SyscallArgs, SyscallResult};
use crate::syscall::errno::{EINVAL, ENOSYS};

verus! {

broadcast use crate::fs::client::group_log;

/// The space without the pages of `lo .. hi`, which are page boundaries.
pub open spec fn pages_unmapped(s: Space, lo: int, hi: int) -> Space {
    let n = (hi - lo) / PAGE_SIZE as int;
    Space { mappings: without_run(s.mappings, lo, n), used: given_back(s.used, s.mappings, lo, n), ..s }
}

/// The space without the first mapping that starts at `start`; and that mapping.
pub open spec fn vma_dropped(s: Space, start: u64) -> (Space, Option<Vma>) {
    match index_of_start(s.vmas, start, 0) {
        None => (s, None),
        Some(j) => (torn_down(Space { vmas: swap_removed(s.vmas, j), ..s }, s.vmas[j]), Some(s.vmas[j])),
    }
}

/// The counter that makes processors reload, raised.
pub open spec fn flushed(s: Space) -> Space {
    Space {
        tlb_generation: if s.tlb_generation == u64::MAX { 0 } else { (s.tlb_generation + 1) as u64 },
        ..s
    }
}

/// The outcome of unmapping `len` bytes from `addr` on: the result, the space, and the mapping
/// that was torn down, if one was.
///
/// A request that covers the mapping at its start removes it; one that covers only some of it
/// unmaps the pages it names and leaves the mapping in the table. Of a small mapping, nothing
/// less than all of it can be given back.
pub open spec fn munmap(s: Space, addr: u64, len: u64) -> (SyscallResult, Space, Option<Vma>) {
    let end = addr + len;
    let small_start = round_down(addr as int, BASE_PAGE_SIZE as int);
    let small_end = round_up(end, BASE_PAGE_SIZE as int);
    let start = round_down(addr as int, PAGE_SIZE as int);
    let page_end = round_up(end, PAGE_SIZE as int);
    let small = match index_of_holder(s.vmas, small_start, 0) {
        Some(i) => if s.vmas[i].backing == MappingBacking::AnonymousSmall { Some(s.vmas[i]) } else { None },
        None => None,
    };
    if end + BASE_PAGE_SIZE - 1 > u64::MAX {
        (EINVAL, s, None)
    } else {
        match small {
            Some(v) => if small_start <= v.start.0 && v.end.0 <= small_end {
                let (t, dropped) = vma_dropped(s, v.start.0);
                (0, flushed(t), dropped)
            } else {
                (0, flushed(s), None)
            },
            None => if end + PAGE_SIZE - 1 > u64::MAX {
                (EINVAL, s, None)
            } else {
                match index_of_holder(s.vmas, start, 0) {
                    Some(i) => if start <= s.vmas[i].start.0 && s.vmas[i].end.0 <= page_end {
                        let (t, dropped) = vma_dropped(s, s.vmas[i].start.0);
                        (0, flushed(t), dropped)
                    } else {
                        (0, flushed(pages_unmapped(s, start, page_end)), None)
                    },
                    None => (0, flushed(pages_unmapped(s, start, page_end)), None),
                }
            },
        }
    }
}

proof fn lemma_start_index(s: Seq<Vma>, start: u64, from: int)
    requires
        0 <= from,
    ensures
        index_of_start(s, start, from) matches Some(i) ==> from <= i < s.len() && s[i].start.0 == start,
    decreases s.len() - from,
{
    if from < s.len() && s[from].start.0 != start {
        lemma_start_index(s, start, from + 1);
    }
}

/// Rounding up in the way of adding all but one and rounding down.
proof fn lemma_round_up_down(a: int, m: int)
    requires
        0 <= a,
        m == 0x1000 || m == 0x20_0000,
    ensures
        round_down(a + m - 1, m) == round_up(a, m),
{
    if m == 0x1000 {
        assert(round_down(a + 0x1000 - 1, 0x1000) == round_up(a, 0x1000));
    } else {
        assert(round_down(a + 0x20_0000 - 1, 0x20_0000) == round_up(a, 0x20_0000));
    }
}

impl<P: PageTable> UserSpace<P> {
    fn flush(&mut self)
        requires
            old(self).sound(),
        ensures
            final(self).sound(),
            final(self)@ == flushed(old(self)@),
    {
        self.tlb_generation = self.tlb_generation.wrapping_add(1);
    }

    /// Removes the first mapping that starts at `start`, and tears it down.
    fn drop_vma<C: FuseClient>(&mut self, fs: &mut Fs<C>, start: VirtualAddr)
        requires
            old(self).sound(),
        ensures
            final(self).sound(),
            final(self)@ == vma_dropped(old(self)@, start.0).0,
            extends(old(fs).log(), final(fs).log()),
            match vma_dropped(old(self)@, start.0).1 {
                Some(v) => tear_down_trace(since(old(fs).log(), final(fs).log()), v),
                None => final(fs).log() == old(fs).log(),
            },
    {
        let ghost s = self@;
        proof {
            lemma_start_index(s.vmas, start.0, 0);
            if let Some(j) = index_of_start(s.vmas, start.0, 0) {
                lemma_removed_sound(s.vmas, s.arenas, j);
                assert(vma_sound(s.vmas[j]));
            }
            self.arenas.lemma_placed();
            assert(extends(fs.log(), fs.log()));
        }
        if let Some(vma) = self.vmas.remove(start) {
            let ghost between = self@;
            self.tear_down_vma(fs, vma);
            proof {
                self.arenas.lemma_placed();
                lemma_torn_down_sound(between, vma, between.vmas);
            }
        }
    }

    /// Unmaps the pages of `lo .. hi`, which are page boundaries.
    fn unmap_pages_in_range(&mut self, lo: u64, hi: u64)
        requires
            old(self).sound(),
            lo <= hi,
            lo % PAGE_SIZE == 0,
            hi % PAGE_SIZE == 0,
        ensures
            final(self).sound(),
            final(self)@ == pages_unmapped(old(self)@, lo as int, hi as int),
    {
        unmap_run(&mut self.palloc, &mut self.pt, lo, (hi - lo) / PAGE_SIZE);
    }
}

/// Unmaps `arg1` bytes from `arg0` on.
pub fn sys_munmap<C: FuseClient, P: PageTable>(args: &SyscallArgs, space: &mut UserSpace<P>, fs: &mut Fs<C>) -> (r: SyscallResult)
    requires
        old(space).sound(),
    ensures
        final(space).sound(),
        ({
            let (ret, after, torn) = munmap(old(space)@, args.arg0, args.arg1);
            &&& r == ret
            &&& final(space)@ == after
            &&& extends(old(fs).log(), final(fs).log())
            &&& match torn {
                Some(v) => tear_down_trace(since(old(fs).log(), final(fs).log()), v),
                None => final(fs).log() == old(fs).log(),
            }
        }),
{
    let addr: u64 = args.arg0;
    let len: u64 = args.arg1;
    proof {
        assert(extends(fs.log(), fs.log()));
    }
    let end: u64 = match addr.checked_add(len) {
        Some(e) => e,
        None => {
            return EINVAL;
        },
    };
    let small_start: u64 = align_down(addr, BASE_PAGE_SIZE);
    let small_end: u64 = match end.checked_add(BASE_PAGE_SIZE - 1) {
        Some(v) => align_down(v, BASE_PAGE_SIZE),
        None => {
            return EINVAL;
        },
    };
    proof {
        lemma_round_up_down(end as int, BASE_PAGE_SIZE as int);
    }
    let small_vma: Option<Vma> = match space.vmas.find(VirtualAddr::new(small_start)) {
        Some(vma) => match vma.backing {
            MappingBacking::AnonymousSmall => Some(*vma),
            _ => None,
        },
        None => None,
    };
    if let Some(vma) = small_vma {
        if small_start <= vma.start.as_u64() && small_end >= vma.end.as_u64() {
            space.drop_vma(fs, vma.start);
        }
        space.flush();
        return 0;
    }
    let aligned_start: u64 = align_down(addr, PAGE_SIZE);
    let aligned_end: u64 = match end.checked_add(PAGE_SIZE - 1) {
        Some(v) => align_down(v, PAGE_SIZE),
        None => {
            return EINVAL;
        },
    };
    proof {
        lemma_round_up_down(end as int, PAGE_SIZE as int);
        law_round_down(addr as int, PAGE_SIZE as int);
        law_round_up(end as int, PAGE_SIZE as int);
    }
    let vma_info: Option<Vma> = match space.vmas.find(VirtualAddr::new(aligned_start)) {
        Some(vma) => Some(*vma),
        None => None,
    };
    match vma_info {
        Some(vma) => {
            if aligned_start <= vma.start.as_u64() && aligned_end >= vma.end.as_u64() {
                space.drop_vma(fs, vma.start);
            } else {
                space.unmap_pages_in_range(aligned_start, aligned_end);
            }
        },
        None => {
            space.unmap_pages_in_range(aligned_start, aligned_end);
        },
    }
    space.flush();
    0
}

pub const PROT_NONE: i32 = 0;

/// The mappings with the `n` pages from `start` on made present or hidden; what is not mapped
/// stays so.
pub open spec fn presence_set(m: Map<u64, PageEntry>, start: int, n: int, present: bool) -> Map<u64, PageEntry> {
    Map::new(
        |v: u64| m.contains_key(v),
        |v: u64| if in_run(v, start, n) { PageEntry { paddr: m[v].paddr, present } } else { m[v] },
    )
}

/// The outcome of protecting `len` bytes from `addr` on. Without any access, the pages that the
/// range touches are hidden; with any, they are shown. In an arena, protection is advice.
pub open spec fn mprotect(s: Space, addr: u64, len: u64, prot: i32) -> (SyscallResult, Space) {
    let start = round_down(addr as int, PAGE_SIZE as int);
    let n = (round_up(addr + len, PAGE_SIZE as int) - start) / PAGE_SIZE as int;
    if len == 0 || arena_holding(s.arenas, round_down(addr as int, BASE_PAGE_SIZE as int), 0) is Some {
        (0, s)
    } else if addr + len > u64::MAX {
        (EINVAL, s)
    } else {
        (0, flushed(Space { mappings: presence_set(s.mappings, start, n, prot != PROT_NONE), ..s }))
    }
}

/// Where the end of the range is rounded up to whole pages, that stays within the address space.
pub open spec fn mprotect_in_range(s: Space, addr: u64, len: u64) -> bool {
    ||| len == 0
    ||| arena_holding(s.arenas, round_down(addr as int, BASE_PAGE_SIZE as int), 0) is Some
    ||| addr + len > u64::MAX
    ||| round_up(addr + len, PAGE_SIZE as int) <= u64::MAX
}

/// Sets the protection of `arg1` bytes from `arg0` on to `arg2`.
pub fn sys_mprotect<P: PageTable>(args: &SyscallArgs, space: &mut UserSpace<P>) -> (r: SyscallResult)
    requires
        old(space).sound(),
        mprotect_in_range(old(space)@, args.arg0, args.arg1),
    ensures
        final(space).sound(),
        (r, final(space)@) == mprotect(old(space)@, args.arg0, args.arg1, args.arg2 as i32),
{
    let addr: u64 = args.arg0;
    let len: u64 = args.arg1;
    let prot: i32 = args.arg2 as i32;
    if len == 0 {
        return 0;
    }
    if space.arenas.contains(VirtualAddr::new(align_down(addr, BASE_PAGE_SIZE))) {
        return 0;
    }
    let aligned_start: u64 = align_down(addr, PAGE_SIZE);
    let aligned_end: u64 = match addr.checked_add(len) {
        Some(end) => align_up(end, PAGE_SIZE),
        None => {
            return EINVAL;
        },
    };
    proof {
        lemma_round_up_down(addr + len, PAGE_SIZE as int);
        law_round_down(addr as int, PAGE_SIZE as int);
        law_round_up(addr + len, PAGE_SIZE as int);
    }
    let ghost m = space.pt.mappings();
    let ghost start = aligned_start as int;
    let present: bool = prot != PROT_NONE;
    let mut vaddr: u64 = aligned_start;
    proof {
        assert(presence_set(m, start, 0, present) =~= m);
    }
    while vaddr < aligned_end
        invariant
            space.sound(),
            m == old(space)@.mappings,
            start == aligned_start,
            aligned_start % PAGE_SIZE == 0,
            aligned_end % PAGE_SIZE == 0,
            vaddr % PAGE_SIZE == 0,
            aligned_start <= vaddr <= aligned_end,
            space@ == (Space {
                mappings: presence_set(m, start, (vaddr - start) / PAGE_SIZE as int, present),
                ..old(space)@
            }),
            mappings_sound(m),
        decreases aligned_end - vaddr,
    {
        let ghost n = (vaddr - start) / PAGE_SIZE as int;
        proof {
            assert(page_of(vaddr) == vaddr);
            assert(vaddr == start + n * PAGE_SIZE);
            assert forall|w: u64| in_run(w, start, n + 1) == (in_run(w, start, n) || w == vaddr) by {}
            let before = presence_set(m, start, n, present);
            let after = presence_set(m, start, n + 1, present);
            if m.contains_key(vaddr) {
                assert(before.insert(vaddr, PageEntry { paddr: before[vaddr].paddr, present }) =~= after);
            } else {
                assert(before =~= after);
            }
            assert forall|w: u64| #[trigger] after.contains_key(w) implies m.contains_key(w) && after[w].paddr == m[w].paddr by {}
        }
        let _ = space.pt.set_present_2mb(VirtualAddr::new(vaddr), present);
        vaddr += PAGE_SIZE;
        proof {
            assert((vaddr - start) / PAGE_SIZE as int == n + 1);
        }
    }
    space.flush();
    0
}

pub fn sys_mremap(_args: &SyscallArgs) -> (r: SyscallResult)
    ensures
        r == ENOSYS,
{
    ENOSYS
}

pub fn sys_msync(_args: &SyscallArgs) -> (r: SyscallResult)
    ensures
        r == ENOSYS,
{
    ENOSYS
}

pub fn sys_mincore(_args: &SyscallArgs) -> (r: SyscallResult)
    ensures
        r == ENOSYS,
{
    ENOSYS
}

/// Advice may always be ignored.
pub fn sys_madvise(_args: &SyscallArgs) -> (r: SyscallResult)
    ensures
        r == 0,
{
    0
}

/// There are `n` free pages, and nothing is mapped at the `n` pages from `start` on.
pub open spec fn run_available(s: Space, start: int, n: int) -> bool {
    count_used(s.used) + n <= PAGE_COUNT && forall|v: u64| in_run(v, start, n) ==> !#[trigger] s.mappings.contains_key(v)
}

/// The outcome of moving the end of the heap to `requested`: what is returned, and the space. The
/// heap stays as it is if the request is below its start, or its pages cannot be had.
pub open spec fn brk(s: Space, requested: u64) -> (SyscallResult, Space) {
    let old_end = round_up(s.brk_current as int, PAGE_SIZE as int);
    let new_end = round_up(requested as int, PAGE_SIZE as int);
    let n = (new_end - old_end) / PAGE_SIZE as int;
    let fresh = fresh_pages(s.used, n);
    if requested == 0 || requested < s.brk_base {
        (s.brk_current as i64, s)
    } else if new_end > old_end {
        if run_available(s, old_end, n) {
            (
                requested as i64,
                Space {
                    mappings: with_run(s.mappings, old_end, fresh),
                    used: with_used(s.used, fresh),
                    peak: peak_with(s.peak, fresh),
                    brk_current: requested,
                    ..s
                },
            )
        } else {
            (s.brk_current as i64, rolled_back(s, old_end, n))
        }
    } else {
        (requested as i64, Space { brk_current: requested, ..pages_unmapped(s, new_end, old_end) })
    }
}

/// What moving the end of the heap to `requested` does to memory: the fresh pages that were taken are zeroed, also where they
/// were too few, and nothing else changes.
pub open spec fn brk_clears<M: Memory>(s: Space, requested: u64, dm: &M, dm_after: &M) -> bool {
    let old_end = round_up(s.brk_current as int, PAGE_SIZE as int);
    let new_end = round_up(requested as int, PAGE_SIZE as int);
    let n = (new_end - old_end) / PAGE_SIZE as int;
    if requested == 0 || requested < s.brk_base || new_end <= old_end {
        dm_after == dm
    } else if run_available(s, old_end, n) {
        zeroed(dm, dm_after, fresh_pages(s.used, n))
    } else {
        zeroed(dm, dm_after, taken_pages(s.used, s.mappings, old_end, n))
    }
}

/// Moves the end of the heap to `arg0`.
pub fn sys_brk<M: Memory, P: PageTable>(args: &SyscallArgs, space: &mut UserSpace<P>, dm: &mut M) -> (r: SyscallResult)
    requires
        old(space).sound(),
        old(space).reached(old(dm)),
        round_up(old(space).brk_current as int, PAGE_SIZE as int) <= u64::MAX,
        args.arg0 < old(space).brk_base || round_up(args.arg0 as int, PAGE_SIZE as int) <= u64::MAX,
    ensures
        final(space).sound(),
        round_up(final(space).brk_current as int, PAGE_SIZE as int) <= u64::MAX,
        (r, final(space)@) == brk(old(space)@, args.arg0),
        brk_clears(old(space)@, args.arg0, old(dm), final(dm)),
        keeps_used_pages(old(dm), final(dm), old(space)@.used),
        final(space).reached(final(dm)),
{
    let requested: u64 = args.arg0;
    let ghost s = space@;
    if requested == 0 || requested < space.brk_base {
        return space.brk_current as i64;
    }
    proof {
        law_round_up(space.brk_current as int, PAGE_SIZE as int);
        law_round_up(requested as int, PAGE_SIZE as int);
        space.palloc.lemma_page_count();
    }
    let old_end: u64 = align_up(space.brk_current, PAGE_SIZE);
    let new_end: u64 = align_up(requested, PAGE_SIZE);
    if new_end > old_end {
        let n: u64 = (new_end - old_end) / PAGE_SIZE;
        let mapped = map_anonymous_pages(&mut space.palloc, &mut space.pt, dm, old_end, n);
        proof {
            if mapped is Ok {
                law_fresh_pages(s.used, n as int);
                lemma_fresh_reached(old(dm), dm, s, old_end as int, n as int);
                lemma_zeroed_keeps(old(dm), dm, s.used, fresh_pages(s.used, n as int));
            } else {
                lemma_same_reach_space(old(dm), dm, s);
                lemma_taken_keeps(old(dm), dm, s.used, s.mappings, old_end as int, n as int);
            }
        }
        if mapped.is_err() {
            return space.brk_current as i64;
        }
    } else if new_end < old_end {
        proof {
            law_give_back_keeps_reach(dm, s.used, s.mappings, new_end as int, (old_end - new_end) / PAGE_SIZE as int);
        }
        space.unmap_pages_in_range(new_end, old_end);
    } else {
        proof {
            assert(pages_unmapped(s, new_end as int, old_end as int).mappings =~= s.mappings);
        }
    }
    space.brk_current = requested;
    requested as i64
}

/// The window reaches fresh mappings as it reached the free pages behind them.
pub proof fn lemma_fresh_reached<M: Memory>(before: &M, after: &M, s: Space, start: int, n: int)
    requires
        same_window(before, after),
        reaches_arenas(before, s.arenas, s.used),
        reaches_mapped(before, s.mappings),
        s.used.len() == PAGE_COUNT,
        0 <= n,
        0 <= start,
        count_used(s.used) + n <= PAGE_COUNT,
    ensures
        reaches_arenas(after, s.arenas, with_used(s.used, fresh_pages(s.used, n))),
        reaches_mapped(after, with_run(s.mappings, start, fresh_pages(s.used, n))),
{
    let fresh = fresh_pages(s.used, n);
    let used = with_used(s.used, fresh);
    let m = with_run(s.mappings, start, fresh);
    law_fresh_pages(s.used, n);
    assert forall|p: int| 0 <= p < used.len() && !(#[trigger] used[p]) implies within(after, p * PAGE_SIZE, PAGE_SIZE as int) by {
        assert(!s.used[p]);
    }
    assert forall|v: u64| #[trigger] m.contains_key(v) implies within(after, m[v].paddr as int, PAGE_SIZE as int) by {
        if in_run(v, start, n) {
            let k = (v - start) / PAGE_SIZE as int;
            assert(0 <= fresh[k] < PAGE_COUNT && !s.used[fresh[k]]);
            assert(within(before, fresh[k] * PAGE_SIZE, PAGE_SIZE as int));
        } else {
            assert(within(before, s.mappings[v].paddr as int, PAGE_SIZE as int));
        }
    }
    assert forall|i: int| 0 <= i < s.arenas.len() implies within(after, (#[trigger] s.arenas[i]).paddr, PAGE_SIZE as int) by {
        assert(within(before, s.arenas[i].paddr, PAGE_SIZE as int));
    }
}

/// What the window reaches does not depend on what stands there.
pub proof fn lemma_same_reach_space<M: Memory>(before: &M, after: &M, s: Space)
    requires
        same_window(before, after),
        reaches_arenas(before, s.arenas, s.used),
        reaches_mapped(before, s.mappings),
    ensures
        reaches_arenas(after, s.arenas, s.used),
        reaches_mapped(after, s.mappings),
{
    lemma_same_reach(before, after, s.mappings, s.used);
    assert forall|i: int| 0 <= i < s.arenas.len() implies within(after, (#[trigger] s.arenas[i]).paddr, PAGE_SIZE as int) by {
        assert(within(before, s.arenas[i].paddr, PAGE_SIZE as int));
    }
}

/// Moving the end of the heap up and back again leaves the space as it was, but for the peak.
pub proof fn law_brk_is_undone(s: Space, requested: u64)
    requires
        s.used.len() == PAGE_COUNT,
        0 < s.brk_current,
        s.brk_base <= s.brk_current <= requested,
        round_up(requested as int, PAGE_SIZE as int) <= u64::MAX,
        brk(s, requested).1.brk_current == requested,
    ensures
        brk(brk(s, requested).1, s.brk_current) == (s.brk_current as i64, (Space { peak: brk(s, requested).1.peak, ..s })),
{
    let t = brk(s, requested).1;
    let old_end = round_up(s.brk_current as int, PAGE_SIZE as int);
    let new_end = round_up(requested as int, PAGE_SIZE as int);
    let n = (new_end - old_end) / PAGE_SIZE as int;
    let fresh = fresh_pages(s.used, n);
    law_round_up(s.brk_current as int, PAGE_SIZE as int);
    law_round_up(requested as int, PAGE_SIZE as int);
    assert(old_end <= new_end);
    if new_end > old_end {
        if run_available(s, old_end, n) {
            law_fresh_pages(s.used, n);
            assert(n * PAGE_SIZE == new_end - old_end) by {
                vstd::arithmetic::div_mod::lemma_fundamental_div_mod(new_end - old_end, PAGE_SIZE as int);
            }
            law_unmap_undoes_map(s.mappings, old_end, fresh);
            law_give_back_undoes_map(s.used, s.mappings, old_end, fresh, n);
            assert(fresh.skip(n) =~= Seq::<int>::empty());
            assert(with_used(s.used, Seq::empty()) =~= s.used);
            assert(brk(t, s.brk_current).1 =~= Space { peak: t.peak, ..s });
        }
    } else {
        assert(pages_unmapped(s, old_end, old_end).mappings =~= s.mappings);
        assert(t =~= Space { brk_current: requested, ..s });
        assert(pages_unmapped(t, old_end, old_end).mappings =~= t.mappings);
        assert(brk(t, s.brk_current).1 =~= s);
    }
}

/// Pages that are hidden and shown again lead where they led before.
pub proof fn law_protection_is_undone(m: Map<u64, PageEntry>, start: int, n: int)
    requires
        forall|v: u64| #[trigger] m.contains_key(v) && in_run(v, start, n) ==> m[v].present,
    ensures
        presence_set(presence_set(m, start, n, false), start, n, true) == m,
        forall|v: u64| #[trigger] m.contains_key(v) && in_run(v, start, n) ==> !presence_set(m, start, n, false)[v].present,
{
    assert(presence_set(presence_set(m, start, n, false), start, n, true) =~= m);
}

} // verus!
