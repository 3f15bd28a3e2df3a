//! The user's address space as a whole: its pages, its mappings, and the memory behind them.

use vstd::prelude::*;

use crate::bits::round_up;
use crate::fs::client::{extends, since, Fs, FsEvent, FuseClient};
use crate::layout::{BASE_PAGE_SIZE, DAX_SLOT_COUNT, PAGE_SIZE};
use crate::memory::access::{within, Memory};
use crate::memory::allocators::dax::DaxAllocator;
use crate::memory::allocators::mmap_alloc::{
    arena_holding, arena_placed, arenas_placed, reaches_arenas, reaches_free_pages, releasable, released, Arena,
    UserMmapAllocator, FRAMES_PER_ARENA,
};
use crate::memory::allocators::palloc::{count_used, mark, PAGE_COUNT, PageAllocator};
use crate::memory::page_table::{PageEntry, PageTable};
use crate::memory::pages::{
    given_back, is_dax, mappings_sound, peak_with, reaches_mapped, taken_pages, unmap_run, without_run,
};
use crate::memory::vma::{swap_removed, MappingBacking, Vma, VmaTable};

verus! {

broadcast use crate::fs::client::group_log;

/// Everything that the memory system calls work on.
pub struct UserSpace<P: PageTable> {
    pub palloc: PageAllocator,
    pub pt: P,
    pub vmas: VmaTable,
    pub arenas: UserMmapAllocator,
    pub dax: DaxAllocator,
    pub brk_base: u64,
    pub brk_current: u64,
    pub mmap_next: u64,
    /// Raised whenever a mapping goes away, so that processors reload what they cached.
    pub tlb_generation: u64,
}

/// What an address space holds.
#[verifier::ext_equal]
pub struct Space {
    pub used: Seq<bool>,
    /// The highest end of any page taken so far, in bytes past the reserved pages.
    pub peak: int,
    pub mappings: Map<u64, PageEntry>,
    pub vmas: Seq<Vma>,
    pub arenas: Seq<Arena>,
    pub dax: Seq<bool>,
    pub brk_base: u64,
    pub brk_current: u64,
    pub mmap_next: u64,
    pub tlb_generation: u64,
}

impl<P: PageTable> View for UserSpace<P> {
    type V = Space;

    open spec fn view(&self) -> Space {
        Space {
            used: self.palloc@,
            peak: self.palloc.peak(),
            mappings: self.pt.mappings(),
            vmas: self.vmas@,
            arenas: self.arenas@,
            dax: self.dax@,
            brk_base: self.brk_base,
            brk_current: self.brk_current,
            mmap_next: self.mmap_next,
            tlb_generation: self.tlb_generation,
        }
    }
}

/// The space after fresh pages were taken for the `n` pages from `start` on, and all of them given back: only the peak tells.
pub open spec fn rolled_back(s: Space, start: int, n: int) -> Space {
    Space { peak: peak_with(s.peak, taken_pages(s.used, s.mappings, start, n)), ..s }
}

/// The mapping has a range that its kind can have.
pub open spec fn vma_sound(v: Vma) -> bool {
    &&& v.start.0 < v.end.0
    &&& v.end.0 + PAGE_SIZE <= u64::MAX
    &&& match v.backing {
        MappingBacking::AnonymousSmall => v.start.0 % BASE_PAGE_SIZE == 0 && v.end.0 % BASE_PAGE_SIZE == 0,
        MappingBacking::Dax { dax_offset, .. } => {
            &&& v.start.0 % PAGE_SIZE == 0
            &&& v.end.0 % PAGE_SIZE == 0
            &&& dax_offset as int / PAGE_SIZE as int + run_len(v) <= DAX_SLOT_COUNT
        },
        _ => v.start.0 % PAGE_SIZE == 0 && v.end.0 % PAGE_SIZE == 0,
    }
}

/// How many pages the mapping covers.
pub open spec fn run_len(v: Vma) -> int {
    (v.end.0 - v.start.0) / PAGE_SIZE as int
}

/// The frames of a small mapping are in use in the arena that holds it.
pub open spec fn small_ok(arenas: Seq<Arena>, v: Vma) -> bool {
    arena_holding(arenas, v.start.0 as int, 0) matches Some(i) && {
        let a = arenas[i];
        &&& a.vaddr <= v.start.0
        &&& v.end.0 <= a.vaddr + PAGE_SIZE
        &&& forall|k: int|
            (v.start.0 - a.vaddr) / BASE_PAGE_SIZE as int <= k < (v.end.0 - a.vaddr) / BASE_PAGE_SIZE as int ==> #[trigger] a.used[k]
    }
}

/// The mappings are sound, and the small ones among them hold frames of their own.
pub open spec fn vmas_sound(s: Seq<Vma>, arenas: Seq<Arena>) -> bool {
    &&& forall|i: int| 0 <= i < s.len() ==> vma_sound(#[trigger] s[i])
    &&& forall|i: int|
        0 <= i < s.len() && (#[trigger] s[i]).backing == MappingBacking::AnonymousSmall ==> small_ok(arenas, s[i])
    &&& forall|i: int, j: int|
        0 <= i < j < s.len() && (#[trigger] s[i]).backing == MappingBacking::AnonymousSmall && (#[trigger] s[j]).backing
            == MappingBacking::AnonymousSmall ==> s[i].end.0 <= s[j].start.0 || s[j].end.0 <= s[i].start.0
}

impl<P: PageTable> UserSpace<P> {
    /// The parts of the space are sound by themselves.
    pub open spec fn parts_wf(&self) -> bool {
        &&& self.palloc.wf()
        &&& self.arenas.wf()
        &&& self.dax.wf()
        &&& mappings_sound(self.pt.mappings())
    }

    /// The parts are sound, and so are the mappings.
    pub open spec fn sound(&self) -> bool {
        &&& self.parts_wf()
        &&& vmas_sound(self.vmas@, self.arenas@)
    }

    /// The window reaches all memory that the space may touch.
    pub open spec fn reached<M: Memory>(&self, dm: &M) -> bool {
        &&& reaches_arenas(dm, self.arenas@, self.palloc@)
        &&& reaches_mapped(dm, self.pt.mappings())
    }
}

/// The space once `len` bytes of small mappings from `addr` on are given back.
pub open spec fn small_freed(s: Space, addr: int, len: int) -> Space {
    let size = round_up(len, BASE_PAGE_SIZE as int);
    match arena_holding(s.arenas, addr, 0) {
        Some(i) if size <= PAGE_SIZE => {
            let a = released(s.arenas[i], addr, size);
            if count_used(a.used) == 0 {
                Space {
                    arenas: s.arenas.update(i, s.arenas.last()).drop_last(),
                    mappings: s.mappings.remove(a.vaddr as u64),
                    used: if s.mappings.contains_key(a.vaddr as u64) {
                        s.used.update(a.paddr / PAGE_SIZE as int, false)
                    } else {
                        s.used
                    },
                    ..s
                }
            } else {
                Space { arenas: s.arenas.update(i, a), ..s }
            }
        },
        _ => s,
    }
}

/// The space once the pages behind a mapping are given back. The mapping itself has left the
/// table before.
pub open spec fn torn_down(s: Space, v: Vma) -> Space {
    let start = v.start.0 as int;
    let n = run_len(v);
    match v.backing {
        MappingBacking::AnonymousSmall => small_freed(s, start, v.end.0 - start),
        MappingBacking::Dax { dax_offset, .. } => Space {
            mappings: without_run(s.mappings, start, n),
            used: given_back(s.used, s.mappings, start, n),
            dax: mark(s.dax, dax_offset as int / PAGE_SIZE as int, n, false),
            ..s
        },
        _ => Space {
            mappings: without_run(s.mappings, start, n),
            used: given_back(s.used, s.mappings, start, n),
            ..s
        },
    }
}

/// What tearing a mapping down asks of the host: to drop its side of a direct mapping.
pub open spec fn tear_down_trace(trace: Seq<FsEvent>, v: Vma) -> bool {
    match v.backing {
        MappingBacking::Dax { dax_offset, .. } => {
            &&& trace.len() == 1
            &&& trace[0] matches FsEvent::RemoveMapping { dax_offset: d, len: l, .. }
            &&& d == dax_offset
            &&& l == v.end.0 - v.start.0
        },
        _ => trace.len() == 0,
    }
}

/// Exactly one arena holds an address that one holds.
pub proof fn lemma_holding(arenas: Seq<Arena>, addr: int, i: int, from: int)
    requires
        arenas_placed(arenas),
        0 <= from <= i < arenas.len(),
        arenas[i].vaddr <= addr < arenas[i].vaddr + PAGE_SIZE,
    ensures
        arena_holding(arenas, addr, from) == Some(i),
    decreases i - from,
{
    if from < i {
        assert(arena_placed(arenas[from]));
        assert(arena_placed(arenas[i]));
        assert(arenas[from].vaddr != arenas[i].vaddr);
        lemma_holding(arenas, addr, i, from + 1);
    }
}

/// The arena that is found holds the address.
pub proof fn lemma_holder(arenas: Seq<Arena>, addr: int, from: int)
    requires
        0 <= from,
    ensures
        arena_holding(arenas, addr, from) matches Some(i) ==> from <= i < arenas.len() && arenas[i].vaddr <= addr < arenas[i].vaddr
            + PAGE_SIZE,
    decreases arenas.len() - from,
{
    if from < arenas.len() && !(arenas[from].vaddr <= addr < arenas[from].vaddr + PAGE_SIZE) {
        lemma_holder(arenas, addr, from + 1);
    }
}

/// A page that counts no used frame has none.
proof fn lemma_no_used(used: Seq<bool>, k: int)
    requires
        count_used(used) == 0,
        0 <= k < used.len(),
    ensures
        !used[k],
    decreases used.len(),
{
    if k < used.len() - 1 {
        lemma_no_used(used.drop_last(), k);
        assert(used.drop_last()[k] == used[k]);
    }
}

/// The frames of a small mapping lie where its addresses do.
pub proof fn lemma_frames(v: Vma, base: int)
    requires
        vma_sound(v),
        v.backing == MappingBacking::AnonymousSmall,
        base % (PAGE_SIZE as int) == 0,
        base <= v.start.0,
        v.end.0 <= base + PAGE_SIZE,
    ensures
        round_up(v.end.0 - v.start.0, BASE_PAGE_SIZE as int) == v.end.0 - v.start.0,
        (v.start.0 - base) / BASE_PAGE_SIZE as int + (v.end.0 - v.start.0) / BASE_PAGE_SIZE as int == (v.end.0 - base)
            / BASE_PAGE_SIZE as int,
        (v.start.0 - base) / (BASE_PAGE_SIZE as int) < (v.end.0 - base) / BASE_PAGE_SIZE as int,
        (v.end.0 - base) / BASE_PAGE_SIZE as int <= FRAMES_PER_ARENA,
{
}

/// A small mapping can be given back.
proof fn lemma_releasable(arenas: Seq<Arena>, v: Vma)
    requires
        arenas_placed(arenas),
        vma_sound(v),
        v.backing == MappingBacking::AnonymousSmall,
        small_ok(arenas, v),
    ensures
        releasable(arenas, v.start.0 as int, v.end.0 - v.start.0),
{
    let i = arena_holding(arenas, v.start.0 as int, 0)->0;
    lemma_holder(arenas, v.start.0 as int, 0);
    assert(arena_placed(arenas[i]));
    lemma_frames(v, arenas[i].vaddr);
}

/// Giving one small mapping back leaves the frames of another alone.
#[verifier::rlimit(40)]
proof fn lemma_other_small(s: Space, v: Vma, w: Vma)
    requires
        arenas_placed(s.arenas),
        vma_sound(v),
        vma_sound(w),
        v.backing == MappingBacking::AnonymousSmall,
        w.backing == MappingBacking::AnonymousSmall,
        small_ok(s.arenas, v),
        small_ok(s.arenas, w),
        v.end.0 <= w.start.0 || w.end.0 <= v.start.0,
        arenas_placed(small_freed(s, v.start.0 as int, v.end.0 - v.start.0).arenas),
    ensures
        small_ok(small_freed(s, v.start.0 as int, v.end.0 - v.start.0).arenas, w),
{
    let size = v.end.0 - v.start.0;
    let after = small_freed(s, v.start.0 as int, size).arenas;
    let i = arena_holding(s.arenas, v.start.0 as int, 0)->0;
    let j = arena_holding(s.arenas, w.start.0 as int, 0)->0;
    lemma_holder(s.arenas, v.start.0 as int, 0);
    lemma_holder(s.arenas, w.start.0 as int, 0);
    assert(arena_placed(s.arenas[i]));
    assert(arena_placed(s.arenas[j]));
    lemma_frames(v, s.arenas[i].vaddr);
    lemma_frames(w, s.arenas[j].vaddr);
    let a = released(s.arenas[i], v.start.0 as int, size);
    let first = (w.start.0 - s.arenas[j].vaddr) / BASE_PAGE_SIZE as int;
    if i == j {
        assert forall|k: int| first <= k < (w.end.0 - a.vaddr) / BASE_PAGE_SIZE as int implies #[trigger] a.used[k] by {
            assert(s.arenas[j].used[k]);
        }
        assert(a.used[first]);
        if count_used(a.used) == 0 {
            lemma_no_used(a.used, first);
        }
        lemma_holding(after, w.start.0 as int, i, 0);
    } else if count_used(a.used) == 0 {
        let last = s.arenas.len() - 1;
        let k = if j == last { i } else { j };
        assert(after[k] == s.arenas[j]);
        lemma_holding(after, w.start.0 as int, k, 0);
    } else {
        assert(after[j] == s.arenas[j]);
        lemma_holding(after, w.start.0 as int, j, 0);
    }
}

impl<P: PageTable> UserSpace<P> {
    /// Gives back the pages behind a mapping that has left the table.
    pub fn tear_down_vma<C: FuseClient>(&mut self, fs: &mut Fs<C>, vma: Vma)
        requires
            old(self).parts_wf(),
            vma_sound(vma),
            vma.backing == MappingBacking::AnonymousSmall ==> small_ok(old(self).arenas@, vma),
        ensures
            final(self).parts_wf(),
            final(self)@ == torn_down(old(self)@, vma),
            extends(old(fs).log(), final(fs).log()),
            tear_down_trace(since(old(fs).log(), final(fs).log()), vma),
    {
        proof {
            self.arenas.lemma_placed();
            assert(extends(fs.log(), fs.log()));
        }
        let start: u64 = vma.start.as_u64();
        let end: u64 = vma.end.as_u64();
        match vma.backing {
            MappingBacking::AnonymousSmall => {
                proof {
                    lemma_releasable(self.arenas@, vma);
                }
                let ghost m = self.pt.mappings();
                self.arenas.free(vma.start, end - start, &mut self.palloc, &mut self.pt);
                proof {
                    assert forall|v: u64| #[trigger] self.pt.mappings().contains_key(v) implies m.contains_key(v) && self.pt.mappings()[v] == m[v] by {}
                }
            },
            MappingBacking::Anonymous => {
                unmap_run(&mut self.palloc, &mut self.pt, start, (end - start) / PAGE_SIZE);
            },
            MappingBacking::PrivateFile { .. } => {
                unmap_run(&mut self.palloc, &mut self.pt, start, (end - start) / PAGE_SIZE);
            },
            MappingBacking::Dax { dax_offset, .. } => {
                unmap_run(&mut self.palloc, &mut self.pt, start, (end - start) / PAGE_SIZE);
                let _ = fs.remove_mapping(dax_offset, end - start);
                self.dax.free(dax_offset, (end - start) / PAGE_SIZE);
            },
        }
    }
}

/// Two mappings are not both small, or do not overlap.
pub open spec fn apart(v: Vma, w: Vma) -> bool {
    v.backing == MappingBacking::AnonymousSmall && w.backing == MappingBacking::AnonymousSmall ==> v.end.0 <= w.start.0
        || w.end.0 <= v.start.0
}

/// A sound table stays sound when a mapping leaves it, and the mapping is apart from the rest.
pub proof fn lemma_removed_sound(s: Seq<Vma>, arenas: Seq<Arena>, i: int)
    requires
        vmas_sound(s, arenas),
        0 <= i < s.len(),
    ensures
        vmas_sound(swap_removed(s, i), arenas),
        forall|k: int| 0 <= k < swap_removed(s, i).len() ==> apart(s[i], #[trigger] swap_removed(s, i)[k]),
{
    let rest = swap_removed(s, i);
    let last = s.len() - 1;
    assert forall|k: int| 0 <= k < rest.len() implies vma_sound(#[trigger] rest[k]) && (rest[k].backing
        == MappingBacking::AnonymousSmall ==> small_ok(arenas, rest[k])) && apart(s[i], rest[k]) by {
        let kk = if k == i { last } else { k };
        assert(rest[k] == s[kk]);
        assert(vma_sound(s[kk]));
        if kk < i {
            assert(s[kk] == s[kk] && s[i] == s[i]);
        }
    }
    assert forall|j: int, k: int|
        0 <= j < k < rest.len() && (#[trigger] rest[j]).backing == MappingBacking::AnonymousSmall && (#[trigger] rest[k]).backing
            == MappingBacking::AnonymousSmall implies rest[j].end.0 <= rest[k].start.0 || rest[k].end.0 <= rest[j].start.0 by {
        let jj = if j == i { last } else { j };
        let kk = if k == i { last } else { k };
        assert(rest[j] == s[jj]);
        assert(rest[k] == s[kk]);
    }
}

/// Tearing a mapping down leaves a table that is apart from it sound.
pub proof fn lemma_torn_down_sound(s: Space, v: Vma, rest: Seq<Vma>)
    requires
        arenas_placed(s.arenas),
        arenas_placed(torn_down(s, v).arenas),
        vmas_sound(rest, s.arenas),
        vma_sound(v),
        v.backing == MappingBacking::AnonymousSmall ==> small_ok(s.arenas, v),
        forall|k: int| 0 <= k < rest.len() ==> apart(v, #[trigger] rest[k]),
    ensures
        vmas_sound(rest, torn_down(s, v).arenas),
{
    if v.backing == MappingBacking::AnonymousSmall {
        assert forall|k: int|
            0 <= k < rest.len() && (#[trigger] rest[k]).backing == MappingBacking::AnonymousSmall implies small_ok(
            torn_down(s, v).arenas,
            rest[k],
        ) by {
            assert(apart(v, rest[k]));
            lemma_other_small(s, v, rest[k]);
        }
    }
}

/// Pages given back can be reached as they could while they were mapped.
pub proof fn law_give_back_keeps_reach<M: Memory>(dm: &M, used: Seq<bool>, m: Map<u64, PageEntry>, start: int, n: int)
    requires
        mappings_sound(m),
        reaches_mapped(dm, m),
        reaches_free_pages(dm, used),
        used.len() == PAGE_COUNT,
    ensures
        reaches_free_pages(dm, given_back(used, m, start, n)),
        given_back(used, m, start, n).len() == PAGE_COUNT,
    decreases n,
{
    if n > 0 {
        law_give_back_keeps_reach(dm, used, m, start, n - 1);
        let v = (start + (n - 1) * PAGE_SIZE) as u64;
        if m.contains_key(v) && !is_dax(m[v].paddr) {
            assert(within(dm, m[v].paddr as int, PAGE_SIZE as int));
            let fewer = given_back(used, m, start, n - 1);
            let p = m[v].paddr as int / PAGE_SIZE as int;
            assert(m[v].paddr == p * PAGE_SIZE);
            assert forall|q: int| 0 <= q < PAGE_COUNT && !(#[trigger] fewer.update(p, false)[q]) implies within(
                dm,
                q * PAGE_SIZE,
                PAGE_SIZE as int,
            ) by {
                if q != p {
                    assert(!fewer[q]);
                }
            }
        }
    }
}

/// The window still reaches everything once a mapping is torn down.
pub proof fn law_tear_down_keeps_reach<M: Memory>(dm: &M, s: Space, v: Vma)
    requires
        s.used.len() == PAGE_COUNT,
        arenas_placed(s.arenas),
        mappings_sound(s.mappings),
        reaches_arenas(dm, s.arenas, s.used),
        reaches_mapped(dm, s.mappings),
    ensures
        reaches_arenas(dm, torn_down(s, v).arenas, torn_down(s, v).used),
        reaches_mapped(dm, torn_down(s, v).mappings),
        torn_down(s, v).used.len() == PAGE_COUNT,
{
    let t = torn_down(s, v);
    law_give_back_keeps_reach(dm, s.used, s.mappings, v.start.0 as int, run_len(v));
    assert forall|w: u64| #[trigger] t.mappings.contains_key(w) implies within(dm, t.mappings[w].paddr as int, PAGE_SIZE as int) by {
        assert(s.mappings.contains_key(w));
    }
    if v.backing == MappingBacking::AnonymousSmall {
        let addr = v.start.0 as int;
        let size = round_up(v.end.0 - v.start.0, BASE_PAGE_SIZE as int);
        lemma_holder(s.arenas, addr, 0);
        if let Some(i) = arena_holding(s.arenas, addr, 0) {
            assert(arena_placed(s.arenas[i]));
            assert(within(dm, s.arenas[i].paddr, PAGE_SIZE as int));
            assert forall|k: int| 0 <= k < t.arenas.len() implies within(dm, (#[trigger] t.arenas[k]).paddr, PAGE_SIZE as int) by {
                assert(within(dm, s.arenas[k].paddr, PAGE_SIZE as int));
                assert(within(dm, s.arenas.last().paddr, PAGE_SIZE as int));
            }
            let p = s.arenas[i].paddr / PAGE_SIZE as int;
            assert(s.arenas[i].paddr == p * PAGE_SIZE);
            assert forall|q: int| 0 <= q < t.used.len() && !(#[trigger] t.used[q]) implies within(dm, q * PAGE_SIZE, PAGE_SIZE as int) by {
                if q != p {
                    assert(!s.used[q]);
                }
            }
        }
    }
}

/// The space once several mappings that have left the table are torn down, in order.
pub open spec fn all_torn_down(s: Space, vs: Seq<Vma>, n: int) -> Space
    decreases n,
{
    if n <= 0 { s } else { torn_down(all_torn_down(s, vs, n - 1), vs[n - 1]) }
}

} // verus!
