//! The allocator of small anonymous mappings: arenas of one page each, cut into
//! ordinary pages and filled from the top.

use vstd::math::max;
use vstd::prelude::*;

use crate::address::{PhysicalAddr, VirtualAddr};
use crate::bits::{align_up, bit, clear_bit, lemma_constant_bits, lemma_page_sizes, round_up, set_bit, test_bit};
use crate::layout::{BASE_PAGE_SIZE, MAX_GUEST_MEMORY, PAGE_SIZE, USER_MMAP_BASE};
use crate::memory::access::{fill, same_window, within, wrote, Memory};
use crate::memory::allocators::palloc::{
    count_used, free_run, law_allocate_counts, lemma_count_bound, lowest_run, mark, PAGE_COUNT, PageAllocator,
    reach_of,
};
use crate::memory::errors::{MemoryError, Result};
use crate::memory::page_table::{page_of, PageEntry, PageTable};
use crate::memory::vma::{law_found_range_is_free, search_down, VmaTable};

verus! {

/// Number of ordinary pages in an arena.
pub const FRAMES_PER_ARENA: u64 = PAGE_SIZE / BASE_PAGE_SIZE;

const BITMAP_WORDS: u64 = FRAMES_PER_ARENA / 64;

const FULL_WORD: u64 = 0xffff_ffff_ffff_ffff;

/// One page of memory, handed out in ordinary pages.
pub struct MmapArena {
    vaddr_base: VirtualAddr,
    paddr_base: PhysicalAddr,
    free: Vec<u64>,
    free_frames: u64,
}

/// What an arena holds: where it lies, and which of its frames are in use.
pub struct Arena {
    pub vaddr: int,
    pub paddr: int,
    pub used: Seq<bool>,
}

/// The highest run of `n` free frames, if there is one.
pub open spec fn highest_run(used: Seq<bool>, n: int) -> Option<int> {
    if n > 0 && exists|s: int| last_free_run(used, s, n) {
        Some(choose|s: int| last_free_run(used, s, n))
    } else {
        None
    }
}

/// `start` is the highest frame at which a run of `n` free frames begins.
pub open spec fn last_free_run(used: Seq<bool>, start: int, n: int) -> bool {
    &&& free_run(used, start, n)
    &&& forall|s: int| s > start ==> !#[trigger] free_run(used, s, n)
}

proof fn lemma_highest_run(used: Seq<bool>, s: int, n: int)
    requires
        last_free_run(used, s, n),
        n > 0,
    ensures
        highest_run(used, n) == Some(s),
{
    let t = choose|t: int| last_free_run(used, t, n);
    assert(last_free_run(used, t, n));
    if s < t {
        assert(!free_run(used, t, n));
    } else if t < s {
        assert(!free_run(used, s, n));
    }
}

/// The highest run is free.
pub proof fn lemma_highest_run_is_free(used: Seq<bool>, n: int)
    ensures
        highest_run(used, n) matches Some(s) ==> last_free_run(used, s, n),
{
}

proof fn lemma_no_highest_run(used: Seq<bool>, n: int)
    requires
        forall|s: int| !#[trigger] free_run(used, s, n),
    ensures
        highest_run(used, n) is None,
{
    if exists|s: int| last_free_run(used, s, n) {
        let s = choose|s: int| last_free_run(used, s, n);
        assert(free_run(used, s, n));
    }
}

/// An arena without a used frame has every run, the highest at its top.
proof fn lemma_fresh_arena(n: int)
    requires
        0 < n <= FRAMES_PER_ARENA,
    ensures
        highest_run(unused(), n) == Some(FRAMES_PER_ARENA - n),
{
    let s = FRAMES_PER_ARENA - n;
    assert(free_run(unused(), s, n));
    assert(last_free_run(unused(), s, n));
    lemma_highest_run(unused(), s, n);
}

/// The frames of a fresh arena: none in use.
pub open spec fn unused() -> Seq<bool> {
    Seq::new(FRAMES_PER_ARENA as nat, |k: int| false)
}

proof fn lemma_unused_count(n: nat)
    ensures
        count_used(Seq::new(n, |k: int| false)) == 0,
    decreases n,
{
    if n > 0 {
        assert(Seq::new(n, |k: int| false).drop_last() =~= Seq::new((n - 1) as nat, |k: int| false));
        lemma_unused_count((n - 1) as nat);
    }
}

/// Freeing a run of used frames lowers their number by its length.
proof fn lemma_release_counts(used: Seq<bool>, start: int, n: int)
    requires
        0 <= start,
        0 <= n,
        start + n <= used.len(),
        forall|k: int| start <= k < start + n ==> #[trigger] used[k],
    ensures
        count_used(mark(used, start, n, false)) == count_used(used) - n,
{
    let freed = mark(used, start, n, false);
    law_allocate_counts(freed, start, n);
    assert(mark(freed, start, n, true) =~= used);
}

impl View for MmapArena {
    type V = Arena;

    closed spec fn view(&self) -> Arena {
        Arena {
            vaddr: self.vaddr_base.0 as int,
            paddr: self.paddr_base.0 as int,
            used: Seq::new(FRAMES_PER_ARENA as nat, |k: int| !bit(self.free@[k / 64], k % 64)),
        }
    }
}

impl MmapArena {
    /// The bitmap covers the arena, and the count of free frames is right.
    pub closed spec fn wf(&self) -> bool {
        &&& self.free@.len() == BITMAP_WORDS
        &&& self.free_frames == FRAMES_PER_ARENA - count_used(self@.used)
        &&& self.vaddr_base.0 + PAGE_SIZE <= u64::MAX
        &&& self.paddr_base.0 + PAGE_SIZE <= u64::MAX
    }

    /// An arena at `vaddr_base`, backed by the page at `paddr_base`, with every frame free.
    pub fn new(vaddr_base: VirtualAddr, paddr_base: PhysicalAddr) -> (r: Self)
        requires
            vaddr_base.0 + PAGE_SIZE <= u64::MAX,
            paddr_base.0 + PAGE_SIZE <= u64::MAX,
        ensures
            r.wf(),
            r@ == (Arena { vaddr: vaddr_base.0 as int, paddr: paddr_base.0 as int, used: unused() }),
    {
        let mut free: Vec<u64> = Vec::new();
        while free.len() < BITMAP_WORDS as usize
            invariant
                free@.len() <= BITMAP_WORDS,
                forall|i: int| 0 <= i < free@.len() ==> free@[i] == FULL_WORD,
            decreases BITMAP_WORDS - free@.len(),
        {
            free.push(FULL_WORD);
        }
        let r = MmapArena { vaddr_base, paddr_base, free, free_frames: FRAMES_PER_ARENA };
        proof {
            lemma_constant_bits();
            assert(r@.used =~= unused());
            lemma_unused_count(FRAMES_PER_ARENA as nat);
        }
        r
    }

    pub fn vaddr_base(&self) -> (r: VirtualAddr)
        ensures
            r.0 == self@.vaddr,
    {
        self.vaddr_base
    }

    /// Number of frames that are not in use.
    pub fn free_frames(&self) -> (r: u64)
        requires
            self.wf(),
        ensures
            r == FRAMES_PER_ARENA - count_used(self@.used),
    {
        self.free_frames
    }

    /// Whether `vaddr` lies in the arena.
    pub fn contains(&self, vaddr: VirtualAddr) -> (r: bool)
        requires
            self.wf(),
        ensures
            r == (self@.vaddr <= vaddr.0 < self@.vaddr + PAGE_SIZE),
    {
        let addr: u64 = vaddr.as_u64();
        let base: u64 = self.vaddr_base.as_u64();
        addr >= base && addr < base + PAGE_SIZE
    }

    /// Takes the highest run of `frames` free frames.
    pub fn allocate(&mut self, frames: u64) -> (r: Option<VirtualAddr>)
        requires
            old(self).wf(),
        ensures
            final(self).wf(),
            match highest_run(old(self)@.used, frames as int) {
                None => r is None && final(self)@ == old(self)@,
                Some(s) => {
                    &&& r matches Some(v)
                    &&& v.0 == old(self)@.vaddr + s * BASE_PAGE_SIZE
                    &&& 0 <= s <= FRAMES_PER_ARENA - frames
                    &&& free_run(old(self)@.used, s, frames as int)
                    &&& final(self)@ == (Arena { used: mark(old(self)@.used, s, frames as int, true), ..old(self)@ })
                },
            },
    {
        if frames == 0 || frames > self.free_frames || frames > FRAMES_PER_ARENA {
            proof {
                assert forall|s: int| frames > 0 implies !#[trigger] free_run(self@.used, s, frames as int) by {
                    if free_run(self@.used, s, frames as int) {
                        law_allocate_counts(self@.used, s, frames as int);
                        lemma_count_bound(mark(self@.used, s, frames as int, true));
                    }
                }
                if frames > 0 {
                    lemma_no_highest_run(self@.used, frames as int);
                }
            }
            return None;
        }
        let mut next: u64 = FRAMES_PER_ARENA - frames + 1;
        while next > 0
            invariant
                *self == *old(self),
                self.wf(),
                0 < frames <= FRAMES_PER_ARENA,
                frames <= self.free_frames,
                next <= FRAMES_PER_ARENA - frames + 1,
                forall|s: int| s >= next ==> !#[trigger] free_run(self@.used, s, frames as int),
            decreases next,
        {
            let start: u64 = next - 1;
            if self.range_is_free(start, frames) {
                proof {
                    lemma_highest_run(self@.used, start as int, frames as int);
                    law_allocate_counts(self@.used, start as int, frames as int);
                }
                self.mark_range(start, frames, false);
                self.free_frames = self.free_frames - frames;
                return Some(self.vaddr_base.add(start * BASE_PAGE_SIZE));
            }
            next = start;
        }
        proof {
            assert forall|s: int| !#[trigger] free_run(self@.used, s, frames as int) by {}
            lemma_no_highest_run(self@.used, frames as int);
        }
        None
    }

    /// Gives back `frames` frames from `vaddr` on.
    pub fn free(&mut self, vaddr: VirtualAddr, frames: u64)
        requires
            old(self).wf(),
            old(self)@.vaddr <= vaddr.0,
            ({
                let start = (vaddr.0 - old(self)@.vaddr) / BASE_PAGE_SIZE as int;
                &&& start + frames <= FRAMES_PER_ARENA
                &&& forall|k: int| start <= k < start + frames ==> #[trigger] old(self)@.used[k]
            }),
        ensures
            final(self).wf(),
            final(self)@ == (Arena {
                used: mark(
                    old(self)@.used,
                    (vaddr.0 - old(self)@.vaddr) / BASE_PAGE_SIZE as int,
                    frames as int,
                    false,
                ),
                ..old(self)@
            }),
    {
        let start: u64 = (vaddr.as_u64() - self.vaddr_base.as_u64()) / BASE_PAGE_SIZE;
        proof {
            lemma_release_counts(self@.used, start as int, frames as int);
            lemma_count_bound(mark(self@.used, start as int, frames as int, false));
        }
        self.mark_range(start, frames, true);
        self.free_frames = self.free_frames + frames;
    }

    /// The physical address behind a virtual one of the arena.
    pub fn paddr_for(&self, vaddr: VirtualAddr) -> (r: PhysicalAddr)
        requires
            self.wf(),
            self@.vaddr <= vaddr.0 < self@.vaddr + PAGE_SIZE,
        ensures
            r.0 == self@.paddr + (vaddr.0 - self@.vaddr),
    {
        self.paddr_base.add(vaddr.as_u64() - self.vaddr_base.as_u64())
    }

    fn range_is_free(&self, start: u64, frames: u64) -> (r: bool)
        requires
            self.wf(),
            start + frames <= FRAMES_PER_ARENA,
        ensures
            r == free_run(self@.used, start as int, frames as int),
    {
        let mut frame: u64 = start;
        while frame < start + frames
            invariant
                self.wf(),
                start <= frame <= start + frames <= FRAMES_PER_ARENA,
                forall|k: int| start <= k < frame ==> !#[trigger] self@.used[k],
            decreases start + frames - frame,
        {
            if !test_bit(self.free[(frame / 64) as usize], frame % 64) {
                assert(self@.used[frame as int]);
                return false;
            }
            frame += 1;
        }
        true
    }

    fn mark_range(&mut self, start: u64, frames: u64, free: bool)
        requires
            old(self).free@.len() == BITMAP_WORDS,
            start + frames <= FRAMES_PER_ARENA,
        ensures
            final(self).free@.len() == BITMAP_WORDS,
            final(self)@ == (Arena { used: mark(old(self)@.used, start as int, frames as int, !free), ..old(self)@ }),
            final(self).free_frames == old(self).free_frames,
            final(self).vaddr_base == old(self).vaddr_base,
            final(self).paddr_base == old(self).paddr_base,
    {
        let mut frame: u64 = start;
        assert(self@.used =~= mark(old(self)@.used, start as int, 0, !free));
        while frame < start + frames
            invariant
                self.free@.len() == BITMAP_WORDS,
                start <= frame <= start + frames <= FRAMES_PER_ARENA,
                self@.used == mark(old(self)@.used, start as int, frame - start, !free),
                self.free_frames == old(self).free_frames,
                self.vaddr_base == old(self).vaddr_base,
                self.paddr_base == old(self).paddr_base,
            decreases start + frames - frame,
        {
            let ghost before = self@.used;
            let ghost words = self.free@;
            let word: usize = (frame / 64) as usize;
            let index: u64 = frame % 64;
            let value: u64 = if free {
                set_bit(self.free[word], index)
            } else {
                clear_bit(self.free[word], index)
            };
            self.free.set(word, value);
            assert forall|k: int| 0 <= k < FRAMES_PER_ARENA implies self@.used[k] == (if k == frame { !free } else { before[k] }) by {
                assert(self@.used[k] == !bit(self.free@[k / 64], k % 64));
                assert(before[k] == !bit(words[k / 64], k % 64));
                if k / 64 == word {
                    assert(k == frame <==> k % 64 == index);
                }
            }
            frame += 1;
            assert(self@.used =~= mark(old(self)@.used, start as int, frame - start, !free));
        }
    }
}

/// An arena's freed run is the next one of its length handed out, if nothing above it is free.
pub proof fn law_freed_run_is_reusable(used: Seq<bool>, start: int, n: int)
    requires
        0 <= start,
        0 < n,
        start + n <= used.len(),
        forall|s: int| s > start ==> !#[trigger] free_run(mark(used, start, n, false), s, n),
    ensures
        highest_run(mark(used, start, n, false), n) == Some(start),
{
    let freed = mark(used, start, n, false);
    assert(free_run(freed, start, n));
    lemma_highest_run(freed, start, n);
}

/// `len` rounded up to whole ordinary pages, if it fits an arena.
pub fn align_up_base_page(len: u64) -> (r: Result<u64>)
    ensures
        r == (if round_up(len as int, BASE_PAGE_SIZE as int) <= PAGE_SIZE {
            Ok::<u64, MemoryError>(round_up(len as int, BASE_PAGE_SIZE as int) as u64)
        } else {
            Err(MemoryError::OutOfMemory)
        }),
{
    if len > PAGE_SIZE {
        return Err(MemoryError::OutOfMemory);
    }
    let value: u64 = align_up(len, BASE_PAGE_SIZE);
    if value <= PAGE_SIZE { Ok(value) } else { Err(MemoryError::OutOfMemory) }
}

/// The allocator of small anonymous mappings.
pub struct UserMmapAllocator {
    arenas: Vec<MmapArena>,
}

/// The first arena, from index `from` on, that has a run of `n` free frames.
pub open spec fn arena_with_run(arenas: Seq<Arena>, n: int, from: int) -> Option<int>
    decreases arenas.len() - from,
{
    if from >= arenas.len() {
        None
    } else if highest_run(arenas[from].used, n) is Some {
        Some(from)
    } else {
        arena_with_run(arenas, n, from + 1)
    }
}

/// The arena that is found has a run.
pub proof fn lemma_arena_with_run(arenas: Seq<Arena>, n: int, from: int)
    requires
        0 <= from,
    ensures
        arena_with_run(arenas, n, from) matches Some(i) ==> from <= i < arenas.len() && highest_run(arenas[i].used, n) is Some,
    decreases arenas.len() - from,
{
    if from < arenas.len() && highest_run(arenas[from].used, n) is None {
        lemma_arena_with_run(arenas, n, from + 1);
    }
}

/// The first arena, from index `from` on, that holds `addr`.
pub open spec fn arena_holding(arenas: Seq<Arena>, addr: int, from: int) -> Option<int>
    decreases arenas.len() - from,
{
    if from >= arenas.len() {
        None
    } else if arenas[from].vaddr <= addr < arenas[from].vaddr + PAGE_SIZE {
        Some(from)
    } else {
        arena_holding(arenas, addr, from + 1)
    }
}

/// The lowest address of any of the first `n` arenas, or `top` without one.
pub open spec fn lowest_base(arenas: Seq<Arena>, n: int, top: int) -> int
    decreases n,
{
    if n <= 0 {
        top
    } else {
        let low = lowest_base(arenas, n - 1, top);
        if arenas[n - 1].vaddr < low { arenas[n - 1].vaddr } else { low }
    }
}

/// Every arena is a whole page of guest memory at a whole page of the user's space, and no two
/// lie at the same address.
pub open spec fn arenas_placed(arenas: Seq<Arena>) -> bool {
    &&& forall|i: int| 0 <= i < arenas.len() ==> arena_placed(#[trigger] arenas[i])
    &&& forall|i: int, j: int|
        0 <= i < j < arenas.len() ==> (#[trigger] arenas[i]).vaddr != (#[trigger] arenas[j]).vaddr
}

pub open spec fn arena_placed(a: Arena) -> bool {
    &&& 0 <= a.vaddr
    &&& a.vaddr % (PAGE_SIZE as int) == 0
    &&& a.vaddr + PAGE_SIZE <= USER_MMAP_BASE
    &&& 0 <= a.paddr < MAX_GUEST_MEMORY
    &&& a.paddr % (PAGE_SIZE as int) == 0
    &&& a.used.len() == FRAMES_PER_ARENA
}

/// The page of every arena is mapped and in use, and no two share one.
pub open spec fn arenas_backed(arenas: Seq<Arena>, used: Seq<bool>, mappings: Map<u64, PageEntry>) -> bool {
    &&& forall|i: int|
        0 <= i < arenas.len() ==> used[(#[trigger] arenas[i]).paddr / PAGE_SIZE as int] && mappings_lead(mappings, arenas[i])
    &&& forall|i: int, j: int| 0 <= i < j < arenas.len() ==> (#[trigger] arenas[i]).paddr != (#[trigger] arenas[j]).paddr
}

/// The window reaches every arena and every page that is free to be taken.
pub open spec fn reaches_arenas<M: Memory>(dm: &M, arenas: Seq<Arena>, used: Seq<bool>) -> bool {
    &&& reaches_free_pages(dm, used)
    &&& forall|i: int| 0 <= i < arenas.len() ==> within(dm, (#[trigger] arenas[i]).paddr, PAGE_SIZE as int)
}

/// The window reaches every page that is free to be taken.
pub open spec fn reaches_free_pages<M: Memory>(dm: &M, used: Seq<bool>) -> bool {
    forall|p: int| 0 <= p < used.len() && !(#[trigger] used[p]) ==> within(dm, p * PAGE_SIZE, PAGE_SIZE as int)
}

pub open spec fn zeros(n: int) -> Seq<u8> {
    Seq::new(n as nat, |k: int| 0u8)
}

/// Sets one page of physical memory to zero.
pub fn zero_page<M: Memory>(dm: &mut M, paddr: PhysicalAddr)
    requires
        within(old(dm), paddr.0 as int, PAGE_SIZE as int),
        paddr.0 + PAGE_SIZE <= u64::MAX,
    ensures
        wrote(old(dm), final(dm), paddr.0 as int, zeros(PAGE_SIZE as int)),
{
    fill(dm, paddr.as_u64(), 0, PAGE_SIZE);
}

/// The lowest address of the arenas is one of theirs, and no other is lower.
pub proof fn lemma_lowest_base(arenas: Seq<Arena>, n: int, top: int)
    requires
        0 <= n <= arenas.len(),
    ensures
        lowest_base(arenas, n, top) <= top,
        forall|i: int| 0 <= i < n ==> lowest_base(arenas, n, top) <= (#[trigger] arenas[i]).vaddr,
        lowest_base(arenas, n, top) == top || exists|i: int| 0 <= i < n && lowest_base(arenas, n, top) == (#[trigger] arenas[i]).vaddr,
    decreases n,
{
    if n > 0 {
        lemma_lowest_base(arenas, n - 1, top);
    }
}

impl View for UserMmapAllocator {
    type V = Seq<Arena>;

    closed spec fn view(&self) -> Seq<Arena> {
        Seq::new(self.arenas@.len(), |i: int| self.arenas@[i]@)
    }
}

impl UserMmapAllocator {
    pub closed spec fn wf(&self) -> bool {
        &&& forall|i: int| 0 <= i < self.arenas@.len() ==> (#[trigger] self.arenas@[i]).wf()
        &&& arenas_placed(self@)
    }

    pub proof fn lemma_placed(&self)
        requires
            self.wf(),
        ensures
            arenas_placed(self@),
    {
    }

    pub fn new() -> (r: Self)
        ensures
            r.wf(),
            r@ == Seq::<Arena>::empty(),
    {
        let r = UserMmapAllocator { arenas: Vec::new() };
        assert(r@ =~= Seq::<Arena>::empty());
        r
    }

    /// Whether a mapping of `len` bytes is small enough for an arena.
    pub fn can_allocate_small(&self, len: u64) -> (r: bool)
        ensures
            r == (0 < len < PAGE_SIZE),
    {
        len > 0 && len < PAGE_SIZE
    }

    /// Whether `vaddr` lies in an arena.
    pub fn contains(&self, vaddr: VirtualAddr) -> (r: bool)
        requires
            self.wf(),
        ensures
            r == (arena_holding(self@, vaddr.0 as int, 0) is Some),
    {
        self.index_holding(vaddr).is_some()
    }

    fn index_holding(&self, vaddr: VirtualAddr) -> (r: Option<usize>)
        requires
            self.wf(),
        ensures
            match arena_holding(self@, vaddr.0 as int, 0) {
                Some(i) => {
                    &&& r matches Some(k)
                    &&& k == i
                    &&& k < self@.len()
                    &&& self@[i].vaddr <= vaddr.0 < self@[i].vaddr + PAGE_SIZE
                },
                None => r is None,
            },
    {
        let mut i: usize = 0;
        while i < self.arenas.len()
            invariant
                self.wf(),
                i <= self@.len(),
                self@.len() == self.arenas@.len(),
                arena_holding(self@, vaddr.0 as int, 0) == arena_holding(self@, vaddr.0 as int, i as int),
            decreases self@.len() - i,
        {
            assert(self@[i as int] == self.arenas@[i as int]@);
            if self.arenas[i].contains(vaddr) {
                return Some(i);
            }
            i += 1;
        }
        None
    }

    /// The lowest address of any arena.
    pub fn lowest_arena_base(&self) -> (r: Option<VirtualAddr>)
        requires
            self.wf(),
        ensures
            self@.len() == 0 ==> r is None,
            self@.len() > 0 ==> (r matches Some(a) && a.0 == lowest_base(self@, self@.len() as int, self@[0].vaddr)),
    {
        if self.arenas.len() == 0 {
            return None;
        }
        assert(self@[0] == self.arenas@[0]@);
        let mut low: VirtualAddr = self.arenas[0].vaddr_base();
        let mut i: usize = 0;
        while i < self.arenas.len()
            invariant
                i <= self@.len(),
                self@.len() == self.arenas@.len(),
                low.0 == lowest_base(self@, i as int, self@[0].vaddr),
            decreases self@.len() - i,
        {
            assert(self@[i as int] == self.arenas@[i as int]@);
            let base: VirtualAddr = self.arenas[i].vaddr_base();
            if base.as_u64() < low.as_u64() {
                low = base;
            }
            i += 1;
        }
        Some(low)
    }
}

/// The outcome of taking a page for a new arena below `high`.
pub open spec fn arena_place(vmas: Seq<crate::memory::vma::Vma>, high: int) -> Option<int> {
    search_down(vmas, high, PAGE_SIZE as int, PAGE_SIZE as int)
}

/// The peak once a page was taken for a new arena below `high`, where there is a place for it and a page.
pub open spec fn arena_peak(vmas: Seq<crate::memory::vma::Vma>, high: int, used: Seq<bool>, peak: int) -> int {
    match (arena_place(vmas, high), lowest_run(used, 1)) {
        (Some(_), Some(p)) => max(peak, reach_of(p)),
        _ => peak,
    }
}

/// Below which address a new arena goes.
pub open spec fn arena_limit(arenas: Seq<Arena>) -> int {
    if arenas.len() == 0 {
        USER_MMAP_BASE as int
    } else {
        lowest_base(arenas, arenas.len() as int, arenas[0].vaddr)
    }
}

/// Maps one fresh page below `high` for a new arena.
fn allocate_arena<M: Memory, P: PageTable>(
    high: VirtualAddr,
    palloc: &mut PageAllocator,
    pt: &mut P,
    vmas: &VmaTable,
    dm: &mut M,
) -> (r: Result<MmapArena>)
    requires
        old(palloc).wf(),
        high.0 <= USER_MMAP_BASE,
        reaches_free_pages(old(dm), old(palloc)@),
    ensures
        final(palloc).peak() == arena_peak(vmas@, high.0 as int, old(palloc)@, old(palloc).peak()),
        final(palloc).wf(),
        same_window(old(dm), final(dm)),
        match r {
            Err(e) => {
                &&& e == MemoryError::OutOfMemory
                &&& final(palloc)@ == old(palloc)@
                &&& final(pt).mappings() == old(pt).mappings()
            },
            Ok(a) => a.wf(),
        },
        match arena_place(vmas@, high.0 as int) {
            None => r is Err && *final(dm) == *old(dm),
            Some(base) => match lowest_run(old(palloc)@, 1) {
                None => r is Err && *final(dm) == *old(dm),
                Some(p) => {
                    &&& wrote(old(dm), final(dm), p * PAGE_SIZE, zeros(PAGE_SIZE as int))
                    &&& r is Ok <==> !old(pt).mappings().contains_key(base as u64)
                    &&& r matches Ok(a) ==> {
                        &&& a@ == (Arena { vaddr: base, paddr: p * PAGE_SIZE, used: unused() })
                        &&& final(palloc)@ == mark(old(palloc)@, p, 1, true)
                        &&& final(pt).mappings() == old(pt).mappings().insert(
                            base as u64,
                            (PageEntry { paddr: (p * PAGE_SIZE) as u64, present: true }),
                        )
                    }
                },
            },
        },
{
    proof {
        lemma_page_sizes();
        law_found_range_is_free(
            vmas@,
            high.0 as int,
            PAGE_SIZE as int,
            PAGE_SIZE as int,
        );
    }
    let vaddr_base = match vmas.find_free_downward_aligned(high, PAGE_SIZE, PAGE_SIZE) {
        Some(base) => base,
        None => {
            return Err(MemoryError::OutOfMemory);
        },
    };
    let ghost used = palloc@;
    proof {
        palloc.lemma_page_count();
    }
    let paddr_base = match palloc.allocate(1) {
        Ok(p) => p,
        Err(e) => {
            return Err(e);
        },
    };
    let ghost p = lowest_run(used, 1)->0;
    proof {
        crate::memory::allocators::palloc::lemma_lowest_run_is_free(used, 1);
        assert(!used[p]);
    }
    zero_page(dm, paddr_base);
    if pt.map_2mb(vaddr_base, paddr_base).is_err() {
        let _ = palloc.free(paddr_base);
        proof {
            assert(palloc@ =~= used);
        }
        return Err(MemoryError::OutOfMemory);
    }
    Ok(MmapArena::new(vaddr_base, paddr_base))
}

/// What a request for `len` bytes does: to the arenas, the pages, the page table and the memory.
pub open spec fn small_allocated<M: Memory, P: PageTable>(
    arenas: Seq<Arena>,
    after: Seq<Arena>,
    vmas: Seq<crate::memory::vma::Vma>,
    used: Seq<bool>,
    used_after: Seq<bool>,
    pt: &P,
    pt_after: &P,
    dm: &M,
    dm_after: &M,
    len: int,
    r: Result<(VirtualAddr, u64)>,
) -> bool {
    let size = round_up(len, BASE_PAGE_SIZE as int);
    let n = size / BASE_PAGE_SIZE as int;
    &&& r matches Err(e) ==> {
        &&& e == MemoryError::OutOfMemory
        &&& after == arenas
        &&& used_after == used
        &&& pt_after.mappings() == pt.mappings()
    }
    &&& if size > PAGE_SIZE {
        r is Err && dm_after == dm
    } else {
        match arena_with_run(arenas, n, 0) {
            Some(i) => {
                let s = highest_run(arenas[i].used, n)->0;
                &&& r matches Ok((v, l))
                &&& v.0 == arenas[i].vaddr + s * BASE_PAGE_SIZE
                &&& l == size
                &&& after == arenas.update(i, Arena { used: mark(arenas[i].used, s, n, true), ..arenas[i] })
                &&& used_after == used
                &&& pt_after.mappings() == pt.mappings()
                &&& wrote(dm, dm_after, arenas[i].paddr + s * BASE_PAGE_SIZE, zeros(size))
            },
            None => match (arena_place(vmas, arena_limit(arenas)), lowest_run(used, 1)) {
                (Some(base), Some(p)) => {
                    &&& wrote(dm, dm_after, p * PAGE_SIZE, zeros(PAGE_SIZE as int))
                    &&& r is Ok <==> !pt.mappings().contains_key(base as u64)
                    &&& r matches Ok((v, l)) ==> {
                        &&& v.0 == base + (FRAMES_PER_ARENA - n) * BASE_PAGE_SIZE
                        &&& l == size
                        &&& after == arenas.push(
                            Arena { vaddr: base, paddr: p * PAGE_SIZE, used: mark(unused(), FRAMES_PER_ARENA - n, n, true) },
                        )
                        &&& used_after == mark(used, p, 1, true)
                        &&& pt_after.mappings() == pt.mappings().insert(
                            base as u64,
                            PageEntry { paddr: (p * PAGE_SIZE) as u64, present: true },
                        )
                    }
                },
                _ => r is Err && dm_after == dm,
            },
        }
    }
}

/// The peak after a request for `len` bytes: where no arena has room, a page is taken for a new one.
pub open spec fn small_peak(arenas: Seq<Arena>, vmas: Seq<crate::memory::vma::Vma>, used: Seq<bool>, peak: int, len: int) -> int {
    let size = round_up(len, BASE_PAGE_SIZE as int);
    if size > PAGE_SIZE || arena_with_run(arenas, size / BASE_PAGE_SIZE as int, 0) is Some {
        peak
    } else {
        arena_peak(vmas, arena_limit(arenas), used, peak)
    }
}

impl UserMmapAllocator {
    /// Takes the run from the first arena that has one.
    fn allocate_from_arenas(&mut self, frames: u64) -> (r: Option<(usize, VirtualAddr)>)
        requires
            old(self).wf(),
        ensures
            final(self).wf(),
            match arena_with_run(old(self)@, frames as int, 0) {
                None => r is None && final(self)@ == old(self)@,
                Some(i) => {
                    let a = old(self)@[i];
                    let s = highest_run(a.used, frames as int)->0;
                    &&& r matches Some((k, v))
                    &&& k == i
                    &&& k < old(self)@.len()
                    &&& v.0 == a.vaddr + s * BASE_PAGE_SIZE
                    &&& 0 <= s <= FRAMES_PER_ARENA - frames
                    &&& final(self)@ == old(self)@.update(i, (Arena { used: mark(a.used, s, frames as int, true), ..a }))
                },
            },
    {
        let mut i: usize = 0;
        while i < self.arenas.len()
            invariant
                self.wf(),
                self@ == old(self)@,
                i <= self@.len(),
                self@.len() == self.arenas@.len(),
                arena_with_run(self@, frames as int, 0) == arena_with_run(self@, frames as int, i as int),
            decreases self@.len() - i,
        {
            let ghost before = self.arenas@;
            assert(self@[i as int] == self.arenas@[i as int]@);
            let r = self.arenas[i].allocate(frames);
            assert(self.arenas@ =~= before.update(i as int, self.arenas@[i as int]));
            match r {
                Some(v) => {
                    assert(self@ =~= old(self)@.update(i as int, self.arenas@[i as int]@));
                    proof {
                        lemma_update_placed(old(self)@, i as int, self.arenas@[i as int]@);
                    }
                    return Some((i, v));
                },
                None => {
                    assert(self@ =~= old(self)@);
                },
            }
            i += 1;
        }
        None
    }

    /// Allocates `len` zeroed bytes, and gives back where they are and how many were taken.
    pub fn allocate<M: Memory, P: PageTable>(
        &mut self,
        len: u64,
        palloc: &mut PageAllocator,
        pt: &mut P,
        vmas: &VmaTable,
        dm: &mut M,
    ) -> (r: Result<(VirtualAddr, u64)>)
        requires
            len > 0,
            old(self).wf(),
            old(palloc).wf(),
            reaches_arenas(old(dm), old(self)@, old(palloc)@),
        ensures
            final(palloc).peak() == small_peak(old(self)@, vmas@, old(palloc)@, old(palloc).peak(), len as int),
            final(self).wf(),
            final(palloc).wf(),
            arenas_backed(old(self)@, old(palloc)@, old(pt).mappings()) ==> arenas_backed(
                final(self)@,
                final(palloc)@,
                final(pt).mappings(),
            ),
            same_window(old(dm), final(dm)),
            small_allocated(
                old(self)@,
                final(self)@,
                vmas@,
                old(palloc)@,
                final(palloc)@,
                old(pt),
                final(pt),
                old(dm),
                final(dm),
                len as int,
                r,
            ),
    {
        let aligned_len: u64 = match align_up_base_page(len) {
            Ok(n) => n,
            Err(e) => {
                return Err(e);
            },
        };
        let frames: u64 = aligned_len / BASE_PAGE_SIZE;
        match self.allocate_from_arenas(frames) {
            Some((i, vaddr)) => {
                proof {
                    assert(self@.len() == self.arenas@.len());
                    assert(self@[i as int] == self.arenas@[i as int]@);
                    assert(old(self)@[i as int].vaddr == self@[i as int].vaddr);
                }
                let paddr: PhysicalAddr = self.arenas[i].paddr_for(vaddr);
                proof {
                    assert(arena_placed(old(self)@[i as int]));
                    assert(within(dm, old(self)@[i as int].paddr, PAGE_SIZE as int));
                    if arenas_backed(old(self)@, palloc@, pt.mappings()) {
                        lemma_update_backed(old(self)@, palloc@, pt.mappings(), i as int, self@[i as int]);
                    }
                }
                fill(dm, paddr.as_u64(), 0, aligned_len);
                return Ok((vaddr, aligned_len));
            },
            None => {},
        }
        let high: VirtualAddr = match self.lowest_arena_base() {
            Some(base) => base,
            None => VirtualAddr::new(USER_MMAP_BASE),
        };
        proof {
            if self@.len() > 0 {
                assert(arena_placed(self@[0]));
                lemma_lowest_base(self@, self@.len() as int, self@[0].vaddr);
            }
        }
        let ghost used = palloc@;
        let ghost mappings = pt.mappings();
        let ghost before = self@;
        proof {
            palloc.lemma_page_count();
        }
        let mut arena = match allocate_arena(high, palloc, pt, vmas, dm) {
            Ok(arena) => arena,
            Err(e) => {
                return Err(e);
            },
        };
        let ghost zeroed = *dm;
        let ghost base = arena@.vaddr;
        let ghost page = arena@.paddr;
        proof {
            lemma_fresh_arena(frames as int);
                law_found_range_is_free(
                vmas@,
                high.0 as int,
                PAGE_SIZE as int,
                PAGE_SIZE as int,
            );
            crate::memory::allocators::palloc::lemma_lowest_run_is_free(used, 1);
            assert(!used[page / PAGE_SIZE as int]);
            assert(within(dm, page, PAGE_SIZE as int));
        }
        let vaddr: VirtualAddr = match arena.allocate(frames) {
            Some(v) => v,
            None => {
                proof {
                    assert(false);
                }
                return Err(MemoryError::OutOfMemory);
            },
        };
        let paddr: PhysicalAddr = arena.paddr_for(vaddr);
        fill(dm, paddr.as_u64(), 0, aligned_len);
        assert(dm.bytes() =~= zeroed.bytes());
        self.arenas.push(arena);
        proof {
            assert(self@ =~= before.push(arena@));
            lemma_push_placed(before, arena@);
            if arenas_backed(before, used, mappings) {
                lemma_push_backed(before, used, mappings, arena@);
            }
        }
        Ok((vaddr, aligned_len))
    }

    /// Gives back `len` bytes from `vaddr` on. An arena without a used frame left goes back to
    /// the page allocator.
    pub fn free<P: PageTable>(&mut self, vaddr: VirtualAddr, len: u64, palloc: &mut PageAllocator, pt: &mut P)
        requires
            old(self).wf(),
            old(palloc).wf(),
            releasable(old(self)@, vaddr.0 as int, len as int),
        ensures
            final(palloc).peak() == old(palloc).peak(),
            final(self).wf(),
            final(palloc).wf(),
            arenas_backed(old(self)@, old(palloc)@, old(pt).mappings()) ==> arenas_backed(
                final(self)@,
                final(palloc)@,
                final(pt).mappings(),
            ),
            ({
                let size = round_up(len as int, BASE_PAGE_SIZE as int);
                match arena_holding(old(self)@, vaddr.0 as int, 0) {
                    Some(i) if size <= PAGE_SIZE => {
                        let a = released(old(self)@[i], vaddr.0 as int, size);
                        if count_used(a.used) == 0 {
                            let page = a.paddr / PAGE_SIZE as int;
                            &&& final(self)@ == old(self)@.update(i, old(self)@.last()).drop_last()
                            &&& final(pt).mappings() == old(pt).mappings().remove(a.vaddr as u64)
                            &&& final(palloc)@ == (if old(pt).mappings().contains_key(a.vaddr as u64) {
                                old(palloc)@.update(page, false)
                            } else {
                                old(palloc)@
                            })
                        } else {
                            &&& final(self)@ == old(self)@.update(i, a)
                            &&& final(palloc)@ == old(palloc)@
                            &&& final(pt).mappings() == old(pt).mappings()
                        }
                    },
                    _ => {
                        &&& final(self)@ == old(self)@
                        &&& final(palloc)@ == old(palloc)@
                        &&& final(pt).mappings() == old(pt).mappings()
                    },
                }
            }),
    {
        let aligned_len: u64 = match align_up_base_page(len) {
            Ok(n) => n,
            Err(_) => {
                return;
            },
        };
        let frames: u64 = aligned_len / BASE_PAGE_SIZE;
        let i: usize = match self.index_holding(vaddr) {
            Some(i) => i,
            None => {
                return;
            },
        };
        let ghost arenas = self.arenas@;
        let ghost before = self@;
        proof {
            palloc.lemma_page_count();
        }
        assert(self@[i as int] == self.arenas@[i as int]@);
        self.arenas[i].free(vaddr, frames);
        assert(self.arenas@ =~= arenas.update(i as int, self.arenas@[i as int]));
        let ghost a = self.arenas@[i as int]@;
        assert(a == released(before[i as int], vaddr.0 as int, aligned_len as int));
        assert(self@ =~= before.update(i as int, a));
        if self.arenas[i].free_frames() == FRAMES_PER_ARENA {
            let arena = self.arenas.swap_remove(i);
            proof {
                assert(self@ =~= before.update(i as int, before.last()).drop_last());
                lemma_drop_placed(before, i as int);
                if arenas_backed(before, palloc@, pt.mappings()) {
                    lemma_drop_backed(before, palloc@, pt.mappings(), i as int);
                }
                assert(pt.mappings().contains_key(a.vaddr as u64) || pt.mappings().remove(a.vaddr as u64) =~= pt.mappings());
                assert(page_of(a.vaddr as u64) == a.vaddr);
            }
            if pt.unmap_2mb(arena.vaddr_base).is_ok() {
                let _ = palloc.free(arena.paddr_base);
            }
        } else {
            proof {
                assert(a.used.len() == FRAMES_PER_ARENA);
                lemma_update_placed(before, i as int, a);
                if arenas_backed(before, palloc@, pt.mappings()) {
                    lemma_update_backed(before, palloc@, pt.mappings(), i as int, a);
                }
            }
        }
    }
}

/// The page table leads from the arena's address to its page.
pub open spec fn mappings_lead(mappings: Map<u64, PageEntry>, a: Arena) -> bool {
    mappings.contains_key(a.vaddr as u64) && mappings[a.vaddr as u64].paddr == a.paddr
}

/// If an arena holds `addr`, then the frames of the `len` bytes from there on lie in it and are
/// in use.
pub open spec fn releasable(arenas: Seq<Arena>, addr: int, len: int) -> bool {
    let n = round_up(len, BASE_PAGE_SIZE as int) / BASE_PAGE_SIZE as int;
    arena_holding(arenas, addr, 0) matches Some(i) ==> {
        let start = (addr - arenas[i].vaddr) / BASE_PAGE_SIZE as int;
        &&& start + n <= FRAMES_PER_ARENA
        &&& forall|k: int| start <= k < start + n ==> #[trigger] arenas[i].used[k]
    }
}

/// The arena with `size` bytes from `addr` on given back.
pub open spec fn released(a: Arena, addr: int, size: int) -> Arena {
    Arena {
        used: mark(a.used, (addr - a.vaddr) / BASE_PAGE_SIZE as int, size / BASE_PAGE_SIZE as int, false),
        ..a
    }
}

/// A new arena below the others keeps all of them apart.
proof fn lemma_push_placed(arenas: Seq<Arena>, a: Arena)
    requires
        arenas_placed(arenas),
        arena_placed(a),
        forall|i: int| 0 <= i < arenas.len() ==> a.vaddr + PAGE_SIZE <= (#[trigger] arenas[i]).vaddr,
    ensures
        arenas_placed(arenas.push(a)),
{
    let after = arenas.push(a);
    assert forall|i: int| 0 <= i < after.len() implies arena_placed(#[trigger] after[i]) by {
        if i < arenas.len() {
            assert(after[i] == arenas[i]);
        }
    }
    assert forall|i: int, j: int| 0 <= i < j < after.len() implies (#[trigger] after[i]).vaddr != (#[trigger] after[j]).vaddr by {
        assert(after[i] == arenas[i]);
        if j < arenas.len() {
            assert(after[j] == arenas[j]);
        }
    }
}

/// A new arena on a page that was free keeps all of them backed.
proof fn lemma_push_backed(arenas: Seq<Arena>, used: Seq<bool>, mappings: Map<u64, PageEntry>, a: Arena)
    requires
        arenas_placed(arenas),
        arenas_backed(arenas, used, mappings),
        used.len() == PAGE_COUNT,
        arena_placed(a),
        !used[a.paddr / PAGE_SIZE as int],
        !mappings.contains_key(a.vaddr as u64),
    ensures
        arenas_backed(
            arenas.push(a),
            mark(used, a.paddr / PAGE_SIZE as int, 1, true),
            mappings.insert(a.vaddr as u64, PageEntry { paddr: a.paddr as u64, present: true }),
        ),
{
    let after = arenas.push(a);
    let used2 = mark(used, a.paddr / PAGE_SIZE as int, 1, true);
    let mappings2 = mappings.insert(a.vaddr as u64, PageEntry { paddr: a.paddr as u64, present: true });
    assert forall|i: int| 0 <= i < after.len() implies used2[(#[trigger] after[i]).paddr / PAGE_SIZE as int] && mappings_lead(
        mappings2,
        after[i],
    ) by {
        if i < arenas.len() {
            assert(after[i] == arenas[i]);
            assert(arena_placed(arenas[i]));
        }
    }
    assert forall|i: int, j: int| 0 <= i < j < after.len() implies (#[trigger] after[i]).paddr != (#[trigger] after[j]).paddr by {
        assert(after[i] == arenas[i]);
        if j < arenas.len() {
            assert(after[j] == arenas[j]);
        }
    }
}

/// Any change to which frames of an arena are in use leaves it in its place.
proof fn lemma_update_placed(arenas: Seq<Arena>, i: int, a: Arena)
    requires
        arenas_placed(arenas),
        0 <= i < arenas.len(),
        a.vaddr == arenas[i].vaddr,
        a.paddr == arenas[i].paddr,
        a.used.len() == FRAMES_PER_ARENA,
    ensures
        arenas_placed(arenas.update(i, a)),
{
    let after = arenas.update(i, a);
    assert(arena_placed(arenas[i]));
    assert forall|k: int| 0 <= k < after.len() implies arena_placed(#[trigger] after[k]) by {
        assert(arena_placed(arenas[k]));
    }
    assert forall|j: int, k: int| 0 <= j < k < after.len() implies (#[trigger] after[j]).vaddr != (#[trigger] after[k]).vaddr by {
        assert(arenas[j].vaddr != arenas[k].vaddr);
    }
}

/// Any change to which frames of an arena are in use leaves it backed.
proof fn lemma_update_backed(arenas: Seq<Arena>, used: Seq<bool>, mappings: Map<u64, PageEntry>, i: int, a: Arena)
    requires
        arenas_backed(arenas, used, mappings),
        0 <= i < arenas.len(),
        a.vaddr == arenas[i].vaddr,
        a.paddr == arenas[i].paddr,
    ensures
        arenas_backed(arenas.update(i, a), used, mappings),
{
    let after = arenas.update(i, a);
    assert forall|k: int| 0 <= k < after.len() implies used[(#[trigger] after[k]).paddr / PAGE_SIZE as int] && mappings_lead(
        mappings,
        after[k],
    ) by {
        assert(mappings_lead(mappings, arenas[k]));
    }
    assert forall|j: int, k: int| 0 <= j < k < after.len() implies (#[trigger] after[j]).paddr != (#[trigger] after[k]).paddr by {
        assert(arenas[j].paddr != arenas[k].paddr);
    }
}

/// The other arenas stay in their places when one is dropped.
proof fn lemma_drop_placed(arenas: Seq<Arena>, i: int)
    requires
        arenas_placed(arenas),
        0 <= i < arenas.len(),
    ensures
        arenas_placed(arenas.update(i, arenas.last()).drop_last()),
{
    let after = arenas.update(i, arenas.last()).drop_last();
    let last = arenas.len() - 1;
    assert forall|k: int| 0 <= k < after.len() implies arena_placed(#[trigger] after[k]) by {
        assert(after[k] == arenas[if k == i { last } else { k }]);
    }
    assert forall|j: int, k: int| 0 <= j < k < after.len() implies (#[trigger] after[j]).vaddr != (#[trigger] after[k]).vaddr by {
        let jj = if j == i { last } else { j };
        let kk = if k == i { last } else { k };
        assert(after[j] == arenas[jj]);
        assert(after[k] == arenas[kk]);
    }
}

/// The other arenas stay backed when one is unmapped and its page freed.
proof fn lemma_drop_backed(arenas: Seq<Arena>, used: Seq<bool>, mappings: Map<u64, PageEntry>, i: int)
    requires
        arenas_placed(arenas),
        arenas_backed(arenas, used, mappings),
        used.len() == PAGE_COUNT,
        0 <= i < arenas.len(),
    ensures
        arenas_backed(
            arenas.update(i, arenas.last()).drop_last(),
            used.update(arenas[i].paddr / PAGE_SIZE as int, false),
            mappings.remove(arenas[i].vaddr as u64),
        ),
        mappings.contains_key(arenas[i].vaddr as u64),
{
    let after = arenas.update(i, arenas.last()).drop_last();
    let used2 = used.update(arenas[i].paddr / PAGE_SIZE as int, false);
    let mappings2 = mappings.remove(arenas[i].vaddr as u64);
    let last = arenas.len() - 1;
    assert(arena_placed(arenas[i]));
    assert(mappings_lead(mappings, arenas[i]));
    assert forall|k: int| 0 <= k < after.len() implies used2[(#[trigger] after[k]).paddr / PAGE_SIZE as int] && mappings_lead(
        mappings2,
        after[k],
    ) by {
        let kk = if k == i { last } else { k };
        assert(after[k] == arenas[kk]);
        assert(arena_placed(arenas[kk]));
        assert(mappings_lead(mappings, arenas[kk]));
        if kk < i {
            assert(arenas[kk].vaddr != arenas[i].vaddr);
        } else {
            assert(arenas[i].vaddr != arenas[kk].vaddr);
        }
    }
    assert forall|j: int, k: int| 0 <= j < k < after.len() implies (#[trigger] after[j]).paddr != (#[trigger] after[k]).paddr by {
        let jj = if j == i { last } else { j };
        let kk = if k == i { last } else { k };
        assert(after[j] == arenas[jj]);
        assert(after[k] == arenas[kk]);
        if jj < kk {
            assert(arenas[jj].vaddr != arenas[kk].vaddr);
        } else {
            assert(arenas[kk].vaddr != arenas[jj].vaddr);
        }
    }
}

} // verus!
