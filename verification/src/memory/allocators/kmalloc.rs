//! The kernel heap: an address-ordered list of free blocks, kept in the free
//! memory itself, searched first-fit and coalesced on every insertion.

use vstd::prelude::*;

use crate::address::PhysicalAddr;
use crate::bits::{
    align_up, is_pow2, law_next_pow2, law_round_up, lemma_pow2_multiple_of_8, next_pow2, next_power_of_two,
    round_up,
};
use crate::layout::{PAGE_SIZE, PAGE_TABLE_SIZE};
use crate::memory::access::{
    byte, fill, framed, lemma_framed_trans, lemma_word_frame, lemma_wrote_framed, read_u64, same_window, within,
    word, write_u64, Memory,
};
use crate::memory::allocators::palloc::{
    count_used, first_free_run, free_run, law_allocate_counts, lemma_count_bound, lemma_peak_on, lemma_peak_stays,
    lowest_run, mark, PAGE_COUNT, PageAllocator, peak_grows,
};
use crate::memory::errors::{MemoryError, Result};

verus! {

/// Largest request that the heap serves.
pub const MAX_ALLOC: u64 = 0x100_0000;

const FREE_LIST_END: u64 = 0;

/// Size of the words at the start of a free block: its size, and where the next one starts.
pub const MIN_FREE_BLOCK_SIZE: u64 = 16;

pub const MIN_ALIGNMENT: u64 = 8;

/// Size of the header in front of every allocation.
pub const HEADER_SIZE: u64 = 16;

/// A range of physical memory.
pub struct Block {
    pub start: int,
    pub size: int,
}

impl Block {
    pub open spec fn end(self) -> int {
        self.start + self.size
    }

    pub open spec fn disjoint(self, other: Block) -> bool {
        self.end() <= other.start || other.end() <= self.start
    }
}

/// The alignment that a request of `size` bytes gets by itself.
pub open spec fn natural_alignment(size: int) -> int {
    let p = next_pow2(size as nat) as int;
    if p < MIN_ALIGNMENT {
        MIN_ALIGNMENT as int
    } else if p > PAGE_TABLE_SIZE {
        PAGE_TABLE_SIZE as int
    } else {
        p
    }
}

/// Where an allocation of `total` bytes, header included, goes in a free block so
/// that the address behind the header is a multiple of `align`.
///
/// What is left before the allocation is nothing or large enough for a free block;
/// a smaller rest behind it becomes part of it.
pub open spec fn place(b: Block, total: int, align: int) -> Option<Block> {
    let near = round_up(b.start + HEADER_SIZE, align);
    let gap = near - HEADER_SIZE - b.start;
    let user = if 0 < gap < MIN_FREE_BLOCK_SIZE { near + align } else { near };
    let start = user - HEADER_SIZE;
    let rest = b.end() - (start + total);
    if rest < 0 {
        None
    } else if rest < MIN_FREE_BLOCK_SIZE {
        Some(Block { start, size: total + rest })
    } else {
        Some(Block { start, size: total })
    }
}

/// The first block, from index `from` on, in which the allocation can be placed.
pub open spec fn first_fit(free: Seq<Block>, total: int, align: int, from: int) -> Option<int>
    decreases free.len() - from,
{
    if from >= free.len() {
        None
    } else if place(free[from], total, align) is Some {
        Some(from)
    } else {
        first_fit(free, total, align, from + 1)
    }
}

/// What is left of block `b` once `piece` is cut out of it.
pub open spec fn remains(b: Block, piece: Block) -> Seq<Block> {
    let left = Block { start: b.start, size: piece.start - b.start };
    let right = Block { start: piece.end(), size: b.end() - piece.end() };
    if left.size > 0 && right.size > 0 {
        seq![left, right]
    } else if left.size > 0 {
        seq![left]
    } else if right.size > 0 {
        seq![right]
    } else {
        seq![]
    }
}

/// The free list with `piece` cut out of block `i`.
pub open spec fn carve(free: Seq<Block>, i: int, piece: Block) -> Seq<Block> {
    free.take(i) + remains(free[i], piece) + free.skip(i + 1)
}

/// How many blocks, counted from index `from`, lie below `start`.
pub open spec fn position(free: Seq<Block>, start: int, from: int) -> int
    decreases free.len() - from,
{
    if from < free.len() && free[from].start < start {
        position(free, start, from + 1)
    } else {
        from
    }
}

/// The free list with `b` added, joined with the neighbours that it touches.
pub open spec fn insert_block(free: Seq<Block>, b: Block) -> Seq<Block> {
    let p = position(free, b.start, 0);
    let joins_left = p > 0 && free[p - 1].end() == b.start;
    let joins_right = p < free.len() && b.end() == free[p].start;
    let start = if joins_left { free[p - 1].start } else { b.start };
    let end = if joins_right { free[p].end() } else { b.end() };
    free.take(if joins_left { p - 1 } else { p }).push(Block { start, size: end - start })
        + free.skip(if joins_right { p + 1 } else { p })
}

/// How many pages the heap takes when no free block can hold `total` bytes.
pub open spec fn growth(total: int) -> int {
    if total <= PAGE_SIZE { 1 } else { (total + PAGE_SIZE - 1) / PAGE_SIZE as int }
}

/// The outcome of a request: the block cut out, or none if the pages ran out; the
/// free list after it; and the pages in use after it.
pub open spec fn heap_allocate(
    free: Seq<Block>,
    used: Seq<bool>,
    total: int,
    align: int,
) -> (Option<Block>, Seq<Block>, Seq<bool>)
    decreases used.len() - count_used(used),
{
    match first_fit(free, total, align, 0) {
        Some(i) => {
            let piece = place(free[i], total, align).unwrap();
            (Some(piece), carve(free, i, piece), used)
        },
        None => match lowest_run(used, growth(total)) {
            None => (None, free, used),
            Some(s) => {
                let n = growth(total);
                proof {
                    lemma_growth_uses_pages(used, s, n, total);
                }
                heap_allocate(
                    insert_block(free, Block { start: s * PAGE_SIZE, size: n * PAGE_SIZE }),
                    mark(used, s, n, true),
                    total,
                    align,
                )
            },
        },
    }
}

/// Growing the heap puts at least one more page in use.
pub proof fn lemma_growth_uses_pages(used: Seq<bool>, s: int, n: int, total: int)
    requires
        lowest_run(used, n) == Some(s),
        n == growth(total),
    ensures
        first_free_run(used, s, n),
        n >= 1,
        count_used(mark(used, s, n, true)) == count_used(used) + n,
        count_used(used) + n <= used.len(),
{
    law_allocate_counts(used, s, n);
    lemma_count_bound(mark(used, s, n, true));
}

/// The size of the block that serves a request, header included.
pub open spec fn total_size(size: int) -> int {
    round_up(size + HEADER_SIZE, MIN_ALIGNMENT as int)
}

pub open spec fn max(a: int, b: int) -> int {
    if a >= b { a } else { b }
}

/// Block `b` is large enough for a free block, consists of whole words, and lies in
/// pages that are in use, above page zero.
pub open spec fn in_used_pages(used: Seq<bool>, b: Block) -> bool {
    &&& 0 < b.start
    &&& MIN_FREE_BLOCK_SIZE <= b.size
    &&& b.start % 8 == 0
    &&& b.size % 8 == 0
    &&& b.end() <= used.len() * PAGE_SIZE
    &&& pages_used(used, b)
}

/// Every page that `b` touches is in use.
#[verifier::opaque]
pub open spec fn pages_used(used: Seq<bool>, b: Block) -> bool {
    forall|p: int|
        0 <= p && p * PAGE_SIZE < b.end() && b.start < (p + 1) * PAGE_SIZE ==> #[trigger] used[p]
}

/// A block inside of another touches no more pages.
proof fn lemma_pages_used_inside(used: Seq<bool>, outer: Block, inner: Block)
    requires
        pages_used(used, outer),
        outer.start <= inner.start,
        inner.end() <= outer.end(),
    ensures
        pages_used(used, inner),
{
    reveal(pages_used);
}

/// Two blocks that touch each other touch the pages of both together.
proof fn lemma_pages_used_join(used: Seq<bool>, a: Block, b: Block)
    requires
        pages_used(used, a),
        pages_used(used, b),
        a.end() == b.start,
        0 <= a.size,
        0 <= b.size,
    ensures
        pages_used(used, Block { start: a.start, size: a.size + b.size }),
{
    reveal(pages_used);
    assert forall|p: int| 0 <= p && p * PAGE_SIZE < b.end() && a.start < (p + 1) * PAGE_SIZE implies #[trigger] used[p] by {
        if p * PAGE_SIZE < a.end() {
        } else {
            assert(b.start < (p + 1) * PAGE_SIZE);
        }
    }
}


/// The free blocks lie in order with gaps between them, and no two of the free
/// blocks and the live allocations overlap.
pub open spec fn separated(free: Seq<Block>, live: Map<int, int>) -> bool {
    &&& forall|i: int, j: int| 0 <= i < j < free.len() ==> (#[trigger] free[i]).end() < (#[trigger] free[j]).start
    &&& forall|i: int, s: int|
        0 <= i < free.len() && live.contains_key(s) ==> (#[trigger] free[i]).disjoint(
            Block { start: s, size: #[trigger] live[s] },
        )
    &&& forall|s: int, t: int|
        live.contains_key(s) && live.contains_key(t) && s != t ==> (Block { start: s, size: #[trigger] live[s] }).disjoint(
            Block { start: t, size: #[trigger] live[t] },
        )
}

/// Every block of the heap lies in used pages.
pub open spec fn backed(free: Seq<Block>, live: Map<int, int>, used: Seq<bool>) -> bool {
    &&& used.len() == PAGE_COUNT
    &&& used[0]
    &&& forall|i: int| 0 <= i < free.len() ==> in_used_pages(used, #[trigger] free[i])
    &&& forall|s: int| live.contains_key(s) ==> in_used_pages(used, Block { start: s, size: #[trigger] live[s] })
}

/// The window reaches every page that is in use by the heap or free to be taken.
pub open spec fn reaches<M: Memory>(dm: &M, free: Seq<Block>, live: Map<int, int>, used: Seq<bool>) -> bool {
    &&& forall|p: int| 0 <= p < used.len() && !(#[trigger] used[p]) ==> within(dm, p * PAGE_SIZE, PAGE_SIZE as int)
    &&& forall|i: int| 0 <= i < free.len() ==> within(dm, (#[trigger] free[i]).start, free[i].size)
    &&& forall|s: int| live.contains_key(s) ==> within(dm, s, #[trigger] live[s])
}

/// The words in memory link the free blocks in order, from `head` on.
pub open spec fn linked<M: Memory>(dm: &M, free: Seq<Block>, head: int) -> bool {
    &&& head == start_of(free, 0)
    &&& forall|i: int|
        0 <= i < free.len() ==> {
            &&& word(dm, (#[trigger] free[i]).start) == free[i].size
            &&& word(dm, free[i].start + 8) == start_of(free, i + 1)
        }
}

/// The address of block `i`, or zero behind the last.
pub open spec fn start_of(free: Seq<Block>, i: int) -> int {
    if i < free.len() { free[i].start } else { 0 }
}

/// Every live allocation has its size in its header.
pub open spec fn headed<M: Memory>(dm: &M, live: Map<int, int>) -> bool {
    forall|s: int| live.contains_key(s) ==> word(dm, s) == #[trigger] live[s]
}

/// No byte of an allocation in `live` differs between the two states, headers included.
pub open spec fn keeps<M: Memory>(before: &M, after: &M, live: Map<int, int>) -> bool {
    forall|s: int, a: int|
        live.contains_key(s) && s <= a < s + #[trigger] live[s] ==> #[trigger] byte(after, a) == byte(before, a)
}

/// The kernel heap.
pub struct KernelAllocator {
    free_list_head: u64,
    free: Ghost<Seq<Block>>,
    live: Ghost<Map<int, int>>,
}


struct Placement {
    alloc_start: u64,
    alloc_size: u64,
    prefix_size: u64,
    suffix_start: u64,
    suffix_size: u64,
}

fn allocation_alignment(size: u64) -> (r: u64)
    requires
        size <= MAX_ALLOC,
    ensures
        r == natural_alignment(size as int),
{
    let p: u64 = next_power_of_two(size);
    if p < MIN_ALIGNMENT {
        MIN_ALIGNMENT
    } else if p > PAGE_TABLE_SIZE {
        PAGE_TABLE_SIZE
    } else {
        p
    }
}

fn place_allocation(block_start: u64, block_size: u64, alloc_size: u64, user_align: u64) -> (r: Option<Placement>)
    requires
        0 < user_align <= 0x8000_0000_0000_0000,
        block_start + block_size <= 0x1_0000_0000_0000,
        alloc_size <= 0x1_0000_0000_0000,
    ensures
        ({
            let b = Block { start: block_start as int, size: block_size as int };
            match r {
                None => place(b, alloc_size as int, user_align as int) is None,
                Some(p) => {
                    &&& place(b, alloc_size as int, user_align as int) == Some(
                        Block { start: p.alloc_start as int, size: p.alloc_size as int },
                    )
                    &&& p.prefix_size == p.alloc_start - block_start
                    &&& p.suffix_start == p.alloc_start + p.alloc_size
                    &&& p.suffix_size == b.end() - p.suffix_start
                },
            }
        }),
{
    let block_end: u64 = block_start + block_size;
    proof {
        law_round_up(block_start + HEADER_SIZE, user_align as int);
    }
    let user_ptr: u64 = align_up(block_start + HEADER_SIZE, user_align);
    let mut alloc_start: u64 = user_ptr - HEADER_SIZE;
    let mut prefix_size: u64 = alloc_start - block_start;
    if prefix_size != 0 && prefix_size < MIN_FREE_BLOCK_SIZE {
        let moved: u64 = match user_ptr.checked_add(user_align) {
            Some(moved) => moved,
            None => {
                return None;
            },
        };
        alloc_start = moved - HEADER_SIZE;
        prefix_size = alloc_start - block_start;
    }
    let alloc_end: u64 = match alloc_start.checked_add(alloc_size) {
        Some(alloc_end) => alloc_end,
        None => {
            return None;
        },
    };
    if alloc_end > block_end {
        return None;
    }
    let mut final_alloc_size: u64 = alloc_size;
    let mut suffix_start: u64 = alloc_end;
    let mut suffix_size: u64 = block_end - alloc_end;
    if suffix_size != 0 && suffix_size < MIN_FREE_BLOCK_SIZE {
        final_alloc_size = final_alloc_size + suffix_size;
        suffix_start = block_end;
        suffix_size = 0;
    }
    Some(Placement { alloc_start, alloc_size: final_alloc_size, prefix_size, suffix_start, suffix_size })
}

/// A multiple of a multiple of eight is a multiple of eight.
proof fn lemma_multiple_of_8(a: int, m: int)
    requires
        a % m == 0,
        m % 8 == 0,
        0 < m,
    ensures
        a % 8 == 0,
{
    let k = a / m;
    let j = m / 8;
    vstd::arithmetic::div_mod::lemma_fundamental_div_mod(a, m);
    assert(a == (k * j) * 8) by (nonlinear_arith)
        requires
            a == m * k + a % m,
            a % m == 0,
            m == 8 * j,
    ;
    vstd::arithmetic::div_mod::lemma_mod_multiples_basic(k * j, 8);
}

/// A placement lies in its block, is aligned, and leaves usable blocks or nothing.
pub proof fn law_place(b: Block, total: int, align: int)
    requires
        0 <= b.start,
        b.start % 8 == 0,
        b.size % 8 == 0,
        0 < total,
        total % 8 == 0,
        0 < align,
        align % 8 == 0,
    ensures
        place(b, total, align) matches Some(piece) ==> {
            &&& b.start <= piece.start
            &&& piece.end() <= b.end()
            &&& total <= piece.size < total + MIN_FREE_BLOCK_SIZE
            &&& (piece.start + HEADER_SIZE) % align == 0
            &&& piece.start % 8 == 0
            &&& piece.size % 8 == 0
            &&& piece.start == b.start || piece.start - b.start >= MIN_FREE_BLOCK_SIZE
            &&& piece.end() == b.end() || b.end() - piece.end() >= MIN_FREE_BLOCK_SIZE
        },
{
    law_round_up(b.start + HEADER_SIZE, align);
    let near = round_up(b.start + HEADER_SIZE, align);
    lemma_multiple_of_8(near, align);
    vstd::arithmetic::div_mod::lemma_mod_add_multiples_vanish(near, align);
}

/// Cutting a piece out of a free block keeps the blocks of the heap apart.
#[verifier::rlimit(40)]
proof fn lemma_carve(free: Seq<Block>, live: Map<int, int>, used: Seq<bool>, i: int, piece: Block)
    requires
        separated(free, live),
        backed(free, live, used),
        0 <= i < free.len(),
        free[i].start <= piece.start,
        piece.end() <= free[i].end(),
        piece.size >= MIN_FREE_BLOCK_SIZE,
        piece.start % 8 == 0,
        piece.size % 8 == 0,
        piece.start == free[i].start || piece.start - free[i].start >= MIN_FREE_BLOCK_SIZE,
        piece.end() == free[i].end() || free[i].end() - piece.end() >= MIN_FREE_BLOCK_SIZE,
    ensures
        separated(carve(free, i, piece), live.insert(piece.start, piece.size)),
        backed(carve(free, i, piece), live.insert(piece.start, piece.size), used),
        !live.contains_key(piece.start),
{
    let b = free[i];
    let mid = remains(b, piece);
    let cut = carve(free, i, piece);
    let live2 = live.insert(piece.start, piece.size);
    assert(in_used_pages(used, b));
    if live.contains_key(piece.start) {
        assert(b.disjoint(Block { start: piece.start, size: live[piece.start] }));
        assert(in_used_pages(used, Block { start: piece.start, size: live[piece.start] }));
        assert(false);
    }
    assert forall|k: int| 0 <= k < cut.len() implies #[trigger] cut[k] == (if k < i {
        free[k]
    } else if k < i + mid.len() {
        mid[k - i]
    } else {
        free[k - mid.len() + 1]
    }) by {}
    assert forall|k: int| 0 <= k < mid.len() implies {
        &&& b.start <= (#[trigger] mid[k]).start
        &&& mid[k].end() <= b.end()
        &&& mid[k].size >= MIN_FREE_BLOCK_SIZE
        &&& mid[k].disjoint(piece)
        &&& in_used_pages(used, mid[k])
    } by {
        lemma_pages_used_inside(used, b, mid[k]);
    }
    lemma_pages_used_inside(used, b, piece);
    assert forall|k: int| 0 <= k < cut.len() implies in_used_pages(used, #[trigger] cut[k]) by {
        if k >= i + mid.len() {
            assert(in_used_pages(used, free[k - mid.len() + 1]));
        } else if k < i {
            assert(in_used_pages(used, free[k]));
        }
    }
    assert forall|j: int, k: int| 0 <= j < k < cut.len() implies (#[trigger] cut[j]).end() < (#[trigger] cut[k]).start by {
        let jj = if j < i { j } else if j < i + mid.len() { i } else { j - mid.len() + 1 };
        let kk = if k < i { k } else if k < i + mid.len() { i } else { k - mid.len() + 1 };
        if jj < kk {
            assert(free[jj].end() < free[kk].start);
        }
    }
    assert forall|k: int, s: int| 0 <= k < cut.len() && live2.contains_key(s) implies (#[trigger] cut[k]).disjoint(
        Block { start: s, size: #[trigger] live2[s] },
    ) by {
        let kk = if k < i { k } else if k < i + mid.len() { i } else { k - mid.len() + 1 };
        if s != piece.start {
            assert(free[kk].disjoint(Block { start: s, size: live[s] }));
        } else if kk != i {
            assert(free[kk].end() < b.start || b.end() < free[kk].start);
        }
    }
    assert forall|s: int, t: int| live2.contains_key(s) && live2.contains_key(t) && s != t implies (Block {
        start: s,
        size: #[trigger] live2[s],
    }).disjoint(Block { start: t, size: #[trigger] live2[t] }) by {
        if s == piece.start {
            assert(b.disjoint(Block { start: t, size: live[t] }));
        } else if t == piece.start {
            assert(b.disjoint(Block { start: s, size: live[s] }));
        }
    }
    assert forall|s: int| live2.contains_key(s) implies in_used_pages(used, Block { start: s, size: #[trigger] live2[s] }) by {
        if s != piece.start {
            assert(in_used_pages(used, Block { start: s, size: live[s] }));
        }
    }
}

/// `position` splits the list at `start`.
proof fn lemma_position(free: Seq<Block>, start: int, from: int)
    requires
        0 <= from <= free.len(),
        forall|i: int, j: int| 0 <= i < j < free.len() ==> (#[trigger] free[i]).end() < (#[trigger] free[j]).start,
        forall|i: int| 0 <= i < free.len() ==> (#[trigger] free[i]).size >= 0,
        forall|i: int| 0 <= i < from ==> (#[trigger] free[i]).start < start,
    ensures
        ({
            let p = position(free, start, from);
            &&& from <= p <= free.len()
            &&& forall|i: int| 0 <= i < p ==> (#[trigger] free[i]).start < start
            &&& forall|i: int| p <= i < free.len() ==> (#[trigger] free[i]).start >= start
        }),
    decreases free.len() - from,
{
    if from < free.len() && free[from].start < start {
        lemma_position(free, start, from + 1);
    } else if from < free.len() {
        assert forall|i: int| from <= i < free.len() implies (#[trigger] free[i]).start >= start by {
            if i > from {
                assert(free[from].end() < free[i].start);
            }
        }
    }
}

/// Adding a block that overlaps nothing keeps the blocks of the heap apart.
#[verifier::rlimit(40)]
proof fn lemma_insert(free: Seq<Block>, live: Map<int, int>, used: Seq<bool>, b: Block)
    requires
        separated(free, live),
        backed(free, live, used),
        in_used_pages(used, b),
        forall|i: int| 0 <= i < free.len() ==> (#[trigger] free[i]).disjoint(b),
        forall|s: int| live.contains_key(s) ==> b.disjoint(Block { start: s, size: #[trigger] live[s] }),
    ensures
        separated(insert_block(free, b), live),
        backed(insert_block(free, b), live, used),
{
    assert forall|i: int| 0 <= i < free.len() implies (#[trigger] free[i]).size >= 0 by {
        assert(in_used_pages(used, free[i]));
    }
    lemma_position(free, b.start, 0);
    let p = position(free, b.start, 0);
    let joins_left = p > 0 && free[p - 1].end() == b.start;
    let joins_right = p < free.len() && b.end() == free[p].start;
    let lo = if joins_left { p - 1 } else { p };
    let hi = if joins_right { p + 1 } else { p };
    let merged = Block {
        start: if joins_left { free[p - 1].start } else { b.start },
        size: (if joins_right { free[p].end() } else { b.end() }) - (if joins_left { free[p - 1].start } else { b.start }),
    };
    let f = insert_block(free, b);
    assert(f == free.take(lo).push(merged) + free.skip(hi));
    assert forall|k: int| 0 <= k < f.len() implies #[trigger] f[k] == (if k < lo {
        free[k]
    } else if k == lo {
        merged
    } else {
        free[k - lo - 1 + hi]
    }) by {}
    if p > 0 {
        assert(in_used_pages(used, free[p - 1]));
        assert(free[p - 1].disjoint(b));
    }
    if p < free.len() {
        assert(in_used_pages(used, free[p]));
        assert(free[p].disjoint(b));
        assert(b.end() <= free[p].start);
    }
    assert(in_used_pages(used, merged)) by {
        let half = if joins_left {
            lemma_pages_used_join(used, free[p - 1], b);
            Block { start: free[p - 1].start, size: free[p - 1].size + b.size }
        } else {
            b
        };
        if joins_right {
            lemma_pages_used_join(used, half, free[p]);
        }
    }
    assert forall|k: int| 0 <= k < f.len() implies in_used_pages(used, #[trigger] f[k]) by {
        if k < lo {
            assert(in_used_pages(used, free[k]));
        } else if k > lo {
            assert(in_used_pages(used, free[k - lo - 1 + hi]));
        }
    }
    assert forall|k: int| 0 <= k < lo implies (#[trigger] free[k]).end() < merged.start by {
        assert(free[k].disjoint(b));
        if p > 0 && k < p - 1 {
            assert(free[k].end() < free[p - 1].start);
        }
    }
    assert forall|k: int| hi <= k < free.len() implies merged.end() < (#[trigger] free[k]).start by {
        assert(free[k].disjoint(b));
        if k > p {
            assert(free[p].end() < free[k].start);
        }
    }
    assert forall|j: int, k: int| 0 <= j < k < f.len() implies (#[trigger] f[j]).end() < (#[trigger] f[k]).start by {
        if j < lo && k < lo {
            assert(free[j].end() < free[k].start);
        } else if j > lo {
            assert(free[j - lo - 1 + hi].end() < free[k - lo - 1 + hi].start);
        } else if j < lo && k > lo {
            assert(free[j].end() < free[k - lo - 1 + hi].start);
        }
    }
    assert forall|k: int, s: int| 0 <= k < f.len() && live.contains_key(s) implies (#[trigger] f[k]).disjoint(
        Block { start: s, size: #[trigger] live[s] },
    ) by {
        let l = Block { start: s, size: live[s] };
        assert(in_used_pages(used, l));
        if k < lo {
            assert(free[k].disjoint(l));
        } else if k > lo {
            assert(free[k - lo - 1 + hi].disjoint(l));
        } else {
            assert(b.disjoint(l));
            if joins_left {
                assert(free[p - 1].disjoint(l));
            }
            if joins_right {
                assert(free[p].disjoint(l));
            }
        }
    }
}

/// Pages that were not in use overlap no block of the heap.
proof fn lemma_fresh_pages(b: Block, used: Seq<bool>, s: int, n: int)
    requires
        in_used_pages(used, b),
        free_run(used, s, n),
        n >= 1,
    ensures
        b.disjoint(Block { start: s * PAGE_SIZE, size: n * PAGE_SIZE }),
{
    let run = Block { start: s * PAGE_SIZE, size: n * PAGE_SIZE };
    if !b.disjoint(run) {
        reveal(pages_used);
        let q = b.start / PAGE_SIZE as int;
        let p = if q >= s { q } else { s };
        assert(used[p]);
        assert(!used[p]);
    }
}

impl KernelAllocator {
    /// The free blocks, in address order.
    pub closed spec fn free_blocks(&self) -> Seq<Block> {
        self.free@
    }

    /// The start and the size of each live allocation, header included.
    pub closed spec fn live(&self) -> Map<int, int> {
        self.live@
    }

    /// Address of the first free block.
    pub closed spec fn head(&self) -> int {
        self.free_list_head as int
    }

    /// The heap is sound over the pages in `used` and the memory in `dm`.
    pub open spec fn wf<M: Memory>(&self, used: Seq<bool>, dm: &M) -> bool {
        &&& separated(self.free_blocks(), self.live())
        &&& backed(self.free_blocks(), self.live(), used)
        &&& reaches(dm, self.free_blocks(), self.live(), used)
        &&& linked(dm, self.free_blocks(), self.head())
        &&& headed(dm, self.live())
    }

    /// A heap that has no memory yet.
    pub fn new() -> (r: Self)
        ensures
            r.free_blocks() == Seq::<Block>::empty(),
            r.live() == Map::<int, int>::empty(),
            r.head() == 0,
    {
        KernelAllocator { free_list_head: FREE_LIST_END, free: Ghost(Seq::empty()), live: Ghost(Map::empty()) }
    }
}

/// Writes the two words of a free block.
fn write_free_block<M: Memory>(dm: &mut M, addr: u64, size: u64, next: u64)
    requires
        within(old(dm), addr as int, 16),
        addr + 16 <= u64::MAX,
    ensures
        word(final(dm), addr as int) == size,
        word(final(dm), addr + 8) == next,
        framed(old(dm), final(dm), addr as int, addr + 16),
{
    let ghost before = *dm;
    write_u64(dm, addr, size);
    let ghost between = *dm;
    write_u64(dm, addr + 8, next);
    proof {
        lemma_framed_trans(&before, &between, dm, addr as int, addr + 8, addr + 8, addr + 16, addr as int, addr + 16);
        assert(word(dm, addr as int) == word(&between, addr as int));
    }
}

/// The words of `part` link its blocks in order, the last one to `next`.
pub open spec fn linked_to<M: Memory>(dm: &M, part: Seq<Block>, next: int) -> bool {
    forall|k: int|
        0 <= k < part.len() ==> {
            &&& word(dm, (#[trigger] part[k]).start) == part[k].size
            &&& word(dm, part[k].start + 8) == (if k + 1 < part.len() { part[k + 1].start } else { next })
        }
}

/// Where `part`, followed by what starts at `next`, starts.
pub open spec fn first_start(part: Seq<Block>, next: int) -> int {
    if part.len() > 0 { part[0].start } else { next }
}

/// The list stays linked when block `i` is replaced by blocks inside of it.
#[verifier::spinoff_prover]
#[verifier::rlimit(60)]
proof fn lemma_replace_linked<M: Memory>(
    before: &M,
    between: &M,
    after: &M,
    free: Seq<Block>,
    live: Map<int, int>,
    used: Seq<bool>,
    head: int,
    i: int,
    mid: Seq<Block>,
    new_head: int,
)
    requires
        separated(free, live),
        backed(free, live, used),
        reaches(before, free, live, used),
        linked(before, free, head),
        0 <= i < free.len(),
        framed(before, between, free[i].start, free[i].end()),
        forall|k: int| 0 <= k < mid.len() ==> free[i].start <= (#[trigger] mid[k]).start && mid[k].start + 16 <= free[i].end(),
        linked_to(between, mid, start_of(free, i + 1)),
        i == 0 ==> after == between && new_head == first_start(mid, start_of(free, i + 1)),
        i > 0 ==> new_head == head && framed(between, after, free[i - 1].start + 8, free[i - 1].start + 16) && word(
            after,
            free[i - 1].start + 8,
        ) == first_start(mid, start_of(free, i + 1)),
    ensures
        linked(after, free.take(i) + mid + free.skip(i + 1), new_head),
{
    let cut = free.take(i) + mid + free.skip(i + 1);
    let b = free[i];
    let m = mid.len() as int;
    assert(in_used_pages(used, b));
    assert(within(before, b.start, b.size));
    if i > 0 {
        assert(in_used_pages(used, free[i - 1]));
        assert(free[i - 1].end() < b.start);
    }
    assert forall|k: int| 0 <= k < cut.len() implies {
        &&& word(after, (#[trigger] cut[k]).start) == cut[k].size
        &&& word(after, cut[k].start + 8) == start_of(cut, k + 1)
    } by {
        if k < i {
            assert(cut[k] == free[k]);
            assert(in_used_pages(used, free[k]));
            assert(within(before, free[k].start, free[k].size));
            assert(free[k].end() < b.start);
            assert(word(between, free[k].start) == word(before, free[k].start));
            assert(word(between, free[k].start + 8) == word(before, free[k].start + 8));
            if k < i - 1 {
                assert(free[k].end() < free[i - 1].start);
                assert(cut[k + 1] == free[k + 1]);
            }
        } else if k < i + m {
            assert(cut[k] == mid[k - i]);
            assert(word(between, mid[k - i].start) == mid[k - i].size);
            if k + 1 < i + m {
                assert(cut[k + 1] == mid[k + 1 - i]);
            } else if k + 1 < cut.len() {
                assert(cut[k + 1] == free[i + 1]);
            }
        } else {
            let j = k - m + 1;
            assert(cut[k] == free[j]);
            assert(in_used_pages(used, free[j]));
            assert(within(before, free[j].start, free[j].size));
            assert(b.end() < free[j].start);
            assert(word(between, free[j].start) == word(before, free[j].start));
            assert(word(between, free[j].start + 8) == word(before, free[j].start + 8));
            if k + 1 < cut.len() {
                assert(cut[k + 1] == free[j + 1]);
            }
        }
    }
    if i > 0 {
        assert(cut[0] == free[0]);
    } else if m > 0 {
        assert(cut[0] == mid[0]);
    } else if cut.len() > 0 {
        assert(cut[0] == free[1]);
    }
}

/// Live allocations outlive every change inside of a range that they do not overlap.
proof fn lemma_frame_keeps<M: Memory>(before: &M, after: &M, live: Map<int, int>, b: Block)
    requires
        framed(before, after, b.start, b.end()),
        forall|s: int| live.contains_key(s) ==> b.disjoint(Block { start: s, size: #[trigger] live[s] }),
        forall|s: int| live.contains_key(s) ==> within(before, s, #[trigger] live[s]),
    ensures
        keeps(before, after, live),
{
    assert forall|s: int, a: int| live.contains_key(s) && s <= a < s + #[trigger] live[s] implies #[trigger] byte(after, a)
        == byte(before, a) by {
        assert(b.disjoint(Block { start: s, size: live[s] }));
        assert(within(before, s, live[s]));
    }
}

/// Headers outlive every change that leaves the live allocations alone.
proof fn lemma_headed_kept<M: Memory>(before: &M, after: &M, live: Map<int, int>, used: Seq<bool>, free: Seq<Block>)
    requires
        same_window(before, after),
        keeps(before, after, live),
        headed(before, live),
        backed(free, live, used),
        reaches(before, free, live, used),
    ensures
        headed(after, live),
{
    assert forall|s: int| live.contains_key(s) implies word(after, s) == #[trigger] live[s] by {
        assert(in_used_pages(used, Block { start: s, size: live[s] }));
        assert(within(before, s, live[s]));
        assert forall|k: int| s <= k < s + 8 implies byte(after, k) == byte(before, k) by {
            assert(s <= k < s + live[s]);
        }
        lemma_word_frame(before, after, s);
    }
}

/// Writes the free blocks that are left of block `b`, and gives back where the first one starts.
fn write_remains<M: Memory>(dm: &mut M, current: u64, next: u64, placement: &Placement, b: Ghost<Block>) -> (link: u64)
    requires
        current == b@.start,
        b@.end() <= 0x1_0000_0000_0000,
        within(old(dm), b@.start, b@.size),
        b@.start <= placement.alloc_start,
        placement.alloc_start + placement.alloc_size <= b@.end(),
        placement.prefix_size == placement.alloc_start - b@.start,
        placement.suffix_start == placement.alloc_start + placement.alloc_size,
        placement.suffix_size == b@.end() - placement.suffix_start,
        placement.prefix_size == 0 || placement.prefix_size >= MIN_FREE_BLOCK_SIZE,
        placement.suffix_size == 0 || placement.suffix_size >= MIN_FREE_BLOCK_SIZE,
    ensures
        ({
            let mid = remains(b@, (Block { start: placement.alloc_start as int, size: placement.alloc_size as int }));
            &&& linked_to(final(dm), mid, next as int)
            &&& link == first_start(mid, next as int)
        }),
        framed(old(dm), final(dm), b@.start, b@.end()),
{
    let ghost before = *dm;
    let mut link: u64 = next;
    if placement.suffix_size > 0 {
        write_free_block(dm, placement.suffix_start, placement.suffix_size, link);
        link = placement.suffix_start;
    }
    let ghost suffixed = *dm;
    if placement.prefix_size > 0 {
        write_free_block(dm, current, placement.prefix_size, link);
        link = current;
    }
    proof {
        lemma_framed_trans(
            &before,
            &suffixed,
            dm,
            placement.suffix_start as int,
            b@.end(),
            b@.start,
            b@.start + placement.prefix_size,
            b@.start,
            b@.end(),
        );
    }
    link
}

impl KernelAllocator {
    /// Replaces the block at `current` in the list by what is left of it.
    #[verifier::rlimit(60)]
    fn consume_free_block<M: Memory>(
        &mut self,
        used: Ghost<Seq<bool>>,
        dm: &mut M,
        prev: u64,
        current: u64,
        next: u64,
        placement: &Placement,
        i: Ghost<int>,
    )
        requires
            old(self).wf(used@, old(dm)),
            0 <= i@ < old(self).free_blocks().len(),
            current == old(self).free_blocks()[i@].start,
            next == start_of(old(self).free_blocks(), i@ + 1),
            prev == (if i@ > 0 { old(self).free_blocks()[i@ - 1].start } else { 0 }),
            ({
                let b = old(self).free_blocks()[i@];
                &&& b.start <= placement.alloc_start
                &&& placement.alloc_start + placement.alloc_size <= b.end()
                &&& placement.prefix_size == placement.alloc_start - b.start
                &&& placement.suffix_start == placement.alloc_start + placement.alloc_size
                &&& placement.suffix_size == b.end() - placement.suffix_start
                &&& placement.prefix_size == 0 || placement.prefix_size >= MIN_FREE_BLOCK_SIZE
                &&& placement.suffix_size == 0 || placement.suffix_size >= MIN_FREE_BLOCK_SIZE
                &&& placement.alloc_size >= MIN_FREE_BLOCK_SIZE
            }),
        ensures
            same_window(old(dm), final(dm)),
            keeps(old(dm), final(dm), old(self).live()),
            headed(final(dm), old(self).live()),
            final(self).live() == old(self).live(),
            ({
                let piece = Block { start: placement.alloc_start as int, size: placement.alloc_size as int };
                &&& final(self).free_blocks() == carve(old(self).free_blocks(), i@, piece)
                &&& linked(final(dm), final(self).free_blocks(), final(self).head())
            }),
    {
        let ghost free = self.free@;
        let ghost live = self.live@;
        let ghost head = self.free_list_head as int;
        let ghost b = free[i@];
        let ghost piece = Block { start: placement.alloc_start as int, size: placement.alloc_size as int };
        let ghost mid = remains(b, piece);
        let ghost before = *dm;
        proof {
            assert(in_used_pages(used@, b));
            assert(within(dm, b.start, b.size));
        }
        let link: u64 = write_remains(dm, current, next, placement, Ghost(b));
        let ghost between = *dm;
        proof {
            assert forall|s: int| live.contains_key(s) implies b.disjoint(Block { start: s, size: #[trigger] live[s] }) by {
                assert(free[i@].disjoint(Block { start: s, size: live[s] }));
            }
            lemma_frame_keeps(&before, &between, live, b);
            lemma_headed_kept(&before, &between, live, used@, free);
        }
        if prev == FREE_LIST_END {
            self.free_list_head = link;
        } else {
            proof {
                assert(in_used_pages(used@, free[i@ - 1]));
                assert(within(&before, free[i@ - 1].start, free[i@ - 1].size));
            }
            write_u64(dm, prev + 8, link);
            proof {
                let p = Block { start: prev + 8, size: 8 };
                assert forall|s: int| live.contains_key(s) implies p.disjoint(Block { start: s, size: #[trigger] live[s] }) by {
                    assert(free[i@ - 1].disjoint(Block { start: s, size: live[s] }));
                }
                assert forall|s: int| live.contains_key(s) implies within(&between, s, #[trigger] live[s]) by {
                    assert(within(&before, s, live[s]));
                }
                lemma_frame_keeps(&between, dm, live, p);
                lemma_keeps_trans(&before, &between, dm, live);
                lemma_headed_kept(&before, dm, live, used@, free);
            }
        }
        proof {
            if i@ > 0 {
                assert(in_used_pages(used@, free[i@ - 1]));
            }
            lemma_replace_linked(&before, &between, dm, free, live, used@, head, i@, mid, self.free_list_head as int);
            self.free@ = carve(free, i@, piece);
        }
    }

    /// Cuts the allocation described by `placement` out of the block at `current`.
    fn take_placement<M: Memory>(
        &mut self,
        used: Ghost<Seq<bool>>,
        dm: &mut M,
        prev: u64,
        current: u64,
        next: u64,
        placement: &Placement,
        i: Ghost<int>,
        total: Ghost<int>,
        align: Ghost<int>,
    ) -> (r: PhysicalAddr)
        requires
            old(self).wf(used@, old(dm)),
            0 <= i@ < old(self).free_blocks().len(),
            current == old(self).free_blocks()[i@].start,
            next == start_of(old(self).free_blocks(), i@ + 1),
            prev == (if i@ > 0 { old(self).free_blocks()[i@ - 1].start } else { 0 }),
            total@ >= MIN_FREE_BLOCK_SIZE,
            total@ % 8 == 0,
            align@ > 0,
            align@ % 8 == 0,
            place(old(self).free_blocks()[i@], total@, align@) == Some(
                Block { start: placement.alloc_start as int, size: placement.alloc_size as int },
            ),
            placement.prefix_size == placement.alloc_start - current,
            placement.suffix_start == placement.alloc_start + placement.alloc_size,
            placement.suffix_size == old(self).free_blocks()[i@].end() - placement.suffix_start,
        ensures
            same_window(old(dm), final(dm)),
            keeps(old(dm), final(dm), old(self).live()),
            ({
                let piece = Block { start: placement.alloc_start as int, size: placement.alloc_size as int };
                &&& r.0 == piece.start + HEADER_SIZE
                &&& !old(self).live().contains_key(piece.start)
                &&& final(self).free_blocks() == carve(old(self).free_blocks(), i@, piece)
                &&& final(self).live() == old(self).live().insert(piece.start, piece.size)
                &&& final(self).wf(used@, final(dm))
            }),
    {
        let ghost free = self.free@;
        let ghost live = self.live@;
        let ghost piece = Block { start: placement.alloc_start as int, size: placement.alloc_size as int };
        let ghost cut = carve(free, i@, piece);
        let ghost live2 = live.insert(piece.start, piece.size);
        let ghost before = *dm;
        proof {
            assert(in_used_pages(used@, free[i@]));
            assert(within(dm, free[i@].start, free[i@].size));
            law_place(free[i@], total@, align@);
            lemma_carve(free, live, used@, i@, piece);
        }
        self.consume_free_block(used, dm, prev, current, next, placement, i);
        let ghost carved = *dm;
        write_u64(dm, placement.alloc_start, placement.alloc_size);
        proof {
            self.live@ = live2;
            assert(live2[piece.start] == piece.size);
            lemma_carve_reaches(&before, dm, free, live, used@, i@, piece);
            assert forall|s: int| live.contains_key(s) implies piece.disjoint(Block { start: s, size: #[trigger] live[s] }) by {
                assert(live[s] == live2[s]);
            }
            assert forall|s: int| live.contains_key(s) implies within(&carved, s, #[trigger] live[s]) by {
                assert(within(&before, s, live[s]));
            }
            lemma_frame_wider(&carved, dm, piece.start, piece.start + 8, piece.start, piece.end());
            lemma_frame_keeps(&carved, dm, live, piece);
            lemma_keeps_trans(&before, &carved, dm, live);
            lemma_headed_kept(&before, dm, live, used@, free);
            assert(headed(dm, live2)) by {
                assert forall|s: int| live2.contains_key(s) implies word(dm, s) == #[trigger] live2[s] by {
                    if s != piece.start {
                        assert(live2[s] == live[s]);
                    }
                }
            }
            lemma_frame_linked(&carved, dm, cut, live2, used@, self.free_list_head as int, piece);
        }
        PhysicalAddr::new(placement.alloc_start + HEADER_SIZE)
    }
}

pub proof fn lemma_keeps_trans<M: Memory>(a: &M, b: &M, c: &M, live: Map<int, int>)
    requires
        keeps(a, b, live),
        keeps(b, c, live),
    ensures
        keeps(a, c, live),
{
    assert forall|s: int, k: int| live.contains_key(s) && s <= k < s + #[trigger] live[s] implies #[trigger] byte(c, k)
        == byte(a, k) by {
        assert(byte(b, k) == byte(a, k));
    }
}

/// A change inside of a range is a change inside of a wider one.
proof fn lemma_frame_wider<M: Memory>(before: &M, after: &M, lo: int, hi: int, lo2: int, hi2: int)
    requires
        framed(before, after, lo, hi),
        lo2 <= lo,
        hi <= hi2,
    ensures
        framed(before, after, lo2, hi2),
{
}

/// The list outlives every change inside of a range that overlaps no free block.
proof fn lemma_frame_linked<M: Memory>(
    before: &M,
    after: &M,
    free: Seq<Block>,
    live: Map<int, int>,
    used: Seq<bool>,
    head: int,
    b: Block,
)
    requires
        linked(before, free, head),
        framed(before, after, b.start, b.end()),
        backed(free, live, used),
        forall|i: int| 0 <= i < free.len() ==> (#[trigger] free[i]).disjoint(b),
        forall|i: int| 0 <= i < free.len() ==> within(before, (#[trigger] free[i]).start, free[i].size),
    ensures
        linked(after, free, head),
{
    assert forall|i: int| 0 <= i < free.len() implies {
        &&& word(after, (#[trigger] free[i]).start) == free[i].size
        &&& word(after, free[i].start + 8) == start_of(free, i + 1)
    } by {
        assert(in_used_pages(used, free[i]));
        assert(within(before, free[i].start, free[i].size));
        assert(word(before, free[i].start) == free[i].size);
    }
}

/// The window still reaches every block once a piece is cut out.
proof fn lemma_carve_reaches<M: Memory>(
    before: &M,
    after: &M,
    free: Seq<Block>,
    live: Map<int, int>,
    used: Seq<bool>,
    i: int,
    piece: Block,
)
    requires
        reaches(before, free, live, used),
        same_window(before, after),
        0 <= i < free.len(),
        free[i].start <= piece.start,
        0 <= piece.size,
        piece.end() <= free[i].end(),
    ensures
        reaches(after, carve(free, i, piece), live.insert(piece.start, piece.size), used),
{
    let cut = carve(free, i, piece);
    let mid = remains(free[i], piece);
    let m = mid.len() as int;
    let live2 = live.insert(piece.start, piece.size);
    assert(within(before, free[i].start, free[i].size));
    assert forall|k: int| 0 <= k < cut.len() implies within(after, (#[trigger] cut[k]).start, cut[k].size) by {
        if k < i {
            assert(within(before, free[k].start, free[k].size));
        } else if k < i + m {
            assert(cut[k] == mid[k - i]);
        } else {
            assert(within(before, free[k - m + 1].start, free[k - m + 1].size));
        }
    }
    assert forall|s: int| live2.contains_key(s) implies within(after, s, #[trigger] live2[s]) by {
        if s != piece.start {
            assert(within(before, s, live[s]));
        }
    }
    assert forall|p: int| 0 <= p < used.len() && !(#[trigger] used[p]) implies within(after, p * PAGE_SIZE, PAGE_SIZE as int) by {
        assert(within(before, p * PAGE_SIZE, PAGE_SIZE as int));
    }
}

/// The list stays linked when blocks `lo .. hi` give way to one block.
#[verifier::rlimit(40)]
#[verifier::spinoff_prover]
proof fn lemma_merge_linked<M: Memory>(
    before: &M,
    after: &M,
    free: Seq<Block>,
    head: int,
    lo: int,
    hi: int,
    merged: Block,
    new_head: int,
)
    requires
        linked(before, free, head),
        0 <= lo <= hi <= free.len(),
        forall|k: int| 0 <= k < free.len() && !(lo <= k < hi) ==> word(after, (#[trigger] free[k]).start) == word(
            before,
            free[k].start,
        ),
        forall|k: int| 0 <= k < free.len() && !(lo - 1 <= k < hi) ==> word(after, (#[trigger] free[k]).start + 8) == word(
            before,
            free[k].start + 8,
        ),
        word(after, merged.start) == merged.size,
        word(after, merged.start + 8) == start_of(free, hi),
        lo > 0 ==> word(after, free[lo - 1].start + 8) == merged.start && new_head == head,
        lo == 0 ==> new_head == merged.start,
    ensures
        linked(after, free.take(lo).push(merged) + free.skip(hi), new_head),
{
    let f = free.take(lo).push(merged) + free.skip(hi);
    assert forall|k: int| 0 <= k < f.len() implies {
        &&& word(after, (#[trigger] f[k]).start) == f[k].size
        &&& word(after, f[k].start + 8) == start_of(f, k + 1)
    } by {
        if k < lo {
            assert(f[k] == free[k]);
            if k + 1 < lo {
                assert(f[k + 1] == free[k + 1]);
            } else {
                assert(f[k + 1] == merged);
            }
        } else if k == lo {
            assert(f[k] == merged);
            if k + 1 < f.len() {
                assert(f[k + 1] == free[hi]);
            }
        } else {
            let j = k - lo - 1 + hi;
            assert(f[k] == free[j]);
            if k + 1 < f.len() {
                assert(f[k + 1] == free[j + 1]);
            }
        }
    }
    if lo > 0 {
        assert(f[0] == free[0]);
    } else {
        assert(f[0] == merged);
    }
}

/// The window reaches the joined block as it reached its parts.
proof fn lemma_insert_reaches<M: Memory>(before: &M, after: &M, free: Seq<Block>, live: Map<int, int>, used: Seq<bool>, b: Block)
    requires
        separated(free, live),
        backed(free, live, used),
        reaches(before, free, live, used),
        same_window(before, after),
        within(before, b.start, b.size),
    ensures
        reaches(after, insert_block(free, b), live, used),
{
    assert forall|i: int| 0 <= i < free.len() implies (#[trigger] free[i]).size >= 0 by {
        assert(in_used_pages(used, free[i]));
    }
    lemma_position(free, b.start, 0);
    let p = position(free, b.start, 0);
    let joins_left = p > 0 && free[p - 1].end() == b.start;
    let joins_right = p < free.len() && b.end() == free[p].start;
    let lo = if joins_left { p - 1 } else { p };
    let hi = if joins_right { p + 1 } else { p };
    let f = insert_block(free, b);
    if joins_left {
        assert(within(before, free[p - 1].start, free[p - 1].size));
    }
    if joins_right {
        assert(within(before, free[p].start, free[p].size));
    }
    assert forall|k: int| 0 <= k < f.len() implies within(after, (#[trigger] f[k]).start, f[k].size) by {
        if k < lo {
            assert(within(before, free[k].start, free[k].size));
        } else if k > lo {
            assert(f[k] == free[k - lo - 1 + hi]);
            assert(within(before, free[k - lo - 1 + hi].start, free[k - lo - 1 + hi].size));
        }
    }
    assert forall|s: int| live.contains_key(s) implies within(after, s, #[trigger] live[s]) by {
        assert(within(before, s, live[s]));
    }
    assert forall|q: int| 0 <= q < used.len() && !(#[trigger] used[q]) implies within(after, q * PAGE_SIZE, PAGE_SIZE as int) by {
        assert(within(before, q * PAGE_SIZE, PAGE_SIZE as int));
    }
}

/// Nothing outside of the words of a free block at `x` or at `y` differs; `x` may be zero for none.
pub open spec fn framed2<M: Memory>(before: &M, after: &M, x: int, y: int) -> bool {
    &&& same_window(before, after)
    &&& forall|a: int|
        within(before, a, 1) && !(x != 0 && x <= a < x + 16) && !(y <= a < y + 16) ==> #[trigger] byte(after, a) == byte(
            before,
            a,
        )
    &&& forall|a: int|
        within(before, a, 8) && (x == 0 || a + 8 <= x || x + 16 <= a) && (a + 8 <= y || y + 16 <= a) ==> #[trigger] word(
            after,
            a,
        ) == word(before, a)
}

/// Writes the words that put the block at `start` between those at `prev` and `current`.
fn link_block<M: Memory>(dm: &mut M, prev: u64, start: u64, size: u64, current: u64) -> (r: (u64, u64))
    requires
        0 < start,
        16 <= size,
        start + size <= 0x1_0000_0000_0000,
        within(old(dm), start as int, 16),
        prev != 0 ==> {
            &&& within(old(dm), prev as int, 16)
            &&& 16 <= word(old(dm), prev as int)
            &&& prev + word(old(dm), prev as int) <= start
            &&& word(old(dm), prev + 8) == current
        },
        current != 0 ==> {
            &&& within(old(dm), current as int, 16)
            &&& start + size <= current
            &&& current + word(old(dm), current as int) <= 0x1_0000_0000_0000
        },
    ensures
        ({
            let left = prev != 0 && prev + word(old(dm), prev as int) == start;
            let right = current != 0 && start + size == current;
            &&& r.0 == (if left { prev } else { start })
            &&& r.1 == size + (if left { word(old(dm), prev as int) } else { 0 }) + (if right {
                word(old(dm), current as int)
            } else {
                0
            })
            &&& word(final(dm), r.0 as int) == r.1
            &&& word(final(dm), r.0 + 8) == (if right { word(old(dm), current + 8) } else { current as int })
            &&& prev != 0 && !left ==> word(final(dm), prev as int) == word(old(dm), prev as int) && word(
                final(dm),
                prev + 8,
            ) == start
        }),
        framed2(old(dm), final(dm), prev as int, start as int),
{
    let ghost before = *dm;
    let merged_start: u64;
    let mut merged_size: u64 = size;
    if prev != FREE_LIST_END {
        let prev_size: u64 = read_u64(dm, prev);
        if prev + prev_size == start {
            merged_size = prev_size + size;
            write_u64(dm, prev, merged_size);
            merged_start = prev;
        } else {
            write_free_block(dm, start, size, current);
            write_u64(dm, prev + 8, start);
            merged_start = start;
        }
    } else {
        write_free_block(dm, start, size, current);
        merged_start = start;
    }
    assert(framed2(&before, dm, prev as int, start as int));
    assert(word(dm, merged_start as int) == merged_size);
    assert(word(dm, merged_start + 8) == current);
    let ghost between = *dm;
    if current != FREE_LIST_END && merged_start + merged_size == current {
        let next_size: u64 = read_u64(dm, current);
        let next_next: u64 = read_u64(dm, current + 8);
        merged_size = merged_size + next_size;
        write_free_block(dm, merged_start, merged_size, next_next);
    }
    (merged_start, merged_size)
}

impl KernelAllocator {
    /// The last free block below `start` and the first one not below it, or zero.
    fn neighbours<M: Memory>(&self, used: Ghost<Seq<bool>>, dm: &M, start: u64) -> (r: (u64, u64))
        requires
            self.wf(used@, dm),
            start > 0,
        ensures
            ({
                let free = self.free_blocks();
                let p = position(free, start as int, 0);
                &&& 0 <= p <= free.len()
                &&& r.0 == (if p > 0 { free[p - 1].start } else { 0 })
                &&& r.1 == start_of(free, p)
            }),
    {
        let ghost free = self.free@;
        let mut prev: u64 = FREE_LIST_END;
        let mut current: u64 = self.free_list_head;
        let ghost mut p: int = 0;
        while current != FREE_LIST_END && current < start
            invariant
                self.wf(used@, dm),
                free == self.free_blocks(),
                0 <= p <= free.len(),
                current == start_of(free, p),
                prev == (if p > 0 { free[p - 1].start } else { 0 }),
                position(free, start as int, 0) == position(free, start as int, p),
            decreases free.len() - p,
        {
            proof {
                assert(in_used_pages(used@, free[p]));
                assert(within(dm, free[p].start, free[p].size));
            }
            prev = current;
            current = read_u64(dm, current + 8);
            proof {
                p = p + 1;
            }
        }
        proof {
            if p < free.len() {
                assert(in_used_pages(used@, free[p]));
            }
        }
        (prev, current)
    }

    /// Adds a block to the free list, joined with the neighbours that it touches.
    #[verifier::rlimit(60)]
    fn insert_free_block<M: Memory>(&mut self, used: Ghost<Seq<bool>>, dm: &mut M, start: u64, size: u64)
        requires
            old(self).wf(used@, old(dm)),
            in_used_pages(used@, (Block { start: start as int, size: size as int })),
            within(old(dm), start as int, size as int),
            forall|i: int|
                0 <= i < old(self).free_blocks().len() ==> (#[trigger] old(self).free_blocks()[i]).disjoint(
                    (Block { start: start as int, size: size as int }),
                ),
            forall|s: int|
                old(self).live().contains_key(s) ==> (Block { start: start as int, size: size as int }).disjoint(
                    (Block { start: s, size: #[trigger] old(self).live()[s] }),
                ),
        ensures
            final(self).free_blocks() == insert_block(
                old(self).free_blocks(),
                (Block { start: start as int, size: size as int }),
            ),
            final(self).live() == old(self).live(),
            final(self).wf(used@, final(dm)),
            same_window(old(dm), final(dm)),
            keeps(old(dm), final(dm), old(self).live()),
    {
        let ghost free = self.free@;
        let ghost live = self.live@;
        let ghost head = self.free_list_head as int;
        let ghost b = Block { start: start as int, size: size as int };
        let ghost before = *dm;
        let ghost p = position(free, b.start, 0);
        let (prev, current) = self.neighbours(used, dm, start);
        proof {
            assert forall|i: int| 0 <= i < free.len() implies (#[trigger] free[i]).size >= 0 by {
                assert(in_used_pages(used@, free[i]));
            }
            lemma_position(free, b.start, 0);
            if p > 0 {
                assert(in_used_pages(used@, free[p - 1]));
                assert(within(dm, free[p - 1].start, free[p - 1].size));
                assert(free[p - 1].disjoint(b));
            }
            if p < free.len() {
                assert(in_used_pages(used@, free[p]));
                assert(within(dm, free[p].start, free[p].size));
                assert(free[p].disjoint(b));
            }
            lemma_insert(free, live, used@, b);
        }
        let (merged_start, merged_size) = link_block(dm, prev, start, size, current);
        if prev == FREE_LIST_END {
            self.free_list_head = start;
        }
        proof {
            let joins_left = p > 0 && free[p - 1].end() == b.start;
            let joins_right = p < free.len() && b.end() == free[p].start;
            let lo = if joins_left { p - 1 } else { p };
            let hi = if joins_right { p + 1 } else { p };
            let merged = Block { start: merged_start as int, size: merged_size as int };
            assert(insert_block(free, b) == free.take(lo).push(merged) + free.skip(hi));
            assert forall|k: int| 0 <= k < free.len() && k != p - 1 implies word(dm, (#[trigger] free[k]).start) == word(
                &before,
                free[k].start,
            ) && word(dm, free[k].start + 8) == word(&before, free[k].start + 8) by {
                assert(in_used_pages(used@, free[k]));
                assert(within(&before, free[k].start, free[k].size));
                assert(free[k].disjoint(b));
                if p > 0 && k < p - 1 {
                    assert(free[k].end() < free[p - 1].start);
                }
                if p > 0 && k > p - 1 {
                    assert(free[p - 1].end() < free[k].start);
                }
            }
            lemma_merge_linked(&before, dm, free, head, lo, hi, merged, self.free_list_head as int);
            lemma_insert_reaches(&before, dm, free, live, used@, b);
            assert forall|s: int, a: int| live.contains_key(s) && s <= a < s + #[trigger] live[s] implies #[trigger] byte(dm, a)
                == byte(&before, a) by {
                assert(b.disjoint(Block { start: s, size: live[s] }));
                assert(within(&before, s, live[s]));
                if p > 0 {
                    assert(free[p - 1].disjoint(Block { start: s, size: live[s] }));
                }
            }
            lemma_headed_kept(&before, dm, live, used@, free);
            self.free@ = insert_block(free, b);
        }
    }
}

/// Marking a fresh run of pages as used keeps the heap sound, and the run overlaps none of it.
proof fn lemma_grow<M: Memory>(dm: &M, free: Seq<Block>, live: Map<int, int>, used: Seq<bool>, s: int, n: int)
    requires
        backed(free, live, used),
        reaches(dm, free, live, used),
        free_run(used, s, n),
        n >= 1,
    ensures
        ({
            let used2 = mark(used, s, n, true);
            let run = Block { start: s * PAGE_SIZE, size: n * PAGE_SIZE };
            &&& backed(free, live, used2)
            &&& reaches(dm, free, live, used2)
            &&& in_used_pages(used2, run)
            &&& within(dm, run.start, run.size)
            &&& forall|i: int| 0 <= i < free.len() ==> (#[trigger] free[i]).disjoint(run)
            &&& forall|t: int| live.contains_key(t) ==> run.disjoint(Block { start: t, size: #[trigger] live[t] })
        }),
{
    let used2 = mark(used, s, n, true);
    let run = Block { start: s * PAGE_SIZE, size: n * PAGE_SIZE };
    assert(s >= 1) by {
        if s == 0 {
            assert(!used[0]);
        }
    }
    reveal(pages_used);
    assert forall|i: int| 0 <= i < free.len() implies in_used_pages(used2, #[trigger] free[i]) && free[i].disjoint(run) by {
        assert(in_used_pages(used, free[i]));
        lemma_fresh_pages(free[i], used, s, n);
    }
    assert forall|t: int| live.contains_key(t) implies {
        let b = Block { start: t, size: #[trigger] live[t] };
        in_used_pages(used2, b) && run.disjoint(b)
    } by {
        let b = Block { start: t, size: live[t] };
        assert(in_used_pages(used, b));
        lemma_fresh_pages(b, used, s, n);
    }
    assert forall|p: int| 0 <= p < used2.len() && !(#[trigger] used2[p]) implies within(dm, p * PAGE_SIZE, PAGE_SIZE as int) by {
        assert(!used[p]);
    }
    assert(!used[s]);
    assert(!used[s + n - 1]);
    assert(within(dm, s * PAGE_SIZE, PAGE_SIZE as int));
    assert(within(dm, (s + n - 1) * PAGE_SIZE, PAGE_SIZE as int));
    assert forall|p: int| 0 <= p && p * PAGE_SIZE < run.end() && run.start < (p + 1) * PAGE_SIZE implies #[trigger] used2[p] by {
        assert(s <= p < s + n);
    }
}

/// The alignment of a request is a positive multiple of the word size.
proof fn lemma_alignment(size: int, min_align: int)
    requires
        0 < size,
        0 <= min_align <= 0x8000_0000_0000_0000,
        min_align == 0 || is_pow2(min_align as nat),
    ensures
        0 < max(natural_alignment(size), min_align) <= 0x8000_0000_0000_0000,
        max(natural_alignment(size), min_align) % 8 == 0,
{
    let p = next_pow2(size as nat);
    law_next_pow2(size as nat);
    if p >= 8 {
        lemma_pow2_multiple_of_8(p);
    }
    if min_align >= 8 {
        lemma_pow2_multiple_of_8(min_align as nat);
    }
}

impl KernelAllocator {
    /// Cuts an allocation out of the first free block that can hold it.
    fn try_alloc_from_free_list<M: Memory>(
        &mut self,
        used: Ghost<Seq<bool>>,
        dm: &mut M,
        alloc_size: u64,
        user_align: u64,
    ) -> (r: Option<PhysicalAddr>)
        requires
            old(self).wf(used@, old(dm)),
            MIN_FREE_BLOCK_SIZE <= alloc_size <= 0x1_0000_0000_0000,
            alloc_size % 8 == 0,
            0 < user_align <= 0x8000_0000_0000_0000,
            user_align % 8 == 0,
        ensures
            same_window(old(dm), final(dm)),
            keeps(old(dm), final(dm), old(self).live()),
            final(self).wf(used@, final(dm)),
            match first_fit(old(self).free_blocks(), alloc_size as int, user_align as int, 0) {
                None => r is None && *final(self) == *old(self) && *final(dm) == *old(dm),
                Some(i) => {
                    let piece = place(old(self).free_blocks()[i], alloc_size as int, user_align as int)->0;
                    &&& r matches Some(addr)
                    &&& addr.0 == piece.start + HEADER_SIZE
                    &&& !old(self).live().contains_key(piece.start)
                    &&& final(self).free_blocks() == carve(old(self).free_blocks(), i, piece)
                    &&& final(self).live() == old(self).live().insert(piece.start, piece.size)
                },
            },
    {
        let ghost free = self.free@;
        let mut prev: u64 = FREE_LIST_END;
        let mut current: u64 = self.free_list_head;
        let ghost mut i: int = 0;
        while current != FREE_LIST_END
            invariant
                *self == *old(self),
                *dm == *old(dm),
                self.wf(used@, dm),
                free == self.free_blocks(),
                0 <= i <= free.len(),
                current == start_of(free, i),
                prev == (if i > 0 { free[i - 1].start } else { 0 }),
                first_fit(free, alloc_size as int, user_align as int, 0) == first_fit(free, alloc_size as int, user_align as int, i),
                MIN_FREE_BLOCK_SIZE <= alloc_size <= 0x1_0000_0000_0000,
                alloc_size % 8 == 0,
                0 < user_align <= 0x8000_0000_0000_0000,
                user_align % 8 == 0,
            decreases free.len() - i,
        {
            proof {
                assert(in_used_pages(used@, free[i]));
                assert(within(dm, free[i].start, free[i].size));
            }
            let size: u64 = read_u64(dm, current);
            let next: u64 = read_u64(dm, current + 8);
            match place_allocation(current, size, alloc_size, user_align) {
                Some(placement) => {
                    let addr = self.take_placement(
                        used,
                        dm,
                        prev,
                        current,
                        next,
                        &placement,
                        Ghost(i),
                        Ghost(alloc_size as int),
                        Ghost(user_align as int),
                    );
                    return Some(addr);
                },
                None => {},
            }
            prev = current;
            current = next;
            proof {
                i = i + 1;
            }
        }
        proof {
            if i < free.len() {
                assert(in_used_pages(used@, free[i]));
            }
        }
        None
    }

    /// Takes fresh pages for an allocation of `alloc_size` bytes into the free list.
    fn grow_free_list<M: Memory>(&mut self, palloc: &mut PageAllocator, dm: &mut M, alloc_size: u64) -> (r: Result<()>)
        requires
            old(palloc).wf(),
            old(self).wf(old(palloc)@, old(dm)),
            0 < alloc_size <= 0x200_0000,
        ensures
            peak_grows(old(palloc)@, old(palloc).peak(), final(palloc)@, final(palloc).peak()),
            final(palloc).wf(),
            final(self).wf(final(palloc)@, final(dm)),
            final(self).live() == old(self).live(),
            same_window(old(dm), final(dm)),
            keeps(old(dm), final(dm), old(self).live()),
            match lowest_run(old(palloc)@, growth(alloc_size as int)) {
                None => {
                    &&& r == Err::<(), MemoryError>(MemoryError::OutOfMemory)
                    &&& *final(self) == *old(self)
                    &&& *final(dm) == *old(dm)
                    &&& final(palloc)@ == old(palloc)@
                },
                Some(s) => {
                    let n = growth(alloc_size as int);
                    &&& r is Ok
                    &&& final(palloc)@ == mark(old(palloc)@, s, n, true)
                    &&& final(self).free_blocks() == insert_block(
                        old(self).free_blocks(),
                        (Block { start: s * PAGE_SIZE, size: n * PAGE_SIZE }),
                    )
                },
            },
    {
        let pages: u64 = if alloc_size <= PAGE_SIZE { 1 } else { (alloc_size + PAGE_SIZE - 1) / PAGE_SIZE };
        match palloc.allocate(pages) {
            Err(e) => Err(e),
            Ok(base) => {
                self.adopt_pages(Ghost(old(palloc)@), Ghost(palloc@), dm, base.as_u64(), pages);
                Ok(())
            },
        }
    }

    /// Adds a fresh run of pages to the free list.
    fn adopt_pages<M: Memory>(
        &mut self,
        used: Ghost<Seq<bool>>,
        used_after: Ghost<Seq<bool>>,
        dm: &mut M,
        base: u64,
        pages: u64,
    )
        requires
            old(self).wf(used@, old(dm)),
            1 <= pages <= 0x100,
            lowest_run(used@, pages as int) matches Some(s) && base == s * PAGE_SIZE && used_after@ == mark(
                used@,
                s,
                pages as int,
                true,
            ),
        ensures
            final(self).wf(used_after@, final(dm)),
            final(self).live() == old(self).live(),
            same_window(old(dm), final(dm)),
            keeps(old(dm), final(dm), old(self).live()),
            final(self).free_blocks() == insert_block(
                old(self).free_blocks(),
                (Block { start: base as int, size: pages * PAGE_SIZE }),
            ),
    {
        proof {
            let s = lowest_run(used@, pages as int)->0;
            assert(first_free_run(used@, s, pages as int));
            lemma_grow(dm, self.free@, self.live@, used@, s, pages as int);
        }
        self.insert_free_block(used_after, dm, base, pages * PAGE_SIZE);
    }

    #[verifier::spinoff_prover]
    #[verifier::rlimit(60)]
    fn alloc_internal<M: Memory>(
        &mut self,
        palloc: &mut PageAllocator,
        dm: &mut M,
        size: u64,
        min_align: u64,
    ) -> (r: Result<PhysicalAddr>)
        requires
            old(palloc).wf(),
            old(self).wf(old(palloc)@, old(dm)),
            min_align == 0 || is_pow2(min_align as nat),
            min_align <= 0x8000_0000_0000_0000,
        ensures
            peak_grows(old(palloc)@, old(palloc).peak(), final(palloc)@, final(palloc).peak()),
            final(palloc).wf(),
            final(self).wf(final(palloc)@, final(dm)),
            same_window(old(dm), final(dm)),
            keeps(old(dm), final(dm), old(self).live()),
            allocated(
                *old(self),
                *final(self),
                old(palloc)@,
                final(palloc)@,
                max(size as int, 1),
                max(natural_alignment(max(size as int, 1)), min_align as int),
                r,
            ),
    {
        proof {
            lemma_peak_stays(palloc@, palloc.peak());
        }
        let requested_size: u64 = if size >= 1 { size } else { 1 };
        if requested_size > MAX_ALLOC {
            return Err(MemoryError::AllocationTooLarge { requested: requested_size, max: MAX_ALLOC });
        }
        proof {
            law_round_up(requested_size + HEADER_SIZE, MIN_ALIGNMENT as int);
            lemma_alignment(requested_size as int, min_align as int);
        }
        let total: u64 = align_up(requested_size + HEADER_SIZE, MIN_ALIGNMENT);
        let natural: u64 = allocation_alignment(requested_size);
        let user_align: u64 = if natural >= min_align { natural } else { min_align };
        loop
            invariant
                palloc.wf(),
                peak_grows(old(palloc)@, old(palloc).peak(), palloc@, palloc.peak()),
                self.wf(palloc@, dm),
                self.live() == old(self).live(),
                same_window(old(dm), dm),
                keeps(old(dm), dm, old(self).live()),
                requested_size == max(size as int, 1),
                requested_size <= MAX_ALLOC,
                total == total_size(requested_size as int),
                24 <= total <= 0x200_0000,
                total % 8 == 0,
                user_align == max(natural_alignment(requested_size as int), min_align as int),
                0 < user_align <= 0x8000_0000_0000_0000,
                user_align % 8 == 0,
                heap_allocate(old(self).free_blocks(), old(palloc)@, total as int, user_align as int) == heap_allocate(
                    self.free_blocks(),
                    palloc@,
                    total as int,
                    user_align as int,
                ),
            decreases palloc@.len() - count_used(palloc@),
        {
            let ghost dm1 = *dm;
            match self.try_alloc_from_free_list(Ghost(palloc@), dm, total, user_align) {
                Some(addr) => {
                    proof {
                        lemma_keeps_trans(old(dm), &dm1, dm, old(self).live());
                    }
                    return Ok(addr);
                },
                None => {},
            }
            let ghost used = palloc@;
            let ghost peak = palloc.peak();
            let grown = self.grow_free_list(palloc, dm, total);
            proof {
                lemma_peak_on(old(palloc)@, old(palloc).peak(), used, peak, palloc@, palloc.peak());
            }
            match grown {
                Err(e) => {
                    return Err(e);
                },
                Ok(()) => {
                    proof {
                        lemma_keeps_trans(old(dm), &dm1, dm, old(self).live());
                        let n = growth(total as int);
                        lemma_growth_uses_pages(used, lowest_run(used, n)->0, n, total as int);
                    }
                },
            }
        }
    }

    /// Allocates `size` bytes, at an address aligned to the size rounded up to a power of two.
    pub fn allocate<M: Memory>(&mut self, palloc: &mut PageAllocator, dm: &mut M, size: u64) -> (r: Result<PhysicalAddr>)
        requires
            old(palloc).wf(),
            old(self).wf(old(palloc)@, old(dm)),
        ensures
            peak_grows(old(palloc)@, old(palloc).peak(), final(palloc)@, final(palloc).peak()),
            final(palloc).wf(),
            final(self).wf(final(palloc)@, final(dm)),
            same_window(old(dm), final(dm)),
            keeps(old(dm), final(dm), old(self).live()),
            allocated(
                *old(self),
                *final(self),
                old(palloc)@,
                final(palloc)@,
                max(size as int, 1),
                natural_alignment(max(size as int, 1)),
                r,
            ),
    {
        self.alloc_internal(palloc, dm, size, 0)
    }

    /// Allocates with an explicit minimum alignment, which is a power of two.
    pub fn alloc_aligned<M: Memory>(
        &mut self,
        palloc: &mut PageAllocator,
        dm: &mut M,
        size: u64,
        min_align: u64,
    ) -> (r: Result<PhysicalAddr>)
        requires
            old(palloc).wf(),
            old(self).wf(old(palloc)@, old(dm)),
            is_pow2(min_align as nat),
            min_align <= 0x8000_0000_0000_0000,
        ensures
            peak_grows(old(palloc)@, old(palloc).peak(), final(palloc)@, final(palloc).peak()),
            final(palloc).wf(),
            final(self).wf(final(palloc)@, final(dm)),
            same_window(old(dm), final(dm)),
            keeps(old(dm), final(dm), old(self).live()),
            allocated(
                *old(self),
                *final(self),
                old(palloc)@,
                final(palloc)@,
                max(size as int, 1),
                max(natural_alignment(max(size as int, 1)), min_align as int),
                r,
            ),
    {
        self.alloc_internal(palloc, dm, size, min_align)
    }

    /// Gives back an allocation.
    pub fn free<M: Memory>(&mut self, palloc: &PageAllocator, dm: &mut M, ptr: PhysicalAddr)
        requires
            old(self).wf(palloc@, old(dm)),
            old(self).live().contains_key(ptr.0 - HEADER_SIZE),
        ensures
            final(self).wf(palloc@, final(dm)),
            same_window(old(dm), final(dm)),
            final(self).live() == old(self).live().remove(ptr.0 - HEADER_SIZE),
            final(self).free_blocks() == insert_block(
                old(self).free_blocks(),
                (Block { start: ptr.0 - HEADER_SIZE, size: old(self).live()[ptr.0 - HEADER_SIZE] }),
            ),
            keeps(old(dm), final(dm), final(self).live()),
    {
        let ghost live = self.live@;
        let ghost at = ptr.0 - HEADER_SIZE;
        proof {
            assert(in_used_pages(palloc@, Block { start: at, size: live[at] }));
            assert(within(dm, at, live[at]));
        }
        let block_start: u64 = ptr.as_u64() - HEADER_SIZE;
        let alloc_size: u64 = read_u64(dm, block_start);
        proof {
            let rest = live.remove(at);
            self.live@ = rest;
            assert forall|s: int| rest.contains_key(s) implies #[trigger] rest[s] == live[s] && live.contains_key(s) by {}
            assert(self.wf(palloc@, dm)) by {
                assert forall|s: int| rest.contains_key(s) implies in_used_pages(palloc@, Block { start: s, size: #[trigger] rest[s] })
                    && within(dm, s, rest[s]) by {
                    assert(in_used_pages(palloc@, Block { start: s, size: live[s] }));
                    assert(within(dm, s, live[s]));
                }
                assert forall|s: int| rest.contains_key(s) implies word(dm, s) == #[trigger] rest[s] by {
                    assert(word(dm, s) == live[s]);
                }
                assert forall|i: int, s: int| 0 <= i < self.free@.len() && rest.contains_key(s) implies (#[trigger] self.free@[i]).disjoint(
                    Block { start: s, size: #[trigger] rest[s] },
                ) by {
                    assert(self.free@[i].disjoint(Block { start: s, size: live[s] }));
                }
                assert forall|s: int, t: int| rest.contains_key(s) && rest.contains_key(t) && s != t implies (Block {
                    start: s,
                    size: #[trigger] rest[s],
                }).disjoint(Block { start: t, size: #[trigger] rest[t] }) by {
                    assert((Block { start: s, size: live[s] }).disjoint(Block { start: t, size: live[t] }));
                }
            }
            assert forall|i: int| 0 <= i < self.free@.len() implies (#[trigger] self.free@[i]).disjoint(
                Block { start: at, size: live[at] },
            ) by {}
            assert forall|s: int| rest.contains_key(s) implies (Block { start: at, size: live[at] }).disjoint(
                Block { start: s, size: #[trigger] rest[s] },
            ) by {
                assert((Block { start: at, size: live[at] }).disjoint(Block { start: s, size: live[s] }));
            }
        }
        self.insert_free_block(Ghost(palloc@), dm, block_start, alloc_size);
    }
}

/// What a request for `size` bytes, aligned to `align`, does to the heap and the pages.
pub open spec fn allocated(
    before: KernelAllocator,
    after: KernelAllocator,
    used: Seq<bool>,
    used_after: Seq<bool>,
    size: int,
    align: int,
    r: Result<PhysicalAddr>,
) -> bool {
    if size > MAX_ALLOC {
        &&& r == Err::<PhysicalAddr, MemoryError>(
            MemoryError::AllocationTooLarge { requested: size as u64, max: MAX_ALLOC },
        )
        &&& after == before
        &&& used_after == used
    } else {
        let (piece, free, pages) = heap_allocate(before.free_blocks(), used, total_size(size), align);
        &&& after.free_blocks() == free
        &&& used_after == pages
        &&& match piece {
            Some(b) => {
                &&& r matches Ok(addr)
                &&& addr.0 == b.start + HEADER_SIZE
                &&& !before.live().contains_key(b.start)
                &&& after.live() == before.live().insert(b.start, b.size)
            },
            None => {
                &&& r == Err::<PhysicalAddr, MemoryError>(MemoryError::OutOfMemory)
                &&& after.live() == before.live()
            },
        }
    }
}

/// Writing to the bytes behind the header of a live allocation keeps the heap sound and
/// leaves every other allocation alone.
pub proof fn law_user_writes_keep_heap<M: Memory>(
    heap: KernelAllocator,
    used: Seq<bool>,
    before: &M,
    after: &M,
    s: int,
    lo: int,
    hi: int,
)
    requires
        heap.wf(used, before),
        heap.live().contains_key(s),
        s + HEADER_SIZE <= lo,
        hi <= s + heap.live()[s],
        framed(before, after, lo, hi),
    ensures
        heap.wf(used, after),
        keeps(before, after, heap.live().remove(s)),
{
    let free = heap.free_blocks();
    let live = heap.live();
    let b = Block { start: s, size: live[s] };
    let rest = live.remove(s);
    assert(in_used_pages(used, b));
    assert forall|i: int| 0 <= i < free.len() implies (#[trigger] free[i]).disjoint(b) by {
        assert(free[i].disjoint(Block { start: s, size: live[s] }));
    }
    lemma_frame_wider(before, after, lo, hi, s, b.end());
    assert forall|t: int| rest.contains_key(t) implies b.disjoint(Block { start: t, size: #[trigger] rest[t] }) by {
        assert((Block { start: s, size: live[s] }).disjoint(Block { start: t, size: live[t] }));
    }
    assert forall|t: int| rest.contains_key(t) implies within(before, t, #[trigger] rest[t]) by {
        assert(within(before, t, live[t]));
    }
    lemma_frame_keeps(before, after, rest, b);
    lemma_frame_linked(before, after, free, live, used, heap.head(), b);
    assert(headed(after, live)) by {
        assert forall|t: int| live.contains_key(t) implies word(after, t) == #[trigger] live[t] by {
            assert(in_used_pages(used, Block { start: t, size: live[t] }));
            assert(within(before, t, live[t]));
            if t != s {
                assert((Block { start: s, size: live[s] }).disjoint(Block { start: t, size: live[t] }));
            }
            assert(word(before, t) == live[t]);
        }
    }
    assert(reaches(after, free, live, used)) by {
        assert forall|i: int| 0 <= i < free.len() implies within(after, (#[trigger] free[i]).start, free[i].size) by {
            assert(within(before, free[i].start, free[i].size));
        }
        assert forall|t: int| live.contains_key(t) implies within(after, t, #[trigger] live[t]) by {
            assert(within(before, t, live[t]));
        }
        assert forall|p: int| 0 <= p < used.len() && !(#[trigger] used[p]) implies within(after, p * PAGE_SIZE, PAGE_SIZE as int) by {
            assert(within(before, p * PAGE_SIZE, PAGE_SIZE as int));
        }
    }
}

/// No two live allocations overlap, headers included.
pub proof fn law_live_allocations_disjoint<M: Memory>(heap: KernelAllocator, used: Seq<bool>, dm: &M, s: int, t: int)
    requires
        heap.wf(used, dm),
        heap.live().contains_key(s),
        heap.live().contains_key(t),
        s != t,
    ensures
        s + heap.live()[s] <= t || t + heap.live()[t] <= s,
{
    assert((Block { start: s, size: heap.live()[s] }).disjoint(Block { start: t, size: heap.live()[t] }));
}

/// Every block consists of whole words.
pub open spec fn whole_words(free: Seq<Block>) -> bool {
    forall|i: int| 0 <= i < free.len() ==> (#[trigger] free[i]).start % 8 == 0 && free[i].size % 8 == 0 && free[i].start >= 0
}

proof fn lemma_insert_whole_words(free: Seq<Block>, b: Block)
    requires
        whole_words(free),
        b.start % 8 == 0,
        b.size % 8 == 0,
        b.start >= 0,
    ensures
        whole_words(insert_block(free, b)),
{
    let f = insert_block(free, b);
    let p = position(free, b.start, 0);
    lemma_position_bounds(free, b.start, 0);
    assert forall|i: int| 0 <= i < f.len() implies (#[trigger] f[i]).start % 8 == 0 && f[i].size % 8 == 0 && f[i].start >= 0 by {
        if p > 0 {
            assert(free[p - 1].start % 8 == 0);
        }
        if p < free.len() {
            assert(free[p].start % 8 == 0);
        }
    }
}

proof fn lemma_position_bounds(free: Seq<Block>, start: int, from: int)
    requires
        0 <= from <= free.len(),
    ensures
        from <= position(free, start, from) <= free.len(),
    decreases free.len() - from,
{
    if from < free.len() && free[from].start < start {
        lemma_position_bounds(free, start, from + 1);
    }
}

proof fn lemma_first_fit(free: Seq<Block>, total: int, align: int, from: int)
    requires
        0 <= from,
    ensures
        first_fit(free, total, align, from) matches Some(i) ==> from <= i < free.len() && place(free[i], total, align) is Some,
    decreases free.len() - from,
{
    if from < free.len() && place(free[from], total, align) is None {
        lemma_first_fit(free, total, align, from + 1);
    }
}

/// An allocation is aligned as asked, at least as large as asked, and wastes less than
/// one free block.
pub proof fn law_allocation_is_aligned(free: Seq<Block>, used: Seq<bool>, total: int, align: int)
    requires
        whole_words(free),
        0 < total,
        total % 8 == 0,
        0 < align,
        align % 8 == 0,
    ensures
        heap_allocate(free, used, total, align).0 matches Some(b) ==> {
            &&& (b.start + HEADER_SIZE) % align == 0
            &&& total <= b.size < total + MIN_FREE_BLOCK_SIZE
        },
    decreases used.len() - count_used(used),
{
    match first_fit(free, total, align, 0) {
        Some(i) => {
            lemma_first_fit(free, total, align, 0);
            law_place(free[i], total, align);
        },
        None => {
            let n = growth(total);
            if let Some(s) = lowest_run(used, n) {
                lemma_growth_uses_pages(used, s, n, total);
                let run = Block { start: s * PAGE_SIZE, size: n * PAGE_SIZE };
                lemma_insert_whole_words(free, run);
                law_allocation_is_aligned(insert_block(free, run), mark(used, s, n, true), total, align);
            }
        },
    }
}

/// Freeing a block that was just cut out of the free list restores the list, so that the
/// same request gets the same address again.
#[verifier::rlimit(40)]
pub proof fn law_free_undoes_allocate(free: Seq<Block>, i: int, piece: Block)
    requires
        separated(free, Map::empty()),
        forall|k: int| 0 <= k < free.len() ==> (#[trigger] free[k]).size > 0,
        0 <= i < free.len(),
        free[i].start <= piece.start,
        0 < piece.size,
        piece.end() <= free[i].end(),
    ensures
        insert_block(carve(free, i, piece), piece) == free,
{
    let b = free[i];
    let mid = remains(b, piece);
    let cut = carve(free, i, piece);
    let p = if piece.start > b.start { i + 1 } else { i };
    assert forall|k: int| 0 <= k < cut.len() implies #[trigger] cut[k] == (if k < i {
        free[k]
    } else if k < i + mid.len() {
        mid[k - i]
    } else {
        free[k - mid.len() + 1]
    }) by {}
    assert forall|k: int| 0 <= k < i implies (#[trigger] cut[k]).end() < b.start by {
        assert(free[k].end() < free[i].start);
    }
    assert forall|k: int| i + mid.len() <= k < cut.len() implies (#[trigger] cut[k]).start > b.end() by {
        assert(free[i].end() < free[k - mid.len() + 1].start);
    }
    assert forall|k: int| 0 <= k < p implies (#[trigger] cut[k]).start < piece.start by {}
    if p < cut.len() {
        assert(cut[p].start >= piece.end());
    }
    lemma_position_is(cut, piece.start, 0, p);
    if i > 0 {
        assert(cut[i - 1].end() < b.start);
    }
    assert(insert_block(cut, piece) =~= free);
}

proof fn lemma_position_is(free: Seq<Block>, start: int, from: int, p: int)
    requires
        0 <= from <= p <= free.len(),
        forall|k: int| 0 <= k < p ==> (#[trigger] free[k]).start < start,
        p < free.len() ==> free[p].start >= start,
    ensures
        position(free, start, from) == p,
    decreases p - from,
{
    if from < p {
        lemma_position_is(free, start, from + 1, p);
    }
}

impl KernelAllocator {
    /// Allocates `size` bytes and sets them to zero.
    #[verifier::spinoff_prover]
    #[verifier::rlimit(30)]
    pub fn calloc<M: Memory>(&mut self, palloc: &mut PageAllocator, dm: &mut M, size: u64) -> (r: Result<PhysicalAddr>)
        requires
            old(palloc).wf(),
            old(self).wf(old(palloc)@, old(dm)),
        ensures
            peak_grows(old(palloc)@, old(palloc).peak(), final(palloc)@, final(palloc).peak()),
            final(palloc).wf(),
            final(self).wf(final(palloc)@, final(dm)),
            same_window(old(dm), final(dm)),
            keeps(old(dm), final(dm), old(self).live()),
            allocated(
                *old(self),
                *final(self),
                old(palloc)@,
                final(palloc)@,
                max(size as int, 1),
                natural_alignment(max(size as int, 1)),
                r,
            ),
            r matches Ok(addr) ==> forall|a: int| addr.0 <= a < addr.0 + size ==> #[trigger] byte(final(dm), a) == 0,
            r matches Ok(addr) ==> {
                &&& addr.0 as int % natural_alignment(max(size as int, 1)) == 0
                &&& final(self).live().contains_key(addr.0 - HEADER_SIZE)
                &&& final(self).live()[addr.0 - HEADER_SIZE] >= size + HEADER_SIZE
            },
    {
        let ghost req = max(size as int, 1);
        match self.allocate(palloc, dm, size) {
            Err(e) => Err(e),
            Ok(addr) => {
                let ghost before = *dm;
                let ghost s = addr.0 - HEADER_SIZE;
                proof {
                    law_round_up(req + HEADER_SIZE, MIN_ALIGNMENT as int);
                    lemma_alignment(req, 0);
                    assert(whole_words(old(self).free_blocks())) by {
                        assert forall|i: int| 0 <= i < old(self).free_blocks().len() implies (#[trigger] old(self).free_blocks()[i]).start
                            % 8 == 0 && old(self).free_blocks()[i].size % 8 == 0 && old(self).free_blocks()[i].start >= 0 by {
                            assert(in_used_pages(old(palloc)@, old(self).free_blocks()[i]));
                        }
                    }
                    law_allocation_is_aligned(old(self).free_blocks(), old(palloc)@, total_size(req), natural_alignment(req));
                    assert(self.live().contains_key(s));
                    assert(self.live()[s] >= size + HEADER_SIZE);
                    assert(within(dm, s, self.live()[s]));
                    assert(in_used_pages(palloc@, Block { start: s, size: self.live()[s] }));
                }
                fill(dm, addr.as_u64(), 0, size);
                proof {
                    lemma_wrote_framed(&before, dm, addr.0 as int, Seq::new(size as nat, |k: int| 0u8));
                    law_user_writes_keep_heap(*self, palloc@, &before, dm, s, addr.0 as int, addr.0 + size);
                    let rest = self.live().remove(s);
                    assert(rest =~= old(self).live());
                    lemma_keeps_trans(old(dm), &before, dm, old(self).live());
                    assert forall|a: int| addr.0 <= a < addr.0 + size implies #[trigger] byte(dm, a) == 0 by {}
                }
                Ok(addr)
            },
        }
    }
}

} // verus!
