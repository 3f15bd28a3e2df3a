//! The system call that maps memory and files.

use vstd::prelude::*;

use crate::address::{PhysicalAddr, VirtualAddr};
use crate::bits::{align_down, align_up, law_round_down, law_round_up, lemma_page_sizes, round_down, round_up};
use crate::fs::client::{extends, lemma_extends_trans, since, Fs, FsEvent, FuseClient};
use crate::fs::fd_table::{lookup, FdKind, FdTable, FileDescriptor};
use crate::layout::{
    BASE_PAGE_SIZE, DAX_WINDOW_BASE, DAX_WINDOW_SIZE, DIRECT_MAP_OFFSET, MAX_GUEST_MEMORY, PAGE_SIZE, USER_MMAP_BASE,
};
use crate::memory::access::{byte, in_chunk, mem, same_window, within, Memory};
use crate::memory::allocators::mmap_alloc::{
    arena_holding, arena_limit, arena_placed, arena_with_run, arenas_placed, highest_run, lemma_arena_with_run,
    lemma_highest_run_is_free, lemma_lowest_base, lowest_base, reaches_arenas, small_allocated, small_peak, unused,
    Arena, FRAMES_PER_ARENA,
};
use crate::memory::allocators::palloc::{
    count_used, free_run, law_free_undoes_allocate, lemma_lowest_run_is_free, lowest_run, mark, PAGE_COUNT,
};
use crate::memory::errors::MemoryError;
use crate::memory::page_table::{page_of, PageEntry, PageTable};
use crate::memory::pages::{
    clear_range, cleared, ensure_run, ensured, ensured_peak, entry, fresh_pages, given_back, in_run, is_dax, is_free,
    keeps_used_pages, law_fresh_pages, law_give_back_undoes_map, law_unmap_undoes_map, lemma_taken_keeps,
    lemma_zeroed_keeps, made_private, map_anonymous_pages, mappings_sound, peak_with, reaches_mapped, taken_pages,
    unmap_run, with_run, with_used, without_run, zeroed,
};
use crate::memory::space::{
    all_torn_down, apart, law_tear_down_keeps_reach, lemma_frames, lemma_holder, lemma_holding, lemma_removed_sound,
    lemma_torn_down_sound, rolled_back, run_len, small_ok, tear_down_trace, torn_down, vma_sound, vmas_sound, Space,
    UserSpace,
};
use crate::memory::vma::{
    drained, free_slot, index_of_start, law_found_range_is_free, law_inserted_is_found, search_down,
    swap_removed, MappingBacking, Vma,
};
use crate::syscall::args::{SyscallArgs, SyscallResult};
use crate::syscall::errno::{EBADF, EINVAL, EIO, ENOMEM};
use crate::syscall::handlers::memory::{flushed, lemma_fresh_reached, lemma_same_reach_space, munmap, run_available};
use crate::syscall::handlers::transfer::{
    fs_transfer_chunked, host_filled, lemma_reads_inside, named, page_rest, place, transferred, translated, Direction,
    Through,
};

verus! {

broadcast use crate::fs::client::group_log;

pub const MAP_SHARED: i32 = 0x01;
pub const MAP_PRIVATE: i32 = 0x02;
pub const MAP_FIXED: i32 = 0x10;
pub const MAP_ANONYMOUS: i32 = 0x20;
pub const PROT_WRITE: i32 = 0x2;
pub const FUSE_SETUPMAPPING_FLAG_WRITE: u64 = 1;
pub const FUSE_SETUPMAPPING_FLAG_READ: u64 = 2;

pub open spec fn min_int(a: int, b: int) -> int {
    if a <= b { a } else { b }
}

/// The pages that `addr .. addr + len` touches: where they start, and how many they are.
pub open spec fn page_span(addr: int, len: int) -> (int, int) {
    let start = round_down(addr, PAGE_SIZE as int);
    (start, (round_up(addr + len, PAGE_SIZE as int) - start) / PAGE_SIZE as int)
}

/// What mapping file data at a fixed address does: every page that the range touches becomes
/// private, then the host reads the data to the exact address. No mapping enters the table.
pub open spec fn fixed_file_mapped<M: Memory>(
    s: Space,
    after: Space,
    dm: &M,
    dm_after: &M,
    trace: Seq<FsEvent>,
    addr: u64,
    len: u64,
    fh: u64,
    offset: u64,
    r: SyscallResult,
) -> bool {
    let (start, n) = page_span(addr as int, len as int);
    let (m, used, ok) = ensured(s.mappings, s.used, start, n);
    let count = min_int(len as int, u32::MAX as int) as u32;
    if addr + len > u64::MAX {
        r == EINVAL && after == s && trace.len() == 0 && dm_after == dm
    } else {
        &&& after == Space { mappings: m, used, peak: ensured_peak(s.mappings, s.used, s.peak, start, n), ..s }
        &&& if !ok {
            r == ENOMEM && trace.len() == 0 && made_private(dm, dm_after, s.mappings, s.used, start, n)
        } else {
            &&& exists|between: M|
                {
                    &&& made_private(dm, &between, s.mappings, s.used, start, n)
                    &&& #[trigger] host_filled(Through::Physical, m, mem(&between), mem(dm_after), trace)
                }
            &&& {
                ||| r == addr as i64 && exists|k: u32|
                    #[trigger] transferred(Direction::Read, fh, m, offset, addr, count, 0, trace, Ok(k))
                ||| r == EIO && exists|e: i32|
                    #[trigger] transferred(Direction::Read, fh, m, offset, addr, count, 0, trace, Err(e))
            }
        }
    }
}

fn map_fixed_file<C: FuseClient, M: Memory, P: PageTable>(
    space: &mut UserSpace<P>,
    fs: &mut Fs<C>,
    dm: &mut M,
    addr: u64,
    len: u64,
    fh: u64,
    offset: u64,
) -> (r: SyscallResult)
    requires
        old(space).sound(),
        old(space).reached(old(dm)),
        addr + len > u64::MAX || round_up(addr + len, PAGE_SIZE as int) <= u64::MAX,
    ensures
        final(space).sound(),
        final(space).reached(final(dm)),
        extends(old(fs).log(), final(fs).log()),
        fixed_file_mapped(
            old(space)@,
            final(space)@,
            old(dm),
            final(dm),
            since(old(fs).log(), final(fs).log()),
            addr,
            len,
            fh,
            offset,
            r,
        ),
{
    proof {
        assert(extends(fs.log(), fs.log()));
    }
    let end: u64 = match addr.checked_add(len) {
        Some(e) => e,
        None => {
            return EINVAL;
        },
    };
    proof {
        law_round_down(addr as int, PAGE_SIZE as int);
        law_round_up(end as int, PAGE_SIZE as int);
    }
    let start: u64 = align_down(addr, PAGE_SIZE);
    let aligned_end: u64 = align_up(end, PAGE_SIZE);
    let ghost s = space@;
    if let Err(e) = ensure_run(&mut space.palloc, &mut space.pt, dm, start, (aligned_end - start) / PAGE_SIZE) {
        proof {
            lemma_arenas_reached(old(dm), dm, s);
        }
        return e;
    }
    let ghost between = *dm;
    let count: u32 = if len <= 0xffff_ffff { len as u32 } else { 0xffff_ffff };
    let moved: Result<u32, i32> = fs_transfer_chunked(fs, &space.pt, dm, Through::Physical, Direction::Read, fh, offset, addr, count);
    let ghost trace = since(old(fs).log(), fs.log());
    let ghost m = space@.mappings;
    let r: SyscallResult = match moved {
        Ok(_) => addr as i64,
        Err(_) => EIO,
    };
    proof {
        match moved {
            Ok(k) => {
                assert(transferred(Direction::Read, fh, m, offset, addr, count, 0, trace, Ok(k)));
            },
            Err(e) => {
                assert(transferred(Direction::Read, fh, m, offset, addr, count, 0, trace, Err(e)));
            },
        }
        lemma_arenas_reached(old(dm), &between, s);
        lemma_same_reach_space(&between, dm, space@);
        assert(host_filled(Through::Physical, m, mem(&between), mem(dm), trace));
        assert(space@ =~= Space { mappings: m, used: space@.used, peak: space@.peak, ..s });
        assert(count == min_int(len as int, u32::MAX as int) as u32);
        assert(fixed_file_mapped(s, space@, old(dm), dm, trace, addr, len, fh, offset, r));
    }
    r
}

/// The window reaches the arenas wherever the bytes of memory stand.
proof fn lemma_arenas_reached<M: Memory>(before: &M, after: &M, s: Space)
    requires
        same_window(before, after),
        reaches_arenas(before, s.arenas, s.used),
    ensures
        forall|i: int| 0 <= i < s.arenas.len() ==> within(after, (#[trigger] s.arenas[i]).paddr, PAGE_SIZE as int),
{
    assert forall|i: int| 0 <= i < s.arenas.len() implies within(after, (#[trigger] s.arenas[i]).paddr, PAGE_SIZE as int) by {
        assert(within(before, s.arenas[i].paddr, PAGE_SIZE as int));
    }
}

/// What mapping zeros at a fixed address does: every page that the range touches becomes
/// private, then the range itself, and nothing around it, is set to zero.
pub open spec fn fixed_anon_mapped<M: Memory>(
    s: Space,
    after: Space,
    dm: &M,
    dm_after: &M,
    addr: u64,
    len: u64,
    r: SyscallResult,
) -> bool {
    let (start, n) = page_span(addr as int, len as int);
    let (m, used, ok) = ensured(s.mappings, s.used, start, n);
    if addr + len > u64::MAX {
        r == EINVAL && after == s && dm_after == dm
    } else {
        &&& after == Space { mappings: m, used, peak: ensured_peak(s.mappings, s.used, s.peak, start, n), ..s }
        &&& if !ok {
            r == ENOMEM && made_private(dm, dm_after, s.mappings, s.used, start, n)
        } else {
            &&& r == addr as i64
            &&& exists|between: M|
                {
                    &&& made_private(dm, &between, s.mappings, s.used, start, n)
                    &&& #[trigger] cleared(&between, dm_after, m, addr as int, addr + len)
                }
        }
    }
}

/// Every page of a run that was made private is present.
pub proof fn lemma_ensured_present(m: Map<u64, PageEntry>, used: Seq<bool>, start: int, n: int)
    requires
        0 <= start,
        start % (PAGE_SIZE as int) == 0,
        start + n * PAGE_SIZE <= u64::MAX,
        ensured(m, used, start, n).2,
    ensures
        forall|v: u64|
            #[trigger] in_run(v, start, n) ==> ensured(m, used, start, n).0.contains_key(v) && ensured(m, used, start, n).0[v].present,
    decreases n,
{
    if n > 0 {
        lemma_ensured_present(m, used, start, n - 1);
        let (m1, used1, ok) = ensured(m, used, start, n - 1);
        let last = (start + (n - 1) * PAGE_SIZE) as u64;
        assert forall|v: u64| #[trigger] in_run(v, start, n) implies ensured(m, used, start, n).0.contains_key(v) && ensured(
            m,
            used,
            start,
            n,
        ).0[v].present by {
            assert(in_run(v, start, n - 1) || v == last);
        }
    }
}

fn map_fixed_anon<M: Memory, P: PageTable>(space: &mut UserSpace<P>, dm: &mut M, addr: u64, len: u64) -> (r: SyscallResult)
    requires
        old(space).sound(),
        old(space).reached(old(dm)),
        len > 0,
        addr + len > u64::MAX || round_up(addr + len, PAGE_SIZE as int) <= u64::MAX,
    ensures
        final(space).sound(),
        final(space).reached(final(dm)),
        fixed_anon_mapped(old(space)@, final(space)@, old(dm), final(dm), addr, len, r),
{
    let end: u64 = match addr.checked_add(len) {
        Some(e) => e,
        None => {
            return EINVAL;
        },
    };
    proof {
        law_round_down(addr as int, PAGE_SIZE as int);
        law_round_up(end as int, PAGE_SIZE as int);
    }
    let start: u64 = align_down(addr, PAGE_SIZE);
    let aligned_end: u64 = align_up(end, PAGE_SIZE);
    let ghost s = space@;
    let ghost n = (aligned_end - start) / PAGE_SIZE as int;
    if let Err(e) = ensure_run(&mut space.palloc, &mut space.pt, dm, start, (aligned_end - start) / PAGE_SIZE) {
        proof {
            lemma_arenas_reached(old(dm), dm, s);
        }
        return e;
    }
    let ghost between = *dm;
    proof {
        lemma_arenas_reached(old(dm), dm, s);
        lemma_ensured_present(s.mappings, s.used, start as int, n);
        assert forall|v: u64|
            #![trigger space.pt.mappings().contains_key(v)]
            v % PAGE_SIZE == 0 && addr < v + PAGE_SIZE && v < end implies space.pt.mappings().contains_key(v) && space.pt.mappings()[v].present by {
            assert(in_run(v, start as int, n));
        }
    }
    clear_range(&space.pt, dm, addr, end);
    proof {
        lemma_same_reach_space(&between, dm, space@);
        assert(space@ =~= Space { mappings: space@.mappings, used: space@.used, peak: space@.peak, ..s });
        assert(cleared(&between, dm, space@.mappings, addr as int, addr + len));
        assert(fixed_anon_mapped(s, space@, old(dm), dm, addr, len, addr as i64));
    }
    addr as i64
}

/// The table stays sound when a mapping of whole pages enters it.
proof fn lemma_push_sound(s: Seq<Vma>, arenas: Seq<Arena>, v: Vma)
    requires
        vmas_sound(s, arenas),
        vma_sound(v),
        v.backing != MappingBacking::AnonymousSmall,
    ensures
        vmas_sound(s.push(v), arenas),
{
    let t = s.push(v);
    assert forall|i: int| 0 <= i < t.len() implies vma_sound(#[trigger] t[i]) && (t[i].backing == MappingBacking::AnonymousSmall
        ==> small_ok(arenas, t[i])) by {
        if i < s.len() {
            assert(t[i] == s[i]);
        }
    }
    assert forall|i: int, j: int|
        0 <= i < j < t.len() && (#[trigger] t[i]).backing == MappingBacking::AnonymousSmall && (#[trigger] t[j]).backing
            == MappingBacking::AnonymousSmall implies t[i].end.0 <= t[j].start.0 || t[j].end.0 <= t[i].start.0 by {
        assert(t[i] == s[i]);
        assert(t[j] == s[j]);
    }
}

/// The mapping of `pages` whole pages at `vaddr`.
pub open spec fn page_vma(vaddr: int, pages: int, backing: MappingBacking) -> Vma {
    Vma { start: VirtualAddr(vaddr as u64), end: VirtualAddr((vaddr + pages * PAGE_SIZE) as u64), backing }
}

/// Whether `pages` fresh pages can be mapped at `vaddr`.
pub open spec fn can_map(s: Space, vaddr: int, pages: int) -> bool {
    count_used(s.used) + pages <= PAGE_COUNT && forall|v: u64|
        in_run(v, vaddr, pages) ==> !#[trigger] s.mappings.contains_key(v)
}

/// The space with `pages` fresh pages mapped at `vaddr`, and in the table.
pub open spec fn fresh_mapped(s: Space, vaddr: int, pages: int, backing: MappingBacking) -> Space {
    let fresh = fresh_pages(s.used, pages);
    Space {
        mappings: with_run(s.mappings, vaddr, fresh),
        used: with_used(s.used, fresh),
        peak: peak_with(s.peak, fresh),
        vmas: s.vmas.push(page_vma(vaddr, pages, backing)),
        ..s
    }
}

/// Maps fresh zeroed pages, and enters them in the table.
fn map_fresh<M: Memory, P: PageTable>(
    space: &mut UserSpace<P>,
    dm: &mut M,
    vaddr: u64,
    pages: u64,
    backing: MappingBacking,
) -> (r: Result<(), i64>)
    requires
        old(space).sound(),
        old(space).reached(old(dm)),
        vaddr % PAGE_SIZE == 0,
        pages > 0,
        vaddr + (pages + 1) * PAGE_SIZE <= u64::MAX,
        backing == MappingBacking::Anonymous || backing is PrivateFile,
    ensures
        final(space).sound(),
        final(space).reached(final(dm)),
        r is Ok <==> can_map(old(space)@, vaddr as int, pages as int),
        match r {
            Ok(()) => {
                &&& final(space)@ == fresh_mapped(old(space)@, vaddr as int, pages as int, backing)
                &&& zeroed(old(dm), final(dm), fresh_pages(old(space)@.used, pages as int))
            },
            Err(e) => {
                &&& e == ENOMEM
                &&& final(space)@ == rolled_back(old(space)@, vaddr as int, pages as int)
                &&& zeroed(
                    old(dm),
                    final(dm),
                    taken_pages(old(space)@.used, old(space)@.mappings, vaddr as int, pages as int),
                )
            },
        },
{
    let ghost s = space@;
    proof {
        space.palloc.lemma_page_count();
    }
    if let Err(e) = map_anonymous_pages(&mut space.palloc, &mut space.pt, dm, vaddr, pages) {
        proof {
            lemma_same_reach_space(old(dm), dm, s);
        }
        return Err(e);
    }
    let vma = Vma { start: VirtualAddr::new(vaddr), end: VirtualAddr::new(vaddr + pages * PAGE_SIZE), backing };
    space.vmas.insert(vma);
    proof {
        lemma_fresh_reached(old(dm), dm, s, vaddr as int, pages as int);
        lemma_push_sound(s.vmas, s.arenas, vma);
    }
    Ok(())
}

/// What a private mapping of file data at `vaddr` does: fresh pages are zeroed, then the host reads the data into them.
pub open spec fn private_mapped<M: Memory>(
    s: Space,
    after: Space,
    dm: &M,
    dm_after: &M,
    trace: Seq<FsEvent>,
    vaddr: int,
    pages: int,
    fh: u64,
    nodeid: u64,
    file_offset: u64,
    file_len: int,
    sub_page: int,
    r: SyscallResult,
) -> bool {
    if !can_map(s, vaddr, pages) {
        &&& r == ENOMEM
        &&& after == rolled_back(s, vaddr, pages)
        &&& zeroed(dm, dm_after, taken_pages(s.used, s.mappings, vaddr, pages))
        &&& trace.len() == 0
    } else {
        let count = min_int(min_int(file_len, pages * PAGE_SIZE), u32::MAX as int) as u32;
        &&& after == fresh_mapped(s, vaddr, pages, MappingBacking::PrivateFile { fuse_fh: fh, fuse_nodeid: nodeid })
        &&& exists|between: M|
            zeroed(dm, &between, fresh_pages(s.used, pages)) && #[trigger] host_filled(
                Through::Physical,
                after.mappings,
                mem(&between),
                mem(dm_after),
                trace,
            )
        &&& r == (vaddr + sub_page) as u64 as i64
        &&& exists|t: Result<u32, i32>|
            #[trigger] transferred(Direction::Read, fh, after.mappings, file_offset, vaddr as u64, count, 0, trace, t)
    }
}

/// What the host reads into fresh pages leaves those in use alone.
proof fn lemma_filled_fresh<M: Memory>(
    dm: &M,
    between: &M,
    after: &M,
    s: Space,
    vaddr: u64,
    pages: int,
    fh: u64,
    offset: u64,
    count: u32,
    t: Seq<FsEvent>,
    moved: Result<u32, i32>,
)
    requires
        s.used.len() == PAGE_COUNT,
        vaddr % PAGE_SIZE == 0,
        0 <= pages,
        count_used(s.used) + pages <= PAGE_COUNT,
        count <= pages * PAGE_SIZE,
        vaddr + pages * PAGE_SIZE <= DIRECT_MAP_OFFSET,
        zeroed(dm, between, fresh_pages(s.used, pages)),
        ({
            let maps = with_run(s.mappings, vaddr as int, fresh_pages(s.used, pages));
            &&& host_filled(Through::Physical, maps, mem(between), mem(after), t)
            &&& transferred(Direction::Read, fh, maps, offset, vaddr, count, 0, t, moved)
        }),
    ensures
        keeps_used_pages(dm, after, s.used),
{
    let fresh = fresh_pages(s.used, pages);
    let maps = with_run(s.mappings, vaddr as int, fresh);
    let size = PAGE_SIZE as int;
    law_fresh_pages(s.used, pages);
    lemma_zeroed_keeps(dm, between, s.used, fresh);
    assert forall|a: int| within(dm, a, 1) && !is_free(s.used, a / size) implies #[trigger] byte(after, a) == byte(dm, a) by {
        assert(byte(between, a) == byte(dm, a));
        assert(!named(Through::Physical, maps, t, a)) by {
            if named(Through::Physical, maps, t, a) {
                let i = choose|i: int|
                    0 <= i < t.len() && ((#[trigger] t[i]) matches FsEvent::Read { paddr, count, .. } && (place(
                        Through::Physical,
                        maps,
                        a,
                    ) matches Some(p) && in_chunk(p as int, paddr as int, count as int)));
                lemma_reads_inside(fh, maps, offset, vaddr, count, 0, t, moved, i);
                let paddr = t[i]->Read_paddr;
                let len = t[i]->Read_count;
                let v = choose|v: u64|
                    vaddr <= v && v + len <= vaddr + count && len <= page_rest(v) && #[trigger] translated(maps, v) == Some(paddr);
                if len > 0 {
                    let page = round_down(v as int, size);
                    let k = (page - vaddr) / size;
                    law_round_down(v as int, size);
                    vstd::arithmetic::div_mod::lemma_fundamental_div_mod(v as int, size);
                    assert(v as int % size == v - page);
                    vstd::arithmetic::div_mod::lemma_sub_mod_noop(page, vaddr as int, size);
                    assert((page - vaddr) % size == 0) by {
                        vstd::arithmetic::div_mod::lemma_small_mod(0, size as nat);
                    }
                    assert(vaddr <= page) by {
                        if page < vaddr {
                            assert(page + size <= vaddr) by {
                                vstd::arithmetic::div_mod::lemma_fundamental_div_mod(page, size);
                                vstd::arithmetic::div_mod::lemma_fundamental_div_mod(vaddr as int, size);
                            }
                        }
                    }
                    assert(in_run(page as u64, vaddr as int, pages));
                    vstd::arithmetic::div_mod::lemma_fundamental_div_mod(page - vaddr, size);
                    assert(0 <= k < pages) by (nonlinear_arith)
                        requires
                            0 <= page - vaddr < pages * size,
                            page - vaddr == size * k,
                            size > 0,
                    ;
                    let f = fresh[k];
                    assert(0 <= f < s.used.len() && !s.used[f]);
                    assert(maps[page as u64] == entry(f));
                    assert(paddr == f * size + (v - page));
                    assert(a / size == f) by {
                        vstd::arithmetic::div_mod::lemma_fundamental_div_mod_converse(a, size, f, a - f * size);
                    }
                }
            }
        }
        let k = a - dm.base();
        assert(mem(after).bytes[k] == mem(between).bytes[k]);
    }
}

/// Maps fresh pages and reads the file's data into them.
fn private_copy_path<C: FuseClient, M: Memory, P: PageTable>(
    space: &mut UserSpace<P>,
    fs: &mut Fs<C>,
    dm: &mut M,
    vaddr: u64,
    pages: u64,
    fh: u64,
    nodeid: u64,
    file_offset: u64,
    file_len: u64,
    sub_page: u64,
) -> (r: SyscallResult)
    requires
        old(space).sound(),
        old(space).reached(old(dm)),
        vaddr % PAGE_SIZE == 0,
        pages > 0,
        vaddr + (pages + 1) * PAGE_SIZE <= DIRECT_MAP_OFFSET,
        sub_page < PAGE_SIZE,
    ensures
        final(space).sound(),
        final(space).reached(final(dm)),
        keeps_used_pages(old(dm), final(dm), old(space)@.used),
        extends(old(fs).log(), final(fs).log()),
        private_mapped(
            old(space)@,
            final(space)@,
            old(dm),
            final(dm),
            since(old(fs).log(), final(fs).log()),
            vaddr as int,
            pages as int,
            fh,
            nodeid,
            file_offset,
            file_len as int,
            sub_page as int,
            r,
        ),
{
    let ghost s = space@;
    proof {
        assert(extends(fs.log(), fs.log()));
        space.palloc.lemma_page_count();
    }
    let backing = MappingBacking::PrivateFile { fuse_fh: fh, fuse_nodeid: nodeid };
    if let Err(e) = map_fresh(space, dm, vaddr, pages, backing) {
        proof {
            lemma_taken_keeps(old(dm), dm, s.used, s.mappings, vaddr as int, pages as int);
        }
        return e;
    }
    let ghost between = *dm;
    let aligned_len: u64 = pages * PAGE_SIZE;
    let bounded: u64 = if file_len <= aligned_len { file_len } else { aligned_len };
    let count: u32 = if bounded <= 0xffff_ffff { bounded as u32 } else { 0xffff_ffff };
    let moved: Result<u32, i32> = fs_transfer_chunked(fs, &space.pt, dm, Through::Physical, Direction::Read, fh, file_offset, vaddr, count);
    proof {
        let trace = since(old(fs).log(), fs.log());
        assert(transferred(Direction::Read, fh, space@.mappings, file_offset, vaddr, count, 0, trace, moved));
        assert(count == min_int(min_int(file_len as int, pages * PAGE_SIZE), u32::MAX as int) as u32);
        assert(host_filled(Through::Physical, space@.mappings, mem(&between), mem(dm), trace));
        lemma_same_reach_space(&between, dm, space@);
        lemma_filled_fresh(old(dm), &between, dm, s, vaddr, pages as int, fh, file_offset, count, trace, moved);
        assert(private_mapped(
            s,
            space@,
            old(dm),
            dm,
            trace,
            vaddr as int,
            pages as int,
            fh,
            nodeid,
            file_offset,
            file_len as int,
            sub_page as int,
            (vaddr + sub_page) as u64 as i64,
        ));
    }
    (vaddr + sub_page) as i64
}

/// The mappings with `n` pages of the direct-access window, from `dax_offset` on, mapped from
/// `start` on.
pub open spec fn dax_run(m: Map<u64, PageEntry>, start: int, dax_offset: int, n: int) -> Map<u64, PageEntry> {
    Map::new(
        |v: u64| m.contains_key(v) || in_run(v, start, n),
        |v: u64|
            if in_run(v, start, n) {
                PageEntry { paddr: (DAX_WINDOW_BASE + dax_offset + (v - start)) as u64, present: true }
            } else {
                m[v]
            },
    )
}

/// The answer of the host to setting up a direct mapping.
pub open spec fn setup_reply(e: FsEvent) -> Result<(), i32> {
    match e {
        FsEvent::SetupMapping { reply, .. } => reply,
        _ => Ok(()),
    }
}

/// What an attempt to map a file directly does. It fails, and leaves nothing behind, if the
/// window has no room, the host refuses, or a page is mapped already.
pub open spec fn dax_tried(
    s: Space,
    after: Space,
    trace: Seq<FsEvent>,
    vaddr: int,
    pages: int,
    fh: u64,
    nodeid: u64,
    file_offset: u64,
    file_len: u64,
    flags: u64,
    sub_page: int,
    r: Result<SyscallResult, ()>,
) -> bool {
    match lowest_run(s.dax, pages) {
        None => r is Err && after == s && trace.len() == 0,
        Some(slot) => {
            let dax_offset = (slot * PAGE_SIZE) as u64;
            &&& trace.len() > 0
            &&& trace[0] == FsEvent::SetupMapping {
                fh,
                offset: file_offset,
                len: file_len,
                dax_offset,
                flags,
                reply: setup_reply(trace[0]),
            }
            &&& if setup_reply(trace[0]) is Err {
                r is Err && after == s && trace.len() == 1
            } else if exists|v: u64| in_run(v, vaddr, pages) && #[trigger] s.mappings.contains_key(v) {
                &&& r is Err
                &&& after == s
                &&& trace.len() == 2
                &&& trace[1] matches FsEvent::RemoveMapping { dax_offset: d, len: l, .. }
                &&& d == dax_offset
                &&& l == pages * PAGE_SIZE
            } else {
                let backing = MappingBacking::Dax { dax_offset, fuse_fh: fh, fuse_nodeid: nodeid, file_offset };
                &&& r == Ok::<SyscallResult, ()>((vaddr + sub_page) as u64 as i64)
                &&& trace.len() == 1
                &&& after == Space {
                    mappings: dax_run(s.mappings, vaddr, dax_offset as int, pages),
                    dax: mark(s.dax, slot, pages, true),
                    vmas: s.vmas.push(page_vma(vaddr, pages, backing)),
                    ..s
                }
            }
        },
    }
}

/// Giving back pages of the direct-access window leaves the page allocator alone.
proof fn lemma_dax_not_given_back(used: Seq<bool>, m: Map<u64, PageEntry>, start: int, dax_offset: int, n: int, k: int)
    requires
        0 <= k <= n,
        0 <= start,
        start + n * PAGE_SIZE <= u64::MAX,
        0 <= dax_offset,
        dax_offset + n * PAGE_SIZE <= DAX_WINDOW_SIZE,
    ensures
        given_back(used, dax_run(m, start, dax_offset, n), start, k) == used,
    decreases k,
{
    if k > 0 {
        lemma_dax_not_given_back(used, m, start, dax_offset, n, k - 1);
        let v = (start + (k - 1) * PAGE_SIZE) as u64;
        assert(v - start == (k - 1) * PAGE_SIZE);
        assert(in_run(v, start, n)) by {
            vstd::arithmetic::div_mod::lemma_mod_multiples_basic(k - 1, PAGE_SIZE as int);
        }
        assert(is_dax(dax_run(m, start, dax_offset, n)[v].paddr));
    }
}

/// Mappings of the direct-access window are sound, and reached if the window of memory reaches it.
proof fn lemma_dax_run_sound<M: Memory>(dm: &M, m: Map<u64, PageEntry>, start: int, dax_offset: int, n: int)
    requires
        mappings_sound(m),
        reaches_mapped(dm, m),
        within(dm, DAX_WINDOW_BASE as int, DAX_WINDOW_SIZE as int),
        0 <= start,
        start % (PAGE_SIZE as int) == 0,
        0 <= dax_offset,
        dax_offset % (PAGE_SIZE as int) == 0,
        dax_offset + n * PAGE_SIZE <= DAX_WINDOW_SIZE,
    ensures
        mappings_sound(dax_run(m, start, dax_offset, n)),
        reaches_mapped(dm, dax_run(m, start, dax_offset, n)),
{
    let w = dax_run(m, start, dax_offset, n);
    assert forall|v: u64| #[trigger] w.contains_key(v) implies {
        &&& v % PAGE_SIZE == 0
        &&& w[v].paddr % PAGE_SIZE == 0
        &&& is_dax(w[v].paddr) || w[v].paddr < MAX_GUEST_MEMORY
        &&& within(dm, w[v].paddr as int, PAGE_SIZE as int)
    } by {
        if in_run(v, start, n) {
            assert(w[v].paddr == DAX_WINDOW_BASE + dax_offset + (v - start));
        } else {
            assert(m.contains_key(v));
        }
    }
}

/// Maps the pages of the direct-access window from `dax_offset` on. If one is mapped already,
/// nothing stays mapped.
fn map_dax_pages<P: PageTable>(space: &mut UserSpace<P>, vaddr: u64, dax_offset: u64, pages: u64) -> (ok: bool)
    requires
        old(space).parts_wf(),
        vaddr % PAGE_SIZE == 0,
        vaddr + pages * PAGE_SIZE <= u64::MAX,
        dax_offset % PAGE_SIZE == 0,
        dax_offset + pages * PAGE_SIZE <= DAX_WINDOW_SIZE,
    ensures
        final(space).parts_wf(),
        ok <==> !(exists|v: u64| in_run(v, vaddr as int, pages as int) && #[trigger] old(space)@.mappings.contains_key(v)),
        final(space)@ == (if ok {
            Space {
                mappings: dax_run(old(space)@.mappings, vaddr as int, dax_offset as int, pages as int),
                ..old(space)@
            }
        } else {
            old(space)@
        }),
{
    let ghost s = space@;
    let ghost m = s.mappings;
    let mut i: u64 = 0;
    proof {
        assert(dax_run(m, vaddr as int, dax_offset as int, 0) =~= m);
    }
    while i < pages
        invariant
            i <= pages,
            s == old(space)@,
            m == s.mappings,
            space.parts_wf(),
            vaddr % PAGE_SIZE == 0,
            vaddr + pages * PAGE_SIZE <= u64::MAX,
            dax_offset % PAGE_SIZE == 0,
            dax_offset + pages * PAGE_SIZE <= DAX_WINDOW_SIZE,
            space@ == (Space { mappings: dax_run(m, vaddr as int, dax_offset as int, i as int), ..s }),
            mappings_sound(m),
            forall|v: u64| in_run(v, vaddr as int, i as int) ==> !#[trigger] m.contains_key(v),
        decreases pages - i,
    {
        let v: u64 = vaddr + i * PAGE_SIZE;
        proof {
            assert(v % PAGE_SIZE == 0);
            assert(page_of(v) == v);
            assert(in_run(v, vaddr as int, pages as int));
            assert forall|w: u64| in_run(w, vaddr as int, i + 1) == (in_run(w, vaddr as int, i as int) || w == v) by {}
            assert(!in_run(v, vaddr as int, i as int));
        }
        let dax_phys: u64 = DAX_WINDOW_BASE + (dax_offset + i * PAGE_SIZE);
        if space.pt.map_2mb(VirtualAddr::new(v), PhysicalAddr::new(dax_phys)).is_err() {
            proof {
                assert(m.contains_key(v));
                lemma_dax_not_given_back(s.used, m, vaddr as int, dax_offset as int, i as int, i as int);
                assert(without_run(dax_run(m, vaddr as int, dax_offset as int, i as int), vaddr as int, i as int) =~= m);
            }
            unmap_run(&mut space.palloc, &mut space.pt, vaddr, i);
            return false;
        }
        proof {
            let a = dax_run(m, vaddr as int, dax_offset as int, i as int).insert(
                v,
                PageEntry { paddr: dax_phys, present: true },
            );
            let b = dax_run(m, vaddr as int, dax_offset as int, i + 1);
            assert(a =~= b);
            assert forall|w: u64| #[trigger] b.contains_key(w) implies {
                &&& w % PAGE_SIZE == 0
                &&& b[w].paddr % PAGE_SIZE == 0
                &&& is_dax(b[w].paddr) || b[w].paddr < MAX_GUEST_MEMORY
            } by {
                if in_run(w, vaddr as int, i + 1) {
                    assert(b[w].paddr == DAX_WINDOW_BASE + dax_offset + (w - vaddr));
                } else {
                    assert(m.contains_key(w));
                }
            }
        }
        i += 1;
    }
    true
}

/// Maps a file directly: takes slots of the window, has the host fill them, and maps them.
#[verifier::rlimit(40)]
fn dax_path<C: FuseClient, M: Memory, P: PageTable>(
    space: &mut UserSpace<P>,
    fs: &mut Fs<C>,
    dm: &M,
    vaddr: u64,
    pages: u64,
    fh: u64,
    nodeid: u64,
    file_offset: u64,
    file_len: u64,
    flags: u64,
    sub_page: u64,
) -> (r: Result<SyscallResult, ()>)
    requires
        old(space).sound(),
        old(space).reached(dm),
        within(dm, DAX_WINDOW_BASE as int, DAX_WINDOW_SIZE as int),
        vaddr % PAGE_SIZE == 0,
        pages > 0,
        vaddr + (pages + 1) * PAGE_SIZE <= u64::MAX,
        sub_page < PAGE_SIZE,
    ensures
        final(space).sound(),
        final(space).reached(dm),
        extends(old(fs).log(), final(fs).log()),
        dax_tried(
            old(space)@,
            final(space)@,
            since(old(fs).log(), final(fs).log()),
            vaddr as int,
            pages as int,
            fh,
            nodeid,
            file_offset,
            file_len,
            flags,
            sub_page as int,
            r,
        ),
{
    let ghost s = space@;
    proof {
        assert(extends(fs.log(), fs.log()));
        space.dax.lemma_slot_count();
        lemma_lowest_run_is_free(s.dax, pages as int);
    }
    let dax_offset: u64 = match space.dax.allocate(pages) {
        Ok(offset) => offset,
        Err(_) => {
            return Err(());
        },
    };
    let ghost slot = lowest_run(s.dax, pages as int)->0;
    proof {
        assert(dax_offset as int / PAGE_SIZE as int == slot) by {
            vstd::arithmetic::div_mod::lemma_div_multiples_vanish(slot, PAGE_SIZE as int);
        }
        assert(dax_offset % PAGE_SIZE == 0) by {
            vstd::arithmetic::div_mod::lemma_mod_multiples_basic(slot, PAGE_SIZE as int);
        }
        law_free_undoes_allocate(s.dax, slot, pages as int);
    }
    if fs.setup_mapping(fh, file_offset, file_len, dax_offset, flags).is_err() {
        space.dax.free(dax_offset, pages);
        return Err(());
    }
    if !map_dax_pages(space, vaddr, dax_offset, pages) {
        let _ = fs.remove_mapping(dax_offset, pages * PAGE_SIZE);
        space.dax.free(dax_offset, pages);
        return Err(());
    }
    let backing = MappingBacking::Dax { dax_offset, fuse_fh: fh, fuse_nodeid: nodeid, file_offset };
    let vma = Vma { start: VirtualAddr::new(vaddr), end: VirtualAddr::new(vaddr + pages * PAGE_SIZE), backing };
    space.vmas.insert(vma);
    proof {
        assert(vma == page_vma(vaddr as int, pages as int, backing));
        assert((vma.end.0 - vma.start.0) / PAGE_SIZE as int == pages) by {
            vstd::arithmetic::div_mod::lemma_div_multiples_vanish(pages as int, PAGE_SIZE as int);
        }
        lemma_push_sound(s.vmas, s.arenas, vma);
        lemma_dax_run_sound(dm, s.mappings, vaddr as int, dax_offset as int, pages as int);
    }
    Ok((vaddr + sub_page) as i64)
}

/// How many of the first `n` mappings are direct ones.
pub open spec fn dax_count(vs: Seq<Vma>, n: int) -> int
    decreases n,
{
    if n <= 0 {
        0
    } else {
        dax_count(vs, n - 1) + if vs[n - 1].backing is Dax { 1int } else { 0int }
    }
}

/// What tearing down the first `n` mappings, one after the other, asks of the host.
pub open spec fn all_torn_trace(trace: Seq<FsEvent>, vs: Seq<Vma>, n: int) -> bool
    decreases n,
{
    if n <= 0 {
        trace.len() == 0
    } else {
        let k = dax_count(vs, n - 1);
        &&& 0 <= k <= trace.len()
        &&& all_torn_trace(trace.take(k), vs, n - 1)
        &&& tear_down_trace(trace.skip(k), vs[n - 1])
    }
}

/// The trace of some teardowns is as long as there are direct mappings among them.
proof fn lemma_torn_trace_len(trace: Seq<FsEvent>, vs: Seq<Vma>, n: int)
    requires
        all_torn_trace(trace, vs, n),
    ensures
        trace.len() == dax_count(vs, n),
    decreases n,
{
    if n > 0 {
        lemma_torn_trace_len(trace.take(dax_count(vs, n - 1)), vs, n - 1);
    }
}

/// The mappings that leave the table and those that stay are sound together, and apart from
/// whatever all of them were apart from.
proof fn lemma_drained_sound(s: Seq<Vma>, arenas: Seq<Arena>, lo: int, hi: int, i: int)
    requires
        vmas_sound(s, arenas),
        0 <= i <= s.len(),
    ensures
        ({
            let (removed, rest) = drained(s, lo, hi, i);
            &&& vmas_sound(removed + rest, arenas)
            &&& forall|v: Vma|
                #![trigger apart_from_all(v, s)]
                apart_from_all(v, s) ==> apart_from_all(v, removed + rest)
        }),
    decreases s.len() - i,
{
    let (removed, rest) = drained(s, lo, hi, i);
    if i < s.len() {
        if s[i].overlaps(lo, hi) {
            let t = swap_removed(s, i);
            lemma_removed_sound(s, arenas, i);
            lemma_drained_sound(t, arenas, lo, hi, i);
            let (more, rest2) = drained(t, lo, hi, i);
            assert(apart_from_all(s[i], t));
            assert(vma_sound(s[i]));
            lemma_cons_sound(s[i], more + rest2, arenas);
            assert(seq![s[i]] + (more + rest2) =~= removed + rest);
            assert forall|v: Vma| #![trigger apart_from_all(v, s)] apart_from_all(v, s) implies apart_from_all(v, removed + rest) by {
                assert forall|k: int| 0 <= k < t.len() implies apart(v, #[trigger] t[k]) by {
                    assert(apart(v, s[k]));
                    assert(apart(v, s[s.len() - 1]));
                }
                assert(apart_from_all(v, t));
                assert(apart(v, s[i]));
                assert forall|k: int| 0 <= k < (removed + rest).len() implies apart(v, #[trigger] (removed + rest)[k]) by {
                    if k > 0 {
                        assert((removed + rest)[k] == (more + rest2)[k - 1]);
                    }
                }
            }
        } else {
            lemma_drained_sound(s, arenas, lo, hi, i + 1);
        }
    } else {
        assert(removed + rest =~= s);
    }
}

/// `v` is apart from every mapping of `s`.
pub open spec fn apart_from_all(v: Vma, s: Seq<Vma>) -> bool {
    forall|k: int| 0 <= k < s.len() ==> apart(v, #[trigger] s[k])
}

/// A mapping that is apart from a sound table can be put in front of it.
proof fn lemma_cons_sound(v: Vma, s: Seq<Vma>, arenas: Seq<Arena>)
    requires
        vmas_sound(s, arenas),
        vma_sound(v),
        v.backing == MappingBacking::AnonymousSmall ==> small_ok(arenas, v),
        apart_from_all(v, s),
    ensures
        vmas_sound(seq![v] + s, arenas),
{
    let t = seq![v] + s;
    assert forall|k: int| 0 <= k < t.len() implies vma_sound(#[trigger] t[k]) && (t[k].backing == MappingBacking::AnonymousSmall
        ==> small_ok(arenas, t[k])) by {
        if k > 0 {
            assert(t[k] == s[k - 1]);
        }
    }
    assert forall|i: int, j: int|
        0 <= i < j < t.len() && (#[trigger] t[i]).backing == MappingBacking::AnonymousSmall && (#[trigger] t[j]).backing
            == MappingBacking::AnonymousSmall implies t[i].end.0 <= t[j].start.0 || t[j].end.0 <= t[i].start.0 by {
        assert(t[j] == s[j - 1]);
        if i > 0 {
            assert(t[i] == s[i - 1]);
        } else {
            assert(apart(v, s[j - 1]));
        }
    }
}

/// A sound table without its first mapping is sound, and apart from that mapping.
proof fn lemma_uncons_sound(s: Seq<Vma>, arenas: Seq<Arena>)
    requires
        vmas_sound(s, arenas),
        s.len() > 0,
    ensures
        vmas_sound(s.skip(1), arenas),
        apart_from_all(s[0], s.skip(1)),
        vma_sound(s[0]),
        s[0].backing == MappingBacking::AnonymousSmall ==> small_ok(arenas, s[0]),
{
    let t = s.skip(1);
    assert forall|k: int| 0 <= k < t.len() implies vma_sound(#[trigger] t[k]) && (t[k].backing == MappingBacking::AnonymousSmall
        ==> small_ok(arenas, t[k])) && apart(s[0], t[k]) by {
        assert(t[k] == s[k + 1]);
    }
    assert forall|i: int, j: int|
        0 <= i < j < t.len() && (#[trigger] t[i]).backing == MappingBacking::AnonymousSmall && (#[trigger] t[j]).backing
            == MappingBacking::AnonymousSmall implies t[i].end.0 <= t[j].start.0 || t[j].end.0 <= t[i].start.0 by {
        assert(t[i] == s[i + 1]);
        assert(t[j] == s[j + 1]);
    }
}

/// The space without the mappings that overlap `lo .. hi`; and those mappings.
pub open spec fn overlaps_dropped(s: Space, lo: int, hi: int) -> (Space, Seq<Vma>) {
    let (removed, rest) = drained(s.vmas, lo, hi, 0);
    (all_torn_down(Space { vmas: rest, ..s }, removed, removed.len() as int), removed)
}

/// Removes and tears down every mapping that overlaps `lo .. hi`.
#[verifier::rlimit(40)]
fn drop_overlapping<C: FuseClient, M: Memory, P: PageTable>(
    space: &mut UserSpace<P>,
    fs: &mut Fs<C>,
    dm: &M,
    lo: VirtualAddr,
    hi: VirtualAddr,
)
    requires
        old(space).sound(),
        old(space).reached(dm),
    ensures
        final(space).sound(),
        final(space).reached(dm),
        final(space)@ == overlaps_dropped(old(space)@, lo.0 as int, hi.0 as int).0,
        extends(old(fs).log(), final(fs).log()),
        ({
            let removed = overlaps_dropped(old(space)@, lo.0 as int, hi.0 as int).1;
            all_torn_trace(since(old(fs).log(), final(fs).log()), removed, removed.len() as int)
        }),
{
    let ghost s = space@;
    proof {
        assert(extends(fs.log(), fs.log()));
        lemma_drained_sound(s.vmas, s.arenas, lo.0 as int, hi.0 as int, 0);
        space.palloc.lemma_page_count();
    }
    let removed = space.vmas.remove_overlapping(lo, hi);
    let ghost rest = space.vmas@;
    let ghost start = Space { vmas: rest, ..s };
    let mut i: usize = 0;
    proof {
        assert(removed@.skip(0) + rest =~= removed@ + rest);
    }
    while i < removed.len()
        invariant
            i <= removed@.len(),
            space.parts_wf(),
            space.reached(dm),
            space@.used.len() == PAGE_COUNT,
            space@ == all_torn_down(start, removed@, i as int),
            space@.vmas == rest,
            vmas_sound(removed@.skip(i as int) + rest, space@.arenas),
            extends(old(fs).log(), fs.log()),
            all_torn_trace(since(old(fs).log(), fs.log()), removed@, i as int),
        decreases removed@.len() - i,
    {
        let ghost before = space@;
        let ghost log = fs.log();
        let ghost pending = removed@.skip(i as int) + rest;
        let vma = removed[i];
        proof {
            assert(pending[0] == vma);
            lemma_uncons_sound(pending, before.arenas);
            assert(pending.skip(1) =~= removed@.skip(i + 1) + rest);
            space.arenas.lemma_placed();
            law_tear_down_keeps_reach(dm, before, vma);
            assert(extends(fs.log(), fs.log()));
        }
        space.tear_down_vma(fs, vma);
        proof {
            space.arenas.lemma_placed();
            lemma_torn_down_sound(before, vma, pending.skip(1));
            lemma_extends_trans(old(fs).log(), log, fs.log());
            let t1 = since(old(fs).log(), log);
            let t2 = since(log, fs.log());
            lemma_torn_trace_len(t1, removed@, i as int);
            assert((t1 + t2).take(t1.len() as int) =~= t1);
            assert((t1 + t2).skip(t1.len() as int) =~= t2);
        }
        i += 1;
    }
    proof {
        assert(removed@.skip(removed@.len() as int) + rest =~= rest);
    }
}

/// A run of frames that was free in arena `i` of the new arenas makes a small mapping of its own.
#[verifier::rlimit(60)]
proof fn lemma_small_pushed(s: Seq<Vma>, arenas: Seq<Arena>, after: Seq<Arena>, i: int, start: int, n: int, v: Vma)
    requires
        vmas_sound(s, arenas),
        arenas_placed(arenas),
        arenas_placed(after),
        0 <= i < after.len(),
        arenas.len() <= after.len(),
        forall|k: int| 0 <= k < arenas.len() ==> (#[trigger] after[k]).vaddr == arenas[k].vaddr,
        forall|k: int| 0 <= k < arenas.len() && k != i ==> (#[trigger] after[k]).used == arenas[k].used,
        i < arenas.len() ==> free_run(arenas[i].used, start, n) && after[i].used == mark(arenas[i].used, start, n, true),
        i >= arenas.len() ==> after[i].used == mark(unused(), start, n, true),
        0 <= start,
        0 < n,
        start + n <= FRAMES_PER_ARENA,
        v.start.0 == after[i].vaddr + start * BASE_PAGE_SIZE,
        v.end.0 == v.start.0 + n * BASE_PAGE_SIZE,
        v.backing == MappingBacking::AnonymousSmall,
    ensures
        vmas_sound(s.push(v), after),
{
    let t = s.push(v);
    let a = after[i];
    assert(arena_placed(a));
    assert(v.start.0 % BASE_PAGE_SIZE == 0 && v.end.0 % BASE_PAGE_SIZE == 0);
    assert(vma_sound(v));
    lemma_holding(after, v.start.0 as int, i, 0);
    assert((v.start.0 - a.vaddr) / BASE_PAGE_SIZE as int == start) by {
        vstd::arithmetic::div_mod::lemma_div_multiples_vanish(start, BASE_PAGE_SIZE as int);
    }
    assert((v.end.0 - a.vaddr) / BASE_PAGE_SIZE as int == start + n) by {
        assert(v.end.0 - a.vaddr == (start + n) * BASE_PAGE_SIZE);
        vstd::arithmetic::div_mod::lemma_div_multiples_vanish(start + n, BASE_PAGE_SIZE as int);
    }
    assert(small_ok(after, v));
    assert forall|k: int| 0 <= k < s.len() && (#[trigger] s[k]).backing == MappingBacking::AnonymousSmall implies small_ok(
        after,
        s[k],
    ) && apart(s[k], v) by {
        let w = s[k];
        assert(vma_sound(w));
        assert(small_ok(arenas, w));
        let j = arena_holding(arenas, w.start.0 as int, 0)->0;
        lemma_holder(arenas, w.start.0 as int, 0);
        assert(arena_placed(arenas[j]));
        assert(after[j].vaddr == arenas[j].vaddr);
        lemma_holding(after, w.start.0 as int, j, 0);
        lemma_frames(w, arenas[j].vaddr);
        let first = (w.start.0 - arenas[j].vaddr) / BASE_PAGE_SIZE as int;
        let last = (w.end.0 - arenas[j].vaddr) / BASE_PAGE_SIZE as int;
        assert forall|f: int| first <= f < last implies #[trigger] after[j].used[f] by {
            assert(arenas[j].used[f]);
        }
        if i == j {
            if first < start + n && start < last {
                let f = if first >= start { first } else { start };
                assert(arenas[j].used[f]);
                assert(!arenas[j].used[f]);
            }
        } else {
            assert(after[i].vaddr != after[j].vaddr) by {
                if i < j {
                    assert(after[i].vaddr != after[j].vaddr);
                } else {
                    assert(after[j].vaddr != after[i].vaddr);
                }
            }
        }
    }
    assert forall|k: int| 0 <= k < t.len() implies vma_sound(#[trigger] t[k]) && (t[k].backing == MappingBacking::AnonymousSmall
        ==> small_ok(after, t[k])) by {
        if k < s.len() {
            assert(t[k] == s[k]);
        }
    }
    assert forall|j: int, k: int|
        0 <= j < k < t.len() && (#[trigger] t[j]).backing == MappingBacking::AnonymousSmall && (#[trigger] t[k]).backing
            == MappingBacking::AnonymousSmall implies t[j].end.0 <= t[k].start.0 || t[k].end.0 <= t[j].start.0 by {
        assert(t[j] == s[j]);
        if k < s.len() {
            assert(t[k] == s[k]);
        } else {
            assert(apart(s[j], v));
        }
    }
}

/// The mapping of a small allocation.
pub open spec fn small_vma(v: VirtualAddr, len: u64) -> Vma {
    Vma { start: v, end: VirtualAddr((v.0 + len) as u64), backing: MappingBacking::AnonymousSmall }
}

/// What a small anonymous mapping of `len` bytes does.
pub open spec fn small_mapped<M: Memory, P: PageTable>(
    s: Space,
    after: Space,
    pt: &P,
    pt_after: &P,
    dm: &M,
    dm_after: &M,
    len: int,
    r: SyscallResult,
) -> bool {
    let arenas = after.arenas;
    let peak = small_peak(s.arenas, s.vmas, s.used, s.peak, len);
    ||| {
        &&& r == ENOMEM
        &&& after == Space { peak, ..s }
        &&& small_allocated(
            s.arenas,
            arenas,
            s.vmas,
            s.used,
            after.used,
            pt,
            pt_after,
            dm,
            dm_after,
            len,
            Err(MemoryError::OutOfMemory),
        )
    }
    ||| exists|v: VirtualAddr, l: u64|
        {
            &&& r == v.0 as i64
            &&& after == Space {
                arenas,
                used: after.used,
                mappings: after.mappings,
                peak,
                vmas: s.vmas.push(small_vma(v, l)),
                ..s
            }
            &&& #[trigger] small_allocated(
                s.arenas,
                arenas,
                s.vmas,
                s.used,
                after.used,
                pt,
                pt_after,
                dm,
                dm_after,
                len,
                Ok((v, l)),
            )
        }
}

/// Serves a small anonymous mapping from the arenas.
#[verifier::rlimit(60)]
fn map_small<M: Memory, P: PageTable>(space: &mut UserSpace<P>, dm: &mut M, len: u64) -> (r: SyscallResult)
    requires
        old(space).sound(),
        old(space).reached(old(dm)),
        0 < len < PAGE_SIZE,
    ensures
        final(space).sound(),
        final(space).reached(final(dm)),
        small_mapped(old(space)@, final(space)@, &old(space).pt, &final(space).pt, old(dm), final(dm), len as int, r),
{
    let ghost s = space@;
    let ghost pt0 = space.pt;
    proof {
        space.arenas.lemma_placed();
        space.palloc.lemma_page_count();
        law_round_up(len as int, BASE_PAGE_SIZE as int);
    }
    match space.arenas.allocate(len, &mut space.palloc, &mut space.pt, &space.vmas, dm) {
        Err(e) => {
            proof {
                lemma_same_reach_space(old(dm), dm, s);
                assert(space@ =~= Space { peak: space@.peak, ..s });
            }
            ENOMEM
        },
        Ok((vaddr, aligned_len)) => {
            proof {
                space.arenas.lemma_placed();
                lemma_small_allocated(s, space@, &pt0, &space.pt, old(dm), dm, len as int, vaddr, aligned_len);
            }
            space.vmas.insert(
                Vma {
                    start: vaddr,
                    end: VirtualAddr::new(vaddr.as_u64() + aligned_len),
                    backing: MappingBacking::AnonymousSmall,
                },
            );
            proof {
                assert(small_allocated(
                    s.arenas,
                    space@.arenas,
                    s.vmas,
                    s.used,
                    space@.used,
                    &pt0,
                    &space.pt,
                    old(dm),
                    dm,
                    len as int,
                    Ok((vaddr, aligned_len)),
                ));
            }
            vaddr.as_u64() as i64
        },
    }
}

/// The space is sound and reached once a small allocation is entered in the table.
#[verifier::rlimit(60)]
proof fn lemma_small_allocated<M: Memory, P: PageTable>(
    s: Space,
    after: Space,
    pt: &P,
    pt_after: &P,
    dm: &M,
    dm_after: &M,
    len: int,
    v: VirtualAddr,
    l: u64,
)
    requires
        0 < len < PAGE_SIZE,
        s.used.len() == PAGE_COUNT,
        vmas_sound(s.vmas, s.arenas),
        arenas_placed(s.arenas),
        arenas_placed(after.arenas),
        mappings_sound(s.mappings),
        reaches_arenas(dm, s.arenas, s.used),
        reaches_mapped(dm, s.mappings),
        same_window(dm, dm_after),
        s.mappings == pt.mappings(),
        after.mappings == pt_after.mappings(),
        small_allocated(s.arenas, after.arenas, s.vmas, s.used, after.used, pt, pt_after, dm, dm_after, len, Ok((v, l))),
    ensures
        v.0 + l <= u64::MAX,
        vmas_sound(s.vmas.push(small_vma(v, l)), after.arenas),
        mappings_sound(after.mappings),
        reaches_arenas(dm_after, after.arenas, after.used),
        reaches_mapped(dm_after, after.mappings),
{
    let size = round_up(len, BASE_PAGE_SIZE as int);
    let n = size / BASE_PAGE_SIZE as int;
    law_round_up(len, BASE_PAGE_SIZE as int);
    lemma_same_reach_space(dm, dm_after, s);
    let vma = small_vma(v, l);
    match arena_with_run(s.arenas, n, 0) {
        Some(i) => {
            lemma_arena_with_run(s.arenas, n, 0);
            assert(arena_placed(s.arenas[i]));
            lemma_highest_run_is_free(s.arenas[i].used, n);
            let start = highest_run(s.arenas[i].used, n)->0;
            assert(free_run(s.arenas[i].used, start, n));
            assert(after.arenas[i].vaddr == s.arenas[i].vaddr);
            lemma_small_pushed(s.vmas, s.arenas, after.arenas, i, start, n, vma);
            assert forall|k: int| 0 <= k < after.arenas.len() implies within(
                dm_after,
                (#[trigger] after.arenas[k]).paddr,
                PAGE_SIZE as int,
            ) by {
                assert(within(dm, s.arenas[k].paddr, PAGE_SIZE as int));
            }
        },
        None => {
            let i = s.arenas.len() as int;
            let a = after.arenas[i];
            assert(arena_placed(a));
            lemma_small_pushed(s.vmas, s.arenas, after.arenas, i, FRAMES_PER_ARENA - n, n, vma);
            let p = lowest_run(s.used, 1)->0;
            lemma_lowest_run_is_free(s.used, 1);
            assert(!s.used[p]);
            assert(within(dm, p * PAGE_SIZE, PAGE_SIZE as int));
            assert forall|k: int| 0 <= k < after.arenas.len() implies within(
                dm_after,
                (#[trigger] after.arenas[k]).paddr,
                PAGE_SIZE as int,
            ) by {
                if k < s.arenas.len() {
                    assert(after.arenas[k] == s.arenas[k]);
                    assert(within(dm, s.arenas[k].paddr, PAGE_SIZE as int));
                }
            }
            assert forall|q: int| 0 <= q < after.used.len() && !(#[trigger] after.used[q]) implies within(
                dm_after,
                q * PAGE_SIZE,
                PAGE_SIZE as int,
            ) by {
                assert(!s.used[q]);
            }
        },
    }
}

/// The file that descriptor `fd` has open: its handle, its node, and its size.
pub open spec fn open_file(fds: Seq<Option<FileDescriptor>>, fd: i32) -> Option<(u64, u64, u64)> {
    if fd < 0 {
        None
    } else {
        match lookup(fds, fd as u64) {
            Some(d) => match d.kind {
                FdKind::File { fuse_fh, fuse_nodeid, size, .. } => Some((fuse_fh, fuse_nodeid, size)),
                _ => None,
            },
            None => None,
        }
    }
}

fn find_open_file(fds: &FdTable, fd: i32) -> (r: Option<(u64, u64, u64)>)
    ensures
        r == open_file(fds@, fd),
{
    if fd < 0 {
        return None;
    }
    match fds.get(fd as u64) {
        Some(d) => match d.kind {
            FdKind::File { fuse_fh, fuse_nodeid, size, .. } => Some((fuse_fh, fuse_nodeid, size)),
            _ => None,
        },
        None => None,
    }
}

/// Nothing was changed and nothing was asked of the host.
pub open spec fn untouched<M: Memory>(s: Space, after: Space, dm: &M, dm_after: &M, trace: Seq<FsEvent>) -> bool {
    after == s && dm_after == dm && trace.len() == 0
}

/// What mapping a file at `base` does. Data that is private and writable is copied; other data
/// is mapped directly if the file covers every page, and copied if that fails.
pub open spec fn file_mapped<M: Memory>(
    s: Space,
    after: Space,
    dm: &M,
    dm_after: &M,
    trace: Seq<FsEvent>,
    base: int,
    pages: int,
    file: (u64, u64, u64),
    offset: u64,
    prot: i32,
    flags: i32,
    r: SyscallResult,
) -> bool {
    let (fh, nodeid, file_size) = file;
    let sub_page = (offset % PAGE_SIZE) as int;
    let file_offset = (offset - sub_page) as u64;
    let rest = if file_size >= file_offset { file_size - file_offset } else { 0 };
    let content = min_int(rest, pages * PAGE_SIZE);
    let dax_flags = if flags & MAP_SHARED != 0 {
        FUSE_SETUPMAPPING_FLAG_READ | FUSE_SETUPMAPPING_FLAG_WRITE
    } else {
        FUSE_SETUPMAPPING_FLAG_READ
    };
    if flags & MAP_PRIVATE != 0 && prot & PROT_WRITE != 0 || content != pages * PAGE_SIZE {
        private_mapped(s, after, dm, dm_after, trace, base, pages, fh, nodeid, file_offset, content, sub_page, r)
    } else {
        ||| dm_after == dm && dax_tried(
            s,
            after,
            trace,
            base,
            pages,
            fh,
            nodeid,
            file_offset,
            content as u64,
            dax_flags,
            sub_page,
            Ok(r),
        )
        ||| exists|k: int|
            {
                &&& 0 <= k <= trace.len()
                &&& dax_tried(
                    s,
                    s,
                    #[trigger] trace.take(k),
                    base,
                    pages,
                    fh,
                    nodeid,
                    file_offset,
                    content as u64,
                    dax_flags,
                    sub_page,
                    Err(()),
                )
                &&& private_mapped(s, after, dm, dm_after, trace.skip(k), base, pages, fh, nodeid, file_offset, content, sub_page, r)
            }
    }
}

/// What a request to map memory does.
pub open spec fn mmap_done<M: Memory, P: PageTable>(
    s: Space,
    after: Space,
    pt: &P,
    pt_after: &P,
    dm: &M,
    dm_after: &M,
    trace: Seq<FsEvent>,
    fds: Seq<Option<FileDescriptor>>,
    args: SyscallArgs,
    r: SyscallResult,
) -> bool {
    let addr = args.arg0;
    let len = args.arg1;
    let prot = args.arg2 as i32;
    let flags = args.arg3 as i32;
    let fd = args.arg4 as i32;
    let offset = args.arg5;
    let fixed = flags & MAP_FIXED != 0;
    let anonymous = flags & MAP_ANONYMOUS != 0;
    let sub_page = if anonymous { 0 } else { (offset % PAGE_SIZE) as int };
    let size = round_up(len + sub_page, PAGE_SIZE as int);
    let pages = size / PAGE_SIZE as int;
    if len == 0 {
        r == EINVAL && untouched(s, after, dm, dm_after, trace)
    } else if fixed && !anonymous && fd >= 0 {
        if addr % BASE_PAGE_SIZE != 0 {
            r == EINVAL && untouched(s, after, dm, dm_after, trace)
        } else {
            match open_file(fds, fd) {
                None => r == EBADF && untouched(s, after, dm, dm_after, trace),
                Some((fh, _, _)) => fixed_file_mapped(s, after, dm, dm_after, trace, addr, len, fh, offset, r),
            }
        }
    } else if fixed && anonymous {
        if addr % BASE_PAGE_SIZE != 0 {
            r == EINVAL && untouched(s, after, dm, dm_after, trace)
        } else {
            fixed_anon_mapped(s, after, dm, dm_after, addr, len, r) && trace.len() == 0
        }
    } else if !fixed && anonymous && len < PAGE_SIZE {
        small_mapped(s, after, pt, pt_after, dm, dm_after, len as int, r) && trace.len() == 0
    } else if fixed && addr % PAGE_SIZE != 0 {
        r == EINVAL && untouched(s, after, dm, dm_after, trace)
    } else if len + sub_page > u64::MAX {
        r == EINVAL && untouched(s, after, dm, dm_after, trace)
    } else if fixed {
        let (torn, removed) = overlaps_dropped(s, addr as int, addr + size);
        &&& r == EBADF
        &&& after == torn
        &&& dm_after == dm
        &&& all_torn_trace(trace, removed, removed.len() as int)
    } else {
        match search_down(s.vmas, arena_limit(s.arenas), size, PAGE_SIZE as int) {
            None => r == ENOMEM && untouched(s, after, dm, dm_after, trace),
            Some(base) => {
                let reserved = Space { mmap_next: base as u64, ..s };
                if anonymous {
                    &&& trace.len() == 0
                    &&& if can_map(s, base, pages) {
                        &&& r == base as u64 as i64
                        &&& after == fresh_mapped(reserved, base, pages, MappingBacking::Anonymous)
                        &&& zeroed(dm, dm_after, fresh_pages(s.used, pages))
                    } else {
                        &&& r == ENOMEM
                        &&& after == rolled_back(reserved, base, pages)
                        &&& zeroed(dm, dm_after, taken_pages(s.used, s.mappings, base, pages))
                    }
                } else {
                    match open_file(fds, fd) {
                        None => r == EBADF && untouched(reserved, after, dm, dm_after, trace),
                        Some(file) => {
                            &&& keeps_used_pages(dm, dm_after, s.used)
                            &&& file_mapped(reserved, after, dm, dm_after, trace, base, pages, file, offset, prot, flags, r)
                        },
                    }
                }
            },
        }
    }
}

/// Where ends and sizes are rounded up to whole pages, that stays within the address space.
pub open spec fn mmap_in_range(args: SyscallArgs, fds: Seq<Option<FileDescriptor>>) -> bool {
    let (addr, len) = (args.arg0, args.arg1);
    let fd = args.arg4 as i32;
    let fixed = (args.arg3 as i32) & MAP_FIXED != 0;
    let anonymous = (args.arg3 as i32) & MAP_ANONYMOUS != 0;
    let total = len + (if anonymous { 0 } else { (args.arg5 % PAGE_SIZE) as int });
    if len == 0 {
        true
    } else if fixed && (anonymous || fd >= 0) {
        ||| addr % BASE_PAGE_SIZE != 0
        ||| !anonymous && open_file(fds, fd) is None
        ||| addr + len > u64::MAX
        ||| round_up(addr + len, PAGE_SIZE as int) <= u64::MAX
    } else if fixed {
        ||| addr % PAGE_SIZE != 0
        ||| total > u64::MAX
        ||| addr + round_up(total, PAGE_SIZE as int) <= u64::MAX
    } else {
        total > u64::MAX || round_up(total, PAGE_SIZE as int) <= u64::MAX
    }
}

/// Maps `arg1` bytes: of a file or of zeros, at a fixed address or where there is room.
#[verifier::rlimit(60)]
pub fn sys_mmap<C: FuseClient, M: Memory, P: PageTable>(
    args: &SyscallArgs,
    fds: &FdTable,
    space: &mut UserSpace<P>,
    fs: &mut Fs<C>,
    dm: &mut M,
) -> (r: SyscallResult)
    requires
        old(space).sound(),
        old(space).reached(old(dm)),
        within(old(dm), DAX_WINDOW_BASE as int, DAX_WINDOW_SIZE as int),
        mmap_in_range(*args, fds@),
    ensures
        final(space).sound(),
        final(space).reached(final(dm)),
        extends(old(fs).log(), final(fs).log()),
        mmap_done(
            old(space)@,
            final(space)@,
            &old(space).pt,
            &final(space).pt,
            old(dm),
            final(dm),
            since(old(fs).log(), final(fs).log()),
            fds@,
            *args,
            r,
        ),
{
    let addr: u64 = args.arg0;
    let len: u64 = args.arg1;
    let flags: i32 = args.arg3 as i32;
    let fd: i32 = args.arg4 as i32;
    let offset: u64 = args.arg5;
    let fixed: bool = flags & MAP_FIXED != 0;
    let anonymous: bool = flags & MAP_ANONYMOUS != 0;
    proof {
        assert(extends(fs.log(), fs.log()));
    }
    if len == 0 {
        return EINVAL;
    }
    if fixed && !anonymous && fd >= 0 {
        if addr % BASE_PAGE_SIZE != 0 {
            return EINVAL;
        }
        return match find_open_file(fds, fd) {
            Some((fh, _, _)) => map_fixed_file(space, fs, dm, addr, len, fh, offset),
            None => EBADF,
        };
    }
    if fixed && anonymous {
        if addr % BASE_PAGE_SIZE != 0 {
            return EINVAL;
        }
        return map_fixed_anon(space, dm, addr, len);
    }
    if !fixed && anonymous && space.arenas.can_allocate_small(len) {
        return map_small(space, dm, len);
    }
    if fixed && addr % PAGE_SIZE != 0 {
        return EINVAL;
    }
    let sub_page: u64 = if anonymous { 0 } else { offset % PAGE_SIZE };
    let total_len: u64 = match len.checked_add(sub_page) {
        Some(v) => v,
        None => {
            return EINVAL;
        },
    };
    proof {
        law_round_up(total_len as int, PAGE_SIZE as int);
    }
    let aligned_len: u64 = align_up(total_len, PAGE_SIZE);
    let pages: u64 = aligned_len / PAGE_SIZE;
    if fixed {
        drop_overlapping(space, fs, dm, VirtualAddr::new(addr), VirtualAddr::new(addr + aligned_len));
        return EBADF;
    }
    let high: VirtualAddr = match space.arenas.lowest_arena_base() {
        Some(base) => base,
        None => VirtualAddr::new(USER_MMAP_BASE),
    };
    proof {
        space.arenas.lemma_placed();
        lemma_limit(space@.arenas);
        lemma_page_sizes();
        law_found_range_is_free(
            space@.vmas,
            high.0 as int,
            aligned_len as int,
            PAGE_SIZE as int,
        );
    }
    let base: u64 = match space.vmas.find_free_downward_aligned(high, aligned_len, PAGE_SIZE) {
        Some(base) => base.as_u64(),
        None => {
            return ENOMEM;
        },
    };
    space.mmap_next = base;
    proof {
        assert(pages * PAGE_SIZE == aligned_len);
    }
    if anonymous {
        return match map_fresh(space, dm, base, pages, MappingBacking::Anonymous) {
            Ok(()) => base as i64,
            Err(e) => e,
        };
    }
    match find_open_file(fds, fd) {
        None => EBADF,
        Some(file) => map_file(space, fs, dm, base, pages, file, offset, args.arg2 as i32, flags),
    }
}

/// Where mappings go lies in the user's space.
pub proof fn lemma_limit(arenas: Seq<Arena>)
    requires
        arenas_placed(arenas),
    ensures
        0 <= arena_limit(arenas) <= USER_MMAP_BASE,
{
    if arenas.len() > 0 {
        assert(arena_placed(arenas[0]));
        lemma_lowest_base(arenas, arenas.len() as int, arenas[0].vaddr);
        let low = lowest_base(arenas, arenas.len() as int, arenas[0].vaddr);
        if low != arenas[0].vaddr {
            let i = choose|i: int| 0 <= i < arenas.len() && low == (#[trigger] arenas[i]).vaddr;
            assert(arena_placed(arenas[i]));
        }
    }
}

/// Maps a file at `base`.
fn map_file<C: FuseClient, M: Memory, P: PageTable>(
    space: &mut UserSpace<P>,
    fs: &mut Fs<C>,
    dm: &mut M,
    base: u64,
    pages: u64,
    file: (u64, u64, u64),
    offset: u64,
    prot: i32,
    flags: i32,
) -> (r: SyscallResult)
    requires
        old(space).sound(),
        old(space).reached(old(dm)),
        within(old(dm), DAX_WINDOW_BASE as int, DAX_WINDOW_SIZE as int),
        base % PAGE_SIZE == 0,
        pages > 0,
        base + (pages + 1) * PAGE_SIZE <= DIRECT_MAP_OFFSET,
    ensures
        final(space).sound(),
        final(space).reached(final(dm)),
        keeps_used_pages(old(dm), final(dm), old(space)@.used),
        extends(old(fs).log(), final(fs).log()),
        file_mapped(
            old(space)@,
            final(space)@,
            old(dm),
            final(dm),
            since(old(fs).log(), final(fs).log()),
            base as int,
            pages as int,
            file,
            offset,
            prot,
            flags,
            r,
        ),
{
    let (fh, nodeid, file_size) = file;
    let sub_page: u64 = offset % PAGE_SIZE;
    let file_offset: u64 = offset - sub_page;
    let aligned_len: u64 = pages * PAGE_SIZE;
    let rest: u64 = if file_size >= file_offset { file_size - file_offset } else { 0 };
    let content: u64 = if rest <= aligned_len { rest } else { aligned_len };
    let ghost s = space@;
    let ghost log = fs.log();
    proof {
        assert(extends(fs.log(), fs.log()));
    }
    if flags & MAP_PRIVATE != 0 && prot & PROT_WRITE != 0 {
        return private_copy_path(space, fs, dm, base, pages, fh, nodeid, file_offset, content, sub_page);
    }
    let dax_flags: u64 = if flags & MAP_SHARED != 0 {
        FUSE_SETUPMAPPING_FLAG_READ | FUSE_SETUPMAPPING_FLAG_WRITE
    } else {
        FUSE_SETUPMAPPING_FLAG_READ
    };
    if content == aligned_len {
        if let Ok(r) = dax_path(space, fs, dm, base, pages, fh, nodeid, file_offset, content, dax_flags, sub_page) {
            return r;
        }
    }
    let ghost tried = fs.log();
    let r: SyscallResult = private_copy_path(space, fs, dm, base, pages, fh, nodeid, file_offset, content, sub_page);
    proof {
        lemma_extends_trans(log, tried, fs.log());
        let trace = since(log, fs.log());
        let k = since(log, tried).len() as int;
        assert(trace.take(k) =~= since(log, tried));
        assert(trace.skip(k) =~= since(tried, fs.log()));
    }
    r
}

proof fn lemma_last_start(s: Seq<Vma>, v: Vma, from: int)
    requires
        0 <= from <= s.len(),
        forall|k: int| 0 <= k < s.len() ==> (#[trigger] s[k]).start.0 != v.start.0,
    ensures
        index_of_start(s.push(v), v.start.0, from) == Some(s.len() as int),
    decreases s.len() - from,
{
    if from < s.len() {
        assert(s.push(v)[from] == s[from]);
        lemma_last_start(s, v, from + 1);
    }
}

/// Unmapping what was just mapped leaves the space as it was, but for the peak and the counter that makes processors reload.
pub proof fn law_munmap_undoes_mmap(s: Space, base: int, pages: int)
    requires
        s.used.len() == PAGE_COUNT,
        0 < pages,
        0 <= base,
        base % (PAGE_SIZE as int) == 0,
        base + (pages + 1) * PAGE_SIZE <= u64::MAX,
        run_available(s, base, pages),
        forall|k: int| 0 <= k < s.vmas.len() ==> vma_sound(#[trigger] s.vmas[k]),
        free_slot(s.vmas, base, pages * PAGE_SIZE, PAGE_SIZE as int),
    ensures
        ({
            let v = page_vma(base, pages, MappingBacking::Anonymous);
            let t = fresh_mapped(s, base, pages, MappingBacking::Anonymous);
            munmap(t, base as u64, (pages * PAGE_SIZE) as u64) == (
                0 as SyscallResult,
                flushed(Space { peak: t.peak, ..s }),
                Some(v),
            )
        }),
{
    let v = page_vma(base, pages, MappingBacking::Anonymous);
    let fresh = fresh_pages(s.used, pages);
    let t = fresh_mapped(s, base, pages, MappingBacking::Anonymous);
    let size = pages * PAGE_SIZE;
    let end = base + size;
    assert(size >= PAGE_SIZE && size % (PAGE_SIZE as int) == 0) by {
        vstd::arithmetic::div_mod::lemma_mod_multiples_basic(pages, PAGE_SIZE as int);
        assert(pages * PAGE_SIZE >= PAGE_SIZE) by (nonlinear_arith)
            requires
                pages >= 1,
        ;
    }
    assert(end % (PAGE_SIZE as int) == 0);
    assert(base % (BASE_PAGE_SIZE as int) == 0);
    assert(end % (BASE_PAGE_SIZE as int) == 0);
    assert(round_down(base, PAGE_SIZE as int) == base);
    assert(round_down(base, BASE_PAGE_SIZE as int) == base);
    assert(round_up(end, PAGE_SIZE as int) == end);
    assert(round_up(end, BASE_PAGE_SIZE as int) == end);
    assert forall|k: int| 0 <= k < s.vmas.len() implies !(#[trigger] s.vmas[k]).holds(base) && s.vmas[k].start.0 != base by {
        assert(vma_sound(s.vmas[k]));
        assert(!s.vmas[k].overlaps(base, base + size));
    }
    law_inserted_is_found(s.vmas, v, base, 0);
    lemma_last_start(s.vmas, v, 0);
    assert(t.vmas == s.vmas.push(v));
    assert(swap_removed(t.vmas, s.vmas.len() as int) =~= s.vmas);
    assert(run_len(v) == pages) by {
        vstd::arithmetic::div_mod::lemma_div_multiples_vanish(pages, PAGE_SIZE as int);
    }
    law_fresh_pages(s.used, pages);
    law_unmap_undoes_map(s.mappings, base, fresh);
    law_give_back_undoes_map(s.used, s.mappings, base, fresh, pages);
    assert(fresh.skip(pages) =~= Seq::<int>::empty());
    assert(with_used(s.used, Seq::empty()) =~= s.used);
    let dropped = torn_down(Space { vmas: swap_removed(t.vmas, s.vmas.len() as int), ..t }, v);
    assert(dropped =~= Space { peak: t.peak, ..s });
}

} // verus!
