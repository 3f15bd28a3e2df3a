//! What a mapping shows to its user.

use vstd::prelude::*;

use super::files::{file_of, is_file, size_of};
use super::transfers::{all_honest, asks, in_step, law_transfer, leads, next, nowhere};
use crate::bits::{law_round_down, law_round_up, lemma_page_sizes, round_down, round_up};
use crate::fs::client::{since, Fs, FsEvent, FuseClient};
use crate::fs::fd_table::FdTable;
use crate::layout::{DAX_SLOT_COUNT, DAX_WINDOW_BASE, DAX_WINDOW_SIZE, DIRECT_MAP_OFFSET, PAGE_SIZE, USER_MMAP_BASE};
use crate::memory::access::Memory;
use crate::memory::allocators::mmap_alloc::arena_limit;
use crate::memory::page_table::{PageEntry, PageTable};
use crate::memory::pages::{entry, fresh_pages, in_run, law_fresh_pages, with_run};
use crate::memory::space::{Space, UserSpace};
use crate::memory::vma::{law_found_range_is_free, search_down, MappingBacking, Vma};
use crate::syscall::args::{SyscallArgs, SyscallResult};
use crate::syscall::handlers::mmap::{
    can_map, dax_run, dax_tried, file_mapped, lemma_ensured_present, lemma_limit, private_mapped, sys_mmap,
};
use crate::syscall::handlers::transfer::{transferred, Direction};

verus! {

/// Every address in the range leads somewhere.
pub open spec fn all_mapped(m: Map<u64, PageEntry>, from: int, len: int) -> bool {
    forall|a: int| from <= a < from + len ==> !#[trigger] nowhere(m, a)
}

/// No address in the range leads anywhere.
pub open spec fn all_free(m: Map<u64, PageEntry>, from: int, len: int) -> bool {
    forall|a: int| from <= a < from + len ==> #[trigger] nowhere(m, a)
}

/// What was mapped still is, as it was.
pub open spec fn kept(a: Map<u64, PageEntry>, b: Map<u64, PageEntry>) -> bool {
    forall|v: u64| #![trigger b[v]] #![trigger b.contains_key(v)] a.contains_key(v) ==> b.contains_key(v) && b[v] == a[v]
}

/// A mapping was added for the range, which no other mapping had.
pub open spec fn added(a: Seq<Vma>, b: Seq<Vma>, from: int, len: int) -> bool {
    &&& b.len() == a.len() + 1
    &&& forall|i: int| 0 <= i < a.len() ==> #[trigger] b[i] == a[i]
    &&& b.last().start.0 <= from && from + len <= b.last().end.0
    &&& forall|i: int| 0 <= i < a.len() ==> (#[trigger] a[i]).end.0 <= from || from + len <= a[i].start.0
}

pub proof fn lemma_page(v: int, start: int, n: int)
    requires
        start % PAGE_SIZE as int == 0,
        0 <= start <= v < start + n * PAGE_SIZE,
        v <= u64::MAX,
    ensures
        in_run((v - v % (PAGE_SIZE as int)) as u64, start, n),
        0 <= v - v % (PAGE_SIZE as int) <= v,
        0 <= (v - v % (PAGE_SIZE as int) - start) / PAGE_SIZE as int,
        (v - v % (PAGE_SIZE as int) - start) / (PAGE_SIZE as int) < n,
{
}

pub proof fn lemma_fresh_run(m: Map<u64, PageEntry>, start: int, pages: Seq<int>)
    requires
        start % PAGE_SIZE as int == 0,
        0 <= start,
        start + pages.len() * PAGE_SIZE <= DIRECT_MAP_OFFSET,
        forall|v: u64| in_run(v, start, pages.len() as int) ==> !#[trigger] m.contains_key(v),
    ensures
        all_mapped(with_run(m, start, pages), start, pages.len() * PAGE_SIZE),
        all_free(m, start, pages.len() * PAGE_SIZE),
        kept(m, with_run(m, start, pages)),
{
    reveal(nowhere);
    let w = with_run(m, start, pages);
    assert forall|a: int| start <= a < start + pages.len() * PAGE_SIZE implies !#[trigger] nowhere(w, a) by {
        lemma_page(a, start, pages.len() as int);
    }
    assert forall|a: int| start <= a < start + pages.len() * PAGE_SIZE implies #[trigger] nowhere(m, a) by {
        lemma_page(a, start, pages.len() as int);
    }
}

proof fn lemma_dax_leads(m: Map<u64, PageEntry>, start: int, d: int, n: int)
    requires
        start % PAGE_SIZE as int == 0,
        0 <= start,
        0 <= n,
        start + n * PAGE_SIZE <= DIRECT_MAP_OFFSET,
        0 <= d,
        DAX_WINDOW_BASE + d + n * PAGE_SIZE <= u64::MAX,
        forall|v: u64| in_run(v, start, n) ==> !#[trigger] m.contains_key(v),
    ensures
        forall|a: int| start <= a < start + n * PAGE_SIZE ==> #[trigger] leads(dax_run(m, start, d, n), a, DAX_WINDOW_BASE + d + (a - start)),
        all_mapped(dax_run(m, start, d, n), start, n * PAGE_SIZE),
        all_free(m, start, n * PAGE_SIZE),
        kept(m, dax_run(m, start, d, n)),
{
    reveal(nowhere);
    let w = dax_run(m, start, d, n);
    assert forall|a: int| start <= a < start + n * PAGE_SIZE implies #[trigger] leads(w, a, DAX_WINDOW_BASE + d + (a - start)) by {
        lemma_page(a, start, n);
    }
    assert forall|a: int| start <= a < start + n * PAGE_SIZE implies !#[trigger] nowhere(w, a) by {
        lemma_page(a, start, n);
    }
    assert forall|a: int| start <= a < start + n * PAGE_SIZE implies #[trigger] nowhere(m, a) by {
        lemma_page(a, start, n);
    }
}

/// The smallest of the three.
pub open spec fn least(a: int, b: int, c: int) -> int {
    if a <= b && a <= c {
        a
    } else if b <= c {
        b
    } else {
        c
    }
}

/// The requests bring the file to memory so that the byte of the file at `offset` comes to address `at`, and every other byte
/// as far from there as it is from `offset` in the file.
pub open spec fn shows(t: Seq<FsEvent>, mappings: Map<u64, PageEntry>, fh: u64, offset: int, at: int) -> bool {
    forall|i: int|
        0 <= i < t.len() ==> (#[trigger] t[i] matches FsEvent::Read { fh: h, offset: f, paddr, .. } ==> h == fh && leads(
            mappings,
            at + (f - offset),
            paddr as int,
        ))
}

/// How much of a file of `size` bytes there is from `from` on.
pub open spec fn left_of(size: int, from: int) -> int {
    if size >= from { size - from } else { 0 }
}

/// After `k` requests that read nothing, `count` bytes of the file from `f` on are read to address `v`, as far as it gets.
pub open spec fn read_after(
    t: Seq<FsEvent>,
    k: int,
    mappings: Map<u64, PageEntry>,
    fh: u64,
    f: int,
    v: int,
    count: int,
    res: Result<u32, i32>,
) -> bool {
    &&& 0 <= k <= t.len()
    &&& forall|i: int| 0 <= i < k ==> !(#[trigger] t[i] is Read)
    &&& in_step(Direction::Read, fh, mappings, f, v, count, t.skip(k), res)
}

/// The pages of the range hold a private copy of the file from the page of `offset` on: as much of it as there is, as fits into
/// the pages, and as one move takes.
pub open spec fn copies(
    t: Seq<FsEvent>,
    mappings: Map<u64, PageEntry>,
    fh: u64,
    size: int,
    offset: int,
    at: int,
    end: int,
) -> bool {
    let back = offset % (PAGE_SIZE as int);
    let count = least(left_of(size, offset - back), end - (at - back), u32::MAX as int);
    exists|k: int, res: Result<u32, i32>| #[trigger] read_after(t, k, mappings, fh, offset - back, at - back, count, res)
}

proof fn lemma_shows(t: Seq<FsEvent>, k: int, mappings: Map<u64, PageEntry>, fh: u64, f0: int, v0: int, count: int, res: Result<u32, i32>)
    requires
        0 <= k <= t.len(),
        forall|i: int| 0 <= i < k ==> !(#[trigger] t[i] is Read),
        in_step(Direction::Read, fh, mappings, f0, v0, count, t.skip(k), res),
    ensures
        forall|i: int|
            0 <= i < t.len() ==> (#[trigger] t[i] matches FsEvent::Read { fh: h, offset: f, paddr, .. } ==> h == fh && leads(
                mappings,
                v0 + (f - f0),
                paddr as int,
            )),
{
    let s = t.skip(k);
    assert forall|i: int| 0 <= i < t.len() && #[trigger] t[i] is Read implies (t[i] matches FsEvent::Read {
        fh: h,
        offset: f,
        paddr,
        ..
    } ==> h == fh && leads(mappings, v0 + (f - f0), paddr as int)) by {
        reveal(next);
        reveal(asks);
        assert(i >= k);
        assert(s[i - k] == t[i]);
        assert(next(Direction::Read, fh, mappings, f0, v0, count, s, i - k));
    }
}

/// What a mapping of a file is: its range was free and is mapped, what else was mapped still is, and the file shows in it as it
/// should, whether the host shares its pages or their contents were copied.
pub open spec fn file_shows(
    a: Space,
    b: Space,
    t: Seq<FsEvent>,
    file: (u64, u64),
    size: int,
    offset: int,
    at: int,
    len: int,
) -> bool {
    &&& added(a.vmas, b.vmas, at, len)
    &&& all_free(a.mappings, at, len)
    &&& all_mapped(b.mappings, at, len)
    &&& kept(a.mappings, b.mappings)
    &&& shows(t, b.mappings, file.0, offset, at)
    &&& match b.vmas.last().backing {
        MappingBacking::Dax { dax_offset, fuse_fh, fuse_nodeid, file_offset } => {
            &&& fuse_fh == file.0 && fuse_nodeid == file.1
            &&& file_offset <= offset
            &&& t.len() == 1
            &&& t[0] matches FsEvent::SetupMapping { fh, offset: f, len: l, dax_offset: d, reply, .. }
            &&& fh == file.0 && f == file_offset && d == dax_offset && reply is Ok
            &&& offset + len <= f + l
            &&& f + l <= size
            &&& forall|i: int| 0 <= i < len ==> #[trigger] leads(b.mappings, at + i, DAX_WINDOW_BASE + d + (offset + i - f))
        },
        MappingBacking::PrivateFile { fuse_fh, fuse_nodeid } => {
            &&& fuse_fh == file.0 && fuse_nodeid == file.1
            &&& copies(t, b.mappings, file.0, size, offset, at, b.vmas.last().end.0 as int)
        },
        _ => false,
    }
}

proof fn lemma_private<M: Memory>(
    s: Space,
    after: Space,
    dm: &M,
    dm_after: &M,
    t: Seq<FsEvent>,
    k: int,
    base: int,
    pages: int,
    file: (u64, u64, u64),
    offset: u64,
    len: int,
    r: SyscallResult,
)
    requires
        ({
            let sub = (offset % PAGE_SIZE) as int;
            let f0 = (offset - sub) as u64;
            let rest = if file.2 >= f0 { file.2 - f0 } else { 0 };
            let content = if rest <= pages * PAGE_SIZE { rest } else { pages * PAGE_SIZE };
            &&& private_mapped(s, after, dm, dm_after, t.skip(k), base, pages, file.0, file.1, f0, content, sub, r)
            &&& 0 < len
            &&& sub + len <= pages * PAGE_SIZE
        }),
        0 <= k <= t.len(),
        forall|i: int| 0 <= i < k ==> !(#[trigger] t[i] is Read),
        all_honest(t),
        r >= 0,
        pages > 0,
        base % PAGE_SIZE as int == 0,
        0 <= base,
        base + pages * PAGE_SIZE <= USER_MMAP_BASE,
        s.used.len() == crate::memory::allocators::palloc::PAGE_COUNT,
        forall|i: int| 0 <= i < s.vmas.len() ==> !(#[trigger] s.vmas[i]).overlaps(base, base + pages * PAGE_SIZE),
    ensures
        r == base + offset % PAGE_SIZE,
        file_shows(s, after, t, (file.0, file.1), file.2 as int, offset as int, r as int, len),
{
    let sub = (offset % PAGE_SIZE) as int;
    let f0 = (offset - sub) as u64;
    let rest = if file.2 >= f0 { file.2 - f0 } else { 0 };
    let content = if rest <= pages * PAGE_SIZE { rest } else { pages * PAGE_SIZE };
    let count = least(rest, pages * PAGE_SIZE, u32::MAX as int) as u32;
    assert(can_map(s, base, pages));
    law_fresh_pages(s.used, pages);
    let fresh = fresh_pages(s.used, pages);
    lemma_fresh_run(s.mappings, base, fresh);
    let ts = t.skip(k);
    assert(all_honest(ts)) by {
        assert forall|i: int| 0 <= i < ts.len() implies super::transfers::honest(#[trigger] ts[i]) by {
            assert(ts[i] == t[i + k]);
        }
    }
    let res = choose|res: Result<u32, i32>|
        #[trigger] transferred(Direction::Read, file.0, after.mappings, f0, base as u64, count, 0, ts, res);
    law_transfer(Direction::Read, file.0, after.mappings, f0, base as u64, count, ts, res);
    lemma_shows(t, k, after.mappings, file.0, f0 as int, base, count as int, res);
    assert(r == base + sub);
    let end = after.vmas.last().end.0;
    assert(end == base + pages * PAGE_SIZE);
    assert(read_after(
        t,
        k,
        after.mappings,
        file.0,
        offset - sub,
        r - sub,
        least(left_of(file.2 as int, offset - sub), end - (r - sub), u32::MAX as int),
        res,
    ));
    assert(copies(t, after.mappings, file.0, file.2 as int, offset as int, r as int, end as int));
}

proof fn lemma_file<M: Memory>(
    s: Space,
    after: Space,
    dm: &M,
    dm_after: &M,
    t: Seq<FsEvent>,
    base: int,
    pages: int,
    file: (u64, u64, u64),
    offset: u64,
    len: int,
    prot: i32,
    flags: i32,
    r: SyscallResult,
)
    requires
        file_mapped(s, after, dm, dm_after, t, base, pages, file, offset, prot, flags, r),
        0 < len,
        offset % PAGE_SIZE + len <= pages * PAGE_SIZE,
        all_honest(t),
        r >= 0,
        pages > 0,
        base % PAGE_SIZE as int == 0,
        0 <= base,
        base + pages * PAGE_SIZE <= USER_MMAP_BASE,
        s.used.len() == crate::memory::allocators::palloc::PAGE_COUNT,
        s.dax.len() == DAX_SLOT_COUNT,
        forall|i: int| 0 <= i < s.vmas.len() ==> !(#[trigger] s.vmas[i]).overlaps(base, base + pages * PAGE_SIZE),
    ensures
        r == base + offset % PAGE_SIZE,
        file_shows(s, after, t, (file.0, file.1), file.2 as int, offset as int, r as int, len),
{
    let sub = (offset % PAGE_SIZE) as int;
    let f0 = (offset - sub) as u64;
    let rest = if file.2 >= f0 { file.2 - f0 } else { 0 };
    let content = if rest <= pages * PAGE_SIZE { rest } else { pages * PAGE_SIZE };
    let dax_flags = if flags & crate::syscall::handlers::mmap::MAP_SHARED != 0 {
        crate::syscall::handlers::mmap::FUSE_SETUPMAPPING_FLAG_READ | crate::syscall::handlers::mmap::FUSE_SETUPMAPPING_FLAG_WRITE
    } else {
        crate::syscall::handlers::mmap::FUSE_SETUPMAPPING_FLAG_READ
    };
    assert(t.skip(0) =~= t);
    if private_mapped(s, after, dm, dm_after, t, base, pages, file.0, file.1, f0, content, sub, r) {
        lemma_private(s, after, dm, dm_after, t, 0, base, pages, file, offset, len, r);
    } else if dax_tried(s, after, t, base, pages, file.0, file.1, f0, content as u64, dax_flags, sub, Ok(r)) {
        let slot = crate::memory::allocators::palloc::lowest_run(s.dax, pages)->0;
        crate::memory::allocators::palloc::lemma_lowest_run_is_free(s.dax, pages);
        assert(0 <= slot && slot + pages <= s.dax.len());
        assert(slot * PAGE_SIZE + pages * PAGE_SIZE <= DAX_WINDOW_SIZE);
        lemma_dax_leads(s.mappings, base, slot * PAGE_SIZE, pages);
        assert forall|i: int| 0 <= i < len implies #[trigger] leads(
            after.mappings,
            r + i,
            DAX_WINDOW_BASE + slot * PAGE_SIZE + (offset + i - f0),
        ) by {
            let a = r + i;
            assert(leads(after.mappings, a, DAX_WINDOW_BASE + slot * PAGE_SIZE + (a - base)));
        }
    } else {
        let k = choose|k: int|
            {
                &&& 0 <= k <= t.len()
                &&& dax_tried(s, s, #[trigger] t.take(k), base, pages, file.0, file.1, f0, content as u64, dax_flags, sub, Err(()))
                &&& private_mapped(s, after, dm, dm_after, t.skip(k), base, pages, file.0, file.1, f0, content, sub, r)
            };
        let h = t.take(k);
        assert forall|i: int| 0 <= i < k implies !(#[trigger] t[i] is Read) by {
            assert(h[i] == t[i]);
        }
        lemma_private(s, after, dm, dm_after, t, k, base, pages, file, offset, len, r);
    }
}

/// A mapping of a file that is not at a fixed address shows the file from `offset` on: the byte at the address that is given
/// back is the byte of the file at `offset`, and so on, for the length that was asked for.
pub proof fn law_mapping_shows_the_file<C: FuseClient, M: Memory, P: PageTable>(
    args: &SyscallArgs,
    fds: &FdTable,
    space: &mut UserSpace<P>,
    fs: &mut Fs<C>,
    dm: &mut M,
    r: SyscallResult,
)
    requires
        call_ensures(sys_mmap::<C, M, P>, (args, fds, space, fs, dm), r),
        old(space).sound(),
        args.arg3 as i32 & 0x10 == 0,
        args.arg3 as i32 & 0x20 == 0,
        0 <= args.arg4 as i32,
        is_file(fds@, (args.arg4 as i32) as u64),
        all_honest(since(old(fs).log(), final(fs).log())),
        r >= 0,
    ensures
        args.arg1 > 0,
        (r as int) % (PAGE_SIZE as int) == args.arg5 % PAGE_SIZE,
        file_shows(
            old(space)@,
            final(space)@,
            since(old(fs).log(), final(fs).log()),
            file_of(fds@, (args.arg4 as i32) as u64),
            size_of(fds@, (args.arg4 as i32) as u64),
            args.arg5 as int,
            r as int,
            args.arg1 as int,
        ),
{
    let s = old(space)@;
    let t = since(old(fs).log(), final(fs).log());
    let len = args.arg1 as int;
    let offset = args.arg5;
    let sub = (offset % PAGE_SIZE) as int;
    let size = round_up(len + sub, PAGE_SIZE as int);
    let pages = size / PAGE_SIZE as int;
    old(space).arenas.lemma_placed();
    old(space).palloc.lemma_page_count();
    old(space).dax.lemma_slot_count();
    lemma_page_sizes();
    law_round_up(len + sub, PAGE_SIZE as int);
    lemma_limit(s.arenas);
    law_found_range_is_free(s.vmas, arena_limit(s.arenas), size, PAGE_SIZE as int);
    let base = search_down(s.vmas, arena_limit(s.arenas), size, PAGE_SIZE as int)->0;
    let reserved = Space { mmap_next: base as u64, ..s };
    let fd = (args.arg4 as i32) as u64;
    let file = (file_of(fds@, fd).0, file_of(fds@, fd).1, size_of(fds@, fd) as u64);
    lemma_file(
        reserved,
        final(space)@,
        old(dm),
        final(dm),
        t,
        base,
        pages,
        file,
        offset,
        len,
        args.arg2 as i32,
        args.arg3 as i32,
        r,
    );
}

/// Every byte that an address of the range leads to is zero.
pub open spec fn all_zero<M: Memory>(dm: &M, m: Map<u64, PageEntry>, from: int, len: int) -> bool {
    forall|a: int, p: int|
        from <= a < from + len && dm.base() <= p < dm.base() + dm.bytes().len() && #[trigger] leads(m, a, p) ==> dm.bytes()[p - dm.base()] == 0
}

/// No page that the range leads to was in use.
pub open spec fn all_fresh(used: Seq<bool>, m: Map<u64, PageEntry>, from: int, len: int) -> bool {
    forall|a: int, p: int| from <= a < from + len && #[trigger] leads(m, a, p) ==> !used[p / PAGE_SIZE as int]
}

/// A mapping of memory that is not at a fixed address is of zeros, in pages that nobody else used; its range was free, and all
/// else that was mapped still is. If there is none to be had, nothing is mapped.
pub proof fn law_mapping_of_zeros<C: FuseClient, M: Memory, P: PageTable>(
    args: &SyscallArgs,
    fds: &FdTable,
    space: &mut UserSpace<P>,
    fs: &mut Fs<C>,
    dm: &mut M,
    r: SyscallResult,
)
    requires
        call_ensures(sys_mmap::<C, M, P>, (args, fds, space, fs, dm), r),
        old(space).sound(),
        args.arg3 as i32 & 0x10 == 0,
        args.arg3 as i32 & 0x20 != 0,
        args.arg1 >= PAGE_SIZE,
    ensures
        ({
            let a = old(space)@;
            let b = final(space)@;
            let len = args.arg1 as int;
            &&& since(old(fs).log(), final(fs).log()).len() == 0
            &&& r >= 0 ==> {
                &&& added(a.vmas, b.vmas, r as int, len)
                &&& b.vmas.last().backing == MappingBacking::Anonymous
                &&& all_free(a.mappings, r as int, len)
                &&& all_mapped(b.mappings, r as int, len)
                &&& kept(a.mappings, b.mappings)
                &&& all_zero(final(dm), b.mappings, r as int, len)
                &&& all_fresh(a.used, b.mappings, r as int, len)
            }
            &&& r < 0 ==> r == -12 && b.mappings == a.mappings && b.vmas == a.vmas && b.used == a.used
        }),
{
    let s = old(space)@;
    let b = final(space)@;
    let len = args.arg1 as int;
    let size = round_up(len, PAGE_SIZE as int);
    let pages = size / PAGE_SIZE as int;
    old(space).arenas.lemma_placed();
    old(space).palloc.lemma_page_count();
    lemma_page_sizes();
    law_round_up(len, PAGE_SIZE as int);
    lemma_limit(s.arenas);
    law_found_range_is_free(s.vmas, arena_limit(s.arenas), size, PAGE_SIZE as int);
    if let Some(base) = search_down(s.vmas, arena_limit(s.arenas), size, PAGE_SIZE as int) {
        if can_map(s, base, pages) {
            law_fresh_pages(s.used, pages);
            let fresh = fresh_pages(s.used, pages);
            lemma_fresh_run(s.mappings, base, fresh);
            assert(pages * PAGE_SIZE == size);
            assert forall|a: int, p: int| base <= a < base + len && #[trigger] leads(b.mappings, a, p) implies fresh.contains(
                p / PAGE_SIZE as int,
            ) by {
                lemma_page(a, base, pages);
                let v = (a - a % (PAGE_SIZE as int)) as u64;
                let k = (v - base) / PAGE_SIZE as int;
                assert(b.mappings[v] == entry(fresh[k]));
                assert(0 <= fresh[k] < s.used.len());
                assert(p == fresh[k] * PAGE_SIZE + a % (PAGE_SIZE as int));
                assert(p / PAGE_SIZE as int == fresh[k]);
            }
            assert forall|a: int, p: int| base <= a < base + len && #[trigger] leads(b.mappings, a, p) implies !s.used[p / PAGE_SIZE as int] by {
                let k = choose|k: int| 0 <= k < fresh.len() && fresh[k] == p / PAGE_SIZE as int;
            }
            assert forall|a: int, p: int|
                base <= a < base + len && final(dm).base() <= p < final(dm).base() + final(dm).bytes().len() && #[trigger] leads(
                    b.mappings,
                    a,
                    p,
                ) implies final(dm).bytes()[p - final(dm).base()] == 0 by {
                assert(crate::memory::access::byte(final(dm), p) == 0);
            }
        }
    }
}

/// A mapping of memory at a fixed address: every address of the range leads somewhere, to zero. Nothing is mapped if it fails.
pub proof fn law_fixed_mapping_of_zeros<C: FuseClient, M: Memory, P: PageTable>(
    args: &SyscallArgs,
    fds: &FdTable,
    space: &mut UserSpace<P>,
    fs: &mut Fs<C>,
    dm: &mut M,
    r: SyscallResult,
)
    requires
        call_ensures(sys_mmap::<C, M, P>, (args, fds, space, fs, dm), r),
        args.arg3 as i32 & 0x10 != 0,
        args.arg3 as i32 & 0x20 != 0,
        args.arg1 > 0,
        args.arg0 + args.arg1 + PAGE_SIZE <= DIRECT_MAP_OFFSET,
    ensures
        ({
            let b = final(space)@;
            &&& args.arg0 % 0x1000 != 0 ==> r == -22 && b == old(space)@
            &&& r != -22 && r != -12 ==> r == args.arg0 as i64
            &&& r == args.arg0 as i64 && args.arg0 <= i64::MAX ==> all_mapped(b.mappings, args.arg0 as int, args.arg1 as int) && all_zero(
                final(dm),
                b.mappings,
                args.arg0 as int,
                args.arg1 as int,
            )
            &&& b.vmas == old(space)@.vmas
        }),
{
    let s = old(space)@;
    let b = final(space)@;
    let addr = args.arg0 as int;
    let len = args.arg1 as int;
    let start = round_down(addr, PAGE_SIZE as int);
    law_round_down(addr, PAGE_SIZE as int);
    law_round_up(addr + len, PAGE_SIZE as int);
    lemma_page_sizes();
    let n = (round_up(addr + len, PAGE_SIZE as int) - start) / PAGE_SIZE as int;
    assert(n * PAGE_SIZE == round_up(addr + len, PAGE_SIZE as int) - start);
    reveal(nowhere);
    if crate::memory::pages::ensured(s.mappings, s.used, start, n).2 {
        lemma_ensured_present(s.mappings, s.used, start, n);
        assert forall|a: int| addr <= a < addr + len implies !#[trigger] nowhere(crate::memory::pages::ensured(s.mappings, s.used, start, n).0, a) by {
            lemma_page(a, start, n);
        }
        assert forall|a: int, p: int|
            r == args.arg0 as i64 && r >= 0 && addr <= a < addr + len && final(dm).base() <= p < final(dm).base() + final(dm).bytes().len()
                && #[trigger] leads(b.mappings, a, p) implies final(dm).bytes()[p - final(dm).base()] == 0 by {
            lemma_page(a, start, n);
            assert(p == crate::memory::pages::phys(b.mappings, a));
            assert(crate::memory::access::byte(final(dm), p) == 0);
        }
    }
}

/// A mapping of a file at a fixed address brings the file from `offset` on to that address: every address of the range leads
/// somewhere, and the bytes of the file come there in order and without a gap.
pub proof fn law_fixed_mapping_shows_the_file<C: FuseClient, M: Memory, P: PageTable>(
    args: &SyscallArgs,
    fds: &FdTable,
    space: &mut UserSpace<P>,
    fs: &mut Fs<C>,
    dm: &mut M,
    r: SyscallResult,
)
    requires
        call_ensures(sys_mmap::<C, M, P>, (args, fds, space, fs, dm), r),
        args.arg3 as i32 & 0x10 != 0,
        args.arg3 as i32 & 0x20 == 0,
        0 <= args.arg4 as i32,
        is_file(fds@, (args.arg4 as i32) as u64),
        args.arg1 > 0,
        args.arg0 + args.arg1 + PAGE_SIZE <= DIRECT_MAP_OFFSET,
        args.arg5 + args.arg1 <= u64::MAX,
        all_honest(since(old(fs).log(), final(fs).log())),
        r >= 0,
    ensures
        ({
            let b = final(space)@;
            let t = since(old(fs).log(), final(fs).log());
            let fh = file_of(fds@, (args.arg4 as i32) as u64).0;
            &&& r == args.arg0 as i64
            &&& args.arg0 % 0x1000 == 0
            &&& all_mapped(b.mappings, args.arg0 as int, args.arg1 as int)
            &&& shows(t, b.mappings, fh, args.arg5 as int, args.arg0 as int)
            &&& exists|k: u32|
                #[trigger] in_step(
                    Direction::Read,
                    fh,
                    b.mappings,
                    args.arg5 as int,
                    args.arg0 as int,
                    least(args.arg1 as int, u32::MAX as int, u32::MAX as int),
                    t,
                    Ok(k),
                )
            &&& b.vmas == old(space)@.vmas
        }),
{
    let s = old(space)@;
    let b = final(space)@;
    let t = since(old(fs).log(), final(fs).log());
    let fh = file_of(fds@, (args.arg4 as i32) as u64).0;
    let addr = args.arg0 as int;
    let len = args.arg1 as int;
    let start = round_down(addr, PAGE_SIZE as int);
    law_round_down(addr, PAGE_SIZE as int);
    law_round_up(addr + len, PAGE_SIZE as int);
    lemma_page_sizes();
    let n = (round_up(addr + len, PAGE_SIZE as int) - start) / PAGE_SIZE as int;
    assert(n * PAGE_SIZE == round_up(addr + len, PAGE_SIZE as int) - start);
    reveal(nowhere);
    lemma_ensured_present(s.mappings, s.used, start, n);
    assert forall|a: int| addr <= a < addr + len implies !#[trigger] nowhere(b.mappings, a) by {
        lemma_page(a, start, n);
    }
    let count = least(len, u32::MAX as int, u32::MAX as int) as u32;
    let k = choose|k: u32| #[trigger] transferred(Direction::Read, fh, b.mappings, args.arg5, args.arg0, count, 0, t, Ok(k));
    law_transfer(Direction::Read, fh, b.mappings, args.arg5, args.arg0, count, t, Ok(k));
    assert(t.skip(0) =~= t);
    lemma_shows(t, 0, b.mappings, fh, args.arg5 as int, addr, count as int, Ok(k));
}

} // verus!
