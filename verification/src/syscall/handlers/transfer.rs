//! Moving file data to and from the user's memory, page by page.

use vstd::prelude::*;

use crate::address::{PhysicalAddr, VirtualAddr};
use crate::bits::round_down;
use crate::fs::client::{extends, since, Fs, FsEvent, FuseClient};
use crate::layout::{DIRECT_MAP_OFFSET, PAGE_SIZE};
use crate::memory::access::{in_chunk, mem, Mem, Memory};
use crate::memory::page_table::{page_of, PageEntry, PageTable};
use crate::syscall::errno::EFAULT;

verus! {

broadcast use crate::fs::client::group_log;

/// Which way the data goes.
#[derive(Clone, Copy, Debug, PartialEq, Eq, Structural)]
pub enum Direction {
    Read,
    Write,
}

/// Where a virtual address leads: through the direct map for the kernel's, through the page
/// table for the user's.
pub open spec fn translated(mappings: Map<u64, PageEntry>, vaddr: u64) -> Option<u64> {
    if vaddr >= DIRECT_MAP_OFFSET {
        Some((vaddr - DIRECT_MAP_OFFSET) as u64)
    } else if mappings.contains_key(page_of(vaddr)) && mappings[page_of(vaddr)].present {
        Some(wrapped(mappings[page_of(vaddr)].paddr, vaddr % PAGE_SIZE))
    } else {
        None
    }
}

/// The sum of two addresses, modulo the size of the address space.
pub open spec fn wrapped(a: u64, b: u64) -> u64 {
    if a + b <= u64::MAX { (a + b) as u64 } else { (a + b - 0x1_0000_0000_0000_0000) as u64 }
}

/// How many bytes there are from `vaddr` to the end of its page.
pub open spec fn page_rest(vaddr: u64) -> u32 {
    (PAGE_SIZE - vaddr % PAGE_SIZE) as u32
}

pub open spec fn min_u32(a: u32, b: u32) -> u32 {
    if a <= b { a } else { b }
}

/// The request that moves one chunk.
pub open spec fn chunk_event(
    dir: Direction,
    fh: u64,
    offset: u64,
    paddr: u64,
    count: u32,
    reply: Result<u32, i32>,
) -> FsEvent {
    match dir {
        Direction::Read => FsEvent::Read { fh, offset, paddr, count, reply },
        Direction::Write => FsEvent::Write { fh, offset, paddr, count, reply },
    }
}

/// The answer to the request that moved one chunk.
pub open spec fn chunk_reply(e: FsEvent) -> Result<u32, i32> {
    match e {
        FsEvent::Read { reply, .. } => reply,
        FsEvent::Write { reply, .. } => reply,
        _ => Ok(0),
    }
}

/// `trace` is what moving `remaining` bytes, with `total` moved before, asks of the host, and
/// `r` is what comes of it: each request moves one piece of one page; an error or an address
/// that leads nowhere ends the move, and counts only if nothing was moved; so does an answer
/// of zero bytes.
pub open spec fn transferred(
    dir: Direction,
    fh: u64,
    mappings: Map<u64, PageEntry>,
    offset: u64,
    vaddr: u64,
    remaining: u32,
    total: u32,
    trace: Seq<FsEvent>,
    r: Result<u32, i32>,
) -> bool
    decreases remaining,
{
    if remaining == 0 {
        trace.len() == 0 && r == Ok::<u32, i32>(total)
    } else {
        match translated(mappings, vaddr) {
            None => trace.len() == 0 && r == (if total > 0 { Ok(total) } else { Err(EFAULT as i32) }),
            Some(paddr) => {
                let chunk = min_u32(remaining, page_rest(vaddr));
                &&& trace.len() > 0
                &&& trace[0] == chunk_event(dir, fh, offset, paddr, chunk, chunk_reply(trace[0]))
                &&& match chunk_reply(trace[0]) {
                    Ok(n) => if n == 0 {
                        trace.len() == 1 && r == Ok::<u32, i32>(total)
                    } else {
                        let moved = min_u32(n, remaining);
                        transferred(
                            dir,
                            fh,
                            mappings,
                            wrapped(offset, moved as u64),
                            wrapped(vaddr, moved as u64),
                            (remaining - moved) as u32,
                            (total + moved) as u32,
                            trace.skip(1),
                            r,
                        )
                    },
                    Err(e) => trace.len() == 1 && r == (if total > 0 { Ok(total) } else { Err(e) }),
                }
            },
        }
    }
}

/// Which addresses a window of memory goes by.
#[derive(Clone, Copy, Debug, PartialEq, Eq, Structural)]
pub enum Through {
    User,
    Physical,
}

/// The physical address of the byte at `a` in a window.
pub open spec fn place(through: Through, mappings: Map<u64, PageEntry>, a: int) -> Option<u64> {
    if !(0 <= a <= u64::MAX) {
        None
    } else if through is User {
        translated(mappings, a as u64)
    } else {
        Some(a as u64)
    }
}

/// The byte at `a` is one of those that a read of the host in `t` fills.
pub open spec fn named(through: Through, mappings: Map<u64, PageEntry>, t: Seq<FsEvent>, a: int) -> bool {
    exists|i: int|
        0 <= i < t.len() && ((#[trigger] t[i]) matches FsEvent::Read { paddr, count, .. } && (place(through, mappings, a) matches Some(
            p,
        ) && in_chunk(p as int, paddr as int, count as int)))
}

/// The memory `after` comes of `m` by what the host did in `t`: it differs only in bytes that were read into.
pub open spec fn host_filled(through: Through, mappings: Map<u64, PageEntry>, m: Mem, after: Mem, t: Seq<FsEvent>) -> bool {
    &&& after.base == m.base
    &&& after.bytes.len() == m.bytes.len()
    &&& forall|k: int|
        0 <= k < m.bytes.len() && !named(through, mappings, t, m.base + k) ==> #[trigger] after.bytes[k] == m.bytes[k]
}

/// One more request changes no more than the bytes that it fills.
proof fn lemma_host_filled_on(
    through: Through,
    mappings: Map<u64, PageEntry>,
    m: Mem,
    mid: Mem,
    after: Mem,
    t: Seq<FsEvent>,
    e: FsEvent,
)
    requires
        host_filled(through, mappings, m, mid, t),
        host_filled(through, mappings, mid, after, seq![e]),
    ensures
        host_filled(through, mappings, m, after, t.push(e)),
{
    let u = t.push(e);
    assert forall|k: int| 0 <= k < m.bytes.len() && !named(through, mappings, u, m.base + k) implies #[trigger] after.bytes[k]
        == m.bytes[k] by {
        let a = m.base + k;
        assert(!named(through, mappings, t, a)) by {
            if named(through, mappings, t, a) {
                let i = choose|i: int|
                    0 <= i < t.len() && ((#[trigger] t[i]) matches FsEvent::Read { paddr, count, .. } && (place(
                        through,
                        mappings,
                        a,
                    ) matches Some(p) && in_chunk(p as int, paddr as int, count as int)));
                assert(u[i] == t[i]);
            }
        }
        assert(!named(through, mappings, seq![e], a)) by {
            if named(through, mappings, seq![e], a) {
                assert(u[t.len() as int] == e);
            }
        }
        assert(mid.bytes[k] == m.bytes[k]);
    }
}

/// A page ends within the address space.
proof fn lemma_page_end(vaddr: u64)
    ensures
        vaddr + page_rest(vaddr) <= 0x1_0000_0000_0000_0000,
{
    let size = PAGE_SIZE as int;
    vstd::arithmetic::div_mod::lemma_fundamental_div_mod(vaddr as int, size);
}

/// The bytes of one page from `vaddr` up lie in one piece.
proof fn lemma_piece(mappings: Map<u64, PageEntry>, vaddr: u64, a: u64)
    requires
        translated(mappings, vaddr) is Some,
        vaddr <= a < vaddr + page_rest(vaddr),
    ensures
        translated(mappings, a) == Some(wrapped(translated(mappings, vaddr)->0, (a - vaddr) as u64)),
{
    let size = PAGE_SIZE as int;
    let k = a - vaddr;
    assert(a as int % size == vaddr as int % size + k && round_down(a as int, size) == round_down(vaddr as int, size)) by {
        vstd::arithmetic::div_mod::lemma_fundamental_div_mod(vaddr as int, size);
        vstd::arithmetic::div_mod::lemma_fundamental_div_mod_converse(
            a as int,
            size,
            vaddr as int / size,
            vaddr as int % size + k,
        );
    }
}

/// Every read of a transfer fills a piece of one page of the buffer.
pub proof fn lemma_reads_inside(
    fh: u64,
    mappings: Map<u64, PageEntry>,
    offset: u64,
    vaddr: u64,
    remaining: u32,
    total: u32,
    t: Seq<FsEvent>,
    r: Result<u32, i32>,
    i: int,
)
    requires
        transferred(Direction::Read, fh, mappings, offset, vaddr, remaining, total, t, r),
        vaddr + remaining <= u64::MAX,
        0 <= i < t.len(),
    ensures
        t[i] matches FsEvent::Read { paddr, count, .. } && exists|v: u64|
            vaddr <= v && v + count <= vaddr + remaining && count <= page_rest(v) && #[trigger] translated(mappings, v) == Some(paddr),
    decreases remaining,
{
    if i == 0 {
        assert(translated(mappings, vaddr) is Some);
    } else {
        let n = chunk_reply(t[0])->Ok_0;
        let moved = min_u32(n, remaining);
        assert(t.skip(1)[i - 1] == t[i]);
        lemma_reads_inside(
            fh,
            mappings,
            wrapped(offset, moved as u64),
            (vaddr + moved) as u64,
            (remaining - moved) as u32,
            (total + moved) as u32,
            t.skip(1),
            r,
            i - 1,
        );
    }
}

/// Where `vaddr` leads.
pub fn translate_vaddr<P: PageTable>(pt: &P, vaddr: u64) -> (r: Option<PhysicalAddr>)
    ensures
        match translated(pt.mappings(), vaddr) {
            Some(p) => r == Some(PhysicalAddr(p)),
            None => r is None,
        },
{
    if vaddr >= DIRECT_MAP_OFFSET {
        Some(PhysicalAddr::new(vaddr - DIRECT_MAP_OFFSET))
    } else {
        match pt.get_if_present(VirtualAddr::new(vaddr)) {
            Some(page) => Some(PhysicalAddr::new(page.as_u64().wrapping_add(vaddr % PAGE_SIZE))),
            None => None,
        }
    }
}

/// How many bytes there are from `vaddr` to the end of its page.
pub fn bytes_to_page_end(vaddr: u64) -> (r: u32)
    ensures
        r == page_rest(vaddr),
        0 < r <= PAGE_SIZE,
{
    (PAGE_SIZE - vaddr % PAGE_SIZE) as u32
}

/// Moves data between an open file and the user's memory, split at page boundaries so that
/// each request names the right physical address. What was read shows in the window `w`.
pub fn fs_transfer_chunked<C: FuseClient, P: PageTable, M: Memory>(
    fs: &mut Fs<C>,
    pt: &P,
    w: &mut M,
    through: Through,
    dir: Direction,
    fh: u64,
    file_offset: u64,
    buf_vaddr: u64,
    count: u32,
) -> (r: Result<u32, i32>)
    ensures
        extends(old(fs).log(), final(fs).log()),
        transferred(
            dir,
            fh,
            pt.mappings(),
            file_offset,
            buf_vaddr,
            count,
            0,
            since(old(fs).log(), final(fs).log()),
            r,
        ),
        r matches Ok(n) ==> n <= count,
        host_filled(through, pt.mappings(), mem(old(w)), mem(final(w)), since(old(fs).log(), final(fs).log())),
        dir is Write ==> mem(final(w)) == mem(old(w)),
{
    let mut offset: u64 = file_offset;
    let mut vaddr: u64 = buf_vaddr;
    let mut remaining: u32 = count;
    let mut total: u32 = 0;
    assert(extends(old(fs).log(), fs.log()));
    assert forall|t: Seq<FsEvent>| Seq::<FsEvent>::empty() + t == t by {
        assert(Seq::<FsEvent>::empty() + t =~= t);
    }
    while remaining > 0
        invariant
            remaining + total == count,
            extends(old(fs).log(), fs.log()),
            host_filled(through, pt.mappings(), mem(old(w)), mem(w), since(old(fs).log(), fs.log())),
            dir is Write ==> mem(w) == mem(old(w)),
            forall|t: Seq<FsEvent>, r: Result<u32, i32>|
                #[trigger] transferred(dir, fh, pt.mappings(), offset, vaddr, remaining, total, t, r) ==> transferred(
                    dir,
                    fh,
                    pt.mappings(),
                    file_offset,
                    buf_vaddr,
                    count,
                    0,
                    since(old(fs).log(), fs.log()) + t,
                    r,
                ),
        decreases remaining,
    {
        let ghost done = since(old(fs).log(), fs.log());
        let paddr: PhysicalAddr = match translate_vaddr(pt, vaddr) {
            Some(p) => p,
            None => {
                let r: Result<u32, i32> = if total > 0 { Ok(total) } else { Err(EFAULT as i32) };
                proof {
                    assert(transferred(dir, fh, pt.mappings(), offset, vaddr, remaining, total, Seq::empty(), r));
                    assert(done + Seq::<FsEvent>::empty() =~= done);
                }
                return r;
            },
        };
        let rest: u32 = bytes_to_page_end(vaddr);
        let chunk: u32 = if remaining <= rest { remaining } else { rest };
        let ghost mid = mem(w);
        let reply: Result<u32, i32> = match dir {
            Direction::Read => {
                let reply = fs.read(fh, offset, paddr, chunk);
                w.acquire(
                    match through {
                        Through::User => vaddr,
                        Through::Physical => paddr.as_u64(),
                    },
                    chunk as u64,
                );
                reply
            },
            Direction::Write => fs.write(fh, offset, paddr, chunk),
        };
        let ghost event = chunk_event(dir, fh, offset, paddr.0, chunk, reply);
        proof {
            let maps = pt.mappings();
            assert(host_filled(through, maps, mid, mem(w), seq![event])) by {
                assert forall|k: int|
                    0 <= k < mid.bytes.len() && !named(through, maps, seq![event], mid.base + k) implies #[trigger] mem(w).bytes[k]
                    == mid.bytes[k] by {
                    let a = mid.base + k;
                    let at = if through is User { vaddr } else { paddr.0 };
                    if dir is Read && in_chunk(a, at as int, chunk as int) {
                        if through is User {
                            lemma_page_end(vaddr);
                            lemma_piece(maps, vaddr, a as u64);
                        }
                        assert(seq![event][0] == event);
                        assert(named(through, maps, seq![event], a));
                    }
                }
            }
            lemma_host_filled_on(through, maps, mem(old(w)), mid, mem(w), done, event);
            assert(done + seq![event] =~= done.push(event));
        }
        match reply {
            Ok(n) => {
                if n == 0 {
                    proof {
                        assert(transferred(dir, fh, pt.mappings(), offset, vaddr, remaining, total, seq![event], Ok(total)));
                    }
                    return Ok(total);
                }
                let moved: u32 = if n <= remaining { n } else { remaining };
                proof {
                    let next_offset = wrapped(offset, moved as u64);
                    let next_vaddr = wrapped(vaddr, moved as u64);
                    let left = (remaining - moved) as u32;
                    let sum = (total + moved) as u32;
                    assert forall|t: Seq<FsEvent>, r: Result<u32, i32>|
                        #[trigger] transferred(dir, fh, pt.mappings(), next_offset, next_vaddr, left, sum, t, r) implies transferred(
                        dir,
                        fh,
                        pt.mappings(),
                        file_offset,
                        buf_vaddr,
                        count,
                        0,
                        since(old(fs).log(), fs.log()) + t,
                        r,
                    ) by {
                        let more = seq![event] + t;
                        assert(more[0] == event);
                        assert(more.skip(1) =~= t);
                        assert(transferred(dir, fh, pt.mappings(), offset, vaddr, remaining, total, more, r));
                        assert(done + more =~= done.push(event) + t);
                    }
                }
                offset = offset.wrapping_add(moved as u64);
                vaddr = vaddr.wrapping_add(moved as u64);
                remaining -= moved;
                total += moved;
            },
            Err(e) => {
                let r: Result<u32, i32> = if total > 0 { Ok(total) } else { Err(e) };
                proof {
                    assert(transferred(dir, fh, pt.mappings(), offset, vaddr, remaining, total, seq![event], r));
                }
                return r;
            },
        }
    }
    proof {
        assert(transferred(dir, fh, pt.mappings(), offset, vaddr, remaining, total, Seq::empty(), Ok(total)));
        assert(since(old(fs).log(), fs.log()) + Seq::<FsEvent>::empty() =~= since(old(fs).log(), fs.log()));
    }
    Ok(total)
}

} // verus!
