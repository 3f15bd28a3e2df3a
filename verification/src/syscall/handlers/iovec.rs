//! Reading and writing with several buffers.

use vstd::prelude::*;

use super::io::{count_of, O_NONBLOCK};
use super::net::{moves, sock_read, sock_transfer};
use super::transfer::{fs_transfer_chunked, host_filled, transferred, wrapped, Direction, Through};
use super::vectored::{
    buffers_ok, gather_from, gathered, iov_base, iov_len, iov_readable, lemma_iov_kept, read_iovec, usable,
};
use crate::console::{continues, used, Console, TermEvent, Terminal};
use crate::fs::client::{extends, lemma_extends_trans, since, Fs, FsEvent, FuseClient};
use crate::fs::fd_table::{lookup, FdKind, FdTable, FileDescriptor};
use crate::memory::access::{mem, range, read_bytes, write_bytes, Mem, Memory};
use crate::memory::page_table::{PageEntry, PageTable};
use crate::net::device::PollDevice;
use crate::net::state::{advanced_at, joint_wf, Net, NetStateInner};
use crate::net::stream::{pipe_read, started, sys, StreamOp, Sys};
use crate::sched::scheduler::{active, Scheduler};
use crate::syscall::args::SyscallArgs;
use crate::syscall::blocking::{call_of, into_call, Again, Call, Gather};
use crate::syscall::errno::EBADF;
use crate::time::Clock;

verus! {

broadcast use {crate::fs::client::group_log, crate::console::group_console, crate::net::state::group_advanced};

/// The first buffer, from `from` on, that is not empty.
pub open spec fn first_buffer(m: Mem, iov: u64, count: u64, from: int) -> Option<(u64, u64)>
    decreases count - from,
{
    if from < 0 || from >= count {
        None
    } else if iov_len(m, iov, from) > 0 {
        Some((iov_base(m, iov, from), iov_len(m, iov, from)))
    } else {
        first_buffer(m, iov, count, from + 1)
    }
}

fn find_buffer<M: Memory>(um: &M, iov: u64, count: u64) -> (r: Option<(u64, u64)>)
    requires
        iov_readable(mem(um), iov, count),
    ensures
        r == first_buffer(mem(um), iov, count, 0),
        r matches Some(b) ==> b.1 > 0,
{
    let mut i: u64 = 0;
    while i < count
        invariant
            i <= count,
            iov_readable(mem(um), iov, count),
            first_buffer(mem(um), iov, count, 0) == first_buffer(mem(um), iov, count, i as int),
        decreases count - i,
    {
        let (base, len) = read_iovec(um, iov, i);
        if len > 0 {
            return Some((base, len));
        }
        i += 1;
    }
    None
}

/// The sum of two numbers of bytes, modulo the size of a word.
pub open spec fn total_of(a: u64, b: u64) -> u64 {
    wrapped(a, b)
}

/// What filling the buffers from `i` on from the console comes to: it ends with the first that is not filled.
pub open spec fn console_filled(m: Mem, iov: u64, count: u64, i: int, total: u64, e: Seq<TermEvent>, r: u64, after: Mem) -> bool
    decreases count - i,
{
    if i < 0 || i >= count {
        e.len() == 0 && r == total && after == m
    } else if iov_len(m, iov, i) == 0 {
        console_filled(m, iov, count, i + 1, total, e, r, after)
    } else {
        e.len() > 0 && (e[0] matches TermEvent::Read { max, got } && max == iov_len(m, iov, i) && {
            let next = m.stored(iov_base(m, iov, i) as int, got);
            let sum = total_of(total, got.len() as u64);
            if got.len() < max {
                e.len() == 1 && r == sum && after == next
            } else {
                console_filled(next, iov, count, i + 1, sum, e.skip(1), r, after)
            }
        })
    }
}

/// Whatever is typed, the buffers from `i` on that it comes to can be written. What is typed may fill the descriptions of later
/// buffers.
pub open spec fn console_fits(m: Mem, iov: u64, count: u64, i: int) -> bool
    decreases count - i,
{
    if i < 0 || i >= count {
        true
    } else {
        let addr = iov_base(m, iov, i);
        let len = iov_len(m, iov, i);
        if len == 0 {
            console_fits(m, iov, count, i + 1)
        } else {
            &&& m.reaches(addr, len as int)
            &&& forall|got: Seq<u8>|
                got.len() == len ==> console_fits(#[trigger] m.stored(addr as int, got), iov, count, i + 1)
        }
    }
}

/// Buffers that can all be written, and lie apart from their descriptions, can be filled from the console.
pub proof fn lemma_apart_fits(m: Mem, iov: u64, count: u64, i: int)
    requires
        iov_readable(m, iov, count),
        buffers_ok(m, (Gather::Recv { id: 0, nonblocking: false }), iov, count),
    ensures
        console_fits(m, iov, count, i),
    decreases count - i,
{
    if 0 <= i < count {
        let g = Gather::Recv { id: 0, nonblocking: false };
        let addr = iov_base(m, iov, i);
        let len = iov_len(m, iov, i);
        if len == 0 {
            lemma_apart_fits(m, iov, count, i + 1);
        } else {
            assert forall|got: Seq<u8>| got.len() == len implies console_fits(
                #[trigger] m.stored(addr as int, got),
                iov,
                count,
                i + 1,
            ) by {
                let n = m.stored(addr as int, got);
                lemma_iov_kept(m, n, g, iov, count, addr as int, len as int);
                lemma_apart_fits(n, iov, count, i + 1);
            }
        }
    }
}

/// What writing the buffers from `i` on to the console comes to.
pub open spec fn console_drained(m: Mem, iov: u64, count: u64, i: int, total: u64, e: Seq<TermEvent>, r: u64) -> bool
    decreases count - i,
{
    if i < 0 || i >= count {
        e.len() == 0 && r == total
    } else if iov_len(m, iov, i) == 0 {
        console_drained(m, iov, count, i + 1, total, e, r)
    } else {
        e.len() > 0 && (e[0] matches TermEvent::Write { data, taken } && data == m.range(
            iov_base(m, iov, i) as int,
            iov_len(m, iov, i) as int,
        ) && console_drained(m, iov, count, i + 1, total_of(total, taken as u64), e.skip(1), r))
    }
}

/// How the moves of several buffers of a file end: with a sum and an offset, or with an error.
pub enum Moved {
    Sum(i64, u64),
    Failed(i32),
}

/// What moving the buffers from `i` on asks of the host, how it ends, and what the memory is then. An error counts only if
/// nothing was moved. What is read may hold the descriptions of later buffers.
pub open spec fn buffers_moved(
    dir: Direction,
    fh: u64,
    mappings: Map<u64, PageEntry>,
    m: Mem,
    iov: u64,
    count: u64,
    i: int,
    total: i64,
    offset: u64,
    t: Seq<FsEvent>,
    end: Moved,
    after: Mem,
) -> bool
    decreases count - i,
{
    if i < 0 || i >= count {
        t.len() == 0 && end == Moved::Sum(total, offset) && after == m
    } else if iov_len(m, iov, i) == 0 {
        buffers_moved(dir, fh, mappings, m, iov, count, i + 1, total, offset, t, end, after)
    } else {
        exists|k: int, res: Result<u32, i32>, next: Mem|
            0 <= k <= t.len() && #[trigger] transferred(
                dir,
                fh,
                mappings,
                offset,
                iov_base(m, iov, i),
                count_of(iov_len(m, iov, i)),
                0,
                t.take(k),
                res,
            ) && #[trigger] host_filled(Through::User, mappings, m, next, t.take(k)) && (dir is Write ==> next == m) && match res {
                Ok(n) => if n == 0 {
                    k == t.len() && end == Moved::Sum(total, offset) && after == next
                } else {
                    buffers_moved(
                        dir,
                        fh,
                        mappings,
                        next,
                        iov,
                        count,
                        i + 1,
                        total.wrapping_add(n as i64),
                        wrapped(offset, n as u64),
                        t.skip(k),
                        end,
                        after,
                    )
                },
                Err(e) => k == t.len() && end == (if total > 0 { Moved::Sum(total, offset) } else { Moved::Failed(e) }) && after
                    == next,
            }
    }
}

/// Moves several buffers of a file, from an offset on.
#[verifier::spinoff_prover]
#[verifier::rlimit(60)]
fn move_buffers<C: FuseClient, P: PageTable, M: Memory>(
    fs: &mut Fs<C>,
    pt: &P,
    um: &mut M,
    dir: Direction,
    fh: u64,
    offset: u64,
    iov: u64,
    count: u64,
) -> (r: Moved)
    requires
        iov_readable(mem(old(um)), iov, count),
    ensures
        extends(old(fs).log(), final(fs).log()),
        buffers_moved(
            dir,
            fh,
            pt.mappings(),
            mem(old(um)),
            iov,
            count,
            0,
            0,
            offset,
            since(old(fs).log(), final(fs).log()),
            r,
            mem(final(um)),
        ),
        dir is Write ==> mem(final(um)) == mem(old(um)),
{
    let ghost maps = pt.mappings();
    let ghost m0 = mem(um);
    let ghost log0 = fs.log();
    let mut total: i64 = 0;
    let mut cur: u64 = offset;
    let mut i: u64 = 0;
    proof {
        assert(extends(log0, log0));
        assert forall|t: Seq<FsEvent>, end: Moved, after: Mem| #[trigger]
            buffers_moved(dir, fh, maps, m0, iov, count, 0, 0, offset, t, end, after) implies buffers_moved(
            dir,
            fh,
            maps,
            m0,
            iov,
            count,
            0,
            0,
            offset,
            since(log0, fs.log()) + t,
            end,
            after,
        ) by {
            assert(since(log0, log0) + t =~= t);
        }
    }
    while i < count
        invariant
            i <= count,
            m0 == mem(old(um)),
            maps == pt.mappings(),
            log0 == old(fs).log(),
            iov_readable(mem(um), iov, count),
            dir is Write ==> mem(um) == m0,
            extends(log0, fs.log()),
            forall|t: Seq<FsEvent>, end: Moved, after: Mem| #[trigger]
                buffers_moved(dir, fh, maps, mem(um), iov, count, i as int, total, cur, t, end, after) ==> buffers_moved(
                    dir,
                    fh,
                    maps,
                    m0,
                    iov,
                    count,
                    0,
                    0,
                    offset,
                    since(log0, fs.log()) + t,
                    end,
                    after,
                ),
        decreases count - i,
    {
        let ghost m = mem(um);
        let (base, raw_len) = read_iovec(um, iov, i);
        let len: u32 = if raw_len < u32::MAX as u64 { raw_len as u32 } else { u32::MAX };
        assert(len == count_of(iov_len(m, iov, i as int)));
        if len > 0 {
            let ghost log1 = fs.log();
            let ghost done = since(log0, log1);
            let res = fs_transfer_chunked(fs, pt, um, Through::User, dir, fh, cur, base, len);
            let ghost more = since(log1, fs.log());
            let ghost next_m = mem(um);
            proof {
                lemma_extends_trans(log0, log1, fs.log());
                assert(since(log0, fs.log()) == done + more);
                assert(more.take(more.len() as int) =~= more);
                assert(transferred(dir, fh, maps, cur, base, len, 0, more.take(more.len() as int), res));
                assert(host_filled(Through::User, maps, m, next_m, more.take(more.len() as int)));
            }
            match res {
                Ok(n) => {
                    if n == 0 {
                        assert(buffers_moved(dir, fh, maps, m, iov, count, i as int, total, cur, more, Moved::Sum(total, cur), next_m));
                        return Moved::Sum(total, cur);
                    }
                    let sum: i64 = total.wrapping_add(n as i64);
                    let next: u64 = cur.wrapping_add(n as u64);
                    proof {
                        assert forall|t: Seq<FsEvent>, end: Moved, after: Mem| #[trigger]
                            buffers_moved(dir, fh, maps, next_m, iov, count, i + 1, sum, next, t, end, after) implies buffers_moved(
                            dir,
                            fh,
                            maps,
                            m0,
                            iov,
                            count,
                            0,
                            0,
                            offset,
                            since(log0, fs.log()) + t,
                            end,
                            after,
                        ) by {
                            let both = more + t;
                            let k = more.len() as int;
                            assert(both.take(k) =~= more);
                            assert(both.skip(k) =~= t);
                            assert(transferred(dir, fh, maps, cur, base, len, 0, both.take(k), res));
                            assert(host_filled(Through::User, maps, m, next_m, both.take(k)));
                            assert(buffers_moved(dir, fh, maps, m, iov, count, i as int, total, cur, both, end, after));
                            assert(done + both =~= done + more + t);
                        }
                    }
                    total = sum;
                    cur = next;
                },
                Err(e) => {
                    let end = if total > 0 { Moved::Sum(total, cur) } else { Moved::Failed(e) };
                    assert(buffers_moved(dir, fh, maps, m, iov, count, i as int, total, cur, more, end, next_m));
                    return end;
                },
            }
        } else {
            assert forall|t: Seq<FsEvent>, end: Moved, after: Mem| #[trigger]
                buffers_moved(dir, fh, maps, m, iov, count, i + 1, total, cur, t, end, after) implies buffers_moved(
                dir,
                fh,
                maps,
                m0,
                iov,
                count,
                0,
                0,
                offset,
                since(log0, fs.log()) + t,
                end,
                after,
            ) by {
                assert(buffers_moved(dir, fh, maps, m, iov, count, i as int, total, cur, t, end, after));
            }
        }
        i += 1;
    }
    proof {
        let none = Seq::<FsEvent>::empty();
        assert(buffers_moved(dir, fh, maps, mem(um), iov, count, i as int, total, cur, none, Moved::Sum(total, cur), mem(um)));
        assert(since(log0, fs.log()) + none =~= since(log0, fs.log()));
    }
    Moved::Sum(total, cur)
}

/// Fills several buffers from the console.
fn fill_buffers<M: Memory, T: Terminal>(console: &mut Console<T>, um: &mut M, iov: u64, count: u64) -> (r: u64)
    requires
        iov_readable(mem(old(um)), iov, count),
        console_fits(mem(old(um)), iov, count, 0),
    ensures
        continues(old(console).log(), final(console).log()),
        console_filled(
            mem(old(um)),
            iov,
            count,
            0,
            0,
            used(old(console).log(), final(console).log()),
            r,
            mem(final(um)),
        ),
{
    let ghost m0 = mem(um);
    let ghost log0 = console.log();
    let mut total: u64 = 0;
    let mut i: u64 = 0;
    proof {
        assert(continues(log0, log0));
        assert forall|e: Seq<TermEvent>, r: u64, after: Mem| #[trigger]
            console_filled(m0, iov, count, 0, 0, e, r, after) implies console_filled(
            m0,
            iov,
            count,
            0,
            0,
            used(log0, console.log()) + e,
            r,
            after,
        ) by {
            assert(used(log0, log0) + e =~= e);
        }
    }
    while i < count
        invariant
            i <= count,
            m0 == mem(old(um)),
            log0 == old(console).log(),
            iov_readable(mem(um), iov, count),
            console_fits(mem(um), iov, count, i as int),
            continues(log0, console.log()),
            forall|e: Seq<TermEvent>, r: u64, after: Mem| #[trigger]
                console_filled(mem(um), iov, count, i as int, total, e, r, after) ==> console_filled(
                    m0,
                    iov,
                    count,
                    0,
                    0,
                    used(log0, console.log()) + e,
                    r,
                    after,
                ),
        decreases count - i,
    {
        let ghost m1 = mem(um);
        let (base, len) = read_iovec(um, iov, i);
        if len > 0 {
            let ghost done = used(log0, console.log());
            let got = console.read(len);
            let n: usize = got.len();
            write_bytes(um, base, got.as_slice());
            let sum: u64 = total.wrapping_add(n as u64);
            let ghost ev = TermEvent::Read { max: len, got: got@ };
            let ghost m2 = mem(um);
            proof {
                assert(m2 == m1.stored(base as int, got@));
                assert(used(log0, console.log()) == done.push(ev));
                assert(done + seq![ev] =~= done.push(ev));
            }
            if (n as u64) < len {
                assert(console_filled(m1, iov, count, i as int, total, seq![ev], sum, m2));
                return sum;
            }
            proof {
                assert forall|e: Seq<TermEvent>, r: u64, after: Mem| #[trigger]
                    console_filled(m2, iov, count, i + 1, sum, e, r, after) implies console_filled(
                    m0,
                    iov,
                    count,
                    0,
                    0,
                    used(log0, console.log()) + e,
                    r,
                    after,
                ) by {
                    let both = seq![ev] + e;
                    assert(both[0] == ev);
                    assert(both.skip(1) =~= e);
                    assert(console_filled(m1, iov, count, i as int, total, both, r, after));
                    assert(done + both =~= done.push(ev) + e);
                }
            }
            total = sum;
        } else {
            assert forall|e: Seq<TermEvent>, r: u64, after: Mem| #[trigger]
                console_filled(m1, iov, count, i + 1, total, e, r, after) implies console_filled(
                m0,
                iov,
                count,
                0,
                0,
                used(log0, console.log()) + e,
                r,
                after,
            ) by {
                assert(console_filled(m1, iov, count, i as int, total, e, r, after));
            }
        }
        i += 1;
    }
    proof {
        let none = Seq::<TermEvent>::empty();
        assert(console_filled(mem(um), iov, count, i as int, total, none, total, mem(um)));
        assert(used(log0, console.log()) + none =~= used(log0, console.log()));
    }
    total
}

/// Writes several buffers to the console.
fn drain_buffers<M: Memory, T: Terminal>(console: &mut Console<T>, um: &M, iov: u64, count: u64) -> (r: u64)
    requires
        iov_readable(mem(um), iov, count),
        buffers_ok(mem(um), (Gather::Send { id: 0, nonblocking: false }), iov, count),
    ensures
        continues(old(console).log(), final(console).log()),
        console_drained(mem(um), iov, count, 0, 0, used(old(console).log(), final(console).log()), r),
{
    let ghost m = mem(um);
    let ghost log0 = console.log();
    let mut total: u64 = 0;
    let mut i: u64 = 0;
    proof {
        assert(continues(log0, log0));
        assert forall|e: Seq<TermEvent>, r: u64| #[trigger] console_drained(m, iov, count, 0, 0, e, r) implies console_drained(
            m,
            iov,
            count,
            0,
            0,
            used(log0, console.log()) + e,
            r,
        ) by {
            assert(used(log0, log0) + e =~= e);
        }
    }
    while i < count
        invariant
            i <= count,
            m == mem(um),
            log0 == old(console).log(),
            iov_readable(m, iov, count),
            buffers_ok(m, (Gather::Send { id: 0, nonblocking: false }), iov, count),
            continues(log0, console.log()),
            forall|e: Seq<TermEvent>, r: u64| #[trigger]
                console_drained(m, iov, count, i as int, total, e, r) ==> console_drained(
                    m,
                    iov,
                    count,
                    0,
                    0,
                    used(log0, console.log()) + e,
                    r,
                ),
        decreases count - i,
    {
        let (base, len) = read_iovec(um, iov, i);
        if len > 0 {
            let ghost done = used(log0, console.log());
            let data = read_bytes(um, base, len);
            let taken = console.write(data.as_slice());
            let sum: u64 = total.wrapping_add(taken as u64);
            let ghost ev = TermEvent::Write { data: data@, taken };
            proof {
                assert(used(log0, console.log()) == done.push(ev));
                assert forall|e: Seq<TermEvent>, r: u64| #[trigger]
                    console_drained(m, iov, count, i + 1, sum, e, r) implies console_drained(
                    m,
                    iov,
                    count,
                    0,
                    0,
                    used(log0, console.log()) + e,
                    r,
                ) by {
                    let both = seq![ev] + e;
                    assert(both[0] == ev);
                    assert(both.skip(1) =~= e);
                    assert(console_drained(m, iov, count, i as int, total, both, r));
                    assert(done + both =~= done.push(ev) + e);
                }
            }
            total = sum;
        } else {
            assert forall|e: Seq<TermEvent>, r: u64| #[trigger]
                console_drained(m, iov, count, i + 1, total, e, r) implies console_drained(
                m,
                iov,
                count,
                0,
                0,
                used(log0, console.log()) + e,
                r,
            ) by {
                assert(console_drained(m, iov, count, i as int, total, e, r));
            }
        }
        i += 1;
    }
    proof {
        let none = Seq::<TermEvent>::empty();
        assert(console_drained(m, iov, count, i as int, total, none, total));
        assert(used(log0, console.log()) + none =~= used(log0, console.log()));
    }
    total
}

/// The descriptor of a file after several buffers were moved, which left it at offset `to`.
pub open spec fn after_buffers(d: FileDescriptor, dir: Direction, to: u64) -> FileDescriptor {
    match d.kind {
        FdKind::File { fuse_fh, fuse_nodeid, size, .. } => FileDescriptor {
            kind: FdKind::File { fuse_fh, fuse_nodeid, offset: to, size: if dir is Write && to > size { to } else { size } },
            ..d
        },
        _ => d,
    }
}

/// What moving several buffers of file `d` at its offset asks of the host, and what comes of it.
pub open spec fn file_buffers_moved(
    dir: Direction,
    d: FileDescriptor,
    fd: u64,
    mappings: Map<u64, PageEntry>,
    m: Mem,
    iov: u64,
    count: u64,
    t: Seq<FsEvent>,
    r: i64,
    before: Seq<Option<FileDescriptor>>,
    after: Seq<Option<FileDescriptor>>,
    m_after: Mem,
) -> bool {
    d.kind matches FdKind::File { fuse_fh, offset, .. } && exists|end: Moved| #[trigger]
        buffers_moved(dir, fuse_fh, mappings, m, iov, count, 0, 0, offset, t, end, m_after) && match end {
            Moved::Sum(sum, to) => r == sum && after == before.update(fd as int, Some(after_buffers(d, dir, to))),
            Moved::Failed(e) => r == e && after == before,
        }
}

fn move_file_buffers<C: FuseClient, P: PageTable, M: Memory>(
    fds: &mut FdTable,
    fs: &mut Fs<C>,
    pt: &P,
    um: &mut M,
    dir: Direction,
    fd: u64,
    iov: u64,
    count: u64,
) -> (r: i64)
    requires
        lookup(old(fds)@, fd) matches Some(d) && d.kind is File,
        iov_readable(mem(old(um)), iov, count),
    ensures
        extends(old(fs).log(), final(fs).log()),
        file_buffers_moved(
            dir,
            lookup(old(fds)@, fd)->0,
            fd,
            pt.mappings(),
            mem(old(um)),
            iov,
            count,
            since(old(fs).log(), final(fs).log()),
            r,
            old(fds)@,
            final(fds)@,
            mem(final(um)),
        ),
        dir is Write ==> mem(final(um)) == mem(old(um)),
{
    if let Some(d) = fds.get(fd) {
        if let FdKind::File { fuse_fh, fuse_nodeid, offset, size } = d.kind {
            return match move_buffers(fs, pt, um, dir, fuse_fh, offset, iov, count) {
                Moved::Sum(sum, to) => {
                    let grown: u64 = match dir {
                        Direction::Write => if to > size { to } else { size },
                        Direction::Read => size,
                    };
                    fds.set(
                        fd,
                        FileDescriptor { kind: FdKind::File { fuse_fh, fuse_nodeid, offset: to, size: grown }, flags: d.flags },
                    );
                    sum
                },
                Moved::Failed(e) => e as i64,
            };
        }
    }
    EBADF
}

/// The buffers of a read and their descriptions can be used, as far as they are.
pub open spec fn readv_ok(kind: FdKind, n: Net, m: Mem, iov: u64, count: u64) -> bool {
    match kind {
        FdKind::Socket { id } => iov_readable(m, iov, count) && (first_buffer(m, iov, count, 0) matches Some((addr, len))
            ==> (moves(n, id, (StreamOp::Recv { id, addr, len })) ==> m.reaches(addr, len as int))),
        FdKind::Pipe { write_end, .. } => write_end || (iov_readable(m, iov, count) && (first_buffer(m, iov, count, 0) matches Some(
            (addr, len),
        ) ==> m.reaches(addr, len as int))),
        FdKind::Console => iov_readable(m, iov, count) && console_fits(m, iov, count, 0),
        FdKind::File { .. } => iov_readable(m, iov, count),
        _ => true,
    }
}

/// Reads into several buffers. From a socket or a pipe, only the first that is not empty is filled.
pub fn sys_readv<C: FuseClient, P: PageTable, D: PollDevice, M: Memory, T: Terminal>(
    args: &SyscallArgs,
    fds: &mut FdTable,
    fs: &mut Fs<C>,
    pt: &P,
    net: &mut NetStateInner<D>,
    sched: &mut Scheduler,
    um: &mut M,
    console: &mut Console<T>,
    c: u32,
    clock: &Clock,
    tsc: u64,
) -> (r: Call)
    requires
        joint_wf(old(net)@, old(sched)@),
        active(old(sched)@, c as int),
        lookup(old(fds)@, args.arg0) matches Some(d) ==> readv_ok(d.kind, old(net)@, mem(old(um)), args.arg1, args.arg2),
    ensures
        advanced_at(old(net)@.polls, final(net)@.polls, *clock, tsc),
        extends(old(fs).log(), final(fs).log()),
        continues(old(console).log(), final(console).log()),
        ({
            let s = sys(old(net)@, old(sched)@);
            let u = sys(final(net)@, final(sched)@);
            let m = mem(old(um));
            let t = since(old(fs).log(), final(fs).log());
            let e = used(old(console).log(), final(console).log());
            let q = final(net)@.polls;
            let iov = args.arg1;
            let count = args.arg2;
            let idle = u == s && mem(final(um)) == m;
            let aside = t.len() == 0 && e.len() == 0 && final(fds)@ == old(fds)@;
            match lookup(old(fds)@, args.arg0) {
                None => r == Call::Return(EBADF) && idle && aside,
                Some(d) => match d.kind {
                    FdKind::Socket { id } => aside && match first_buffer(m, iov, count, 0) {
                        None => r == Call::Return(0) && idle,
                        Some((addr, len)) => (r, u, mem(final(um))) == sock_transfer(
                            s,
                            m,
                            id,
                            (StreamOp::Recv { id, addr, len }),
                            q,
                            c as int,
                        ),
                    },
                    FdKind::Pipe { id, write_end } => aside && if write_end {
                        r == Call::Return(EBADF) && idle
                    } else {
                        match first_buffer(m, iov, count, 0) {
                            None => r == Call::Return(0) && idle,
                            Some((addr, len)) => {
                                let op = StreamOp::PipeRead { id, addr, len };
                                let w = started(s, m, op, d.flags & O_NONBLOCK != 0, q, c as int);
                                r == call_of(w.ret, Again::Stream(op)) && u == w.sys && mem(final(um)) == w.mem
                            },
                        }
                    },
                    FdKind::Console => t.len() == 0 && final(fds)@ == old(fds)@ && u == s && exists|sum: u64| #[trigger]
                        console_filled(m, iov, count, 0, 0, e, sum, mem(final(um))) && r == Call::Return(sum as i64),
                    FdKind::File { .. } => e.len() == 0 && u == s && (r matches Call::Return(v) && file_buffers_moved(
                        Direction::Read,
                        d,
                        args.arg0,
                        pt.mappings(),
                        m,
                        iov,
                        count,
                        t,
                        v,
                        old(fds)@,
                        final(fds)@,
                        mem(final(um)),
                    )),
                    _ => r == Call::Return(EBADF) && idle && aside,
                },
            }
        }),
        joint_wf(final(net)@, final(sched)@),
        r is Return ==> active(final(sched)@, c as int),
{
    assert(extends(old(fs).log(), fs.log()));
    assert(continues(old(console).log(), console.log()));
    let iov: u64 = args.arg1;
    let count: u64 = args.arg2;
    let desc = match fds.get(args.arg0) {
        Some(d) => d,
        None => {
            return Call::Return(EBADF);
        },
    };
    match desc.kind {
        FdKind::Socket { id } => match find_buffer(um, iov, count) {
            None => Call::Return(0),
            Some((addr, len)) => sock_read(net, sched, um, id, addr, len, c, clock, tsc),
        },
        FdKind::Pipe { id, write_end } => {
            if write_end {
                return Call::Return(EBADF);
            }
            match find_buffer(um, iov, count) {
                None => Call::Return(0),
                Some((addr, len)) => {
                    let p = pipe_read(net, sched, um, id, addr, len, desc.flags & O_NONBLOCK != 0, c, clock, tsc);
                    into_call(p, Again::Stream(StreamOp::PipeRead { id, addr, len }))
                },
            }
        },
        FdKind::Console => {
            let sum = fill_buffers(console, um, iov, count);
            Call::Return(
                #[verifier::truncate]
                (sum as i64),
            )
        },
        FdKind::File { .. } => Call::Return(move_file_buffers(fds, fs, pt, um, Direction::Read, args.arg0, iov, count)),
        _ => Call::Return(EBADF),
    }
}

/// What is done with each buffer of a write to a socket or a pipe.
pub open spec fn write_gather(d: FileDescriptor) -> Gather {
    match d.kind {
        FdKind::Pipe { id, .. } => Gather::Pipe { id, nonblocking: d.flags & O_NONBLOCK != 0 },
        FdKind::Socket { id } => Gather::Socket { id },
        _ => Gather::Send { id: 0, nonblocking: false },
    }
}

/// The buffers of a write and their descriptions can be used, as far as they are.
pub open spec fn writev_ok(d: FileDescriptor, s: Sys, m: Mem, iov: u64, count: u64, c: int) -> bool {
    match d.kind {
        FdKind::Pipe { write_end, .. } => write_end ==> usable(s, m, write_gather(d), iov, count, 0, 0, c),
        FdKind::Socket { .. } => usable(s, m, write_gather(d), iov, count, 0, 0, c),
        FdKind::Console => iov_readable(m, iov, count) && buffers_ok(m, write_gather(d), iov, count),
        FdKind::File { .. } => iov_readable(m, iov, count),
        _ => true,
    }
}

/// Writes several buffers.
pub fn sys_writev<C: FuseClient, P: PageTable, D: PollDevice, M: Memory, T: Terminal>(
    args: &SyscallArgs,
    fds: &mut FdTable,
    fs: &mut Fs<C>,
    pt: &P,
    net: &mut NetStateInner<D>,
    sched: &mut Scheduler,
    um: &mut M,
    console: &mut Console<T>,
    c: u32,
    clock: &Clock,
    tsc: u64,
) -> (r: Call)
    requires
        joint_wf(old(net)@, old(sched)@),
        active(old(sched)@, c as int),
        lookup(old(fds)@, args.arg0) matches Some(d) ==> writev_ok(
            d,
            sys(old(net)@, old(sched)@),
            mem(old(um)),
            args.arg1,
            args.arg2,
            c as int,
        ),
    ensures
        advanced_at(old(net)@.polls, final(net)@.polls, *clock, tsc),
        extends(old(fs).log(), final(fs).log()),
        continues(old(console).log(), final(console).log()),
        ({
            let s = sys(old(net)@, old(sched)@);
            let u = sys(final(net)@, final(sched)@);
            let m = mem(old(um));
            let t = since(old(fs).log(), final(fs).log());
            let e = used(old(console).log(), final(console).log());
            let q = final(net)@.polls;
            let iov = args.arg1;
            let count = args.arg2;
            let idle = u == s && mem(final(um)) == m;
            let aside = t.len() == 0 && e.len() == 0 && final(fds)@ == old(fds)@;
            match lookup(old(fds)@, args.arg0) {
                None => r == Call::Return(EBADF) && idle && aside,
                Some(d) => match d.kind {
                    FdKind::Socket { id } => aside && (r, u, mem(final(um))) == gathered(
                        s,
                        m,
                        write_gather(d),
                        iov,
                        count,
                        0,
                        0,
                        q,
                        c as int,
                    ),
                    FdKind::Pipe { id, write_end } => aside && if !write_end {
                        r == Call::Return(EBADF) && idle
                    } else {
                        (r, u, mem(final(um))) == gathered(s, m, write_gather(d), iov, count, 0, 0, q, c as int)
                    },
                    FdKind::Console => t.len() == 0 && final(fds)@ == old(fds)@ && idle && exists|sum: u64| #[trigger]
                        console_drained(m, iov, count, 0, 0, e, sum) && r == Call::Return(sum as i64),
                    FdKind::File { .. } => e.len() == 0 && idle && (r matches Call::Return(v) && file_buffers_moved(
                        Direction::Write,
                        d,
                        args.arg0,
                        pt.mappings(),
                        m,
                        iov,
                        count,
                        t,
                        v,
                        old(fds)@,
                        final(fds)@,
                        mem(final(um)),
                    )),
                    _ => r == Call::Return(EBADF) && idle && aside,
                },
            }
        }),
        joint_wf(final(net)@, final(sched)@),
        r is Return ==> active(final(sched)@, c as int),
{
    assert(extends(old(fs).log(), fs.log()));
    assert(continues(old(console).log(), console.log()));
    let iov: u64 = args.arg1;
    let count: u64 = args.arg2;
    let desc = match fds.get(args.arg0) {
        Some(d) => d,
        None => {
            return Call::Return(EBADF);
        },
    };
    match desc.kind {
        FdKind::Socket { id } => gather_from(net, sched, um, Gather::Socket { id }, iov, count, 0, 0, c, clock, tsc),
        FdKind::Pipe { id, write_end } => {
            if !write_end {
                return Call::Return(EBADF);
            }
            let g = Gather::Pipe { id, nonblocking: desc.flags & O_NONBLOCK != 0 };
            gather_from(net, sched, um, g, iov, count, 0, 0, c, clock, tsc)
        },
        FdKind::Console => {
            let sum = drain_buffers(console, um, iov, count);
            Call::Return(
                #[verifier::truncate]
                (sum as i64),
            )
        },
        FdKind::File { .. } => Call::Return(move_file_buffers(fds, fs, pt, um, Direction::Write, args.arg0, iov, count)),
        _ => Call::Return(EBADF),
    }
}

} // verus!
