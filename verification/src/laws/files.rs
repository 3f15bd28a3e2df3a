//! Reading and writing through descriptors: where in the file, and how far it gets.

use vstd::prelude::*;

use super::transfers::{all_honest, in_step, law_transfer, moved_by};
use super::words::{lemma_u64_at, u64_at};
use crate::address::PhysicalAddr;
use crate::console::{Console, Terminal};
use crate::fs::client::{since, Fs, FsEvent, FuseClient};
use crate::fs::fd_table::{FdKind, FdTable, FileDescriptor};
use crate::memory::access::{mem, within, Mem, Memory};
use crate::memory::page_table::{PageEntry, PageTable};
use crate::net::device::PollDevice;
use crate::net::state::NetStateInner;
use crate::sched::scheduler::Scheduler;
use crate::syscall::args::SyscallArgs;
use crate::syscall::blocking::Call;
use crate::syscall::handlers::io::{count_of, sys_fallocate, sys_ftruncate, sys_lseek, sys_pread64, sys_pwrite64, sys_read, sys_write, zeroed};
use crate::syscall::handlers::iovec::{buffers_moved, sys_readv, sys_writev, Moved};
use crate::syscall::handlers::transfer::{host_filled, transferred, wrapped, Direction, Through};
use crate::syscall::handlers::vectored::{iov_base, iov_len};
use crate::time::Clock;

verus! {

/// The descriptor is open on a file.
pub open spec fn is_file(fds: Seq<Option<FileDescriptor>>, fd: u64) -> bool {
    fd < fds.len() && (fds[fd as int] matches Some(d) && d.kind is File)
}

/// Where in the file the next read or write goes.
pub open spec fn offset_of(fds: Seq<Option<FileDescriptor>>, fd: u64) -> int {
    match fds[fd as int] {
        Some(FileDescriptor { kind: FdKind::File { offset, .. }, .. }) => offset as int,
        _ => -1,
    }
}

/// How long the file is thought to be.
pub open spec fn size_of(fds: Seq<Option<FileDescriptor>>, fd: u64) -> int {
    match fds[fd as int] {
        Some(FileDescriptor { kind: FdKind::File { size, .. }, .. }) => size as int,
        _ => -1,
    }
}

/// The handle and the node of the file.
pub open spec fn file_of(fds: Seq<Option<FileDescriptor>>, fd: u64) -> (u64, u64) {
    match fds[fd as int] {
        Some(FileDescriptor { kind: FdKind::File { fuse_fh, fuse_nodeid, .. }, .. }) => (fuse_fh, fuse_nodeid),
        _ => (0, 0),
    }
}

/// The tables differ at most in the offset and the size of the file at `fd`.
pub open spec fn same_but_place(a: Seq<Option<FileDescriptor>>, b: Seq<Option<FileDescriptor>>, fd: u64) -> bool {
    &&& a.len() == b.len()
    &&& is_file(b, fd)
    &&& file_of(b, fd) == file_of(a, fd)
    &&& (b[fd as int]->0).flags == (a[fd as int]->0).flags
    &&& forall|i: int| 0 <= i < a.len() && i != fd ==> #[trigger] b[i] == a[i]
}

/// How many bytes one call moves at the most.
pub open spec fn at_once(n: u64) -> int {
    if n <= 0xffff_ffff { n as int } else { 0xffff_ffff }
}

/// A read of a file goes on where the last read or write ended: bytes from the descriptor's offset on come to the buffer, in
/// order and without a gap; as many as it says; and the offset is greater by as many afterwards. The size is left alone.
pub proof fn law_read_goes_on<C: FuseClient, P: PageTable, D: PollDevice, M: Memory, T: Terminal>(
    args: &SyscallArgs,
    fds: &mut FdTable,
    fs: &mut Fs<C>,
    pt: &P,
    net: &mut NetStateInner<D>,
    sched: &mut Scheduler,
    um: &mut M,
    console: &mut Console<T>,
    c: u32,
    clock: &Clock,
    tsc: u64,
    r: Call,
)
    requires
        call_ensures(sys_read::<C, P, D, M, T>, (args, fds, fs, pt, net, sched, um, console, c, clock, tsc), r),
        is_file(old(fds)@, args.arg0),
        offset_of(old(fds)@, args.arg0) + at_once(args.arg2) <= u64::MAX,
        args.arg1 + at_once(args.arg2) <= u64::MAX,
        all_honest(since(old(fs).log(), final(fs).log())),
    ensures
        r matches Call::Return(n) && {
            let a = old(fds)@;
            let b = final(fds)@;
            let t = since(old(fs).log(), final(fs).log());
            let step = |res: Result<u32, i32>| in_step(
                Direction::Read,
                file_of(a, args.arg0).0,
                pt.mappings(),
                offset_of(a, args.arg0),
                args.arg1 as int,
                at_once(args.arg2),
                t,
                res,
            );
            if n >= 0 {
                &&& step(Ok(n as u32)) && n <= at_once(args.arg2)
                &&& same_but_place(a, b, args.arg0)
                &&& offset_of(b, args.arg0) == offset_of(a, args.arg0) + n
                &&& size_of(b, args.arg0) == size_of(a, args.arg0)
            } else {
                step(Err(n as i32)) && b == a
            }
        },
{
    let a = old(fds)@;
    let t = since(old(fs).log(), final(fs).log());
    let d = a[args.arg0 as int]->0;
    let off = offset_of(a, args.arg0) as u64;
    let fh = file_of(a, args.arg0).0;
    let count = at_once(args.arg2) as u32;
    let res = choose|res: Result<u32, i32>| #[trigger]
        transferred(Direction::Read, fh, pt.mappings(), off, args.arg1, count, 0, t, res) && match res {
            Ok(n) => r == Call::Return(n as i64) && final(fds)@ == a.update(
                args.arg0 as int,
                Some(crate::syscall::handlers::io::after_move(d, Direction::Read, n)),
            ),
            Err(e) => r == Call::Return(e as i64) && final(fds)@ == a,
        };
    law_transfer(Direction::Read, fh, pt.mappings(), off, args.arg1, count, t, res);
}

/// A write to a file goes on where the last read or write ended: the bytes of the buffer go to the file from the descriptor's
/// offset on, in order and without a gap; as many as it says; and the offset is greater by as many afterwards. A file that was
/// shorter reaches to that offset. So of two writes in a row the second goes behind the first.
pub proof fn law_write_goes_on<C: FuseClient, P: PageTable, D: PollDevice, M: Memory, T: Terminal>(
    args: &SyscallArgs,
    fds: &mut FdTable,
    fs: &mut Fs<C>,
    pt: &P,
    net: &mut NetStateInner<D>,
    sched: &mut Scheduler,
    um: &mut M,
    console: &mut Console<T>,
    c: u32,
    clock: &Clock,
    tsc: u64,
    r: Call,
)
    requires
        call_ensures(sys_write::<C, P, D, M, T>, (args, fds, fs, pt, net, sched, um, console, c, clock, tsc), r),
        is_file(old(fds)@, args.arg0),
        offset_of(old(fds)@, args.arg0) + at_once(args.arg2) <= u64::MAX,
        args.arg1 + at_once(args.arg2) <= u64::MAX,
        all_honest(since(old(fs).log(), final(fs).log())),
    ensures
        r matches Call::Return(n) && {
            let a = old(fds)@;
            let b = final(fds)@;
            let t = since(old(fs).log(), final(fs).log());
            let step = |res: Result<u32, i32>| in_step(
                Direction::Write,
                file_of(a, args.arg0).0,
                pt.mappings(),
                offset_of(a, args.arg0),
                args.arg1 as int,
                at_once(args.arg2),
                t,
                res,
            );
            if n >= 0 {
                &&& step(Ok(n as u32)) && n <= at_once(args.arg2)
                &&& same_but_place(a, b, args.arg0)
                &&& offset_of(b, args.arg0) == offset_of(a, args.arg0) + n
                &&& size_of(b, args.arg0) == (if offset_of(b, args.arg0) > size_of(a, args.arg0) { offset_of(b, args.arg0) } else { size_of(a, args.arg0) })
            } else {
                step(Err(n as i32)) && b == a
            }
        },
{
    let a = old(fds)@;
    let t = since(old(fs).log(), final(fs).log());
    let d = a[args.arg0 as int]->0;
    let off = offset_of(a, args.arg0) as u64;
    let fh = file_of(a, args.arg0).0;
    let count = at_once(args.arg2) as u32;
    let res = choose|res: Result<u32, i32>| #[trigger]
        transferred(Direction::Write, fh, pt.mappings(), off, args.arg1, count, 0, t, res) && match res {
            Ok(n) => r == Call::Return(n as i64) && final(fds)@ == a.update(
                args.arg0 as int,
                Some(crate::syscall::handlers::io::after_move(d, Direction::Write, n)),
            ),
            Err(e) => r == Call::Return(e as i64) && final(fds)@ == a,
        };
    law_transfer(Direction::Write, fh, pt.mappings(), off, args.arg1, count, t, res);
}

/// A read at a given offset brings bytes of the file from there on to the buffer.
pub proof fn law_pread_reads_there<C: FuseClient, P: PageTable, M: Memory>(
    args: &SyscallArgs,
    fds: &FdTable,
    fs: &mut Fs<C>,
    pt: &P,
    um: &mut M,
    r: i64,
)
    requires
        call_ensures(sys_pread64::<C, P, M>, (args, fds, fs, pt, um), r),
        is_file(fds@, args.arg0),
        args.arg2 <= u32::MAX,
        args.arg3 + args.arg2 <= u64::MAX,
        args.arg1 + args.arg2 <= u64::MAX,
        all_honest(since(old(fs).log(), final(fs).log())),
    ensures
        in_step(
            Direction::Read,
            file_of(fds@, args.arg0).0,
            pt.mappings(),
            args.arg3 as int,
            args.arg1 as int,
            args.arg2 as int,
            since(old(fs).log(), final(fs).log()),
            (if r >= 0 { Ok(r as u32) } else { Err(r as i32) }),
        ),
        r <= args.arg2,
{
    let t = since(old(fs).log(), final(fs).log());
    let fh = file_of(fds@, args.arg0).0;
    let res = choose|res: Result<u32, i32>| #[trigger]
        transferred(Direction::Read, fh, pt.mappings(), args.arg3, args.arg1, args.arg2 as u32, 0, t, res) && match res {
            Ok(n) => r == n,
            Err(e) => r == e,
        };
    law_transfer(Direction::Read, fh, pt.mappings(), args.arg3, args.arg1, args.arg2 as u32, t, res);
}

/// A write at a given offset brings the bytes of the buffer there, and leaves the descriptor's own offset alone.
pub proof fn law_pwrite_writes_there<C: FuseClient, P: PageTable, M: Memory>(
    args: &SyscallArgs,
    fds: &mut FdTable,
    fs: &mut Fs<C>,
    pt: &P,
    um: &mut M,
    r: i64,
)
    requires
        call_ensures(sys_pwrite64::<C, P, M>, (args, fds, fs, pt, um), r),
        is_file(old(fds)@, args.arg0),
        args.arg2 <= u32::MAX,
        args.arg3 + args.arg2 <= u64::MAX,
        args.arg1 + args.arg2 <= u64::MAX,
        all_honest(since(old(fs).log(), final(fs).log())),
    ensures
        in_step(
            Direction::Write,
            file_of(old(fds)@, args.arg0).0,
            pt.mappings(),
            args.arg3 as int,
            args.arg1 as int,
            args.arg2 as int,
            since(old(fs).log(), final(fs).log()),
            (if r >= 0 { Ok(r as u32) } else { Err(r as i32) }),
        ),
        r <= args.arg2,
        same_but_place(old(fds)@, final(fds)@, args.arg0),
        offset_of(final(fds)@, args.arg0) == offset_of(old(fds)@, args.arg0),
        size_of(final(fds)@, args.arg0) == (if r >= 0 && args.arg3 + r > size_of(old(fds)@, args.arg0) {
            args.arg3 + r
        } else {
            size_of(old(fds)@, args.arg0)
        }),
        mem(final(um)) == mem(old(um)),
{
    let a = old(fds)@;
    let t = since(old(fs).log(), final(fs).log());
    let fh = file_of(a, args.arg0).0;
    let d = a[args.arg0 as int]->0;
    let res = choose|res: Result<u32, i32>| #[trigger]
        transferred(Direction::Write, fh, pt.mappings(), args.arg3, args.arg1, args.arg2 as u32, 0, t, res) && match res {
            Ok(n) => r == n && final(fds)@ == a.update(
                args.arg0 as int,
                Some(crate::syscall::handlers::io::grown(d, wrapped(args.arg3, n as u64))),
            ),
            Err(e) => r == e && final(fds)@ == a,
        };
    law_transfer(Direction::Write, fh, pt.mappings(), args.arg3, args.arg1, args.arg2 as u32, t, res);
}

/// Seeking in a file: the offset is what is returned, counted from the start, from where it was, or from the end that the host
/// tells; it moves nothing else, and nothing at all if that would be before the start.
pub proof fn law_seek_sets_the_offset<C: FuseClient>(args: &SyscallArgs, fds: &mut FdTable, fs: &mut Fs<C>, r: i64)
    requires
        call_ensures(sys_lseek::<C>, (args, fds, fs), r),
        is_file(old(fds)@, args.arg0),
        args.arg2 <= 2,
        i64::MIN <= offset_of(old(fds)@, args.arg0) + (args.arg1 as i64) <= i64::MAX,
        offset_of(old(fds)@, args.arg0) <= i64::MAX,
    ensures
        ({
            let t = since(old(fs).log(), final(fs).log());
            let asked = t.len() == 1 && (t[0] matches FsEvent::GetAttr { nodeid, .. } && nodeid == file_of(old(fds)@, args.arg0).1);
            let from: int = if args.arg2 == 0 {
                0
            } else if args.arg2 == 1 {
                offset_of(old(fds)@, args.arg0)
            } else {
                match t[0] {
                    FsEvent::GetAttr { reply: Ok(attr), .. } => attr.size as int,
                    _ => 0,
                }
            };
            let to = from + (args.arg1 as i64);
            &&& if args.arg2 < 2 { t.len() == 0 } else { asked }
            &&& args.arg2 == 2 && (t[0] matches FsEvent::GetAttr { reply: Err(e), .. }) ==> final(fds)@ == old(fds)@
            &&& !(args.arg2 == 2 && t[0] matches FsEvent::GetAttr { reply: Err(e), .. }) && to <= i64::MAX && from <= i64::MAX
                ==> if to >= 0 {
                &&& r == to
                &&& same_but_place(old(fds)@, final(fds)@, args.arg0)
                &&& offset_of(final(fds)@, args.arg0) == to
                &&& size_of(final(fds)@, args.arg0) == size_of(old(fds)@, args.arg0)
            } else {
                r < 0 && final(fds)@ == old(fds)@
            }
        }),
{
}

/// After a file was cut or stretched to a size, it has that size, and nothing else about the descriptors has changed.
pub proof fn law_truncated_has_the_size<C: FuseClient>(args: &SyscallArgs, fds: &mut FdTable, fs: &mut Fs<C>, r: i64)
    requires
        call_ensures(sys_ftruncate::<C>, (args, fds, fs), r),
        is_file(old(fds)@, args.arg0),
    ensures
        args.arg1 <= i64::MAX ==> {
            let t = since(old(fs).log(), final(fs).log());
            &&& t.len() == 1
            &&& t[0] matches FsEvent::SetAttrSize { nodeid, size, reply, .. } && {
                &&& size == args.arg1 && nodeid == file_of(old(fds)@, args.arg0).1
                &&& reply matches Err(e) ==> r == e && final(fds)@ == old(fds)@
                &&& reply is Ok ==> {
                    &&& r == 0
                    &&& same_but_place(old(fds)@, final(fds)@, args.arg0)
                    &&& size_of(final(fds)@, args.arg0) == args.arg1
                    &&& offset_of(final(fds)@, args.arg0) == offset_of(old(fds)@, args.arg0)
                }
            }
        },
        args.arg1 > i64::MAX ==> final(fds)@ == old(fds)@,
        args.arg1 > i64::MAX ==> r < 0 && since(old(fs).log(), final(fs).log()).len() == 0,
{
}

proof fn lemma_moved_split(t: Seq<FsEvent>, k: int, j: int)
    requires
        0 <= k <= t.len(),
        0 <= j <= t.len() - k,
    ensures
        moved_by(t, k + j) == moved_by(t.take(k), k) + moved_by(t.skip(k), j),
    decreases j, k,
{
    if j > 0 {
        lemma_moved_split(t, k, j - 1);
        assert(t.skip(k)[j - 1] == t[k + j - 1]);
    } else {
        lemma_moved_front(t, k, k);
        assert(moved_by(t.skip(k), 0) == 0);
    }
}

proof fn lemma_moved_front(t: Seq<FsEvent>, k: int, j: int)
    requires
        0 <= j <= k <= t.len(),
    ensures
        moved_by(t, j) == moved_by(t.take(k), j),
    decreases j,
{
    if j > 0 {
        lemma_moved_front(t, k, j - 1);
        assert(t.take(k)[j - 1] == t[j - 1]);
    }
}

/// The requests follow each other in the file without a gap, from `f` on.
pub open spec fn follows(e: FsEvent, dir: Direction, fh: u64, f: int) -> bool {
    match dir {
        Direction::Read => e matches FsEvent::Read { fh: h, offset, .. } && h == fh && offset == f,
        Direction::Write => e matches FsEvent::Write { fh: h, offset, .. } && h == fh && offset == f,
    }
}

/// Request `j` goes on in the file where those before it have ended.
#[verifier::opaque]
pub open spec fn in_file_order(t: Seq<FsEvent>, dir: Direction, fh: u64, f: int) -> bool {
    forall|j: int| 0 <= j < t.len() ==> follows(#[trigger] t[j], dir, fh, f + moved_by(t, j))
}

proof fn lemma_front_order(fh: u64, mappings: Map<u64, PageEntry>, f: int, v: int, count: int, t: Seq<FsEvent>, res: Result<u32, i32>)
    requires
        in_step(Direction::Write, fh, mappings, f, v, count, t, res),
    ensures
        in_file_order(t, Direction::Write, fh, f),
{
    reveal(in_file_order);
    assert forall|j: int| 0 <= j < t.len() implies follows(#[trigger] t[j], Direction::Write, fh, f + moved_by(t, j)) by {
        reveal(super::transfers::next);
        reveal(super::transfers::asks);
        assert(super::transfers::next(Direction::Write, fh, mappings, f, v, count, t, j));
    }
}

proof fn lemma_join_order(t: Seq<FsEvent>, k: int, dir: Direction, fh: u64, f: int)
    requires
        0 <= k <= t.len(),
        in_file_order(t.take(k), dir, fh, f),
        in_file_order(t.skip(k), dir, fh, f + moved_by(t.take(k), k)),
    ensures
        in_file_order(t, dir, fh, f),
        moved_by(t, t.len() as int) == moved_by(t.take(k), k) + moved_by(t.skip(k), t.len() - k),
{
    reveal(in_file_order);
    let front = t.take(k);
    let back = t.skip(k);
    assert forall|j: int| 0 <= j < t.len() implies follows(#[trigger] t[j], dir, fh, f + moved_by(t, j)) by {
        if j < k {
            assert(front[j] == t[j]);
            lemma_moved_front(t, k, j);
        } else {
            assert(back[j - k] == t[j]);
            lemma_moved_split(t, k, j - k);
        }
    }
    lemma_moved_split(t, k, t.len() - k);
}

proof fn lemma_buffers(
    fh: u64,
    mappings: Map<u64, PageEntry>,
    m: Mem,
    iov: u64,
    count: u64,
    i: int,
    total: i64,
    offset: u64,
    t: Seq<FsEvent>,
    end: Moved,
    after: Mem,
)
    requires
        buffers_moved(Direction::Write, fh, mappings, m, iov, count, i, total, offset, t, end, after),
        0 <= i <= count,
        all_honest(t),
        offset + (count - i) * 0xffff_ffff <= u64::MAX,
        0 <= total,
        total + (count - i) * 0xffff_ffff <= i64::MAX,
        forall|j: int| i <= j < count ==> #[trigger] iov_base(m, iov, j) + at_once(iov_len(m, iov, j)) <= u64::MAX,
    ensures
        ({
            let n = moved_by(t, t.len() as int);
            &&& 0 <= n <= (count - i) * 0xffff_ffff
            &&& in_file_order(t, Direction::Write, fh, offset as int)
            &&& match end {
                Moved::Sum(sum, to) => sum == total + n && to == offset + n,
                Moved::Failed(e) => n == 0 && e < 0 && total == 0,
            }
        }),
    decreases count - i,
{
    if i >= count {
        reveal(in_file_order);
    } else if iov_len(m, iov, i) == 0 {
        lemma_buffers(fh, mappings, m, iov, count, i + 1, total, offset, t, end, after);
    } else {
        let base = iov_base(m, iov, i);
        let len = count_of(iov_len(m, iov, i));
        let (k, res, next) = choose|k: int, res: Result<u32, i32>, next: Mem|
            0 <= k <= t.len() && #[trigger] transferred(Direction::Write, fh, mappings, offset, base, len, 0, t.take(k), res)
                && #[trigger] host_filled(Through::User, mappings, m, next, t.take(k)) && (Direction::Write is Write ==> next == m) && match res {
                Ok(n) => if n == 0 {
                    k == t.len() && end == Moved::Sum(total, offset) && after == next
                } else {
                    buffers_moved(
                        Direction::Write,
                        fh,
                        mappings,
                        next,
                        iov,
                        count,
                        i + 1,
                        total.wrapping_add(n as i64),
                        wrapped(offset, n as u64),
                        t.skip(k),
                        end,
                        after,
                    )
                },
                Err(e) => k == t.len() && end == (if total > 0 { Moved::Sum(total, offset) } else { Moved::Failed(e) }) && after
                    == next,
            };
        let front = t.take(k);
        let back = t.skip(k);
        assert(all_honest(front)) by {
            assert forall|j: int| 0 <= j < front.len() implies super::transfers::honest(#[trigger] front[j]) by {
                assert(front[j] == t[j]);
            }
        }
        assert(all_honest(back)) by {
            assert forall|j: int| 0 <= j < back.len() implies super::transfers::honest(#[trigger] back[j]) by {
                assert(back[j] == t[j + k]);
            }
        }
        law_transfer(Direction::Write, fh, mappings, offset, base, len, front, res);
        let n = moved_by(front, k);
        lemma_front_order(fh, mappings, offset as int, base as int, len as int, front, res);
        if res is Ok && res->Ok_0 != 0 {
            lemma_buffers(
                fh,
                mappings,
                m,
                iov,
                count,
                i + 1,
                total.wrapping_add(n as i64),
                wrapped(offset, n as u64),
                back,
                end,
                after,
            );
            lemma_join_order(t, k, Direction::Write, fh, offset as int);
        } else {
            assert(front =~= t);
        }
    }
}

/// Writing several buffers to a file writes them behind each other: the host is asked for one part of the file after the other,
/// from the descriptor's offset on; as much as it takes is what is said; and the offset is greater by as much afterwards.
pub proof fn law_buffers_go_behind_each_other<C: FuseClient, P: PageTable, D: PollDevice, M: Memory, T: Terminal>(
    args: &SyscallArgs,
    fds: &mut FdTable,
    fs: &mut Fs<C>,
    pt: &P,
    net: &mut NetStateInner<D>,
    sched: &mut Scheduler,
    um: &mut M,
    console: &mut Console<T>,
    c: u32,
    clock: &Clock,
    tsc: u64,
    r: Call,
)
    requires
        call_ensures(sys_writev::<C, P, D, M, T>, (args, fds, fs, pt, net, sched, um, console, c, clock, tsc), r),
        is_file(old(fds)@, args.arg0),
        args.arg2 * 0xffff_ffff <= i64::MAX,
        offset_of(old(fds)@, args.arg0) + args.arg2 * 0xffff_ffff <= u64::MAX,
        all_honest(since(old(fs).log(), final(fs).log())),
        forall|j: int|
            0 <= j < args.arg2 ==> #[trigger] iov_base(mem(old(um)), args.arg1, j) + at_once(iov_len(mem(old(um)), args.arg1, j)) <= u64::MAX,
    ensures
        r matches Call::Return(n) && {
            let a = old(fds)@;
            let b = final(fds)@;
            let t = since(old(fs).log(), final(fs).log());
            &&& forall|j: int|
                0 <= j < t.len() ==> follows(
                    #[trigger] t[j],
                    Direction::Write,
                    file_of(a, args.arg0).0,
                    offset_of(a, args.arg0) + moved_by(t, j),
                )
            &&& n >= 0 ==> {
                &&& n == moved_by(t, t.len() as int)
                &&& same_but_place(a, b, args.arg0)
                &&& offset_of(b, args.arg0) == offset_of(a, args.arg0) + n
                &&& size_of(b, args.arg0) == (if offset_of(b, args.arg0) > size_of(a, args.arg0) {
                    offset_of(b, args.arg0)
                } else {
                    size_of(a, args.arg0)
                })
            }
            &&& n < 0 ==> b == a && moved_by(t, t.len() as int) == 0
            &&& mem(final(um)) == mem(old(um))
        },
{
    let a = old(fds)@;
    let d = a[args.arg0 as int]->0;
    let m = mem(old(um));
    let t = since(old(fs).log(), final(fs).log());
    let fh = file_of(a, args.arg0).0;
    let off = offset_of(a, args.arg0) as u64;
    let end = choose|end: Moved| #[trigger]
        buffers_moved(Direction::Write, fh, pt.mappings(), m, args.arg1, args.arg2, 0, 0, off, t, end, mem(final(um))) && match end {
            Moved::Sum(sum, to) => r == Call::Return(sum) && final(fds)@ == a.update(
                args.arg0 as int,
                Some(crate::syscall::handlers::iovec::after_buffers(d, Direction::Write, to)),
            ),
            Moved::Failed(e) => r == Call::Return(e as i64) && final(fds)@ == a,
        };
    reveal(in_file_order);
    lemma_buffers(fh, pt.mappings(), m, args.arg1, args.arg2, 0, 0, off, t, end, mem(final(um)));
}

/// The buffer of which `iov` has the description at place `i`: where it is.
pub open spec fn buffer_at<M: Memory>(um: &M, iov: u64, i: int) -> int {
    u64_at(um, iov + 16 * i)
}

/// The buffer of which `iov` has the description at place `i`: how many bytes it has.
pub open spec fn buffer_len<M: Memory>(um: &M, iov: u64, i: int) -> int {
    u64_at(um, iov + 16 * i + 8)
}

/// The first `k` requests move the buffer of `len` bytes at `v` to offset `f` of the file, as far as they come.
pub open spec fn one_buffer(fh: u64, mappings: Map<u64, PageEntry>, f: int, v: int, len: int, t: Seq<FsEvent>, k: int, res: Result<u32, i32>) -> bool {
    0 <= k <= t.len() && in_step(Direction::Write, fh, mappings, f, v, if len <= 0xffff_ffff { len } else { 0xffff_ffff }, t.take(k), res)
}

/// The requests move the buffers from place `i` on, one after the other and each behind what was moved before it, until one of
/// them moves nothing.
pub open spec fn in_turn<M: Memory>(um: &M, iov: u64, count: int, i: int, fh: u64, mappings: Map<u64, PageEntry>, f: int, t: Seq<FsEvent>) -> bool
    decreases count - i,
{
    if i < 0 || i >= count {
        t.len() == 0
    } else if buffer_len(um, iov, i) == 0 {
        in_turn(um, iov, count, i + 1, fh, mappings, f, t)
    } else {
        exists|k: int, res: Result<u32, i32>| #[trigger]
            one_buffer(fh, mappings, f, buffer_at(um, iov, i), buffer_len(um, iov, i), t, k, res) && {
                let n = moved_by(t.take(k), k);
                &&& n == 0 ==> k == t.len()
                &&& n > 0 ==> in_turn(um, iov, count, i + 1, fh, mappings, f + n, t.skip(k))
            }
    }
}

proof fn lemma_in_turn<M: Memory>(
    um: &M,
    fh: u64,
    mappings: Map<u64, PageEntry>,
    iov: u64,
    count: u64,
    i: int,
    total: i64,
    offset: u64,
    t: Seq<FsEvent>,
    end: Moved,
    after: Mem,
)
    requires
        buffers_moved(Direction::Write, fh, mappings, mem(um), iov, count, i, total, offset, t, end, after),
        0 <= i <= count,
        all_honest(t),
        offset + (count - i) * 0xffff_ffff <= u64::MAX,
        0 <= total,
        total + (count - i) * 0xffff_ffff <= i64::MAX,
        within(um, iov as int, 16 * count),
        forall|j: int| i <= j < count ==> #[trigger] buffer_at(um, iov, j) + (if buffer_len(um, iov, j) <= 0xffff_ffff { buffer_len(um, iov, j) } else { 0xffff_ffff }) <= u64::MAX,
    ensures
        in_turn(um, iov, count as int, i, fh, mappings, offset as int, t),
    decreases count - i,
{
    let m = mem(um);
    if i < count {
        lemma_u64_at(um, iov + 16 * i);
        lemma_u64_at(um, iov + 16 * i + 8);
        assert(m.word(iov + 16 * i) == buffer_at(um, iov, i));
        assert(m.word(iov + 16 * i + 8) == buffer_len(um, iov, i));
        if iov_len(m, iov, i) == 0 {
            lemma_in_turn(um, fh, mappings, iov, count, i + 1, total, offset, t, end, after);
        } else {
            let base = iov_base(m, iov, i);
            let len = count_of(iov_len(m, iov, i));
            let (k, res, next) = choose|k: int, res: Result<u32, i32>, next: Mem|
                0 <= k <= t.len() && #[trigger] transferred(Direction::Write, fh, mappings, offset, base, len, 0, t.take(k), res)
                    && #[trigger] host_filled(Through::User, mappings, m, next, t.take(k)) && (Direction::Write is Write ==> next == m) && match res {
                    Ok(n) => if n == 0 {
                        k == t.len() && end == Moved::Sum(total, offset) && after == next
                    } else {
                        buffers_moved(
                            Direction::Write,
                            fh,
                            mappings,
                            next,
                            iov,
                            count,
                            i + 1,
                            total.wrapping_add(n as i64),
                            wrapped(offset, n as u64),
                            t.skip(k),
                            end,
                            after,
                        )
                    },
                    Err(e) => k == t.len() && end == (if total > 0 { Moved::Sum(total, offset) } else { Moved::Failed(e) }) && after
                        == next,
                };
            let front = t.take(k);
            let back = t.skip(k);
            assert(all_honest(front)) by {
                assert forall|j: int| 0 <= j < front.len() implies super::transfers::honest(#[trigger] front[j]) by {
                    assert(front[j] == t[j]);
                }
            }
            assert(all_honest(back)) by {
                assert forall|j: int| 0 <= j < back.len() implies super::transfers::honest(#[trigger] back[j]) by {
                    assert(back[j] == t[j + k]);
                }
            }
            law_transfer(Direction::Write, fh, mappings, offset, base, len, front, res);
            let n = moved_by(front, k);
            assert(one_buffer(fh, mappings, offset as int, buffer_at(um, iov, i), buffer_len(um, iov, i), t, k, res));
            if res is Ok && res->Ok_0 != 0 {
                lemma_in_turn(
                    um,
                    fh,
                    mappings,
                    iov,
                    count,
                    i + 1,
                    total.wrapping_add(n as i64),
                    wrapped(offset, n as u64),
                    back,
                    end,
                    after,
                );
            }
        }
    }
}

/// Writing several buffers to a file takes the bytes of the buffers in turn.
pub proof fn law_buffers_are_taken_in_turn<C: FuseClient, P: PageTable, D: PollDevice, M: Memory, T: Terminal>(
    args: &SyscallArgs,
    fds: &mut FdTable,
    fs: &mut Fs<C>,
    pt: &P,
    net: &mut NetStateInner<D>,
    sched: &mut Scheduler,
    um: &mut M,
    console: &mut Console<T>,
    c: u32,
    clock: &Clock,
    tsc: u64,
    r: Call,
)
    requires
        call_ensures(sys_writev::<C, P, D, M, T>, (args, fds, fs, pt, net, sched, um, console, c, clock, tsc), r),
        is_file(old(fds)@, args.arg0),
        args.arg2 * 0xffff_ffff <= i64::MAX,
        offset_of(old(fds)@, args.arg0) + args.arg2 * 0xffff_ffff <= u64::MAX,
        all_honest(since(old(fs).log(), final(fs).log())),
        within(old(um), args.arg1 as int, 16 * args.arg2),
        forall|j: int|
            0 <= j < args.arg2 ==> #[trigger] buffer_at(old(um), args.arg1, j) + (if buffer_len(old(um), args.arg1, j) <= 0xffff_ffff {
                buffer_len(old(um), args.arg1, j)
            } else {
                0xffff_ffff
            }) <= u64::MAX,
    ensures
        in_turn(
            old(um),
            args.arg1,
            args.arg2 as int,
            0,
            file_of(old(fds)@, args.arg0).0,
            pt.mappings(),
            offset_of(old(fds)@, args.arg0),
            since(old(fs).log(), final(fs).log()),
        ),
{
    let a = old(fds)@;
    let d = a[args.arg0 as int]->0;
    let m = mem(old(um));
    let t = since(old(fs).log(), final(fs).log());
    let fh = file_of(a, args.arg0).0;
    let off = offset_of(a, args.arg0) as u64;
    let end = choose|end: Moved| #[trigger]
        buffers_moved(Direction::Write, fh, pt.mappings(), m, args.arg1, args.arg2, 0, 0, off, t, end, mem(final(um))) && match end {
            Moved::Sum(sum, to) => r == Call::Return(sum) && final(fds)@ == a.update(
                args.arg0 as int,
                Some(crate::syscall::handlers::iovec::after_buffers(d, Direction::Write, to)),
            ),
            Moved::Failed(e) => r == Call::Return(e as i64) && final(fds)@ == a,
        };
    lemma_in_turn(old(um), fh, pt.mappings(), args.arg1, args.arg2, 0, 0, off, t, end, mem(final(um)));
}

proof fn lemma_sum(
    fh: u64,
    mappings: Map<u64, PageEntry>,
    m: Mem,
    iov: u64,
    count: u64,
    i: int,
    total: i64,
    offset: u64,
    t: Seq<FsEvent>,
    end: Moved,
    after: Mem,
)
    requires
        buffers_moved(Direction::Read, fh, mappings, m, iov, count, i, total, offset, t, end, after),
        0 <= i <= count,
        offset + (count - i) * 0xffff_ffff <= u64::MAX,
        0 <= total,
        total + (count - i) * 0xffff_ffff <= i64::MAX,
    ensures
        end matches Moved::Sum(sum, to) ==> sum >= total && to - offset == sum - total,
        end is Failed ==> total == 0,
    decreases count - i,
{
    if i >= count {
    } else if iov_len(m, iov, i) == 0 {
        lemma_sum(fh, mappings, m, iov, count, i + 1, total, offset, t, end, after);
    } else {
        let base = iov_base(m, iov, i);
        let len = count_of(iov_len(m, iov, i));
        let (k, res, next) = choose|k: int, res: Result<u32, i32>, next: Mem|
            0 <= k <= t.len() && #[trigger] transferred(Direction::Read, fh, mappings, offset, base, len, 0, t.take(k), res)
                && #[trigger] host_filled(Through::User, mappings, m, next, t.take(k)) && (Direction::Read is Write ==> next == m) && match res {
                Ok(n) => if n == 0 {
                    k == t.len() && end == Moved::Sum(total, offset) && after == next
                } else {
                    buffers_moved(
                        Direction::Read,
                        fh,
                        mappings,
                        next,
                        iov,
                        count,
                        i + 1,
                        total.wrapping_add(n as i64),
                        wrapped(offset, n as u64),
                        t.skip(k),
                        end,
                        after,
                    )
                },
                Err(e) => k == t.len() && end == (if total > 0 { Moved::Sum(total, offset) } else { Moved::Failed(e) }) && after
                    == next,
            };
        if let Ok(n) = res {
            if n != 0 {
                lemma_sum(
                    fh,
                    mappings,
                    next,
                    iov,
                    count,
                    i + 1,
                    total.wrapping_add(n as i64),
                    wrapped(offset, n as u64),
                    t.skip(k),
                    end,
                    after,
                );
            }
        }
    }
}

/// Reading a file to several buffers goes on where the last read or write ended: the offset is greater by as many bytes as it says,
/// and the size is left alone. To one buffer it is read as by a plain read.
pub proof fn law_buffers_are_read_from_the_offset<C: FuseClient, P: PageTable, D: PollDevice, M: Memory, T: Terminal>(
    args: &SyscallArgs,
    fds: &mut FdTable,
    fs: &mut Fs<C>,
    pt: &P,
    net: &mut NetStateInner<D>,
    sched: &mut Scheduler,
    um: &mut M,
    console: &mut Console<T>,
    c: u32,
    clock: &Clock,
    tsc: u64,
    r: Call,
)
    requires
        call_ensures(sys_readv::<C, P, D, M, T>, (args, fds, fs, pt, net, sched, um, console, c, clock, tsc), r),
        is_file(old(fds)@, args.arg0),
        args.arg2 * 0xffff_ffff <= i64::MAX,
        offset_of(old(fds)@, args.arg0) + args.arg2 * 0xffff_ffff <= u64::MAX,
        within(old(um), args.arg1 as int, 16 * args.arg2),
    ensures
        r matches Call::Return(n) && {
            let a = old(fds)@;
            let b = final(fds)@;
            let t = since(old(fs).log(), final(fs).log());
            let at = buffer_at(old(um), args.arg1, 0);
            let len = buffer_len(old(um), args.arg1, 0);
            &&& n >= 0 && b != a ==> {
                &&& same_but_place(a, b, args.arg0)
                &&& offset_of(b, args.arg0) == offset_of(a, args.arg0) + n
                &&& size_of(b, args.arg0) == size_of(a, args.arg0)
            }
            &&& args.arg2 == 1 && len > 0 && all_honest(t) && at + len <= u64::MAX ==> exists|res: Result<u32, i32>|
                {
                    &&& #[trigger] read_to(file_of(a, args.arg0).0, pt.mappings(), offset_of(a, args.arg0), at, len, t, res)
                    &&& res matches Ok(k) ==> n == k && offset_of(b, args.arg0) == offset_of(a, args.arg0) + k
                    &&& res matches Err(e) ==> n == e && b == a
                }
        },
{
    let a = old(fds)@;
    let d = a[args.arg0 as int]->0;
    let m = mem(old(um));
    let t = since(old(fs).log(), final(fs).log());
    let fh = file_of(a, args.arg0).0;
    let off = offset_of(a, args.arg0) as u64;
    let end = choose|end: Moved| #[trigger]
        buffers_moved(Direction::Read, fh, pt.mappings(), m, args.arg1, args.arg2, 0, 0, off, t, end, mem(final(um))) && match end {
            Moved::Sum(sum, to) => r == Call::Return(sum) && final(fds)@ == a.update(
                args.arg0 as int,
                Some(crate::syscall::handlers::iovec::after_buffers(d, Direction::Read, to)),
            ),
            Moved::Failed(e) => r == Call::Return(e as i64) && final(fds)@ == a,
        };
    lemma_sum(fh, pt.mappings(), m, args.arg1, args.arg2, 0, 0, off, t, end, mem(final(um)));
    let iov = args.arg1;
    if args.arg2 == 1 && buffer_len(old(um), iov, 0) > 0 && all_honest(t) {
        lemma_u64_at(old(um), iov as int);
        lemma_u64_at(old(um), iov + 8);
        assert(m.word(iov as int) == buffer_at(old(um), iov, 0));
        assert(m.word(iov + 8) == buffer_len(old(um), iov, 0));
        let base = iov_base(m, iov, 0);
        let len = count_of(iov_len(m, iov, 0));
        reveal_with_fuel(buffers_moved, 2);
        let (k, res, next) = choose|k: int, res: Result<u32, i32>, next: Mem|
            0 <= k <= t.len() && #[trigger] transferred(Direction::Read, fh, pt.mappings(), off, base, len, 0, t.take(k), res)
                && #[trigger] host_filled(Through::User, pt.mappings(), m, next, t.take(k)) && match res {
                Ok(n) => if n == 0 {
                    k == t.len() && end == Moved::Sum(0, off)
                } else {
                    t.skip(k).len() == 0 && end == Moved::Sum(0i64.wrapping_add(n as i64), wrapped(off, n as u64))
                },
                Err(e) => k == t.len() && end == Moved::Failed(e),
            };
        assert(t.take(k) =~= t);
        if base + len <= u64::MAX {
            law_transfer(Direction::Read, fh, pt.mappings(), off, base, len, t, res);
            assert(read_to(fh, pt.mappings(), off as int, base as int, buffer_len(old(um), iov, 0), t, res));
        }
    }
}

/// The requests move bytes from offset `f` of the file to the buffer of `len` bytes at `v`, as far as they come.
pub open spec fn read_to(fh: u64, mappings: Map<u64, PageEntry>, f: int, v: int, len: int, t: Seq<FsEvent>, res: Result<u32, i32>) -> bool {
    in_step(Direction::Read, fh, mappings, f, v, if len <= 0xffff_ffff { len } else { 0xffff_ffff }, t, res)
}

/// The zeros go to the file from `f` on without a gap, and every request is for at least one byte and not beyond `end`.
pub open spec fn zeros_follow(t: Seq<FsEvent>, fh: u64, f: int, end: int) -> bool {
    forall|j: int|
        0 <= j < t.len() ==> ((#[trigger] t[j]) matches FsEvent::Write { fh: h, offset, count, .. } && h == fh && offset == f + moved_by(t, j) && 0
            < count && offset + count <= end)
}

proof fn lemma_zeros(fh: u64, zero: u64, pos: int, end: int, t: Seq<FsEvent>, e: Option<i64>)
    requires
        zeroed(fh, zero, pos, end, t, e),
        0 <= pos <= end,
        all_honest(t),
    ensures
        zeros_follow(t, fh, pos, end),
        e is None ==> pos + moved_by(t, t.len() as int) == end,
        0 <= moved_by(t, t.len() as int) <= end - pos,
    decreases t.len(),
{
    if pos < end {
        assert(super::transfers::honest(t[0]));
        if let FsEvent::Write { count, reply: Ok(n), .. } = t[0] {
            if n != 0 {
                let rest = t.skip(1);
                assert(all_honest(rest)) by {
                    assert forall|j: int| 0 <= j < rest.len() implies super::transfers::honest(#[trigger] rest[j]) by {
                        assert(rest[j] == t[j + 1]);
                    }
                }
                lemma_zeros(fh, zero, pos + n, end, rest, e);
                assert(moved_by(t, 1) == n) by {
                    assert(moved_by(t, 0) == 0);
                }
                assert(moved_by(t.take(1), 1) == n) by {
                    assert(moved_by(t.take(1), 0) == 0);
                }
                lemma_moved_split(t, 1, t.len() - 1);
                assert forall|j: int| 0 <= j < t.len() implies ((#[trigger] t[j]) matches FsEvent::Write { fh: h, offset, count, .. } && h == fh
                    && offset == pos + moved_by(t, j) && 0 < count && offset + count <= end) by {
                    if j == 0 {
                        assert(moved_by(t, 0) == 0);
                    } else {
                        assert(t[j] == rest[j - 1]);
                        lemma_moved_split(t, 1, j - 1);
                    }
                }
            } else {
                assert(moved_by(t, 0) == 0);
                assert(moved_by(t, 1) == 0);
            }
        } else {
            assert(moved_by(t, 0) == 0);
            assert(moved_by(t, 1) == 0);
        }
    }
}

/// Allocating a range of a file fills it with zeros, and the file reaches to its end at least. Where it cannot be filled the
/// descriptor is left alone. The offset is left alone in any case.
pub proof fn law_allocated_range_is_zeros<C: FuseClient>(args: &SyscallArgs, fds: &mut FdTable, fs: &mut Fs<C>, zero: PhysicalAddr, r: i64)
    requires
        call_ensures(sys_fallocate::<C>, (args, fds, fs, zero), r),
        is_file(old(fds)@, args.arg0),
        args.arg1 as u32 == 0,
        all_honest(since(old(fs).log(), final(fs).log())),
    ensures
        ({
            let a = old(fds)@;
            let b = final(fds)@;
            let t = since(old(fs).log(), final(fs).log());
            let end = args.arg2 + args.arg3;
            let fh = file_of(a, args.arg0).0;
            &&& args.arg2 > i64::MAX || args.arg3 > i64::MAX || args.arg3 == 0 ==> r == -22 && b == a && t.len() == 0
            &&& args.arg2 <= i64::MAX && 0 < args.arg3 <= i64::MAX ==> {
                &&& zeros_follow(t, fh, args.arg2 as int, end)
                &&& b == a || {
                    &&& r == 0
                    &&& same_but_place(a, b, args.arg0)
                    &&& offset_of(b, args.arg0) == offset_of(a, args.arg0)
                    &&& size_of(b, args.arg0) == (if end > size_of(a, args.arg0) { end } else { size_of(a, args.arg0) })
                    &&& moved_by(t, t.len() as int) == args.arg3
                }
                &&& moved_by(t, t.len() as int) == args.arg3 && (t.len() > 0 && super::transfers::bytes_moved(t[t.len() - 1]) > 0) ==> r == 0
                    && size_of(b, args.arg0) >= end
            }
        }),
{
    let a = old(fds)@;
    let t = since(old(fs).log(), final(fs).log());
    let fh = file_of(a, args.arg0).0;
    if args.arg2 <= i64::MAX && 0 < args.arg3 <= i64::MAX {
        assert(0u32 != crate::syscall::handlers::io::FALLOC_FL_KEEP_SIZE | crate::syscall::handlers::io::FALLOC_FL_PUNCH_HOLE) by (bit_vector);
        let e = choose|e: Option<i64>| #[trigger]
            zeroed(fh, zero.0, args.arg2 as int, args.arg2 + args.arg3, t, e) && match e {
                None => r == 0 && final(fds)@ == a.update(
                    args.arg0 as int,
                    Some(crate::syscall::handlers::io::grown(a[args.arg0 as int]->0, (args.arg2 + args.arg3) as u64)),
                ),
                Some(x) => r == x && final(fds)@ == a,
            };
        lemma_zeros(fh, zero.0, args.arg2 as int, args.arg2 + args.arg3, t, e);
        if e is Some {
            lemma_zeros_fail(fh, zero.0, args.arg2 as int, args.arg2 + args.arg3, t, e);
        }
    }
}

proof fn lemma_zeros_fail(fh: u64, zero: u64, pos: int, end: int, t: Seq<FsEvent>, e: Option<i64>)
    requires
        zeroed(fh, zero, pos, end, t, e),
        e is Some,
    ensures
        t.len() > 0,
        super::transfers::bytes_moved(t[t.len() - 1]) == 0,
    decreases t.len(),
{
    if let FsEvent::Write { reply: Ok(n), .. } = t[0] {
        if n != 0 {
            lemma_zeros_fail(fh, zero, pos + n, end, t.skip(1), e);
        }
    }
}

} // verus!
