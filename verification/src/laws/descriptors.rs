//! Descriptors: where they come from, what they stand for, and what is left when they go.

use vstd::prelude::*;

use super::words::{u32_at};
use crate::fs::client::{since, Fs, FsEvent, FuseClient};
use crate::fs::fd_table::{count_refs, law_lowest_free, lowest_free, FdKind, FdTable, FileDescriptor};
use crate::memory::access::{le32, mem, within, Memory};
use crate::net::device::PollDevice;
use crate::net::pipe::Pipe;
use crate::net::state::{law_lowest_slot, lowest_slot, NetStateInner};
use crate::sched::scheduler::Scheduler;
use crate::syscall::args::SyscallArgs;
use crate::syscall::handlers::io::{
    sys_close, sys_dup, sys_dup2, sys_fcntl, sys_fdatasync, sys_fsync, sys_pipe, sys_pipe2,
};
use crate::time::Clock;

verus! {

/// The descriptor is open.
pub open spec fn is_open(fds: Seq<Option<FileDescriptor>>, fd: int) -> bool {
    0 <= fd < fds.len() && fds[fd] is Some
}

/// The tables agree at every descriptor but `fd`, where one that the first table does not reach is not open.
pub open spec fn same_elsewhere(a: Seq<Option<FileDescriptor>>, b: Seq<Option<FileDescriptor>>, fd: int) -> bool {
    &&& b.len() >= a.len()
    &&& forall|k: int| 0 <= k < a.len() && k != fd ==> #[trigger] b[k] == a[k]
    &&& forall|k: int| a.len() <= k < b.len() && k != fd ==> #[trigger] b[k] is None
}

/// `fd` was the lowest descriptor that was not open, and now stands for `d`. All others are as they were.
pub open spec fn opened(a: Seq<Option<FileDescriptor>>, b: Seq<Option<FileDescriptor>>, fd: int, d: FileDescriptor) -> bool {
    &&& 0 <= fd && !is_open(a, fd)
    &&& forall|k: int| 0 <= k < fd ==> is_open(a, k)
    &&& is_open(b, fd) && b[fd] == Some(d)
    &&& same_elsewhere(a, b, fd)
}

/// Both stand for the same open file, directory, socket, set or end of a pipe.
pub open spec fn same_thing(a: FdKind, b: FdKind) -> bool {
    match a {
        FdKind::File { fuse_fh: x, .. } => b matches FdKind::File { fuse_fh: y, .. } && x == y || (b matches FdKind::Directory {
            fuse_fh: y,
            ..
        } && x == y),
        FdKind::Directory { fuse_fh: x, .. } => b matches FdKind::File { fuse_fh: y, .. } && x == y || (b matches FdKind::Directory {
            fuse_fh: y,
            ..
        } && x == y),
        FdKind::Socket { id: x } => b matches FdKind::Socket { id: y } && x == y,
        FdKind::Epoll { id: x } => b matches FdKind::Epoll { id: y } && x == y,
        FdKind::Pipe { id: x, write_end: v } => b matches FdKind::Pipe { id: y, write_end: w } && x == y && v == w,
        FdKind::Console => false,
    }
}

/// Some descriptor stands for the same thing.
pub open spec fn still_open(fds: Seq<Option<FileDescriptor>>, kind: FdKind) -> bool {
    exists|k: int| is_open(fds, k) && same_thing(kind, (#[trigger] fds[k]->0).kind)
}

/// What the host is told when the last descriptor of a file or directory goes: to release it, and to forget its node.
pub open spec fn host_lets_go(t: Seq<FsEvent>, kind: FdKind) -> bool {
    match kind {
        FdKind::File { fuse_fh, fuse_nodeid, .. } => t.len() == 2 && (t[0] matches FsEvent::Release { fh } && fh == fuse_fh) && (t[1] matches FsEvent::Forget {
            nodeid,
            lookups,
        } && nodeid == fuse_nodeid && lookups == 1),
        FdKind::Directory { fuse_fh, fuse_nodeid, .. } => t.len() == 2 && (t[0] matches FsEvent::ReleaseDir { fh } && fh == fuse_fh) && (
        t[1] matches FsEvent::Forget { nodeid, lookups } && nodeid == fuse_nodeid && lookups == 1),
        _ => t.len() == 0,
    }
}

proof fn lemma_refs(fds: Seq<Option<FileDescriptor>>, kind: FdKind, n: int)
    requires
        0 <= n <= fds.len(),
    ensures
        count_refs(fds, kind, n) >= 0,
        count_refs(fds, kind, n) == 0 <==> !exists|k: int| 0 <= k < n && #[trigger] fds[k] is Some && same_thing(kind, (fds[k]->0).kind),
    decreases n,
{
    if n > 0 {
        lemma_refs(fds, kind, n - 1);
        if count_refs(fds, kind, n - 1) > 0 {
            let k = choose|k: int| 0 <= k < n - 1 && #[trigger] fds[k] is Some && same_thing(kind, (fds[k]->0).kind);
            assert(fds[k] is Some);
        }
        let last = fds[n - 1];
        if last is Some && same_thing(kind, (last->0).kind) {
            assert(fds[n - 1] is Some);
        }
    }
}

pub proof fn lemma_last(fds: Seq<Option<FileDescriptor>>, kind: FdKind)
    ensures
        count_refs(fds, kind, fds.len() as int) == 0 <==> !still_open(fds, kind),
{
    let n = fds.len() as int;
    lemma_refs(fds, kind, n);
    if still_open(fds, kind) {
        let k = choose|k: int| is_open(fds, k) && same_thing(kind, (#[trigger] fds[k]->0).kind);
        assert(fds[k] is Some);
    }
    if count_refs(fds, kind, n) != 0 {
        let k = choose|k: int| 0 <= k < n && #[trigger] fds[k] is Some && same_thing(kind, (fds[k]->0).kind);
        assert(is_open(fds, k) && same_thing(kind, (fds[k]->0).kind));
    }
}

/// A duplicate is the lowest descriptor that was not open, and stands for what the first one stands for.
pub proof fn law_duplicate_stands_for_the_same(args: &SyscallArgs, fds: &mut FdTable, r: i64)
    requires
        call_ensures(sys_dup, (args, fds), r),
        old(fds)@.len() < i64::MAX,
    ensures
        is_open(old(fds)@, args.arg0 as int) ==> opened(old(fds)@, final(fds)@, r as int, old(fds)@[args.arg0 as int]->0),
        !is_open(old(fds)@, args.arg0 as int) ==> r == -9 && final(fds)@ == old(fds)@,
{
    law_lowest_free(old(fds)@, 0);
}

/// A duplicate at a given number is at that number, and stands for what the first one stands for; no other descriptor changes.
/// If the number was taken, what it stood for is let go of, unless some descriptor still stands for it.
pub proof fn law_duplicate_goes_where_told<C: FuseClient, D: PollDevice>(
    args: &SyscallArgs,
    fds: &mut FdTable,
    fs: &mut Fs<C>,
    net: &mut NetStateInner<D>,
    sched: &mut Scheduler,
    c: u32,
    clock: &Clock,
    tsc: u64,
    r: i64,
)
    requires
        call_ensures(sys_dup2::<C, D>, (args, fds, fs, net, sched, c, clock, tsc), r),
        args.arg1 <= i64::MAX,
    ensures
        ({
            let a = old(fds)@;
            let b = final(fds)@;
            let t = since(old(fs).log(), final(fs).log());
            if is_open(a, args.arg0 as int) {
                &&& r == args.arg1
                &&& is_open(b, args.arg1 as int) && b[args.arg1 as int] == a[args.arg0 as int]
                &&& same_elsewhere(a, b, args.arg1 as int)
                &&& if is_open(a, args.arg1 as int) && args.arg0 != args.arg1 && !still_open(b, (a[args.arg1 as int]->0).kind) {
                    host_lets_go(t, (a[args.arg1 as int]->0).kind)
                } else {
                    t.len() == 0 && final(net)@ == old(net)@ && final(sched)@ == old(sched)@
                }
            } else {
                r == -9 && b == a && t.len() == 0 && final(net)@ == old(net)@ && final(sched)@ == old(sched)@
            }
        }),
{
    if is_open(old(fds)@, args.arg1 as int) {
        lemma_last(final(fds)@, (old(fds)@[args.arg1 as int]->0).kind);
    }
}

/// A closed descriptor is not open; no other descriptor changes. What it stood for is let go of, unless some descriptor still
/// stands for it.
pub proof fn law_close_lets_go_of_the_last<C: FuseClient, D: PollDevice>(
    args: &SyscallArgs,
    fds: &mut FdTable,
    fs: &mut Fs<C>,
    net: &mut NetStateInner<D>,
    sched: &mut Scheduler,
    c: u32,
    clock: &Clock,
    tsc: u64,
    r: i64,
)
    requires
        call_ensures(sys_close::<C, D>, (args, fds, fs, net, sched, c, clock, tsc), r),
    ensures
        ({
            let a = old(fds)@;
            let b = final(fds)@;
            let t = since(old(fs).log(), final(fs).log());
            if is_open(a, args.arg0 as int) {
                let kind = (a[args.arg0 as int]->0).kind;
                &&& r == 0
                &&& b.len() == a.len()
                &&& !is_open(b, args.arg0 as int)
                &&& same_elsewhere(a, b, args.arg0 as int)
                &&& if still_open(b, kind) {
                    t.len() == 0 && final(net)@ == old(net)@ && final(sched)@ == old(sched)@
                } else {
                    host_lets_go(t, kind)
                }
            } else {
                r == -9 && b == a && t.len() == 0 && final(net)@ == old(net)@ && final(sched)@ == old(sched)@
            }
        }),
{
    if is_open(old(fds)@, args.arg0 as int) {
        lemma_last(final(fds)@, (old(fds)@[args.arg0 as int]->0).kind);
    }
}

/// Setting the flags of a descriptor sets whether it waits, and nothing else of it; a socket learns of it as well.
pub proof fn law_setfl_sets_waiting<D, M: Memory>(args: &SyscallArgs, fds: &mut FdTable, net: &mut NetStateInner<D>, um: &mut M, r: i64)
    requires
        call_ensures(sys_fcntl::<D, M>, (args, fds, net, um), r),
        args.arg1 as i32 == 4,
        is_open(old(fds)@, args.arg0 as int),
    ensures
        ({
            let a = old(fds)@;
            let b = final(fds)@;
            let x = a[args.arg0 as int]->0;
            let y = b[args.arg0 as int]->0;
            &&& b.len() == a.len()
            &&& is_open(b, args.arg0 as int)
            &&& same_elsewhere(a, b, args.arg0 as int)
            &&& y.kind == x.kind
            &&& y.flags & 0x800 == args.arg2 as u32 & 0x800
            &&& y.flags & 0xffff_f7ff == x.flags & 0xffff_f7ff
            &&& mem(final(um)) == mem(old(um))
            &&& match x.kind {
                FdKind::Socket { id } => {
                    let o = old(net)@.socktab[id as int];
                    let p = final(net)@.socktab[id as int];
                    id < old(net)@.socktab.len() && o is Some ==> r == 0 && p is Some && p->0.nonblocking == (args.arg2 as u32 & 0x800 != 0)
                        && p->0.role == o->0.role && p->0.handle == o->0.handle && p->0.backlog == o->0.backlog
                },
                _ => r == 0 && final(net)@ == old(net)@,
            }
        }),
{
    let f = (old(fds)@[args.arg0 as int]->0).flags;
    let w = args.arg2 as u32;
    assert(((f & !0x800) | (w & 0x800)) & 0x800 == w & 0x800 && ((f & !0x800) | (w & 0x800)) & 0xffff_f7ff == f & 0xffff_f7ff)
        by (bit_vector);
}

/// Asking for the flags gives them; asking for a duplicate gives one; neither changes anything else.
pub proof fn law_fcntl_asks<D, M: Memory>(args: &SyscallArgs, fds: &mut FdTable, net: &mut NetStateInner<D>, um: &mut M, r: i64)
    requires
        call_ensures(sys_fcntl::<D, M>, (args, fds, net, um), r),
        old(fds)@.len() < i64::MAX,
    ensures
        ({
            let a = old(fds)@;
            let b = final(fds)@;
            let cmd = args.arg1 as i32;
            let open = is_open(a, args.arg0 as int);
            let rest = final(net)@ == old(net)@ && mem(final(um)) == mem(old(um));
            &&& !open ==> r == -9 && b == a && rest
            &&& open && cmd == 3 ==> r == (a[args.arg0 as int]->0).flags && b == a && rest
            &&& open && (cmd == 0 || cmd == 1030) ==> opened(a, b, r as int, a[args.arg0 as int]->0) && rest
            &&& open && (cmd == 1 || cmd == 2) ==> r == 0 && b == a && rest
        }),
{
    law_lowest_free(old(fds)@, 0);
}

/// The two descriptors of a new pipe: the one told first is for reading, the one told second for writing, and both are of the
/// same pipe, which is new, empty, and open at both ends.
pub open spec fn pipe_made(
    a: Seq<Option<FileDescriptor>>,
    b: Seq<Option<FileDescriptor>>,
    p: Seq<Option<Pipe>>,
    q: Seq<Option<Pipe>>,
    rd: int,
    wr: int,
    flags: u32,
) -> bool {
    &&& !is_open(a, rd) && !is_open(a, wr) && 0 <= rd < wr
    &&& forall|k: int| 0 <= k < wr && k != rd ==> is_open(a, k)
    &&& is_open(b, rd) && is_open(b, wr)
    &&& b[rd]->0.kind matches FdKind::Pipe { id, write_end }
    &&& b[wr]->0.kind == FdKind::Pipe { id, write_end: true }
    &&& !write_end
    &&& b[rd]->0.flags == flags & 0x800 && b[wr]->0.flags == flags & 0x800
    &&& forall|k: int| 0 <= k < a.len() && k != rd && k != wr ==> #[trigger] b[k] == a[k]
    &&& id < q.len() && q[id as int] is Some
    &&& (q[id as int]->0).buf.len() == 0 && (q[id as int]->0).readers == 1 && (q[id as int]->0).writers == 1
    &&& id < p.len() ==> p[id as int] is None
    &&& forall|k: int| 0 <= k < p.len() && k != id ==> #[trigger] q[k] == p[k]
}

/// A new pipe has two descriptors, whose numbers the user finds in memory, the one for reading first.
pub proof fn law_pipe_has_two_ends<D, M: Memory>(args: &SyscallArgs, fds: &mut FdTable, net: &mut NetStateInner<D>, um: &mut M, r: i64)
    requires
        call_ensures(sys_pipe2::<D, M>, (args, fds, net, um), r),
        args.arg0 != 0 ==> within(old(um), args.arg0 as int, 8),
        old(fds)@.len() < u32::MAX - 2,
        old(net)@.pipetab.len() < u32::MAX,
    ensures
        ({
            let rd = u32_at(final(um), args.arg0 as int);
            let wr = u32_at(final(um), args.arg0 + 4);
            let ok = args.arg0 != 0 && args.arg1 as u32 & !0x8_0800u32 == 0;
            &&& ok ==> r == 0 && pipe_made(old(fds)@, final(fds)@, old(net)@.pipetab, final(net)@.pipetab, rd, wr, args.arg1 as u32)
            &&& !ok ==> r < 0 && final(fds)@ == old(fds)@ && final(net)@ == old(net)@ && mem(final(um)) == mem(old(um))
        }),
{
    let flags = args.arg1 as u32;
    assert(0x800u32 | 0x8_0000 == 0x8_0800) by (bit_vector);
    if args.arg0 != 0 && flags & !0x8_0800u32 == 0 {
        lemma_piped(old(fds)@, old(net)@, mem(old(um)), args.arg0, flags, final(um));
    }
}

/// Like a pipe without flags.
pub proof fn law_plain_pipe_has_two_ends<D, M: Memory>(
    args: &SyscallArgs,
    fds: &mut FdTable,
    net: &mut NetStateInner<D>,
    um: &mut M,
    r: i64,
)
    requires
        call_ensures(sys_pipe::<D, M>, (args, fds, net, um), r),
        args.arg0 != 0,
        within(old(um), args.arg0 as int, 8),
        old(fds)@.len() < u32::MAX - 2,
        old(net)@.pipetab.len() < u32::MAX,
    ensures
        ({
            let rd = u32_at(final(um), args.arg0 as int);
            let wr = u32_at(final(um), args.arg0 + 4);
            r == 0 && pipe_made(old(fds)@, final(fds)@, old(net)@.pipetab, final(net)@.pipetab, rd, wr, 0)
        }),
{
    assert(0u32 & !0x8_0800u32 == 0 && 0x800u32 | 0x8_0000 == 0x8_0800) by (bit_vector);
    lemma_piped(old(fds)@, old(net)@, mem(old(um)), args.arg0, 0, final(um));
}

proof fn lemma_piped<M: Memory>(
    fds: Seq<Option<FileDescriptor>>,
    n: crate::net::state::Net,
    m: crate::memory::access::Mem,
    ptr: u64,
    flags: u32,
    after: &M,
)
    requires
        ptr != 0,
        flags & !(0x800u32 | 0x8_0000) == 0,
        m.base <= ptr && ptr + 8 <= m.base + m.bytes.len(),
        fds.len() < u32::MAX - 2,
        n.pipetab.len() < u32::MAX,
        mem(after) == crate::syscall::handlers::io::piped(fds, n, m, ptr, flags).3,
    ensures
        ({
            let x = crate::syscall::handlers::io::piped(fds, n, m, ptr, flags);
            x.0 == 0 && pipe_made(fds, x.1, n.pipetab, x.2.pipetab, u32_at(after, ptr as int), u32_at(after, ptr + 4), flags)
        }),
{
    let rd = lowest_free(fds, 0);
    law_lowest_free(fds, 0);
    let mid = crate::fs::fd_table::with_fd(
        fds,
        rd,
        crate::syscall::handlers::io::pipe_desc(lowest_slot(n.pipetab, 0) as usize, false, flags),
    );
    let wr = lowest_free(mid, 0);
    law_lowest_free(mid, 0);
    law_lowest_slot(n.pipetab, 0);
    assert(is_open(mid, rd));
    assert(wr > rd) by {
        if wr < rd {
            assert(is_open(fds, wr));
            assert(mid[wr] == fds[wr]);
        }
    }
    assert forall|k: int| 0 <= k < wr && k != rd implies is_open(fds, k) by {
        assert(mid[k] is Some);
    }
    let m1 = m.stored(ptr as int, le32(rd as u32));
    let m2 = m1.stored(ptr + 4, le32(wr as u32));
    let (x, y) = (le32(rd as u32), le32(wr as u32));
    let o = ptr - m.base;
    assert(m2.bytes[o] == x[0] && m2.bytes[o + 1] == x[1] && m2.bytes[o + 2] == x[2] && m2.bytes[o + 3] == x[3]);
    assert(m2.bytes[o + 4] == y[0] && m2.bytes[o + 5] == y[1] && m2.bytes[o + 6] == y[2] && m2.bytes[o + 7] == y[3]);
    crate::memory::access::law_le32_round_trip(rd as u32);
    crate::memory::access::law_le32_round_trip(wr as u32);
    assert(after.bytes() == m2.bytes && after.base() == m.base);
    assert(u32_at(after, ptr as int) == rd);
    assert(u32_at(after, ptr + 4) == wr);
}

/// Syncing a file asks the host to sync that file, with or without what describes it, and says what the host says.
pub proof fn law_sync_asks_the_host<C: FuseClient>(args: &SyscallArgs, fds: &FdTable, fs: &mut Fs<C>, r: i64)
    requires
        call_ensures(sys_fsync::<C>, (args, fds, fs), r),
    ensures
        sync_asked(fds@, args.arg0, since(old(fs).log(), final(fs).log()), false, r),
{
}

/// Syncing the data of a file likewise.
pub proof fn law_data_sync_asks_the_host<C: FuseClient>(args: &SyscallArgs, fds: &FdTable, fs: &mut Fs<C>, r: i64)
    requires
        call_ensures(sys_fdatasync::<C>, (args, fds, fs), r),
    ensures
        sync_asked(fds@, args.arg0, since(old(fs).log(), final(fs).log()), true, r),
{
}

/// The host was asked once to sync the file at `fd`, and `r` is what it says; for nothing else is it asked.
pub open spec fn sync_asked(fds: Seq<Option<FileDescriptor>>, fd: u64, t: Seq<FsEvent>, data_only: bool, r: i64) -> bool {
    let kind = (fds[fd as int]->0).kind;
    &&& !is_open(fds, fd as int) ==> r == -9 && t.len() == 0
    &&& is_open(fds, fd as int) && !(kind is File) ==> t.len() == 0 && (kind is Directory || kind is Console <==> r == 0)
    &&& is_open(fds, fd as int) && kind is File ==> t.len() == 1 && (t[0] matches FsEvent::Fsync { fh, datasync, reply } && datasync
        == data_only && kind == (FdKind::File {
        fuse_fh: fh,
        fuse_nodeid: kind->File_fuse_nodeid,
        offset: kind->File_offset,
        size: kind->File_size,
    }) && (reply is Ok ==> r == 0) && (reply matches Err(e) ==> r == e))
}

} // verus!
