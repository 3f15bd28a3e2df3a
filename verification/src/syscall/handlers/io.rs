//! Reading and writing through descriptors.

use vstd::prelude::*;

use super::fs::{opened_path, sys_openat};
use super::net::{sock_read, sock_transfer, sock_write};
use super::path::{path_readable, user_path, Cwd};
use super::transfer::{fs_transfer_chunked, host_filled, transferred, wrapped, Direction, Through};
use crate::address::PhysicalAddr;
use crate::console::{continues, used, Console, TermEvent, Terminal};
use crate::fs::client::{extends, since, Fs, FsEvent, FuseClient};
use crate::fs::fd_table::{count_refs, lookup, lowest_free, with_fd, FdKind, FdTable, FileDescriptor};
use crate::memory::access::{le32, mem, range, reachable, read_bytes, write_bytes, write_u32, Mem, Memory};
use crate::memory::page_table::{PageEntry, PageTable};
use crate::net::device::{Poll, PollDevice};
use crate::net::socket::{Sock, SOCK_CLOEXEC, SOCK_NONBLOCK};
use crate::net::state::{advanced_at, joint_wf, lemma_sock_changed, lowest_slot, socket_closed, with_new, Net, NetStateInner};
use crate::net::pipe::new_pipe;
use crate::net::stream::{
    close_epoll, close_pipe, close_socket, epoll_closed, pipe_closed, pipe_create, pipe_read, pipe_write,
    polled_sys, started, sys, StreamOp, Sys,
};
use crate::sched::scheduler::{active, Scheduler};
use crate::syscall::args::SyscallArgs;
use crate::syscall::blocking::{call_of, into_call, Again, Call};
use crate::syscall::errno::{EBADF, EFAULT, EINVAL, EIO, ENOSYS, ENOTTY, EOPNOTSUPP, ESPIPE};
use crate::time::Clock;

verus! {

broadcast use {crate::fs::client::group_log, crate::console::group_console, crate::net::state::group_advanced};

pub const O_NONBLOCK: u32 = SOCK_NONBLOCK;

pub const O_CLOEXEC: u32 = SOCK_CLOEXEC;

/// The descriptor of a file after `n` bytes were moved at its offset. Writing past the end makes the file longer.
pub open spec fn after_move(d: FileDescriptor, dir: Direction, n: u32) -> FileDescriptor {
    match d.kind {
        FdKind::File { fuse_fh, fuse_nodeid, offset, size } => {
            let to = wrapped(offset, n as u64);
            FileDescriptor {
                kind: FdKind::File { fuse_fh, fuse_nodeid, offset: to, size: if dir is Write && to > size { to } else { size } },
                ..d
            }
        },
        _ => d,
    }
}

/// What moving bytes of file `d` at its offset asks of the host, and what comes of it.
pub open spec fn file_moved(
    dir: Direction,
    d: FileDescriptor,
    fd: u64,
    mappings: Map<u64, PageEntry>,
    vaddr: u64,
    count: u32,
    t: Seq<FsEvent>,
    r: i64,
    before: Seq<Option<FileDescriptor>>,
    after: Seq<Option<FileDescriptor>>,
) -> bool {
    d.kind matches FdKind::File { fuse_fh, offset, .. } && exists|res: Result<u32, i32>| #[trigger]
        transferred(dir, fuse_fh, mappings, offset, vaddr, count, 0, t, res) && match res {
            Ok(n) => r == n && after == before.update(fd as int, Some(after_move(d, dir, n))),
            Err(e) => r == e && after == before,
        }
}

/// Moves bytes of a file at its offset.
fn move_file<C: FuseClient, P: PageTable, M: Memory>(
    fds: &mut FdTable,
    fs: &mut Fs<C>,
    pt: &P,
    um: &mut M,
    dir: Direction,
    fd: u64,
    vaddr: u64,
    count: u32,
) -> (r: i64)
    requires
        lookup(old(fds)@, fd) matches Some(d) && d.kind is File,
    ensures
        extends(old(fs).log(), final(fs).log()),
        file_moved(
            dir,
            lookup(old(fds)@, fd)->0,
            fd,
            pt.mappings(),
            vaddr,
            count,
            since(old(fs).log(), final(fs).log()),
            r,
            old(fds)@,
            final(fds)@,
        ),
        host_filled(Through::User, pt.mappings(), mem(old(um)), mem(final(um)), since(old(fs).log(), final(fs).log())),
        dir is Write ==> mem(final(um)) == mem(old(um)),
{
    if let Some(d) = fds.get(fd) {
        if let FdKind::File { fuse_fh, fuse_nodeid, offset, size } = d.kind {
            let res = fs_transfer_chunked(fs, pt, um, Through::User, dir, fuse_fh, offset, vaddr, count);
            return match res {
                Ok(n) => {
                    let to: u64 = offset.wrapping_add(n as u64);
                    let grown: u64 = match dir {
                        Direction::Write => if to > size { to } else { size },
                        Direction::Read => size,
                    };
                    fds.set(
                        fd,
                        FileDescriptor { kind: FdKind::File { fuse_fh, fuse_nodeid, offset: to, size: grown }, flags: d.flags },
                    );
                    n as i64
                },
                Err(e) => e as i64,
            };
        }
    }
    EBADF
}

/// The number of bytes to move at once.
pub open spec fn count_of(n: u64) -> u32 {
    if n < u32::MAX { n as u32 } else { u32::MAX }
}

/// The buffer of a read or write is the kernel's business, and there is something in it.
pub open spec fn buffered(kind: FdKind, n: Net, addr: u64, writes: bool) -> bool {
    match kind {
        FdKind::Socket { id } => addr != 0 && n.sock(id as int) is Some,
        FdKind::Pipe { write_end, .. } => write_end == writes,
        FdKind::Console => true,
        _ => false,
    }
}

/// Reads through a descriptor. The bytes of a file reach the user's memory by the host's own means: no other byte of it changes.
pub fn sys_read<C: FuseClient, P: PageTable, D: PollDevice, M: Memory, T: Terminal>(
    args: &SyscallArgs,
    fds: &mut FdTable,
    fs: &mut Fs<C>,
    pt: &P,
    net: &mut NetStateInner<D>,
    sched: &mut Scheduler,
    um: &mut M,
    console: &mut Console<T>,
    c: u32,
    clock: &Clock,
    tsc: u64,
) -> (r: Call)
    requires
        joint_wf(old(net)@, old(sched)@),
        active(old(sched)@, c as int),
        lookup(old(fds)@, args.arg0) matches Some(d) ==> (count_of(args.arg2) > 0 && buffered(d.kind, old(net)@, args.arg1, false)
            ==> reachable(old(um), args.arg1, count_of(args.arg2) as int)),
    ensures
        advanced_at(old(net)@.polls, final(net)@.polls, *clock, tsc),
        extends(old(fs).log(), final(fs).log()),
        continues(old(console).log(), final(console).log()),
        ({
            let s = sys(old(net)@, old(sched)@);
            let u = sys(final(net)@, final(sched)@);
            let m = mem(old(um));
            let t = since(old(fs).log(), final(fs).log());
            let e = used(old(console).log(), final(console).log());
            let q = final(net)@.polls;
            let addr = args.arg1;
            let count = count_of(args.arg2);
            let len = count as u64;
            let idle = u == s && mem(final(um)) == m;
            match lookup(old(fds)@, args.arg0) {
                None => r == Call::Return(EBADF) && idle && t.len() == 0 && e.len() == 0 && final(fds)@ == old(fds)@,
                Some(d) => match d.kind {
                    FdKind::Socket { id } => (r, u, mem(final(um))) == sock_transfer(
                        s,
                        m,
                        id,
                        (StreamOp::Recv { id, addr, len }),
                        q,
                        c as int,
                    ) && t.len() == 0 && e.len() == 0 && final(fds)@ == old(fds)@,
                    FdKind::Pipe { id, write_end } => t.len() == 0 && e.len() == 0 && final(fds)@ == old(fds)@ && if write_end {
                        r == Call::Return(EBADF) && idle
                    } else {
                        let op = StreamOp::PipeRead { id, addr, len };
                        let w = started(s, m, op, d.flags & O_NONBLOCK != 0, q, c as int);
                        r == call_of(w.ret, Again::Stream(op)) && u == w.sys && mem(final(um)) == w.mem
                    },
                    FdKind::Console => t.len() == 0 && final(fds)@ == old(fds)@ && u == s && e.len() == 1 && (e[0] matches TermEvent::Read {
                        max,
                        got,
                    } && max == len && r == Call::Return(got.len() as i64) && mem(final(um)) == m.stored(addr as int, got)),
                    FdKind::File { .. } => e.len() == 0 && u == s && host_filled(
                        Through::User,
                        pt.mappings(),
                        m,
                        mem(final(um)),
                        t,
                    ) && (r matches Call::Return(v) && file_moved(
                        Direction::Read,
                        d,
                        args.arg0,
                        pt.mappings(),
                        addr,
                        count,
                        t,
                        v,
                        old(fds)@,
                        final(fds)@,
                    )),
                    _ => r == Call::Return(EBADF) && idle && t.len() == 0 && e.len() == 0 && final(fds)@ == old(fds)@,
                },
            }
        }),
        joint_wf(final(net)@, final(sched)@),
        r is Return ==> active(final(sched)@, c as int),
{
    assert(extends(old(fs).log(), fs.log()));
    assert(continues(old(console).log(), console.log()));
    let addr: u64 = args.arg1;
    let count: u32 = if args.arg2 < u32::MAX as u64 { args.arg2 as u32 } else { u32::MAX };
    let len: u64 = count as u64;
    let desc = match fds.get(args.arg0) {
        Some(d) => d,
        None => {
            return Call::Return(EBADF);
        },
    };
    match desc.kind {
        FdKind::Socket { id } => sock_read(net, sched, um, id, addr, len, c, clock, tsc),
        FdKind::Pipe { id, write_end } => {
            if write_end {
                return Call::Return(EBADF);
            }
            let p = pipe_read(net, sched, um, id, addr, len, desc.flags & O_NONBLOCK != 0, c, clock, tsc);
            into_call(p, Again::Stream(StreamOp::PipeRead { id, addr, len }))
        },
        FdKind::Console => {
            let got = console.read(len);
            if got.len() > 0 {
                write_bytes(um, addr, got.as_slice());
            } else {
                assert(mem(um) =~= mem(um).stored(addr as int, got@));
            }
            Call::Return(got.len() as i64)
        },
        FdKind::File { .. } => Call::Return(move_file(fds, fs, pt, um, Direction::Read, args.arg0, addr, count)),
        _ => Call::Return(EBADF),
    }
}

/// Writes through a descriptor. The bytes of a file reach the host by its own means.
pub fn sys_write<C: FuseClient, P: PageTable, D: PollDevice, M: Memory, T: Terminal>(
    args: &SyscallArgs,
    fds: &mut FdTable,
    fs: &mut Fs<C>,
    pt: &P,
    net: &mut NetStateInner<D>,
    sched: &mut Scheduler,
    um: &mut M,
    console: &mut Console<T>,
    c: u32,
    clock: &Clock,
    tsc: u64,
) -> (r: Call)
    requires
        joint_wf(old(net)@, old(sched)@),
        active(old(sched)@, c as int),
        lookup(old(fds)@, args.arg0) matches Some(d) ==> (count_of(args.arg2) > 0 && buffered(d.kind, old(net)@, args.arg1, true)
            ==> reachable(old(um), args.arg1, count_of(args.arg2) as int)),
    ensures
        advanced_at(old(net)@.polls, final(net)@.polls, *clock, tsc),
        extends(old(fs).log(), final(fs).log()),
        continues(old(console).log(), final(console).log()),
        ({
            let s = sys(old(net)@, old(sched)@);
            let u = sys(final(net)@, final(sched)@);
            let m = mem(old(um));
            let t = since(old(fs).log(), final(fs).log());
            let e = used(old(console).log(), final(console).log());
            let q = final(net)@.polls;
            let addr = args.arg1;
            let count = count_of(args.arg2);
            let len = count as u64;
            let idle = u == s && mem(final(um)) == m;
            match lookup(old(fds)@, args.arg0) {
                None => r == Call::Return(EBADF) && idle && t.len() == 0 && e.len() == 0 && final(fds)@ == old(fds)@,
                Some(d) => match d.kind {
                    FdKind::Socket { id } => (r, u, mem(final(um))) == sock_transfer(
                        s,
                        m,
                        id,
                        (StreamOp::Send { id, addr, len }),
                        q,
                        c as int,
                    ) && t.len() == 0 && e.len() == 0 && final(fds)@ == old(fds)@,
                    FdKind::Pipe { id, write_end } => t.len() == 0 && e.len() == 0 && final(fds)@ == old(fds)@ && if !write_end {
                        r == Call::Return(EBADF) && idle
                    } else {
                        let op = StreamOp::PipeWrite { id, addr, len };
                        let w = started(s, m, op, d.flags & O_NONBLOCK != 0, q, c as int);
                        r == call_of(w.ret, Again::Stream(op)) && u == w.sys && mem(final(um)) == w.mem
                    },
                    FdKind::Console => t.len() == 0 && final(fds)@ == old(fds)@ && idle && e.len() == 1 && (e[0] matches TermEvent::Write {
                        data,
                        taken,
                    } && data == (if len > 0 { m.range(addr as int, len as int) } else { Seq::empty() }) && r == Call::Return(
                        taken as i64,
                    )),
                    FdKind::File { .. } => e.len() == 0 && idle && (r matches Call::Return(v) && file_moved(
                        Direction::Write,
                        d,
                        args.arg0,
                        pt.mappings(),
                        addr,
                        count,
                        t,
                        v,
                        old(fds)@,
                        final(fds)@,
                    )),
                    _ => r == Call::Return(EBADF) && idle && t.len() == 0 && e.len() == 0 && final(fds)@ == old(fds)@,
                },
            }
        }),
        joint_wf(final(net)@, final(sched)@),
        r is Return ==> active(final(sched)@, c as int),
{
    assert(extends(old(fs).log(), fs.log()));
    assert(continues(old(console).log(), console.log()));
    let addr: u64 = args.arg1;
    let count: u32 = if args.arg2 < u32::MAX as u64 { args.arg2 as u32 } else { u32::MAX };
    let len: u64 = count as u64;
    let desc = match fds.get(args.arg0) {
        Some(d) => d,
        None => {
            return Call::Return(EBADF);
        },
    };
    match desc.kind {
        FdKind::Socket { id } => sock_write(net, sched, um, id, addr, len, c, clock, tsc),
        FdKind::Pipe { id, write_end } => {
            if !write_end {
                return Call::Return(EBADF);
            }
            let p = pipe_write(net, sched, um, id, addr, len, desc.flags & O_NONBLOCK != 0, c, clock, tsc);
            into_call(p, Again::Stream(StreamOp::PipeWrite { id, addr, len }))
        },
        FdKind::Console => {
            let data = if len > 0 { read_bytes(um, addr, len) } else { Vec::new() };
            let taken = console.write(data.as_slice());
            Call::Return(
                #[verifier::truncate]
                (taken as i64),
            )
        },
        FdKind::File { .. } => Call::Return(move_file(fds, fs, pt, um, Direction::Write, args.arg0, addr, count)),
        _ => Call::Return(EBADF),
    }
}

/// Opens a file from the working directory.
pub fn sys_open<C: FuseClient, M: Memory>(args: &SyscallArgs, fds: &mut FdTable, fs: &mut Fs<C>, um: &M, cwd: &Cwd) -> (r: i64)
    requires
        path_readable(mem(um), args.arg0),
    ensures
        extends(old(fs).log(), final(fs).log()),
        match user_path(mem(um), args.arg0, cwd@, false) {
            Err(e) => r == e && final(fs).log() == old(fs).log() && final(fds)@ == old(fds)@,
            Ok(path) => opened_path(
                true,
                path,
                args.arg1 as u32,
                args.arg2 as u32,
                since(old(fs).log(), final(fs).log()),
                r,
                old(fds)@,
                final(fds)@,
            ),
        },
{
    let at: u64 = 0xffff_ffff_ffff_ff9c;
    assert(0xffff_ffff_ffff_ff9cu64 as i32 == -100i32) by (bit_vector);
    let openat_args = SyscallArgs {
        nr: 257,
        arg0: at,
        arg1: args.arg0,
        arg2: args.arg1,
        arg3: args.arg2,
        arg4: 0,
        arg5: 0,
        caller_rip: args.caller_rip,
        caller_rflags: args.caller_rflags,
    };
    sys_openat(&openat_args, fds, fs, um, cwd)
}

/// What the host is told when the last descriptor of a file is closed.
pub open spec fn release_events(kind: FdKind) -> Seq<FsEvent> {
    match kind {
        FdKind::File { fuse_fh, fuse_nodeid, .. } => seq![
            FsEvent::Release { fh: fuse_fh },
            FsEvent::Forget { nodeid: fuse_nodeid, lookups: 1 },
        ],
        FdKind::Directory { fuse_fh, fuse_nodeid, .. } => seq![
            FsEvent::ReleaseDir { fh: fuse_fh },
            FsEvent::Forget { nodeid: fuse_nodeid, lookups: 1 },
        ],
        _ => seq![],
    }
}

/// Network and scheduler after the last descriptor of an object was closed.
pub open spec fn torn_down(s: Sys, kind: FdKind, q: Seq<Poll>, c: int) -> Sys {
    match kind {
        FdKind::Socket { id } => polled_sys(
            Sys { net: socket_closed(s.net, id as int), ..s },
            q[s.net.polls.len() as int],
            c,
        ),
        FdKind::Epoll { id } => Sys { net: epoll_closed(s.net, id as int), ..s },
        FdKind::Pipe { id, write_end } => pipe_closed(s, id as int, write_end, q, c),
        _ => s,
    }
}

/// Gives back what the last descriptor of an object stood for.
fn tear_down<C: FuseClient, D: PollDevice>(
    fs: &mut Fs<C>,
    net: &mut NetStateInner<D>,
    sched: &mut Scheduler,
    kind: FdKind,
    c: u32,
    clock: &Clock,
    tsc: u64,
)
    requires
        joint_wf(old(net)@, old(sched)@),
        active(old(sched)@, c as int),
    ensures
        advanced_at(old(net)@.polls, final(net)@.polls, *clock, tsc),
        extends(old(fs).log(), final(fs).log()),
        since(old(fs).log(), final(fs).log()) == release_events(kind),
        sys(final(net)@, final(sched)@) == torn_down(sys(old(net)@, old(sched)@), kind, final(net)@.polls, c as int),
        joint_wf(final(net)@, final(sched)@),
        active(final(sched)@, c as int),
{
    assert(extends(old(fs).log(), fs.log()));
    let ghost n = net@;
    match kind {
        FdKind::Socket { id } => {
            close_socket(net, sched, id, c, clock, tsc);
            proof {
                crate::net::state::lemma_socket_closed_keeps(n, id as int);
            }
        },
        FdKind::Epoll { id } => {
            close_epoll(net, id);
        },
        FdKind::Pipe { id, write_end } => {
            close_pipe(net, sched, id, write_end, c, clock, tsc);
        },
        FdKind::File { fuse_fh, fuse_nodeid, .. } => {
            fs.release(fuse_fh);
            fs.forget(fuse_nodeid, 1);
        },
        FdKind::Directory { fuse_fh, fuse_nodeid, .. } => {
            fs.releasedir(fuse_fh);
            fs.forget(fuse_nodeid, 1);
        },
        FdKind::Console => {},
    }
    assert(since(old(fs).log(), fs.log()) =~= release_events(kind));
}

/// No descriptor of the table refers to the same object as `kind`.
pub open spec fn is_last(fds: Seq<Option<FileDescriptor>>, kind: FdKind) -> bool {
    count_refs(fds, kind, fds.len() as int) == 0
}

/// Closes a descriptor. What it stood for is given back with the last descriptor of it.
pub fn sys_close<C: FuseClient, D: PollDevice>(
    args: &SyscallArgs,
    fds: &mut FdTable,
    fs: &mut Fs<C>,
    net: &mut NetStateInner<D>,
    sched: &mut Scheduler,
    c: u32,
    clock: &Clock,
    tsc: u64,
) -> (r: i64)
    requires
        joint_wf(old(net)@, old(sched)@),
        active(old(sched)@, c as int),
    ensures
        advanced_at(old(net)@.polls, final(net)@.polls, *clock, tsc),
        extends(old(fs).log(), final(fs).log()),
        ({
            let s = sys(old(net)@, old(sched)@);
            let u = sys(final(net)@, final(sched)@);
            let t = since(old(fs).log(), final(fs).log());
            match lookup(old(fds)@, args.arg0) {
                None => r == EBADF && u == s && t.len() == 0 && final(fds)@ == old(fds)@,
                Some(d) => {
                    &&& r == 0
                    &&& final(fds)@ == old(fds)@.update(args.arg0 as int, None)
                    &&& is_last(final(fds)@, d.kind) ==> u == torn_down(s, d.kind, final(net)@.polls, c as int) && t
                        == release_events(d.kind)
                    &&& !is_last(final(fds)@, d.kind) ==> u == s && t.len() == 0
                },
            }
        }),
        joint_wf(final(net)@, final(sched)@),
        active(final(sched)@, c as int),
{
    assert(extends(old(fs).log(), fs.log()));
    let desc = match fds.free(args.arg0) {
        Some(d) => d,
        None => {
            assert(fds@ =~= old(fds)@);
            return EBADF;
        },
    };
    let refs = fds.count_refs(&desc.kind);
    if refs == 0 {
        tear_down(fs, net, sched, desc.kind, c, clock, tsc);
    }
    0
}

/// Copies a descriptor to the lowest free one.
pub fn sys_dup(args: &SyscallArgs, fds: &mut FdTable) -> (r: i64)
    ensures
        match lookup(old(fds)@, args.arg0) {
            None => r == EBADF && final(fds)@ == old(fds)@,
            Some(d) => {
                let fd = lowest_free(old(fds)@, 0);
                r == fd as i64 && final(fds)@ == with_fd(old(fds)@, fd, d)
            },
        },
{
    let desc = match fds.get(args.arg0) {
        Some(d) => d,
        None => {
            return EBADF;
        },
    };
    let fd = fds.allocate(desc);
    #[verifier::truncate]
    (fd as i64)
}

/// Copies a descriptor to another, which is closed if it was open.
pub fn sys_dup2<C: FuseClient, D: PollDevice>(
    args: &SyscallArgs,
    fds: &mut FdTable,
    fs: &mut Fs<C>,
    net: &mut NetStateInner<D>,
    sched: &mut Scheduler,
    c: u32,
    clock: &Clock,
    tsc: u64,
) -> (r: i64)
    requires
        joint_wf(old(net)@, old(sched)@),
        active(old(sched)@, c as int),
        args.arg0 != args.arg1 && lookup(old(fds)@, args.arg0) is Some ==> args.arg1 < usize::MAX,
    ensures
        advanced_at(old(net)@.polls, final(net)@.polls, *clock, tsc),
        extends(old(fs).log(), final(fs).log()),
        ({
            let s = sys(old(net)@, old(sched)@);
            let u = sys(final(net)@, final(sched)@);
            let t = since(old(fs).log(), final(fs).log());
            match lookup(old(fds)@, args.arg0) {
                None => r == EBADF && u == s && t.len() == 0 && final(fds)@ == old(fds)@,
                Some(d) => {
                    &&& r == args.arg1 as i64
                    &&& final(fds)@ == (if args.arg0 == args.arg1 {
                        old(fds)@
                    } else {
                        with_fd(old(fds)@, args.arg1 as int, d)
                    })
                    &&& match lookup(old(fds)@, args.arg1) {
                        Some(o) => if args.arg0 != args.arg1 && is_last(final(fds)@, o.kind) {
                            u == torn_down(s, o.kind, final(net)@.polls, c as int) && t == release_events(o.kind)
                        } else {
                            u == s && t.len() == 0
                        },
                        None => u == s && t.len() == 0,
                    }
                },
            }
        }),
        joint_wf(final(net)@, final(sched)@),
        active(final(sched)@, c as int),
{
    assert(extends(old(fs).log(), fs.log()));
    let desc = match fds.get(args.arg0) {
        Some(d) => d,
        None => {
            return EBADF;
        },
    };
    let new_fd: i64 = #[verifier::truncate]
    (args.arg1 as i64);
    if args.arg0 == args.arg1 {
        return new_fd;
    }
    if let Some(evicted) = fds.put(args.arg1, desc) {
        let refs = fds.count_refs(&evicted.kind);
        if refs == 0 {
            tear_down(fs, net, sched, evicted.kind, c, clock, tsc);
        }
    }
    new_fd
}

pub const SEEK_SET: u64 = 0;

pub const SEEK_CUR: u64 = 1;

pub const SEEK_END: u64 = 2;

/// The descriptor of a file with another offset.
pub open spec fn with_offset(d: FileDescriptor, to: u64) -> FileDescriptor {
    match d.kind {
        FdKind::File { fuse_fh, fuse_nodeid, size, .. } => FileDescriptor {
            kind: FdKind::File { fuse_fh, fuse_nodeid, offset: to, size },
            ..d
        },
        _ => d,
    }
}

/// An offset was set, unless it is negative.
pub open spec fn sought(
    fds: Seq<Option<FileDescriptor>>,
    fd: u64,
    d: FileDescriptor,
    to: i64,
    r: i64,
    after: Seq<Option<FileDescriptor>>,
) -> bool {
    if to < 0 {
        r == EINVAL && after == fds
    } else {
        r == to && after == fds.update(fd as int, Some(with_offset(d, to as u64)))
    }
}

/// Sets the offset of a file, from its start, from where it is, or from the file's end.
pub fn sys_lseek<C: FuseClient>(args: &SyscallArgs, fds: &mut FdTable, fs: &mut Fs<C>) -> (r: i64)
    ensures
        extends(old(fs).log(), final(fs).log()),
        ({
            let t = since(old(fs).log(), final(fs).log());
            let off = args.arg1 as i64;
            let unchanged = t.len() == 0 && final(fds)@ == old(fds)@;
            match lookup(old(fds)@, args.arg0) {
                None => r == EBADF && unchanged,
                Some(d) => match d.kind {
                    FdKind::Console => r == ESPIPE && unchanged,
                    FdKind::File { fuse_nodeid, offset, .. } => if args.arg2 == SEEK_SET {
                        t.len() == 0 && sought(old(fds)@, args.arg0, d, off, r, final(fds)@)
                    } else if args.arg2 == SEEK_CUR {
                        t.len() == 0 && sought(old(fds)@, args.arg0, d, (offset as i64).wrapping_add(off), r, final(fds)@)
                    } else if args.arg2 == SEEK_END {
                        t.len() == 1 && (t[0] matches FsEvent::GetAttr { nodeid, reply } && nodeid == fuse_nodeid && match reply {
                            Err(e) => r == e && final(fds)@ == old(fds)@,
                            Ok(attr) => sought(
                                old(fds)@,
                                args.arg0,
                                d,
                                (attr.size as i64).wrapping_add(off),
                                r,
                                final(fds)@,
                            ),
                        })
                    } else {
                        r == EINVAL && unchanged
                    },
                    _ => r == EBADF && unchanged,
                },
            }
        }),
{
    assert(extends(old(fs).log(), fs.log()));
    let off: i64 = #[verifier::truncate]
    (args.arg1 as i64);
    let desc = match fds.get(args.arg0) {
        Some(d) => d,
        None => {
            return EBADF;
        },
    };
    let (fuse_fh, fuse_nodeid, offset, size) = match desc.kind {
        FdKind::File { fuse_fh, fuse_nodeid, offset, size } => (fuse_fh, fuse_nodeid, offset, size),
        FdKind::Console => {
            return ESPIPE;
        },
        _ => {
            return EBADF;
        },
    };
    let to: i64 = if args.arg2 == SEEK_SET {
        off
    } else if args.arg2 == SEEK_CUR {
        let cur: i64 = #[verifier::truncate]
        (offset as i64);
        cur.wrapping_add(off)
    } else if args.arg2 == SEEK_END {
        match fs.getattr(fuse_nodeid) {
            Ok(attr) => {
                let end: i64 = #[verifier::truncate]
                (attr.size as i64);
                end.wrapping_add(off)
            },
            Err(e) => {
                return e as i64;
            },
        }
    } else {
        return EINVAL;
    };
    if to < 0 {
        return EINVAL;
    }
    fds.set(
        args.arg0,
        FileDescriptor { kind: FdKind::File { fuse_fh, fuse_nodeid, offset: to as u64, size }, flags: desc.flags },
    );
    to
}

/// Nothing is a terminal.
pub fn sys_ioctl(_args: &SyscallArgs) -> (r: i64)
    ensures
        r == ENOTTY,
{
    ENOTTY
}

/// Moves bytes of a file at a given offset, for reading.
pub fn sys_pread64<C: FuseClient, P: PageTable, M: Memory>(
    args: &SyscallArgs,
    fds: &FdTable,
    fs: &mut Fs<C>,
    pt: &P,
    um: &mut M,
) -> (r: i64)
    ensures
        extends(old(fs).log(), final(fs).log()),
        host_filled(Through::User, pt.mappings(), mem(old(um)), mem(final(um)), since(old(fs).log(), final(fs).log())),
        ({
            let t = since(old(fs).log(), final(fs).log());
            match lookup(fds@, args.arg0) {
                Some(d) => match d.kind {
                    FdKind::File { fuse_fh, .. } => exists|res: Result<u32, i32>| #[trigger]
                        transferred(
                            Direction::Read,
                            fuse_fh,
                            pt.mappings(),
                            args.arg3,
                            args.arg1,
                            args.arg2 as u32,
                            0,
                            t,
                            res,
                        ) && match res {
                            Ok(n) => r == n,
                            Err(e) => r == e,
                        },
                    _ => r == EBADF && t.len() == 0,
                },
                None => r == EBADF && t.len() == 0,
            }
        }),
{
    assert(extends(old(fs).log(), fs.log()));
    let count: u32 = #[verifier::truncate]
    (args.arg2 as u32);
    if let Some(d) = fds.get(args.arg0) {
        if let FdKind::File { fuse_fh, .. } = d.kind {
            return match fs_transfer_chunked(fs, pt, um, Through::User, Direction::Read, fuse_fh, args.arg3, args.arg1, count) {
                Ok(n) => n as i64,
                Err(e) => e as i64,
            };
        }
    }
    EBADF
}

/// The descriptor of a file that reaches at least to `end`.
pub open spec fn grown(d: FileDescriptor, end: u64) -> FileDescriptor {
    match d.kind {
        FdKind::File { fuse_fh, fuse_nodeid, offset, size } => FileDescriptor {
            kind: FdKind::File { fuse_fh, fuse_nodeid, offset, size: if end > size { end } else { size } },
            ..d
        },
        _ => d,
    }
}

/// Moves bytes of a file at a given offset, for writing. The offset of the descriptor stays as it is.
pub fn sys_pwrite64<C: FuseClient, P: PageTable, M: Memory>(
    args: &SyscallArgs,
    fds: &mut FdTable,
    fs: &mut Fs<C>,
    pt: &P,
    um: &mut M,
) -> (r: i64)
    ensures
        extends(old(fs).log(), final(fs).log()),
        mem(final(um)) == mem(old(um)),
        ({
            let t = since(old(fs).log(), final(fs).log());
            match lookup(old(fds)@, args.arg0) {
                Some(d) => match d.kind {
                    FdKind::File { fuse_fh, .. } => exists|res: Result<u32, i32>| #[trigger]
                        transferred(
                            Direction::Write,
                            fuse_fh,
                            pt.mappings(),
                            args.arg3,
                            args.arg1,
                            args.arg2 as u32,
                            0,
                            t,
                            res,
                        ) && match res {
                            Ok(n) => r == n && final(fds)@ == old(fds)@.update(
                                args.arg0 as int,
                                Some(grown(d, wrapped(args.arg3, n as u64))),
                            ),
                            Err(e) => r == e && final(fds)@ == old(fds)@,
                        },
                    _ => r == EBADF && t.len() == 0 && final(fds)@ == old(fds)@,
                },
                None => r == EBADF && t.len() == 0 && final(fds)@ == old(fds)@,
            }
        }),
{
    assert(extends(old(fs).log(), fs.log()));
    let count: u32 = #[verifier::truncate]
    (args.arg2 as u32);
    if let Some(d) = fds.get(args.arg0) {
        if let FdKind::File { fuse_fh, fuse_nodeid, offset, size } = d.kind {
            return match fs_transfer_chunked(fs, pt, um, Through::User, Direction::Write, fuse_fh, args.arg3, args.arg1, count) {
                Ok(n) => {
                    let end: u64 = args.arg3.wrapping_add(n as u64);
                    let size: u64 = if end > size { end } else { size };
                    fds.set(
                        args.arg0,
                        FileDescriptor { kind: FdKind::File { fuse_fh, fuse_nodeid, offset, size }, flags: d.flags },
                    );
                    n as i64
                },
                Err(e) => e as i64,
            };
        }
    }
    EBADF
}

pub const F_DUPFD: i32 = 0;

pub const F_GETFD: i32 = 1;

pub const F_SETFD: i32 = 2;

pub const F_GETFL: i32 = 3;

pub const F_SETFL: i32 = 4;

pub const F_GETLK: i32 = 5;

pub const F_SETLK: i32 = 6;

pub const F_SETLKW: i32 = 7;

pub const F_DUPFD_CLOEXEC: i32 = 1030;

/// The flags of a descriptor after those that may change were set to `wanted`.
pub open spec fn flags_set(flags: u32, wanted: u32) -> u32 {
    (flags & !O_NONBLOCK) | (wanted & O_NONBLOCK)
}

/// What setting the flags of a descriptor comes to. A socket learns whether it may wait.
pub open spec fn setfl_result(fds: Seq<Option<FileDescriptor>>, n: Net, fd: u64, d: FileDescriptor, wanted: u32) -> (
    i64,
    Seq<Option<FileDescriptor>>,
    Net,
) {
    let after = fds.update(fd as int, Some(FileDescriptor { flags: flags_set(d.flags, wanted), ..d }));
    match d.kind {
        FdKind::Socket { id } => match n.sock(id as int) {
            Some(o) => (
                0,
                after,
                n.with_sock(id as int, Some(Sock { nonblocking: wanted & O_NONBLOCK != 0, ..o })),
            ),
            None => (EBADF, after, n),
        },
        _ => (0, after, n),
    }
}

/// Changes or tells something of a descriptor. There are no locks to conflict with, and nothing is closed on exec.
pub fn sys_fcntl<D, M: Memory>(args: &SyscallArgs, fds: &mut FdTable, net: &mut NetStateInner<D>, um: &mut M) -> (r: i64)
    requires
        old(net)@.wf(),
        lookup(old(fds)@, args.arg0) is Some && args.arg1 as i32 == F_GETLK && args.arg2 != 0 ==> reachable(
            old(um),
            args.arg2,
            2,
        ),
    ensures
        ({
            let cmd = args.arg1 as i32;
            let n = old(net)@;
            let m = mem(old(um));
            let same = final(fds)@ == old(fds)@ && final(net)@ == n && mem(final(um)) == m;
            match lookup(old(fds)@, args.arg0) {
                None => r == EBADF && same,
                Some(d) => if cmd == F_SETFL {
                    (r, final(fds)@, final(net)@) == setfl_result(old(fds)@, n, args.arg0, d, args.arg2 as u32) && mem(final(um)) == m
                } else if cmd == F_GETFD || cmd == F_SETFD {
                    r == 0 && same
                } else if cmd == F_GETFL {
                    r == d.flags && same
                } else if cmd == F_GETLK {
                    if args.arg2 == 0 {
                        r == EFAULT && same
                    } else {
                        r == 0 && final(fds)@ == old(fds)@ && final(net)@ == n && mem(final(um)) == m.stored(
                            args.arg2 as int,
                            seq![2u8, 0u8],
                        )
                    }
                } else if cmd == F_SETLK || cmd == F_SETLKW {
                    r == (if args.arg2 == 0 { EFAULT } else { 0 }) && same
                } else if cmd == F_DUPFD || cmd == F_DUPFD_CLOEXEC {
                    let fd = lowest_free(old(fds)@, 0);
                    r == fd as i64 && final(fds)@ == with_fd(old(fds)@, fd, d) && final(net)@ == n && mem(final(um)) == m
                } else {
                    r == EINVAL && same
                },
            }
        }),
        final(net)@.wf(),
{
    let cmd: i32 = #[verifier::truncate]
    (args.arg1 as i32);
    let desc = match fds.get(args.arg0) {
        Some(d) => d,
        None => {
            return EBADF;
        },
    };
    if cmd == F_SETFL {
        let wanted: u32 = #[verifier::truncate]
        (args.arg2 as u32);
        let nonblock: u32 = wanted & O_NONBLOCK;
        fds.set(args.arg0, FileDescriptor { kind: desc.kind, flags: (desc.flags & !O_NONBLOCK) | nonblock });
        if let FdKind::Socket { id } = desc.kind {
            let ghost n = net@;
            match net.socket_get_mut(id) {
                Some(obj) => {
                    obj.nonblocking = nonblock != 0;
                    proof {
                        lemma_sock_changed(n, id as int, obj@);
                    }
                },
                None => {
                    return EBADF;
                },
            }
        }
        0
    } else if cmd == F_GETFD || cmd == F_SETFD {
        0
    } else if cmd == F_GETFL {
        desc.flags as i64
    } else if cmd == F_GETLK {
        if args.arg2 == 0 {
            return EFAULT;
        }
        let unlocked: Vec<u8> = vec![2u8, 0u8];
        assert(unlocked@ =~= seq![2u8, 0u8]);
        write_bytes(um, args.arg2, unlocked.as_slice());
        0
    } else if cmd == F_SETLK || cmd == F_SETLKW {
        if args.arg2 == 0 { EFAULT } else { 0 }
    } else if cmd == F_DUPFD || cmd == F_DUPFD_CLOEXEC {
        let fd = fds.allocate(desc);
        #[verifier::truncate]
        (fd as i64)
    } else {
        EINVAL
    }
}

/// There is no asynchronous input and output.
pub fn sys_io_setup(_args: &SyscallArgs) -> (r: i64)
    ensures
        r == ENOSYS,
{
    ENOSYS
}

/// There is no select.
pub fn sys_select(_args: &SyscallArgs) -> (r: i64)
    ensures
        r == ENOSYS,
{
    ENOSYS
}

pub const FALLOC_FL_KEEP_SIZE: u32 = 0x01;

pub const FALLOC_FL_PUNCH_HOLE: u32 = 0x02;

/// Size of the page of zeros that is written to make room in a file.
pub const ZERO_PAGE_LEN: u32 = 4096;

/// How many zeros are written at once.
pub open spec fn zeros_at(pos: int, end: int) -> u32 {
    if end - pos < ZERO_PAGE_LEN { (end - pos) as u32 } else { ZERO_PAGE_LEN }
}

/// What writing zeros from `pos` up to `end` asks of the host, and the error that it ends with, if any.
pub open spec fn zeroed(fh: u64, zero: u64, pos: int, end: int, t: Seq<FsEvent>, f: Option<i64>) -> bool
    decreases t.len(),
{
    if pos >= end {
        t.len() == 0 && f is None
    } else {
        t.len() > 0 && (t[0] matches FsEvent::Write { fh: h, offset, paddr, count, reply } && h == fh && offset == pos && paddr == zero && count
            == zeros_at(pos, end) && match reply {
            Err(e) => t.len() == 1 && f == Some(e as i64),
            Ok(n) => if n == 0 { t.len() == 1 && f == Some(EIO) } else { zeroed(fh, zero, pos + n, end, t.skip(1), f) },
        })
    }
}

fn write_zeros<C: FuseClient>(fs: &mut Fs<C>, fh: u64, zero: PhysicalAddr, from: u64, end: u64) -> (r: Option<i64>)
    ensures
        extends(old(fs).log(), final(fs).log()),
        zeroed(fh, zero.0, from as int, end as int, since(old(fs).log(), final(fs).log()), r),
{
    let ghost log0 = fs.log();
    let mut pos: u64 = from;
    proof {
        assert(extends(log0, log0));
        assert forall|t: Seq<FsEvent>, f: Option<i64>| #[trigger] zeroed(fh, zero.0, from as int, end as int, t, f) implies zeroed(
            fh,
            zero.0,
            from as int,
            end as int,
            since(log0, fs.log()) + t,
            f,
        ) by {
            assert(since(log0, log0) + t =~= t);
        }
    }
    while pos < end
        invariant
            log0 == old(fs).log(),
            extends(log0, fs.log()),
            forall|t: Seq<FsEvent>, f: Option<i64>| #[trigger]
                zeroed(fh, zero.0, pos as int, end as int, t, f) ==> zeroed(
                    fh,
                    zero.0,
                    from as int,
                    end as int,
                    since(log0, fs.log()) + t,
                    f,
                ),
        decreases end - pos,
    {
        let rest: u64 = end - pos;
        let count: u32 = if rest < ZERO_PAGE_LEN as u64 { rest as u32 } else { ZERO_PAGE_LEN };
        let ghost done = since(log0, fs.log());
        let reply = fs.write(fh, pos, zero, count);
        let ghost ev = FsEvent::Write { fh, offset: pos, paddr: zero.0, count, reply };
        proof {
            assert(since(log0, fs.log()) == done.push(ev));
            assert(done + seq![ev] =~= done.push(ev));
        }
        match reply {
            Ok(n) => {
                if n == 0 {
                    assert(zeroed(fh, zero.0, pos as int, end as int, seq![ev], Some(EIO)));
                    return Some(EIO);
                }
                let ghost next = pos + n;
                proof {
                    assert forall|t: Seq<FsEvent>, f: Option<i64>| #[trigger] zeroed(fh, zero.0, next, end as int, t, f) implies zeroed(
                        fh,
                        zero.0,
                        from as int,
                        end as int,
                        since(log0, fs.log()) + t,
                        f,
                    ) by {
                        let both = seq![ev] + t;
                        assert(both[0] == ev);
                        assert(both.skip(1) =~= t);
                        assert(zeroed(fh, zero.0, pos as int, end as int, both, f));
                        assert(done + both =~= done.push(ev) + t);
                    }
                }
                if n as u64 >= rest {
                    proof {
                        assert forall|t: Seq<FsEvent>, f: Option<i64>| #[trigger]
                            zeroed(fh, zero.0, end as int, end as int, t, f) implies zeroed(fh, zero.0, next, end as int, t, f) by {}
                    }
                    pos = end;
                } else {
                    pos = pos + n as u64;
                }
            },
            Err(e) => {
                assert(zeroed(fh, zero.0, pos as int, end as int, seq![ev], Some(e as i64)));
                return Some(e as i64);
            },
        }
    }
    proof {
        let none = Seq::<FsEvent>::empty();
        assert(zeroed(fh, zero.0, pos as int, end as int, none, None));
        assert(since(log0, fs.log()) + none =~= since(log0, fs.log()));
    }
    None
}

/// Makes room in a file by writing zeros to it. Punching holes is accepted, and ignored.
pub fn sys_fallocate<C: FuseClient>(args: &SyscallArgs, fds: &mut FdTable, fs: &mut Fs<C>, zero: PhysicalAddr) -> (r: i64)
    ensures
        extends(old(fs).log(), final(fs).log()),
        ({
            let mode = args.arg1 as u32;
            let t = since(old(fs).log(), final(fs).log());
            let unchanged = t.len() == 0 && final(fds)@ == old(fds)@;
            if args.arg2 > i64::MAX || args.arg3 > i64::MAX || args.arg3 == 0 {
                r == EINVAL && unchanged
            } else if mode == FALLOC_FL_KEEP_SIZE | FALLOC_FL_PUNCH_HOLE {
                r == 0 && unchanged
            } else if mode != 0 {
                r == EOPNOTSUPP && unchanged
            } else {
                let end = args.arg2 + args.arg3;
                match lookup(old(fds)@, args.arg0) {
                    Some(d) => match d.kind {
                        FdKind::File { fuse_fh, .. } => exists|f: Option<i64>| #[trigger]
                            zeroed(fuse_fh, zero.0, args.arg2 as int, end, t, f) && match f {
                                None => r == 0 && final(fds)@ == old(fds)@.update(
                                    args.arg0 as int,
                                    Some(grown(d, end as u64)),
                                ),
                                Some(e) => r == e && final(fds)@ == old(fds)@,
                            },
                        _ => r == EBADF && unchanged,
                    },
                    None => r == EBADF && unchanged,
                }
            }
        }),
{
    assert(extends(old(fs).log(), fs.log()));
    let mode: u32 = #[verifier::truncate]
    (args.arg1 as u32);
    if args.arg2 > i64::MAX as u64 || args.arg3 > i64::MAX as u64 || args.arg3 == 0 {
        return EINVAL;
    }
    if mode == FALLOC_FL_KEEP_SIZE | FALLOC_FL_PUNCH_HOLE {
        return 0;
    }
    if mode != 0 {
        return EOPNOTSUPP;
    }
    let end: u64 = args.arg2 + args.arg3;
    if let Some(d) = fds.get(args.arg0) {
        if let FdKind::File { fuse_fh, fuse_nodeid, offset, size } = d.kind {
            if let Some(e) = write_zeros(fs, fuse_fh, zero, args.arg2, end) {
                return e;
            }
            let size: u64 = if end > size { end } else { size };
            fds.set(args.arg0, FileDescriptor { kind: FdKind::File { fuse_fh, fuse_nodeid, offset, size }, flags: d.flags });
            return 0;
        }
    }
    EBADF
}

/// The descriptor of a file of another size.
pub open spec fn with_size(d: FileDescriptor, to: u64) -> FileDescriptor {
    match d.kind {
        FdKind::File { fuse_fh, fuse_nodeid, offset, .. } => FileDescriptor {
            kind: FdKind::File { fuse_fh, fuse_nodeid, offset, size: to },
            ..d
        },
        _ => d,
    }
}

/// Sets the size of an open file.
pub fn sys_ftruncate<C: FuseClient>(args: &SyscallArgs, fds: &mut FdTable, fs: &mut Fs<C>) -> (r: i64)
    ensures
        extends(old(fs).log(), final(fs).log()),
        ({
            let t = since(old(fs).log(), final(fs).log());
            let unchanged = t.len() == 0 && final(fds)@ == old(fds)@;
            if args.arg1 > i64::MAX {
                r == EINVAL && unchanged
            } else {
                match lookup(old(fds)@, args.arg0) {
                    Some(d) => match d.kind {
                        FdKind::File { fuse_fh, fuse_nodeid, .. } => t.len() == 1 && (t[0] matches FsEvent::SetAttrSize {
                            nodeid,
                            fh,
                            size,
                            reply,
                        } && nodeid == fuse_nodeid && fh == Some(fuse_fh) && size == args.arg1 && match reply {
                            Ok(_) => r == 0 && final(fds)@ == old(fds)@.update(args.arg0 as int, Some(with_size(d, args.arg1))),
                            Err(e) => r == e && final(fds)@ == old(fds)@,
                        }),
                        _ => r == EBADF && unchanged,
                    },
                    None => r == EBADF && unchanged,
                }
            }
        }),
{
    assert(extends(old(fs).log(), fs.log()));
    if args.arg1 > i64::MAX as u64 {
        return EINVAL;
    }
    if let Some(d) = fds.get(args.arg0) {
        if let FdKind::File { fuse_fh, fuse_nodeid, offset, .. } = d.kind {
            return match fs.setattr_size(fuse_nodeid, Some(fuse_fh), args.arg1) {
                Ok(()) => {
                    fds.set(
                        args.arg0,
                        FileDescriptor {
                            kind: FdKind::File { fuse_fh, fuse_nodeid, offset, size: args.arg1 },
                            flags: d.flags,
                        },
                    );
                    0
                },
                Err(e) => e as i64,
            };
        }
    }
    EBADF
}

/// One end of a pipe.
pub open spec fn pipe_desc(id: usize, write_end: bool, flags: u32) -> FileDescriptor {
    FileDescriptor { kind: FdKind::Pipe { id, write_end }, flags: flags & O_NONBLOCK }
}

/// What making a pipe comes to: its two ends are open, and their numbers are told.
pub open spec fn piped(fds: Seq<Option<FileDescriptor>>, n: Net, m: Mem, ptr: u64, flags: u32) -> (
    i64,
    Seq<Option<FileDescriptor>>,
    Net,
    Mem,
) {
    let id = lowest_slot(n.pipetab, 0) as usize;
    let rd = lowest_free(fds, 0);
    let mid = with_fd(fds, rd, pipe_desc(id, false, flags));
    let wr = lowest_free(mid, 0);
    if ptr == 0 {
        (EFAULT, fds, n, m)
    } else if flags & !(O_NONBLOCK | O_CLOEXEC) != 0 {
        (EINVAL, fds, n, m)
    } else {
        (
            0,
            with_fd(mid, wr, pipe_desc(id, true, flags)),
            Net { pipetab: with_new(n.pipetab, new_pipe()), ..n },
            m.stored(ptr as int, le32(rd as u32)).stored(ptr + 4, le32(wr as u32)),
        )
    }
}

/// Makes a pipe.
pub fn sys_pipe2<D, M: Memory>(args: &SyscallArgs, fds: &mut FdTable, net: &mut NetStateInner<D>, um: &mut M) -> (r: i64)
    requires
        old(net)@.wf(),
        args.arg0 != 0 && args.arg1 as u32 & !(O_NONBLOCK | O_CLOEXEC) == 0 ==> reachable(old(um), args.arg0, 8),
    ensures
        (r, final(fds)@, final(net)@, mem(final(um))) == piped(
            old(fds)@,
            old(net)@,
            mem(old(um)),
            args.arg0,
            args.arg1 as u32,
        ),
        final(net)@.wf(),
{
    let flags: u32 = #[verifier::truncate]
    (args.arg1 as u32);
    if args.arg0 == 0 {
        return EFAULT;
    }
    if flags & !(O_NONBLOCK | O_CLOEXEC) != 0 {
        return EINVAL;
    }
    let fd_flags: u32 = if flags & O_NONBLOCK != 0 { O_NONBLOCK } else { 0 };
    assert(fd_flags == flags & O_NONBLOCK) by {
        assert(flags & 0o4000u32 == 0 || flags & 0o4000u32 == 0o4000u32) by (bit_vector);
    }
    let id = pipe_create(net);
    let read_fd = fds.allocate(FileDescriptor { kind: FdKind::Pipe { id, write_end: false }, flags: fd_flags });
    let write_fd = fds.allocate(FileDescriptor { kind: FdKind::Pipe { id, write_end: true }, flags: fd_flags });
    write_u32(
        um,
        args.arg0,
        #[verifier::truncate]
        (read_fd as u32),
    );
    write_u32(
        um,
        args.arg0 + 4,
        #[verifier::truncate]
        (write_fd as u32),
    );
    0
}

/// Makes a pipe, without flags.
pub fn sys_pipe<D, M: Memory>(args: &SyscallArgs, fds: &mut FdTable, net: &mut NetStateInner<D>, um: &mut M) -> (r: i64)
    requires
        old(net)@.wf(),
        args.arg0 != 0 ==> reachable(old(um), args.arg0, 8),
    ensures
        (r, final(fds)@, final(net)@, mem(final(um))) == piped(old(fds)@, old(net)@, mem(old(um)), args.arg0, 0),
        final(net)@.wf(),
{
    let pipe2_args = SyscallArgs {
        nr: 293,
        arg0: args.arg0,
        arg1: 0,
        arg2: 0,
        arg3: 0,
        arg4: 0,
        arg5: 0,
        caller_rip: args.caller_rip,
        caller_rflags: args.caller_rflags,
    };
    sys_pipe2(&pipe2_args, fds, net, um)
}

/// What asking for the data of a descriptor to be kept comes to.
pub open spec fn synced(desc: Option<FileDescriptor>, datasync: bool, t: Seq<FsEvent>, r: i64) -> bool {
    match desc {
        None => t.len() == 0 && r == EBADF,
        Some(d) => match d.kind {
            FdKind::File { fuse_fh, .. } => t.len() == 1 && (t[0] matches FsEvent::Fsync { fh, datasync: only, reply } && fh == fuse_fh
                && only == datasync && match reply {
                Ok(_) => r == 0,
                Err(e) => r == e,
            }),
            FdKind::Directory { .. } => t.len() == 0 && r == 0,
            FdKind::Console => t.len() == 0 && r == 0,
            _ => t.len() == 0 && r == EINVAL,
        },
    }
}

fn fsync_common<C: FuseClient>(args: &SyscallArgs, fds: &FdTable, fs: &mut Fs<C>, datasync: bool) -> (r: i64)
    ensures
        extends(old(fs).log(), final(fs).log()),
        synced(lookup(fds@, args.arg0), datasync, since(old(fs).log(), final(fs).log()), r),
{
    assert(extends(old(fs).log(), fs.log()));
    let desc = match fds.get(args.arg0) {
        Some(d) => d,
        None => {
            return EBADF;
        },
    };
    match desc.kind {
        FdKind::File { fuse_fh, .. } => match fs.fsync(fuse_fh, datasync) {
            Ok(()) => 0,
            Err(e) => e as i64,
        },
        FdKind::Directory { .. } => 0,
        FdKind::Console => 0,
        FdKind::Socket { .. } => EINVAL,
        FdKind::Epoll { .. } => EINVAL,
        FdKind::Pipe { .. } => EINVAL,
    }
}

/// Asks the host to keep what was written to a file.
pub fn sys_fsync<C: FuseClient>(args: &SyscallArgs, fds: &FdTable, fs: &mut Fs<C>) -> (r: i64)
    ensures
        extends(old(fs).log(), final(fs).log()),
        synced(lookup(fds@, args.arg0), false, since(old(fs).log(), final(fs).log()), r),
{
    fsync_common(args, fds, fs, false)
}

/// Asks the host to keep the data that was written to a file.
pub fn sys_fdatasync<C: FuseClient>(args: &SyscallArgs, fds: &FdTable, fs: &mut Fs<C>) -> (r: i64)
    ensures
        extends(old(fs).log(), final(fs).log()),
        synced(lookup(fds@, args.arg0), true, since(old(fs).log(), final(fs).log()), r),
{
    fsync_common(args, fds, fs, true)
}

} // verus!
