//! Sockets.

use smoltcp::iface::SocketHandle;
use vstd::prelude::*;

use crate::fs::fd_table::{lookup, lowest_free, with_fd, FdKind, FdTable, FileDescriptor};
use crate::memory::access::{from_le32, le32, mem, reachable, read_u32, read_u64, write_bytes, write_u32, Mem, Memory};
use crate::net::abi::{parse_sockaddr, parsed, sockaddr_written, write_sockaddr, SOCKADDR_LEN};
use crate::net::device::{Poll, PollDevice};
use crate::net::pipe::PIPE_CAPACITY;
use crate::net::socket::{
    plain_stream, Sock, SockRole, SocketObject, AF_INET, AF_INET6, AF_UNIX, SOCK_NONBLOCK, SOCK_STREAM,
};
use crate::net::state::{
    advanced_at, joint_wf, law_lowest_slot, lemma_sock_allocated, lemma_sock_changed, lowest_slot, unused, with_new,
    with_next_port, Net, NetStateInner, Place,
};
use crate::net::stream::{self, lemma_with_tcp, parked_sys, parking_of, polled_sys, started, sys, StreamOp, Sys};
use crate::net::tcp::{
    add_socket, close, closed, connect, is_active, listen, local_endpoint, may_send, new_socket, new_tcp,
    remote_endpoint, socket_state, tcp_info, unaddressable, ConnectError, Endpoint, TcpInfo, TcpState,
};
use crate::net::wait::Wait;
use crate::sched::scheduler::{active, Scheduler};
use crate::syscall::args::SyscallArgs;
use crate::syscall::blocking::{after_first, call_of, into_call, Again, Call, Gather};
use crate::syscall::errno::{
    EAFNOSUPPORT, EAGAIN, EBADF, ECONNREFUSED, EFAULT, EINPROGRESS, EINVAL, EISCONN, ENOTCONN, ENOTSOCK,
    EPROTONOSUPPORT,
};
use crate::syscall::handlers::vectored::{gather_from, gathered, usable};
use crate::time::Clock;

verus! {

broadcast use crate::net::state::group_advanced;

/// The socket object behind a descriptor.
pub open spec fn sock_of(fds: Seq<Option<FileDescriptor>>, fd: u64) -> Result<usize, i64> {
    if fd > i64::MAX {
        Err(EBADF)
    } else {
        match lookup(fds, fd) {
            Some(d) => match d.kind {
                FdKind::Socket { id } => Ok(id),
                _ => Err(ENOTSOCK),
            },
            None => Err(EBADF),
        }
    }
}

fn socket_fd(fds: &FdTable, fd: u64) -> (r: Result<usize, i64>)
    ensures
        r == sock_of(fds@, fd),
{
    if fd > i64::MAX as u64 {
        return Err(EBADF);
    }
    match fds.get(fd) {
        Some(d) => match d.kind {
            FdKind::Socket { id } => Ok(id),
            _ => Err(ENOTSOCK),
        },
        None => Err(EBADF),
    }
}

/// The descriptor of a socket.
pub open spec fn socket_desc(id: usize, nonblocking: bool) -> FileDescriptor {
    FileDescriptor { kind: FdKind::Socket { id }, flags: if nonblocking { SOCK_NONBLOCK } else { 0 } }
}

/// Makes a socket without a connection.
pub fn sys_socket<D>(args: &SyscallArgs, fds: &mut FdTable, net: &mut NetStateInner<D>) -> (r: i64)
    requires
        old(net)@.wf(),
    ensures
        ({
            let n = old(net)@;
            let domain = args.arg0 as u16;
            let raw = args.arg1 as u32;
            let nonblocking = raw & SOCK_NONBLOCK != 0;
            let id = lowest_slot(n.socktab, 0) as usize;
            if domain != AF_UNIX && domain != AF_INET && domain != AF_INET6 {
                r == EAFNOSUPPORT && final(net)@ == n && final(fds)@ == old(fds)@
            } else if (raw & 0xFF) as u16 != SOCK_STREAM {
                r == EPROTONOSUPPORT && final(net)@ == n && final(fds)@ == old(fds)@
            } else {
                &&& r == lowest_free(old(fds)@, 0) as i64
                &&& final(net)@ == (Net { socktab: with_new(n.socktab, plain_stream(domain, nonblocking, None)), ..n })
                &&& final(fds)@ == with_fd(old(fds)@, lowest_free(old(fds)@, 0), socket_desc(id, nonblocking))
            }
        }),
        final(net)@.wf(),
{
    let domain: u16 = #[verifier::truncate]
    (args.arg0 as u16);
    let typ_raw: u32 = #[verifier::truncate]
    (args.arg1 as u32);
    let typ: u16 = (typ_raw & 0xFF) as u16;
    if domain != AF_UNIX && domain != AF_INET && domain != AF_INET6 {
        return EAFNOSUPPORT;
    }
    if typ != SOCK_STREAM {
        return EPROTONOSUPPORT;
    }
    let nonblocking = typ_raw & SOCK_NONBLOCK != 0;
    let obj = SocketObject::stream(domain, nonblocking, None);
    proof {
        lemma_sock_allocated(net@, obj@);
    }
    let id = net.socket_alloc(obj);
    let flags: u32 = if nonblocking { SOCK_NONBLOCK } else { 0 };
    let fd = fds.allocate(FileDescriptor { kind: FdKind::Socket { id }, flags });
    #[verifier::truncate]
    (fd as i64)
}

/// Gives a socket an address.
pub fn sys_bind<D, M: Memory>(args: &SyscallArgs, fds: &FdTable, net: &mut NetStateInner<D>, um: &M) -> (r: i64)
    requires
        old(net)@.wf(),
        reads_addr(fds@, old(net)@, args) ==> reachable(um, args.arg1, 16),
    ensures
        match sock_of(fds@, args.arg0) {
            Err(e) => r == e && final(net)@ == old(net)@,
            Ok(id) => match old(net)@.sock(id as int) {
                None => r == EBADF && final(net)@ == old(net)@,
                Some(o) => if o.domain == AF_UNIX {
                    r == 0 && final(net)@ == old(net)@
                } else {
                    match parsed(um, args.arg1, args.arg2 as u32) {
                        Err(e) => r == e && final(net)@ == old(net)@,
                        Ok(ep) => r == 0 && final(net)@ == old(net)@.with_sock(id as int, Some((Sock { local: Some(ep), ..o }))),
                    }
                },
            },
        },
        final(net)@.wf(),
{
    let id = match socket_fd(fds, args.arg0) {
        Ok(id) => id,
        Err(e) => {
            return e;
        },
    };
    let domain = match net.socket_get(id) {
        None => {
            return EBADF;
        },
        Some(obj) => obj.domain,
    };
    if domain == AF_UNIX {
        return 0;
    }
    let len: u32 = #[verifier::truncate]
    (args.arg2 as u32);
    let ep = match parse_sockaddr(um, args.arg1, len) {
        Ok(ep) => ep,
        Err(e) => {
            return e;
        },
    };
    let ghost n = net@;
    match net.socket_get_mut(id) {
        Some(obj) => {
            obj.local = Some(ep);
            proof {
                lemma_sock_changed(n, id as int, obj@);
            }
            0
        },
        None => EBADF,
    }
}

/// A socket address is read from the user.
pub open spec fn reads_addr(fds: Seq<Option<FileDescriptor>>, n: Net, args: &SyscallArgs) -> bool {
    &&& sock_of(fds, args.arg0) matches Ok(id) && n.sock(id as int) matches Some(o) && o.domain != AF_UNIX
    &&& args.arg1 != 0
    &&& args.arg2 as u32 >= SOCKADDR_LEN
}

/// A socket that listens.
pub open spec fn listener(ep: Endpoint) -> TcpInfo {
    TcpInfo { state: TcpState::Listen, listens_at: Some(ep), ..new_socket() }
}

/// The sockets with new ones that listen.
pub open spec fn with_listeners(socks: Map<SocketHandle, TcpInfo>, hs: Seq<SocketHandle>, ep: Endpoint) -> Map<SocketHandle, TcpInfo> {
    Map::new(
        |h: SocketHandle| socks.contains_key(h) || hs.contains(h),
        |h: SocketHandle| if hs.contains(h) { listener(ep) } else { socks[h] },
    )
}

/// The sockets `hs` are new, and differ.
pub open spec fn all_new(socks: Map<SocketHandle, TcpInfo>, hs: Seq<SocketHandle>) -> bool {
    hs.no_duplicates() && forall|k: int| 0 <= k < hs.len() ==> !socks.contains_key(#[trigger] hs[k])
}

/// The state after the sockets `hs` were made to listen for socket object `id`.
pub open spec fn listening(n: Net, id: int, ep: Endpoint, hs: Seq<SocketHandle>) -> Net {
    let o = n.sock(id)->0;
    let m = n.with_sock(id, Some(Sock { role: SockRole::Listener, listen_ep: Some(ep), backlog: hs, ..o }));
    Net { socks: with_listeners(n.socks, hs, ep), ..m }
}

proof fn lemma_listening(n: Net, id: int, ep: Endpoint, hs: Seq<SocketHandle>)
    requires
        n.wf(),
        n.sock(id) is Some,
        all_new(n.socks, hs),
        ep.port != 0,
    ensures
        listening(n, id, ep, hs).wf(),
{
    let m = listening(n, id, ep, hs);
    assert forall|h: SocketHandle, p: Place| #[trigger] m.uses(h, p) implies n.uses(h, p) && n.socks.contains_key(h) || (p is Backlog
        && p->Backlog_0 == id && 0 <= p->Backlog_1 < hs.len() && hs[p->Backlog_1] == h && !n.socks.contains_key(h)) by {
        match p {
            Place::Stream(i) => {
                assert(n.uses(h, p));
            },
            Place::Backlog(i, k) => {
                if i != id {
                    assert(n.uses(h, p));
                }
            },
            Place::Closing(k) => {
                assert(n.uses(h, p));
            },
        }
    }
    assert forall|h: SocketHandle, p: Place| #[trigger] m.uses(h, p) implies m.socks.contains_key(h) by {}
    assert forall|h: SocketHandle, p: Place, q: Place| #[trigger] m.uses(h, p) && #[trigger] m.uses(h, q) implies p == q by {
        if n.uses(h, p) && n.uses(h, q) {
        } else {
            assert(hs[p->Backlog_1] == hs[q->Backlog_1]);
        }
    }
    assert forall|i: int| 0 <= i < m.pipetab.len() implies ((#[trigger] m.pipetab[i]) matches Some(x) ==> x.buf.len() <= PIPE_CAPACITY) by {
        assert(n.pipetab[i] matches Some(x) ==> x.buf.len() <= PIPE_CAPACITY);
    }
}

/// How many sockets listen at once.
pub open spec fn backlog_len(wanted: u64) -> int {
    if wanted < 1 {
        1
    } else if wanted > 8 {
        8
    } else {
        wanted as int
    }
}

/// Adds `count` sockets that listen, unless the port is 0.
fn add_listeners<D>(net: &mut NetStateInner<D>, ep: Endpoint, count: u64) -> (r: Option<Vec<SocketHandle>>)
    requires
        count > 0,
        old(net)@.grows,
    ensures
        r is None <==> ep.port == 0,
        r is None ==> final(net)@ == old(net)@,
        r matches Some(hs) ==> hs@.len() == count && all_new(old(net)@.socks, hs@) && final(net)@ == (Net {
            socks: with_listeners(old(net)@.socks, hs@, ep),
            ..old(net)@
        }),
{
    let ghost n = net@;
    let mut handles: Vec<SocketHandle> = Vec::new();
    let mut i: u64 = 0;
    assert(with_listeners(n.socks, handles@, ep) =~= n.socks);
    while i < count
        invariant
            i <= count,
            n == old(net)@,
            n.grows,
            handles@.len() == i,
            all_new(n.socks, handles@),
            net@ == (Net { socks: with_listeners(n.socks, handles@, ep), ..n }),
            i > 0 ==> ep.port != 0,
        decreases count - i,
    {
        let mut s = new_tcp();
        if listen(&mut s, ep).is_err() {
            assert(i == 0);
            assert(net@ =~= n);
            return None;
        }
        assert(tcp_info(s) == listener(ep));
        let ghost before = net@;
        let ghost hs = handles@;
        let h = add_socket(&mut net.sockets, s);
        handles.push(h);
        proof {
            assert(!hs.contains(h) && !n.socks.contains_key(h));
            assert forall|g: SocketHandle| handles@.contains(g) <==> hs.contains(g) || g == h by {
                if hs.contains(g) {
                    let k = choose|k: int| 0 <= k < hs.len() && hs[k] == g;
                    assert(handles@[k] == g);
                }
                assert(handles@[hs.len() as int] == h);
            }
            assert(handles@.no_duplicates()) by {
                assert forall|a: int, b: int| 0 <= a < handles@.len() && 0 <= b < handles@.len() && a != b implies handles@[a]
                    != handles@[b] by {
                    if a == hs.len() {
                        assert(hs.contains(hs[b]));
                    } else if b == hs.len() {
                        assert(hs.contains(hs[a]));
                    }
                }
            }
            assert(net@.socks =~= with_listeners(n.socks, handles@, ep));
            assert(net@ =~= Net { socks: with_listeners(n.socks, handles@, ep), ..n });
        }
        i += 1;
    }
    Some(handles)
}

/// Waits for connections to the address of a socket.
pub fn sys_listen<D: PollDevice>(
    args: &SyscallArgs,
    fds: &FdTable,
    net: &mut NetStateInner<D>,
    sched: &mut Scheduler,
    c: u32,
    clock: &Clock,
    tsc: u64,
) -> (r: i64)
    requires
        joint_wf(old(net)@, old(sched)@),
        active(old(sched)@, c as int),
    ensures
        advanced_at(old(net)@.polls, final(net)@.polls, *clock, tsc),
        ({
            let n = old(net)@;
            let v = old(sched)@;
            let p = final(net)@.polls.last();
            let t = sys(final(net)@, final(sched)@);
            match sock_of(fds@, args.arg0) {
                Err(e) => r == e && t == sys(n, v),
                Ok(id) => match n.sock(id as int) {
                    None => r == EBADF && t == sys(n, v),
                    Some(o) => if o.domain == AF_UNIX {
                        let m = n.with_sock(id as int, Some((Sock { role: SockRole::Listener, ..o })));
                        r == 0 && t == polled_sys(sys(m, v), p, c as int)
                    } else {
                        match o.local {
                            None => r == EINVAL && t == sys(n, v),
                            Some(ep) => if ep.port == 0 {
                                r == EINVAL && t == sys(n, v)
                            } else {
                                let hs = final(net)@.sock(id as int)->0.backlog;
                                &&& r == 0
                                &&& hs.len() == backlog_len(args.arg1)
                                &&& all_new(n.socks, hs)
                                &&& t == polled_sys(sys(listening(n, id as int, ep, hs), v), p, c as int)
                            },
                        }
                    },
                },
            }
        }),
        joint_wf(final(net)@, final(sched)@),
        active(final(sched)@, c as int),
{
    let id = match socket_fd(fds, args.arg0) {
        Ok(id) => id,
        Err(e) => {
            return e;
        },
    };
    let backlog: u64 = if args.arg1 < 1 {
        1
    } else if args.arg1 > 8 {
        8
    } else {
        args.arg1
    };
    let ghost n = net@;
    let (domain, local) = match net.socket_get(id) {
        None => {
            return EBADF;
        },
        Some(obj) => (obj.domain, obj.local),
    };
    if domain == AF_UNIX {
        if let Some(obj) = net.socket_get_mut(id) {
            obj.role = SockRole::Listener;
            proof {
                lemma_sock_changed(n, id as int, obj@);
            }
        }
        net.poll_and_wake(sched, c, clock, tsc);
        return 0;
    }
    let ep = match local {
        None => {
            return EINVAL;
        },
        Some(ep) => ep,
    };
    let handles = match add_listeners(net, ep, backlog) {
        None => {
            return EINVAL;
        },
        Some(hs) => hs,
    };
    let ghost hs = handles@;
    if let Some(obj) = net.socket_get_mut(id) {
        obj.role = SockRole::Listener;
        obj.listen_ep = Some(ep);
        obj.backlog = handles;
    }
    proof {
        assert(net@ =~= listening(n, id as int, ep, hs));
        lemma_listening(n, id as int, ep, hs);
    }
    net.poll_and_wake(sched, c, clock, tsc);
    0
}

/// The first socket of a backlog, from `from` on, that has been connected to.
pub open spec fn first_arrival(backlog: Seq<SocketHandle>, socks: Map<SocketHandle, TcpInfo>, from: int) -> int
    decreases backlog.len() - from,
{
    if 0 <= from < backlog.len() && socks[backlog[from]].state is Listen {
        first_arrival(backlog, socks, from + 1)
    } else {
        from
    }
}

/// The first socket that has been connected to is such a socket, and none before it is.
pub proof fn law_first_arrival(backlog: Seq<SocketHandle>, socks: Map<SocketHandle, TcpInfo>, from: int)
    requires
        0 <= from <= backlog.len(),
    ensures
        ({
            let i = first_arrival(backlog, socks, from);
            &&& from <= i <= backlog.len()
            &&& i < backlog.len() ==> !(socks[backlog[i]].state is Listen)
            &&& forall|k: int| from <= k < i ==> socks[#[trigger] backlog[k]].state is Listen
        }),
    decreases backlog.len() - from,
{
    if from < backlog.len() && socks[backlog[from]].state is Listen {
        law_first_arrival(backlog, socks, from + 1);
    }
}

/// What an attempt to accept a connection comes to.
pub open spec fn accept_wait(n: Net, id: int, nonblocking: bool) -> Wait {
    match n.sock(id) {
        None => Wait::Ready(EBADF),
        Some(o) => if !(o.role is Listener) {
            Wait::Ready(EINVAL)
        } else if first_arrival(o.backlog, n.socks, 0) < o.backlog.len() {
            Wait::Ready(0)
        } else if o.nonblocking || nonblocking {
            Wait::Ready(EAGAIN)
        } else {
            Wait::Block
        },
    }
}

/// An attempt to accept a connection succeeds.
pub open spec fn accepts(n: Net, id: int) -> bool {
    n.sock(id) matches Some(o) && o.role is Listener && first_arrival(o.backlog, n.socks, 0) < o.backlog.len()
}

/// The socket that an attempt to accept gives.
pub open spec fn arrived(n: Net, id: int) -> SocketHandle {
    let o = n.sock(id)->0;
    o.backlog[first_arrival(o.backlog, n.socks, 0)]
}

/// The state after an attempt to accept: if there is a connection, the new socket `fresh` listens in its place.
pub open spec fn accept_after(n: Net, id: int, fresh: SocketHandle) -> Net {
    if accepts(n, id) {
        let o = n.sock(id)->0;
        let i = first_arrival(o.backlog, n.socks, 0);
        let m = n.with_sock(id, Some(Sock { backlog: o.backlog.remove(i).push(fresh), ..o }));
        Net { socks: n.socks.insert(fresh, listener(o.listen_ep->0)), ..m }
    } else {
        n
    }
}

proof fn lemma_accept_after(n: Net, id: int, fresh: SocketHandle)
    requires
        n.wf(),
        accepts(n, id),
        !n.socks.contains_key(fresh),
    ensures
        accept_after(n, id, fresh).wf(),
        unused(accept_after(n, id, fresh), arrived(n, id)),
{
    let o = n.sock(id)->0;
    let i = first_arrival(o.backlog, n.socks, 0);
    let h = o.backlog[i];
    let m = accept_after(n, id, fresh);
    law_first_arrival(o.backlog, n.socks, 0);
    let back = o.backlog.remove(i).push(fresh);
    let was = |p: Place| match p {
        Place::Backlog(j, k) => if j == id && k >= i { Place::Backlog(j, k + 1) } else { p },
        _ => p,
    };
    assert forall|g: SocketHandle, p: Place| #[trigger] m.uses(g, p) implies (n.uses(g, was(p)) && n.socks.contains_key(g) && was(p)
        != Place::Backlog(id, i)) || (p == Place::Backlog(id, back.len() - 1) && g == fresh) by {
        match p {
            Place::Stream(j) => {
                assert(n.uses(g, p));
            },
            Place::Backlog(j, k) => {
                if j == id && k == back.len() - 1 {
                } else {
                    assert(n.uses(g, was(p)));
                }
            },
            Place::Closing(k) => {
                assert(n.uses(g, p));
            },
        }
    }
    assert(n.uses(h, Place::Backlog(id, i)));
    assert forall|g: SocketHandle, p: Place| #[trigger] m.uses(g, p) implies m.socks.contains_key(g) by {}
    assert forall|g: SocketHandle, p: Place, q: Place| #[trigger] m.uses(g, p) && #[trigger] m.uses(g, q) implies p == q by {
        if g == fresh {
        } else {
            assert(n.uses(g, was(p)) && n.uses(g, was(q)));
            assert(was(p) == was(q));
        }
    }
    assert forall|p: Place| !m.uses(h, p) by {
        if m.uses(h, p) {
            assert(n.uses(h, was(p)));
        }
    }
    assert forall|j: int| 0 <= j < m.pipetab.len() implies ((#[trigger] m.pipetab[j]) matches Some(x) ==> x.buf.len() <= PIPE_CAPACITY) by {
        assert(n.pipetab[j] matches Some(x) ==> x.buf.len() <= PIPE_CAPACITY);
    }
}

/// One attempt to accept a connection. A socket that has been connected to leaves the backlog, and a new one
/// takes its place.
pub fn accept_attempt<D>(net: &mut NetStateInner<D>, id: usize, nonblocking: bool) -> (r: (
    Wait,
    Option<(SocketHandle, Option<Endpoint>)>,
))
    requires
        old(net)@.wf(),
    ensures
        ({
            let n = old(net)@;
            let fresh = final(net)@.sock(id as int)->0.backlog.last();
            &&& r.0 == accept_wait(n, id as int, nonblocking)
            &&& final(net)@ == accept_after(n, id as int, fresh)
            &&& accepts(n, id as int) ==> !n.socks.contains_key(fresh) && r.1 == Some(
                (arrived(n, id as int), n.socks[arrived(n, id as int)].remote),
            ) && unused(final(net)@, arrived(n, id as int))
            &&& !accepts(n, id as int) ==> r.1 is None
        }),
        final(net)@.wf(),
{
    let ghost n = net@;
    let (i, len, ep, waits) = match net.socket_get(id) {
        None => {
            return (Wait::Ready(EBADF), None);
        },
        Some(obj) => {
            match obj.role {
                SockRole::Listener => {},
                _ => {
                    return (Wait::Ready(EINVAL), None);
                },
            }
            let mut i: usize = 0;
            while i < obj.backlog.len()
                invariant_except_break
                    first_arrival(obj@.backlog, n.socks, 0) == first_arrival(obj@.backlog, n.socks, i as int),
                invariant
                    i <= obj@.backlog.len(),
                    n == net@,
                    n.wf(),
                    n.sock(id as int) == Some(obj@),
                ensures
                    i == first_arrival(obj@.backlog, n.socks, 0),
                decreases obj@.backlog.len() - i,
            {
                let h = obj.backlog[i];
                assert(n.uses(obj@.backlog[i as int], Place::Backlog(id as int, i as int)));
                let listens: bool = match socket_state(&net.sockets, h) {
                    TcpState::Listen => true,
                    _ => false,
                };
                if !listens {
                    break;
                }
                i += 1;
            }
            (i, obj.backlog.len(), obj.listen_ep, !(obj.nonblocking || nonblocking))
        },
    };
    if i >= len {
        return (if waits { Wait::Block } else { Wait::Ready(EAGAIN) }, None);
    }
    let at = match ep {
        Some(at) => at,
        None => {
            return (Wait::Ready(EINVAL), None);
        },
    };
    let mut refill = new_tcp();
    let _ = listen(&mut refill, at);
    let fresh = add_socket(&mut net.sockets, refill);
    let handle = match net.socket_get_mut(id) {
        Some(obj) => {
            let h = obj.backlog.remove(i);
            obj.backlog.push(fresh);
            h
        },
        None => fresh,
    };
    proof {
        let o = n.sock(id as int)->0;
        assert(net@ =~= accept_after(n, id as int, fresh));
        assert(net@.sock(id as int)->0.backlog.last() == fresh);
        lemma_accept_after(n, id as int, fresh);
        assert(n.uses(handle, Place::Backlog(id as int, i as int)));
        assert(handle != fresh);
    }
    let remote = remote_endpoint(&net.sockets, handle);
    (Wait::Ready(0), Some((handle, remote)))
}

/// All that a call may change: the descriptors, the network, the scheduler and the user's memory.
#[verifier::ext_equal]
pub struct World {
    pub fds: Seq<Option<FileDescriptor>>,
    pub sys: Sys,
    pub mem: Mem,
}

/// Accepting a connection from socket `id` is not refused at once.
pub open spec fn may_accept(net: Net, id: int, flags: u32) -> bool {
    match accept_wait(net, id, flags & SOCK_NONBLOCK != 0) {
        Wait::Block => true,
        Wait::Ready(v) => v >= 0,
    }
}

/// An address can be written to `addr`, and its length to `addr_len`, where they are given.
pub open spec fn takes_addr<M: Memory>(um: &M, addr: u64, addr_len: u64) -> bool {
    &&& addr != 0 ==> reachable(um, addr, 16)
    &&& addr != 0 && addr_len != 0 ==> reachable(um, addr_len, 4)
}

/// What accepting a connection from listener `id` comes to.
pub open spec fn accept_result(w: World, id: usize, addr: u64, addr_len: u64, flags: u32, fresh: SocketHandle, q: Seq<Poll>, c: int) -> (
    Call,
    World,
) {
    let nonblocking = flags & SOCK_NONBLOCK != 0;
    let s = after_first(w.sys, accept_wait(w.sys.net, id as int, nonblocking), q, c);
    let again = Again::Accept { id, addr, addr_len, flags };
    match accept_wait(s.net, id as int, nonblocking) {
        Wait::Block => (call_of(parking_of(s, c), again), World { sys: parked_sys(s, c, false), ..w }),
        Wait::Ready(v) => if v < 0 {
            (Call::Return(v), World { sys: s, ..w })
        } else {
            let m = accept_after(s.net, id as int, fresh);
            let h = arrived(s.net, id as int);
            let new_id = lowest_slot(m.socktab, 0) as usize;
            let fd = lowest_free(w.fds, 0);
            let net = Net { socktab: with_new(m.socktab, plain_stream(AF_INET, nonblocking, Some(h))), ..m };
            (
                Call::Return(fd as i64),
                World {
                    fds: with_fd(w.fds, fd, socket_desc(new_id, nonblocking)),
                    sys: Sys { net, ..s },
                    mem: match s.net.socks[h].remote {
                        Some(ep) => sockaddr_written(w.mem, addr, addr_len, ep),
                        None => w.mem,
                    },
                },
            )
        },
    }
}

/// Accepts a connection from listener `id`, or waits for one.
#[verifier::spinoff_prover]
#[verifier::rlimit(40)]
pub fn accept_on<D: PollDevice, M: Memory>(
    fds: &mut FdTable,
    net: &mut NetStateInner<D>,
    sched: &mut Scheduler,
    um: &mut M,
    id: usize,
    addr: u64,
    addr_len: u64,
    flags: u32,
    c: u32,
    clock: &Clock,
    tsc: u64,
) -> (r: Call)
    requires
        joint_wf(old(net)@, old(sched)@),
        active(old(sched)@, c as int),
        may_accept(old(net)@, id as int, flags) ==> takes_addr(old(um), addr, addr_len),
    ensures
        advanced_at(old(net)@.polls, final(net)@.polls, *clock, tsc),
        ({
            let w = World { fds: old(fds)@, sys: sys(old(net)@, old(sched)@), mem: mem(old(um)) };
            let fresh = final(net)@.sock(id as int)->0.backlog.last();
            let x = accept_result(w, id, addr, addr_len, flags, fresh, final(net)@.polls, c as int);
            &&& r == x.0
            &&& (World { fds: final(fds)@, sys: sys(final(net)@, final(sched)@), mem: mem(final(um)) }) == x.1
        }),
        joint_wf(final(net)@, final(sched)@),
        r is Return ==> active(final(sched)@, c as int),
{
    let ghost s0 = sys(net@, sched@);
    let nonblocking = flags & SOCK_NONBLOCK != 0;
    let (mut wait, mut got) = accept_attempt(net, id, nonblocking);
    let ghost mut s1 = s0;
    if let Wait::Block = wait {
        net.poll_and_wake(sched, c, clock, tsc);
        proof {
            s1 = sys(net@, sched@);
        }
        let second = accept_attempt(net, id, nonblocking);
        wait = second.0;
        got = second.1;
    }
    let ghost q = net@.polls;
    assert(s1 == after_first(s0, accept_wait(s0.net, id as int, nonblocking), q, c as int));
    let v = match wait {
        Wait::Block => {
            return into_call(net.net_wait(sched, c, None, 0, EAGAIN), Again::Accept { id, addr, addr_len, flags });
        },
        Wait::Ready(v) => v,
    };
    let (handle, remote) = match got {
        None => {
            return Call::Return(v);
        },
        Some(g) => g,
    };
    let ghost m = net@;
    let obj = SocketObject::stream(AF_INET, nonblocking, Some(handle));
    proof {
        lemma_sock_allocated(m, obj@);
        law_lowest_slot(m.socktab, 0);
    }
    let new_id = net.socket_alloc(obj);
    if addr != 0 {
        if let Some(ep) = remote {
            if let Err(e) = write_sockaddr(um, addr, addr_len, ep) {
                return Call::Return(e);
            }
        }
    }
    let fd_flags: u32 = if nonblocking { SOCK_NONBLOCK } else { 0 };
    let fd = fds.allocate(FileDescriptor { kind: FdKind::Socket { id: new_id }, flags: fd_flags });
    Call::Return(
        #[verifier::truncate]
        (fd as i64),
    )
}

/// Accepts a connection.
pub fn sys_accept4<D: PollDevice, M: Memory>(
    args: &SyscallArgs,
    fds: &mut FdTable,
    net: &mut NetStateInner<D>,
    sched: &mut Scheduler,
    um: &mut M,
    c: u32,
    clock: &Clock,
    tsc: u64,
) -> (r: Call)
    requires
        joint_wf(old(net)@, old(sched)@),
        active(old(sched)@, c as int),
        sock_of(old(fds)@, args.arg0) matches Ok(id) && may_accept(old(net)@, id as int, args.arg3 as u32) ==> takes_addr(
            old(um),
            args.arg1,
            args.arg2,
        ),
    ensures
        advanced_at(old(net)@.polls, final(net)@.polls, *clock, tsc),
        ({
            let w = World { fds: old(fds)@, sys: sys(old(net)@, old(sched)@), mem: mem(old(um)) };
            let x = World { fds: final(fds)@, sys: sys(final(net)@, final(sched)@), mem: mem(final(um)) };
            match sock_of(old(fds)@, args.arg0) {
                Err(e) => r == Call::Return(e) && x == w,
                Ok(id) => {
                    let fresh = final(net)@.sock(id as int)->0.backlog.last();
                    let flags = args.arg3 as u32;
                    (r, x) == accept_result(w, id, args.arg1, args.arg2, flags, fresh, final(net)@.polls, c as int)
                },
            }
        }),
        joint_wf(final(net)@, final(sched)@),
        r is Return ==> active(final(sched)@, c as int),
{
    let id = match socket_fd(fds, args.arg0) {
        Ok(id) => id,
        Err(e) => {
            return Call::Return(e);
        },
    };
    let flags: u32 = #[verifier::truncate]
    (args.arg3 as u32);
    accept_on(fds, net, sched, um, id, args.arg1, args.arg2, flags, c, clock, tsc)
}

/// Accepts a connection, without flags.
pub fn sys_accept<D: PollDevice, M: Memory>(
    args: &SyscallArgs,
    fds: &mut FdTable,
    net: &mut NetStateInner<D>,
    sched: &mut Scheduler,
    um: &mut M,
    c: u32,
    clock: &Clock,
    tsc: u64,
) -> (r: Call)
    requires
        joint_wf(old(net)@, old(sched)@),
        active(old(sched)@, c as int),
        sock_of(old(fds)@, args.arg0) matches Ok(id) && may_accept(old(net)@, id as int, 0) ==> takes_addr(
            old(um),
            args.arg1,
            args.arg2,
        ),
    ensures
        advanced_at(old(net)@.polls, final(net)@.polls, *clock, tsc),
        ({
            let w = World { fds: old(fds)@, sys: sys(old(net)@, old(sched)@), mem: mem(old(um)) };
            let x = World { fds: final(fds)@, sys: sys(final(net)@, final(sched)@), mem: mem(final(um)) };
            match sock_of(old(fds)@, args.arg0) {
                Err(e) => r == Call::Return(e) && x == w,
                Ok(id) => {
                    let fresh = final(net)@.sock(id as int)->0.backlog.last();
                    (r, x) == accept_result(w, id, args.arg1, args.arg2, 0, fresh, final(net)@.polls, c as int)
                },
            }
        }),
        joint_wf(final(net)@, final(sched)@),
        r is Return ==> active(final(sched)@, c as int),
{
    let accept4_args = SyscallArgs {
        nr: 288,
        arg0: args.arg0,
        arg1: args.arg1,
        arg2: args.arg2,
        arg3: 0,
        arg4: 0,
        arg5: 0,
        caller_rip: args.caller_rip,
        caller_rflags: args.caller_rflags,
    };
    sys_accept4(&accept4_args, fds, net, sched, um, c, clock, tsc)
}

/// What a look at a socket that connects comes to.
pub open spec fn connect_wait(n: Net, id: int) -> Wait {
    match n.sock(id) {
        None => Wait::Ready(EBADF),
        Some(o) => match o.handle {
            None => Wait::Ready(ENOTCONN),
            Some(h) => if n.socks[h].may_send() {
                Wait::Ready(0)
            } else if !n.socks[h].is_active() {
                Wait::Ready(ECONNREFUSED)
            } else {
                Wait::Block
            },
        },
    }
}

/// Looks whether a socket has been connected.
pub fn connect_attempt<D>(net: &NetStateInner<D>, id: usize) -> (r: Wait)
    requires
        net@.wf(),
    ensures
        r == connect_wait(net@, id as int),
{
    let handle = match net.socket_get(id) {
        None => {
            return Wait::Ready(EBADF);
        },
        Some(obj) => obj.handle,
    };
    match handle {
        None => Wait::Ready(ENOTCONN),
        Some(h) => {
            assert(net@.uses(h, Place::Stream(id as int)));
            if may_send(&net.sockets, h) {
                Wait::Ready(0)
            } else if !is_active(&net.sockets, h) {
                Wait::Ready(ECONNREFUSED)
            } else {
                Wait::Block
            }
        },
    }
}

/// What waiting for a connection comes to.
pub open spec fn connect_result(s: Sys, id: usize, q: Seq<Poll>, c: int) -> (Call, Sys) {
    let t = after_first(s, connect_wait(s.net, id as int), q, c);
    match connect_wait(t.net, id as int) {
        Wait::Ready(v) => (Call::Return(v), t),
        Wait::Block => (call_of(parking_of(t, c), Again::Connect { id }), parked_sys(t, c, false)),
    }
}

/// Waits until a socket has been connected, or refused.
pub fn connect_on<D: PollDevice>(net: &mut NetStateInner<D>, sched: &mut Scheduler, id: usize, c: u32, clock: &Clock, tsc: u64) -> (r:
    Call)
    requires
        joint_wf(old(net)@, old(sched)@),
        active(old(sched)@, c as int),
    ensures
        advanced_at(old(net)@.polls, final(net)@.polls, *clock, tsc),
        (r, sys(final(net)@, final(sched)@)) == connect_result(
            sys(old(net)@, old(sched)@),
            id,
            final(net)@.polls,
            c as int,
        ),
        joint_wf(final(net)@, final(sched)@),
        r is Return ==> active(final(sched)@, c as int),
{
    if let Wait::Ready(v) = connect_attempt(net, id) {
        return Call::Return(v);
    }
    net.poll_and_wake(sched, c, clock, tsc);
    if let Wait::Ready(v) = connect_attempt(net, id) {
        return Call::Return(v);
    }
    into_call(net.net_wait(sched, c, None, 0, 0), Again::Connect { id })
}

/// A socket that has begun to connect.
pub open spec fn connecting(local: u32, port: u16, remote: Endpoint) -> TcpInfo {
    TcpInfo {
        state: TcpState::SynSent,
        local: Some(Endpoint { addr: local, port }),
        remote: Some(remote),
        ..new_socket()
    }
}

/// The state after socket object `id` began to connect through the new socket `h`.
pub open spec fn with_connection(n: Net, id: int, h: SocketHandle, remote: Endpoint) -> Net {
    let o = n.sock(id)->0;
    let m = with_next_port(n).with_sock(id, Some(Sock { handle: Some(h), ..o }));
    Net { socks: n.socks.insert(h, connecting(n.addrs[0], n.next_ephemeral, remote)), ..m }
}

proof fn lemma_with_connection(n: Net, id: int, h: SocketHandle, remote: Endpoint)
    requires
        n.wf(),
        n.sock(id) matches Some(o) && o.handle is None,
        !n.socks.contains_key(h),
    ensures
        with_connection(n, id, h, remote).wf(),
{
    let m = with_connection(n, id, h, remote);
    assert forall|g: SocketHandle, p: Place| #[trigger] m.uses(g, p) implies n.uses(g, p) && n.socks.contains_key(g) || (p
        == Place::Stream(id) && g == h) by {
        match p {
            Place::Stream(i) => {
                if i != id {
                    assert(n.uses(g, p));
                }
            },
            Place::Backlog(i, k) => {
                assert(n.uses(g, p));
            },
            Place::Closing(k) => {
                assert(n.uses(g, p));
            },
        }
    }
    assert forall|g: SocketHandle, p: Place| #[trigger] m.uses(g, p) implies m.socks.contains_key(g) by {}
    assert forall|g: SocketHandle, p: Place, q: Place| #[trigger] m.uses(g, p) && #[trigger] m.uses(g, q) implies p == q by {
        if g != h {
            assert(n.uses(g, p) && n.uses(g, q));
        }
    }
    assert forall|j: int| 0 <= j < m.pipetab.len() implies ((#[trigger] m.pipetab[j]) matches Some(x) ==> x.buf.len() <= PIPE_CAPACITY) by {
        assert(n.pipetab[j] matches Some(x) ==> x.buf.len() <= PIPE_CAPACITY);
    }
}

/// What connecting socket object `id` to an endpoint comes to.
pub open spec fn connect_started(s: Sys, id: usize, ep: Endpoint, h: SocketHandle, q: Seq<Poll>, c: int) -> (Call, Sys) {
    let n = s.net;
    match n.sock(id as int) {
        None => (Call::Return(EBADF), s),
        Some(o) => if o.handle is Some {
            (Call::Return(EISCONN), s)
        } else if unaddressable(n.addrs, ep, n.next_ephemeral) {
            (Call::Return(EINVAL), Sys { net: with_next_port(n), ..s })
        } else {
            let t = polled_sys(Sys { net: with_connection(n, id as int, h, ep), ..s }, q[n.polls.len() as int], c);
            if o.nonblocking { (Call::Return(EINPROGRESS), t) } else { connect_result(t, id, q, c) }
        },
    }
}

/// Connects a socket.
pub fn sys_connect<D: PollDevice, M: Memory>(
    args: &SyscallArgs,
    fds: &FdTable,
    net: &mut NetStateInner<D>,
    sched: &mut Scheduler,
    um: &M,
    c: u32,
    clock: &Clock,
    tsc: u64,
) -> (r: Call)
    requires
        joint_wf(old(net)@, old(sched)@),
        active(old(sched)@, c as int),
        sock_of(fds@, args.arg0) is Ok && args.arg1 != 0 && args.arg2 as u32 >= SOCKADDR_LEN ==> reachable(um, args.arg1, 16),
    ensures
        advanced_at(old(net)@.polls, final(net)@.polls, *clock, tsc),
        ({
            let s = sys(old(net)@, old(sched)@);
            let t = sys(final(net)@, final(sched)@);
            match sock_of(fds@, args.arg0) {
                Err(e) => r == Call::Return(e) && t == s,
                Ok(id) => match parsed(um, args.arg1, args.arg2 as u32) {
                    Err(e) => r == Call::Return(e) && t == s,
                    Ok(ep) => {
                        let h = final(net)@.sock(id as int)->0.handle->0;
                        (r, t) == connect_started(s, id, ep, h, final(net)@.polls, c as int)
                    },
                },
            }
        }),
        joint_wf(final(net)@, final(sched)@),
        r is Return ==> active(final(sched)@, c as int),
{
    let id = match socket_fd(fds, args.arg0) {
        Ok(id) => id,
        Err(e) => {
            return Call::Return(e);
        },
    };
    let len: u32 = #[verifier::truncate]
    (args.arg2 as u32);
    let ep = match parse_sockaddr(um, args.arg1, len) {
        Ok(ep) => ep,
        Err(e) => {
            return Call::Return(e);
        },
    };
    let ghost n = net@;
    let (taken, nonblocking) = match net.socket_get(id) {
        None => {
            return Call::Return(EBADF);
        },
        Some(obj) => (obj.handle.is_some(), obj.nonblocking),
    };
    if taken {
        return Call::Return(EISCONN);
    }
    let port = net.alloc_ephemeral();
    let mut s = new_tcp();
    match connect(&mut s, &mut net.iface, ep, port) {
        Ok(()) => {},
        Err(ConnectError::Unaddressable) => {
            assert(net@ =~= with_next_port(n));
            return Call::Return(EINVAL);
        },
        Err(ConnectError::InvalidState) => {
            return Call::Return(EISCONN);
        },
    }
    let h = add_socket(&mut net.sockets, s);
    if let Some(obj) = net.socket_get_mut(id) {
        obj.handle = Some(h);
    }
    proof {
        assert(net@ =~= with_connection(n, id as int, h, ep));
        lemma_with_connection(n, id as int, h, ep);
    }
    net.poll_and_wake(sched, c, clock, tsc);
    if nonblocking {
        return Call::Return(EINPROGRESS);
    }
    connect_on(net, sched, id, c, clock, tsc)
}

/// What a transfer between the user and socket object `id` comes to.
pub open spec fn sock_transfer(s: Sys, m: Mem, id: usize, op: StreamOp, q: Seq<Poll>, c: int) -> (Call, Sys, Mem) {
    if op.size() > 0 && op.at() == 0 {
        (Call::Return(EFAULT), s, m)
    } else {
        match s.net.sock(id as int) {
            None => (Call::Return(EBADF), s, m),
            Some(o) => {
                let w = started(s, m, op, o.nonblocking, q, c);
                (call_of(w.ret, Again::Stream(op)), w.sys, w.mem)
            },
        }
    }
}

/// The user's bytes are read or written.
pub open spec fn moves(n: Net, id: usize, op: StreamOp) -> bool {
    op.size() > 0 && op.at() != 0 && n.sock(id as int) is Some
}

fn transfer<D: PollDevice, M: Memory>(
    net: &mut NetStateInner<D>,
    sched: &mut Scheduler,
    um: &mut M,
    id: usize,
    op: StreamOp,
    addr: u64,
    len: u64,
    c: u32,
    clock: &Clock,
    tsc: u64,
) -> (r: Call)
    requires
        op.at() == addr,
        op.size() == len,
        joint_wf(old(net)@, old(sched)@),
        active(old(sched)@, c as int),
        moves(old(net)@, id, op) ==> reachable(old(um), addr, len as int),
    ensures
        advanced_at(old(net)@.polls, final(net)@.polls, *clock, tsc),
        (r, sys(final(net)@, final(sched)@), mem(final(um))) == sock_transfer(
            sys(old(net)@, old(sched)@),
            mem(old(um)),
            id,
            op,
            final(net)@.polls,
            c as int,
        ),
        joint_wf(final(net)@, final(sched)@),
        r is Return ==> active(final(sched)@, c as int),
{
    if len > 0 && addr == 0 {
        return Call::Return(EFAULT);
    }
    let nonblocking = match net.socket_get(id) {
        Some(obj) => obj.nonblocking,
        None => {
            return Call::Return(EBADF);
        },
    };
    into_call(stream::start(net, sched, um, op, nonblocking, c, clock, tsc), Again::Stream(op))
}

/// Receives bytes from socket object `id`.
pub fn sock_read<D: PollDevice, M: Memory>(
    net: &mut NetStateInner<D>,
    sched: &mut Scheduler,
    um: &mut M,
    id: usize,
    addr: u64,
    len: u64,
    c: u32,
    clock: &Clock,
    tsc: u64,
) -> (r: Call)
    requires
        joint_wf(old(net)@, old(sched)@),
        active(old(sched)@, c as int),
        moves(old(net)@, id, (StreamOp::Recv { id, addr, len })) ==> reachable(old(um), addr, len as int),
    ensures
        advanced_at(old(net)@.polls, final(net)@.polls, *clock, tsc),
        (r, sys(final(net)@, final(sched)@), mem(final(um))) == sock_transfer(
            sys(old(net)@, old(sched)@),
            mem(old(um)),
            id,
            (StreamOp::Recv { id, addr, len }),
            final(net)@.polls,
            c as int,
        ),
        joint_wf(final(net)@, final(sched)@),
        r is Return ==> active(final(sched)@, c as int),
{
    transfer(net, sched, um, id, StreamOp::Recv { id, addr, len }, addr, len, c, clock, tsc)
}

/// Sends bytes through socket object `id`.
pub fn sock_write<D: PollDevice, M: Memory>(
    net: &mut NetStateInner<D>,
    sched: &mut Scheduler,
    um: &mut M,
    id: usize,
    addr: u64,
    len: u64,
    c: u32,
    clock: &Clock,
    tsc: u64,
) -> (r: Call)
    requires
        joint_wf(old(net)@, old(sched)@),
        active(old(sched)@, c as int),
        moves(old(net)@, id, (StreamOp::Send { id, addr, len })) ==> reachable(old(um), addr, len as int),
    ensures
        advanced_at(old(net)@.polls, final(net)@.polls, *clock, tsc),
        (r, sys(final(net)@, final(sched)@), mem(final(um))) == sock_transfer(
            sys(old(net)@, old(sched)@),
            mem(old(um)),
            id,
            (StreamOp::Send { id, addr, len }),
            final(net)@.polls,
            c as int,
        ),
        joint_wf(final(net)@, final(sched)@),
        r is Return ==> active(final(sched)@, c as int),
{
    transfer(net, sched, um, id, StreamOp::Send { id, addr, len }, addr, len, c, clock, tsc)
}

/// The length of one transfer, which a 32-bit number can hold.
pub open spec fn capped(len: u64) -> u64 {
    if len < u32::MAX { len } else { u32::MAX as u64 }
}

/// Sends bytes through a connected socket. The address arguments are ignored.
pub fn sys_sendto<D: PollDevice, M: Memory>(
    args: &SyscallArgs,
    fds: &FdTable,
    net: &mut NetStateInner<D>,
    sched: &mut Scheduler,
    um: &mut M,
    c: u32,
    clock: &Clock,
    tsc: u64,
) -> (r: Call)
    requires
        joint_wf(old(net)@, old(sched)@),
        active(old(sched)@, c as int),
        sock_of(fds@, args.arg0) matches Ok(id) ==> (moves(
            old(net)@,
            id,
            (StreamOp::Send { id, addr: args.arg1, len: capped(args.arg2) }),
        ) ==> reachable(old(um), args.arg1, capped(args.arg2) as int)),
    ensures
        advanced_at(old(net)@.polls, final(net)@.polls, *clock, tsc),
        ({
            let s = sys(old(net)@, old(sched)@);
            let t = sys(final(net)@, final(sched)@);
            match sock_of(fds@, args.arg0) {
                Err(e) => (r, t, mem(final(um))) == (Call::Return(e), s, mem(old(um))),
                Ok(id) => {
                    let op = StreamOp::Send { id, addr: args.arg1, len: capped(args.arg2) };
                    (r, t, mem(final(um))) == sock_transfer(s, mem(old(um)), id, op, final(net)@.polls, c as int)
                },
            }
        }),
        joint_wf(final(net)@, final(sched)@),
        r is Return ==> active(final(sched)@, c as int),
{
    let id = match socket_fd(fds, args.arg0) {
        Ok(id) => id,
        Err(e) => {
            return Call::Return(e);
        },
    };
    let len: u64 = if args.arg2 < u32::MAX as u64 { args.arg2 } else { u32::MAX as u64 };
    sock_write(net, sched, um, id, args.arg1, len, c, clock, tsc)
}

/// Receives bytes from a connected socket. The address arguments are ignored.
pub fn sys_recvfrom<D: PollDevice, M: Memory>(
    args: &SyscallArgs,
    fds: &FdTable,
    net: &mut NetStateInner<D>,
    sched: &mut Scheduler,
    um: &mut M,
    c: u32,
    clock: &Clock,
    tsc: u64,
) -> (r: Call)
    requires
        joint_wf(old(net)@, old(sched)@),
        active(old(sched)@, c as int),
        sock_of(fds@, args.arg0) matches Ok(id) ==> (moves(
            old(net)@,
            id,
            (StreamOp::Recv { id, addr: args.arg1, len: capped(args.arg2) }),
        ) ==> reachable(old(um), args.arg1, capped(args.arg2) as int)),
    ensures
        advanced_at(old(net)@.polls, final(net)@.polls, *clock, tsc),
        ({
            let s = sys(old(net)@, old(sched)@);
            let t = sys(final(net)@, final(sched)@);
            match sock_of(fds@, args.arg0) {
                Err(e) => (r, t, mem(final(um))) == (Call::Return(e), s, mem(old(um))),
                Ok(id) => {
                    let op = StreamOp::Recv { id, addr: args.arg1, len: capped(args.arg2) };
                    (r, t, mem(final(um))) == sock_transfer(s, mem(old(um)), id, op, final(net)@.polls, c as int)
                },
            }
        }),
        joint_wf(final(net)@, final(sched)@),
        r is Return ==> active(final(sched)@, c as int),
{
    let id = match socket_fd(fds, args.arg0) {
        Ok(id) => id,
        Err(e) => {
            return Call::Return(e);
        },
    };
    let len: u64 = if args.arg2 < u32::MAX as u64 { args.arg2 } else { u32::MAX as u64 };
    sock_read(net, sched, um, id, args.arg1, len, c, clock, tsc)
}

/// What sending or receiving a message through a descriptor comes to.
pub open spec fn message(
    fds: Seq<Option<FileDescriptor>>,
    s: Sys,
    m: Mem,
    args: &SyscallArgs,
    receives: bool,
    q: Seq<Poll>,
    c: int,
) -> (Call, Sys, Mem) {
    match sock_of(fds, args.arg0) {
        Err(e) => (Call::Return(e), s, m),
        Ok(id) => if args.arg1 == 0 {
            (Call::Return(EFAULT), s, m)
        } else {
            match s.net.sock(id as int) {
                None => (Call::Return(EBADF), s, m),
                Some(o) => gathered(
                    s,
                    m,
                    message_gather(id, o.nonblocking, receives),
                    m.word(args.arg1 + 16),
                    m.word(args.arg1 + 24),
                    0,
                    0,
                    q,
                    c,
                ),
            }
        },
    }
}

pub open spec fn message_gather(id: usize, nonblocking: bool, receives: bool) -> Gather {
    if receives { Gather::Recv { id, nonblocking } } else { Gather::Send { id, nonblocking } }
}

/// The message header and what it describes can be read and written, if they are.
pub open spec fn message_ok(fds: Seq<Option<FileDescriptor>>, s: Sys, m: Mem, args: &SyscallArgs, receives: bool, c: int) -> bool {
    sock_of(fds, args.arg0) matches Ok(id) ==> (s.net.sock(id as int) matches Some(o) ==> (args.arg1 != 0 ==> {
        let iov = m.word(args.arg1 + 16);
        let count = m.word(args.arg1 + 24);
        &&& m.reaches(args.arg1, 32)
        &&& usable(s, m, message_gather(id, o.nonblocking, receives), iov, count, 0, 0, c)
    }))
}

fn message_call<D: PollDevice, M: Memory>(
    args: &SyscallArgs,
    fds: &FdTable,
    net: &mut NetStateInner<D>,
    sched: &mut Scheduler,
    um: &mut M,
    receives: bool,
    c: u32,
    clock: &Clock,
    tsc: u64,
) -> (r: Call)
    requires
        joint_wf(old(net)@, old(sched)@),
        active(old(sched)@, c as int),
        message_ok(fds@, sys(old(net)@, old(sched)@), mem(old(um)), args, receives, c as int),
    ensures
        advanced_at(old(net)@.polls, final(net)@.polls, *clock, tsc),
        (r, sys(final(net)@, final(sched)@), mem(final(um))) == message(
            fds@,
            sys(old(net)@, old(sched)@),
            mem(old(um)),
            args,
            receives,
            final(net)@.polls,
            c as int,
        ),
        joint_wf(final(net)@, final(sched)@),
        r is Return ==> active(final(sched)@, c as int),
{
    let id = match socket_fd(fds, args.arg0) {
        Ok(id) => id,
        Err(e) => {
            return Call::Return(e);
        },
    };
    if args.arg1 == 0 {
        return Call::Return(EFAULT);
    }
    let nonblocking = match net.socket_get(id) {
        Some(obj) => obj.nonblocking,
        None => {
            return Call::Return(EBADF);
        },
    };
    let iov = read_u64(um, args.arg1 + 16);
    let count = read_u64(um, args.arg1 + 24);
    let g = if receives { Gather::Recv { id, nonblocking } } else { Gather::Send { id, nonblocking } };
    gather_from(net, sched, um, g, iov, count, 0, 0, c, clock, tsc)
}

/// Sends a message.
pub fn sys_sendmsg<D: PollDevice, M: Memory>(
    args: &SyscallArgs,
    fds: &FdTable,
    net: &mut NetStateInner<D>,
    sched: &mut Scheduler,
    um: &mut M,
    c: u32,
    clock: &Clock,
    tsc: u64,
) -> (r: Call)
    requires
        joint_wf(old(net)@, old(sched)@),
        active(old(sched)@, c as int),
        message_ok(fds@, sys(old(net)@, old(sched)@), mem(old(um)), args, false, c as int),
    ensures
        advanced_at(old(net)@.polls, final(net)@.polls, *clock, tsc),
        (r, sys(final(net)@, final(sched)@), mem(final(um))) == message(
            fds@,
            sys(old(net)@, old(sched)@),
            mem(old(um)),
            args,
            false,
            final(net)@.polls,
            c as int,
        ),
        joint_wf(final(net)@, final(sched)@),
        r is Return ==> active(final(sched)@, c as int),
{
    message_call(args, fds, net, sched, um, false, c, clock, tsc)
}

/// Receives a message.
pub fn sys_recvmsg<D: PollDevice, M: Memory>(
    args: &SyscallArgs,
    fds: &FdTable,
    net: &mut NetStateInner<D>,
    sched: &mut Scheduler,
    um: &mut M,
    c: u32,
    clock: &Clock,
    tsc: u64,
) -> (r: Call)
    requires
        joint_wf(old(net)@, old(sched)@),
        active(old(sched)@, c as int),
        message_ok(fds@, sys(old(net)@, old(sched)@), mem(old(um)), args, true, c as int),
    ensures
        advanced_at(old(net)@.polls, final(net)@.polls, *clock, tsc),
        (r, sys(final(net)@, final(sched)@), mem(final(um))) == message(
            fds@,
            sys(old(net)@, old(sched)@),
            mem(old(um)),
            args,
            true,
            final(net)@.polls,
            c as int,
        ),
        joint_wf(final(net)@, final(sched)@),
        r is Return ==> active(final(sched)@, c as int),
{
    message_call(args, fds, net, sched, um, true, c, clock, tsc)
}

/// Ends the sending half of a connection, whatever half is asked for.
pub fn sys_shutdown<D: PollDevice>(
    args: &SyscallArgs,
    fds: &FdTable,
    net: &mut NetStateInner<D>,
    sched: &mut Scheduler,
    c: u32,
    clock: &Clock,
    tsc: u64,
) -> (r: i64)
    requires
        joint_wf(old(net)@, old(sched)@),
        active(old(sched)@, c as int),
    ensures
        advanced_at(old(net)@.polls, final(net)@.polls, *clock, tsc),
        ({
            let s = sys(old(net)@, old(sched)@);
            let t = sys(final(net)@, final(sched)@);
            let n = s.net;
            match sock_of(fds@, args.arg0) {
                Err(e) => r == e && t == s,
                Ok(id) => match n.sock(id as int) {
                    None => r == EBADF && t == s,
                    Some(o) => match o.handle {
                        None => r == ENOTCONN && t == s,
                        Some(h) => {
                            let m = n.with_tcp(h, closed(n.socks[h]));
                            r == 0 && t == polled_sys(sys(m, s.sched), final(net)@.polls.last(), c as int)
                        },
                    },
                },
            }
        }),
        joint_wf(final(net)@, final(sched)@),
        active(final(sched)@, c as int),
{
    let id = match socket_fd(fds, args.arg0) {
        Ok(id) => id,
        Err(e) => {
            return e;
        },
    };
    let ghost n = net@;
    let handle = match net.socket_get(id) {
        None => {
            return EBADF;
        },
        Some(obj) => obj.handle,
    };
    let h = match handle {
        None => {
            return ENOTCONN;
        },
        Some(h) => h,
    };
    proof {
        assert(n.uses(h, Place::Stream(id as int)));
    }
    close(&mut net.sockets, h);
    proof {
        assert(net@ =~= n.with_tcp(h, closed(n.socks[h])));
        lemma_with_tcp(n, h, closed(n.socks[h]));
    }
    net.poll_and_wake(sched, c, clock, tsc);
    0
}

/// The address of a socket: that of its connection, or the one it was given, or none.
pub open spec fn name_of(n: Net, o: Sock) -> Endpoint {
    match match o.handle {
        Some(h) => n.socks[h].local,
        None => o.local,
    } {
        Some(ep) => ep,
        None => Endpoint { addr: 0, port: 0 },
    }
}

/// The memory after the name of a socket without an address was written.
pub open spec fn unix_name_written(m: Mem, addr: u64, len_ptr: u64) -> Mem {
    if addr != 0 && len_ptr != 0 && from_le32(m.range(len_ptr as int, 4)) >= 2 {
        m.stored(addr as int, seq![1u8, 0u8]).stored(len_ptr as int, le32(2))
    } else {
        m
    }
}

/// Tells the address of a socket.
pub fn sys_getsockname<D, M: Memory>(args: &SyscallArgs, fds: &FdTable, net: &NetStateInner<D>, um: &mut M) -> (r: i64)
    requires
        net@.wf(),
        name_fits(fds@, net@, mem(old(um)), args),
    ensures
        match sock_of(fds@, args.arg0) {
            Err(e) => r == e && mem(final(um)) == mem(old(um)),
            Ok(id) => match net@.sock(id as int) {
                None => r == EBADF && mem(final(um)) == mem(old(um)),
                Some(o) => r == 0 && mem(final(um)) == (if o.domain == AF_UNIX {
                    unix_name_written(mem(old(um)), args.arg1, args.arg2)
                } else {
                    sockaddr_written(mem(old(um)), args.arg1, args.arg2, name_of(net@, o))
                }),
            },
        },
{
    let id = match socket_fd(fds, args.arg0) {
        Ok(id) => id,
        Err(e) => {
            return e;
        },
    };
    let (domain, handle, bound) = match net.socket_get(id) {
        None => {
            return EBADF;
        },
        Some(obj) => (obj.domain, obj.handle, obj.local),
    };
    if domain == AF_UNIX {
        if args.arg1 != 0 && args.arg2 != 0 {
            let cap = read_u32(um, args.arg2);
            if cap >= 2 {
                let family: Vec<u8> = vec![1u8, 0u8];
                assert(family@ =~= seq![1u8, 0u8]);
                write_bytes(um, args.arg1, family.as_slice());
                write_u32(um, args.arg2, 2);
            }
        }
        return 0;
    }
    let local = match handle {
        Some(h) => {
            assert(net@.uses(h, Place::Stream(id as int)));
            local_endpoint(&net.sockets, h)
        },
        None => bound,
    };
    let ep = match local {
        Some(ep) => ep,
        None => Endpoint { addr: 0, port: 0 },
    };
    match write_sockaddr(um, args.arg1, args.arg2, ep) {
        Ok(()) => 0,
        Err(e) => e,
    }
}

/// There is room for the name of a socket, if it is written.
pub open spec fn name_fits(fds: Seq<Option<FileDescriptor>>, n: Net, m: Mem, args: &SyscallArgs) -> bool {
    sock_of(fds, args.arg0) matches Ok(id) ==> (n.sock(id as int) matches Some(o) ==> if o.domain == AF_UNIX {
        args.arg1 != 0 && args.arg2 != 0 ==> m.reaches(args.arg2, 4) && (from_le32(m.range(args.arg2 as int, 4)) >= 2 ==> m.reaches(
            args.arg1,
            2,
        ))
    } else {
        args.arg1 != 0 ==> m.reaches(args.arg1, 16) && (args.arg2 != 0 ==> m.reaches(args.arg2, 4))
    })
}

/// The other side of the connection of a socket.
pub open spec fn peer_of(n: Net, fds: Seq<Option<FileDescriptor>>, fd: u64) -> Result<Endpoint, i64> {
    match sock_of(fds, fd) {
        Err(e) => Err(e),
        Ok(id) => match n.sock(id as int) {
            None => Err(EBADF),
            Some(o) => match o.handle {
                None => Err(ENOTCONN),
                Some(h) => match n.socks[h].remote {
                    None => Err(ENOTCONN),
                    Some(ep) => Ok(ep),
                },
            },
        },
    }
}

/// Tells the address of the other side of a connection.
pub fn sys_getpeername<D, M: Memory>(args: &SyscallArgs, fds: &FdTable, net: &NetStateInner<D>, um: &mut M) -> (r: i64)
    requires
        net@.wf(),
        peer_of(net@, fds@, args.arg0) is Ok ==> takes_addr(old(um), args.arg1, args.arg2),
    ensures
        match peer_of(net@, fds@, args.arg0) {
            Err(e) => r == e && mem(final(um)) == mem(old(um)),
            Ok(ep) => r == 0 && mem(final(um)) == sockaddr_written(mem(old(um)), args.arg1, args.arg2, ep),
        },
{
    let id = match socket_fd(fds, args.arg0) {
        Ok(id) => id,
        Err(e) => {
            return e;
        },
    };
    let handle = match net.socket_get(id) {
        None => {
            return EBADF;
        },
        Some(obj) => obj.handle,
    };
    let h = match handle {
        None => {
            return ENOTCONN;
        },
        Some(h) => h,
    };
    assert(net@.uses(h, Place::Stream(id as int)));
    let ep = match remote_endpoint(&net.sockets, h) {
        None => {
            return ENOTCONN;
        },
        Some(ep) => ep,
    };
    match write_sockaddr(um, args.arg1, args.arg2, ep) {
        Ok(()) => 0,
        Err(e) => e,
    }
}

/// Accepts every option of a socket, and ignores it.
pub fn sys_setsockopt(args: &SyscallArgs, fds: &FdTable) -> (r: i64)
    ensures
        r == (match sock_of(fds@, args.arg0) {
            Ok(_) => 0,
            Err(e) => e,
        }),
{
    match socket_fd(fds, args.arg0) {
        Ok(_) => 0,
        Err(e) => e,
    }
}

/// The memory after the value 0 of an option was written.
pub open spec fn zero_option_written(m: Mem, val: u64, len_ptr: u64) -> Mem {
    if val != 0 && len_ptr != 0 && from_le32(m.range(len_ptr as int, 4)) >= 4 {
        m.stored(val as int, le32(0)).stored(len_ptr as int, le32(4))
    } else {
        m
    }
}

/// Tells 0 for every option of a socket.
pub fn sys_getsockopt<M: Memory>(args: &SyscallArgs, fds: &FdTable, um: &mut M) -> (r: i64)
    requires
        sock_of(fds@, args.arg0) is Ok && args.arg3 != 0 && args.arg4 != 0 ==> {
            &&& reachable(old(um), args.arg4, 4)
            &&& from_le32(mem(old(um)).range(args.arg4 as int, 4)) >= 4 ==> reachable(old(um), args.arg3, 4)
        },
    ensures
        match sock_of(fds@, args.arg0) {
            Err(e) => r == e && mem(final(um)) == mem(old(um)),
            Ok(_) => r == 0 && mem(final(um)) == zero_option_written(mem(old(um)), args.arg3, args.arg4),
        },
{
    if let Err(e) = socket_fd(fds, args.arg0) {
        return e;
    }
    if args.arg3 == 0 || args.arg4 == 0 {
        return 0;
    }
    let cap = read_u32(um, args.arg4);
    if cap < 4 {
        return 0;
    }
    write_u32(um, args.arg3, 0);
    write_u32(um, args.arg4, 4);
    0
}

} // verus!
