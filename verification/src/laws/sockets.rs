//! Sockets: addresses, connections, and the bytes that go through them.

use smoltcp::iface::SocketHandle;
use vstd::prelude::*;

use super::descriptors::{is_open, opened};
use super::streams::came_to;
use super::words::{byte_at, u32_at};
use crate::fs::fd_table::{law_lowest_free, FdKind, FdTable, FileDescriptor};
use crate::memory::access::{le32, mem, range, reachable, within, Mem, Memory};
use crate::net::device::{PollDevice};
use crate::net::socket::{plain_stream, Sock};
use crate::net::state::{law_lowest_slot, lowest_slot, still_closing, with_new, Net, NetStateInner, Place};
use crate::net::stream::{polled_sys, sys};
use crate::net::tcp::{Endpoint, TcpInfo};
use crate::sched::scheduler::Scheduler;
use crate::syscall::args::SyscallArgs;
use crate::syscall::blocking::Call;
use crate::syscall::handlers::net::{
    accept_after, accept_wait, accepts, arrived, first_arrival, law_first_arrival, sys_accept4, sys_bind, sys_connect, sys_getpeername, sys_getsockname, sys_listen, sys_recvfrom, sys_sendto,
    sys_shutdown, sys_socket,
};
use crate::time::Clock;

verus! {

/// The descriptor is a socket with this id, and there is one.
pub open spec fn is_socket(fds: Seq<Option<FileDescriptor>>, n: Net, fd: u64, id: usize) -> bool {
    &&& is_open(fds, fd as int) && fd <= i64::MAX
    &&& (fds[fd as int]->0).kind == FdKind::Socket { id }
    &&& id < n.socktab.len() && n.socktab[id as int] is Some
}

/// The socket object with this id.
pub open spec fn object(n: Net, id: usize) -> Sock {
    n.socktab[id as int]->0
}

/// All other objects are as they were.
pub open spec fn same_objects_but(a: Net, b: Net, id: int) -> bool {
    &&& b.socktab.len() >= a.socktab.len()
    &&& forall|k: int| 0 <= k < a.socktab.len() && k != id ==> #[trigger] b.socktab[k] == a.socktab[k]
}

/// The address in memory: the family, then the port and the address with their highest bytes first.
pub open spec fn address_at<M: Memory>(um: &M, at: int, ep: Endpoint) -> bool {
    &&& byte_at(um, at) == 2 && byte_at(um, at + 1) == 0
    &&& byte_at(um, at + 2) * 0x100 + byte_at(um, at + 3) == ep.port
    &&& byte_at(um, at + 4) * 0x100_0000 + byte_at(um, at + 5) * 0x1_0000 + byte_at(um, at + 6) * 0x100 + byte_at(um, at + 7) == ep.addr
}

proof fn lemma_parsed<M: Memory>(um: &M, at: u64, len: u32)
    requires
        at != 0,
        len >= 16,
        within(um, at as int, 16),
    ensures
        match crate::net::abi::parsed(um, at, len) {
            Ok(ep) => address_at(um, at as int, ep),
            Err(e) => e == -97 && (byte_at(um, at as int) != 2 || byte_at(um, at + 1) != 0),
        },
{
    let s = range(um, at as int, 16);
    assert(s[0] == um.bytes()[at - um.base()] && s[1] == um.bytes()[at + 1 - um.base()] && s[2] == um.bytes()[at + 2 - um.base()] && s[3]
        == um.bytes()[at + 3 - um.base()] && s[4] == um.bytes()[at + 4 - um.base()] && s[5] == um.bytes()[at + 5 - um.base()] && s[6]
        == um.bytes()[at + 6 - um.base()] && s[7] == um.bytes()[at + 7 - um.base()]);
}

proof fn lemma_written<M: Memory>(m: Mem, um: &M, at: u64, len_at: u64, ep: Endpoint)
    requires
        mem(um) == crate::net::abi::sockaddr_written(m, at, len_at, ep),
        at != 0,
        m.base <= at && at + 16 <= m.base + m.bytes.len(),
        len_at != 0 ==> m.base <= len_at && len_at + 4 <= m.base + m.bytes.len() && (len_at + 4 <= at || at + 16 <= len_at),
    ensures
        address_at(um, at as int, ep),
        len_at != 0 ==> u32_at(um, len_at as int) == 16,
{
    let s = crate::net::abi::sockaddr_of(ep);
    let o = at - m.base;
    assert(um.bytes() == mem(um).bytes);
    assert(um.bytes()[o] == s[0] && um.bytes()[o + 1] == s[1] && um.bytes()[o + 2] == s[2] && um.bytes()[o + 3] == s[3] && um.bytes()[o + 4]
        == s[4] && um.bytes()[o + 5] == s[5] && um.bytes()[o + 6] == s[6] && um.bytes()[o + 7] == s[7]);
    if len_at != 0 {
        let l = le32(16);
        let q = len_at - m.base;
        assert(um.bytes()[q] == l[0] && um.bytes()[q + 1] == l[1] && um.bytes()[q + 2] == l[2] && um.bytes()[q + 3] == l[3]);
    }
}

/// A new socket is a stream that is not connected, of the family that was asked for, and waits unless it was told not to.
pub proof fn law_new_socket_is_a_stream<D>(args: &SyscallArgs, fds: &mut FdTable, net: &mut NetStateInner<D>, r: i64)
    requires
        call_ensures(sys_socket::<D>, (args, fds, net), r),
        old(fds)@.len() < i64::MAX,
        old(net)@.socktab.len() < u32::MAX,
    ensures
        ({
            let family = args.arg0 as u16;
            let kind = (args.arg1 as u32 & 0xff) as u16;
            let a = old(net)@;
            let b = final(net)@;
            let d = final(fds)@[r as int]->0;
            let waits = args.arg1 as u32 & 0x800 == 0;
            if family != 1 && family != 2 && family != 10 {
                r == -97 && b == a && final(fds)@ == old(fds)@
            } else if kind != 1 {
                r == -93 && b == a && final(fds)@ == old(fds)@
            } else {
                &&& opened(old(fds)@, final(fds)@, r as int, d)
                &&& d.flags == (if waits { 0u32 } else { 0x800 })
                &&& d.kind matches FdKind::Socket { id } && {
                    &&& id < b.socktab.len() && b.socktab[id as int] is Some
                    &&& id < a.socktab.len() ==> a.socktab[id as int] is None
                    &&& same_objects_but(a, b, id as int)
                    &&& object(b, id).domain == family && object(b, id).nonblocking == !waits && object(b, id).role is Stream
                    &&& object(b, id).handle is None && object(b, id).local is None && object(b, id).backlog.len() == 0
                }
            }
        }),
{
    law_lowest_free(old(fds)@, 0);
    law_lowest_slot(old(net)@.socktab, 0);
}

/// A socket that was bound has the address that was given, and is the same else.
pub proof fn law_bind_keeps_the_address<D, M: Memory>(args: &SyscallArgs, fds: &FdTable, net: &mut NetStateInner<D>, um: &M, id: usize, r: i64)
    requires
        call_ensures(sys_bind::<D, M>, (args, fds, net, um), r),
        is_socket(fds@, old(net)@, args.arg0, id),
        object(old(net)@, id).domain != 1,
        args.arg1 != 0,
        args.arg2 as u32 >= 16,
        within(um, args.arg1 as int, 16),
    ensures
        ({
            let a = object(old(net)@, id);
            let b = object(final(net)@, id);
            &&& r == 0 ==> (b.local matches Some(ep) && address_at(um, args.arg1 as int, ep)) && b == (Sock { local: b.local, ..a })
                && same_objects_but(old(net)@, final(net)@, id as int)
            &&& r == 0 <==> byte_at(um, args.arg1 as int) == 2 && byte_at(um, args.arg1 + 1) == 0
            &&& r != 0 ==> r == -97 && final(net)@ == old(net)@
        }),
{
    lemma_parsed(um, args.arg1, args.arg2 as u32);
}

/// The name of a socket is the address that it was bound to, as long as it is not connected, and then its own end of the
/// connection.
pub proof fn law_name_is_told<D, M: Memory>(args: &SyscallArgs, fds: &FdTable, net: &NetStateInner<D>, um: &mut M, id: usize, r: i64)
    requires
        call_ensures(sys_getsockname::<D, M>, (args, fds, net, um), r),
        is_socket(fds@, net@, args.arg0, id),
        object(net@, id).domain != 1,
        args.arg1 != 0,
        within(old(um), args.arg1 as int, 16),
        args.arg2 != 0 ==> within(old(um), args.arg2 as int, 4) && (args.arg2 + 4 <= args.arg1 || args.arg1 + 16 <= args.arg2),
    ensures
        ({
            let o = object(net@, id);
            let ep = if o.handle is Some { net@.socks[o.handle->0].local } else { o.local };
            &&& r == 0
            &&& ep matches Some(e) ==> address_at(final(um), args.arg1 as int, e)
            &&& args.arg2 != 0 ==> u32_at(final(um), args.arg2 as int) == 16
        }),
{
    let o = object(net@, id);
    lemma_written(mem(old(um)), final(um), args.arg1, args.arg2, crate::syscall::handlers::net::name_of(net@, o));
}

/// The name of the peer is the other end of the connection.
pub proof fn law_peer_is_told<D, M: Memory>(args: &SyscallArgs, fds: &FdTable, net: &NetStateInner<D>, um: &mut M, id: usize, r: i64)
    requires
        call_ensures(sys_getpeername::<D, M>, (args, fds, net, um), r),
        is_socket(fds@, net@, args.arg0, id),
        args.arg1 != 0,
        within(old(um), args.arg1 as int, 16),
        args.arg2 != 0 ==> within(old(um), args.arg2 as int, 4) && (args.arg2 + 4 <= args.arg1 || args.arg1 + 16 <= args.arg2),
    ensures
        ({
            let h = object(net@, id).handle;
            let ep = net@.socks[h->0].remote;
            if h is Some && ep is Some {
                r == 0 && address_at(final(um), args.arg1 as int, ep->0)
            } else {
                r == -107 && mem(final(um)) == mem(old(um))
            }
        }),
{
    let h = object(net@, id).handle;
    if h is Some && net@.socks[h->0].remote is Some {
        lemma_written(mem(old(um)), final(um), args.arg1, args.arg2, net@.socks[h->0].remote->0);
    }
}

/// The sockets that the stack was given next after `n`.
pub open spec fn handed_over(n: Net, after: Net) -> Map<SocketHandle, TcpInfo> {
    after.polls[n.polls.len() as int].from
}

/// All sockets of the stack but `h` were handed over as they were.
pub open spec fn same_streams_but(n: Net, after: Net, h: SocketHandle) -> bool {
    forall|k: SocketHandle| #![trigger handed_over(n, after)[k]] n.socks.contains_key(k) && k != h ==> handed_over(n, after)[k] == n.socks[k]
}

/// A socket that listens: as many sockets of the stack as were asked for, between 1 and 8, listen at the address that it was
/// bound to, and all of them are new.
pub proof fn law_listen_listens_where_bound<D: PollDevice>(
    args: &SyscallArgs,
    fds: &FdTable,
    net: &mut NetStateInner<D>,
    sched: &mut Scheduler,
    c: u32,
    clock: &Clock,
    tsc: u64,
    id: usize,
    r: i64,
)
    requires
        call_ensures(sys_listen::<D>, (args, fds, net, sched, c, clock, tsc), r),
        is_socket(fds@, old(net)@, args.arg0, id),
        object(old(net)@, id).domain != 1,
    ensures
        ({
            let o = object(old(net)@, id);
            let b = object(final(net)@, id);
            if o.local is Some && (o.local->0).port != 0 {
                &&& r == 0
                &&& final(net)@.polls.len() == old(net)@.polls.len() + 1
                &&& b.role is Listener && b.listen_ep == o.local && b.nonblocking == o.nonblocking
                &&& b.backlog.len() == (if args.arg1 < 1 { 1 } else if args.arg1 > 8 { 8 } else { args.arg1 as int })
                &&& b.backlog.no_duplicates()
                &&& forall|i: int|
                    0 <= i < b.backlog.len() ==> !old(net)@.socks.contains_key(#[trigger] b.backlog[i]) && handed_over(
                        old(net)@,
                        final(net)@,
                    )[b.backlog[i]].state is Listen && handed_over(old(net)@, final(net)@)[b.backlog[i]].listens_at == o.local
                &&& forall|k: SocketHandle|
                    #![trigger handed_over(old(net)@, final(net)@)[k]]
                    old(net)@.socks.contains_key(k) ==> handed_over(old(net)@, final(net)@)[k] == old(net)@.socks[k]
            } else {
                r == -22 && final(net)@ == old(net)@
            }
        }),
{
    let b = object(final(net)@, id);
    let o = object(old(net)@, id);
    if o.local is Some && (o.local->0).port != 0 {
        assert forall|i: int| 0 <= i < b.backlog.len() implies handed_over(old(net)@, final(net)@)[#[trigger] b.backlog[i]].state is Listen && handed_over(
            old(net)@,
            final(net)@,
        )[b.backlog[i]].listens_at == o.local by {
            assert(b.backlog.contains(b.backlog[i]));
        }
        assert forall|k: SocketHandle| #![trigger handed_over(old(net)@, final(net)@)[k]] old(net)@.socks.contains_key(k) implies handed_over(
            old(net)@,
            final(net)@,
        )[k] == old(net)@.socks[k] by {
            if b.backlog.contains(k) {
                let i = choose|i: int| 0 <= i < b.backlog.len() && b.backlog[i] == k;
                assert(!old(net)@.socks.contains_key(b.backlog[i]));
            }
        }
    }
}

/// A socket that is told to connect has a new socket of the stack, which begins to connect: to the address that was given, from
/// the first address of the machine and the next port. One that may not wait says that it is on its way.
pub proof fn law_connect_connects_to_the_address<D: PollDevice, M: Memory>(
    args: &SyscallArgs,
    fds: &FdTable,
    net: &mut NetStateInner<D>,
    sched: &mut Scheduler,
    um: &M,
    c: u32,
    clock: &Clock,
    tsc: u64,
    id: usize,
    r: Call,
)
    requires
        call_ensures(sys_connect::<D, M>, (args, fds, net, sched, um, c, clock, tsc), r),
        is_socket(fds@, old(net)@, args.arg0, id),
        args.arg1 != 0,
        args.arg2 as u32 >= 16,
        within(um, args.arg1 as int, 16),
        byte_at(um, args.arg1 as int) == 2 && byte_at(um, args.arg1 + 1) == 0,
    ensures
        ({
            let n = old(net)@;
            let w = final(net)@;
            let o = object(n, id);
            let port = byte_at(um, args.arg1 + 2) * 0x100 + byte_at(um, args.arg1 + 3);
            let ip = u32_at(um, args.arg1 + 4);
            let h = object(w, id).handle->0;
            &&& o.handle is Some ==> (r matches Call::Return(e) && e == -106) && w == n
            &&& o.handle is None && port != 0 && ip != 0 && n.next_ephemeral != 0 && n.addrs.len() > 0 ==> {
                &&& object(w, id).handle is Some
                &&& w.polls.len() > n.polls.len()
                &&& handed_over(n, w)[h].state is SynSent
                &&& handed_over(n, w)[h].remote matches Some(ep) && address_at(um, args.arg1 as int, ep)
                &&& handed_over(n, w)[h].local == Some(Endpoint { addr: n.addrs[0], port: n.next_ephemeral })
                &&& same_streams_but(n, w, h)
                &&& o.nonblocking ==> (r matches Call::Return(e) && e == -115)
            }
            &&& o.handle is None && !(port != 0 && ip != 0 && n.next_ephemeral != 0 && n.addrs.len() > 0) ==> (r matches Call::Return(e) && e
                == -22) && object(w, id).handle is None
        }),
{
    lemma_parsed(um, args.arg1, args.arg2 as u32);
    let n = old(net)@;
    let o = object(n, id);
    assert(u32_at(um, args.arg1 + 4) == 0 <==> byte_at(um, args.arg1 + 4) == 0 && byte_at(um, args.arg1 + 5) == 0 && byte_at(um, args.arg1 + 6)
        == 0 && byte_at(um, args.arg1 + 7) == 0);
}

/// Sending on a connection hands the bytes over to the stack, behind those that wait to be sent, as many as there is room for. Where
/// the connection cannot send, or there is none, it says so.
pub proof fn law_send_hands_the_bytes_over<D: PollDevice, M: Memory>(
    args: &SyscallArgs,
    fds: &FdTable,
    net: &mut NetStateInner<D>,
    sched: &mut Scheduler,
    um: &mut M,
    c: u32,
    clock: &Clock,
    tsc: u64,
    id: usize,
    r: Call,
)
    requires
        call_ensures(sys_sendto::<D, M>, (args, fds, net, sched, um, c, clock, tsc), r),
        is_socket(fds@, old(net)@, args.arg0, id),
        args.arg1 != 0,
        0 < args.arg2 < u32::MAX,
        reachable(old(um), args.arg1, args.arg2 as int),
    ensures
        ({
            let n = old(net)@;
            let w = final(net)@;
            let o = object(n, id);
            let i = n.socks[o.handle->0];
            let room = i.tx_size - i.tx.len();
            let k = if args.arg2 <= room { args.arg2 as int } else { room };
            &&& mem(final(um)) == mem(old(um))
            &&& o.handle is None ==> (r matches Call::Return(e) && e == -107) && w == n
            &&& o.handle is Some && !(i.state is Established || i.state is CloseWait) ==> (r matches Call::Return(e) && e == -32)
            &&& o.handle is Some && (i.state is Established || i.state is CloseWait) && room > 0 ==> {
                let j = handed_over(n, w)[o.handle->0];
                &&& r == Call::Return(k as i64)
                &&& j.tx.len() == i.tx.len() + k
                &&& forall|x: int| 0 <= x < i.tx.len() ==> #[trigger] j.tx[x] == i.tx[x]
                &&& forall|x: int| 0 <= x < k ==> #[trigger] j.tx[i.tx.len() + x] == old(um).bytes()[args.arg1 + x - old(um).base()]
                &&& j.state == i.state && j.remote == i.remote && j.rx == i.rx
                &&& same_streams_but(n, w, o.handle->0)
            }
            &&& o.handle is Some && (i.state is Established || i.state is CloseWait) && room == 0 && o.nonblocking ==> (r matches Call::Return(e)
                && e == -11)
        }),
{
    let m = mem(old(um));
    assert(m.stored(args.arg1 as int, Seq::empty()) =~= m);
}

proof fn lemma_still_closing_has(closing: Seq<SocketHandle>, socks: Map<SocketHandle, TcpInfo>, h: SocketHandle)
    requires
        still_closing(closing, socks).contains(h),
    ensures
        closing.contains(h),
    decreases closing.len(),
{
    if closing.len() > 0 {
        let init = closing.drop_last();
        let before = still_closing(init, socks);
        let all = still_closing(closing, socks);
        let i = choose|i: int| 0 <= i < all.len() && all[i] == h;
        if i < before.len() {
            assert(before[i] == h);
            lemma_still_closing_has(init, socks, h);
            let j = choose|j: int| 0 <= j < init.len() && init[j] == h;
            assert(closing[j] == h);
        } else {
            assert(closing[closing.len() - 1] == h);
        }
    } else {
        assert(still_closing(closing, socks).len() == 0);
    }
}

/// Receiving on a connection takes the oldest bytes that have arrived, as many as there are and as there is room for. It says 0 when
/// the other side has said that there will be no more, and all were taken.
pub proof fn law_receive_takes_the_oldest_bytes<D: PollDevice, M: Memory>(
    args: &SyscallArgs,
    fds: &FdTable,
    net: &mut NetStateInner<D>,
    sched: &mut Scheduler,
    um: &mut M,
    c: u32,
    clock: &Clock,
    tsc: u64,
    id: usize,
    r: Call,
)
    requires
        call_ensures(sys_recvfrom::<D, M>, (args, fds, net, sched, um, c, clock, tsc), r),
        old(net)@.wf(),
        is_socket(fds@, old(net)@, args.arg0, id),
        args.arg1 != 0,
        0 < args.arg2 < u32::MAX,
        reachable(old(um), args.arg1, args.arg2 as int),
        object(old(net)@, id).handle is Some,
        r is Return,
        final(net)@.polls.last().socks.contains_key(object(old(net)@, id).handle->0),
    ensures
        ({
            let w = final(net)@;
            let h = object(old(net)@, id).handle->0;
            let i = w.polls.last().socks[h];
            let k = if args.arg2 <= i.rx.len() { args.arg2 as int } else { i.rx.len() as int };
            let alive = i.state is Established || i.state is FinWait1 || i.state is FinWait2 || i.rx.len() > 0;
            &&& w.polls.len() > old(net)@.polls.len()
            &&& i.rx.len() > 0 ==> r == Call::Return(k as i64) && came_to(old(um), final(um), args.arg1 as int, i.rx.take(k)) && w.socks[h].rx
                == i.rx.skip(k)
            &&& i.rx.len() == 0 ==> mem(final(um)) == mem(old(um))
            &&& !alive ==> r == Call::Return(if i.finished { 0i64 } else { (-107int) as i64 })
            &&& i.rx.len() == 0 && alive ==> (r matches Call::Return(e) && e == -11)
        }),
{
    let n = old(net)@;
    let w = final(net)@;
    let h = object(n, id).handle->0;
    let m = mem(old(um));
    assert(m.stored(args.arg1 as int, Seq::empty()) =~= m);
    assert(n.uses(h, Place::Stream(id as int)));
    assert(!n.closing.contains(h)) by {
        if n.closing.contains(h) {
            let k = choose|k: int| 0 <= k < n.closing.len() && n.closing[k] == h;
            assert(n.uses(h, Place::Closing(k)));
        }
    }
    let q = w.polls;
    let k0 = n.polls.len() as int;
    assert forall|s: Map<SocketHandle, TcpInfo>| !(#[trigger] still_closing(n.closing, s)).contains(h) by {
        if still_closing(n.closing, s).contains(h) {
            lemma_still_closing_has(n.closing, s, h);
        }
    }
    let c1 = still_closing(n.closing, q[k0].socks);
    assert forall|s: Map<SocketHandle, TcpInfo>| !(#[trigger] still_closing(c1, s)).contains(h) by {
        if still_closing(c1, s).contains(h) {
            lemma_still_closing_has(c1, s, h);
        }
    }
    let c2 = still_closing(c1, q[k0 + 1].socks);
    assert forall|s: Map<SocketHandle, TcpInfo>| !(#[trigger] still_closing(c2, s)).contains(h) by {
        if still_closing(c2, s).contains(h) {
            lemma_still_closing_has(c2, s, h);
        }
    }
    assert(final(um).bytes() == mem(final(um)).bytes);
}

/// Accepting gives the lowest descriptor that was not open, for a connection that has arrived at the listener: it leaves the
/// listener, which listens with a new socket of the stack in its place; and the user is told where it comes from.
pub proof fn law_accept_takes_an_arrival<D: PollDevice, M: Memory>(
    args: &SyscallArgs,
    fds: &mut FdTable,
    net: &mut NetStateInner<D>,
    sched: &mut Scheduler,
    um: &mut M,
    c: u32,
    clock: &Clock,
    tsc: u64,
    id: usize,
    r: Call,
)
    requires
        call_ensures(sys_accept4::<D, M>, (args, fds, net, sched, um, c, clock, tsc), r),
        is_socket(old(fds)@, old(net)@, args.arg0, id),
        old(fds)@.len() < i64::MAX,
        old(net)@.socktab.len() < u32::MAX,
        r matches Call::Return(v) && v >= 0,
    ensures
        ({
            let fd = r->Return_0 as int;
            let w = final(net)@;
            let a = object(old(net)@, id);
            let b = object(w, id);
            let d = final(fds)@[fd]->0;
            &&& a.role is Listener
            &&& opened(old(fds)@, final(fds)@, fd, d)
            &&& d.kind matches FdKind::Socket { id: new } && {
                let o = object(w, new);
                &&& new < w.socktab.len() && w.socktab[new as int] is Some && new != id
                &&& o.role is Stream && o.nonblocking == (args.arg3 as u32 & 0x800 != 0)
                &&& o.handle matches Some(h) && exists|i: int| {
                    &&& 0 <= i < a.backlog.len()
                    &&& #[trigger] a.backlog[i] == h
                    &&& b.backlog == a.backlog.remove(i).push(b.backlog.last())
                    &&& h != b.backlog.last() ==> !(w.socks[h].state is Listen)
                }
                &&& w.socks[b.backlog.last()].state is Listen && w.socks[b.backlog.last()].listens_at == Some(a.listen_ep->0)
                &&& args.arg1 != 0 && within(old(um), args.arg1 as int, 16) && (args.arg2 != 0 ==> within(old(um), args.arg2 as int, 4) && (args.arg2
                    + 4 <= args.arg1 || args.arg1 + 16 <= args.arg2)) && o.handle->0 != b.backlog.last() ==> (w.socks[o.handle->0].remote matches Some(
                    ep,
                ) ==> address_at(final(um), args.arg1 as int, ep) && (args.arg2 != 0 ==> u32_at(final(um), args.arg2 as int) == 16))
                &&& args.arg1 == 0 ==> mem(final(um)) == mem(old(um))
            }
        }),
{
    let n = old(net)@;
    let w = final(net)@;
    let a = object(n, id);
    let b = object(w, id);
    law_lowest_free(old(fds)@, 0);
    let s1 = sys(n, old(sched)@);
    let s2 = polled_sys(s1, w.polls[n.polls.len() as int], c as int);
    let nonblocking = args.arg3 as u32 & 0x800 != 0;
    let s = if accept_wait(n, id as int, nonblocking) is Block { s2 } else { s1 };
    assert(s.net.socktab == n.socktab);
    law_first_arrival(a.backlog, s.net.socks, 0);
    let i = first_arrival(a.backlog, s.net.socks, 0);
    let fresh = (w.sock(id as int)->0).backlog.last();
    let m = accept_after(s.net, id as int, fresh);
    law_lowest_slot(m.socktab, 0);
    let new = lowest_slot(m.socktab, 0);
    assert(m.socktab[id as int] is Some);
    assert(new != id);
    assert(accepts(s.net, id as int));
    assert(a.backlog[i] == arrived(s.net, id as int));
    let h = arrived(s.net, id as int);
    assert(w.socktab == with_new(m.socktab, plain_stream(2, nonblocking, Some(h))));
    assert(w.socktab[id as int] == m.socktab[id as int]);
    assert(w.sock(id as int) == m.socktab[id as int]);
    assert(w.socktab[new] == Some(plain_stream(2, nonblocking, Some(h))));
    assert(b.backlog == a.backlog.remove(i).push(b.backlog.last()));
    assert(w.socks == m.socks);
    assert(h != b.backlog.last() ==> w.socks[h] == s.net.socks[h]);
    if args.arg1 != 0 && within(old(um), args.arg1 as int, 16) && (args.arg2 != 0 ==> within(old(um), args.arg2 as int, 4) && (args.arg2 + 4
        <= args.arg1 || args.arg1 + 16 <= args.arg2)) {
        if let Some(ep) = s.net.socks[h].remote {
            lemma_written(mem(old(um)), final(um), args.arg1, args.arg2, ep);
        }
    }
}

/// Shutting a connection down ends its half: the stack is given it as one that says farewell.
pub proof fn law_shutdown_says_farewell<D: PollDevice>(
    args: &SyscallArgs,
    fds: &FdTable,
    net: &mut NetStateInner<D>,
    sched: &mut Scheduler,
    c: u32,
    clock: &Clock,
    tsc: u64,
    id: usize,
    r: i64,
)
    requires
        call_ensures(sys_shutdown::<D>, (args, fds, net, sched, c, clock, tsc), r),
        is_socket(fds@, old(net)@, args.arg0, id),
    ensures
        ({
            let n = old(net)@;
            let w = final(net)@;
            let h = object(n, id).handle;
            let i = n.socks[h->0];
            let j = handed_over(n, w)[h->0];
            if h is None {
                r == -107 && w == n
            } else {
                &&& r == 0 && w.polls.len() == n.polls.len() + 1
                &&& i.state is Established ==> j.state is FinWait1
                &&& i.state is CloseWait ==> j.state is LastAck
                &&& j.tx == i.tx && j.rx == i.rx && j.remote == i.remote
                &&& same_streams_but(n, w, h->0)
            }
        }),
{
}

} // verus!
