//! What a socket descriptor stands for.

use smoltcp::iface::{SocketHandle, SocketSet};
use vstd::prelude::*;

use super::tcp::{can_recv, can_send, is_active, socket_state, tcp_sockets, Endpoint, TcpInfo, TcpState};
use super::wait::{can_wake, WaitQueue};
use crate::sched::scheduler::{woken_all, Scheduler};
use crate::sched::thread::{Thread, Tid};

verus! {

pub const AF_INET: u16 = 2;

pub const AF_INET6: u16 = 10;

pub const AF_UNIX: u16 = 1;

pub const SOCK_STREAM: u16 = 1;

pub const SOCK_NONBLOCK: u32 = 0o4000;

pub const SOCK_CLOEXEC: u32 = 0o2000000;

pub const EPOLLIN: u32 = 0x001;

pub const EPOLLOUT: u32 = 0x004;

pub const EPOLLERR: u32 = 0x008;

pub const EPOLLHUP: u32 = 0x010;

#[derive(Clone, Copy, Debug, PartialEq, Eq, Structural)]
pub enum SockRole {
    Listener,
    Stream,
}

/// What a socket descriptor stands for.
pub struct SocketObject {
    pub domain: u16,
    pub typ: u16,
    pub nonblocking: bool,
    pub role: SockRole,
    /// Stream: the connected socket.
    pub handle: Option<SocketHandle>,
    /// Listener: sockets that listen, or have been connected to.
    pub backlog: Vec<SocketHandle>,
    /// Stream: the in-kernel end of a connection within the guest.
    pub loopback: Option<usize>,
    /// Listener: in-kernel ends that wait to be accepted.
    pub pending_loopback: Vec<usize>,
    /// The address that the socket was bound to.
    pub local: Option<Endpoint>,
    /// Listener: where the sockets of the backlog listen.
    pub listen_ep: Option<Endpoint>,
}

/// What a `SocketObject` stands for.
#[verifier::ext_equal]
pub struct Sock {
    pub domain: u16,
    pub typ: u16,
    pub nonblocking: bool,
    pub role: SockRole,
    pub handle: Option<SocketHandle>,
    pub backlog: Seq<SocketHandle>,
    pub loopback: Option<usize>,
    pub pending_loopback: Seq<usize>,
    pub local: Option<Endpoint>,
    pub listen_ep: Option<Endpoint>,
}

impl View for SocketObject {
    type V = Sock;

    open spec fn view(&self) -> Sock {
        Sock {
            domain: self.domain,
            typ: self.typ,
            nonblocking: self.nonblocking,
            role: self.role,
            handle: self.handle,
            backlog: self.backlog@,
            loopback: self.loopback,
            pending_loopback: self.pending_loopback@,
            local: self.local,
            listen_ep: self.listen_ep,
        }
    }
}

/// A stream socket without a connection.
pub open spec fn plain_stream(domain: u16, nonblocking: bool, handle: Option<SocketHandle>) -> Sock {
    Sock {
        domain,
        typ: SOCK_STREAM,
        nonblocking,
        role: SockRole::Stream,
        handle,
        backlog: Seq::empty(),
        loopback: None,
        pending_loopback: Seq::empty(),
        local: None,
        listen_ep: None,
    }
}

impl SocketObject {
    /// A stream socket, connected through `handle` if there is one.
    pub fn stream(domain: u16, nonblocking: bool, handle: Option<SocketHandle>) -> (r: Self)
        ensures
            r@ == plain_stream(domain, nonblocking, handle),
    {
        SocketObject {
            domain,
            typ: SOCK_STREAM,
            nonblocking,
            role: SockRole::Stream,
            handle,
            backlog: Vec::new(),
            loopback: None,
            pending_loopback: Vec::new(),
            local: None,
            listen_ep: None,
        }
    }
}

/// Consumed bytes are kept until there are this many of them.
pub const COMPACT_AT: usize = 65536;

/// One end of a connection within the guest.
pub struct LoopbackStream {
    pub rx: Vec<u8>,
    pub rx_start: usize,
    pub read_waiters: WaitQueue,
    /// The other end, as long as it is open.
    pub peer: Option<usize>,
    pub peer_closed: bool,
}

impl LoopbackStream {
    /// Bytes that wait to be read.
    pub open spec fn pending(&self) -> Seq<u8> {
        self.rx@.skip(self.rx_start as int)
    }

    /// Threads that wait for bytes.
    pub open spec fn waiting(&self) -> Seq<Tid> {
        self.read_waiters@
    }

    pub open spec fn wf(&self) -> bool {
        self.rx_start <= self.rx@.len()
    }

    /// The space that the buffer takes, in bytes.
    pub open spec fn held(&self) -> nat {
        self.rx@.len()
    }

    pub fn new() -> (r: Self)
        ensures
            r.wf(),
            r.pending() == Seq::<u8>::empty(),
            r.waiting() == Seq::<Tid>::empty(),
            r.held() == 0,
            r.peer is None,
            !r.peer_closed,
    {
        let r = LoopbackStream {
            rx: Vec::new(),
            rx_start: 0,
            read_waiters: WaitQueue::new(),
            peer: None,
            peer_closed: false,
        };
        assert(r.pending() =~= Seq::<u8>::empty());
        r
    }

    /// Number of bytes that wait to be read.
    pub fn available(&self) -> (n: usize)
        requires
            self.wf(),
        ensures
            n == self.pending().len(),
    {
        self.rx.len() - self.rx_start
    }

    /// Adds bytes behind those that wait to be read.
    pub fn push(&mut self, data: &[u8])
        requires
            old(self).wf(),
        ensures
            final(self).wf(),
            final(self).pending() == old(self).pending() + data@,
            final(self).waiting() == old(self).waiting(),
            final(self).peer == old(self).peer,
            final(self).peer_closed == old(self).peer_closed,
    {
        self.rx.extend_from_slice(data);
        assert(self.pending() =~= old(self).pending() + data@);
    }

    pub fn push_read_waiter(&mut self, t: &Thread)
        requires
            old(self).wf(),
        ensures
            final(self).wf(),
            final(self).pending() == old(self).pending(),
            final(self).waiting() == seq![t.tid] + old(self).waiting(),
            final(self).peer == old(self).peer,
            final(self).peer_closed == old(self).peer_closed,
    {
        self.read_waiters.push(t);
    }

    /// Wakes the threads that wait for bytes.
    pub fn wake_readers(&mut self, sched: &mut Scheduler, this: u32)
        requires
            old(self).wf(),
            old(sched)@.wf(),
            old(sched)@.settled(),
            old(sched)@.online(this as int),
            can_wake(old(self).waiting(), old(sched)@),
        ensures
            final(self).wf(),
            final(self).pending() == old(self).pending(),
            final(self).waiting() == Seq::<Tid>::empty(),
            final(self).peer == old(self).peer,
            final(self).peer_closed == old(self).peer_closed,
            final(sched)@ == woken_all(old(sched)@, old(self).waiting(), this as int),
            final(sched)@.wf(),
            final(sched)@.settled(),
    {
        self.read_waiters.wake_all(sched, this);
    }

    /// Takes bytes into `buf`, as many as fit or wait. The buffer shrinks when all are taken, or
    /// when many have been.
    pub fn pop_into(&mut self, buf: &mut [u8]) -> (n: usize)
        requires
            old(self).wf(),
        ensures
            final(self).wf(),
            n == (if old(buf)@.len() <= old(self).pending().len() { old(buf)@.len() } else { old(self).pending().len() }),
            final(buf)@ == old(self).pending().take(n as int) + old(buf)@.skip(n as int),
            final(self).pending() == old(self).pending().skip(n as int),
            n > 0 && final(self).pending().len() == 0 ==> final(self).held() == 0,
            n > 0 ==> final(self).held() - final(self).pending().len() < COMPACT_AT,
            final(self).waiting() == old(self).waiting(),
            final(self).peer == old(self).peer,
            final(self).peer_closed == old(self).peer_closed,
    {
        let available: usize = self.available();
        let max: usize = buf.len();
        let n: usize = if max < available { max } else { available };
        if n == 0 {
            proof {
                assert(buf@ =~= old(self).pending().take(0) + old(buf)@.skip(0));
                assert(self.pending() =~= old(self).pending().skip(0));
            }
            return 0;
        }
        let len: usize = self.rx.len();
        let end: usize = self.rx_start + n;
        let mut i: usize = 0;
        while i < n
            invariant
                i <= n <= old(buf)@.len(),
                buf@.len() == old(buf)@.len(),
                self.rx_start + n <= self.rx@.len() == len,
                *self == *old(self),
                n <= old(self).pending().len(),
                buf@ == old(self).pending().take(i as int) + old(buf)@.skip(i as int),
            decreases n - i,
        {
            buf[i] = self.rx[self.rx_start + i];
            i += 1;
            assert(buf@ =~= old(self).pending().take(i as int) + old(buf)@.skip(i as int));
        }
        self.rx_start = end;
        if self.rx_start == self.rx.len() {
            self.rx = Vec::new();
            self.rx_start = 0;
        } else if self.rx_start >= COMPACT_AT {
            let rest = self.rx.split_off(end);
            self.rx = rest;
            self.rx_start = 0;
        }
        assert(self.pending() =~= old(self).pending().skip(n as int));
        n
    }
}

impl Default for LoopbackStream {
    fn default() -> (r: Self)
        ensures
            r.wf(),
            r.pending() == Seq::<u8>::empty(),
            r.waiting() == Seq::<Tid>::empty(),
            r.held() == 0,
            r.peer is None,
            !r.peer_closed,
    {
        LoopbackStream::new()
    }
}

/// The bytes that attempts to read with buffers of the given sizes get, one after another.
pub open spec fn popped(pending: Seq<u8>, sizes: Seq<nat>) -> Seq<u8>
    decreases sizes.len(),
{
    if sizes.len() == 0 {
        Seq::empty()
    } else {
        let n = if sizes[0] <= pending.len() { sizes[0] } else { pending.len() };
        pending.take(n as int) + popped(pending.skip(n as int), sizes.drop_first())
    }
}

/// The space in all the buffers.
pub open spec fn total_size(sizes: Seq<nat>) -> nat
    decreases sizes.len(),
{
    if sizes.len() == 0 { 0 } else { sizes[0] + total_size(sizes.drop_first()) }
}

/// However reads are cut, they give back what was pushed, in order and without a gap: its first bytes, as many as there is
/// space for.
pub proof fn law_reads_keep_the_order(pending: Seq<u8>, sizes: Seq<nat>)
    ensures
        popped(pending, sizes) == (if total_size(sizes) <= pending.len() {
            pending.take(total_size(sizes) as int)
        } else {
            pending
        }),
    decreases sizes.len(),
{
    if sizes.len() == 0 {
        assert(pending.take(0) =~= Seq::<u8>::empty());
    } else {
        let n = if sizes[0] <= pending.len() { sizes[0] } else { pending.len() };
        let rest = pending.skip(n as int);
        law_reads_keep_the_order(rest, sizes.drop_first());
        if total_size(sizes) <= pending.len() {
            assert(popped(pending, sizes) =~= pending.take(total_size(sizes) as int));
        } else {
            assert(popped(pending, sizes) =~= pending);
        }
    }
}

/// In this state the other side has ended its half of the connection, or there is none.
pub open spec fn is_peer_closed(s: TcpState) -> bool {
    s is CloseWait || s is LastAck || s is Closing || s is Closed || s is TimeWait
}

pub(crate) fn peer_closed(state: TcpState) -> (r: bool)
    ensures
        r == is_peer_closed(state),
{
    match state {
        TcpState::CloseWait | TcpState::LastAck | TcpState::Closing | TcpState::Closed | TcpState::TimeWait => true,
        _ => false,
    }
}

/// Some socket of the backlog has been connected to.
pub open spec fn has_arrival(socks: Map<SocketHandle, TcpInfo>, backlog: Seq<SocketHandle>) -> bool {
    exists|i: int| 0 <= i < backlog.len() && !(socks[#[trigger] backlog[i]].state is Listen)
}

/// A flag if the condition holds.
pub open spec fn flag(cond: bool, bits: u32) -> u32 {
    if cond { bits } else { 0 }
}

/// The events that a connected socket is ready for.
pub open spec fn stream_ready(i: TcpInfo) -> u32 {
    flag(i.rx.len() > 0 || is_peer_closed(i.state), EPOLLIN) | flag(i.may_send() && i.tx.len() != i.tx_size, EPOLLOUT) | flag(
        !i.is_active(),
        EPOLLHUP,
    )
}

/// The events that one end of a connection within the guest is ready for.
pub open spec fn loopback_ready(pending: nat, peer_closed: bool, has_peer: bool) -> u32 {
    flag(pending > 0 || peer_closed, EPOLLIN) | (if has_peer { EPOLLOUT } else { EPOLLHUP })
}

/// The events that a socket is ready for.
pub open spec fn ready(o: Sock, socks: Map<SocketHandle, TcpInfo>, loopback: Option<&LoopbackStream>) -> u32 {
    match o.role {
        SockRole::Listener => flag(o.pending_loopback.len() > 0 || has_arrival(socks, o.backlog), EPOLLIN),
        SockRole::Stream => match loopback {
            Some(s) => loopback_ready(s.pending().len(), s.peer_closed, s.peer is Some),
            None => match o.handle {
                None => EPOLLHUP,
                Some(h) => stream_ready(socks[h]),
            },
        },
    }
}

/// The sockets of the object are in the set.
pub open spec fn handles_in(o: Sock, socks: Map<SocketHandle, TcpInfo>) -> bool {
    &&& o.handle matches Some(h) ==> socks.contains_key(h)
    &&& forall|i: int| 0 <= i < o.backlog.len() ==> socks.contains_key(#[trigger] o.backlog[i])
}

/// The events that a socket is ready for.
pub fn readiness(obj: &SocketObject, sockets: &SocketSet<'static>, loopback: Option<&LoopbackStream>) -> (r: u32)
    requires
        handles_in(obj@, tcp_sockets(*sockets)),
        loopback matches Some(s) ==> s.wf(),
    ensures
        r == ready(obj@, tcp_sockets(*sockets), loopback),
{
    match obj.role {
        SockRole::Listener => {
            let mut any_ready: bool = obj.pending_loopback.len() > 0;
            let mut i: usize = 0;
            while i < obj.backlog.len()
                invariant
                    i <= obj.backlog@.len(),
                    handles_in(obj@, tcp_sockets(*sockets)),
                    any_ready == (obj@.pending_loopback.len() > 0 || exists|k: int|
                        0 <= k < i && !(tcp_sockets(*sockets)[#[trigger] obj@.backlog[k]].state is Listen)),
                decreases obj.backlog@.len() - i,
            {
                let h = obj.backlog[i];
                assert(h == obj@.backlog[i as int]);
                match socket_state(sockets, h) {
                    TcpState::Listen => {},
                    _ => {
                        any_ready = true;
                    },
                }
                i += 1;
            }
            if any_ready { EPOLLIN } else { 0 }
        },
        SockRole::Stream => {
            if let Some(stream) = loopback {
                let mut ev: u32 = 0;
                if stream.available() > 0 || stream.peer_closed {
                    ev = EPOLLIN;
                }
                if stream.peer.is_some() {
                    ev = ev | EPOLLOUT;
                } else {
                    ev = ev | EPOLLHUP;
                }
                return ev;
            }
            let h = match obj.handle {
                None => {
                    return EPOLLHUP;
                },
                Some(h) => h,
            };
            let readable: u32 = if can_recv(sockets, h) || peer_closed(socket_state(sockets, h)) { EPOLLIN } else { 0 };
            let writable: u32 = if can_send(sockets, h) { EPOLLOUT } else { 0 };
            let hung_up: u32 = if !is_active(sockets, h) { EPOLLHUP } else { 0 };
            readable | writable | hung_up
        },
    }
}

} // verus!
