//! TCP sockets, which smoltcp runs, and what the kernel knows of them.

use smoltcp::iface::{Interface, SocketHandle, SocketSet};
use smoltcp::socket::tcp;
use smoltcp::wire::{IpAddress, IpEndpoint, IpListenEndpoint, Ipv4Address};
use vstd::prelude::*;

verus! {

/// Size of the buffer for bytes that a socket has received.
pub const TCP_RX: usize = 65536;

/// Size of the buffer for bytes that a socket is to send.
pub const TCP_TX: usize = 65536;

#[verifier::external_type_specification]
#[verifier::external_body]
pub struct ExSocketHandle(SocketHandle);

#[verifier::external_type_specification]
#[verifier::external_body]
pub struct ExSocketSet<'a>(SocketSet<'a>);

#[verifier::external_type_specification]
#[verifier::external_body]
pub struct ExSocket<'a>(tcp::Socket<'a>);

#[verifier::external_type_specification]
#[verifier::external_body]
pub struct ExInterface(Interface);

/// The states of a TCP connection.
#[derive(Clone, Copy, Debug, PartialEq, Eq, Structural)]
pub enum TcpState {
    Closed,
    Listen,
    SynSent,
    SynReceived,
    Established,
    FinWait1,
    FinWait2,
    CloseWait,
    Closing,
    LastAck,
    TimeWait,
}

/// An IPv4 address, as a number whose highest byte comes first, and a port.
#[derive(Clone, Copy, Debug, PartialEq, Eq, Structural)]
pub struct Endpoint {
    pub addr: u32,
    pub port: u16,
}

impl Endpoint {
    /// The endpoint `a.b.c.d:port`.
    pub fn v4(a: u8, b: u8, c: u8, d: u8, port: u16) -> (r: Self)
        ensures
            r.addr == a * 0x100_0000 + b * 0x1_0000 + c * 0x100 + d,
            r.port == port,
    {
        Endpoint { addr: a as u32 * 0x100_0000 + b as u32 * 0x1_0000 + c as u32 * 0x100 + d as u32, port }
    }
}

/// What the kernel knows of a TCP socket.
pub struct TcpInfo {
    pub state: TcpState,
    /// Bytes that wait to be sent.
    pub tx: Seq<u8>,
    pub tx_size: nat,
    /// Bytes that were received and not taken.
    pub rx: Seq<u8>,
    pub rx_size: nat,
    /// The other side has said that it sends no more.
    pub finished: bool,
    /// The two ends of the connection, if there is one.
    pub local: Option<Endpoint>,
    pub remote: Option<Endpoint>,
    /// Where the socket listens.
    pub listens_at: Option<Endpoint>,
}

impl TcpInfo {
    /// The socket takes part in a connection.
    pub open spec fn is_active(self) -> bool {
        !(self.state is Closed) && !(self.state is TimeWait) && !(self.state is Listen)
    }

    /// Bytes that are sent arrive at the other side.
    pub open spec fn may_send(self) -> bool {
        self.state is Established || self.state is CloseWait
    }

    /// There are bytes to take, or more may come.
    pub open spec fn may_recv(self) -> bool {
        self.state is Established || self.state is FinWait1 || self.state is FinWait2 || self.rx.len() > 0
    }

    /// Bytes that the buffer for sending still takes.
    pub open spec fn tx_room(self) -> int {
        self.tx_size - self.tx.len()
    }
}

/// A socket that was just made.
pub open spec fn new_socket() -> TcpInfo {
    TcpInfo {
        state: TcpState::Closed,
        tx: Seq::empty(),
        tx_size: TCP_TX as nat,
        rx: Seq::empty(),
        rx_size: TCP_RX as nat,
        finished: false,
        local: None,
        remote: None,
        listens_at: None,
    }
}

/// The socket after `close`: what is open for sending is closed, with a farewell if there is a peer.
pub open spec fn closed(i: TcpInfo) -> TcpInfo {
    TcpInfo {
        state: match i.state {
            TcpState::Listen => TcpState::Closed,
            TcpState::SynSent => TcpState::Closed,
            TcpState::SynReceived => TcpState::FinWait1,
            TcpState::Established => TcpState::FinWait1,
            TcpState::CloseWait => TcpState::LastAck,
            s => s,
        },
        ..i
    }
}

/// A socket as long as it is not in a set.
pub uninterp spec fn tcp_info(s: tcp::Socket<'static>) -> TcpInfo;

/// The sockets in a set.
pub uninterp spec fn tcp_sockets(s: SocketSet<'static>) -> Map<SocketHandle, TcpInfo>;

/// The set makes room for one more socket whenever there is none: its storage is not of a fixed size.
pub uninterp spec fn can_grow(s: SocketSet<'static>) -> bool;

/// No sockets.
pub open spec fn no_sockets() -> Map<SocketHandle, TcpInfo> {
    Map::empty()
}

/// The IPv4 addresses of an interface, in the order in which they were added.
pub uninterp spec fn addresses(i: Interface) -> Seq<u32>;

/// How many leading bits each address shares with its network.
pub uninterp spec fn prefixes(i: Interface) -> Seq<u8>;

/// What an interface was made from: its hardware address, the seed of its random numbers, and the time in microseconds.
pub uninterp spec fn origin(i: Interface) -> (Seq<u8>, u64, i64);

/// `smoltcp::socket::tcp::Socket::new` with buffers of fixed sizes: a closed socket with both buffers empty.
#[verifier::external_body]
pub fn new_tcp() -> (r: tcp::Socket<'static>)
    ensures
        tcp_info(r) == new_socket(),
{
    let rx = tcp::SocketBuffer::new(vec![0u8; TCP_RX]);
    let tx = tcp::SocketBuffer::new(vec![0u8; TCP_TX]);
    tcp::Socket::new(rx, tx)
}

/// `smoltcp::iface::SocketSet::new` on an empty vector: a set without sockets, whose storage is the
/// vector.
#[verifier::external_body]
pub(crate) fn empty_set() -> (r: SocketSet<'static>)
    ensures
        tcp_sockets(r) == no_sockets(),
        can_grow(r),
{
    SocketSet::new(Vec::new())
}

/// `smoltcp::iface::SocketSet::add`: the socket joins the set under a handle that was not taken. The set panics if it is full
/// and cannot grow.
#[verifier::external_body]
pub(crate) fn add_socket(set: &mut SocketSet<'static>, s: tcp::Socket<'static>) -> (h: SocketHandle)
    requires
        can_grow(*old(set)),
    ensures
        can_grow(*final(set)) == can_grow(*old(set)),
        !tcp_sockets(*old(set)).contains_key(h),
        tcp_sockets(*final(set)) == tcp_sockets(*old(set)).insert(h, tcp_info(s)),
{
    set.add(s)
}

/// `smoltcp::iface::SocketSet::remove`: the socket leaves the set. The set panics on a handle that it does not have.
#[verifier::external_body]
pub(crate) fn remove_socket(set: &mut SocketSet<'static>, h: SocketHandle)
    requires
        tcp_sockets(*old(set)).contains_key(h),
    ensures
        can_grow(*final(set)) == can_grow(*old(set)),
        tcp_sockets(*final(set)) == tcp_sockets(*old(set)).remove(h),
{
    set.remove(h);
}

/// `smoltcp::socket::tcp::Socket::state`.
#[verifier::external_body]
pub(crate) fn socket_state(set: &SocketSet<'static>, h: SocketHandle) -> (r: TcpState)
    requires
        tcp_sockets(*set).contains_key(h),
    ensures
        r == tcp_sockets(*set)[h].state,
{
    match set.get::<tcp::Socket>(h).state() {
        tcp::State::Closed => TcpState::Closed,
        tcp::State::Listen => TcpState::Listen,
        tcp::State::SynSent => TcpState::SynSent,
        tcp::State::SynReceived => TcpState::SynReceived,
        tcp::State::Established => TcpState::Established,
        tcp::State::FinWait1 => TcpState::FinWait1,
        tcp::State::FinWait2 => TcpState::FinWait2,
        tcp::State::CloseWait => TcpState::CloseWait,
        tcp::State::Closing => TcpState::Closing,
        tcp::State::LastAck => TcpState::LastAck,
        tcp::State::TimeWait => TcpState::TimeWait,
    }
}

/// `smoltcp::socket::tcp::Socket::can_recv`: there are bytes to take.
#[verifier::external_body]
pub(crate) fn can_recv(set: &SocketSet<'static>, h: SocketHandle) -> (r: bool)
    requires
        tcp_sockets(*set).contains_key(h),
    ensures
        r == (tcp_sockets(*set)[h].rx.len() > 0),
{
    set.get::<tcp::Socket>(h).can_recv()
}

/// `smoltcp::socket::tcp::Socket::can_send`: the connection is open for sending and its buffer is not full.
#[verifier::external_body]
pub(crate) fn can_send(set: &SocketSet<'static>, h: SocketHandle) -> (r: bool)
    requires
        tcp_sockets(*set).contains_key(h),
    ensures
        r == (tcp_sockets(*set)[h].may_send() && tcp_sockets(*set)[h].tx.len() != tcp_sockets(*set)[h].tx_size),
{
    set.get::<tcp::Socket>(h).can_send()
}

/// `smoltcp::socket::tcp::Socket::may_send`: the connection is open for sending.
#[verifier::external_body]
pub(crate) fn may_send(set: &SocketSet<'static>, h: SocketHandle) -> (r: bool)
    requires
        tcp_sockets(*set).contains_key(h),
    ensures
        r == tcp_sockets(*set)[h].may_send(),
{
    set.get::<tcp::Socket>(h).may_send()
}

/// `smoltcp::socket::tcp::Socket::is_active`: the socket takes part in a connection.
#[verifier::external_body]
pub(crate) fn is_active(set: &SocketSet<'static>, h: SocketHandle) -> (r: bool)
    requires
        tcp_sockets(*set).contains_key(h),
    ensures
        r == tcp_sockets(*set)[h].is_active(),
{
    set.get::<tcp::Socket>(h).is_active()
}

/// `smoltcp::socket::tcp::Socket::recv_queue`: the number of bytes that wait to be taken.
#[verifier::external_body]
pub(crate) fn recv_queue(set: &SocketSet<'static>, h: SocketHandle) -> (r: usize)
    requires
        tcp_sockets(*set).contains_key(h),
    ensures
        r == tcp_sockets(*set)[h].rx.len(),
{
    set.get::<tcp::Socket>(h).recv_queue()
}

/// `smoltcp::socket::tcp::Socket::local_endpoint`: this side of the connection.
#[verifier::external_body]
pub(crate) fn local_endpoint(set: &SocketSet<'static>, h: SocketHandle) -> (r: Option<Endpoint>)
    requires
        tcp_sockets(*set).contains_key(h),
    ensures
        r == tcp_sockets(*set)[h].local,
{
    let IpEndpoint { addr: IpAddress::Ipv4(addr), port } = set.get::<tcp::Socket>(h).local_endpoint()?;
    Some(Endpoint { addr: addr.to_bits(), port })
}

/// `smoltcp::socket::tcp::Socket::remote_endpoint`: the other side of the connection.
#[verifier::external_body]
pub(crate) fn remote_endpoint(set: &SocketSet<'static>, h: SocketHandle) -> (r: Option<Endpoint>)
    requires
        tcp_sockets(*set).contains_key(h),
    ensures
        r == tcp_sockets(*set)[h].remote,
{
    let IpEndpoint { addr: IpAddress::Ipv4(addr), port } = set.get::<tcp::Socket>(h).remote_endpoint()?;
    Some(Endpoint { addr: addr.to_bits(), port })
}

/// `smoltcp::socket::tcp::Socket::close`: ends the sending half of a connection.
#[verifier::external_body]
pub(crate) fn close(set: &mut SocketSet<'static>, h: SocketHandle)
    requires
        tcp_sockets(*old(set)).contains_key(h),
    ensures
        can_grow(*final(set)) == can_grow(*old(set)),
        tcp_sockets(*final(set)) == tcp_sockets(*old(set)).insert(h, closed(tcp_sockets(*old(set))[h])),
{
    set.get_mut::<tcp::Socket>(h).close()
}

/// `smoltcp::socket::tcp::Socket::abort`: closes the socket at once.
#[verifier::external_body]
pub(crate) fn abort(set: &mut SocketSet<'static>, h: SocketHandle)
    requires
        tcp_sockets(*old(set)).contains_key(h),
    ensures
        can_grow(*final(set)) == can_grow(*old(set)),
        tcp_sockets(*final(set)) == tcp_sockets(*old(set)).insert(
            h,
            (TcpInfo { state: TcpState::Closed, ..tcp_sockets(*old(set))[h] }),
        ),
{
    set.get_mut::<tcp::Socket>(h).abort()
}

/// Why a socket cannot listen.
#[derive(Clone, Copy, Debug, PartialEq, Eq, Structural)]
pub enum ListenError {
    InvalidState,
    Unaddressable,
}

/// `smoltcp::socket::tcp::Socket::listen` on a socket that is closed: it listens at the endpoint, unless the port is 0.
#[verifier::external_body]
pub(crate) fn listen(s: &mut tcp::Socket<'static>, ep: Endpoint) -> (r: Result<(), ListenError>)
    requires
        tcp_info(*old(s)).state is Closed,
    ensures
        ep.port == 0 ==> r is Err && r->Err_0 == ListenError::Unaddressable && tcp_info(*final(s)) == tcp_info(*old(s)),
        ep.port != 0 ==> r is Ok && tcp_info(*final(s)) == (TcpInfo {
            state: TcpState::Listen,
            tx: Seq::empty(),
            rx: Seq::empty(),
            finished: false,
            local: None,
            remote: None,
            listens_at: Some(ep),
            ..tcp_info(*old(s))
        }),
{
    let at = IpListenEndpoint { addr: Some(IpAddress::Ipv4(Ipv4Address::from_bits(ep.addr))), port: ep.port };
    s.listen(at).map_err(
        |e|
            match e {
                tcp::ListenError::InvalidState => ListenError::InvalidState,
                tcp::ListenError::Unaddressable => ListenError::Unaddressable,
            },
    )
}

/// Why a socket cannot connect.
#[derive(Clone, Copy, Debug, PartialEq, Eq, Structural)]
pub enum ConnectError {
    InvalidState,
    Unaddressable,
}

/// Nothing can be sent to this endpoint from this port over an interface with these addresses.
pub open spec fn unaddressable(addrs: Seq<u32>, remote: Endpoint, port: u16) -> bool {
    remote.port == 0 || remote.addr == 0 || port == 0 || addrs.len() == 0
}

/// `smoltcp::socket::tcp::Socket::connect` on a socket that is closed: it begins to connect, from the
/// first address of the interface, unless an address or a port is missing. The number at which
/// it starts to count bytes is random, and nothing is said of it.
#[verifier::external_body]
pub(crate) fn connect(s: &mut tcp::Socket<'static>, iface: &mut Interface, remote: Endpoint, port: u16) -> (r: Result<
    (),
    ConnectError,
>)
    requires
        tcp_info(*old(s)).state is Closed,
    ensures
        addresses(*final(iface)) == addresses(*old(iface)),
        unaddressable(addresses(*old(iface)), remote, port) ==> r is Err && r->Err_0
            == ConnectError::Unaddressable && tcp_info(*final(s)) == tcp_info(*old(s)),
        !unaddressable(addresses(*old(iface)), remote, port) ==> r is Ok && tcp_info(*final(s)) == (TcpInfo {
            state: TcpState::SynSent,
            tx: Seq::empty(),
            rx: Seq::empty(),
            finished: false,
            local: Some(Endpoint { addr: addresses(*old(iface))[0], port }),
            remote: Some(remote),
            listens_at: None,
            ..tcp_info(*old(s))
        }),
{
    let to = IpEndpoint::new(IpAddress::Ipv4(Ipv4Address::from_bits(remote.addr)), remote.port);
    s.connect(iface.context(), to, port).map_err(
        |e|
            match e {
                tcp::ConnectError::InvalidState => ConnectError::InvalidState,
                tcp::ConnectError::Unaddressable => ConnectError::Unaddressable,
            },
    )
}

/// `smoltcp::socket::tcp::Socket::send_slice`: takes as many bytes as its buffer has room for, if the
/// connection is open for sending; else there is no result.
#[verifier::external_body]
pub(crate) fn send_slice(set: &mut SocketSet<'static>, h: SocketHandle, data: &[u8]) -> (r: Option<usize>)
    requires
        tcp_sockets(*old(set)).contains_key(h),
    ensures
        can_grow(*final(set)) == can_grow(*old(set)),
        ({
            let i = tcp_sockets(*old(set))[h];
            let n = if data@.len() <= i.tx_room() { data@.len() as int } else { i.tx_room() };
            &&& !i.may_send() ==> r is None && tcp_sockets(*final(set)) == tcp_sockets(*old(set))
            &&& i.may_send() ==> r == Some(n as usize) && tcp_sockets(*final(set)) == tcp_sockets(*old(set)).insert(
                h,
                (TcpInfo { tx: i.tx + data@.take(n), ..i }),
            )
        }),
{
    set.get_mut::<tcp::Socket>(h).send_slice(data).ok()
}

/// Why nothing can be received.
#[derive(Clone, Copy, Debug, PartialEq, Eq, Structural)]
pub enum RecvError {
    InvalidState,
    Finished,
}

/// `smoltcp::socket::tcp::Socket::recv_slice`: gives the bytes that were received, up to `max` of them. If
/// there are none and no more can come, it tells whether the other side has ended properly.
#[verifier::external_body]
pub(crate) fn recv_slice(set: &mut SocketSet<'static>, h: SocketHandle, max: usize) -> (r: Result<Vec<u8>, RecvError>)
    requires
        tcp_sockets(*old(set)).contains_key(h),
    ensures
        can_grow(*final(set)) == can_grow(*old(set)),
        ({
            let i = tcp_sockets(*old(set))[h];
            let n = if max <= i.rx.len() { max as int } else { i.rx.len() as int };
            &&& !i.may_recv() ==> tcp_sockets(*final(set)) == tcp_sockets(*old(set)) && r is Err && r->Err_0 == (if i.finished {
                RecvError::Finished
            } else {
                RecvError::InvalidState
            })
            &&& i.may_recv() ==> r is Ok && r->Ok_0@ == i.rx.take(n) && tcp_sockets(*final(set)) == tcp_sockets(
                *old(set),
            ).insert(h, (TcpInfo { rx: i.rx.skip(n), ..i }))
        }),
{
    let mut buf = vec![0u8; max];
    let n = set.get_mut::<tcp::Socket>(h).recv_slice(&mut buf).map_err(
        |e|
            match e {
                tcp::RecvError::InvalidState => RecvError::InvalidState,
                tcp::RecvError::Finished => RecvError::Finished,
            },
    )?;
    buf.truncate(n);
    Ok(buf)
}

} // verus!
