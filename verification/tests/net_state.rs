use smoltcp::iface::{Interface, SocketHandle, SocketSet};
use smoltcp::phy::Loopback;
use smoltcp::socket::tcp;
use smoltcp::time::Instant;
use smoltcp::wire::{IpAddress, IpListenEndpoint};
use sumi_kernel::net::device::PollDevice;
use sumi_kernel::net::epoll::EpollInstance;
use sumi_kernel::net::pipe::PipeState;
use sumi_kernel::net::socket::{
    readiness, LoopbackStream, SockRole, SocketObject, AF_INET, EPOLLHUP, EPOLLIN, EPOLLOUT, SOCK_STREAM,
};
use sumi_kernel::net::stack::{build, now, seed_from_rng, EPHEMERAL_HI, EPHEMERAL_LO};
use sumi_kernel::net::state::NetStateInner;
use sumi_kernel::net::tcp::{new_tcp, Endpoint};
use sumi_kernel::sched::scheduler::Scheduler;
use sumi_kernel::time::{init, Clock};

fn clock() -> Clock {
    init(1000, 0, 0, 0)
}

fn cpu() -> Scheduler {
    let mut sched = Scheduler::new();
    sched.init_for_cpu(0, 0x1000);
    sched
}

fn listener_obj() -> SocketObject {
    SocketObject {
        domain: AF_INET,
        typ: SOCK_STREAM,
        nonblocking: true,
        role: SockRole::Listener,
        handle: None,
        backlog: Vec::new(),
        loopback: None,
        pending_loopback: Vec::new(),
        local: None,
        listen_ep: None,
    }
}

fn stream_obj(handle: SocketHandle) -> SocketObject {
    SocketObject { role: SockRole::Stream, handle: Some(handle), ..listener_obj() }
}

/// A pair of sockets of one set that are connected to each other.
fn established_pair() -> (SocketSet<'static>, SocketHandle, SocketHandle) {
    let clock = clock();
    let (mut iface, mut device, mut sockets) = build(&None, &clock, 0);

    let mut listener = new_tcp();
    listener.listen(IpListenEndpoint::from((IpAddress::v4(127, 0, 0, 1), 3456u16))).unwrap();
    let lh = sockets.add(listener);

    let mut client = new_tcp();
    client.connect(iface.context(), (IpAddress::v4(127, 0, 0, 1), 3456u16), 50000u16).unwrap();
    let ch = sockets.add(client);

    for i in 0..32u64 {
        iface.poll(Instant::from_micros(now(&clock, i)), &mut device, &mut sockets);
    }

    assert_eq!(sockets.get::<tcp::Socket>(lh).state(), tcp::State::Established);
    assert_eq!(sockets.get::<tcp::Socket>(ch).state(), tcp::State::Established);
    (sockets, lh, ch)
}

#[test]
fn established_is_writable_and_not_readable() {
    let (sockets, _lh, ch) = established_pair();
    let ev = readiness(&stream_obj(ch), &sockets, None);
    assert_ne!(ev & EPOLLOUT, 0, "empty tx buffer -> writable");
    assert_eq!(ev & EPOLLIN, 0, "empty rx buffer, peer open -> not readable");
    assert_eq!(ev & EPOLLHUP, 0, "is_active -> no EPOLLHUP");
}

#[test]
fn unopened_socket_reports_epollin_and_epollhup() {
    let mut sockets = SocketSet::new(Vec::new());
    let h = sockets.add(new_tcp());
    let ev = readiness(&stream_obj(h), &sockets, None);
    assert_ne!(ev & EPOLLIN, 0, "Closed -> readable (observes EOF)");
    assert_ne!(ev & EPOLLHUP, 0, "!is_active -> EPOLLHUP");
}

#[test]
fn listener_pool_pure_listen_is_not_ready() {
    let mut sockets = SocketSet::new(Vec::new());
    let ep = IpListenEndpoint::from((IpAddress::v4(127, 0, 0, 1), 3456u16));
    let mut s = new_tcp();
    s.listen(ep).unwrap();
    let h = sockets.add(s);
    let obj = SocketObject {
        backlog: vec![h],
        local: Some(Endpoint::v4(127, 0, 0, 1, 3456)),
        listen_ep: Some(Endpoint::v4(127, 0, 0, 1, 3456)),
        ..listener_obj()
    };
    assert_eq!(readiness(&obj, &sockets, None), 0);
}

#[test]
fn listener_pool_with_established_member_is_ready() {
    let (sockets, lh, _ch) = established_pair();
    let obj = SocketObject { backlog: vec![lh], ..listener_obj() };
    assert_ne!(readiness(&obj, &sockets, None) & EPOLLIN, 0);
}

#[test]
fn build_configures_loopback_address() {
    let (iface, _device, _sockets) = build(&None, &clock(), 0);
    let has_loopback = iface
        .ip_addrs()
        .iter()
        .any(|cidr| cidr.address() == IpAddress::v4(127, 0, 0, 1) && cidr.prefix_len() == 8);
    assert!(has_loopback, "127.0.0.1/8 must be configured");
    let has_guest =
        iface.ip_addrs().iter().any(|cidr| cidr.address() == IpAddress::v4(10, 0, 2, 15) && cidr.prefix_len() == 24);
    assert!(has_guest, "10.0.2.15/24 must be configured");
}

#[test]
fn now_is_monotonic() {
    let clock = clock();
    let a = now(&clock, 1_000);
    let b = now(&clock, 2_000);
    assert!(b >= a);
    assert_eq!(a, 1_000);
    assert_eq!(b, 2_000);
}

#[test]
fn alloc_ephemeral_wraps_within_range() {
    let mut st = NetStateInner::new_loopback(&None, &clock(), 0);
    st.next_ephemeral = EPHEMERAL_HI;
    assert_eq!(st.alloc_ephemeral(), EPHEMERAL_HI);
    assert_eq!(st.alloc_ephemeral(), EPHEMERAL_LO);
    let p = st.alloc_ephemeral();
    assert!((EPHEMERAL_LO..=EPHEMERAL_HI).contains(&p));
}

#[test]
fn socket_alloc_reuses_freed_slots() {
    let mut st = NetStateInner::new_loopback(&None, &clock(), 0);
    let id0 = st.socket_alloc(listener_obj());
    st.socket_free(id0);
    let id1 = st.socket_alloc(listener_obj());
    assert_eq!(id0, id1);
}

#[test]
fn socket_free_removes_backlog_handles() {
    let mut st = NetStateInner::new_loopback(&None, &clock(), 0);
    let h = st.sockets.add(new_tcp());
    let mut obj = listener_obj();
    obj.backlog.push(h);
    let id = st.socket_alloc(obj);
    st.socket_free(id);
    assert!(st.socket_get(id).is_none());
    assert_eq!(st.sockets.iter().count(), 0);
}

#[test]
fn end_to_end_listen_connect_echo() {
    let clock = clock();
    let mut sched = cpu();
    let mut st = NetStateInner::new_loopback(&None, &clock, 0);
    let port = 3456u16;
    let listen_ep = IpListenEndpoint::from((IpAddress::v4(127, 0, 0, 1), port));

    // 1. Listener with a backlog of one.
    let mut listener_sock = new_tcp();
    listener_sock.listen(listen_ep).unwrap();
    let lh = st.sockets.add(listener_sock);
    let mut listener = listener_obj();
    listener.local = Some(Endpoint::v4(127, 0, 0, 1, port));
    listener.listen_ep = Some(Endpoint::v4(127, 0, 0, 1, port));
    listener.backlog.push(lh);
    let listener_id = st.socket_alloc(listener);

    // 2. Client connect.
    let client_port = st.alloc_ephemeral();
    let mut client_sock = new_tcp();
    client_sock.connect(st.iface.context(), (IpAddress::v4(127, 0, 0, 1), port), client_port).unwrap();
    let ch = st.sockets.add(client_sock);
    let client_id = st.socket_alloc(stream_obj(ch));

    // 3. Drive the handshake to completion.
    st.poll_and_wake(&mut sched, 0, &clock, 1);
    assert_eq!(st.sockets.get::<tcp::Socket>(lh).state(), tcp::State::Established);
    assert_eq!(st.sockets.get::<tcp::Socket>(ch).state(), tcp::State::Established);

    let listener_ref = st.socket_get(listener_id).unwrap();
    assert_ne!(readiness(listener_ref, &st.sockets, None) & EPOLLIN, 0);
    let accepted_handle = listener_ref.backlog[0];

    // 4. Hand out the backlog member that left Listen, and refill the pool.
    let mut refill = new_tcp();
    refill.listen(listen_ep).unwrap();
    let refill_handle = st.sockets.add(refill);
    st.socket_get_mut(listener_id).unwrap().backlog = vec![refill_handle];
    let server_id = st.socket_alloc(stream_obj(accepted_handle));

    assert_ne!(readiness(st.socket_get(client_id).unwrap(), &st.sockets, None) & EPOLLOUT, 0);

    // 5. Client sends, server echoes, client receives.
    const MSG: &[u8] = b"hello sumi net stack";
    let n = st.sockets.get_mut::<tcp::Socket>(ch).send_slice(MSG).unwrap();
    assert_eq!(n, MSG.len());
    st.poll_and_wake(&mut sched, 0, &clock, 2);

    assert_ne!(readiness(st.socket_get(server_id).unwrap(), &st.sockets, None) & EPOLLIN, 0);
    let mut buf = [0u8; 64];
    let n = st.sockets.get_mut::<tcp::Socket>(accepted_handle).recv_slice(&mut buf).unwrap();
    assert_eq!(&buf[..n], MSG);

    let n = st.sockets.get_mut::<tcp::Socket>(accepted_handle).send_slice(&buf[..n]).unwrap();
    assert_eq!(n, MSG.len());
    st.poll_and_wake(&mut sched, 0, &clock, 3);

    assert_ne!(readiness(st.socket_get(client_id).unwrap(), &st.sockets, None) & EPOLLIN, 0);
    let mut buf2 = [0u8; 64];
    let n = st.sockets.get_mut::<tcp::Socket>(ch).recv_slice(&mut buf2).unwrap();
    assert_eq!(&buf2[..n], MSG);
}

#[test]
fn tables_reuse_the_lowest_free_slot() {
    let mut st = NetStateInner::new_loopback(&None, &clock(), 0);
    assert_eq!(st.epoll_alloc(EpollInstance::new()), 0);
    assert_eq!(st.epoll_alloc(EpollInstance::new()), 1);
    assert!(st.epoll_free(0).is_some());
    assert!(st.epoll_get(0).is_none());
    assert_eq!(st.epoll_alloc(EpollInstance::new()), 0);
    assert!(st.epoll_free(7).is_none());
    assert!(st.pipe_get(0).is_none());
    assert_eq!(st.pipe_alloc(PipeState::new()), 0);
    assert_eq!(st.pipe_get(0).unwrap().readers, 1);
}

#[test]
fn closed_socket_leaves_the_set_once_it_is_over() {
    let clock = clock();
    let mut sched = cpu();
    let mut st = NetStateInner::new_loopback(&None, &clock, 0);
    let h = st.sockets.add(new_tcp());
    let id = st.socket_alloc(stream_obj(h));
    assert!(st.socket_close(id).is_some());
    assert!(st.socket_get(id).is_none());
    st.poll_and_wake(&mut sched, 0, &clock, 1);
    assert_eq!(st.sockets.iter().count(), 0);
}

#[test]
fn seed_comes_from_the_first_eight_bytes() {
    let mut s = [0u8; 32];
    s[0] = 0x11;
    s[7] = 0x80;
    s[8] = 0xff;
    assert_eq!(seed_from_rng(&Some(s), &clock(), 5), 0x8000_0000_0000_0011);
    assert_eq!(seed_from_rng(&None, &clock(), 5), 5_000);
}

#[test]
fn loopback_stream_gives_back_what_was_pushed() {
    let mut s = LoopbackStream::new();
    s.push(b"hello ");
    s.push(b"world");
    assert_eq!(s.available(), 11);
    let mut buf = [0u8; 6];
    assert_eq!(s.pop_into(&mut buf), 6);
    assert_eq!(&buf, b"hello ");
    assert_eq!(s.available(), 5);
    let mut rest = [0u8; 16];
    assert_eq!(s.pop_into(&mut rest), 5);
    assert_eq!(&rest[..5], b"world");
    assert_eq!(s.available(), 0);
    assert_eq!(s.rx.len(), 0);
}

/// A loopback that counts what is done with it.
struct Counting {
    inner: Loopback,
    told: usize,
    times: Vec<i64>,
}

impl PollDevice for Counting {
    fn pre_poll(&mut self) {
        self.told += 1;
        self.inner.pre_poll();
    }

    fn poll(&mut self, iface: &mut Interface, sockets: &mut SocketSet<'static>, micros: i64) -> bool {
        self.times.push(micros);
        self.inner.poll(iface, sockets, micros)
    }
}

#[test]
fn one_advance_moves_packets_five_times() {
    let (iface, inner, sockets) = build(&None, &clock(), 0);
    let mut net = NetStateInner::over(iface, Counting { inner, told: 0, times: Vec::new() }, sockets);
    let mut sched = Scheduler::new();
    sched.init_for_cpu(0, 0x1000);
    net.poll_and_wake(&mut sched, 0, &clock(), 7);
    assert_eq!(net.device.device().told, 1);
    assert_eq!(net.device.device().times, vec![7; 5]);
}
