use sumi_kernel::fs::fd_table::{FdKind, FdTable};
use sumi_kernel::memory::access::{read_bytes, read_u32, read_u64, write_bytes, write_u32, write_u64};
use sumi_kernel::memory::test_utils::TestDirectMap;
use sumi_kernel::net::abi::{read_epoll_event, write_epoll_event, EpollEvent};
use sumi_kernel::net::socket::{EPOLLIN, EPOLLOUT, SOCK_NONBLOCK};
use sumi_kernel::net::state::NetStateInner;
use sumi_kernel::net::stream::{poll, resume};
use sumi_kernel::sched::scheduler::{Parking, Scheduler};
use sumi_kernel::sched::thread::{Thread, ThreadState, Tid};
use sumi_kernel::syscall::args::SyscallArgs;
use sumi_kernel::syscall::blocking::{Again, Call};
use sumi_kernel::syscall::errno::{
    EAFNOSUPPORT, EAGAIN, EBADF, ECONNREFUSED, EEXIST, EINPROGRESS, EINVAL, ENOENT, ENOTCONN, ENOTSOCK, EPROTONOSUPPORT,
};
use sumi_kernel::syscall::handlers::epoll::{
    epoll_on, sys_epoll_create1, sys_epoll_ctl, sys_epoll_wait, EpollCall, EPOLL_CTL_ADD, EPOLL_CTL_DEL, EPOLL_CTL_MOD,
};
use sumi_kernel::syscall::handlers::io::{sys_fcntl, sys_pipe2, F_SETFL, O_NONBLOCK};
use sumi_kernel::syscall::handlers::net::{
    accept_on, connect_on, sys_accept4, sys_bind, sys_connect, sys_getpeername, sys_getsockname, sys_getsockopt, sys_listen,
    sys_recvfrom, sys_recvmsg, sys_sendmsg, sys_sendto, sys_setsockopt, sys_shutdown, sys_socket,
};
use sumi_kernel::syscall::handlers::poll::{sys_poll, PollCall, POLLIN, POLLNVAL, POLLOUT};
use sumi_kernel::time::{init, Clock};
use smoltcp::phy::Loopback;

const USER: u64 = 0x40_0000;

fn call(a: [u64; 6]) -> SyscallArgs {
    SyscallArgs {
        nr: 0,
        arg0: a[0],
        arg1: a[1],
        arg2: a[2],
        arg3: a[3],
        arg4: a[4],
        arg5: a[5],
        caller_rip: 0,
        caller_rflags: 0,
    }
}

fn clock() -> Clock {
    init(1000, 0, 0, 0)
}

struct World {
    net: NetStateInner<Loopback>,
    sched: Scheduler,
    fds: FdTable,
    um: TestDirectMap,
    tsc: u64,
}

impl World {
    fn now(&mut self) -> u64 {
        self.tsc += 1;
        self.tsc
    }

    /// Lets thread `tid` run on the CPU.
    fn run(&mut self, tid: u32) {
        let mut t = self.sched.thread(Tid(tid));
        t.state = ThreadState::Running;
        t.on_cpu = true;
        self.sched.threads.update(t);
        self.sched.cpus[0].current_thread = Some(Tid(tid));
        while self.sched.cpus[0].runqueue.pop().is_some() {}
    }

    /// The context of thread `tid` has been saved.
    fn saved(&mut self, tid: u32) {
        self.sched.context_saved(Tid(tid));
    }

    fn state(&self, tid: u32) -> ThreadState {
        self.sched.thread(Tid(tid)).state
    }
}

fn world() -> World {
    let mut sched = Scheduler::new();
    sched.init_for_cpu(0, 0x1000);
    let mut idle = Thread::new_test(9999);
    idle.state = ThreadState::Runnable;
    sched.threads.register(idle);
    sched.cpus[0].idle_thread = Some(Tid(9999));
    for tid in [5, 6] {
        let mut t = Thread::new_test(tid);
        t.state = ThreadState::Blocked;
        sched.threads.register(t);
    }
    let mut w = World {
        net: NetStateInner::new_loopback(&None, &clock(), 0),
        sched,
        fds: FdTable::new(),
        um: TestDirectMap::at(USER, 0x8000),
        tsc: 0,
    };
    w.run(5);
    w
}

const ADDR: u64 = USER + 0x100;

fn put_addr(w: &mut World, ip: [u8; 4], port: u16) {
    let mut sa = [0u8; 16];
    sa[0] = 2;
    sa[2..4].copy_from_slice(&port.to_be_bytes());
    sa[4..8].copy_from_slice(&ip);
    write_bytes(&mut w.um, ADDR, &sa);
}

fn socket(w: &mut World, nonblocking: bool) -> u64 {
    let typ = 1 | if nonblocking { SOCK_NONBLOCK as u64 } else { 0 };
    sys_socket(&call([2, typ, 0, 0, 0, 0]), &mut w.fds, &mut w.net) as u64
}

/// A listener at 127.0.0.1:`port`.
fn listener(w: &mut World, port: u16, nonblocking: bool) -> u64 {
    let fd = socket(w, nonblocking);
    put_addr(w, [127, 0, 0, 1], port);
    assert_eq!(sys_bind(&call([fd, ADDR, 16, 0, 0, 0]), &w.fds, &mut w.net, &w.um), 0);
    let t = w.now();
    assert_eq!(sys_listen(&call([fd, 2, 0, 0, 0, 0]), &w.fds, &mut w.net, &mut w.sched, 0, &clock(), t), 0);
    fd
}

/// A connected pair over a listener: the listener, the client's end and the server's end.
fn connected(w: &mut World) -> (u64, u64, u64) {
    let l = listener(w, 4000, true);
    let c = socket(w, true);
    put_addr(w, [127, 0, 0, 1], 4000);
    let t = w.now();
    let r = sys_connect(&call([c, ADDR, 16, 0, 0, 0]), &w.fds, &mut w.net, &mut w.sched, &w.um, 0, &clock(), t);
    assert!(r == Call::Return(0) || r == Call::Return(EINPROGRESS), "{r:?}");
    let t = w.now();
    w.net.poll_and_wake(&mut w.sched, 0, &clock(), t);
    let t = w.now();
    let r = sys_accept4(
        &call([l, 0, 0, SOCK_NONBLOCK as u64, 0, 0]),
        &mut w.fds,
        &mut w.net,
        &mut w.sched,
        &mut w.um,
        0,
        &clock(),
        t,
    );
    match r {
        Call::Return(s) if s >= 0 => (l, c, s as u64),
        other => panic!("{other:?}"),
    }
}

fn send(w: &mut World, fd: u64, data: &[u8]) -> Call {
    write_bytes(&mut w.um, USER + 0x1000, data);
    let t = w.now();
    sys_sendto(
        &call([fd, USER + 0x1000, data.len() as u64, 0, 0, 0]),
        &w.fds,
        &mut w.net,
        &mut w.sched,
        &mut w.um,
        0,
        &clock(),
        t,
    )
}

fn recv(w: &mut World, fd: u64, n: u64) -> Call {
    let t = w.now();
    sys_recvfrom(
        &call([fd, USER + 0x2000, n, 0, 0, 0]),
        &w.fds,
        &mut w.net,
        &mut w.sched,
        &mut w.um,
        0,
        &clock(),
        t,
    )
}

#[test]
fn only_streams_of_known_families_are_made() {
    let mut w = world();
    assert_eq!(sys_socket(&call([77, 1, 0, 0, 0, 0]), &mut w.fds, &mut w.net), EAFNOSUPPORT);
    assert_eq!(sys_socket(&call([2, 2, 0, 0, 0, 0]), &mut w.fds, &mut w.net), EPROTONOSUPPORT);
    assert_eq!(socket(&mut w, false), 3);
    assert_eq!(w.fds.get(3).unwrap().kind, FdKind::Socket { id: 0 });
}

#[test]
fn socket_calls_want_sockets() {
    let mut w = world();
    put_addr(&mut w, [127, 0, 0, 1], 80);
    assert_eq!(sys_bind(&call([1, ADDR, 16, 0, 0, 0]), &w.fds, &mut w.net, &w.um), ENOTSOCK);
    assert_eq!(sys_bind(&call([9, ADDR, 16, 0, 0, 0]), &w.fds, &mut w.net, &w.um), EBADF);
    assert_eq!(sys_setsockopt(&call([1, 0, 0, 0, 0, 0]), &w.fds), ENOTSOCK);
    assert_eq!(recv(&mut w, 1, 4), Call::Return(ENOTSOCK));
}

#[test]
fn names_of_sockets() {
    let mut w = world();
    let fd = socket(&mut w, false);
    put_addr(&mut w, [10, 0, 2, 15], 8080);
    assert_eq!(sys_bind(&call([fd, ADDR, 16, 0, 0, 0]), &w.fds, &mut w.net, &w.um), 0);
    write_u32(&mut w.um, USER + 0x40, 16);
    assert_eq!(sys_getsockname(&call([fd, USER, USER + 0x40, 0, 0, 0]), &w.fds, &w.net, &mut w.um), 0);
    assert_eq!(read_bytes(&w.um, USER, 8), vec![2, 0, 0x1f, 0x90, 10, 0, 2, 15]);
    assert_eq!(sys_getpeername(&call([fd, USER, USER + 0x40, 0, 0, 0]), &w.fds, &w.net, &mut w.um), ENOTCONN);
}

#[test]
fn both_ends_name_each_other() {
    let mut w = world();
    let (_, c, s) = connected(&mut w);
    write_u32(&mut w.um, USER + 0x40, 16);
    assert_eq!(sys_getsockname(&call([c, USER, USER + 0x40, 0, 0, 0]), &w.fds, &w.net, &mut w.um), 0);
    let client = read_bytes(&w.um, USER, 8);
    assert_eq!(client[4..8], [127, 0, 0, 1]);
    assert!(u16::from_be_bytes([client[2], client[3]]) >= 49152);
    assert_eq!(sys_getpeername(&call([c, USER, USER + 0x40, 0, 0, 0]), &w.fds, &w.net, &mut w.um), 0);
    assert_eq!(read_bytes(&w.um, USER, 8), vec![2, 0, 0x0f, 0xa0, 127, 0, 0, 1]);
    assert_eq!(sys_getpeername(&call([s, USER, USER + 0x40, 0, 0, 0]), &w.fds, &w.net, &mut w.um), 0);
    assert_eq!(read_bytes(&w.um, USER, 8), client);
}

#[test]
fn options_read_as_zero() {
    let mut w = world();
    let fd = socket(&mut w, false);
    write_u32(&mut w.um, USER, 7);
    write_u32(&mut w.um, USER + 8, 4);
    assert_eq!(sys_getsockopt(&call([fd, 1, 4, USER, USER + 8, 0]), &w.fds, &mut w.um), 0);
    assert_eq!(read_u32(&w.um, USER), 0);
    assert_eq!(sys_setsockopt(&call([fd, 1, 2, USER, 4, 0]), &w.fds), 0);
}

#[test]
fn bytes_go_both_ways() {
    let mut w = world();
    let (_l, c, s) = connected(&mut w);
    assert_eq!(recv(&mut w, s, 16), Call::Return(EAGAIN));
    assert_eq!(send(&mut w, c, b"ping"), Call::Return(4));
    assert_eq!(recv(&mut w, s, 16), Call::Return(4));
    assert_eq!(read_bytes(&w.um, USER + 0x2000, 4), b"ping");
    assert_eq!(send(&mut w, s, b"pong!"), Call::Return(5));
    assert_eq!(recv(&mut w, c, 3), Call::Return(3));
    assert_eq!(read_bytes(&w.um, USER + 0x2000, 3), b"pon");
    assert_eq!(recv(&mut w, c, 3), Call::Return(2));
    write_u32(&mut w.um, USER + 0x40, 16);
    assert_eq!(sys_getpeername(&call([c, USER, USER + 0x40, 0, 0, 0]), &w.fds, &w.net, &mut w.um), 0);
    assert_eq!(read_bytes(&w.um, USER, 8), vec![2, 0, 0x0f, 0xa0, 127, 0, 0, 1]);
}

#[test]
fn messages_gather_their_buffers() {
    let mut w = world();
    let (_l, c, s) = connected(&mut w);
    let iov = USER + 0x3000;
    let msg = USER + 0x3100;
    write_bytes(&mut w.um, USER + 0x1000, b"abcdef");
    for (i, (base, len)) in [(USER + 0x1000, 2u64), (USER + 0x1002, 4)].iter().enumerate() {
        write_u64(&mut w.um, iov + 16 * i as u64, *base);
        write_u64(&mut w.um, iov + 16 * i as u64 + 8, *len);
    }
    write_u64(&mut w.um, msg + 16, iov);
    write_u64(&mut w.um, msg + 24, 2);
    let t = w.now();
    assert_eq!(
        sys_sendmsg(&call([c, msg, 0, 0, 0, 0]), &w.fds, &mut w.net, &mut w.sched, &mut w.um, 0, &clock(), t),
        Call::Return(6)
    );
    w.tsc += 100_000;
    let t = w.now();
    w.net.poll_and_wake(&mut w.sched, 0, &clock(), t);
    for (i, base) in [USER + 0x2000, USER + 0x2010].iter().enumerate() {
        write_u64(&mut w.um, iov + 16 * i as u64, *base);
    }
    let t = w.now();
    let r = sys_recvmsg(&call([s, msg, 0, 0, 0, 0]), &w.fds, &mut w.net, &mut w.sched, &mut w.um, 0, &clock(), t);
    assert_eq!(r, Call::Return(6));
    assert_eq!(read_bytes(&w.um, USER + 0x2000, 2), b"ab");
    assert_eq!(read_bytes(&w.um, USER + 0x2010, 4), b"cdef");
}

#[test]
fn a_closed_side_ends_the_stream() {
    let mut w = world();
    let (_l, c, s) = connected(&mut w);
    assert_eq!(send(&mut w, c, b"bye"), Call::Return(3));
    let t = w.now();
    assert_eq!(sys_shutdown(&call([c, 1, 0, 0, 0, 0]), &w.fds, &mut w.net, &mut w.sched, 0, &clock(), t), 0);
    assert_eq!(recv(&mut w, s, 16), Call::Return(3));
    assert_eq!(recv(&mut w, s, 16), Call::Return(0));
    let lone = socket(&mut w, true);
    let t = w.now();
    assert_eq!(sys_shutdown(&call([lone, 1, 0, 0, 0, 0]), &w.fds, &mut w.net, &mut w.sched, 0, &clock(), t), ENOTCONN);
}

#[test]
fn nobody_listening_refuses() {
    let mut w = world();
    let c = socket(&mut w, false);
    put_addr(&mut w, [127, 0, 0, 1], 4321);
    let t = w.now();
    let r = sys_connect(&call([c, ADDR, 16, 0, 0, 0]), &w.fds, &mut w.net, &mut w.sched, &w.um, 0, &clock(), t);
    let r = match r {
        Call::Parked(_, Again::Connect { id }) => {
            w.saved(5);
            let t = w.now();
            w.net.poll_and_wake(&mut w.sched, 0, &clock(), t);
            w.run(5);
            let t = w.now();
            connect_on(&mut w.net, &mut w.sched, id, 0, &clock(), t)
        }
        other => other,
    };
    assert_eq!(r, Call::Return(ECONNREFUSED));
}

#[test]
fn a_refused_accept_touches_no_address() {
    let mut w = world();
    let stream = socket(&mut w, false);
    let l = listener(&mut w, 5001, true);
    let t = w.now();
    for (fd, answer) in [(77, EBADF), (1, ENOTSOCK), (stream, EINVAL), (l, EAGAIN)] {
        let args = call([fd, u64::MAX - 3, u64::MAX - 1, 0, 0, 0]);
        let r = sys_accept4(&args, &mut w.fds, &mut w.net, &mut w.sched, &mut w.um, 0, &clock(), t);
        assert_eq!(r, Call::Return(answer));
    }
}

#[test]
fn accept_waits_until_someone_connects() {
    let mut w = world();
    let l = listener(&mut w, 5000, false);
    let t = w.now();
    let r = sys_accept4(&call([l, 0, 0, 0, 0, 0]), &mut w.fds, &mut w.net, &mut w.sched, &mut w.um, 0, &clock(), t);
    let again = match r {
        Call::Parked(_, again) => again,
        other => panic!("{other:?}"),
    };
    w.saved(5);
    assert_eq!(w.state(5), ThreadState::Blocked);
    w.run(6);
    let c = socket(&mut w, true);
    put_addr(&mut w, [127, 0, 0, 1], 5000);
    let t = w.now();
    let _ = sys_connect(&call([c, ADDR, 16, 0, 0, 0]), &w.fds, &mut w.net, &mut w.sched, &w.um, 0, &clock(), t);
    let t = w.now();
    w.net.poll_and_wake(&mut w.sched, 0, &clock(), t);
    assert_eq!(w.state(5), ThreadState::Runnable);
    w.run(5);
    let t = w.now();
    let r = match again {
        Again::Accept { id, addr, addr_len, flags } => accept_on(
            &mut w.fds,
            &mut w.net,
            &mut w.sched,
            &mut w.um,
            id,
            addr,
            addr_len,
            flags,
            0,
            &clock(),
            t,
        ),
        other => panic!("{other:?}"),
    };
    assert_eq!(r, Call::Return(5));
}

#[test]
fn a_reader_wakes_when_bytes_arrive() {
    let mut w = world();
    let (_l, c, s) = connected(&mut w);
    assert_eq!(sys_fcntl(&call([s, F_SETFL as u64, 0, 0, 0, 0]), &mut w.fds, &mut w.net, &mut w.um), 0);
    let op = match recv(&mut w, s, 8) {
        Call::Parked(_, Again::Stream(op)) => op,
        other => panic!("{other:?}"),
    };
    w.saved(5);
    w.run(6);
    assert_eq!(send(&mut w, c, b"late"), Call::Return(4));
    let t = w.now();
    w.net.poll_and_wake(&mut w.sched, 0, &clock(), t);
    assert_eq!(w.state(5), ThreadState::Runnable);
    w.run(5);
    let t = w.now();
    assert_eq!(resume(&mut w.net, &mut w.sched, &mut w.um, op, 0, &clock(), t), Parking::Return(4));
    assert_eq!(read_bytes(&w.um, USER + 0x2000, 4), b"late");
}

#[test]
fn epoll_keeps_interests_and_reports_events() {
    let mut w = world();
    let (_l, c, s) = connected(&mut w);
    let ep = sys_epoll_create1(&call([0; 6]), &mut w.fds, &mut w.net) as u64;
    let ev = USER + 0x500;
    write_epoll_event(&mut w.um, ev, &EpollEvent { events: EPOLLIN, data: 0xabcd });
    let ctl = |w: &mut World, op: u64, fd: u64| sys_epoll_ctl(&call([ep, op, fd, ev, 0, 0]), &w.fds, &mut w.net, &w.um);
    assert_eq!(ctl(&mut w, EPOLL_CTL_MOD, s), ENOENT);
    assert_eq!(ctl(&mut w, EPOLL_CTL_DEL, s), ENOENT);
    assert_eq!(ctl(&mut w, EPOLL_CTL_ADD, s), 0);
    assert_eq!(ctl(&mut w, EPOLL_CTL_ADD, s), EEXIST);
    assert_eq!(ctl(&mut w, 9, s), EINVAL);
    assert_eq!(ctl(&mut w, EPOLL_CTL_ADD, 77), EBADF);
    let wait = |w: &mut World, max: u64, timeout: i32| {
        let t = w.now();
        sys_epoll_wait(
            &call([ep, USER + 0x600, max, timeout as u32 as u64, 0, 0]),
            &w.fds,
            &mut w.net,
            &mut w.sched,
            &mut w.um,
            0,
            &clock(),
            t,
        )
    };
    assert!(matches!(wait(&mut w, 4, 0), EpollCall::Return(0)));
    assert!(matches!(wait(&mut w, 0, 0), EpollCall::Return(r) if r == EINVAL));
    assert_eq!(send(&mut w, c, b"x"), Call::Return(1));
    assert!(matches!(wait(&mut w, 4, 0), EpollCall::Return(1)));
    assert_eq!(read_epoll_event(&w.um, USER + 0x600), EpollEvent { events: EPOLLIN, data: 0xabcd });
    write_epoll_event(&mut w.um, ev, &EpollEvent { events: EPOLLIN | EPOLLOUT, data: 1 });
    assert_eq!(ctl(&mut w, EPOLL_CTL_MOD, s), 0);
    assert!(matches!(wait(&mut w, 4, 0), EpollCall::Return(1)));
    assert_eq!(read_epoll_event(&w.um, USER + 0x600), EpollEvent { events: EPOLLIN | EPOLLOUT, data: 1 });
    assert_eq!(ctl(&mut w, EPOLL_CTL_DEL, s), 0);
    assert!(matches!(wait(&mut w, 4, 0), EpollCall::Return(0)));
}

#[test]
fn epoll_waits_and_goes_on() {
    let mut w = world();
    let (_l, c, s) = connected(&mut w);
    let ep = sys_epoll_create1(&call([0; 6]), &mut w.fds, &mut w.net) as u64;
    write_epoll_event(&mut w.um, USER, &EpollEvent { events: EPOLLIN, data: 9 });
    assert_eq!(sys_epoll_ctl(&call([ep, EPOLL_CTL_ADD, s, USER, 0, 0]), &w.fds, &mut w.net, &w.um), 0);
    let t = w.now();
    let r = sys_epoll_wait(
        &call([ep, USER + 0x600, 4, (-1i32) as u32 as u64, 0, 0]),
        &w.fds,
        &mut w.net,
        &mut w.sched,
        &mut w.um,
        0,
        &clock(),
        t,
    );
    let again = match r {
        EpollCall::Parked(_, again) => again,
        EpollCall::Return(v) => panic!("{v}"),
    };
    w.saved(5);
    w.run(6);
    assert_eq!(send(&mut w, c, b"x"), Call::Return(1));
    let t = w.now();
    w.net.poll_and_wake(&mut w.sched, 0, &clock(), t);
    w.run(5);
    let t = w.now();
    let r = epoll_on(&mut w.net, &mut w.sched, &mut w.um, again, 0, &clock(), t);
    assert!(matches!(r, EpollCall::Return(1)));
    assert_eq!(read_epoll_event(&w.um, USER + 0x600).data, 9);
}

fn pollfd(w: &mut World, i: u64, fd: i32, events: u16) {
    write_u32(&mut w.um, USER + 8 * i, fd as u32);
    write_u32(&mut w.um, USER + 8 * i + 4, events as u32);
}

#[test]
fn poll_answers_each_question() {
    let mut w = world();
    assert_eq!(sys_pipe2(&call([USER + 0x100, 0, 0, 0, 0, 0]), &mut w.fds, &mut w.net, &mut w.um), 0);
    pollfd(&mut w, 0, 1, POLLIN | POLLOUT);
    pollfd(&mut w, 1, -1, POLLIN);
    pollfd(&mut w, 2, 99, POLLIN);
    pollfd(&mut w, 3, 3, POLLIN);
    pollfd(&mut w, 4, 4, POLLOUT);
    let t = w.now();
    let r = sys_poll(&call([USER, 5, 0, 0, 0, 0]), &w.fds, &mut w.net, &mut w.sched, &mut w.um, 0, &clock(), t);
    assert!(matches!(r, PollCall::Return(3)));
    let revents: Vec<u16> = (0..5u64).map(|i| (read_u64(&w.um, USER + 8 * i) >> 48) as u16).collect();
    assert_eq!(revents, vec![POLLIN | POLLOUT, 0, POLLNVAL, 0, POLLOUT]);
    let t = w.now();
    let r = sys_poll(&call([USER, 257, 0, 0, 0, 0]), &w.fds, &mut w.net, &mut w.sched, &mut w.um, 0, &clock(), t);
    assert!(matches!(r, PollCall::Return(e) if e == EINVAL));
}

#[test]
fn nonblocking_follows_the_descriptor_flags() {
    let mut w = world();
    let (_l, c, _s) = connected(&mut w);
    assert_eq!(sys_fcntl(&call([c, F_SETFL as u64, O_NONBLOCK as u64, 0, 0, 0]), &mut w.fds, &mut w.net, &mut w.um), 0);
    assert_eq!(recv(&mut w, c, 4), Call::Return(EAGAIN));
    assert_eq!(w.state(5), ThreadState::Running);
}

#[test]
fn polling_without_a_network_does_nothing() {
    let mut w = world();
    let mut none: Option<NetStateInner<Loopback>> = None;
    poll(&mut none, &mut w.sched, 0, &clock(), 1);
    assert!(none.is_none());
    let mut some = Some(NetStateInner::new_loopback(&None, &clock(), 0));
    poll(&mut some, &mut w.sched, 0, &clock(), 1);
    assert!(some.is_some());
}
