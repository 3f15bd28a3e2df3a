//! Reading from and writing to sockets and pipes, which may have to wait.

use smoltcp::iface::SocketHandle;
use vstd::prelude::*;

use super::device::{fits, Poll, PollDevice};
use super::pipe::{
    accepted, after_read, after_write, bytes_read, law_capacity, min, new_pipe, read_outcome, try_read,
    try_write, write_outcome, Pipe, PipeState, PIPE_CAPACITY,
};
use super::socket::{is_peer_closed, peer_closed};
use super::state::{
    advanced_at, advanced, joint_wf, lemma_socket_closed_keeps, lemma_tables, lowest_slot, socket_closed, to_wake, with_new,
    with_waiter, Net, NetStateInner, Place,
};
use super::tcp::{recv_queue, recv_slice, send_slice, socket_state, RecvError, TcpInfo, TCP_RX, TCP_TX};
use super::wait::Wait;
use crate::memory::access::{mem, range, reachable, read_bytes, stored, write_bytes, wrote, Mem, Memory};
use crate::sched::scheduler::{active, blocked, rescheduled, switch_of, woken_all, Parking, Sched, Scheduler};
use crate::syscall::errno::{EAGAIN, EBADF, ENOTCONN, EPIPE};
use crate::time::Clock;

verus! {

broadcast use crate::net::state::group_advanced;

/// The network state and the scheduler.
#[verifier::ext_equal]
pub struct Sys {
    pub net: Net,
    pub sched: Sched,
}

/// The two together.
pub open spec fn sys(net: Net, sched: Sched) -> Sys {
    Sys { net, sched }
}

/// Both after packets were moved from CPU `c`.
pub open spec fn polled_sys(s: Sys, p: Poll, c: int) -> Sys {
    sys(advanced(s.net, p), woken_all(s.sched, to_wake(s.net, p), c))
}

/// Both after the thread on CPU `c` began to wait.
pub open spec fn parked_sys(s: Sys, c: int, limited: bool) -> Sys {
    Sys {
        net: with_waiter(s.net, s.sched.cpus[c].current->0, limited),
        sched: rescheduled(blocked(s.sched, c), c),
    }
}

/// The change of threads when the thread on CPU `c` begins to wait.
pub open spec fn parking_of(s: Sys, c: int) -> Parking {
    Parking::Parked(switch_of(blocked(s.sched, c), c))
}

/// A transfer between the user's memory and a socket or a pipe.
#[derive(Clone, Copy, Debug, PartialEq, Eq, Structural)]
pub enum StreamOp {
    PipeRead { id: usize, addr: u64, len: u64 },
    PipeWrite { id: usize, addr: u64, len: u64 },
    Send { id: usize, addr: u64, len: u64 },
    Recv { id: usize, addr: u64, len: u64 },
}

impl StreamOp {
    /// Where the bytes are in the user's memory.
    pub open spec fn at(self) -> u64 {
        match self {
            StreamOp::PipeRead { addr, .. } => addr,
            StreamOp::PipeWrite { addr, .. } => addr,
            StreamOp::Send { addr, .. } => addr,
            StreamOp::Recv { addr, .. } => addr,
        }
    }

    /// How many bytes there are, or how much room.
    pub open spec fn size(self) -> u64 {
        match self {
            StreamOp::PipeRead { len, .. } => len,
            StreamOp::PipeWrite { len, .. } => len,
            StreamOp::Send { len, .. } => len,
            StreamOp::Recv { len, .. } => len,
        }
    }
}

/// What an attempt came to: its outcome, the state afterwards, and the bytes for the user.
pub struct Attempt {
    pub wait: Wait,
    pub sys: Sys,
    pub out: Seq<u8>,
}

/// An attempt that changes nothing.
pub open spec fn refused(s: Sys, e: i64) -> Attempt {
    Attempt { wait: Wait::Ready(e), sys: s, out: Seq::empty() }
}

/// An attempt to read from a pipe.
pub open spec fn pipe_read_attempt(s: Sys, id: int, max: int) -> Attempt {
    match s.net.pipe(id) {
        None => refused(s, EBADF),
        Some(p) => Attempt {
            wait: read_outcome(p, max),
            sys: Sys { net: s.net.with_pipe(id, Some(after_read(p, max))), ..s },
            out: bytes_read(p, max),
        },
    }
}

/// An attempt to write to a pipe.
pub open spec fn pipe_write_attempt(s: Sys, id: int, data: Seq<u8>) -> Attempt {
    match s.net.pipe(id) {
        None => refused(s, EBADF),
        Some(p) => Attempt {
            wait: write_outcome(p, data.len() as int),
            sys: Sys { net: s.net.with_pipe(id, Some(after_write(p, data))), ..s },
            out: Seq::empty(),
        },
    }
}

/// An attempt to send through a socket: as many bytes as its buffer takes.
pub open spec fn send_attempt(s: Sys, id: int, data: Seq<u8>) -> Attempt {
    match s.net.sock(id) {
        None => refused(s, EBADF),
        Some(o) => match o.handle {
            None => refused(s, ENOTCONN),
            Some(h) => {
                let i = s.net.socks[h];
                let n = min(data.len() as int, i.tx_room());
                if !i.may_send() {
                    refused(s, EPIPE)
                } else {
                    Attempt {
                        wait: if n == 0 { Wait::Block } else { Wait::Ready(n as i64) },
                        sys: Sys { net: s.net.with_tcp(h, TcpInfo { tx: i.tx + data.take(n), ..i }), ..s },
                        out: Seq::empty(),
                    }
                }
            },
        },
    }
}

/// An attempt to receive from a socket: bytes that have arrived, or the end if no more will come.
pub open spec fn recv_attempt(s: Sys, id: int, max: int) -> Attempt {
    match s.net.sock(id) {
        None => refused(s, EBADF),
        Some(o) => match o.handle {
            None => refused(s, ENOTCONN),
            Some(h) => {
                let i = s.net.socks[h];
                let n = min(max, i.rx.len() as int);
                if !i.may_recv() {
                    refused(s, if i.finished { 0 } else { ENOTCONN })
                } else {
                    Attempt {
                        wait: if n == 0 && !is_peer_closed(i.state) { Wait::Block } else { Wait::Ready(n as i64) },
                        sys: Sys { net: s.net.with_tcp(h, TcpInfo { rx: i.rx.skip(n), ..i }), ..s },
                        out: i.rx.take(n),
                    }
                }
            },
        },
    }
}

/// An attempt at a transfer from CPU `c`. One that receives moves packets first, with the outcome `p`.
pub open spec fn attempted(s: Sys, m: Mem, op: StreamOp, p: Poll, c: int) -> Attempt {
    match op {
        StreamOp::PipeRead { id, len, .. } => pipe_read_attempt(s, id as int, len as int),
        StreamOp::PipeWrite { id, addr, len } => pipe_write_attempt(s, id as int, m.range(addr as int, len as int)),
        StreamOp::Send { id, addr, len } => send_attempt(s, id as int, m.range(addr as int, len as int)),
        StreamOp::Recv { id, len, .. } => recv_attempt(polled_sys(s, p, c), id as int, len as int),
    }
}

/// Another socket of the same sizes may take the place of one.
pub proof fn lemma_with_tcp(n: Net, h: SocketHandle, i: TcpInfo)
    requires
        n.wf(),
        n.socks.contains_key(h),
        fits(i),
        i.tx_size == TCP_TX,
        i.rx_size == TCP_RX,
    ensures
        n.with_tcp(h, i).wf(),
{
    let m = n.with_tcp(h, i);
    assert forall|g: SocketHandle, p: Place| #[trigger] m.uses(g, p) implies n.uses(g, p) by {}
    assert forall|g: SocketHandle, p: Place, q: Place| #[trigger] m.uses(g, p) && #[trigger] m.uses(g, q) implies p == q by {
        assert(n.uses(g, p) && n.uses(g, q));
    }
    assert forall|g: SocketHandle| #[trigger] m.socks.contains_key(g) implies fits(m.socks[g]) && m.socks[g].tx_size == TCP_TX
        && m.socks[g].rx_size == TCP_RX by {
        assert(g == h || n.socks.contains_key(g));
    }
    assert forall|k: int| 0 <= k < m.pipetab.len() implies ((#[trigger] m.pipetab[k]) matches Some(x) ==> x.buf.len() <= PIPE_CAPACITY) by {
        assert(n.pipetab[k] matches Some(x) ==> x.buf.len() <= PIPE_CAPACITY);
    }
}

/// Another pipe that keeps to its capacity may take the place of one.
proof fn lemma_with_pipe(n: Net, id: int, p: Option<Pipe>)
    requires
        n.wf(),
        n.pipe(id) is Some,
        p matches Some(x) ==> x.buf.len() <= PIPE_CAPACITY,
    ensures
        n.with_pipe(id, p).wf(),
{
    let m = n.with_pipe(id, p);
    assert forall|k: int| 0 <= k < m.pipetab.len() implies ((#[trigger] m.pipetab[k]) matches Some(x) ==> x.buf.len() <= PIPE_CAPACITY) by {
        assert(n.pipetab[k] matches Some(x) ==> x.buf.len() <= PIPE_CAPACITY);
    }
    lemma_tables(n, m);
}

/// The number of times that an attempt moves packets.
pub open spec fn polls_of(op: StreamOp) -> int {
    if op is Recv { 1 } else { 0 }
}

fn attempt_pipe_read<D, M: Memory>(net: &mut NetStateInner<D>, um: &mut M, id: usize, addr: u64, len: u64, Ghost(v): Ghost<Sched>) -> (r: Wait)
    requires
        old(net)@.wf(),
        reachable(old(um), addr, len as int),
    ensures
        ({
            let a = pipe_read_attempt(sys(old(net)@, v), id as int, len as int);
            r == a.wait && final(net)@ == a.sys.net && wrote(old(um), final(um), addr as int, a.out)
        }),
        final(net)@.wf(),
{
    let ghost n = net@;
    let ghost um0 = *um;
    assert(um.bytes() =~= stored(um, addr as int, Seq::<u8>::empty()));
    match net.pipe_get_mut(id) {
        None => Wait::Ready(EBADF),
        Some(p) => {
            let ghost p0 = p@;
            proof {
                assert(n.pipetab[id as int] matches Some(x) ==> x.buf.len() <= PIPE_CAPACITY);
            }
            let have: usize = p.buf.len();
            let room: usize = if len < have as u64 { len as usize } else { have };
            let mut buf: Vec<u8> = vec![0u8; room];
            let ghost zeros = buf@;
            let r = try_read(p, buf.as_mut_slice());
            proof {
                assert(buf@ =~= bytes_read(p0, len as int));
                assert(r == read_outcome(p0, len as int));
                assert(p@ =~= after_read(p0, len as int));
                lemma_with_pipe(n, id as int, Some(p@));
            }
            write_bytes(um, addr, buf.as_slice());
            r
        },
    }
}

fn attempt_pipe_write<D, M: Memory>(net: &mut NetStateInner<D>, um: &M, id: usize, addr: u64, len: u64, Ghost(v): Ghost<Sched>) -> (r: Wait)
    requires
        old(net)@.wf(),
        reachable(um, addr, len as int),
    ensures
        ({
            let a = pipe_write_attempt(sys(old(net)@, v), id as int, range(um, addr as int, len as int));
            r == a.wait && final(net)@ == a.sys.net
        }),
        final(net)@.wf(),
{
    let ghost n = net@;
    let ghost data = range(um, addr as int, len as int);
    let size: u64 = if len < PIPE_CAPACITY as u64 { len } else { PIPE_CAPACITY as u64 };
    let buf = read_bytes(um, addr, size);
    assert(buf@ =~= data.take(size as int));
    match net.pipe_get_mut(id) {
        None => Wait::Ready(EBADF),
        Some(p) => {
            let ghost p0 = p@;
            proof {
                assert(n.pipetab[id as int] matches Some(x) ==> x.buf.len() <= PIPE_CAPACITY);
            }
            let r = try_write(p, buf.as_slice());
            proof {
                let k = accepted(p0, size as int);
                assert(accepted(p0, data.len() as int) == k);
                assert(buf@.take(k) =~= data.take(k));
                assert(p@ =~= after_write(p0, data));
                law_capacity(p0, data);
                lemma_with_pipe(n, id as int, Some(p@));
            }
            r
        },
    }
}

fn attempt_send<D, M: Memory>(net: &mut NetStateInner<D>, um: &M, id: usize, addr: u64, len: u64, Ghost(v): Ghost<Sched>) -> (r: Wait)
    requires
        old(net)@.wf(),
        reachable(um, addr, len as int),
    ensures
        ({
            let a = send_attempt(sys(old(net)@, v), id as int, range(um, addr as int, len as int));
            r == a.wait && final(net)@ == a.sys.net
        }),
        final(net)@.wf(),
{
    let ghost n = net@;
    let ghost data = range(um, addr as int, len as int);
    let handle = match net.socket_get(id) {
        None => {
            return Wait::Ready(EBADF);
        },
        Some(o) => o.handle,
    };
    let h = match handle {
        None => {
            return Wait::Ready(ENOTCONN);
        },
        Some(h) => h,
    };
    proof {
        assert(n.uses(h, Place::Stream(id as int)));
    }
    let size: u64 = if len < TCP_TX as u64 { len } else { TCP_TX as u64 };
    let buf = read_bytes(um, addr, size);
    let ghost i = n.socks[h];
    let ghost k = min(data.len() as int, i.tx_room());
    proof {
        assert(buf@ =~= data.take(size as int));
        assert(buf@.take(k) =~= data.take(k));
    }
    match send_slice(&mut net.sockets, h, buf.as_slice()) {
        None => {
            assert(net@ =~= n);
            Wait::Ready(EPIPE)
        },
        Some(sent) => {
            proof {
                let j = TcpInfo { tx: i.tx + data.take(k), ..i };
                assert(net@ =~= n.with_tcp(h, j));
                lemma_with_tcp(n, h, j);
            }
            if sent == 0 {
                Wait::Block
            } else {
                Wait::Ready(sent as i64)
            }
        },
    }
}

fn attempt_recv<D, M: Memory>(net: &mut NetStateInner<D>, um: &mut M, id: usize, addr: u64, len: u64, Ghost(v): Ghost<Sched>) -> (r: Wait)
    requires
        old(net)@.wf(),
        reachable(old(um), addr, len as int),
    ensures
        ({
            let a = recv_attempt(sys(old(net)@, v), id as int, len as int);
            r == a.wait && final(net)@ == a.sys.net && wrote(old(um), final(um), addr as int, a.out)
        }),
        final(net)@.wf(),
{
    let ghost n = net@;
    assert(um.bytes() =~= stored(um, addr as int, Seq::<u8>::empty()));
    let handle = match net.socket_get(id) {
        None => {
            return Wait::Ready(EBADF);
        },
        Some(o) => o.handle,
    };
    let h = match handle {
        None => {
            return Wait::Ready(ENOTCONN);
        },
        Some(h) => h,
    };
    proof {
        assert(n.uses(h, Place::Stream(id as int)));
    }
    let ghost i = n.socks[h];
    let queued: usize = recv_queue(&net.sockets, h);
    let max: usize = if len < queued as u64 { len as usize } else { queued };
    match recv_slice(&mut net.sockets, h, max) {
        Ok(bytes) => {
            proof {
                let j = TcpInfo { rx: i.rx.skip(max as int), ..i };
                assert(net@ =~= n.with_tcp(h, j));
                lemma_with_tcp(n, h, j);
                assert(bytes@ =~= i.rx.take(max as int));
            }
            let got: usize = bytes.len();
            let over = peer_closed(socket_state(&net.sockets, h));
            write_bytes(um, addr, bytes.as_slice());
            if got == 0 && !over {
                Wait::Block
            } else {
                Wait::Ready(got as i64)
            }
        },
        Err(e) => {
            assert(net@ =~= n);
            match e {
                RecvError::Finished => Wait::Ready(0),
                RecvError::InvalidState => Wait::Ready(ENOTCONN),
            }
        },
    }
}

/// An attempt at a transfer.
fn attempt<D: PollDevice, M: Memory>(
    net: &mut NetStateInner<D>,
    sched: &mut Scheduler,
    um: &mut M,
    op: StreamOp,
    c: u32,
    clock: &Clock,
    tsc: u64,
) -> (r: Wait)
    requires
        joint_wf(old(net)@, old(sched)@),
        active(old(sched)@, c as int),
        reachable(old(um), op.at(), op.size() as int),
    ensures
        advanced_at(old(net)@.polls, final(net)@.polls, *clock, tsc),
        ({
            let a = attempted(sys(old(net)@, old(sched)@), mem(old(um)), op, final(net)@.polls.last(), c as int);
            &&& r == a.wait
            &&& sys(final(net)@, final(sched)@) == a.sys
            &&& mem(final(um)) == mem(old(um)).stored(op.at() as int, a.out)
            &&& a.wait is Block ==> a.out.len() == 0
        }),
        final(net)@.polls.len() == old(net)@.polls.len() + polls_of(op),
        joint_wf(final(net)@, final(sched)@),
        active(final(sched)@, c as int),
{
    let ghost s = sys(net@, sched@);
    match op {
        StreamOp::PipeRead { id, addr, len } => attempt_pipe_read(net, um, id, addr, len, Ghost(s.sched)),
        StreamOp::PipeWrite { id, addr, len } => {
            assert(um.bytes() =~= stored(um, addr as int, Seq::<u8>::empty()));
            attempt_pipe_write(net, um, id, addr, len, Ghost(s.sched))
        },
        StreamOp::Send { id, addr, len } => {
            assert(um.bytes() =~= stored(um, addr as int, Seq::<u8>::empty()));
            attempt_send(net, um, id, addr, len, Ghost(s.sched))
        },
        StreamOp::Recv { id, addr, len } => {
            net.poll_and_wake(sched, c, clock, tsc);
            attempt_recv(net, um, id, addr, len, Ghost(sched@))
        },
    }
}

/// What a call comes to: its result, and the state and the user's memory afterwards.
pub struct Outcome {
    pub ret: Parking,
    pub sys: Sys,
    pub mem: Mem,
}

/// What comes of making the attempt again, with packets moved in between, when `q` is what came of
/// moving packets: if it fails twice the thread on CPU `c` waits.
pub open spec fn waited(s: Sys, m: Mem, op: StreamOp, q: Seq<Poll>, c: int) -> Outcome {
    let a = attempted(s, m, op, q[s.net.polls.len() as int], c);
    match a.wait {
        Wait::Ready(v) => Outcome { ret: Parking::Return(v), sys: a.sys, mem: m.stored(op.at() as int, a.out) },
        Wait::Block => {
            let k = a.sys.net.polls.len() as int;
            let b = attempted(polled_sys(a.sys, q[k], c), m, op, q[k + 1], c);
            match b.wait {
                Wait::Ready(v) => Outcome { ret: Parking::Return(v), sys: b.sys, mem: m.stored(op.at() as int, b.out) },
                Wait::Block => Outcome { ret: parking_of(b.sys, c), sys: parked_sys(b.sys, c, false), mem: m },
            }
        },
    }
}

/// What a transfer comes to. One that succeeds at once moves packets, so that whoever waits for it
/// learns of it.
pub open spec fn started(s: Sys, m: Mem, op: StreamOp, nonblocking: bool, q: Seq<Poll>, c: int) -> Outcome {
    let a = attempted(s, m, op, q[s.net.polls.len() as int], c);
    if op.size() == 0 {
        Outcome { ret: Parking::Return(0), sys: s, mem: m }
    } else if op is Recv && !nonblocking {
        waited(s, m, op, q, c)
    } else {
        match a.wait {
            Wait::Ready(v) => Outcome {
                ret: Parking::Return(v),
                sys: if op is Recv || (op is Send && v < 0) {
                    a.sys
                } else {
                    polled_sys(a.sys, q[a.sys.net.polls.len() as int], c)
                },
                mem: m.stored(op.at() as int, a.out),
            },
            Wait::Block => if nonblocking {
                Outcome { ret: Parking::Return(EAGAIN), sys: a.sys, mem: m }
            } else {
                waited(a.sys, m, op, q, c)
            },
        }
    }
}

/// Goes on with a transfer after its thread has waited.
pub fn resume<D: PollDevice, M: Memory>(
    net: &mut NetStateInner<D>,
    sched: &mut Scheduler,
    um: &mut M,
    op: StreamOp,
    c: u32,
    clock: &Clock,
    tsc: u64,
) -> (r: Parking)
    requires
        joint_wf(old(net)@, old(sched)@),
        active(old(sched)@, c as int),
        reachable(old(um), op.at(), op.size() as int),
    ensures
        advanced_at(old(net)@.polls, final(net)@.polls, *clock, tsc),
        ({
            let w = waited(sys(old(net)@, old(sched)@), mem(old(um)), op, final(net)@.polls, c as int);
            &&& r == w.ret
            &&& sys(final(net)@, final(sched)@) == w.sys
            &&& mem(final(um)) == w.mem
        }),
        joint_wf(final(net)@, final(sched)@),
        r is Return ==> active(final(sched)@, c as int),
{
    let ghost s = sys(net@, sched@);
    let ghost k = net@.polls.len() as int;
    if let Wait::Ready(v) = attempt(net, sched, um, op, c, clock, tsc) {
        return Parking::Return(v);
    }
    let ghost s1 = sys(net@, sched@);
    let ghost q1 = net@.polls;
    assert(mem(um) =~= mem(old(um)));
    net.poll_and_wake(sched, c, clock, tsc);
    let ghost s2 = sys(net@, sched@);
    let ghost q2 = net@.polls;
    assert(q2 =~= q1.push(q2.last()));
    let r = attempt(net, sched, um, op, c, clock, tsc);
    let ghost s3 = sys(net@, sched@);
    proof {
        let q3 = net@.polls;
        assert(q3[k] == (if op is Recv { q1.last() } else { q3[k] }));
        assert(q3[q1.len() as int] == q2.last());
    }
    if let Wait::Ready(v) = r {
        return Parking::Return(v);
    }
    assert(mem(um) =~= mem(old(um)));
    net.net_wait(sched, c, None, 0, 0)
}

/// Begins a transfer.
pub fn start<D: PollDevice, M: Memory>(
    net: &mut NetStateInner<D>,
    sched: &mut Scheduler,
    um: &mut M,
    op: StreamOp,
    nonblocking: bool,
    c: u32,
    clock: &Clock,
    tsc: u64,
) -> (r: Parking)
    requires
        joint_wf(old(net)@, old(sched)@),
        active(old(sched)@, c as int),
        op.size() > 0 ==> reachable(old(um), op.at(), op.size() as int),
    ensures
        advanced_at(old(net)@.polls, final(net)@.polls, *clock, tsc),
        ({
            let w = started(sys(old(net)@, old(sched)@), mem(old(um)), op, nonblocking, final(net)@.polls, c as int);
            &&& r == w.ret
            &&& sys(final(net)@, final(sched)@) == w.sys
            &&& mem(final(um)) == w.mem
        }),
        joint_wf(final(net)@, final(sched)@),
        r is Return ==> active(final(sched)@, c as int),
{
    let len: u64 = match op {
        StreamOp::PipeRead { len, .. } => len,
        StreamOp::PipeWrite { len, .. } => len,
        StreamOp::Send { len, .. } => len,
        StreamOp::Recv { len, .. } => len,
    };
    if len == 0 {
        return Parking::Return(0);
    }
    let (receives, sends) = match op {
        StreamOp::Recv { .. } => (true, false),
        StreamOp::Send { .. } => (false, true),
        _ => (false, false),
    };
    if receives && !nonblocking {
        return resume(net, sched, um, op, c, clock, tsc);
    }
    let ghost m = mem(um);
    let r = attempt(net, sched, um, op, c, clock, tsc);
    let ghost s1 = sys(net@, sched@);
    let ghost q1 = net@.polls;
    match r {
        Wait::Ready(v) => {
            if !receives && !(sends && v < 0) {
                net.poll_and_wake(sched, c, clock, tsc);
            }
            Parking::Return(v)
        },
        Wait::Block => {
            proof {
                assert(mem(um) =~= m);
            }
            if nonblocking {
                Parking::Return(EAGAIN)
            } else {
                resume(net, sched, um, op, c, clock, tsc)
            }
        },
    }
}

/// Makes a pipe, with one end for reading and one for writing.
pub fn pipe_create<D>(net: &mut NetStateInner<D>) -> (id: usize)
    requires
        old(net)@.wf(),
    ensures
        id == lowest_slot(old(net)@.pipetab, 0),
        final(net)@ == (Net { pipetab: with_new(old(net)@.pipetab, new_pipe()), ..old(net)@ }),
        final(net)@.wf(),
{
    let ghost n = net@;
    let id = net.pipe_alloc(PipeState::new());
    proof {
        let m = net@;
        assert forall|i: int| 0 <= i < m.pipetab.len() implies ((#[trigger] m.pipetab[i]) matches Some(p) ==> p.buf.len() <= PIPE_CAPACITY) by {
            if i < n.pipetab.len() {
                assert(n.pipetab[i] matches Some(p) ==> p.buf.len() <= PIPE_CAPACITY);
            }
        }
        lemma_tables(n, m);
    }
    id
}

/// Reads from a pipe.
pub fn pipe_read<D: PollDevice, M: Memory>(
    net: &mut NetStateInner<D>,
    sched: &mut Scheduler,
    um: &mut M,
    id: usize,
    addr: u64,
    len: u64,
    nonblocking: bool,
    c: u32,
    clock: &Clock,
    tsc: u64,
) -> (r: Parking)
    requires
        joint_wf(old(net)@, old(sched)@),
        active(old(sched)@, c as int),
        len > 0 ==> reachable(old(um), addr, len as int),
    ensures
        advanced_at(old(net)@.polls, final(net)@.polls, *clock, tsc),
        ({
            let op = StreamOp::PipeRead { id, addr, len };
            let w = started(sys(old(net)@, old(sched)@), mem(old(um)), op, nonblocking, final(net)@.polls, c as int);
            &&& r == w.ret
            &&& sys(final(net)@, final(sched)@) == w.sys
            &&& mem(final(um)) == w.mem
        }),
        joint_wf(final(net)@, final(sched)@),
        r is Return ==> active(final(sched)@, c as int),
{
    start(net, sched, um, StreamOp::PipeRead { id, addr, len }, nonblocking, c, clock, tsc)
}

/// Writes to a pipe.
pub fn pipe_write<D: PollDevice, M: Memory>(
    net: &mut NetStateInner<D>,
    sched: &mut Scheduler,
    um: &mut M,
    id: usize,
    addr: u64,
    len: u64,
    nonblocking: bool,
    c: u32,
    clock: &Clock,
    tsc: u64,
) -> (r: Parking)
    requires
        joint_wf(old(net)@, old(sched)@),
        active(old(sched)@, c as int),
        len > 0 ==> reachable(old(um), addr, len as int),
    ensures
        advanced_at(old(net)@.polls, final(net)@.polls, *clock, tsc),
        ({
            let op = StreamOp::PipeWrite { id, addr, len };
            let w = started(sys(old(net)@, old(sched)@), mem(old(um)), op, nonblocking, final(net)@.polls, c as int);
            &&& r == w.ret
            &&& sys(final(net)@, final(sched)@) == w.sys
            &&& mem(final(um)) == w.mem
        }),
        joint_wf(final(net)@, final(sched)@),
        r is Return ==> active(final(sched)@, c as int),
{
    start(net, sched, um, StreamOp::PipeWrite { id, addr, len }, nonblocking, c, clock, tsc)
}

/// One less, but not below 0.
pub open spec fn one_less(n: u32) -> u32 {
    if n == 0 { 0 } else { (n - 1) as u32 }
}

/// What is left of a pipe when one end is closed: nothing if it was the last.
pub open spec fn end_closed(p: Pipe, write_end: bool) -> Option<Pipe> {
    let q = if write_end {
        Pipe { writers: one_less(p.writers), ..p }
    } else {
        Pipe { readers: one_less(p.readers), ..p }
    };
    if q.readers == 0 && q.writers == 0 { None } else { Some(q) }
}

/// Both after one end of a pipe was closed.
pub open spec fn pipe_closed(s: Sys, id: int, write_end: bool, q: Seq<Poll>, c: int) -> Sys {
    match s.net.pipe(id) {
        None => s,
        Some(p) => polled_sys(
            Sys { net: s.net.with_pipe(id, end_closed(p, write_end)), ..s },
            q[s.net.polls.len() as int],
            c,
        ),
    }
}

/// Closes one end of a pipe. The other side learns of it.
pub fn close_pipe<D: PollDevice>(
    net: &mut NetStateInner<D>,
    sched: &mut Scheduler,
    id: usize,
    write_end: bool,
    c: u32,
    clock: &Clock,
    tsc: u64,
)
    requires
        joint_wf(old(net)@, old(sched)@),
        active(old(sched)@, c as int),
    ensures
        advanced_at(old(net)@.polls, final(net)@.polls, *clock, tsc),
        sys(final(net)@, final(sched)@) == pipe_closed(
            sys(old(net)@, old(sched)@),
            id as int,
            write_end,
            final(net)@.polls,
            c as int,
        ),
        joint_wf(final(net)@, final(sched)@),
        active(final(sched)@, c as int),
{
    let ghost n = net@;
    let over = match net.pipe_get_mut(id) {
        None => {
            return;
        },
        Some(p) => {
            if write_end {
                p.writers = p.writers.saturating_sub(1);
            } else {
                p.readers = p.readers.saturating_sub(1);
            }
            p.readers == 0 && p.writers == 0
        },
    };
    if over {
        net.pipe_free(id);
    }
    proof {
        let p = n.pipe(id as int)->0;
        assert(n.pipetab[id as int] matches Some(x) ==> x.buf.len() <= PIPE_CAPACITY);
        assert(net@ =~= n.with_pipe(id as int, end_closed(p, write_end)));
        lemma_with_pipe(n, id as int, end_closed(p, write_end));
    }
    net.poll_and_wake(sched, c, clock, tsc);
}

/// Closes a socket. What there is to say to the other side is said at once.
pub fn close_socket<D: PollDevice>(
    net: &mut NetStateInner<D>,
    sched: &mut Scheduler,
    id: usize,
    c: u32,
    clock: &Clock,
    tsc: u64,
)
    requires
        joint_wf(old(net)@, old(sched)@),
        active(old(sched)@, c as int),
    ensures
        advanced_at(old(net)@.polls, final(net)@.polls, *clock, tsc),
        sys(final(net)@, final(sched)@) == polled_sys(
            sys(socket_closed(old(net)@, id as int), old(sched)@),
            final(net)@.polls.last(),
            c as int,
        ),
        joint_wf(final(net)@, final(sched)@),
        active(final(sched)@, c as int),
{
    let ghost n = net@;
    net.socket_close(id);
    proof {
        lemma_socket_closed_keeps(n, id as int);
    }
    net.poll_and_wake(sched, c, clock, tsc);
}

/// The state without an epoll set.
pub open spec fn epoll_closed(n: Net, id: int) -> Net {
    if n.epoll(id) is Some { Net { epolltab: n.epolltab.update(id, None), ..n } } else { n }
}

/// Closes an epoll set.
pub fn close_epoll<D>(net: &mut NetStateInner<D>, id: usize)
    requires
        old(net)@.wf(),
    ensures
        final(net)@ == epoll_closed(old(net)@, id as int),
        final(net)@.wf(),
{
    let ghost n = net@;
    net.epoll_free(id);
    proof {
        lemma_tables(n, net@);
    }
}

/// Moves packets on a timer tick, if there is a network.
pub fn poll<D: PollDevice>(net: &mut Option<NetStateInner<D>>, sched: &mut Scheduler, this: u32, clock: &Clock, tsc: u64)
    requires
        *old(net) matches Some(n) ==> joint_wf(n@, old(sched)@),
        old(sched)@.online(this as int),
    ensures
        *old(net) is None ==> *final(net) is None && final(sched)@ == old(sched)@,
        *old(net) matches Some(n) ==> {
            &&& *final(net) is Some
            &&& sys((*final(net))->0@, final(sched)@) == polled_sys(
                sys(n@, old(sched)@),
                (*final(net))->0@.polls.last(),
                this as int,
            )
            &&& joint_wf((*final(net))->0@, final(sched)@)
            &&& advanced_at(n@.polls, (*final(net))->0@.polls, *clock, tsc)
        },
{
    if let Some(n) = net.as_mut() {
        n.poll_and_wake(sched, this, clock, tsc);
    }
}

/// The log `q` begins with `p`.
pub open spec fn extends(q: Seq<Poll>, p: Seq<Poll>) -> bool {
    p.len() <= q.len() && forall|k: int| 0 <= k < p.len() ==> #[trigger] q[k] == p[k]
}

/// What a resumed transfer comes to rests on the log as far as it writes it.
pub proof fn lemma_waited_log(s: Sys, m: Mem, op: StreamOp, q1: Seq<Poll>, q2: Seq<Poll>, c: int)
    requires
        q1 == waited(s, m, op, q1, c).sys.net.polls,
        extends(q2, q1),
    ensures
        waited(s, m, op, q2, c) == waited(s, m, op, q1, c),
        extends(q1, s.net.polls),
{
    let k = s.net.polls.len() as int;
    let a = attempted(s, m, op, q1[k], c);
    assert(attempted(s, m, op, q2[k], c) == a);
    if a.wait is Block {
        let j = a.sys.net.polls.len() as int;
        assert(q2[j] == q1[j]);
        let t = polled_sys(a.sys, q1[j], c);
        assert(attempted(t, m, op, q2[j + 1], c) == attempted(t, m, op, q1[j + 1], c));
    }
}

/// What a transfer comes to rests on the log as far as it writes it.
pub proof fn lemma_started_log(s: Sys, m: Mem, op: StreamOp, nonblocking: bool, q1: Seq<Poll>, q2: Seq<Poll>, c: int)
    requires
        q1 == started(s, m, op, nonblocking, q1, c).sys.net.polls,
        extends(q2, q1),
    ensures
        started(s, m, op, nonblocking, q2, c) == started(s, m, op, nonblocking, q1, c),
        extends(q1, s.net.polls),
{
    let k = s.net.polls.len() as int;
    let a = attempted(s, m, op, q1[k], c);
    if op.size() == 0 {
    } else if op is Recv && !nonblocking {
        lemma_waited_log(s, m, op, q1, q2, c);
    } else {
        assert(attempted(s, m, op, q2[k], c) == a);
        match a.wait {
            Wait::Ready(v) => {
                let j = a.sys.net.polls.len() as int;
                if !(op is Recv || (op is Send && v < 0)) {
                    assert(q2[j] == q1[j]);
                }
            },
            Wait::Block => {
                if !nonblocking {
                    lemma_waited_log(a.sys, m, op, q1, q2, c);
                }
            },
        }
    }
}

} // verus!
