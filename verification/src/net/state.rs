//! The tables of sockets, epoll sets and pipes, and the stack under them.

use smoltcp::iface::{Interface, SocketHandle, SocketSet};
use smoltcp::phy::Loopback;
use vstd::prelude::*;

use super::device::{after_poll, fits, Link, Poll, PollDevice, LATEST_MICROS, NET_POLL_ITERS};
use super::epoll::{EpollInstance, EpollInterest};
use super::pipe::{Pipe, PipeState, PIPE_CAPACITY};
use super::socket::{Sock, SocketObject};
use super::stack::{self, EPHEMERAL_HI, EPHEMERAL_LO, GUEST_ADDR, LOOPBACK_ADDR};
use super::tcp::{
    abort, addresses, can_grow, close, closed, is_active, no_sockets, remove_socket, socket_state, tcp_sockets, TcpInfo,
    TcpState, TCP_RX, TCP_TX,
};
use super::wait::{can_wake, WaitQueue};
use crate::sched::scheduler::{
    active, blocked, keeps_places, lemma_active, lemma_woken_all_active, rescheduled, switch_of, woken_all,
    Parking, Sched, Scheduler,
};
use crate::sched::thread::Tid;
use crate::time::{elapsed_ns, Clock};

verus! {

/// All of the network state.
pub struct NetStateInner<D> {
    pub iface: Interface,
    pub sockets: SocketSet<'static>,
    pub device: Link<D>,
    pub socktab: Vec<Option<SocketObject>>,
    pub epolltab: Vec<Option<EpollInstance>>,
    pub pipetab: Vec<Option<PipeState>>,
    pub waiters: WaitQueue,
    /// Waiters that have a time limit.
    pub deadline_waiters: usize,
    pub next_ephemeral: u16,
    /// Sockets without a descriptor whose connections are not over yet.
    pub closing: Vec<SocketHandle>,
}

/// A network state over the loopback device.
pub type TestNetState = NetStateInner<Loopback>;

/// What a `NetStateInner` stands for.
#[verifier::ext_equal]
pub struct Net {
    pub socks: Map<SocketHandle, TcpInfo>,
    pub addrs: Seq<u32>,
    pub socktab: Seq<Option<Sock>>,
    pub epolltab: Seq<Option<Map<i32, EpollInterest>>>,
    pub pipetab: Seq<Option<Pipe>>,
    pub waiters: Seq<Tid>,
    pub deadline_waiters: usize,
    pub next_ephemeral: u16,
    pub closing: Seq<SocketHandle>,
    /// What came of moving packets so far.
    pub polls: Seq<Poll>,
    /// There is always room for one more socket.
    pub grows: bool,
}

/// What each entry of a table stands for.
pub open spec fn table_view<T: View>(s: Seq<Option<T>>) -> Seq<Option<T::V>> {
    Seq::new(
        s.len(),
        |i: int|
            match s[i] {
                Some(x) => Some(x@),
                None => None,
            },
    )
}

impl<D> View for NetStateInner<D> {
    type V = Net;

    open spec fn view(&self) -> Net {
        Net {
            socks: tcp_sockets(self.sockets),
            addrs: addresses(self.iface),
            socktab: table_view(self.socktab@),
            epolltab: table_view(self.epolltab@),
            pipetab: table_view(self.pipetab@),
            waiters: self.waiters@,
            deadline_waiters: self.deadline_waiters,
            next_ephemeral: self.next_ephemeral,
            closing: self.closing@,
            polls: self.device.log(),
            grows: can_grow(self.sockets),
        }
    }
}

/// Where a socket of the stack is used.
pub enum Place {
    Stream(int),
    Backlog(int, int),
    Closing(int),
}

/// The lowest free entry of a table.
pub open spec fn lowest_slot<T>(tab: Seq<Option<T>>, from: int) -> int
    decreases tab.len() - from,
{
    if 0 <= from && from < tab.len() && tab[from] is Some {
        lowest_slot(tab, from + 1)
    } else {
        from
    }
}

/// The table with `x` in its lowest free entry, or at its end.
pub open spec fn with_new<T>(tab: Seq<Option<T>>, x: T) -> Seq<Option<T>> {
    let i = lowest_slot(tab, 0);
    if i < tab.len() { tab.update(i, Some(x)) } else { tab.push(Some(x)) }
}

/// The entry of a table, if there is one.
pub open spec fn entry<T>(tab: Seq<Option<T>>, id: int) -> Option<T> {
    if 0 <= id < tab.len() { tab[id] } else { None }
}

/// The lowest free entry is free, or past the end, and all below it are taken.
pub proof fn law_lowest_slot<T>(tab: Seq<Option<T>>, from: int)
    requires
        0 <= from <= tab.len(),
    ensures
        from <= lowest_slot(tab, from) <= tab.len(),
        lowest_slot(tab, from) < tab.len() ==> tab[lowest_slot(tab, from)] is None,
        forall|k: int| from <= k < lowest_slot(tab, from) ==> (#[trigger] tab[k]) is Some,
    decreases tab.len() - from,
{
    if from < tab.len() && tab[from] is Some {
        law_lowest_slot(tab, from + 1);
    }
}

/// An entry that was freed is the next one to be taken, if it was the last one taken.
pub proof fn law_freed_slot_is_reused<T>(tab: Seq<Option<T>>, x: T, y: T)
    ensures
        ({
            let i = lowest_slot(tab, 0);
            let taken = with_new(tab, x);
            let freed = taken.update(i, None);
            &&& entry(taken, i) == Some(x)
            &&& lowest_slot(freed, 0) == i
            &&& with_new(freed, y) == taken.update(i, Some(y))
        }),
{
    law_lowest_slot(tab, 0);
    let i = lowest_slot(tab, 0);
    let freed = with_new(tab, x).update(i, None);
    assert forall|k: int| 0 <= k < i implies (#[trigger] freed[k]) is Some by {
        assert(tab[k] is Some);
    }
    lemma_lowest_is(freed, 0, i);
    assert(with_new(freed, y) =~= with_new(tab, x).update(i, Some(y)));
}

proof fn lemma_lowest_is<T>(tab: Seq<Option<T>>, from: int, i: int)
    requires
        0 <= from <= i < tab.len(),
        tab[i] is None,
        forall|k: int| from <= k < i ==> (#[trigger] tab[k]) is Some,
    ensures
        lowest_slot(tab, from) == i,
    decreases i - from,
{
    if from < i {
        lemma_lowest_is(tab, from + 1, i);
    }
}

/// A listener knows where its sockets listen.
pub open spec fn knows_where(o: Sock) -> bool {
    o.backlog.len() > 0 ==> (o.listen_ep matches Some(ep) && ep.port != 0)
}

impl Net {
    /// Socket `h` of the stack is used at this place.
    pub open spec fn uses(self, h: SocketHandle, p: Place) -> bool {
        match p {
            Place::Stream(i) => entry(self.socktab, i) matches Some(o) && o.handle == Some(h),
            Place::Backlog(i, k) => entry(self.socktab, i) matches Some(o) && 0 <= k < o.backlog.len() && o.backlog[k] == h,
            Place::Closing(k) => 0 <= k < self.closing.len() && self.closing[k] == h,
        }
    }

    /// Every socket that is used exists, and is used at one place only.
    pub open spec fn handles_wf(self) -> bool {
        &&& forall|h: SocketHandle, p: Place| #[trigger] self.uses(h, p) ==> self.socks.contains_key(h)
        &&& forall|h: SocketHandle, p: Place, q: Place| #[trigger] self.uses(h, p) && #[trigger] self.uses(h, q) ==> p == q
    }

    /// Every socket has buffers of the usual sizes, and every pipe keeps to its capacity.
    pub open spec fn buffers_wf(self) -> bool {
        &&& forall|h: SocketHandle| #[trigger]
            self.socks.contains_key(h) ==> fits(self.socks[h]) && self.socks[h].tx_size == TCP_TX && self.socks[h].rx_size
                == TCP_RX
        &&& forall|i: int| 0 <= i < self.pipetab.len() ==> ((#[trigger] self.pipetab[i]) matches Some(p) ==> p.buf.len()
            <= PIPE_CAPACITY)
    }

    /// Every listener knows where its sockets listen.
    pub open spec fn listeners_wf(self) -> bool {
        forall|i: int| 0 <= i < self.socktab.len() ==> ((#[trigger] self.socktab[i]) matches Some(o) ==> knows_where(o))
    }

    /// Whenever the stack was advanced, packets were moved as often as they have to be.
    pub open spec fn polls_wf(self) -> bool {
        forall|i: int| 0 <= i < self.polls.len() ==> (#[trigger] self.polls[i]).at(self.polls[i].times[0])
    }

    /// What always holds of the network state.
    pub open spec fn wf(self) -> bool {
        &&& self.handles_wf()
        &&& self.buffers_wf()
        &&& self.listeners_wf()
        &&& self.polls_wf()
        &&& self.grows
        &&& EPHEMERAL_LO <= self.next_ephemeral <= EPHEMERAL_HI
    }

    /// The socket object with this id.
    pub open spec fn sock(self, id: int) -> Option<Sock> {
        entry(self.socktab, id)
    }

    /// The pipe with this id.
    pub open spec fn pipe(self, id: int) -> Option<Pipe> {
        entry(self.pipetab, id)
    }

    /// The epoll set with this id.
    pub open spec fn epoll(self, id: int) -> Option<Map<i32, EpollInterest>> {
        entry(self.epolltab, id)
    }

    /// The state with another socket object under the id.
    pub open spec fn with_sock(self, id: int, o: Option<Sock>) -> Net {
        Net { socktab: self.socktab.update(id, o), ..self }
    }

    /// The state with another pipe under the id.
    pub open spec fn with_pipe(self, id: int, p: Option<Pipe>) -> Net {
        Net { pipetab: self.pipetab.update(id, p), ..self }
    }

    /// The state with the socket `h` of the stack in another condition.
    pub open spec fn with_tcp(self, h: SocketHandle, i: TcpInfo) -> Net {
        Net { socks: self.socks.insert(h, i), ..self }
    }
}

/// The network state and the scheduler are sound, and all that wait for the network can be woken.
pub open spec fn joint_wf(n: Net, v: Sched) -> bool {
    n.wf() && v.wf() && v.settled() && can_wake(n.waiters, v)
}

/// A network state with nothing in it.
pub open spec fn empty_net(addrs: Seq<u32>) -> Net {
    Net {
        socks: no_sockets(),
        addrs,
        socktab: Seq::empty(),
        epolltab: Seq::empty(),
        pipetab: Seq::empty(),
        waiters: Seq::empty(),
        deadline_waiters: 0,
        next_ephemeral: EPHEMERAL_LO,
        closing: Seq::empty(),
        polls: Seq::empty(),
        grows: true,
    }
}

/// The state after packets were moved.
pub open spec fn polled(n: Net, p: Poll) -> Net {
    Net { socks: p.socks, polls: n.polls.push(Poll { from: n.socks, ..p }), ..n }
}

/// The connection of `h`, which has no descriptor any more, is over.
pub open spec fn is_over(n: Net, h: SocketHandle) -> bool {
    n.closing.contains(h) && n.socks[h].state is Closed
}

/// Some connection without a descriptor is over.
pub open spec fn any_over(n: Net) -> bool {
    exists|k: int| 0 <= k < n.closing.len() && n.socks[#[trigger] n.closing[k]].state is Closed
}

/// Those of `closing` whose connections are not over.
pub open spec fn still_closing(closing: Seq<SocketHandle>, socks: Map<SocketHandle, TcpInfo>) -> Seq<SocketHandle>
    decreases closing.len(),
{
    if closing.len() == 0 {
        Seq::empty()
    } else {
        let before = still_closing(closing.drop_last(), socks);
        if socks[closing.last()].state is Closed { before } else { before.push(closing.last()) }
    }
}

/// The state after the connections that are over were forgotten.
pub open spec fn reaped(n: Net) -> Net {
    Net {
        socks: Map::new(|h: SocketHandle| n.socks.contains_key(h) && !is_over(n, h), |h: SocketHandle| n.socks[h]),
        closing: still_closing(n.closing, n.socks),
        ..n
    }
}

/// Whoever waits for the network is woken after packets were moved: if a socket may have
/// changed, or a connection is over, or somebody waits with a time limit.
pub open spec fn wakes_waiters(n: Net, p: Poll) -> bool {
    p.changed() || any_over(polled(n, p)) || n.deadline_waiters != 0
}

/// The state after packets were moved and whoever waits was woken.
pub open spec fn advanced(n: Net, p: Poll) -> Net {
    let m = reaped(polled(n, p));
    if wakes_waiters(n, p) { Net { waiters: Seq::empty(), deadline_waiters: 0, ..m } } else { m }
}

/// The threads that are woken after packets were moved.
pub open spec fn to_wake(n: Net, p: Poll) -> Seq<Tid> {
    if wakes_waiters(n, p) { n.waiters } else { Seq::empty() }
}

/// What `closing` keeps is some of it, in which nothing repeats.
proof fn lemma_still_closing(closing: Seq<SocketHandle>, socks: Map<SocketHandle, TcpInfo>)
    requires
        closing.no_duplicates(),
    ensures
        still_closing(closing, socks).no_duplicates(),
        forall|h: SocketHandle| #[trigger]
            still_closing(closing, socks).contains(h) <==> closing.contains(h) && !(socks[h].state is Closed),
    decreases closing.len(),
{
    let r = still_closing(closing, socks);
    if closing.len() > 0 {
        let init = closing.drop_last();
        let b = still_closing(init, socks);
        let x = closing.last();
        assert forall|i: int, j: int| 0 <= i < init.len() && 0 <= j < init.len() && i != j implies init[i] != init[j] by {
            assert(closing[i] != closing[j]);
        }
        lemma_still_closing(init, socks);
        assert forall|h: SocketHandle| closing.contains(h) <==> init.contains(h) || h == x by {
            if closing.contains(h) {
                let k = choose|k: int| 0 <= k < closing.len() && closing[k] == h;
                if k < init.len() {
                    assert(init[k] == h);
                }
            }
            if init.contains(h) {
                let k = choose|k: int| 0 <= k < init.len() && init[k] == h;
                assert(closing[k] == h);
            }
            assert(closing[closing.len() - 1] == x);
        }
        assert(!init.contains(x)) by {
            if init.contains(x) {
                let k = choose|k: int| 0 <= k < init.len() && init[k] == x;
                assert(closing[k] == closing[closing.len() - 1]);
            }
        }
        if !(socks[x].state is Closed) {
            assert forall|h: SocketHandle| #[trigger] r.contains(h) <==> b.contains(h) || h == x by {
                if r.contains(h) {
                    let k = choose|k: int| 0 <= k < r.len() && r[k] == h;
                    if k < b.len() {
                        assert(b[k] == h);
                    }
                }
                if b.contains(h) {
                    let k = choose|k: int| 0 <= k < b.len() && b[k] == h;
                    assert(r[k] == h);
                }
                assert(r[r.len() - 1] == x);
            }
            assert(!b.contains(x));
            assert forall|i: int, j: int| 0 <= i < r.len() && 0 <= j < r.len() && i != j implies r[i] != r[j] by {
                if i == b.len() {
                    assert(b.contains(b[j]));
                } else if j == b.len() {
                    assert(b.contains(b[i]));
                }
            }
        }
    }
}

proof fn lemma_closing_distinct(n: Net)
    requires
        n.handles_wf(),
    ensures
        n.closing.no_duplicates(),
{
    assert forall|i: int, j: int| 0 <= i < n.closing.len() && 0 <= j < n.closing.len() && i != j implies n.closing[i]
        != n.closing[j] by {
        if n.closing[i] == n.closing[j] {
            assert(n.uses(n.closing[i], Place::Closing(i)));
            assert(n.uses(n.closing[i], Place::Closing(j)));
        }
    }
}

/// Advancing the stack keeps what always holds. No socket that has a descriptor goes away.
pub proof fn law_advance(n: Net, p: Poll)
    requires
        n.wf(),
        after_poll(n.socks, p.socks),
        p.at(p.times[0]),
    ensures
        advanced(n, p).wf(),
        forall|h: SocketHandle| n.socks.contains_key(h) && !n.closing.contains(h) ==> #[trigger] advanced(n, p).socks.contains_key(h),
        advanced(n, p).socktab == n.socktab,
        advanced(n, p).pipetab == n.pipetab,
        advanced(n, p).epolltab == n.epolltab,
{
    let m = polled(n, p);
    let w = advanced(n, p);
    lemma_closing_distinct(n);
    lemma_still_closing(m.closing, m.socks);
    assert forall|h: SocketHandle, q: Place| #[trigger] w.uses(h, q) implies exists|q0: Place|
        n.uses(h, q0) && (q0 == q || (q is Closing && q0 is Closing)) && !is_over(m, h) by {
        match q {
            Place::Stream(i) => {
                assert(n.uses(h, q));
                if n.closing.contains(h) {
                    let k = choose|k: int| 0 <= k < n.closing.len() && n.closing[k] == h;
                    assert(n.uses(h, Place::Closing(k)));
                }
            },
            Place::Backlog(i, k) => {
                assert(n.uses(h, q));
                if n.closing.contains(h) {
                    let k = choose|k: int| 0 <= k < n.closing.len() && n.closing[k] == h;
                    assert(n.uses(h, Place::Closing(k)));
                }
            },
            Place::Closing(k) => {
                assert(w.closing.contains(h));
                assert(n.closing.contains(h));
                let k0 = choose|k: int| 0 <= k < n.closing.len() && n.closing[k] == h;
                assert(n.uses(h, Place::Closing(k0)));
            },
        }
    }
    assert forall|h: SocketHandle, q: Place| #[trigger] w.uses(h, q) implies w.socks.contains_key(h) by {
        let q0 = choose|q0: Place| n.uses(h, q0) && (q0 == q || (q is Closing && q0 is Closing)) && !is_over(m, h);
        assert(n.uses(h, q0));
        assert(n.socks.contains_key(h));
        assert(p.socks.dom().contains(h));
    }
    assert forall|h: SocketHandle, q: Place, r: Place| #[trigger] w.uses(h, q) && #[trigger] w.uses(h, r) implies q == r by {
        let q0 = choose|q0: Place| n.uses(h, q0) && (q0 == q || (q is Closing && q0 is Closing)) && !is_over(m, h);
        let r0 = choose|r0: Place| n.uses(h, r0) && (r0 == r || (r is Closing && r0 is Closing)) && !is_over(m, h);
        assert(n.uses(h, q0) && n.uses(h, r0));
        assert(q0 == r0);
    }
    assert forall|h: SocketHandle| #[trigger] w.socks.contains_key(h) implies fits(w.socks[h]) && w.socks[h].tx_size == TCP_TX
        && w.socks[h].rx_size == TCP_RX by {
        assert(p.socks.dom().contains(h));
        assert(n.socks.contains_key(h));
    }
    assert forall|h: SocketHandle| n.socks.contains_key(h) && !n.closing.contains(h) implies #[trigger] w.socks.contains_key(h) by {
        assert(p.socks.dom().contains(h));
    }
    assert forall|i: int| 0 <= i < w.pipetab.len() implies ((#[trigger] w.pipetab[i]) matches Some(x) ==> x.buf.len() <= PIPE_CAPACITY) by {
        assert(n.pipetab[i] matches Some(x) ==> x.buf.len() <= PIPE_CAPACITY);
    }
}

/// From the record `a` to the record `b` the stack was advanced only at the time of the clock.
#[verifier::opaque]
pub open spec fn advanced_at(a: Seq<Poll>, b: Seq<Poll>, clock: Clock, tsc: u64) -> bool {
    &&& a.len() <= b.len()
    &&& b.take(a.len() as int) == a
    &&& forall|k: int| a.len() <= k < b.len() ==> (#[trigger] b[k]).at((elapsed_ns(clock, tsc) / 1000) as i64)
}

/// Without an advance there is nothing to say.
pub broadcast proof fn lemma_not_advanced(a: Seq<Poll>, clock: Clock, tsc: u64)
    ensures
        #[trigger] advanced_at(a, a, clock, tsc),
{
    reveal(advanced_at);
    assert(a.take(a.len() as int) =~= a);
}

/// Two times in a row.
pub broadcast proof fn lemma_advanced_on(a: Seq<Poll>, b: Seq<Poll>, c: Seq<Poll>, clock: Clock, tsc: u64)
    requires
        #[trigger] advanced_at(a, b, clock, tsc),
        #[trigger] advanced_at(b, c, clock, tsc),
    ensures
        advanced_at(a, c, clock, tsc),
{
    reveal(advanced_at);
    assert(c.take(a.len() as int) =~= c.take(b.len() as int).take(a.len() as int));
    assert forall|k: int| a.len() <= k < c.len() implies (#[trigger] c[k]).at((elapsed_ns(clock, tsc) / 1000) as i64) by {
        if k < b.len() {
            assert(c.take(b.len() as int)[k] == b[k]);
        }
    }
}

pub broadcast group group_advanced {
    lemma_not_advanced,
    lemma_advanced_on,
}

/// Who waits for the network can still be woken after threads changed state.
pub proof fn lemma_can_wake_kept(queue: Seq<Tid>, v: Sched, w: Sched)
    requires
        can_wake(queue, v),
        forall|t: u32| #[trigger] v.threads.contains_key(t) ==> w.threads.contains_key(t),
        w.buckets == v.buckets,
    ensures
        can_wake(queue, w),
{
    assert forall|i: int| 0 <= i < queue.len() implies w.has(#[trigger] queue[i]) && w.off_futexes(queue[i]) by {
        assert(v.has(queue[i]) && v.off_futexes(queue[i]));
        assert forall|b: int| !w.waits_in(queue[i], b) by {
            assert(!v.waits_in(queue[i], b));
        }
    }
}

/// The state after the thread on CPU `c` began to wait for the network.
pub open spec fn with_waiter(n: Net, t: Tid, limited: bool) -> Net {
    Net {
        waiters: seq![t] + n.waiters,
        deadline_waiters: if limited && n.deadline_waiters < usize::MAX {
            (n.deadline_waiters + 1) as usize
        } else {
            n.deadline_waiters
        },
        ..n
    }
}

/// What a wait comes to, after the last attempt failed at `now_ns`.
pub open spec fn is_timed_out(deadline_ns: Option<u64>, now_ns: u64) -> bool {
    deadline_ns matches Some(d) && now_ns >= d
}

/// Socket `h` of the stack exists and is used nowhere.
pub open spec fn unused(n: Net, h: SocketHandle) -> bool {
    n.socks.contains_key(h) && forall|p: Place| !n.uses(h, p)
}

/// The state after socket `h` of the stack lost its descriptor: a connection is ended, with a farewell if
/// `politely`, else at once, and kept until it is over; without a connection the socket goes away.
pub open spec fn parted(n: Net, h: SocketHandle, politely: bool) -> Net {
    let i = n.socks[h];
    if i.is_active() {
        let ended = if politely { closed(i) } else { TcpInfo { state: TcpState::Closed, ..i } };
        Net { socks: n.socks.insert(h, ended), closing: n.closing.push(h), ..n }
    } else {
        Net { socks: n.socks.remove(h), ..n }
    }
}

/// The state after the first `k` sockets of a backlog lost their descriptor.
pub open spec fn backlog_parted(n: Net, backlog: Seq<SocketHandle>, k: int) -> Net
    decreases k,
{
    if k <= 0 { n } else { parted(backlog_parted(n, backlog, k - 1), backlog[k - 1], false) }
}

/// The state after socket object `id` was closed.
pub open spec fn socket_closed(n: Net, id: int) -> Net {
    match n.sock(id) {
        None => n,
        Some(o) => {
            let m = n.with_sock(id, None);
            let w = match o.handle {
                Some(h) => parted(m, h, true),
                None => m,
            };
            backlog_parted(w, o.backlog, o.backlog.len() as int)
        },
    }
}

pub proof fn lemma_backlog_parted_keeps(n: Net, backlog: Seq<SocketHandle>, k: int)
    ensures
        ({
            let m = backlog_parted(n, backlog, k);
            m == (Net { socks: m.socks, closing: m.closing, ..n })
        }),
    decreases k,
{
    if k > 0 {
        lemma_backlog_parted_keeps(n, backlog, k - 1);
    }
}

/// Closing a socket changes nothing but the sockets.
pub proof fn lemma_socket_closed_keeps(n: Net, id: int)
    ensures
        ({
            let m = socket_closed(n, id);
            m == (Net { socks: m.socks, closing: m.closing, socktab: m.socktab, ..n })
        }),
{
    if let Some(o) = n.sock(id) {
        let d = n.with_sock(id, None);
        let m = match o.handle {
            Some(h) => parted(d, h, true),
            None => d,
        };
        lemma_backlog_parted_keeps(m, o.backlog, o.backlog.len() as int);
    }
}

/// The sockets without the first `k` of a backlog.
pub open spec fn without_backlog(
    socks: Map<SocketHandle, TcpInfo>,
    backlog: Seq<SocketHandle>,
    k: int,
) -> Map<SocketHandle, TcpInfo>
    decreases k,
{
    if k <= 0 { socks } else { without_backlog(socks, backlog, k - 1).remove(backlog[k - 1]) }
}

/// The state after socket object `id` and its sockets were dropped.
pub open spec fn socket_freed(n: Net, id: int) -> Net {
    match n.sock(id) {
        None => n,
        Some(o) => {
            let m = n.with_sock(id, None);
            let socks = match o.handle {
                Some(h) => m.socks.remove(h),
                None => m.socks,
            };
            Net { socks: without_backlog(socks, o.backlog, o.backlog.len() as int), ..m }
        },
    }
}

/// A socket object that goes leaves its sockets unused.
proof fn lemma_dropped(n: Net, id: int)
    requires
        n.wf(),
        n.sock(id) is Some,
    ensures
        n.with_sock(id, None).wf(),
        n.sock(id)->0.handle matches Some(h) ==> unused(n.with_sock(id, None), h),
        forall|k: int|
            0 <= k < n.sock(id)->0.backlog.len() ==> unused(n.with_sock(id, None), #[trigger] n.sock(id)->0.backlog[k])
                && n.sock(id)->0.handle != Some(n.sock(id)->0.backlog[k]),
        n.sock(id)->0.backlog.no_duplicates(),
{
    let m = n.with_sock(id, None);
    let o = n.sock(id)->0;
    assert forall|h: SocketHandle, p: Place| #[trigger] m.uses(h, p) implies n.uses(h, p) && p != Place::Stream(id) && !(p is Backlog
        && p->Backlog_0 == id) by {}
    if let Some(h) = o.handle {
        assert(n.uses(h, Place::Stream(id)));
    }
    assert forall|k: int| 0 <= k < o.backlog.len() implies unused(m, #[trigger] o.backlog[k]) && o.handle != Some(o.backlog[k]) by {
        assert(n.uses(o.backlog[k], Place::Backlog(id, k)));
    }
    assert forall|i: int, j: int| 0 <= i < o.backlog.len() && 0 <= j < o.backlog.len() && i != j implies o.backlog[i]
        != o.backlog[j] by {
        assert(n.uses(o.backlog[i], Place::Backlog(id, i)));
        assert(n.uses(o.backlog[j], Place::Backlog(id, j)));
    }
}

/// A socket that is used nowhere may lose its descriptor.
proof fn lemma_parted(n: Net, h: SocketHandle, politely: bool)
    requires
        n.wf(),
        unused(n, h),
    ensures
        parted(n, h, politely).wf(),
        forall|g: SocketHandle| g != h && unused(n, g) ==> #[trigger] unused(parted(n, h, politely), g),
{
    let m = parted(n, h, politely);
    assert forall|g: SocketHandle, p: Place| #[trigger] m.uses(g, p) implies n.uses(g, p) || (g == h && p == Place::Closing(
        n.closing.len() as int,
    )) by {}
    assert forall|g: SocketHandle, p: Place| #[trigger] m.uses(g, p) implies m.socks.contains_key(g) by {
        if n.uses(g, p) {
            assert(g != h);
        }
    }
    assert forall|g: SocketHandle, p: Place, q: Place| #[trigger] m.uses(g, p) && #[trigger] m.uses(g, q) implies p == q by {
        if g == h {
            assert(!n.uses(g, p) && !n.uses(g, q));
        } else {
            assert(n.uses(g, p) && n.uses(g, q));
        }
    }
    assert forall|g: SocketHandle| #[trigger] m.socks.contains_key(g) implies fits(m.socks[g]) && m.socks[g].tx_size == TCP_TX
        && m.socks[g].rx_size == TCP_RX by {
        assert(n.socks.contains_key(g));
    }
    assert forall|g: SocketHandle| g != h && unused(n, g) implies #[trigger] unused(m, g) by {
        assert forall|p: Place| !m.uses(g, p) by {
            assert(!n.uses(g, p));
        }
    }
    assert forall|i: int| 0 <= i < m.pipetab.len() implies ((#[trigger] m.pipetab[i]) matches Some(x) ==> x.buf.len() <= PIPE_CAPACITY) by {
        assert(n.pipetab[i] matches Some(x) ==> x.buf.len() <= PIPE_CAPACITY);
    }
}

/// A socket that is used nowhere may be removed.
proof fn lemma_removed(n: Net, h: SocketHandle)
    requires
        n.wf(),
        unused(n, h),
    ensures
        (Net { socks: n.socks.remove(h), ..n }).wf(),
        forall|g: SocketHandle| g != h && unused(n, g) ==> #[trigger] unused((Net { socks: n.socks.remove(h), ..n }), g),
{
    let m = Net { socks: n.socks.remove(h), ..n };
    assert forall|g: SocketHandle, p: Place| #[trigger] m.uses(g, p) implies n.uses(g, p) by {}
    assert forall|g: SocketHandle, p: Place, q: Place| #[trigger] m.uses(g, p) && #[trigger] m.uses(g, q) implies p == q by {
        assert(n.uses(g, p) && n.uses(g, q));
    }
    assert forall|g: SocketHandle, p: Place| #[trigger] m.uses(g, p) implies m.socks.contains_key(g) by {
        assert(n.uses(g, p));
        assert(g != h);
    }
    assert forall|g: SocketHandle| #[trigger] m.socks.contains_key(g) implies fits(m.socks[g]) && m.socks[g].tx_size == TCP_TX
        && m.socks[g].rx_size == TCP_RX by {
        assert(n.socks.contains_key(g));
    }
    assert forall|g: SocketHandle| g != h && unused(n, g) implies #[trigger] unused(m, g) by {
        assert forall|p: Place| !m.uses(g, p) by {
            assert(!n.uses(g, p));
        }
    }
    assert forall|i: int| 0 <= i < m.pipetab.len() implies ((#[trigger] m.pipetab[i]) matches Some(x) ==> x.buf.len() <= PIPE_CAPACITY) by {
        assert(n.pipetab[i] matches Some(x) ==> x.buf.len() <= PIPE_CAPACITY);
    }
}

/// A change of a table other than that of the socket objects, and of nothing but well-formed pipes.
pub proof fn lemma_tables(n: Net, m: Net)
    requires
        n.wf(),
        m == (Net {
            epolltab: m.epolltab,
            pipetab: m.pipetab,
            waiters: m.waiters,
            deadline_waiters: m.deadline_waiters,
            next_ephemeral: m.next_ephemeral,
            ..n
        }),
        EPHEMERAL_LO <= m.next_ephemeral <= EPHEMERAL_HI,
        forall|i: int| 0 <= i < m.pipetab.len() ==> ((#[trigger] m.pipetab[i]) matches Some(p) ==> p.buf.len() <= PIPE_CAPACITY),
    ensures
        m.wf(),
{
    assert forall|h: SocketHandle, p: Place| #[trigger] m.uses(h, p) implies n.uses(h, p) by {}
    assert forall|g: SocketHandle, p: Place, q: Place| #[trigger] m.uses(g, p) && #[trigger] m.uses(g, q) implies p == q by {
        assert(n.uses(g, p) && n.uses(g, q));
    }
}

/// A socket object with sockets that are used nowhere may be added, or replace one whose sockets are used nowhere.
pub proof fn lemma_sock_added(n: Net, id: int, o: Sock, m: Net)
    requires
        n.wf(),
        n.sock(id) is None,
        m == (Net { socktab: m.socktab, ..n }),
        forall|i: int| m.sock(i) == (if i == id { Some(o) } else { n.sock(i) }),
        o.handle matches Some(h) ==> unused(n, h),
        forall|k: int| 0 <= k < o.backlog.len() ==> unused(n, #[trigger] o.backlog[k]) && o.handle != Some(o.backlog[k]),
        o.backlog.no_duplicates(),
        knows_where(o),
    ensures
        m.wf(),
{
    assert forall|i: int| 0 <= i < m.socktab.len() implies ((#[trigger] m.socktab[i]) matches Some(x) ==> knows_where(x)) by {
        assert(m.sock(i) == m.socktab[i]);
        assert(n.sock(i) is Some ==> n.socktab[i] == n.sock(i));
    }
    assert forall|h: SocketHandle, p: Place| #[trigger] m.uses(h, p) implies n.uses(h, p) || (p == Place::Stream(id) && o.handle
        == Some(h)) || (p is Backlog && p->Backlog_0 == id && 0 <= p->Backlog_1 < o.backlog.len() && o.backlog[p->Backlog_1]
        == h) by {
        match p {
            Place::Stream(i) => {
                assert(m.sock(i) == entry(m.socktab, i));
            },
            Place::Backlog(i, k) => {
                assert(m.sock(i) == entry(m.socktab, i));
            },
            Place::Closing(k) => {},
        }
    }
    assert forall|g: SocketHandle, p: Place| #[trigger] m.uses(g, p) implies m.socks.contains_key(g) by {
        if !n.uses(g, p) && p is Backlog {
            assert(unused(n, o.backlog[p->Backlog_1]));
        }
    }
    assert forall|g: SocketHandle, p: Place, q: Place| #[trigger] m.uses(g, p) && #[trigger] m.uses(g, q) implies p == q by {
        if !n.uses(g, p) && p is Backlog {
            assert(unused(n, o.backlog[p->Backlog_1]));
        }
        if !n.uses(g, q) && q is Backlog {
            assert(unused(n, o.backlog[q->Backlog_1]));
        }
        if n.uses(g, p) && n.uses(g, q) {
            assert(p == q);
        }
    }
    assert forall|i: int| 0 <= i < m.pipetab.len() implies ((#[trigger] m.pipetab[i]) matches Some(x) ==> x.buf.len() <= PIPE_CAPACITY) by {
        assert(n.pipetab[i] matches Some(x) ==> x.buf.len() <= PIPE_CAPACITY);
    }
}

/// A socket object may change in all but the sockets that it uses.
pub proof fn lemma_sock_changed(n: Net, id: int, o: Sock)
    requires
        n.wf(),
        n.sock(id) is Some,
        o.handle == n.sock(id)->0.handle,
        o.backlog == n.sock(id)->0.backlog,
        knows_where(o),
    ensures
        n.with_sock(id, Some(o)).wf(),
{
    let m = n.with_sock(id, Some(o));
    assert forall|h: SocketHandle, p: Place| #[trigger] m.uses(h, p) implies n.uses(h, p) by {}
    assert forall|g: SocketHandle, p: Place, q: Place| #[trigger] m.uses(g, p) && #[trigger] m.uses(g, q) implies p == q by {
        assert(n.uses(g, p) && n.uses(g, q));
    }
    assert forall|i: int| 0 <= i < m.pipetab.len() implies ((#[trigger] m.pipetab[i]) matches Some(x) ==> x.buf.len() <= PIPE_CAPACITY) by {
        assert(n.pipetab[i] matches Some(x) ==> x.buf.len() <= PIPE_CAPACITY);
    }
}

/// A socket object that uses at most one socket, which nothing else uses, may be added.
pub proof fn lemma_sock_allocated(n: Net, o: Sock)
    requires
        n.wf(),
        o.handle matches Some(h) ==> unused(n, h),
        o.backlog.len() == 0,
    ensures
        ({
            let m = Net { socktab: with_new(n.socktab, o), ..n };
            m.wf() && m.sock(lowest_slot(n.socktab, 0)) == Some(o)
        }),
{
    let m = Net { socktab: with_new(n.socktab, o), ..n };
    let id = lowest_slot(n.socktab, 0);
    law_lowest_slot(n.socktab, 0);
    assert forall|i: int| m.sock(i) == (if i == id { Some(o) } else { n.sock(i) }) by {}
    lemma_sock_added(n, id, o, m);
}

impl TestNetState {
    /// A network state over the loopback device, with nothing in it.
    pub fn new_loopback(seed: &Option<[u8; 32]>, clock: &Clock, tsc: u64) -> (r: Self)
        ensures
            r@ == empty_net(seq![LOOPBACK_ADDR, GUEST_ADDR]),
            r@.wf(),
    {
        let (iface, device, sockets) = stack::build(seed, clock, tsc);
        NetStateInner::over(iface, device, sockets)
    }
}

impl<D> NetStateInner<D> {
    /// A network state over any device, without sockets.
    pub fn over(iface: Interface, device: D, sockets: SocketSet<'static>) -> (r: Self)
        requires
            tcp_sockets(sockets) == no_sockets(),
            can_grow(sockets),
        ensures
            r@ == empty_net(addresses(iface)),
            r@.wf(),
            r.device.inner() == device,
            r.iface == iface,
    {
        let r = NetStateInner {
            iface,
            sockets,
            device: Link::new(device),
            socktab: Vec::new(),
            epolltab: Vec::new(),
            pipetab: Vec::new(),
            waiters: WaitQueue::new(),
            deadline_waiters: 0,
            next_ephemeral: EPHEMERAL_LO,
            closing: Vec::new(),
        };
        assert(r@ =~= empty_net(addresses(iface)));
        r
    }

    /// Adds a socket object under the lowest free id.
    pub fn socket_alloc(&mut self, o: SocketObject) -> (id: usize)
        ensures
            id == lowest_slot(old(self)@.socktab, 0),
            final(self)@ == (Net { socktab: with_new(old(self)@.socktab, o@), ..old(self)@ }),
            final(self).device == old(self).device,
    {
        let ghost tab = self@.socktab;
        let mut i: usize = 0;
        while i < self.socktab.len()
            invariant
                i <= self.socktab@.len(),
                *self == *old(self),
                tab == table_view(self.socktab@),
                lowest_slot(tab, 0) == lowest_slot(tab, i as int),
            decreases self.socktab@.len() - i,
        {
            if self.socktab[i].is_none() {
                self.socktab.set(i, Some(o));
                assert(self@.socktab =~= with_new(tab, o@));
                return i;
            }
            i += 1;
        }
        self.socktab.push(Some(o));
        assert(self@.socktab =~= with_new(tab, o@));
        i
    }

    pub fn socket_get(&self, id: usize) -> (r: Option<&SocketObject>)
        ensures
            r is Some <==> self@.sock(id as int) is Some,
            r matches Some(o) ==> Some(o@) == self@.sock(id as int),
    {
        if id < self.socktab.len() {
            self.socktab[id].as_ref()
        } else {
            None
        }
    }

    pub fn socket_get_mut(&mut self, id: usize) -> (r: Option<&mut SocketObject>)
        ensures
            r is Some <==> old(self)@.sock(id as int) is Some,
            r matches Some(o) ==> Some(o@) == old(self)@.sock(id as int) && final(self)@ == old(self)@.with_sock(
                id as int,
                Some(final(o)@),
            ),
            r is None ==> final(self)@ == old(self)@,
    {
        if id < self.socktab.len() {
            self.socktab[id].as_mut()
        } else {
            None
        }
    }

    /// Closes socket object `id`: a connection is ended with a farewell; those that were not accepted are cut off.
    pub fn socket_close(&mut self, id: usize) -> (r: Option<SocketObject>)
        requires
            old(self)@.wf(),
        ensures
            r is Some <==> old(self)@.sock(id as int) is Some,
            r matches Some(o) ==> Some(o@) == old(self)@.sock(id as int),
            final(self)@ == socket_closed(old(self)@, id as int),
            final(self)@.wf(),
    {
        let ghost n = self@;
        if id >= self.socktab.len() {
            return None;
        }
        let obj = match self.socktab[id].take() {
            None => {
                assert(self@.socktab =~= n.socktab);
                return None;
            },
            Some(o) => o,
        };
        let ghost o = obj@;
        proof {
            assert(self@.socktab =~= n.with_sock(id as int, None).socktab);
            assert(self@ =~= n.with_sock(id as int, None));
            lemma_dropped(n, id as int);
        }
        if let Some(h) = obj.handle {
            proof {
                lemma_parted(self@, h, true);
            }
            let ghost before = self@;
            if is_active(&self.sockets, h) {
                close(&mut self.sockets, h);
                self.closing.push(h);
            } else {
                remove_socket(&mut self.sockets, h);
            }
            assert(self@ =~= parted(before, h, true));
        }
        let ghost m = self@;
        let mut k: usize = 0;
        while k < obj.backlog.len()
            invariant
                k <= obj.backlog@.len(),
                obj@ == o,
                o.backlog.no_duplicates(),
                self@.wf(),
                self@ == backlog_parted(m, o.backlog, k as int),
                forall|j: int| k <= j < o.backlog.len() ==> unused(self@, #[trigger] o.backlog[j]),
            decreases obj.backlog@.len() - k,
        {
            let h = obj.backlog[k];
            proof {
                assert(o.backlog[k as int] == h);
                lemma_parted(self@, h, false);
            }
            let ghost before = self@;
            if is_active(&self.sockets, h) {
                abort(&mut self.sockets, h);
                self.closing.push(h);
            } else {
                remove_socket(&mut self.sockets, h);
            }
            assert(self@ =~= parted(before, h, false));
            k += 1;
        }
        Some(obj)
    }

    /// Drops socket object `id` and its sockets.
    pub fn socket_free(&mut self, id: usize) -> (r: Option<SocketObject>)
        requires
            old(self)@.wf(),
        ensures
            r is Some <==> old(self)@.sock(id as int) is Some,
            r matches Some(o) ==> Some(o@) == old(self)@.sock(id as int),
            final(self)@ == socket_freed(old(self)@, id as int),
            final(self)@.wf(),
    {
        let ghost n = self@;
        if id >= self.socktab.len() {
            return None;
        }
        let obj = match self.socktab[id].take() {
            None => {
                assert(self@.socktab =~= n.socktab);
                return None;
            },
            Some(o) => o,
        };
        let ghost o = obj@;
        let ghost d = n.with_sock(id as int, None);
        proof {
            assert(self@.socktab =~= d.socktab);
            assert(self@ =~= d);
            lemma_dropped(n, id as int);
        }
        if let Some(h) = obj.handle {
            proof {
                lemma_removed(self@, h);
            }
            remove_socket(&mut self.sockets, h);
        }
        let ghost m = self@;
        let mut k: usize = 0;
        assert(self@ =~= Net { socks: m.socks, ..d });
        while k < obj.backlog.len()
            invariant
                k <= obj.backlog@.len(),
                obj@ == o,
                o.backlog.no_duplicates(),
                self@.wf(),
                self@ == (Net { socks: without_backlog(m.socks, o.backlog, k as int), ..d }),
                forall|j: int| k <= j < o.backlog.len() ==> unused(self@, #[trigger] o.backlog[j]),
            decreases obj.backlog@.len() - k,
        {
            let h = obj.backlog[k];
            proof {
                assert(o.backlog[k as int] == h);
                lemma_removed(self@, h);
            }
            remove_socket(&mut self.sockets, h);
            k += 1;
            assert(self@ =~= Net { socks: without_backlog(m.socks, o.backlog, k as int), ..d });
        }
        Some(obj)
    }

    /// Adds an epoll set under the lowest free id.
    pub fn epoll_alloc(&mut self, e: EpollInstance) -> (id: usize)
        ensures
            id == lowest_slot(old(self)@.epolltab, 0),
            final(self)@ == (Net { epolltab: with_new(old(self)@.epolltab, e@), ..old(self)@ }),
            final(self).device == old(self).device,
    {
        let ghost tab = self@.epolltab;
        let mut i: usize = 0;
        while i < self.epolltab.len()
            invariant
                i <= self.epolltab@.len(),
                *self == *old(self),
                tab == table_view(self.epolltab@),
                lowest_slot(tab, 0) == lowest_slot(tab, i as int),
            decreases self.epolltab@.len() - i,
        {
            if self.epolltab[i].is_none() {
                self.epolltab.set(i, Some(e));
                assert(self@.epolltab =~= with_new(tab, e@));
                return i;
            }
            i += 1;
        }
        self.epolltab.push(Some(e));
        assert(self@.epolltab =~= with_new(tab, e@));
        i
    }

    pub fn epoll_get(&self, id: usize) -> (r: Option<&EpollInstance>)
        ensures
            r is Some <==> self@.epoll(id as int) is Some,
            r matches Some(e) ==> Some(e@) == self@.epoll(id as int),
    {
        if id < self.epolltab.len() {
            self.epolltab[id].as_ref()
        } else {
            None
        }
    }

    pub fn epoll_get_mut(&mut self, id: usize) -> (r: Option<&mut EpollInstance>)
        ensures
            r is Some <==> old(self)@.epoll(id as int) is Some,
            r matches Some(e) ==> Some(e@) == old(self)@.epoll(id as int) && final(self)@ == (Net {
                epolltab: old(self)@.epolltab.update(id as int, Some(final(e)@)),
                ..old(self)@
            }),
            r is None ==> final(self)@ == old(self)@,
    {
        if id < self.epolltab.len() {
            self.epolltab[id].as_mut()
        } else {
            None
        }
    }

    /// Drops epoll set `id`.
    pub fn epoll_free(&mut self, id: usize) -> (r: Option<EpollInstance>)
        ensures
            r is Some <==> old(self)@.epoll(id as int) is Some,
            r matches Some(e) ==> Some(e@) == old(self)@.epoll(id as int),
            final(self)@ == (if old(self)@.epoll(id as int) is Some {
                Net { epolltab: old(self)@.epolltab.update(id as int, None), ..old(self)@ }
            } else {
                old(self)@
            }),
    {
        if id >= self.epolltab.len() {
            return None;
        }
        let r = self.epolltab[id].take();
        proof {
            if r is Some {
                assert(self@.epolltab =~= old(self)@.epolltab.update(id as int, None));
            } else {
                assert(self@.epolltab =~= old(self)@.epolltab);
            }
        }
        r
    }

    /// Adds a pipe under the lowest free id.
    pub fn pipe_alloc(&mut self, p: PipeState) -> (id: usize)
        ensures
            id == lowest_slot(old(self)@.pipetab, 0),
            final(self)@ == (Net { pipetab: with_new(old(self)@.pipetab, p@), ..old(self)@ }),
            final(self).device == old(self).device,
    {
        let ghost tab = self@.pipetab;
        let mut i: usize = 0;
        while i < self.pipetab.len()
            invariant
                i <= self.pipetab@.len(),
                *self == *old(self),
                tab == table_view(self.pipetab@),
                lowest_slot(tab, 0) == lowest_slot(tab, i as int),
            decreases self.pipetab@.len() - i,
        {
            if self.pipetab[i].is_none() {
                self.pipetab.set(i, Some(p));
                assert(self@.pipetab =~= with_new(tab, p@));
                return i;
            }
            i += 1;
        }
        self.pipetab.push(Some(p));
        assert(self@.pipetab =~= with_new(tab, p@));
        i
    }

    pub fn pipe_get(&self, id: usize) -> (r: Option<&PipeState>)
        ensures
            r is Some <==> self@.pipe(id as int) is Some,
            r matches Some(p) ==> Some(p@) == self@.pipe(id as int),
    {
        if id < self.pipetab.len() {
            self.pipetab[id].as_ref()
        } else {
            None
        }
    }

    pub fn pipe_get_mut(&mut self, id: usize) -> (r: Option<&mut PipeState>)
        ensures
            r is Some <==> old(self)@.pipe(id as int) is Some,
            r matches Some(p) ==> Some(p@) == old(self)@.pipe(id as int) && final(self)@ == old(self)@.with_pipe(
                id as int,
                Some(final(p)@),
            ),
            r is None ==> final(self)@ == old(self)@,
    {
        if id < self.pipetab.len() {
            self.pipetab[id].as_mut()
        } else {
            None
        }
    }

    /// Drops pipe `id`.
    pub fn pipe_free(&mut self, id: usize) -> (r: Option<PipeState>)
        ensures
            r is Some <==> old(self)@.pipe(id as int) is Some,
            r matches Some(p) ==> Some(p@) == old(self)@.pipe(id as int),
            final(self)@ == (if old(self)@.pipe(id as int) is Some {
                old(self)@.with_pipe(id as int, None)
            } else {
                old(self)@
            }),
    {
        if id >= self.pipetab.len() {
            return None;
        }
        let r = self.pipetab[id].take();
        proof {
            if r is Some {
                assert(self@.pipetab =~= old(self)@.pipetab.update(id as int, None));
            } else {
                assert(self@.pipetab =~= old(self)@.pipetab);
            }
        }
        r
    }

    /// The next port to connect from. After the last one it starts over.
    pub fn alloc_ephemeral(&mut self) -> (p: u16)
        requires
            old(self)@.wf(),
        ensures
            p == old(self)@.next_ephemeral,
            EPHEMERAL_LO <= p <= EPHEMERAL_HI,
            final(self)@ == with_next_port(old(self)@),
            final(self)@.wf(),
    {
        let p: u16 = self.next_ephemeral;
        self.next_ephemeral = if p == EPHEMERAL_HI { EPHEMERAL_LO } else { p + 1 };
        proof {
            lemma_tables(old(self)@, self@);
        }
        p
    }
}

/// The state with the port to connect from moved on.
pub open spec fn with_next_port(n: Net) -> Net {
    Net {
        next_ephemeral: if n.next_ephemeral == EPHEMERAL_HI { EPHEMERAL_LO } else { (n.next_ephemeral + 1) as u16 },
        ..n
    }
}

impl<D: PollDevice> NetStateInner<D> {
    /// Wakes whoever waits for the network.
    pub(crate) fn wake_waiters(&mut self, sched: &mut Scheduler, this: u32)
        requires
            old(sched)@.wf(),
            old(sched)@.settled(),
            old(sched)@.online(this as int),
            can_wake(old(self)@.waiters, old(sched)@),
        ensures
            final(self)@ == (Net { waiters: Seq::empty(), deadline_waiters: 0, ..old(self)@ }),
            final(sched)@ == woken_all(old(sched)@, old(self)@.waiters, this as int),
            final(sched)@.wf(),
            final(sched)@.settled(),
            keeps_places(old(sched)@, final(sched)@),
            final(sched)@.buckets == old(sched)@.buckets,
    {
        self.deadline_waiters = 0;
        self.waiters.wake_all(sched, this);
    }

    /// Tells the device, and moves packets as often as they have to be, all at the same time.
    fn run_stack(&mut self, micros: i64) -> (changed: bool)
        requires
            old(self)@.wf(),
            0 <= micros <= LATEST_MICROS,
        ensures
            final(self)@.polls.len() == old(self)@.polls.len() + 1,
            final(self)@ == polled(old(self)@, final(self)@.polls.last()),
            final(self)@.polls.last().at(micros),
            changed == final(self)@.polls.last().changed(),
            after_poll(old(self)@.socks, final(self)@.polls.last().socks),
    {
        let ghost n = self@;
        let mut changed: bool = false;
        self.device.pre_poll();
        let mut i: usize = 0;
        while i < NET_POLL_ITERS
            invariant
                i <= NET_POLL_ITERS,
                0 <= micros <= LATEST_MICROS,
                self@ == (Net { socks: self@.socks, polls: self@.polls, ..n }),
                self@.polls.len() == n.polls.len() + 1,
                self@.polls.drop_last() == n.polls,
                self@.polls.last().times == Seq::new(i as nat, |k: int| micros),
                self@.polls.last().answers.len() == i,
                i > 0 ==> self@.polls.last().socks == self@.socks && self@.polls.last().from == n.socks,
                i == 0 ==> self@.socks == n.socks,
                changed == self@.polls.last().changed(),
                after_poll(n.socks, self@.socks),
            decreases NET_POLL_ITERS - i,
        {
            let ghost before = self@.socks;
            let ghost p = self@.polls.last();
            let answer = self.device.poll(&mut self.iface, &mut self.sockets, micros);
            proof {
                let q = self@.polls.last();
                assert(q.answers == p.answers.push(answer));
                assert(self@.polls.drop_last() =~= n.polls);
                assert(q.times =~= Seq::new((i + 1) as nat, |k: int| micros));
                assert(q.changed() == (p.changed() || answer)) by {
                    if p.changed() {
                        let k = choose|k: int| 0 <= k < p.answers.len() && #[trigger] p.answers[k];
                        assert(q.answers[k]);
                    }
                    if answer {
                        assert(q.answers[i as int]);
                    }
                    if q.changed() {
                        let k = choose|k: int| 0 <= k < q.answers.len() && #[trigger] q.answers[k];
                        if k < i {
                            assert(p.answers[k]);
                        }
                    }
                }
                assert forall|h: SocketHandle| #[trigger] n.socks.contains_key(h) implies self@.socks[h].tx_size == n.socks[h].tx_size
                    && self@.socks[h].rx_size == n.socks[h].rx_size && (fits(n.socks[h]) ==> fits(self@.socks[h])) by {
                    assert(before.dom().contains(h));
                }
            }
            changed = changed || answer;
            i += 1;
        }
        proof {
            let p = self@.polls.last();
            assert(self@.polls =~= n.polls.push(p));
            assert(self@ =~= polled(n, p));
        }
        changed
    }

    /// Forgets the connections without a descriptor that are over. Gives back whether there were any.
    fn reap(&mut self) -> (r: bool)
        requires
            old(self)@.closing.no_duplicates(),
            forall|k: int| 0 <= k < old(self)@.closing.len() ==> old(self)@.socks.contains_key(#[trigger] old(self)@.closing[k]),
        ensures
            r == any_over(old(self)@),
            final(self)@ == reaped(old(self)@),
    {
        let ghost n = self@;
        let mut any: bool = false;
        let mut kept: Vec<SocketHandle> = Vec::new();
        let mut i: usize = 0;
        assert(n.closing.take(0) =~= Seq::<SocketHandle>::empty());
        assert(self@.socks =~= reaped_part(n, 0));
        while i < self.closing.len()
            invariant
                i <= self.closing@.len(),
                self.closing@ == n.closing,
                n.closing.no_duplicates(),
                forall|k: int| 0 <= k < n.closing.len() ==> n.socks.contains_key(#[trigger] n.closing[k]),
                self@ == (Net { socks: reaped_part(n, i as int), ..n }),
                kept@ == still_closing(n.closing.take(i as int), n.socks),
                any == exists|k: int| 0 <= k < i && n.socks[#[trigger] n.closing[k]].state is Closed,
            decreases self.closing@.len() - i,
        {
            let h = self.closing[i];
            proof {
                assert(n.closing.take(i + 1).drop_last() =~= n.closing.take(i as int));
                assert(n.closing.take(i + 1).last() == h);
                assert(n.socks.contains_key(n.closing[i as int]));
                assert(!n.closing.take(i as int).contains(h)) by {
                    if n.closing.take(i as int).contains(h) {
                        let k = choose|k: int| 0 <= k < i && n.closing.take(i as int)[k] == h;
                        assert(n.closing[k] == n.closing[i as int]);
                    }
                }
                assert forall|g: SocketHandle| n.closing.take(i + 1).contains(g) <==> n.closing.take(i as int).contains(g) || g == h by {
                    let a = n.closing.take(i + 1);
                    let b = n.closing.take(i as int);
                    if a.contains(g) {
                        let k = choose|k: int| 0 <= k < a.len() && a[k] == g;
                        if k < i {
                            assert(b[k] == g);
                        }
                    }
                    if b.contains(g) {
                        let k = choose|k: int| 0 <= k < b.len() && b[k] == g;
                        assert(a[k] == g);
                    }
                    assert(a[i as int] == h);
                }
            }
            let over: bool = match socket_state(&self.sockets, h) {
                TcpState::Closed => true,
                _ => false,
            };
            if over {
                remove_socket(&mut self.sockets, h);
                any = true;
            } else {
                kept.push(h);
            }
            i += 1;
            assert(self@.socks =~= reaped_part(n, i as int));
        }
        assert(n.closing.take(n.closing.len() as int) =~= n.closing);
        self.closing = kept;
        assert(self@ =~= reaped(n));
        any
    }

    /// Tells the device once, moves packets as often as they have to be, all at the time of the clock, and wakes whoever waits
    /// if that may have changed something for them. Gives back whether they were woken.
    pub fn poll_and_wake(&mut self, sched: &mut Scheduler, this: u32, clock: &Clock, tsc: u64) -> (r: bool)
        requires
            joint_wf(old(self)@, old(sched)@),
            old(sched)@.online(this as int),
        ensures
            advanced_at(old(self)@.polls, final(self)@.polls, *clock, tsc),
            final(self)@.polls.len() == old(self)@.polls.len() + 1,
            ({
                let n = old(self)@;
                let p = final(self)@.polls.last();
                &&& p.at((elapsed_ns(*clock, tsc) / 1000) as i64)
                &&& after_poll(n.socks, p.socks)
                &&& final(self)@ == advanced(n, p)
                &&& r == wakes_waiters(n, p)
                &&& final(sched)@ == woken_all(old(sched)@, to_wake(n, p), this as int)
            }),
            joint_wf(final(self)@, final(sched)@),
            keeps_places(old(sched)@, final(sched)@),
            forall|c: int| #[trigger] active(old(sched)@, c) ==> active(final(sched)@, c),
            final(sched)@.buckets == old(sched)@.buckets,
    {
        let ghost n = self@;
        let ghost v = sched@;
        let now: i64 = stack::now(clock, tsc);
        let changed = self.run_stack(now);
        let ghost p = self@.polls.last();
        proof {
            reveal(advanced_at);
            assert(n.polls.push(p).take(n.polls.len() as int) =~= n.polls);
            law_advance(n, p);
            lemma_closing_distinct(n);
            assert forall|k: int| 0 <= k < n.closing.len() implies p.socks.contains_key(#[trigger] n.closing[k]) by {
                assert(n.uses(n.closing[k], Place::Closing(k)));
                assert(p.socks.dom().contains(n.closing[k]));
            }
        }
        let over = if self.closing.len() > 0 {
            self.reap()
        } else {
            proof {
                assert(self@.socks =~= reaped(self@).socks);
                assert(self@.closing =~= reaped(self@).closing);
            }
            false
        };
        assert(self@ =~= reaped(polled(n, p)));
        let should_wake: bool = changed || over || self.deadline_waiters != 0;
        if should_wake {
            self.wake_waiters(sched, this);
            assert(self@ =~= advanced(n, p));
        }
        proof {
            assert forall|c: int| #[trigger] active(v, c) implies active(sched@, c) by {
                lemma_woken_all_active(v, to_wake(n, p), this as int, c);
            }
        }
        should_wake
    }

    /// The step of a wait after two attempts, with the stack advanced between them, have failed: gives
    /// up at the time limit, else the thread on CPU `c` waits until the attempt has to be made again.
    pub fn net_wait(
        &mut self,
        sched: &mut Scheduler,
        c: u32,
        deadline_ns: Option<u64>,
        now_ns: u64,
        on_timeout: i64,
    ) -> (r: Parking)
        requires
            joint_wf(old(self)@, old(sched)@),
            active(old(sched)@, c as int),
        ensures
            ({
                let v = old(sched)@;
                if is_timed_out(deadline_ns, now_ns) {
                    r == Parking::Return(on_timeout) && final(self)@ == old(self)@ && final(sched)@ == v
                } else {
                    &&& r == Parking::Parked(switch_of(blocked(v, c as int), c as int))
                    &&& final(self)@ == with_waiter(old(self)@, v.cpus[c as int].current->0, deadline_ns is Some)
                    &&& final(sched)@ == rescheduled(blocked(v, c as int), c as int)
                }
            }),
            joint_wf(final(self)@, final(sched)@),
    {
        let ghost v = sched@;
        let ghost n = self@;
        if let Some(d) = deadline_ns {
            if now_ns >= d {
                return Parking::Return(on_timeout);
            }
        }
        let me = sched.current_thread(c);
        assert(v.runs_on(me.tid, c as int));
        self.waiters.push(&me);
        if deadline_ns.is_some() {
            self.deadline_waiters = self.deadline_waiters.saturating_add(1);
        }
        proof {
            lemma_active(v, c as int);
            lemma_tables(n, self@);
            assert(self@ =~= with_waiter(n, me.tid, deadline_ns is Some));
        }
        let s = sched.block_current(c);
        proof {
            let q = self@.waiters;
            assert(can_wake(q, v)) by {
                assert forall|i: int| 0 <= i < q.len() implies v.has(#[trigger] q[i]) && v.off_futexes(q[i]) by {
                    if i > 0 {
                        assert(q[i] == n.waiters[i - 1]);
                    }
                }
            }
            lemma_can_wake_kept(q, v, sched@);
        }
        Parking::Parked(s)
    }
}

/// The sockets after the connections that are over, among the first `i` of those without a descriptor, were forgotten.
pub open spec fn reaped_part(n: Net, i: int) -> Map<SocketHandle, TcpInfo> {
    Map::new(
        |h: SocketHandle| n.socks.contains_key(h) && !(n.closing.take(i).contains(h) && n.socks[h].state is Closed),
        |h: SocketHandle| n.socks[h],
    )
}

} // verus!
