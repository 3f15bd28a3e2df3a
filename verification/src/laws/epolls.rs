//! Sets of descriptors, and what waiting for them tells.

use vstd::prelude::*;

use super::descriptors::{is_open, opened};
use super::polls::{lemma_flags, socket_is_ready};
use super::words::{lemma_u32_at, lemma_u64_at, u32_at, u64_at};
use crate::fs::fd_table::{law_lowest_free, FdKind, FdTable, FileDescriptor};
use crate::memory::access::{le32, le64, mem, range, reachable, within, Mem, Memory};
use crate::net::abi::{event_bytes, law_event_round_trip, EpollEvent};
use crate::net::device::PollDevice;
use crate::net::epoll::{in_order, order_of, EpollInterest};
use crate::net::socket::{is_peer_closed, ready, Sock};
use crate::net::state::{law_lowest_slot, Net, NetStateInner};
use crate::sched::scheduler::Scheduler;
use crate::syscall::args::SyscallArgs;
use crate::syscall::handlers::epoll::{
    events_bytes, ready_events, snapshot_of, sys_epoll_create1, sys_epoll_ctl, sys_epoll_wait, watch_ready, watched, EpollCall, Watch,
};
use crate::time::Clock;

verus! {

/// The descriptor stands for the set with this id.
pub open spec fn is_set(fds: Seq<Option<FileDescriptor>>, n: Net, fd: u64, id: usize) -> bool {
    &&& is_open(fds, fd as int) && fd <= i64::MAX
    &&& (fds[fd as int]->0).kind == FdKind::Epoll { id }
    &&& id < n.epolltab.len() && n.epolltab[id as int] is Some
}

/// A new set is empty, and has the lowest descriptor that was not open.
pub proof fn law_new_set_is_empty<D>(args: &SyscallArgs, fds: &mut FdTable, net: &mut NetStateInner<D>, r: i64)
    requires
        call_ensures(sys_epoll_create1::<D>, (args, fds, net), r),
        old(fds)@.len() < i64::MAX,
        old(net)@.epolltab.len() < u32::MAX,
    ensures
        ({
            let b = final(fds)@;
            let kind = (b[r as int]->0).kind;
            &&& opened(old(fds)@, b, r as int, b[r as int]->0)
            &&& kind matches FdKind::Epoll { id } && {
                &&& id < final(net)@.epolltab.len()
                &&& final(net)@.epolltab[id as int] == Some(Map::<i32, EpollInterest>::empty())
                &&& id < old(net)@.epolltab.len() ==> old(net)@.epolltab[id as int] is None
                &&& forall|k: int| 0 <= k < old(net)@.epolltab.len() && k != id ==> #[trigger] final(net)@.epolltab[k] == old(net)@.epolltab[k]
            }
        }),
{
    law_lowest_free(old(fds)@, 0);
    law_lowest_slot(old(net)@.epolltab, 0);
}

/// Adding a descriptor to a set, changing it, and taking it out: a descriptor that is in the set is there with the events and
/// the data that the user asked for, errors and hang-ups besides; it can be added only if it is not there, and changed or taken
/// out only if it is. No other descriptor of the set and no other set changes.
pub proof fn law_set_holds_what_was_asked<D, M: Memory>(args: &SyscallArgs, fds: &FdTable, net: &mut NetStateInner<D>, um: &M, id: usize, r: i64)
    requires
        call_ensures(sys_epoll_ctl::<D, M>, (args, fds, net, um), r),
        is_set(fds@, old(net)@, args.arg0, id),
        0 <= args.arg2 as i32,
        is_open(fds@, (args.arg2 as i32) as int),
        args.arg1 == 1 || args.arg1 == 2 || args.arg1 == 3,
        args.arg1 != 2 ==> args.arg3 != 0 && within(um, args.arg3 as int, 12),
    ensures
        ({
            let fd = args.arg2 as i32;
            let a = old(net)@.epolltab[id as int]->0;
            let b = final(net)@.epolltab[id as int]->0;
            &&& final(net)@.epolltab.len() == old(net)@.epolltab.len() && final(net)@.epolltab[id as int] is Some
            &&& forall|k: int| 0 <= k < old(net)@.epolltab.len() && k != id ==> #[trigger] final(net)@.epolltab[k] == old(net)@.epolltab[k]
            &&& forall|k: i32|
                k != fd ==> (#[trigger] b.contains_key(k) <==> a.contains_key(k)) && (a.contains_key(k) ==> b[k] == a[k])
            &&& r == (if a.contains_key(fd) && args.arg1 == 1 {
                -17
            } else if !a.contains_key(fd) && args.arg1 != 1 {
                -2
            } else {
                0int
            })
            &&& r != 0 ==> b == a
            &&& r == 0 && args.arg1 == 2 ==> !b.contains_key(fd)
            &&& r == 0 && args.arg1 != 2 ==> b.contains_key(fd) && b[fd].events == (u32_at(um, args.arg3 as int) as u32) | 8 | 16
                && b[fd].data == u64_at(um, args.arg3 + 4)
        }),
{
    if args.arg1 != 2 {
        lemma_u32_at(um, args.arg3 as int);
        lemma_u64_at(um, args.arg3 + 4);
        let b = range(um, args.arg3 as int, 12);
        assert(b.take(4) =~= range(um, args.arg3 as int, 4));
        assert(b.skip(4) =~= range(um, args.arg3 + 4, 8));
    }
}

/// The descriptor of the set is open, and a socket that is ready for something that is asked for.
pub open spec fn has_news(fds: Seq<Option<FileDescriptor>>, n: Net, set: Map<i32, EpollInterest>, fd: i32) -> bool {
    &&& set.contains_key(fd)
    &&& fd >= 0 && is_open(fds, fd as int)
    &&& (fds[fd as int]->0).kind matches FdKind::Socket { id } && id < n.socktab.len() && n.socktab[id as int] is Some && {
        let r = socket_is_ready(n, n.socktab[id as int]->0);
        let ev = set[fd].events;
        (ev & 1 != 0 && r.read) || (ev & 4 != 0 && r.write) || (ev & 16 != 0 && r.hung_up)
    }
}

/// The event tells what the descriptor is ready for, of what is asked for, and gives the data of it back.
pub open spec fn is_news(fds: Seq<Option<FileDescriptor>>, n: Net, set: Map<i32, EpollInterest>, fd: i32, events: u32, data: int) -> bool {
    &&& data == set[fd].data
    &&& (fds[fd as int]->0).kind matches FdKind::Socket { id } && {
        let r = socket_is_ready(n, n.socktab[id as int]->0);
        let ev = set[fd].events;
        &&& events & 1 != 0 <==> ev & 1 != 0 && r.read
        &&& events & 4 != 0 <==> ev & 4 != 0 && r.write
        &&& events & 16 != 0 <==> ev & 16 != 0 && r.hung_up
        &&& events & 0xffff_ffea == 0
    }
}

proof fn lemma_ready_bits(n: Net, o: Sock)
    ensures
        ({
            let r = socket_is_ready(n, o);
            let b = ready(o, n.socks, None);
            &&& b & 1 != 0 <==> r.read
            &&& b & 4 != 0 <==> r.write
            &&& b & 16 != 0 <==> r.hung_up
            &&& b & 0xffff_ffea == 0
        }),
{
    lemma_flags(true, true, true);
    let b = ready(o, n.socks, None);
    assert(1u32 & 0xffff_ffea == 0 && 16u32 & 0xffff_ffea == 0 && 0u32 & 0xffff_ffea == 0) by (bit_vector);
    if o.role is Stream {
        if let Some(h) = o.handle {
            let i = n.socks[h];
            let x = crate::net::socket::flag(i.rx.len() > 0 || is_peer_closed(i.state), 1);
            let y = crate::net::socket::flag(i.may_send() && i.tx.len() != i.tx_size, 4);
            let z = crate::net::socket::flag(!i.is_active(), 16);
            lemma_flags(
                i.rx.len() > 0 || is_peer_closed(i.state),
                i.may_send() && i.tx.len() != i.tx_size,
                !i.is_active(),
            );
            assert((x | y | z) & 0xffff_ffea == 0) by (bit_vector)
                requires
                    x == 0 || x == 1,
                    y == 0 || y == 4,
                    z == 0 || z == 16,
            ;
        }
    }
}

proof fn lemma_news(fds: Seq<Option<FileDescriptor>>, n: Net, set: Map<i32, EpollInterest>, fd: i32, w: Watch)
    requires
        set.contains_key(fd),
        fd >= 0,
        is_open(fds, fd as int),
        (fds[fd as int]->0).kind == (FdKind::Socket { id: w.id }),
        w.events == set[fd].events,
        w.data == set[fd].data,
    ensures
        watch_ready(n, w) is Some <==> has_news(fds, n, set, fd),
        watch_ready(n, w) matches Some(e) ==> is_news(fds, n, set, fd, e.events, e.data as int),
{
    if let Some(o) = n.sock(w.id as int) {
        lemma_ready_bits(n, o);
        let b = ready(o, n.socks, None);
        let ev = w.events;
        assert(((b & ev) & 1 != 0 <==> b & 1 != 0 && ev & 1 != 0) && ((b & ev) & 4 != 0 <==> b & 4 != 0 && ev & 4 != 0) && ((b & ev) & 16 != 0
            <==> b & 16 != 0 && ev & 16 != 0) && (b & ev) & 0xffff_ffea == 0 && (b & ev != 0 <==> (b & ev) & 1 != 0 || (b & ev) & 4 != 0 || (b
            & ev) & 16 != 0)) by (bit_vector)
            requires
                b & 0xffff_ffea == 0,
        ;
    }
}

/// The descriptors among the first `k` that have news, up to `max` of them.
spec fn told_of(fds: Seq<Option<FileDescriptor>>, n: Net, set: Map<i32, EpollInterest>, ks: Seq<i32>, k: int, max: int) -> Seq<i32>
    decreases k,
{
    if k <= 0 {
        Seq::empty()
    } else {
        let before = told_of(fds, n, set, ks, k - 1, max);
        if has_news(fds, n, set, ks[k - 1]) && before.len() < max { before.push(ks[k - 1]) } else { before }
    }
}

proof fn lemma_events_prefix(n: Net, s: Seq<Watch>, w: Watch, k: int, max: int)
    requires
        0 <= k <= s.len(),
    ensures
        ready_events(n, s.push(w), k, max) == ready_events(n, s, k, max),
    decreases k,
{
    if k > 0 {
        lemma_events_prefix(n, s, w, k - 1, max);
        assert(s.push(w)[k - 1] == s[k - 1]);
    }
}

proof fn lemma_told(fds: Seq<Option<FileDescriptor>>, n: Net, set: Map<i32, EpollInterest>, ks: Seq<i32>, k: int, max: int)
    requires
        0 <= k <= ks.len(),
        in_order(ks, set),
        max >= 0,
        fds.len() <= i32::MAX,
    ensures
        ({
            let s = watched(fds, set, ks, k);
            let e = ready_events(n, s, s.len() as int, max);
            let f = told_of(fds, n, set, ks, k, max);
            &&& e.len() == f.len() <= max
            &&& f.no_duplicates()
            &&& forall|i: int| 0 <= i < f.len() ==> has_news(fds, n, set, #[trigger] f[i]) && is_news(fds, n, set, f[i], e[i].events, e[i].data as int)
            &&& forall|i: int| 0 <= i < f.len() ==> exists|j: int| 0 <= j < k && #[trigger] ks[j] == #[trigger] f[i]
            &&& f.len() < max ==> forall|j: int| 0 <= j < k && has_news(fds, n, set, #[trigger] ks[j]) ==> f.contains(ks[j])
        }),
    decreases k,
{
    if k > 0 {
        lemma_told(fds, n, set, ks, k - 1, max);
        let fd = ks[k - 1];
        let s0 = watched(fds, set, ks, k - 1);
        let s = watched(fds, set, ks, k);
        let f0 = told_of(fds, n, set, ks, k - 1, max);
        let f = told_of(fds, n, set, ks, k, max);
        let e0 = ready_events(n, s0, s0.len() as int, max);
        let e = ready_events(n, s, s.len() as int, max);
        assert(set.contains_key(fd)) by {
            assert(ks.contains(ks[k - 1]));
        }
        assert(!f0.contains(fd)) by {
            if f0.contains(fd) {
                let i = choose|i: int| 0 <= i < f0.len() && f0[i] == fd;
                assert(f0[i] == fd);
                let j = choose|j: int| 0 <= j < k - 1 && #[trigger] ks[j] == f0[i];
                assert(ks[j] < ks[k - 1]);
            }
        }
        if fd >= 0 && is_open(fds, fd as int) && (fds[fd as int]->0).kind is Socket {
            let w = Watch { id: (fds[fd as int]->0).kind->Socket_id, events: set[fd].events, data: set[fd].data };
            assert(s == s0.push(w));
            lemma_events_prefix(n, s0, w, s0.len() as int, max);
            assert(s[s0.len() as int] == w);
            lemma_news(fds, n, set, fd, w);
        } else {
            assert(fd < 0 ==> fd as u64 >= 0x8000_0000_0000_0000) by (bit_vector);
            assert(s == s0);
        }
        assert forall|i: int| 0 <= i < f.len() implies exists|j: int| 0 <= j < k && #[trigger] ks[j] == #[trigger] f[i] by {
            if i < f0.len() {
                assert(f0[i] == f[i]);
                let j = choose|j: int| 0 <= j < k - 1 && #[trigger] ks[j] == f0[i];
                assert(ks[j] == f[i]);
            } else {
                assert(ks[k - 1] == f[i]);
            }
        }
        assert forall|i: int| 0 <= i < f.len() implies has_news(fds, n, set, #[trigger] f[i]) && is_news(
            fds,
            n,
            set,
            f[i],
            e[i].events,
            e[i].data as int,
        ) by {
            if i < f0.len() {
                assert(f0[i] == f[i]);
                assert(e0[i] == e[i]);
            }
        }
        if f.len() < max {
            assert forall|j: int| 0 <= j < k && has_news(fds, n, set, #[trigger] ks[j]) implies f.contains(ks[j]) by {
                if j < k - 1 {
                    assert(f0.contains(ks[j]));
                    let i = choose|i: int| 0 <= i < f0.len() && f0[i] == ks[j];
                    assert(f[i] == ks[j]);
                } else {
                    assert(f[f0.len() as int] == fd);
                }
            }
        }
    }
}

proof fn lemma_event_bytes(evs: Seq<EpollEvent>, k: int, i: int)
    requires
        0 <= i < k <= evs.len(),
    ensures
        events_bytes(evs, k).len() == 12 * k,
        events_bytes(evs, k).subrange(12 * i, 12 * i + 12) == event_bytes(evs[i]),
    decreases k,
{
    law_event_round_trip(evs[k - 1]);
    let b = events_bytes(evs, k);
    let b0 = events_bytes(evs, k - 1);
    lemma_events_len(evs, k - 1);
    if i < k - 1 {
        lemma_event_bytes(evs, k - 1, i);
        assert(b.subrange(12 * i, 12 * i + 12) =~= b0.subrange(12 * i, 12 * i + 12));
    } else {
        assert(b.subrange(12 * i, 12 * i + 12) =~= event_bytes(evs[i]));
    }
}

proof fn lemma_events_len(evs: Seq<EpollEvent>, k: int)
    requires
        0 <= k <= evs.len(),
    ensures
        events_bytes(evs, k).len() == 12 * k,
    decreases k,
{
    if k > 0 {
        lemma_events_len(evs, k - 1);
        law_event_round_trip(evs[k - 1]);
    }
}

proof fn lemma_event_at<M: Memory>(um: &M, m: Mem, ptr: u64, evs: Seq<EpollEvent>, i: int)
    requires
        mem(um) == m.stored(ptr as int, events_bytes(evs, evs.len() as int)),
        0 <= i < evs.len(),
        m.base <= ptr,
        ptr + 12 * evs.len() <= m.base + m.bytes.len(),
    ensures
        u32_at(um, ptr + 12 * i) == evs[i].events,
        u64_at(um, ptr + 12 * i + 4) == evs[i].data,
{
    let at = ptr + 12 * i;
    let b = events_bytes(evs, evs.len() as int);
    lemma_event_bytes(evs, evs.len() as int, i);
    let e = event_bytes(evs[i]);
    assert(b.subrange(12 * i, 12 * i + 12) == e);
    lemma_u32_at(um, at);
    lemma_u64_at(um, at + 4);
    crate::memory::access::law_le32_round_trip(evs[i].events);
    crate::memory::access::law_le64_round_trip(evs[i].data);
    assert forall|k: int| 0 <= k < 12 implies um.bytes()[at + k - um.base()] == #[trigger] e[k] by {
        assert(b.subrange(12 * i, 12 * i + 12)[k] == b[12 * i + k]);
        assert(um.bytes()[at + k - um.base()] == b[12 * i + k]);
    }
    assert(range(um, at, 4) =~= le32(evs[i].events)) by {
        assert forall|k: int| 0 <= k < 4 implies #[trigger] range(um, at, 4)[k] == le32(evs[i].events)[k] by {
            assert(e[k] == le32(evs[i].events)[k]);
        }
    }
    assert(range(um, at + 4, 8) =~= le64(evs[i].data)) by {
        assert forall|k: int| 0 <= k < 8 implies #[trigger] range(um, at + 4, 8)[k] == le64(evs[i].data)[k] by {
            assert(e[k + 4] == le64(evs[i].data)[k]);
        }
    }
}

/// A wait for a set that returns tells of descriptors that have news as things now stand: of each once, of no more than there is
/// room for, and of all if there is room; each with what it is ready for of what was asked for, and with the data it was added
/// with.
pub proof fn law_wait_tells_the_news<D: PollDevice, M: Memory>(
    args: &SyscallArgs,
    fds: &FdTable,
    net: &mut NetStateInner<D>,
    sched: &mut Scheduler,
    um: &mut M,
    c: u32,
    clock: &Clock,
    tsc: u64,
    id: usize,
    r: EpollCall,
)
    requires
        call_ensures(sys_epoll_wait::<D, M>, (args, fds, net, sched, um, c, clock, tsc), r),
        is_set(fds@, old(net)@, args.arg0, id),
        exists|ks: Seq<i32>| in_order(ks, old(net)@.epolltab[id as int]->0),
        1 <= args.arg2 as i32 <= 1024,
        reachable(old(um), args.arg1, 12 * (args.arg2 as i32)),
        fds@.len() <= i32::MAX,
        r is Return,
    ensures
        exists|f: Seq<i32>|
            {
                let n = final(net)@;
                let set = old(net)@.epolltab[id as int]->0;
                &&& r == EpollCall::Return(f.len() as i64)
                &&& f.len() <= args.arg2 as i32
                &&& #[trigger] f.no_duplicates()
                &&& forall|i: int|
                    0 <= i < f.len() ==> has_news(fds@, n, set, #[trigger] f[i]) && is_news(
                        fds@,
                        n,
                        set,
                        f[i],
                        u32_at(final(um), args.arg1 + 12 * i) as u32,
                        u64_at(final(um), args.arg1 + 12 * i + 4),
                    )
                &&& f.len() < args.arg2 as i32 ==> forall|fd: i32| #[trigger] has_news(fds@, n, set, fd) ==> f.contains(fd)
            },
{
    let n = final(net)@;
    let set = old(net)@.epolltab[id as int]->0;
    let max = (args.arg2 as i32) as int;
    let ks = order_of(set);
    assert(in_order(ks, set));
    let s = snapshot_of(fds@, set);
    let evs = ready_events(n, s, s.len() as int, max);
    let f = told_of(fds@, n, set, ks, ks.len() as int, max);
    lemma_told(fds@, n, set, ks, ks.len() as int, max);
    let m = mem(old(um));
    if evs.len() == 0 {
        lemma_events_len(evs, 0);
    }
    assert(r == EpollCall::Return(evs.len() as i64));
    assert forall|i: int| 0 <= i < f.len() implies has_news(fds@, n, set, #[trigger] f[i]) && is_news(
        fds@,
        n,
        set,
        f[i],
        u32_at(final(um), args.arg1 + 12 * i) as u32,
        u64_at(final(um), args.arg1 + 12 * i + 4),
    ) by {
        lemma_event_at(final(um), m, args.arg1, evs, i);
    }
    if f.len() < max {
        assert forall|fd: i32| #[trigger] has_news(fds@, n, set, fd) implies f.contains(fd) by {
            assert(ks.contains(fd));
            let j = choose|j: int| 0 <= j < ks.len() && ks[j] == fd;
            assert(has_news(fds@, n, set, ks[j]));
        }
    }
    assert(f.no_duplicates());
}

} // verus!
