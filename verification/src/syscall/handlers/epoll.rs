//! Waiting for several sockets at once.

use vstd::prelude::*;

use crate::fs::fd_table::{lookup, lowest_free, with_fd, FdKind, FdTable, FileDescriptor};
use crate::memory::access::{mem, range, reachable, Mem, Memory};
use crate::net::abi::{event_bytes, event_of, read_epoll_event, write_epoll_event, EpollEvent, EPOLL_EVENT_LEN};
use crate::net::device::{Poll, PollDevice};
use crate::net::epoll::{in_order, law_one_order, order_of, EpollInstance, EpollInterest};
use crate::net::socket::{handles_in, readiness, ready, EPOLLERR, EPOLLHUP};
use crate::net::state::{advanced_at, is_timed_out, joint_wf, lemma_tables, lowest_slot, with_new, Net, NetStateInner, Place};
use crate::net::stream::{parked_sys, parking_of, polled_sys, sys, Sys};
use crate::net::wait::Wait;
use crate::sched::scheduler::{active, Parking, Scheduler, Switch};
use crate::syscall::args::SyscallArgs;
use crate::syscall::blocking::after_first;
use crate::syscall::errno::{EBADF, EEXIST, EFAULT, EINVAL, ENOENT};
use crate::time::{elapsed_ns, low64, monotonic_ns, Clock};

verus! {

broadcast use crate::net::state::group_advanced;

pub const EPOLL_CTL_ADD: u64 = 1;

pub const EPOLL_CTL_DEL: u64 = 2;

pub const EPOLL_CTL_MOD: u64 = 3;

/// The epoll set behind a descriptor.
pub open spec fn epoll_of(fds: Seq<Option<FileDescriptor>>, fd: u64) -> Result<usize, i64> {
    if fd > i64::MAX {
        Err(EBADF)
    } else {
        match lookup(fds, fd) {
            Some(d) => match d.kind {
                FdKind::Epoll { id } => Ok(id),
                _ => Err(EINVAL),
            },
            None => Err(EBADF),
        }
    }
}

fn epoll_fd(fds: &FdTable, fd: u64) -> (r: Result<usize, i64>)
    ensures
        r == epoll_of(fds@, fd),
{
    if fd > i64::MAX as u64 {
        return Err(EBADF);
    }
    match fds.get(fd) {
        Some(d) => match d.kind {
            FdKind::Epoll { id } => Ok(id),
            _ => Err(EINVAL),
        },
        None => Err(EBADF),
    }
}

/// Makes an empty epoll set.
pub fn sys_epoll_create1<D>(_args: &SyscallArgs, fds: &mut FdTable, net: &mut NetStateInner<D>) -> (r: i64)
    requires
        old(net)@.wf(),
    ensures
        ({
            let n = old(net)@;
            let fd = lowest_free(old(fds)@, 0);
            let id = lowest_slot(n.epolltab, 0) as usize;
            &&& r == fd as i64
            &&& final(net)@ == (Net { epolltab: with_new(n.epolltab, Map::empty()), ..n })
            &&& final(fds)@ == with_fd(old(fds)@, fd, (FileDescriptor { kind: FdKind::Epoll { id }, flags: 0 }))
        }),
        final(net)@.wf(),
{
    let id = net.epoll_alloc(EpollInstance::new());
    proof {
        lemma_tables(old(net)@, net@);
    }
    let fd = fds.allocate(FileDescriptor { kind: FdKind::Epoll { id }, flags: 0 });
    #[verifier::truncate]
    (fd as i64)
}

/// Makes an empty epoll set. The size is ignored.
pub fn sys_epoll_create<D>(args: &SyscallArgs, fds: &mut FdTable, net: &mut NetStateInner<D>) -> (r: i64)
    requires
        old(net)@.wf(),
    ensures
        ({
            let n = old(net)@;
            let fd = lowest_free(old(fds)@, 0);
            let id = lowest_slot(n.epolltab, 0) as usize;
            &&& r == fd as i64
            &&& final(net)@ == (Net { epolltab: with_new(n.epolltab, Map::empty()), ..n })
            &&& final(fds)@ == with_fd(old(fds)@, fd, (FileDescriptor { kind: FdKind::Epoll { id }, flags: 0 }))
        }),
        final(net)@.wf(),
{
    sys_epoll_create1(args, fds, net)
}

/// The interest that a caller asks for. Errors and hang-ups are always of interest.
pub open spec fn interest_of(ev: EpollEvent) -> EpollInterest {
    EpollInterest { events: ev.events | EPOLLERR | EPOLLHUP, data: ev.data }
}

/// The state with another epoll set under the id.
pub open spec fn with_epoll(n: Net, id: int, m: Map<i32, EpollInterest>) -> Net {
    Net { epolltab: n.epolltab.update(id, Some(m)), ..n }
}

/// What a change of epoll set `id` comes to.
pub open spec fn controlled(n: Net, id: int, op: u64, fd: i32, want: EpollInterest) -> (i64, Net) {
    match n.epoll(id) {
        None => (EBADF, n),
        Some(m) => if op == EPOLL_CTL_ADD {
            if m.contains_key(fd) { (EEXIST, n) } else { (0, with_epoll(n, id, m.insert(fd, want))) }
        } else if op == EPOLL_CTL_MOD {
            if m.contains_key(fd) { (0, with_epoll(n, id, m.insert(fd, want))) } else { (ENOENT, n) }
        } else {
            if m.contains_key(fd) { (0, with_epoll(n, id, m.remove(fd))) } else { (ENOENT, n) }
        },
    }
}

/// A descriptor is added to a set once: adding it again is refused, and taking it out undoes the adding.
pub proof fn law_added_once(n: Net, id: int, fd: i32, want: EpollInterest, other: EpollInterest)
    requires
        n.epoll(id) matches Some(m) && !m.contains_key(fd),
    ensures
        ({
            let (r, added) = controlled(n, id, EPOLL_CTL_ADD, fd, want);
            &&& r == 0
            &&& added.epoll(id) matches Some(m) && m.contains_key(fd) && m[fd] == want
            &&& controlled(added, id, EPOLL_CTL_ADD, fd, other) == (EEXIST, added)
            &&& controlled(added, id, EPOLL_CTL_DEL, fd, other) == (0i64, n)
        }),
{
    let m = n.epoll(id)->0;
    let (_, added) = controlled(n, id, EPOLL_CTL_ADD, fd, want);
    assert(m.insert(fd, want).remove(fd) =~= m);
    assert(added.epolltab.update(id, Some(m)) =~= n.epolltab);
}

/// The call goes as far as to read what is asked for.
pub open spec fn ctl_reads(args: SyscallArgs, fds: Seq<Option<FileDescriptor>>) -> bool {
    &&& epoll_of(fds, args.arg0) is Ok
    &&& lookup(fds, (args.arg2 as i32) as u64) is Some
    &&& args.arg1 == EPOLL_CTL_ADD || args.arg1 == EPOLL_CTL_MOD
    &&& args.arg3 != 0
}

/// Adds a descriptor to an epoll set, changes what is of interest of it, or takes it out.
pub fn sys_epoll_ctl<D, M: Memory>(args: &SyscallArgs, fds: &FdTable, net: &mut NetStateInner<D>, um: &M) -> (r: i64)
    requires
        old(net)@.wf(),
        ctl_reads(*args, fds@) ==> reachable(um, args.arg3, EPOLL_EVENT_LEN as int),
    ensures
        ({
            let n = old(net)@;
            let fd = args.arg2 as i32;
            let op = args.arg1;
            let want = interest_of(event_of(range(um, args.arg3 as int, EPOLL_EVENT_LEN as int)));
            match epoll_of(fds@, args.arg0) {
                Err(e) => r == e && final(net)@ == n,
                Ok(id) => if lookup(fds@, fd as u64) is None {
                    r == EBADF && final(net)@ == n
                } else if op != EPOLL_CTL_ADD && op != EPOLL_CTL_MOD && op != EPOLL_CTL_DEL {
                    r == EINVAL && final(net)@ == n
                } else if op != EPOLL_CTL_DEL && args.arg3 == 0 {
                    r == EFAULT && final(net)@ == n
                } else {
                    (r, final(net)@) == controlled(n, id as int, op, fd, want)
                },
            }
        }),
        final(net)@.wf(),
{
    let id = match epoll_fd(fds, args.arg0) {
        Ok(id) => id,
        Err(e) => {
            return e;
        },
    };
    let op = args.arg1;
    let target: i32 = #[verifier::truncate]
    (args.arg2 as i32);
    let slot: u64 = #[verifier::truncate]
    (target as u64);
    if fds.get(slot).is_none() {
        return EBADF;
    }
    let ghost n = net@;
    if op == EPOLL_CTL_ADD || op == EPOLL_CTL_MOD {
        if args.arg3 == 0 {
            return EFAULT;
        }
        let ev = read_epoll_event(um, args.arg3);
        let want = EpollInterest { events: ev.events | EPOLLERR | EPOLLHUP, data: ev.data };
        let r: i64 = match net.epoll_get_mut(id) {
            None => EBADF,
            Some(set) => {
                let there = set.get(target).is_some();
                if op == EPOLL_CTL_ADD && there {
                    EEXIST
                } else if op == EPOLL_CTL_MOD && !there {
                    ENOENT
                } else {
                    set.put(target, want);
                    0
                }
            },
        };
        proof {
            assert(net@ =~= controlled(n, id as int, op, target, want).1);
            lemma_tables(n, net@);
        }
        r
    } else if op == EPOLL_CTL_DEL {
        let r: i64 = match net.epoll_get_mut(id) {
            None => EBADF,
            Some(set) => {
                if !set.take(target) {
                    ENOENT
                } else {
                    0
                }
            },
        };
        proof {
            if n.epoll(id as int) is Some && !n.epoll(id as int)->0.contains_key(target) {
                assert(n.epoll(id as int)->0.remove(target) =~= n.epoll(id as int)->0);
            }
            assert(net@ =~= controlled(n, id as int, op, target, (EpollInterest { events: 0, data: 0 })).1);
            lemma_tables(n, net@);
        }
        r
    } else {
        EINVAL
    }
}

/// A socket object to look at, the events that are of interest, and the word that is handed back with them.
#[derive(Clone, Copy, Debug, PartialEq, Eq, Structural)]
pub struct Watch {
    pub id: usize,
    pub events: u32,
    pub data: u64,
}

/// The sockets among the first `k` descriptors of an epoll set.
pub open spec fn watched(fds: Seq<Option<FileDescriptor>>, m: Map<i32, EpollInterest>, ks: Seq<i32>, k: int) -> Seq<Watch>
    decreases k,
{
    if k <= 0 {
        Seq::empty()
    } else {
        let before = watched(fds, m, ks, k - 1);
        let fd = ks[k - 1];
        match lookup(fds, fd as u64) {
            Some(d) => match d.kind {
                FdKind::Socket { id } => before.push(Watch { id, events: m[fd].events, data: m[fd].data }),
                _ => before,
            },
            None => before,
        }
    }
}

/// The sockets in an epoll set, in the order of their descriptors.
pub open spec fn snapshot_of(fds: Seq<Option<FileDescriptor>>, m: Map<i32, EpollInterest>) -> Seq<Watch> {
    watched(fds, m, order_of(m), order_of(m).len() as int)
}

/// Looks up the sockets in an epoll set, in the order of their descriptors. Other descriptors, and those
/// that were closed, are left out.
pub fn snapshot_interest<D>(fds: &FdTable, net: &NetStateInner<D>, id: usize) -> (r: Result<Vec<Watch>, i64>)
    ensures
        match net@.epoll(id as int) {
            None => r is Err && r->Err_0 == EBADF,
            Some(m) => r is Ok && r->Ok_0@ == snapshot_of(fds@, m),
        },
{
    let set = match net.epoll_get(id) {
        None => {
            return Err(EBADF);
        },
        Some(set) => set,
    };
    let keys = set.descriptors();
    proof {
        law_one_order(keys@, keys@, set@);
    }
    let mut out: Vec<Watch> = Vec::new();
    let mut i: usize = 0;
    while i < keys.len()
        invariant
            i <= keys@.len(),
            in_order(keys@, set@),
            out@ == watched(fds@, set@, keys@, i as int),
        decreases keys@.len() - i,
    {
        let fd: i32 = keys[i];
        assert(keys@.contains(fd));
        assert(set@.contains_key(fd));
        let slot: u64 = #[verifier::truncate]
        (fd as u64);
        if let Some(want) = set.get(fd) {
            if let Some(d) = fds.get(slot) {
                if let FdKind::Socket { id } = d.kind {
                    out.push(Watch { id, events: want.events, data: want.data });
                }
            }
        }
        i += 1;
    }
    Ok(out)
}

/// The events that a watch gives: none if there is nothing of interest.
pub open spec fn watch_ready(n: Net, w: Watch) -> Option<EpollEvent> {
    match n.sock(w.id as int) {
        None => None,
        Some(o) => {
            let r = ready(o, n.socks, None) & w.events;
            if r != 0 { Some(EpollEvent { events: r, data: w.data }) } else { None }
        },
    }
}

/// The events that the first `k` watches give, up to `max` of them.
pub open spec fn ready_events(n: Net, snap: Seq<Watch>, k: int, max: int) -> Seq<EpollEvent>
    decreases k,
{
    if k <= 0 {
        Seq::empty()
    } else {
        let before = ready_events(n, snap, k - 1, max);
        match watch_ready(n, snap[k - 1]) {
            Some(ev) => if before.len() < max { before.push(ev) } else { before },
            None => before,
        }
    }
}

/// No more events are given than asked for, and each tells of something that a socket of the set is ready for.
pub proof fn law_ready_events(n: Net, snap: Seq<Watch>, k: int, max: int)
    requires
        0 <= k <= snap.len(),
        max >= 0,
    ensures
        ready_events(n, snap, k, max).len() <= max,
        ready_events(n, snap, k, max).len() <= k,
        forall|i: int|
            0 <= i < ready_events(n, snap, k, max).len() ==> exists|j: int|
                0 <= j < k && watch_ready(n, #[trigger] snap[j]) == Some(#[trigger] ready_events(n, snap, k, max)[i]),
    decreases k,
{
    if k > 0 {
        law_ready_events(n, snap, k - 1, max);
        let before = ready_events(n, snap, k - 1, max);
        let now = ready_events(n, snap, k, max);
        assert forall|i: int| 0 <= i < now.len() implies exists|j: int|
            0 <= j < k && watch_ready(n, #[trigger] snap[j]) == Some(#[trigger] now[i]) by {
            if i < before.len() {
                assert(now[i] == before[i]);
                let j = choose|j: int| 0 <= j < k - 1 && watch_ready(n, #[trigger] snap[j]) == Some(before[i]);
                assert(watch_ready(n, snap[j]) == Some(now[i]));
            } else {
                assert(watch_ready(n, snap[k - 1]) == Some(now[i]));
            }
        }
    }
}

/// Looks what the sockets are ready for, up to `max` events.
pub fn compute_ready<D>(net: &NetStateInner<D>, snapshot: &[Watch], max: usize) -> (r: Vec<EpollEvent>)
    requires
        net@.wf(),
    ensures
        r@ == ready_events(net@, snapshot@, snapshot@.len() as int, max as int),
{
    let mut out: Vec<EpollEvent> = Vec::new();
    let mut i: usize = 0;
    while i < snapshot.len()
        invariant
            i <= snapshot@.len(),
            net@.wf(),
            out@ == ready_events(net@, snapshot@, i as int, max as int),
        decreases snapshot@.len() - i,
    {
        let w = snapshot[i];
        if out.len() < max {
            if let Some(obj) = net.socket_get(w.id) {
                proof {
                    assert(handles_in(obj@, net@.socks)) by {
                        if let Some(h) = obj@.handle {
                            assert(net@.uses(h, Place::Stream(w.id as int)));
                        }
                        assert forall|k: int| 0 <= k < obj@.backlog.len() implies net@.socks.contains_key(#[trigger] obj@.backlog[k]) by {
                            assert(net@.uses(obj@.backlog[k], Place::Backlog(w.id as int, k)));
                        }
                    }
                }
                let ev: u32 = readiness(obj, &net.sockets, None) & w.events;
                if ev != 0 {
                    out.push(EpollEvent { events: ev, data: w.data });
                }
            }
        }
        i += 1;
    }
    out
}

/// The bytes of the first `k` events.
pub open spec fn events_bytes(evs: Seq<EpollEvent>, k: int) -> Seq<u8>
    decreases k,
{
    if k <= 0 { Seq::empty() } else { events_bytes(evs, k - 1) + event_bytes(evs[k - 1]) }
}

proof fn lemma_events_len(evs: Seq<EpollEvent>, k: int)
    requires
        0 <= k,
    ensures
        events_bytes(evs, k).len() == EPOLL_EVENT_LEN * k,
    decreases k,
{
    if k > 0 {
        lemma_events_len(evs, k - 1);
    }
}

/// Writes the events one after the other.
fn write_events<M: Memory>(um: &mut M, ptr: u64, evs: &[EpollEvent])
    requires
        reachable(old(um), ptr, EPOLL_EVENT_LEN * evs@.len()),
    ensures
        mem(final(um)) == mem(old(um)).stored(ptr as int, events_bytes(evs@, evs@.len() as int)),
{
    let ghost m = mem(um);
    let mut i: usize = 0;
    assert(mem(um) =~= m.stored(ptr as int, events_bytes(evs@, 0)));
    while i < evs.len()
        invariant
            i <= evs@.len(),
            m.reaches(ptr, EPOLL_EVENT_LEN * evs@.len()),
            mem(um) == m.stored(ptr as int, events_bytes(evs@, i as int)),
        decreases evs@.len() - i,
    {
        proof {
            lemma_events_len(evs@, i as int);
            lemma_events_len(evs@, i + 1);
        }
        write_epoll_event(um, ptr + i as u64 * EPOLL_EVENT_LEN, &evs[i]);
        assert(mem(um) =~= m.stored(ptr as int, events_bytes(evs@, i + 1)));
        i += 1;
    }
}

/// A thread that waits for events.
pub struct EpollWait {
    pub snapshot: Vec<Watch>,
    pub ptr: u64,
    pub max: usize,
    pub deadline: Option<u64>,
}

/// What an `EpollWait` stands for.
#[verifier::ext_equal]
pub struct Watching {
    pub snapshot: Seq<Watch>,
    pub ptr: u64,
    pub max: usize,
    pub deadline: Option<u64>,
}

impl View for EpollWait {
    type V = Watching;

    open spec fn view(&self) -> Watching {
        Watching { snapshot: self.snapshot@, ptr: self.ptr, max: self.max, deadline: self.deadline }
    }
}

impl Watching {
    /// The events that there are.
    pub open spec fn events(self, n: Net) -> Seq<EpollEvent> {
        ready_events(n, self.snapshot, self.snapshot.len() as int, self.max as int)
    }
}

/// What a wait for events comes to: a number of events, or a change of threads.
pub enum EpollCall {
    Return(i64),
    Parked(Option<Switch>, EpollWait),
}

/// The call that ends like `p`, and goes on like `w`.
pub open spec fn epoll_ends(r: EpollCall, p: Parking, w: Watching) -> bool {
    match p {
        Parking::Return(v) => r == EpollCall::Return(v),
        Parking::Parked(s) => r matches EpollCall::Parked(t, x) && t == s && x@ == w,
    }
}

/// What waiting for events comes to, at `now` nanoseconds after boot.
pub open spec fn watch_result(s: Sys, m: Mem, w: Watching, now: u64, q: Seq<Poll>, c: int) -> (Parking, Sys, Mem) {
    let first = if w.events(s.net).len() == 0 { Wait::Block } else { Wait::Ready(0) };
    let t = after_first(s, first, q, c);
    let evs = w.events(t.net);
    if evs.len() > 0 {
        (Parking::Return(evs.len() as i64), t, m.stored(w.ptr as int, events_bytes(evs, evs.len() as int)))
    } else if is_timed_out(w.deadline, now) {
        (Parking::Return(0), t, m)
    } else {
        (parking_of(t, c), parked_sys(t, c, w.deadline is Some), m)
    }
}

/// Waits for events, or goes on waiting.
pub fn epoll_on<D: PollDevice, M: Memory>(
    net: &mut NetStateInner<D>,
    sched: &mut Scheduler,
    um: &mut M,
    w: EpollWait,
    c: u32,
    clock: &Clock,
    tsc: u64,
) -> (r: EpollCall)
    requires
        joint_wf(old(net)@, old(sched)@),
        active(old(sched)@, c as int),
        w.max <= 1024,
        reachable(old(um), w.ptr, EPOLL_EVENT_LEN * w.max),
    ensures
        advanced_at(old(net)@.polls, final(net)@.polls, *clock, tsc),
        ({
            let s = sys(old(net)@, old(sched)@);
            let x = watch_result(s, mem(old(um)), w@, elapsed_ns(*clock, tsc) as u64, final(net)@.polls, c as int);
            &&& epoll_ends(r, x.0, w@)
            &&& sys(final(net)@, final(sched)@) == x.1
            &&& mem(final(um)) == x.2
        }),
        joint_wf(final(net)@, final(sched)@),
        r is Return ==> active(final(sched)@, c as int),
{
    let mut evs = compute_ready(net, w.snapshot.as_slice(), w.max);
    if evs.len() == 0 {
        net.poll_and_wake(sched, c, clock, tsc);
        evs = compute_ready(net, w.snapshot.as_slice(), w.max);
    }
    proof {
        law_ready_events(net@, w.snapshot@, w.snapshot@.len() as int, w.max as int);
    }
    if evs.len() > 0 {
        write_events(um, w.ptr, evs.as_slice());
        return EpollCall::Return(evs.len() as i64);
    }
    match net.net_wait(sched, c, w.deadline, monotonic_ns(clock, tsc), 0) {
        Parking::Return(v) => EpollCall::Return(v),
        Parking::Parked(s) => EpollCall::Parked(s, w),
    }
}

/// The time at which a wait of `ms` milliseconds ends: never if negative.
pub open spec fn deadline_of(clock: Clock, tsc: u64, ms: i32) -> Option<u64> {
    if ms < 0 { None } else { Some(low64(elapsed_ns(clock, tsc) + ms * 1_000_000) as u64) }
}

pub(crate) fn deadline(clock: &Clock, tsc: u64, ms: i32) -> (r: Option<u64>)
    ensures
        r == deadline_of(*clock, tsc, ms),
{
    if ms < 0 { None } else { Some(monotonic_ns(clock, tsc).wrapping_add(ms as u64 * 1_000_000)) }
}

/// What a call to wait for events comes to.
pub open spec fn epoll_wait_result(
    fds: Seq<Option<FileDescriptor>>,
    s: Sys,
    m: Mem,
    args: &SyscallArgs,
    clock: Clock,
    tsc: u64,
    q: Seq<Poll>,
    c: int,
) -> (Parking, Sys, Mem) {
    let max = args.arg2 as i32;
    let ms = args.arg3 as i32;
    match epoll_of(fds, args.arg0) {
        Err(e) => (Parking::Return(e), s, m),
        Ok(id) => if !(1 <= max <= 1024) {
            (Parking::Return(EINVAL), s, m)
        } else {
            match s.net.epoll(id as int) {
                None => (Parking::Return(EBADF), s, m),
                Some(set) => {
                    let w = watching(fds, set, args, clock, tsc);
                    if ms == 0 {
                        let t = polled_sys(s, q[s.net.polls.len() as int], c);
                        let evs = w.events(t.net);
                        (
                            Parking::Return(evs.len() as i64),
                            t,
                            m.stored(w.ptr as int, events_bytes(evs, evs.len() as int)),
                        )
                    } else {
                        watch_result(s, m, w, elapsed_ns(clock, tsc) as u64, q, c)
                    }
                },
            }
        },
    }
}

/// What a call waits for.
pub open spec fn watching(
    fds: Seq<Option<FileDescriptor>>,
    set: Map<i32, EpollInterest>,
    args: &SyscallArgs,
    clock: Clock,
    tsc: u64,
) -> Watching {
    Watching {
        snapshot: snapshot_of(fds, set),
        ptr: args.arg1,
        max: (args.arg2 as i32) as usize,
        deadline: deadline_of(clock, tsc, args.arg3 as i32),
    }
}

/// Waits for events of the sockets in an epoll set, for as many milliseconds as asked for.
pub fn sys_epoll_wait<D: PollDevice, M: Memory>(
    args: &SyscallArgs,
    fds: &FdTable,
    net: &mut NetStateInner<D>,
    sched: &mut Scheduler,
    um: &mut M,
    c: u32,
    clock: &Clock,
    tsc: u64,
) -> (r: EpollCall)
    requires
        joint_wf(old(net)@, old(sched)@),
        active(old(sched)@, c as int),
        epoll_of(fds@, args.arg0) is Ok && 1 <= args.arg2 as i32 <= 1024 ==> reachable(
            old(um),
            args.arg1,
            EPOLL_EVENT_LEN * (args.arg2 as i32),
        ),
    ensures
        advanced_at(old(net)@.polls, final(net)@.polls, *clock, tsc),
        ({
            let s = sys(old(net)@, old(sched)@);
            let x = epoll_wait_result(fds@, s, mem(old(um)), args, *clock, tsc, final(net)@.polls, c as int);
            let set = s.net.epoll(epoll_of(fds@, args.arg0)->Ok_0 as int)->0;
            &&& epoll_ends(r, x.0, watching(fds@, set, args, *clock, tsc))
            &&& sys(final(net)@, final(sched)@) == x.1
            &&& mem(final(um)) == x.2
        }),
        joint_wf(final(net)@, final(sched)@),
        r is Return ==> active(final(sched)@, c as int),
{
    let id = match epoll_fd(fds, args.arg0) {
        Ok(id) => id,
        Err(e) => {
            return EpollCall::Return(e);
        },
    };
    let max_events: i32 = #[verifier::truncate]
    (args.arg2 as i32);
    let timeout_ms: i32 = #[verifier::truncate]
    (args.arg3 as i32);
    if max_events < 1 || max_events > 1024 {
        return EpollCall::Return(EINVAL);
    }
    let snapshot = match snapshot_interest(fds, net, id) {
        Ok(s) => s,
        Err(e) => {
            return EpollCall::Return(e);
        },
    };
    let max: usize = max_events as usize;
    if timeout_ms == 0 {
        net.poll_and_wake(sched, c, clock, tsc);
        let evs = compute_ready(net, snapshot.as_slice(), max);
        proof {
            law_ready_events(net@, snapshot@, snapshot@.len() as int, max as int);
        }
        write_events(um, args.arg1, evs.as_slice());
        return EpollCall::Return(evs.len() as i64);
    }
    let until = deadline(clock, tsc, timeout_ms);
    epoll_on(net, sched, um, EpollWait { snapshot, ptr: args.arg1, max, deadline: until }, c, clock, tsc)
}

/// Waits for events. The signal mask is ignored.
pub fn sys_epoll_pwait<D: PollDevice, M: Memory>(
    args: &SyscallArgs,
    fds: &FdTable,
    net: &mut NetStateInner<D>,
    sched: &mut Scheduler,
    um: &mut M,
    c: u32,
    clock: &Clock,
    tsc: u64,
) -> (r: EpollCall)
    requires
        joint_wf(old(net)@, old(sched)@),
        active(old(sched)@, c as int),
        epoll_of(fds@, args.arg0) is Ok && 1 <= args.arg2 as i32 <= 1024 ==> reachable(
            old(um),
            args.arg1,
            EPOLL_EVENT_LEN * (args.arg2 as i32),
        ),
    ensures
        advanced_at(old(net)@.polls, final(net)@.polls, *clock, tsc),
        ({
            let s = sys(old(net)@, old(sched)@);
            let x = epoll_wait_result(fds@, s, mem(old(um)), args, *clock, tsc, final(net)@.polls, c as int);
            let set = s.net.epoll(epoll_of(fds@, args.arg0)->Ok_0 as int)->0;
            &&& epoll_ends(r, x.0, watching(fds@, set, args, *clock, tsc))
            &&& sys(final(net)@, final(sched)@) == x.1
            &&& mem(final(um)) == x.2
        }),
        joint_wf(final(net)@, final(sched)@),
        r is Return ==> active(final(sched)@, c as int),
{
    sys_epoll_wait(args, fds, net, sched, um, c, clock, tsc)
}

} // verus!
