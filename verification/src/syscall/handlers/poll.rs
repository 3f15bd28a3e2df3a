//! Waiting for several descriptors at once, with the descriptors given anew each time.

use vstd::prelude::*;

use super::epoll::{deadline, deadline_of};
use crate::fs::fd_table::{lookup, FdKind, FdTable, FileDescriptor};
use crate::memory::access::{from_le32, mem, reachable, read_u32, write_bytes, Mem, Memory};
use crate::net::device::{Poll, PollDevice};
use crate::net::pipe::{pipe_readiness, readiness_of};
use crate::net::socket::{handles_in, readiness, ready};
use crate::net::state::{advanced_at, is_timed_out, joint_wf, Net, NetStateInner, Place};
use crate::net::stream::{parked_sys, parking_of, polled_sys, sys, Sys};
use crate::net::wait::Wait;
use crate::sched::scheduler::{active, Parking, Scheduler, Switch};
use crate::syscall::args::SyscallArgs;
use crate::syscall::blocking::after_first;
use crate::syscall::errno::{EFAULT, EINVAL};
use crate::time::{elapsed_ns, monotonic_ns, Clock};

verus! {

broadcast use crate::net::state::group_advanced;

/// Size of one question in the user's memory: a descriptor, the events asked for, and the answer.
pub const POLLFD_LEN: u64 = 8;

/// No more descriptors are looked at in one call.
pub const POLL_MAX: u64 = 256;

pub const POLLIN: u16 = 0x0001;

pub const POLLOUT: u16 = 0x0004;

pub const POLLERR: u16 = 0x0008;

pub const POLLHUP: u16 = 0x0010;

pub const POLLNVAL: u16 = 0x0020;

/// What a question is about.
#[derive(Clone, Copy, Debug, PartialEq, Eq, Structural)]
pub enum PollTarget {
    /// Nothing: the descriptor is negative.
    Skip,
    /// A descriptor that is not open.
    Invalid,
    /// Something that never has to be waited for.
    Always,
    Socket(usize),
    Pipe { id: usize, write_end: bool },
}

impl PollTarget {
    pub open spec fn waits(self) -> bool {
        self is Socket || self is Pipe
    }

    /// Whether this may have to be waited for.
    pub fn needs_net(self) -> (r: bool)
        ensures
            r == self.waits(),
    {
        match self {
            PollTarget::Socket(_) => true,
            PollTarget::Pipe { .. } => true,
            _ => false,
        }
    }
}

/// One question.
#[derive(Clone, Copy, Debug, PartialEq, Eq, Structural)]
pub struct PollEntry {
    pub idx: u64,
    pub events: u16,
    pub target: PollTarget,
}

/// One answer.
#[derive(Clone, Copy, Debug, PartialEq, Eq, Structural)]
pub struct Answer {
    pub idx: u64,
    pub revents: u16,
}

/// What a descriptor is to a question.
pub open spec fn target_of(fds: Seq<Option<FileDescriptor>>, fd: i32) -> PollTarget {
    if fd < 0 {
        PollTarget::Skip
    } else {
        match lookup(fds, fd as u64) {
            None => PollTarget::Invalid,
            Some(d) => match d.kind {
                FdKind::Socket { id } => PollTarget::Socket(id),
                FdKind::Pipe { id, write_end } => PollTarget::Pipe { id, write_end },
                _ => PollTarget::Always,
            },
        }
    }
}

/// The number in two bytes, the lower one first.
pub open spec fn word16(b: Seq<u8>) -> u16 {
    (b[0] + b[1] * 0x100) as u16
}

/// The two bytes of a number, the lower one first.
pub open spec fn bytes16(n: u16) -> Seq<u8> {
    seq![(n % 0x100) as u8, (n / 0x100) as u8]
}

/// Question `i`.
pub open spec fn question(fds: Seq<Option<FileDescriptor>>, m: Mem, ptr: u64, i: int) -> PollEntry {
    let at = ptr + POLLFD_LEN * i;
    PollEntry {
        idx: i as u64,
        events: word16(m.range(at + 4, 2)),
        target: target_of(fds, (from_le32(m.range(at, 4)) as u32) as i32),
    }
}

/// The first `n` questions.
pub open spec fn questions(fds: Seq<Option<FileDescriptor>>, m: Mem, ptr: u64, n: int) -> Seq<PollEntry> {
    Seq::new(n as nat, |i: int| question(fds, m, ptr, i))
}

/// The memory with the answers to the first `k` questions set to 0.
pub open spec fn cleared(m: Mem, ptr: u64, k: int) -> Mem
    decreases k,
{
    if k <= 0 { m } else { cleared(m, ptr, k - 1).stored(ptr + POLLFD_LEN * (k - 1) + 6, bytes16(0)) }
}

/// The memory with the first `k` answers given.
pub open spec fn answered(m: Mem, ptr: u64, a: Seq<Answer>, k: int) -> Mem
    decreases k,
{
    if k <= 0 { m } else { answered(m, ptr, a, k - 1).stored(ptr + POLLFD_LEN * a[k - 1].idx + 6, bytes16(a[k - 1].revents)) }
}

/// The answer to a question that needs no look at the network, if there is one.
pub open spec fn static_answer(e: PollEntry) -> Option<u16> {
    match e.target {
        PollTarget::Invalid => Some(POLLNVAL),
        PollTarget::Always => if e.events & (POLLIN | POLLOUT) != 0 { Some(e.events & (POLLIN | POLLOUT)) } else { None },
        _ => None,
    }
}

/// The events of those that there are that belong into an answer. Errors and hang-ups always do.
pub open spec fn masked(events: u16, readiness: u32) -> u16 {
    ((readiness & (events as u32) & 5) | (readiness & 0x18)) as u16
}

/// The answer to a question about a socket or a pipe, if there is one.
pub open spec fn net_answer(n: Net, e: PollEntry) -> Option<u16> {
    match e.target {
        PollTarget::Socket(id) => match n.sock(id as int) {
            Some(o) => if masked(e.events, ready(o, n.socks, None)) != 0 {
                Some(masked(e.events, ready(o, n.socks, None)))
            } else {
                None
            },
            None => None,
        },
        PollTarget::Pipe { id, write_end } => match n.pipe(id as int) {
            Some(p) => if masked(e.events, readiness_of(p, write_end)) != 0 {
                Some(masked(e.events, readiness_of(p, write_end)))
            } else {
                None
            },
            None => None,
        },
        _ => None,
    }
}

/// The answers to the first `k` questions that need no look at the network.
pub open spec fn static_answers(snap: Seq<PollEntry>, k: int) -> Seq<Answer>
    decreases k,
{
    if k <= 0 {
        Seq::empty()
    } else {
        let before = static_answers(snap, k - 1);
        match static_answer(snap[k - 1]) {
            Some(revents) => before.push(Answer { idx: snap[k - 1].idx, revents }),
            None => before,
        }
    }
}

/// The answers that need no look at the network, and those to the first `k` questions that do.
pub open spec fn net_answers(n: Net, snap: Seq<PollEntry>, k: int) -> Seq<Answer>
    decreases k,
{
    if k <= 0 {
        static_answers(snap, snap.len() as int)
    } else {
        let before = net_answers(n, snap, k - 1);
        match net_answer(n, snap[k - 1]) {
            Some(revents) => before.push(Answer { idx: snap[k - 1].idx, revents }),
            None => before,
        }
    }
}

/// Some question is about a socket or a pipe.
pub open spec fn any_waits(snap: Seq<PollEntry>) -> bool {
    exists|i: int| 0 <= i < snap.len() && (#[trigger] snap[i]).target.waits()
}

/// Every answer belongs to one of the `n` questions, and there are no more than two to each.
pub open spec fn belongs(a: Seq<Answer>, n: int) -> bool {
    a.len() <= 2 * n && forall|i: int| 0 <= i < a.len() ==> (#[trigger] a[i]).idx < n
}

proof fn lemma_static_belongs(snap: Seq<PollEntry>, k: int)
    requires
        0 <= k <= snap.len(),
        forall|i: int| 0 <= i < snap.len() ==> (#[trigger] snap[i]).idx < snap.len(),
    ensures
        static_answers(snap, k).len() <= k,
        forall|i: int| 0 <= i < static_answers(snap, k).len() ==> (#[trigger] static_answers(snap, k)[i]).idx < snap.len(),
    decreases k,
{
    if k > 0 {
        lemma_static_belongs(snap, k - 1);
        let before = static_answers(snap, k - 1);
        let now = static_answers(snap, k);
        assert forall|i: int| 0 <= i < now.len() implies (#[trigger] now[i]).idx < snap.len() by {
            if i < before.len() {
                assert(now[i] == before[i]);
            } else {
                assert(snap[k - 1].idx < snap.len());
            }
        }
    }
}

pub proof fn lemma_net_belongs(n: Net, snap: Seq<PollEntry>, k: int)
    requires
        0 <= k <= snap.len(),
        forall|i: int| 0 <= i < snap.len() ==> (#[trigger] snap[i]).idx < snap.len(),
    ensures
        net_answers(n, snap, k).len() <= snap.len() + k,
        forall|i: int| 0 <= i < net_answers(n, snap, k).len() ==> (#[trigger] net_answers(n, snap, k)[i]).idx < snap.len(),
    decreases k,
{
    if k > 0 {
        lemma_net_belongs(n, snap, k - 1);
        let before = net_answers(n, snap, k - 1);
        let now = net_answers(n, snap, k);
        assert forall|i: int| 0 <= i < now.len() implies (#[trigger] now[i]).idx < snap.len() by {
            if i < before.len() {
                assert(now[i] == before[i]);
            } else {
                assert(snap[k - 1].idx < snap.len());
            }
        }
    } else {
        lemma_static_belongs(snap, snap.len() as int);
    }
}

fn write_u16<M: Memory>(um: &mut M, addr: u64, n: u16)
    requires
        reachable(old(um), addr, 2),
    ensures
        mem(final(um)) == mem(old(um)).stored(addr as int, bytes16(n)),
{
    let b: Vec<u8> = vec![(n % 0x100) as u8, (n / 0x100) as u8];
    assert(b@ =~= bytes16(n));
    write_bytes(um, addr, b.as_slice());
}

proof fn lemma_cleared(m: Mem, ptr: u64, k: int, i: int)
    requires
        0 <= k <= i,
        m.reaches(ptr, POLLFD_LEN * i),
    ensures
        cleared(m, ptr, k).base == m.base,
        cleared(m, ptr, k).bytes.len() == m.bytes.len(),
        forall|j: int| ptr + POLLFD_LEN * k - m.base <= j < m.bytes.len() ==> #[trigger] cleared(m, ptr, k).bytes[j] == m.bytes[j],
    decreases k,
{
    if k > 0 {
        lemma_cleared(m, ptr, k - 1, i);
    }
}

/// Reads the questions, and sets all answers to 0.
fn poll_snapshot<M: Memory>(fds: &FdTable, um: &mut M, ptr: u64, n: u64) -> (r: Vec<PollEntry>)
    requires
        n <= POLL_MAX,
        n > 0 ==> reachable(old(um), ptr, POLLFD_LEN * n),
    ensures
        r@ == questions(fds@, mem(old(um)), ptr, n as int),
        mem(final(um)) == cleared(mem(old(um)), ptr, n as int),
{
    let ghost m = mem(um);
    let mut out: Vec<PollEntry> = Vec::new();
    let mut idx: u64 = 0;
    assert(out@ =~= questions(fds@, m, ptr, 0));
    while idx < n
        invariant
            idx <= n <= POLL_MAX,
            n > 0 ==> m.reaches(ptr, POLLFD_LEN * n),
            out@ == questions(fds@, m, ptr, idx as int),
            mem(um) == cleared(m, ptr, idx as int),
        decreases n - idx,
    {
        proof {
            lemma_cleared(m, ptr, idx as int, n as int);
        }
        let at: u64 = ptr + idx * POLLFD_LEN;
        let raw: u32 = read_u32(um, at);
        let e0: u8 = um.read_u8(at + 4);
        let e1: u8 = um.read_u8(at + 5);
        let events: u16 = e0 as u16 + e1 as u16 * 0x100;
        let fd: i32 = #[verifier::truncate]
        (raw as i32);
        proof {
            assert(mem(um).range(at as int, 4) =~= m.range(at as int, 4));
            assert(m.range(at + 4, 2)[0] == e0 && m.range(at + 4, 2)[1] == e1);
        }
        let target = if fd < 0 {
            PollTarget::Skip
        } else {
            match fds.get(fd as u64) {
                None => PollTarget::Invalid,
                Some(d) => match d.kind {
                    FdKind::Socket { id } => PollTarget::Socket(id),
                    FdKind::Pipe { id, write_end } => PollTarget::Pipe { id, write_end },
                    _ => PollTarget::Always,
                },
            }
        };
        write_u16(um, at + 6, 0);
        out.push(PollEntry { idx, events, target });
        idx += 1;
        assert(out@ =~= questions(fds@, m, ptr, idx as int));
    }
    out
}

/// Gives the answers.
fn give_answers<M: Memory>(um: &mut M, ptr: u64, a: &[Answer], Ghost(n): Ghost<int>)
    requires
        n > 0 ==> reachable(old(um), ptr, POLLFD_LEN * n),
        0 <= n <= POLL_MAX,
        belongs(a@, n),
    ensures
        mem(final(um)) == answered(mem(old(um)), ptr, a@, a@.len() as int),
{
    let ghost m = mem(um);
    let mut i: usize = 0;
    while i < a.len()
        invariant
            i <= a@.len(),
            belongs(a@, n),
            0 <= n <= POLL_MAX,
            n > 0 ==> m.reaches(ptr, POLLFD_LEN * n),
            mem(um).base == m.base,
            mem(um).bytes.len() == m.bytes.len(),
            mem(um) == answered(m, ptr, a@, i as int),
        decreases a@.len() - i,
    {
        let x = a[i];
        assert(a@[i as int].idx < n);
        write_u16(um, ptr + x.idx * POLLFD_LEN + 6, x.revents);
        i += 1;
    }
}

fn poll_mask(events: u16, readiness: u32) -> (r: u16)
    ensures
        r == masked(events, readiness),
{
    let normal: u32 = readiness & (events as u32) & 5;
    let exceptional: u32 = readiness & 0x18;
    assert((readiness & (events as u32) & 5) | (readiness & 0x18) <= 0xffff) by (bit_vector);
    (normal | exceptional) as u16
}

/// The answers that need no look at the network.
pub fn poll_compute_static_ready(snapshot: &[PollEntry]) -> (r: Vec<Answer>)
    ensures
        r@ == static_answers(snapshot@, snapshot@.len() as int),
{
    let mut out: Vec<Answer> = Vec::new();
    let mut i: usize = 0;
    while i < snapshot.len()
        invariant
            i <= snapshot@.len(),
            out@ == static_answers(snapshot@, i as int),
        decreases snapshot@.len() - i,
    {
        let e = snapshot[i];
        match e.target {
            PollTarget::Invalid => {
                out.push(Answer { idx: e.idx, revents: POLLNVAL });
            },
            PollTarget::Always => {
                let revents: u16 = e.events & (POLLIN | POLLOUT);
                if revents != 0 {
                    out.push(Answer { idx: e.idx, revents });
                }
            },
            _ => {},
        }
        i += 1;
    }
    out
}

/// All answers that there are.
pub fn poll_compute_net_ready<D>(net: &NetStateInner<D>, snapshot: &[PollEntry]) -> (r: Vec<Answer>)
    requires
        net@.wf(),
    ensures
        r@ == net_answers(net@, snapshot@, snapshot@.len() as int),
{
    let mut out = poll_compute_static_ready(snapshot);
    let mut i: usize = 0;
    while i < snapshot.len()
        invariant
            i <= snapshot@.len(),
            net@.wf(),
            out@ == net_answers(net@, snapshot@, i as int),
        decreases snapshot@.len() - i,
    {
        let e = snapshot[i];
        let mask: Option<u32> = match e.target {
            PollTarget::Socket(id) => match net.socket_get(id) {
                Some(obj) => {
                    proof {
                        assert(handles_in(obj@, net@.socks)) by {
                            if let Some(h) = obj@.handle {
                                assert(net@.uses(h, Place::Stream(id as int)));
                            }
                            assert forall|k: int| 0 <= k < obj@.backlog.len() implies net@.socks.contains_key(
                                #[trigger] obj@.backlog[k],
                            ) by {
                                assert(net@.uses(obj@.backlog[k], Place::Backlog(id as int, k)));
                            }
                        }
                    }
                    Some(readiness(obj, &net.sockets, None))
                },
                None => None,
            },
            PollTarget::Pipe { id, write_end } => match net.pipe_get(id) {
                Some(p) => Some(pipe_readiness(p, write_end)),
                None => None,
            },
            _ => None,
        };
        if let Some(bits) = mask {
            let revents = poll_mask(e.events, bits);
            if revents != 0 {
                out.push(Answer { idx: e.idx, revents });
            }
        }
        i += 1;
    }
    out
}

/// A thread that waits for descriptors.
pub struct PollWait {
    pub snapshot: Vec<PollEntry>,
    pub ptr: u64,
    pub deadline: Option<u64>,
}

/// What a `PollWait` stands for.
#[verifier::ext_equal]
pub struct Asking {
    pub snapshot: Seq<PollEntry>,
    pub ptr: u64,
    pub deadline: Option<u64>,
}

impl View for PollWait {
    type V = Asking;

    open spec fn view(&self) -> Asking {
        Asking { snapshot: self.snapshot@, ptr: self.ptr, deadline: self.deadline }
    }
}

impl Asking {
    /// The answers that there are.
    pub open spec fn answers(self, n: Net) -> Seq<Answer> {
        net_answers(n, self.snapshot, self.snapshot.len() as int)
    }

    /// The memory after the answers were given.
    pub open spec fn given(self, m: Mem, a: Seq<Answer>) -> Mem {
        answered(m, self.ptr, a, a.len() as int)
    }

    /// The questions are numbered, and there is room for the answers.
    pub open spec fn fits(self, m: Mem) -> bool {
        &&& self.snapshot.len() <= POLL_MAX
        &&& self.snapshot.len() > 0 ==> m.reaches(self.ptr, POLLFD_LEN * self.snapshot.len())
        &&& forall|i: int| 0 <= i < self.snapshot.len() ==> (#[trigger] self.snapshot[i]).idx == i
    }
}

/// What a wait for descriptors comes to: a number of answers, or a change of threads.
pub enum PollCall {
    Return(i64),
    Parked(Option<Switch>, PollWait),
}

/// The call that ends like `p`, and goes on like `w`.
pub open spec fn poll_ends(r: PollCall, p: Parking, w: Asking) -> bool {
    match p {
        Parking::Return(v) => r == PollCall::Return(v),
        Parking::Parked(s) => r matches PollCall::Parked(t, x) && t == s && x@ == w,
    }
}

/// What waiting for descriptors comes to, at `now` nanoseconds after boot.
pub open spec fn ask_result(s: Sys, m: Mem, w: Asking, now: u64, q: Seq<Poll>, c: int) -> (Parking, Sys, Mem) {
    let first = if w.answers(s.net).len() == 0 { Wait::Block } else { Wait::Ready(0) };
    let t = after_first(s, first, q, c);
    let a = w.answers(t.net);
    if a.len() > 0 {
        (Parking::Return(a.len() as i64), t, w.given(m, a))
    } else if is_timed_out(w.deadline, now) {
        (Parking::Return(0), t, m)
    } else {
        (parking_of(t, c), parked_sys(t, c, w.deadline is Some), m)
    }
}

/// Waits for descriptors, or goes on waiting.
pub fn poll_on<D: PollDevice, M: Memory>(
    net: &mut NetStateInner<D>,
    sched: &mut Scheduler,
    um: &mut M,
    w: PollWait,
    c: u32,
    clock: &Clock,
    tsc: u64,
) -> (r: PollCall)
    requires
        joint_wf(old(net)@, old(sched)@),
        active(old(sched)@, c as int),
        w@.fits(mem(old(um))),
    ensures
        advanced_at(old(net)@.polls, final(net)@.polls, *clock, tsc),
        ({
            let s = sys(old(net)@, old(sched)@);
            let x = ask_result(s, mem(old(um)), w@, elapsed_ns(*clock, tsc) as u64, final(net)@.polls, c as int);
            &&& poll_ends(r, x.0, w@)
            &&& sys(final(net)@, final(sched)@) == x.1
            &&& mem(final(um)) == x.2
        }),
        joint_wf(final(net)@, final(sched)@),
        r is Return ==> active(final(sched)@, c as int),
{
    let mut a = poll_compute_net_ready(net, w.snapshot.as_slice());
    if a.len() == 0 {
        net.poll_and_wake(sched, c, clock, tsc);
        a = poll_compute_net_ready(net, w.snapshot.as_slice());
    }
    let ghost n = w.snapshot@.len() as int;
    proof {
        lemma_net_belongs(net@, w.snapshot@, n);
    }
    if a.len() > 0 {
        give_answers(um, w.ptr, a.as_slice(), Ghost(n));
        return PollCall::Return(a.len() as i64);
    }
    match net.net_wait(sched, c, w.deadline, monotonic_ns(clock, tsc), 0) {
        Parking::Return(v) => PollCall::Return(v),
        Parking::Parked(s) => PollCall::Parked(s, w),
    }
}

/// What a call asks.
pub open spec fn asking(fds: Seq<Option<FileDescriptor>>, m: Mem, args: &SyscallArgs, clock: Clock, tsc: u64) -> Asking {
    Asking {
        snapshot: questions(fds, m, args.arg0, args.arg1 as int),
        ptr: args.arg0,
        deadline: deadline_of(clock, tsc, args.arg2 as i32),
    }
}

/// What a call to wait for descriptors comes to.
pub open spec fn poll_result(
    fds: Seq<Option<FileDescriptor>>,
    s: Sys,
    m: Mem,
    args: &SyscallArgs,
    clock: Clock,
    tsc: u64,
    q: Seq<Poll>,
    c: int,
) -> (Parking, Sys, Mem) {
    let w = asking(fds, m, args, clock, tsc);
    let m1 = cleared(m, args.arg0, args.arg1 as int);
    if args.arg1 > POLL_MAX {
        (Parking::Return(EINVAL), s, m)
    } else if args.arg1 > 0 && args.arg0 == 0 {
        (Parking::Return(EFAULT), s, m)
    } else if !any_waits(w.snapshot) {
        let a = static_answers(w.snapshot, w.snapshot.len() as int);
        (Parking::Return(a.len() as i64), s, w.given(m1, a))
    } else {
        let t = polled_sys(s, q[s.net.polls.len() as int], c);
        let a = w.answers(t.net);
        if a.len() > 0 || args.arg2 as i32 == 0 {
            (Parking::Return(a.len() as i64), t, w.given(m1, a))
        } else {
            ask_result(t, m1, w, elapsed_ns(clock, tsc) as u64, q, c)
        }
    }
}

/// Waits for descriptors, for as many milliseconds as asked for.
pub fn sys_poll<D: PollDevice, M: Memory>(
    args: &SyscallArgs,
    fds: &FdTable,
    net: &mut NetStateInner<D>,
    sched: &mut Scheduler,
    um: &mut M,
    c: u32,
    clock: &Clock,
    tsc: u64,
) -> (r: PollCall)
    requires
        joint_wf(old(net)@, old(sched)@),
        active(old(sched)@, c as int),
        0 < args.arg1 <= POLL_MAX && args.arg0 != 0 ==> reachable(old(um), args.arg0, POLLFD_LEN * args.arg1),
    ensures
        advanced_at(old(net)@.polls, final(net)@.polls, *clock, tsc),
        ({
            let s = sys(old(net)@, old(sched)@);
            let x = poll_result(fds@, s, mem(old(um)), args, *clock, tsc, final(net)@.polls, c as int);
            &&& poll_ends(r, x.0, asking(fds@, mem(old(um)), args, *clock, tsc))
            &&& sys(final(net)@, final(sched)@) == x.1
            &&& mem(final(um)) == x.2
        }),
        joint_wf(final(net)@, final(sched)@),
        r is Return ==> active(final(sched)@, c as int),
{
    let ptr: u64 = args.arg0;
    let n: u64 = args.arg1;
    let timeout_ms: i32 = #[verifier::truncate]
    (args.arg2 as i32);
    if n > POLL_MAX {
        return PollCall::Return(EINVAL);
    }
    if n > 0 && ptr == 0 {
        return PollCall::Return(EFAULT);
    }
    let ghost m = mem(um);
    let snapshot = poll_snapshot(fds, um, ptr, n);
    let ghost snap = snapshot@;
    proof {
        if n > 0 {
            lemma_cleared(m, ptr, n as int, n as int);
        }
        lemma_static_belongs(snap, n as int);
    }
    let mut waits: bool = false;
    let mut i: usize = 0;
    while i < snapshot.len()
        invariant
            i <= snapshot@.len(),
            waits == exists|k: int| 0 <= k < i && (#[trigger] snapshot@[k]).target.waits(),
        decreases snapshot@.len() - i,
    {
        if snapshot[i].target.needs_net() {
            waits = true;
        }
        i += 1;
    }
    if !waits {
        let a = poll_compute_static_ready(snapshot.as_slice());
        give_answers(um, ptr, a.as_slice(), Ghost(n as int));
        return PollCall::Return(a.len() as i64);
    }
    net.poll_and_wake(sched, c, clock, tsc);
    let a = poll_compute_net_ready(net, snapshot.as_slice());
    proof {
        lemma_net_belongs(net@, snap, n as int);
    }
    if a.len() > 0 || timeout_ms == 0 {
        give_answers(um, ptr, a.as_slice(), Ghost(n as int));
        return PollCall::Return(a.len() as i64);
    }
    let until = deadline(clock, tsc, timeout_ms);
    poll_on(net, sched, um, PollWait { snapshot, ptr, deadline: until }, c, clock, tsc)
}

} // verus!
