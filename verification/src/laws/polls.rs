//! What asking about descriptors answers.

use vstd::prelude::*;

use super::words::{byte_at, u32_at};
use crate::fs::fd_table::{FdKind, FdTable, FileDescriptor};
use crate::memory::access::{from_le32, mem, reachable, Mem, Memory};
use crate::net::device::PollDevice;
use crate::net::pipe::{readiness_of, Pipe, PIPE_CAPACITY};
use crate::net::socket::{flag, ready, Sock, SockRole};
use crate::net::state::{with_waiter, Net, NetStateInner};
use crate::net::stream::{polled_sys, sys};
use crate::sched::scheduler::Scheduler;
use crate::syscall::args::SyscallArgs;
use crate::syscall::handlers::poll::{
    answered, any_waits, asking, bytes16, cleared, masked, net_answer, net_answers, question, questions, static_answer, static_answers,
    sys_poll, Answer, PollCall, PollEntry, PollTarget,
};
use crate::time::Clock;

verus! {

/// What something is ready for.
pub struct Ready {
    pub read: bool,
    pub write: bool,
    pub error: bool,
    pub hung_up: bool,
}

/// A pipe can be read if there is something in it, or there is nobody left to write; it can be written if there is room and
/// somebody to read.
pub open spec fn pipe_is_ready(p: Pipe, write_end: bool) -> Ready {
    Ready {
        read: !write_end && (p.buf.len() > 0 || p.writers == 0),
        write: write_end && p.readers > 0 && p.buf.len() < PIPE_CAPACITY,
        error: write_end && p.readers == 0,
        hung_up: !write_end && p.writers == 0,
    }
}

/// A listener can be read if a connection has arrived. A stream can be read if bytes have arrived, or no more will; and written
/// if there is room and the connection stands.
pub open spec fn socket_is_ready(n: Net, o: Sock) -> Ready {
    let none = Ready { read: false, write: false, error: false, hung_up: false };
    match o.role {
        SockRole::Listener => Ready {
            read: o.pending_loopback.len() > 0 || exists|i: int|
                0 <= i < o.backlog.len() && !(n.socks[#[trigger] o.backlog[i]].state is Listen),
            ..none
        },
        SockRole::Stream => match o.handle {
            None => Ready { hung_up: true, ..none },
            Some(h) => {
                let i = n.socks[h];
                Ready {
                    read: i.rx.len() > 0 || i.state is CloseWait || i.state is LastAck || i.state is Closing || i.state is Closed
                        || i.state is TimeWait,
                    write: i.may_send() && i.tx.len() != i.tx_size,
                    error: false,
                    hung_up: !i.is_active(),
                }
            },
        },
    }
}

/// The answer `rev` to a question for the events `ev`: reading and writing are in it if they were asked for and are possible,
/// errors and hang-ups in any case, and nothing else.
pub open spec fn tells(ev: u16, rev: u16, r: Ready) -> bool {
    &&& rev & 1 != 0 <==> ev & 1 != 0 && r.read
    &&& rev & 4 != 0 <==> ev & 4 != 0 && r.write
    &&& rev & 8 != 0 <==> r.error
    &&& rev & 16 != 0 <==> r.hung_up
    &&& rev & 0xffe2 == 0
}

/// `rev` is the answer to a question for the events `ev` of descriptor `fd`.
pub open spec fn answers_for(fds: Seq<Option<FileDescriptor>>, n: Net, fd: i32, ev: u16, rev: u16) -> bool {
    if fd < 0 {
        rev == 0
    } else if fd >= fds.len() || fds[fd as int] is None {
        rev == 0x20
    } else {
        match (fds[fd as int]->0).kind {
            FdKind::Pipe { id, write_end } => if id < n.pipetab.len() && n.pipetab[id as int] is Some {
                tells(ev, rev, pipe_is_ready(n.pipetab[id as int]->0, write_end))
            } else {
                rev == 0
            },
            FdKind::Socket { id } => if id < n.socktab.len() && n.socktab[id as int] is Some {
                tells(ev, rev, socket_is_ready(n, n.socktab[id as int]->0))
            } else {
                rev == 0
            },
            _ => tells(ev, rev, (Ready { read: true, write: true, error: false, hung_up: false })),
        }
    }
}

/// The descriptor of question `i`, its events, and its answer.
pub open spec fn fd_at<M: Memory>(um: &M, ptr: u64, i: int) -> i32 {
    (u32_at(um, ptr + 8 * i) as u32) as i32
}

pub open spec fn events_at<M: Memory>(um: &M, ptr: u64, i: int) -> u16 {
    (byte_at(um, ptr + 8 * i + 4) + 0x100 * byte_at(um, ptr + 8 * i + 5)) as u16
}

pub open spec fn answer_at<M: Memory>(um: &M, ptr: u64, i: int) -> u16 {
    (byte_at(um, ptr + 8 * i + 6) + 0x100 * byte_at(um, ptr + 8 * i + 7)) as u16
}

/// How many of the first `k` questions have an answer.
pub open spec fn count_answers<M: Memory>(um: &M, ptr: u64, k: int) -> int
    decreases k,
{
    if k <= 0 { 0 } else { count_answers(um, ptr, k - 1) + if answer_at(um, ptr, k - 1) != 0 { 1int } else { 0int } }
}

proof fn lemma_bits(ev: u16, rd: u32)
    ensures
        masked(ev, rd) & 1 != 0 <==> ev & 1 != 0 && rd & 1 != 0,
        masked(ev, rd) & 4 != 0 <==> ev & 4 != 0 && rd & 4 != 0,
        masked(ev, rd) & 8 != 0 <==> rd & 8 != 0,
        masked(ev, rd) & 16 != 0 <==> rd & 16 != 0,
        masked(ev, rd) & 0xffe2 == 0,
{
    let m: u16 = masked(ev, rd);
    assert(m == ((rd & (ev as u32) & 5) | (rd & 0x18)) as u16);
    assert((m & 1 != 0 <==> ev & 1 != 0 && rd & 1 != 0) && (m & 4 != 0 <==> ev & 4 != 0 && rd & 4 != 0) && (m & 8 != 0 <==> rd & 8
        != 0) && (m & 16 != 0 <==> rd & 16 != 0) && m & 0xffe2 == 0) by (bit_vector)
        requires
            m == ((rd & (ev as u32) & 5) | (rd & 0x18)) as u16,
    ;
}

proof fn lemma_plain_bits(ev: u16)
    ensures
        (ev & (1u16 | 4u16)) & 1 != 0 <==> ev & 1 != 0,
        (ev & (1u16 | 4u16)) & 4 != 0 <==> ev & 4 != 0,
        (ev & (1u16 | 4u16)) & 8 == 0,
        (ev & (1u16 | 4u16)) & 16 == 0,
        (ev & (1u16 | 4u16)) & 0xffe2 == 0,
        0u16 & 1 == 0,
        0u16 & 4 == 0,
        0u16 & 8 == 0,
        0u16 & 16 == 0,
        0u16 & 0xffe2 == 0,
{
    assert(((ev & (1u16 | 4u16)) & 1 != 0 <==> ev & 1 != 0) && ((ev & (1u16 | 4u16)) & 4 != 0 <==> ev & 4 != 0) && (ev & (1u16 | 4u16)) & 8 == 0 && (ev & (1u16
        | 4u16)) & 16 == 0 && (ev & (1u16 | 4u16)) & 0xffe2 == 0 && 0u16 & 1 == 0 && 0u16 & 4 == 0 && 0u16 & 8 == 0 && 0u16 & 16 == 0 && 0u16 & 0xffe2
        == 0) by (bit_vector);
}

pub proof fn lemma_flags(a: bool, b: bool, c: bool)
    ensures
        ({
            let r = flag(a, 1) | flag(b, 4) | flag(c, 16);
            &&& r & 1 != 0 <==> a
            &&& r & 4 != 0 <==> b
            &&& r & 8 == 0
            &&& r & 16 != 0 <==> c
        }),
        1u32 & 1 != 0 && 1u32 & 4 == 0 && 1u32 & 8 == 0 && 1u32 & 16 == 0,
        4u32 & 1 == 0 && 4u32 & 4 != 0 && 4u32 & 8 == 0 && 4u32 & 16 == 0,
        8u32 & 1 == 0 && 8u32 & 4 == 0 && 8u32 & 8 != 0 && 8u32 & 16 == 0,
        16u32 & 1 == 0 && 16u32 & 4 == 0 && 16u32 & 8 == 0 && 16u32 & 16 != 0,
        0u32 & 1 == 0 && 0u32 & 4 == 0 && 0u32 & 8 == 0 && 0u32 & 16 == 0,
        (1u32 | 16) & 1 != 0 && (1u32 | 16) & 4 == 0 && (1u32 | 16) & 8 == 0 && (1u32 | 16) & 16 != 0,
{
    let x = flag(a, 1);
    let y = flag(b, 4);
    let z = flag(c, 16);
    assert(((x | y | z) & 1 != 0 <==> x == 1) && ((x | y | z) & 4 != 0 <==> y == 4) && (x | y | z) & 8 == 0 && ((x | y | z) & 16 != 0 <==> z
        == 16)) by (bit_vector)
        requires
            x == 0 || x == 1,
            y == 0 || y == 4,
            z == 0 || z == 16,
    ;
    assert(1u32 & 1 != 0 && 1u32 & 4 == 0 && 1u32 & 8 == 0 && 1u32 & 16 == 0 && 4u32 & 1 == 0 && 4u32 & 4 != 0 && 4u32 & 8 == 0 && 4u32 & 16
        == 0 && 8u32 & 1 == 0 && 8u32 & 4 == 0 && 8u32 & 8 != 0 && 8u32 & 16 == 0 && 16u32 & 1 == 0 && 16u32 & 4 == 0 && 16u32 & 8 == 0
        && 16u32 & 16 != 0 && 0u32 & 1 == 0 && 0u32 & 4 == 0 && 0u32 & 8 == 0 && 0u32 & 16 == 0 && (1u32 | 16) & 1 != 0 && (1u32 | 16) & 4
        == 0 && (1u32 | 16) & 8 == 0 && (1u32 | 16) & 16 != 0) by (bit_vector);
}

/// The answer that a question gets, or 0.
spec fn whole(n: Net, e: PollEntry) -> u16 {
    match static_answer(e) {
        Some(v) => v,
        None => match net_answer(n, e) {
            Some(v) => v,
            None => 0,
        },
    }
}

spec fn still(e: PollEntry) -> u16 {
    match static_answer(e) {
        Some(v) => v,
        None => 0,
    }
}

proof fn lemma_right(fds: Seq<Option<FileDescriptor>>, n: Net, e: PollEntry, fd: i32)
    requires
        e.target == crate::syscall::handlers::poll::target_of(fds, fd),
    ensures
        answers_for(fds, n, fd, e.events, whole(n, e)),
{
    lemma_plain_bits(e.events);
    lemma_flags(true, true, true);
    match e.target {
        PollTarget::Pipe { id, write_end } => {
            if let Some(p) = n.pipe(id as int) {
                lemma_bits(e.events, readiness_of(p, write_end));
            }
        },
        PollTarget::Socket(id) => {
            if let Some(o) = n.sock(id as int) {
                lemma_bits(e.events, ready(o, n.socks, None));
                if let Some(h) = o.handle {
                    let i = n.socks[h];
                    lemma_flags(
                        i.rx.len() > 0 || crate::net::socket::is_peer_closed(i.state),
                        i.may_send() && i.tx.len() != i.tx_size,
                        !i.is_active(),
                    );
                }
            }
        },
        _ => {},
    }
}

spec fn answer_in(m: Mem, ptr: u64, i: int) -> u16 {
    (m.bytes[ptr + 8 * i + 6 - m.base] + 0x100 * m.bytes[ptr + 8 * i + 7 - m.base]) as u16
}

spec fn is_answer_byte(ptr: u64, n: int, a: int) -> bool {
    ptr <= a < ptr + 8 * n && (a - ptr) % 8 >= 6
}

/// Only answers differ.
spec fn only_answers(m: Mem, w: Mem, ptr: u64, n: int) -> bool {
    &&& w.base == m.base
    &&& w.bytes.len() == m.bytes.len()
    &&& forall|j: int| 0 <= j < m.bytes.len() && !is_answer_byte(ptr, n, m.base + j) ==> #[trigger] w.bytes[j] == m.bytes[j]
}

proof fn lemma_put(m: Mem, ptr: u64, n: int, i: int, v: u16)
    requires
        0 <= i < n,
        m.reaches(ptr, 8 * n),
    ensures
        ({
            let w = m.stored(ptr + 8 * i + 6, bytes16(v));
            &&& only_answers(m, w, ptr, n)
            &&& answer_in(w, ptr, i) == v
            &&& forall|j: int| 0 <= j < n && j != i ==> #[trigger] answer_in(w, ptr, j) == answer_in(m, ptr, j)
        }),
{
    let w = m.stored(ptr + 8 * i + 6, bytes16(v));
    let b = bytes16(v);
    assert(w.bytes[ptr + 8 * i + 6 - m.base] == b[0]);
    assert(w.bytes[ptr + 8 * i + 7 - m.base] == b[1]);
    assert((v % 0x100) + 0x100 * (v / 0x100) == v);
    assert forall|j: int| 0 <= j < m.bytes.len() && !is_answer_byte(ptr, n, m.base + j) implies #[trigger] w.bytes[j] == m.bytes[j] by {
        if ptr + 8 * i + 6 <= m.base + j < ptr + 8 * i + 8 {
            let a = m.base + j - ptr;
            assert(a == 8 * i + 6 || a == 8 * i + 7);
            assert(a % 8 >= 6);
        }
    }
}

proof fn lemma_zeroed(m: Mem, ptr: u64, n: int, k: int)
    requires
        0 <= k <= n,
        m.reaches(ptr, 8 * n),
    ensures
        only_answers(m, cleared(m, ptr, k), ptr, n),
        forall|j: int| 0 <= j < k ==> #[trigger] answer_in(cleared(m, ptr, k), ptr, j) == 0,
    decreases k,
{
    if k > 0 {
        lemma_zeroed(m, ptr, n, k - 1);
        lemma_put(cleared(m, ptr, k - 1), ptr, n, k - 1, 0);
    }
}

proof fn lemma_prefix(m: Mem, ptr: u64, a: Seq<Answer>, b: Answer, k: int)
    requires
        0 <= k <= a.len(),
    ensures
        answered(m, ptr, a.push(b), k) == answered(m, ptr, a, k),
    decreases k,
{
    if k > 0 {
        lemma_prefix(m, ptr, a, b, k - 1);
        assert(a.push(b)[k - 1] == a[k - 1]);
    }
}

/// How many of the first `k` values are not 0.
spec fn count_set(f: spec_fn(int) -> u16, k: int) -> int
    decreases k,
{
    if k <= 0 { 0 } else { count_set(f, k - 1) + if f(k - 1) != 0 { 1int } else { 0int } }
}

proof fn lemma_same_count(f: spec_fn(int) -> u16, g: spec_fn(int) -> u16, k: int)
    requires
        forall|i: int| 0 <= i < k ==> #[trigger] f(i) == g(i),
    ensures
        count_set(f, k) == count_set(g, k),
    decreases k,
{
    if k > 0 {
        lemma_same_count(f, g, k - 1);
    }
}

proof fn lemma_more(f: spec_fn(int) -> u16, g: spec_fn(int) -> u16, k: int, i: int)
    requires
        0 <= i < k,
        forall|j: int| 0 <= j < k && j != i ==> #[trigger] f(j) == g(j),
        f(i) == 0,
    ensures
        count_set(g, k) == count_set(f, k) + if g(i) != 0 { 1int } else { 0int },
    decreases k,
{
    if i == k - 1 {
        lemma_same_count(f, g, k - 1);
    } else {
        lemma_more(f, g, k - 1, i);
    }
}

proof fn lemma_static(m: Mem, ptr: u64, snap: Seq<PollEntry>, k: int)
    requires
        0 <= k <= snap.len(),
        m.reaches(ptr, (8 * snap.len()) as int),
        forall|i: int| 0 <= i < snap.len() ==> (#[trigger] snap[i]).idx == i,
        forall|j: int| 0 <= j < snap.len() ==> #[trigger] answer_in(m, ptr, j) == 0,
    ensures
        ({
            let a = static_answers(snap, k);
            let w = answered(m, ptr, a, a.len() as int);
            &&& only_answers(m, w, ptr, snap.len() as int)
            &&& forall|j: int| 0 <= j < snap.len() ==> #[trigger] answer_in(w, ptr, j) == (if j < k { still(snap[j]) } else { 0 })
            &&& a.len() == count_set(|j: int| if j < k { still(snap[j]) } else { 0u16 }, snap.len() as int)
        }),
    decreases k,
{
    let g = |j: int| if j < k { still(snap[j]) } else { 0u16 };
    if k <= 0 {
        lemma_none(g, snap.len() as int);
    } else {
        lemma_static(m, ptr, snap, k - 1);
        let f = |j: int| if j < k - 1 { still(snap[j]) } else { 0u16 };
        lemma_more(f, g, snap.len() as int, k - 1);
        let a = static_answers(snap, k - 1);
        lemma_plain_bits(snap[k - 1].events);
        if let Some(v) = static_answer(snap[k - 1]) {
            let b = Answer { idx: snap[k - 1].idx, revents: v };
            lemma_prefix(m, ptr, a, b, a.len() as int);
            let w = answered(m, ptr, a, a.len() as int);
            lemma_put(w, ptr, snap.len() as int, k - 1, v);
            assert(a.push(b)[a.len() as int] == b);
            assert(answered(m, ptr, a.push(b), (a.len() + 1) as int) == w.stored(ptr + 8 * (k - 1) + 6, bytes16(v)));
        }
    }
}

proof fn lemma_none(f: spec_fn(int) -> u16, k: int)
    requires
        forall|i: int| 0 <= i < k ==> #[trigger] f(i) == 0,
    ensures
        count_set(f, k) == 0,
    decreases k,
{
    if k > 0 {
        lemma_none(f, k - 1);
    }
}

proof fn lemma_net(m: Mem, ptr: u64, n: Net, snap: Seq<PollEntry>, k: int)
    requires
        0 <= k <= snap.len(),
        m.reaches(ptr, (8 * snap.len()) as int),
        forall|i: int| 0 <= i < snap.len() ==> (#[trigger] snap[i]).idx == i,
        forall|j: int| 0 <= j < snap.len() ==> #[trigger] answer_in(m, ptr, j) == 0,
    ensures
        ({
            let a = net_answers(n, snap, k);
            let w = answered(m, ptr, a, a.len() as int);
            &&& only_answers(m, w, ptr, snap.len() as int)
            &&& forall|j: int|
                0 <= j < snap.len() ==> #[trigger] answer_in(w, ptr, j) == (if j < k { whole(n, snap[j]) } else { still(snap[j]) })
            &&& a.len() == count_set(|j: int| if j < k { whole(n, snap[j]) } else { still(snap[j]) }, snap.len() as int)
        }),
    decreases k,
{
    let g = |j: int| if j < k { whole(n, snap[j]) } else { still(snap[j]) };
    if k <= 0 {
        lemma_static(m, ptr, snap, snap.len() as int);
        lemma_same_count(|j: int| if j < snap.len() { still(snap[j]) } else { 0u16 }, g, snap.len() as int);
    } else {
        lemma_net(m, ptr, n, snap, k - 1);
        let f = |j: int| if j < k - 1 { whole(n, snap[j]) } else { still(snap[j]) };
        let a = net_answers(n, snap, k - 1);
        if let Some(v) = net_answer(n, snap[k - 1]) {
            lemma_more(f, g, snap.len() as int, k - 1);
            let b = Answer { idx: snap[k - 1].idx, revents: v };
            lemma_prefix(m, ptr, a, b, a.len() as int);
            let w = answered(m, ptr, a, a.len() as int);
            lemma_put(w, ptr, snap.len() as int, k - 1, v);
            assert(a.push(b)[a.len() as int] == b);
            assert(answered(m, ptr, a.push(b), (a.len() + 1) as int) == w.stored(ptr + 8 * (k - 1) + 6, bytes16(v)));
        } else {
            lemma_same_count(f, g, snap.len() as int);
        }
    }
}

proof fn lemma_counted<M: Memory>(um: &M, ptr: u64, f: spec_fn(int) -> u16, k: int)
    requires
        forall|j: int| 0 <= j < k ==> #[trigger] f(j) == answer_at(um, ptr, j),
    ensures
        count_answers(um, ptr, k) == count_set(f, k),
    decreases k,
{
    if k > 0 {
        lemma_counted(um, ptr, f, k - 1);
        assert(f(k - 1) == answer_at(um, ptr, k - 1));
    }
}

/// A call that asks about descriptors and returns has answered every question as things now stand, and says how many have an
/// answer. Nothing in memory but the answers has changed.
pub proof fn law_poll_answers<D: PollDevice, M: Memory>(
    args: &SyscallArgs,
    fds: &FdTable,
    net: &mut NetStateInner<D>,
    sched: &mut Scheduler,
    um: &mut M,
    c: u32,
    clock: &Clock,
    tsc: u64,
    r: PollCall,
)
    requires
        call_ensures(sys_poll::<D, M>, (args, fds, net, sched, um, c, clock, tsc), r),
        0 < args.arg1 <= 256,
        args.arg0 != 0,
        reachable(old(um), args.arg0, 8 * args.arg1),
        r is Return,
    ensures
        r == PollCall::Return(count_answers(final(um), args.arg0, args.arg1 as int) as i64),
        forall|i: int|
            #![trigger answer_at(final(um), args.arg0, i)]
            0 <= i < args.arg1 ==> answers_for(
                fds@,
                final(net)@,
                fd_at(old(um), args.arg0, i),
                events_at(old(um), args.arg0, i),
                answer_at(final(um), args.arg0, i),
            ),
        final(um).base() == old(um).base() && final(um).bytes().len() == old(um).bytes().len(),
        forall|a: int|
            #![trigger final(um).bytes()[a]]
            0 <= a < old(um).bytes().len() && !(args.arg0 <= old(um).base() + a < args.arg0 + 8 * args.arg1 && (old(um).base() + a
                - args.arg0) % 8 >= 6) ==> final(um).bytes()[a] == old(um).bytes()[a],
{
    let ptr = args.arg0;
    let k = args.arg1 as int;
    let m = mem(old(um));
    let m1 = cleared(m, ptr, k);
    let w = mem(final(um));
    let n = final(net)@;
    let snap = questions(fds@, m, ptr, k);
    assert(asking(fds@, m, args, *clock, tsc).snapshot == snap);
    lemma_zeroed(m, ptr, k, k);
    lemma_net(m1, ptr, n, snap, k);
    lemma_static(m1, ptr, snap, k);
    let a = net_answers(n, snap, k);
    let g = |j: int| if j < k { whole(n, snap[j]) } else { still(snap[j]) };
    if !any_waits(snap) {
        assert forall|j: int| 0 <= j < k implies #[trigger] whole(n, snap[j]) == still(snap[j]) by {
            assert(!snap[j].target.waits());
        }
        lemma_same_count(|j: int| if j < k { still(snap[j]) } else { 0u16 }, g, k);
    } else {
        assert(a.len() == 0 ==> w == m1);
        assert(w == answered(m1, ptr, a, a.len() as int));
    }
    assert forall|i: int| 0 <= i < k implies #[trigger] answer_at(final(um), ptr, i) == whole(n, snap[i]) by {
        assert(answer_in(w, ptr, i) == whole(n, snap[i]));
        assert(ptr + 8 * i + 6 - w.base == ptr + 8 * i + 6 - final(um).base());
    }
    lemma_counted(final(um), ptr, g, k);
    assert forall|i: int|
        #![trigger answer_at(final(um), ptr, i)]
        0 <= i < k implies answers_for(fds@, n, fd_at(old(um), ptr, i), events_at(old(um), ptr, i), answer_at(final(um), ptr, i)) by {
        let at = ptr + 8 * i;
        let s = m.range(at, 4);
        let e = m.range(at + 4, 2);
        assert(s[0] == m.bytes[at - m.base] && s[1] == m.bytes[at + 1 - m.base] && s[2] == m.bytes[at + 2 - m.base] && s[3]
            == m.bytes[at + 3 - m.base]);
        assert(e[0] == m.bytes[at + 4 - m.base] && e[1] == m.bytes[at + 5 - m.base]);
        assert(u32_at(old(um), at) == from_le32(s));
        assert(events_at(old(um), ptr, i) == snap[i].events);
        lemma_right(fds@, n, snap[i], fd_at(old(um), ptr, i));
    }
}

proof fn lemma_nothing_set(f: spec_fn(int) -> u16, k: int, i: int)
    requires
        count_set(f, k) == 0,
        0 <= i < k,
    ensures
        f(i) == 0,
    decreases k,
{
    lemma_count_positive(f, k - 1);
    if i < k - 1 {
        lemma_nothing_set(f, k - 1, i);
    }
}

proof fn lemma_count_positive(f: spec_fn(int) -> u16, k: int)
    ensures
        count_set(f, k) >= 0,
    decreases k,
{
    if k > 0 {
        lemma_count_positive(f, k - 1);
    }
}

/// A call that asks about descriptors waits only if it may wait, and no question has an answer yet.
pub proof fn law_poll_waits_for_an_answer<D: PollDevice, M: Memory>(
    args: &SyscallArgs,
    fds: &FdTable,
    net: &mut NetStateInner<D>,
    sched: &mut Scheduler,
    um: &mut M,
    c: u32,
    clock: &Clock,
    tsc: u64,
    r: PollCall,
)
    requires
        call_ensures(sys_poll::<D, M>, (args, fds, net, sched, um, c, clock, tsc), r),
        0 < args.arg1 <= 256,
        args.arg0 != 0,
        reachable(old(um), args.arg0, 8 * args.arg1),
        r is Parked,
    ensures
        args.arg2 as i32 != 0,
        forall|i: int|
            #![trigger fd_at(old(um), args.arg0, i)]
            0 <= i < args.arg1 ==> answers_for(
                fds@,
                final(net)@,
                fd_at(old(um), args.arg0, i),
                events_at(old(um), args.arg0, i),
                0,
            ),
{
    let ptr = args.arg0;
    let k = args.arg1 as int;
    let m = mem(old(um));
    let m1 = cleared(m, ptr, k);
    let n = final(net)@;
    let snap = questions(fds@, m, ptr, k);
    let w = asking(fds@, m, args, *clock, tsc);
    assert(w.snapshot == snap);
    let s = sys(old(net)@, old(sched)@);
    let q = final(net)@.polls;
    let t1 = polled_sys(s, q[s.net.polls.len() as int], c as int);
    let t2 = polled_sys(t1, q[t1.net.polls.len() as int], c as int);
    assert(w.answers(t1.net).len() == 0);
    assert(w.answers(t2.net).len() == 0);
    assert(n == with_waiter(t2.net, t2.sched.cpus[c as int].current->0, w.deadline is Some));
    lemma_zeroed(m, ptr, k, k);
    lemma_net(m1, ptr, t2.net, snap, k);
    let g = |j: int| if j < k { whole(t2.net, snap[j]) } else { still(snap[j]) };
    assert forall|i: int|
        #![trigger fd_at(old(um), args.arg0, i)]
        0 <= i < k implies answers_for(fds@, n, fd_at(old(um), ptr, i), events_at(old(um), ptr, i), 0) by {
        lemma_nothing_set(g, k, i);
        let at = ptr + 8 * i;
        let b = m.range(at, 4);
        let e = m.range(at + 4, 2);
        assert(b[0] == m.bytes[at - m.base] && b[1] == m.bytes[at + 1 - m.base] && b[2] == m.bytes[at + 2 - m.base] && b[3]
            == m.bytes[at + 3 - m.base]);
        assert(e[0] == m.bytes[at + 4 - m.base] && e[1] == m.bytes[at + 5 - m.base]);
        assert(u32_at(old(um), at) == from_le32(b));
        assert(events_at(old(um), ptr, i) == snap[i].events);
        lemma_right(fds@, n, snap[i], fd_at(old(um), ptr, i));
        assert(whole(n, snap[i]) == whole(t2.net, snap[i]));
    }
}

} // verus!
