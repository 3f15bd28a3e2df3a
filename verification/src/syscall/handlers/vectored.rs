//! Transfers with several buffers, which an array in the user's memory describes.

use vstd::prelude::*;

use crate::memory::access::{mem, reachable, read_u64, Mem, Memory};
use crate::net::device::{Poll, PollDevice};
use crate::net::state::{advanced_at, joint_wf, NetStateInner};
use crate::net::stream::{
    attempted, extends, lemma_started_log, lemma_waited_log, polled_sys, resume, start, started, sys, waited,
    Outcome, StreamOp, Sys,
};
use crate::sched::scheduler::{active, Parking, Scheduler};
use crate::syscall::blocking::{Again, Call, Gather};
use crate::syscall::errno::{EBADF, EFAULT};
use crate::time::Clock;

verus! {

broadcast use crate::net::state::group_advanced;

/// The address of buffer `i`.
pub open spec fn iov_base(m: Mem, iov: u64, i: int) -> u64 {
    m.word(iov + 16 * i)
}

/// The length of buffer `i`.
pub open spec fn iov_len(m: Mem, iov: u64, i: int) -> u64 {
    m.word(iov + 16 * i + 8)
}

/// The descriptions of `count` buffers can be read.
pub open spec fn iov_readable(m: Mem, iov: u64, count: u64) -> bool {
    count > 0 ==> m.reaches(iov, 16 * count)
}

/// Reads the address and the length of buffer `i`.
pub fn read_iovec<M: Memory>(um: &M, iov: u64, i: u64) -> (r: (u64, u64))
    requires
        mem(um).reaches(iov, 16 * i + 16),
    ensures
        r.0 == iov_base(mem(um), iov, i as int),
        r.1 == iov_len(mem(um), iov, i as int),
{
    let base = read_u64(um, iov + i * 16);
    let len = read_u64(um, iov + i * 16 + 8);
    (base, len)
}

/// Every buffer with something in it can be read and written. Those that are filled lie
/// apart from their descriptions.
pub open spec fn buffers_ok(m: Mem, g: Gather, iov: u64, count: u64) -> bool {
    forall|i: int|
        0 <= i < count ==> {
            let base = #[trigger] iov_base(m, iov, i);
            let len = iov_len(m, iov, i);
            len > 0 && !(g is Socket && base == 0) ==> m.reaches(base, len as int) && (g is Recv ==> base + len <= iov || iov + 16
                * count <= base)
        }
}

/// The transfer of one buffer.
pub open spec fn chunk_op(g: Gather, addr: u64, len: u64) -> StreamOp {
    match g {
        Gather::Send { id, .. } => StreamOp::Send { id, addr, len },
        Gather::Recv { id, .. } => StreamOp::Recv { id, addr, len },
        Gather::Socket { id } => StreamOp::Send { id, addr, len },
        Gather::Pipe { id, .. } => StreamOp::PipeWrite { id, addr, len },
    }
}

/// What the transfer of one buffer, after `total` bytes, comes to. Once bytes of a message, or to a pipe, have been
/// moved it does not wait for more.
pub open spec fn chunk_started(s: Sys, m: Mem, g: Gather, addr: u64, len: u64, total: i64, q: Seq<Poll>, c: int) -> Outcome {
    let op = chunk_op(g, addr, len);
    match g {
        Gather::Send { nonblocking, .. } => started(s, m, op, nonblocking || total > 0, q, c),
        Gather::Recv { nonblocking, .. } => started(s, m, op, nonblocking || total > 0, q, c),
        Gather::Pipe { nonblocking, .. } => started(s, m, op, nonblocking || total > 0, q, c),
        Gather::Socket { id } => if addr == 0 {
            Outcome { ret: Parking::Return(EFAULT), sys: s, mem: m }
        } else {
            match s.net.sock(id as int) {
                None => Outcome { ret: Parking::Return(EBADF), sys: s, mem: m },
                Some(o) => started(s, m, op, o.nonblocking, q, c),
            }
        },
    }
}

/// The sum of two numbers of bytes, modulo the size of a word.
pub open spec fn summed(a: i64, b: i64) -> i64 {
    a.wrapping_add(b)
}

/// The result of the whole, if it ends after the transfer of a buffer of `len` bytes gave `n`.
pub open spec fn chunk_end(g: Gather, len: u64, total: i64, n: i64) -> Option<i64> {
    if n < 0 {
        Some(if total > 0 { total } else { n })
    } else if g is Recv && n == 0 {
        Some(total)
    } else if (n as u64) < len {
        Some(summed(total, n))
    } else {
        None
    }
}

/// What the transfers from buffer `i` on come to, after `total` bytes.
pub open spec fn gathered(s: Sys, m: Mem, g: Gather, iov: u64, count: u64, i: int, total: i64, q: Seq<Poll>, c: int) -> (
    Call,
    Sys,
    Mem,
)
    decreases count - i,
{
    if i >= count || i < 0 {
        (Call::Return(total), s, m)
    } else {
        let addr = iov_base(m, iov, i);
        let len = iov_len(m, iov, i);
        if len == 0 {
            gathered(s, m, g, iov, count, i + 1, total, q, c)
        } else {
            let o = chunk_started(s, m, g, addr, len, total, q, c);
            match o.ret {
                Parking::Parked(w) => (
                    Call::Parked(w, Again::Gather { gather: g, iov, count, index: i as u64, addr, len, total }),
                    o.sys,
                    o.mem,
                ),
                Parking::Return(n) => match chunk_end(g, len, total, n) {
                    Some(r) => (Call::Return(r), o.sys, o.mem),
                    None => gathered(o.sys, o.mem, g, iov, count, i + 1, summed(total, n), q, c),
                },
            }
        }
    }
}

/// Every buffer that the transfers from buffer `i` on come to can be read and written. What a transfer fills may hold the
/// descriptions of later buffers, which then say what it filled them with.
pub open spec fn buffers_met(s: Sys, m: Mem, g: Gather, iov: u64, count: u64, i: int, total: i64, q: Seq<Poll>, c: int) -> bool
    decreases count - i,
{
    if i >= count || i < 0 {
        true
    } else {
        let addr = iov_base(m, iov, i);
        let len = iov_len(m, iov, i);
        if len == 0 {
            buffers_met(s, m, g, iov, count, i + 1, total, q, c)
        } else {
            let o = chunk_started(s, m, g, addr, len, total, q, c);
            &&& !(g is Socket && addr == 0) ==> m.reaches(addr, len as int)
            &&& o.ret matches Parking::Return(n) ==> (chunk_end(g, len, total, n) is None ==> buffers_met(
                o.sys,
                o.mem,
                g,
                iov,
                count,
                i + 1,
                summed(total, n),
                q,
                c,
            ))
        }
    }
}

/// Whatever comes of moving packets, the buffers that the transfers from buffer `i` on come to can be read and written.
pub open spec fn usable(s: Sys, m: Mem, g: Gather, iov: u64, count: u64, i: int, total: i64, c: int) -> bool {
    &&& iov_readable(m, iov, count)
    &&& forall|q: Seq<Poll>| #[trigger]
        extends(q, s.net.polls) ==> buffers_met(s, m, g, iov, count, i, total, q, c)
}

/// What the transfers come to, from buffer `i` on, whose thread has waited for it.
pub open spec fn gather_resumed(s: Sys, m: Mem, g: Gather, iov: u64, count: u64, i: int, addr: u64, len: u64, total: i64, q: Seq<Poll>, c: int) -> (
    Call,
    Sys,
    Mem,
) {
    let o = waited(s, m, chunk_op(g, addr, len), q, c);
    match o.ret {
        Parking::Parked(w) => (
            Call::Parked(w, Again::Gather { gather: g, iov, count, index: i as u64, addr, len, total }),
            o.sys,
            o.mem,
        ),
        Parking::Return(n) => match chunk_end(g, len, total, n) {
            Some(r) => (Call::Return(r), o.sys, o.mem),
            None => gathered(o.sys, o.mem, g, iov, count, i + 1, summed(total, n), q, c),
        },
    }
}

/// Whatever comes of moving packets, the buffers that the transfers come to, from buffer `i` on, whose thread has waited for
/// it, can be read and written.
pub open spec fn usable_again(s: Sys, m: Mem, g: Gather, iov: u64, count: u64, i: int, addr: u64, len: u64, total: i64, c: int) -> bool {
    &&& iov_readable(m, iov, count)
    &&& m.reaches(addr, len as int)
    &&& forall|q: Seq<Poll>| #[trigger]
        extends(q, s.net.polls) ==> {
            let o = waited(s, m, chunk_op(g, addr, len), q, c);
            o.ret matches Parking::Return(n) ==> (chunk_end(g, len, total, n) is None ==> buffers_met(
                o.sys,
                o.mem,
                g,
                iov,
                count,
                i + 1,
                summed(total, n),
                q,
                c,
            ))
        }
}

/// The memories differ in the `n` bytes from `addr` up at most.
pub open spec fn same_but(a: Mem, b: Mem, addr: int, n: int) -> bool {
    &&& a.base == b.base
    &&& a.bytes.len() == b.bytes.len()
    &&& forall|k: int| 0 <= k < a.bytes.len() && !(addr <= a.base + k < addr + n) ==> #[trigger] b.bytes[k] == a.bytes[k]
}

/// A transfer changes no more of the user's memory than the buffer that it fills.
proof fn lemma_attempt_mem(s: Sys, m: Mem, op: StreamOp, p: Poll, c: int)
    ensures
        ({
            let a = attempted(s, m, op, p, c);
            &&& a.out.len() <= op.size()
            &&& op is Send || op is PipeWrite ==> a.out.len() == 0
        }),
{
}

proof fn lemma_waited_mem(s: Sys, m: Mem, op: StreamOp, q: Seq<Poll>, c: int)
    ensures
        same_but(m, waited(s, m, op, q, c).mem, op.at() as int, if op is Send || op is PipeWrite { 0 } else { op.size() as int }),
{
    let k = s.net.polls.len() as int;
    lemma_attempt_mem(s, m, op, q[k], c);
    let a = attempted(s, m, op, q[k], c);
    let j = a.sys.net.polls.len() as int;
    lemma_attempt_mem(polled_sys(a.sys, q[j], c), m, op, q[j + 1], c);
}

proof fn lemma_started_mem(s: Sys, m: Mem, op: StreamOp, nonblocking: bool, q: Seq<Poll>, c: int)
    ensures
        same_but(
            m,
            started(s, m, op, nonblocking, q, c).mem,
            op.at() as int,
            if op is Send || op is PipeWrite { 0 } else { op.size() as int },
        ),
{
    let k = s.net.polls.len() as int;
    lemma_attempt_mem(s, m, op, q[k], c);
    let a = attempted(s, m, op, q[k], c);
    lemma_waited_mem(s, m, op, q, c);
    lemma_waited_mem(a.sys, m, op, q, c);
}

/// Descriptions of buffers that lie apart from what changes stay as they are.
pub proof fn lemma_iov_kept(a: Mem, b: Mem, g: Gather, iov: u64, count: u64, addr: int, n: int)
    requires
        same_but(a, b, addr, n),
        iov_readable(a, iov, count),
        buffers_ok(a, g, iov, count),
        n == 0 || addr + n <= iov || iov + 16 * count <= addr,
    ensures
        iov_readable(b, iov, count),
        buffers_ok(b, g, iov, count),
        forall|i: int| 0 <= i < count ==> #[trigger] iov_base(b, iov, i) == iov_base(a, iov, i) && iov_len(b, iov, i) == iov_len(
            a,
            iov,
            i,
        ),
{
    assert forall|i: int| 0 <= i < count implies #[trigger] iov_base(b, iov, i) == iov_base(a, iov, i) && iov_len(b, iov, i)
        == iov_len(a, iov, i) by {
        assert(b.range(iov + 16 * i, 8) =~= a.range(iov + 16 * i, 8));
        assert(b.range(iov + 16 * i + 8, 8) =~= a.range(iov + 16 * i + 8, 8));
    }
    assert forall|i: int| 0 <= i < count implies ({
        let base = #[trigger] iov_base(b, iov, i);
        let len = iov_len(b, iov, i);
        len > 0 && !(g is Socket && base == 0) ==> b.reaches(base, len as int) && (g is Recv ==> base + len <= iov || iov + 16 * count
            <= base)
    }) by {
        assert(iov_base(a, iov, i) == iov_base(b, iov, i));
    }
}

/// Buffers that can all be read and written, and lie apart from their descriptions where they are filled, are usable.
pub proof fn lemma_apart_is_usable(s: Sys, m: Mem, g: Gather, iov: u64, count: u64, i: int, total: i64, q: Seq<Poll>, c: int)
    requires
        0 <= i,
        iov_readable(m, iov, count),
        buffers_ok(m, g, iov, count),
    ensures
        buffers_met(s, m, g, iov, count, i, total, q, c),
    decreases count - i,
{
    if i < count {
        let addr = iov_base(m, iov, i);
        let len = iov_len(m, iov, i);
        if len == 0 {
            lemma_apart_is_usable(s, m, g, iov, count, i + 1, total, q, c);
        } else {
            let o = chunk_started(s, m, g, addr, len, total, q, c);
            let n = if g is Recv { len as int } else { 0 };
            let nonblocking = match g {
                Gather::Send { nonblocking, .. } => nonblocking || total > 0,
                Gather::Recv { nonblocking, .. } => nonblocking || total > 0,
                Gather::Pipe { nonblocking, .. } => nonblocking || total > 0,
                Gather::Socket { id } => s.net.sock(id as int) matches Some(x) && x.nonblocking,
            };
            lemma_started_mem(s, m, chunk_op(g, addr, len), nonblocking, q, c);
            assert(same_but(m, o.mem, addr as int, n));
            lemma_iov_kept(m, o.mem, g, iov, count, addr as int, n);
            if let Parking::Return(k) = o.ret {
                lemma_apart_is_usable(o.sys, o.mem, g, iov, count, i + 1, summed(total, k), q, c);
            }
        }
    }
}

/// Begins the transfer of one buffer.
fn start_chunk<D: PollDevice, M: Memory>(
    net: &mut NetStateInner<D>,
    sched: &mut Scheduler,
    um: &mut M,
    g: Gather,
    addr: u64,
    len: u64,
    total: i64,
    c: u32,
    clock: &Clock,
    tsc: u64,
) -> (r: Parking)
    requires
        joint_wf(old(net)@, old(sched)@),
        active(old(sched)@, c as int),
        !(g is Socket && addr == 0) ==> reachable(old(um), addr, len as int),
    ensures
        advanced_at(old(net)@.polls, final(net)@.polls, *clock, tsc),
        ({
            let s = sys(old(net)@, old(sched)@);
            let o = chunk_started(s, mem(old(um)), g, addr, len, total, final(net)@.polls, c as int);
            &&& r == o.ret
            &&& sys(final(net)@, final(sched)@) == o.sys
            &&& mem(final(um)) == o.mem
            &&& extends(final(net)@.polls, old(net)@.polls)
            &&& forall|q: Seq<Poll>| #[trigger]
                extends(q, final(net)@.polls) ==> chunk_started(s, mem(old(um)), g, addr, len, total, q, c as int) == o
            &&& same_but(mem(old(um)), mem(final(um)), addr as int, if g is Recv { len as int } else { 0 })
        }),
        joint_wf(final(net)@, final(sched)@),
        r is Return ==> active(final(sched)@, c as int),
{
    let ghost s = sys(net@, sched@);
    let ghost m = mem(um);
    let (op, nonblocking) = match g {
        Gather::Send { id, nonblocking } => (StreamOp::Send { id, addr, len }, nonblocking || total > 0),
        Gather::Recv { id, nonblocking } => (StreamOp::Recv { id, addr, len }, nonblocking || total > 0),
        Gather::Pipe { id, nonblocking } => (StreamOp::PipeWrite { id, addr, len }, nonblocking || total > 0),
        Gather::Socket { id } => {
            if addr == 0 {
                return Parking::Return(EFAULT);
            }
            match net.socket_get(id) {
                None => {
                    return Parking::Return(EBADF);
                },
                Some(o) => (StreamOp::Send { id, addr, len }, o.nonblocking),
            }
        },
    };
    let r = start(net, sched, um, op, nonblocking, c, clock, tsc);
    proof {
        let q1 = net@.polls;
        let o = started(s, m, op, nonblocking, q1, c as int);
        assert(o == chunk_started(s, m, g, addr, len, total, q1, c as int));
        assert(extends(q1, q1));
        lemma_started_log(s, m, op, nonblocking, q1, q1, c as int);
        assert forall|q: Seq<Poll>| #[trigger] extends(q, q1) implies chunk_started(s, m, g, addr, len, total, q, c as int) == o by {
            lemma_started_log(s, m, op, nonblocking, q1, q, c as int);
        }
        lemma_started_mem(s, m, op, nonblocking, q1, c as int);
    }
    r
}

/// The transfers from buffer `from` on, after `before` bytes.
pub fn gather_from<D: PollDevice, M: Memory>(
    net: &mut NetStateInner<D>,
    sched: &mut Scheduler,
    um: &mut M,
    g: Gather,
    iov: u64,
    count: u64,
    from: u64,
    before: i64,
    c: u32,
    clock: &Clock,
    tsc: u64,
) -> (r: Call)
    requires
        joint_wf(old(net)@, old(sched)@),
        active(old(sched)@, c as int),
        usable(sys(old(net)@, old(sched)@), mem(old(um)), g, iov, count, from as int, before, c as int),
    ensures
        advanced_at(old(net)@.polls, final(net)@.polls, *clock, tsc),
        (r, sys(final(net)@, final(sched)@), mem(final(um))) == gathered(
            sys(old(net)@, old(sched)@),
            mem(old(um)),
            g,
            iov,
            count,
            from as int,
            before,
            final(net)@.polls,
            c as int,
        ),
        extends(final(net)@.polls, old(net)@.polls),
        joint_wf(final(net)@, final(sched)@),
        r is Return ==> active(final(sched)@, c as int),
{
    let ghost s0 = sys(net@, sched@);
    let ghost m0 = mem(um);
    let mut total: i64 = before;
    let mut i: u64 = from;
    while i < count
        invariant
            from <= i,
            i <= count || i == from,
            s0 == sys(old(net)@, old(sched)@),
            m0 == mem(old(um)),
            joint_wf(net@, sched@),
            active(sched@, c as int),
            usable(sys(net@, sched@), mem(um), g, iov, count, i as int, total, c as int),
            advanced_at(old(net)@.polls, net@.polls, *clock, tsc),
            extends(net@.polls, old(net)@.polls),
            forall|q: Seq<Poll>| #[trigger]
                extends(q, net@.polls) ==> gathered(s0, m0, g, iov, count, from as int, before, q, c as int) == gathered(
                    sys(net@, sched@),
                    mem(um),
                    g,
                    iov,
                    count,
                    i as int,
                    total,
                    q,
                    c as int,
                ),
        decreases count - i,
    {
        let ghost s1 = sys(net@, sched@);
        let ghost m1 = mem(um);
        let ghost q1 = net@.polls;
        let (addr, len) = read_iovec(um, iov, i);
        assert(extends(q1, s1.net.polls));
        assert(buffers_met(s1, m1, g, iov, count, i as int, total, q1, c as int));
        if len > 0 {
            let r = start_chunk(net, sched, um, g, addr, len, total, c, clock, tsc);
            let ghost q2 = net@.polls;
            assert forall|q: Seq<Poll>| #[trigger] extends(q, q2) implies extends(q, q1) by {
                assert forall|k: int| 0 <= k < q1.len() implies q[k] == q1[k] by {
                    assert(q[k] == q2[k]);
                }
            }
            assert(extends(q2, q2));
            let n = match r {
                Parking::Parked(w) => {
                    return Call::Parked(w, Again::Gather { gather: g, iov, count, index: i, addr, len, total });
                },
                Parking::Return(n) => n,
            };
            if n < 0 {
                return Call::Return(if total > 0 { total } else { n });
            }
            let filled: bool = match g {
                Gather::Recv { .. } => true,
                _ => false,
            };
            if filled && n == 0 {
                return Call::Return(total);
            }
            let sum: i64 = total.wrapping_add(n);
            if (n as u64) < len {
                return Call::Return(sum);
            }
            proof {
                let s2 = sys(net@, sched@);
                let m2 = mem(um);
                assert forall|q: Seq<Poll>| #[trigger] extends(q, s2.net.polls) implies buffers_met(
                    s2,
                    m2,
                    g,
                    iov,
                    count,
                    i + 1,
                    sum,
                    q,
                    c as int,
                ) by {
                    assert(extends(q, q2));
                    assert(extends(q, s1.net.polls));
                    assert(buffers_met(s1, m1, g, iov, count, i as int, total, q, c as int));
                    assert(chunk_started(s1, m1, g, addr, len, total, q, c as int).sys == s2);
                }
                assert forall|q: Seq<Poll>| #[trigger] extends(q, q2) implies gathered(
                    s0,
                    m0,
                    g,
                    iov,
                    count,
                    from as int,
                    before,
                    q,
                    c as int,
                ) == gathered(s2, m2, g, iov, count, i + 1, sum, q, c as int) by {
                    assert(extends(q, q1));
                    assert(chunk_started(s1, m1, g, addr, len, total, q, c as int).sys == s2);
                }
            }
            total = sum;
        } else {
            proof {
                assert forall|q: Seq<Poll>| #[trigger] extends(q, s1.net.polls) implies buffers_met(
                    s1,
                    m1,
                    g,
                    iov,
                    count,
                    i + 1,
                    total,
                    q,
                    c as int,
                ) by {
                    assert(buffers_met(s1, m1, g, iov, count, i as int, total, q, c as int));
                }
            }
        }
        i += 1;
    }
    assert(extends(net@.polls, net@.polls));
    Call::Return(total)
}

/// Goes on with the transfers at buffer `i`, after the thread has waited for it.
pub fn gather_on<D: PollDevice, M: Memory>(
    net: &mut NetStateInner<D>,
    sched: &mut Scheduler,
    um: &mut M,
    g: Gather,
    iov: u64,
    count: u64,
    i: u64,
    addr: u64,
    len: u64,
    total: i64,
    c: u32,
    clock: &Clock,
    tsc: u64,
) -> (r: Call)
    requires
        i < count,
        joint_wf(old(net)@, old(sched)@),
        active(old(sched)@, c as int),
        usable_again(sys(old(net)@, old(sched)@), mem(old(um)), g, iov, count, i as int, addr, len, total, c as int),
    ensures
        advanced_at(old(net)@.polls, final(net)@.polls, *clock, tsc),
        (r, sys(final(net)@, final(sched)@), mem(final(um))) == gather_resumed(
            sys(old(net)@, old(sched)@),
            mem(old(um)),
            g,
            iov,
            count,
            i as int,
            addr,
            len,
            total,
            final(net)@.polls,
            c as int,
        ),
        joint_wf(final(net)@, final(sched)@),
        r is Return ==> active(final(sched)@, c as int),
{
    let ghost s = sys(net@, sched@);
    let ghost m = mem(um);
    let op = match g {
        Gather::Send { id, .. } => StreamOp::Send { id, addr, len },
        Gather::Recv { id, .. } => StreamOp::Recv { id, addr, len },
        Gather::Socket { id } => StreamOp::Send { id, addr, len },
        Gather::Pipe { id, .. } => StreamOp::PipeWrite { id, addr, len },
    };
    let r = resume(net, sched, um, op, c, clock, tsc);
    let ghost q1 = net@.polls;
    proof {
        lemma_waited_mem(s, m, op, q1, c as int);
    }
    let n = match r {
        Parking::Parked(w) => {
            return Call::Parked(w, Again::Gather { gather: g, iov, count, index: i, addr, len, total });
        },
        Parking::Return(n) => n,
    };
    if n < 0 {
        return Call::Return(if total > 0 { total } else { n });
    }
    let filled: bool = match g {
        Gather::Recv { .. } => true,
        _ => false,
    };
    if filled && n == 0 {
        return Call::Return(total);
    }
    let sum: i64 = total.wrapping_add(n);
    if (n as u64) < len {
        return Call::Return(sum);
    }
    proof {
        let s2 = sys(net@, sched@);
        let m2 = mem(um);
        lemma_waited_log(s, m, op, q1, q1, c as int);
        assert forall|q: Seq<Poll>| #[trigger] extends(q, s2.net.polls) implies buffers_met(
            s2,
            m2,
            g,
            iov,
            count,
            i + 1,
            sum,
            q,
            c as int,
        ) by {
            lemma_waited_log(s, m, op, q1, q, c as int);
            assert(extends(q, s.net.polls)) by {
                assert forall|k: int| 0 <= k < s.net.polls.len() implies q[k] == s.net.polls[k] by {
                    assert(q[k] == q1[k]);
                }
            }
        }
    }
    let r = gather_from(net, sched, um, g, iov, count, i + 1, sum, c, clock, tsc);
    proof {
        lemma_waited_log(s, m, op, q1, net@.polls, c as int);
    }
    r
}

} // verus!
