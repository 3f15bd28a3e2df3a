//! Messages: bytes that are described rather than pointed to.

use vstd::prelude::*;

use super::sockets::{handed_over, is_socket, object, same_streams_but};
use super::words::{lemma_u64_at, u64_at};
use crate::fs::fd_table::FdTable;
use crate::memory::access::{mem, reachable, within, Memory};
use crate::net::device::PollDevice;
use crate::net::state::NetStateInner;
use crate::net::stream::{started, sys, StreamOp};
use crate::sched::scheduler::Scheduler;
use crate::syscall::args::SyscallArgs;
use crate::syscall::blocking::{Call, Gather};
use crate::syscall::handlers::net::{sys_recvfrom, sys_recvmsg, sys_sendmsg};
use crate::syscall::handlers::vectored::{chunk_started, gathered, iov_base, iov_len};
use crate::time::Clock;

verus! {

/// The message consists of the `len` bytes at `addr`.
pub open spec fn describes<M: Memory>(um: &M, msg: u64, addr: u64, len: u64) -> bool {
    &&& msg != 0
    &&& within(um, msg as int, 32)
    &&& u64_at(um, msg + 24) == 1
    &&& within(um, u64_at(um, msg + 16), 16)
    &&& u64_at(um, u64_at(um, msg + 16)) == addr
    &&& u64_at(um, u64_at(um, msg + 16) + 8) == len
}

proof fn lemma_describes<M: Memory>(um: &M, msg: u64, addr: u64, len: u64)
    requires
        describes(um, msg, addr, len),
    ensures
        ({
            let m = mem(um);
            let iov = m.word(msg + 16);
            &&& m.word(msg + 24) == 1
            &&& iov_base(m, iov, 0) == addr
            &&& iov_len(m, iov, 0) == len
        }),
{
    let iov = u64_at(um, msg + 16);
    lemma_u64_at(um, msg + 16);
    lemma_u64_at(um, msg + 24);
    lemma_u64_at(um, iov);
    lemma_u64_at(um, iov + 8);
    assert(mem(um).word(msg + 16) == iov);
    assert(mem(um).word(iov) == addr);
    assert(mem(um).word(iov + 8) == len);
}

/// Sending a message hands the bytes that it describes over to the stack, behind those that wait to be sent, as many as there is
/// room for.
pub proof fn law_message_is_handed_over<D: PollDevice, M: Memory>(
    args: &SyscallArgs,
    fds: &FdTable,
    net: &mut NetStateInner<D>,
    sched: &mut Scheduler,
    um: &mut M,
    c: u32,
    clock: &Clock,
    tsc: u64,
    id: usize,
    addr: u64,
    len: u64,
    r: Call,
)
    requires
        call_ensures(sys_sendmsg::<D, M>, (args, fds, net, sched, um, c, clock, tsc), r),
        is_socket(fds@, old(net)@, args.arg0, id),
        describes(old(um), args.arg1, addr, len),
        0 < len < u32::MAX,
        reachable(old(um), addr, len as int),
    ensures
        ({
            let n = old(net)@;
            let w = final(net)@;
            let o = object(n, id);
            let i = n.socks[o.handle->0];
            let room = i.tx_size - i.tx.len();
            let k = if len <= room { len as int } else { room };
            &&& mem(final(um)) == mem(old(um))
            &&& o.handle is None ==> (r matches Call::Return(e) && e == -107) && w == n
            &&& o.handle is Some && !(i.state is Established || i.state is CloseWait) ==> (r matches Call::Return(e) && e == -32)
            &&& o.handle is Some && (i.state is Established || i.state is CloseWait) && room > 0 ==> {
                let j = handed_over(n, w)[o.handle->0];
                &&& r == Call::Return(k as i64)
                &&& j.tx.len() == i.tx.len() + k
                &&& forall|x: int| 0 <= x < i.tx.len() ==> #[trigger] j.tx[x] == i.tx[x]
                &&& forall|x: int| 0 <= x < k ==> #[trigger] j.tx[i.tx.len() + x] == old(um).bytes()[addr + x - old(um).base()]
                &&& same_streams_but(n, w, o.handle->0)
            }
            &&& o.handle is Some && (i.state is Established || i.state is CloseWait) && room == 0 && o.nonblocking ==> (r matches Call::Return(e)
                && e == -11)
        }),
{
    let m = mem(old(um));
    lemma_describes(old(um), args.arg1, addr, len);
    reveal_with_fuel(gathered, 2);
    assert(m.stored(addr as int, Seq::empty()) =~= m);
}

/// Receiving a message is receiving the bytes to where it says: whatever the one gives back and leaves behind, the other does.
pub proof fn law_message_is_received_like_bytes<D: PollDevice, M: Memory>(
    args: &SyscallArgs,
    plain: &SyscallArgs,
    fds: &FdTable,
    net: &mut NetStateInner<D>,
    other_net: &mut NetStateInner<D>,
    sched: &mut Scheduler,
    other_sched: &mut Scheduler,
    um: &mut M,
    other_um: &mut M,
    c: u32,
    clock: &Clock,
    tsc: u64,
    id: usize,
    r: Call,
    s: Call,
)
    requires
        call_ensures(sys_recvmsg::<D, M>, (args, fds, net, sched, um, c, clock, tsc), r),
        call_ensures(sys_recvfrom::<D, M>, (plain, fds, other_net, other_sched, other_um, c, clock, tsc), s),
        old(net)@ == old(other_net)@,
        old(sched)@ == old(other_sched)@,
        mem(old(um)) == mem(old(other_um)),
        final(net)@.polls == final(other_net)@.polls,
        is_socket(fds@, old(net)@, args.arg0, id),
        plain.arg0 == args.arg0,
        describes(old(um), args.arg1, plain.arg1, plain.arg2),
        0 < plain.arg2 < u32::MAX,
        plain.arg1 != 0,
    ensures
        r is Return <==> s is Return,
        r is Return ==> r == s,
        final(net)@ == final(other_net)@,
        final(sched)@ == final(other_sched)@,
        mem(final(um)) == mem(final(other_um)),
{
    lemma_describes(old(um), args.arg1, plain.arg1, plain.arg2);
    let m = mem(old(um));
    let v = sys(old(net)@, old(sched)@);
    let q = final(net)@.polls;
    let o = object(old(net)@, id);
    let op = StreamOp::Recv { id, addr: plain.arg1, len: plain.arg2 };
    let g = Gather::Recv { id, nonblocking: o.nonblocking };
    assert(chunk_started(v, m, g, plain.arg1, plain.arg2, 0, q, c as int) == started(v, m, op, o.nonblocking, q, c as int));
    reveal_with_fuel(gathered, 2);
}

} // verus!
