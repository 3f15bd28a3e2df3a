//! What is left of pipes, sockets and sets when their last descriptor is closed.

use vstd::prelude::*;

use super::descriptors::{is_open, lemma_last, still_open};
use super::sockets::{handed_over, object};
use crate::fs::client::{Fs, FuseClient};
use crate::fs::fd_table::{FdKind, FdTable};
use crate::net::device::PollDevice;
use crate::net::state::{lemma_backlog_parted_keeps, parted, socket_closed, NetStateInner};
use crate::sched::scheduler::Scheduler;
use crate::syscall::args::SyscallArgs;
use crate::syscall::handlers::io::sys_close;
use crate::time::Clock;

verus! {

/// When the last descriptor of an end of a pipe is closed, that end counts one less, and the bytes in the pipe stay for the other
/// end. When both ends are closed there is no pipe any more. Other pipes are left alone.
pub proof fn law_closed_end_counts_one_less<C: FuseClient, D: PollDevice>(
    args: &SyscallArgs,
    fds: &mut FdTable,
    fs: &mut Fs<C>,
    net: &mut NetStateInner<D>,
    sched: &mut Scheduler,
    c: u32,
    clock: &Clock,
    tsc: u64,
    r: i64,
    id: usize,
    write_end: bool,
)
    requires
        call_ensures(sys_close::<C, D>, (args, fds, fs, net, sched, c, clock, tsc), r),
        is_open(old(fds)@, args.arg0 as int),
        (old(fds)@[args.arg0 as int]->0).kind == (FdKind::Pipe { id, write_end }),
        !still_open(final(fds)@, (old(fds)@[args.arg0 as int]->0).kind),
        id < old(net)@.pipetab.len(),
        old(net)@.pipetab[id as int] is Some,
    ensures
        ({
            let a = old(net)@.pipetab;
            let b = final(net)@.pipetab;
            let p = a[id as int]->0;
            let readers = if write_end || p.readers == 0 { p.readers as int } else { p.readers - 1 };
            let writers = if !write_end || p.writers == 0 { p.writers as int } else { p.writers - 1 };
            &&& b.len() == a.len()
            &&& b[id as int] is None <==> readers == 0 && writers == 0
            &&& b[id as int] matches Some(q) ==> q.readers == readers && q.writers == writers && q.buf == p.buf
            &&& forall|k: int| 0 <= k < a.len() && k != id ==> #[trigger] b[k] == a[k]
        }),
{
    lemma_last(final(fds)@, (old(fds)@[args.arg0 as int]->0).kind);
}

/// When the last descriptor of a socket is closed there is no such socket any more, and its place can be taken. A connection that
/// stands says farewell first. Other sockets are left alone.
pub proof fn law_closed_socket_is_gone<C: FuseClient, D: PollDevice>(
    args: &SyscallArgs,
    fds: &mut FdTable,
    fs: &mut Fs<C>,
    net: &mut NetStateInner<D>,
    sched: &mut Scheduler,
    c: u32,
    clock: &Clock,
    tsc: u64,
    r: i64,
    id: usize,
)
    requires
        call_ensures(sys_close::<C, D>, (args, fds, fs, net, sched, c, clock, tsc), r),
        is_open(old(fds)@, args.arg0 as int),
        (old(fds)@[args.arg0 as int]->0).kind == (FdKind::Socket { id }),
        !still_open(final(fds)@, (old(fds)@[args.arg0 as int]->0).kind),
        id < old(net)@.socktab.len(),
        old(net)@.socktab[id as int] is Some,
    ensures
        ({
            let a = old(net)@;
            let b = final(net)@;
            let o = object(a, id);
            &&& b.socktab.len() == a.socktab.len()
            &&& b.socktab[id as int] is None
            &&& forall|k: int| 0 <= k < a.socktab.len() && k != id ==> #[trigger] b.socktab[k] == a.socktab[k]
            &&& b.pipetab == a.pipetab
            &&& o.backlog.len() == 0 ==> (o.handle matches Some(h) ==> {
                let i = a.socks[h];
                &&& i.state is Established ==> handed_over(a, b)[h].state is FinWait1
                &&& i.state is CloseWait ==> handed_over(a, b)[h].state is LastAck
                &&& i.state is Closed ==> !handed_over(a, b).contains_key(h)
            })
        }),
{
    lemma_last(final(fds)@, (old(fds)@[args.arg0 as int]->0).kind);
    let a = old(net)@;
    let b = final(net)@;
    crate::net::state::lemma_socket_closed_keeps(a, id as int);
    let m = socket_closed(a, id as int);
    let o = object(a, id);
    let d = a.with_sock(id as int, None);
    let w = match o.handle {
        Some(h) => parted(d, h, true),
        None => d,
    };
    lemma_backlog_parted_keeps(w, o.backlog, o.backlog.len() as int);
    assert(b.socktab == d.socktab);
    assert(b.pipetab == a.pipetab);
    assert(handed_over(a, b) == m.socks);
}

/// When the last descriptor of a set of watched descriptors is closed there is no such set any more.
pub proof fn law_closed_set_is_gone<C: FuseClient, D: PollDevice>(
    args: &SyscallArgs,
    fds: &mut FdTable,
    fs: &mut Fs<C>,
    net: &mut NetStateInner<D>,
    sched: &mut Scheduler,
    c: u32,
    clock: &Clock,
    tsc: u64,
    r: i64,
    id: usize,
)
    requires
        call_ensures(sys_close::<C, D>, (args, fds, fs, net, sched, c, clock, tsc), r),
        is_open(old(fds)@, args.arg0 as int),
        (old(fds)@[args.arg0 as int]->0).kind == (FdKind::Epoll { id }),
        !still_open(final(fds)@, (old(fds)@[args.arg0 as int]->0).kind),
        id < old(net)@.epolltab.len(),
    ensures
        final(net)@.epolltab.len() == old(net)@.epolltab.len(),
        final(net)@.epolltab[id as int] is None,
        forall|k: int| 0 <= k < old(net)@.epolltab.len() && k != id ==> #[trigger] final(net)@.epolltab[k] == old(net)@.epolltab[k],
        final(sched)@ == old(sched)@,
{
    lemma_last(final(fds)@, (old(fds)@[args.arg0 as int]->0).kind);
}

} // verus!
