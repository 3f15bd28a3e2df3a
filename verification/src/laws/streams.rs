//! Bytes through pipes and the console.

use vstd::prelude::*;

use super::descriptors::is_open;
use super::files::at_once;
use crate::console::{used, Console, TermEvent, Terminal};
use crate::fs::client::{Fs, FuseClient};
use crate::fs::fd_table::{FdKind, FdTable, FileDescriptor};
use crate::memory::access::{mem, reachable, Memory};
use crate::memory::page_table::PageTable;
use crate::net::device::PollDevice;
use crate::net::pipe::{Pipe, PIPE_CAPACITY};
use crate::net::state::{Net, NetStateInner};
use crate::sched::scheduler::Scheduler;
use crate::syscall::args::SyscallArgs;
use crate::syscall::blocking::Call;
use crate::syscall::handlers::io::{sys_read, sys_write};
use crate::time::Clock;

verus! {

/// The descriptor is the end of a pipe with this id.
pub open spec fn is_pipe_end(fds: Seq<Option<FileDescriptor>>, n: Net, fd: u64, id: usize, write_end: bool) -> bool {
    &&& is_open(fds, fd as int)
    &&& (fds[fd as int]->0).kind == FdKind::Pipe { id, write_end }
    &&& id < n.pipetab.len() && n.pipetab[id as int] is Some
}

/// No pipe but this one has changed, and it has no more than new contents.
pub open spec fn same_pipes_but(a: Net, b: Net, id: int) -> bool {
    &&& b.pipetab.len() == a.pipetab.len()
    &&& b.pipetab[id] is Some
    &&& (b.pipetab[id]->0).readers == (a.pipetab[id]->0).readers && (b.pipetab[id]->0).writers == (a.pipetab[id]->0).writers
    &&& forall|k: int| 0 <= k < a.pipetab.len() && k != id ==> #[trigger] b.pipetab[k] == a.pipetab[k]
}

/// The bytes from `at` on are `data`, and no others have changed.
pub open spec fn came_to<M: Memory>(before: &M, after: &M, at: int, data: Seq<u8>) -> bool {
    &&& after.base() == before.base() && after.bytes().len() == before.bytes().len()
    &&& forall|i: int| 0 <= i < data.len() ==> after.bytes()[at + i - before.base()] == #[trigger] data[i]
    &&& forall|k: int|
        0 <= k < before.bytes().len() && !(at <= before.base() + k < at + data.len()) ==> #[trigger] after.bytes()[k] == before.bytes()[k]
}

/// Reading a pipe takes its oldest bytes, as many as there are and as there is room for. If there are none, it waits, or says so if
/// it may not wait; and says 0 if nobody is left to write any.
pub proof fn law_pipe_gives_its_oldest_bytes<C: FuseClient, P: PageTable, D: PollDevice, M: Memory, T: Terminal>(
    args: &SyscallArgs,
    fds: &mut FdTable,
    fs: &mut Fs<C>,
    pt: &P,
    net: &mut NetStateInner<D>,
    sched: &mut Scheduler,
    um: &mut M,
    console: &mut Console<T>,
    c: u32,
    clock: &Clock,
    tsc: u64,
    id: usize,
    r: Call,
)
    requires
        call_ensures(sys_read::<C, P, D, M, T>, (args, fds, fs, pt, net, sched, um, console, c, clock, tsc), r),
        is_pipe_end(old(fds)@, old(net)@, args.arg0, id, false),
        args.arg2 > 0,
        reachable(old(um), args.arg1, at_once(args.arg2)),
    ensures
        ({
            let p = old(net)@.pipetab[id as int]->0;
            let q = final(net)@.pipetab[id as int]->0;
            let n = if at_once(args.arg2) <= p.buf.len() { at_once(args.arg2) } else { p.buf.len() as int };
            let waits = (old(fds)@[args.arg0 as int]->0).flags & 0x800 == 0;
            &&& same_pipes_but(old(net)@, final(net)@, id as int)
            &&& final(fds)@ == old(fds)@
            &&& q.buf == p.buf.skip(n)
            &&& p.buf.len() > 0 ==> r == Call::Return(n as i64) && came_to(old(um), final(um), args.arg1 as int, p.buf.take(n))
            &&& p.buf.len() == 0 ==> came_to(old(um), final(um), args.arg1 as int, Seq::empty())
            &&& p.buf.len() == 0 && p.writers == 0 ==> r == Call::Return(0)
            &&& p.buf.len() == 0 && p.writers > 0 && waits ==> r is Parked
            &&& p.buf.len() == 0 && p.writers > 0 && !waits ==> (r matches Call::Return(e) && e == -11)
        }),
{
    let p = old(net)@.pipetab[id as int]->0;
    let m = mem(old(um));
    assert(p.buf.len() == 0 ==> p.buf.skip(0) =~= p.buf);
    assert(p.buf.len() == 0 ==> p.buf.take(0) =~= Seq::<u8>::empty());
    assert(m.stored(args.arg1 as int, Seq::empty()) =~= m);
    assert(final(um).bytes() == mem(final(um)).bytes);
}

/// Writing to a pipe adds the bytes behind those that are in it, as many as there is room for. If there is no room, it waits, or says
/// so if it may not wait; and if nobody is left to read them, it says that.
pub proof fn law_pipe_takes_bytes_at_its_end<C: FuseClient, P: PageTable, D: PollDevice, M: Memory, T: Terminal>(
    args: &SyscallArgs,
    fds: &mut FdTable,
    fs: &mut Fs<C>,
    pt: &P,
    net: &mut NetStateInner<D>,
    sched: &mut Scheduler,
    um: &mut M,
    console: &mut Console<T>,
    c: u32,
    clock: &Clock,
    tsc: u64,
    id: usize,
    r: Call,
)
    requires
        call_ensures(sys_write::<C, P, D, M, T>, (args, fds, fs, pt, net, sched, um, console, c, clock, tsc), r),
        is_pipe_end(old(fds)@, old(net)@, args.arg0, id, true),
        args.arg2 > 0,
        reachable(old(um), args.arg1, at_once(args.arg2)),
        (old(net)@.pipetab[id as int]->0).buf.len() <= PIPE_CAPACITY,
    ensures
        ({
            let p = old(net)@.pipetab[id as int]->0;
            let q = final(net)@.pipetab[id as int]->0;
            let room = 65536 - p.buf.len();
            let n = if p.readers == 0 {
                0
            } else if at_once(args.arg2) <= room {
                at_once(args.arg2)
            } else {
                room
            };
            let waits = (old(fds)@[args.arg0 as int]->0).flags & 0x800 == 0;
            &&& same_pipes_but(old(net)@, final(net)@, id as int)
            &&& final(fds)@ == old(fds)@
            &&& mem(final(um)) == mem(old(um))
            &&& q.buf.len() == p.buf.len() + n
            &&& forall|i: int| 0 <= i < p.buf.len() ==> #[trigger] q.buf[i] == p.buf[i]
            &&& forall|i: int| 0 <= i < n ==> #[trigger] q.buf[p.buf.len() + i] == old(um).bytes()[args.arg1 + i - old(um).base()]
            &&& p.readers == 0 ==> (r matches Call::Return(e) && e == -32)
            &&& p.readers > 0 && room > 0 ==> r == Call::Return(n as i64)
            &&& p.readers > 0 && room == 0 && waits ==> r is Parked
            &&& p.readers > 0 && room == 0 && !waits ==> (r matches Call::Return(e) && e == -11)
        }),
{
    let m = mem(old(um));
    assert(m.stored(args.arg1 as int, Seq::empty()) =~= m);
    let p = old(net)@.pipetab[id as int]->0;
    assert(p.buf + m.range(args.arg1 as int, at_once(args.arg2)).take(0) =~= p.buf);
}

/// What is not open, the writing end of a pipe, or a directory cannot be read.
pub proof fn law_unreadable_is_refused<C: FuseClient, P: PageTable, D: PollDevice, M: Memory, T: Terminal>(
    args: &SyscallArgs,
    fds: &mut FdTable,
    fs: &mut Fs<C>,
    pt: &P,
    net: &mut NetStateInner<D>,
    sched: &mut Scheduler,
    um: &mut M,
    console: &mut Console<T>,
    c: u32,
    clock: &Clock,
    tsc: u64,
    r: Call,
)
    requires
        call_ensures(sys_read::<C, P, D, M, T>, (args, fds, fs, pt, net, sched, um, console, c, clock, tsc), r),
        !is_open(old(fds)@, args.arg0 as int) || ((old(fds)@[args.arg0 as int]->0).kind matches FdKind::Pipe { write_end, .. } && write_end)
            || (old(fds)@[args.arg0 as int]->0).kind is Directory,
    ensures
        r matches Call::Return(e) && e == -9,
        final(net)@ == old(net)@ && mem(final(um)) == mem(old(um)) && final(fds)@ == old(fds)@,
{
}

/// What is written to the console goes there as it is.
pub proof fn law_console_takes_the_bytes<C: FuseClient, P: PageTable, D: PollDevice, M: Memory, T: Terminal>(
    args: &SyscallArgs,
    fds: &mut FdTable,
    fs: &mut Fs<C>,
    pt: &P,
    net: &mut NetStateInner<D>,
    sched: &mut Scheduler,
    um: &mut M,
    console: &mut Console<T>,
    c: u32,
    clock: &Clock,
    tsc: u64,
    r: Call,
)
    requires
        call_ensures(sys_write::<C, P, D, M, T>, (args, fds, fs, pt, net, sched, um, console, c, clock, tsc), r),
        is_open(old(fds)@, args.arg0 as int),
        (old(fds)@[args.arg0 as int]->0).kind is Console,
        args.arg2 > 0 ==> reachable(old(um), args.arg1, at_once(args.arg2)),
    ensures
        ({
            let e = used(old(console).log(), final(console).log());
            &&& e.len() == 1
            &&& e[0] matches TermEvent::Write { data, taken } && {
                &&& data.len() == at_once(args.arg2)
                &&& forall|i: int| 0 <= i < data.len() ==> #[trigger] data[i] == old(um).bytes()[args.arg1 + i - old(um).base()]
                &&& r == Call::Return(taken as i64)
            }
            &&& mem(final(um)) == mem(old(um)) && final(fds)@ == old(fds)@ && final(net)@ == old(net)@
        }),
{
}

/// What comes from the console comes to the buffer as it is.
pub proof fn law_console_gives_the_bytes<C: FuseClient, P: PageTable, D: PollDevice, M: Memory, T: Terminal>(
    args: &SyscallArgs,
    fds: &mut FdTable,
    fs: &mut Fs<C>,
    pt: &P,
    net: &mut NetStateInner<D>,
    sched: &mut Scheduler,
    um: &mut M,
    console: &mut Console<T>,
    c: u32,
    clock: &Clock,
    tsc: u64,
    r: Call,
)
    requires
        call_ensures(sys_read::<C, P, D, M, T>, (args, fds, fs, pt, net, sched, um, console, c, clock, tsc), r),
        is_open(old(fds)@, args.arg0 as int),
        (old(fds)@[args.arg0 as int]->0).kind is Console,
        args.arg2 > 0 ==> reachable(old(um), args.arg1, at_once(args.arg2)),
    ensures
        ({
            let e = used(old(console).log(), final(console).log());
            &&& e.len() == 1
            &&& e[0] matches TermEvent::Read { max, got } && {
                &&& max == at_once(args.arg2)
                &&& r == Call::Return(got.len() as i64)
                &&& 0 < got.len() <= at_once(args.arg2) ==> came_to(old(um), final(um), args.arg1 as int, got)
            }
            &&& final(fds)@ == old(fds)@ && final(net)@ == old(net)@
        }),
{
}

} // verus!
