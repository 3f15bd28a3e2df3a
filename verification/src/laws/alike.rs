//! Calls that do what another one does.

use vstd::prelude::*;

use super::names::{is_cwd, lemma_named, named, text_at};
use super::sockets::{is_socket, object};
use crate::fs::client::{since, Fs, FsEvent, FuseClient};
use crate::fs::fd_table::FdTable;
use crate::memory::access::{mem, Memory};
use crate::net::device::PollDevice;
use crate::net::state::NetStateInner;
use crate::sched::scheduler::Scheduler;
use crate::syscall::args::SyscallArgs;
use crate::syscall::blocking::Call;
use crate::syscall::handlers::epoll::{sys_epoll_pwait, sys_epoll_wait, EpollCall};
use crate::syscall::handlers::fs::sys_faccessat;
use crate::syscall::handlers::net::{sys_accept, sys_accept4};
use crate::syscall::handlers::path::Cwd;
use crate::time::Clock;

verus! {

/// `accept` is `accept4` without flags: from the same state, with the same packets moved and the same new socket of the stack, both
/// give back the same and leave the same behind.
pub proof fn law_accept_is_accept4_without_flags<D: PollDevice, M: Memory>(
    args: &SyscallArgs,
    with_flags: &SyscallArgs,
    fds: &mut FdTable,
    other_fds: &mut FdTable,
    net: &mut NetStateInner<D>,
    other_net: &mut NetStateInner<D>,
    sched: &mut Scheduler,
    other_sched: &mut Scheduler,
    um: &mut M,
    other_um: &mut M,
    c: u32,
    clock: &Clock,
    tsc: u64,
    id: usize,
    r: Call,
    s: Call,
)
    requires
        call_ensures(sys_accept::<D, M>, (args, fds, net, sched, um, c, clock, tsc), r),
        call_ensures(sys_accept4::<D, M>, (with_flags, other_fds, other_net, other_sched, other_um, c, clock, tsc), s),
        with_flags.arg0 == args.arg0,
        with_flags.arg1 == args.arg1,
        with_flags.arg2 == args.arg2,
        with_flags.arg3 as u32 == 0,
        old(fds)@ == old(other_fds)@,
        old(net)@ == old(other_net)@,
        old(sched)@ == old(other_sched)@,
        mem(old(um)) == mem(old(other_um)),
        final(net)@.polls == final(other_net)@.polls,
        is_socket(old(fds)@, old(net)@, args.arg0, id),
        id < final(net)@.socktab.len() && id < final(other_net)@.socktab.len(),
        object(final(net)@, id).backlog.last() == object(final(other_net)@, id).backlog.last(),
    ensures
        r == s,
        final(fds)@ == final(other_fds)@,
        final(net)@ == final(other_net)@,
        final(sched)@ == final(other_sched)@,
        mem(final(um)) == mem(final(other_um)),
{
}

/// `epoll_pwait` is `epoll_wait`: from the same state, with the same packets moved, both leave the same behind, and both give back
/// the same or both wait.
pub proof fn law_epoll_pwait_is_epoll_wait<D: PollDevice, M: Memory>(
    args: &SyscallArgs,
    fds: &FdTable,
    net: &mut NetStateInner<D>,
    other_net: &mut NetStateInner<D>,
    sched: &mut Scheduler,
    other_sched: &mut Scheduler,
    um: &mut M,
    other_um: &mut M,
    c: u32,
    clock: &Clock,
    tsc: u64,
    r: EpollCall,
    s: EpollCall,
)
    requires
        call_ensures(sys_epoll_pwait::<D, M>, (args, fds, net, sched, um, c, clock, tsc), r),
        call_ensures(sys_epoll_wait::<D, M>, (args, fds, other_net, other_sched, other_um, c, clock, tsc), s),
        old(net)@ == old(other_net)@,
        old(sched)@ == old(other_sched)@,
        mem(old(um)) == mem(old(other_um)),
        final(net)@.polls == final(other_net)@.polls,
    ensures
        r is Return <==> s is Return,
        r is Return ==> r == s,
        final(net)@ == final(other_net)@,
        final(sched)@ == final(other_sched)@,
        mem(final(um)) == mem(final(other_um)),
{
}

/// Asking whether there is a file that is named from the working directory or from the root asks the host for the named file.
pub proof fn law_faccessat_asks_for_the_named_file<C: FuseClient, M: Memory>(
    args: &SyscallArgs,
    fs: &mut Fs<C>,
    um: &M,
    cwd: &Cwd,
    text: Seq<u8>,
    r: i64,
)
    requires
        call_ensures(sys_faccessat::<C, M>, (args, fs, um, cwd), r),
        text_at(mem(um), args.arg1, text),
        is_cwd(cwd@),
        args.arg0 as i32 == -100 || text.len() > 0 && text[0] == 0x2f,
    ensures
        ({
            let t = since(old(fs).log(), final(fs).log());
            &&& t.len() > 0
            &&& t[0] matches FsEvent::ResolvePath { path, reply } && path == named(text, cwd@) && (reply is Ok ==> r == 0) && (reply matches Err(e)
                ==> r == e && t.len() == 1)
        }),
{
    lemma_named(mem(um), args.arg1, text, cwd@, false);
}

} // verus!
