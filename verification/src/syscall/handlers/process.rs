//! The process: its identity, its end, and what it may know of the machine.

use vstd::prelude::*;

use crate::layout::PAGE_SIZE;
use crate::memory::access::{
    le32, le64, le_words, reachable, write_bytes, write_u32, write_u64, write_words, wrote, Memory,
};
use crate::memory::allocators::palloc::{count_used, saturating_sub, PageAllocator, PAGE_COUNT, RESERVED_PAGES};
use crate::sched::futex::{lemma_unlinked, unlinked, wake, wakes};
use crate::sched::reaper::{buried, push_zombie};
use crate::sched::scheduler::{
    active, lemma_active, lemma_bookkeeping, lemma_thread_change, rescheduled, running, switch_of, woken_all,
    Sched, Scheduler, Switch,
};
use crate::sched::thread::{Thread, ThreadState, Tid};
use crate::syscall::args::{SyscallArgs, SyscallResult};
use crate::syscall::errno::{EFAULT, EINVAL};
use crate::time::{elapsed_ns, monotonic_ns, Clock, NS_PER_SEC};

verus! {

pub const ARCH_SET_FS: u64 = 0x1002;

pub const ARCH_GET_FS: u64 = 0x1003;

pub const PR_SET_VMA: u64 = 0x5356_4D41;

/// Size of one field of the names of the system.
pub const NAME_SIZE: u64 = 65;

/// The thread that runs on CPU `c`.
pub open spec fn me(v: Sched, c: int) -> Thread {
    v.thread(v.cpus[c].current->0)
}

/// The address is in the lower half, as all addresses of the user are.
pub open spec fn is_canonical(addr: u64) -> bool {
    addr < 0x8000_0000_0000
}

fn is_canonical_user(val: u64) -> (r: bool)
    ensures
        r == is_canonical(val),
{
    assert((val >> 47 == 0) <==> val < 0x8000_0000_0000) by (bit_vector);
    (val >> 47) == 0
}

/// The id of the group of the thread on CPU `c`.
pub fn sys_getpid(_args: &SyscallArgs, sched: &Scheduler, c: u32) -> (r: SyscallResult)
    requires
        sched@.wf(),
        running(sched@, c as int),
    ensures
        r == me(sched@, c as int).tgid.0,
{
    sched.current_thread(c).tgid.0 as i64
}

/// What the end of a thread comes to.
#[derive(Clone, Copy, Debug, PartialEq, Eq, Structural)]
pub enum Exit {
    /// It was the last thread of the user: the machine stops with this code.
    Shutdown(i32),
    /// Other threads go on; the change of threads.
    Switched(Option<Switch>),
}

/// The scheduler after the thread on CPU `c` noted its exit code and what to clear was taken from it.
pub open spec fn leaving(v: Sched, c: int, code: i32) -> Sched {
    v.with_thread((Thread { exit_code: code, clear_child_tid: 0, ..me(v, c) }))
}

/// The threads that wait for the thread on CPU `c` to end: one, at the address that it clears.
pub open spec fn joiners(v: Sched, c: int, code: i32) -> Seq<Tid> {
    let clear = me(v, c).clear_child_tid;
    if clear == 0 { Seq::empty() } else { wakes(leaving(v, c, code), clear, None, 1) }
}

/// The scheduler before those threads are woken.
pub open spec fn released(v: Sched, c: int, code: i32) -> Sched {
    let clear = me(v, c).clear_child_tid;
    if clear == 0 { leaving(v, c, code) } else { unlinked(leaving(v, c, code), clear, None, 1) }
}

/// The scheduler after those threads were woken and the thread no longer counts.
pub open spec fn discounted(v: Sched, c: int, code: i32) -> Sched {
    let w = woken_all(released(v, c, code), joiners(v, c, code), c);
    Sched { live: v.live.wrapping_sub(1), ..w }
}

/// The scheduler after the thread on CPU `c` became one to reap.
pub open spec fn ended(v: Sched, c: int) -> Sched {
    let t = v.cpus[c].current->0;
    buried(v.with_thread((Thread { state: ThreadState::Exited, ..v.thread(t) })), t)
}

/// Ends the thread on CPU `c`: clears the word that it promised to clear and wakes a
/// thread that waits there, then never runs again.
pub fn sys_exit<M: Memory>(args: &SyscallArgs, um: &mut M, sched: &mut Scheduler, c: u32) -> (r: Exit)
    requires
        old(sched)@.wf(),
        old(sched)@.settled(),
        active(old(sched)@, c as int),
        me(old(sched)@, c as int).clear_child_tid != 0 ==> reachable(
            old(um),
            me(old(sched)@, c as int).clear_child_tid,
            4,
        ),
    ensures
        ({
            let v = old(sched)@;
            let code = args.arg0 as i32;
            let clear = me(v, c as int).clear_child_tid;
            let d = discounted(v, c as int, code);
            &&& if clear == 0 {
                *final(um) == *old(um)
            } else {
                wrote(old(um), final(um), clear as int, le32(0))
            }
            &&& if v.live == 1 {
                &&& r == Exit::Shutdown(code)
                &&& final(sched)@ == d
            } else {
                &&& r == Exit::Switched(switch_of(ended(d, c as int), c as int))
                &&& final(sched)@ == rescheduled(ended(d, c as int), c as int)
            }
            &&& d.wf()
            &&& d.settled()
        }),
        final(sched)@.wf(),
        final(sched)@.settled(),
{
    let ghost v = sched@;
    let code: i32 = #[verifier::truncate]
    (args.arg0 as i32);
    let mut t = sched.current_thread(c);
    let clear: u64 = t.clear_child_tid;
    t.exit_code = code;
    t.clear_child_tid = 0;
    proof {
        lemma_active(v, c as int);
        assert(t.tid == v.cpus[c as int].current->0);
        lemma_thread_change(v, t);
    }
    sched.set_thread(t);
    let ghost a = sched@;
    assert(a == leaving(v, c as int, code));
    if clear != 0 {
        write_u32(um, clear, 0);
        proof {
            lemma_unlinked(a, clear, None, 1);
        }
        let _ = wake(sched, c, clear, 1);
    }
    let ghost b = sched@;
    proof {
        assert(b == woken_all(released(v, c as int, code), joiners(v, c as int, code), c as int));
        assert(b.live == v.live);
        assert(b.cpus[c as int].current == v.cpus[c as int].current);
        lemma_bookkeeping(b, (Sched { live: v.live.wrapping_sub(1), ..b }));
    }
    let live: u32 = sched.live_user_threads;
    sched.live_user_threads = live.wrapping_sub(1);
    let ghost d = sched@;
    assert(d =~= discounted(v, c as int, code));
    if live == 1 {
        return Exit::Shutdown(code);
    }
    proof {
        assert(d.runs_on(t.tid, c as int));
        assert(d.threads.dom().contains(t.tid.0));
        assert forall|e: int| !d.idles_on(t.tid, e) by {
            if d.idles_on(t.tid, e) {
                assert(v.idles_on(t.tid, e));
            }
        }
        assert forall|e: int| !d.waits_in(t.tid, e) by {
            if d.waits_in(t.tid, e) {
                assert(b.waits_in(t.tid, e));
                assert(a.waits_in(t.tid, e));
            }
        }
        assert(d.zombies == v.zombies);
    }
    let mut e = sched.current_thread(c);
    e.state = ThreadState::Exited;
    proof {
        assert(e.tid == t.tid);
        lemma_thread_change(d, e);
    }
    sched.set_thread(e);
    push_zombie(sched, e.tid);
    assert(sched@ == ended(d, c as int));
    Exit::Switched(sched.schedule(c))
}

pub fn sys_getuid(_args: &SyscallArgs) -> (r: SyscallResult)
    ensures
        r == 0,
{
    0
}

pub fn sys_getgid(_args: &SyscallArgs) -> (r: SyscallResult)
    ensures
        r == 0,
{
    0
}

pub fn sys_geteuid(_args: &SyscallArgs) -> (r: SyscallResult)
    ensures
        r == 0,
{
    0
}

pub fn sys_getegid(_args: &SyscallArgs) -> (r: SyscallResult)
    ensures
        r == 0,
{
    0
}

pub fn sys_getppid(_args: &SyscallArgs) -> (r: SyscallResult)
    ensures
        r == 0,
{
    0
}

/// Sets or gets the base of the thread-local storage of the thread on CPU `c`. Gives back,
/// besides the result, the base that the CPU has to load.
pub fn sys_arch_prctl<M: Memory>(args: &SyscallArgs, um: &mut M, sched: &mut Scheduler, c: u32) -> (r: (
    SyscallResult,
    Option<u64>,
))
    requires
        old(sched)@.wf(),
        old(sched)@.settled(),
        running(old(sched)@, c as int),
        args.arg0 == ARCH_GET_FS && args.arg1 != 0 ==> reachable(old(um), args.arg1, 8),
    ensures
        ({
            let v = old(sched)@;
            if args.arg0 == ARCH_SET_FS && is_canonical(args.arg1) {
                &&& r == (0i64, Some(args.arg1))
                &&& final(sched)@ == v.with_thread((Thread { fs_base: args.arg1, ..me(v, c as int) }))
                &&& *final(um) == *old(um)
            } else if args.arg0 == ARCH_GET_FS && args.arg1 != 0 {
                &&& r == (0i64, None::<u64>)
                &&& final(sched)@ == v
                &&& wrote(old(um), final(um), args.arg1 as int, le64(me(v, c as int).fs_base))
            } else {
                &&& r == (if args.arg0 == ARCH_GET_FS { EFAULT } else { EINVAL }, None::<u64>)
                &&& final(sched)@ == v
                &&& *final(um) == *old(um)
            }
        }),
        final(sched)@.wf(),
        final(sched)@.settled(),
{
    let ghost v = sched@;
    if args.arg0 == ARCH_SET_FS {
        if !is_canonical_user(args.arg1) {
            return (EINVAL, None);
        }
        let mut t = sched.current_thread(c);
        t.fs_base = args.arg1;
        proof {
            assert(v.runs_on(t.tid, c as int));
            lemma_thread_change(v, t);
        }
        sched.set_thread(t);
        (0, Some(args.arg1))
    } else if args.arg0 == ARCH_GET_FS {
        if args.arg1 == 0 {
            return (EFAULT, None);
        }
        let fs_base: u64 = sched.current_thread(c).fs_base;
        write_u64(um, args.arg1, fs_base);
        (0, None)
    } else {
        (EINVAL, None)
    }
}

/// The id of the thread on CPU `c`.
pub fn sys_gettid(_args: &SyscallArgs, sched: &Scheduler, c: u32) -> (r: SyscallResult)
    requires
        sched@.wf(),
        running(sched@, c as int),
    ensures
        r == (sched@.cpus[c as int].current->0).0,
{
    let t = sched.current_thread(c);
    assert(sched@.runs_on(t.tid, c as int));
    t.tid.0 as i64
}

/// The code with which the machine stops.
pub fn sys_exit_group(args: &SyscallArgs) -> (code: i32)
    ensures
        code == args.arg0 as i32,
{
    #[verifier::truncate]
    (args.arg0 as i32)
}

/// A name as the system reports it: at most 64 bytes, filled up with zeros.
pub open spec fn name_field(name: Seq<u8>) -> Seq<u8> {
    Seq::new(NAME_SIZE as nat, |k: int| if k < 64 && k < name.len() { name[k] } else { 0 })
}

/// The text "Linux".
pub open spec fn sysname() -> Seq<u8> {
    seq![0x4c, 0x69, 0x6e, 0x75, 0x78]
}

/// The text "sumi".
pub open spec fn nodename() -> Seq<u8> {
    seq![0x73, 0x75, 0x6d, 0x69]
}

/// The text "6.6.0-sumi".
pub open spec fn release() -> Seq<u8> {
    seq![0x36, 0x2e, 0x36, 0x2e, 0x30, 0x2d, 0x73, 0x75, 0x6d, 0x69]
}

/// The text "#1 SMP sumi".
pub open spec fn version() -> Seq<u8> {
    seq![0x23, 0x31, 0x20, 0x53, 0x4d, 0x50, 0x20, 0x73, 0x75, 0x6d, 0x69]
}

/// The text "x86_64".
pub open spec fn machine() -> Seq<u8> {
    seq![0x78, 0x38, 0x36, 0x5f, 0x36, 0x34]
}

/// The text "(none)".
pub open spec fn domainname() -> Seq<u8> {
    seq![0x28, 0x6e, 0x6f, 0x6e, 0x65, 0x29]
}

/// The names of the system, one field after the other.
pub open spec fn names() -> Seq<u8> {
    name_field(sysname()) + name_field(nodename()) + name_field(release()) + name_field(version()) + name_field(machine())
        + name_field(domainname())
}

/// Appends a name as a field.
fn write_field(buf: &mut Vec<u8>, val: &[u8])
    ensures
        final(buf)@ == old(buf)@ + name_field(val@),
{
    let mut k: usize = 0;
    assert(buf@ =~= old(buf)@ + name_field(val@).take(0));
    while k < 65
        invariant
            k <= 65,
            buf@ == old(buf)@ + name_field(val@).take(k as int),
        decreases 65 - k,
    {
        let b: u8 = if k < 64 && k < val.len() { val[k] } else { 0 };
        buf.push(b);
        k += 1;
        assert(buf@ =~= old(buf)@ + name_field(val@).take(k as int));
    }
    assert(name_field(val@).take(65) =~= name_field(val@));
}

/// Writes the names of the system.
pub fn sys_uname<M: Memory>(args: &SyscallArgs, um: &mut M) -> (r: SyscallResult)
    requires
        args.arg0 != 0 ==> reachable(old(um), args.arg0, 6 * NAME_SIZE),
    ensures
        args.arg0 == 0 ==> r == EFAULT && *final(um) == *old(um),
        args.arg0 != 0 ==> r == 0 && wrote(old(um), final(um), args.arg0 as int, names()),
{
    if args.arg0 == 0 {
        return EFAULT;
    }
    let a: Vec<u8> = vec![0x4c, 0x69, 0x6e, 0x75, 0x78];
    let b: Vec<u8> = vec![0x73, 0x75, 0x6d, 0x69];
    let c: Vec<u8> = vec![0x36, 0x2e, 0x36, 0x2e, 0x30, 0x2d, 0x73, 0x75, 0x6d, 0x69];
    let d: Vec<u8> = vec![0x23, 0x31, 0x20, 0x53, 0x4d, 0x50, 0x20, 0x73, 0x75, 0x6d, 0x69];
    let e: Vec<u8> = vec![0x78, 0x38, 0x36, 0x5f, 0x36, 0x34];
    let f: Vec<u8> = vec![0x28, 0x6e, 0x6f, 0x6e, 0x65, 0x29];
    assert(a@ =~= sysname());
    assert(b@ =~= nodename());
    assert(c@ =~= release());
    assert(d@ =~= version());
    assert(e@ =~= machine());
    assert(f@ =~= domainname());
    let mut buf: Vec<u8> = Vec::new();
    write_field(&mut buf, a.as_slice());
    write_field(&mut buf, b.as_slice());
    write_field(&mut buf, c.as_slice());
    write_field(&mut buf, d.as_slice());
    write_field(&mut buf, e.as_slice());
    write_field(&mut buf, f.as_slice());
    assert(buf@ =~= names());
    write_bytes(um, args.arg0, buf.as_slice());
    0
}

/// Remembers the address that the thread on CPU `c` clears when it ends. Gives back its id.
pub fn sys_set_tid_address(args: &SyscallArgs, sched: &mut Scheduler, c: u32) -> (r: SyscallResult)
    requires
        old(sched)@.wf(),
        old(sched)@.settled(),
        running(old(sched)@, c as int),
    ensures
        r == (old(sched)@.cpus[c as int].current->0).0,
        final(sched)@ == old(sched)@.with_thread((Thread { clear_child_tid: args.arg0, ..me(old(sched)@, c as int) })),
        final(sched)@.wf(),
        final(sched)@.settled(),
{
    let ghost v = sched@;
    let mut t = sched.current_thread(c);
    t.clear_child_tid = args.arg0;
    proof {
        assert(v.runs_on(t.tid, c as int));
        lemma_thread_change(v, t);
    }
    sched.set_thread(t);
    t.tid.0 as i64
}

/// Accepts names of mappings, which are not kept, and nothing else.
pub fn sys_prctl(args: &SyscallArgs) -> (r: SyscallResult)
    ensures
        r == (if args.arg0 == PR_SET_VMA { 0 } else { EINVAL }),
{
    if args.arg0 == PR_SET_VMA { 0 } else { EINVAL }
}

/// What is known of the machine, as words: the time since boot in seconds, the amount of
/// memory and of free memory in bytes, one process, and a byte as the unit.
pub open spec fn machine_info(uptime: u64, total: u64, free: u64) -> Seq<u64> {
    seq![uptime, 0, 0, 0, total, free, 0, 0, 0, 0, 1, 0, 0, 1]
}

/// Bytes in so many pages.
pub open spec fn page_bytes(pages: int) -> u64 {
    (pages * PAGE_SIZE) as u64
}

/// Pages that are left to hand out.
pub open spec fn free_pages_of(used: Seq<bool>) -> int {
    let limit = PAGE_COUNT - RESERVED_PAGES;
    saturating_sub(limit, saturating_sub(count_used(used) as int, RESERVED_PAGES as int))
}

/// Writes what is known of the machine.
pub fn sys_sysinfo<M: Memory>(args: &SyscallArgs, um: &mut M, clock: &Clock, tsc: u64, palloc: &PageAllocator) -> (r:
    SyscallResult)
    requires
        args.arg0 != 0 ==> reachable(old(um), args.arg0, 112),
        palloc.wf(),
    ensures
        args.arg0 == 0 ==> r == EFAULT && *final(um) == *old(um),
        args.arg0 != 0 ==> r == 0 && wrote(
            old(um),
            final(um),
            args.arg0 as int,
            le_words(
                machine_info(
                    (elapsed_ns(*clock, tsc) / NS_PER_SEC as int) as u64,
                    page_bytes(PAGE_COUNT - RESERVED_PAGES),
                    page_bytes(free_pages_of(palloc@)),
                ),
            ),
        ),
{
    if args.arg0 == 0 {
        return EFAULT;
    }
    let uptime: u64 = monotonic_ns(clock, tsc) / NS_PER_SEC;
    let stats = palloc.get_stats();
    let total_pages: u64 = stats.allocatable_limit_pages;
    let free_pages: u64 = if stats.used_pages <= total_pages { total_pages - stats.used_pages } else { 0 };
    assert(free_pages * PAGE_SIZE <= total_pages * PAGE_SIZE);
    let words: Vec<u64> = vec![
        uptime,
        0,
        0,
        0,
        total_pages * PAGE_SIZE,
        free_pages * PAGE_SIZE,
        0,
        0,
        0,
        0,
        1,
        0,
        0,
        1,
    ];
    assert(words@ =~= machine_info(uptime, page_bytes(total_pages as int), page_bytes(free_pages as int)));
    write_words(um, args.arg0, words.as_slice());
    0
}

/// There are no permissions: any mask is accepted, and the usual one reported as the old.
pub fn sys_umask(_args: &SyscallArgs) -> (r: SyscallResult)
    ensures
        r == 0o022,
{
    0o022
}

} // verus!
