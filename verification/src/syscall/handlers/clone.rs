//! New threads.

use vstd::prelude::*;

use crate::address::{VirtualAddr};
use crate::layout::KERNEL_STACK_SIZE;
use crate::memory::access::{from_le64, le32, range, reachable, read_u64, same_window, write_u32, wrote, Memory};
use crate::memory::allocators::kmalloc::{allocated, keeps, natural_alignment, KernelAllocator};
use crate::memory::allocators::palloc::{PageAllocator, peak_grows};
use crate::memory::errors::MemoryError;
use crate::sched::clone::{
    clone_create_user_thread, frame_words, is_new_stack, is_new_user_thread, CloneError, InitialFrame,
};
use crate::sched::kthread::lemma_with_new;
use crate::sched::percpu::Cpu;
use crate::sched::scheduler::{lemma_bookkeeping, lemma_join, running, Sched, Scheduler};
use crate::sched::thread::{Thread, ThreadState, Tid};
use crate::syscall::args::{SyscallArgs, SyscallResult};
use crate::syscall::errno::{EINVAL, ENOMEM};
use crate::syscall::handlers::process::{is_canonical, me};

verus! {

broadcast use crate::memory::allocators::palloc::group_peak;

pub const CLONE_VM: u64 = 0x0000_0100;

pub const CLONE_FS: u64 = 0x0000_0200;

pub const CLONE_FILES: u64 = 0x0000_0400;

pub const CLONE_SIGHAND: u64 = 0x0000_0800;

pub const CLONE_THREAD: u64 = 0x0001_0000;

pub const CLONE_SETTLS: u64 = 0x0008_0000;

pub const CLONE_PARENT_SETTID: u64 = 0x0010_0000;

pub const CLONE_CHILD_CLEARTID: u64 = 0x0020_0000;

pub const CLONE_CHILD_SETTID: u64 = 0x0100_0000;

/// The flags that every new thread has to have: all of the above up to `CLONE_THREAD`.
pub const REQUIRED: u64 = 0x0001_0f00;

/// Size of the first version of the arguments of `clone3`.
pub const CLONE_ARGS_SIZE_VER0: u64 = 64;

/// What a new thread is to be like.
#[derive(Clone, Copy, Debug, PartialEq, Eq, Structural)]
pub struct Request {
    pub flags: u64,
    pub stack_top: u64,
    pub ptid: u64,
    pub ctid: u64,
    pub tls: u64,
}

impl Request {
    /// The base of the thread-local storage.
    pub open spec fn fs_base(self) -> u64 {
        if self.flags & CLONE_SETTLS != 0 { self.tls } else { 0 }
    }

    /// The address to clear when the thread ends.
    pub open spec fn clear_ctid(self) -> u64 {
        if self.flags & CLONE_CHILD_CLEARTID != 0 { self.ctid } else { 0 }
    }

    /// The id is written for the parent.
    pub open spec fn tells_parent(self) -> bool {
        self.flags & CLONE_PARENT_SETTID != 0 && self.ptid != 0
    }

    /// The id is written for the child.
    pub open spec fn tells_child(self) -> bool {
        self.flags & CLONE_CHILD_SETTID != 0 && self.ctid != 0
    }
}

/// The registers of the new thread: those of its parent, but for the stack pointer.
pub open spec fn child_frame(args: SyscallArgs, stack_top: u64) -> InitialFrame {
    InitialFrame {
        arg0: args.arg0,
        arg1: args.arg1,
        arg2: args.arg2,
        arg3: args.arg3,
        arg4: args.arg4,
        arg5: args.arg5,
        user_rip: args.caller_rip,
        user_rflags: args.caller_rflags,
        user_rsp: stack_top,
    }
}

/// The id of the new thread is written at `ptid` and then at `ctid`, as far as asked for.
pub open spec fn told<M: Memory>(before: &M, after: &M, q: Request, tid: u32) -> bool {
    if q.tells_parent() && q.tells_child() {
        exists|mid: M| wrote(before, &mid, q.ptid as int, le32(tid)) && #[trigger] wrote(&mid, after, q.ctid as int, le32(tid))
    } else if q.tells_parent() {
        wrote(before, after, q.ptid as int, le32(tid))
    } else if q.tells_child() {
        wrote(before, after, q.ctid as int, le32(tid))
    } else {
        *after == *before
    }
}

/// The scheduler with the next id given out.
pub open spec fn numbered(v: Sched) -> Sched {
    Sched { next_tid: v.next_tid + 1, ..v }
}

/// The scheduler after `t` was added to the queue of CPU `c`, which is to reschedule.
pub open spec fn started(v: Sched, c: int, t: Thread) -> Sched {
    let w = Sched { next_tid: v.next_tid + 1, live: v.live.wrapping_add(1), ..v.with_thread(t) };
    w.with_cpu(c, Cpu { queue: v.cpus[c].queue.push(t.tid), need_resched: true, ..v.cpus[c] })
}

/// The scheduler, the heap and the memory around a call that makes a thread.
pub struct World<M> {
    pub sched: Sched,
    pub heap: KernelAllocator,
    pub used: Seq<bool>,
    pub dm: M,
    pub um: M,
}

/// `r` is what a valid request for a thread from the thread on CPU `c` comes to.
pub open spec fn cloned<M: Memory>(
    args: SyscallArgs,
    q: Request,
    trampoline: u64,
    c: int,
    a: World<M>,
    b: World<M>,
    r: SyscallResult,
) -> bool {
    let tid = Tid(a.sched.next_tid as u32);
    if !is_canonical(q.fs_base()) {
        r == EINVAL && b == (World { sched: numbered(a.sched), ..a })
    } else if r == ENOMEM {
        &&& allocated(
            a.heap,
            b.heap,
            a.used,
            b.used,
            KERNEL_STACK_SIZE as int,
            natural_alignment(KERNEL_STACK_SIZE as int),
            Err(MemoryError::OutOfMemory),
        )
        &&& b.sched == numbered(a.sched)
        &&& b.um == a.um
    } else {
        let t = b.sched.thread(tid);
        &&& r == tid.0
        &&& allocated(
            a.heap,
            b.heap,
            a.used,
            b.used,
            KERNEL_STACK_SIZE as int,
            natural_alignment(KERNEL_STACK_SIZE as int),
            Ok(t.kernel_stack_phys),
        )
        &&& t.state is Runnable
        &&& is_new_user_thread(
            (Thread { state: ThreadState::New, ..t }),
            tid,
            me(a.sched, c).tgid,
            q.fs_base(),
            VirtualAddr(0),
            0,
            q.clear_ctid(),
            t.kernel_stack_phys,
        )
        &&& is_new_stack(&b.dm, t.kernel_stack_phys, frame_words(trampoline, child_frame(args, q.stack_top)))
        &&& told(&a.um, &b.um, q, tid.0)
        &&& b.sched == started(a.sched, c, t)
    }
}

/// Makes a thread for a request that was found valid.
fn do_clone<M: Memory>(
    q: Request,
    args: &SyscallArgs,
    trampoline: u64,
    sched: &mut Scheduler,
    c: u32,
    heap: &mut KernelAllocator,
    palloc: &mut PageAllocator,
    dm: &mut M,
    um: &mut M,
) -> (r: SyscallResult)
    requires
        old(sched)@.wf(),
        old(sched)@.settled(),
        running(old(sched)@, c as int),
        old(sched)@.next_tid < u32::MAX,
        old(palloc).wf(),
        old(heap).wf(old(palloc)@, old(dm)),
        q.tells_parent() ==> reachable(old(um), q.ptid, 4),
        q.tells_child() ==> reachable(old(um), q.ctid, 4),
    ensures
        peak_grows(old(palloc)@, old(palloc).peak(), final(palloc)@, final(palloc).peak()),
        cloned(
            *args,
            q,
            trampoline,
            c as int,
            (World { sched: old(sched)@, heap: *old(heap), used: old(palloc)@, dm: *old(dm), um: *old(um) }),
            (World { sched: final(sched)@, heap: *final(heap), used: final(palloc)@, dm: *final(dm), um: *final(um) }),
            r,
        ),
        final(sched)@.wf(),
        final(sched)@.settled(),
        final(palloc).wf(),
        final(heap).wf(final(palloc)@, final(dm)),
        same_window(old(dm), final(dm)),
        keeps(old(dm), final(dm), old(heap).live()),
{
    let ghost v = sched@;
    let parent = sched.current_thread(c);
    assert(v.runs_on(parent.tid, c as int));
    let tid = sched.threads.alloc_tid();
    proof {
        assert(sched@ =~= numbered(v));
        lemma_bookkeeping(v, numbered(v));
        assert(!v.has(tid)) by {
            if v.has(tid) {
                assert(v.threads.contains_key(tid.0));
            }
        }
    }
    let fs_base: u64 = if q.flags & CLONE_SETTLS != 0 { q.tls } else { 0 };
    assert((fs_base >> 47 != 0) <==> fs_base >= 0x8000_0000_0000) by (bit_vector);
    if (fs_base >> 47) != 0 {
        return EINVAL;
    }
    let clear_ctid: u64 = if q.flags & CLONE_CHILD_CLEARTID != 0 { q.ctid } else { 0 };
    let frame = InitialFrame {
        arg0: args.arg0,
        arg1: args.arg1,
        arg2: args.arg2,
        arg3: args.arg3,
        arg4: args.arg4,
        arg5: args.arg5,
        user_rip: args.caller_rip,
        user_rflags: args.caller_rflags,
        user_rsp: q.stack_top,
    };
    let mut child = match clone_create_user_thread(
        tid,
        parent.tgid,
        frame,
        fs_base,
        VirtualAddr::new(0),
        0,
        clear_ctid,
        trampoline,
        heap,
        palloc,
        dm,
    ) {
        Ok(t) => t,
        Err(CloneError::OutOfMemory) => {
            return ENOMEM;
        },
    };
    if q.flags & CLONE_PARENT_SETTID != 0 && q.ptid != 0 {
        write_u32(um, q.ptid, tid.0);
    }
    let ghost mid = *um;
    if q.flags & CLONE_CHILD_SETTID != 0 && q.ctid != 0 {
        write_u32(um, q.ctid, tid.0);
    }
    proof {
        assert(told(old(um), um, q, tid.0)) by {
            if q.tells_parent() && q.tells_child() {
                assert(wrote(old(um), &mid, q.ptid as int, le32(tid.0)) && wrote(&mid, um, q.ctid as int, le32(tid.0)));
            }
        }
    }
    child.state = ThreadState::Runnable;
    let ghost n = numbered(v);
    proof {
        lemma_with_new(v, child, v.next_tid + 1);
    }
    sched.threads.register(child);
    sched.live_user_threads = sched.live_user_threads.wrapping_add(1);
    let ghost w0 = Sched { next_tid: v.next_tid + 1, ..v.with_thread(child) };
    let ghost w = sched@;
    proof {
        assert(w =~= Sched { live: v.live.wrapping_add(1), ..w0 });
        lemma_bookkeeping(w0, w);
        assert forall|d: int| !w.queued_on(tid, d) && !w.idles_on(tid, d) && !w.runs_on(tid, d) by {
            assert(!v.queued_on(tid, d) && !v.idles_on(tid, d) && !v.runs_on(tid, d));
        }
        let cpu = Cpu { queue: w.cpus[c as int].queue.push(tid), need_resched: true, ..w.cpus[c as int] };
        lemma_join(w, tid, c as int, cpu);
        assert(!w.queued_on(tid, c as int));
        assert(sched@.cpus.len() == sched.cpus@.len());
    }
    sched.push_queue(c as usize, &child);
    assert(sched@.cpus.len() == sched.cpus@.len());
    sched.set_need_resched(c as usize, true);
    assert(sched@ =~= started(v, c as int, child));
    tid.0 as i64
}

/// The thread that `clone` asks for.
pub open spec fn clone_request(args: SyscallArgs) -> Request {
    Request { flags: args.arg0, stack_top: args.arg1, ptid: args.arg2, ctid: args.arg3, tls: args.arg4 }
}

/// A request that can be served: a thread that shares everything, with a stack.
pub open spec fn is_valid(q: Request) -> bool {
    q.flags & REQUIRED == REQUIRED && q.stack_top != 0
}

/// Makes a thread. The parent gets its id; the new thread starts after the call, on its
/// own stack, and gets 0.
pub fn sys_clone<M: Memory>(
    args: &SyscallArgs,
    trampoline: u64,
    sched: &mut Scheduler,
    c: u32,
    heap: &mut KernelAllocator,
    palloc: &mut PageAllocator,
    dm: &mut M,
    um: &mut M,
) -> (r: SyscallResult)
    requires
        old(sched)@.wf(),
        old(sched)@.settled(),
        running(old(sched)@, c as int),
        old(sched)@.next_tid < u32::MAX,
        old(palloc).wf(),
        old(heap).wf(old(palloc)@, old(dm)),
        is_valid(clone_request(*args)) && clone_request(*args).tells_parent() ==> reachable(old(um), args.arg2, 4),
        is_valid(clone_request(*args)) && clone_request(*args).tells_child() ==> reachable(old(um), args.arg3, 4),
    ensures
        peak_grows(old(palloc)@, old(palloc).peak(), final(palloc)@, final(palloc).peak()),
        !is_valid(clone_request(*args)) ==> {
            &&& r == EINVAL
            &&& final(sched)@ == old(sched)@
            &&& *final(heap) == *old(heap)
            &&& *final(palloc) == *old(palloc)
            &&& *final(dm) == *old(dm)
            &&& *final(um) == *old(um)
        },
        is_valid(clone_request(*args)) ==> cloned(
            *args,
            clone_request(*args),
            trampoline,
            c as int,
            (World { sched: old(sched)@, heap: *old(heap), used: old(palloc)@, dm: *old(dm), um: *old(um) }),
            (World { sched: final(sched)@, heap: *final(heap), used: final(palloc)@, dm: *final(dm), um: *final(um) }),
            r,
        ),
        final(sched)@.wf(),
        final(sched)@.settled(),
        final(palloc).wf(),
        final(heap).wf(final(palloc)@, final(dm)),
        same_window(old(dm), final(dm)),
        keeps(old(dm), final(dm), old(heap).live()),
{
    if args.arg0 & REQUIRED != REQUIRED {
        return EINVAL;
    }
    if args.arg1 == 0 {
        return EINVAL;
    }
    let q = Request { flags: args.arg0, stack_top: args.arg1, ptid: args.arg2, ctid: args.arg3, tls: args.arg4 };
    do_clone(q, args, trampoline, sched, c, heap, palloc, dm, um)
}

/// The word at index `i` of the arguments at `addr`.
pub open spec fn clone_word<M: Memory>(um: &M, addr: u64, i: int) -> u64 {
    from_le64(range(um, addr + 8 * i, 8)) as u64
}

/// The thread that the arguments at `addr` ask for: flags, the id of the child, that of the
/// parent, the stack with its size, and the thread-local storage are words 0, 2, 3, 5, 6 and 7.
pub open spec fn clone3_request<M: Memory>(um: &M, addr: u64) -> Request {
    Request {
        flags: clone_word(um, addr, 0),
        stack_top: (clone_word(um, addr, 5) + clone_word(um, addr, 6)) as u64,
        ptid: clone_word(um, addr, 3),
        ctid: clone_word(um, addr, 2),
        tls: clone_word(um, addr, 7),
    }
}

/// The call has arguments, and they ask for a thread that can be had: the stack does
/// not wrap, and no signal is sent when the thread ends.
pub open spec fn clone3_valid<M: Memory>(args: SyscallArgs, um: &M) -> bool {
    &&& args.arg0 != 0
    &&& args.arg1 >= CLONE_ARGS_SIZE_VER0
    &&& clone_word(um, args.arg0, 5) + clone_word(um, args.arg0, 6) <= u64::MAX
    &&& clone_word(um, args.arg0, 4) == 0
    &&& is_valid(clone3_request(um, args.arg0))
}

/// Like `clone`, with the arguments in memory.
pub fn sys_clone3<M: Memory>(
    args: &SyscallArgs,
    trampoline: u64,
    sched: &mut Scheduler,
    c: u32,
    heap: &mut KernelAllocator,
    palloc: &mut PageAllocator,
    dm: &mut M,
    um: &mut M,
) -> (r: SyscallResult)
    requires
        old(sched)@.wf(),
        old(sched)@.settled(),
        running(old(sched)@, c as int),
        old(sched)@.next_tid < u32::MAX,
        old(palloc).wf(),
        old(heap).wf(old(palloc)@, old(dm)),
        args.arg0 != 0 && args.arg1 >= CLONE_ARGS_SIZE_VER0 ==> reachable(old(um), args.arg0, 64),
        clone3_valid(*args, old(um)) ==> {
            let q = clone3_request(old(um), args.arg0);
            &&& q.tells_parent() ==> reachable(old(um), q.ptid, 4)
            &&& q.tells_child() ==> reachable(old(um), q.ctid, 4)
        },
    ensures
        peak_grows(old(palloc)@, old(palloc).peak(), final(palloc)@, final(palloc).peak()),
        !clone3_valid(*args, old(um)) ==> {
            &&& r == EINVAL
            &&& final(sched)@ == old(sched)@
            &&& *final(heap) == *old(heap)
            &&& *final(palloc) == *old(palloc)
            &&& *final(dm) == *old(dm)
            &&& *final(um) == *old(um)
        },
        clone3_valid(*args, old(um)) ==> cloned(
            *args,
            clone3_request(old(um), args.arg0),
            trampoline,
            c as int,
            (World { sched: old(sched)@, heap: *old(heap), used: old(palloc)@, dm: *old(dm), um: *old(um) }),
            (World { sched: final(sched)@, heap: *final(heap), used: final(palloc)@, dm: *final(dm), um: *final(um) }),
            r,
        ),
        final(sched)@.wf(),
        final(sched)@.settled(),
        final(palloc).wf(),
        final(heap).wf(final(palloc)@, final(dm)),
        same_window(old(dm), final(dm)),
        keeps(old(dm), final(dm), old(heap).live()),
{
    let addr: u64 = args.arg0;
    if addr == 0 {
        return EINVAL;
    }
    if args.arg1 < CLONE_ARGS_SIZE_VER0 {
        return EINVAL;
    }
    let flags: u64 = read_u64(um, addr);
    let child_tid: u64 = read_u64(um, addr + 16);
    let parent_tid: u64 = read_u64(um, addr + 24);
    let exit_signal: u64 = read_u64(um, addr + 32);
    let stack: u64 = read_u64(um, addr + 40);
    let stack_size: u64 = read_u64(um, addr + 48);
    let tls: u64 = read_u64(um, addr + 56);
    let stack_top: u64 = match stack.checked_add(stack_size) {
        Some(v) => v,
        None => {
            return EINVAL;
        },
    };
    if exit_signal != 0 {
        return EINVAL;
    }
    if flags & REQUIRED != REQUIRED {
        return EINVAL;
    }
    if stack_top == 0 {
        return EINVAL;
    }
    let q = Request { flags, stack_top, ptid: parent_tid, ctid: child_tid, tls };
    assert(q == clone3_request(um, addr));
    do_clone(q, args, trampoline, sched, c, heap, palloc, dm, um)
}

} // verus!
