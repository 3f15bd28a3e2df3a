//! How new threads start.

use vstd::prelude::*;

use super::words::{lemma_u64_at, lemma_word_of, lemma_wrote_u32, u32_at, u64_at};
use crate::layout::DIRECT_MAP_OFFSET;
use crate::memory::access::{le32, within, wrote, Memory};
use crate::memory::allocators::kmalloc::KernelAllocator;
use crate::memory::allocators::palloc::PageAllocator;
use crate::sched::clone::frame_words;
use crate::sched::scheduler::{running, Sched, Scheduler};
use crate::sched::thread::{Thread, Tid};
use crate::syscall::args::{SyscallArgs, SyscallResult};
use crate::syscall::handlers::clone::{child_frame, clone3_request, clone_request, cloned, sys_clone, sys_clone3, told, Request, World};

verus! {

/// The end of the kernel stack of the thread, in physical memory.
pub open spec fn stack_end(t: Thread) -> int {
    t.kernel_stack_phys.0 + t.kernel_stack_size
}

/// The thread enters the kernel's trampoline with the registers of the call on its stack, to go on where the caller goes on,
/// but with the user's stack pointer at `stack_top`.
pub open spec fn starts_on<M: Memory>(dm: &M, t: Thread, args: SyscallArgs, trampoline: u64, stack_top: int) -> bool {
    let end = stack_end(t);
    &&& t.kernel_stack_size == 0x8000
    &&& t.kernel_stack_top.0 == (end + DIRECT_MAP_OFFSET) as u64
    &&& t.ctx.rsp == (t.kernel_stack_top.0 - 80) as u64
    &&& u64_at(dm, end - 80) == trampoline
    &&& u64_at(dm, end - 72) == args.arg0
    &&& u64_at(dm, end - 64) == args.arg1
    &&& u64_at(dm, end - 56) == args.arg2
    &&& u64_at(dm, end - 48) == args.arg3
    &&& u64_at(dm, end - 40) == args.arg4
    &&& u64_at(dm, end - 32) == args.arg5
    &&& u64_at(dm, end - 24) == args.caller_rip
    &&& u64_at(dm, end - 16) == args.caller_rflags
    &&& u64_at(dm, end - 8) == stack_top
}

/// There is a new thread with the id `tid`, last in the queue of CPU `c`, and it belongs to the group of the thread that runs
/// there. All other threads are as they were.
pub open spec fn joined(v: Sched, w: Sched, c: int, tid: int) -> bool {
    let k = tid as u32;
    &&& 2 <= tid <= u32::MAX
    &&& !v.threads.contains_key(k)
    &&& w.threads.contains_key(k)
    &&& w.threads[k].tid == Tid(k)
    &&& w.threads[k].tgid == v.threads[(v.cpus[c].current->0).0].tgid
    &&& w.threads[k].state is Runnable
    &&& w.cpus[c].queue == v.cpus[c].queue.push(Tid(k))
    &&& w.cpus[c].need_resched
    &&& w.next_tid == v.next_tid + 1
    &&& w.live == v.live.wrapping_add(1)
    &&& forall|i: u32| #![trigger w.threads[i]] v.threads.contains_key(i) ==> w.threads.contains_key(i) && w.threads[i] == v.threads[i]
    &&& forall|d: int| 0 <= d < v.cpus.len() && d != c ==> #[trigger] w.cpus[d] == v.cpus[d]
}

/// The id is in memory where the parent and the child are to find it, and nothing else has changed there.
pub open spec fn ids_told<M: Memory>(before: &M, after: &M, parent: bool, ptid: int, child: bool, ctid: int, tid: int) -> bool {
    &&& child ==> u32_at(after, ctid) == tid
    &&& parent && (!child || ptid + 4 <= ctid || ctid + 4 <= ptid) ==> u32_at(after, ptid) == tid
    &&& after.base() == before.base() && after.bytes().len() == before.bytes().len()
    &&& forall|a: int|
        #![trigger after.bytes()[a - after.base()]]
        within(before, a, 1) && !(parent && ptid <= a < ptid + 4) && !(child && ctid <= a < ctid + 4) ==> after.bytes()[a
            - after.base()] == before.bytes()[a - before.base()]
}

proof fn lemma_told<M: Memory>(before: &M, after: &M, q: Request, tid: u32)
    requires
        told(before, after, q, tid),
        q.tells_parent() ==> within(before, q.ptid as int, 4),
        q.tells_child() ==> within(before, q.ctid as int, 4),
    ensures
        ids_told(
            before,
            after,
            q.flags & 0x10_0000 != 0 && q.ptid != 0,
            q.ptid as int,
            q.flags & 0x100_0000 != 0 && q.ctid != 0,
            q.ctid as int,
            tid as int,
        ),
{
    if q.tells_parent() && q.tells_child() {
        let mid = choose|mid: M| wrote(before, &mid, q.ptid as int, le32(tid)) && #[trigger] wrote(&mid, after, q.ctid as int, le32(tid));
        lemma_wrote_u32(before, &mid, q.ptid as int, tid);
        lemma_wrote_u32(&mid, after, q.ctid as int, tid);
    } else if q.tells_parent() {
        lemma_wrote_u32(before, after, q.ptid as int, tid);
    } else if q.tells_child() {
        lemma_wrote_u32(before, after, q.ctid as int, tid);
    }
}

proof fn lemma_starts_on<M: Memory>(dm: &M, t: Thread, args: SyscallArgs, trampoline: u64, stack_top: u64)
    requires
        crate::sched::clone::is_new_stack(dm, t.kernel_stack_phys, frame_words(trampoline, child_frame(args, stack_top))),
        t.kernel_stack_size == 0x8000,
        t.kernel_stack_top.0 == (stack_end(t) + DIRECT_MAP_OFFSET) as u64,
        t.ctx.rsp == (t.kernel_stack_top.0 - 80) as u64,
    ensures
        starts_on(dm, t, args, trampoline, stack_top as int),
{
    let ws = frame_words(trampoline, child_frame(args, stack_top));
    let a = stack_end(t) - 80;
    assert forall|i: int| 0 <= i < 10 implies u64_at(dm, a + 8 * i) == #[trigger] ws[i] by {
        lemma_word_of(dm, a, ws, i);
    }
    assert(u64_at(dm, a + 8 * 0) == ws[0]);
    assert(u64_at(dm, a + 8 * 1) == ws[1]);
    assert(u64_at(dm, a + 8 * 2) == ws[2]);
    assert(u64_at(dm, a + 8 * 3) == ws[3]);
    assert(u64_at(dm, a + 8 * 4) == ws[4]);
    assert(u64_at(dm, a + 8 * 5) == ws[5]);
    assert(u64_at(dm, a + 8 * 6) == ws[6]);
    assert(u64_at(dm, a + 8 * 7) == ws[7]);
    assert(u64_at(dm, a + 8 * 8) == ws[8]);
    assert(u64_at(dm, a + 8 * 9) == ws[9]);
}

proof fn lemma_cloned<M: Memory>(args: SyscallArgs, q: Request, trampoline: u64, c: int, a: World<M>, b: World<M>, r: SyscallResult)
    requires
        cloned(args, q, trampoline, c, a, b, r),
        r >= 0,
        running(a.sched, c),
        a.sched.registered(),
        a.sched.next_tid < u32::MAX,
    ensures
        joined(a.sched, b.sched, c, r as int),
        starts_on(&b.dm, b.sched.threads[r as u32], args, trampoline, q.stack_top as int),
        b.sched.threads[r as u32].fs_base == (if q.flags & 0x8_0000 != 0 { q.tls } else { 0 }),
        b.sched.threads[r as u32].clear_child_tid == (if q.flags & 0x20_0000 != 0 { q.ctid } else { 0 }),
        told(&a.um, &b.um, q, r as u32),
{
    let t = b.sched.threads[r as u32];
    assert(!a.sched.threads.contains_key(r as u32));
    lemma_starts_on(&b.dm, t, args, trampoline, q.stack_top);
}

/// A thread that `clone3` makes starts at the far end of the stack that it was given: the words at 40 and 48 of the arguments
/// are the start and the size of the stack, and their sum is the stack pointer. The word at 56 is the base of its thread-local
/// storage, if the flags, the word at 0, say so; and the word at 16 is where its id is cleared at its end, if they say so.
#[verifier::rlimit(60)]
#[verifier::spinoff_prover]
pub proof fn law_clone3_starts_at_the_far_end<M: Memory>(
    args: &SyscallArgs,
    trampoline: u64,
    sched: &mut Scheduler,
    c: u32,
    heap: &mut KernelAllocator,
    palloc: &mut PageAllocator,
    dm: &mut M,
    um: &mut M,
    r: SyscallResult,
)
    requires
        call_ensures(sys_clone3::<M>, (args, trampoline, sched, c, heap, palloc, dm, um), r),
        old(sched)@.wf(),
        running(old(sched)@, c as int),
        old(sched)@.next_tid < u32::MAX,
        r >= 0,
        within(old(um), args.arg0 as int, 64),
        u64_at(old(um), args.arg0 as int) as u64 & 0x10_0000 != 0 && u64_at(old(um), args.arg0 + 24) != 0 ==> within(
            old(um),
            u64_at(old(um), args.arg0 + 24),
            4,
        ),
        u64_at(old(um), args.arg0 as int) as u64 & 0x100_0000 != 0 && u64_at(old(um), args.arg0 + 16) != 0 ==> within(
            old(um),
            u64_at(old(um), args.arg0 + 16),
            4,
        ),
    ensures
        ({
            let ptid = u64_at(old(um), args.arg0 + 24);
            let ctid = u64_at(old(um), args.arg0 + 16);
            let parent = u64_at(old(um), args.arg0 as int) as u64 & 0x10_0000 != 0 && ptid != 0;
            let child = u64_at(old(um), args.arg0 as int) as u64 & 0x100_0000 != 0 && ctid != 0;
            ids_told(old(um), final(um), parent, ptid, child, ctid, r as int)
        }),
        ({
            let flags = u64_at(old(um), args.arg0 as int) as u64;
            let t = final(sched)@.threads[r as u32];
            &&& joined(old(sched)@, final(sched)@, c as int, r as int)
            &&& starts_on(
                final(dm),
                t,
                *args,
                trampoline,
                u64_at(old(um), args.arg0 + 40) + u64_at(old(um), args.arg0 + 48),
            )
            &&& t.fs_base == (if flags & 0x8_0000 != 0 { u64_at(old(um), args.arg0 + 56) } else { 0 })
            &&& t.clear_child_tid == (if flags & 0x20_0000 != 0 { u64_at(old(um), args.arg0 + 16) } else { 0 })
            &&& flags & 0x1_0f00 == 0x1_0f00
            &&& u64_at(old(um), args.arg0 + 32) == 0
            &&& args.arg0 != 0 && args.arg1 >= 64
        }),
{
    let a = args.arg0 as int;
    lemma_u64_at(old(um), a + 8 * 0);
    lemma_u64_at(old(um), a + 8 * 2);
    lemma_u64_at(old(um), a + 8 * 3);
    lemma_u64_at(old(um), a + 8 * 4);
    lemma_u64_at(old(um), a + 8 * 5);
    lemma_u64_at(old(um), a + 8 * 6);
    lemma_u64_at(old(um), a + 8 * 7);
    let q = clone3_request(old(um), args.arg0);
    let v = World { sched: old(sched)@, heap: *old(heap), used: old(palloc)@, dm: *old(dm), um: *old(um) };
    let w = World { sched: final(sched)@, heap: *final(heap), used: final(palloc)@, dm: *final(dm), um: *final(um) };
    lemma_cloned(*args, q, trampoline, c as int, v, w, r);
    lemma_told(old(um), final(um), q, r as u32);
}

/// A thread that `clone` makes starts with its stack pointer at the second argument.
pub proof fn law_clone_starts_on_the_stack<M: Memory>(
    args: &SyscallArgs,
    trampoline: u64,
    sched: &mut Scheduler,
    c: u32,
    heap: &mut KernelAllocator,
    palloc: &mut PageAllocator,
    dm: &mut M,
    um: &mut M,
    r: SyscallResult,
)
    requires
        call_ensures(sys_clone::<M>, (args, trampoline, sched, c, heap, palloc, dm, um), r),
        old(sched)@.wf(),
        running(old(sched)@, c as int),
        old(sched)@.next_tid < u32::MAX,
        r >= 0,
        args.arg0 & 0x10_0000 != 0 && args.arg2 != 0 ==> within(old(um), args.arg2 as int, 4),
        args.arg0 & 0x100_0000 != 0 && args.arg3 != 0 ==> within(old(um), args.arg3 as int, 4),
    ensures
        ({
            let t = final(sched)@.threads[r as u32];
            let parent = args.arg0 & 0x10_0000 != 0 && args.arg2 != 0;
            let child = args.arg0 & 0x100_0000 != 0 && args.arg3 != 0;
            &&& joined(old(sched)@, final(sched)@, c as int, r as int)
            &&& starts_on(final(dm), t, *args, trampoline, args.arg1 as int)
            &&& t.fs_base == (if args.arg0 & 0x8_0000 != 0 { args.arg4 } else { 0 })
            &&& t.clear_child_tid == (if args.arg0 & 0x20_0000 != 0 { args.arg3 } else { 0 })
            &&& args.arg0 & 0x1_0f00 == 0x1_0f00
            &&& args.arg1 != 0
            &&& ids_told(old(um), final(um), parent, args.arg2 as int, child, args.arg3 as int, r as int)
        }),
{
    let q = clone_request(*args);
    let v = World { sched: old(sched)@, heap: *old(heap), used: old(palloc)@, dm: *old(dm), um: *old(um) };
    let w = World { sched: final(sched)@, heap: *final(heap), used: final(palloc)@, dm: *final(dm), um: *final(um) };
    lemma_cloned(*args, q, trampoline, c as int, v, w, r);
    lemma_told(old(um), final(um), q, r as u32);
}

/// When `clone` makes no thread: if the flags or the stack will not do, or the base of the thread-local storage is no address
/// of the user, or there is no memory for the kernel's stack.
pub proof fn law_clone_refuses<M: Memory>(
    args: &SyscallArgs,
    trampoline: u64,
    sched: &mut Scheduler,
    c: u32,
    heap: &mut KernelAllocator,
    palloc: &mut PageAllocator,
    dm: &mut M,
    um: &mut M,
    r: SyscallResult,
)
    requires
        call_ensures(sys_clone::<M>, (args, trampoline, sched, c, heap, palloc, dm, um), r),
        old(sched)@.wf(),
        old(sched)@.next_tid < u32::MAX,
    ensures
        ({
            let fit = args.arg0 & 0x1_0f00 == 0x1_0f00 && args.arg1 != 0;
            let low = args.arg0 & 0x8_0000 == 0 || args.arg4 < 0x8000_0000_0000;
            &&& !fit ==> r == -22 && final(sched)@ == old(sched)@ && *final(dm) == *old(dm)
            &&& fit && !low ==> r == -22
            &&& fit && low ==> r == -12 || r == old(sched)@.next_tid
            &&& r < 0 ==> *final(um) == *old(um) && final(sched)@.threads == old(sched)@.threads && final(sched)@.cpus == old(
                sched,
            )@.cpus && final(sched)@.live == old(sched)@.live
        }),
{
}

/// When `clone3` makes no thread: if the arguments are missing or too short, name a signal, or a stack that wraps; else as `clone`.
#[verifier::rlimit(60)]
#[verifier::spinoff_prover]
pub proof fn law_clone3_refuses<M: Memory>(
    args: &SyscallArgs,
    trampoline: u64,
    sched: &mut Scheduler,
    c: u32,
    heap: &mut KernelAllocator,
    palloc: &mut PageAllocator,
    dm: &mut M,
    um: &mut M,
    r: SyscallResult,
)
    requires
        call_ensures(sys_clone3::<M>, (args, trampoline, sched, c, heap, palloc, dm, um), r),
        old(sched)@.wf(),
        old(sched)@.next_tid < u32::MAX,
        args.arg0 != 0 && args.arg1 >= 64 ==> within(old(um), args.arg0 as int, 64),
    ensures
        ({
            let flags = u64_at(old(um), args.arg0 as int) as u64;
            let top = u64_at(old(um), args.arg0 + 40) + u64_at(old(um), args.arg0 + 48);
            let fit = args.arg0 != 0 && args.arg1 >= 64 && flags & 0x1_0f00 == 0x1_0f00 && 0 < top <= u64::MAX && u64_at(
                old(um),
                args.arg0 + 32,
            ) == 0;
            let low = flags & 0x8_0000 == 0 || u64_at(old(um), args.arg0 + 56) < 0x8000_0000_0000;
            &&& !fit ==> r == -22 && final(sched)@ == old(sched)@ && *final(dm) == *old(dm)
            &&& fit && !low ==> r == -22
            &&& fit && low ==> r == -12 || r == old(sched)@.next_tid
            &&& r < 0 ==> *final(um) == *old(um) && final(sched)@.threads == old(sched)@.threads && final(sched)@.cpus == old(
                sched,
            )@.cpus && final(sched)@.live == old(sched)@.live
        }),
{
    let a = args.arg0 as int;
    if args.arg0 != 0 && args.arg1 >= 64 {
        lemma_u64_at(old(um), a + 8 * 0);
        lemma_u64_at(old(um), a + 8 * 4);
        lemma_u64_at(old(um), a + 8 * 5);
        lemma_u64_at(old(um), a + 8 * 6);
        lemma_u64_at(old(um), a + 8 * 7);
    }
}

} // verus!
