//! The threads that the kernel starts with: the main thread and the idle threads.

use vstd::prelude::*;

use super::clone::START_FLAGS;
use super::percpu::Cpu;
use super::registry::ThreadRegistry;
use super::scheduler::{lemma_bookkeeping, Sched, Scheduler};
use super::thread::{Thread, ThreadContext, ThreadState, Tid, WaitLink, NEVER_RAN};
use crate::address::{PhysicalAddr, VirtualAddr};
use crate::layout::{DIRECT_MAP_OFFSET, KERNEL_STACK, KERNEL_STACK_SIZE, PAGE_SIZE};
use crate::memory::access::{le64, within, write_u64, wrote, Memory};
use crate::memory::allocators::mmap_alloc::reaches_free_pages;
use crate::memory::allocators::palloc::{lowest_run, mark, PageAllocator, peak_grows};

verus! {

broadcast use crate::memory::allocators::palloc::group_peak;

/// Size of the stack on which each CPU but the first starts.
pub const AP_BOOT_STACK_SIZE: u64 = 0x4000;

/// `t` is a thread of the kernel with this id, state, stack, CPU and start.
pub open spec fn is_kernel_thread(
    t: Thread,
    tid: Tid,
    state: ThreadState,
    stack_phys: PhysicalAddr,
    stack_top: VirtualAddr,
    stack_size: u64,
    cpu: u32,
    on_cpu: bool,
    entry_fn: u64,
    entry_arg: u64,
) -> bool {
    &&& t.tid == tid
    &&& t.tgid == tid
    &&& t.state == state
    &&& t.kernel_stack_phys == stack_phys
    &&& t.kernel_stack_top == stack_top
    &&& t.kernel_stack_size == stack_size
    &&& !t.kernel_stack_freeable
    &&& t.cpu == cpu
    &&& t.on_cpu == on_cpu
    &&& t.entry_fn == entry_fn
    &&& t.entry_arg == entry_arg
    &&& t.is_fresh()
}

/// Builds a thread of the kernel that, when it is first switched to, goes to `trampoline`,
/// which calls `entry_fn` with `arg`. The address of the trampoline is put on the stack.
pub fn build_kthread_arc<M: Memory>(
    dm: &mut M,
    trampoline: u64,
    entry_fn: u64,
    arg: u64,
    tid: Tid,
    stack_phys: PhysicalAddr,
    stack_top_virt: VirtualAddr,
    stack_size: u64,
) -> (r: Thread)
    requires
        stack_top_virt.0 % 16 == 0,
        stack_top_virt.0 >= DIRECT_MAP_OFFSET + 16,
        within(old(dm), stack_top_virt.0 - DIRECT_MAP_OFFSET - 16, 8),
    ensures
        is_kernel_thread(
            r,
            tid,
            ThreadState::Runnable,
            stack_phys,
            stack_top_virt,
            stack_size,
            NEVER_RAN,
            false,
            entry_fn,
            arg,
        ),
        r.ctx.starts_at((stack_top_virt.0 - 16) as u64, START_FLAGS),
        wrote(old(dm), final(dm), stack_top_virt.0 - DIRECT_MAP_OFFSET - 16, le64(trampoline)),
{
    let top: u64 = stack_top_virt.as_u64();
    let slot: u64 = top - 16;
    write_u64(dm, slot - DIRECT_MAP_OFFSET, trampoline);
    Thread {
        tid,
        tgid: tid,
        state: ThreadState::Runnable,
        exit_code: 0,
        ctx: ThreadContext::new(slot, START_FLAGS),
        kernel_stack_top: stack_top_virt,
        kernel_stack_phys: stack_phys,
        kernel_stack_size: stack_size,
        kernel_stack_freeable: false,
        user_stack_base: VirtualAddr::new(0),
        user_stack_size: 0,
        fs_base: 0,
        clear_child_tid: 0,
        robust_list_head: 0,
        cpu: NEVER_RAN,
        on_cpu: false,
        wait_link: WaitLink::new(),
        entry_fn,
        entry_arg: arg,
    }
}

/// `t` is the thread that the kernel boots on.
pub open spec fn is_main_thread(t: Thread) -> bool {
    &&& is_kernel_thread(
        t,
        Tid(1),
        ThreadState::Running,
        PhysicalAddr((KERNEL_STACK - KERNEL_STACK_SIZE) as u64),
        VirtualAddr((KERNEL_STACK + DIRECT_MAP_OFFSET) as u64),
        KERNEL_STACK_SIZE,
        0,
        true,
        0,
        0,
    )
    &&& t.ctx.starts_at(0, 0)
}

/// The main thread, which runs on the boot stack already; its registers are saved when it
/// first leaves the CPU.
pub fn build_current_main_thread() -> (r: Thread)
    ensures
        is_main_thread(r),
{
    Thread {
        tid: Tid(1),
        tgid: Tid(1),
        state: ThreadState::Running,
        exit_code: 0,
        ctx: ThreadContext::new(0, 0),
        kernel_stack_top: VirtualAddr::new(KERNEL_STACK + DIRECT_MAP_OFFSET),
        kernel_stack_phys: PhysicalAddr::new(KERNEL_STACK - KERNEL_STACK_SIZE),
        kernel_stack_size: KERNEL_STACK_SIZE,
        kernel_stack_freeable: false,
        user_stack_base: VirtualAddr::new(0),
        user_stack_size: 0,
        fs_base: 0,
        clear_child_tid: 0,
        robust_list_head: 0,
        cpu: 0,
        on_cpu: true,
        wait_link: WaitLink::new(),
        entry_fn: 0,
        entry_arg: 0,
    }
}

/// `t` is the idle thread of the first CPU, with a page at `stack` as its stack.
pub open spec fn is_idle_thread(t: Thread, tid: Tid, stack: u64, entry_fn: u64) -> bool {
    let top = (stack + PAGE_SIZE + DIRECT_MAP_OFFSET) as u64;
    &&& is_kernel_thread(
        t,
        tid,
        ThreadState::Runnable,
        PhysicalAddr(stack),
        VirtualAddr(top),
        PAGE_SIZE,
        NEVER_RAN,
        false,
        entry_fn,
        0,
    )
    &&& t.ctx.starts_at((top - 16) as u64, START_FLAGS)
}

/// Builds the idle thread of the first CPU, with a page of its own as the stack. There
/// is none if no page is left.
pub fn build_idle_thread<M: Memory>(
    threads: &mut ThreadRegistry,
    palloc: &mut PageAllocator,
    dm: &mut M,
    trampoline: u64,
    entry_fn: u64,
) -> (r: Option<Thread>)
    requires
        old(palloc).wf(),
        reaches_free_pages(old(dm), old(palloc)@),
        old(threads).wf(),
        old(threads).next() < u32::MAX,
    ensures
        peak_grows(old(palloc)@, old(palloc).peak(), final(palloc)@, final(palloc).peak()),
        final(palloc).wf(),
        final(threads)@ == old(threads)@,
        match lowest_run(old(palloc)@, 1) {
            None => {
                &&& r is None
                &&& *final(palloc) == *old(palloc)
                &&& *final(dm) == *old(dm)
                &&& final(threads).next() == old(threads).next()
            },
            Some(p) => {
                &&& r matches Some(t)
                &&& is_idle_thread(t, Tid(old(threads).next() as u32), (p * PAGE_SIZE) as u64, entry_fn)
                &&& final(palloc)@ == mark(old(palloc)@, p, 1, true)
                &&& wrote(old(dm), final(dm), (p + 1) * PAGE_SIZE - 16, le64(trampoline))
                &&& final(threads).next() == old(threads).next() + 1
            },
        },
{
    proof {
        crate::memory::allocators::palloc::lemma_lowest_run_is_free(palloc@, 1);
        palloc.lemma_page_count();
    }
    let ghost used = palloc@;
    let stack_phys: PhysicalAddr = match palloc.allocate(1) {
        Ok(p) => p,
        Err(_) => {
            return None;
        },
    };
    let ghost p = lowest_run(used, 1)->0;
    proof {
        assert(!used[p]);
        assert(within(dm, p * PAGE_SIZE, PAGE_SIZE as int));
        assert(p * PAGE_SIZE + PAGE_SIZE == (p + 1) * PAGE_SIZE);
    }
    let top: u64 = stack_phys.as_u64() + PAGE_SIZE + DIRECT_MAP_OFFSET;
    let tid = threads.alloc_tid();
    Some(build_kthread_arc(dm, trampoline, entry_fn, 0, tid, stack_phys, VirtualAddr::new(top), PAGE_SIZE))
}

/// `t` is the idle thread of CPU `cpu_id`, which started on its boot stack.
pub open spec fn is_ap_idle_thread(t: Thread, tid: Tid, cpu_id: u32, boot_stacks: u64) -> bool {
    &&& is_kernel_thread(
        t,
        tid,
        ThreadState::Runnable,
        PhysicalAddr(0),
        VirtualAddr((boot_stacks + cpu_id * AP_BOOT_STACK_SIZE + AP_BOOT_STACK_SIZE) as u64),
        AP_BOOT_STACK_SIZE,
        cpu_id,
        true,
        0,
        0,
    )
    &&& t.ctx.starts_at(0, START_FLAGS)
}

/// Builds the idle thread of CPU `cpu_id`, which runs already, on the boot stack of that
/// CPU; the boot stacks start at `boot_stacks`.
pub fn build_idle_thread_for_ap_reusing_boot_stack(threads: &mut ThreadRegistry, cpu_id: u32, boot_stacks: u64) -> (r: Thread)
    requires
        old(threads).wf(),
        old(threads).next() < u32::MAX,
        boot_stacks + (cpu_id + 1) * AP_BOOT_STACK_SIZE <= u64::MAX,
    ensures
        is_ap_idle_thread(r, Tid(old(threads).next() as u32), cpu_id, boot_stacks),
        final(threads).next() == old(threads).next() + 1,
        final(threads)@ == old(threads)@,
{
    let base: u64 = boot_stacks + cpu_id as u64 * AP_BOOT_STACK_SIZE;
    let top: u64 = base + AP_BOOT_STACK_SIZE;
    let tid = threads.alloc_tid();
    Thread {
        tid,
        tgid: tid,
        state: ThreadState::Runnable,
        exit_code: 0,
        ctx: ThreadContext::new(0, START_FLAGS),
        kernel_stack_top: VirtualAddr::new(top),
        kernel_stack_phys: PhysicalAddr::new(0),
        kernel_stack_size: AP_BOOT_STACK_SIZE,
        kernel_stack_freeable: false,
        user_stack_base: VirtualAddr::new(0),
        user_stack_size: 0,
        fs_base: 0,
        clear_child_tid: 0,
        robust_list_head: 0,
        cpu: cpu_id,
        on_cpu: true,
        wait_link: WaitLink::new(),
        entry_fn: 0,
        entry_arg: 0,
    }
}

/// CPU `c` is up, and no thread runs there or waits for it.
pub open spec fn awaits_threads(v: Sched, c: int) -> bool {
    &&& v.online(c)
    &&& v.cpus[c].current is None
    &&& v.cpus[c].idle is None
    &&& v.cpus[c].queue.len() == 0
}

/// A thread with an unused id, below the ids to come, may be added.
pub proof fn lemma_with_new(v: Sched, t: Thread, next: int)
    requires
        v.wf(),
        v.settled(),
        !v.has(t.tid),
        t.tid.0 < next,
        v.next_tid <= next,
    ensures
        (Sched { next_tid: next, ..v.with_thread(t) }).wf(),
        (Sched { next_tid: next, ..v.with_thread(t) }).settled(),
        forall|c: int| !v.runs_on(t.tid, c) && !v.idles_on(t.tid, c) && !v.queued_on(t.tid, c) && !v.waits_in(t.tid, c),
        !v.zombies.contains(t.tid),
        ({
            let w = Sched { next_tid: next, ..v.with_thread(t) };
            &&& forall|u: Tid, d: int| #[trigger] w.queued_on(u, d) <==> v.queued_on(u, d)
            &&& forall|u: Tid, d: int| #[trigger] w.runs_on(u, d) <==> v.runs_on(u, d)
            &&& forall|u: Tid, d: int| #[trigger] w.idles_on(u, d) <==> v.idles_on(u, d)
        }),
{
    let w = Sched { next_tid: next, ..v.with_thread(t) };
    assert forall|u: Tid, d: int| #[trigger] w.queued_on(u, d) <==> v.queued_on(u, d) by {}
    assert forall|u: Tid, d: int| #[trigger] w.runs_on(u, d) <==> v.runs_on(u, d) by {}
    assert forall|u: Tid, d: int| #[trigger] w.idles_on(u, d) <==> v.idles_on(u, d) by {}
    assert forall|u: Tid, d: int| #[trigger] w.waits_in(u, d) <==> v.waits_in(u, d) by {}
    assert forall|i: int| 0 <= i < w.zombies.len() implies w.has(#[trigger] w.zombies[i]) && w.thread(w.zombies[i]).state is Exited by {
        assert(v.has(v.zombies[i]));
        assert(v.zombies[i].0 != t.tid.0) by {
            if v.zombies[i].0 == t.tid.0 {
                assert(v.zombies[i] == t.tid);
            }
        }
    }
    assert(!v.zombies.contains(t.tid)) by {
        if v.zombies.contains(t.tid) {
            let k = choose|k: int| 0 <= k < v.zombies.len() && v.zombies[k] == t.tid;
            assert(v.has(v.zombies[k]));
        }
    }
    assert forall|u: Tid| v.has(u) implies w.has(u) && #[trigger] w.thread(u) == v.thread(u) by {}
    assert(w.registered());
    assert(w.states_agree());
    assert(w.places_differ());
}

/// The scheduler after CPU `c` got `current` to run and `idle` to fall back on.
pub open spec fn staffed(v: Sched, c: int, current: Tid, idle: Tid) -> Sched {
    v.with_cpu(c, Cpu { current: Some(current), idle: Some(idle), ..v.cpus[c] })
}

/// Threads without a place may be given to a CPU that has none.
pub proof fn lemma_staffed(v: Sched, c: int, current: Tid, idle: Tid)
    requires
        v.wf(),
        v.settled(),
        awaits_threads(v, c),
        v.has(current),
        v.has(idle),
        v.thread(current).on_cpu,
        !(v.thread(idle).state is Blocked),
        !(v.thread(idle).state is Exited),
        forall|d: int| !v.runs_on(current, d) && !v.queued_on(current, d) && !v.idles_on(current, d),
        forall|d: int| !v.runs_on(idle, d) && !v.queued_on(idle, d) && !v.idles_on(idle, d),
    ensures
        staffed(v, c, current, idle).wf(),
        staffed(v, c, current, idle).settled(),
{
    let w = staffed(v, c, current, idle);
    assert forall|u: Tid, d: int| #[trigger] w.queued_on(u, d) <==> v.queued_on(u, d) by {}
    assert forall|u: Tid, d: int| #[trigger] w.runs_on(u, d) <==> v.runs_on(u, d) || (u == current && d == c) by {}
    assert forall|u: Tid, d: int| #[trigger] w.idles_on(u, d) <==> v.idles_on(u, d) || (u == idle && d == c) by {}
    assert forall|u: Tid, d: int| #[trigger] w.waits_in(u, d) <==> v.waits_in(u, d) by {}
    assert forall|i: int| 0 <= i < w.zombies.len() implies w.has(#[trigger] w.zombies[i]) && w.thread(w.zombies[i]).state is Exited by {
        assert(v.has(v.zombies[i]));
    }
    assert(w.registered());
    assert(w.states_agree());
    assert(w.places_differ());
}

/// Makes the main thread and the idle thread of the first CPU, `c`. Gives back whether there
/// was a page for the idle thread's stack; if not, the machine cannot go on.
pub fn init_phase3_bsp<M: Memory>(
    sched: &mut Scheduler,
    c: u32,
    palloc: &mut PageAllocator,
    dm: &mut M,
    trampoline: u64,
    entry_fn: u64,
) -> (r: bool)
    requires
        old(sched)@.wf(),
        old(sched)@.settled(),
        awaits_threads(old(sched)@, c as int),
        !old(sched)@.has(Tid(1)),
        old(sched)@.next_tid < u32::MAX,
        old(palloc).wf(),
        reaches_free_pages(old(dm), old(palloc)@),
    ensures
        peak_grows(old(palloc)@, old(palloc).peak(), final(palloc)@, final(palloc).peak()),
        final(palloc).wf(),
        final(sched)@.wf(),
        final(sched)@.settled(),
        r == (lowest_run(old(palloc)@, 1) is Some),
        !r ==> *final(palloc) == *old(palloc) && *final(dm) == *old(dm),
        r ==> {
            let v = old(sched)@;
            let p = lowest_run(old(palloc)@, 1)->0;
            let idle = Tid(v.next_tid as u32);
            let w = final(sched)@;
            &&& final(palloc)@ == mark(old(palloc)@, p, 1, true)
            &&& wrote(old(dm), final(dm), (p + 1) * PAGE_SIZE - 16, le64(trampoline))
            &&& is_main_thread((Thread { cpu: 0, ..w.thread(Tid(1)) }))
            &&& w.thread(Tid(1)).cpu == c
            &&& is_idle_thread(w.thread(idle), idle, (p * PAGE_SIZE) as u64, entry_fn)
            &&& w == (Sched {
                threads: v.threads.insert(1, w.thread(Tid(1))).insert(idle.0, w.thread(idle)),
                next_tid: v.next_tid + 1,
                live: v.live.wrapping_add(1),
                ..staffed(v, c as int, Tid(1), idle)
            })
        },
{
    let ghost v = sched@;
    assert(v.cpus[c as int] == sched.cpus@[c as int]@);
    let mut main = build_current_main_thread();
    main.cpu = sched.cpus[c as usize].cpu_id;
    proof {
        lemma_with_new(v, main, v.next_tid);
    }
    sched.threads.register(main);
    sched.live_user_threads = sched.live_user_threads.wrapping_add(1);
    let ghost a = sched@;
    proof {
        let a0 = Sched { next_tid: v.next_tid, ..v.with_thread(main) };
        assert(a =~= Sched { live: v.live.wrapping_add(1), ..a0 });
        lemma_bookkeeping(a0, a);
    }
    let idle = match build_idle_thread(&mut sched.threads, palloc, dm, trampoline, entry_fn) {
        Some(t) => t,
        None => {
            assert(sched@ =~= a);
            return false;
        },
    };
    proof {
        assert(!a.has(idle.tid)) by {
            if a.has(idle.tid) {
                assert(a.threads.contains_key(idle.tid.0));
            }
        }
        lemma_with_new(a, idle, a.next_tid + 1);
    }
    sched.threads.register(idle);
    let ghost b = sched@;
    proof {
        assert(b =~= Sched { next_tid: a.next_tid + 1, ..a.with_thread(idle) });
        assert(!v.has(Tid(1)));
        assert forall|d: int| !b.runs_on(Tid(1), d) && !b.queued_on(Tid(1), d) && !b.idles_on(Tid(1), d) by {
            assert(!v.runs_on(Tid(1), d) && !v.queued_on(Tid(1), d) && !v.idles_on(Tid(1), d));
        }
        lemma_staffed(b, c as int, Tid(1), idle.tid);
    }
    assert(sched@.cpus.len() == sched.cpus@.len());
    {
        let cpu = &mut sched.cpus[c as usize];
        cpu.current_thread = Some(main.tid);
        cpu.idle_thread = Some(idle.tid);
    }
    proof {
        assert(sched@.cpus =~= staffed(b, c as int, Tid(1), idle.tid).cpus);
        assert(sched@ =~= staffed(b, c as int, Tid(1), idle.tid));
    }
    true
}

/// Makes the idle thread of another CPU, which runs it at once.
pub fn init_phase3_ap(sched: &mut Scheduler, cpu_id: u32, boot_stacks: u64)
    requires
        old(sched)@.wf(),
        old(sched)@.settled(),
        awaits_threads(old(sched)@, cpu_id as int),
        old(sched)@.next_tid < u32::MAX,
        boot_stacks + (cpu_id + 1) * AP_BOOT_STACK_SIZE <= u64::MAX,
    ensures
        final(sched)@.wf(),
        final(sched)@.settled(),
        ({
            let v = old(sched)@;
            let idle = Tid(v.next_tid as u32);
            let t = final(sched)@.thread(idle);
            &&& t.state is Running
            &&& is_ap_idle_thread((Thread { state: ThreadState::Runnable, ..t }), idle, cpu_id, boot_stacks)
            &&& final(sched)@ == (Sched {
                threads: v.threads.insert(idle.0, t),
                next_tid: v.next_tid + 1,
                ..staffed(v, cpu_id as int, idle, idle)
            })
        }),
{
    let ghost v = sched@;
    let mut idle = build_idle_thread_for_ap_reusing_boot_stack(&mut sched.threads, cpu_id, boot_stacks);
    idle.state = ThreadState::Running;
    proof {
        assert(!v.has(idle.tid)) by {
            if v.has(idle.tid) {
                assert(v.threads.contains_key(idle.tid.0));
            }
        }
        lemma_with_new(v, idle, v.next_tid + 1);
        assert(sched.threads@ == v.threads);
    }
    sched.threads.register(idle);
    let ghost b = sched@;
    proof {
        assert(b =~= Sched { next_tid: v.next_tid + 1, ..v.with_thread(idle) });
        assert forall|d: int| !b.runs_on(idle.tid, d) && !b.queued_on(idle.tid, d) && !b.idles_on(idle.tid, d) by {
            assert(!v.runs_on(idle.tid, d) && !v.queued_on(idle.tid, d) && !v.idles_on(idle.tid, d));
        }
        lemma_staffed(b, cpu_id as int, idle.tid, idle.tid);
    }
    assert(sched@.cpus.len() == sched.cpus@.len());
    {
        let cpu = &mut sched.cpus[cpu_id as usize];
        cpu.current_thread = Some(idle.tid);
        cpu.idle_thread = Some(idle.tid);
    }
    proof {
        assert(sched@.cpus =~= staffed(b, cpu_id as int, idle.tid, idle.tid).cpus);
        assert(sched@ =~= staffed(b, cpu_id as int, idle.tid, idle.tid));
    }
}

} // verus!
