//! The first threads of each CPU.

use vstd::prelude::*;

use super::words::{lemma_wrote_u64, u64_at};
use crate::layout::DIRECT_MAP_OFFSET;
use crate::memory::access::{within, Memory};
use crate::memory::allocators::mmap_alloc::reaches_free_pages;
use crate::memory::allocators::palloc::{lemma_lowest_run_is_free, lowest_run, PageAllocator};
use crate::sched::kthread::{build_idle_thread_for_ap_reusing_boot_stack, build_kthread_arc, init_phase3_ap, init_phase3_bsp};
use crate::sched::registry::ThreadRegistry;
use crate::sched::scheduler::{Sched, Scheduler};
use crate::sched::thread::{Thread, Tid};

verus! {

/// A thread of the kernel starts sixteen bytes below the top of its stack, where the address that it goes to stands, and with what
/// it is to call.
pub proof fn law_kernel_thread_starts_at_the_top_of_its_stack<M: Memory>(
    dm: &mut M,
    trampoline: u64,
    entry_fn: u64,
    arg: u64,
    tid: Tid,
    stack_phys: crate::address::PhysicalAddr,
    stack_top_virt: crate::address::VirtualAddr,
    stack_size: u64,
    r: Thread,
)
    requires
        call_ensures(build_kthread_arc::<M>, (dm, trampoline, entry_fn, arg, tid, stack_phys, stack_top_virt, stack_size), r),
        stack_top_virt.0 >= DIRECT_MAP_OFFSET + 16,
        within(old(dm), stack_top_virt.0 - DIRECT_MAP_OFFSET - 16, 8),
    ensures
        r.tid == tid && r.entry_fn == entry_fn && r.entry_arg == arg,
        r.ctx.rsp == stack_top_virt.0 - 16,
        u64_at(final(dm), r.ctx.rsp - DIRECT_MAP_OFFSET) == trampoline,
        r.state is Runnable,
        !r.on_cpu,
{
    lemma_wrote_u64(old(dm), final(dm), stack_top_virt.0 - DIRECT_MAP_OFFSET - 16, trampoline);
}

/// No two CPUs have a byte of their boot stacks in common.
pub proof fn law_boot_stacks_are_apart(
    a: &mut ThreadRegistry,
    b: &mut ThreadRegistry,
    boot_stacks: u64,
    one: u32,
    other: u32,
    s: Thread,
    t: Thread,
)
    requires
        call_ensures(build_idle_thread_for_ap_reusing_boot_stack, (a, one, boot_stacks), s),
        call_ensures(build_idle_thread_for_ap_reusing_boot_stack, (b, other, boot_stacks), t),
        one < other,
        boot_stacks + (other + 1) * 0x4000 <= u64::MAX,
    ensures
        s.kernel_stack_top.0 - s.kernel_stack_size >= boot_stacks,
        s.kernel_stack_top.0 <= t.kernel_stack_top.0 - t.kernel_stack_size,
        s.cpu == one && t.cpu == other,
{
}

/// The CPU runs `t`, idles with `idle`, and nothing else of any CPU changed.
pub open spec fn runs_and_idles(v: Sched, w: Sched, c: int, t: Tid, idle: Tid) -> bool {
    &&& w.cpus.len() == v.cpus.len()
    &&& w.cpus[c].current == Some(t) && w.cpus[c].idle == Some(idle) && w.cpus[c].queue == v.cpus[c].queue
    &&& forall|d: int| 0 <= d < v.cpus.len() && d != c ==> #[trigger] w.cpus[d] == v.cpus[d]
}

/// The first CPU runs the main thread, which has the number 1, and idles with a new one, whose stack is a page that was free; and
/// the main thread is counted. There is none if no page is free.
pub proof fn law_first_cpu_runs_the_main_thread<M: Memory>(
    sched: &mut Scheduler,
    c: u32,
    palloc: &mut PageAllocator,
    dm: &mut M,
    trampoline: u64,
    entry_fn: u64,
    r: bool,
)
    requires
        call_ensures(init_phase3_bsp::<M>, (sched, c, palloc, dm, trampoline, entry_fn), r),
        old(sched)@.wf(),
        c < old(sched)@.cpus.len(),
        2 <= old(sched)@.next_tid < u32::MAX,
        old(sched)@.live < 1000,
        reaches_free_pages(old(dm), old(palloc)@),
        r,
    ensures
        ({
            let v = old(sched)@;
            let w = final(sched)@;
            let idle = Tid(v.next_tid as u32);
            let page = w.threads[idle.0].kernel_stack_phys.0 as int / 0x20_0000;
            &&& runs_and_idles(v, w, c as int, Tid(1), idle)
            &&& w.threads[1].state is Running && w.threads[1].on_cpu && w.threads[1].cpu == c
            &&& w.threads[idle.0].entry_fn == entry_fn && w.threads[idle.0].state is Runnable && !w.threads[idle.0].on_cpu
            &&& !old(palloc)@[page] && final(palloc)@[page]
            &&& w.threads[idle.0].ctx.rsp == w.threads[idle.0].kernel_stack_phys.0 + 0x20_0000 - 16 + DIRECT_MAP_OFFSET
            &&& u64_at(final(dm), w.threads[idle.0].ctx.rsp - DIRECT_MAP_OFFSET) == trampoline
            &&& w.live == v.live + 1
            &&& w.next_tid == v.next_tid + 1
        }),
{
    let v = old(sched)@;
    old(palloc).lemma_page_count();
    lemma_lowest_run_is_free(old(palloc)@, 1);
    let p = lowest_run(old(palloc)@, 1)->0;
    assert(!old(palloc)@[p]);
    assert(within(old(dm), p * 0x20_0000, 0x20_0000));
    lemma_wrote_u64(old(dm), final(dm), (p + 1) * 0x20_0000 - 16, trampoline);
}

/// Every other CPU runs a new thread of its own, with which it also idles, on its boot stack.
pub proof fn law_other_cpus_run_their_idle_threads(sched: &mut Scheduler, cpu_id: u32, boot_stacks: u64)
    requires
        call_ensures(init_phase3_ap, (sched, cpu_id, boot_stacks), ()),
        old(sched)@.wf(),
        cpu_id < old(sched)@.cpus.len(),
        old(sched)@.next_tid < u32::MAX,
        boot_stacks + (cpu_id + 1) * 0x4000 <= u64::MAX,
    ensures
        ({
            let v = old(sched)@;
            let w = final(sched)@;
            let idle = Tid(v.next_tid as u32);
            let t = w.threads[idle.0];
            &&& runs_and_idles(v, w, cpu_id as int, idle, idle)
            &&& t.state is Running && t.on_cpu && t.cpu == cpu_id
            &&& t.kernel_stack_top.0 == boot_stacks + (cpu_id + 1) * 0x4000
            &&& w.live == v.live
            &&& w.next_tid == v.next_tid + 1
        }),
{
}

} // verus!
