//! Who runs next, and where.

use vstd::prelude::*;

use crate::memory::access::Memory;
use crate::memory::allocators::kmalloc::{insert_block, Block, KernelAllocator, HEADER_SIZE};
use crate::memory::allocators::palloc::PageAllocator;
use crate::sched::reaper::{gone, reap_zombies, reaped, stacks_freed};
use crate::sched::scheduler::{active, running, Sched, Scheduler, Switch};
use crate::sched::steal::{law_busy_peer, IdleStep, Steal};
use crate::sched::thread::{Thread, Tid};
use crate::syscall::dispatch::syscall_return;

verus! {

/// All threads are the same, except perhaps `a` and `b`.
pub open spec fn others_stay(v: Sched, w: Sched, a: Tid, b: Tid) -> bool {
    forall|u: u32| u != a.0 && u != b.0 ==> (#[trigger] w.threads.contains_key(u) <==> v.threads.contains_key(u)) && w.threads[u] == v.threads[u]
}

/// All CPUs are the same, except perhaps `c` and `d`.
pub open spec fn other_cpus_stay(v: Sched, w: Sched, c: int, d: int) -> bool {
    w.cpus.len() == v.cpus.len() && forall|e: int| 0 <= e < v.cpus.len() && e != c && e != d ==> #[trigger] w.cpus[e] == v.cpus[e]
}

/// CPU `c` gives itself to the thread that waits longest, or to its idle thread if none waits.
pub open spec fn gives_way(v: Sched, w: Sched, c: int, r: Option<Switch>) -> bool {
    let q = v.cpus[c].queue;
    let prev = v.cpus[c].current->0;
    let next = if q.len() > 0 { q[0] } else { v.cpus[c].idle->0 };
    &&& w.cpus[c].current == Some(next)
    &&& !w.cpus[c].need_resched
    &&& q.len() > 0 ==> w.cpus[c].queue.len() == q.len() - 1 && forall|i: int| 0 <= i < q.len() - 1 ==> #[trigger] w.cpus[c].queue[i] == q[i + 1]
    &&& q.len() == 0 ==> w.cpus[c].queue.len() == 0
    &&& other_cpus_stay(v, w, c, c)
    &&& others_stay(v, w, prev, next)
    &&& next == prev ==> r is None && w.threads == v.threads
    &&& next != prev ==> {
        &&& r matches Some(s) && s.prev == prev && s.next == next && s.fs_base == v.threads[next.0].fs_base
        &&& w.threads[next.0].state is Running && w.threads[next.0].on_cpu && w.threads[next.0].cpu == c
        &&& v.threads[prev.0].state is Running && v.cpus[c].idle != Some(prev) ==> w.threads[prev.0].state is Runnable
        &&& !(v.threads[prev.0].state is Running && v.cpus[c].idle != Some(prev)) ==> w.threads[prev.0].state == v.threads[prev.0].state
    }
}

proof fn lemma_gives_way(v: Sched, c: int)
    requires
        v.wf(),
        running(v, c),
    ensures
        gives_way(v, crate::sched::scheduler::rescheduled(v, c), c, crate::sched::scheduler::switch_of(v, c)),
{
    let q = v.cpus[c].queue;
    let prev = v.cpus[c].current->0;
    assert(v.runs_on(prev, c));
    if q.len() > 0 {
        assert(v.queued_on(q[0], c));
    } else {
        assert(v.idles_on(v.cpus[c].idle->0, c));
    }
}

/// A CPU that reschedules takes the thread that waits longest, or its idle thread if none waits.
pub proof fn law_longest_waiting_runs_next(sched: &mut Scheduler, c: u32, r: Option<Switch>)
    requires
        call_ensures(Scheduler::schedule, (sched, c), r),
        old(sched)@.wf(),
        running(old(sched)@, c as int),
    ensures
        gives_way(old(sched)@, final(sched)@, c as int, r),
{
    lemma_gives_way(old(sched)@, c as int);
}

/// A thread that blocks stays out of all queues, and another one gets its CPU.
pub proof fn law_blocked_thread_leaves(sched: &mut Scheduler, c: u32, r: Option<Switch>)
    requires
        call_ensures(Scheduler::block_current, (sched, c), r),
        old(sched)@.wf(),
        old(sched)@.settled(),
        active(old(sched)@, c as int),
    ensures
        ({
            let v = old(sched)@;
            let w = final(sched)@;
            let t = v.cpus[c as int].current->0;
            let q = v.cpus[c as int].queue;
            let next = if q.len() > 0 { q[0] } else { v.cpus[c as int].idle->0 };
            &&& next != t
            &&& w.threads[t.0].state is Blocked
            &&& w.cpus[c as int].current == Some(next)
            &&& w.threads[next.0].state is Running
            &&& r matches Some(s) && s.prev == t && s.next == next && s.fs_base == v.threads[next.0].fs_base
            &&& w.cpus[c as int].queue == (if q.len() > 0 { q.drop_first() } else { q })
            &&& other_cpus_stay(v, w, c as int, c as int)
            &&& others_stay(v, w, t, next)
        }),
{
    let v = old(sched)@;
    let c = c as int;
    let t = v.cpus[c].current->0;
    let q = v.cpus[c].queue;
    assert(v.runs_on(t, c));
    if q.len() > 0 {
        assert(v.queued_on(q[0], c));
    } else {
        assert(v.idles_on(v.cpus[c].idle->0, c));
    }
}

/// A woken thread waits at the end of the queue of the CPU that it ran on last, if that is up, and else of the CPU that wakes it.
/// That CPU is to reschedule, and is interrupted if it is another one and idle. A thread that did not wait is left alone.
pub proof fn law_woken_thread_waits_to_run(sched: &mut Scheduler, t: Tid, this: u32)
    requires
        call_ensures(Scheduler::wake_blocked, (sched, t, this), ()),
        old(sched)@.wf(),
        old(sched)@.settled(),
        old(sched)@.online(this as int),
        old(sched)@.has(t),
    ensures
        ({
            let v = old(sched)@;
            let w = final(sched)@;
            let last = v.threads[t.0].cpu as int;
            let home = if last < v.cpus.len() && v.cpus[last].self_ptr != 0 { last } else { this as int };
            if v.threads[t.0].state is Blocked {
                &&& w.threads[t.0].state is Runnable
                &&& others_stay(v, w, t, t)
                &&& v.threads[t.0].on_cpu ==> w.cpus == v.cpus && w.switching == v.switching.push(t) && w.kicks == v.kicks
                &&& !v.threads[t.0].on_cpu ==> {
                    &&& w.cpus[home].queue == v.cpus[home].queue.push(t)
                    &&& w.cpus[home].need_resched
                    &&& w.cpus[home].current == v.cpus[home].current
                    &&& other_cpus_stay(v, w, home, home)
                    &&& w.switching == v.switching
                    &&& w.kicks == (if home != this && v.cpus[home].is_idle { v.kicks.push(home as u32) } else { v.kicks })
                }
            } else {
                w == v
            }
        }),
{
    let v = old(sched)@;
    assert(v.threads.contains_key(t.0));
    assert(v.cpus[this as int].cpu_id == this);
}

/// A CPU takes the thread that waits longest on the first other CPU where one waits, and no thread only where none waits. One whose
/// registers are still on a CPU leaves its queue and joins none yet.
pub open spec fn takes_from_a_peer(v: Sched, w: Sched, me: int, r: Steal) -> bool {
    match r {
        Steal::Nothing => w == v && forall|d: int|
            0 <= d < v.cpus.len() && d != me && v.cpus[d].self_ptr != 0 ==> (#[trigger] v.cpus[d]).queue.len() == 0,
        Steal::Moved(t) => {
            &&& !v.threads[t.0].on_cpu
            &&& w.threads[t.0].cpu == me && w.threads[t.0].state == v.threads[t.0].state && others_stay(v, w, t, t)
            &&& w.cpus[me].queue == v.cpus[me].queue.push(t)
            &&& exists|p: int| #[trigger] gave(v, w, me, p, t) && other_cpus_stay(v, w, me, p)
        },
        Steal::Switching(t) => {
            &&& v.threads[t.0].on_cpu
            &&& w.threads == v.threads
            &&& exists|p: int| #[trigger] gave(v, w, me, p, t) && other_cpus_stay(v, w, p, p)
        },
    }
}

/// CPU `p`, the first but `me` where threads wait, gave its first.
pub open spec fn gave(v: Sched, w: Sched, me: int, p: int, t: Tid) -> bool {
    &&& 0 <= p < v.cpus.len() && p != me && v.cpus[p].self_ptr != 0
    &&& v.cpus[p].queue.len() > 0 && v.cpus[p].queue[0] == t
    &&& w.cpus[p].queue == v.cpus[p].queue.drop_first()
    &&& forall|d: int| 0 <= d < p && d != me && v.cpus[d].self_ptr != 0 ==> (#[trigger] v.cpus[d]).queue.len() == 0
}

proof fn lemma_takes(v: Sched, me: int)
    requires
        v.wf(),
        v.online(me),
    ensures
        takes_from_a_peer(v, crate::sched::steal::stolen(v, me), me, crate::sched::steal::steal_of(v, me)),
{
    law_busy_peer(v, me, 0);
    let w = crate::sched::steal::stolen(v, me);
    if let Some(p) = crate::sched::steal::busy_peer(v, me, 0) {
        let t = v.cpus[p].queue[0];
        assert(v.queued_on(t, p));
        assert(v.has(t));
        assert(v.cpus[me].cpu_id == me);
        assert(gave(v, w, me, p, t));
    }
}

/// A CPU with nothing to do takes the thread that waits longest on the first other CPU where one waits.
pub proof fn law_work_is_taken_from_a_peer(sched: &mut Scheduler, me: u32, r: Steal)
    requires
        call_ensures(Scheduler::try_steal_work, (sched, me), r),
        old(sched)@.wf(),
        old(sched)@.online(me as int),
    ensures
        takes_from_a_peer(old(sched)@, final(sched)@, me as int, r),
{
    lemma_takes(old(sched)@, me as int);
}

/// An idle CPU halts only if no thread waits on any CPU, and then is marked as idle; it runs what waits in its own queue first.
pub proof fn law_idle_cpu_looks_for_work(sched: &mut Scheduler, c: u32, r: IdleStep)
    requires
        call_ensures(Scheduler::idle_step, (sched, c), r),
        old(sched)@.wf(),
        old(sched)@.settled(),
        running(old(sched)@, c as int),
    ensures
        ({
            let v = old(sched)@;
            let w = final(sched)@;
            let q = v.cpus[c as int].queue;
            &&& r is Halt <==> forall|d: int|
                0 <= d < v.cpus.len() && v.cpus[d].self_ptr != 0 ==> (#[trigger] v.cpus[d]).queue.len() == 0
            &&& r is Halt ==> w.cpus[c as int].is_idle && w.threads == v.threads && other_cpus_stay(v, w, c as int, c as int)
            &&& r is Run ==> !w.cpus[c as int].is_idle
            &&& q.len() > 0 ==> r is Run && w.cpus[c as int].current == Some(q[0]) && w.cpus[c as int].queue == q.drop_first()
            &&& q.len() == 0 && r is Run ==> w.cpus[c as int].queue.len() == 0 && exists|p: int|
                0 <= p < v.cpus.len() && p != c && (#[trigger] v.cpus[p]).queue.len() > 0 && w.cpus[c as int].current == Some(v.cpus[p].queue[0])
            &&& r matches IdleStep::WaitFor(t) ==> v.threads[t.0].on_cpu && w.cpus[c as int].current == v.cpus[c as int].current
        }),
{
    let v = old(sched)@;
    let w = final(sched)@;
    let c = c as int;
    let q = v.cpus[c].queue;
    assert(v.runs_on(v.cpus[c].current->0, c));
    if q.len() > 0 {
        assert(v.cpus[c].queue.len() > 0);
    } else {
        let i = crate::sched::steal::idling(v, c, true);
        assert(i.cpus[c].queue == q);
        law_busy_peer(i, c, 0);
        match crate::sched::steal::busy_peer(i, c, 0) {
            None => {
                assert forall|d: int| 0 <= d < v.cpus.len() && v.cpus[d].self_ptr != 0 implies (#[trigger] v.cpus[d]).queue.len() == 0 by {
                    assert(i.cpus[d].queue == v.cpus[d].queue);
                    assert(i.online(d));
                }
            },
            Some(p) => {
                assert(i.cpus[p].queue == v.cpus[p].queue);
                assert(v.cpus[p].queue.len() > 0);
            },
        }
    }
}

proof fn lemma_goes(v: Sched, i: int)
    requires
        0 <= i <= v.zombies.len(),
        v.zombies.no_duplicates(),
        forall|k: int| 0 <= k < i ==> v.threads[(#[trigger] v.zombies[k]).0].on_cpu,
    ensures
        ({
            let x = reaped(v, i).0;
            &&& forall|u: u32|
                #[trigger] x.threads.contains_key(u) <==> v.threads.contains_key(u) && !(v.zombies.contains(Tid(u)) && !v.threads[u].on_cpu)
            &&& forall|u: u32| #[trigger] x.threads.contains_key(u) ==> x.threads[u] == v.threads[u]
            &&& forall|u: Tid| #[trigger] x.zombies.contains(u) <==> v.zombies.contains(u) && v.threads[u.0].on_cpu
            &&& x.cpus == v.cpus
        }),
    decreases v.zombies.len(), v.zombies.len() - i,
{
    let x = reaped(v, i).0;
    if i == v.zombies.len() {
        assert forall|u: Tid| v.zombies.contains(u) implies v.threads[u.0].on_cpu by {
            let k = choose|k: int| 0 <= k < v.zombies.len() && v.zombies[k] == u;
            assert(v.threads[v.zombies[k].0].on_cpu);
        }
    } else if v.threads[v.zombies[i].0].on_cpu {
        lemma_goes(v, i + 1);
        assert(reaped(v, i) == reaped(v, i + 1));
    } else {
        let w = gone(v, i);
        let t = v.zombies[i];
        let last = v.zombies.len() - 1;
        assert forall|u: Tid| #[trigger] w.zombies.contains(u) <==> v.zombies.contains(u) && u != t by {
            if w.zombies.contains(u) {
                let k = choose|k: int| 0 <= k < w.zombies.len() && w.zombies[k] == u;
                let m = if k == i { last } else { k };
                assert(v.zombies[m] == u);
            }
            if v.zombies.contains(u) && u != t {
                let k = choose|k: int| 0 <= k < v.zombies.len() && v.zombies[k] == u;
                let m = if k == last { i } else { k };
                assert(w.zombies[m] == u);
            }
        }
        assert(w.zombies.no_duplicates()) by {
            assert forall|j: int, k: int| 0 <= j < w.zombies.len() && 0 <= k < w.zombies.len() && j != k implies w.zombies[j]
                != w.zombies[k] by {
                let a = if j == i { last } else { j };
                let b = if k == i { last } else { k };
                assert(v.zombies[a] != v.zombies[b]);
            }
        }
        assert forall|k: int| 0 <= k < i implies w.threads[(#[trigger] w.zombies[k]).0].on_cpu by {
            assert(w.zombies[k] == v.zombies[k]);
            assert(v.zombies[k] != t);
        }
        lemma_goes(w, i);
        assert(reaped(v, i).0 == reaped(w, i).0);
        assert(v.zombies.contains(t));
        assert forall|u: Tid| #[trigger] x.zombies.contains(u) <==> v.zombies.contains(u) && v.threads[u.0].on_cpu by {
            assert(u != t ==> u.0 != t.0);
            assert(w.zombies.contains(u) <==> v.zombies.contains(u) && u != t);
        }
        assert forall|u: u32|
            #[trigger] x.threads.contains_key(u) <==> v.threads.contains_key(u) && !(v.zombies.contains(Tid(u)) && !v.threads[u].on_cpu) by {
            assert(w.zombies.contains(Tid(u)) <==> v.zombies.contains(Tid(u)) && Tid(u) != t);
            assert(t == Tid(t.0));
        }
    }
}

/// The thread has exited, and its registers are off the CPUs.
pub open spec fn is_to_go(v: Sched, t: Tid) -> bool {
    v.zombies.contains(t) && !v.threads[t.0].on_cpu
}

proof fn lemma_who_goes(v: Sched, i: int)
    requires
        0 <= i <= v.zombies.len(),
        v.zombies.no_duplicates(),
        forall|k: int| 0 <= k < v.zombies.len() ==> v.threads[(#[trigger] v.zombies[k]).0].tid == v.zombies[k],
        forall|k: int| 0 <= k < i ==> v.threads[(#[trigger] v.zombies[k]).0].on_cpu,
    ensures
        ({
            let ts = reaped(v, i).1;
            &&& forall|j: int| 0 <= j < ts.len() ==> is_to_go(v, (#[trigger] ts[j]).tid) && ts[j] == v.threads[ts[j].tid.0]
            &&& forall|u: Tid| #[trigger] is_to_go(v, u) ==> ts.contains(v.threads[u.0])
        }),
    decreases v.zombies.len(), v.zombies.len() - i,
{
    let ts = reaped(v, i).1;
    if i == v.zombies.len() {
        assert forall|u: Tid| !#[trigger] is_to_go(v, u) by {
            if v.zombies.contains(u) {
                let k = choose|k: int| 0 <= k < v.zombies.len() && v.zombies[k] == u;
                assert(v.threads[v.zombies[k].0].on_cpu);
            }
        }
    } else if v.threads[v.zombies[i].0].on_cpu {
        lemma_who_goes(v, i + 1);
        assert(reaped(v, i) == reaped(v, i + 1));
    } else {
        let w = gone(v, i);
        let t = v.zombies[i];
        let last = v.zombies.len() - 1;
        assert(v.zombies.contains(t));
        assert(t == Tid(t.0));
        assert forall|u: Tid| #[trigger] w.zombies.contains(u) <==> v.zombies.contains(u) && u != t by {
            if w.zombies.contains(u) {
                let k = choose|k: int| 0 <= k < w.zombies.len() && w.zombies[k] == u;
                let m = if k == i { last } else { k };
                assert(v.zombies[m] == u);
            }
            if v.zombies.contains(u) && u != t {
                let k = choose|k: int| 0 <= k < v.zombies.len() && v.zombies[k] == u;
                let m = if k == last { i } else { k };
                assert(w.zombies[m] == u);
            }
        }
        assert(w.zombies.no_duplicates()) by {
            assert forall|j: int, k: int| 0 <= j < w.zombies.len() && 0 <= k < w.zombies.len() && j != k implies w.zombies[j]
                != w.zombies[k] by {
                let a = if j == i { last } else { j };
                let b = if k == i { last } else { k };
                assert(v.zombies[a] != v.zombies[b]);
            }
        }
        assert forall|k: int| 0 <= k < w.zombies.len() implies w.threads[(#[trigger] w.zombies[k]).0].tid == w.zombies[k] && (k < i
            ==> w.threads[w.zombies[k].0].on_cpu) by {
            let m = if k == i { last } else { k };
            assert(w.zombies[k] == v.zombies[m]);
            assert(v.zombies[m] != t);
            assert(v.zombies[m].0 != t.0);
        }
        lemma_who_goes(w, i);
        let rest = reaped(w, i).1;
        assert(ts == seq![v.threads[t.0]] + rest);
        assert forall|j: int| 0 <= j < ts.len() implies is_to_go(v, (#[trigger] ts[j]).tid) && ts[j] == v.threads[ts[j].tid.0] by {
            if j == 0 {
                assert(ts[0] == v.threads[t.0]);
            } else {
                assert(ts[j] == rest[j - 1]);
                let u = rest[j - 1].tid;
                assert(is_to_go(w, u));
                assert(w.zombies.contains(u));
                assert(u != t && u.0 != t.0);
            }
        }
        assert forall|u: Tid| #[trigger] is_to_go(v, u) implies ts.contains(v.threads[u.0]) by {
            if u == t {
                assert(ts[0] == v.threads[t.0]);
            } else {
                assert(u.0 != t.0);
                assert(w.zombies.contains(u));
                assert(is_to_go(w, u));
                let k = choose|k: int| 0 <= k < rest.len() && rest[k] == w.threads[u.0];
                assert(ts[k + 1] == rest[k]);
            }
        }
    }
}

/// The stack of one of the threads starts with the block at `s`.
pub open spec fn is_stack_of(ts: Seq<Thread>, j: int, s: int) -> bool {
    0 <= j < ts.len() && ts[j].kernel_stack_freeable && ts[j].kernel_stack_phys.0 - HEADER_SIZE == s
}

/// No thread's stack starts with the block at `s`.
pub open spec fn is_no_stack_of(ts: Seq<Thread>, s: int) -> bool {
    forall|j: int| !#[trigger] is_stack_of(ts, j, s)
}

proof fn lemma_no_stack(ts: Seq<Thread>, s: int)
    requires
        ts.len() > 0,
    ensures
        is_no_stack_of(ts, s) <==> is_no_stack_of(ts.drop_first(), s) && !is_stack_of(ts, 0, s),
{
    let rest = ts.drop_first();
    if is_no_stack_of(ts, s) {
        assert forall|j: int| !#[trigger] is_stack_of(rest, j, s) by {
            assert(!is_stack_of(ts, j + 1, s));
        }
    }
    if is_no_stack_of(rest, s) && !is_stack_of(ts, 0, s) {
        assert forall|j: int| !#[trigger] is_stack_of(ts, j, s) by {
            assert(!is_stack_of(rest, j - 1, s));
        }
    }
}

proof fn lemma_stacks_freed(free: Seq<Block>, live: Map<int, int>, ts: Seq<Thread>)
    ensures
        ({
            let after = stacks_freed(free, live, ts).1;
            &&& forall|s: int| #[trigger] after.contains_key(s) <==> live.contains_key(s) && is_no_stack_of(ts, s)
            &&& forall|s: int| #[trigger] after.contains_key(s) ==> after[s] == live[s]
        }),
    decreases ts.len(),
{
    let after = stacks_freed(free, live, ts).1;
    if ts.len() > 0 {
        let f = ts[0].kernel_stack_phys.0 - HEADER_SIZE;
        let rest = ts.drop_first();
        let mid = if ts[0].kernel_stack_freeable { live.remove(f) } else { live };
        let blocks = if ts[0].kernel_stack_freeable { insert_block(free, Block { start: f, size: live[f] }) } else { free };
        lemma_stacks_freed(blocks, mid, rest);
        assert(after == stacks_freed(blocks, mid, rest).1);
        assert forall|s: int| #[trigger] after.contains_key(s) <==> live.contains_key(s) && is_no_stack_of(ts, s) by {
            lemma_no_stack(ts, s);
            assert(is_stack_of(ts, 0, s) <==> ts[0].kernel_stack_freeable && s == f);
        }
    } else {
        assert forall|s: int| #[trigger] is_no_stack_of(ts, s) by {}
    }
}

/// Of the threads that have exited, all are gone whose registers are off the CPUs; the rest are left, and no other thread goes. The
/// kernel stacks of those that went are given back, as far as they came from the heap, and no other piece of the heap is.
pub proof fn law_exited_threads_go<M: Memory>(sched: &mut Scheduler, heap: &mut KernelAllocator, palloc: &PageAllocator, dm: &mut M)
    requires
        call_ensures(reap_zombies::<M>, (sched, heap, palloc, dm), ()),
        old(sched)@.wf(),
        old(sched)@.pending,
    ensures
        ({
            let v = old(sched)@;
            let w = final(sched)@;
            let a = old(heap).live();
            let b = final(heap).live();
            &&& forall|u: u32|
                #[trigger] w.threads.contains_key(u) <==> v.threads.contains_key(u) && !(v.zombies.contains(Tid(u)) && !v.threads[u].on_cpu)
            &&& forall|u: u32| #[trigger] w.threads.contains_key(u) ==> w.threads[u] == v.threads[u]
            &&& forall|t: Tid| #[trigger] w.zombies.contains(t) <==> v.zombies.contains(t) && v.threads[t.0].on_cpu
            &&& w.pending <==> w.zombies.len() > 0
            &&& w.cpus == v.cpus
            &&& forall|t: Tid| #[trigger] is_to_go(v, t) && v.threads[t.0].kernel_stack_freeable ==> !b.contains_key(
                v.threads[t.0].kernel_stack_phys.0 - HEADER_SIZE,
            )
            &&& forall|s: int|
                a.contains_key(s) && !(#[trigger] b.contains_key(s)) ==> exists|t: Tid| #[trigger]
                    is_to_go(v, t) && v.threads[t.0].kernel_stack_freeable && v.threads[t.0].kernel_stack_phys.0 - HEADER_SIZE == s
            &&& forall|s: int| #[trigger] b.contains_key(s) ==> a.contains_key(s) && b[s] == a[s]
        }),
{
    let v = old(sched)@;
    let a = old(heap).live();
    let b = final(heap).live();
    lemma_goes(v, 0);
    assert forall|k: int| 0 <= k < v.zombies.len() implies v.threads[(#[trigger] v.zombies[k]).0].tid == v.zombies[k] by {
        assert(v.has(v.zombies[k]));
    }
    lemma_who_goes(v, 0);
    let ts = reaped(v, 0).1;
    lemma_stacks_freed(old(heap).free_blocks(), a, ts);
    assert(b == stacks_freed(old(heap).free_blocks(), a, ts).1);
    assert forall|t: Tid| #[trigger] is_to_go(v, t) && v.threads[t.0].kernel_stack_freeable implies !b.contains_key(
        v.threads[t.0].kernel_stack_phys.0 - HEADER_SIZE,
    ) by {
        let k = choose|k: int| 0 <= k < ts.len() && ts[k] == v.threads[t.0];
        assert(is_stack_of(ts, k, v.threads[t.0].kernel_stack_phys.0 - HEADER_SIZE));
    }
    assert forall|s: int| a.contains_key(s) && !(#[trigger] b.contains_key(s)) implies exists|t: Tid| #[trigger]
        is_to_go(v, t) && v.threads[t.0].kernel_stack_freeable && v.threads[t.0].kernel_stack_phys.0 - HEADER_SIZE == s by {
        assert(!is_no_stack_of(ts, s));
        let k = choose|k: int| #[trigger] is_stack_of(ts, k, s);
        assert(is_to_go(v, ts[k].tid));
    }
}

/// On the way back to the user a CPU has to flush its TLB exactly if the page tables have changed since it last did, and is up to
/// date then. If another thread ought to run, the one that waits longest does, and the thread waits behind all others; if not, or
/// if none waits, the thread goes on.
pub proof fn law_way_back_to_the_user(sched: &mut Scheduler, c: u32, global: u64, r: (bool, Option<Switch>))
    requires
        call_ensures(syscall_return, (sched, c, global), r),
        old(sched)@.wf(),
        old(sched)@.settled(),
        active(old(sched)@, c as int),
    ensures
        ({
            let v = old(sched)@;
            let w = final(sched)@;
            let q = v.cpus[c as int].queue;
            let t = v.cpus[c as int].current->0;
            let seen = v.cpus[c as int].tlb_generation;
            &&& r.0 <==> seen < global
            &&& w.cpus[c as int].tlb_generation == (if seen < global { global } else { seen })
            &&& !v.cpus[c as int].need_resched || q.len() == 0 ==> r.1 is None && w.cpus[c as int].current == Some(t) && w.cpus[c as int].queue == q
            &&& v.cpus[c as int].need_resched && q.len() > 0 ==> {
                &&& w.cpus[c as int].current == Some(q[0])
                &&& w.cpus[c as int].queue.len() == q.len() && w.cpus[c as int].queue.last() == t
                &&& w.threads[q[0].0].state is Running
                &&& r.1 matches Some(s) && s.prev == t && s.next == q[0]
            }
            &&& v.cpus[c as int].need_resched ==> !w.cpus[c as int].need_resched
        }),
{
    let v = old(sched)@;
    let c = c as int;
    let q = v.cpus[c].queue;
    let t = v.cpus[c].current->0;
    assert(v.runs_on(t, c));
    assert(!v.queued_on(t, c));
    if q.len() > 0 {
        assert(v.queued_on(q[0], c));
        assert(q[0] != t);
        assert(q.push(t)[0] == q[0]);
        assert(q.push(t).drop_first().last() == t);
    } else {
        assert(q.push(t)[0] == t);
        assert(q.push(t).drop_first() =~= q);
    }
}

} // verus!
