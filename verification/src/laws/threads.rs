//! Threads: who they are, how they give way to each other, and how they end.

use vstd::prelude::*;

use super::futexes::{lemma_same_links, lemma_step, lemma_taken, lemma_woken_all, of_list, waiters};
use super::words::{lemma_u32_at, lemma_wrote_u32, lemma_wrote_u64, same_but, u32_at, u64_at};
use crate::memory::access::{within, Memory};
use crate::sched::futex::{bucket_of, lemma_parked, lemma_parts, lemma_unlinked, parked};
use crate::sched::reaper::{buried, lemma_buried};
use crate::sched::scheduler::{active, keeps_places, lemma_active, lemma_thread_change, lemma_woken_all_keeps, rescheduled, running, Parking, Sched, Scheduler, Switch};
use crate::sched::thread::{Thread, ThreadState, Tid};
use crate::syscall::args::{SyscallArgs, SyscallResult};
use crate::syscall::handlers::process::{
    discounted, joiners, leaving, released, sys_arch_prctl, sys_exit, sys_getpid, sys_gettid, sys_set_tid_address, Exit,
};
use crate::syscall::handlers::thread::{sys_futex, sys_sched_yield, sys_set_robust_list, Yield};

verus! {

/// The thread that runs on CPU `c`.
pub open spec fn runner(v: Sched, c: int) -> Tid {
    v.cpus[c].current->0
}

/// Who comes next on CPU `c`: the first in its queue, or else the one that idles there.
pub open spec fn who_is_next(v: Sched, c: int) -> Tid {
    if v.cpus[c].queue.len() > 0 { v.cpus[c].queue[0] } else { v.cpus[c].idle->0 }
}

/// CPU `c` went on with the next thread of `v`: that runs there now, and has left the queue; the others of the queue moved up.
/// No other CPU is touched. The switch names the two threads and where the next one has its thread-local storage.
pub open spec fn gave_way(v: Sched, w: Sched, c: int, s: Option<Switch>) -> bool {
    let next = who_is_next(v, c);
    &&& w.cpus[c].current == Some(next)
    &&& w.cpus[c].queue == (if v.cpus[c].queue.len() > 0 { v.cpus[c].queue.drop_first() } else { v.cpus[c].queue })
    &&& w.cpus[c].idle == v.cpus[c].idle
    &&& !w.cpus[c].need_resched
    &&& forall|d: int| 0 <= d < v.cpus.len() && d != c ==> #[trigger] w.cpus[d] == v.cpus[d]
    &&& w.buckets == v.buckets && w.zombies == v.zombies && w.live == v.live && w.switching == v.switching
    &&& next != runner(v, c) ==> {
        &&& w.threads[next.0].state is Running
        &&& w.threads[next.0].on_cpu
        &&& w.threads[next.0].cpu == v.cpus[c].cpu_id
        &&& s == Some(Switch { prev: runner(v, c), next, fs_base: v.threads[next.0].fs_base })
    }
    &&& next == runner(v, c) ==> s is None && w.threads == v.threads
    &&& forall|k: u32|
        #![trigger w.threads[k]]
        v.threads.contains_key(k) && k != next.0 && k != runner(v, c).0 ==> w.threads[k] == v.threads[k]
    &&& forall|k: u32|
        #![trigger w.threads[k].wait_link]
        v.threads.contains_key(k) ==> w.threads[k].wait_link == v.threads[k].wait_link && w.threads[k].fs_base == v.threads[k].fs_base
            && w.threads[k].exit_code == v.threads[k].exit_code
    &&& w.threads[runner(v, c).0].state is Running ==> next == runner(v, c) || v.cpus[c].idle == Some(runner(v, c))
}

proof fn lemma_gave_way(v: Sched, c: int)
    requires
        v.registered(),
        running(v, c),
    ensures
        gave_way(v, rescheduled(v, c), c, crate::sched::scheduler::switch_of(v, c)),
{
    let w = rescheduled(v, c);
    let next = who_is_next(v, c);
    let prev = runner(v, c);
    assert(v.runs_on(prev, c));
    assert(v.has(prev));
    if v.cpus[c].queue.len() > 0 {
        assert(v.cpus[c].queue.contains(next));
        assert(v.queued_on(next, c));
    } else {
        assert(v.idles_on(next, c));
    }
    assert(v.has(next));
    assert(v.threads[next.0].tid == Tid(next.0));
    assert(v.threads[prev.0].tid == Tid(prev.0));
    assert(next == Tid(next.0) && prev == Tid(prev.0));
}

/// A thread that waits for a word does so only if the word is as expected, and is then the latest to wait for it: blocked, and
/// off its CPU, which goes on with the next thread. If the word is something else, it goes on at once; and if it was not to
/// wait for longer than some time, it does not wait at all.
pub proof fn law_wait_waits_for_the_word<M: Memory>(args: &SyscallArgs, um: &M, sched: &mut Scheduler, c: u32, r: Parking)
    requires
        call_ensures(sys_futex::<M>, (args, um, sched, c), r),
        old(sched)@.wf(),
        old(sched)@.settled(),
        active(old(sched)@, c as int),
        args.arg0 != 0,
        super::futexes::command(*args) == 0 || (super::futexes::command(*args) == 9 && args.arg5 as u32 != 0),
        within(um, args.arg0 as int, 4),
    ensures
        ({
            let v = old(sched)@;
            let w = final(sched)@;
            let t = runner(v, c as int);
            let bits: u32 = if super::futexes::command(*args) == 9 { args.arg5 as u32 } else { 0xffff_ffff };
            if u32_at(um, args.arg0 as int) != (args.arg2 as u32) as int {
                (r matches Parking::Return(e) && e == -11) && w == v
            } else if args.arg3 != 0 {
                (r matches Parking::Return(e) && e == -110) && w == v
            } else {
                &&& r is Parked
                &&& waiters(w, args.arg0, None) == seq![t] + waiters(v, args.arg0, None)
                &&& w.threads[t.0].state is Blocked
                &&& w.threads[t.0].wait_link.uaddr == args.arg0 && w.threads[t.0].wait_link.bitset == bits
                &&& w.cpus[c as int].current == Some(who_is_next(v, c as int))
                &&& who_is_next(v, c as int) != t
            }
        }),
{
    let v = old(sched)@;
    let w = final(sched)@;
    let t = runner(v, c as int);
    let bits: u32 = if super::futexes::command(*args) == 9 { args.arg5 as u32 } else { 0xffff_ffff };
    lemma_u32_at(um, args.arg0 as int);
    if u32_at(um, args.arg0 as int) == (args.arg2 as u32) as int && args.arg3 == 0 {
        let p = parked(v, c as int, args.arg0, bits);
        lemma_parked(v, c as int, args.arg0, bits);
        lemma_active(v, c as int);
        assert(v.runs_on(t, c as int));
        assert(running(p, c as int));
        lemma_gave_way(p, c as int);
        let next = who_is_next(v, c as int);
        if v.cpus[c as int].queue.len() > 0 {
            assert(v.cpus[c as int].queue.contains(next));
            assert(v.queued_on(next, c as int));
        } else {
            assert(v.idles_on(next, c as int));
        }
        assert(next != t);
        let b = bucket_of(args.arg0);
        let list = v.buckets[b];
        let grown = seq![t] + list;
        assert(p.buckets[b] == grown);
        assert(w.buckets[b] == grown);
        lemma_step(w.threads, grown, args.arg0, None);
        assert(grown.drop_first() =~= list);
        assert(grown[0] == t);
        assert(p.threads[t.0].wait_link.uaddr == args.arg0);
        assert(p.has(t));
        assert(w.threads[t.0].wait_link == p.threads[t.0].wait_link);
        assert forall|i: int| 0 <= i < list.len() implies w.threads[(#[trigger] list[i]).0].wait_link == v.threads[list[i].0].wait_link by {
            let u = list[i];
            assert(list.contains(u));
            assert(v.waits_in(u, b));
            assert(v.thread(u).state is Blocked);
            assert(u != t);
            assert(p.threads.contains_key(u.0));
            assert(w.threads[u.0].wait_link == p.threads[u.0].wait_link);
            assert(v.threads[u.0].tid == Tid(u.0) && v.threads[t.0].tid == Tid(t.0));
            assert(u.0 != t.0);
        }
        lemma_same_links(v.threads, w.threads, list, args.arg0, None);
    }
}

/// Giving way: if others wait for the CPU, the first of them gets it, and the thread joins the end of the queue. The idle
/// thread keeps its place, and so does a thread that nobody waits behind.
pub proof fn law_yield_gives_way(args: &SyscallArgs, sched: &mut Scheduler, c: u32, r: Yield)
    requires
        call_ensures(sys_sched_yield, (args, sched, c), r),
        old(sched)@.wf(),
        old(sched)@.settled(),
        running(old(sched)@, c as int),
    ensures
        ({
            let v = old(sched)@;
            let w = final(sched)@;
            let q = v.cpus[c as int].queue;
            let t = runner(v, c as int);
            &&& q.len() == 0 ==> !(r is Switched) && w.cpus[c as int].current == v.cpus[c as int].current
            &&& q.len() > 0 && v.cpus[c as int].idle == Some(t) ==> r == Yield::Return(0) && w == v
            &&& q.len() > 0 && v.cpus[c as int].idle != Some(t) ==> r is Switched && w.cpus[c as int].current == Some(q[0])
                && w.cpus[c as int].queue == q.push(t).drop_first() && w.threads[q[0].0].fs_base == v.threads[q[0].0].fs_base && (q[0] != t
                ==> w.threads[q[0].0].state is Running)
        }),
{
    let v = old(sched)@;
    let t = runner(v, c as int);
    if v.cpus[c as int].queue.len() > 0 && v.cpus[c as int].idle != Some(t) {
        let p = crate::sched::scheduler::queued_at(v, t, c as int);
        assert(v.runs_on(t, c as int));
        let q = v.cpus[c as int].queue;
        assert(p.cpus[c as int].queue == q.push(t));
        assert(p.cpus[c as int].queue[0] == q[0]);
        assert(p.registered()) by {
            assert forall|u: Tid, d: int| #[trigger] p.queued_on(u, d) implies p.has(u) by {
                if d == c {
                    let i = choose|i: int| 0 <= i < q.push(t).len() && q.push(t)[i] == u;
                    if i < q.len() {
                        assert(q.contains(u));
                        assert(v.queued_on(u, d));
                    }
                } else {
                    assert(v.queued_on(u, d));
                }
            }
            assert forall|u: Tid, d: int| #[trigger] p.runs_on(u, d) implies p.has(u) by {
                assert(v.runs_on(u, d));
            }
            assert forall|u: Tid, d: int| #[trigger] p.idles_on(u, d) implies p.has(u) by {
                assert(v.idles_on(u, d));
            }
            assert forall|u: Tid, d: int| #[trigger] p.waits_in(u, d) implies p.has(u) by {
                assert(v.waits_in(u, d));
            }
            assert forall|i: int| 0 <= i < p.zombies.len() implies p.has(#[trigger] p.zombies[i]) by {
                assert(v.has(v.zombies[i]));
            }
        }
        lemma_gave_way(p, c as int);
    }
}

/// The id of the thread is its own, and the id of the process that of its group.
pub proof fn law_ids(args: &SyscallArgs, sched: &Scheduler, c: u32, pid: SyscallResult, tid: SyscallResult)
    requires
        call_ensures(sys_getpid, (args, sched, c), pid),
        call_ensures(sys_gettid, (args, sched, c), tid),
    ensures
        tid == runner(sched@, c as int).0,
        pid == sched@.threads[runner(sched@, c as int).0].tgid.0,
{
}

/// Only one field of the thread that runs on CPU `c` may have changed, and nothing else.
pub open spec fn same_but_me(v: Sched, w: Sched, c: int) -> bool {
    &&& w.cpus == v.cpus && w.buckets == v.buckets && w.zombies == v.zombies && w.live == v.live && w.next_tid == v.next_tid
    &&& forall|k: u32| #[trigger] w.threads.contains_key(k) <==> v.threads.contains_key(k)
    &&& forall|k: u32| #![trigger w.threads[k]] v.threads.contains_key(k) && k != runner(v, c).0 ==> w.threads[k] == v.threads[k]
    &&& w.threads[runner(v, c).0].tid == v.threads[runner(v, c).0].tid && w.threads[runner(v, c).0].state == v.threads[runner(v, c).0].state
        && w.threads[runner(v, c).0].tgid == v.threads[runner(v, c).0].tgid && w.threads[runner(v, c).0].wait_link
        == v.threads[runner(v, c).0].wait_link
}

/// The address where the id is cleared at the end is what was asked for; the call gives the id of the thread.
pub proof fn law_tid_address_is_kept(args: &SyscallArgs, sched: &mut Scheduler, c: u32, r: SyscallResult)
    requires
        call_ensures(sys_set_tid_address, (args, sched, c), r),
        old(sched)@.wf(),
        running(old(sched)@, c as int),
    ensures
        r == runner(old(sched)@, c as int).0,
        final(sched)@.threads[runner(old(sched)@, c as int).0].clear_child_tid == args.arg0,
        final(sched)@.threads[runner(old(sched)@, c as int).0].fs_base == old(sched)@.threads[runner(old(sched)@, c as int).0].fs_base,
        same_but_me(old(sched)@, final(sched)@, c as int),
{
    assert(old(sched)@.runs_on(runner(old(sched)@, c as int), c as int));
}

/// The list of robust futexes is where it was said to be, if its head has the right size.
pub proof fn law_robust_list_is_kept(args: &SyscallArgs, sched: &mut Scheduler, c: u32, r: SyscallResult)
    requires
        call_ensures(sys_set_robust_list, (args, sched, c), r),
        old(sched)@.wf(),
        running(old(sched)@, c as int),
    ensures
        args.arg1 == 24 ==> r == 0 && final(sched)@.threads[runner(old(sched)@, c as int).0].robust_list_head == args.arg0 && same_but_me(
            old(sched)@,
            final(sched)@,
            c as int,
        ),
        args.arg1 != 24 ==> r == -22 && final(sched)@ == old(sched)@,
{
    assert(old(sched)@.runs_on(runner(old(sched)@, c as int), c as int));
}

/// The base of the thread-local storage can be set to any address of the user: it is kept with the thread and put into the
/// register. Asking for it gives what was set.
pub proof fn law_storage_base_is_kept<M: Memory>(
    args: &SyscallArgs,
    um: &mut M,
    sched: &mut Scheduler,
    c: u32,
    r: (SyscallResult, Option<u64>),
)
    requires
        call_ensures(sys_arch_prctl::<M>, (args, um, sched, c), r),
        old(sched)@.wf(),
        running(old(sched)@, c as int),
        args.arg0 == 0x1003 && args.arg1 != 0 ==> within(old(um), args.arg1 as int, 8),
    ensures
        ({
            let v = old(sched)@;
            let w = final(sched)@;
            let t = runner(v, c as int);
            &&& args.arg0 == 0x1002 && args.arg1 < 0x8000_0000_0000 ==> r.0 == 0 && r.1 == Some(args.arg1) && w.threads[t.0].fs_base
                == args.arg1 && same_but_me(v, w, c as int) && *final(um) == *old(um)
            &&& args.arg0 == 0x1003 && args.arg1 != 0 ==> r.0 == 0 && r.1 is None && w == v && u64_at(final(um), args.arg1 as int)
                == v.threads[t.0].fs_base && same_but(old(um), final(um), args.arg1 as int, 8)
            &&& !(args.arg0 == 0x1002 && args.arg1 < 0x8000_0000_0000) && !(args.arg0 == 0x1003 && args.arg1 != 0) ==> r.0 < 0 && r.1 is None
                && w == v && *final(um) == *old(um)
        }),
{
    let v = old(sched)@;
    let t = runner(v, c as int);
    assert(v.runs_on(t, c as int));
    if args.arg0 == 0x1003 && args.arg1 != 0 {
        lemma_wrote_u64(old(um), final(um), args.arg1 as int, v.threads[t.0].fs_base);
    }
}

/// A thread that ends: its word is zero, and one who waits for that word is woken. It has its exit code, and waits to be
/// cleared away. If it was the last, the machine stops with that code; else its CPU goes on with the next thread.
pub proof fn law_exit_ends_the_thread<M: Memory>(args: &SyscallArgs, um: &mut M, sched: &mut Scheduler, c: u32, r: Exit)
    requires
        call_ensures(sys_exit::<M>, (args, um, sched, c), r),
        old(sched)@.wf(),
        old(sched)@.settled(),
        active(old(sched)@, c as int),
        ({
            let clear = old(sched)@.threads[runner(old(sched)@, c as int).0].clear_child_tid;
            clear != 0 ==> within(old(um), clear as int, 4)
        }),
    ensures
        ({
            let v = old(sched)@;
            let w = final(sched)@;
            let t = runner(v, c as int);
            let clear = v.threads[t.0].clear_child_tid;
            let before = waiters(v, clear, None);
            &&& w.live == v.live.wrapping_sub(1)
            &&& w.threads[t.0].exit_code == args.arg0 as i32
            &&& if clear == 0 {
                *final(um) == *old(um) && w.buckets == v.buckets
            } else {
                &&& u32_at(final(um), clear as int) == 0
                &&& same_but(old(um), final(um), clear as int, 4)
                &&& waiters(w, clear, None) == (if before.len() > 0 { before.skip(1) } else { before })
                &&& before.len() > 0 ==> forall|b: int| !(#[trigger] w.waits_in(before[0], b))
            }
            &&& v.live == 1 ==> r == Exit::Shutdown(args.arg0 as i32)
            &&& v.live != 1 ==> {
                &&& r is Switched
                &&& w.threads[t.0].state is Exited
                &&& w.zombies == v.zombies.push(t)
                &&& w.cpus[c as int].current != Some(t)
            }
        }),
{
    let v = old(sched)@;
    let w = final(sched)@;
    let t = runner(v, c as int);
    let code = args.arg0 as i32;
    let clear = v.threads[t.0].clear_child_tid;
    let l = leaving(v, c as int, code);
    let b = bucket_of(clear);
    let list = v.buckets[b];
    assert(0 <= b < v.buckets.len());
    assert(v.runs_on(t, c as int));
    lemma_active(v, c as int);
    assert(v.threads[t.0].tid == t);
    let me = Thread { exit_code: code, clear_child_tid: 0, ..v.thread(t) };
    lemma_thread_change(v, me);
    assert(l == v.with_thread(me));
    let ts = joiners(v, c as int, code);
    let u = released(v, c as int, code);
    let d = discounted(v, c as int, code);
    if clear != 0 {
        lemma_wrote_u32(old(um), final(um), clear as int, 0);
        lemma_taken(l.threads, list, clear, None, 1);
        lemma_unlinked(l, clear, None, 1);
        assert forall|i: int| 0 <= i < list.len() implies l.threads[(#[trigger] list[i]).0].wait_link == v.threads[list[i].0].wait_link by {}
        lemma_same_links(v.threads, l.threads, list, clear, None);
    } else {
        assert(ts.len() == 0);
    }
    assert forall|k: u32| #[trigger] u.threads.contains_key(k) implies u.threads[k].tid == Tid(k) by {
        assert(v.threads.contains_key(k) || k == t.0);
    }
    lemma_woken_all(u, ts, c as int);
    let m = crate::sched::scheduler::woken_all(u, ts, c as int);
    assert(d.threads == m.threads && d.buckets == m.buckets);
    assert(!(u.threads[t.0].state is Blocked));
    assert(m.threads[t.0] == u.threads[t.0]);
    let before = waiters(v, clear, None);
    let left = u.buckets[b];
    lemma_woken_all_keeps(u, ts, c as int, t);
    assert(keeps_places(u, m));
    if clear != 0 {
        let n = if before.len() > 0 { 1int } else { 0 };
        assert(of_list(l.threads, left, clear, None) == before.skip(n));
        assert(before.len() == 0 ==> before.skip(0) =~= before);
        lemma_parts(l.threads, list, clear, None, 1);
        assert(ts == before.take(n));
        if before.len() > 0 {
            assert(ts[0] == before[0]);
            assert forall|x: int| !(#[trigger] d.waits_in(before[0], x)) by {
                assert(!u.waits_in(ts[0], x));
            }
        }
        assert forall|i: int| 0 <= i < left.len() implies d.threads[(#[trigger] left[i]).0].wait_link == l.threads[left[i].0].wait_link by {
            assert(left.contains(left[i]));
            assert(list.contains(left[i]));
            assert(v.waits_in(left[i], b));
        }
        lemma_same_links(l.threads, d.threads, left, clear, None);
    }
    if v.live != 1 {
        let gone = Thread { state: ThreadState::Exited, ..d.thread(t) };
        assert(d.runs_on(t, c as int));
        assert(d.has(t));
        assert forall|x: int| !d.idles_on(t, x) by {
            if d.idles_on(t, x) {
                assert(v.idles_on(t, x));
            }
        }
        assert forall|x: int| !d.waits_in(t, x) by {
            if d.waits_in(t, x) {
                assert(u.waits_in(t, x));
                assert(l.waits_in(t, x));
                assert(v.waits_in(t, x));
            }
        }
        assert forall|x: int| !d.queued_on(t, x) by {}
        assert(d.zombies == v.zombies);
        assert(d.threads[t.0].tid == t);
        lemma_thread_change(d, gone);
        let g = d.with_thread(gone);
        assert(!v.zombies.contains(t)) by {
            if v.zombies.contains(t) {
                let k = choose|k: int| 0 <= k < v.zombies.len() && v.zombies[k] == t;
                assert(v.thread(v.zombies[k]).state is Exited);
            }
        }
        lemma_buried(g, t);
        let e = buried(g, t);
        assert(running(e, c as int));
        lemma_gave_way(e, c as int);
        let next = who_is_next(e, c as int);
        assert(next != t) by {
            if e.cpus[c as int].queue.len() > 0 {
                assert(e.cpus[c as int].queue.contains(next));
                assert(d.queued_on(next, c as int));
            } else {
                assert(d.idles_on(next, c as int));
            }
        }
        if clear != 0 {
            assert forall|i: int| 0 <= i < left.len() implies w.threads[(#[trigger] left[i]).0].wait_link == d.threads[left[i].0].wait_link by {
                assert(left.contains(left[i]));
                assert(list.contains(left[i]));
                assert(v.waits_in(left[i], b));
                assert(e.threads.contains_key(left[i].0));
            }
            lemma_same_links(d.threads, w.threads, left, clear, None);
            if before.len() > 0 {
                assert forall|x: int| !(#[trigger] w.waits_in(before[0], x)) by {
                    assert(!d.waits_in(before[0], x));
                }
            }
        }
    }
}

} // verus!
