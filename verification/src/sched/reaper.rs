//! Threads that have exited.

use vstd::prelude::*;

use super::scheduler::{Sched, Scheduler};
use super::thread::{Thread, Tid};
use crate::memory::access::{same_window, Memory};
use crate::memory::allocators::kmalloc::{insert_block, keeps, Block, KernelAllocator, HEADER_SIZE};
use crate::memory::allocators::palloc::PageAllocator;

verus! {

/// The scheduler after `t` joined the threads to reap.
pub open spec fn buried(v: Sched, t: Tid) -> Sched {
    Sched { zombies: v.zombies.push(t), pending: true, ..v }
}

/// The scheduler after the thread at index `i` of those to reap is gone.
pub open spec fn gone(v: Sched, i: int) -> Sched {
    Sched {
        threads: v.threads.remove(v.zombies[i].0),
        zombies: v.zombies.update(i, v.zombies.last()).drop_last(),
        ..v
    }
}

/// The scheduler after all threads to reap, from index `i` on, whose context is saved are
/// gone, and those threads in the order in which they went.
pub open spec fn reaped(v: Sched, i: int) -> (Sched, Seq<Thread>)
    decreases v.zombies.len(), v.zombies.len() - i,
{
    if i < 0 || i >= v.zombies.len() {
        (v, Seq::empty())
    } else if v.thread(v.zombies[i]).on_cpu {
        reaped(v, i + 1)
    } else {
        let (w, rest) = reaped(gone(v, i), i);
        (w, seq![v.thread(v.zombies[i])] + rest)
    }
}

/// The scheduler after reaping.
pub open spec fn reaped_all(v: Sched) -> Sched {
    if v.pending {
        let w = reaped(v, 0).0;
        Sched { pending: w.zombies.len() > 0, ..w }
    } else {
        v
    }
}

/// The threads that go when the scheduler reaps.
pub open spec fn reaps(v: Sched) -> Seq<Thread> {
    if v.pending { reaped(v, 0).1 } else { Seq::empty() }
}

/// The heap, as its free blocks and its live allocations, after the stacks of `ts` went back.
pub open spec fn stacks_freed(free: Seq<Block>, live: Map<int, int>, ts: Seq<Thread>) -> (Seq<Block>, Map<int, int>)
    decreases ts.len(),
{
    if ts.len() == 0 {
        (free, live)
    } else {
        let s = ts[0].kernel_stack_phys.0 - HEADER_SIZE;
        if ts[0].kernel_stack_freeable {
            stacks_freed(insert_block(free, Block { start: s, size: live[s] }), live.remove(s), ts.drop_first())
        } else {
            stacks_freed(free, live, ts.drop_first())
        }
    }
}

/// Every stack that the reaper will give back is a live allocation of its own.
pub open spec fn stacks_live(v: Sched, live: Map<int, int>) -> bool {
    &&& forall|i: int|
        0 <= i < v.zombies.len() && v.thread(#[trigger] v.zombies[i]).kernel_stack_freeable ==> live.contains_key(
            v.thread(v.zombies[i]).kernel_stack_phys.0 - HEADER_SIZE,
        )
    &&& forall|i: int, j: int|
        0 <= i < v.zombies.len() && 0 <= j < v.zombies.len() && i != j && v.thread(#[trigger] v.zombies[i]).kernel_stack_freeable
            && v.thread(#[trigger] v.zombies[j]).kernel_stack_freeable ==> v.thread(v.zombies[i]).kernel_stack_phys
            != v.thread(v.zombies[j]).kernel_stack_phys
}

/// Burying an exited thread keeps what always holds.
pub proof fn lemma_buried(v: Sched, t: Tid)
    requires
        v.wf(),
        v.settled(),
        v.has(t),
        v.thread(t).state is Exited,
        !v.zombies.contains(t),
    ensures
        buried(v, t).wf(),
        buried(v, t).settled(),
{
    let w = buried(v, t);
    assert forall|u: Tid, d: int| #[trigger] w.queued_on(u, d) <==> v.queued_on(u, d) by {}
    assert forall|u: Tid, d: int| #[trigger] w.runs_on(u, d) <==> v.runs_on(u, d) by {}
    assert forall|u: Tid, d: int| #[trigger] w.idles_on(u, d) <==> v.idles_on(u, d) by {}
    assert forall|u: Tid, d: int| #[trigger] w.waits_in(u, d) <==> v.waits_in(u, d) by {}
    assert forall|i: int| 0 <= i < w.zombies.len() implies w.has(#[trigger] w.zombies[i]) && w.thread(w.zombies[i]).state is Exited by {
        if i < v.zombies.len() {
            assert(v.has(v.zombies[i]));
        }
    }
    assert(w.zombies.no_duplicates()) by {
        assert forall|i: int, j: int| 0 <= i < w.zombies.len() && 0 <= j < w.zombies.len() && i != j implies w.zombies[i]
            != w.zombies[j] by {
            if i == v.zombies.len() {
                assert(v.zombies.contains(v.zombies[j]));
            } else if j == v.zombies.len() {
                assert(v.zombies.contains(v.zombies[i]));
            }
        }
    }
    assert(w.registered());
    assert(w.states_agree());
    assert(w.places_differ());
}

/// An exited thread whose context is saved has no place, so nothing misses it when it is gone.
pub proof fn lemma_gone(v: Sched, i: int, live: Map<int, int>)
    requires
        v.wf(),
        v.settled(),
        0 <= i < v.zombies.len(),
        !v.thread(v.zombies[i]).on_cpu,
        stacks_live(v, live),
    ensures
        gone(v, i).wf(),
        gone(v, i).settled(),
        stacks_live(gone(v, i), live.remove(v.thread(v.zombies[i]).kernel_stack_phys.0 - HEADER_SIZE)) || !v.thread(
            v.zombies[i],
        ).kernel_stack_freeable,
        !v.thread(v.zombies[i]).kernel_stack_freeable ==> stacks_live(gone(v, i), live),
{
    let w = gone(v, i);
    let t = v.zombies[i];
    assert(v.has(t) && v.thread(t).state is Exited);
    assert forall|k: int| 0 <= k < w.zombies.len() implies w.has(#[trigger] w.zombies[k]) && w.thread(w.zombies[k]) == v.thread(
        w.zombies[k],
    ) && w.thread(w.zombies[k]).state is Exited && w.zombies[k] != t by {
        let m = if k == i { v.zombies.len() - 1 } else { k };
        assert(w.zombies[k] == v.zombies[m]);
        assert(v.has(v.zombies[m]));
        assert(v.zombies[m] != v.zombies[i]);
        assert(v.zombies[m].0 != t.0);
    }
    assert forall|u: Tid, d: int| #[trigger] w.queued_on(u, d) <==> v.queued_on(u, d) by {}
    assert forall|u: Tid, d: int| #[trigger] w.runs_on(u, d) <==> v.runs_on(u, d) by {}
    assert forall|u: Tid, d: int| #[trigger] w.idles_on(u, d) <==> v.idles_on(u, d) by {}
    assert forall|u: Tid, d: int| #[trigger] w.waits_in(u, d) <==> v.waits_in(u, d) by {}
    assert forall|u: Tid| u != t implies (#[trigger] w.has(u) <==> v.has(u)) && (v.has(u) ==> w.thread(u) == v.thread(u)) by {
        assert(u.0 != t.0);
    }
    assert(w.zombies.no_duplicates()) by {
        assert forall|j: int, k: int| 0 <= j < w.zombies.len() && 0 <= k < w.zombies.len() && j != k implies w.zombies[j]
            != w.zombies[k] by {
            let a = if j == i { v.zombies.len() - 1 } else { j };
            let b = if k == i { v.zombies.len() - 1 } else { k };
            assert(v.zombies[a] != v.zombies[b]);
        }
    }
    assert(w.registered());
    assert(w.states_agree());
    assert(w.places_differ());
    let s = v.thread(t).kernel_stack_phys.0 - HEADER_SIZE;
    let rest = if v.thread(t).kernel_stack_freeable { live.remove(s) } else { live };
    assert(stacks_live(w, rest)) by {
        assert forall|k: int| 0 <= k < w.zombies.len() && w.thread(#[trigger] w.zombies[k]).kernel_stack_freeable implies rest.contains_key(
            w.thread(w.zombies[k]).kernel_stack_phys.0 - HEADER_SIZE,
        ) by {
            let m = if k == i { v.zombies.len() - 1 } else { k };
            assert(w.zombies[k] == v.zombies[m]);
            if v.thread(t).kernel_stack_freeable {
                assert(v.thread(v.zombies[m]).kernel_stack_phys != v.thread(v.zombies[i]).kernel_stack_phys);
            }
        }
        assert forall|j: int, k: int|
            0 <= j < w.zombies.len() && 0 <= k < w.zombies.len() && j != k && w.thread(#[trigger] w.zombies[j]).kernel_stack_freeable
                && w.thread(#[trigger] w.zombies[k]).kernel_stack_freeable implies w.thread(w.zombies[j]).kernel_stack_phys
            != w.thread(w.zombies[k]).kernel_stack_phys by {
            let a = if j == i { v.zombies.len() - 1 } else { j };
            let b = if k == i { v.zombies.len() - 1 } else { k };
            assert(w.zombies[j] == v.zombies[a] && w.zombies[k] == v.zombies[b]);
        }
    }
}

/// After reaping, the threads that are left to reap are those that are still on a CPU, and every
/// thread that is not to be reaped is still there.
pub proof fn law_reaped(v: Sched, i: int)
    requires
        0 <= i <= v.zombies.len(),
        v.zombies.no_duplicates(),
        forall|k: int| 0 <= k < v.zombies.len() ==> v.has(#[trigger] v.zombies[k]),
        forall|k: int| 0 <= k < i ==> v.thread(#[trigger] v.zombies[k]).on_cpu,
    ensures
        forall|k: int|
            0 <= k < reaped(v, i).0.zombies.len() ==> v.thread(#[trigger] reaped(v, i).0.zombies[k]).on_cpu && reaped(
                v,
                i,
            ).0.has(reaped(v, i).0.zombies[k]),
        forall|t: Tid| v.has(t) && !v.zombies.contains(t) ==> #[trigger] reaped(v, i).0.has(t) && reaped(v, i).0.thread(t)
            == v.thread(t),
        reaped(v, i).1.len() + reaped(v, i).0.zombies.len() == v.zombies.len(),
    decreases v.zombies.len(), v.zombies.len() - i,
{
    if i < v.zombies.len() {
        if v.thread(v.zombies[i]).on_cpu {
            law_reaped(v, i + 1);
            assert(reaped(v, i) == reaped(v, i + 1));
        } else {
            let w = gone(v, i);
            let t = v.zombies[i];
            assert forall|k: int| 0 <= k < w.zombies.len() implies w.has(#[trigger] w.zombies[k]) && w.thread(w.zombies[k])
                == v.thread(w.zombies[k]) && v.zombies.contains(w.zombies[k]) && w.zombies[k] != t by {
                let m = if k == i { v.zombies.len() - 1 } else { k };
                assert(w.zombies[k] == v.zombies[m]);
                assert(v.zombies[m] != v.zombies[i]);
                assert(v.zombies[m].0 != t.0);
            }
            assert(w.zombies.no_duplicates()) by {
                assert forall|j: int, k: int| 0 <= j < w.zombies.len() && 0 <= k < w.zombies.len() && j != k implies w.zombies[j]
                    != w.zombies[k] by {
                    let a = if j == i { v.zombies.len() - 1 } else { j };
                    let b = if k == i { v.zombies.len() - 1 } else { k };
                    assert(v.zombies[a] != v.zombies[b]);
                }
            }
            assert forall|k: int| 0 <= k < i implies w.thread(#[trigger] w.zombies[k]).on_cpu by {
                assert(w.zombies[k] == v.zombies[k]);
                assert(v.thread(v.zombies[k]).on_cpu);
            }
            law_reaped(w, i);
            let x = reaped(w, i).0;
            assert(reaped(v, i).0 == x);
            assert forall|k: int| 0 <= k < x.zombies.len() implies v.thread(#[trigger] x.zombies[k]).on_cpu && x.has(
                x.zombies[k],
            ) by {
                let u = x.zombies[k];
                assert(w.thread(u).on_cpu);
                lemma_zombies_shrink(w, i, u);
                let m = choose|m: int| 0 <= m < w.zombies.len() && w.zombies[m] == u;
                assert(w.thread(w.zombies[m]) == v.thread(w.zombies[m]));
            }
            assert forall|u: Tid| v.has(u) && !v.zombies.contains(u) implies #[trigger] x.has(u) && x.thread(u) == v.thread(u) by {
                assert(u != t) by {
                    assert(v.zombies.contains(t));
                }
                assert(u.0 != t.0);
                if w.zombies.contains(u) {
                    let m = choose|m: int| 0 <= m < w.zombies.len() && w.zombies[m] == u;
                    assert(v.zombies.contains(w.zombies[m]));
                }
                assert(w.has(u) && w.thread(u) == v.thread(u));
                assert(x.has(u));
            }
        }
    }
}

proof fn lemma_zombies_shrink(v: Sched, i: int, u: Tid)
    requires
        0 <= i <= v.zombies.len(),
        reaped(v, i).0.zombies.contains(u),
    ensures
        v.zombies.contains(u),
    decreases v.zombies.len(), v.zombies.len() - i,
{
    if i < v.zombies.len() {
        if v.thread(v.zombies[i]).on_cpu {
            lemma_zombies_shrink(v, i + 1, u);
        } else {
            let w = gone(v, i);
            lemma_zombies_shrink(w, i, u);
            let k = choose|k: int| 0 <= k < w.zombies.len() && w.zombies[k] == u;
            let m = if k == i { v.zombies.len() - 1 } else { k };
            assert(v.zombies[m] == u);
        }
    }
}

/// Adds a thread that has exited to those to reap.
pub fn push_zombie(sched: &mut Scheduler, t: Tid)
    requires
        old(sched)@.wf(),
        old(sched)@.settled(),
        old(sched)@.has(t),
        old(sched)@.thread(t).state is Exited,
        !old(sched)@.zombies.contains(t),
    ensures
        final(sched)@ == buried(old(sched)@, t),
        final(sched)@.wf(),
        final(sched)@.settled(),
{
    proof {
        lemma_buried(sched@, t);
    }
    sched.zombies.push(t);
    sched.zombies_pending = true;
}

/// Forgets the exited threads whose contexts are saved, and gives their stacks back to the heap.
pub fn reap_zombies<M: Memory>(sched: &mut Scheduler, heap: &mut KernelAllocator, palloc: &PageAllocator, dm: &mut M)
    requires
        old(sched)@.wf(),
        old(sched)@.settled(),
        old(heap).wf(palloc@, old(dm)),
        stacks_live(old(sched)@, old(heap).live()),
    ensures
        final(sched)@ == reaped_all(old(sched)@),
        (final(heap).free_blocks(), final(heap).live()) == stacks_freed(
            old(heap).free_blocks(),
            old(heap).live(),
            reaps(old(sched)@),
        ),
        final(sched)@.wf(),
        final(sched)@.settled(),
        final(heap).wf(palloc@, final(dm)),
        same_window(old(dm), final(dm)),
        stacks_live(final(sched)@, final(heap).live()),
{
    let ghost v = sched@;
    if !sched.zombies_pending {
        return;
    }
    let mut i: usize = 0;
    let ghost mut done: Seq<Thread> = Seq::empty();
    assert(done + reaped(v, 0).1 =~= reaped(v, 0).1);
    while i < sched.zombies.len()
        invariant
            i <= sched.zombies@.len(),
            sched@.wf(),
            sched@.settled(),
            sched@.pending == v.pending,
            heap.wf(palloc@, dm),
            stacks_live(sched@, heap.live()),
            same_window(old(dm), dm),
            reaped(sched@, i as int).0 == reaped(v, 0).0,
            stacks_freed(heap.free_blocks(), heap.live(), reaped(sched@, i as int).1) == stacks_freed(
                old(heap).free_blocks(),
                old(heap).live(),
                reaped(v, 0).1,
            ),
        decreases sched.zombies@.len(), sched.zombies@.len() - i,
    {
        let ghost w = sched@;
        let t: Tid = sched.zombies[i];
        assert(w.has(w.zombies[i as int]));
        let d = sched.thread(t);
        if d.on_cpu {
            i += 1;
        } else {
            proof {
                lemma_gone(w, i as int, heap.live());
                let rest = reaped(gone(w, i as int), i as int).1;
                assert((seq![d] + rest).drop_first() =~= rest);
                assert((seq![d] + rest)[0] == d);
            }
            sched.zombies.swap_remove(i);
            let _ = sched.threads.unregister(t);
            assert(sched@ =~= gone(w, i as int));
            if d.kernel_stack_freeable {
                heap.free(palloc, dm, d.kernel_stack_phys);
            }
        }
    }
    if sched.zombies.len() == 0 {
        sched.zombies_pending = false;
    }
    proof {
        assert(sched@ =~= reaped_all(v));
        let w = reaped(v, 0).0;
        assert forall|u: Tid, e: int| #[trigger] sched@.queued_on(u, e) <==> w.queued_on(u, e) by {}
        assert forall|u: Tid, e: int| #[trigger] sched@.runs_on(u, e) <==> w.runs_on(u, e) by {}
        assert forall|u: Tid, e: int| #[trigger] sched@.idles_on(u, e) <==> w.idles_on(u, e) by {}
        assert forall|u: Tid, e: int| #[trigger] sched@.waits_in(u, e) <==> w.waits_in(u, e) by {}
        assert forall|k: int| 0 <= k < sched@.zombies.len() implies sched@.has(#[trigger] sched@.zombies[k]) && sched@.thread(
            sched@.zombies[k],
        ).state is Exited by {
            assert(w.has(w.zombies[k]));
        }
        assert(sched@.registered());
        assert(sched@.states_agree());
        assert(sched@.places_differ());
    }
}

} // verus!
