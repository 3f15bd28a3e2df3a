//! Waiting for a word in memory, and waking those who wait for it.

use vstd::prelude::*;

use crate::memory::access::{Memory};
use crate::sched::futex::{bucket_of, passed_over, picked, unlinked, wakes};
use crate::sched::scheduler::{active, woken, woken_all, Parking, Sched, Scheduler};
use crate::sched::thread::{Thread, Tid};
use crate::syscall::args::SyscallArgs;
use crate::syscall::handlers::thread::sys_futex;

verus! {

/// The thread waits for the word at `uaddr`, and for one of the bits if any are named.
pub open spec fn waits_at(threads: Map<u32, Thread>, t: Tid, uaddr: u64, bits: Option<u32>) -> bool {
    &&& threads[t.0].wait_link.uaddr == uaddr
    &&& bits matches Some(b) ==> threads[t.0].wait_link.bitset & b != 0
}

/// Those of the list who wait for the word at `uaddr`.
pub open spec fn of_list(threads: Map<u32, Thread>, list: Seq<Tid>, uaddr: u64, bits: Option<u32>) -> Seq<Tid> {
    list.filter(|t: Tid| waits_at(threads, t, uaddr, bits))
}

/// All who wait for the word at `uaddr`, the latest first.
pub open spec fn waiters(v: Sched, uaddr: u64, bits: Option<u32>) -> Seq<Tid> {
    of_list(v.threads, v.buckets[bucket_of(uaddr)], uaddr, bits)
}

/// The thread is on its way to a CPU: in a queue, or to join one as soon as its context is saved.
pub open spec fn on_its_way(v: Sched, t: Tid) -> bool {
    v.switching.contains(t) || exists|c: int| #[trigger] v.queued_on(t, c)
}

/// The futex command without its flags.
pub open spec fn command(args: SyscallArgs) -> i32 {
    (args.arg1 as i32) & ((-385int) as i32)
}

/// The smaller of the two.
pub open spec fn smaller(a: int, b: int) -> int {
    if a <= b { a } else { b }
}

pub proof fn lemma_step(threads: Map<u32, Thread>, list: Seq<Tid>, uaddr: u64, bits: Option<u32>)
    requires
        list.len() > 0,
    ensures
        of_list(threads, list, uaddr, bits) == (if waits_at(threads, list[0], uaddr, bits) {
            seq![list[0]]
        } else {
            Seq::<Tid>::empty()
        }) + of_list(threads, list.drop_first(), uaddr, bits),
{
    let p = |t: Tid| waits_at(threads, t, uaddr, bits);
    let one = seq![list[0]];
    assert(one + list.drop_first() =~= list);
    Seq::filter_distributes_over_add(one, list.drop_first(), p);
    reveal(Seq::filter);
    assert(one.drop_last() =~= Seq::<Tid>::empty());
    assert(Seq::<Tid>::empty().filter(p) =~= Seq::<Tid>::empty());
    assert(one.filter(p) =~= if p(list[0]) { one } else { Seq::<Tid>::empty() });
}

pub proof fn lemma_taken(threads: Map<u32, Thread>, list: Seq<Tid>, uaddr: u64, bits: Option<u32>, max: int)
    requires
        max >= 0,
    ensures
        ({
            let f = of_list(threads, list, uaddr, bits);
            let n = smaller(max, f.len() as int);
            &&& picked(threads, list, uaddr, bits, max) == f.take(n)
            &&& of_list(threads, passed_over(threads, list, uaddr, bits, max), uaddr, bits) == f.skip(n)
        }),
    decreases list.len(),
{
    let f = of_list(threads, list, uaddr, bits);
    reveal(Seq::filter);
    if list.len() == 0 {
        assert(f =~= Seq::<Tid>::empty());
    } else {
        let rest = list.drop_first();
        lemma_step(threads, list, uaddr, bits);
        if max > 0 {
            if waits_at(threads, list[0], uaddr, bits) {
                lemma_taken(threads, rest, uaddr, bits, max - 1);
                let g = of_list(threads, rest, uaddr, bits);
                let m = smaller(max - 1, g.len() as int);
                assert(f == seq![list[0]] + g);
                assert(f.take(m + 1) =~= seq![list[0]] + g.take(m));
                assert(f.skip(m + 1) =~= g.skip(m));
            } else {
                lemma_taken(threads, rest, uaddr, bits, max);
                let g = of_list(threads, rest, uaddr, bits);
                assert(f =~= g);
                let k = passed_over(threads, rest, uaddr, bits, max);
                lemma_step(threads, seq![list[0]] + k, uaddr, bits);
                assert((seq![list[0]] + k).drop_first() =~= k);
                assert(Seq::<Tid>::empty() + of_list(threads, k, uaddr, bits) =~= of_list(threads, k, uaddr, bits));
            }
        } else {
            assert(f.take(0) =~= Seq::<Tid>::empty());
            assert(f.skip(0) =~= f);
        }
    }
}

pub proof fn lemma_same_links(a: Map<u32, Thread>, b: Map<u32, Thread>, list: Seq<Tid>, uaddr: u64, bits: Option<u32>)
    requires
        forall|i: int| 0 <= i < list.len() ==> b[(#[trigger] list[i]).0].wait_link == a[list[i].0].wait_link,
    ensures
        of_list(a, list, uaddr, bits) == of_list(b, list, uaddr, bits),
    decreases list.len(),
{
    reveal(Seq::filter);
    if list.len() > 0 {
        let init = list.drop_last();
        assert forall|i: int| 0 <= i < init.len() implies b[(#[trigger] init[i]).0].wait_link == a[init[i].0].wait_link by {
            assert(init[i] == list[i]);
        }
        lemma_same_links(a, b, init, uaddr, bits);
        assert(list.last() == list[list.len() - 1]);
    }
}

pub proof fn lemma_woken_all(v: Sched, ts: Seq<Tid>, this: int)
    requires
        v.online(this),
        forall|k: u32| #[trigger] v.threads.contains_key(k) ==> v.threads[k].tid == Tid(k),
        forall|i: int| 0 <= i < ts.len() ==> v.has(#[trigger] ts[i]),
    ensures
        ({
            let w = woken_all(v, ts, this);
            &&& w.buckets == v.buckets
            &&& w.cpus.len() == v.cpus.len()
            &&& forall|k: u32| #[trigger] w.threads.contains_key(k) <==> v.threads.contains_key(k)
            &&& forall|k: u32|
                #![trigger w.threads[k]]
                v.threads.contains_key(k) ==> w.threads[k].wait_link == v.threads[k].wait_link && w.threads[k].tid == v.threads[k].tid
            &&& forall|k: u32|
                #![trigger w.threads[k]]
                v.threads.contains_key(k) && !(v.threads[k].state is Blocked && ts.contains(Tid(k))) ==> w.threads[k] == v.threads[k]
            &&& forall|i: int|
                0 <= i < ts.len() && v.thread(ts[i]).state is Blocked ==> w.thread(#[trigger] ts[i]).state is Runnable
                    && on_its_way(w, ts[i])
            &&& forall|t: Tid| #[trigger] on_its_way(v, t) ==> on_its_way(w, t)
            &&& w.online(this)
        }),
    decreases ts.len(),
{
    if ts.len() > 0 {
        let init = ts.drop_last();
        let t = ts.last();
        assert forall|i: int| 0 <= i < init.len() implies v.has(#[trigger] init[i]) by {
            assert(v.has(ts[i]));
        }
        assert(v.has(ts[ts.len() - 1]));
        lemma_woken_all(v, init, this);
        let m = woken_all(v, init, this);
        let w = woken_all(v, ts, this);
        assert(w == woken(m, t, this));
        assert(m.threads.contains_key(t.0));
        assert(m.thread(t).tid == t);
        assert forall|u: Tid| #[trigger] on_its_way(m, u) implies on_its_way(w, u) by {
            lemma_stays_on_its_way(m, t, this, u);
        }
        if m.thread(t).state is Blocked {
            lemma_gets_on_its_way(m, t, this);
        }
        assert forall|i: int| 0 <= i < ts.len() && v.thread(ts[i]).state is Blocked implies w.thread(#[trigger] ts[i]).state
            is Runnable && on_its_way(w, ts[i]) by {
            if i < init.len() {
                assert(init[i] == ts[i]);
                assert(init.contains(ts[i]));
                assert(on_its_way(m, init[i]));
            } else {
                assert(ts[i] == t);
                if !(m.thread(t).state is Blocked) {
                    if init.contains(t) {
                        let j = choose|j: int| 0 <= j < init.len() && init[j] == t;
                        assert(m.thread(init[j]).state is Runnable);
                        assert(on_its_way(m, init[j]));
                    } else {
                        assert(t == Tid(t.0));
                        assert(m.threads[t.0] == v.threads[t.0]);
                    }
                }
            }
        }
        assert forall|k: u32|
            #![trigger w.threads[k]]
            v.threads.contains_key(k) && !(v.threads[k].state is Blocked && ts.contains(Tid(k))) implies w.threads[k] == v.threads[k] by {
            if init.contains(Tid(k)) {
                let j = choose|j: int| 0 <= j < init.len() && init[j] == Tid(k);
                assert(ts[j] == Tid(k));
            }
            assert(m.threads[k] == v.threads[k]);
            if k == t.0 {
                assert(ts[ts.len() - 1] == Tid(k));
                assert(!(m.thread(t).state is Blocked));
            }
        }
        assert forall|u: Tid| #[trigger] on_its_way(v, u) implies on_its_way(w, u) by {
            assert(on_its_way(m, u));
        }
    }
}

proof fn lemma_stays_on_its_way(m: Sched, t: Tid, this: int, u: Tid)
    requires
        m.online(this),
        on_its_way(m, u),
    ensures
        on_its_way(woken(m, t, this), u),
{
    let w = woken(m, t, this);
    if m.switching.contains(u) {
        let i = choose|i: int| 0 <= i < m.switching.len() && m.switching[i] == u;
        assert(w.switching[i] == u);
    } else {
        let c = choose|c: int| #[trigger] m.queued_on(u, c);
        let i = choose|i: int| 0 <= i < m.cpus[c].queue.len() && m.cpus[c].queue[i] == u;
        assert(w.cpus[c].queue[i] == u);
        assert(w.queued_on(u, c));
    }
}

proof fn lemma_gets_on_its_way(m: Sched, t: Tid, this: int)
    requires
        m.online(this),
        m.has(t),
        m.thread(t).tid == t,
        m.thread(t).state is Blocked,
    ensures
        on_its_way(woken(m, t, this), t),
{
    let w = woken(m, t, this);
    if m.thread(t).on_cpu {
        assert(w.switching[m.switching.len() as int] == t);
    } else {
        let c: int = if m.online(m.thread(t).cpu as int) { m.thread(t).cpu as int } else { this };
        assert(w.cpus[c].queue[m.cpus[c].queue.len() as int] == t);
        assert(w.queued_on(t, c));
    }
}

/// A wake says how many it woke: as many as it was asked for, or all if fewer wait for the word. They are the latest of those
/// who wait, they wait no longer, and they are on their way to a CPU. The others go on waiting, and no other thread is
/// touched. So a wake that asks for as many as wait leaves none.
pub proof fn law_wake_wakes_as_many<M: Memory>(
    args: &SyscallArgs,
    um: &M,
    sched: &mut Scheduler,
    c: u32,
    r: Parking,
)
    requires
        call_ensures(sys_futex::<M>, (args, um, sched, c), r),
        old(sched)@.wf(),
        old(sched)@.settled(),
        active(old(sched)@, c as int),
        args.arg0 != 0,
        command(*args) == 1 || command(*args) == 10,
    ensures
        ({
            let v = old(sched)@;
            let w = final(sched)@;
            let bits = if command(*args) == 10 { Some(args.arg5 as u32) } else { None };
            let before = waiters(v, args.arg0, bits);
            let n = smaller((args.arg2 as u32) as int, before.len() as int);
            &&& r == Parking::Return(n as i64)
            &&& waiters(w, args.arg0, bits) == before.skip(n)
            &&& waiters(w, args.arg0, bits).len() == before.len() - n
            &&& forall|i: int| 0 <= i < n ==> w.thread(#[trigger] before[i]).state is Runnable && on_its_way(w, before[i])
            &&& forall|i: int, b: int| 0 <= i < n ==> !(#[trigger] w.waits_in(#[trigger] before[i], b))
            &&& forall|k: u32|
                #![trigger w.threads[k]]
                v.threads.contains_key(k) && !before.take(n).contains(Tid(k)) ==> w.threads[k] == v.threads[k]
            &&& forall|b: int| 0 <= b < v.buckets.len() && b != bucket_of(args.arg0) ==> w.buckets[b] == #[trigger] v.buckets[b]
        }),
        (args.arg2 as u32) >= old(sched)@.buckets[bucket_of(args.arg0)].len() && command(*args) == 1 ==> waiters(
            final(sched)@,
            args.arg0,
            None,
        ).len() == 0,
{
    let v = old(sched)@;
    let w = final(sched)@;
    let bits = if command(*args) == 10 { Some(args.arg5 as u32) } else { None };
    let max = (args.arg2 as u32) as int;
    let b = bucket_of(args.arg0);
    let list = v.buckets[b];
    assert(0 <= b < v.buckets.len());
    let before = waiters(v, args.arg0, bits);
    let n = smaller(max, before.len() as int);
    lemma_taken(v.threads, list, args.arg0, bits, max);
    let ts = wakes(v, args.arg0, bits, max);
    let u = unlinked(v, args.arg0, bits, max);
    crate::sched::futex::lemma_unlinked(v, args.arg0, bits, max);
    crate::sched::futex::lemma_parts(v.threads, list, args.arg0, bits, max);
    assert(list.no_duplicates());
    assert(ts == before.take(n));
    assert(w == woken_all(u, ts, c as int));
    lemma_woken_all(u, ts, c as int);
    let left = passed_over(v.threads, list, args.arg0, bits, max);
    assert(w.buckets[b] == left);
    assert forall|i: int| 0 <= i < left.len() implies w.threads[(#[trigger] left[i]).0].wait_link == v.threads[left[i].0].wait_link by {
        assert(left.contains(left[i]));
        assert(list.contains(left[i]));
        assert(v.waits_in(left[i], b));
    }
    lemma_same_links(v.threads, w.threads, left, args.arg0, bits);
    assert forall|i: int| 0 <= i < n implies w.thread(#[trigger] before[i]).state is Runnable && on_its_way(w, before[i]) by {
        assert(ts[i] == before[i]);
        assert(ts.contains(ts[i]));
        assert(v.waits_in(ts[i], b));
    }
    assert forall|i: int, d: int| 0 <= i < n implies !(#[trigger] w.waits_in(#[trigger] before[i], d)) by {
        assert(ts[i] == before[i]);
        assert(!u.waits_in(ts[i], d));
    }
    assert(before.len() <= list.len()) by {
        list.lemma_filter_len(|t: Tid| waits_at(v.threads, t, args.arg0, bits));
    }
}

} // verus!
