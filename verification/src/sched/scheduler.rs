//! Which thread runs on which CPU.

use vstd::prelude::*;

use super::futex::{FutexBucket, FUTEX_BUCKETS};
use super::percpu::{blank_cpu, Cpu, PerCpu, MAX_VCPUS};
use super::registry::ThreadRegistry;
use super::thread::{Thread, ThreadState, Tid};

verus! {

/// All threads, and where they run or wait.
pub struct Scheduler {
    pub threads: ThreadRegistry,
    pub cpus: Vec<PerCpu>,
    /// Threads that have exited and were not reaped.
    pub zombies: Vec<Tid>,
    /// There may be threads to reap.
    pub zombies_pending: bool,
    /// Threads of the user that have not exited.
    pub live_user_threads: u32,
    pub futexes: Vec<FutexBucket>,
    /// CPUs that have to be interrupted, because a thread joined their queue.
    pub kicks: Vec<u32>,
    /// Threads that were woken, and join a queue once their contexts have been saved.
    pub switching: Vec<Tid>,
}

/// What a `Scheduler` stands for.
#[verifier::ext_equal]
pub struct Sched {
    pub threads: Map<u32, Thread>,
    pub next_tid: int,
    pub cpus: Seq<Cpu>,
    pub zombies: Seq<Tid>,
    pub pending: bool,
    pub live: u32,
    pub buckets: Seq<Seq<Tid>>,
    pub kicks: Seq<u32>,
    pub switching: Seq<Tid>,
}

impl View for Scheduler {
    type V = Sched;

    open spec fn view(&self) -> Sched {
        Sched {
            threads: self.threads@,
            next_tid: self.threads.next(),
            cpus: Seq::new(self.cpus@.len(), |i: int| self.cpus@[i]@),
            zombies: self.zombies@,
            pending: self.zombies_pending,
            live: self.live_user_threads,
            buckets: Seq::new(self.futexes@.len(), |i: int| self.futexes@[i]@),
            kicks: self.kicks@,
            switching: self.switching@,
        }
    }
}

impl Sched {
    /// There is a thread with this id.
    pub open spec fn has(self, t: Tid) -> bool {
        self.threads.contains_key(t.0)
    }

    /// The thread with this id.
    pub open spec fn thread(self, t: Tid) -> Thread {
        self.threads[t.0]
    }

    /// CPU `c` was brought up.
    pub open spec fn online(self, c: int) -> bool {
        0 <= c < self.cpus.len() && self.cpus[c].self_ptr != 0
    }

    /// Thread `t` runs on CPU `c`.
    pub open spec fn runs_on(self, t: Tid, c: int) -> bool {
        0 <= c < self.cpus.len() && self.cpus[c].current == Some(t)
    }

    /// Thread `t` is the idle thread of CPU `c`.
    pub open spec fn idles_on(self, t: Tid, c: int) -> bool {
        0 <= c < self.cpus.len() && self.cpus[c].idle == Some(t)
    }

    /// Thread `t` waits in the run queue of CPU `c`.
    pub open spec fn queued_on(self, t: Tid, c: int) -> bool {
        0 <= c < self.cpus.len() && self.cpus[c].queue.contains(t)
    }

    /// Thread `t` waits in bucket `b` of the futexes.
    pub open spec fn waits_in(self, t: Tid, b: int) -> bool {
        0 <= b < self.buckets.len() && self.buckets[b].contains(t)
    }

    /// Thread `t` waits in no bucket of the futexes.
    pub open spec fn off_futexes(self, t: Tid) -> bool {
        forall|b: int| !self.waits_in(t, b)
    }

    pub open spec fn with_thread(self, t: Thread) -> Sched {
        Sched { threads: self.threads.insert(t.tid.0, t), ..self }
    }

    pub open spec fn with_cpu(self, c: int, cpu: Cpu) -> Sched {
        Sched { cpus: self.cpus.update(c, cpu), ..self }
    }

    /// Every id that occurs is that of a thread, and ids above all of them are left.
    pub open spec fn registered(self) -> bool {
        &&& forall|tid: u32| #[trigger] self.threads.contains_key(tid) ==> self.threads[tid].tid == Tid(tid) && tid
            < self.next_tid
        &&& self.next_tid >= 2
        &&& forall|t: Tid, c: int| #[trigger] self.runs_on(t, c) ==> self.has(t)
        &&& forall|t: Tid, c: int| #[trigger] self.idles_on(t, c) ==> self.has(t)
        &&& forall|t: Tid, c: int| #[trigger] self.queued_on(t, c) ==> self.has(t)
        &&& forall|t: Tid, b: int| #[trigger] self.waits_in(t, b) ==> self.has(t)
        &&& forall|i: int| 0 <= i < self.zombies.len() ==> self.has(#[trigger] self.zombies[i])
    }

    /// Every thread is in the state that its place calls for.
    pub open spec fn states_agree(self) -> bool {
        &&& forall|t: Tid, c: int| #[trigger] self.runs_on(t, c) ==> self.thread(t).on_cpu
        &&& forall|t: Tid, c: int| #[trigger] self.idles_on(t, c) ==> !(self.thread(t).state is Blocked)
            && !(self.thread(t).state is Exited)
        &&& forall|t: Tid, c: int| #[trigger] self.queued_on(t, c) ==> self.thread(t).state is Runnable || self.thread(t).state
            is Running
        &&& forall|t: Tid, b: int| #[trigger] self.waits_in(t, b) ==> self.thread(t).state is Blocked
        &&& forall|i: int| 0 <= i < self.zombies.len() ==> self.thread(#[trigger] self.zombies[i]).state is Exited
    }

    /// No thread has two places.
    pub open spec fn places_differ(self) -> bool {
        &&& forall|t: Tid, c: int, d: int| #[trigger] self.runs_on(t, c) && #[trigger] self.runs_on(t, d) ==> c == d
        &&& forall|t: Tid, c: int, d: int| #[trigger] self.idles_on(t, c) && #[trigger] self.idles_on(t, d) ==> c == d
        &&& forall|t: Tid, c: int, d: int| #[trigger] self.idles_on(t, c) && #[trigger] self.runs_on(t, d) ==> c == d
        &&& forall|t: Tid, c: int, d: int| #[trigger] self.idles_on(t, c) ==> !#[trigger] self.queued_on(t, d)
        &&& forall|t: Tid, c: int, d: int| #[trigger] self.queued_on(t, c) && #[trigger] self.queued_on(t, d) ==> c == d
        &&& forall|c: int| 0 <= c < self.cpus.len() ==> (#[trigger] self.cpus[c]).queue.no_duplicates()
        &&& forall|t: Tid, b: int, d: int| #[trigger] self.waits_in(t, b) && #[trigger] self.waits_in(t, d) ==> b == d
        &&& forall|b: int| 0 <= b < self.buckets.len() ==> (#[trigger] self.buckets[b]).no_duplicates()
        &&& self.zombies.no_duplicates()
    }

    /// What always holds of the scheduler.
    pub open spec fn wf(self) -> bool {
        &&& self.cpus.len() == MAX_VCPUS
        &&& self.buckets.len() == FUTEX_BUCKETS
        &&& forall|c: int| self.online(c) ==> (#[trigger] self.cpus[c]).cpu_id == c
        &&& self.registered()
        &&& self.states_agree()
        &&& self.places_differ()
    }

    /// No thread that runs waits in a run queue, except perhaps the one that runs on `c`.
    pub open spec fn settled_but(self, c: int) -> bool {
        forall|t: Tid, d: int, e: int| #[trigger] self.runs_on(t, d) && d != c ==> !#[trigger] self.queued_on(t, e)
    }

    /// No thread that runs waits in a run queue.
    pub open spec fn settled(self) -> bool {
        self.settled_but(-1)
    }
}

/// A change of threads on a CPU.
#[derive(Clone, Copy, Debug, PartialEq, Eq, Structural)]
pub struct Switch {
    pub prev: Tid,
    pub next: Tid,
    /// Base of the thread-local storage of `next`.
    pub fs_base: u64,
}

/// The thread that gets the CPU next: the first of the queue, else the idle thread.
pub open spec fn next_thread(cpu: Cpu) -> Option<Tid> {
    if cpu.queue.len() > 0 {
        Some(cpu.queue[0])
    } else {
        cpu.idle
    }
}

/// The CPU after it took a thread from its queue and forgot the wish to reschedule.
pub open spec fn popped(cpu: Cpu) -> Cpu {
    Cpu { need_resched: false, queue: if cpu.queue.len() > 0 { cpu.queue.drop_first() } else { cpu.queue }, ..cpu }
}

/// The thread when it leaves the CPU: a running one becomes runnable, except the idle thread.
pub open spec fn demoted(t: Thread, is_idle: bool) -> Thread {
    if t.state is Running && !is_idle {
        Thread { state: ThreadState::Runnable, ..t }
    } else {
        t
    }
}

/// The thread when it gets CPU `cpu_id`.
pub open spec fn promoted(t: Thread, cpu_id: u32) -> Thread {
    Thread { on_cpu: true, state: ThreadState::Running, cpu: cpu_id, ..t }
}

/// The scheduler after CPU `c` rescheduled.
pub open spec fn rescheduled(v: Sched, c: int) -> Sched {
    let cpu = v.cpus[c];
    let next = next_thread(cpu)->0;
    let prev = cpu.current->0;
    let left = v.with_cpu(c, popped(cpu));
    if next == prev {
        left
    } else {
        let off = left.with_thread(demoted(v.thread(prev), cpu.idle == Some(prev)));
        off.with_thread(promoted(off.thread(next), cpu.cpu_id)).with_cpu(c, Cpu { current: Some(next), ..popped(cpu) })
    }
}

/// The change of threads when CPU `c` reschedules, if there is one.
pub open spec fn switch_of(v: Sched, c: int) -> Option<Switch> {
    let cpu = v.cpus[c];
    let next = next_thread(cpu)->0;
    let prev = cpu.current->0;
    if next == prev {
        None
    } else {
        Some(Switch { prev, next, fs_base: v.thread(next).fs_base })
    }
}

/// CPU `c` runs a thread and has an idle thread.
pub open spec fn running(v: Sched, c: int) -> bool {
    v.online(c) && v.cpus[c].current is Some && v.cpus[c].idle is Some
}

/// The thread that runs on CPU `c` may go on running, and is not the idle thread.
pub open spec fn active(v: Sched, c: int) -> bool {
    &&& running(v, c)
    &&& v.cpus[c].current != v.cpus[c].idle
    &&& v.thread(v.cpus[c].current->0).state is Runnable || v.thread(v.cpus[c].current->0).state is Running
}

/// A thread that is active has no other place.
pub proof fn lemma_active(v: Sched, c: int)
    requires
        v.wf(),
        v.settled(),
        active(v, c),
    ensures
        ({
            let t = v.cpus[c].current->0;
            &&& v.runs_on(t, c)
            &&& v.has(t)
            &&& v.thread(t).tid == t
            &&& v.thread(t).on_cpu
            &&& forall|d: int| !v.idles_on(t, d)
            &&& forall|d: int| !v.queued_on(t, d)
            &&& forall|d: int| !v.waits_in(t, d)
            &&& !v.zombies.contains(t)
        }),
{
    let t = v.cpus[c].current->0;
    assert(v.runs_on(t, c));
    assert forall|d: int| !v.idles_on(t, d) by {
        if v.idles_on(t, d) {
            assert(d == c);
        }
    }
    if v.zombies.contains(t) {
        let k = choose|k: int| 0 <= k < v.zombies.len() && v.zombies[k] == t;
        assert(v.thread(v.zombies[k]).state is Exited);
    }
}

/// Taking the first thread from a run queue.
pub proof fn lemma_popped(v: Sched, c: int)
    requires
        v.wf(),
        0 <= c < v.cpus.len(),
    ensures
        forall|t: Tid, d: int| #[trigger]
            v.with_cpu(c, popped(v.cpus[c])).queued_on(t, d) <==> v.queued_on(t, d) && !(d == c && v.cpus[c].queue.len() > 0
                && t == v.cpus[c].queue[0]),
        popped(v.cpus[c]).queue.no_duplicates(),
{
    let w = v.with_cpu(c, popped(v.cpus[c]));
    let q = v.cpus[c].queue;
    assert forall|t: Tid, d: int| #[trigger] w.queued_on(t, d) <==> v.queued_on(t, d) && !(d == c && q.len() > 0 && t
        == q[0]) by {
        if d == c && q.len() > 0 {
            let r = q.drop_first();
            if r.contains(t) {
                let k = choose|k: int| 0 <= k < r.len() && r[k] == t;
                assert(q[k + 1] == t);
            }
            if q.contains(t) && t != q[0] {
                let k = choose|k: int| 0 <= k < q.len() && q[k] == t;
                assert(r[k - 1] == t);
            }
        }
    }
}

/// Rescheduling keeps what always holds, and the thread that it picks is in no queue.
pub proof fn law_reschedule(v: Sched, c: int)
    requires
        v.wf(),
        v.settled_but(c),
        running(v, c),
    ensures
        rescheduled(v, c).wf(),
        rescheduled(v, c).settled(),
        rescheduled(v, c).runs_on(next_thread(v.cpus[c])->0, c),
        forall|d: int| !rescheduled(v, c).queued_on(next_thread(v.cpus[c])->0, d),
        switch_of(v, c) matches Some(s) ==> forall|d: int| !rescheduled(v, c).runs_on(s.prev, d),
{
    let cpu = v.cpus[c];
    let next = next_thread(cpu)->0;
    let prev = cpu.current->0;
    let w = rescheduled(v, c);
    lemma_popped(v, c);
    assert(v.runs_on(prev, c));
    assert(cpu.queue.len() > 0 ==> v.queued_on(next, c));
    assert(cpu.queue.len() == 0 ==> v.idles_on(next, c));
    assert(v.idles_on(cpu.idle->0, c));
    assert(v.has(next) && v.has(prev));
    assert forall|t: Tid, d: int| #[trigger] w.queued_on(t, d) implies v.queued_on(t, d) && t != next by {
        assert(v.with_cpu(c, popped(cpu)).queued_on(t, d));
    }
    assert forall|t: Tid, d: int| #[trigger] w.runs_on(t, d) implies (d == c && t == next) || (d != c && v.runs_on(t, d)) by {}
    assert forall|t: Tid, d: int| #[trigger] w.idles_on(t, d) implies v.idles_on(t, d) by {}
    assert forall|t: Tid, b: int| #[trigger] w.waits_in(t, b) implies v.waits_in(t, b) by {}
    assert(w.registered());
    assert(w.states_agree());
    assert(w.places_differ());
}

/// The CPU whose queue a woken thread joins: the one that it ran on last, if that is up, else `this`.
pub open spec fn home_of(v: Sched, t: Tid, this: int) -> int {
    if v.online(v.thread(t).cpu as int) {
        v.thread(t).cpu as int
    } else {
        this
    }
}

/// The scheduler after `t` joined the queue of its home, which is interrupted if need be.
pub open spec fn enqueued(v: Sched, t: Tid, this: int) -> Sched {
    let h = home_of(v, t, this);
    let w = v.with_cpu(h, Cpu { queue: v.cpus[h].queue.push(t), need_resched: true, ..v.cpus[h] });
    match kick_of(v, t, this) {
        Some(k) => Sched { kicks: v.kicks.push(k), ..w },
        None => w,
    }
}

/// The CPU that has to be interrupted because `t` joined its queue: another one that is idle.
pub open spec fn kick_of(v: Sched, t: Tid, this: int) -> Option<u32> {
    let h = home_of(v, t, this);
    if v.cpus[h].cpu_id != v.cpus[this].cpu_id && v.cpus[h].is_idle {
        Some(v.cpus[h].cpu_id)
    } else {
        None
    }
}

/// The thread was woken.
pub open spec fn runnable(t: Thread) -> Thread {
    Thread { state: ThreadState::Runnable, ..t }
}

/// The scheduler after `t` was woken from CPU `this`. As long as its context is not saved it joins no queue.
pub open spec fn woken(v: Sched, t: Tid, this: int) -> Sched {
    if !(v.thread(t).state is Blocked) {
        v
    } else {
        let w = v.with_thread(runnable(v.thread(t)));
        if v.thread(t).on_cpu { Sched { switching: v.switching.push(t), ..w } } else { enqueued(w, t, this) }
    }
}

/// The thread has no place, and its context is saved: it may join a queue.
pub open spec fn at_rest(v: Sched, t: Tid) -> bool {
    &&& v.has(t)
    &&& v.thread(t).state is Runnable || v.thread(t).state is Running
    &&& !v.thread(t).on_cpu
    &&& forall|c: int| !v.queued_on(t, c)
    &&& forall|c: int| !v.idles_on(t, c)
}

/// The scheduler after `t` joined the queue of CPU `c`.
pub open spec fn queued_at(v: Sched, t: Tid, c: int) -> Sched {
    v.with_cpu(c, Cpu { queue: v.cpus[c].queue.push(t), ..v.cpus[c] })
}

/// A thread that is in no queue, and is not an idle thread, may join one.
pub proof fn lemma_join(v: Sched, t: Tid, c: int, cpu: Cpu)
    requires
        v.wf(),
        v.has(t),
        v.thread(t).state is Runnable || v.thread(t).state is Running,
        forall|d: int| !v.queued_on(t, d),
        forall|d: int| !v.idles_on(t, d),
        0 <= c < v.cpus.len(),
        cpu == (Cpu {
            queue: v.cpus[c].queue.push(t),
            need_resched: cpu.need_resched,
            is_idle: cpu.is_idle,
            ..v.cpus[c]
        }),
    ensures
        v.with_cpu(c, cpu).wf(),
        forall|u: Tid, d: int| #[trigger] v.with_cpu(c, cpu).queued_on(u, d) <==> v.queued_on(u, d) || (u == t && d == c),
        forall|u: Tid, d: int| #[trigger] v.with_cpu(c, cpu).runs_on(u, d) <==> v.runs_on(u, d),
        forall|u: Tid, d: int| #[trigger] v.with_cpu(c, cpu).idles_on(u, d) <==> v.idles_on(u, d),
{
    let w = v.with_cpu(c, cpu);
    let q = v.cpus[c].queue;
    assert forall|u: Tid, d: int| #[trigger] w.queued_on(u, d) <==> v.queued_on(u, d) || (u == t && d == c) by {
        if d == c {
            if q.push(t).contains(u) && u != t {
                let k = choose|k: int| 0 <= k < q.push(t).len() && q.push(t)[k] == u;
                assert(q[k] == u);
            }
            if q.contains(u) {
                let k = choose|k: int| 0 <= k < q.len() && q[k] == u;
                assert(q.push(t)[k] == u);
            }
            assert(q.push(t)[q.len() as int] == t);
        }
    }
    assert(!v.queued_on(t, c));
    assert(q.push(t).no_duplicates()) by {
        assert forall|i: int, j: int| 0 <= i < q.len() + 1 && 0 <= j < q.len() + 1 && i != j implies q.push(t)[i] != q.push(t)[j] by {
            if i == q.len() {
                assert(q.contains(q[j]));
            }
            if j == q.len() {
                assert(q.contains(q[i]));
            }
        }
    }
    assert forall|u: Tid, d: int| #[trigger] w.waits_in(u, d) <==> v.waits_in(u, d) by {}
    assert forall|u: Tid, d: int| #[trigger] w.runs_on(u, d) <==> v.runs_on(u, d) by {}
    assert forall|u: Tid, d: int| #[trigger] w.idles_on(u, d) <==> v.idles_on(u, d) by {}
    assert forall|i: int| 0 <= i < w.zombies.len() implies w.has(#[trigger] w.zombies[i]) && w.thread(w.zombies[i]).state is Exited by {
        assert(v.has(v.zombies[i]));
    }
    assert(w.registered());
    assert(w.states_agree());
    assert(w.places_differ());
}

/// A change of a thread that leaves its state and its place as they are, or its
/// state as its place calls for.
pub proof fn lemma_thread_change(v: Sched, t: Thread)
    requires
        v.wf(),
        v.has(t.tid),
        forall|c: int| #[trigger] v.runs_on(t.tid, c) ==> t.on_cpu,
        forall|c: int| #[trigger] v.idles_on(t.tid, c) ==> !(t.state is Blocked) && !(t.state is Exited),
        forall|c: int| #[trigger] v.queued_on(t.tid, c) ==> t.state is Runnable || t.state is Running,
        forall|b: int| #[trigger] v.waits_in(t.tid, b) ==> t.state is Blocked,
        v.zombies.contains(t.tid) ==> t.state is Exited,
    ensures
        v.with_thread(t).wf(),
        v.settled() ==> v.with_thread(t).settled(),
        forall|c: int| v.settled_but(c) ==> #[trigger] v.with_thread(t).settled_but(c),
        forall|u: Tid, d: int| #[trigger] v.with_thread(t).queued_on(u, d) <==> v.queued_on(u, d),
        forall|u: Tid, d: int| #[trigger] v.with_thread(t).runs_on(u, d) <==> v.runs_on(u, d),
        forall|u: Tid, d: int| #[trigger] v.with_thread(t).idles_on(u, d) <==> v.idles_on(u, d),
{
    let w = v.with_thread(t);
    assert forall|u: Tid, d: int| #[trigger] w.queued_on(u, d) <==> v.queued_on(u, d) by {}
    assert forall|u: Tid, d: int| #[trigger] w.runs_on(u, d) <==> v.runs_on(u, d) by {}
    assert forall|u: Tid, d: int| #[trigger] w.idles_on(u, d) <==> v.idles_on(u, d) by {}
    assert forall|u: Tid, d: int| #[trigger] w.waits_in(u, d) <==> v.waits_in(u, d) by {}
    assert forall|i: int| 0 <= i < w.zombies.len() implies w.thread(#[trigger] w.zombies[i]).state is Exited && w.has(
        w.zombies[i],
    ) by {
        assert(v.has(v.zombies[i]));
        if v.zombies[i] == t.tid {
            assert(v.zombies.contains(t.tid));
        }
    }
    assert(w.registered());
    assert(w.states_agree());
    assert(w.places_differ());
}

/// A woken thread joins the queue of its home, and nothing else changes place.
pub proof fn law_enqueue(v: Sched, t: Tid, this: int)
    requires
        v.wf(),
        v.settled(),
        v.online(this),
        at_rest(v, t),
    ensures
        enqueued(v, t, this).wf(),
        enqueued(v, t, this).settled(),
        forall|u: Tid, d: int| #[trigger]
            enqueued(v, t, this).queued_on(u, d) <==> v.queued_on(u, d) || (u == t && d == home_of(v, t, this)),
{
    let h = home_of(v, t, this);
    let cpu = enqueued(v, t, this).cpus[h];
    lemma_join(v, t, h, cpu);
    lemma_bookkeeping(v.with_cpu(h, cpu), enqueued(v, t, this));
}

/// Ids to come, counts and what is left to do touch nothing else.
pub proof fn lemma_bookkeeping(v: Sched, w: Sched)
    requires
        v.wf(),
        w == (Sched {
            next_tid: w.next_tid,
            pending: w.pending,
            live: w.live,
            kicks: w.kicks,
            switching: w.switching,
            ..v
        }),
        w.next_tid >= v.next_tid,
    ensures
        w.wf(),
        v.settled() ==> w.settled(),
        forall|u: Tid, d: int| #[trigger] w.queued_on(u, d) <==> v.queued_on(u, d),
        forall|u: Tid, d: int| #[trigger] w.runs_on(u, d) <==> v.runs_on(u, d),
        forall|u: Tid, d: int| #[trigger] w.idles_on(u, d) <==> v.idles_on(u, d),
        forall|u: Tid, d: int| #[trigger] w.waits_in(u, d) <==> v.waits_in(u, d),
{
    assert forall|u: Tid, d: int| #[trigger] w.queued_on(u, d) <==> v.queued_on(u, d) by {}
    assert forall|u: Tid, d: int| #[trigger] w.runs_on(u, d) <==> v.runs_on(u, d) by {}
    assert forall|u: Tid, d: int| #[trigger] w.idles_on(u, d) <==> v.idles_on(u, d) by {}
    assert forall|u: Tid, d: int| #[trigger] w.waits_in(u, d) <==> v.waits_in(u, d) by {}
    assert forall|i: int| 0 <= i < w.zombies.len() implies w.has(#[trigger] w.zombies[i]) && w.thread(w.zombies[i]).state is Exited by {
        assert(v.has(v.zombies[i]));
    }
    assert(w.registered());
    assert(w.states_agree());
    assert(w.places_differ());
}

/// Waking keeps what always holds. A blocked thread that is off its CPU ends up in
/// exactly one queue.
pub proof fn law_wake(v: Sched, t: Tid, this: int)
    requires
        v.wf(),
        v.settled(),
        v.online(this),
        v.has(t),
        v.off_futexes(t),
    ensures
        woken(v, t, this).wf(),
        woken(v, t, this).settled(),
        woken(v, t, this).has(t),
        v.thread(t).state is Blocked && !v.thread(t).on_cpu ==> forall|d: int| #[trigger]
            woken(v, t, this).queued_on(t, d) <==> d == home_of(v, t, this),
{
    if v.thread(t).state is Blocked {
        assert(v.thread(t).tid == t);
        let w = v.with_thread(runnable(v.thread(t)));
        assert(v.zombies.contains(t) ==> false) by {
            if v.zombies.contains(t) {
                let k = choose|k: int| 0 <= k < v.zombies.len() && v.zombies[k] == t;
                assert(v.thread(v.zombies[k]).state is Exited);
            }
        }
        lemma_thread_change(v, runnable(v.thread(t)));
        if !v.thread(t).on_cpu {
            assert(at_rest(w, t));
            law_enqueue(w, t, this);
            assert(home_of(w, t, this) == home_of(v, t, this));
        } else {
            lemma_bookkeeping(w, woken(v, t, this));
        }
    }
}

/// What a call that may wait did.
#[derive(Clone, Copy, Debug, PartialEq, Eq, Structural)]
pub enum Parking {
    /// It did not wait, and returns this.
    Return(i64),
    /// The thread waits; the change of threads, if any.
    Parked(Option<Switch>),
}

/// The scheduler after the thread on CPU `c` was blocked.
pub open spec fn blocked(v: Sched, c: int) -> Sched {
    v.with_thread((Thread { state: ThreadState::Blocked, ..v.thread(v.cpus[c].current->0) }))
}

/// The same threads exist, run and idle, and the same have exited; only their states and
/// queues may differ.
pub open spec fn keeps_places(v: Sched, w: Sched) -> bool {
    &&& w.threads.dom() == v.threads.dom()
    &&& w.next_tid == v.next_tid
    &&& w.zombies == v.zombies
    &&& w.pending == v.pending
    &&& w.live == v.live
    &&& w.cpus.len() == v.cpus.len()
    &&& forall|c: int|
        0 <= c < v.cpus.len() ==> (#[trigger] w.cpus[c]).self_ptr == v.cpus[c].self_ptr && w.cpus[c].current
            == v.cpus[c].current && w.cpus[c].idle == v.cpus[c].idle && w.cpus[c].cpu_id == v.cpus[c].cpu_id
}

/// The scheduler after the threads `ts` were woken one after the other.
pub open spec fn woken_all(v: Sched, ts: Seq<Tid>, this: int) -> Sched
    decreases ts.len(),
{
    if ts.len() == 0 {
        v
    } else {
        woken(woken_all(v, ts.drop_last(), this), ts.last(), this)
    }
}

/// Waking changes neither who there is nor who waits for a futex nor who runs.
pub proof fn lemma_woken_keeps(v: Sched, t: Tid, this: int)
    requires
        v.has(t),
        v.thread(t).tid == t,
        v.online(this),
    ensures
        woken(v, t, this).buckets == v.buckets,
        keeps_places(v, woken(v, t, this)),
{
    assert(woken(v, t, this).threads.dom() =~= v.threads.dom());
}

/// Waking threads changes nothing of a thread that is not blocked.
pub proof fn lemma_woken_all_keeps(v: Sched, ts: Seq<Tid>, this: int, u: Tid)
    requires
        v.wf(),
        v.online(this),
        v.has(u),
        !(v.thread(u).state is Blocked),
        forall|i: int| 0 <= i < ts.len() ==> v.has(#[trigger] ts[i]),
    ensures
        ({
            let w = woken_all(v, ts, this);
            &&& w.thread(u) == v.thread(u)
            &&& w.online(this)
            &&& keeps_places(v, w)
            &&& forall|t: u32| #[trigger] w.threads.contains_key(t) ==> w.threads[t].tid.0 == t
        }),
    decreases ts.len(),
{
    if ts.len() > 0 {
        let init = ts.drop_last();
        assert forall|i: int| 0 <= i < init.len() implies v.has(#[trigger] init[i]) by {
            assert(v.has(ts[i]));
        }
        lemma_woken_all_keeps(v, init, this, u);
        let w = woken_all(v, init, this);
        assert(v.has(ts[ts.len() - 1]));
        assert(w.threads.dom().contains(ts.last().0));
        lemma_woken_keeps(w, ts.last(), this);
    }
}

/// A thread that is active on a CPU stays so when others are woken.
pub proof fn lemma_woken_all_active(v: Sched, ts: Seq<Tid>, this: int, c: int)
    requires
        v.wf(),
        v.settled(),
        v.online(this),
        active(v, c),
        forall|i: int| 0 <= i < ts.len() ==> v.has(#[trigger] ts[i]),
    ensures
        active(woken_all(v, ts, this), c),
{
    lemma_active(v, c);
    lemma_woken_all_keeps(v, ts, this, v.cpus[c].current->0);
}

impl Scheduler {
    /// A scheduler without threads, all CPUs down.
    pub fn new() -> (r: Self)
        ensures
            r@.wf(),
            r@.settled(),
            r@ == (Sched {
                threads: Map::empty(),
                next_tid: 2,
                cpus: Seq::new(MAX_VCPUS as nat, |i: int| blank_cpu(0, 0)),
                zombies: Seq::empty(),
                pending: false,
                live: 0,
                buckets: Seq::new(FUTEX_BUCKETS as nat, |i: int| Seq::empty()),
                kicks: Seq::empty(),
                switching: Seq::empty(),
            }),
    {
        let mut cpus: Vec<PerCpu> = Vec::new();
        let mut i: usize = 0;
        while i < MAX_VCPUS
            invariant
                i <= MAX_VCPUS,
                cpus@.len() == i,
                forall|k: int| 0 <= k < i ==> (#[trigger] cpus@[k])@ == blank_cpu(0, 0),
            decreases MAX_VCPUS - i,
        {
            cpus.push(PerCpu::zeroed());
            i += 1;
        }
        let mut futexes: Vec<FutexBucket> = Vec::new();
        let mut j: usize = 0;
        while j < FUTEX_BUCKETS
            invariant
                j <= FUTEX_BUCKETS,
                futexes@.len() == j,
                forall|k: int| 0 <= k < j ==> (#[trigger] futexes@[k])@ == Seq::<Tid>::empty(),
            decreases FUTEX_BUCKETS - j,
        {
            futexes.push(FutexBucket::new());
            j += 1;
        }
        let r = Scheduler {
            threads: ThreadRegistry::new(),
            cpus,
            zombies: Vec::new(),
            zombies_pending: false,
            live_user_threads: 0,
            futexes,
            kicks: Vec::new(),
            switching: Vec::new(),
        };
        assert(r@.cpus =~= Seq::new(MAX_VCPUS as nat, |i: int| blank_cpu(0, 0)));
        assert(r@.buckets =~= Seq::new(FUTEX_BUCKETS as nat, |i: int| Seq::<Tid>::empty()));
        r
    }

    /// The state of CPU `cpu_id`, if it was brought up.
    pub fn get(&self, cpu_id: u32) -> (r: Option<&PerCpu>)
        requires
            self@.wf(),
        ensures
            r is Some <==> self@.online(cpu_id as int),
            r matches Some(cpu) ==> cpu@ == self@.cpus[cpu_id as int],
    {
        if cpu_id as u64 >= MAX_VCPUS as u64 {
            return None;
        }
        assert(self@.cpus[cpu_id as int] == self.cpus@[cpu_id as int]@);
        let cpu = &self.cpus[cpu_id as usize];
        if cpu.self_ptr == 0 { None } else { Some(cpu) }
    }

    /// Brings CPU `cpu_id` up; its state is at `self_ptr`.
    pub fn init_for_cpu(&mut self, cpu_id: u32, self_ptr: u64)
        requires
            old(self)@.wf(),
            old(self)@.settled(),
            cpu_id < MAX_VCPUS,
        ensures
            final(self)@.wf(),
            final(self)@.settled(),
            final(self)@ == old(self)@.with_cpu(cpu_id as int, blank_cpu(cpu_id, self_ptr)),
    {
        self.cpus.set(cpu_id as usize, PerCpu::blank(cpu_id, self_ptr));
        proof {
            let v = old(self)@;
            let w = self@;
            let c = cpu_id as int;
            assert(w.cpus =~= v.cpus.update(c, blank_cpu(cpu_id, self_ptr)));
            assert forall|t: Tid, d: int| #[trigger] w.queued_on(t, d) implies v.queued_on(t, d) by {}
            assert forall|t: Tid, d: int| #[trigger] w.runs_on(t, d) implies v.runs_on(t, d) by {}
            assert forall|t: Tid, d: int| #[trigger] w.idles_on(t, d) implies v.idles_on(t, d) by {}
            assert forall|t: Tid, d: int| #[trigger] w.waits_in(t, d) implies v.waits_in(t, d) by {}
            assert(w.registered());
            assert(w.states_agree());
            assert(w.places_differ());
        }
    }

    pub(crate) fn set_cpu_current(&mut self, c: usize, t: Tid)
        requires
            c < old(self).cpus@.len(),
        ensures
            final(self)@ == old(self)@.with_cpu(c as int, Cpu { current: Some(t), ..old(self)@.cpus[c as int] }),
    {
        let cpu = &mut self.cpus[c];
        cpu.current_thread = Some(t);
        assert(self@.cpus =~= old(self)@.with_cpu(c as int, Cpu { current: Some(t), ..old(self)@.cpus[c as int] }).cpus);
    }

    pub(crate) fn set_need_resched(&mut self, c: usize, value: bool)
        requires
            c < old(self).cpus@.len(),
        ensures
            final(self)@ == old(self)@.with_cpu(c as int, Cpu { need_resched: value, ..old(self)@.cpus[c as int] }),
            final(self).threads == old(self).threads,
    {
        let cpu = &mut self.cpus[c];
        cpu.need_resched = value;
        assert(self@.cpus =~= old(self)@.with_cpu(c as int, Cpu { need_resched: value, ..old(self)@.cpus[c as int] }).cpus);
    }

    pub(crate) fn set_is_idle(&mut self, c: usize, value: bool)
        requires
            c < old(self).cpus@.len(),
        ensures
            final(self)@ == old(self)@.with_cpu(c as int, Cpu { is_idle: value, ..old(self)@.cpus[c as int] }),
            final(self).threads == old(self).threads,
    {
        let cpu = &mut self.cpus[c];
        cpu.is_idle = value;
        assert(self@.cpus =~= old(self)@.with_cpu(c as int, Cpu { is_idle: value, ..old(self)@.cpus[c as int] }).cpus);
    }

    pub(crate) fn pop_queue(&mut self, c: usize) -> (r: Option<Tid>)
        requires
            c < old(self).cpus@.len(),
        ensures
            r == (if old(self)@.cpus[c as int].queue.len() > 0 { Some(old(self)@.cpus[c as int].queue[0]) } else { None }),
            final(self)@ == old(self)@.with_cpu(
                c as int,
                Cpu { need_resched: old(self)@.cpus[c as int].need_resched, ..popped(old(self)@.cpus[c as int]) },
            ),
    {
        let cpu = &mut self.cpus[c];
        let r = cpu.runqueue.pop();
        assert(self@.cpus =~= old(self)@.with_cpu(
            c as int,
            Cpu { need_resched: old(self)@.cpus[c as int].need_resched, ..popped(old(self)@.cpus[c as int]) },
        ).cpus);
        r
    }

    pub(crate) fn set_thread(&mut self, t: Thread)
        requires
            old(self).threads.wf(),
            old(self)@.has(t.tid),
        ensures
            final(self).threads.wf(),
            final(self)@ == old(self)@.with_thread(t),
    {
        self.threads.update(t);
    }

    /// The descriptor of a thread.
    pub fn thread(&self, t: Tid) -> (r: Thread)
        requires
            self@.has(t),
        ensures
            r == self@.thread(t),
    {
        match self.threads.lookup(t) {
            Some(t) => t,
            None => Thread::new_test(0),
        }
    }

    /// The thread that runs on CPU `c`.
    pub fn current_thread(&self, c: u32) -> (r: Thread)
        requires
            self@.wf(),
            running(self@, c as int),
        ensures
            self@.runs_on(r.tid, c as int),
            r == self@.thread(r.tid),
    {
        assert(self@.cpus[c as int] == self.cpus@[c as int]@);
        let t = self.cpus[c as usize].current_thread;
        match t {
            Some(t) => {
                assert(self@.runs_on(t, c as int));
                self.thread(t)
            },
            None => Thread::new_test(0),
        }
    }

    /// Chooses the thread that runs next on CPU `c`: the first of its queue, else the
    /// idle thread. The caller has put the current thread where it belongs.
    pub fn schedule(&mut self, c: u32) -> (r: Option<Switch>)
        requires
            old(self)@.wf(),
            old(self)@.settled_but(c as int),
            running(old(self)@, c as int),
        ensures
            final(self)@ == rescheduled(old(self)@, c as int),
            r == switch_of(old(self)@, c as int),
            final(self)@.wf(),
            final(self)@.settled(),
    {
        let ghost v = self@;
        let ci: usize = c as usize;
        proof {
            law_reschedule(v, c as int);
            assert(v.cpus[c as int] == self.cpus@[c as int]@);
        }
        let prev: Option<Tid> = self.cpus[ci].current_thread;
        let idle: Option<Tid> = self.cpus[ci].idle_thread;
        let cpu_id: u32 = self.cpus[ci].cpu_id;
        self.set_need_resched(ci, false);
        assert(self@.cpus.len() == self.cpus@.len());
        let first = self.pop_queue(ci);
        assert(self@ =~= v.with_cpu(c as int, popped(v.cpus[c as int])));
        let next = match first {
            Some(t) => Some(t),
            None => idle,
        };
        match (prev, next) {
            (Some(prev), Some(next)) => {
                if prev.0 == next.0 {
                    assert(prev == next);
                    return None;
                }
                proof {
                    assert(v.runs_on(prev, c as int));
                    assert(v.cpus[c as int].queue.len() > 0 ==> v.queued_on(next, c as int));
                    assert(v.cpus[c as int].queue.len() == 0 ==> v.idles_on(next, c as int));
                }
                let is_idle: bool = match idle {
                    Some(i) => i.0 == prev.0,
                    None => false,
                };
                let mut p = self.thread(prev);
                if !is_idle {
                    match p.state {
                        ThreadState::Running => {
                            p.state = ThreadState::Runnable;
                        },
                        _ => {},
                    }
                }
                assert(p == demoted(v.thread(prev), v.cpus[c as int].idle == Some(prev)));
                self.set_thread(p);
                let mut n = self.thread(next);
                let fs_base: u64 = n.fs_base;
                n.on_cpu = true;
                n.state = ThreadState::Running;
                n.cpu = cpu_id;
                self.set_thread(n);
                self.set_cpu_current(ci, next);
                assert(self@ =~= rescheduled(v, c as int));
                Some(Switch { prev, next, fs_base })
            },
            _ => None,
        }
    }

    pub(crate) fn push_queue(&mut self, c: usize, t: &Thread)
        requires
            c < old(self).cpus@.len(),
            !old(self)@.cpus[c as int].queue.contains(t.tid),
        ensures
            final(self)@ == queued_at(old(self)@, t.tid, c as int),
            final(self).threads == old(self).threads,
    {
        let cpu = &mut self.cpus[c];
        cpu.runqueue.push(t);
        assert(self@.cpus =~= queued_at(old(self)@, t.tid, c as int).cpus);
    }

    /// Catches up with the page tables of generation `global` on CPU `c`. Gives back whether the TLB has to be flushed.
    pub fn catch_up(&mut self, c: u32, global: u64) -> (flush: bool)
        requires
            old(self)@.wf(),
            old(self)@.online(c as int),
        ensures
            flush == (old(self)@.cpus[c as int].tlb_generation < global),
            ({
                let cpu = old(self)@.cpus[c as int];
                final(self)@ == old(self)@.with_cpu(
                    c as int,
                    Cpu { tlb_generation: if flush { global } else { cpu.tlb_generation }, ..cpu },
                )
            }),
            final(self)@.wf(),
            old(self)@.settled() ==> final(self)@.settled(),
    {
        let ghost v = self@;
        assert(v.cpus[c as int] == self.cpus@[c as int]@);
        let cpu = &mut self.cpus[c as usize];
        let flush = cpu.reload_tlb_if_stale(global);
        proof {
            let w = self@;
            let old_cpu = v.cpus[c as int];
            assert(w.cpus =~= v.cpus.update(
                c as int,
                Cpu { tlb_generation: if flush { global } else { old_cpu.tlb_generation }, ..old_cpu },
            ));
            assert forall|u: Tid, d: int| #[trigger] w.queued_on(u, d) <==> v.queued_on(u, d) by {}
            assert forall|u: Tid, d: int| #[trigger] w.runs_on(u, d) <==> v.runs_on(u, d) by {}
            assert forall|u: Tid, d: int| #[trigger] w.idles_on(u, d) <==> v.idles_on(u, d) by {}
            assert forall|u: Tid, d: int| #[trigger] w.waits_in(u, d) <==> v.waits_in(u, d) by {}
            assert forall|i: int| 0 <= i < w.zombies.len() implies w.has(#[trigger] w.zombies[i]) && w.thread(
                w.zombies[i],
            ).state is Exited by {
                assert(v.has(v.zombies[i]));
            }
            assert(w.registered());
            assert(w.states_agree());
            assert(w.places_differ());
        }
        flush
    }

    /// The context of `t` has been saved, so that it may run elsewhere.
    pub fn context_saved(&mut self, t: Tid)
        requires
            old(self)@.wf(),
            old(self)@.settled(),
            old(self)@.has(t),
            forall|c: int| !old(self)@.runs_on(t, c),
        ensures
            final(self)@ == old(self)@.with_thread((Thread { on_cpu: false, ..old(self)@.thread(t) })),
            final(self)@.wf(),
            final(self)@.settled(),
    {
        let ghost v = self@;
        let mut d = self.thread(t);
        d.on_cpu = false;
        proof {
            assert(d.tid == t);
            assert(v.zombies.contains(t) ==> d.state is Exited);
            lemma_thread_change(v, d);
        }
        self.set_thread(d);
    }

    /// Puts a woken thread whose context is saved into the queue of its home.
    pub fn enqueue_woken(&mut self, t: Tid, this: u32)
        requires
            old(self)@.wf(),
            old(self)@.settled(),
            old(self)@.online(this as int),
            at_rest(old(self)@, t),
        ensures
            final(self)@ == enqueued(old(self)@, t, this as int),
            final(self)@.wf(),
            final(self)@.settled(),
    {
        let ghost v = self@;
        let d = self.thread(t);
        proof {
            law_enqueue(v, t, this as int);
            assert(v.cpus[this as int] == self.cpus@[this as int]@);
        }
        let home: u32 = match self.get(d.cpu) {
            Some(_) => d.cpu,
            None => this,
        };
        let h: usize = home as usize;
        proof {
            assert(home == home_of(v, t, this as int));
            assert(v.cpus[h as int] == self.cpus@[h as int]@);
            assert(!v.queued_on(t, h as int));
            assert(d.tid == t);
        }
        self.push_queue(h, &d);
        assert(self@.cpus.len() == self.cpus@.len());
        self.set_need_resched(h, true);
        proof {
            assert(self@.cpus =~= enqueued(v, t, this as int).cpus);
            assert(self@ =~= Sched { kicks: v.kicks, ..enqueued(v, t, this as int) });
            assert(self.cpus@[h as int]@ == self@.cpus[h as int]);
            assert(self.cpus@[this as int]@ == self@.cpus[this as int]);
        }
        let target: u32 = self.cpus[h].cpu_id;
        if target != self.cpus[this as usize].cpu_id && self.cpus[h].is_idle {
            self.kicks.push(target);
        }
        assert(self@ =~= enqueued(v, t, this as int));
    }

    /// Makes a blocked thread runnable and, if its context is saved, puts it into the
    /// queue of its home. Does nothing to a thread that is not blocked.
    pub fn wake_blocked(&mut self, t: Tid, this: u32)
        requires
            old(self)@.wf(),
            old(self)@.settled(),
            old(self)@.online(this as int),
            old(self)@.has(t),
            old(self)@.off_futexes(t),
        ensures
            final(self)@ == woken(old(self)@, t, this as int),
            final(self)@.wf(),
            final(self)@.settled(),
    {
        let ghost v = self@;
        proof {
            law_wake(v, t, this as int);
        }
        let mut d = self.thread(t);
        match d.state {
            ThreadState::Blocked => {},
            _ => {
                return;
            },
        }
        let on_cpu: bool = d.on_cpu;
        d.state = ThreadState::Runnable;
        proof {
            assert(d.tid == t);
            assert(d == runnable(v.thread(t)));
            assert(v.zombies.contains(t) ==> false) by {
                if v.zombies.contains(t) {
                    let k = choose|k: int| 0 <= k < v.zombies.len() && v.zombies[k] == t;
                    assert(v.thread(v.zombies[k]).state is Exited);
                }
            }
            lemma_thread_change(v, d);
        }
        self.set_thread(d);
        if on_cpu {
            self.switching.push(t);
            assert(self@ =~= woken(v, t, this as int));
            return;
        }
        assert(at_rest(self@, t));
        self.enqueue_woken(t, this);
        assert(home_of(v.with_thread(d), t, this as int) == home_of(v, t, this as int));
    }

    /// Wakes the threads `ts` one after the other.
    pub fn wake_list(&mut self, ts: &Vec<Tid>, this: u32)
        requires
            old(self)@.wf(),
            old(self)@.settled(),
            old(self)@.online(this as int),
            forall|i: int| 0 <= i < ts@.len() ==> old(self)@.has(#[trigger] ts@[i]) && old(self)@.off_futexes(ts@[i]),
        ensures
            final(self)@ == woken_all(old(self)@, ts@, this as int),
            final(self)@.wf(),
            final(self)@.settled(),
            final(self)@.buckets == old(self)@.buckets,
            keeps_places(old(self)@, final(self)@),
    {
        let ghost v = self@;
        let mut i: usize = 0;
        assert(ts@.take(0) =~= Seq::<Tid>::empty());
        while i < ts.len()
            invariant
                i <= ts@.len(),
                v == old(self)@,
                self@.wf(),
                self@.settled(),
                self@ == woken_all(v, ts@.take(i as int), this as int),
                v.online(this as int),
                forall|k: int| 0 <= k < ts@.len() ==> v.has(#[trigger] ts@[k]) && v.off_futexes(ts@[k]),
                self@.buckets == v.buckets,
                keeps_places(v, self@),
            decreases ts@.len() - i,
        {
            let ghost w = self@;
            let t: Tid = ts[i];
            proof {
                assert(v.has(ts@[i as int]));
                assert(w.threads.dom().contains(t.0));
                assert(w.off_futexes(t)) by {
                    assert forall|b: int| !w.waits_in(t, b) by {
                        assert(!v.waits_in(t, b));
                    }
                }
                lemma_woken_keeps(w, t, this as int);
                assert(ts@.take(i + 1).drop_last() =~= ts@.take(i as int));
                assert(ts@.take(i + 1).last() == t);
            }
            self.wake_blocked(t, this);
            i += 1;
        }
        assert(ts@.take(ts@.len() as int) =~= ts@);
    }

    /// Blocks the thread on CPU `c` and reschedules.
    pub fn block_current(&mut self, c: u32) -> (r: Option<Switch>)
        requires
            old(self)@.wf(),
            old(self)@.settled(),
            active(old(self)@, c as int),
        ensures
            final(self)@ == rescheduled(blocked(old(self)@, c as int), c as int),
            r == switch_of(blocked(old(self)@, c as int), c as int),
            final(self)@.wf(),
            final(self)@.settled(),
    {
        let ghost v = self@;
        let mut me = self.current_thread(c);
        me.state = ThreadState::Blocked;
        proof {
            lemma_active(v, c as int);
            assert(v.runs_on(me.tid, c as int));
            lemma_thread_change(v, me);
        }
        self.set_thread(me);
        self.schedule(c)
    }

    /// Takes the CPUs that have to be interrupted.
    pub fn take_kicks(&mut self) -> (r: Vec<u32>)
        requires
            old(self)@.wf(),
            old(self)@.settled(),
        ensures
            r@ == old(self)@.kicks,
            final(self)@ == (Sched { kicks: Seq::empty(), ..old(self)@ }),
            final(self)@.wf(),
            final(self)@.settled(),
    {
        let mut r: Vec<u32> = Vec::new();
        std::mem::swap(&mut r, &mut self.kicks);
        proof {
            lemma_bookkeeping(old(self)@, self@);
        }
        r
    }

    /// Takes the threads that join a queue once their contexts have been saved.
    pub fn take_switching(&mut self) -> (r: Vec<Tid>)
        requires
            old(self)@.wf(),
            old(self)@.settled(),
        ensures
            r@ == old(self)@.switching,
            final(self)@ == (Sched { switching: Seq::empty(), ..old(self)@ }),
            final(self)@.wf(),
            final(self)@.settled(),
    {
        let mut r: Vec<Tid> = Vec::new();
        std::mem::swap(&mut r, &mut self.switching);
        proof {
            lemma_bookkeeping(old(self)@, self@);
        }
        r
    }
}

} // verus!
