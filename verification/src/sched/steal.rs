//! Giving up the CPU, taking threads from other CPUs, and having nothing to do.

use vstd::prelude::*;

use super::percpu::{Cpu, MAX_VCPUS};
use super::scheduler::{
    active, at_rest, lemma_join, lemma_popped, lemma_thread_change, popped, queued_at, rescheduled, running,
    switch_of, Sched, Scheduler, Switch,
};
use super::thread::{Thread, Tid};

verus! {

/// The scheduler after the thread on CPU `c` went to the end of the queue and the CPU rescheduled.
pub open spec fn yielded(v: Sched, c: int) -> Sched {
    rescheduled(queued_at(v, v.cpus[c].current->0, c), c)
}

/// The first CPU from `from` on, other than `me`, that has threads waiting.
pub open spec fn busy_peer(v: Sched, me: int, from: int) -> Option<int>
    decreases v.cpus.len() - from,
{
    if from < 0 || from >= v.cpus.len() {
        None
    } else if from != me && v.online(from) && v.cpus[from].queue.len() > 0 {
        Some(from)
    } else {
        busy_peer(v, me, from + 1)
    }
}

/// What came of looking for a thread on other CPUs.
#[derive(Clone, Copy, Debug, PartialEq, Eq, Structural)]
pub enum Steal {
    /// No other CPU has threads waiting.
    Nothing,
    /// This thread was taken from its queue, and joins ours once its context has been saved.
    Switching(Tid),
    /// This thread joined our queue.
    Moved(Tid),
}

/// The scheduler after `t`, in no queue, came to CPU `me`.
pub open spec fn adopted(v: Sched, t: Tid, me: int) -> Sched {
    queued_at(v.with_thread((Thread { cpu: v.cpus[me].cpu_id, ..v.thread(t) })), t, me)
}

/// The scheduler after the first thread left the queue of CPU `peer`.
pub open spec fn without_first(v: Sched, peer: int) -> Sched {
    v.with_cpu(peer, Cpu { queue: v.cpus[peer].queue.drop_first(), ..v.cpus[peer] })
}

/// The scheduler after CPU `me` took a thread from another CPU.
pub open spec fn stolen(v: Sched, me: int) -> Sched {
    match busy_peer(v, me, 0) {
        None => v,
        Some(p) => {
            let t = v.cpus[p].queue[0];
            let w = without_first(v, p);
            if v.thread(t).on_cpu { w } else { adopted(w, t, me) }
        },
    }
}

/// What comes of CPU `me` looking for a thread on other CPUs.
pub open spec fn steal_of(v: Sched, me: int) -> Steal {
    match busy_peer(v, me, 0) {
        None => Steal::Nothing,
        Some(p) => {
            let t = v.cpus[p].queue[0];
            if v.thread(t).on_cpu { Steal::Switching(t) } else { Steal::Moved(t) }
        },
    }
}

/// The peer that is found has threads waiting, and no CPU below it does.
pub proof fn law_busy_peer(v: Sched, me: int, from: int)
    requires
        0 <= from,
    ensures
        busy_peer(v, me, from) matches Some(p) ==> from <= p < v.cpus.len() && p != me && v.online(p)
            && v.cpus[p].queue.len() > 0,
        forall|d: int|
            from <= d < (match busy_peer(v, me, from) { Some(p) => p, None => v.cpus.len() as int }) && d != me && v.online(d)
                ==> (#[trigger] v.cpus[d]).queue.len() == 0,
    decreases v.cpus.len() - from,
{
    if from < v.cpus.len() && !(from != me && v.online(from) && v.cpus[from].queue.len() > 0) {
        law_busy_peer(v, me, from + 1);
    }
}

/// A thread that leaves its queue is in none; the others stay where they are.
pub proof fn lemma_without_first(v: Sched, p: int)
    requires
        v.wf(),
        v.settled(),
        0 <= p < v.cpus.len(),
        v.cpus[p].queue.len() > 0,
    ensures
        without_first(v, p).wf(),
        without_first(v, p).settled(),
        forall|u: Tid, d: int| #[trigger] without_first(v, p).queued_on(u, d) <==> v.queued_on(u, d) && u != v.cpus[p].queue[0],
        forall|u: Tid, d: int| #[trigger] without_first(v, p).runs_on(u, d) <==> v.runs_on(u, d),
        forall|u: Tid, d: int| #[trigger] without_first(v, p).idles_on(u, d) <==> v.idles_on(u, d),
        v.queued_on(v.cpus[p].queue[0], p),
{
    let w = without_first(v, p);
    let x = v.with_cpu(p, popped(v.cpus[p]));
    lemma_popped(v, p);
    assert(v.queued_on(v.cpus[p].queue[0], p));
    assert forall|u: Tid, d: int| #[trigger] w.queued_on(u, d) <==> v.queued_on(u, d) && u != v.cpus[p].queue[0] by {
        assert(x.queued_on(u, d) <==> w.queued_on(u, d));
    }
    assert forall|u: Tid, d: int| #[trigger] w.runs_on(u, d) <==> v.runs_on(u, d) by {}
    assert forall|u: Tid, d: int| #[trigger] w.idles_on(u, d) <==> v.idles_on(u, d) by {}
    assert forall|u: Tid, d: int| #[trigger] w.waits_in(u, d) <==> v.waits_in(u, d) by {}
    assert forall|i: int| 0 <= i < w.zombies.len() implies w.has(#[trigger] w.zombies[i]) && w.thread(w.zombies[i]).state is Exited by {
        assert(v.has(v.zombies[i]));
    }
    assert(w.registered());
    assert(w.states_agree());
    assert(w.places_differ());
}

/// A thread at rest may come to any CPU.
pub proof fn lemma_adopted(v: Sched, t: Tid, me: int)
    requires
        v.wf(),
        v.settled(),
        v.online(me),
        at_rest(v, t),
    ensures
        adopted(v, t, me).wf(),
        adopted(v, t, me).settled(),
{
    let d = Thread { cpu: v.cpus[me].cpu_id, ..v.thread(t) };
    assert(d.tid == t);
    assert(v.zombies.contains(t) ==> d.state is Exited);
    lemma_thread_change(v, d);
    let w = v.with_thread(d);
    lemma_join(w, t, me, adopted(v, t, me).cpus[me]);
}

/// Taking a thread from another CPU keeps what always holds.
pub proof fn law_steal(v: Sched, me: int)
    requires
        v.wf(),
        v.settled(),
        v.online(me),
    ensures
        stolen(v, me).wf(),
        stolen(v, me).settled(),
        steal_of(v, me) matches Steal::Switching(t) ==> stolen(v, me).has(t) && forall|d: int| !stolen(v, me).queued_on(t, d),
        running(v, me) ==> running(stolen(v, me), me),
{
    law_busy_peer(v, me, 0);
    match busy_peer(v, me, 0) {
        Some(p) => {
            let t = v.cpus[p].queue[0];
            lemma_without_first(v, p);
            let w = without_first(v, p);
            if !v.thread(t).on_cpu {
                assert(at_rest(w, t));
                lemma_adopted(w, t, me);
            }
        },
        None => {},
    }
}

/// What an idle CPU does next.
#[derive(Clone, Copy, Debug, PartialEq, Eq, Structural)]
pub enum IdleStep {
    /// There was something to run; the change of threads, if any.
    Run(Option<Switch>),
    /// This thread was taken from another CPU, and its context is not saved yet.
    WaitFor(Tid),
    /// There is nothing to run anywhere.
    Halt,
}

/// The scheduler with CPU `c` marked as idle or busy.
pub open spec fn idling(v: Sched, c: int, value: bool) -> Sched {
    v.with_cpu(c, Cpu { is_idle: value, ..v.cpus[c] })
}

/// Whether a CPU is marked as idle touches nothing else.
pub proof fn lemma_idling(v: Sched, c: int, value: bool)
    requires
        v.wf(),
        0 <= c < v.cpus.len(),
    ensures
        idling(v, c, value).wf(),
        v.settled() ==> idling(v, c, value).settled(),
{
    let w = idling(v, c, value);
    assert forall|u: Tid, d: int| #[trigger] w.queued_on(u, d) <==> v.queued_on(u, d) by {}
    assert forall|u: Tid, d: int| #[trigger] w.runs_on(u, d) <==> v.runs_on(u, d) by {}
    assert forall|u: Tid, d: int| #[trigger] w.idles_on(u, d) <==> v.idles_on(u, d) by {}
    assert forall|u: Tid, d: int| #[trigger] w.waits_in(u, d) <==> v.waits_in(u, d) by {}
    assert forall|i: int| 0 <= i < w.zombies.len() implies w.has(#[trigger] w.zombies[i]) && w.thread(w.zombies[i]).state is Exited by {
        assert(v.has(v.zombies[i]));
    }
    assert(w.registered());
    assert(w.states_agree());
    assert(w.places_differ());
}

/// The scheduler after one step of the idle thread of CPU `c`.
pub open spec fn idled(v: Sched, c: int) -> Sched {
    if v.cpus[c].queue.len() > 0 {
        rescheduled(idling(v, c, false), c)
    } else {
        let w = stolen(idling(v, c, true), c);
        match steal_of(idling(v, c, true), c) {
            Steal::Moved(_) => rescheduled(idling(w, c, false), c),
            _ => w,
        }
    }
}

/// The step that the idle thread of CPU `c` takes.
pub open spec fn idle_step_of(v: Sched, c: int) -> IdleStep {
    if v.cpus[c].queue.len() > 0 {
        IdleStep::Run(switch_of(idling(v, c, false), c))
    } else {
        let w = stolen(idling(v, c, true), c);
        match steal_of(idling(v, c, true), c) {
            Steal::Moved(_) => IdleStep::Run(switch_of(idling(w, c, false), c)),
            Steal::Switching(t) => IdleStep::WaitFor(t),
            Steal::Nothing => IdleStep::Halt,
        }
    }
}

impl Scheduler {
    /// Puts the thread on CPU `c` at the end of the queue and reschedules.
    pub fn yield_current(&mut self, c: u32) -> (r: Option<Switch>)
        requires
            old(self)@.wf(),
            old(self)@.settled(),
            active(old(self)@, c as int),
        ensures
            final(self)@ == yielded(old(self)@, c as int),
            r == switch_of(queued_at(old(self)@, old(self)@.cpus[c as int].current->0, c as int), c as int),
            final(self)@.wf(),
            final(self)@.settled(),
    {
        let ghost v = self@;
        let t = self.current_thread(c);
        proof {
            assert(v.runs_on(t.tid, c as int));
            assert(!v.queued_on(t.tid, c as int));
            assert forall|d: int| !v.idles_on(t.tid, d) by {
                if v.idles_on(t.tid, d) {
                    assert(d == c as int);
                }
            }
            lemma_join(v, t.tid, c as int, queued_at(v, t.tid, c as int).cpus[c as int]);
        }
        self.push_queue(c as usize, &t);
        self.schedule(c)
    }

    /// Puts a thread that was taken from another CPU into the queue of CPU `me`.
    pub fn finish_steal(&mut self, t: Tid, me: u32)
        requires
            old(self)@.wf(),
            old(self)@.settled(),
            old(self)@.online(me as int),
            at_rest(old(self)@, t),
        ensures
            final(self)@ == adopted(old(self)@, t, me as int),
            final(self)@.wf(),
            final(self)@.settled(),
    {
        let ghost v = self@;
        let mut d = self.thread(t);
        proof {
            assert(v.cpus[me as int] == self.cpus@[me as int]@);
            lemma_adopted(v, t, me as int);
            assert(!v.queued_on(t, me as int));
        }
        d.cpu = self.cpus[me as usize].cpu_id;
        self.set_thread(d);
        self.push_queue(me as usize, &d);
    }

    /// Takes a waiting thread from the first other CPU that has one.
    pub fn try_steal_work(&mut self, me: u32) -> (r: Steal)
        requires
            old(self)@.wf(),
            old(self)@.settled(),
            old(self)@.online(me as int),
        ensures
            final(self)@ == stolen(old(self)@, me as int),
            r == steal_of(old(self)@, me as int),
            final(self)@.wf(),
            final(self)@.settled(),
    {
        let ghost v = self@;
        proof {
            law_steal(v, me as int);
        }
        let mut id: u32 = 0;
        while id < MAX_VCPUS as u32
            invariant
                self@ == v,
                v == old(self)@,
                v.wf(),
                v.settled(),
                v.online(me as int),
                id <= MAX_VCPUS,
                busy_peer(v, me as int, 0) == busy_peer(v, me as int, id as int),
                stolen(v, me as int).wf(),
                stolen(v, me as int).settled(),
            decreases MAX_VCPUS - id,
        {
            if id != me {
                let load: usize = match self.get(id) {
                    Some(peer) => peer.runqueue.load(),
                    None => 0,
                };
                if load != 0 {
                    assert(busy_peer(v, me as int, id as int) == Some(id as int));
                    proof {
                        lemma_without_first(v, id as int);
                    }
                    let first = self.pop_queue(id as usize);
                    assert(self@ =~= without_first(v, id as int));
                    match first {
                        Some(t) => {
                            let d = self.thread(t);
                            if d.on_cpu {
                                return Steal::Switching(t);
                            }
                            assert(at_rest(self@, t));
                            self.finish_steal(t, me);
                            return Steal::Moved(t);
                        },
                        None => {
                            return Steal::Nothing;
                        },
                    }
                }
            }
            id += 1;
        }
        Steal::Nothing
    }

    /// One step of the idle thread of CPU `c`: runs what waits here, else takes a
    /// thread from another CPU, else asks to halt. While it halts the CPU is marked as idle.
    pub fn idle_step(&mut self, c: u32) -> (r: IdleStep)
        requires
            old(self)@.wf(),
            old(self)@.settled(),
            running(old(self)@, c as int),
        ensures
            final(self)@ == idled(old(self)@, c as int),
            r == idle_step_of(old(self)@, c as int),
            final(self)@.wf(),
            final(self)@.settled(),
    {
        let ghost v = self@;
        proof {
            lemma_idling(v, c as int, true);
            lemma_idling(v, c as int, false);
        }
        let ci: usize = c as usize;
        self.set_is_idle(ci, true);
        let ghost w = self@;
        assert(w == idling(v, c as int, true));
        assert(w.cpus[c as int] == self.cpus@[c as int]@);
        if self.cpus[ci].runqueue.load() > 0 {
            self.set_is_idle(ci, false);
            assert(self@ =~= idling(v, c as int, false));
            let s = self.schedule(c);
            return IdleStep::Run(s);
        }
        proof {
            law_steal(w, c as int);
            lemma_idling(stolen(w, c as int), c as int, false);
        }
        match self.try_steal_work(c) {
            Steal::Moved(_) => {
                assert(running(self@, c as int));
                self.set_is_idle(ci, false);
                let s = self.schedule(c);
                IdleStep::Run(s)
            },
            Steal::Switching(t) => IdleStep::WaitFor(t),
            Steal::Nothing => IdleStep::Halt,
        }
    }

    /// Goes on after the context of the thread that the idle thread of CPU `c` had taken is saved.
    pub fn idle_resume(&mut self, t: Tid, c: u32) -> (r: Option<Switch>)
        requires
            old(self)@.wf(),
            old(self)@.settled(),
            running(old(self)@, c as int),
            at_rest(old(self)@, t),
        ensures
            final(self)@ == rescheduled(idling(adopted(old(self)@, t, c as int), c as int, false), c as int),
            r == switch_of(idling(adopted(old(self)@, t, c as int), c as int, false), c as int),
            final(self)@.wf(),
            final(self)@.settled(),
    {
        self.finish_steal(t, c);
        proof {
            lemma_idling(self@, c as int, false);
        }
        self.set_is_idle(c as usize, false);
        self.schedule(c)
    }

    /// The CPU came out of its halt.
    pub fn leave_idle(&mut self, c: u32)
        requires
            old(self)@.wf(),
            old(self)@.settled(),
            old(self)@.online(c as int),
        ensures
            final(self)@ == idling(old(self)@, c as int, false),
            final(self)@.wf(),
            final(self)@.settled(),
    {
        proof {
            lemma_idling(self@, c as int, false);
        }
        self.set_is_idle(c as usize, false);
    }
}

} // verus!
