//! Threads that wait for sockets and pipes.

use vstd::prelude::*;

use crate::sched::scheduler::{keeps_places, woken_all, Sched, Scheduler};
use crate::sched::thread::{Thread, Tid};

verus! {

/// Threads that wait, the latest first.
pub struct WaitQueue {
    waiters: Vec<Tid>,
}

impl View for WaitQueue {
    type V = Seq<Tid>;

    closed spec fn view(&self) -> Seq<Tid> {
        self.waiters@
    }
}

/// Every thread of the queue exists and waits for no futex.
pub open spec fn can_wake(queue: Seq<Tid>, v: Sched) -> bool {
    forall|i: int| 0 <= i < queue.len() ==> v.has(#[trigger] queue[i]) && v.off_futexes(queue[i])
}

impl WaitQueue {
    pub fn new() -> (r: Self)
        ensures
            r@ == Seq::<Tid>::empty(),
    {
        WaitQueue { waiters: Vec::new() }
    }

    /// Whether no thread waits.
    pub fn is_empty(&self) -> (r: bool)
        ensures
            r == (self@.len() == 0),
    {
        self.waiters.len() == 0
    }

    /// Puts a thread in front.
    pub fn push(&mut self, t: &Thread)
        ensures
            final(self)@ == seq![t.tid] + old(self)@,
    {
        self.waiters.insert(0, t.tid);
        assert(self@ =~= seq![t.tid] + old(self)@);
    }

    /// Wakes every thread, from the front on, and forgets them all.
    pub fn wake_all(&mut self, sched: &mut Scheduler, this: u32)
        requires
            old(sched)@.wf(),
            old(sched)@.settled(),
            old(sched)@.online(this as int),
            can_wake(old(self)@, old(sched)@),
        ensures
            final(self)@ == Seq::<Tid>::empty(),
            final(sched)@ == woken_all(old(sched)@, old(self)@, this as int),
            final(sched)@.wf(),
            final(sched)@.settled(),
            keeps_places(old(sched)@, final(sched)@),
            final(sched)@.buckets == old(sched)@.buckets,
    {
        sched.wake_list(&self.waiters, this);
        self.waiters = Vec::new();
    }
}

impl Default for WaitQueue {
    fn default() -> (r: Self)
        ensures
            r@ == Seq::<Tid>::empty(),
    {
        WaitQueue::new()
    }
}

/// What an attempt that may have to wait came to.
#[derive(Clone, Copy, Debug, PartialEq, Eq, Structural)]
pub enum Wait {
    /// It is done, and the call returns this.
    Ready(i64),
    /// It has to be made again after something has changed.
    Block,
}

} // verus!
