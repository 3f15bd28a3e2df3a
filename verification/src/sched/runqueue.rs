//! The queue of runnable threads of one CPU.

use std::collections::VecDeque;
use vstd::prelude::*;

use super::thread::{Thread, Tid};

verus! {

broadcast use vstd::std_specs::vecdeque::group_vec_dequeue_axioms;

/// Runnable threads in the order in which they will run.
pub struct RunQueue {
    queue: VecDeque<Tid>,
}

impl View for RunQueue {
    type V = Seq<Tid>;

    closed spec fn view(&self) -> Seq<Tid> {
        self.queue@
    }
}

impl Default for RunQueue {
    fn default() -> (r: Self)
        ensures
            r@ == Seq::<Tid>::empty(),
    {
        RunQueue::new()
    }
}

impl RunQueue {
    pub fn new() -> (r: Self)
        ensures
            r@ == Seq::<Tid>::empty(),
    {
        RunQueue { queue: VecDeque::new() }
    }

    /// Appends a thread that is not in the queue.
    pub fn push(&mut self, t: &Thread)
        requires
            !old(self)@.contains(t.tid),
        ensures
            final(self)@ == old(self)@.push(t.tid),
    {
        self.queue.push_back(t.tid);
    }

    /// Takes the thread that was pushed first.
    pub fn pop(&mut self) -> (r: Option<Tid>)
        ensures
            old(self)@.len() == 0 ==> r is None && final(self)@ == old(self)@,
            old(self)@.len() > 0 ==> r == Some(old(self)@[0]) && final(self)@ == old(self)@.drop_first(),
    {
        let r = self.queue.pop_front();
        proof {
            if old(self)@.len() > 0 {
                assert(self@ =~= old(self)@.drop_first());
            }
        }
        r
    }

    /// Number of threads in the queue.
    pub fn load(&self) -> (n: usize)
        ensures
            n == self@.len(),
    {
        self.queue.len()
    }
}

} // verus!
