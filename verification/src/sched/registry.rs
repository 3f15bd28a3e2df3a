//! All threads, by their ids.

use std::collections::BTreeMap;
use vstd::prelude::*;

use super::thread::{Thread, Tid};

verus! {

broadcast use vstd::std_specs::btree::group_btree_axioms;

/// All threads, by their ids.
pub struct ThreadRegistry {
    by_tid: BTreeMap<u32, Thread>,
    next_tid: u32,
}

impl View for ThreadRegistry {
    type V = Map<u32, Thread>;

    closed spec fn view(&self) -> Map<u32, Thread> {
        self.by_tid@
    }
}

impl Default for ThreadRegistry {
    fn default() -> (r: Self)
        ensures
            r.wf(),
            r@ == Map::<u32, Thread>::empty(),
            r.next() == 2,
    {
        ThreadRegistry::new()
    }
}

impl ThreadRegistry {
    /// The id that the next thread gets.
    pub closed spec fn next(&self) -> int {
        self.next_tid as int
    }

    /// Each thread stands under its own id, and the ids 0 and 1 are not given out.
    pub open spec fn wf(&self) -> bool {
        &&& self.next() >= 2
        &&& forall|tid: u32| #[trigger] self@.contains_key(tid) ==> self@[tid].tid == Tid(tid)
    }

    pub fn new() -> (r: Self)
        ensures
            r.wf(),
            r@ == Map::<u32, Thread>::empty(),
            r.next() == 2,
    {
        ThreadRegistry { by_tid: BTreeMap::new(), next_tid: 2 }
    }

    /// The next id. Ids never come back, and 0 and 1 are not given out.
    pub fn alloc_tid(&mut self) -> (r: Tid)
        requires
            old(self).wf(),
            old(self).next() < u32::MAX,
        ensures
            final(self).wf(),
            r.0 >= 2,
            r.0 == old(self).next(),
            final(self).next() == old(self).next() + 1,
            final(self)@ == old(self)@,
    {
        let tid: u32 = self.next_tid;
        self.next_tid = tid + 1;
        Tid(tid)
    }

    /// Adds a thread under an id that is not taken.
    pub fn register(&mut self, t: Thread)
        requires
            old(self).wf(),
            !old(self)@.contains_key(t.tid.0),
        ensures
            final(self).wf(),
            final(self)@ == old(self)@.insert(t.tid.0, t),
            final(self).next() == old(self).next(),
    {
        self.by_tid.insert(t.tid.0, t);
    }

    /// Adds the thread that booted, whose id is never given out.
    pub fn register_main(&mut self, t: Thread)
        requires
            old(self).wf(),
            t.tid == Tid(1),
            !old(self)@.contains_key(1),
        ensures
            final(self).wf(),
            final(self)@ == old(self)@.insert(1, t),
            final(self).next() == old(self).next(),
    {
        self.by_tid.insert(1, t);
    }

    /// Replaces the descriptor of a thread.
    pub fn update(&mut self, t: Thread)
        requires
            old(self).wf(),
            old(self)@.contains_key(t.tid.0),
        ensures
            final(self).wf(),
            final(self)@ == old(self)@.insert(t.tid.0, t),
            final(self).next() == old(self).next(),
    {
        self.by_tid.insert(t.tid.0, t);
    }

    pub fn lookup(&self, tid: Tid) -> (r: Option<Thread>)
        ensures
            r == (if self@.contains_key(tid.0) { Some(self@[tid.0]) } else { None }),
    {
        match self.by_tid.get(&tid.0) {
            Some(t) => Some(*t),
            None => None,
        }
    }

    pub fn unregister(&mut self, tid: Tid) -> (r: Option<Thread>)
        requires
            old(self).wf(),
        ensures
            final(self).wf(),
            r == (if old(self)@.contains_key(tid.0) { Some(old(self)@[tid.0]) } else { None }),
            final(self)@ == old(self)@.remove(tid.0),
            final(self).next() == old(self).next(),
    {
        self.by_tid.remove(&tid.0)
    }

    /// Number of threads, those that have exited and were not reaped among them.
    pub fn alive_count(&self) -> (n: usize)
        ensures
            n == self@.len(),
    {
        self.by_tid.len()
    }
}

} // verus!
