//! The allocator of slots in the direct-access window.

use vstd::prelude::*;

use crate::layout::{DAX_SLOT_COUNT, PAGE_SIZE};
use crate::memory::allocators::palloc::{free_run, lemma_lowest_run, lemma_no_run, lowest_run, mark};
use crate::memory::errors::{MemoryError, Result};

verus! {

/// Hands out runs of slots, each the size of a page.
pub struct DaxAllocator {
    used: Vec<bool>,
}

impl View for DaxAllocator {
    type V = Seq<bool>;

    /// For each slot, whether it is in use.
    closed spec fn view(&self) -> Seq<bool> {
        self.used@
    }
}

impl DaxAllocator {
    pub closed spec fn wf(&self) -> bool {
        self.used@.len() == DAX_SLOT_COUNT
    }

    pub proof fn lemma_slot_count(&self)
        requires
            self.wf(),
        ensures
            self@.len() == DAX_SLOT_COUNT,
    {
    }

    pub fn new() -> (r: Self)
        ensures
            r.wf(),
            r@ == Seq::new(DAX_SLOT_COUNT as nat, |k: int| false),
    {
        let r = DaxAllocator { used: vec![false; DAX_SLOT_COUNT as usize] };
        assert(r@ =~= Seq::new(DAX_SLOT_COUNT as nat, |k: int| false));
        r
    }

    /// Takes the lowest run of `slots` free slots, and gives back its offset in the window.
    pub fn allocate(&mut self, slots: u64) -> (r: Result<u64>)
        requires
            old(self).wf(),
            0 < slots,
        ensures
            final(self).wf(),
            match lowest_run(old(self)@, slots as int) {
                None => r == Err::<u64, MemoryError>(MemoryError::OutOfMemory) && final(self)@ == old(self)@,
                Some(s) => {
                    &&& r matches Ok(offset)
                    &&& offset == s * PAGE_SIZE
                    &&& 0 <= s <= DAX_SLOT_COUNT - slots
                    &&& final(self)@ == mark(old(self)@, s, slots as int, true)
                },
            },
    {
        if slots > DAX_SLOT_COUNT {
            proof {
                lemma_no_run(self@, slots as int);
            }
            return Err(MemoryError::OutOfMemory);
        }
        let mut start: u64 = 0;
        while start <= DAX_SLOT_COUNT - slots
            invariant
                *self == *old(self),
                self.wf(),
                0 < slots <= DAX_SLOT_COUNT,
                start <= DAX_SLOT_COUNT - slots + 1,
                forall|s: int| s < start ==> !#[trigger] free_run(self@, s, slots as int),
            decreases DAX_SLOT_COUNT - start,
        {
            if self.range_is_free(start, slots) {
                proof {
                    lemma_lowest_run(self@, start as int, slots as int);
                }
                self.mark_range(start, slots, true);
                return Ok(start * PAGE_SIZE);
            }
            start += 1;
        }
        proof {
            lemma_no_run(self@, slots as int);
        }
        Err(MemoryError::OutOfMemory)
    }

    /// Gives back `slots` slots from `offset` on.
    pub fn free(&mut self, offset: u64, slots: u64)
        requires
            old(self).wf(),
            offset / PAGE_SIZE + slots <= DAX_SLOT_COUNT,
        ensures
            final(self).wf(),
            final(self)@ == mark(old(self)@, offset as int / PAGE_SIZE as int, slots as int, false),
    {
        self.mark_range(offset / PAGE_SIZE, slots, false);
    }

    fn range_is_free(&self, start: u64, slots: u64) -> (r: bool)
        requires
            self.wf(),
            start + slots <= DAX_SLOT_COUNT,
        ensures
            r == free_run(self@, start as int, slots as int),
    {
        let mut slot: u64 = start;
        while slot < start + slots
            invariant
                self.wf(),
                start <= slot <= start + slots <= DAX_SLOT_COUNT,
                forall|k: int| start <= k < slot ==> !#[trigger] self@[k],
            decreases start + slots - slot,
        {
            if self.used[slot as usize] {
                assert(self@[slot as int]);
                return false;
            }
            slot += 1;
        }
        true
    }

    fn mark_range(&mut self, start: u64, slots: u64, value: bool)
        requires
            old(self).wf(),
            start + slots <= DAX_SLOT_COUNT,
        ensures
            final(self).wf(),
            final(self)@ == mark(old(self)@, start as int, slots as int, value),
    {
        let mut slot: u64 = start;
        assert(self@ =~= mark(old(self)@, start as int, 0, value));
        while slot < start + slots
            invariant
                self.wf(),
                start <= slot <= start + slots <= DAX_SLOT_COUNT,
                self@ == mark(old(self)@, start as int, slot - start, value),
            decreases start + slots - slot,
        {
            self.used.set(slot as usize, value);
            slot += 1;
            assert(self@ =~= mark(old(self)@, start as int, slot - start, value));
        }
    }
}

} // verus!
