//! The console, and the record of what went through it.

use vstd::prelude::*;

verus! {

/// A device that bytes are written to and read from. How many it takes or gives is its own affair.
pub trait Terminal: Sized {
    /// Gives back how many bytes were taken.
    fn write(&mut self, data: &[u8]) -> usize;

    /// Up to `max` bytes that have come in.
    fn read(&mut self, max: u64) -> Vec<u8>;
}

/// Something that went through the console.
pub enum TermEvent {
    Write { data: Seq<u8>, taken: usize },
    Read { max: u64, got: Seq<u8> },
}

/// A terminal together with the record of its use, in order.
pub struct Console<T: Terminal> {
    device: T,
    log: Ghost<Seq<TermEvent>>,
}

impl<T: Terminal> Console<T> {
    pub closed spec fn log(&self) -> Seq<TermEvent> {
        self.log@
    }

    /// The device behind the record.
    pub closed spec fn inner(&self) -> T {
        self.device
    }

    /// A console that was not used yet.
    pub fn new(device: T) -> (r: Self)
        ensures
            r.log() == Seq::<TermEvent>::empty(),
            r.inner() == device,
    {
        Console { device, log: Ghost(Seq::empty()) }
    }

    /// The device itself.
    pub fn device(&self) -> (r: &T)
        ensures
            *r == self.inner(),
    {
        &self.device
    }

    /// Writes bytes. Gives back how many were taken.
    pub fn write(&mut self, data: &[u8]) -> (taken: usize)
        ensures
            final(self).log() == old(self).log().push(TermEvent::Write { data: data@, taken }),
    {
        let taken = self.device.write(data);
        proof {
            self.log@ = self.log@.push(TermEvent::Write { data: data@, taken });
        }
        taken
    }

    /// Reads up to `max` bytes.
    pub fn read(&mut self, max: u64) -> (got: Vec<u8>)
        ensures
            got@.len() <= max,
            final(self).log() == old(self).log().push(TermEvent::Read { max, got: got@ }),
    {
        let mut got = self.device.read(max);
        let len: usize = got.len();
        if len as u64 > max {
            got.truncate(max as usize);
        }
        proof {
            self.log@ = self.log@.push(TermEvent::Read { max, got: got@ });
        }
        got
    }
}

/// What went through the console between two states of its record.
pub open spec fn used(before: Seq<TermEvent>, after: Seq<TermEvent>) -> Seq<TermEvent> {
    after.skip(before.len() as int)
}

/// Nothing of the record `before` was changed.
pub open spec fn continues(before: Seq<TermEvent>, after: Seq<TermEvent>) -> bool {
    before.len() <= after.len() && after.take(before.len() as int) == before
}

/// Every record continues itself, by nothing.
pub broadcast proof fn lemma_continues_itself(log: Seq<TermEvent>)
    ensures
        #[trigger] continues(log, log),
        used(log, log) == Seq::<TermEvent>::empty(),
{
    assert(log.take(log.len() as int) =~= log);
    assert(used(log, log) =~= Seq::<TermEvent>::empty());
}

/// One more use is one more item since any earlier state.
pub broadcast proof fn lemma_continues_push(before: Seq<TermEvent>, after: Seq<TermEvent>, e: TermEvent)
    requires
        #[trigger] continues(before, after),
    ensures
        continues(before, #[trigger] after.push(e)),
        used(before, after.push(e)) == used(before, after).push(e),
{
    assert(after.push(e).take(before.len() as int) =~= after.take(before.len() as int));
    assert(used(before, after.push(e)) =~= used(before, after).push(e));
}

pub broadcast group group_console {
    lemma_continues_itself,
    lemma_continues_push,
}

} // verus!
