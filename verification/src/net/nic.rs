//! The registers and queues of a network card, and the record of their use.

use vstd::prelude::*;

verus! {

/// Where the parts of a queue are in memory.
#[derive(Clone, Copy, Debug, PartialEq, Eq, Structural)]
pub struct QueueAddrs {
    pub desc: u64,
    pub avail: u64,
    pub used: u64,
}

/// A buffer that the card is done with, and how many bytes it has put there.
#[derive(Clone, Copy, Debug, PartialEq, Eq, Structural)]
pub struct UsedElem {
    pub id: u32,
    pub len: u32,
}

/// The registers and the queues of the card. What it answers is its own affair.
pub trait NicPort: Sized {
    fn read32(&mut self, reg: u32) -> u32;

    fn write32(&mut self, reg: u32, value: u32);

    /// Makes the memory of a queue.
    fn new_queue(&mut self, queue: u32) -> Option<QueueAddrs>;

    /// Takes a free entry of a queue.
    fn alloc_desc(&mut self, queue: u32) -> Option<u16>;

    fn set_desc(&mut self, queue: u32, head: u16, addr: u64, len: u32, flags: u16);

    /// Hands an entry to the card.
    fn submit(&mut self, queue: u32, head: u16);

    /// An entry that the card is done with.
    fn complete(&mut self, queue: u32) -> Option<UsedElem>;
}

/// Something that was done with the card.
#[allow(inconsistent_fields)]
pub enum NicEvent {
    Read { reg: u32, value: u32 },
    Write { reg: u32, value: u32 },
    NewQueue { queue: u32, reply: Option<QueueAddrs> },
    AllocDesc { queue: u32, reply: Option<u16> },
    SetDesc { queue: u32, head: u16, addr: u64, len: u32, flags: u16 },
    Submit { queue: u32, head: u16 },
    Complete { queue: u32, reply: Option<UsedElem> },
}

/// A card together with the record of what was done with it, in order.
pub struct Nic<P: NicPort> {
    port: P,
    log: Ghost<Seq<NicEvent>>,
}

impl<P: NicPort> Nic<P> {
    pub closed spec fn log(&self) -> Seq<NicEvent> {
        self.log@
    }

    /// The card behind the record.
    pub closed spec fn inner(&self) -> P {
        self.port
    }

    /// A card with which nothing was done yet.
    pub fn new(port: P) -> (r: Self)
        ensures
            r.log() == Seq::<NicEvent>::empty(),
            r.inner() == port,
    {
        Nic { port, log: Ghost(Seq::empty()) }
    }

    /// The card itself.
    pub fn port(&self) -> (r: &P)
        ensures
            *r == self.inner(),
    {
        &self.port
    }

    pub fn read32(&mut self, reg: u32) -> (value: u32)
        ensures
            final(self).log() == old(self).log().push(NicEvent::Read { reg, value }),
    {
        let value = self.port.read32(reg);
        proof {
            self.log@ = self.log@.push(NicEvent::Read { reg, value });
        }
        value
    }

    pub fn write32(&mut self, reg: u32, value: u32)
        ensures
            final(self).log() == old(self).log().push(NicEvent::Write { reg, value }),
    {
        self.port.write32(reg, value);
        proof {
            self.log@ = self.log@.push(NicEvent::Write { reg, value });
        }
    }

    pub fn new_queue(&mut self, queue: u32) -> (reply: Option<QueueAddrs>)
        ensures
            final(self).log() == old(self).log().push(NicEvent::NewQueue { queue, reply }),
    {
        let reply = self.port.new_queue(queue);
        proof {
            self.log@ = self.log@.push(NicEvent::NewQueue { queue, reply });
        }
        reply
    }

    pub fn alloc_desc(&mut self, queue: u32) -> (reply: Option<u16>)
        ensures
            final(self).log() == old(self).log().push(NicEvent::AllocDesc { queue, reply }),
    {
        let reply = self.port.alloc_desc(queue);
        proof {
            self.log@ = self.log@.push(NicEvent::AllocDesc { queue, reply });
        }
        reply
    }

    pub fn set_desc(&mut self, queue: u32, head: u16, addr: u64, len: u32, flags: u16)
        ensures
            final(self).log() == old(self).log().push(NicEvent::SetDesc { queue, head, addr, len, flags }),
    {
        self.port.set_desc(queue, head, addr, len, flags);
        proof {
            self.log@ = self.log@.push(NicEvent::SetDesc { queue, head, addr, len, flags });
        }
    }

    pub fn submit(&mut self, queue: u32, head: u16)
        ensures
            final(self).log() == old(self).log().push(NicEvent::Submit { queue, head }),
    {
        self.port.submit(queue, head);
        proof {
            self.log@ = self.log@.push(NicEvent::Submit { queue, head });
        }
    }

    pub fn complete(&mut self, queue: u32) -> (reply: Option<UsedElem>)
        ensures
            final(self).log() == old(self).log().push(NicEvent::Complete { queue, reply }),
    {
        let reply = self.port.complete(queue);
        proof {
            self.log@ = self.log@.push(NicEvent::Complete { queue, reply });
        }
        reply
    }
}

/// What was done with the card between two states of its record.
pub open spec fn done(before: Seq<NicEvent>, after: Seq<NicEvent>) -> Seq<NicEvent> {
    after.skip(before.len() as int)
}

/// Nothing of the record `before` was changed.
pub open spec fn keeps_log(before: Seq<NicEvent>, after: Seq<NicEvent>) -> bool {
    before.len() <= after.len() && after.take(before.len() as int) == before
}

/// Every record continues itself, by nothing.
pub broadcast proof fn lemma_log_itself(log: Seq<NicEvent>)
    ensures
        #[trigger] keeps_log(log, log),
        done(log, log) == Seq::<NicEvent>::empty(),
{
    assert(log.take(log.len() as int) =~= log);
    assert(done(log, log) =~= Seq::<NicEvent>::empty());
}

/// One more event is one more item since any earlier state.
pub broadcast proof fn lemma_log_push(before: Seq<NicEvent>, after: Seq<NicEvent>, e: NicEvent)
    requires
        #[trigger] keeps_log(before, after),
    ensures
        keeps_log(before, #[trigger] after.push(e)),
        done(before, after.push(e)) == done(before, after).push(e),
{
    assert(after.push(e).take(before.len() as int) =~= after.take(before.len() as int));
    assert(done(before, after.push(e)) =~= done(before, after).push(e));
}

pub proof fn lemma_log_trans(a: Seq<NicEvent>, b: Seq<NicEvent>, c: Seq<NicEvent>)
    requires
        keeps_log(a, b),
        keeps_log(b, c),
    ensures
        keeps_log(a, c),
        done(a, c) == done(a, b) + done(b, c),
        done(a, c).skip(done(a, b).len() as int) == done(b, c),
{
    assert(c =~= b + done(b, c));
    assert(c.take(a.len() as int) =~= b.take(a.len() as int));
    assert(done(a, c) =~= done(a, b) + done(b, c));
    assert(done(a, c).skip(done(a, b).len() as int) =~= done(b, c));
}

pub broadcast group group_nic_log {
    lemma_log_itself,
    lemma_log_push,
}

} // verus!
