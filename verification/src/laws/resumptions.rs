//! Going on after a wait.

use vstd::prelude::*;

use super::streams::{came_to, same_pipes_but};
use crate::memory::access::{mem, reachable, Memory};
use crate::net::device::PollDevice;
use crate::net::state::{NetStateInner};
use crate::net::stream::{resume, StreamOp};
use crate::sched::scheduler::{Parking, Scheduler};
use crate::time::Clock;

verus! {

/// A read of a pipe that goes on after a wait takes the oldest bytes, as one that did not have to wait; says 0 if nobody is left to
/// write any; and waits again if there are none.
pub proof fn law_waited_read_takes_the_oldest_bytes<D: PollDevice, M: Memory>(
    net: &mut NetStateInner<D>,
    sched: &mut Scheduler,
    um: &mut M,
    op: StreamOp,
    c: u32,
    clock: &Clock,
    tsc: u64,
    id: usize,
    addr: u64,
    len: u64,
    r: Parking,
)
    requires
        call_ensures(resume::<D, M>, (net, sched, um, op, c, clock, tsc), r),
        op == (StreamOp::PipeRead { id, addr, len }),
        0 < len <= u32::MAX,
        reachable(old(um), addr, len as int),
        id < old(net)@.pipetab.len(),
        old(net)@.pipetab[id as int] is Some,
        (old(net)@.pipetab[id as int]->0).buf.len() <= 65536,
    ensures
        ({
            let p = old(net)@.pipetab[id as int]->0;
            let q = final(net)@.pipetab[id as int]->0;
            let n = if len <= p.buf.len() { len as int } else { p.buf.len() as int };
            &&& same_pipes_but(old(net)@, final(net)@, id as int)
            &&& q.buf == p.buf.skip(n)
            &&& p.buf.len() > 0 ==> r == Parking::Return(n as i64) && came_to(old(um), final(um), addr as int, p.buf.take(n))
            &&& p.buf.len() == 0 ==> mem(final(um)) == mem(old(um))
            &&& p.buf.len() == 0 && p.writers == 0 ==> r == Parking::Return(0)
            &&& p.buf.len() == 0 && p.writers > 0 ==> r is Parked
        }),
{
    let p = old(net)@.pipetab[id as int]->0;
    let m = mem(old(um));
    assert(p.buf.len() == 0 ==> p.buf.skip(0) =~= p.buf);
    assert(p.buf.len() == 0 ==> p.buf.take(0) =~= Seq::<u8>::empty());
    assert(m.stored(addr as int, Seq::empty()) =~= m);
    assert(final(um).bytes() == mem(final(um)).bytes);
}

/// A write to a pipe that goes on after a wait adds the bytes behind those that are in it, as one that did not have to wait; says so
/// if nobody is left to read them; and waits again if there is no room.
pub proof fn law_waited_write_adds_at_the_end<D: PollDevice, M: Memory>(
    net: &mut NetStateInner<D>,
    sched: &mut Scheduler,
    um: &mut M,
    op: StreamOp,
    c: u32,
    clock: &Clock,
    tsc: u64,
    id: usize,
    addr: u64,
    len: u64,
    r: Parking,
)
    requires
        call_ensures(resume::<D, M>, (net, sched, um, op, c, clock, tsc), r),
        op == (StreamOp::PipeWrite { id, addr, len }),
        0 < len <= u32::MAX,
        reachable(old(um), addr, len as int),
        id < old(net)@.pipetab.len(),
        old(net)@.pipetab[id as int] is Some,
        (old(net)@.pipetab[id as int]->0).buf.len() <= 65536,
    ensures
        ({
            let p = old(net)@.pipetab[id as int]->0;
            let q = final(net)@.pipetab[id as int]->0;
            let room = 65536 - p.buf.len();
            let n = if p.readers == 0 {
                0
            } else if len <= room {
                len as int
            } else {
                room
            };
            &&& same_pipes_but(old(net)@, final(net)@, id as int)
            &&& mem(final(um)) == mem(old(um))
            &&& q.buf.len() == p.buf.len() + n
            &&& forall|i: int| 0 <= i < p.buf.len() ==> #[trigger] q.buf[i] == p.buf[i]
            &&& forall|i: int| 0 <= i < n ==> #[trigger] q.buf[p.buf.len() + i] == old(um).bytes()[addr + i - old(um).base()]
            &&& p.readers == 0 ==> (r matches Parking::Return(e) && e == -32)
            &&& p.readers > 0 && room > 0 ==> r == Parking::Return(n as i64)
            &&& p.readers > 0 && room == 0 ==> r is Parked
        }),
{
    let m = mem(old(um));
    assert(m.stored(addr as int, Seq::empty()) =~= m);
    let p = old(net)@.pipetab[id as int]->0;
    assert(p.buf + m.range(addr as int, len as int).take(0) =~= p.buf);
}

} // verus!
