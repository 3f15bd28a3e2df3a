//! Those who wait for the network, and who wakes them.

use vstd::prelude::*;

use super::times::{clock_runs, gone_by, lemma_gone_by};
use crate::net::device::PollDevice;
use crate::net::state::{joint_wf, NetStateInner};
use crate::sched::scheduler::{active, woken, woken_all, Parking, Sched, Scheduler};
use crate::sched::thread::Tid;
use crate::syscall::blocking::Call;
use crate::syscall::handlers::net::connect_on;
use crate::time::{elapsed_ns, Clock};

verus! {

proof fn lemma_all_woken(v: Sched, ts: Seq<Tid>, this: int)
    requires
        forall|i: int| 0 <= i < ts.len() ==> v.threads.contains_key((#[trigger] ts[i]).0) && v.threads[ts[i].0].tid == ts[i],
        forall|u: u32| #[trigger] v.threads.contains_key(u) ==> v.threads[u].tid.0 == u,
    ensures
        ({
            let w = woken_all(v, ts, this);
            &&& forall|u: u32| #[trigger] w.threads.contains_key(u) <==> v.threads.contains_key(u)
            &&& forall|u: u32| #[trigger] w.threads.contains_key(u) ==> w.threads[u].tid == v.threads[u].tid
            &&& forall|i: int| 0 <= i < ts.len() ==> !(w.threads[(#[trigger] ts[i]).0].state is Blocked)
            &&& forall|u: u32| #[trigger] v.threads.contains_key(u) && !(v.threads[u].state is Blocked) ==> w.threads[u] == v.threads[u]
            &&& forall|u: u32| #[trigger] v.threads.contains_key(u) && !ts.contains(Tid(u)) ==> w.threads[u] == v.threads[u]
        }),
    decreases ts.len(),
{
    if ts.len() > 0 {
        let init = ts.drop_last();
        let t = ts.last();
        assert forall|i: int| 0 <= i < init.len() implies v.threads.contains_key((#[trigger] init[i]).0) && v.threads[init[i].0].tid == init[i] by {
            assert(init[i] == ts[i]);
        }
        lemma_all_woken(v, init, this);
        let x = woken_all(v, init, this);
        let w = woken(x, t, this);
        assert(ts[ts.len() - 1] == t);
        assert(x.threads.contains_key(t.0));
        assert(x.threads[t.0].tid == t);
        assert forall|i: int| 0 <= i < ts.len() implies !(w.threads[(#[trigger] ts[i]).0].state is Blocked) by {
            if i < init.len() {
                assert(init[i] == ts[i]);
            }
        }
        assert forall|u: u32| #[trigger] v.threads.contains_key(u) && !ts.contains(Tid(u)) implies w.threads[u] == v.threads[u] by {
            assert(Tid(u) != t) by {
                assert(ts.contains(t));
            }
            assert(t == Tid(t.0));
            assert(!init.contains(Tid(u))) by {
                if init.contains(Tid(u)) {
                    let i = choose|i: int| 0 <= i < init.len() && init[i] == Tid(u);
                    assert(ts[i] == Tid(u));
                }
            }
        }
    }
}

/// Moving packets at a time hands the time over in whole microseconds. If anything comes of it that somebody may wait for, all who
/// wait for the network are woken, and nobody is left waiting; no other thread is touched.
pub proof fn law_all_waiters_are_woken<D: PollDevice>(
    net: &mut NetStateInner<D>,
    sched: &mut Scheduler,
    this: u32,
    clock: &Clock,
    tsc: u64,
    r: bool,
)
    requires
        call_ensures(NetStateInner::<D>::poll_and_wake, (net, sched, this, clock, tsc), r),
        joint_wf(old(net)@, old(sched)@),
    ensures
        ({
            let n = old(net)@;
            let v = old(sched)@;
            let w = final(sched)@;
            &&& r ==> final(net)@.waiters.len() == 0
            &&& r ==> forall|i: int| 0 <= i < n.waiters.len() ==> !(w.threads[(#[trigger] n.waiters[i]).0].state is Blocked)
            &&& forall|u: u32| #[trigger] v.threads.contains_key(u) && !n.waiters.contains(Tid(u)) ==> w.threads[u] == v.threads[u]
            &&& !r ==> w == v && final(net)@.waiters == n.waiters
            &&& final(net)@.pipetab == n.pipetab && final(net)@.socktab == n.socktab && final(net)@.epolltab == n.epolltab
            &&& n.deadline_waiters > 0 ==> r
            &&& forall|i: int| 0 <= i < final(net)@.polls.last().answers.len() && #[trigger] final(net)@.polls.last().answers[i] ==> r
            &&& final(net)@.polls.last().times.len() > 0
            &&& clock_runs(*clock, tsc) ==> exists|e: int| #[trigger]
                gone_by(*clock, tsc, e) && forall|i: int|
                    0 <= i < final(net)@.polls.last().times.len() ==> #[trigger] final(net)@.polls.last().times[i] == (e / 1000) as i64
        }),
{
    let n = old(net)@;
    let v = old(sched)@;
    assert forall|i: int| 0 <= i < n.waiters.len() implies v.threads.contains_key((#[trigger] n.waiters[i]).0) && v.threads[n.waiters[i].0].tid
        == n.waiters[i] by {
        assert(v.has(n.waiters[i]));
    }
    lemma_all_woken(v, n.waiters, this as int);
    lemma_all_woken(v, Seq::empty(), this as int);
    if clock_runs(*clock, tsc) {
        lemma_gone_by(*clock, tsc);
        assert(gone_by(*clock, tsc, elapsed_ns(*clock, tsc) as int));
    }
}

/// A thread that waits for the network is blocked and among those that wait, and another thread runs in its place; unless its time
/// is up: then it gets the answer for that.
pub proof fn law_waiting_for_the_network<D: PollDevice>(
    net: &mut NetStateInner<D>,
    sched: &mut Scheduler,
    c: u32,
    deadline_ns: Option<u64>,
    now_ns: u64,
    on_timeout: i64,
    r: Parking,
)
    requires
        call_ensures(NetStateInner::<D>::net_wait, (net, sched, c, deadline_ns, now_ns, on_timeout), r),
        joint_wf(old(net)@, old(sched)@),
        active(old(sched)@, c as int),
    ensures
        ({
            let v = old(sched)@;
            let w = final(sched)@;
            let t = v.cpus[c as int].current->0;
            let up = deadline_ns matches Some(d) && d <= now_ns;
            &&& up ==> r == Parking::Return(on_timeout) && w == v && final(net)@ == old(net)@
            &&& !up ==> {
                &&& r is Parked
                &&& w.threads[t.0].state is Blocked
                &&& w.cpus[c as int].current != Some(t)
                &&& final(net)@.waiters.contains(t)
                &&& forall|u: Tid| old(net)@.waiters.contains(u) ==> #[trigger] final(net)@.waiters.contains(u)
                &&& deadline_ns is Some && old(net)@.deadline_waiters < usize::MAX ==> final(net)@.deadline_waiters == old(net)@.deadline_waiters + 1
                &&& deadline_ns is None ==> final(net)@.deadline_waiters == old(net)@.deadline_waiters
            }
        }),
{
    let n = old(net)@;
    let v = old(sched)@;
    let c = c as int;
    let t = v.cpus[c].current->0;
    assert(v.runs_on(t, c));
    let q = v.cpus[c].queue;
    if q.len() > 0 {
        assert(v.queued_on(q[0], c));
    } else {
        assert(v.idles_on(v.cpus[c].idle->0, c));
    }
    let up = deadline_ns matches Some(d) && d <= now_ns;
    if !up {
        let m = final(net)@.waiters;
        assert(m == seq![t] + n.waiters);
        assert(m[0] == t);
        assert forall|u: Tid| n.waiters.contains(u) implies #[trigger] m.contains(u) by {
            let i = choose|i: int| 0 <= i < n.waiters.len() && n.waiters[i] == u;
            assert(m[i + 1] == u);
        }
    }
}

/// Waiting for a connection ends when it stands, with 0, or when it is refused, and only then.
pub proof fn law_connection_stands_or_is_refused<D: PollDevice>(
    net: &mut NetStateInner<D>,
    sched: &mut Scheduler,
    id: usize,
    c: u32,
    clock: &Clock,
    tsc: u64,
    r: Call,
)
    requires
        call_ensures(connect_on::<D>, (net, sched, id, c, clock, tsc), r),
        joint_wf(old(net)@, old(sched)@),
        active(old(sched)@, c as int),
        id < old(net)@.socktab.len(),
        old(net)@.socktab[id as int] matches Some(o) && o.handle is Some,
    ensures
        ({
            let h = (old(net)@.socktab[id as int]->0).handle->0;
            let b = final(net)@;
            let i = b.socks[h];
            &&& r matches Call::Return(v) ==> {
                &&& i.state is Established || i.state is CloseWait ==> v == 0
                &&& !(i.state is Established || i.state is CloseWait) ==> v == -111 && (i.state is Closed || i.state is TimeWait || i.state is Listen)
            }
            &&& !(r is Return) ==> !(i.state is Established || i.state is CloseWait || i.state is Closed)
        }),
{
}

} // verus!
