//! Threads that wait for a word in memory to change.

use vstd::prelude::*;

use super::scheduler::{
    active, keeps_places, lemma_thread_change, rescheduled, switch_of, woken_all, Parking, Sched, Scheduler,
    Switch,
};
use super::thread::{Thread, ThreadState, Tid, WaitLink};
use crate::memory::access::{from_le32, range, read_u32, within, Memory};
use crate::syscall::errno::{EAGAIN, EINVAL};

verus! {

/// Number of queues over which waiting threads are spread.
pub const FUTEX_BUCKETS: usize = 256;

/// Factor by which addresses are hashed.
pub const FUTEX_HASH: u64 = 0x9E37_79B9_7F4A_7C15;

/// The bits that a plain wait waits for: all of them.
pub const ALL_BITS: u32 = 0xffff_ffff;

/// Threads that wait, the latest first.
pub struct FutexBucket {
    waiters: Vec<Tid>,
}

impl View for FutexBucket {
    type V = Seq<Tid>;

    closed spec fn view(&self) -> Seq<Tid> {
        self.waiters@
    }
}

impl FutexBucket {
    pub fn new() -> (r: Self)
        ensures
            r@ == Seq::<Tid>::empty(),
    {
        FutexBucket { waiters: Vec::new() }
    }

    fn push(&mut self, t: Tid)
        ensures
            final(self)@ == seq![t] + old(self)@,
    {
        self.waiters.insert(0, t);
        assert(self@ =~= seq![t] + old(self)@);
    }
}

impl Default for FutexBucket {
    fn default() -> (r: Self)
        ensures
            r@ == Seq::<Tid>::empty(),
    {
        FutexBucket::new()
    }
}

/// The bucket of an address: the product of the address, without its two lowest bits,
/// and a constant, modulo the number of buckets.
pub open spec fn bucket_of(uaddr: u64) -> int {
    ((uaddr / 4) * FUTEX_HASH) % (FUTEX_BUCKETS as int)
}

/// The index of the bucket of `uaddr`.
pub fn bucket_for(uaddr: u64) -> (b: usize)
    ensures
        b == bucket_of(uaddr),
        b < FUTEX_BUCKETS,
{
    let h: u64 = (uaddr >> 2).wrapping_mul(FUTEX_HASH);
    proof {
        assert(uaddr >> 2 == uaddr / 4) by (bit_vector);
        assert(h & 255 == h % 256) by (bit_vector);
        let p: int = (uaddr / 4) * FUTEX_HASH;
        assert((p % 0x1_0000_0000_0000_0000) % 256 == p % 256) by (nonlinear_arith);
    }
    (h & (FUTEX_BUCKETS as u64 - 1)) as usize
}

/// The scheduler after the thread on CPU `c` began to wait at `uaddr`.
pub open spec fn parked(v: Sched, c: int, uaddr: u64, bitset: u32) -> Sched {
    let t = v.cpus[c].current->0;
    let b = bucket_of(uaddr);
    let w = v.with_thread((Thread { wait_link: WaitLink { uaddr, bitset }, state: ThreadState::Blocked, ..v.thread(t) }));
    Sched { buckets: v.buckets.update(b, seq![t] + v.buckets[b]), ..w }
}

/// The thread waits at `uaddr` for one of the bits of `bitset`.
pub open spec fn waits_for(t: Thread, uaddr: u64, bitset: u32) -> bool {
    t.wait_link.uaddr == uaddr && t.wait_link.bitset & bitset != 0
}

/// The first `max` threads of the list that wait at `uaddr` for one of the bits.
pub open spec fn picked(threads: Map<u32, Thread>, list: Seq<Tid>, uaddr: u64, bitset: Option<u32>, max: int) -> Seq<Tid>
    decreases list.len(),
{
    if max <= 0 || list.len() == 0 {
        Seq::empty()
    } else if fits(threads[list[0].0], uaddr, bitset) {
        seq![list[0]] + picked(threads, list.drop_first(), uaddr, bitset, max - 1)
    } else {
        picked(threads, list.drop_first(), uaddr, bitset, max)
    }
}

/// The other threads of the list.
pub open spec fn passed_over(threads: Map<u32, Thread>, list: Seq<Tid>, uaddr: u64, bitset: Option<u32>, max: int) -> Seq<Tid>
    decreases list.len(),
{
    if max <= 0 || list.len() == 0 {
        list
    } else if fits(threads[list[0].0], uaddr, bitset) {
        passed_over(threads, list.drop_first(), uaddr, bitset, max - 1)
    } else {
        seq![list[0]] + passed_over(threads, list.drop_first(), uaddr, bitset, max)
    }
}

/// The thread waits at `uaddr`, and for one of the bits if any are given.
pub open spec fn fits(t: Thread, uaddr: u64, bitset: Option<u32>) -> bool {
    match bitset {
        None => t.wait_link.uaddr == uaddr,
        Some(b) => waits_for(t, uaddr, b),
    }
}

/// How many threads of the list wait at `uaddr` for one of the bits.
pub open spec fn count_waiting(threads: Map<u32, Thread>, list: Seq<Tid>, uaddr: u64, bitset: Option<u32>) -> int
    decreases list.len(),
{
    if list.len() == 0 {
        0
    } else {
        count_waiting(threads, list.drop_first(), uaddr, bitset) + if fits(threads[list[0].0], uaddr, bitset) { 1int } else { 0int }
    }
}

/// The scheduler after the threads that wait at `uaddr` left the queue.
pub open spec fn unlinked(v: Sched, uaddr: u64, bitset: Option<u32>, max: int) -> Sched {
    let b = bucket_of(uaddr);
    Sched { buckets: v.buckets.update(b, passed_over(v.threads, v.buckets[b], uaddr, bitset, max)), ..v }
}

/// The threads that a wake at `uaddr` picks.
pub open spec fn wakes(v: Sched, uaddr: u64, bitset: Option<u32>, max: int) -> Seq<Tid> {
    picked(v.threads, v.buckets[bucket_of(uaddr)], uaddr, bitset, max)
}

/// Of the threads that wait for the address, as many are picked as are asked for; if
/// there are fewer, all of them.
pub proof fn law_wake_picks(threads: Map<u32, Thread>, list: Seq<Tid>, uaddr: u64, bitset: Option<u32>, max: int)
    requires
        max >= 0,
    ensures
        picked(threads, list, uaddr, bitset, max).len() == (if count_waiting(threads, list, uaddr, bitset) <= max {
            count_waiting(threads, list, uaddr, bitset)
        } else {
            max
        }),
        picked(threads, list, uaddr, bitset, max).len() + passed_over(threads, list, uaddr, bitset, max).len() == list.len(),
        forall|i: int|
            0 <= i < picked(threads, list, uaddr, bitset, max).len() ==> fits(
                threads[(#[trigger] picked(threads, list, uaddr, bitset, max)[i]).0],
                uaddr,
                bitset,
            ),
        count_waiting(threads, list, uaddr, bitset) >= 0,
    decreases list.len(),
{
    if list.len() > 0 {
        let rest = list.drop_first();
        law_wake_picks(threads, rest, uaddr, bitset, max);
        if max > 0 {
            law_wake_picks(threads, rest, uaddr, bitset, max - 1);
            if fits(threads[list[0].0], uaddr, bitset) {
                let p = picked(threads, rest, uaddr, bitset, max - 1);
                let q = picked(threads, list, uaddr, bitset, max);
                assert(q == seq![list[0]] + p);
                assert forall|i: int| 0 <= i < q.len() implies fits(threads[(#[trigger] q[i]).0], uaddr, bitset) by {
                    if i > 0 {
                        assert(q[i] == p[i - 1]);
                    }
                }
            }
        }
    }
}

/// The two parts of a list without repetitions have no thread in common, and are made up of the list.
pub proof fn lemma_parts(threads: Map<u32, Thread>, list: Seq<Tid>, uaddr: u64, bitset: Option<u32>, max: int)
    requires
        list.no_duplicates(),
    ensures
        passed_over(threads, list, uaddr, bitset, max).no_duplicates(),
        forall|t: Tid| #[trigger] passed_over(threads, list, uaddr, bitset, max).contains(t) ==> list.contains(t),
        forall|t: Tid| #[trigger]
            picked(threads, list, uaddr, bitset, max).contains(t) ==> list.contains(t) && !passed_over(
                threads,
                list,
                uaddr,
                bitset,
                max,
            ).contains(t),
    decreases list.len(),
{
    if max > 0 && list.len() > 0 {
        let rest = list.drop_first();
        let fit = fits(threads[list[0].0], uaddr, bitset);
        let m = if fit { max - 1 } else { max };
        assert(rest.no_duplicates());
        lemma_parts(threads, rest, uaddr, bitset, m);
        let p = picked(threads, list, uaddr, bitset, max);
        let k = passed_over(threads, list, uaddr, bitset, max);
        let p1 = picked(threads, rest, uaddr, bitset, m);
        let k1 = passed_over(threads, rest, uaddr, bitset, m);
        assert(!rest.contains(list[0])) by {
            if rest.contains(list[0]) {
                let i = choose|i: int| 0 <= i < rest.len() && rest[i] == list[0];
                assert(list[i + 1] == list[0]);
            }
        }
        assert forall|t: Tid| rest.contains(t) implies list.contains(t) by {
            let i = choose|i: int| 0 <= i < rest.len() && rest[i] == t;
            assert(list[i + 1] == t);
        }
        if fit {
            assert(p == seq![list[0]] + p1 && k == k1);
            assert forall|t: Tid| #[trigger] p.contains(t) implies list.contains(t) && !k.contains(t) by {
                let i = choose|i: int| 0 <= i < p.len() && p[i] == t;
                if i > 0 {
                    assert(p1[i - 1] == t);
                    assert(p1.contains(t));
                } else {
                    assert(t == list[0]);
                }
            }
        } else {
            assert(k == seq![list[0]] + k1 && p == p1);
            assert forall|t: Tid| #[trigger] k.contains(t) implies list.contains(t) && (t == list[0] || k1.contains(t)) by {
                let i = choose|i: int| 0 <= i < k.len() && k[i] == t;
                if i > 0 {
                    assert(k1[i - 1] == t);
                    assert(k1.contains(t));
                }
            }
            assert(!k1.contains(list[0]));
            assert forall|i: int, j: int| 0 <= i < k.len() && 0 <= j < k.len() && i != j implies k[i] != k[j] by {
                if i == 0 {
                    assert(k1.contains(k1[j - 1]));
                } else if j == 0 {
                    assert(k1.contains(k1[i - 1]));
                } else {
                    assert(k1[i - 1] != k1[j - 1]);
                }
            }
        }
    }
}

/// Leaving the queue keeps what always holds, and those who left wait nowhere.
pub proof fn lemma_unlinked(v: Sched, uaddr: u64, bitset: Option<u32>, max: int)
    requires
        v.wf(),
        v.settled(),
    ensures
        unlinked(v, uaddr, bitset, max).wf(),
        unlinked(v, uaddr, bitset, max).settled(),
        forall|u: Tid, d: int| #[trigger] unlinked(v, uaddr, bitset, max).waits_in(u, d) ==> v.waits_in(u, d),
        forall|i: int|
            0 <= i < wakes(v, uaddr, bitset, max).len() ==> v.has(#[trigger] wakes(v, uaddr, bitset, max)[i]) && unlinked(
                v,
                uaddr,
                bitset,
                max,
            ).off_futexes(wakes(v, uaddr, bitset, max)[i]),
{
    let b = bucket_of(uaddr);
    let w = unlinked(v, uaddr, bitset, max);
    let list = v.buckets[b];
    let p = wakes(v, uaddr, bitset, max);
    assert(0 <= b < FUTEX_BUCKETS);
    assert(v.buckets[b].no_duplicates());
    lemma_parts(v.threads, list, uaddr, bitset, max);
    assert forall|u: Tid, d: int| #[trigger] w.waits_in(u, d) implies v.waits_in(u, d) by {
        if d == b {
            assert(passed_over(v.threads, list, uaddr, bitset, max).contains(u));
        }
    }
    assert forall|u: Tid, d: int| #[trigger] w.queued_on(u, d) <==> v.queued_on(u, d) by {}
    assert forall|u: Tid, d: int| #[trigger] w.runs_on(u, d) <==> v.runs_on(u, d) by {}
    assert forall|u: Tid, d: int| #[trigger] w.idles_on(u, d) <==> v.idles_on(u, d) by {}
    assert forall|i: int| 0 <= i < p.len() implies v.has(#[trigger] p[i]) && w.off_futexes(p[i]) by {
        let t = p[i];
        assert(p.contains(t));
        assert(v.waits_in(t, b));
        assert forall|d: int| !w.waits_in(t, d) by {
            if w.waits_in(t, d) {
                assert(v.waits_in(t, d));
                assert(d == b);
            }
        }
    }
    assert(w.registered());
    assert(w.states_agree());
    assert(w.places_differ());
}

/// Beginning to wait keeps what always holds.
pub proof fn lemma_parked(v: Sched, c: int, uaddr: u64, bitset: u32)
    requires
        v.wf(),
        v.settled(),
        active(v, c),
    ensures
        parked(v, c, uaddr, bitset).wf(),
        parked(v, c, uaddr, bitset).settled(),
        parked(v, c, uaddr, bitset).waits_in(v.cpus[c].current->0, bucket_of(uaddr)),
{
    let t = v.cpus[c].current->0;
    let b = bucket_of(uaddr);
    let d = Thread { wait_link: WaitLink { uaddr, bitset }, state: ThreadState::Blocked, ..v.thread(t) };
    let m = v.with_thread(d);
    let w = parked(v, c, uaddr, bitset);
    assert(v.runs_on(t, c));
    assert(d.tid == t);
    assert forall|e: int| !v.idles_on(t, e) by {
        if v.idles_on(t, e) {
            assert(e == c);
        }
    }
    assert(!v.zombies.contains(t)) by {
        if v.zombies.contains(t) {
            let k = choose|k: int| 0 <= k < v.zombies.len() && v.zombies[k] == t;
            assert(v.thread(v.zombies[k]).state is Exited);
        }
    }
    lemma_thread_change(v, d);
    let list = v.buckets[b];
    let grown = seq![t] + list;
    assert(0 <= b < FUTEX_BUCKETS);
    assert(!v.waits_in(t, b));
    assert forall|u: Tid, e: int| #[trigger] w.waits_in(u, e) <==> v.waits_in(u, e) || (u == t && e == b) by {
        if e == b {
            if grown.contains(u) && u != t {
                let k = choose|k: int| 0 <= k < grown.len() && grown[k] == u;
                assert(list[k - 1] == u);
            }
            if list.contains(u) {
                let k = choose|k: int| 0 <= k < list.len() && list[k] == u;
                assert(grown[k + 1] == u);
            }
            assert(grown[0] == t);
        }
    }
    assert(grown.no_duplicates()) by {
        assert(list.no_duplicates());
        assert forall|i: int, j: int| 0 <= i < grown.len() && 0 <= j < grown.len() && i != j implies grown[i] != grown[j] by {
            if i == 0 {
                assert(list.contains(list[j - 1]));
            } else if j == 0 {
                assert(list.contains(list[i - 1]));
            } else {
                assert(list[i - 1] != list[j - 1]);
            }
        }
    }
    assert forall|u: Tid, e: int| #[trigger] w.queued_on(u, e) <==> v.queued_on(u, e) by {}
    assert forall|u: Tid, e: int| #[trigger] w.runs_on(u, e) <==> v.runs_on(u, e) by {}
    assert forall|u: Tid, e: int| #[trigger] w.idles_on(u, e) <==> v.idles_on(u, e) by {}
    assert forall|i: int| 0 <= i < w.zombies.len() implies w.has(#[trigger] w.zombies[i]) && w.thread(w.zombies[i]).state is Exited by {
        assert(m.has(m.zombies[i]));
    }
    assert(w.registered());
    assert(w.states_agree());
    assert(w.places_differ());
}

/// The word that the user has at `uaddr`.
pub open spec fn user_word<M: Memory>(um: &M, uaddr: u64) -> int {
    from_le32(range(um, uaddr as int, 4))
}

/// The user's memory has a word at `uaddr`.
pub open spec fn has_word<M: Memory>(um: &M, uaddr: u64) -> bool {
    within(um, uaddr as int, 4) && uaddr + 4 <= u64::MAX
}

impl Scheduler {
    fn park(&mut self, c: u32, uaddr: u64, bitset: u32) -> (r: Option<Switch>)
        requires
            old(self)@.wf(),
            old(self)@.settled(),
            active(old(self)@, c as int),
        ensures
            final(self)@ == rescheduled(parked(old(self)@, c as int, uaddr, bitset), c as int),
            r == switch_of(parked(old(self)@, c as int, uaddr, bitset), c as int),
            final(self)@.wf(),
            final(self)@.settled(),
    {
        let ghost v = self@;
        let mut me = self.current_thread(c);
        proof {
            lemma_parked(v, c as int, uaddr, bitset);
            assert(v.runs_on(me.tid, c as int));
        }
        me.wait_link = WaitLink { uaddr, bitset };
        me.state = ThreadState::Blocked;
        self.set_thread(me);
        let b: usize = bucket_for(uaddr);
        assert(self@.buckets.len() == self.futexes@.len());
        {
            let bucket = &mut self.futexes[b];
            bucket.push(me.tid);
        }
        assert(self@.buckets =~= parked(v, c as int, uaddr, bitset).buckets);
        assert(self@ =~= parked(v, c as int, uaddr, bitset));
        self.schedule(c)
    }

    fn take_waiters(&mut self, uaddr: u64, bitset: Option<u32>, max: u32) -> (r: Vec<Tid>)
        requires
            old(self)@.wf(),
            old(self)@.settled(),
        ensures
            r@ == wakes(old(self)@, uaddr, bitset, max as int),
            final(self)@ == unlinked(old(self)@, uaddr, bitset, max as int),
    {
        let ghost v = self@;
        let b: usize = bucket_for(uaddr);
        let ghost list = v.buckets[b as int];
        assert(list == self.futexes@[b as int]@);
        assert(list == self.futexes@[b as int].waiters@);
        let mut out: Vec<Tid> = Vec::new();
        let mut kept: Vec<Tid> = Vec::new();
        let n: usize = self.futexes[b].waiters.len();
        let mut i: usize = 0;
        assert(list.skip(0) =~= list);
        assert(out@ + picked(v.threads, list, uaddr, bitset, max as int) =~= picked(v.threads, list, uaddr, bitset, max as int));
        assert(kept@ + passed_over(v.threads, list, uaddr, bitset, max as int) =~= passed_over(
            v.threads,
            list,
            uaddr,
            bitset,
            max as int,
        ));
        while i < n
            invariant
                self@ == v,
                v.wf(),
                i <= n == list.len(),
                b < FUTEX_BUCKETS,
                b == bucket_of(uaddr),
                list == v.buckets[b as int],
                list == self.futexes@[b as int].waiters@,
                self.futexes@.len() == FUTEX_BUCKETS,
                out@.len() <= max,
                out@ + picked(v.threads, list.skip(i as int), uaddr, bitset, max - out@.len()) == picked(
                    v.threads,
                    list,
                    uaddr,
                    bitset,
                    max as int,
                ),
                kept@ + passed_over(v.threads, list.skip(i as int), uaddr, bitset, max - out@.len()) == passed_over(
                    v.threads,
                    list,
                    uaddr,
                    bitset,
                    max as int,
                ),
            decreases n - i,
        {
            let t: Tid = self.futexes[b].waiters[i];
            let ghost rest = list.skip(i as int);
            let ghost m = max - out@.len();
            let ghost (out0, kept0) = (out@, kept@);
            proof {
                assert(list.contains(t));
                assert(v.waits_in(t, b as int));
                assert(rest.drop_first() =~= list.skip(i + 1));
                assert(rest[0] == t);
            }
            let d = self.thread(t);
            let hit: bool = d.wait_link.uaddr == uaddr && match bitset {
                None => true,
                Some(bits) => d.wait_link.bitset & bits != 0,
            };
            let room: usize = out.len();
            if (room as u64) < max as u64 && hit {
                out.push(t);
                assert(out0 + (seq![t] + picked(v.threads, list.skip(i + 1), uaddr, bitset, m - 1)) =~= out@ + picked(
                    v.threads,
                    list.skip(i + 1),
                    uaddr,
                    bitset,
                    m - 1,
                ));
            } else {
                kept.push(t);
                proof {
                    if m > 0 {
                        assert(kept0 + (seq![t] + passed_over(v.threads, list.skip(i + 1), uaddr, bitset, m)) =~= kept@
                            + passed_over(v.threads, list.skip(i + 1), uaddr, bitset, m));
                    } else {
                        assert(kept0 + rest =~= kept@ + list.skip(i + 1));
                    }
                }
            }
            i += 1;
        }
        proof {
            assert(list.skip(n as int) =~= Seq::<Tid>::empty());
            let p0 = picked(v.threads, Seq::<Tid>::empty(), uaddr, bitset, max - out@.len());
            let k0 = passed_over(v.threads, Seq::<Tid>::empty(), uaddr, bitset, max - out@.len());
            assert(p0.len() == 0 && k0.len() == 0);
            assert(out@ + p0 =~= out@);
            assert(kept@ + k0 =~= kept@);
        }
        self.futexes.set(b, FutexBucket { waiters: kept });
        assert(self@.buckets =~= unlinked(v, uaddr, bitset, max as int).buckets);
        out
    }
}

/// Parks the thread on CPU `c` if the word at `uaddr` is `expected`, until a wake at
/// the same address.
pub fn wait<M: Memory>(sched: &mut Scheduler, um: &M, c: u32, uaddr: u64, expected: u32) -> (r: Parking)
    requires
        old(sched)@.wf(),
        old(sched)@.settled(),
        active(old(sched)@, c as int),
        has_word(um, uaddr),
    ensures
        user_word(um, uaddr) != expected ==> r == Parking::Return(EAGAIN) && final(sched)@ == old(sched)@,
        user_word(um, uaddr) == expected ==> {
            let p = parked(old(sched)@, c as int, uaddr, ALL_BITS);
            r == Parking::Parked(switch_of(p, c as int)) && final(sched)@ == rescheduled(p, c as int)
        },
        final(sched)@.wf(),
        final(sched)@.settled(),
{
    let cur: u32 = read_u32(um, uaddr);
    if cur != expected {
        return Parking::Return(EAGAIN);
    }
    Parking::Parked(sched.park(c, uaddr, ALL_BITS))
}

/// Like `wait`, until a wake for one of the bits of `bitset`.
pub fn wait_bitset<M: Memory>(sched: &mut Scheduler, um: &M, c: u32, uaddr: u64, expected: u32, bitset: u32) -> (r: Parking)
    requires
        old(sched)@.wf(),
        old(sched)@.settled(),
        active(old(sched)@, c as int),
        bitset != 0 ==> has_word(um, uaddr),
    ensures
        bitset == 0 ==> r == Parking::Return(EINVAL) && final(sched)@ == old(sched)@,
        bitset != 0 && user_word(um, uaddr) != expected ==> r == Parking::Return(EAGAIN) && final(sched)@ == old(sched)@,
        bitset != 0 && user_word(um, uaddr) == expected ==> {
            let p = parked(old(sched)@, c as int, uaddr, bitset);
            r == Parking::Parked(switch_of(p, c as int)) && final(sched)@ == rescheduled(p, c as int)
        },
        final(sched)@.wf(),
        final(sched)@.settled(),
{
    if bitset == 0 {
        return Parking::Return(EINVAL);
    }
    let cur: u32 = read_u32(um, uaddr);
    if cur != expected {
        return Parking::Return(EAGAIN);
    }
    Parking::Parked(sched.park(c, uaddr, bitset))
}

/// What a wait returns once the thread on CPU `c` runs again.
pub fn resumed(sched: &mut Scheduler, c: u32) -> (r: i64)
    requires
        old(sched)@.wf(),
        old(sched)@.settled(),
        active(old(sched)@, c as int),
    ensures
        r == 0,
        final(sched)@ == old(sched)@.with_thread(
            (Thread {
                wait_link: WaitLink {
                    uaddr: 0,
                    bitset: old(sched)@.thread(old(sched)@.cpus[c as int].current->0).wait_link.bitset,
                },
                ..old(sched)@.thread(old(sched)@.cpus[c as int].current->0)
            }),
        ),
        final(sched)@.wf(),
        final(sched)@.settled(),
{
    let ghost v = sched@;
    let mut me = sched.current_thread(c);
    me.wait_link = WaitLink { uaddr: 0, bitset: me.wait_link.bitset };
    proof {
        assert(v.runs_on(me.tid, c as int));
        lemma_thread_change(v, me);
    }
    sched.set_thread(me);
    0
}

/// Wakes up to `max` threads that wait at `uaddr`, the latest first. Gives back how many.
pub fn wake(sched: &mut Scheduler, this: u32, uaddr: u64, max: u32) -> (r: i64)
    requires
        old(sched)@.wf(),
        old(sched)@.settled(),
        old(sched)@.online(this as int),
    ensures
        ({
            let ts = wakes(old(sched)@, uaddr, None, max as int);
            let u = unlinked(old(sched)@, uaddr, None, max as int);
            &&& r == ts.len()
            &&& final(sched)@ == woken_all(u, ts, this as int)
        }),
        final(sched)@.wf(),
        final(sched)@.settled(),
        keeps_places(old(sched)@, final(sched)@),
        forall|u: Tid, d: int| #[trigger] final(sched)@.waits_in(u, d) ==> old(sched)@.waits_in(u, d),
{
    proof {
        lemma_unlinked(sched@, uaddr, None, max as int);
        law_wake_picks(sched@.threads, sched@.buckets[bucket_of(uaddr)], uaddr, None, max as int);
    }
    let ts = sched.take_waiters(uaddr, None, max);
    let ghost u = sched@;
    let n: usize = ts.len();
    sched.wake_list(&ts, this);
    assert forall|t: Tid, d: int| #[trigger] sched@.waits_in(t, d) implies old(sched)@.waits_in(t, d) by {
        assert(u.waits_in(t, d));
    }
    n as i64
}

/// Like `wake`, for the threads that wait for one of the bits of `bitset`.
pub fn wake_bitset(sched: &mut Scheduler, this: u32, uaddr: u64, max: u32, bitset: u32) -> (r: i64)
    requires
        old(sched)@.wf(),
        old(sched)@.settled(),
        old(sched)@.online(this as int),
    ensures
        ({
            let ts = wakes(old(sched)@, uaddr, Some(bitset), max as int);
            let u = unlinked(old(sched)@, uaddr, Some(bitset), max as int);
            &&& r == ts.len()
            &&& final(sched)@ == woken_all(u, ts, this as int)
        }),
        final(sched)@.wf(),
        final(sched)@.settled(),
        keeps_places(old(sched)@, final(sched)@),
        forall|u: Tid, d: int| #[trigger] final(sched)@.waits_in(u, d) ==> old(sched)@.waits_in(u, d),
{
    proof {
        lemma_unlinked(sched@, uaddr, Some(bitset), max as int);
        law_wake_picks(sched@.threads, sched@.buckets[bucket_of(uaddr)], uaddr, Some(bitset), max as int);
    }
    let ts = sched.take_waiters(uaddr, Some(bitset), max);
    let ghost u = sched@;
    let n: usize = ts.len();
    sched.wake_list(&ts, this);
    assert forall|t: Tid, d: int| #[trigger] sched@.waits_in(t, d) implies old(sched)@.waits_in(t, d) by {
        assert(u.waits_in(t, d));
    }
    n as i64
}

/// A thread that waits at an address is the one that the next wake there picks, whichever others wait: the last to wait is
/// the first in the list. A wake for bits that it does not wait for, or at another address, passes it over.
pub proof fn law_waiter_is_woken(v: Sched, c: int, uaddr: u64, bitset: u32, max: int)
    requires
        v.wf(),
        0 <= c < v.cpus.len(),
        v.cpus[c].current is Some,
        max >= 1,
    ensures
        ({
            let t = v.cpus[c].current->0;
            let w = parked(v, c, uaddr, bitset);
            &&& wakes(w, uaddr, None, max).len() >= 1 && wakes(w, uaddr, None, max)[0] == t
            &&& forall|b: u32|
                #[trigger] (b & bitset) != 0 ==> wakes(w, uaddr, Some(b), max).len() >= 1 && wakes(w, uaddr, Some(b), max)[0] == t
            &&& forall|b: u32|
                #[trigger] (b & bitset) == 0 ==> passed_over(
                    w.threads,
                    w.buckets[bucket_of(uaddr)],
                    uaddr,
                    Some(b),
                    max,
                ).contains(t)
            &&& forall|other: u64|
                other != uaddr && #[trigger] bucket_of(other) == bucket_of(uaddr) ==> passed_over(
                    w.threads,
                    w.buckets[bucket_of(other)],
                    other,
                    None,
                    max,
                ).contains(t)
        }),
{
    let t = v.cpus[c].current->0;
    let w = parked(v, c, uaddr, bitset);
    let i = bucket_of(uaddr);
    let list = w.buckets[i];
    assert(0 <= i < FUTEX_BUCKETS);
    assert(list == seq![t] + v.buckets[i]);
    assert(list[0] == t);
    assert(v.runs_on(t, c));
    assert(v.thread(t).tid == t);
    assert(w.threads[t.0].wait_link == (WaitLink { uaddr, bitset }));
    assert forall|b: u32| #[trigger] (b & bitset) != 0 implies wakes(w, uaddr, Some(b), max).len() >= 1 && wakes(
        w,
        uaddr,
        Some(b),
        max,
    )[0] == t by {
        assert(bitset & b == b & bitset) by (bit_vector);
    }
    assert forall|b: u32| #[trigger] (b & bitset) == 0 implies passed_over(w.threads, list, uaddr, Some(b), max).contains(t) by {
        assert(bitset & b == b & bitset) by (bit_vector);
        let p = passed_over(w.threads, list, uaddr, Some(b), max);
        assert(p[0] == t);
    }
    assert forall|other: u64| other != uaddr && #[trigger] bucket_of(other) == i implies passed_over(
        w.threads,
        list,
        other,
        None,
        max,
    ).contains(t) by {
        let p = passed_over(w.threads, list, other, None, max);
        assert(p[0] == t);
    }
}

} // verus!
