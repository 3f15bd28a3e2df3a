//! The interest set of an epoll descriptor.

use std::collections::BTreeMap;
use vstd::prelude::*;
use vstd::std_specs::btree::increasing_seq;
use vstd::std_specs::cmp::OrdSpec;
use vstd::std_specs::iter::IteratorSpec;

verus! {

broadcast use vstd::std_specs::btree::group_btree_axioms;

/// The events that a caller asked for, and the word that is handed back with them.
#[derive(Clone, Copy, Debug, PartialEq, Eq, Structural)]
pub struct EpollInterest {
    pub events: u32,
    pub data: u64,
}

/// The interest in each descriptor.
pub struct EpollInstance {
    pub interest: BTreeMap<i32, EpollInterest>,
}

impl View for EpollInstance {
    type V = Map<i32, EpollInterest>;

    open spec fn view(&self) -> Map<i32, EpollInterest> {
        self.interest@
    }
}

impl EpollInstance {
    pub fn new() -> (r: Self)
        ensures
            r@ == Map::<i32, EpollInterest>::empty(),
    {
        EpollInstance { interest: BTreeMap::new() }
    }
}

impl Default for EpollInstance {
    fn default() -> (r: Self)
        ensures
            r@ == Map::<i32, EpollInterest>::empty(),
    {
        EpollInstance::new()
    }
}

/// The keys of a map, from the lowest up.
pub open spec fn in_order(ks: Seq<i32>, m: Map<i32, EpollInterest>) -> bool {
    &&& forall|i: int, j: int| 0 <= i < j < ks.len() ==> ks[i] < ks[j]
    &&& forall|k: i32| #[trigger] m.contains_key(k) <==> ks.contains(k)
}

impl EpollInstance {
    /// The descriptors in the set, from the lowest up.
    pub fn descriptors(&self) -> (r: Vec<i32>)
        ensures
            in_order(r@, self@),
    {
        broadcast use vstd::laws_cmp::group_laws_cmp;
        let mut r: Vec<i32> = Vec::new();
        let entries = self.interest.iter();
        let ghost all = entries.remaining();
        for e in it: entries
            invariant
                it.seq() == all,
                r@.len() == it.index(),
                forall|i: int| 0 <= i < r@.len() ==> r@[i] == *all[i].0,
        {
            r.push(*e.0);
        }
        proof {
            let ks = all.map_values(|kv: (&i32, &EpollInterest)| *kv.0);
            assert(ks =~= r@);
            assert(increasing_seq(ks));
            assert(vstd::laws_cmp::obeys_cmp::<i32>());
            assert forall|i: int, j: int| 0 <= i < j < ks.len() implies ks[i] < ks[j] by {
                assert(ks[i].cmp_spec(&ks[j]) is Less);
            }
            assert forall|k: i32| #[trigger] self@.contains_key(k) <==> r@.contains(k) by {
                if self@.contains_key(k) {
                    assert(all.contains((&k, &self@[k])));
                    let i = choose|i: int| 0 <= i < all.len() && all[i] == (&k, &self@[k]);
                    assert(r@[i] == k);
                }
                if r@.contains(k) {
                    let i = choose|i: int| 0 <= i < r@.len() && r@[i] == k;
                    assert(self@.contains_key(*all[i].0));
                }
            }
        }
        r
    }
}

/// The keys of a map in order.
pub open spec fn order_of(m: Map<i32, EpollInterest>) -> Seq<i32> {
    choose|ks: Seq<i32>| in_order(ks, m)
}

/// There is only one order.
pub proof fn law_one_order(a: Seq<i32>, b: Seq<i32>, m: Map<i32, EpollInterest>)
    requires
        in_order(a, m),
        in_order(b, m),
    ensures
        a == b,
        a == order_of(m),
{
    lemma_same_prefix(a, b, m, a.len() as int);
    lemma_same_prefix(b, a, m, b.len() as int);
    assert(a =~= b);
    let o = order_of(m);
    lemma_same_prefix(a, o, m, a.len() as int);
    lemma_same_prefix(o, a, m, o.len() as int);
    assert(a =~= o);
}

proof fn lemma_same_prefix(a: Seq<i32>, b: Seq<i32>, m: Map<i32, EpollInterest>, n: int)
    requires
        in_order(a, m),
        in_order(b, m),
        0 <= n <= a.len(),
    ensures
        n <= b.len(),
        forall|i: int| 0 <= i < n ==> a[i] == b[i],
    decreases n,
{
    if n > 0 {
        lemma_same_prefix(a, b, m, n - 1);
        let k = a[n - 1];
        assert(a.contains(k));
        assert(m.contains_key(k));
        assert(b.contains(k));
        let j = choose|j: int| 0 <= j < b.len() && b[j] == k;
        assert(j >= n - 1) by {
            if j < n - 1 {
                assert(a[j] == k && a[j] < a[n - 1]);
            }
        }
        if j > n - 1 {
            let x = b[n - 1];
            assert(b.contains(x));
            assert(m.contains_key(x));
            assert(a.contains(x));
            let i = choose|i: int| 0 <= i < a.len() && a[i] == x;
            assert(x < k);
            assert(i < n - 1);
            assert(b[i] == x && b[i] < b[n - 1]);
        }
    }
}

impl EpollInstance {
    /// What is of interest of a descriptor.
    pub fn get(&self, fd: i32) -> (r: Option<EpollInterest>)
        ensures
            r is Some <==> self@.contains_key(fd),
            r matches Some(i) ==> i == self@[fd],
    {
        broadcast use vstd::laws_cmp::group_laws_cmp;
        match self.interest.get(&fd) {
            Some(i) => Some(*i),
            None => None,
        }
    }

    /// Sets what is of interest of a descriptor.
    pub fn put(&mut self, fd: i32, want: EpollInterest)
        ensures
            final(self)@ == old(self)@.insert(fd, want),
    {
        broadcast use vstd::laws_cmp::group_laws_cmp;
        self.interest.insert(fd, want);
    }

    /// Takes a descriptor out of the set. Gives back whether it was there.
    pub fn take(&mut self, fd: i32) -> (r: bool)
        ensures
            r == old(self)@.contains_key(fd),
            final(self)@ == old(self)@.remove(fd),
    {
        broadcast use vstd::laws_cmp::group_laws_cmp;
        self.interest.remove(&fd).is_some()
    }
}

} // verus!
