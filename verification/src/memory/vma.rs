//! The table of the user's mappings.

use vstd::prelude::*;

use crate::address::VirtualAddr;
use crate::bits::{align_down, is_pow2, law_round_down, round_down};

verus! {

/// What the pages of a mapping hold.
#[derive(Clone, Copy, Debug, PartialEq, Eq, Structural)]
pub enum MappingBacking {
    Anonymous,
    AnonymousSmall,
    Dax { dax_offset: u64, fuse_fh: u64, fuse_nodeid: u64, file_offset: u64 },
    PrivateFile { fuse_fh: u64, fuse_nodeid: u64 },
}

/// One mapping of the user's address space.
#[derive(Clone, Copy, Debug, PartialEq, Eq, Structural)]
pub struct Vma {
    pub start: VirtualAddr,
    /// Exclusive end address.
    pub end: VirtualAddr,
    pub backing: MappingBacking,
}

impl Vma {
    /// The mapping shares an address with `lo .. hi`.
    pub open spec fn overlaps(self, lo: int, hi: int) -> bool {
        lo < self.end.0 && hi > self.start.0
    }

    /// The mapping holds `addr`.
    pub open spec fn holds(self, addr: int) -> bool {
        self.start.0 <= addr < self.end.0
    }
}

/// The mappings, in no particular order.
pub struct VmaTable {
    vmas: Vec<Vma>,
}

/// `s` with its last item in place of item `i`.
pub open spec fn swap_removed(s: Seq<Vma>, i: int) -> Seq<Vma> {
    s.update(i, s.last()).drop_last()
}

/// The first mapping, from index `from` on, that starts at `start`.
pub open spec fn index_of_start(s: Seq<Vma>, start: u64, from: int) -> Option<int>
    decreases s.len() - from,
{
    if from >= s.len() {
        None
    } else if s[from].start.0 == start {
        Some(from)
    } else {
        index_of_start(s, start, from + 1)
    }
}

/// The first mapping, from index `from` on, that holds `addr`.
pub open spec fn index_of_holder(s: Seq<Vma>, addr: int, from: int) -> Option<int>
    decreases s.len() - from,
{
    if from >= s.len() {
        None
    } else if s[from].holds(addr) {
        Some(from)
    } else {
        index_of_holder(s, addr, from + 1)
    }
}

/// The first mapping, from index `from` on, that overlaps `lo .. hi`.
pub open spec fn index_of_overlap(s: Seq<Vma>, lo: int, hi: int, from: int) -> Option<int>
    decreases s.len() - from,
{
    if from >= s.len() {
        None
    } else if s[from].overlaps(lo, hi) {
        Some(from)
    } else {
        index_of_overlap(s, lo, hi, from + 1)
    }
}

/// The search for a free range, downwards from `end`: the highest slot that fits is taken
/// if it is free, else the search goes on below the first mapping that is in its way.
pub open spec fn search_down(s: Seq<Vma>, end: int, len: int, align: int) -> Option<int>
    decreases end,
{
    if end < len || len <= 0 || align <= 0 {
        None
    } else {
        let start = round_down(end - len, align);
        match index_of_overlap(s, start, start + len, 0) {
            None => Some(start),
            Some(i) => {
                proof {
                    lemma_overlap_index(s, start, start + len, 0);
                    law_round_down(end - len, align);
                }
                search_down(s, s[i].start.0 as int, len, align)
            },
        }
    }
}

/// The overlapping mapping that is found exists, and none before it overlaps.
pub proof fn lemma_overlap_index(s: Seq<Vma>, lo: int, hi: int, from: int)
    requires
        0 <= from,
    ensures
        match index_of_overlap(s, lo, hi, from) {
            Some(i) => from <= i < s.len() && s[i].overlaps(lo, hi),
            None => forall|k: int| from <= k < s.len() ==> !(#[trigger] s[k]).overlaps(lo, hi),
        },
    decreases s.len() - from,
{
    if from < s.len() && !s[from].overlaps(lo, hi) {
        lemma_overlap_index(s, lo, hi, from + 1);
    }
}

/// Nothing is mapped in `start .. start + len`, which starts at a multiple of `align`.
pub open spec fn free_slot(s: Seq<Vma>, start: int, len: int, align: int) -> bool {
    &&& 0 <= start
    &&& start % align == 0
    &&& forall|k: int| 0 <= k < s.len() ==> !(#[trigger] s[k]).overlaps(start, start + len)
}

/// What the search finds is free, aligned, and ends by `end`.
pub proof fn law_found_range_is_free(s: Seq<Vma>, end: int, len: int, align: int)
    requires
        0 < len,
        0 < align,
        0 <= end,
    ensures
        search_down(s, end, len, align) matches Some(start) ==> free_slot(s, start, len, align) && start + len <= end,
    decreases end,
{
    if end >= len {
        let start = round_down(end - len, align);
        law_round_down(end - len, align);
        lemma_overlap_index(s, start, start + len, 0);
        match index_of_overlap(s, start, start + len, 0) {
            None => {},
            Some(i) => {
                law_found_range_is_free(s, s[i].start.0 as int, len, align);
            },
        }
    }
}

/// No free slot below `end` lies higher than the one found, and none exists if none is found.
pub proof fn law_found_range_is_highest(s: Seq<Vma>, end: int, len: int, align: int, other: int)
    requires
        0 < len,
        0 < align,
        free_slot(s, other, len, align),
        other + len <= end,
    ensures
        search_down(s, end, len, align) matches Some(start) && other <= start,
    decreases end,
{
    let start = round_down(end - len, align);
    law_round_down(end - len, align);
    lemma_multiple_below(other, end - len, align);
    lemma_overlap_index(s, start, start + len, 0);
    match index_of_overlap(s, start, start + len, 0) {
        None => {},
        Some(i) => {
            assert(!s[i].overlaps(other, other + len));
            law_found_range_is_highest(s, s[i].start.0 as int, len, align, other);
        },
    }
}

/// A multiple of `m` that is not above `a` is not above `a` rounded down either.
proof fn lemma_multiple_below(x: int, a: int, m: int)
    requires
        0 <= x <= a,
        0 < m,
        x % m == 0,
    ensures
        x <= round_down(a, m),
{
    vstd::arithmetic::div_mod::lemma_fundamental_div_mod(x, m);
    vstd::arithmetic::div_mod::lemma_fundamental_div_mod(a, m);
    vstd::arithmetic::div_mod::lemma_div_is_ordered(x, a, m);
    let p = x / m;
    let q = a / m;
    assert(m * p <= m * q) by (nonlinear_arith)
        requires
            p <= q,
            m > 0,
    ;
}

/// The mappings that overlap `lo .. hi`, in the order of their removal, and the rest, as
/// they are left from index `i` on.
pub open spec fn drained(s: Seq<Vma>, lo: int, hi: int, i: int) -> (Seq<Vma>, Seq<Vma>)
    decreases s.len() - i,
{
    if i < 0 || i >= s.len() {
        (Seq::empty(), s)
    } else if s[i].overlaps(lo, hi) {
        let (removed, rest) = drained(swap_removed(s, i), lo, hi, i);
        (seq![s[i]] + removed, rest)
    } else {
        drained(s, lo, hi, i + 1)
    }
}

/// Removing the mappings that overlap a range takes out those that overlap it, leaves those
/// that do not, and loses none.
pub proof fn law_remove_overlapping(s: Seq<Vma>, lo: int, hi: int, i: int)
    requires
        0 <= i <= s.len(),
        forall|k: int| 0 <= k < i ==> !(#[trigger] s[k]).overlaps(lo, hi),
    ensures
        ({
            let (removed, rest) = drained(s, lo, hi, i);
            &&& forall|k: int| 0 <= k < removed.len() ==> (#[trigger] removed[k]).overlaps(lo, hi)
            &&& forall|k: int| 0 <= k < rest.len() ==> !(#[trigger] rest[k]).overlaps(lo, hi)
            &&& removed.len() + rest.len() == s.len()
            &&& (removed + rest).to_multiset() == s.to_multiset()
        }),
    decreases s.len() - i,
{
    broadcast use vstd::seq_lib::group_to_multiset_ensures;

    if i < s.len() {
        if s[i].overlaps(lo, hi) {
            let t = swap_removed(s, i);
            law_remove_overlapping(t, lo, hi, i);
            let (removed, rest) = drained(t, lo, hi, i);
            assert(s.update(i, s.last()).to_multiset() == s.to_multiset().remove(s[i]).insert(s.last())) by {
                vstd::seq_lib::to_multiset_update(s, i, s.last());
            }
            assert(t.push(s.last()) =~= s.update(i, s.last()));
            assert(t.to_multiset().insert(s.last()) == s.to_multiset().remove(s[i]).insert(s.last()));
            assert(t.to_multiset() =~= s.to_multiset().remove(s[i])) by {
                assert(t.to_multiset().insert(s.last()).remove(s.last()) =~= t.to_multiset());
                assert(s.to_multiset().remove(s[i]).insert(s.last()).remove(s.last()) =~= s.to_multiset().remove(s[i]));
            }
            assert((seq![s[i]] + removed) + rest =~= seq![s[i]] + (removed + rest));
            vstd::seq_lib::lemma_multiset_commutative(seq![s[i]], removed + rest);
            assert(seq![s[i]].to_multiset() =~= vstd::multiset::Multiset::<Vma>::empty().insert(s[i])) by {
                assert(seq![s[i]] =~= Seq::<Vma>::empty().push(s[i]));
            }
            assert((seq![s[i]] + (removed + rest)).to_multiset() =~= s.to_multiset());
        } else {
            law_remove_overlapping(s, lo, hi, i + 1);
        }
    } else {
        assert(Seq::<Vma>::empty() + s =~= s);
    }
}

impl View for VmaTable {
    type V = Seq<Vma>;

    closed spec fn view(&self) -> Seq<Vma> {
        self.vmas@
    }
}

impl Default for VmaTable {
    fn default() -> (r: Self)
        ensures
            r@ == Seq::<Vma>::empty(),
    {
        Self::new()
    }
}

impl VmaTable {
    pub fn new() -> (r: Self)
        ensures
            r@ == Seq::<Vma>::empty(),
    {
        VmaTable { vmas: Vec::new() }
    }

    /// Adds a mapping.
    pub fn insert(&mut self, vma: Vma)
        ensures
            final(self)@ == old(self)@.push(vma),
    {
        self.vmas.push(vma);
    }

    /// Removes the first mapping that starts at `start`, and gives it back.
    pub fn remove(&mut self, start: VirtualAddr) -> (r: Option<Vma>)
        ensures
            match index_of_start(old(self)@, start.0, 0) {
                Some(i) => r == Some(old(self)@[i]) && final(self)@ == swap_removed(old(self)@, i),
                None => r is None && final(self)@ == old(self)@,
            },
    {
        let mut i: usize = 0;
        while i < self.vmas.len()
            invariant
                self@ == old(self)@,
                i <= self@.len(),
                index_of_start(self@, start.0, 0) == index_of_start(self@, start.0, i as int),
            decreases self@.len() - i,
        {
            if self.vmas[i].start.as_u64() == start.as_u64() {
                return Some(self.vmas.swap_remove(i));
            }
            i += 1;
        }
        None
    }

    /// The first mapping that holds `addr`.
    pub fn find(&self, addr: VirtualAddr) -> (r: Option<&Vma>)
        ensures
            match index_of_holder(self@, addr.0 as int, 0) {
                Some(i) => r matches Some(v) && *v == self@[i],
                None => r is None,
            },
    {
        let mut i: usize = 0;
        while i < self.vmas.len()
            invariant
                i <= self@.len(),
                index_of_holder(self@, addr.0 as int, 0) == index_of_holder(self@, addr.0 as int, i as int),
            decreases self@.len() - i,
        {
            let vma = &self.vmas[i];
            if vma.start.as_u64() <= addr.as_u64() && addr.as_u64() < vma.end.as_u64() {
                return Some(vma);
            }
            i += 1;
        }
        None
    }

    /// Finds the highest free range of `len` bytes below `high`.
    pub fn find_free_downward(&self, high: VirtualAddr, len: u64) -> (r: Option<VirtualAddr>)
        ensures
            match search_down(self@, high.0 as int, len as int, 1) {
                Some(start) => r matches Some(a) && a.0 == start,
                None => r is None,
            },
    {
        assert(is_pow2(1));
        self.find_free_downward_aligned(high, len, 1)
    }

    /// Finds the highest free range of `len` bytes below `high` that starts at a multiple of
    /// `align`.
    pub fn find_free_downward_aligned(&self, high: VirtualAddr, len: u64, align: u64) -> (r: Option<VirtualAddr>)
        requires
            is_pow2(align as nat),
        ensures
            match search_down(self@, high.0 as int, len as int, align as int) {
                Some(start) => r matches Some(a) && a.0 == start,
                None => r is None,
            },
    {
        if len == 0 {
            return None;
        }
        let mut candidate_end: u64 = high.as_u64();
        loop
            invariant
                align > 0,
                len > 0,
                search_down(self@, high.0 as int, len as int, align as int) == search_down(
                    self@,
                    candidate_end as int,
                    len as int,
                    align as int,
                ),
            decreases candidate_end,
        {
            if candidate_end < len {
                return None;
            }
            let limit: u64 = candidate_end - len;
            proof {
                law_round_down(limit as int, align as int);
            }
            let start: u64 = align_down(limit, align);
            let end: u64 = start + len;
            match self.first_overlap(start, end) {
                None => {
                    return Some(VirtualAddr::new(start));
                },
                Some(v) => {
                    proof {
                        lemma_overlap_index(self@, start as int, end as int, 0);
                    }
                    candidate_end = v;
                },
            }
        }
    }

    /// The start of the first mapping that overlaps `lo .. hi`.
    fn first_overlap(&self, lo: u64, hi: u64) -> (r: Option<u64>)
        ensures
            match index_of_overlap(self@, lo as int, hi as int, 0) {
                Some(i) => r == Some(self@[i].start.0),
                None => r is None,
            },
    {
        let mut i: usize = 0;
        while i < self.vmas.len()
            invariant
                i <= self@.len(),
                index_of_overlap(self@, lo as int, hi as int, 0) == index_of_overlap(self@, lo as int, hi as int, i as int),
            decreases self@.len() - i,
        {
            let vma = &self.vmas[i];
            if lo < vma.end.as_u64() && hi > vma.start.as_u64() {
                return Some(vma.start.as_u64());
            }
            i += 1;
        }
        None
    }

    /// Removes all mappings that overlap `start .. end`.
    pub fn remove_overlapping(&mut self, start: VirtualAddr, end: VirtualAddr) -> (removed: Vec<Vma>)
        ensures
            (removed@, final(self)@) == drained(old(self)@, start.0 as int, end.0 as int, 0),
    {
        let mut removed: Vec<Vma> = Vec::new();
        let mut i: usize = 0;
        assert(Seq::<Vma>::empty() + drained(self@, start.0 as int, end.0 as int, 0).0 =~= drained(
            self@,
            start.0 as int,
            end.0 as int,
            0,
        ).0);
        while i < self.vmas.len()
            invariant
                i <= self@.len(),
                drained(old(self)@, start.0 as int, end.0 as int, 0) == ({
                    let (more, rest) = drained(self@, start.0 as int, end.0 as int, i as int);
                    (removed@ + more, rest)
                }),
            decreases self@.len() - i,
        {
            let vma = self.vmas[i];
            if vma.start.as_u64() < end.as_u64() && vma.end.as_u64() > start.as_u64() {
                let ghost before = self@;
                let ghost taken = removed@;
                let v = self.vmas.swap_remove(i);
                removed.push(v);
                proof {
                    assert(self@ =~= swap_removed(before, i as int));
                    let (more, rest) = drained(self@, start.0 as int, end.0 as int, i as int);
                    assert(taken + (seq![v] + more) =~= removed@ + more);
                }
            } else {
                i += 1;
            }
        }
        assert(removed@ + Seq::<Vma>::empty() =~= removed@);
        removed
    }
}

/// What is inserted is found at each of its addresses, unless an older mapping holds that address too.
pub proof fn law_inserted_is_found(s: Seq<Vma>, v: Vma, addr: int, from: int)
    requires
        0 <= from <= s.len(),
        v.holds(addr),
        forall|k: int| from <= k < s.len() ==> !(#[trigger] s[k]).holds(addr),
    ensures
        index_of_holder(s.push(v), addr, from) == Some(s.len() as int),
    decreases s.len() - from,
{
    if from < s.len() {
        assert(s.push(v)[from] == s[from]);
        law_inserted_is_found(s, v, addr, from + 1);
    }
}

} // verus!
