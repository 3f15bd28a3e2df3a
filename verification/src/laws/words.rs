//! Numbers in memory, byte by byte.

use vstd::prelude::*;

use crate::memory::access::{from_le32, from_le64, law_le32_round_trip, law_le64_round_trip, le32, le64, le_words, range, within, wrote, Memory};

verus! {

/// The byte at address `a`.
pub open spec fn byte_at<M: Memory>(m: &M, a: int) -> int {
    m.bytes()[a - m.base()] as int
}

/// The number in the four bytes from `a` up, the lowest byte first.
pub open spec fn u32_at<M: Memory>(m: &M, a: int) -> int {
    byte_at(m, a) + 0x100 * byte_at(m, a + 1) + 0x1_0000 * byte_at(m, a + 2) + 0x100_0000 * byte_at(m, a + 3)
}

/// The number in the eight bytes from `a` up, the lowest byte first.
#[verifier::opaque]
pub open spec fn u64_at<M: Memory>(m: &M, a: int) -> int {
    u32_at(m, a) + 0x1_0000_0000 * u32_at(m, a + 4)
}

/// All bytes are the same, except perhaps the `n` from `a` up.
pub open spec fn same_but<M: Memory>(x: &M, y: &M, a: int, n: int) -> bool {
    &&& y.base() == x.base()
    &&& y.bytes().len() == x.bytes().len()
    &&& forall|k: int| 0 <= k < x.bytes().len() && !(a <= x.base() + k < a + n) ==> #[trigger] y.bytes()[k] == x.bytes()[k]
}

pub proof fn lemma_u64_at<M: Memory>(m: &M, a: int)
    requires
        within(m, a, 8),
    ensures
        u64_at(m, a) == from_le64(range(m, a, 8)),
        0 <= u64_at(m, a) <= u64::MAX,
{
    reveal(u64_at);
    let s = range(m, a, 8);
    assert forall|k: int| 0 <= k < 8 implies #[trigger] s[k] == m.bytes()[a + k - m.base()] by {}
    assert(s[0] == m.bytes()[a - m.base()]);
    assert(s[1] == m.bytes()[a + 1 - m.base()]);
    assert(s[2] == m.bytes()[a + 2 - m.base()]);
    assert(s[3] == m.bytes()[a + 3 - m.base()]);
    assert(s[4] == m.bytes()[a + 4 - m.base()]);
    assert(s[5] == m.bytes()[a + 4 + 1 - m.base()]);
    assert(s[6] == m.bytes()[a + 4 + 2 - m.base()]);
    assert(s[7] == m.bytes()[a + 4 + 3 - m.base()]);
}

pub proof fn lemma_u32_at<M: Memory>(m: &M, a: int)
    requires
        within(m, a, 4),
    ensures
        u32_at(m, a) == from_le32(range(m, a, 4)),
        0 <= u32_at(m, a) <= u32::MAX,
{
    let s = range(m, a, 4);
    assert(s[0] == m.bytes()[a - m.base()]);
    assert(s[1] == m.bytes()[a + 1 - m.base()]);
    assert(s[2] == m.bytes()[a + 2 - m.base()]);
    assert(s[3] == m.bytes()[a + 3 - m.base()]);
}

/// A word that was written is there, and nothing else changed.
pub proof fn lemma_wrote_u32<M: Memory>(x: &M, y: &M, a: int, v: u32)
    requires
        wrote(x, y, a, le32(v)),
        within(x, a, 4),
    ensures
        u32_at(y, a) == v,
        same_but(x, y, a, 4),
{
    lemma_u32_at(y, a);
    law_le32_round_trip(v);
    assert(range(y, a, 4) =~= le32(v));
}

/// A word that was written is there, and nothing else changed.
pub proof fn lemma_wrote_u64<M: Memory>(x: &M, y: &M, a: int, v: u64)
    requires
        wrote(x, y, a, le64(v)),
        within(x, a, 8),
    ensures
        u64_at(y, a) == v,
        same_but(x, y, a, 8),
{
    lemma_u64_at(y, a);
    law_le64_round_trip(v);
    assert(range(y, a, 8) =~= le64(v));
}

/// Words one after the other can be read one by one.
pub proof fn lemma_word_of<M: Memory>(m: &M, a: int, words: Seq<u64>, i: int)
    requires
        within(m, a, (8 * words.len()) as int),
        range(m, a, (8 * words.len()) as int) == le_words(words),
        0 <= i < words.len(),
    ensures
        u64_at(m, a + 8 * i) == words[i],
{
    lemma_u64_at(m, a + 8 * i);
    law_le64_round_trip(words[i]);
    let s = range(m, a, (8 * words.len()) as int);
    assert forall|k: int| 0 <= k < 8 implies #[trigger] range(m, a + 8 * i, 8)[k] == le64(words[i])[k] by {
        assert(range(m, a + 8 * i, 8)[k] == s[8 * i + k]);
        assert((8 * i + k) / 8 == i && (8 * i + k) % 8 == k);
        assert(le_words(words)[8 * i + k] == le64(words[(8 * i + k) / 8])[(8 * i + k) % 8]);
    }
    assert(range(m, a + 8 * i, 8) =~= le64(words[i]));
}

} // verus!
