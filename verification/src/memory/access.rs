//! Byte-addressed memory, and little-endian words in it.

use vstd::prelude::*;

verus! {

/// A window of memory that the kernel reads and writes through.
///
/// The window is one contiguous range of addresses. The kernel reaches physical
/// memory through one such window, and the user's data through another.
pub trait Memory: Sized {
    /// Address of the first byte.
    closed spec fn base(&self) -> int {
        arbitrary()
    }

    /// The bytes of the window, from the first address up.
    closed spec fn bytes(&self) -> Seq<u8> {
        arbitrary()
    }

    fn read_u8(&self, addr: u64) -> (b: u8)
        requires
            self.base() <= addr < self.base() + self.bytes().len(),
        ensures
            b == self.bytes()[addr - self.base()],
    ;

    fn write_u8(&mut self, addr: u64, value: u8)
        requires
            old(self).base() <= addr < old(self).base() + old(self).bytes().len(),
        ensures
            final(self).base() == old(self).base(),
            final(self).bytes() == old(self).bytes().update(addr - old(self).base(), value),
    ;

    /// Takes up what a device has written to the `n` bytes from `addr` up. They may be anything then; no other byte changes.
    /// Where the processor sees such writes by itself there is nothing to do.
    fn acquire(&mut self, _addr: u64, _n: u64)
        ensures
            final(self).base() == old(self).base(),
            final(self).bytes().len() == old(self).bytes().len(),
            forall|k: int|
                0 <= k < old(self).bytes().len() && !in_chunk(old(self).base() + k, _addr as int, _n as int)
                    ==> #[trigger] final(self).bytes()[k] == old(self).bytes()[k],
    {
    }
}

/// Address `a` is one of the `n` from `addr` up, modulo the size of the address space.
pub open spec fn in_chunk(a: int, addr: int, n: int) -> bool {
    0 <= a <= u64::MAX && (addr <= a < addr + n || a + 0x1_0000_0000_0000_0000 < addr + n)
}

/// Addresses `addr .. addr + n` lie in the window.
pub open spec fn within<M: Memory>(m: &M, addr: int, n: int) -> bool {
    m.base() <= addr && addr + n <= m.base() + m.bytes().len()
}

/// The `n` bytes from `addr` up can be read and written, and their addresses do not wrap.
pub open spec fn reachable<M: Memory>(m: &M, addr: u64, n: int) -> bool {
    within(m, addr as int, n) && addr + n <= u64::MAX
}

/// The byte at `addr`.
pub open spec fn byte<M: Memory>(m: &M, addr: int) -> u8 {
    m.bytes()[addr - m.base()]
}

/// The `n` bytes from `addr` up.
pub open spec fn range<M: Memory>(m: &M, addr: int, n: int) -> Seq<u8> {
    m.bytes().subrange(addr - m.base(), addr - m.base() + n)
}

/// The bytes of `m` with those from `addr` up replaced by `data`.
pub open spec fn stored<M: Memory>(m: &M, addr: int, data: Seq<u8>) -> Seq<u8> {
    let off = addr - m.base();
    Seq::new(
        m.bytes().len(),
        |k: int| if off <= k < off + data.len() { data[k - off] } else { m.bytes()[k] },
    )
}

/// `after` is `before` with the bytes from `addr` up replaced by `data`.
pub open spec fn wrote<M: Memory>(before: &M, after: &M, addr: int, data: Seq<u8>) -> bool {
    after.base() == before.base() && after.bytes() == stored(before, addr, data)
}

/// The two windows cover the same addresses.
pub open spec fn same_window<M: Memory>(a: &M, b: &M) -> bool {
    a.base() == b.base() && a.bytes().len() == b.bytes().len()
}

/// What a window of memory holds.
#[verifier::ext_equal]
pub struct Mem {
    pub base: int,
    pub bytes: Seq<u8>,
}

/// What `m` holds.
pub open spec fn mem<M: Memory>(m: &M) -> Mem {
    Mem { base: m.base(), bytes: m.bytes() }
}

impl Mem {
    /// The `n` bytes from `addr` up.
    pub open spec fn range(self, addr: int, n: int) -> Seq<u8> {
        self.bytes.subrange(addr - self.base, addr - self.base + n)
    }

    /// The same with the bytes from `addr` up replaced by `data`.
    pub open spec fn stored(self, addr: int, data: Seq<u8>) -> Mem {
        let off = addr - self.base;
        Mem {
            bytes: Seq::new(
                self.bytes.len(),
                |k: int| if off <= k < off + data.len() { data[k - off] } else { self.bytes[k] },
            ),
            ..self
        }
    }

    /// The 64-bit word at `addr`.
    pub open spec fn word(self, addr: int) -> u64 {
        from_le64(self.range(addr, 8)) as u64
    }

    /// The `n` bytes from `addr` up can be read and written, and their addresses do not wrap.
    pub open spec fn reaches(self, addr: u64, n: int) -> bool {
        self.base <= addr && addr + n <= self.base + self.bytes.len() && addr + n <= u64::MAX
    }
}

/// The bytes of `v`, least significant first.
pub open spec fn le64(v: u64) -> Seq<u8> {
    seq![
        (v % 0x100) as u8,
        (v / 0x100 % 0x100) as u8,
        (v / 0x1_0000 % 0x100) as u8,
        (v / 0x100_0000 % 0x100) as u8,
        (v / 0x1_0000_0000 % 0x100) as u8,
        (v / 0x100_0000_0000 % 0x100) as u8,
        (v / 0x1_0000_0000_0000 % 0x100) as u8,
        (v / 0x100_0000_0000_0000 % 0x100) as u8,
    ]
}

/// The number whose bytes, least significant first, are the first eight of `s`.
pub open spec fn from_le64(s: Seq<u8>) -> int {
    s[0] + s[1] * 0x100 + s[2] * 0x1_0000 + s[3] * 0x100_0000 + s[4] * 0x1_0000_0000 + s[5]
        * 0x100_0000_0000 + s[6] * 0x1_0000_0000_0000 + s[7] * 0x100_0000_0000_0000
}

/// The bytes of `v`, least significant first.
pub open spec fn le32(v: u32) -> Seq<u8> {
    seq![
        (v % 0x100) as u8,
        (v / 0x100 % 0x100) as u8,
        (v / 0x1_0000 % 0x100) as u8,
        (v / 0x100_0000 % 0x100) as u8,
    ]
}

/// The number whose bytes, least significant first, are the first four of `s`.
pub open spec fn from_le32(s: Seq<u8>) -> int {
    s[0] + s[1] * 0x100 + s[2] * 0x1_0000 + s[3] * 0x100_0000
}

/// Decoding the bytes of a number gives the number back.
pub proof fn law_le64_round_trip(v: u64)
    ensures
        from_le64(le64(v)) == v,
{
    let q1 = v / 0x100;
    let q2 = q1 / 0x100;
    let q3 = q2 / 0x100;
    let q4 = q3 / 0x100;
    let q5 = q4 / 0x100;
    let q6 = q5 / 0x100;
    let q7 = q6 / 0x100;
    assert(v / 0x1_0000 == q2);
    assert(v / 0x100_0000 == q3);
    assert(v / 0x1_0000_0000 == q4);
    assert(v / 0x100_0000_0000 == q5);
    assert(v / 0x1_0000_0000_0000 == q6);
    assert(v / 0x100_0000_0000_0000 == q7);
    assert(q7 < 0x100);
}

/// Decoding the bytes of a number gives the number back.
pub proof fn law_le32_round_trip(v: u32)
    ensures
        from_le32(le32(v)) == v,
{
}

/// The 64-bit word at `addr`.
#[verifier::opaque]
pub open spec fn word<M: Memory>(m: &M, addr: int) -> int {
    from_le64(range(m, addr, 8))
}

/// A word depends on its own eight bytes only.
pub proof fn lemma_word_frame<M: Memory>(a: &M, b: &M, addr: int)
    requires
        same_window(a, b),
        within(a, addr, 8),
        forall|k: int| addr <= k < addr + 8 ==> byte(a, k) == byte(b, k),
    ensures
        word(a, addr) == word(b, addr),
{
    reveal(word);
    assert forall|k: int| 0 <= k < 8 implies range(a, addr, 8)[k] == range(b, addr, 8)[k] by {
        assert(byte(a, addr + k) == byte(b, addr + k));
    }
}

/// Nothing outside of `lo .. hi` differs between the two states.
pub open spec fn framed<M: Memory>(before: &M, after: &M, lo: int, hi: int) -> bool {
    &&& same_window(before, after)
    &&& forall|a: int| within(before, a, 1) && !(lo <= a < hi) ==> #[trigger] byte(after, a) == byte(before, a)
    &&& forall|a: int|
        within(before, a, 8) && (a + 8 <= lo || hi <= a) ==> #[trigger] word(after, a) == word(before, a)
}

/// Two changes inside of a range make up one change inside of it.
pub proof fn lemma_framed_trans<M: Memory>(a: &M, b: &M, c: &M, lo1: int, hi1: int, lo2: int, hi2: int, lo: int, hi: int)
    requires
        framed(a, b, lo1, hi1),
        framed(b, c, lo2, hi2),
        lo <= lo1 && hi1 <= hi,
        lo <= lo2 && hi2 <= hi,
    ensures
        framed(a, c, lo, hi),
{
    assert forall|k: int| within(a, k, 1) && !(lo <= k < hi) implies #[trigger] byte(c, k) == byte(a, k) by {
        assert(byte(b, k) == byte(a, k));
    }
    assert forall|k: int| within(a, k, 8) && (k + 8 <= lo || hi <= k) implies #[trigger] word(c, k) == word(a, k) by {
        assert(word(b, k) == word(a, k));
    }
}

/// Replacing the bytes of a range changes nothing outside of it.
pub proof fn lemma_wrote_framed<M: Memory>(before: &M, after: &M, addr: int, data: Seq<u8>)
    requires
        wrote(before, after, addr, data),
        within(before, addr, data.len() as int),
    ensures
        framed(before, after, addr, addr + data.len()),
{
    assert forall|a: int| within(before, a, 8) && (a + 8 <= addr || addr + data.len() <= a) implies #[trigger] word(after, a)
        == word(before, a) by {
        lemma_word_frame(after, before, a);
    }
}

/// The bytes of `v`, least significant first.
pub fn encode_u64(v: u64) -> (r: Vec<u8>)
    ensures
        r@ == le64(v),
{
    let mut r: Vec<u8> = Vec::new();
    r.push((v % 0x100) as u8);
    r.push((v / 0x100 % 0x100) as u8);
    r.push((v / 0x1_0000 % 0x100) as u8);
    r.push((v / 0x100_0000 % 0x100) as u8);
    r.push((v / 0x1_0000_0000 % 0x100) as u8);
    r.push((v / 0x100_0000_0000 % 0x100) as u8);
    r.push((v / 0x1_0000_0000_0000 % 0x100) as u8);
    r.push((v / 0x100_0000_0000_0000 % 0x100) as u8);
    r
}

/// The bytes of `v`, least significant first.
pub fn encode_u32(v: u32) -> (r: Vec<u8>)
    ensures
        r@ == le32(v),
{
    let mut r: Vec<u8> = Vec::new();
    r.push((v % 0x100) as u8);
    r.push((v / 0x100 % 0x100) as u8);
    r.push((v / 0x1_0000 % 0x100) as u8);
    r.push((v / 0x100_0000 % 0x100) as u8);
    r
}

/// Reads the 64-bit word at `addr`.
pub fn read_u64<M: Memory>(m: &M, addr: u64) -> (v: u64)
    requires
        within(m, addr as int, 8),
        addr + 8 <= u64::MAX,
    ensures
        v == word(m, addr as int),
        v == from_le64(range(m, addr as int, 8)),
{
    reveal(word);
    let b0: u64 = m.read_u8(addr) as u64;
    let b1: u64 = m.read_u8(addr + 1) as u64;
    let b2: u64 = m.read_u8(addr + 2) as u64;
    let b3: u64 = m.read_u8(addr + 3) as u64;
    let b4: u64 = m.read_u8(addr + 4) as u64;
    let b5: u64 = m.read_u8(addr + 5) as u64;
    let b6: u64 = m.read_u8(addr + 6) as u64;
    let b7: u64 = m.read_u8(addr + 7) as u64;
    b0 + b1 * 0x100 + b2 * 0x1_0000 + b3 * 0x100_0000 + b4 * 0x1_0000_0000 + b5 * 0x100_0000_0000
        + b6 * 0x1_0000_0000_0000 + b7 * 0x100_0000_0000_0000
}

/// Reads the 32-bit word at `addr`.
pub fn read_u32<M: Memory>(m: &M, addr: u64) -> (v: u32)
    requires
        within(m, addr as int, 4),
        addr + 4 <= u64::MAX,
    ensures
        v == from_le32(range(m, addr as int, 4)),
{
    let b0: u32 = m.read_u8(addr) as u32;
    let b1: u32 = m.read_u8(addr + 1) as u32;
    let b2: u32 = m.read_u8(addr + 2) as u32;
    let b3: u32 = m.read_u8(addr + 3) as u32;
    b0 + b1 * 0x100 + b2 * 0x1_0000 + b3 * 0x100_0000
}

/// Reads the `n` bytes from `addr` up.
pub fn read_bytes<M: Memory>(m: &M, addr: u64, n: u64) -> (r: Vec<u8>)
    requires
        within(m, addr as int, n as int),
        addr + n <= u64::MAX,
    ensures
        r@ == range(m, addr as int, n as int),
{
    let mut r: Vec<u8> = Vec::new();
    let mut i: u64 = 0;
    while i < n
        invariant
            i <= n,
            within(m, addr as int, n as int),
            addr + n <= u64::MAX,
            r@ == range(m, addr as int, i as int),
        decreases n - i,
    {
        r.push(m.read_u8(addr + i));
        i += 1;
        assert(r@ =~= range(m, addr as int, i as int));
    }
    r
}

/// Writes `data` from `addr` up.
pub fn write_bytes<M: Memory>(m: &mut M, addr: u64, data: &[u8])
    requires
        within(old(m), addr as int, data@.len() as int),
        addr + data@.len() <= u64::MAX,
    ensures
        wrote(old(m), final(m), addr as int, data@),
{
    let mut i: usize = 0;
    assert(m.bytes() =~= stored(old(m), addr as int, data@.take(0)));
    while i < data.len()
        invariant
            i <= data@.len(),
            within(old(m), addr as int, data@.len() as int),
            addr + data@.len() <= u64::MAX,
            m.base() == old(m).base(),
            m.bytes() == stored(old(m), addr as int, data@.take(i as int)),
        decreases data@.len() - i,
    {
        m.write_u8(addr + i as u64, data[i]);
        i += 1;
        assert(m.bytes() =~= stored(old(m), addr as int, data@.take(i as int)));
    }
    assert(data@.take(data@.len() as int) =~= data@);
}

/// Writes the 64-bit word `value` at `addr`.
pub fn write_u64<M: Memory>(m: &mut M, addr: u64, value: u64)
    requires
        within(old(m), addr as int, 8),
        addr + 8 <= u64::MAX,
    ensures
        wrote(old(m), final(m), addr as int, le64(value)),
        word(final(m), addr as int) == value,
        framed(old(m), final(m), addr as int, addr + 8),
{
    let data = encode_u64(value);
    write_bytes(m, addr, data.as_slice());
    proof {
        reveal(word);
        law_le64_round_trip(value);
        assert(range(m, addr as int, 8) =~= le64(value));
        assert forall|a: int| within(old(m), a, 8) && (a + 8 <= addr || addr + 8 <= a) implies #[trigger] word(m, a)
            == word(old(m), a) by {
            lemma_word_frame(m, old(m), a);
        }
    }
}

/// Writes the 32-bit word `value` at `addr`.
pub fn write_u32<M: Memory>(m: &mut M, addr: u64, value: u32)
    requires
        reachable(old(m), addr, 4),
    ensures
        wrote(old(m), final(m), addr as int, le32(value)),
{
    let data = encode_u32(value);
    write_bytes(m, addr, data.as_slice());
}

/// The bytes of the words, each least significant byte first.
pub open spec fn le_words(words: Seq<u64>) -> Seq<u8> {
    Seq::new(8 * words.len(), |k: int| le64(words[k / 8])[k % 8])
}

/// Writes 64-bit words one after the other from `addr` up.
pub fn write_words<M: Memory>(m: &mut M, addr: u64, words: &[u64])
    requires
        within(old(m), addr as int, (8 * words@.len()) as int),
        addr + 8 * words@.len() <= u64::MAX,
    ensures
        wrote(old(m), final(m), addr as int, le_words(words@)),
        framed(old(m), final(m), addr as int, addr + 8 * words@.len()),
{
    let mut i: usize = 0;
    assert(m.bytes() =~= stored(old(m), addr as int, le_words(words@.take(0))));
    while i < words.len()
        invariant
            i <= words@.len(),
            within(old(m), addr as int, (8 * words@.len()) as int),
            addr + 8 * words@.len() <= u64::MAX,
            m.base() == old(m).base(),
            m.bytes() == stored(old(m), addr as int, le_words(words@.take(i as int))),
        decreases words@.len() - i,
    {
        let ghost before = *m;
        write_u64(m, addr + 8 * i as u64, words[i]);
        proof {
            let data = le_words(words@.take(i + 1));
            assert forall|k: int| 0 <= k < m.bytes().len() implies m.bytes()[k] == stored(old(m), addr as int, data)[k] by {
                let off = addr - old(m).base();
                let at = k - off;
                if 8 * i <= at < 8 * (i + 1) {
                    assert(at / 8 == i && at % 8 == at - 8 * i);
                    assert(words@.take(i + 1)[i as int] == words@[i as int]);
                } else if 0 <= at < 8 * i {
                    assert(words@.take(i + 1)[at / 8] == words@.take(i as int)[at / 8]);
                }
            }
            assert(m.bytes() =~= stored(old(m), addr as int, data));
        }
        i += 1;
    }
    proof {
        assert(words@.take(words@.len() as int) =~= words@);
        lemma_wrote_framed(old(m), m, addr as int, le_words(words@));
    }
}

/// Sets `n` bytes from `addr` up to `value`.
pub fn fill<M: Memory>(m: &mut M, addr: u64, value: u8, n: u64)
    requires
        within(old(m), addr as int, n as int),
        addr + n <= u64::MAX,
    ensures
        wrote(old(m), final(m), addr as int, Seq::new(n as nat, |k: int| value)),
{
    let mut i: u64 = 0;
    assert(m.bytes() =~= stored(old(m), addr as int, Seq::new(0, |k: int| value)));
    while i < n
        invariant
            i <= n,
            within(old(m), addr as int, n as int),
            addr + n <= u64::MAX,
            m.base() == old(m).base(),
            m.bytes() == stored(old(m), addr as int, Seq::new(i as nat, |k: int| value)),
        decreases n - i,
    {
        m.write_u8(addr + i, value);
        i += 1;
        assert(m.bytes() =~= stored(old(m), addr as int, Seq::new(i as nat, |k: int| value)));
    }
}

} // verus!
