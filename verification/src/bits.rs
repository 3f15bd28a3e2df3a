//! Single bits of machine words, and rounding to powers of two.

use vstd::prelude::*;

verus! {

/// Bit `i` of `w`, for `i` below 64.
pub open spec fn bit(w: u64, i: int) -> bool {
    (w >> (i as u64)) & 1 == 1
}

/// How many of the lowest `n` bits of `w` are set.
pub open spec fn ones(w: u64, n: nat) -> nat
    decreases n,
{
    if n == 0 {
        0
    } else {
        ones(w, (n - 1) as nat) + if bit(w, n - 1) { 1nat } else { 0nat }
    }
}

/// `u64::count_ones` of std: the number of set bits among the 64 of a word.
pub assume_specification [u64::count_ones] (w: u64) -> (n: u32)
    ensures
        n == ones(w, 64),
;

/// Whether bit `i` of `w` is set.
pub fn test_bit(w: u64, i: u64) -> (b: bool)
    requires
        i < 64,
    ensures
        b == bit(w, i as int),
{
    assert(((w & (1u64 << i)) != 0) == ((w >> i) & 1 == 1)) by (bit_vector)
        requires
            i < 64,
    ;
    (w & (1u64 << i)) != 0
}

/// `w` with bit `i` set.
pub fn set_bit(w: u64, i: u64) -> (r: u64)
    requires
        i < 64,
    ensures
        forall|j: int| 0 <= j < 64 ==> #[trigger] bit(r, j) == (j == i || bit(w, j)),
{
    let r: u64 = w | (1u64 << i);
    assert forall|j: int| 0 <= j < 64 implies #[trigger] bit(r, j) == (j == i || bit(w, j)) by {
        let k = j as u64;
        assert(((w | (1u64 << i)) >> k) & 1 == 1 <==> (k == i || (w >> k) & 1 == 1)) by (bit_vector)
            requires
                i < 64,
                k < 64,
        ;
    }
    r
}

/// `w` with bit `i` cleared.
pub fn clear_bit(w: u64, i: u64) -> (r: u64)
    requires
        i < 64,
    ensures
        forall|j: int| 0 <= j < 64 ==> #[trigger] bit(r, j) == (j != i && bit(w, j)),
{
    let r: u64 = w & !(1u64 << i);
    assert forall|j: int| 0 <= j < 64 implies #[trigger] bit(r, j) == (j != i && bit(w, j)) by {
        let k = j as u64;
        assert(((w & !(1u64 << i)) >> k) & 1 == 1 <==> (k != i && (w >> k) & 1 == 1)) by (bit_vector)
            requires
                i < 64,
                k < 64,
        ;
    }
    r
}

/// No bit of zero is set, every bit of the full word is.
pub proof fn lemma_constant_bits()
    ensures
        forall|j: int| 0 <= j < 64 ==> !#[trigger] bit(0, j),
        forall|j: int| 0 <= j < 64 ==> #[trigger] bit(0xffff_ffff_ffff_ffff, j),
{
    assert forall|j: int| 0 <= j < 64 implies !#[trigger] bit(0, j) by {
        let k = j as u64;
        assert((0u64 >> k) & 1 == 0) by (bit_vector);
    }
    assert forall|j: int| 0 <= j < 64 implies #[trigger] bit(0xffff_ffff_ffff_ffff, j) by {
        let k = j as u64;
        assert((0xffff_ffff_ffff_ffffu64 >> k) & 1 == 1) by (bit_vector)
            requires
                k < 64,
        ;
    }
}

/// The least power of two that is not below `n`.
pub open spec fn next_pow2(n: nat) -> nat
    decreases n,
{
    if n <= 1 {
        1
    } else {
        2 * next_pow2((n + 1) / 2)
    }
}

pub open spec fn is_pow2(n: nat) -> bool {
    n > 0 && next_pow2(n) == n
}

/// `next_pow2` is a power of two, not below `n`, and below twice `n`.
pub proof fn law_next_pow2(n: nat)
    ensures
        next_pow2(n) >= n,
        is_pow2(next_pow2(n)),
        n > 0 ==> next_pow2(n) < 2 * n,
    decreases n,
{
    if n > 1 {
        law_next_pow2((n + 1) / 2);
        let m = next_pow2((n + 1) / 2);
        assert((2 * m + 1) / 2 == m);
    }
}

/// A power of two that is at least eight is a multiple of eight.
pub proof fn lemma_pow2_multiple_of_8(n: nat)
    requires
        n > 4,
    ensures
        next_pow2(n) % 8 == 0,
{
    reveal_with_fuel(next_pow2, 4);
    let a = (n + 1) / 2;
    let b = (a + 1) / 2;
    let c = (b + 1) / 2;
    assert(next_pow2(n) == 8 * next_pow2(c));
}

/// The least power of two that is not below `n`.
pub fn next_power_of_two(n: u64) -> (r: u64)
    requires
        n <= 0x8000_0000_0000_0000,
    ensures
        r == next_pow2(n as nat),
    decreases n,
{
    if n <= 1 {
        1
    } else {
        let half: u64 = n / 2 + n % 2;
        let r: u64 = next_power_of_two(half);
        proof {
            law_next_pow2(half as nat);
        }
        2 * r
    }
}

/// The least multiple of `m` that is not below `a`.
pub open spec fn round_up(a: int, m: int) -> int {
    if a % m == 0 { a } else { a + m - a % m }
}

/// The greatest multiple of `m` that is not above `a`.
pub open spec fn round_down(a: int, m: int) -> int {
    a - a % m
}

/// `round_up` gives a multiple of `m`, less than `m` above `a`.
pub proof fn law_round_up(a: int, m: int)
    requires
        0 <= a,
        0 < m,
    ensures
        round_up(a, m) % m == 0,
        a <= round_up(a, m) < a + m,
{
    if a % m != 0 {
        let q = a / m;
        assert(a == m * q + a % m) by (nonlinear_arith)
            requires
                q == a / m,
                m > 0,
        ;
        assert(round_up(a, m) == m * (q + 1)) by (nonlinear_arith)
            requires
                a == m * q + a % m,
                round_up(a, m) == a + m - a % m,
        ;
        vstd::arithmetic::div_mod::lemma_mod_multiples_basic(q + 1, m);
        assert((q + 1) * m == m * (q + 1)) by (nonlinear_arith);
    }
}

/// `round_down` gives a multiple of `m`, less than `m` below `a`.
pub proof fn law_round_down(a: int, m: int)
    requires
        0 <= a,
        0 < m,
    ensures
        round_down(a, m) % m == 0,
        a - m < round_down(a, m) <= a,
        0 <= round_down(a, m),
{
    let q = a / m;
    vstd::arithmetic::div_mod::lemma_div_pos_is_pos(a, m);
    assert(0 <= m * q) by (nonlinear_arith)
        requires
            0 <= q,
            0 < m,
    ;
    assert(a == m * q + a % m) by (nonlinear_arith)
        requires
            q == a / m,
            m > 0,
    ;
    vstd::arithmetic::div_mod::lemma_mod_multiples_basic(q, m);
    assert(q * m == m * q) by (nonlinear_arith);
}

/// `a` rounded up to a multiple of `m`.
pub fn align_up(a: u64, m: u64) -> (r: u64)
    requires
        0 < m,
        round_up(a as int, m as int) <= u64::MAX,
    ensures
        r == round_up(a as int, m as int),
{
    let over: u64 = a % m;
    if over == 0 { a } else { a + (m - over) }
}

/// `a` rounded down to a multiple of `m`.
pub fn align_down(a: u64, m: u64) -> (r: u64)
    requires
        0 < m,
    ensures
        r == round_down(a as int, m as int),
{
    proof {
        law_round_down(a as int, m as int);
    }
    a - a % m
}

/// The sizes of pages are powers of two.
pub proof fn lemma_page_sizes()
    ensures
        is_pow2(0x20_0000),
        is_pow2(0x1000),
{
    reveal_with_fuel(next_pow2, 23);
}

} // verus!
