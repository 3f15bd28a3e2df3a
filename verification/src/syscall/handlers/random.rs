//! Random bytes.

use vstd::prelude::*;

use crate::memory::access::{encode_u64, le64, reachable, stored, write_bytes, wrote, Memory};
use crate::syscall::args::{SyscallArgs, SyscallResult};
use crate::syscall::errno::EFAULT;

verus! {

/// How often the hardware is asked for one number.
pub const TRIES: u32 = 10;

/// Where random numbers come from. The hardware may have none at the moment.
pub trait RandomSource: Sized {
    fn rdrand64(&mut self) -> Option<u64>;
}

/// A source of random numbers, with a record of what it gave.
pub struct Rng<R> {
    source: R,
    given: Ghost<Seq<Option<u64>>>,
}

impl<R: RandomSource> Rng<R> {
    /// What the source has given so far.
    pub closed spec fn given(&self) -> Seq<Option<u64>> {
        self.given@
    }

    pub fn new(source: R) -> (r: Self)
        ensures
            r.given() == Seq::<Option<u64>>::empty(),
    {
        Rng { source, given: Ghost(Seq::empty()) }
    }

    /// Asks the source once.
    pub fn ask(&mut self) -> (r: Option<u64>)
        ensures
            final(self).given() == old(self).given().push(r),
    {
        let r = self.source.rdrand64();
        proof {
            self.given@ = self.given@.push(r);
        }
        r
    }
}

/// The number that comes of asking up to `tries` times, from position `at` of what is given
/// on, and the position after that.
pub open spec fn drawn(given: Seq<Option<u64>>, at: int, tries: int) -> (Option<u64>, int)
    decreases tries,
{
    if tries <= 0 {
        (None, at)
    } else {
        match given[at] {
            Some(v) => (Some(v), at + 1),
            None => drawn(given, at + 1, tries - 1),
        }
    }
}

/// Eight bytes made of the seed, for the bytes at `offset`.
pub open spec fn seed_bytes(seed: Seq<u8>, offset: int) -> Seq<u8> {
    Seq::new(8, |i: int| seed[(offset + i) % 32] ^ (((offset + i) % 256) as u8))
}

/// The eight bytes for `offset`: those of the number, or else some made of the seed.
pub open spec fn chunk(value: Option<u64>, seed: Seq<u8>, offset: int) -> Seq<u8> {
    match value {
        Some(v) => le64(v),
        None => seed_bytes(seed, offset),
    }
}

/// The first `n` random bytes, in chunks of eight, the last of which may be cut, and the
/// position in what is given after them.
pub open spec fn filled(given: Seq<Option<u64>>, at: int, seed: Seq<u8>, n: int) -> (Seq<u8>, int)
    decreases n,
{
    if n <= 0 {
        (Seq::empty(), at)
    } else {
        let m = (n - 1) / 8 * 8;
        let (before, next) = filled(given, at, seed, m);
        let (value, after) = drawn(given, next, TRIES as int);
        (before + chunk(value, seed, m).take(n - m), after)
    }
}

/// Numbers that are given later change nothing.
proof fn lemma_drawn_prefix(given: Seq<Option<u64>>, more: Seq<Option<u64>>, at: int, tries: int)
    requires
        0 <= at,
        given.len() <= more.len(),
        forall|k: int| 0 <= k < given.len() ==> #[trigger] more[k] == given[k],
        drawn(given, at, tries).1 <= given.len(),
    ensures
        drawn(more, at, tries) == drawn(given, at, tries),
        tries > 0 ==> drawn(given, at, tries).1 > at,
        drawn(given, at, tries).1 >= at,
    decreases tries,
{
    if tries > 0 {
        if at < given.len() {
            if given[at] is None {
                lemma_drawn_prefix(given, more, at + 1, tries - 1);
            }
        } else {
            lemma_drawn_ahead(given, at, tries);
        }
    }
}

proof fn lemma_drawn_ahead(given: Seq<Option<u64>>, at: int, tries: int)
    ensures
        drawn(given, at, tries).1 >= at,
        tries > 0 ==> drawn(given, at, tries).1 > at,
    decreases tries,
{
    if tries > 0 && given[at] is None {
        lemma_drawn_ahead(given, at + 1, tries - 1);
    }
}

/// Numbers that are given later change nothing.
proof fn lemma_filled_prefix(given: Seq<Option<u64>>, more: Seq<Option<u64>>, at: int, seed: Seq<u8>, n: int)
    requires
        0 <= at,
        given.len() <= more.len(),
        forall|k: int| 0 <= k < given.len() ==> #[trigger] more[k] == given[k],
        filled(given, at, seed, n).1 <= given.len(),
    ensures
        filled(more, at, seed, n) == filled(given, at, seed, n),
        filled(given, at, seed, n).1 >= at,
    decreases n,
{
    if n > 0 {
        let m = (n - 1) / 8 * 8;
        let (before, next) = filled(given, at, seed, m);
        lemma_drawn_ahead(given, next, TRIES as int);
        lemma_filled_prefix(given, more, at, seed, m);
        lemma_drawn_prefix(given, more, next, TRIES as int);
    }
}

/// There are as many bytes as asked for.
pub proof fn law_filled_len(given: Seq<Option<u64>>, at: int, seed: Seq<u8>, n: int)
    requires
        n >= 0,
    ensures
        filled(given, at, seed, n).0.len() == n,
    decreases n,
{
    if n > 0 {
        law_filled_len(given, at, seed, (n - 1) / 8 * 8);
    }
}

/// Asks the source until it gives a number, a few times at most.
fn draw<R: RandomSource>(rng: &mut Rng<R>) -> (r: Option<u64>)
    ensures
        final(rng).given().len() > old(rng).given().len(),
        forall|k: int| 0 <= k < old(rng).given().len() ==> #[trigger] final(rng).given()[k] == old(rng).given()[k],
        drawn(final(rng).given(), old(rng).given().len() as int, TRIES as int) == (r, final(rng).given().len() as int),
{
    let ghost start = rng.given().len() as int;
    let mut i: u32 = 0;
    while i < TRIES
        invariant
            i <= TRIES,
            start == old(rng).given().len(),
            rng.given().len() == start + i,
            forall|k: int| 0 <= k < start ==> #[trigger] rng.given()[k] == old(rng).given()[k],
            forall|k: int| start <= k < start + i ==> #[trigger] rng.given()[k] is None,
        decreases TRIES - i,
    {
        let v = rng.ask();
        i += 1;
        if v.is_some() {
            proof {
                lemma_misses(rng.given(), start, i - 1, TRIES as int);
                assert(rng.given()[start + i - 1] == v);
            }
            return v;
        }
    }
    proof {
        lemma_misses(rng.given(), start, TRIES as int, TRIES as int);
    }
    None
}

proof fn lemma_misses(given: Seq<Option<u64>>, at: int, misses: int, tries: int)
    requires
        0 <= misses <= tries,
        forall|k: int| at <= k < at + misses ==> #[trigger] given[k] is None,
    ensures
        drawn(given, at, tries) == drawn(given, at + misses, tries - misses),
    decreases misses,
{
    if misses > 0 {
        assert(given[at] is None);
        lemma_misses(given, at + 1, misses - 1, tries - 1);
    }
}

proof fn lemma_sum_mod(a: int, i: int)
    requires
        0 <= a,
        0 <= i < 8,
    ensures
        (a % 32 + i) % 32 == (a + i) % 32,
        (a % 256 + i) % 256 == (a + i) % 256,
{
}

#[verifier::spinoff_prover]
#[verifier::rlimit(30)]
fn make_chunk(value: Option<u64>, seed: &[u8; 32], offset: u64) -> (r: Vec<u8>)
    ensures
        r@ == chunk(value, seed@, offset as int),
{
    match value {
        Some(v) => encode_u64(v),
        None => {
            let mut b: Vec<u8> = Vec::new();
            let idx: u64 = offset % 32;
            let mut i: u64 = 0;
            while i < 8
                invariant
                    i <= 8,
                    idx == offset % 32,
                    b@ == seed_bytes(seed@, offset as int).take(i as int),
                decreases 8 - i,
            {
                let s: u8 = seed[((idx + i) % 32) as usize];
                let o: u8 = ((offset % 256 + i) % 256) as u8;
                proof {
                    lemma_sum_mod(offset as int, i as int);
                }
                let ghost before = b@;
                b.push(s ^ o);
                i += 1;
                assert(b@ =~= seed_bytes(seed@, offset as int).take(i as int)) by {
                    assert(before == seed_bytes(seed@, offset as int).take(i - 1));
                    assert(b@.last() == seed_bytes(seed@, offset as int)[i - 1]);
                }
            }
            assert(b@ =~= seed_bytes(seed@, offset as int));
            b
        },
    }
}

/// The seed, or zeros if there is none.
pub open spec fn seed_of(seed: Option<[u8; 32]>) -> Seq<u8> {
    match seed {
        Some(s) => s@,
        None => Seq::new(32, |i: int| 0u8),
    }
}

/// Fills `len` bytes from `buf` up with random bytes. Without a seed to fall back on, it
/// stops where the source gave no number. Gives back how many bytes were filled.
pub fn fill_random<R: RandomSource, M: Memory>(
    rng: &mut Rng<R>,
    seed: &Option<[u8; 32]>,
    um: &mut M,
    buf: u64,
    len: u64,
) -> (r: SyscallResult)
    requires
        reachable(old(um), buf, len as int),
        len <= i64::MAX,
    ensures
        0 <= r <= len,
        ({
            let at = old(rng).given().len() as int;
            let (data, next) = filled(final(rng).given(), at, seed_of(*seed), r as int);
            &&& wrote(old(um), final(um), buf as int, data)
            &&& r == len ==> next == final(rng).given().len()
            &&& r < len ==> *seed is None && r % 8 == 0 && drawn(final(rng).given(), next, TRIES as int) == (
                None::<u64>,
                final(rng).given().len() as int,
            )
        }),
{
    let ghost at = rng.given().len() as int;
    let ghost sd = seed_of(*seed);
    let mut offset: u64 = 0;
    assert(um.bytes() =~= stored(old(um), buf as int, Seq::<u8>::empty()));
    while offset < len
        invariant
            reachable(old(um), buf, len as int),
            len <= i64::MAX,
            offset <= len,
            offset % 8 == 0 || offset == len,
            at == old(rng).given().len(),
            sd == seed_of(*seed),
            rng.given().len() >= at,
            wrote(old(um), um, buf as int, filled(rng.given(), at, sd, offset as int).0),
            filled(rng.given(), at, sd, offset as int).1 == rng.given().len(),
            filled(rng.given(), at, sd, offset as int).0.len() == offset,
        decreases len - offset,
    {
        let ghost g0 = rng.given();
        let remaining: u64 = len - offset;
        let value = draw(rng);
        proof {
            lemma_filled_prefix(g0, rng.given(), at, sd, offset as int);
        }
        let bytes: Vec<u8> = match seed {
            Some(s) => make_chunk(value, s, offset),
            None => match value {
                Some(v) => encode_u64(v),
                None => {
                    return offset as i64;
                },
            },
        };
        assert(bytes@ == chunk(value, sd, offset as int));
        let n: u64 = if remaining < 8 { remaining } else { 8 };
        let mut part: Vec<u8> = bytes;
        part.truncate(n as usize);
        proof {
            assert(part@ =~= chunk(value, sd, offset as int).take(n as int));
            assert((offset + n - 1) / 8 * 8 == offset);
        }
        let ghost before = *um;
        write_bytes(um, buf + offset, part.as_slice());
        proof {
            let d0 = filled(rng.given(), at, sd, offset as int).0;
            let d1 = filled(rng.given(), at, sd, offset + n).0;
            assert(d1 == d0 + part@);
            assert(um.bytes() =~= stored(old(um), buf as int, d1));
        }
        offset += n;
    }
    len as i64
}

/// Fills the user's buffer with random bytes.
pub fn sys_getrandom<R: RandomSource, M: Memory>(
    args: &SyscallArgs,
    rng: &mut Rng<R>,
    seed: &Option<[u8; 32]>,
    um: &mut M,
) -> (r: SyscallResult)
    requires
        args.arg0 != 0 && args.arg1 != 0 ==> reachable(old(um), args.arg0, args.arg1 as int) && args.arg1 <= i64::MAX,
    ensures
        args.arg0 == 0 ==> r == EFAULT && *final(um) == *old(um) && *final(rng) == *old(rng),
        args.arg0 != 0 && args.arg1 == 0 ==> r == 0 && *final(um) == *old(um) && *final(rng) == *old(rng),
        args.arg0 != 0 && args.arg1 != 0 ==> 0 <= r <= args.arg1 && {
            let at = old(rng).given().len() as int;
            let (data, next) = filled(final(rng).given(), at, seed_of(*seed), r as int);
            &&& wrote(old(um), final(um), args.arg0 as int, data)
            &&& r == args.arg1 ==> next == final(rng).given().len()
            &&& r < args.arg1 ==> *seed is None && r % 8 == 0 && drawn(final(rng).given(), next, TRIES as int) == (
                None::<u64>,
                final(rng).given().len() as int,
            )
        },
{
    if args.arg0 == 0 {
        return EFAULT;
    }
    if args.arg1 == 0 {
        return 0;
    }
    fill_random(rng, seed, um, args.arg0, args.arg1)
}

} // verus!
