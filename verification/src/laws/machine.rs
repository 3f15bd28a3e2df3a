//! What the machine tells of itself.

use vstd::prelude::*;

use super::times::{clock_runs, gone_by, lemma_gone_by};
use super::words::{byte_at, lemma_word_of, u64_at};
use crate::memory::access::{le64, le_words, range, within, Memory};
use crate::memory::allocators::palloc::PageAllocator;
use crate::syscall::args::{SyscallArgs, SyscallResult};
use crate::syscall::handlers::process::{names, sys_sysinfo, sys_uname};
use crate::syscall::handlers::random::{drawn, filled, sys_getrandom, RandomSource, Rng};
use crate::syscall::handlers::thread::{cpu_mask, low_bits, sys_sched_getaffinity};
use crate::syscall::handlers::time::sys_prlimit64;
use crate::time::{elapsed_ns, Clock};

verus! {

/// The value of bit `k` of a byte.
pub open spec fn bit_value(k: int) -> int {
    if k == 0 {
        1
    } else if k == 1 {
        2
    } else if k == 2 {
        4
    } else if k == 3 {
        8
    } else if k == 4 {
        16
    } else if k == 5 {
        32
    } else if k == 6 {
        64
    } else {
        128
    }
}

/// Bit `k` of the byte is set.
pub open spec fn has_bit(b: int, k: int) -> bool {
    b / bit_value(k) % 2 == 1
}

proof fn lemma_low_bits(n: int, k: int)
    requires
        0 <= k < 8,
    ensures
        has_bit(low_bits(n) as int, k) <==> k < n,
{
    if n >= 8 {
        assert(low_bits(n) == 255);
    }
}

/// The mask of CPUs has the bits of all CPUs that there are, and no others.
pub proof fn law_mask_has_all_cpus<M: Memory>(args: &SyscallArgs, um: &mut M, cpu_count: u32, r: SyscallResult)
    requires
        call_ensures(sys_sched_getaffinity::<M>, (args, um, cpu_count), r),
        args.arg0 == 0 || args.arg0 == 1,
        8 <= args.arg1 <= 128,
        args.arg2 != 0,
        within(old(um), args.arg2 as int, args.arg1 as int),
    ensures
        r == 8,
        forall|b: int, k: int|
            0 <= b < args.arg1 && 0 <= k < 8 ==> (#[trigger] has_bit(byte_at(final(um), args.arg2 + b), k) <==> 8 * b + k < cpu_count),
{
    let mask = cpu_mask(cpu_count as int, args.arg1 as int);
    assert forall|b: int, k: int| 0 <= b < args.arg1 && 0 <= k < 8 implies (#[trigger] has_bit(byte_at(final(um), args.arg2 + b), k) <==> 8 * b
        + k < cpu_count) by {
        lemma_low_bits(cpu_count - 8 * b, k);
        assert(final(um).bytes()[args.arg2 + b - final(um).base()] == mask[b]);
    }
}

/// The names of the machine: six fields of 65 bytes, of which the first says Linux, and the fifth x86_64, each up to a zero.
pub proof fn law_machine_has_its_name<M: Memory>(args: &SyscallArgs, um: &mut M, r: SyscallResult)
    requires
        call_ensures(sys_uname::<M>, (args, um), r),
        args.arg0 != 0,
        within(old(um), args.arg0 as int, 390),
    ensures
        r == 0,
        ({
            let at = args.arg0 as int;
            let c = |k: int| byte_at(final(um), at + k);
            &&& c(0) == 0x4c && c(1) == 0x69 && c(2) == 0x6e && c(3) == 0x75 && c(4) == 0x78 && c(5) == 0
            &&& c(260) == 0x78 && c(261) == 0x38 && c(262) == 0x36 && c(263) == 0x5f && c(264) == 0x36 && c(265) == 0x34 && c(266) == 0
            &&& c(64) == 0 && c(129) == 0 && c(194) == 0 && c(259) == 0 && c(324) == 0 && c(389) == 0
        }),
{
    let n = names();
    assert(n.len() == 390);
    assert forall|k: int| 0 <= k < 390 implies byte_at(final(um), args.arg0 + k) == #[trigger] n[k] by {}
    assert(n[0] == 0x4c && n[1] == 0x69 && n[2] == 0x6e && n[3] == 0x75 && n[4] == 0x78 && n[5] == 0);
    assert(n[260] == 0x78 && n[261] == 0x38 && n[262] == 0x36 && n[263] == 0x5f && n[264] == 0x36 && n[265] == 0x34 && n[266] == 0);
    assert(n[64] == 0 && n[129] == 0 && n[194] == 0 && n[259] == 0 && n[324] == 0 && n[389] == 0);
}

/// The limits of resources: 8 MiB of stack, 256 descriptors, and no others.
pub proof fn law_limits_are_told<M: Memory>(args: &SyscallArgs, um: &mut M, r: SyscallResult)
    requires
        call_ensures(sys_prlimit64::<M>, (args, um), r),
        args.arg3 != 0,
        within(old(um), args.arg3 as int, 16),
    ensures
        r == 0,
        u64_at(final(um), args.arg3 as int) == (if args.arg1 == 3 { 0x80_0000 } else if args.arg1 == 7 { 256 } else { u64::MAX as int }),
        u64_at(final(um), args.arg3 + 8) == (if args.arg1 == 7 { 256 } else { u64::MAX as int }),
{
    let ws = crate::syscall::handlers::time::limits(args.arg1);
    assert(range(final(um), args.arg3 as int, 16) =~= le_words(ws));
    lemma_word_of(final(um), args.arg3 as int, ws, 0);
    lemma_word_of(final(um), args.arg3 as int, ws, 1);
}

/// The machine tells for how many whole seconds it has been up.
pub proof fn law_uptime_is_told<M: Memory>(
    args: &SyscallArgs,
    um: &mut M,
    clock: &Clock,
    tsc: u64,
    palloc: &PageAllocator,
    r: SyscallResult,
)
    requires
        call_ensures(sys_sysinfo::<M>, (args, um, clock, tsc, palloc), r),
        args.arg0 != 0,
        within(old(um), args.arg0 as int, 112),
        clock_runs(*clock, tsc),
    ensures
        r == 0,
        exists|e: int|
            #[trigger] gone_by(*clock, tsc, e) && u64_at(final(um), args.arg0 as int) * 1_000_000_000 <= e < (u64_at(
                final(um),
                args.arg0 as int,
            ) + 1) * 1_000_000_000,
{
    lemma_gone_by(*clock, tsc);
    let e = elapsed_ns(*clock, tsc);
    let ws = crate::syscall::handlers::process::machine_info(
        (e / 1_000_000_000) as u64,
        crate::syscall::handlers::process::page_bytes(
            crate::memory::allocators::palloc::PAGE_COUNT - crate::memory::allocators::palloc::RESERVED_PAGES,
        ),
        crate::syscall::handlers::process::page_bytes(crate::syscall::handlers::process::free_pages_of(palloc@)),
    );
    assert(ws.len() == 14);
    assert(range(final(um), args.arg0 as int, 112) =~= le_words(ws));
    lemma_word_of(final(um), args.arg0 as int, ws, 0);
    assert(gone_by(*clock, tsc, e));
}

proof fn lemma_filled(given: Seq<Option<u64>>, at: int, seed: Seq<u8>, n: int)
    requires
        0 <= at,
        0 <= n,
        at + (n + 7) / 8 <= given.len(),
        forall|k: int| at <= k < given.len() ==> #[trigger] given[k] is Some,
    ensures
        filled(given, at, seed, n).0.len() == n,
        filled(given, at, seed, n).1 == at + (n + 7) / 8,
        forall|i: int| 0 <= i < n ==> #[trigger] filled(given, at, seed, n).0[i] == le64(given[at + i / 8]->0)[i % 8],
    decreases n,
{
    if n > 0 {
        let m = (n - 1) / 8 * 8;
        lemma_filled(given, at, seed, m);
        let x = at + m / 8;
        assert(given[x] is Some);
        assert(drawn(given, x, crate::syscall::handlers::random::TRIES as int) == (given[x], x + 1));
        let before = filled(given, at, seed, m).0;
        let all = filled(given, at, seed, n).0;
        let last = le64(given[x]->0).take(n - m);
        assert(all == before + last);
        assert forall|i: int| 0 <= i < n implies #[trigger] all[i] == le64(given[at + i / 8]->0)[i % 8] by {
            if i < m {
                assert(all[i] == before[i]);
            } else {
                assert(all[i] == last[i - m]);
                assert(i / 8 == m / 8 && i % 8 == i - m);
            }
        }
    }
}

/// Random bytes are those of the numbers that the source gives, in order, the lowest byte of each first; as many as asked for.
pub proof fn law_random_bytes_come_from_the_source<R: RandomSource, M: Memory>(
    args: &SyscallArgs,
    rng: &mut Rng<R>,
    seed: &Option<[u8; 32]>,
    um: &mut M,
    r: SyscallResult,
)
    requires
        call_ensures(sys_getrandom::<R, M>, (args, rng, seed, um), r),
        args.arg0 != 0,
        args.arg1 != 0,
        within(old(um), args.arg0 as int, args.arg1 as int),
        forall|k: int| old(rng).given().len() <= k < final(rng).given().len() ==> #[trigger] final(rng).given()[k] is Some,
        old(rng).given().len() + (args.arg1 + 7) / 8 <= final(rng).given().len(),
        r == args.arg1,
    ensures
        ({
            let from = old(rng).given().len() as int;
            &&& final(rng).given().len() == from + (args.arg1 + 7) / 8
            &&& forall|i: int|
                0 <= i < args.arg1 ==> #[trigger] final(um).bytes()[args.arg0 + i - final(um).base()] == le64(
                    final(rng).given()[from + i / 8]->0,
                )[i % 8]
        }),
{
    let from = old(rng).given().len() as int;
    lemma_filled(final(rng).given(), from, crate::syscall::handlers::random::seed_of(*seed), args.arg1 as int);
    let data = filled(final(rng).given(), from, crate::syscall::handlers::random::seed_of(*seed), args.arg1 as int).0;
    assert forall|i: int| 0 <= i < args.arg1 implies #[trigger] final(um).bytes()[args.arg0 + i - final(um).base()] == le64(
        final(rng).given()[from + i / 8]->0,
    )[i % 8] by {
        assert(final(um).bytes()[args.arg0 + i - final(um).base()] == data[i]);
    }
}

} // verus!
