use sumi_kernel::memory::access::{read_bytes, read_u32, read_u64, write_u32, write_u64};
use sumi_kernel::memory::allocators::kmalloc::KernelAllocator;
use sumi_kernel::memory::allocators::palloc::PageAllocator;
use sumi_kernel::memory::test_utils::{make_alloc, TestDirectMap};
use sumi_kernel::sched::scheduler::{Parking, Scheduler};
use sumi_kernel::sched::thread::{Thread, ThreadState, Tid};
use sumi_kernel::syscall::args::SyscallArgs;
use sumi_kernel::syscall::dispatch::{immediate_answer, syscall_dispatch, syscall_return, Handler};
use sumi_kernel::syscall::errno::{EAGAIN, EFAULT, EINVAL, ENOSYS, ESRCH};
use sumi_kernel::syscall::handlers::clone::{
    sys_clone, sys_clone3, CLONE_FILES, CLONE_FS, CLONE_SIGHAND, CLONE_THREAD, CLONE_VM, REQUIRED,
};
use sumi_kernel::syscall::handlers::process::{
    sys_arch_prctl, sys_exit, sys_exit_group, sys_getpid, sys_gettid, sys_set_tid_address, Exit, ARCH_GET_FS, ARCH_SET_FS,
};
use sumi_kernel::syscall::handlers::random::{fill_random, sys_getrandom, RandomSource, Rng};
use sumi_kernel::syscall::handlers::signal::{sys_rt_sigprocmask, sys_rt_sigtimedwait, SIG_BLOCK};
use sumi_kernel::syscall::handlers::thread::{
    sys_futex, sys_sched_getaffinity, sys_sched_yield, sys_set_robust_list, Yield, FUTEX_PRIVATE_FLAG, FUTEX_WAIT, FUTEX_WAKE,
};

const USER: u64 = 0x40_0000;

fn user_memory() -> TestDirectMap {
    TestDirectMap::at(USER, 0x4000)
}

fn call(nr: u64, a: [u64; 6]) -> SyscallArgs {
    SyscallArgs {
        nr,
        arg0: a[0],
        arg1: a[1],
        arg2: a[2],
        arg3: a[3],
        arg4: a[4],
        arg5: a[5],
        caller_rip: 0xdead_beef,
        caller_rflags: 0x202,
    }
}

/// One CPU on which the thread `tid` runs, with an idle thread.
fn running(tid: u32) -> Scheduler {
    let mut sched = Scheduler::new();
    sched.init_for_cpu(0, 0x1000);
    let mut idle = Thread::new_test(9999);
    idle.state = ThreadState::Runnable;
    sched.threads.register(idle);
    sched.cpus[0].idle_thread = Some(Tid(9999));
    let mut t = Thread::new_test(tid);
    t.state = ThreadState::Running;
    t.on_cpu = true;
    sched.threads.register(t);
    sched.cpus[0].current_thread = Some(Tid(tid));
    sched.live_user_threads = 1;
    sched
}

struct Machine {
    dm: TestDirectMap,
    um: TestDirectMap,
    pa: PageAllocator,
    heap: KernelAllocator,
    sched: Scheduler,
}

fn machine() -> Machine {
    let (dm, pa, heap) = make_alloc(4);
    Machine { dm, um: user_memory(), pa, heap, sched: running(9201) }
}

fn clone_call(m: &mut Machine, args: &SyscallArgs) -> i64 {
    sys_clone(args, 0xffff_0000, &mut m.sched, 0, &mut m.heap, &mut m.pa, &mut m.dm, &mut m.um)
}

fn clone3_call(m: &mut Machine, args: &SyscallArgs) -> i64 {
    sys_clone3(args, 0xffff_0000, &mut m.sched, 0, &mut m.heap, &mut m.pa, &mut m.dm, &mut m.um)
}

fn args(flags: u64, child_stack: u64) -> SyscallArgs {
    call(56, [flags, child_stack, 0, 0, 0, 0])
}

#[test]
fn missing_clone_vm_returns_einval() {
    let a = args(CLONE_FS | CLONE_FILES | CLONE_SIGHAND | CLONE_THREAD, 0x1000);
    assert_eq!(clone_call(&mut machine(), &a), EINVAL);
}

#[test]
fn missing_clone_thread_returns_einval() {
    let a = args(CLONE_VM | CLONE_FS | CLONE_FILES | CLONE_SIGHAND, 0x1000);
    assert_eq!(clone_call(&mut machine(), &a), EINVAL);
}

#[test]
fn zero_flags_returns_einval() {
    let a = args(0, 0x1000);
    assert_eq!(clone_call(&mut machine(), &a), EINVAL);
}

#[test]
fn null_stack_returns_einval() {
    let a = args(REQUIRED, 0);
    assert_eq!(clone_call(&mut machine(), &a), EINVAL);
}

#[test]
fn minimum_valid_flags_pass_validation() {
    let mut m = machine();
    let a = args(REQUIRED, 0x1000);
    let tid = clone_call(&mut m, &a);
    assert!(tid > 1);
    let child = m.sched.threads.lookup(Tid(tid as u32)).unwrap();
    assert_eq!(child.state, ThreadState::Runnable);
    assert_eq!(m.sched.cpus[0].runqueue.load(), 1);
    assert_eq!(m.sched.live_user_threads, 2);
}

#[test]
fn extra_ignored_flags_accepted() {
    let mut m = machine();
    // CLONE_PARENT_SETTID (0x0010_0000) is allowed in addition to REQUIRED.
    let a = args(REQUIRED | 0x0010_0000, 0x1000);
    assert!(clone_call(&mut m, &a) > 1);
}

const CLONE_ARGS: u64 = USER + 0x100;

/// Puts the argument structure of `clone3` into user memory.
fn clone3_args_struct(m: &mut Machine, flags: u64, stack: u64, stack_size: u64, exit_signal: u64) {
    for (i, v) in [flags, 0, 0, 0, exit_signal, stack, stack_size, 0].iter().enumerate() {
        write_u64(&mut m.um, CLONE_ARGS + 8 * i as u64, *v);
    }
}

fn clone3_syscall_args(size: u64) -> SyscallArgs {
    call(435, [CLONE_ARGS, size, 0, 0, 0, 0])
}

#[test]
fn clone3_too_small_returns_einval() {
    let mut m = machine();
    clone3_args_struct(&mut m, REQUIRED, 0x1000, 0x2000, 0);
    assert_eq!(clone3_call(&mut m, &clone3_syscall_args(63)), EINVAL);
}

#[test]
fn clone3_null_args_returns_einval() {
    let mut a = call(435, [0, 64, 0, 0, 0, 0]);
    a.caller_rip = 0;
    a.caller_rflags = 0;
    assert_eq!(clone3_call(&mut machine(), &a), EINVAL);
}

#[test]
fn clone3_v0_minimum_ok() {
    let mut m = machine();
    clone3_args_struct(&mut m, REQUIRED, 0x1000, 0x2000, 0);
    assert!(clone3_call(&mut m, &clone3_syscall_args(64)) > 1);
}

#[test]
fn clone3_stack_overflow_returns_einval() {
    let mut m = machine();
    clone3_args_struct(&mut m, REQUIRED, u64::MAX, 1, 0);
    assert_eq!(clone3_call(&mut m, &clone3_syscall_args(64)), EINVAL);
}

#[test]
fn clone3_nonzero_exit_signal_returns_einval() {
    let mut m = machine();
    clone3_args_struct(&mut m, REQUIRED, 0x1000, 0x2000, 17);
    assert_eq!(clone3_call(&mut m, &clone3_syscall_args(64)), EINVAL);
}

#[test]
fn clone3_missing_required_flags_returns_einval() {
    let mut m = machine();
    clone3_args_struct(&mut m, 0, 0x1000, 0x2000, 0);
    assert_eq!(clone3_call(&mut m, &clone3_syscall_args(64)), EINVAL);
}

fn make_args(arg0: u64, arg1: u64) -> SyscallArgs {
    call(158, [arg0, arg1, 0, 0, 0, 0])
}

#[test]
fn arch_prctl_set_fs_noncanonical_rejected() {
    // Bit 47 set → non-canonical.
    let args = make_args(ARCH_SET_FS, 0xFFFF_8000_0000_0000);
    assert_eq!(sys_arch_prctl(&args, &mut user_memory(), &mut running(9100), 0).0, EINVAL);
}

#[test]
fn arch_prctl_set_fs_canonical_accepted_updates_current_thread() {
    let mut sched = running(9101);
    let args = make_args(ARCH_SET_FS, 0x7FFF_FFFF_0000);
    let (r, load) = sys_arch_prctl(&args, &mut user_memory(), &mut sched, 0);
    assert_eq!(r, 0);
    assert_eq!(sched.thread(Tid(9101)).fs_base, 0x7FFF_FFFF_0000);
    assert_eq!(load, Some(0x7FFF_FFFF_0000));
}

#[test]
fn arch_prctl_get_fs_null_rejected() {
    let args = make_args(ARCH_GET_FS, 0);
    assert_eq!(sys_arch_prctl(&args, &mut user_memory(), &mut running(9102), 0).0, EFAULT);
}

#[test]
fn arch_prctl_unknown_code_returns_einval() {
    let args = make_args(0x9999, 0);
    assert_eq!(sys_arch_prctl(&args, &mut user_memory(), &mut running(9103), 0).0, EINVAL);
}

#[test]
fn arch_prctl_get_fs_gives_back_what_was_set() {
    let mut sched = running(9104);
    let mut um = user_memory();
    assert_eq!(sys_arch_prctl(&make_args(ARCH_SET_FS, 0x1234_5000), &mut um, &mut sched, 0).0, 0);
    assert_eq!(sys_arch_prctl(&make_args(ARCH_GET_FS, USER + 8), &mut um, &mut sched, 0).0, 0);
    assert_eq!(read_u64(&um, USER + 8), 0x1234_5000);
}

/// Hardware without a random number to give.
struct Dry;

impl RandomSource for Dry {
    fn rdrand64(&mut self) -> Option<u64> {
        None
    }
}

/// Hardware that counts.
struct Counting(u64);

impl RandomSource for Counting {
    fn rdrand64(&mut self) -> Option<u64> {
        self.0 += 1;
        Some(self.0)
    }
}

const SEED: Option<[u8; 32]> = Some([0x42u8; 32]);

#[test]
fn test_getrandom_zero_len() {
    // A zero-length buffer request must return 0 immediately.
    let args = call(318, [0x1000, 0, 0, 0, 0, 0]);
    assert_eq!(
        sys_getrandom(&args, &mut Rng::new(Dry), &SEED, &mut user_memory()),
        0,
        "sys_getrandom with buflen=0 must return 0"
    );
}

#[test]
fn test_getrandom_null_buf() {
    // A null buffer pointer must return EFAULT regardless of length.
    let args = call(318, [0, 64, 0, 0, 0, 0]);
    assert_eq!(
        sys_getrandom(&args, &mut Rng::new(Dry), &SEED, &mut user_memory()),
        EFAULT,
        "sys_getrandom with null buf must return EFAULT"
    );
}

#[test]
fn test_getrandom_fills_buffer() {
    let mut um = user_memory();
    let result = fill_random(&mut Rng::new(Dry), &SEED, &mut um, USER, 64);
    assert_eq!(result, 64, "fill_random must return the number of bytes filled");
    assert!(
        read_bytes(&um, USER, 64).iter().any(|&b| b != 0),
        "fill_random must modify the buffer — all-zero output suggests fallback did not run"
    );
}

#[test]
fn test_getrandom_various_sizes() {
    for &size in &[1usize, 7, 8, 16, 31, 32, 33, 64] {
        let mut um = user_memory();
        let result = fill_random(&mut Rng::new(Dry), &SEED, &mut um, USER, size as u64);
        assert_eq!(result, size as i64, "fill_random({size}) must return {size}");
    }
}

#[test]
fn getrandom_lays_the_numbers_of_the_hardware_out_in_order() {
    let mut um = user_memory();
    assert_eq!(fill_random(&mut Rng::new(Counting(0)), &SEED, &mut um, USER, 12), 12);
    assert_eq!(read_bytes(&um, USER, 13), vec![1, 0, 0, 0, 0, 0, 0, 0, 2, 0, 0, 0, 0]);
}

fn make_sigprocmask_args(how: u64, set: u64, oldset: u64, sigsetsize: u64) -> SyscallArgs {
    call(14, [how, set, oldset, sigsetsize, 0, 0])
}

fn make_sigtimedwait_args(set: u64, timeout: u64, sigsetsize: u64) -> SyscallArgs {
    call(128, [set, 0, timeout, sigsetsize, 0, 0])
}

#[test]
fn sigprocmask_invalid_how_with_new_set_returns_einval() {
    let mut um = user_memory();
    write_u64(&mut um, USER, 0);
    let args = make_sigprocmask_args(!0, USER, 0, 8);
    assert_eq!(sys_rt_sigprocmask(&args, &mut um), EINVAL);
}

#[test]
fn sigprocmask_null_new_set_ignores_how_but_writes_old_set() {
    let mut um = user_memory();
    write_u64(&mut um, USER, 0xDEAD_BEEF);
    let args = make_sigprocmask_args(!0, 0, USER, 8);
    assert_eq!(sys_rt_sigprocmask(&args, &mut um), 0);
    assert_eq!(read_u64(&um, USER), 0);
}

#[test]
fn sigprocmask_rejects_wrong_sigsetsize() {
    let args = make_sigprocmask_args(SIG_BLOCK, 0, 0, 16);
    assert_eq!(sys_rt_sigprocmask(&args, &mut user_memory()), EINVAL);
}

#[test]
fn a_refused_call_touches_no_memory() {
    let mut um = user_memory();
    let end = u64::MAX - 3;
    assert_eq!(sys_rt_sigprocmask(&make_sigprocmask_args(SIG_BLOCK, 0, end, 16), &mut um), EINVAL);
    assert_eq!(sys_sched_getaffinity(&call(204, [7, 128, end, 0, 0, 0]), &mut um, 2), ESRCH);
}

#[test]
fn sigtimedwait_timed_wait_reports_no_pending_signal() {
    let mut um = user_memory();
    write_u64(&mut um, USER, 1u64 << 10);
    let args = make_sigtimedwait_args(USER, USER + 16, 8);
    assert_eq!(sys_rt_sigtimedwait(&args, &um, &mut running(9300), 0), Parking::Return(EAGAIN));
}

#[test]
fn sigtimedwait_rejects_wrong_sigsetsize() {
    let mut um = user_memory();
    write_u64(&mut um, USER, 1);
    let args = make_sigtimedwait_args(USER, USER + 16, 16);
    assert_eq!(sys_rt_sigtimedwait(&args, &um, &mut running(9301), 0), Parking::Return(EINVAL));
}

#[test]
fn sigtimedwait_rejects_null_set() {
    let um = user_memory();
    let args = make_sigtimedwait_args(0, USER + 16, 8);
    assert_eq!(sys_rt_sigtimedwait(&args, &um, &mut running(9302), 0), Parking::Return(EFAULT));
}

fn futex_args(uaddr: u64, op: u64, val: u64) -> SyscallArgs {
    call(202, [uaddr, op, val, 0, 0, 0])
}

#[test]
fn test_futex_private_flag() {
    let mut um = user_memory();
    write_u32(&mut um, USER, 7);
    let op = (FUTEX_WAIT | FUTEX_PRIVATE_FLAG) as u64;
    let args = futex_args(USER, op, 8);
    assert_eq!(
        sys_futex(&args, &um, &mut running(9001), 0),
        Parking::Return(EAGAIN),
        "FUTEX_WAIT|FUTEX_PRIVATE_FLAG must dispatch to FUTEX_WAIT arm",
    );
}

#[test]
fn test_futex_unknown_op() {
    let um = user_memory();
    let args = futex_args(USER, 99, 0);
    assert_eq!(
        sys_futex(&args, &um, &mut running(9003), 0),
        Parking::Return(ENOSYS),
        "unknown futex op must return ENOSYS",
    );
}

#[test]
fn set_robust_list_rejects_wrong_length() {
    let args = call(273, [0x1000, 32, 0, 0, 0, 0]);
    assert_eq!(sys_set_robust_list(&args, &mut running(9004), 0), EINVAL);
}

#[test]
fn set_robust_list_accepts_size_24() {
    let mut sched = running(9002);
    let args = call(273, [0x1000, 24, 0, 0, 0, 0]);
    assert_eq!(sys_set_robust_list(&args, &mut sched, 0), 0);
    assert_eq!(sched.thread(Tid(9002)).robust_list_head, 0x1000);
}

#[test]
fn futex_waiter_is_woken_by_a_wake_at_its_address() {
    let mut um = user_memory();
    write_u32(&mut um, USER, 7);
    let mut sched = running(9010);
    let parked = sys_futex(&futex_args(USER, FUTEX_WAIT as u64, 7), &um, &mut sched, 0);
    assert!(matches!(parked, Parking::Parked(Some(_))));
    assert_eq!(sched.thread(Tid(9010)).state, ThreadState::Blocked);
    assert_eq!(sched.cpus[0].current_thread, Some(Tid(9999)));
    sched.context_saved(Tid(9010));

    assert_eq!(sys_futex(&futex_args(USER + 4, FUTEX_WAKE as u64, 1), &um, &mut sched, 0), Parking::Return(0));
    assert_eq!(sys_futex(&futex_args(USER, FUTEX_WAKE as u64, 1), &um, &mut sched, 0), Parking::Return(1));
    assert_eq!(sched.thread(Tid(9010)).state, ThreadState::Runnable);
    assert_eq!(sched.cpus[0].runqueue.load(), 1);
    assert_eq!(sys_futex(&futex_args(USER, FUTEX_WAKE as u64, 1), &um, &mut sched, 0), Parking::Return(0));
}

#[test]
fn yielding_alone_goes_on() {
    let mut sched = running(9011);
    assert_eq!(sys_sched_yield(&call(24, [0; 6]), &mut sched, 0), Yield::Return(0));
    assert_eq!(sched.cpus[0].current_thread, Some(Tid(9011)));
}

/// A second CPU, where a thread waits behind the idle one.
fn with_waiting_peer(sched: &mut Scheduler, tid: u32) {
    sched.init_for_cpu(1, 0x2000);
    let mut idle = Thread::new_test(9998);
    idle.state = ThreadState::Running;
    idle.on_cpu = true;
    sched.threads.register(idle);
    sched.cpus[1].idle_thread = Some(Tid(9998));
    sched.cpus[1].current_thread = Some(Tid(9998));
    let mut t = Thread::new_test(tid);
    t.state = ThreadState::Runnable;
    sched.threads.register(t);
    let t = sched.thread(Tid(tid));
    sched.cpus[1].runqueue.push(&t);
}

#[test]
fn yielding_with_an_empty_queue_goes_on() {
    let mut sched = running(9011);
    with_waiting_peer(&mut sched, 9020);
    assert_eq!(sys_sched_yield(&call(24, [0; 6]), &mut sched, 0), Yield::Return(0));
    assert_eq!(sched.cpus[0].current_thread, Some(Tid(9011)));
    assert_eq!(sched.thread(Tid(9011)).state, ThreadState::Running);
    assert_eq!(sched.cpus[0].runqueue.load(), 1);
    assert_eq!(sched.cpus[1].runqueue.load(), 0);
    let again = sys_sched_yield(&call(24, [0; 6]), &mut sched, 0);
    assert!(matches!(again, Yield::Switched(Some(_))));
    assert_eq!(sched.cpus[0].current_thread, Some(Tid(9020)));
}

#[test]
fn last_exit_stops_the_machine() {
    let mut sched = running(9012);
    let r = sys_exit(&call(60, [3, 0, 0, 0, 0, 0]), &mut user_memory(), &mut sched, 0);
    assert!(matches!(r, Exit::Shutdown(3)));
    assert_eq!(sys_exit_group(&call(231, [5, 0, 0, 0, 0, 0])), 5);
}

#[test]
fn exit_clears_the_tid_word_and_leaves_a_zombie() {
    let mut sched = running(9013);
    sched.live_user_threads = 2;
    let mut um = user_memory();
    write_u32(&mut um, USER + 64, 9013);
    assert_eq!(sys_set_tid_address(&call(218, [USER + 64, 0, 0, 0, 0, 0]), &mut sched, 0), 9013);
    let r = sys_exit(&call(60, [0; 6]), &mut um, &mut sched, 0);
    assert!(matches!(r, Exit::Switched(Some(_))));
    assert_eq!(read_u32(&um, USER + 64), 0);
    assert_eq!(sched.zombies, vec![Tid(9013)]);
    assert_eq!(sched.thread(Tid(9013)).state, ThreadState::Exited);
    assert_eq!(sched.live_user_threads, 1);
}

#[test]
fn ids_of_the_running_thread() {
    let sched = running(9014);
    assert_eq!(sys_gettid(&call(186, [0; 6]), &sched, 0), 9014);
    assert_eq!(sys_getpid(&call(39, [0; 6]), &sched, 0), sched.thread(Tid(9014)).tgid.0 as i64);
}

#[test]
fn affinity_names_the_cpus() {
    let mut um = user_memory();
    write_u64(&mut um, USER, u64::MAX);
    assert_eq!(sys_sched_getaffinity(&call(204, [0, 8, USER, 0, 0, 0]), &mut um, 3), 8);
    assert_eq!(read_u64(&um, USER), 0b111);
    assert_eq!(sys_sched_getaffinity(&call(204, [0, 4, USER, 0, 0, 0]), &mut um, 3), EINVAL);
}

#[test]
fn numbers_lead_to_their_handlers() {
    assert_eq!(syscall_dispatch(&call(0, [0; 6])), Some(Handler::Read));
    assert_eq!(syscall_dispatch(&call(56, [0; 6])), Some(Handler::Clone));
    assert_eq!(syscall_dispatch(&call(435, [0; 6])), Some(Handler::Clone3));
    assert_eq!(syscall_dispatch(&call(100_000, [0; 6])), None);
    assert_eq!(immediate_answer(&call(100_000, [0; 6])), Some(-38));
    assert_eq!(immediate_answer(&call(334, [0; 6])), Some(-38));
    assert_eq!(immediate_answer(&call(0, [0; 6])), None);
}

#[test]
fn a_return_switches_where_it_was_asked_for() {
    let mut sched = running(9015);
    assert_eq!(syscall_return(&mut sched, 0, 0), (false, None));
    let mut other = Thread::new_test(9016);
    other.state = ThreadState::Runnable;
    sched.threads.register(other);
    sched.cpus[0].runqueue.push(&other);
    sched.cpus[0].need_resched = true;
    let (flush, switch) = syscall_return(&mut sched, 0, 1);
    assert!(flush);
    let switch = switch.unwrap();
    assert_eq!((switch.prev, switch.next), (Tid(9015), Tid(9016)));
    assert!(!sched.cpus[0].need_resched);
    assert_eq!(sched.cpus[0].tlb_generation, 1);
}
