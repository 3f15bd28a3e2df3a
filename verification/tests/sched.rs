use sumi_kernel::net::wait::WaitQueue;
use sumi_kernel::sched::futex::{bucket_for, FUTEX_BUCKETS};
use sumi_kernel::sched::percpu::{PerCpu, MAX_VCPUS};
use sumi_kernel::sched::reaper::push_zombie;
use sumi_kernel::sched::registry::ThreadRegistry;
use sumi_kernel::sched::runqueue::RunQueue;
use sumi_kernel::sched::scheduler::Scheduler;
use sumi_kernel::sched::thread::{Thread, ThreadState, Tid};

fn make_thread(tid: u32) -> Thread {
    Thread::new_test(tid)
}

fn new_zombie(tid: u32) -> Thread {
    let mut t = Thread::new_test(tid);
    t.state = ThreadState::Exited;
    t
}

#[test]
fn push_and_wake_all_empties_queue() {
    let mut sched = Scheduler::new();
    sched.init_for_cpu(0, 0x1000);
    let mut t = Thread::new_test(100);
    t.state = ThreadState::Blocked;
    sched.threads.register(t);

    let mut q = WaitQueue::new();
    q.push(&t);
    assert!(!q.is_empty());

    q.wake_all(&mut sched, 0);
    assert!(q.is_empty());
    assert_eq!(sched.thread(Tid(100)).state, ThreadState::Runnable);
    assert_eq!(sched.cpus[0].runqueue.load(), 1);
}

#[test]
fn wake_all_on_empty_queue_is_a_noop() {
    let mut sched = Scheduler::new();
    sched.init_for_cpu(0, 0x1000);
    let mut q = WaitQueue::new();
    q.wake_all(&mut sched, 0);
    assert!(q.is_empty());
}

#[test]
fn bucket_array_len_is_power_of_two() {
    assert_eq!(FUTEX_BUCKETS.count_ones(), 1);
    assert_eq!(Scheduler::new().futexes.len(), FUTEX_BUCKETS);
}

#[test]
fn bucket_for_is_stable() {
    let a = bucket_for(0x1000);
    let b = bucket_for(0x1000);
    assert_eq!(a, b);
}

#[test]
fn bucket_for_distributes_across_aligned_addresses() {
    let mut set = std::collections::HashSet::new();
    for i in 0..1024u64 {
        set.insert(bucket_for(0x10_0000 + i * 4));
    }
    assert!(set.len() >= 200, "poor distribution: {}", set.len());
}

#[test]
fn bucket_for_masks_to_array_bounds() {
    for i in 0..4096u64 {
        let p = bucket_for(i * 4);
        assert!(p < FUTEX_BUCKETS);
    }
}

#[test]
fn zeroed_self_ptr_is_null() {
    let p = PerCpu::zeroed();
    assert_eq!(p.self_ptr, 0);
}

#[test]
fn zeroed_is_zero() {
    let p = PerCpu::zeroed();
    assert_eq!(p.cpu_id, 0);
    assert_eq!(p.saved_user_rsp, 0);
}

#[test]
fn max_vcpus_matches_sumi_vm_cap() {
    assert_eq!(MAX_VCPUS, 64);
}

#[test]
fn zeroed_phase3_fields_are_null_and_false() {
    let p = PerCpu::zeroed();
    assert!(p.current_thread.is_none());
    assert!(p.idle_thread.is_none());
    assert!(!p.need_resched);
    assert!(!p.is_idle);
}

#[test]
fn max_vcpus_still_64() {
    assert_eq!(MAX_VCPUS, 64);
}

#[test]
fn zombie_list_starts_empty() {
    let sched = Scheduler::new();
    assert_eq!(sched.zombies.len(), 0);
}

#[test]
fn push_zombie_appends_to_list() {
    let mut sched = Scheduler::new();
    sched.threads.register(new_zombie(7001));
    sched.threads.register(new_zombie(7002));
    push_zombie(&mut sched, Tid(7001));
    push_zombie(&mut sched, Tid(7002));
    assert_eq!(sched.zombies.len(), 2);
    assert_eq!(sched.zombies[0].0, 7001);
    assert_eq!(sched.zombies[1].0, 7002);
    assert!(sched.zombies_pending);
}

#[test]
fn alloc_tid_starts_at_2() {
    let mut reg = ThreadRegistry::new();
    let tid = reg.alloc_tid();
    assert_eq!(tid, Tid(2));
}

#[test]
fn alloc_tid_increments() {
    let mut reg = ThreadRegistry::new();
    let t1 = reg.alloc_tid();
    let t2 = reg.alloc_tid();
    assert_eq!(t1, Tid(2));
    assert_eq!(t2, Tid(3));
}

#[test]
fn register_and_lookup() {
    let mut reg = ThreadRegistry::new();
    let t = make_thread(42);
    reg.register(t);
    let found = reg.lookup(Tid(42));
    assert!(found.is_some());
    assert_eq!(found.unwrap().tid, Tid(42));
}

#[test]
fn unregister_removes_entry() {
    let mut reg = ThreadRegistry::new();
    let t = make_thread(5);
    reg.register(t);
    let removed = reg.unregister(Tid(5));
    assert!(removed.is_some());
    assert!(reg.lookup(Tid(5)).is_none());
}

#[test]
fn alive_count_tracks_insertions() {
    let mut reg = ThreadRegistry::new();
    assert_eq!(reg.alive_count(), 0);
    reg.register(make_thread(10));
    assert_eq!(reg.alive_count(), 1);
    reg.register(make_thread(11));
    assert_eq!(reg.alive_count(), 2);
    reg.unregister(Tid(10));
    assert_eq!(reg.alive_count(), 1);
}

#[test]
fn register_main_stores_tid1() {
    let mut reg = ThreadRegistry::new();
    reg.register_main(Thread::new_test(1));
    assert!(reg.lookup(Tid(1)).is_some());
}

#[test]
fn empty_queue_pop_returns_none() {
    let mut q = RunQueue::new();
    assert!(q.pop().is_none());
}

#[test]
fn load_starts_at_zero() {
    let q = RunQueue::new();
    assert_eq!(q.load(), 0);
}

#[test]
fn push_increments_load() {
    let mut q = RunQueue::new();
    let t = make_thread(1);
    q.push(&t);
    assert_eq!(q.load(), 1);
}

#[test]
fn push_pop_roundtrip() {
    let mut q = RunQueue::new();
    let t = make_thread(42);
    q.push(&t);
    let popped = q.pop().expect("should have one entry");
    assert_eq!(popped, t.tid);
    assert_eq!(q.load(), 0);
}

#[test]
fn fifo_ordering() {
    let mut q = RunQueue::new();
    let a = make_thread(1);
    let b = make_thread(2);
    let c = make_thread(3);
    q.push(&a);
    q.push(&b);
    q.push(&c);
    assert_eq!(q.pop().unwrap(), a.tid);
    assert_eq!(q.pop().unwrap(), b.tid);
    assert_eq!(q.pop().unwrap(), c.tid);
    assert!(q.pop().is_none());
}

#[test]
fn load_decrements_on_pop() {
    let mut q = RunQueue::new();
    let t1 = make_thread(7);
    let t2 = make_thread(8);
    q.push(&t1);
    q.push(&t2);
    assert_eq!(q.load(), 2);
    q.pop();
    assert_eq!(q.load(), 1);
    q.pop();
    assert_eq!(q.load(), 0);
}

#[test]
fn interleaved_push_pop() {
    let mut q = RunQueue::new();
    let a = make_thread(1);
    let b = make_thread(2);
    q.push(&a);
    let p = q.pop().unwrap();
    assert_eq!(p, a.tid);
    q.push(&b);
    let p2 = q.pop().unwrap();
    assert_eq!(p2, b.tid);
}
