//! The state that each CPU has of its own.

use vstd::prelude::*;

use super::runqueue::RunQueue;
use super::thread::Tid;

verus! {

/// Largest number of virtual CPUs.
pub const MAX_VCPUS: usize = 64;

/// The state of one CPU. A CPU that was not brought up has no `self_ptr`.
pub struct PerCpu {
    /// Address of this CPU's state, or 0 as long as the CPU is down.
    pub self_ptr: u64,
    /// Stack pointer of the user during the entry of a system call.
    pub saved_user_rsp: u64,
    pub cpu_id: u32,
    /// The thread that runs.
    pub current_thread: Option<Tid>,
    /// The thread that runs when there is no other.
    pub idle_thread: Option<Tid>,
    /// Another thread should get the CPU on the next return from a system call.
    pub need_resched: bool,
    /// The CPU is about to halt, so only an interrupt wakes it.
    pub is_idle: bool,
    pub runqueue: RunQueue,
    /// The latest change of the page tables that this CPU's TLB has followed.
    pub tlb_generation: u64,
    pub preempt_count: u32,
}

/// What a `PerCpu` stands for.
#[verifier::ext_equal]
pub struct Cpu {
    pub self_ptr: u64,
    pub saved_user_rsp: u64,
    pub cpu_id: u32,
    pub current: Option<Tid>,
    pub idle: Option<Tid>,
    pub need_resched: bool,
    pub is_idle: bool,
    pub queue: Seq<Tid>,
    pub tlb_generation: u64,
    pub preempt_count: u32,
}

impl View for PerCpu {
    type V = Cpu;

    open spec fn view(&self) -> Cpu {
        Cpu {
            self_ptr: self.self_ptr,
            saved_user_rsp: self.saved_user_rsp,
            cpu_id: self.cpu_id,
            current: self.current_thread,
            idle: self.idle_thread,
            need_resched: self.need_resched,
            is_idle: self.is_idle,
            queue: self.runqueue@,
            tlb_generation: self.tlb_generation,
            preempt_count: self.preempt_count,
        }
    }
}

/// A CPU with this id, whose state is at `self_ptr`, before it runs any thread.
pub open spec fn blank_cpu(cpu_id: u32, self_ptr: u64) -> Cpu {
    Cpu {
        self_ptr,
        saved_user_rsp: 0,
        cpu_id,
        current: None,
        idle: None,
        need_resched: false,
        is_idle: false,
        queue: Seq::empty(),
        tlb_generation: 0,
        preempt_count: 0,
    }
}

impl PerCpu {
    /// The state of a CPU that is down.
    pub fn zeroed() -> (r: Self)
        ensures
            r@ == blank_cpu(0, 0),
    {
        PerCpu::blank(0, 0)
    }

    /// The state of a CPU that has just been brought up.
    pub fn blank(cpu_id: u32, self_ptr: u64) -> (r: Self)
        ensures
            r@ == blank_cpu(cpu_id, self_ptr),
    {
        PerCpu {
            self_ptr,
            saved_user_rsp: 0,
            cpu_id,
            current_thread: None,
            idle_thread: None,
            need_resched: false,
            is_idle: false,
            runqueue: RunQueue::new(),
            tlb_generation: 0,
            preempt_count: 0,
        }
    }

    /// Catches up with the page tables of generation `global`. Gives back whether the
    /// TLB has to be flushed for that.
    pub fn reload_tlb_if_stale(&mut self, global: u64) -> (flush: bool)
        ensures
            flush == (old(self).tlb_generation < global),
            final(self)@ == (Cpu {
                tlb_generation: if flush { global } else { old(self).tlb_generation },
                ..old(self)@
            }),
    {
        if self.tlb_generation < global {
            self.tlb_generation = global;
            true
        } else {
            false
        }
    }
}

} // verus!
