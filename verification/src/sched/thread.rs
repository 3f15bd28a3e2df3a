//! The thread descriptor.

use vstd::prelude::*;

use crate::address::{PhysicalAddr, VirtualAddr};

verus! {

/// Linux-compatible thread id. 0 is reserved, the main thread is 1, all others
/// start at 2.
#[derive(Clone, Copy, Debug, PartialEq, Eq, Hash, Structural)]
pub struct Tid(pub u32);

#[derive(Clone, Copy, Debug, PartialEq, Eq, Structural)]
pub enum ThreadState {
    New,
    Runnable,
    Running,
    Blocked,
    Exited,
}

/// The image of the legacy x87, MMX and SSE registers.
#[derive(Clone, Copy)]
pub struct FxsaveArea(pub [u8; 512]);

/// The byte at `i` of the initial register image: an x87 control word of 0x037f
/// and an MXCSR of 0x1f80, all else zero.
pub open spec fn initial_fx_byte(i: int) -> u8 {
    if i == 0 {
        0x7f
    } else if i == 1 {
        0x03
    } else if i == 24 {
        0x80
    } else if i == 25 {
        0x1f
    } else {
        0
    }
}

impl FxsaveArea {
    /// The state that the CPU has after `fninit`: round to nearest, every exception masked.
    pub fn new() -> (r: Self)
        ensures
            forall|i: int| 0 <= i < 512 ==> #[trigger] r.0@[i] == initial_fx_byte(i),
    {
        let mut buf: [u8; 512] = [0u8; 512];
        buf[0] = 0x7f;
        buf[1] = 0x03;
        buf[24] = 0x80;
        buf[25] = 0x1f;
        FxsaveArea(buf)
    }
}

impl Default for FxsaveArea {
    fn default() -> (r: Self)
        ensures
            forall|i: int| 0 <= i < 512 ==> #[trigger] r.0@[i] == initial_fx_byte(i),
    {
        FxsaveArea::new()
    }
}

/// The registers that a context switch saves and restores.
#[derive(Clone, Copy)]
pub struct ThreadContext {
    pub rsp: u64,
    pub rbp: u64,
    pub rbx: u64,
    pub r12: u64,
    pub r13: u64,
    pub r14: u64,
    pub r15: u64,
    pub rflags: u64,
    pub fxsave_area: FxsaveArea,
}

impl ThreadContext {
    /// The context starts at `rsp` with the flags `rflags`, all other registers
    /// zero and the floating-point state initial.
    pub open spec fn starts_at(self, rsp: u64, rflags: u64) -> bool {
        &&& self.rsp == rsp
        &&& self.rflags == rflags
        &&& self.rbp == 0 && self.rbx == 0 && self.r12 == 0 && self.r13 == 0 && self.r14 == 0 && self.r15 == 0
        &&& forall|i: int| 0 <= i < 512 ==> #[trigger] self.fxsave_area.0@[i] == initial_fx_byte(i)
    }

    /// A context that starts at `rsp` with the flags `rflags`.
    pub fn new(rsp: u64, rflags: u64) -> (r: Self)
        ensures
            r.starts_at(rsp, rflags),
    {
        ThreadContext {
            rsp,
            rbp: 0,
            rbx: 0,
            r12: 0,
            r13: 0,
            r14: 0,
            r15: 0,
            rflags,
            fxsave_area: FxsaveArea::new(),
        }
    }
}

/// What a thread in a futex queue waits for.
#[derive(Clone, Copy, Debug, PartialEq, Eq, Structural)]
pub struct WaitLink {
    pub uaddr: u64,
    pub bitset: u32,
}

impl WaitLink {
    pub fn new() -> (r: Self)
        ensures
            r == (WaitLink { uaddr: 0, bitset: 0 }),
    {
        WaitLink { uaddr: 0, bitset: 0 }
    }
}

impl Default for WaitLink {
    fn default() -> (r: Self)
        ensures
            r == (WaitLink { uaddr: 0, bitset: 0 }),
    {
        WaitLink::new()
    }
}

/// The value of `Thread::cpu` of a thread that never ran.
pub const NEVER_RAN: u32 = 0xffff_ffff;

/// The thread descriptor.
#[derive(Clone, Copy)]
pub struct Thread {
    pub tid: Tid,
    pub tgid: Tid,
    pub state: ThreadState,
    pub exit_code: i32,
    pub ctx: ThreadContext,
    pub kernel_stack_top: VirtualAddr,
    pub kernel_stack_phys: PhysicalAddr,
    pub kernel_stack_size: u64,
    /// The kernel stack came from the kernel heap, and the reaper gives it back.
    pub kernel_stack_freeable: bool,
    pub user_stack_base: VirtualAddr,
    pub user_stack_size: u64,
    /// Base of the thread-local storage.
    pub fs_base: u64,
    /// Address that is set to 0 when the thread exits.
    pub clear_child_tid: u64,
    /// Head of the list of robust futexes.
    pub robust_list_head: u64,
    /// The CPU that the thread ran on last.
    pub cpu: u32,
    /// The registers of the thread are on a CPU: from the moment that it is chosen
    /// to run until its context has been saved.
    pub on_cpu: bool,
    pub wait_link: WaitLink,
    /// Where a kernel thread starts, or 0.
    pub entry_fn: u64,
    pub entry_arg: u64,
}

impl Thread {
    /// The thread is new: no exit code, no stack of a user, not waiting, no thread-local
    /// storage, nothing to clear on exit.
    pub open spec fn is_fresh(self) -> bool {
        &&& self.exit_code == 0
        &&& self.user_stack_base == VirtualAddr(0)
        &&& self.user_stack_size == 0
        &&& self.fs_base == 0
        &&& self.clear_child_tid == 0
        &&& self.robust_list_head == 0
        &&& self.wait_link == (WaitLink { uaddr: 0, bitset: 0 })
    }

    /// A runnable thread without stacks.
    pub fn new_test(tid: u32) -> (r: Self)
        ensures
            r.tid == Tid(tid),
            r.tgid == Tid(tid),
            r.state == ThreadState::Runnable,
            r.ctx.starts_at(0, 0),
            r.kernel_stack_top == VirtualAddr(0),
            r.kernel_stack_phys == PhysicalAddr(0),
            r.kernel_stack_size == 0,
            !r.kernel_stack_freeable,
            r.cpu == NEVER_RAN,
            !r.on_cpu,
            r.entry_fn == 0,
            r.entry_arg == 0,
            r.is_fresh(),
    {
        Thread {
            tid: Tid(tid),
            tgid: Tid(tid),
            state: ThreadState::Runnable,
            exit_code: 0,
            ctx: ThreadContext::new(0, 0),
            kernel_stack_top: VirtualAddr::new(0),
            kernel_stack_phys: PhysicalAddr::new(0),
            kernel_stack_size: 0,
            kernel_stack_freeable: false,
            user_stack_base: VirtualAddr::new(0),
            user_stack_size: 0,
            fs_base: 0,
            clear_child_tid: 0,
            robust_list_head: 0,
            cpu: NEVER_RAN,
            on_cpu: false,
            wait_link: WaitLink::new(),
            entry_fn: 0,
            entry_arg: 0,
        }
    }
}

} // verus!
