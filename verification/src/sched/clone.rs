//! Making a thread for the user.

use vstd::prelude::*;

use super::thread::{Thread, ThreadContext, ThreadState, Tid, WaitLink, NEVER_RAN};
use crate::address::{PhysicalAddr, VirtualAddr};
use crate::layout::{DIRECT_MAP_OFFSET, KERNEL_STACK_SIZE};
use crate::memory::access::{byte, le_words, range, same_window, within, write_words, Memory};
use crate::memory::allocators::kmalloc::{
    allocated, in_used_pages, keeps, law_user_writes_keep_heap, lemma_keeps_trans, natural_alignment, Block,
    KernelAllocator, HEADER_SIZE,
};
use crate::memory::allocators::palloc::{PageAllocator, peak_grows};
use crate::memory::errors::{MemoryError};

verus! {

/// The registers that a new thread starts with in user mode.
#[derive(Clone, Copy, Debug, PartialEq, Eq, Structural)]
pub struct InitialFrame {
    pub arg0: u64,
    pub arg1: u64,
    pub arg2: u64,
    pub arg3: u64,
    pub arg4: u64,
    pub arg5: u64,
    pub user_rip: u64,
    pub user_rflags: u64,
    pub user_rsp: u64,
}

#[derive(Clone, Copy, Debug, PartialEq, Eq, Structural)]
pub enum CloneError {
    OutOfMemory,
}

/// Flags of a thread that starts: the reserved bit, and interrupts on.
pub const START_FLAGS: u64 = 0x202;

/// Size of what stands on a new kernel stack.
pub const FRAME_SIZE: u64 = 80;

/// The words on the stack of a new thread, from the lowest up: where the first switch
/// to the thread goes, then the registers that are taken from the stack there.
pub open spec fn frame_words(trampoline: u64, f: InitialFrame) -> Seq<u64> {
    seq![trampoline, f.arg0, f.arg1, f.arg2, f.arg3, f.arg4, f.arg5, f.user_rip, f.user_rflags, f.user_rsp]
}

/// `t` is a new thread of the user, with a kernel stack at `stack`.
pub open spec fn is_new_user_thread(
    t: Thread,
    tid: Tid,
    tgid: Tid,
    fs_base: u64,
    user_stack_base: VirtualAddr,
    user_stack_size: u64,
    clear_child_tid: u64,
    stack: PhysicalAddr,
) -> bool {
    let top = (stack.0 + KERNEL_STACK_SIZE + DIRECT_MAP_OFFSET) as u64;
    &&& t.tid == tid
    &&& t.tgid == tgid
    &&& t.state is New
    &&& t.exit_code == 0
    &&& t.ctx.starts_at((top - FRAME_SIZE) as u64, START_FLAGS)
    &&& t.kernel_stack_top == VirtualAddr(top)
    &&& t.kernel_stack_phys == stack
    &&& t.kernel_stack_size == KERNEL_STACK_SIZE
    &&& t.kernel_stack_freeable
    &&& t.user_stack_base == user_stack_base
    &&& t.user_stack_size == user_stack_size
    &&& t.fs_base == fs_base
    &&& t.clear_child_tid == clear_child_tid
    &&& t.robust_list_head == 0
    &&& t.cpu == NEVER_RAN
    &&& !t.on_cpu
    &&& t.wait_link == (WaitLink { uaddr: 0, bitset: 0 })
    &&& t.entry_fn == 0
    &&& t.entry_arg == 0
}

/// The memory of a new kernel stack at `stack`: `words` at its top, zero below them.
pub open spec fn is_new_stack<M: Memory>(dm: &M, stack: PhysicalAddr, words: Seq<u64>) -> bool {
    &&& within(dm, stack.0 as int, KERNEL_STACK_SIZE as int)
    &&& range(dm, stack.0 + KERNEL_STACK_SIZE - FRAME_SIZE, FRAME_SIZE as int) == le_words(words)
    &&& forall|a: int| stack.0 <= a < stack.0 + KERNEL_STACK_SIZE - FRAME_SIZE ==> #[trigger] byte(dm, a) == 0
}

/// Allocates a kernel stack and builds a thread that, when it is first switched to,
/// goes to `trampoline` with the frame on its stack.
pub fn clone_create_user_thread<M: Memory>(
    tid: Tid,
    tgid: Tid,
    frame: InitialFrame,
    fs_base: u64,
    user_stack_base: VirtualAddr,
    user_stack_size: u64,
    clear_child_tid: u64,
    trampoline: u64,
    heap: &mut KernelAllocator,
    palloc: &mut PageAllocator,
    dm: &mut M,
) -> (r: Result<Thread, CloneError>)
    requires
        old(palloc).wf(),
        old(heap).wf(old(palloc)@, old(dm)),
    ensures
        peak_grows(old(palloc)@, old(palloc).peak(), final(palloc)@, final(palloc).peak()),
        final(palloc).wf(),
        final(heap).wf(final(palloc)@, final(dm)),
        same_window(old(dm), final(dm)),
        keeps(old(dm), final(dm), old(heap).live()),
        allocated(
            *old(heap),
            *final(heap),
            old(palloc)@,
            final(palloc)@,
            KERNEL_STACK_SIZE as int,
            natural_alignment(KERNEL_STACK_SIZE as int),
            match r {
                Ok(t) => Ok(t.kernel_stack_phys),
                Err(_) => Err(MemoryError::OutOfMemory),
            },
        ),
        r matches Ok(t) ==> {
            let stack = t.kernel_stack_phys;
            &&& is_new_user_thread(t, tid, tgid, fs_base, user_stack_base, user_stack_size, clear_child_tid, stack)
            &&& is_new_stack(final(dm), stack, frame_words(trampoline, frame))
            &&& final(heap).live().contains_key(stack.0 - HEADER_SIZE)
            &&& stack.0 as int % natural_alignment(KERNEL_STACK_SIZE as int) == 0
        },
{
    let stack: PhysicalAddr = match heap.calloc(palloc, dm, KERNEL_STACK_SIZE) {
        Ok(stack) => stack,
        Err(_) => {
            return Err(CloneError::OutOfMemory);
        },
    };
    let ghost before = *dm;
    let ghost s = stack.0 - HEADER_SIZE;
    proof {
        assert(heap.live().contains_key(s));
        assert(in_used_pages(palloc@, Block { start: s, size: heap.live()[s] }));
        assert(within(dm, s, heap.live()[s]));
    }
    let top_phys: u64 = stack.as_u64() + KERNEL_STACK_SIZE;
    let top: u64 = top_phys + DIRECT_MAP_OFFSET;
    let words: Vec<u64> = vec![
        trampoline,
        frame.arg0,
        frame.arg1,
        frame.arg2,
        frame.arg3,
        frame.arg4,
        frame.arg5,
        frame.user_rip,
        frame.user_rflags,
        frame.user_rsp,
    ];
    assert(words@ =~= frame_words(trampoline, frame));
    write_words(dm, top_phys - FRAME_SIZE, words.as_slice());
    proof {
        law_user_writes_keep_heap(*heap, palloc@, &before, dm, s, top_phys - FRAME_SIZE, top_phys as int);
        let rest = heap.live().remove(s);
        assert(rest =~= old(heap).live());
        lemma_keeps_trans(old(dm), &before, dm, old(heap).live());
        assert(range(dm, top_phys - FRAME_SIZE, FRAME_SIZE as int) =~= le_words(words@));
        assert forall|a: int| stack.0 <= a < stack.0 + KERNEL_STACK_SIZE - FRAME_SIZE implies #[trigger] byte(dm, a) == 0 by {
            assert(byte(&before, a) == 0);
        }
    }
    Ok(
        Thread {
            tid,
            tgid,
            state: ThreadState::New,
            exit_code: 0,
            ctx: ThreadContext::new(top - FRAME_SIZE, START_FLAGS),
            kernel_stack_top: VirtualAddr::new(top),
            kernel_stack_phys: stack,
            kernel_stack_size: KERNEL_STACK_SIZE,
            kernel_stack_freeable: true,
            user_stack_base,
            user_stack_size,
            fs_base,
            clear_child_tid,
            robust_list_head: 0,
            cpu: NEVER_RAN,
            on_cpu: false,
            wait_link: WaitLink::new(),
            entry_fn: 0,
            entry_arg: 0,
        },
    )
}

} // verus!
