//! Memory backed by a heap buffer, for running the kernel's code as a program.

use vstd::prelude::*;

use crate::layout::{KERNEL_STACK, PAGE_SIZE};
use crate::memory::access::Memory;
use crate::memory::allocators::kmalloc::{Block, KernelAllocator};
use crate::memory::allocators::palloc::{PageAllocator, PAGE_COUNT, RESERVED_PAGES};

verus! {

/// Backs a window of addresses with a buffer.
pub struct TestDirectMap {
    phys_base: u64,
    buf: Vec<u8>,
}

impl TestDirectMap {
    /// `pages` zeroed pages of physical memory, the first at the boot stack.
    pub fn new(pages: usize) -> (r: Self)
        requires
            pages * PAGE_SIZE <= usize::MAX,
        ensures
            r.base() == KERNEL_STACK,
            r.bytes() == Seq::new((pages * PAGE_SIZE) as nat, |k: int| 0u8),
    {
        Self::at(KERNEL_STACK, pages * PAGE_SIZE as usize)
    }

    /// `len` zeroed bytes, the first at `base`.
    pub fn at(base: u64, len: usize) -> (r: Self)
        ensures
            r.base() == base,
            r.bytes() == Seq::new(len as nat, |k: int| 0u8),
    {
        let r = TestDirectMap { phys_base: base, buf: vec![0u8; len] };
        assert(r.bytes() =~= Seq::new(len as nat, |k: int| 0u8));
        r
    }
}

impl Memory for TestDirectMap {
    closed spec fn base(&self) -> int {
        self.phys_base as int
    }

    closed spec fn bytes(&self) -> Seq<u8> {
        self.buf@
    }

    fn read_u8(&self, addr: u64) -> (b: u8) {
        let _len: usize = self.buf.len();
        self.buf[(addr - self.phys_base) as usize]
    }

    fn write_u8(&mut self, addr: u64, value: u8) {
        let _len: usize = self.buf.len();
        self.buf.set((addr - self.phys_base) as usize, value);
    }
}

/// Memory of `pages` pages, a page allocator and a heap, all unused.
pub fn make_alloc(pages: usize) -> (r: (TestDirectMap, PageAllocator, KernelAllocator))
    requires
        pages * PAGE_SIZE <= usize::MAX,
    ensures
        r.0.base() == KERNEL_STACK,
        r.0.bytes() == Seq::new((pages * PAGE_SIZE) as nat, |k: int| 0u8),
        r.1.wf(),
        r.1@ == Seq::new(PAGE_COUNT as nat, |k: int| k < RESERVED_PAGES),
        r.1.peak() == 0,
        r.2.free_blocks() == Seq::<Block>::empty(),
        r.2.live() == Map::<int, int>::empty(),
        r.2.head() == 0,
{
    (TestDirectMap::new(pages), PageAllocator::new(), KernelAllocator::new())
}

} // verus!
