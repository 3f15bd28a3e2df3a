//! Sizes and places of the guest's memory.

use vstd::prelude::*;

verus! {

/// Size of the pages that the kernel maps and allocates.
pub const PAGE_SIZE: u64 = 0x20_0000;

/// Size of an ordinary x86-64 page.
pub const BASE_PAGE_SIZE: u64 = 0x1000;

/// Size of one level of a page table.
pub const PAGE_TABLE_SIZE: u64 = 0x1000;

/// Largest amount of physical memory that a guest can have.
pub const MAX_GUEST_MEMORY: u64 = 0x1_0000_0000;

/// Physical address of the boot stack; allocatable memory starts here.
pub const KERNEL_STACK: u64 = 0x100_0000;

/// Size of the stack that each kernel thread gets.
pub const KERNEL_STACK_SIZE: u64 = 0x8000;

/// Highest end of a mapping that the kernel places for a user.
pub const USER_MMAP_BASE: u64 = 0x7000_0000_0000;

/// Start of the window through which file pages are mapped directly.
pub const DAX_WINDOW_BASE: u64 = 0x10_0000_0000;

/// Number of pages in the direct-access window.
pub const DAX_SLOT_COUNT: u64 = 512;

/// Size of the direct-access window.
pub const DAX_WINDOW_SIZE: u64 = 0x4000_0000;

/// Where all of physical memory is mapped for the kernel.
pub const DIRECT_MAP_OFFSET: u64 = 0xffff_8000_0000_0000;

} // verus!
