//! The kernel of a single-address-space unikernel, as a verified library:
//! memory allocators, address-space bookkeeping, file descriptors, pipes and
//! sockets, the scheduler's queues, and the system calls built on them.

pub mod address;
pub mod bits;
pub mod console;
pub mod fs;
pub mod laws;
pub mod layout;
pub mod memory;
pub mod net;
pub mod sched;
pub mod selftest;
pub mod syscall;
pub mod time;
