//! The handlers of the system calls.

pub mod clone;
pub mod dirents;
pub mod epoll;
pub mod fs;
pub mod io;
pub mod iovec;
pub mod memory;
pub mod mmap;
pub mod net;
pub mod path;
pub mod poll;
pub mod process;
pub mod random;
pub mod signal;
pub mod thread;
pub mod time;
pub mod transfer;
pub mod vectored;
