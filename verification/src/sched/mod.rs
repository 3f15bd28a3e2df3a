//! Threads and the scheduler.

pub mod clone;
pub mod futex;
pub mod irq;
pub mod kthread;
pub mod percpu;
pub mod reaper;
pub mod registry;
pub mod runqueue;
pub mod scheduler;
pub mod steal;
pub mod thread;
