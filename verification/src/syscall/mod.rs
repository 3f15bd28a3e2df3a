//! System calls: their arguments and results, their numbers, and their handlers.

pub mod args;
pub mod blocking;
pub mod dispatch;
pub mod errno;
pub mod handlers;
