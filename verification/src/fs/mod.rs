//! File descriptors, and the client of the host's file system.

pub mod client;
pub mod fd_table;
