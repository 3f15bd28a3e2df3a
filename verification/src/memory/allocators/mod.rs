//! Allocators of physical pages, kernel heap blocks and user mappings.

pub mod dax;
pub mod kmalloc;
pub mod mmap_alloc;
pub mod palloc;
