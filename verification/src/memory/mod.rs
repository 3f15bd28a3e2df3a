//! Physical memory, the kernel heap and the user's address space.

pub mod access;
pub mod allocators;
pub mod errors;
pub mod page_table;
pub mod pages;
pub mod space;
pub mod test_utils;
pub mod vma;
