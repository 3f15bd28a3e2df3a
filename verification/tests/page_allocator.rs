use sumi_kernel::address::PhysicalAddr;
use sumi_kernel::layout::PAGE_SIZE;
use sumi_kernel::memory::allocators::palloc::{PageAllocator, PALLOC_FIRST_PAGE, PAGE_COUNT, RESERVED_PAGES};
use sumi_kernel::memory::errors::MemoryError;

#[test]
fn basic_alloc_and_free() {
    let mut allocator = PageAllocator::new();
    let first_page = PALLOC_FIRST_PAGE;
    let addr1 = allocator.allocate(1).unwrap();
    let addr2 = allocator.allocate(1).unwrap();
    assert_eq!(addr1, PhysicalAddr::new(first_page));
    assert_eq!(addr2, PhysicalAddr::new(first_page + PAGE_SIZE));
    allocator.free(addr1).unwrap();
    let addr3 = allocator.allocate(1).unwrap();
    assert_eq!(addr3, PhysicalAddr::new(first_page));
}

#[test]
fn multi_page_contiguous_alloc() {
    let mut allocator = PageAllocator::new();
    let first_page = PALLOC_FIRST_PAGE;
    let addr = allocator.allocate(4).unwrap();
    assert_eq!(addr, PhysicalAddr::new(first_page));
    // Next single alloc should start after the 4-page block
    let addr2 = allocator.allocate(1).unwrap();
    assert_eq!(addr2, PhysicalAddr::new(first_page + 4 * PAGE_SIZE));
}

#[test]
fn alloc_zero_pages_returns_error() {
    let mut allocator = PageAllocator::new();
    let result = allocator.allocate(0);
    assert!(matches!(result, Err(MemoryError::InvalidPageCount { pages: 0 })));
}

#[test]
fn stats_track_usage() {
    let mut allocator = PageAllocator::new();
    let before = allocator.get_stats();
    assert_eq!(before.used_pages, 0);

    let addr = allocator.allocate(2).unwrap();
    let after_alloc = allocator.get_stats();
    assert_eq!(after_alloc.used_pages, 2);
    assert_eq!(after_alloc.used_bytes, 2 * PAGE_SIZE);

    allocator.free(addr).unwrap();
    // free() only frees 1 page at a time
    let after_free = allocator.get_stats();
    assert_eq!(after_free.used_pages, 1);
}

#[test]
fn free_and_reuse() {
    let mut allocator = PageAllocator::new();
    let first_page = PALLOC_FIRST_PAGE;
    let a = allocator.allocate(1).unwrap();
    let b = allocator.allocate(1).unwrap();
    allocator.free(a).unwrap();
    allocator.free(b).unwrap();
    // After freeing both, re-alloc should reuse the first page
    let c = allocator.allocate(1).unwrap();
    assert_eq!(c, PhysicalAddr::new(first_page));
}

#[test]
fn peak_usage_stays_after_a_free() {
    let mut allocator = PageAllocator::new();
    let a = allocator.allocate(1).unwrap();
    let _b = allocator.allocate(1).unwrap();
    let peak = allocator.get_stats().peak_memory_usage;
    allocator.free(a).unwrap();
    assert_eq!(allocator.get_stats().peak_memory_usage, peak);
}

#[test]
fn pages_run_out() {
    let mut allocator = PageAllocator::new();
    assert_eq!(allocator.allocate(PAGE_COUNT - RESERVED_PAGES + 1), Err(MemoryError::OutOfMemory));
    assert_eq!(allocator.allocate(PAGE_COUNT - RESERVED_PAGES), Ok(PhysicalAddr::new(PALLOC_FIRST_PAGE)));
    assert_eq!(allocator.allocate(1), Err(MemoryError::OutOfMemory));
}
