use sumi_kernel::address::{PhysicalAddr, VirtualAddr};
use sumi_kernel::layout::{BASE_PAGE_SIZE, DAX_WINDOW_BASE, KERNEL_STACK, PAGE_SIZE, USER_MMAP_BASE};
use sumi_kernel::memory::access::{read_u64, write_u64};
use sumi_kernel::memory::allocators::mmap_alloc::{align_up_base_page, MmapArena, UserMmapAllocator, FRAMES_PER_ARENA};
use sumi_kernel::memory::allocators::palloc::PageAllocator;
use sumi_kernel::memory::page_table::{LeafTable, PageTable};
use sumi_kernel::memory::test_utils::TestDirectMap;
use sumi_kernel::memory::vma::VmaTable;

const VBASE: VirtualAddr = VirtualAddr(0x7000_0000);
const PBASE: PhysicalAddr = PhysicalAddr(0x2000_0000);

#[test]
fn arena_allocates_from_high_addresses_first() {
    let mut arena = MmapArena::new(VBASE, PBASE);

    let first = arena.allocate(16).expect("first allocation");
    let second = arena.allocate(1).expect("second allocation");

    assert_eq!(first, VBASE.add(PAGE_SIZE - 16 * BASE_PAGE_SIZE));
    assert_eq!(second, VBASE.add(PAGE_SIZE - 17 * BASE_PAGE_SIZE));
    assert_eq!(arena.free_frames(), FRAMES_PER_ARENA - 17);
}

#[test]
fn arena_free_makes_exact_range_reusable() {
    let mut arena = MmapArena::new(VBASE, PBASE);

    let first = arena.allocate(8).expect("first allocation");
    let second = arena.allocate(8).expect("second allocation");
    arena.free(first, 8);

    let reused = arena.allocate(8).expect("reused allocation");
    assert_eq!(reused, first);
    assert_ne!(reused, second);
}

#[test]
fn arena_reports_containment_within_2mb_window() {
    let arena = MmapArena::new(VBASE, PBASE);

    assert!(arena.contains(VBASE));
    assert!(arena.contains(VBASE.add(PAGE_SIZE - 1)));
    assert!(!arena.contains(VBASE.add(PAGE_SIZE)));
}

#[test]
fn paddr_for_preserves_offset_inside_arena() {
    let arena = MmapArena::new(VBASE, PBASE);
    let offset = 37 * BASE_PAGE_SIZE;

    assert_eq!(arena.paddr_for(VBASE.add(offset)), PBASE.add(offset));
}

#[test]
fn align_up_base_page_accepts_sub_2mb_lengths_only() {
    assert_eq!(align_up_base_page(1).unwrap(), BASE_PAGE_SIZE);
    assert_eq!(align_up_base_page(BASE_PAGE_SIZE).unwrap(), BASE_PAGE_SIZE);
    assert_eq!(align_up_base_page(PAGE_SIZE - BASE_PAGE_SIZE + 1).unwrap(), PAGE_SIZE);
    assert!(align_up_base_page(PAGE_SIZE + 1).is_err());
    assert!(align_up_base_page(u64::MAX).is_err());
}

#[test]
fn arena_has_no_room_for_more_than_a_page() {
    let mut arena = MmapArena::new(VBASE, PBASE);
    assert!(arena.allocate(FRAMES_PER_ARENA + 1).is_none());
    assert_eq!(arena.allocate(FRAMES_PER_ARENA), Some(VBASE));
    assert!(arena.allocate(1).is_none());
}

#[test]
fn small_lengths_are_those_below_a_page() {
    let alloc = UserMmapAllocator::new();
    assert!(!alloc.can_allocate_small(0));
    assert!(alloc.can_allocate_small(1));
    assert!(alloc.can_allocate_small(PAGE_SIZE - 1));
    assert!(!alloc.can_allocate_small(PAGE_SIZE));
}

#[test]
fn an_arena_without_a_place_gives_its_page_back() {
    let mut arenas = UserMmapAllocator::new();
    let mut palloc = PageAllocator::new();
    let mut pt = LeafTable::new();
    let mut dm = TestDirectMap::new(6);
    let base = VirtualAddr::new(USER_MMAP_BASE - PAGE_SIZE);
    assert!(pt.map_2mb(base, PhysicalAddr::new(DAX_WINDOW_BASE)).is_ok());
    write_u64(&mut dm, KERNEL_STACK + 64, 7);
    assert!(arenas.allocate(100, &mut palloc, &mut pt, &VmaTable::new(), &mut dm).is_err());
    assert_eq!(palloc.get_stats().used_pages, 0);
    assert_eq!(palloc.get_stats().peak_memory_usage, PAGE_SIZE);
    assert_eq!(read_u64(&dm, KERNEL_STACK + 64), 0);
    assert!(pt.unmap_2mb(base).is_ok());
    assert!(arenas.allocate(100, &mut palloc, &mut pt, &VmaTable::new(), &mut dm).is_ok());
    assert!(arenas.allocate(100, &mut palloc, &mut pt, &VmaTable::new(), &mut dm).is_ok());
    assert_eq!(palloc.get_stats().peak_memory_usage, PAGE_SIZE);
}
