use sumi_kernel::layout::PAGE_TABLE_SIZE;
use sumi_kernel::memory::access::{read_bytes, write_u64, Memory};
use sumi_kernel::memory::allocators::kmalloc::MAX_ALLOC;
use sumi_kernel::memory::errors::MemoryError;
use sumi_kernel::memory::test_utils::make_alloc;

#[test]
fn small_alloc_and_free_reuses_address() {
    let (mut dm, mut pa, mut heap) = make_alloc(4);
    let a = heap.allocate(&mut pa, &mut dm, 64).unwrap();
    let b = heap.allocate(&mut pa, &mut dm, 64).unwrap();
    assert_ne!(a, b);

    heap.free(&pa, &mut dm, a);
    let c = heap.allocate(&mut pa, &mut dm, 64).unwrap();
    assert_eq!(c, a);
}

#[test]
fn small_allocs_do_not_overlap() {
    let (mut dm, mut pa, mut heap) = make_alloc(4);
    let a = heap.allocate(&mut pa, &mut dm, 4096).unwrap();
    let b = heap.allocate(&mut pa, &mut dm, 4096).unwrap();
    assert!(a.as_u64().abs_diff(b.as_u64()) >= 4096);
}

#[test]
fn calloc_zeroes_memory() {
    let (mut dm, mut pa, mut heap) = make_alloc(4);

    let ptr = heap.allocate(&mut pa, &mut dm, 128).unwrap();
    write_u64(&mut dm, ptr.as_u64(), 0xDEAD_BEEF_CAFE_BABE);
    heap.free(&pa, &mut dm, ptr);

    let zeroed = heap.calloc(&mut pa, &mut dm, 128).unwrap();
    let bytes = read_bytes(&dm, zeroed.as_u64(), 128);
    assert_eq!(bytes.len(), 128);
    assert!(bytes.iter().all(|&byte| byte == 0));
}

#[test]
fn page_table_alloc_is_aligned() {
    let (mut dm, mut pa, mut heap) = make_alloc(4);
    let ptr = heap.allocate(&mut pa, &mut dm, PAGE_TABLE_SIZE).unwrap();
    assert_eq!(ptr.as_u64() % PAGE_TABLE_SIZE, 0);
}

#[test]
fn adjacent_frees_are_coalesced() {
    let (mut dm, mut pa, mut heap) = make_alloc(4);
    let a = heap.allocate(&mut pa, &mut dm, PAGE_TABLE_SIZE).unwrap();
    let b = heap.allocate(&mut pa, &mut dm, PAGE_TABLE_SIZE).unwrap();
    assert_ne!(a, b);

    heap.free(&pa, &mut dm, b);
    heap.free(&pa, &mut dm, a);

    // After coalescing, a single allocation spanning both blocks must succeed.
    let big = heap.allocate(&mut pa, &mut dm, PAGE_TABLE_SIZE * 2).unwrap();
    assert!(big.as_u64() > 0);
}

#[test]
fn large_allocs_dont_overlap() {
    let (mut dm, mut pa, mut heap) = make_alloc(8);
    let a = heap.allocate(&mut pa, &mut dm, 1 << 22).unwrap();
    let b = heap.allocate(&mut pa, &mut dm, 1 << 22).unwrap();
    assert!(a.as_u64().abs_diff(b.as_u64()) >= (1 << 22));
}

#[test]
fn large_free_and_realloc_reuses_address() {
    let (mut dm, mut pa, mut heap) = make_alloc(8);
    let a = heap.allocate(&mut pa, &mut dm, 1 << 22).unwrap();
    let b = heap.allocate(&mut pa, &mut dm, 1 << 22).unwrap();
    assert_ne!(a, b);

    heap.free(&pa, &mut dm, b);
    let c = heap.allocate(&mut pa, &mut dm, 1 << 22).unwrap();
    assert_eq!(c, b);
}

#[test]
fn zero_size_alloc_succeeds() {
    let (mut dm, mut pa, mut heap) = make_alloc(2);
    let ptr = heap.allocate(&mut pa, &mut dm, 0).unwrap();
    heap.free(&pa, &mut dm, ptr);
}

#[test]
fn alloc_too_large_fails() {
    let (mut dm, mut pa, mut heap) = make_alloc(8);
    assert!(matches!(
        heap.allocate(&mut pa, &mut dm, MAX_ALLOC + 1),
        Err(MemoryError::AllocationTooLarge { .. })
    ));
    assert_eq!(
        heap.allocate(&mut pa, &mut dm, MAX_ALLOC + 1),
        Err(MemoryError::AllocationTooLarge { requested: MAX_ALLOC + 1, max: MAX_ALLOC })
    );
}

#[test]
fn live_allocations_stay_unique_and_keep_their_bytes() {
    let (mut dm, mut pa, mut heap) = make_alloc(4);
    let mut live = Vec::new();
    for i in 0..512u64 {
        let p = heap.allocate(&mut pa, &mut dm, 64).unwrap();
        write_u64(&mut dm, p.as_u64(), i);
        live.push(p);
    }
    for i in 0..live.len() {
        for j in 0..i {
            assert!(live[i].as_u64().abs_diff(live[j].as_u64()) >= 64);
        }
        assert_eq!(dm.read_u8(live[i].as_u64()), (i % 256) as u8);
    }
    for p in live {
        heap.free(&pa, &mut dm, p);
    }
}

#[test]
fn first_allocation_follows_its_header() {
    let (mut dm, mut pa, mut heap) = make_alloc(4);
    let p = heap.allocate(&mut pa, &mut dm, 64).unwrap();
    // The heap takes the first free page, and a small block lies behind its header there.
    assert_eq!(p.as_u64(), 0x100_0000 + 64);
}

#[test]
fn aligned_allocation_is_aligned() {
    let (mut dm, mut pa, mut heap) = make_alloc(4);
    let a = heap.alloc_aligned(&mut pa, &mut dm, 100, 4096).unwrap();
    assert_eq!(a.as_u64() % 4096, 0);
}

#[test]
fn heap_reports_running_out_of_pages() {
    let (mut dm, mut pa, mut heap) = make_alloc(2);
    while pa.allocate(1).is_ok() {}
    assert_eq!(heap.allocate(&mut pa, &mut dm, 64), Err(MemoryError::OutOfMemory));
}
