use sumi_kernel::memory::errors::MemoryError;

#[test]
fn errors_say_what_went_wrong() {
    let cases = [
        (
            MemoryError::VirtualToPhysical { addr: 0xdead_beef },
            "failed to convert virtual address 0xdeadbeef to physical",
        ),
        (MemoryError::InvalidPageCount { pages: 0 }, "invalid page count: 0"),
        (MemoryError::OutOfMemory, "out of memory"),
        (
            MemoryError::AllocationTooLarge { requested: 16777217, max: 16777216 },
            "allocation too large: requested 16777217 bytes, max 16777216 bytes",
        ),
        (MemoryError::UnknownAllocation { addr: 0x10 }, "unknown allocation at physical address 0x10"),
        (MemoryError::AlreadyMapped { addr: 0x200000 }, "virtual address 0x200000 is already mapped"),
        (MemoryError::NotMapped { addr: u64::MAX }, "virtual address 0xffffffffffffffff is not mapped"),
    ];
    for (e, text) in cases {
        assert_eq!(e.message(), text);
    }
}
