use sumi_kernel::address::{PhysicalAddr, VirtualAddr};
use sumi_kernel::fs::client::{Fs, FuseAttr, FuseClient};
use sumi_kernel::fs::fd_table::FdTable;
use sumi_kernel::layout::{BASE_PAGE_SIZE, PAGE_SIZE, USER_MMAP_BASE};
use sumi_kernel::memory::access::{read_u64, write_u64};
use sumi_kernel::memory::allocators::dax::DaxAllocator;
use sumi_kernel::memory::allocators::mmap_alloc::UserMmapAllocator;
use sumi_kernel::memory::allocators::palloc::PageAllocator;
use sumi_kernel::memory::page_table::{LeafTable, PageTable};
use sumi_kernel::memory::space::UserSpace;
use sumi_kernel::memory::test_utils::TestDirectMap;
use sumi_kernel::memory::vma::VmaTable;
use sumi_kernel::syscall::args::SyscallArgs;
use sumi_kernel::syscall::errno::{EBADF, EINVAL, ENOMEM, ENOSYS};
use sumi_kernel::syscall::handlers::memory::{sys_brk, sys_madvise, sys_mprotect, sys_mremap, sys_munmap};
use sumi_kernel::syscall::handlers::mmap::{sys_mmap, MAP_ANONYMOUS, MAP_FIXED, MAP_PRIVATE};
use sumi_kernel::syscall::handlers::process::{sys_sysinfo, sys_umask, sys_uname};
use sumi_kernel::syscall::handlers::time::{
    finish_sleep, sys_clock_gettime, sys_nanosleep, sys_prlimit64, Sleep, CLOCK_MONOTONIC, CLOCK_REALTIME, RLIMIT_NOFILE,
};
use sumi_kernel::time::init;

/// A host without files.
struct NoHost;

impl FuseClient for NoHost {
    fn resolve_path(&mut self, _path: &[u8]) -> Result<u64, i32> {
        Err(-2)
    }
    fn getattr(&mut self, _nodeid: u64) -> Result<FuseAttr, i32> {
        Err(-2)
    }
    fn setattr_size(&mut self, _nodeid: u64, _fh: Option<u64>, _size: u64) -> Result<(), i32> {
        Err(-2)
    }
    fn forget(&mut self, _nodeid: u64, _lookups: u64) {}
    fn open(&mut self, _nodeid: u64, _flags: u32) -> Result<u64, i32> {
        Err(-2)
    }
    fn opendir(&mut self, _nodeid: u64) -> Result<u64, i32> {
        Err(-2)
    }
    fn create(&mut self, _parent: u64, _name: &[u8], _flags: u32, _mode: u32) -> Result<(u64, u64), i32> {
        Err(-2)
    }
    fn mkdir(&mut self, _parent: u64, _name: &[u8], _mode: u32) -> Result<u64, i32> {
        Err(-2)
    }
    fn rmdir(&mut self, _parent: u64, _name: &[u8]) -> Result<(), i32> {
        Err(-2)
    }
    fn unlink(&mut self, _parent: u64, _name: &[u8]) -> Result<(), i32> {
        Err(-2)
    }
    fn rename(&mut self, _parent: u64, _name: &[u8], _new_parent: u64, _new_name: &[u8]) -> Result<(), i32> {
        Err(-2)
    }
    fn read(&mut self, _fh: u64, _offset: u64, _paddr: PhysicalAddr, _count: u32) -> Result<u32, i32> {
        Err(-2)
    }
    fn write(&mut self, _fh: u64, _offset: u64, _paddr: PhysicalAddr, _count: u32) -> Result<u32, i32> {
        Err(-2)
    }
    fn readdir(&mut self, _nodeid: u64, _fh: u64, _offset: u64, _size: u32) -> Result<Vec<u8>, i32> {
        Err(-2)
    }
    fn release(&mut self, _fh: u64) {}
    fn releasedir(&mut self, _fh: u64) {}
    fn fsync(&mut self, _fh: u64, _datasync: bool) -> Result<(), i32> {
        Err(-2)
    }
    fn setup_mapping(&mut self, _fh: u64, _offset: u64, _len: u64, _dax_offset: u64, _flags: u64) -> Result<(), i32> {
        Err(-2)
    }
    fn remove_mapping(&mut self, _dax_offset: u64, _len: u64) -> Result<(), i32> {
        Err(-2)
    }
    fn flush_write_cache(&mut self, _fh: u64) -> Result<(), i32> {
        Err(-2)
    }
    fn flush_all_write_caches(&mut self) -> Result<(), i32> {
        Err(-2)
    }
    fn invalidate_file_read_cache(&mut self, _nodeid: u64) {}
}

fn call(a: [u64; 6]) -> SyscallArgs {
    SyscallArgs {
        nr: 0,
        arg0: a[0],
        arg1: a[1],
        arg2: a[2],
        arg3: a[3],
        arg4: a[4],
        arg5: a[5],
        caller_rip: 0,
        caller_rflags: 0,
    }
}

const BRK: u64 = 0x5000_0000;

fn space() -> UserSpace<LeafTable> {
    UserSpace {
        palloc: PageAllocator::new(),
        pt: LeafTable::new(),
        vmas: VmaTable::new(),
        arenas: UserMmapAllocator::new(),
        dax: DaxAllocator::new(),
        brk_base: BRK,
        brk_current: BRK,
        mmap_next: USER_MMAP_BASE,
        tlb_generation: 0,
    }
}

#[test]
fn the_heap_grows_and_shrinks() {
    let mut s = space();
    let mut dm = TestDirectMap::new(6);
    let first = dm_page(0);
    write_u64(&mut dm, first + 64, 7);
    assert_eq!(sys_brk(&call([0; 6]), &mut s, &mut dm), BRK as i64);
    assert_eq!(sys_brk(&call([BRK + 1, 0, 0, 0, 0, 0]), &mut s, &mut dm), (BRK + 1) as i64);
    assert_eq!(s.pt.get_if_present(VirtualAddr::new(BRK)), Some(PhysicalAddr::new(first)));
    assert_eq!(read_u64(&dm, first + 64), 0, "new pages are zeroed");
    assert_eq!(s.palloc.get_stats().used_pages, 1);
    assert_eq!(sys_brk(&call([BRK + PAGE_SIZE + 5, 0, 0, 0, 0, 0]), &mut s, &mut dm), (BRK + PAGE_SIZE + 5) as i64);
    assert_eq!(s.palloc.get_stats().used_pages, 2);
    assert_eq!(sys_brk(&call([BRK, 0, 0, 0, 0, 0]), &mut s, &mut dm), BRK as i64);
    assert_eq!(s.palloc.get_stats().used_pages, 0);
    assert_eq!(sys_brk(&call([BRK - 1, 0, 0, 0, 0, 0]), &mut s, &mut dm), BRK as i64);
}

#[test]
fn the_peak_outlives_the_pages() {
    let mut s = space();
    let mut dm = TestDirectMap::new(6);
    let mut fs = Fs::new(NoHost);
    let fds = FdTable::new();
    let flags = (MAP_PRIVATE | MAP_ANONYMOUS) as u64;
    assert_eq!(sys_brk(&call([BRK + 1, 0, 0, 0, 0, 0]), &mut s, &mut dm), (BRK + 1) as i64);
    assert_eq!(s.palloc.get_stats().peak_memory_usage, PAGE_SIZE);
    let a = sys_mmap(&call([0, 2 * PAGE_SIZE, 3, flags, u64::MAX, 0]), &fds, &mut s, &mut fs, &mut dm);
    assert_eq!(s.palloc.get_stats().peak_memory_usage, 3 * PAGE_SIZE);
    assert_eq!(sys_munmap(&call([a as u64, 2 * PAGE_SIZE, 0, 0, 0, 0]), &mut s, &mut fs), 0);
    assert_eq!(sys_brk(&call([BRK, 0, 0, 0, 0, 0]), &mut s, &mut dm), BRK as i64);
    assert_eq!(s.palloc.get_stats().used_pages, 0);
    assert_eq!(s.palloc.get_stats().peak_memory_usage, 3 * PAGE_SIZE);
}

#[test]
fn a_heap_that_cannot_grow_shows_in_the_peak_alone() {
    let mut s = space();
    let mut dm = TestDirectMap::new(6);
    let mut fs = Fs::new(NoHost);
    let fds = FdTable::new();
    let flags = (MAP_PRIVATE | MAP_ANONYMOUS | MAP_FIXED) as u64;
    let taken = BRK + PAGE_SIZE;
    assert_eq!(sys_mmap(&call([taken, PAGE_SIZE, 3, flags, u64::MAX, 0]), &fds, &mut s, &mut fs, &mut dm), taken as i64);
    for page in 1..5 {
        write_u64(&mut dm, dm_page(page) + 64, page);
    }
    assert_eq!(sys_brk(&call([BRK + 3 * PAGE_SIZE, 0, 0, 0, 0, 0]), &mut s, &mut dm), BRK as i64);
    assert_eq!(s.palloc.get_stats().used_pages, 1);
    assert_eq!(s.palloc.get_stats().peak_memory_usage, 3 * PAGE_SIZE);
    assert!(s.pt.get_if_present(VirtualAddr::new(BRK)).is_none());
    let left: Vec<u64> = (1..5).map(|page| read_u64(&dm, dm_page(page) + 64)).collect();
    assert_eq!(left, [0, 0, 3, 4], "the pages that were taken are zeroed, and no others");
}

#[test]
fn a_hidden_page_cannot_be_mapped_over() {
    let mut s = space();
    let mut dm = TestDirectMap::new(6);
    let mut fs = Fs::new(NoHost);
    let fds = FdTable::new();
    let flags = (MAP_PRIVATE | MAP_ANONYMOUS | MAP_FIXED) as u64;
    let map = call([BRK, PAGE_SIZE, 3, flags, u64::MAX, 0]);
    assert_eq!(sys_mmap(&map, &fds, &mut s, &mut fs, &mut dm), BRK as i64);
    assert_eq!(sys_mprotect(&call([BRK, PAGE_SIZE, 0, 0, 0, 0]), &mut s), 0);
    write_u64(&mut dm, dm_page(0) + 64, 1);
    write_u64(&mut dm, dm_page(1) + 64, 2);
    assert_eq!(sys_mmap(&map, &fds, &mut s, &mut fs, &mut dm), ENOMEM);
    assert_eq!(s.palloc.get_stats().used_pages, 1);
    assert_eq!(s.palloc.get_stats().peak_memory_usage, 2 * PAGE_SIZE);
    assert_eq!((read_u64(&dm, dm_page(0) + 64), read_u64(&dm, dm_page(1) + 64)), (1, 0));
}

#[test]
fn more_than_the_address_space_holds_is_refused() {
    let mut s = space();
    let mut dm = TestDirectMap::new(6);
    let mut fs = Fs::new(NoHost);
    let fds = FdTable::new();
    let flags = (MAP_PRIVATE | MAP_ANONYMOUS) as u64;
    let whole = u64::MAX - PAGE_SIZE + 1;
    assert_eq!(sys_mmap(&call([0, whole, 3, flags, u64::MAX, 0]), &fds, &mut s, &mut fs, &mut dm), ENOMEM);
    assert_eq!(s.palloc.get_stats().used_pages, 0);
    assert_eq!(s.palloc.get_stats().peak_memory_usage, 0);
}

fn dm_page(i: u64) -> u64 {
    sumi_kernel::layout::KERNEL_STACK + i * PAGE_SIZE
}

#[test]
fn anonymous_memory_is_mapped_downward_and_given_back() {
    let mut s = space();
    let mut dm = TestDirectMap::new(6);
    let mut fs = Fs::new(NoHost);
    let fds = FdTable::new();
    let flags = (MAP_PRIVATE | MAP_ANONYMOUS) as u64;
    let a = sys_mmap(&call([0, PAGE_SIZE, 3, flags, u64::MAX, 0]), &fds, &mut s, &mut fs, &mut dm);
    assert_eq!(a, (USER_MMAP_BASE - PAGE_SIZE) as i64);
    let b = sys_mmap(&call([0, PAGE_SIZE + 1, 3, flags, u64::MAX, 0]), &fds, &mut s, &mut fs, &mut dm);
    assert_eq!(b, (USER_MMAP_BASE - 3 * PAGE_SIZE) as i64);
    assert_eq!(s.palloc.get_stats().used_pages, 3);
    assert_eq!(sys_munmap(&call([a as u64, PAGE_SIZE, 0, 0, 0, 0]), &mut s, &mut fs), 0);
    assert_eq!(s.palloc.get_stats().used_pages, 2);
    assert!(s.pt.get_if_present(VirtualAddr::new(a as u64)).is_none());
    let c = sys_mmap(&call([0, PAGE_SIZE, 3, flags, u64::MAX, 0]), &fds, &mut s, &mut fs, &mut dm);
    assert_eq!(c, a);
}

#[test]
fn small_mappings_share_a_page() {
    let mut s = space();
    let mut dm = TestDirectMap::new(6);
    let mut fs = Fs::new(NoHost);
    let fds = FdTable::new();
    let flags = (MAP_PRIVATE | MAP_ANONYMOUS) as u64;
    let a = sys_mmap(&call([0, 5000, 3, flags, u64::MAX, 0]), &fds, &mut s, &mut fs, &mut dm);
    let b = sys_mmap(&call([0, 1, 3, flags, u64::MAX, 0]), &fds, &mut s, &mut fs, &mut dm);
    assert_eq!(a - b, BASE_PAGE_SIZE as i64);
    assert_eq!(s.palloc.get_stats().used_pages, 1);
}

#[test]
fn bad_mappings_are_refused() {
    let mut s = space();
    let mut dm = TestDirectMap::new(6);
    let mut fs = Fs::new(NoHost);
    let fds = FdTable::new();
    let anon = (MAP_PRIVATE | MAP_ANONYMOUS) as u64;
    let mut go = |a: [u64; 6]| sys_mmap(&call(a), &fds, &mut s, &mut fs, &mut dm);
    assert_eq!(go([0, 0, 3, anon, u64::MAX, 0]), EINVAL);
    assert_eq!(go([0x1001, PAGE_SIZE, 3, anon | MAP_FIXED as u64, u64::MAX, 0]), EINVAL);
    assert_eq!(go([0, PAGE_SIZE, 3, MAP_PRIVATE as u64, 9, 0]), EBADF);
    assert_eq!(go([0, PAGE_SIZE, 3, MAP_PRIVATE as u64, 1, 0]), EBADF);
}

#[test]
fn fixed_zeros_clear_exactly_their_range() {
    let mut s = space();
    let mut dm = TestDirectMap::new(6);
    let mut fs = Fs::new(NoHost);
    let fds = FdTable::new();
    let fixed = (MAP_PRIVATE | MAP_ANONYMOUS | MAP_FIXED) as u64;
    let at = 0x6000_0000u64;
    assert_eq!(
        sys_mmap(&call([at, PAGE_SIZE, 3, fixed, u64::MAX, 0]), &fds, &mut s, &mut fs, &mut dm),
        at as i64
    );
    let page = s.pt.get_if_present(VirtualAddr::new(at)).unwrap().as_u64();
    write_u64(&mut dm, page + BASE_PAGE_SIZE - 8, 5);
    write_u64(&mut dm, page + BASE_PAGE_SIZE, 6);
    write_u64(&mut dm, page + 2 * BASE_PAGE_SIZE, 7);
    assert_eq!(
        sys_mmap(&call([at + BASE_PAGE_SIZE, BASE_PAGE_SIZE, 3, fixed, u64::MAX, 0]), &fds, &mut s, &mut fs, &mut dm),
        (at + BASE_PAGE_SIZE) as i64
    );
    assert_eq!(read_u64(&dm, page + BASE_PAGE_SIZE - 8), 5);
    assert_eq!(read_u64(&dm, page + BASE_PAGE_SIZE), 0);
    assert_eq!(read_u64(&dm, page + 2 * BASE_PAGE_SIZE), 7);
}

#[test]
fn protection_hides_and_shows_pages() {
    let mut s = space();
    let mut dm = TestDirectMap::new(6);
    assert_eq!(sys_brk(&call([BRK + PAGE_SIZE, 0, 0, 0, 0, 0]), &mut s, &mut dm), (BRK + PAGE_SIZE) as i64);
    assert_eq!(sys_mprotect(&call([BRK, PAGE_SIZE, 0, 0, 0, 0]), &mut s), 0);
    assert!(s.pt.get_if_present(VirtualAddr::new(BRK)).is_none());
    assert_eq!(sys_mprotect(&call([BRK, PAGE_SIZE, 3, 0, 0, 0]), &mut s), 0);
    assert!(s.pt.get_if_present(VirtualAddr::new(BRK)).is_some());
    assert_eq!(sys_mprotect(&call([BRK + 1, 1, 0, 0, 0, 0]), &mut s), 0);
    assert!(s.pt.get_if_present(VirtualAddr::new(BRK)).is_none());
    assert_eq!(sys_mprotect(&call([BRK, u64::MAX, 3, 0, 0, 0]), &mut s), EINVAL);
    assert_eq!(sys_mremap(&call([0; 6])), ENOSYS);
    assert_eq!(sys_madvise(&call([0; 6])), 0);
}

#[test]
fn direct_access_slots_are_reused() {
    let mut dax = DaxAllocator::new();
    assert_eq!(dax.allocate(2), Ok(0));
    assert_eq!(dax.allocate(1), Ok(2 * PAGE_SIZE));
    dax.free(0, 2);
    assert_eq!(dax.allocate(1), Ok(0));
}

const USER: u64 = 0x40_0000;

#[test]
fn clocks_tell_the_time() {
    let mut um = TestDirectMap::at(USER, 0x1000);
    let clock = init(1000, 1_700_000_000, 500_000_000, 0);
    assert_eq!(sys_clock_gettime(&call([CLOCK_MONOTONIC as u64, USER, 0, 0, 0, 0]), &mut um, &clock, 1_500_000), 0);
    assert_eq!((read_u64(&um, USER), read_u64(&um, USER + 8)), (1, 500_000_000));
    assert_eq!(sys_clock_gettime(&call([CLOCK_REALTIME as u64, USER, 0, 0, 0, 0]), &mut um, &clock, 1_500_000), 0);
    assert_eq!((read_u64(&um, USER), read_u64(&um, USER + 8)), (1_700_000_002, 0));
    assert_eq!(sys_clock_gettime(&call([99, USER, 0, 0, 0, 0]), &mut um, &clock, 0), EINVAL);
    assert_eq!(sys_clock_gettime(&call([99, u64::MAX, 0, 0, 0, 0]), &mut um, &clock, 0), EINVAL);
}

#[test]
fn sleeps_are_measured_and_reported() {
    let mut um = TestDirectMap::at(USER, 0x1000);
    write_u64(&mut um, USER, 2);
    write_u64(&mut um, USER + 8, 5);
    assert!(matches!(
        sys_nanosleep(&call([USER, USER + 16, 0, 0, 0, 0]), &um),
        Sleep::Wait { ns: 2_000_000_005, rem } if rem == USER + 16
    ));
    write_u64(&mut um, USER + 8, 1_000_000_000);
    assert!(matches!(sys_nanosleep(&call([USER, 0, 0, 0, 0, 0]), &um), Sleep::Return(e) if e == EINVAL));
    write_u64(&mut um, USER + 16, 9);
    assert_eq!(finish_sleep(&mut um, USER + 16), 0);
    assert_eq!(read_u64(&um, USER + 16), 0);
}

#[test]
fn limits_and_names_are_reported() {
    let mut um = TestDirectMap::at(USER, 0x1000);
    assert_eq!(sys_prlimit64(&call([0, RLIMIT_NOFILE, 0, USER, 0, 0]), &mut um), 0);
    assert_eq!(read_u64(&um, USER), 256);
    assert_eq!(read_u64(&um, USER + 8), 256);
    assert_eq!(sys_uname(&call([USER, 0, 0, 0, 0, 0]), &mut um), 0);
    assert_eq!(sys_umask(&call([0; 6])), 0o022);
    let pa = PageAllocator::new();
    assert_eq!(sys_sysinfo(&call([USER, 0, 0, 0, 0, 0]), &mut um, &init(1000, 0, 0, 0), 3_000_000, &pa), 0);
    assert_eq!(read_u64(&um, USER), 3);
}
