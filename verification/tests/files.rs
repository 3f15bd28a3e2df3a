use std::cell::RefCell;
use std::rc::Rc;

use smoltcp::phy::Loopback;
use sumi_kernel::address::{PhysicalAddr, VirtualAddr};
use sumi_kernel::console::{Console, Terminal};
use sumi_kernel::fs::client::{Fs, FuseAttr, FuseClient};
use sumi_kernel::fs::fd_table::FdTable;
use sumi_kernel::memory::access::{read_bytes, read_u64, write_bytes, Memory};
use sumi_kernel::memory::page_table::{LeafTable, PageTable};
use sumi_kernel::net::state::NetStateInner;
use sumi_kernel::sched::scheduler::Scheduler;
use sumi_kernel::sched::thread::{Thread, ThreadState, Tid};
use sumi_kernel::syscall::args::SyscallArgs;
use sumi_kernel::syscall::blocking::Call;
use sumi_kernel::syscall::errno::{EBADF, ENOENT};
use sumi_kernel::syscall::handlers::fs::{sys_fstat, sys_openat, sys_stat, AT_FDCWD};
use sumi_kernel::syscall::handlers::io::{
    sys_close, sys_dup2, sys_lseek, sys_open, sys_pread64, sys_read, sys_write, SEEK_CUR, SEEK_END, SEEK_SET,
};
use sumi_kernel::syscall::handlers::iovec::sys_readv;
use sumi_kernel::syscall::handlers::path::Cwd;
use sumi_kernel::time::{init, Clock};

const USER: u64 = 0x40_0000;
const PHYS: u64 = 0x300_0000;

/// Memory that the kernel and the host share.
#[derive(Clone)]
struct Shared(Rc<RefCell<Vec<u8>>>);

impl Memory for Shared {
    fn read_u8(&self, addr: u64) -> u8 {
        self.0.borrow()[(addr - USER) as usize]
    }

    fn write_u8(&mut self, addr: u64, value: u8) {
        self.0.borrow_mut()[(addr - USER) as usize] = value;
    }
}

/// A host with files in its root directory. The node of a file is its place plus 2, and its handle is the node.
struct Host {
    files: Vec<(Vec<u8>, Vec<u8>)>,
    memory: Shared,
}

impl Host {
    fn file(&mut self, node: u64) -> &mut Vec<u8> {
        &mut self.files[(node - 2) as usize].1
    }
}

impl FuseClient for Host {
    fn resolve_path(&mut self, path: &[u8]) -> Result<u64, i32> {
        match self.files.iter().position(|f| f.0 == path) {
            Some(i) => Ok(i as u64 + 2),
            None => Err(-2),
        }
    }

    fn getattr(&mut self, nodeid: u64) -> Result<FuseAttr, i32> {
        let size = self.file(nodeid).len() as u64;
        Ok(FuseAttr {
            ino: nodeid,
            size,
            blocks: 8,
            atime: 0,
            mtime: 0,
            ctime: 0,
            atimensec: 0,
            mtimensec: 0,
            ctimensec: 0,
            mode: 0o100644,
            nlink: 1,
            uid: 0,
            gid: 0,
            rdev: 0,
            blksize: 4096,
        })
    }

    fn setattr_size(&mut self, nodeid: u64, _fh: Option<u64>, size: u64) -> Result<(), i32> {
        self.file(nodeid).resize(size as usize, 0);
        Ok(())
    }

    fn forget(&mut self, _nodeid: u64, _lookups: u64) {}

    fn open(&mut self, nodeid: u64, _flags: u32) -> Result<u64, i32> {
        Ok(nodeid)
    }

    fn opendir(&mut self, _nodeid: u64) -> Result<u64, i32> {
        Err(-20)
    }

    fn create(&mut self, _parent: u64, name: &[u8], _flags: u32, _mode: u32) -> Result<(u64, u64), i32> {
        let mut path = b"/".to_vec();
        path.extend_from_slice(name);
        self.files.push((path, Vec::new()));
        let node = self.files.len() as u64 + 1;
        Ok((node, node))
    }

    fn mkdir(&mut self, _parent: u64, _name: &[u8], _mode: u32) -> Result<u64, i32> {
        Err(-1)
    }

    fn rmdir(&mut self, _parent: u64, _name: &[u8]) -> Result<(), i32> {
        Err(-1)
    }

    fn unlink(&mut self, _parent: u64, _name: &[u8]) -> Result<(), i32> {
        Err(-1)
    }

    fn rename(&mut self, _parent: u64, _name: &[u8], _new_parent: u64, _new_name: &[u8]) -> Result<(), i32> {
        Err(-1)
    }

    fn read(&mut self, fh: u64, offset: u64, paddr: PhysicalAddr, count: u32) -> Result<u32, i32> {
        let data = self.file(fh).clone();
        let from = (offset as usize).min(data.len());
        let n = (count as usize).min(data.len() - from);
        let to = (paddr.as_u64() - PHYS) as usize;
        self.memory.0.borrow_mut()[to..to + n].copy_from_slice(&data[from..from + n]);
        Ok(n as u32)
    }

    fn write(&mut self, fh: u64, offset: u64, paddr: PhysicalAddr, count: u32) -> Result<u32, i32> {
        let from = (paddr.as_u64() - PHYS) as usize;
        let data = self.memory.0.borrow()[from..from + count as usize].to_vec();
        let end = offset as usize + data.len();
        let file = self.file(fh);
        if file.len() < end {
            file.resize(end, 0);
        }
        file[offset as usize..end].copy_from_slice(&data);
        Ok(count)
    }

    fn readdir(&mut self, _nodeid: u64, _fh: u64, _offset: u64, _size: u32) -> Result<Vec<u8>, i32> {
        Err(-20)
    }

    fn release(&mut self, _fh: u64) {}

    fn releasedir(&mut self, _fh: u64) {}

    fn fsync(&mut self, _fh: u64, _datasync: bool) -> Result<(), i32> {
        Ok(())
    }

    fn setup_mapping(&mut self, _fh: u64, _offset: u64, _len: u64, _dax_offset: u64, _flags: u64) -> Result<(), i32> {
        Err(-1)
    }

    fn remove_mapping(&mut self, _dax_offset: u64, _len: u64) -> Result<(), i32> {
        Err(-1)
    }

    fn flush_write_cache(&mut self, _fh: u64) -> Result<(), i32> {
        Ok(())
    }

    fn flush_all_write_caches(&mut self) -> Result<(), i32> {
        Ok(())
    }

    fn invalidate_file_read_cache(&mut self, _nodeid: u64) {}
}

/// A terminal nobody types on.
struct Quiet(Vec<u8>);

impl Terminal for Quiet {
    fn write(&mut self, data: &[u8]) -> usize {
        self.0.extend_from_slice(data);
        data.len()
    }

    fn read(&mut self, _max: u64) -> Vec<u8> {
        Vec::new()
    }
}

fn clock() -> Clock {
    init(1000, 0, 0, 0)
}

fn args(a: [u64; 4]) -> SyscallArgs {
    SyscallArgs {
        nr: 0,
        arg0: a[0],
        arg1: a[1],
        arg2: a[2],
        arg3: a[3],
        arg4: 0,
        arg5: 0,
        caller_rip: 0,
        caller_rflags: 0,
    }
}

struct World {
    fs: Fs<Host>,
    fds: FdTable,
    um: Shared,
    pt: LeafTable,
    net: NetStateInner<Loopback>,
    sched: Scheduler,
    console: Console<Quiet>,
}

const PATH: u64 = USER;
const BUF: u64 = USER + 0x1000;

impl World {
    /// A process whose root directory holds the given file.
    fn new(path: &[u8], data: &[u8]) -> Self {
        let um = Shared(Rc::new(RefCell::new(vec![0; 0x4000])));
        let mut pt = LeafTable::new();
        pt.map_2mb(VirtualAddr::new(USER), PhysicalAddr::new(PHYS)).unwrap();
        let mut sched = Scheduler::new();
        sched.init_for_cpu(0, 0x1000);
        let mut t = Thread::new_test(5);
        t.state = ThreadState::Running;
        t.on_cpu = true;
        sched.threads.register(t);
        sched.cpus[0].current_thread = Some(Tid(5));
        World {
            fs: Fs::new(Host { files: vec![(path.to_vec(), data.to_vec())], memory: um.clone() }),
            fds: FdTable::new(),
            um,
            pt,
            net: NetStateInner::new_loopback(&None, &clock(), 0),
            sched,
            console: Console::new(Quiet(Vec::new())),
        }
    }

    fn put_path(&mut self, path: &[u8]) {
        write_bytes(&mut self.um, PATH, path);
        write_bytes(&mut self.um, PATH + path.len() as u64, &[0]);
    }

    fn open(&mut self, path: &[u8], flags: u64) -> i64 {
        self.put_path(path);
        sys_open(&args([PATH, flags, 0, 0]), &mut self.fds, &mut self.fs, &self.um, &Cwd::new())
    }

    fn read(&mut self, fd: i64, n: u64) -> Call {
        sys_read(
            &args([fd as u64, BUF, n, 0]),
            &mut self.fds,
            &mut self.fs,
            &self.pt,
            &mut self.net,
            &mut self.sched,
            &mut self.um,
            &mut self.console,
            0,
            &clock(),
            0,
        )
    }

    fn write(&mut self, fd: i64, data: &[u8]) -> Call {
        write_bytes(&mut self.um, BUF, data);
        sys_write(
            &args([fd as u64, BUF, data.len() as u64, 0]),
            &mut self.fds,
            &mut self.fs,
            &self.pt,
            &mut self.net,
            &mut self.sched,
            &mut self.um,
            &mut self.console,
            0,
            &clock(),
            0,
        )
    }

    fn close(&mut self, fd: i64) -> i64 {
        sys_close(&args([fd as u64, 0, 0, 0]), &mut self.fds, &mut self.fs, &mut self.net, &mut self.sched, 0, &clock(), 0)
    }

    fn seek(&mut self, fd: i64, to: i64, whence: u64) -> i64 {
        sys_lseek(&args([fd as u64, to as u64, whence, 0]), &mut self.fds, &mut self.fs)
    }

    fn buf(&self, n: u64) -> Vec<u8> {
        read_bytes(&self.um, BUF, n)
    }
}

#[test]
fn write_console() {
    let mut w = World::new(b"/x", b"");
    assert_eq!(w.write(1, b"hi"), Call::Return(2));
    assert_eq!(w.console.device().0, b"hi");
}

#[test]
fn read_console_eof() {
    let mut w = World::new(b"/x", b"");
    assert_eq!(w.read(0, 16), Call::Return(0));
}

#[test]
fn close_bad_fd() {
    let mut w = World::new(b"/x", b"");
    assert_eq!(w.close(999), EBADF);
    assert_eq!(EBADF, -9);
}

#[test]
fn open_read_close() {
    let mut w = World::new(b"/syscall_orc.txt", b"syscall works\n");
    let fd = w.open(b"/syscall_orc.txt", 0);
    assert_eq!(fd, 3);
    assert_eq!(w.read(fd, 64), Call::Return(14));
    assert_eq!(w.buf(14), b"syscall works\n");
    assert_eq!(w.read(fd, 64), Call::Return(0));
    assert_eq!(w.close(fd), 0);
}

#[test]
fn write_pread() {
    let mut w = World::new(b"/syscall_pread.txt", b"");
    let fd = w.open(b"/syscall_pread.txt", 2);
    assert!(fd >= 0);
    assert_eq!(w.write(fd, b"ABCDEF"), Call::Return(6));
    let n = sys_pread64(&args([fd as u64, BUF, 3, 2]), &w.fds, &mut w.fs, &w.pt, &mut w.um);
    assert_eq!(n, 3);
    assert_eq!(w.buf(3), b"CDE");
    assert_eq!(w.close(fd), 0);
}

#[test]
fn read_bytes_may_describe_the_next_buffer() {
    let mut data = (BUF + 0x40).to_le_bytes().to_vec();
    data.extend_from_slice(&3u64.to_le_bytes());
    data.extend_from_slice(b"xyz");
    let mut w = World::new(b"/list", &data);
    let fd = w.open(b"/list", 0);
    let iov = USER + 0x2000;
    write_bytes(&mut w.um, iov, &(iov + 16).to_le_bytes());
    write_bytes(&mut w.um, iov + 8, &16u64.to_le_bytes());
    let r = sys_readv(
        &args([fd as u64, iov, 2, 0]),
        &mut w.fds,
        &mut w.fs,
        &w.pt,
        &mut w.net,
        &mut w.sched,
        &mut w.um,
        &mut w.console,
        0,
        &clock(),
        0,
    );
    assert_eq!(r, Call::Return(19));
    assert_eq!(read_bytes(&w.um, BUF + 0x40, 3), b"xyz");
}

#[test]
fn lseek() {
    let mut w = World::new(b"/syscall_lseek.txt", &[b'0'; 10]);
    let fd = w.open(b"/syscall_lseek.txt", 0);
    assert_eq!(w.seek(fd, 5, SEEK_SET), 5);
    assert_eq!(w.seek(fd, 2, SEEK_CUR), 7);
    assert_eq!(w.seek(fd, -3, SEEK_END), 7);
}

#[test]
fn open_enoent() {
    let mut w = World::new(b"/x", b"");
    assert_eq!(w.open(b"/nonexistent_file.txt", 0), ENOENT);
    assert_eq!(ENOENT, -2);
}

#[test]
fn fstat_file_size() {
    let mut w = World::new(b"/selftest_fstat.txt", &[b'A'; 42]);
    let fd = w.open(b"/selftest_fstat.txt", 0);
    assert_eq!(sys_fstat(&args([fd as u64, BUF, 0, 0]), &w.fds, &mut w.fs, &mut w.um), 0);
    assert_eq!(read_u64(&w.um, BUF + 48), 42);
}

#[test]
fn stat_file() {
    let mut w = World::new(b"/selftest_stat.txt", &[b'X'; 100]);
    w.put_path(b"/selftest_stat.txt");
    assert_eq!(sys_stat(&args([PATH, BUF, 0, 0]), &mut w.fs, &mut w.um, &Cwd::new()), 0);
    assert_eq!(read_u64(&w.um, BUF + 48), 100);
}

#[test]
fn stat_enoent() {
    let mut w = World::new(b"/x", b"");
    w.put_path(b"/nonexistent_stat_file.txt");
    assert_eq!(sys_stat(&args([PATH, BUF, 0, 0]), &mut w.fs, &mut w.um, &Cwd::new()), ENOENT);
}

#[test]
fn openat_fdcwd() {
    let mut w = World::new(b"/selftest_openat.txt", b"openat works");
    w.put_path(b"/selftest_openat.txt");
    let fd = sys_openat(&args([AT_FDCWD as u32 as u64, PATH, 0, 0]), &mut w.fds, &mut w.fs, &w.um, &Cwd::new());
    assert!(fd >= 0);
    assert_eq!(w.read(fd, 32), Call::Return(12));
    assert_eq!(w.buf(12), b"openat works");
    assert_eq!(w.close(fd), 0);
}

#[test]
fn dup2_read() {
    let mut w = World::new(b"/selftest_dup.txt", b"dup works");
    let fd = w.open(b"/selftest_dup.txt", 0);
    assert!(fd >= 0);
    let d = sys_dup2(&args([fd as u64, 100, 0, 0]), &mut w.fds, &mut w.fs, &mut w.net, &mut w.sched, 0, &clock(), 0);
    assert_eq!(d, 100);
    assert_eq!(w.read(100, 32), Call::Return(9));
    assert_eq!(w.buf(9), b"dup works");
    assert_eq!(w.close(fd), 0);
    assert_eq!(w.close(100), 0);
}
