use std::collections::VecDeque;

use sumi_kernel::address::PhysicalAddr;
use sumi_kernel::console::{Console, Terminal};
use sumi_kernel::fs::client::{Fs, FuseAttr, FuseClient};
use sumi_kernel::fs::fd_table::{FdKind, FdTable, FileDescriptor};
use sumi_kernel::layout::PAGE_SIZE;
use sumi_kernel::memory::access::{read_bytes, read_u32, read_u64, write_bytes, write_u64};
use sumi_kernel::memory::page_table::{LeafTable, PageTable};
use sumi_kernel::memory::test_utils::TestDirectMap;
use sumi_kernel::net::state::NetStateInner;
use sumi_kernel::sched::scheduler::Scheduler;
use sumi_kernel::sched::thread::{Thread, ThreadState, Tid};
use sumi_kernel::syscall::args::SyscallArgs;
use sumi_kernel::syscall::blocking::Call;
use sumi_kernel::syscall::errno::{
    EBADF, EEXIST, EINVAL, ENAMETOOLONG, ENOENT, ENOSYS, ENOTDIR, ENOTTY, ERANGE, ESPIPE,
};
use sumi_kernel::syscall::handlers::dirents::{convert_dirents, sys_getdents64};
use sumi_kernel::syscall::handlers::fs::{
    sys_access, sys_chdir, sys_faccessat, sys_faccessat2, sys_fstat, sys_getcwd, sys_link, sys_mkdir, sys_mkdirat,
    sys_newfstatat, sys_openat, sys_readlink, sys_rename, sys_rmdir, sys_stat, sys_symlink, sys_unlink, sys_unlinkat, AT_FDCWD,
    O_CREAT, O_DIRECTORY, O_TRUNC,
};
use sumi_kernel::syscall::handlers::io::{
    sys_close, sys_dup, sys_dup2, sys_fcntl, sys_fsync, sys_ftruncate, sys_ioctl, sys_lseek, sys_open, sys_pipe2, sys_pread64,
    sys_read, sys_write, F_DUPFD, F_GETFL, F_SETFL, O_NONBLOCK, SEEK_CUR, SEEK_END, SEEK_SET,
};
use sumi_kernel::syscall::handlers::iovec::{sys_readv, sys_writev};
use sumi_kernel::syscall::handlers::path::{normalize_abs_path, read_user_path, split_path, Cwd};
use sumi_kernel::syscall::handlers::transfer::{bytes_to_page_end, translate_vaddr};
use sumi_kernel::time::{init, Clock};

const USER: u64 = 0x40_0000;

/// A host that answers from a few fixed entries and notes what it was asked.
struct Host {
    asked: Vec<String>,
    dir: Vec<u8>,
    bad_name: bool,
}

fn attr(ino: u64, mode: u32, size: u64) -> FuseAttr {
    FuseAttr {
        ino,
        size,
        blocks: 8,
        atime: 1,
        mtime: 2,
        ctime: 3,
        atimensec: 4,
        mtimensec: 5,
        ctimensec: 6,
        mode,
        nlink: 1,
        uid: 7,
        gid: 9,
        rdev: 0,
        blksize: 4096,
    }
}

fn text(b: &[u8]) -> String {
    String::from_utf8_lossy(b).into_owned()
}

impl FuseClient for Host {
    fn resolve_path(&mut self, path: &[u8]) -> Result<u64, i32> {
        self.asked.push(format!("resolve {}", text(path)));
        match path {
            b"/" | b"" => Ok(1),
            b"/dir" => Ok(20),
            b"/file" => Ok(30),
            _ if self.bad_name => Ok(40),
            _ => Err(-2),
        }
    }

    fn getattr(&mut self, nodeid: u64) -> Result<FuseAttr, i32> {
        self.asked.push(format!("getattr {nodeid}"));
        if nodeid == 30 {
            Ok(attr(30, 0o100644, 100))
        } else {
            Ok(attr(nodeid, 0o040755, 4096))
        }
    }

    fn setattr_size(&mut self, nodeid: u64, fh: Option<u64>, size: u64) -> Result<(), i32> {
        self.asked.push(format!("setattr {nodeid} {fh:?} {size}"));
        Ok(())
    }

    fn forget(&mut self, nodeid: u64, lookups: u64) {
        self.asked.push(format!("forget {nodeid} {lookups}"));
    }

    fn open(&mut self, nodeid: u64, _flags: u32) -> Result<u64, i32> {
        self.asked.push(format!("open {nodeid}"));
        Ok(nodeid + 1000)
    }

    fn opendir(&mut self, nodeid: u64) -> Result<u64, i32> {
        self.asked.push(format!("opendir {nodeid}"));
        Ok(nodeid + 2000)
    }

    fn create(&mut self, parent: u64, name: &[u8], _flags: u32, mode: u32) -> Result<(u64, u64), i32> {
        self.asked.push(format!("create {parent} {} {mode:o}", text(name)));
        Ok((50, 1050))
    }

    fn mkdir(&mut self, parent: u64, name: &[u8], mode: u32) -> Result<u64, i32> {
        self.asked.push(format!("mkdir {parent} {} {mode:o}", text(name)));
        Ok(60)
    }

    fn rmdir(&mut self, parent: u64, name: &[u8]) -> Result<(), i32> {
        self.asked.push(format!("rmdir {parent} {}", text(name)));
        Ok(())
    }

    fn unlink(&mut self, parent: u64, name: &[u8]) -> Result<(), i32> {
        self.asked.push(format!("unlink {parent} {}", text(name)));
        Err(-17)
    }

    fn rename(&mut self, parent: u64, name: &[u8], new_parent: u64, new_name: &[u8]) -> Result<(), i32> {
        self.asked.push(format!("rename {parent} {} {new_parent} {}", text(name), text(new_name)));
        Ok(())
    }

    fn read(&mut self, fh: u64, offset: u64, paddr: PhysicalAddr, count: u32) -> Result<u32, i32> {
        self.asked.push(format!("read {fh} {offset} {:#x} {count}", paddr.as_u64()));
        Ok(count)
    }

    fn write(&mut self, fh: u64, offset: u64, paddr: PhysicalAddr, count: u32) -> Result<u32, i32> {
        self.asked.push(format!("write {fh} {offset} {:#x} {count}", paddr.as_u64()));
        Ok(count)
    }

    fn readdir(&mut self, nodeid: u64, fh: u64, offset: u64, _size: u32) -> Result<Vec<u8>, i32> {
        self.asked.push(format!("readdir {nodeid} {fh} {offset}"));
        Ok(self.dir.clone())
    }

    fn release(&mut self, fh: u64) {
        self.asked.push(format!("release {fh}"));
    }

    fn releasedir(&mut self, fh: u64) {
        self.asked.push(format!("releasedir {fh}"));
    }

    fn fsync(&mut self, fh: u64, datasync: bool) -> Result<(), i32> {
        self.asked.push(format!("fsync {fh} {datasync}"));
        Ok(())
    }

    fn setup_mapping(&mut self, _fh: u64, _offset: u64, _len: u64, _dax_offset: u64, _flags: u64) -> Result<(), i32> {
        Ok(())
    }

    fn remove_mapping(&mut self, _dax_offset: u64, _len: u64) -> Result<(), i32> {
        Ok(())
    }

    fn flush_write_cache(&mut self, fh: u64) -> Result<(), i32> {
        self.asked.push(format!("flush {fh}"));
        Ok(())
    }

    fn flush_all_write_caches(&mut self) -> Result<(), i32> {
        self.asked.push("flush all".to_string());
        Ok(())
    }

    fn invalidate_file_read_cache(&mut self, nodeid: u64) {
        self.asked.push(format!("invalidate {nodeid}"));
    }
}

fn host() -> Fs<Host> {
    Fs::new(Host { asked: Vec::new(), dir: Vec::new(), bad_name: false })
}

fn call(a: [u64; 6]) -> SyscallArgs {
    SyscallArgs {
        nr: 0,
        arg0: a[0],
        arg1: a[1],
        arg2: a[2],
        arg3: a[3],
        arg4: a[4],
        arg5: a[5],
        caller_rip: 0,
        caller_rflags: 0,
    }
}

/// User memory with a path at its start.
fn with_path(path: &[u8]) -> TestDirectMap {
    let mut um = TestDirectMap::at(USER, 0x8000);
    write_bytes(&mut um, USER, path);
    um
}

fn clock() -> Clock {
    init(1000, 0, 0, 0)
}

fn running(tid: u32) -> Scheduler {
    let mut sched = Scheduler::new();
    sched.init_for_cpu(0, 0x1000);
    let mut idle = Thread::new_test(9999);
    idle.state = ThreadState::Runnable;
    sched.threads.register(idle);
    sched.cpus[0].idle_thread = Some(Tid(9999));
    let mut t = Thread::new_test(tid);
    t.state = ThreadState::Running;
    t.on_cpu = true;
    sched.threads.register(t);
    sched.cpus[0].current_thread = Some(Tid(tid));
    sched
}

/// A terminal that takes three bytes at a time and gives what it was fed.
struct Tty {
    out: Vec<u8>,
    input: VecDeque<u8>,
}

impl Terminal for Tty {
    fn write(&mut self, data: &[u8]) -> usize {
        let n = data.len().min(3);
        self.out.extend_from_slice(&data[..n]);
        n
    }

    fn read(&mut self, max: u64) -> Vec<u8> {
        let n = (max as usize).min(self.input.len());
        self.input.drain(..n).collect()
    }
}

fn tty(input: &[u8]) -> Console<Tty> {
    Console::new(Tty { out: Vec::new(), input: input.iter().copied().collect() })
}

/// Maps the user's first page.
fn mapped() -> LeafTable {
    let mut pt = LeafTable::new();
    pt.map_2mb(sumi_kernel::address::VirtualAddr::new(USER), PhysicalAddr::new(0x300_0000)).unwrap();
    pt
}

fn file(fh: u64, nodeid: u64, offset: u64, size: u64) -> FileDescriptor {
    FileDescriptor { kind: FdKind::File { fuse_fh: fh, fuse_nodeid: nodeid, offset, size }, flags: 0 }
}

#[test]
fn paths_are_normalized() {
    assert_eq!(normalize_abs_path(b"/"), b"/");
    assert_eq!(normalize_abs_path(b""), b"/");
    assert_eq!(normalize_abs_path(b"//a///b/"), b"/a/b");
    assert_eq!(normalize_abs_path(b"/a/./b/../c"), b"/a/c");
    assert_eq!(normalize_abs_path(b"/../../x"), b"/x");
    assert_eq!(normalize_abs_path(b"/a/.."), b"/");
    assert_eq!(normalize_abs_path(b"/..."), b"/...");
}

#[test]
fn paths_are_split_at_the_last_slash() {
    assert_eq!(split_path(b"/foo/bar"), Some((b"/foo".to_vec(), b"bar".to_vec())));
    assert_eq!(split_path(b"/bar"), Some((b"".to_vec(), b"bar".to_vec())));
    assert_eq!(split_path(b"/foo//"), Some((b"".to_vec(), b"foo".to_vec())));
    assert_eq!(split_path(b"bar"), Some((b"".to_vec(), b"bar".to_vec())));
    assert_eq!(split_path(b"//"), None);
    assert_eq!(split_path(b""), None);
}

#[test]
fn user_paths_start_where_the_process_is() {
    let cwd = Cwd { path: Some(b"/home".to_vec()) };
    assert_eq!(read_user_path(&with_path(b"x/../y\0"), USER, &cwd), Ok(b"/home/y".to_vec()));
    assert_eq!(read_user_path(&with_path(b"/etc\0"), USER, &cwd), Ok(b"/etc".to_vec()));
    assert_eq!(read_user_path(&with_path(b"\0"), USER, &cwd), Err(ENOENT));
    assert_eq!(read_user_path(&with_path(&[b'a'; 5000]), USER, &cwd), Err(ENAMETOOLONG));
}

#[test]
fn stat_describes_the_file() {
    let mut fs = host();
    let mut um = with_path(b"/file\0");
    let buf = USER + 0x100;
    assert_eq!(sys_stat(&call([USER, buf, 0, 0, 0, 0]), &mut fs, &mut um, &Cwd::new()), 0);
    assert_eq!(read_u64(&um, buf + 8), 30);
    assert_eq!(read_u64(&um, buf + 16), 1);
    assert_eq!(read_u32(&um, buf + 24), 0o100644);
    assert_eq!(read_u32(&um, buf + 28), 7);
    assert_eq!(read_u32(&um, buf + 32), 9);
    assert_eq!(read_u64(&um, buf + 48), 100);
    assert_eq!(read_u64(&um, buf + 56), 4096);
    assert_eq!(read_u64(&um, buf + 104), 3);
    assert_eq!(read_u64(&um, buf + 112), 6);
    assert_eq!(fs.client().asked.last().unwrap(), "forget 30 1");
}

#[test]
fn stat_of_a_missing_file_passes_the_error_on() {
    let mut fs = host();
    let mut um = with_path(b"/nothing\0");
    assert_eq!(sys_stat(&call([USER, USER + 0x100, 0, 0, 0, 0]), &mut fs, &mut um, &Cwd::new()), ENOENT);
    assert_eq!(sys_access(&call([USER, 0, 0, 0, 0, 0]), &mut fs, &um, &Cwd::new()), ENOENT);
    assert_eq!(fs.client().asked, vec!["flush all", "resolve /nothing", "resolve /nothing"]);
}

#[test]
fn open_gives_the_lowest_descriptor() {
    let mut fs = host();
    let mut fds = FdTable::new();
    let um = with_path(b"/file\0");
    assert_eq!(sys_open(&call([USER, 0, 0, 0, 0, 0]), &mut fds, &mut fs, &um, &Cwd::new()), 3);
    assert_eq!(fds.get(3).unwrap().kind, FdKind::File { fuse_fh: 1030, fuse_nodeid: 30, offset: 0, size: 100 });
    assert_eq!(
        sys_openat(&call([AT_FDCWD as u32 as u64, USER, 0, 0, 0, 0]), &mut fds, &mut fs, &um, &Cwd::new()),
        4
    );
}

#[test]
fn open_of_a_directory() {
    let mut fs = host();
    let mut fds = FdTable::new();
    let um = with_path(b"/dir\0");
    assert_eq!(sys_open(&call([USER, O_DIRECTORY as u64, 0, 0, 0, 0]), &mut fds, &mut fs, &um, &Cwd::new()), 3);
    assert_eq!(fds.get(3).unwrap().kind, FdKind::Directory { fuse_fh: 2020, fuse_nodeid: 20, offset: 0 });
}

#[test]
fn open_creates_a_missing_file() {
    let mut fs = host();
    let mut fds = FdTable::new();
    let um = with_path(b"/dir/new\0");
    let r = sys_open(&call([USER, (O_CREAT | O_TRUNC) as u64, 0o640, 0, 0, 0]), &mut fds, &mut fs, &um, &Cwd::new());
    assert_eq!(r, 3);
    assert!(fs.client().asked.contains(&"create 20 new 640".to_string()));
    assert_eq!(fds.get(3).unwrap().kind, FdKind::File { fuse_fh: 1050, fuse_nodeid: 50, offset: 0, size: 0 });
}

#[test]
fn directories_come_and_go() {
    let mut fs = host();
    let um = with_path(b"/dir/sub\0");
    assert_eq!(sys_mkdir(&call([USER, 0o750, 0, 0, 0, 0]), &mut fs, &um, &Cwd::new()), 0);
    assert!(fs.client().asked.contains(&"mkdir 20 sub 750".to_string()));
    assert_eq!(sys_rmdir(&call([USER, 0, 0, 0, 0, 0]), &mut fs, &um, &Cwd::new()), 0);
    assert!(fs.client().asked.contains(&"rmdir 20 sub".to_string()));
    assert_eq!(sys_unlink(&call([USER, 0, 0, 0, 0, 0]), &mut fs, &um, &Cwd::new()), EEXIST);
}

#[test]
fn the_root_is_looked_up_by_its_name() {
    let mut fs = host();
    let um = with_path(b"/sub\0");
    assert_eq!(sys_mkdir(&call([USER, 0o750, 0, 0, 0, 0]), &mut fs, &um, &Cwd::new()), 0);
    assert_eq!(fs.client().asked, vec!["resolve /", "mkdir 1 sub 750", "forget 60 1"]);
}

#[test]
fn relative_paths_start_at_the_working_directory_only() {
    let mut fs = host();
    let mut fds = FdTable::new();
    let mut um = with_path(b"file\0");
    let buf = USER + 0x100;
    assert_eq!(sys_faccessat(&call([5, USER, 0, 0, 0, 0]), &mut fs, &um, &Cwd::new()), ENOSYS);
    assert_eq!(sys_faccessat2(&call([5, USER, 0, 0, 0, 0]), &mut fs, &um, &Cwd::new()), ENOSYS);
    assert_eq!(sys_faccessat2(&call([5, USER, 0, 0x8000, 0, 0]), &mut fs, &um, &Cwd::new()), EINVAL);
    assert_eq!(sys_openat(&call([5, USER, 0, 0, 0, 0]), &mut fds, &mut fs, &um, &Cwd::new()), ENOSYS);
    assert_eq!(sys_mkdirat(&call([5, USER, 0, 0, 0, 0]), &mut fs, &um, &Cwd::new()), ENOSYS);
    assert_eq!(sys_unlinkat(&call([5, USER, 0, 0, 0, 0]), &mut fs, &um, &Cwd::new()), ENOSYS);
    assert_eq!(sys_newfstatat(&call([5, USER, buf, 0, 0, 0]), &fds, &mut fs, &mut um, &Cwd::new()), ENOSYS);
    assert!(fs.client().asked.is_empty());
    let here = AT_FDCWD as u32 as u64;
    assert_eq!(sys_faccessat(&call([here, USER, 0, 0, 0, 0]), &mut fs, &um, &Cwd::new()), 0);
    let um = with_path(b"/file\0");
    assert_eq!(sys_faccessat(&call([5, USER, 0, 0, 0, 0]), &mut fs, &um, &Cwd::new()), 0);
}

#[test]
fn rename_moves_between_directories() {
    let mut fs = host();
    let mut um = with_path(b"/file\0");
    write_bytes(&mut um, USER + 64, b"/dir/moved\0");
    assert_eq!(sys_rename(&call([USER, USER + 64, 0, 0, 0, 0]), &mut fs, &um, &Cwd::new()), 0);
    assert!(fs.client().asked.contains(&"rename 1 file 20 moved".to_string()));
}

#[test]
fn links_are_not_supported() {
    assert_eq!(sys_link(&call([0; 6])), ENOSYS);
    assert_eq!(sys_symlink(&call([0; 6])), ENOSYS);
    assert_eq!(sys_readlink(&call([0; 6])), EINVAL);
}

#[test]
fn chdir_leads_relative_paths() {
    let mut fs = host();
    let mut cwd = Cwd::new();
    let um = with_path(b"/dir\0");
    assert_eq!(sys_chdir(&call([USER, 0, 0, 0, 0, 0]), &mut fs, &um, &mut cwd), 0);
    assert_eq!(cwd.cwd_bytes(), b"/dir");
    let mut um = with_path(b"/nothing\0");
    assert_eq!(sys_chdir(&call([USER, 0, 0, 0, 0, 0]), &mut fs, &um, &mut cwd), ENOENT);
    assert_eq!(sys_getcwd(&call([USER, 4, 0, 0, 0, 0]), &mut um, &cwd), ERANGE);
    assert_eq!(sys_getcwd(&call([USER, 64, 0, 0, 0, 0]), &mut um, &cwd), USER as i64);
    assert_eq!(read_bytes(&um, USER, 5), b"/dir\0");
}

#[test]
fn chdir_takes_only_text() {
    let mut fs = Fs::new(Host { asked: Vec::new(), dir: Vec::new(), bad_name: true });
    let mut cwd = Cwd::new();
    let um = with_path(b"/caf\xc3\xa9\0");
    assert_eq!(sys_chdir(&call([USER, 0, 0, 0, 0, 0]), &mut fs, &um, &mut cwd), 0);
    assert_eq!(cwd.cwd_bytes(), b"/caf\xc3\xa9");
    let um = with_path(b"/caf\xc3\0");
    assert_eq!(sys_chdir(&call([USER, 0, 0, 0, 0, 0]), &mut fs, &um, &mut cwd), EINVAL);
    assert_eq!(cwd.cwd_bytes(), b"/caf\xc3\xa9");
}

fn dirent(ino: u64, off: u64, typ: u32, name: &[u8]) -> Vec<u8> {
    let mut e = Vec::new();
    e.extend_from_slice(&ino.to_le_bytes());
    e.extend_from_slice(&off.to_le_bytes());
    e.extend_from_slice(&(name.len() as u32).to_le_bytes());
    e.extend_from_slice(&typ.to_le_bytes());
    e.extend_from_slice(name);
    while e.len() % 8 != 0 {
        e.push(0);
    }
    e
}

#[test]
fn directory_entries_are_converted() {
    let mut data = dirent(5, 1, 4, b"sub");
    data.extend(dirent(6, 2, 8, b"a-longer-name"));
    data.extend(dirent(7, 3, 10, b"link"));
    let (out, next) = convert_dirents(&data, 4096);
    assert_eq!(next, 3);
    assert_eq!(out.len(), 24 + 40 + 24);
    assert_eq!(&out[..8], &5u64.to_le_bytes());
    assert_eq!(&out[8..16], &1u64.to_le_bytes());
    assert_eq!(&out[16..24], &[24, 0, 4, b's', b'u', b'b', 0, 0]);
    assert_eq!(out[24 + 18], 8);
    assert_eq!(&out[24 + 19..24 + 32], b"a-longer-name");
    assert_eq!(out[64 + 18], 0);
    let (short, next) = convert_dirents(&data, 30);
    assert_eq!(short.len(), 24);
    assert_eq!(next, 1);
}

#[test]
fn getdents64_goes_on_where_it_stopped() {
    let mut fs = host();
    let mut fds = FdTable::new();
    fds.allocate(FileDescriptor { kind: FdKind::Directory { fuse_fh: 2020, fuse_nodeid: 20, offset: 0 }, flags: 0 });
    let mut data = dirent(5, 1, 4, b"sub");
    data.extend(dirent(6, 2, 8, b"file"));
    let mut fs2 = Fs::new(Host { asked: Vec::new(), dir: data, bad_name: false });
    let mut um = with_path(b"");
    assert_eq!(sys_getdents64(&call([3, USER, 24, 0, 0, 0]), &mut fds, &mut fs2, &mut um), 24);
    assert_eq!(fds.get(3).unwrap().kind, FdKind::Directory { fuse_fh: 2020, fuse_nodeid: 20, offset: 1 });
    assert_eq!(sys_getdents64(&call([3, USER, 4, 0, 0, 0]), &mut fds, &mut fs2, &mut um), EINVAL);
    assert_eq!(sys_getdents64(&call([3, USER, 64, 0, 0, 0]), &mut fds, &mut fs, &mut um), 0);
    assert_eq!(sys_getdents64(&call([1, USER, 64, 0, 0, 0]), &mut fds, &mut fs, &mut um), ENOTDIR);
    assert_eq!(sys_getdents64(&call([9, USER, 64, 0, 0, 0]), &mut fds, &mut fs, &mut um), EBADF);
}

#[test]
fn seeking_moves_the_offset() {
    let mut fs = host();
    let mut fds = FdTable::new();
    fds.allocate(file(1030, 30, 10, 100));
    assert_eq!(sys_lseek(&call([3, 40, SEEK_SET, 0, 0, 0]), &mut fds, &mut fs), 40);
    assert_eq!(sys_lseek(&call([3, (-15i64) as u64, SEEK_CUR, 0, 0, 0]), &mut fds, &mut fs), 25);
    assert_eq!(sys_lseek(&call([3, (-1i64) as u64, SEEK_END, 0, 0, 0]), &mut fds, &mut fs), 99);
    assert_eq!(sys_lseek(&call([3, (-1i64) as u64, SEEK_SET, 0, 0, 0]), &mut fds, &mut fs), EINVAL);
    assert_eq!(sys_lseek(&call([3, 0, 9, 0, 0, 0]), &mut fds, &mut fs), EINVAL);
    assert_eq!(sys_lseek(&call([1, 0, SEEK_SET, 0, 0, 0]), &mut fds, &mut fs), ESPIPE);
    assert_eq!(sys_lseek(&call([7, 0, SEEK_SET, 0, 0, 0]), &mut fds, &mut fs), EBADF);
}

#[test]
fn reading_a_file_moves_its_offset() {
    let mut fs = host();
    let mut fds = FdTable::new();
    fds.allocate(file(1030, 30, 10, 100));
    let mut net = NetStateInner::new_loopback(&None, &clock(), 0);
    let mut sched = running(5);
    let mut um = with_path(b"");
    let mut console = tty(b"");
    let r = sys_read(
        &call([3, USER, 20, 0, 0, 0]),
        &mut fds,
        &mut fs,
        &mapped(),
        &mut net,
        &mut sched,
        &mut um,
        &mut console,
        0,
        &clock(),
        0,
    );
    assert_eq!(r, Call::Return(20));
    assert_eq!(fds.get(3).unwrap().kind, FdKind::File { fuse_fh: 1030, fuse_nodeid: 30, offset: 30, size: 100 });
    assert!(fs.client().asked.contains(&"read 1030 10 0x3000000 20".to_string()));
    assert_eq!(sys_pread64(&call([3, USER, 5, 60, 0, 0]), &fds, &mut fs, &mapped(), &mut um), 5);
    assert!(fs.client().asked.contains(&"read 1030 60 0x3000000 5".to_string()));
}

#[test]
fn the_console_takes_what_it_can() {
    let mut fs = host();
    let mut fds = FdTable::new();
    let mut net = NetStateInner::new_loopback(&None, &clock(), 0);
    let mut sched = running(5);
    let mut um = with_path(b"hello");
    let mut console = tty(b"typed");
    let mut go = |write: bool, args: SyscallArgs, fds: &mut FdTable, um: &mut TestDirectMap| {
        if write {
            sys_write(&args, fds, &mut fs, &mapped(), &mut net, &mut sched, um, &mut console, 0, &clock(), 0)
        } else {
            sys_read(&args, fds, &mut fs, &mapped(), &mut net, &mut sched, um, &mut console, 0, &clock(), 0)
        }
    };
    assert_eq!(go(true, call([1, USER, 5, 0, 0, 0]), &mut fds, &mut um), Call::Return(3));
    assert_eq!(go(false, call([0, USER, 3, 0, 0, 0]), &mut fds, &mut um), Call::Return(3));
    assert_eq!(read_bytes(&um, USER, 5), b"typlo");
    assert_eq!(go(false, call([9, USER, 3, 0, 0, 0]), &mut fds, &mut um), Call::Return(EBADF));
    assert_eq!(go(true, call([9, USER, 3, 0, 0, 0]), &mut fds, &mut um), Call::Return(EBADF));
    assert_eq!(console.device().out, b"hel");
}

#[test]
fn vectored_console_io_uses_the_buffers_in_order() {
    let mut fs = host();
    let mut fds = FdTable::new();
    let mut net = NetStateInner::new_loopback(&None, &clock(), 0);
    let mut sched = running(5);
    let mut um = with_path(b"abcdef");
    let iov = USER + 0x1000;
    for (i, (base, len)) in [(USER, 3u64), (USER + 0x40, 0), (USER + 3, 3)].iter().enumerate() {
        write_u64(&mut um, iov + 16 * i as u64, *base);
        write_u64(&mut um, iov + 16 * i as u64 + 8, *len);
    }
    let mut console = tty(b"wxyz");
    let pt = mapped();
    let r = sys_writev(
        &call([1, iov, 3, 0, 0, 0]),
        &mut fds,
        &mut fs,
        &pt,
        &mut net,
        &mut sched,
        &mut um,
        &mut console,
        0,
        &clock(),
        0,
    );
    assert_eq!(r, Call::Return(6));
    let r = sys_readv(
        &call([0, iov, 3, 0, 0, 0]),
        &mut fds,
        &mut fs,
        &pt,
        &mut net,
        &mut sched,
        &mut um,
        &mut console,
        0,
        &clock(),
        0,
    );
    assert_eq!(r, Call::Return(4));
    assert_eq!(read_bytes(&um, USER, 6), b"wxyzef");
    assert_eq!(console.device().out, b"abcdef");
}

#[test]
fn typed_bytes_may_describe_the_next_buffer() {
    let mut fs = host();
    let mut fds = FdTable::new();
    let mut net = NetStateInner::new_loopback(&None, &clock(), 0);
    let mut sched = running(5);
    let mut um = with_path(b"");
    let iov = USER + 0x1000;
    write_u64(&mut um, iov, iov + 16);
    write_u64(&mut um, iov + 8, 16);
    let mut typed = (USER + 0x40).to_le_bytes().to_vec();
    typed.extend_from_slice(&3u64.to_le_bytes());
    typed.extend_from_slice(b"abc");
    let mut console = tty(&typed);
    let r = sys_readv(
        &call([0, iov, 2, 0, 0, 0]),
        &mut fds,
        &mut fs,
        &mapped(),
        &mut net,
        &mut sched,
        &mut um,
        &mut console,
        0,
        &clock(),
        0,
    );
    assert_eq!(r, Call::Return(19));
    assert_eq!(read_bytes(&um, USER + 0x40, 3), b"abc");
}

#[test]
fn duplicates_share_and_the_last_close_releases() {
    let mut fs = host();
    let mut fds = FdTable::new();
    let mut net = NetStateInner::new_loopback(&None, &clock(), 0);
    let mut sched = running(5);
    fds.allocate(file(1030, 30, 10, 100));
    assert_eq!(sys_dup(&call([3, 0, 0, 0, 0, 0]), &mut fds), 4);
    assert_eq!(sys_dup(&call([9, 0, 0, 0, 0, 0]), &mut fds), EBADF);
    assert_eq!(sys_close(&call([3, 0, 0, 0, 0, 0]), &mut fds, &mut fs, &mut net, &mut sched, 0, &clock(), 0), 0);
    assert!(!fs.client().asked.contains(&"release 1030".to_string()));
    assert_eq!(
        sys_dup2(&call([4, 6, 0, 0, 0, 0]), &mut fds, &mut fs, &mut net, &mut sched, 0, &clock(), 0),
        6
    );
    assert_eq!(sys_close(&call([4, 0, 0, 0, 0, 0]), &mut fds, &mut fs, &mut net, &mut sched, 0, &clock(), 0), 0);
    assert!(!fs.client().asked.contains(&"release 1030".to_string()));
    assert_eq!(sys_close(&call([6, 0, 0, 0, 0, 0]), &mut fds, &mut fs, &mut net, &mut sched, 0, &clock(), 0), 0);
    assert!(fs.client().asked.contains(&"release 1030".to_string()));
    assert_eq!(
        sys_close(&call([6, 0, 0, 0, 0, 0]), &mut fds, &mut fs, &mut net, &mut sched, 0, &clock(), 0),
        EBADF
    );
}

#[test]
fn fcntl_duplicates_and_keeps_flags() {
    let mut fds = FdTable::new();
    let mut net = NetStateInner::new_loopback(&None, &clock(), 0);
    let mut um = with_path(b"");
    fds.allocate(file(1030, 30, 0, 100));
    assert_eq!(sys_fcntl(&call([3, F_SETFL as u64, O_NONBLOCK as u64, 0, 0, 0]), &mut fds, &mut net, &mut um), 0);
    assert_eq!(sys_fcntl(&call([3, F_GETFL as u64, 0, 0, 0, 0]), &mut fds, &mut net, &mut um), O_NONBLOCK as i64);
    assert_eq!(sys_fcntl(&call([3, F_DUPFD as u64, 0, 0, 0, 0]), &mut fds, &mut net, &mut um), 4);
    assert_eq!(sys_fcntl(&call([9, F_GETFL as u64, 0, 0, 0, 0]), &mut fds, &mut net, &mut um), EBADF);
    assert_eq!(sys_fcntl(&call([3, 77, 0, 0, 0, 0]), &mut fds, &mut net, &mut um), EINVAL);
}

#[test]
fn files_are_described_cut_and_synced() {
    let mut fs = host();
    let mut fds = FdTable::new();
    let mut um = with_path(b"");
    fds.allocate(file(1030, 30, 0, 100));
    assert_eq!(sys_fstat(&call([3, USER, 0, 0, 0, 0]), &fds, &mut fs, &mut um), 0);
    assert_eq!(read_u64(&um, USER + 48), 100);
    assert_eq!(sys_fstat(&call([9, USER, 0, 0, 0, 0]), &fds, &mut fs, &mut um), EBADF);
    assert_eq!(sys_ftruncate(&call([3, 60, 0, 0, 0, 0]), &mut fds, &mut fs), 0);
    assert_eq!(fds.get(3).unwrap().kind, FdKind::File { fuse_fh: 1030, fuse_nodeid: 30, offset: 0, size: 60 });
    assert_eq!(sys_fsync(&call([3, 0, 0, 0, 0, 0]), &fds, &mut fs), 0);
    assert!(fs.client().asked.contains(&"fsync 1030 false".to_string()));
    assert_eq!(sys_ioctl(&call([1, 0, 0, 0, 0, 0])), ENOTTY);
}

#[test]
fn pipes_carry_bytes_between_descriptors() {
    let mut fs = host();
    let mut fds = FdTable::new();
    let mut net = NetStateInner::new_loopback(&None, &clock(), 0);
    let mut sched = running(5);
    let mut um = with_path(b"ping");
    let mut console = tty(b"");
    let pt = mapped();
    assert_eq!(sys_pipe2(&call([USER + 0x100, 0, 0, 0, 0, 0]), &mut fds, &mut net, &mut um), 0);
    assert_eq!(read_u32(&um, USER + 0x100), 3);
    assert_eq!(read_u32(&um, USER + 0x104), 4);
    let r = sys_write(
        &call([4, USER, 4, 0, 0, 0]),
        &mut fds,
        &mut fs,
        &pt,
        &mut net,
        &mut sched,
        &mut um,
        &mut console,
        0,
        &clock(),
        0,
    );
    assert_eq!(r, Call::Return(4));
    let r = sys_read(
        &call([3, USER + 0x10, 16, 0, 0, 0]),
        &mut fds,
        &mut fs,
        &pt,
        &mut net,
        &mut sched,
        &mut um,
        &mut console,
        0,
        &clock(),
        0,
    );
    assert_eq!(r, Call::Return(4));
    assert_eq!(read_bytes(&um, USER + 0x10, 4), b"ping");
    let r = sys_read(
        &call([3, USER + 0x10, 16, 0, 0, 0]),
        &mut fds,
        &mut fs,
        &pt,
        &mut net,
        &mut sched,
        &mut um,
        &mut console,
        0,
        &clock(),
        1,
    );
    assert!(matches!(r, Call::Parked(Some(_), _)), "an empty pipe makes its reader wait");
    assert_eq!(sched.thread(Tid(5)).state, ThreadState::Blocked);
}

#[test]
fn addresses_are_translated_within_their_page() {
    let pt = mapped();
    assert_eq!(translate_vaddr(&pt, USER + 0x1234), Some(PhysicalAddr::new(0x300_1234)));
    assert_eq!(translate_vaddr(&pt, USER + PAGE_SIZE), None);
    assert_eq!(bytes_to_page_end(USER), PAGE_SIZE as u32);
    assert_eq!(bytes_to_page_end(USER + PAGE_SIZE - 1), 1);
}
