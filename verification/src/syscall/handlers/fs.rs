//! Files and directories by path.

use vstd::prelude::*;
use vstd::utf8::valid_utf8;

use super::path::{
    lemma_c_len, path_readable, read_user_path, read_user_path_inner, split, split_path, user_path, Cwd, SLASH,
};
use crate::fs::client::{extends, forget_events, lemma_extends_trans, since, Fs, FsEvent, FuseAttr, FuseClient};
use crate::fs::fd_table::{lookup, lowest_free, with_fd, FdKind, FdTable, FileDescriptor};
use crate::memory::access::{le_words, mem, reachable, write_bytes, write_words, Mem, Memory};
use crate::syscall::args::SyscallArgs;
use crate::syscall::errno::{EBADF, EINVAL, ENOENT, ENOSYS, ERANGE};

verus! {

broadcast use crate::fs::client::group_log;

/// The descriptor number that stands for the working directory.
pub const AT_FDCWD: i32 = -100;

pub const O_CREAT: u32 = 0o100;

pub const O_TRUNC: u32 = 0o1000;

pub const O_DIRECTORY: u32 = 0o200000;

/// What is told of a file.
#[derive(Clone, Copy, Debug, PartialEq, Eq, Structural)]
pub struct Stat {
    pub ino: u64,
    pub nlink: u64,
    pub mode: u32,
    pub uid: u32,
    pub gid: u32,
    pub rdev: u64,
    pub size: u64,
    pub blksize: u64,
    pub blocks: u64,
    pub atime: u64,
    pub atime_nsec: u64,
    pub mtime: u64,
    pub mtime_nsec: u64,
    pub ctime: u64,
    pub ctime_nsec: u64,
}

/// Size of what is told of a file.
pub const STAT_LEN: u64 = 144;

/// Two 32-bit numbers side by side, the first in the lower half.
pub open spec fn paired(low: u32, high: u32) -> u64 {
    (low + high * 0x1_0000_0000) as u64
}

/// The words in which a file is described. The first, which names the device, and the last three are 0.
pub open spec fn stat_words(s: Stat) -> Seq<u64> {
    seq![
        0u64,
        s.ino,
        s.nlink,
        paired(s.mode, s.uid),
        paired(s.gid, 0),
        s.rdev,
        s.size,
        s.blksize,
        s.blocks,
        s.atime,
        s.atime_nsec,
        s.mtime,
        s.mtime_nsec,
        s.ctime,
        s.ctime_nsec,
        0u64,
        0u64,
        0u64,
    ]
}

/// The memory after a file was described at `addr`.
pub open spec fn stat_written(m: Mem, addr: u64, s: Stat) -> Mem {
    m.stored(addr as int, le_words(stat_words(s)))
}

/// What is told of a file of which the host knows `attr`.
pub open spec fn stat_of(attr: FuseAttr) -> Stat {
    Stat {
        ino: attr.ino,
        nlink: attr.nlink as u64,
        mode: attr.mode,
        uid: attr.uid,
        gid: attr.gid,
        rdev: attr.rdev as u64,
        size: attr.size,
        blksize: attr.blksize as u64,
        blocks: attr.blocks,
        atime: attr.atime,
        atime_nsec: attr.atimensec as u64,
        mtime: attr.mtime,
        mtime_nsec: attr.mtimensec as u64,
        ctime: attr.ctime,
        ctime_nsec: attr.ctimensec as u64,
    }
}

fn fuse_attr_to_stat(attr: &FuseAttr) -> (r: Stat)
    ensures
        r == stat_of(*attr),
{
    Stat {
        ino: attr.ino,
        nlink: attr.nlink as u64,
        mode: attr.mode,
        uid: attr.uid,
        gid: attr.gid,
        rdev: attr.rdev as u64,
        size: attr.size,
        blksize: attr.blksize as u64,
        blocks: attr.blocks,
        atime: attr.atime,
        atime_nsec: attr.atimensec as u64,
        mtime: attr.mtime,
        mtime_nsec: attr.mtimensec as u64,
        ctime: attr.ctime,
        ctime_nsec: attr.ctimensec as u64,
    }
}

fn write_stat_to_user<M: Memory>(um: &mut M, stat: &Stat, addr: u64)
    requires
        reachable(old(um), addr, STAT_LEN as int),
    ensures
        mem(final(um)) == stat_written(mem(old(um)), addr, *stat),
{
    let words: Vec<u64> = vec![
        0u64,
        stat.ino,
        stat.nlink,
        stat.mode as u64 + stat.uid as u64 * 0x1_0000_0000,
        stat.gid as u64,
        stat.rdev,
        stat.size,
        stat.blksize,
        stat.blocks,
        stat.atime,
        stat.atime_nsec,
        stat.mtime,
        stat.mtime_nsec,
        stat.ctime,
        stat.ctime_nsec,
        0u64,
        0u64,
        0u64,
    ];
    assert(words@ =~= stat_words(*stat));
    write_words(um, addr, words.as_slice());
}

/// What describing the file with this path asks of the host, and what comes of it.
pub open spec fn path_statted(path: Seq<u8>, t: Seq<FsEvent>, r: i64, before: Mem, after: Mem, addr: u64) -> bool {
    t.len() > 0 && (t[0] matches FsEvent::FlushAllWriteCaches { reply } && match reply {
        Err(e) => t.len() == 1 && r == e && after == before,
        Ok(_) => t.len() > 1 && (t[1] matches FsEvent::ResolvePath { path: p, reply: found } && p == path && match found {
            Err(e) => t.len() == 2 && r == e && after == before,
            Ok(node) => t.len() > 2 && (t[2] matches FsEvent::GetAttr { nodeid, reply: got } && nodeid == node && t.skip(3)
                == forget_events(node) && match got {
                Err(e) => r == e && after == before,
                Ok(attr) => r == 0 && after == stat_written(before, addr, stat_of(attr)),
            }),
        }),
    })
}

fn do_stat_path<C: FuseClient, M: Memory>(fs: &mut Fs<C>, um: &mut M, path: &[u8], addr: u64) -> (r: i64)
    requires
        reachable(old(um), addr, STAT_LEN as int),
    ensures
        extends(old(fs).log(), final(fs).log()),
        path_statted(path@, since(old(fs).log(), final(fs).log()), r, mem(old(um)), mem(final(um)), addr),
{
    assert(extends(old(fs).log(), fs.log()));
    if let Err(e) = fs.flush_all_write_caches() {
        return e as i64;
    }
    let nodeid = match fs.resolve_path(path) {
        Ok(id) => id,
        Err(e) => {
            return e as i64;
        },
    };
    let got = fs.getattr(nodeid);
    let ghost t = since(old(fs).log(), fs.log());
    fs.forget_if_not_root(nodeid);
    assert((t + forget_events(nodeid)).skip(3) =~= forget_events(nodeid));
    match got {
        Ok(attr) => {
            let stat = fuse_attr_to_stat(&attr);
            write_stat_to_user(um, &stat, addr);
            0
        },
        Err(e) => e as i64,
    }
}

/// Describes a file.
pub fn sys_stat<C: FuseClient, M: Memory>(args: &SyscallArgs, fs: &mut Fs<C>, um: &mut M, cwd: &Cwd) -> (r: i64)
    requires
        path_readable(mem(old(um)), args.arg0),
        user_path(mem(old(um)), args.arg0, cwd@, false) is Ok ==> reachable(old(um), args.arg1, STAT_LEN as int),
    ensures
        extends(old(fs).log(), final(fs).log()),
        match user_path(mem(old(um)), args.arg0, cwd@, false) {
            Err(e) => r == e && final(fs).log() == old(fs).log() && mem(final(um)) == mem(old(um)),
            Ok(path) => path_statted(
                path,
                since(old(fs).log(), final(fs).log()),
                r,
                mem(old(um)),
                mem(final(um)),
                args.arg1,
            ),
        },
{
    let path = match read_user_path(um, args.arg0, cwd) {
        Ok(p) => p,
        Err(e) => {
            return e;
        },
    };
    do_stat_path(fs, um, path.as_slice(), args.arg1)
}

/// Describes a file. There are no symbolic links to tell apart.
pub fn sys_lstat<C: FuseClient, M: Memory>(args: &SyscallArgs, fs: &mut Fs<C>, um: &mut M, cwd: &Cwd) -> (r: i64)
    requires
        path_readable(mem(old(um)), args.arg0),
        user_path(mem(old(um)), args.arg0, cwd@, false) is Ok ==> reachable(old(um), args.arg1, STAT_LEN as int),
    ensures
        extends(old(fs).log(), final(fs).log()),
        match user_path(mem(old(um)), args.arg0, cwd@, false) {
            Err(e) => r == e && final(fs).log() == old(fs).log() && mem(final(um)) == mem(old(um)),
            Ok(path) => path_statted(
                path,
                since(old(fs).log(), final(fs).log()),
                r,
                mem(old(um)),
                mem(final(um)),
                args.arg1,
            ),
        },
{
    sys_stat(args, fs, um, cwd)
}

/// What is told of something that is no file.
pub open spec fn bare_stat(mode: u32) -> Stat {
    Stat {
        ino: 0,
        nlink: 1,
        mode,
        uid: 0,
        gid: 0,
        rdev: 0,
        size: 0,
        blksize: 4096,
        blocks: 0,
        atime: 0,
        atime_nsec: 0,
        mtime: 0,
        mtime_nsec: 0,
        ctime: 0,
        ctime_nsec: 0,
    }
}

/// The mode of what is no file: a terminal, a socket or a pipe.
pub open spec fn bare_mode(kind: FdKind) -> Option<u32> {
    match kind {
        FdKind::Console => Some(0o20666),
        FdKind::Socket { .. } => Some(0o140666),
        FdKind::Epoll { .. } => Some(0o140666),
        FdKind::Pipe { .. } => Some(0o10666),
        FdKind::File { .. } => None,
        FdKind::Directory { .. } => None,
    }
}

/// What describing an open file asks of the host, and what comes of it.
pub open spec fn node_statted(node: u64, t: Seq<FsEvent>, r: i64, before: Mem, after: Mem, addr: u64) -> bool {
    t.len() == 1 && (t[0] matches FsEvent::GetAttr { nodeid, reply } && nodeid == node && match reply {
        Err(e) => r == e && after == before,
        Ok(attr) => r == 0 && after == stat_written(before, addr, stat_of(attr)),
    })
}

/// What describing a descriptor asks of the host, and what comes of it.
pub open spec fn fd_statted(
    desc: Option<FileDescriptor>,
    t: Seq<FsEvent>,
    r: i64,
    before: Mem,
    after: Mem,
    addr: u64,
) -> bool {
    match desc {
        None => t.len() == 0 && r == EBADF && after == before,
        Some(d) => match d.kind {
            FdKind::File { fuse_fh, fuse_nodeid, .. } => t.len() > 0 && (t[0] matches FsEvent::FlushWriteCache { fh, reply } && fh
                == fuse_fh && match reply {
                Err(e) => t.len() == 1 && r == e && after == before,
                Ok(_) => node_statted(fuse_nodeid, t.skip(1), r, before, after, addr),
            }),
            FdKind::Directory { fuse_nodeid, .. } => node_statted(fuse_nodeid, t, r, before, after, addr),
            _ => t.len() == 0 && r == 0 && after == stat_written(before, addr, bare_stat(bare_mode(d.kind)->0)),
        },
    }
}

/// Describes what a descriptor stands for.
pub fn sys_fstat<C: FuseClient, M: Memory>(args: &SyscallArgs, fds: &FdTable, fs: &mut Fs<C>, um: &mut M) -> (r: i64)
    requires
        lookup(fds@, args.arg0) is Some ==> reachable(old(um), args.arg1, STAT_LEN as int),
    ensures
        extends(old(fs).log(), final(fs).log()),
        fd_statted(
            lookup(fds@, args.arg0),
            since(old(fs).log(), final(fs).log()),
            r,
            mem(old(um)),
            mem(final(um)),
            args.arg1,
        ),
{
    assert(extends(old(fs).log(), fs.log()));
    let desc = match fds.get(args.arg0) {
        Some(d) => d,
        None => {
            return EBADF;
        },
    };
    let mode: u32 = match desc.kind {
        FdKind::File { fuse_fh, fuse_nodeid, .. } => {
            if let Err(e) = fs.flush_write_cache(fuse_fh) {
                return e as i64;
            }
            let ghost t = since(old(fs).log(), fs.log());
            let got = fs.getattr(fuse_nodeid);
            let ghost ev = FsEvent::GetAttr { nodeid: fuse_nodeid, reply: got };
            assert(t.push(ev).skip(1) =~= seq![ev]);
            return match got {
                Ok(attr) => {
                    let stat = fuse_attr_to_stat(&attr);
                    write_stat_to_user(um, &stat, args.arg1);
                    0
                },
                Err(e) => e as i64,
            };
        },
        FdKind::Directory { fuse_nodeid, .. } => {
            return match fs.getattr(fuse_nodeid) {
                Ok(attr) => {
                    let stat = fuse_attr_to_stat(&attr);
                    write_stat_to_user(um, &stat, args.arg1);
                    0
                },
                Err(e) => e as i64,
            };
        },
        FdKind::Console => 0o20666,
        FdKind::Socket { .. } => 0o140666,
        FdKind::Epoll { .. } => 0o140666,
        FdKind::Pipe { .. } => 0o10666,
    };
    let stat = Stat {
        ino: 0,
        nlink: 1,
        mode,
        uid: 0,
        gid: 0,
        rdev: 0,
        size: 0,
        blksize: 4096,
        blocks: 0,
        atime: 0,
        atime_nsec: 0,
        mtime: 0,
        mtime_nsec: 0,
        ctime: 0,
        ctime_nsec: 0,
    };
    write_stat_to_user(um, &stat, args.arg1);
    0
}

/// The path that the user gives at `ptr` can be followed: it is absolute, or starts at the working directory. From another
/// directory it cannot.
pub open spec fn followable(dirfd: i32, m: Mem, ptr: u64) -> bool {
    dirfd == AT_FDCWD || m.bytes[ptr - m.base] == SLASH
}

/// Whether a path can be looked up: it is absolute, or starts at the working directory.
pub fn can_follow<M: Memory>(dirfd: i32, um: &M, ptr: u64) -> (r: bool)
    requires
        path_readable(mem(um), ptr),
    ensures
        r == followable(dirfd, mem(um), ptr),
{
    proof {
        lemma_c_len(mem(um), ptr, 0);
    }
    dirfd == AT_FDCWD || um.read_u8(ptr) == SLASH
}

/// The directory to look a name up in. The root has a name of its own.
pub open spec fn dir_path(dir: Seq<u8>) -> Seq<u8> {
    if dir.len() == 0 { seq![SLASH] } else { dir }
}

/// Looks up the directory of a path.
fn resolve_dir<C: FuseClient>(fs: &mut Fs<C>, dir: &[u8]) -> (r: Result<u64, i32>)
    ensures
        final(fs).log() == old(fs).log().push(FsEvent::ResolvePath { path: dir_path(dir@), reply: r }),
{
    if dir.len() == 0 {
        let root: [u8; 1] = [SLASH];
        assert(root@ =~= seq![SLASH]);
        fs.resolve_path(root.as_slice())
    } else {
        fs.resolve_path(dir)
    }
}

/// What looking for a path asks of the host, and what comes of it.
pub open spec fn accessed(follows: bool, path: Seq<u8>, t: Seq<FsEvent>, r: i64) -> bool {
    if !follows {
        t.len() == 0 && r == ENOSYS
    } else {
        t.len() > 0 && (t[0] matches FsEvent::ResolvePath { path: p, reply } && p == path && match reply {
            Err(e) => t.len() == 1 && r == e,
            Ok(node) => t.skip(1) == forget_events(node) && r == 0,
        })
    }
}

fn do_faccessat<C: FuseClient>(fs: &mut Fs<C>, follows: bool, path: &[u8]) -> (r: i64)
    ensures
        extends(old(fs).log(), final(fs).log()),
        accessed(follows, path@, since(old(fs).log(), final(fs).log()), r),
{
    assert(extends(old(fs).log(), fs.log()));
    if !follows {
        return ENOSYS;
    }
    let nodeid = match fs.resolve_path(path) {
        Ok(id) => id,
        Err(e) => {
            return e as i64;
        },
    };
    let ghost t = since(old(fs).log(), fs.log());
    fs.forget_if_not_root(nodeid);
    assert((t + forget_events(nodeid)).skip(1) =~= forget_events(nodeid));
    0
}

/// Looks whether a file exists. The mode is not looked at.
pub fn sys_access<C: FuseClient, M: Memory>(args: &SyscallArgs, fs: &mut Fs<C>, um: &M, cwd: &Cwd) -> (r: i64)
    requires
        path_readable(mem(um), args.arg0),
    ensures
        extends(old(fs).log(), final(fs).log()),
        match user_path(mem(um), args.arg0, cwd@, false) {
            Err(e) => r == e && final(fs).log() == old(fs).log(),
            Ok(path) => accessed(true, path, since(old(fs).log(), final(fs).log()), r),
        },
{
    let path = match read_user_path(um, args.arg0, cwd) {
        Ok(p) => p,
        Err(e) => {
            return e;
        },
    };
    do_faccessat(fs, true, path.as_slice())
}

/// Looks whether a file exists. Mode and flags are not looked at.
pub fn sys_faccessat<C: FuseClient, M: Memory>(args: &SyscallArgs, fs: &mut Fs<C>, um: &M, cwd: &Cwd) -> (r: i64)
    requires
        path_readable(mem(um), args.arg1),
    ensures
        extends(old(fs).log(), final(fs).log()),
        match user_path(mem(um), args.arg1, cwd@, false) {
            Err(e) => r == e && final(fs).log() == old(fs).log(),
            Ok(path) => accessed(followable(args.arg0 as i32, mem(um), args.arg1), path, since(old(fs).log(), final(fs).log()), r),
        },
{
    let dirfd: i32 = #[verifier::truncate]
    (args.arg0 as i32);
    let path = match read_user_path(um, args.arg1, cwd) {
        Ok(p) => p,
        Err(e) => {
            return e;
        },
    };
    do_faccessat(fs, can_follow(dirfd, um, args.arg1), path.as_slice())
}

pub const AT_SYMLINK_NOFOLLOW: u32 = 0x100;

pub const AT_EACCESS: u32 = 0x200;

pub const AT_REMOVEDIR: u32 = 0x200;

pub const AT_EMPTY_PATH: u32 = 0x1000;

/// Looks whether a file exists. Flags that are not known are refused.
pub fn sys_faccessat2<C: FuseClient, M: Memory>(args: &SyscallArgs, fs: &mut Fs<C>, um: &M, cwd: &Cwd) -> (r: i64)
    requires
        path_readable(mem(um), args.arg1),
    ensures
        extends(old(fs).log(), final(fs).log()),
        match user_path(mem(um), args.arg1, cwd@, false) {
            Err(e) => r == e && final(fs).log() == old(fs).log(),
            Ok(path) => if args.arg3 as u32 & !(AT_SYMLINK_NOFOLLOW | AT_EACCESS) != 0 {
                r == EINVAL && final(fs).log() == old(fs).log()
            } else {
                accessed(followable(args.arg0 as i32, mem(um), args.arg1), path, since(old(fs).log(), final(fs).log()), r)
            },
        },
{
    let dirfd: i32 = #[verifier::truncate]
    (args.arg0 as i32);
    let path = match read_user_path(um, args.arg1, cwd) {
        Ok(p) => p,
        Err(e) => {
            return e;
        },
    };
    let flags: u32 = #[verifier::truncate]
    (args.arg3 as u32);
    if flags & !(AT_SYMLINK_NOFOLLOW | AT_EACCESS) != 0 {
        return EINVAL;
    }
    do_faccessat(fs, can_follow(dirfd, um, args.arg1), path.as_slice())
}

/// The old form of a directory listing does not exist.
pub fn sys_getdents(_args: &SyscallArgs) -> (r: i64)
    ensures
        r == ENOSYS,
{
    ENOSYS
}

/// Tells the working directory.
pub fn sys_getcwd<M: Memory>(args: &SyscallArgs, um: &mut M, cwd: &Cwd) -> (r: i64)
    requires
        args.arg1 > cwd@.len() ==> reachable(old(um), args.arg0, cwd@.len() as int + 1),
    ensures
        args.arg1 < cwd@.len() + 1 ==> r == ERANGE && mem(final(um)) == mem(old(um)),
        args.arg1 >= cwd@.len() + 1 ==> r == args.arg0 as i64 && mem(final(um)) == mem(old(um)).stored(
            args.arg0 as int,
            cwd@.push(0),
        ),
{
    let mut path = cwd.cwd_bytes();
    let len: usize = path.len();
    if args.arg1 <= len as u64 {
        return ERANGE;
    }
    path.push(0u8);
    write_bytes(um, args.arg0, path.as_slice());
    #[verifier::truncate]
    (args.arg0 as i64)
}

/// `core::str::from_utf8`: whether the bytes are text in UTF-8.
#[verifier::external_body]
fn is_utf8(bytes: &[u8]) -> (r: bool)
    ensures
        r == valid_utf8(bytes@),
{
    core::str::from_utf8(bytes).is_ok()
}

/// What changing the working directory asks of the host, and what comes of it.
pub open spec fn moved(path: Seq<u8>, t: Seq<FsEvent>, r: i64, before: Seq<u8>, after: Seq<u8>) -> bool {
    t.len() > 0 && (t[0] matches FsEvent::ResolvePath { path: p, reply } && p == path && match reply {
        Err(e) => t.len() == 1 && r == e && after == before,
        Ok(node) => t.skip(1) == forget_events(node) && if valid_utf8(path) {
            r == 0 && after == path
        } else {
            r == EINVAL && after == before
        },
    })
}

/// Changes the working directory.
pub fn sys_chdir<C: FuseClient, M: Memory>(args: &SyscallArgs, fs: &mut Fs<C>, um: &M, cwd: &mut Cwd) -> (r: i64)
    requires
        path_readable(mem(um), args.arg0),
    ensures
        extends(old(fs).log(), final(fs).log()),
        match user_path(mem(um), args.arg0, old(cwd)@, false) {
            Err(e) => r == e && final(fs).log() == old(fs).log() && final(cwd)@ == old(cwd)@,
            Ok(path) => moved(path, since(old(fs).log(), final(fs).log()), r, old(cwd)@, final(cwd)@),
        },
{
    assert(extends(old(fs).log(), fs.log()));
    let path = match read_user_path(um, args.arg0, cwd) {
        Ok(p) => p,
        Err(e) => {
            return e;
        },
    };
    let nodeid = match fs.resolve_path(path.as_slice()) {
        Ok(id) => id,
        Err(e) => {
            return e as i64;
        },
    };
    let ghost t = since(old(fs).log(), fs.log());
    fs.forget_if_not_root(nodeid);
    assert((t + forget_events(nodeid)).skip(1) =~= forget_events(nodeid));
    if is_utf8(path.as_slice()) {
        cwd.path = Some(path);
        0
    } else {
        EINVAL
    }
}

/// Changing the working directory to a descriptor is accepted, and ignored.
pub fn sys_fchdir(_args: &SyscallArgs) -> (r: i64)
    ensures
        r == 0,
{
    0
}

/// The result of a request without an answer of its own.
pub open spec fn done(reply: Result<(), i32>) -> i64 {
    match reply {
        Ok(_) => 0,
        Err(e) => e as i64,
    }
}

/// What renaming a file asks of the host, and what comes of it.
pub open spec fn renamed(from: Seq<u8>, to: Seq<u8>, t: Seq<FsEvent>, r: i64) -> bool {
    match (split(from), split(to)) {
        (Some((dir, name)), Some((new_dir, new_name))) => t.len() > 0 && (t[0] matches FsEvent::ResolvePath { path: p, reply } && p
            == dir_path(dir) && match reply {
            Err(e) => t.len() == 1 && r == e,
            Ok(a) => t.len() > 1 && (t[1] matches FsEvent::ResolvePath { path: q, reply: found } && q == dir_path(new_dir) && match found {
                Err(e) => t.skip(2) == forget_events(a) && r == e,
                Ok(b) => t.len() > 2 && (t[2] matches FsEvent::Rename { parent, name: n, new_parent, new_name: m, reply: got } && parent
                    == a && n == name && new_parent == b && m == new_name && t.skip(3) == forget_events(a) + forget_events(b) && r
                    == done(got)),
            }),
        }),
        _ => t.len() == 0 && r == EINVAL,
    }
}

/// Renames a file.
pub fn sys_rename<C: FuseClient, M: Memory>(args: &SyscallArgs, fs: &mut Fs<C>, um: &M, cwd: &Cwd) -> (r: i64)
    requires
        path_readable(mem(um), args.arg0),
        user_path(mem(um), args.arg0, cwd@, false) is Ok ==> path_readable(mem(um), args.arg1),
    ensures
        extends(old(fs).log(), final(fs).log()),
        match user_path(mem(um), args.arg0, cwd@, false) {
            Err(e) => r == e && final(fs).log() == old(fs).log(),
            Ok(from) => match user_path(mem(um), args.arg1, cwd@, false) {
                Err(e) => r == e && final(fs).log() == old(fs).log(),
                Ok(to) => renamed(from, to, since(old(fs).log(), final(fs).log()), r),
            },
        },
{
    assert(extends(old(fs).log(), fs.log()));
    let old_path = match read_user_path(um, args.arg0, cwd) {
        Ok(p) => p,
        Err(e) => {
            return e;
        },
    };
    let new_path = match read_user_path(um, args.arg1, cwd) {
        Ok(p) => p,
        Err(e) => {
            return e;
        },
    };
    let (old_dir, old_name) = match split_path(old_path.as_slice()) {
        Some(v) => v,
        None => {
            return EINVAL;
        },
    };
    let (new_dir, new_name) = match split_path(new_path.as_slice()) {
        Some(v) => v,
        None => {
            return EINVAL;
        },
    };
    let old_parent = match resolve_dir(fs, old_dir.as_slice()) {
        Ok(id) => id,
        Err(e) => {
            return e as i64;
        },
    };
    let found = resolve_dir(fs, new_dir.as_slice());
    let ghost t = since(old(fs).log(), fs.log());
    let new_parent = match found {
        Ok(id) => id,
        Err(e) => {
            fs.forget_if_not_root(old_parent);
            assert((t + forget_events(old_parent)).skip(2) =~= forget_events(old_parent));
            return e as i64;
        },
    };
    let result = fs.rename(old_parent, old_name.as_slice(), new_parent, new_name.as_slice());
    let ghost t = since(old(fs).log(), fs.log());
    fs.forget_if_not_root(old_parent);
    fs.forget_if_not_root(new_parent);
    assert((t + forget_events(old_parent) + forget_events(new_parent)).skip(3) =~= forget_events(old_parent) + forget_events(
        new_parent,
    ));
    match result {
        Ok(()) => 0,
        Err(e) => e as i64,
    }
}

/// What setting the size of a file asks of the host, and what comes of it.
pub open spec fn truncated(path: Seq<u8>, len: u64, t: Seq<FsEvent>, r: i64) -> bool {
    t.len() > 0 && (t[0] matches FsEvent::ResolvePath { path: p, reply } && p == path && match reply {
        Err(e) => t.len() == 1 && r == e,
        Ok(node) => t.len() > 1 && (t[1] matches FsEvent::SetAttrSize { nodeid, fh, size, reply: got } && nodeid == node && fh
            is None && size == len && t.skip(2) == forget_events(node) && r == done(got)),
    })
}

/// Sets the size of a file.
pub fn sys_truncate<C: FuseClient, M: Memory>(args: &SyscallArgs, fs: &mut Fs<C>, um: &M, cwd: &Cwd) -> (r: i64)
    requires
        path_readable(mem(um), args.arg0),
    ensures
        extends(old(fs).log(), final(fs).log()),
        match user_path(mem(um), args.arg0, cwd@, false) {
            Err(e) => r == e && final(fs).log() == old(fs).log(),
            Ok(path) => if args.arg1 > i64::MAX {
                r == EINVAL && final(fs).log() == old(fs).log()
            } else {
                truncated(path, args.arg1, since(old(fs).log(), final(fs).log()), r)
            },
        },
{
    assert(extends(old(fs).log(), fs.log()));
    let path = match read_user_path(um, args.arg0, cwd) {
        Ok(p) => p,
        Err(e) => {
            return e;
        },
    };
    if args.arg1 > i64::MAX as u64 {
        return EINVAL;
    }
    let nodeid = match fs.resolve_path(path.as_slice()) {
        Ok(id) => id,
        Err(e) => {
            return e as i64;
        },
    };
    let result = fs.setattr_size(nodeid, None, args.arg1);
    let ghost t = since(old(fs).log(), fs.log());
    fs.forget_if_not_root(nodeid);
    assert((t + forget_events(nodeid)).skip(2) =~= forget_events(nodeid));
    match result {
        Ok(()) => 0,
        Err(e) => e as i64,
    }
}

/// What making a directory asks of the host, and what comes of it.
pub open spec fn made_dir(follows: bool, path: Seq<u8>, mode: u32, t: Seq<FsEvent>, r: i64) -> bool {
    if !follows {
        t.len() == 0 && r == ENOSYS
    } else {
        match split(path) {
            None => t.len() == 0 && r == EINVAL,
            Some((dir, name)) => t.len() > 0 && (t[0] matches FsEvent::ResolvePath { path: p, reply } && p == dir_path(dir) && match reply {
                Err(e) => t.len() == 1 && r == e,
                Ok(node) => t.len() > 1 && (t[1] matches FsEvent::MkDir { parent, name: n, mode: m, reply: got } && parent == node && n
                    == name && m == mode && match got {
                    Err(e) => t.skip(2) == forget_events(node) && r == e,
                    Ok(new) => t.skip(2) == forget_events(node) + forget_events(new) && r == 0,
                }),
            }),
        }
    }
}

fn do_mkdirat<C: FuseClient>(fs: &mut Fs<C>, follows: bool, path: &[u8], mode: u32) -> (r: i64)
    ensures
        extends(old(fs).log(), final(fs).log()),
        made_dir(follows, path@, mode, since(old(fs).log(), final(fs).log()), r),
{
    assert(extends(old(fs).log(), fs.log()));
    if !follows {
        return ENOSYS;
    }
    let (dir, name) = match split_path(path) {
        Some(v) => v,
        None => {
            return EINVAL;
        },
    };
    let parent = match resolve_dir(fs, dir.as_slice()) {
        Ok(id) => id,
        Err(e) => {
            return e as i64;
        },
    };
    let result = fs.mkdir(parent, name.as_slice(), mode);
    let ghost t = since(old(fs).log(), fs.log());
    fs.forget_if_not_root(parent);
    assert((t + forget_events(parent)).skip(2) =~= forget_events(parent));
    match result {
        Ok(new) => {
            fs.forget_if_not_root(new);
            assert((t + forget_events(parent) + forget_events(new)).skip(2) =~= forget_events(parent) + forget_events(new));
            0
        },
        Err(e) => e as i64,
    }
}

/// Makes a directory.
pub fn sys_mkdir<C: FuseClient, M: Memory>(args: &SyscallArgs, fs: &mut Fs<C>, um: &M, cwd: &Cwd) -> (r: i64)
    requires
        path_readable(mem(um), args.arg0),
    ensures
        extends(old(fs).log(), final(fs).log()),
        match user_path(mem(um), args.arg0, cwd@, false) {
            Err(e) => r == e && final(fs).log() == old(fs).log(),
            Ok(path) => made_dir(true, path, args.arg1 as u32, since(old(fs).log(), final(fs).log()), r),
        },
{
    let path = match read_user_path(um, args.arg0, cwd) {
        Ok(p) => p,
        Err(e) => {
            return e;
        },
    };
    let mode: u32 = #[verifier::truncate]
    (args.arg1 as u32);
    do_mkdirat(fs, true, path.as_slice(), mode)
}

/// Makes a directory, from a given one.
pub fn sys_mkdirat<C: FuseClient, M: Memory>(args: &SyscallArgs, fs: &mut Fs<C>, um: &M, cwd: &Cwd) -> (r: i64)
    requires
        path_readable(mem(um), args.arg1),
    ensures
        extends(old(fs).log(), final(fs).log()),
        match user_path(mem(um), args.arg1, cwd@, false) {
            Err(e) => r == e && final(fs).log() == old(fs).log(),
            Ok(path) => made_dir(
                followable(args.arg0 as i32, mem(um), args.arg1),
                path,
                args.arg2 as u32,
                since(old(fs).log(), final(fs).log()),
                r,
            ),
        },
{
    let dirfd: i32 = #[verifier::truncate]
    (args.arg0 as i32);
    let path = match read_user_path(um, args.arg1, cwd) {
        Ok(p) => p,
        Err(e) => {
            return e;
        },
    };
    let mode: u32 = #[verifier::truncate]
    (args.arg2 as u32);
    do_mkdirat(fs, can_follow(dirfd, um, args.arg1), path.as_slice(), mode)
}

/// The request to remove a name from a directory, and the answer.
pub open spec fn is_removal(ev: FsEvent, is_dir: bool, node: u64, name: Seq<u8>, r: i64) -> bool {
    if is_dir {
        ev matches FsEvent::RmDir { parent, name: n, reply } && parent == node && n == name && r == done(reply)
    } else {
        ev matches FsEvent::Unlink { parent, name: n, reply } && parent == node && n == name && r == done(reply)
    }
}

/// What removing a name asks of the host, and what comes of it.
pub open spec fn removed(follows: bool, path: Seq<u8>, is_dir: bool, t: Seq<FsEvent>, r: i64) -> bool {
    if !follows {
        t.len() == 0 && r == ENOSYS
    } else {
        match split(path) {
            None => t.len() == 0 && r == EINVAL,
            Some((dir, name)) => t.len() > 0 && (t[0] matches FsEvent::ResolvePath { path: p, reply } && p == dir_path(dir) && match reply {
                Err(e) => t.len() == 1 && r == e,
                Ok(node) => t.len() > 1 && is_removal(t[1], is_dir, node, name, r) && t.skip(2) == forget_events(node),
            }),
        }
    }
}

fn do_remove<C: FuseClient>(fs: &mut Fs<C>, follows: bool, path: &[u8], is_dir: bool) -> (r: i64)
    ensures
        extends(old(fs).log(), final(fs).log()),
        removed(follows, path@, is_dir, since(old(fs).log(), final(fs).log()), r),
{
    assert(extends(old(fs).log(), fs.log()));
    if !follows {
        return ENOSYS;
    }
    let (dir, name) = match split_path(path) {
        Some(v) => v,
        None => {
            return EINVAL;
        },
    };
    let parent = match resolve_dir(fs, dir.as_slice()) {
        Ok(id) => id,
        Err(e) => {
            return e as i64;
        },
    };
    let result = if is_dir { fs.rmdir(parent, name.as_slice()) } else { fs.unlink(parent, name.as_slice()) };
    let ghost t = since(old(fs).log(), fs.log());
    fs.forget_if_not_root(parent);
    assert((t + forget_events(parent)).skip(2) =~= forget_events(parent));
    match result {
        Ok(()) => 0,
        Err(e) => e as i64,
    }
}

/// Removes a directory.
pub fn sys_rmdir<C: FuseClient, M: Memory>(args: &SyscallArgs, fs: &mut Fs<C>, um: &M, cwd: &Cwd) -> (r: i64)
    requires
        path_readable(mem(um), args.arg0),
    ensures
        extends(old(fs).log(), final(fs).log()),
        match user_path(mem(um), args.arg0, cwd@, false) {
            Err(e) => r == e && final(fs).log() == old(fs).log(),
            Ok(path) => removed(true, path, true, since(old(fs).log(), final(fs).log()), r),
        },
{
    let path = match read_user_path(um, args.arg0, cwd) {
        Ok(p) => p,
        Err(e) => {
            return e;
        },
    };
    do_remove(fs, true, path.as_slice(), true)
}

/// Removes a file.
pub fn sys_unlink<C: FuseClient, M: Memory>(args: &SyscallArgs, fs: &mut Fs<C>, um: &M, cwd: &Cwd) -> (r: i64)
    requires
        path_readable(mem(um), args.arg0),
    ensures
        extends(old(fs).log(), final(fs).log()),
        match user_path(mem(um), args.arg0, cwd@, false) {
            Err(e) => r == e && final(fs).log() == old(fs).log(),
            Ok(path) => removed(true, path, false, since(old(fs).log(), final(fs).log()), r),
        },
{
    let path = match read_user_path(um, args.arg0, cwd) {
        Ok(p) => p,
        Err(e) => {
            return e;
        },
    };
    do_remove(fs, true, path.as_slice(), false)
}

/// Removes a file, or a directory if asked to.
pub fn sys_unlinkat<C: FuseClient, M: Memory>(args: &SyscallArgs, fs: &mut Fs<C>, um: &M, cwd: &Cwd) -> (r: i64)
    requires
        path_readable(mem(um), args.arg1),
    ensures
        extends(old(fs).log(), final(fs).log()),
        match user_path(mem(um), args.arg1, cwd@, false) {
            Err(e) => r == e && final(fs).log() == old(fs).log(),
            Ok(path) => removed(
                followable(args.arg0 as i32, mem(um), args.arg1),
                path,
                args.arg2 as u32 & AT_REMOVEDIR != 0,
                since(old(fs).log(), final(fs).log()),
                r,
            ),
        },
{
    let dirfd: i32 = #[verifier::truncate]
    (args.arg0 as i32);
    let path = match read_user_path(um, args.arg1, cwd) {
        Ok(p) => p,
        Err(e) => {
            return e;
        },
    };
    let flags: u32 = #[verifier::truncate]
    (args.arg2 as u32);
    do_remove(fs, can_follow(dirfd, um, args.arg1), path.as_slice(), flags & AT_REMOVEDIR != 0)
}

/// There are no links.
pub fn sys_link(_args: &SyscallArgs) -> (r: i64)
    ensures
        r == ENOSYS,
{
    ENOSYS
}

/// There are no symbolic links.
pub fn sys_symlink(_args: &SyscallArgs) -> (r: i64)
    ensures
        r == ENOSYS,
{
    ENOSYS
}

/// Nothing is a symbolic link.
pub fn sys_readlink(_args: &SyscallArgs) -> (r: i64)
    ensures
        r == EINVAL,
{
    EINVAL
}

/// Accepts every mode for an open descriptor, and ignores it.
pub fn sys_fchmod(args: &SyscallArgs, fds: &FdTable) -> (r: i64)
    ensures
        r == (if lookup(fds@, args.arg0) is Some { 0 } else { EBADF }),
{
    if fds.get(args.arg0).is_none() { EBADF } else { 0 }
}

/// The descriptor of a file.
pub open spec fn file_desc(fh: u64, node: u64, size: u64, flags: u32) -> FileDescriptor {
    FileDescriptor { kind: FdKind::File { fuse_fh: fh, fuse_nodeid: node, offset: 0, size }, flags }
}

/// The descriptor of a directory.
pub open spec fn dir_desc(fh: u64, node: u64, flags: u32) -> FileDescriptor {
    FileDescriptor { kind: FdKind::Directory { fuse_fh: fh, fuse_nodeid: node, offset: 0 }, flags }
}

/// The lowest free descriptor was given to `desc`.
pub open spec fn opened(
    before: Seq<Option<FileDescriptor>>,
    after: Seq<Option<FileDescriptor>>,
    desc: FileDescriptor,
    r: i64,
) -> bool {
    r == lowest_free(before, 0) as i64 && after == with_fd(before, lowest_free(before, 0), desc)
}

/// What creating a file asks of the host, and what comes of it. If `cached`, what is cached of the file is dropped.
pub open spec fn created(
    path: Seq<u8>,
    flags: u32,
    mode: u32,
    cached: bool,
    t: Seq<FsEvent>,
    r: i64,
    before: Seq<Option<FileDescriptor>>,
    after: Seq<Option<FileDescriptor>>,
) -> bool {
    match split(path) {
        None => t.len() == 0 && r == EINVAL && after == before,
        Some((dir, name)) => t.len() > 0 && (t[0] matches FsEvent::ResolvePath { path: p, reply } && p == dir_path(dir) && match reply {
            Err(e) => t.len() == 1 && r == e && after == before,
            Ok(node) => t.len() > 1 && (t[1] matches FsEvent::Create { parent, name: n, flags: f, mode: m, reply: got } && parent
                == node && n == name && f == flags && m == mode && match got {
                Err(e) => t.skip(2) == forget_events(node) && r == e && after == before,
                Ok((new, fh)) => t.skip(2) == forget_events(node) + (if cached {
                    seq![FsEvent::InvalidateReadCache { nodeid: new }]
                } else {
                    seq![]
                }) && opened(before, after, file_desc(fh, new, 0, flags), r),
            }),
        }),
    }
}

fn create_file<C: FuseClient>(fds: &mut FdTable, fs: &mut Fs<C>, path: &[u8], flags: u32, mode: u32, cached: bool) -> (r: i64)
    ensures
        extends(old(fs).log(), final(fs).log()),
        created(
            path@,
            flags,
            mode,
            cached,
            since(old(fs).log(), final(fs).log()),
            r,
            old(fds)@,
            final(fds)@,
        ),
{
    assert(extends(old(fs).log(), fs.log()));
    let (dir, name) = match split_path(path) {
        Some(v) => v,
        None => {
            return EINVAL;
        },
    };
    let parent = match resolve_dir(fs, dir.as_slice()) {
        Ok(id) => id,
        Err(e) => {
            return e as i64;
        },
    };
    let result = fs.create(parent, name.as_slice(), flags, mode);
    let ghost t = since(old(fs).log(), fs.log());
    fs.forget_if_not_root(parent);
    assert((t + forget_events(parent)).skip(2) =~= forget_events(parent));
    let (node, fh) = match result {
        Ok(v) => v,
        Err(e) => {
            return e as i64;
        },
    };
    if cached {
        fs.invalidate_file_read_cache(node);
        let ghost ev = FsEvent::InvalidateReadCache { nodeid: node };
        assert((t + forget_events(parent)).push(ev).skip(2) =~= forget_events(parent) + seq![ev]);
    } else {
        assert(forget_events(parent) + seq![] =~= forget_events(parent));
    }
    let fd = fds.allocate(
        FileDescriptor { kind: FdKind::File { fuse_fh: fh, fuse_nodeid: node, offset: 0, size: 0 }, flags },
    );
    #[verifier::truncate]
    (fd as i64)
}

/// The flags with which a file is created: for writing, and emptied if it exists.
pub const CREAT_FLAGS: u32 = 0o1101;

/// Creates a file and opens it.
pub fn sys_creat<C: FuseClient, M: Memory>(args: &SyscallArgs, fds: &mut FdTable, fs: &mut Fs<C>, um: &M, cwd: &Cwd) -> (r: i64)
    requires
        path_readable(mem(um), args.arg0),
    ensures
        extends(old(fs).log(), final(fs).log()),
        match user_path(mem(um), args.arg0, cwd@, false) {
            Err(e) => r == e && final(fs).log() == old(fs).log() && final(fds)@ == old(fds)@,
            Ok(path) => created(
                path,
                CREAT_FLAGS,
                args.arg1 as u32,
                false,
                since(old(fs).log(), final(fs).log()),
                r,
                old(fds)@,
                final(fds)@,
            ),
        },
{
    let path = match read_user_path(um, args.arg0, cwd) {
        Ok(p) => p,
        Err(e) => {
            return e;
        },
    };
    let mode: u32 = #[verifier::truncate]
    (args.arg1 as u32);
    create_file(fds, fs, path.as_slice(), CREAT_FLAGS, mode, false)
}

/// What opening a node as a directory asks of the host, and what comes of it.
pub open spec fn opened_dir(
    node: u64,
    flags: u32,
    t: Seq<FsEvent>,
    r: i64,
    before: Seq<Option<FileDescriptor>>,
    after: Seq<Option<FileDescriptor>>,
) -> bool {
    t.len() > 0 && (t[0] matches FsEvent::OpenDir { nodeid, reply } && nodeid == node && match reply {
        Err(e) => t.skip(1) == forget_events(node) && r == e && after == before,
        Ok(fh) => t.len() == 1 && opened(before, after, dir_desc(fh, node, flags), r),
    })
}

/// What opening a node as a file asks of the host, and what comes of it. The size is asked for, unless
/// the file is emptied.
pub open spec fn opened_file(
    node: u64,
    flags: u32,
    t: Seq<FsEvent>,
    r: i64,
    before: Seq<Option<FileDescriptor>>,
    after: Seq<Option<FileDescriptor>>,
) -> bool {
    t.len() > 0 && (t[0] matches FsEvent::Open { nodeid, flags: f, reply } && nodeid == node && f == flags && match reply {
        Err(e) => t.skip(1) == forget_events(node) && r == e && after == before,
        Ok(fh) => if flags & O_TRUNC != 0 {
            t.skip(1) == seq![FsEvent::InvalidateReadCache { nodeid: node }] && opened(
                before,
                after,
                file_desc(fh, node, 0, flags),
                r,
            )
        } else {
            t.len() == 2 && (t[1] matches FsEvent::GetAttr { nodeid: n, reply: got } && n == node && opened(
                before,
                after,
                file_desc(
                    fh,
                    node,
                    match got {
                        Ok(attr) => attr.size,
                        Err(_) => 0,
                    },
                    flags,
                ),
                r,
            ))
        },
    })
}

/// What opening a path asks of the host, and what comes of it.
pub open spec fn opened_path(
    follows: bool,
    path: Seq<u8>,
    flags: u32,
    mode: u32,
    t: Seq<FsEvent>,
    r: i64,
    before: Seq<Option<FileDescriptor>>,
    after: Seq<Option<FileDescriptor>>,
) -> bool {
    if !follows {
        t.len() == 0 && r == ENOSYS && after == before
    } else {
        t.len() > 0 && (t[0] matches FsEvent::ResolvePath { path: p, reply } && p == path && match reply {
            Err(e) => if e == ENOENT && flags & O_CREAT != 0 {
                created(path, flags, mode, true, t.skip(1), r, before, after)
            } else {
                t.len() == 1 && r == e && after == before
            },
            Ok(node) => if flags & O_DIRECTORY != 0 {
                opened_dir(node, flags, t.skip(1), r, before, after)
            } else {
                opened_file(node, flags, t.skip(1), r, before, after)
            },
        })
    }
}

fn open_file<C: FuseClient>(fds: &mut FdTable, fs: &mut Fs<C>, node: u64, flags: u32) -> (r: i64)
    ensures
        extends(old(fs).log(), final(fs).log()),
        opened_file(node, flags, since(old(fs).log(), final(fs).log()), r, old(fds)@, final(fds)@),
{
    assert(extends(old(fs).log(), fs.log()));
    let result = fs.open(node, flags);
    let ghost t = since(old(fs).log(), fs.log());
    let fh = match result {
        Ok(fh) => fh,
        Err(e) => {
            fs.forget_if_not_root(node);
            assert((t + forget_events(node)).skip(1) =~= forget_events(node));
            return e as i64;
        },
    };
    let size: u64 = if flags & O_TRUNC != 0 {
        fs.invalidate_file_read_cache(node);
        let ghost ev = FsEvent::InvalidateReadCache { nodeid: node };
        assert(t.push(ev).skip(1) =~= seq![ev]);
        0
    } else {
        match fs.getattr(node) {
            Ok(attr) => attr.size,
            Err(_) => 0,
        }
    };
    let fd = fds.allocate(FileDescriptor { kind: FdKind::File { fuse_fh: fh, fuse_nodeid: node, offset: 0, size }, flags });
    #[verifier::truncate]
    (fd as i64)
}

fn open_dir<C: FuseClient>(fds: &mut FdTable, fs: &mut Fs<C>, node: u64, flags: u32) -> (r: i64)
    ensures
        extends(old(fs).log(), final(fs).log()),
        opened_dir(node, flags, since(old(fs).log(), final(fs).log()), r, old(fds)@, final(fds)@),
{
    assert(extends(old(fs).log(), fs.log()));
    let result = fs.opendir(node);
    let ghost t = since(old(fs).log(), fs.log());
    let fh = match result {
        Ok(fh) => fh,
        Err(e) => {
            fs.forget_if_not_root(node);
            assert((t + forget_events(node)).skip(1) =~= forget_events(node));
            return e as i64;
        },
    };
    let fd = fds.allocate(FileDescriptor { kind: FdKind::Directory { fuse_fh: fh, fuse_nodeid: node, offset: 0 }, flags });
    #[verifier::truncate]
    (fd as i64)
}

/// Opens a file or a directory. A file that does not exist is created if asked to.
pub fn sys_openat<C: FuseClient, M: Memory>(args: &SyscallArgs, fds: &mut FdTable, fs: &mut Fs<C>, um: &M, cwd: &Cwd) -> (r: i64)
    requires
        path_readable(mem(um), args.arg1),
    ensures
        extends(old(fs).log(), final(fs).log()),
        match user_path(mem(um), args.arg1, cwd@, false) {
            Err(e) => r == e && final(fs).log() == old(fs).log() && final(fds)@ == old(fds)@,
            Ok(path) => opened_path(
                followable(args.arg0 as i32, mem(um), args.arg1),
                path,
                args.arg2 as u32,
                args.arg3 as u32,
                since(old(fs).log(), final(fs).log()),
                r,
                old(fds)@,
                final(fds)@,
            ),
        },
{
    assert(extends(old(fs).log(), fs.log()));
    let dirfd: i32 = #[verifier::truncate]
    (args.arg0 as i32);
    let path = match read_user_path(um, args.arg1, cwd) {
        Ok(p) => p,
        Err(e) => {
            return e;
        },
    };
    let flags: u32 = #[verifier::truncate]
    (args.arg2 as u32);
    let mode: u32 = #[verifier::truncate]
    (args.arg3 as u32);
    if !can_follow(dirfd, um, args.arg1) {
        return ENOSYS;
    }
    let is_dir_open = flags & O_DIRECTORY != 0;
    let ghost log0 = fs.log();
    let found = fs.resolve_path(path.as_slice());
    let ghost log1 = fs.log();
    let r = match found {
        Err(e) => {
            if e as i64 == ENOENT && flags & O_CREAT != 0 {
                create_file(fds, fs, path.as_slice(), flags, mode, true)
            } else {
                return e as i64;
            }
        },
        Ok(node) => if is_dir_open {
            open_dir(fds, fs, node, flags)
        } else {
            open_file(fds, fs, node, flags)
        },
    };
    proof {
        lemma_extends_trans(log0, log1, fs.log());
        assert(since(log0, fs.log()).skip(1) =~= since(log1, fs.log()));
    }
    r
}

/// Describes a file, from a given directory; or, if asked to by an empty path, what a descriptor stands for.
pub fn sys_newfstatat<C: FuseClient, M: Memory>(args: &SyscallArgs, fds: &FdTable, fs: &mut Fs<C>, um: &mut M, cwd: &Cwd) -> (r: i64)
    requires
        path_readable(mem(old(um)), args.arg1),
        user_path(mem(old(um)), args.arg1, cwd@, true) matches Ok(path) ==> (if path.len() == 0 && args.arg3 as u32
            & AT_EMPTY_PATH != 0 {
            lookup(fds@, (args.arg0 as i32) as u64) is Some
        } else {
            followable(args.arg0 as i32, mem(old(um)), args.arg1)
        }) ==> reachable(old(um), args.arg2, STAT_LEN as int),
    ensures
        extends(old(fs).log(), final(fs).log()),
        ({
            let t = since(old(fs).log(), final(fs).log());
            let dirfd = args.arg0 as i32;
            match user_path(mem(old(um)), args.arg1, cwd@, true) {
                Err(e) => r == e && t.len() == 0 && mem(final(um)) == mem(old(um)),
                Ok(path) => if path.len() == 0 && args.arg3 as u32 & AT_EMPTY_PATH != 0 {
                    fd_statted(lookup(fds@, dirfd as u64), t, r, mem(old(um)), mem(final(um)), args.arg2)
                } else if !followable(dirfd, mem(old(um)), args.arg1) {
                    r == ENOSYS && t.len() == 0 && mem(final(um)) == mem(old(um))
                } else {
                    path_statted(path, t, r, mem(old(um)), mem(final(um)), args.arg2)
                },
            }
        }),
{
    assert(extends(old(fs).log(), fs.log()));
    let dirfd: i32 = #[verifier::truncate]
    (args.arg0 as i32);
    let path = match read_user_path_inner(um, args.arg1, cwd, true) {
        Ok(p) => p,
        Err(e) => {
            return e;
        },
    };
    let flags: u32 = #[verifier::truncate]
    (args.arg3 as u32);
    if path.len() == 0 && flags & AT_EMPTY_PATH != 0 {
        let fd: u64 = #[verifier::truncate]
        (dirfd as u64);
        let fstat_args = SyscallArgs {
            nr: 5,
            arg0: fd,
            arg1: args.arg2,
            arg2: 0,
            arg3: 0,
            arg4: 0,
            arg5: 0,
            caller_rip: args.caller_rip,
            caller_rflags: args.caller_rflags,
        };
        return sys_fstat(&fstat_args, fds, fs, um);
    }
    if !can_follow(dirfd, um, args.arg1) {
        return ENOSYS;
    }
    do_stat_path(fs, um, path.as_slice(), args.arg2)
}

} // verus!
