//! Listing a directory.

use vstd::prelude::*;

use crate::fs::client::{extends, since, Fs, FsEvent, FuseClient};
use crate::fs::fd_table::{lookup, FdKind, FdTable, FileDescriptor};
use crate::memory::access::{encode_u64, from_le32, from_le64, le64, mem, reachable, write_bytes, Mem, Memory};
use crate::syscall::args::SyscallArgs;
use crate::syscall::errno::{EBADF, EINVAL, ENOTDIR};

verus! {

broadcast use crate::fs::client::group_log;

/// Size of the host's entries without the name.
pub const FUSE_DIRENT_LEN: u64 = 24;

/// Size of the user's entries without the name.
pub const DIRENT64_LEN: u64 = 19;

/// How many bytes of entries the host is asked for at once.
pub const READDIR_LEN: u32 = 4096;

pub const DT_UNKNOWN: u8 = 0;

pub const DT_DIR: u8 = 4;

pub const DT_REG: u8 = 8;

/// The next multiple of 8.
pub open spec fn padded(n: int) -> int {
    (n + 7) / 8 * 8
}

/// The number of the node in the host's entry at `pos`.
pub open spec fn entry_ino(data: Seq<u8>, pos: int) -> u64 {
    from_le64(data.subrange(pos, pos + 8)) as u64
}

/// Where the host goes on after the entry at `pos`.
pub open spec fn entry_off(data: Seq<u8>, pos: int) -> u64 {
    from_le64(data.subrange(pos + 8, pos + 16)) as u64
}

/// The length of the name in the entry at `pos`.
pub open spec fn entry_namelen(data: Seq<u8>, pos: int) -> int {
    from_le32(data.subrange(pos + 16, pos + 20))
}

/// The kind of file in the entry at `pos`, of which only directories and plain files are told apart.
pub open spec fn entry_type(data: Seq<u8>, pos: int) -> u8 {
    let typ = from_le32(data.subrange(pos + 20, pos + 24));
    if typ == 4 {
        DT_DIR
    } else if typ == 8 {
        DT_REG
    } else {
        DT_UNKNOWN
    }
}

/// The length of the user's entry for a name: the name ends with a 0, and the whole is padded.
pub open spec fn record_len(namelen: int) -> int {
    padded(DIRENT64_LEN + namelen + 1)
}

/// The two bytes of a number, least significant first.
pub open spec fn le16(n: int) -> Seq<u8> {
    seq![(n % 0x100) as u8, (n / 0x100 % 0x100) as u8]
}

/// The user's entry for the host's entry at `pos`.
pub open spec fn record(data: Seq<u8>, pos: int) -> Seq<u8> {
    let n = entry_namelen(data, pos);
    let head = le64(entry_ino(data, pos)) + le64(entry_off(data, pos)) + le16(record_len(n)) + seq![entry_type(data, pos)];
    let name = data.subrange(pos + FUSE_DIRENT_LEN, pos + FUSE_DIRENT_LEN + n);
    head + name + Seq::new((record_len(n) - DIRENT64_LEN - n) as nat, |k: int| 0u8)
}

/// There is a whole entry at `pos`, and room for it after `used` of `size` bytes.
pub open spec fn fits(data: Seq<u8>, pos: int, used: int, size: int) -> bool {
    let n = entry_namelen(data, pos);
    &&& pos + FUSE_DIRENT_LEN <= data.len()
    &&& pos + FUSE_DIRENT_LEN + n <= data.len()
    &&& record_len(n) <= u16::MAX
    &&& used + record_len(n) <= size
}

/// Where the entry after the one at `pos` is.
pub open spec fn next_entry(data: Seq<u8>, pos: int) -> int {
    pos + padded(FUSE_DIRENT_LEN + entry_namelen(data, pos))
}

/// The user's entries for the host's from `pos` on, as many as there is room for.
pub open spec fn listed(data: Seq<u8>, pos: int, used: int, size: int) -> Seq<u8>
    decreases data.len() + 8 - pos,
{
    if fits(data, pos, used, size) {
        record(data, pos) + listed(data, next_entry(data, pos), used + record_len(entry_namelen(data, pos)), size)
    } else {
        Seq::empty()
    }
}

/// Where the host goes on after the last entry that there is room for, or `so_far` if there is none.
pub open spec fn goes_on_at(data: Seq<u8>, pos: int, used: int, size: int, so_far: u64) -> u64
    decreases data.len() + 8 - pos,
{
    if fits(data, pos, used, size) {
        goes_on_at(
            data,
            next_entry(data, pos),
            used + record_len(entry_namelen(data, pos)),
            size,
            entry_off(data, pos),
        )
    } else {
        so_far
    }
}

fn read_le32(data: &[u8], at: usize) -> (r: u32)
    requires
        at + 4 <= data@.len(),
    ensures
        r == from_le32(data@.subrange(at as int, at + 4)),
{
    let _len: usize = data.len();
    let b0: u32 = data[at] as u32;
    let b1: u32 = data[at + 1] as u32;
    let b2: u32 = data[at + 2] as u32;
    let b3: u32 = data[at + 3] as u32;
    b0 + b1 * 0x100 + b2 * 0x1_0000 + b3 * 0x100_0000
}

fn read_le64(data: &[u8], at: usize) -> (r: u64)
    requires
        at + 8 <= data@.len(),
    ensures
        r == from_le64(data@.subrange(at as int, at + 8)),
{
    let _len: usize = data.len();
    let low = read_le32(data, at);
    let high = read_le32(data, at + 4);
    proof {
        let s = data@.subrange(at as int, at + 8);
        let a = data@.subrange(at as int, at + 4);
        let b = data@.subrange(at + 4, at + 8);
        assert(s[0] == a[0] && s[1] == a[1] && s[2] == a[2] && s[3] == a[3]);
        assert(s[4] == b[0] && s[5] == b[1] && s[6] == b[2] && s[7] == b[3]);
    }
    low as u64 + high as u64 * 0x1_0000_0000
}

/// Adds the user's entry for the host's entry at `pos`.
fn push_record(out: &mut Vec<u8>, data: &[u8], pos: usize, namelen: u32)
    requires
        pos + FUSE_DIRENT_LEN + namelen <= data@.len(),
        namelen == entry_namelen(data@, pos as int),
        record_len(namelen as int) <= u16::MAX,
    ensures
        final(out)@ == old(out)@ + record(data@, pos as int),
{
    let len: usize = data.len();
    let ino = read_le64(data, pos);
    let off = read_le64(data, pos + 8);
    let typ = read_le32(data, pos + 20);
    let kind: u8 = if typ == 4 {
        DT_DIR
    } else if typ == 8 {
        DT_REG
    } else {
        DT_UNKNOWN
    };
    let reclen: u64 = (namelen as u64 + DIRENT64_LEN + 8) / 8 * 8;
    let ghost before = out@;
    let ino_bytes = encode_u64(ino);
    let off_bytes = encode_u64(off);
    out.extend_from_slice(ino_bytes.as_slice());
    out.extend_from_slice(off_bytes.as_slice());
    out.push((reclen % 0x100) as u8);
    out.push((reclen / 0x100 % 0x100) as u8);
    out.push(kind);
    let ghost head = le64(ino) + le64(off) + le16(reclen as int) + seq![kind];
    assert(out@ =~= before + head);
    let mut i: usize = 0;
    let ghost from = pos + FUSE_DIRENT_LEN;
    assert(out@ =~= before + head + data@.subrange(from, from));
    while i < namelen as usize
        invariant
            i <= namelen,
            from == pos + FUSE_DIRENT_LEN,
            from + namelen <= len == data@.len(),
            out@ == before + head + data@.subrange(from, from + i),
        decreases namelen - i,
    {
        out.push(data[pos + FUSE_DIRENT_LEN as usize + i]);
        i += 1;
        assert(out@ =~= before + head + data@.subrange(from, from + i));
    }
    let ghost name = data@.subrange(from, from + namelen);
    let mut pad: u64 = DIRENT64_LEN + namelen as u64;
    let ghost filled = pad;
    assert(out@ =~= before + head + name + Seq::new(0, |k: int| 0u8));
    while pad < reclen
        invariant
            filled <= pad <= reclen,
            out@ == before + head + name + Seq::new((pad - filled) as nat, |k: int| 0u8),
        decreases reclen - pad,
    {
        out.push(0u8);
        pad += 1;
        assert(out@ =~= before + head + name + Seq::new((pad - filled) as nat, |k: int| 0u8));
    }
    assert(out@ =~= before + record(data@, pos as int));
}

/// The length of the name of the entry at `pos`, if there is room for it.
fn fitting(data: &[u8], pos: usize, used: usize, size: u32) -> (r: Option<u32>)
    requires
        pos <= data@.len(),
        used <= size,
    ensures
        r is Some <==> fits(data@, pos as int, used as int, size as int),
        r matches Some(n) ==> n == entry_namelen(data@, pos as int),
{
    let rest: usize = data.len() - pos;
    if rest < FUSE_DIRENT_LEN as usize {
        return None;
    }
    let namelen = read_le32(data, pos + 16);
    if ((rest - FUSE_DIRENT_LEN as usize) as u64) < namelen as u64 {
        return None;
    }
    let reclen: u64 = (namelen as u64 + DIRENT64_LEN + 8) / 8 * 8;
    if reclen > u16::MAX as u64 || used as u64 + reclen > size as u64 {
        return None;
    }
    Some(namelen)
}

proof fn lemma_listed_step(data: Seq<u8>, pos: int, used: int, size: int, out: Seq<u8>, so_far: u64)
    requires
        0 <= pos <= data.len(),
        fits(data, pos, used, size),
    ensures
        ({
            let n = entry_namelen(data, pos);
            let next = next_entry(data, pos);
            &&& record(data, pos).len() == record_len(n)
            &&& out + listed(data, pos, used, size) == out + record(data, pos) + listed(data, next, used + record_len(n), size)
            &&& goes_on_at(data, pos, used, size, so_far) == goes_on_at(data, next, used + record_len(n), size, entry_off(data, pos))
        }),
{
    let n = entry_namelen(data, pos);
    let next = next_entry(data, pos);
    assert(0 <= n);
    assert(record_len(n) >= DIRENT64_LEN + n + 1);
    assert(out + (record(data, pos) + listed(data, next, used + record_len(n), size)) =~= out + record(data, pos) + listed(
        data,
        next,
        used + record_len(n),
        size,
    ));
}

/// There is no entry past the end.
proof fn lemma_listed_end(data: Seq<u8>, pos: int, used: int, size: int, so_far: u64)
    requires
        pos + FUSE_DIRENT_LEN > data.len(),
    ensures
        listed(data, pos, used, size) == Seq::<u8>::empty(),
        goes_on_at(data, pos, used, size, so_far) == so_far,
{
}

/// Turns the host's entries into the user's, as many as there is room for. Gives back where the host goes on.
pub fn convert_dirents(data: &[u8], size: u32) -> (r: (Vec<u8>, u64))
    ensures
        r.0@ == listed(data@, 0, 0, size as int),
        r.1 == goes_on_at(data@, 0, 0, size as int, 0),
        r.0@.len() <= size,
{
    let mut out: Vec<u8> = Vec::new();
    let mut last: u64 = 0;
    let mut pos: usize = 0;
    let len: usize = data.len();
    assert(out@ + listed(data@, 0, 0, size as int) =~= listed(data@, 0, 0, size as int));
    loop
        invariant
            pos <= len == data@.len(),
            out@.len() <= size,
            listed(data@, 0, 0, size as int) == out@ + listed(data@, pos as int, out@.len() as int, size as int),
            goes_on_at(data@, 0, 0, size as int, 0) == goes_on_at(data@, pos as int, out@.len() as int, size as int, last),
        ensures
            out@.len() <= size,
            !fits(data@, pos as int, out@.len() as int, size as int),
            listed(data@, 0, 0, size as int) == out@ + listed(data@, pos as int, out@.len() as int, size as int),
            goes_on_at(data@, 0, 0, size as int, 0) == goes_on_at(data@, pos as int, out@.len() as int, size as int, last),
        decreases len - pos,
    {
        let namelen = match fitting(data, pos, out.len(), size) {
            Some(n) => n,
            None => {
                break;
            },
        };
        let ghost used = out@.len() as int;
        proof {
            lemma_listed_step(data@, pos as int, used, size as int, out@, last);
        }
        let step: u64 = (namelen as u64 + FUSE_DIRENT_LEN + 7) / 8 * 8;
        last = read_le64(data, pos + 8);
        push_record(&mut out, data, pos, namelen);
        let ghost next = next_entry(data@, pos as int);
        assert(next == pos + step);
        if step >= (len - pos) as u64 {
            pos = len;
            proof {
                lemma_listed_end(data@, next, out@.len() as int, size as int, last);
                lemma_listed_end(data@, pos as int, out@.len() as int, size as int, last);
            }
        } else {
            pos = pos + step as usize;
        }
    }
    assert(out@ + Seq::<u8>::empty() =~= out@);
    (out, last)
}

/// What listing a directory asks of the host, and what comes of it.
pub open spec fn dir_listed(
    fds: Seq<Option<FileDescriptor>>,
    fd: u64,
    addr: u64,
    size: u32,
    t: Seq<FsEvent>,
    r: i64,
    after: Seq<Option<FileDescriptor>>,
    before_mem: Mem,
    after_mem: Mem,
) -> bool {
    match lookup(fds, fd) {
        None => t.len() == 0 && r == EBADF && after == fds && after_mem == before_mem,
        Some(d) => match d.kind {
            FdKind::Directory { fuse_fh, fuse_nodeid, offset } => t.len() == 1 && (t[0] matches FsEvent::ReadDir {
                nodeid,
                fh,
                offset: o,
                size: asked,
                reply,
            } && nodeid == fuse_nodeid && fh == fuse_fh && o == offset && asked == READDIR_LEN && match reply {
                Err(e) => r == e && after == fds && after_mem == before_mem,
                Ok(data) => {
                    let out = listed(data, 0, 0, size as int);
                    if data.len() == 0 {
                        r == 0 && after == fds && after_mem == before_mem
                    } else if out.len() == 0 {
                        r == EINVAL && after == fds && after_mem == before_mem
                    } else {
                        &&& r == out.len()
                        &&& after_mem == before_mem.stored(addr as int, out)
                        &&& after == fds.update(
                            fd as int,
                            Some(
                                FileDescriptor {
                                    kind: FdKind::Directory {
                                        fuse_fh,
                                        fuse_nodeid,
                                        offset: goes_on_at(data, 0, 0, size as int, 0),
                                    },
                                    ..d
                                },
                            ),
                        )
                    }
                },
            }),
            _ => t.len() == 0 && r == ENOTDIR && after == fds && after_mem == before_mem,
        },
    }
}

/// Lists a directory.
pub fn sys_getdents64<C: FuseClient, M: Memory>(args: &SyscallArgs, fds: &mut FdTable, fs: &mut Fs<C>, um: &mut M) -> (r: i64)
    requires
        (lookup(old(fds)@, args.arg0) matches Some(d) && d.kind is Directory) ==> reachable(
            old(um),
            args.arg1,
            args.arg2 as u32 as int,
        ),
    ensures
        extends(old(fs).log(), final(fs).log()),
        dir_listed(
            old(fds)@,
            args.arg0,
            args.arg1,
            args.arg2 as u32,
            since(old(fs).log(), final(fs).log()),
            r,
            final(fds)@,
            mem(old(um)),
            mem(final(um)),
        ),
{
    assert(extends(old(fs).log(), fs.log()));
    let size: u32 = #[verifier::truncate]
    (args.arg2 as u32);
    let desc = match fds.get(args.arg0) {
        Some(d) => d,
        None => {
            return EBADF;
        },
    };
    let (fh, nodeid, offset) = match desc.kind {
        FdKind::Directory { fuse_fh, fuse_nodeid, offset } => (fuse_fh, fuse_nodeid, offset),
        _ => {
            return ENOTDIR;
        },
    };
    let data = match fs.readdir(nodeid, fh, offset, READDIR_LEN) {
        Ok(data) => data,
        Err(e) => {
            return e as i64;
        },
    };
    if data.len() == 0 {
        return 0;
    }
    let (out, last) = convert_dirents(data.as_slice(), size);
    if out.len() == 0 {
        return EINVAL;
    }
    write_bytes(um, args.arg1, out.as_slice());
    fds.set(
        args.arg0,
        FileDescriptor { kind: FdKind::Directory { fuse_fh: fh, fuse_nodeid: nodeid, offset: last }, flags: desc.flags },
    );
    out.len() as i64
}

/// How the length of a listing grows with an entry.
pub proof fn lemma_listing_grows(data: Seq<u8>, pos: int, used: int, size: int)
    requires
        0 <= pos,
        fits(data, pos, used, size),
    ensures
        ({
            let n = entry_namelen(data, pos);
            let next = next_entry(data, pos);
            &&& listed(data, pos, used, size).len() == record_len(n) + listed(data, next, used + record_len(n), size).len()
            &&& record_len(n) % 8 == 0
            &&& record_len(n) >= 0
            &&& pos < next <= data.len() + 7
            &&& used + record_len(n) <= size
        }),
{
    lemma_listed_step(data, pos, used, size, Seq::empty(), 0);
    assert(Seq::<u8>::empty() + listed(data, pos, used, size) =~= listed(data, pos, used, size));
    assert(Seq::<u8>::empty() + record(data, pos) =~= record(data, pos));
}

/// The entries fit the user's buffer, and each starts at a multiple of 8.
#[verifier::spinoff_prover]
#[verifier::rlimit(50)]
pub proof fn law_listing_fits(data: Seq<u8>, pos: int, used: int, size: int)
    requires
        0 <= pos,
        0 <= used <= size,
    ensures
        used + listed(data, pos, used, size).len() <= size,
        listed(data, pos, used, size).len() % 8 == 0,
    decreases data.len() + 8 - pos,
{
    if fits(data, pos, used, size) {
        lemma_listing_grows(data, pos, used, size);
        let len = record_len(entry_namelen(data, pos));
        let next = next_entry(data, pos);
        law_listing_fits(data, next, used + len, size);
        let rest = listed(data, next, used + len, size).len() as int;
        assert((len + rest) % 8 == 0) by (nonlinear_arith)
            requires
                len % 8 == 0,
                rest % 8 == 0,
        ;
    }
}

} // verus!
