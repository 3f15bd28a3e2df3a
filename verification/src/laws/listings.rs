//! Listings of directories.

use vstd::prelude::*;

use super::streams::came_to;
use crate::fs::client::{since, Fs, FsEvent, FuseClient};
use crate::fs::fd_table::{FdKind, FdTable};
use crate::memory::access::{from_le32, from_le64, law_le64_round_trip, le64, mem, reachable, Memory};
use crate::syscall::args::SyscallArgs;
use crate::syscall::handlers::dirents::{
    entry_namelen, entry_off, fits, goes_on_at, law_listing_fits, lemma_listing_grows, listed, next_entry, record, record_len, sys_getdents64,
};

verus! {

/// The number in the eight bytes of `b` from `at` up, the lowest first.
#[verifier::opaque]
pub open spec fn wide(b: Seq<u8>, at: int) -> int {
    narrow(b, at) + 0x1_0000_0000 * narrow(b, at + 4)
}

/// The number in the four bytes of `b` from `at` up, the lowest first.
#[verifier::opaque]
pub open spec fn narrow(b: Seq<u8>, at: int) -> int {
    b[at] + 0x100 * b[at + 1] + 0x1_0000 * b[at + 2] + 0x100_0000 * b[at + 3]
}

/// The smallest multiple of 8 that is not below `n`.
#[verifier::opaque]
pub open spec fn in_eights(n: int) -> int {
    if n % 8 == 0 { n } else { n + 8 - n % 8 }
}

/// The entry of the host at `pos`, which has a name of `n` bytes, is shown to the user at `at`: its number, where the listing goes
/// on, its own length, its kind, and its name with a zero at the end.
pub open spec fn shown(data: Seq<u8>, pos: int, out: Seq<u8>, at: int) -> bool {
    let n = narrow(data, pos + 16);
    let kind = narrow(data, pos + 20);
    let len = in_eights(20 + n);
    &&& 0 <= pos && pos + 24 + n <= data.len()
    &&& 0 <= at && at + len <= out.len()
    &&& wide(out, at) == wide(data, pos)
    &&& wide(out, at + 8) == wide(data, pos + 8)
    &&& out[at + 16] + 0x100 * out[at + 17] == len
    &&& out[at + 18] == (if kind == 4 { 4 } else if kind == 8 { 8 } else { 0int })
    &&& forall|k: int| 0 <= k < n ==> #[trigger] out[at + 19 + k] == data[pos + 24 + k]
    &&& out[at + 19 + n] == 0
}

/// The entries of the host from `pos` on are shown from `at` on, one after the other, as long as the next one is whole and there
/// is room for it; the last of them says that the listing goes on at `off`.
pub open spec fn shown_from(data: Seq<u8>, pos: int, out: Seq<u8>, at: int, size: int, before: int, off: int) -> bool
    decreases out.len() - at,
{
    let n = narrow(data, pos + 16);
    if at >= out.len() || at < 0 {
        &&& at == out.len()
        &&& off == before
        &&& pos + 24 > data.len() || pos + 24 + n > data.len() || in_eights(20 + n) > 0xffff || at + in_eights(20 + n) > size
    } else if n < 0 {
        false
    } else {
        proof {
            lemma_eights(20 + n);
        }
        &&& shown(data, pos, out, at)
        &&& shown_from(data, pos + in_eights(24 + n), out, at + in_eights(20 + n), size, wide(data, pos + 8), off)
    }
}

proof fn lemma_numbers(b: Seq<u8>, at: int)
    requires
        0 <= at,
        at + 8 <= b.len(),
    ensures
        wide(b, at) == from_le64(b.subrange(at, at + 8)),
        narrow(b, at) == from_le32(b.subrange(at, at + 4)),
        0 <= wide(b, at) <= u64::MAX,
        0 <= narrow(b, at),
{
    reveal(wide);
    reveal(narrow);
    let s = b.subrange(at, at + 8);
    let t = b.subrange(at, at + 4);
    assert(s[0] == b[at] && s[1] == b[at + 1] && s[2] == b[at + 2] && s[3] == b[at + 3] && s[4] == b[at + 4] && s[5] == b[at + 4 + 1] && s[6]
        == b[at + 4 + 2] && s[7] == b[at + 4 + 3]);
    assert(t[0] == b[at] && t[1] == b[at + 1] && t[2] == b[at + 2] && t[3] == b[at + 3]);
}

proof fn lemma_narrow(b: Seq<u8>, at: int)
    requires
        0 <= at,
        at + 4 <= b.len(),
    ensures
        narrow(b, at) == from_le32(b.subrange(at, at + 4)),
        0 <= narrow(b, at),
{
    reveal(narrow);
    let t = b.subrange(at, at + 4);
    assert(t[0] == b[at] && t[1] == b[at + 1] && t[2] == b[at + 2] && t[3] == b[at + 3]);
}

proof fn lemma_layout(a: Seq<u8>, b: Seq<u8>, c: Seq<u8>, t: Seq<u8>, name: Seq<u8>, z: Seq<u8>)
    requires
        a.len() == 8,
        b.len() == 8,
        c.len() == 2,
        t.len() == 1,
        z.len() > 0,
    ensures
        ({
            let r = a + b + c + t + name + z;
            &&& r.len() == 19 + name.len() + z.len()
            &&& r.subrange(0, 8) == a
            &&& r.subrange(8, 16) == b
            &&& r[16] == c[0]
            &&& r[17] == c[1]
            &&& r[18] == t[0]
            &&& forall|k: int| 0 <= k < name.len() ==> #[trigger] r[19 + k] == name[k]
            &&& r[19 + name.len() as int] == z[0]
        }),
{
    let r = a + b + c + t + name + z;
    assert(r.subrange(0, 8) =~= a);
    assert(r.subrange(8, 16) =~= b);
}

pub proof fn lemma_eights(n: int)
    requires
        0 <= n,
    ensures
        crate::syscall::handlers::dirents::padded(n) == in_eights(n),
        n <= in_eights(n) < n + 8,
{
    reveal(in_eights);
}

proof fn lemma_two_bytes(n: int)
    requires
        0 <= n <= u16::MAX,
    ensures
        crate::syscall::handlers::dirents::le16(n).len() == 2,
        crate::syscall::handlers::dirents::le16(n)[0] + 0x100 * crate::syscall::handlers::dirents::le16(n)[1] == n,
{
}

/// What stands where in a record.
proof fn lemma_record(data: Seq<u8>, pos: int, n: int)
    requires
        0 <= pos,
        n == entry_namelen(data, pos),
        0 <= n,
        pos + 24 + n <= data.len(),
        record_len(n) <= u16::MAX,
    ensures
        ({
            let r = record(data, pos);
            let len = in_eights(20 + n);
            &&& r.len() == len
            &&& record_len(n) == len
            &&& 20 + n <= len
            &&& r.subrange(0, 8) == le64(crate::syscall::handlers::dirents::entry_ino(data, pos))
            &&& r.subrange(8, 16) == le64(entry_off(data, pos))
            &&& r[16] + 0x100 * r[17] == len
            &&& r[18] == crate::syscall::handlers::dirents::entry_type(data, pos)
            &&& forall|k: int| 0 <= k < n ==> #[trigger] r[19 + k] == data[pos + 24 + k]
            &&& r[19 + n] == 0
        }),
{
    let r = record(data, pos);
    lemma_eights(20 + n);
    let len = in_eights(20 + n);
    let ino = crate::syscall::handlers::dirents::entry_ino(data, pos);
    let off = entry_off(data, pos);
    law_le64_round_trip(ino);
    law_le64_round_trip(off);
    lemma_two_bytes(len);
    let c = crate::syscall::handlers::dirents::le16(len);
    let t = seq![crate::syscall::handlers::dirents::entry_type(data, pos)];
    let name = data.subrange(pos + 24, pos + 24 + n);
    let z = Seq::new((len - 19 - n) as nat, |k: int| 0u8);
    lemma_layout(le64(ino), le64(off), c, t, name, z);
    assert(r == le64(ino) + le64(off) + c + t + name + z);
}

proof fn lemma_shown_bytes(data: Seq<u8>, pos: int, out: Seq<u8>, at: int, r: Seq<u8>, n: int)
    requires
        0 <= pos,
        0 <= at,
        0 <= n,
        20 + n <= r.len(),
        at + r.len() <= out.len(),
        out.subrange(at, at + r.len()) == r,
        forall|k: int| 0 <= k < n ==> #[trigger] r[19 + k] == data[pos + 24 + k],
    ensures
        out.subrange(at, at + 8) == r.subrange(0, 8),
        out.subrange(at + 8, at + 16) == r.subrange(8, 16),
        out[at + 16] == r[16],
        out[at + 17] == r[17],
        out[at + 18] == r[18],
        forall|k: int| 0 <= k < n ==> #[trigger] out[at + 19 + k] == data[pos + 24 + k],
        out[at + 19 + n] == r[19 + n],
{
    assert forall|k: int| 0 <= k < r.len() implies #[trigger] out[at + k] == r[k] by {
        assert(out.subrange(at, at + r.len())[k] == out[at + k]);
    }
    assert(out.subrange(at, at + 8) =~= r.subrange(0, 8));
    assert(out.subrange(at + 8, at + 16) =~= r.subrange(8, 16)) by {
        assert forall|k: int| 0 <= k < 8 implies #[trigger] out.subrange(at + 8, at + 16)[k] == r.subrange(8, 16)[k] by {
            assert(out[at + (8 + k)] == r[8 + k]);
        }
    }
    assert forall|k: int| 0 <= k < n implies #[trigger] out[at + 19 + k] == data[pos + 24 + k] by {
        assert(out[at + (19 + k)] == r[19 + k]);
    }
    assert(out[at + (19 + n)] == r[19 + n]);
}

proof fn lemma_shown(data: Seq<u8>, pos: int, used: int, size: int, out: Seq<u8>, at: int)
    requires
        0 <= pos,
        0 <= at,
        fits(data, pos, used, size),
        at + record(data, pos).len() <= out.len(),
        out.subrange(at, at + record(data, pos).len()) == record(data, pos),
    ensures
        shown(data, pos, out, at),
        record(data, pos).len() == in_eights(20 + narrow(data, pos + 16)),
        record_len(entry_namelen(data, pos)) == in_eights(20 + narrow(data, pos + 16)),
        entry_off(data, pos) == wide(data, pos + 8),
        next_entry(data, pos) == pos + in_eights(24 + narrow(data, pos + 16)),
        narrow(data, pos + 16) >= 0,
{
    let n = narrow(data, pos + 16);
    lemma_numbers(data, pos);
    lemma_numbers(data, pos + 8);
    lemma_narrow(data, pos + 16);
    lemma_narrow(data, pos + 20);
    lemma_eights(24 + n);
    let r = record(data, pos);
    lemma_record(data, pos, n);
    lemma_shown_bytes(data, pos, out, at, r, n);
    law_le64_round_trip(crate::syscall::handlers::dirents::entry_ino(data, pos));
    law_le64_round_trip(entry_off(data, pos));
    lemma_numbers(out, at);
    lemma_numbers(out, at + 8);
}

proof fn lemma_shown_from(data: Seq<u8>, pos: int, at: int, size: int, out: Seq<u8>, so_far: u64)
    requires
        0 <= pos,
        0 <= at <= out.len(),
        out.skip(at) == listed(data, pos, at, size),
    ensures
        shown_from(data, pos, out, at, size, so_far as int, goes_on_at(data, pos, at, size, so_far) as int),
    decreases data.len() + 8 - pos,
{
    if fits(data, pos, at, size) {
        lemma_listing_grows(data, pos, at, size);
        let r = record(data, pos);
        let rest = listed(data, next_entry(data, pos), at + record_len(entry_namelen(data, pos)), size);
        assert(out.skip(at) == r + rest);
        assert(out.subrange(at, at + r.len()) =~= r) by {
            assert forall|k: int| 0 <= k < r.len() implies #[trigger] out.subrange(at, at + r.len())[k] == r[k] by {
                assert(out.skip(at)[k] == (r + rest)[k]);
            }
        }
        lemma_shown(data, pos, at, size, out, at);
        assert(out.skip(at + r.len()) =~= rest) by {
            assert forall|k: int| 0 <= k < rest.len() implies #[trigger] out.skip(at + r.len())[k] == rest[k] by {
                assert(out.skip(at)[r.len() + k] == (r + rest)[r.len() + k]);
            }
        }
        lemma_shown_from(data, next_entry(data, pos), at + r.len(), size, out, entry_off(data, pos));
    } else {
        assert(out.skip(at).len() == 0);
        if pos + 24 <= data.len() {
            lemma_narrow(data, pos + 16);
            lemma_eights(20 + narrow(data, pos + 16));
        }
    }
}

/// A listing shows what the host lists, entry by entry and in order, as many as there is room for; and the next listing goes on
/// behind the last entry that was shown.
pub proof fn law_listing_shows_the_entries<C: FuseClient, M: Memory>(args: &SyscallArgs, fds: &mut FdTable, fs: &mut Fs<C>, um: &mut M, r: i64)
    requires
        call_ensures(sys_getdents64::<C, M>, (args, fds, fs, um), r),
        args.arg0 < old(fds)@.len(),
        old(fds)@[args.arg0 as int] matches Some(d) && d.kind is Directory,
        reachable(old(um), args.arg1, (args.arg2 as u32) as int),
    ensures
        ({
            let a = old(fds)@[args.arg0 as int]->0;
            let b = final(fds)@[args.arg0 as int]->0;
            let t = since(old(fs).log(), final(fs).log());
            &&& t.len() == 1
            &&& a.kind matches FdKind::Directory { fuse_fh, fuse_nodeid, offset } && (t[0] matches FsEvent::ReadDir {
                nodeid,
                fh,
                offset: from,
                reply,
                ..
            } && {
                &&& nodeid == fuse_nodeid && fh == fuse_fh && from == offset
                &&& reply matches Err(e) ==> r == e && final(fds)@ == old(fds)@ && mem(final(um)) == mem(old(um))
                &&& reply matches Ok(data) ==> (data.len() == 0 ==> r == 0 && final(fds)@ == old(fds)@) && (r > 0 ==> exists|out: Seq<u8>|
                    {
                        &&& out.len() == r && r <= args.arg2 as u32
                        &&& #[trigger] came_to(old(um), final(um), args.arg1 as int, out)
                        &&& b.flags == a.flags
                        &&& b.kind matches FdKind::Directory { fuse_fh: h, fuse_nodeid: n, offset: to } && h == fuse_fh && n == fuse_nodeid
                            && shown_from(data, 0, out, 0, (args.arg2 as u32) as int, 0, to as int)
                    }) && (data.len() > 0 ==> r > 0 || r == -22)
            })
            &&& forall|k: int| 0 <= k < old(fds)@.len() && k != args.arg0 ==> #[trigger] final(fds)@[k] == old(fds)@[k]
        }),
{
    let t = since(old(fs).log(), final(fs).log());
    let size = (args.arg2 as u32) as int;
    if let FsEvent::ReadDir { reply: Ok(data), .. } = t[0] {
        let out = listed(data, 0, 0, size);
        law_listing_fits(data, 0, 0, size);
        assert(out.skip(0) =~= out);
        lemma_shown_from(data, 0, 0, size, out, 0);
        if data.len() > 0 && out.len() > 0 {
            assert(final(um).bytes() == mem(final(um)).bytes);
            assert(came_to(old(um), final(um), args.arg1 as int, out));
        }
    }
}

} // verus!
