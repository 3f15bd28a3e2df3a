//! Names of files: what they mean, and what is asked of the host by them.

use vstd::prelude::*;

use super::descriptors::opened;
use super::words::{lemma_word_of, u64_at};
use crate::fs::client::{forget_events, since, FuseAttr, Fs, FsEvent, FuseClient};
use crate::fs::fd_table::{law_lowest_free, FdKind, FdTable, FileDescriptor};
use crate::memory::access::{le_words, mem, range, within, Mem, Memory};
use crate::syscall::args::SyscallArgs;
use crate::syscall::handlers::fs::{
    stat_of, stat_words, stat_written, sys_access, sys_chdir, sys_creat, sys_fstat, sys_getcwd, sys_lstat, sys_mkdir, sys_mkdirat, sys_newfstatat, sys_openat, sys_rename, sys_rmdir, sys_stat, sys_truncate, sys_unlink, sys_unlinkat,
    };
use crate::syscall::handlers::io::sys_open;
use crate::syscall::handlers::path::{
    c_len, is_plain, law_split, lemma_parts_append, lemma_parts_have_no_slash, lemma_walk_plain, normalized, parts_of,
    slashed, split, user_path, walk, Cwd,
};

verus! {

/// The path with a slash at its end, of which the root has one.
pub open spec fn and_slash(p: Seq<u8>) -> Seq<u8> {
    if p == seq![0x2fu8] { p } else { p.push(0x2f) }
}

/// Going on by one part from where a path leads: no part, or a dot, stays there; two dots go to the directory that holds it, and
/// stay at the root; any other part is a name in it. The empty path leads to the root.
pub proof fn law_path_goes_part_by_part(p: Seq<u8>, part: Seq<u8>)
    requires
        !part.contains(0x2f),
    ensures
        normalized(Seq::<u8>::empty()) == seq![0x2fu8],
        ({
            let here = normalized(p);
            let there = normalized(p.push(0x2f) + part);
            if part.len() == 0 || part == seq![0x2eu8] {
                there == here
            } else if part == seq![0x2eu8, 0x2eu8] {
                ||| here == seq![0x2fu8] && there == here
                ||| exists|last: Seq<u8>| last.len() > 0 && !last.contains(0x2f) && here == #[trigger] (and_slash(there) + last)
            } else {
                there == and_slash(here) + part
            }
        }),
{
    let q = p.push(0x2f);
    assert(q.drop_last() =~= p);
    lemma_parts_have_no_slash(p);
    lemma_parts_append(q, part);
    assert(Seq::<u8>::empty() + part =~= part);
    assert(parts_of(q + part) =~= parts_of(p).push(part));
    let w = walk(parts_of(p));
    lemma_walk_plain(parts_of(p));
    assert(parts_of(p).push(part).drop_last() =~= parts_of(p));
    let x = walk(parts_of(p).push(part));
    assert(w.len() > 0 ==> slashed(w).len() > 1) by {
        if w.len() > 0 {
            assert(is_plain(w[w.len() - 1]));
        }
    }
    reveal_with_fuel(walk, 2);
    reveal_with_fuel(parts_of, 2);
    assert(seq![Seq::<u8>::empty()].drop_last() =~= Seq::<Seq<u8>>::empty());
    assert(walk(parts_of(Seq::<u8>::empty())) =~= Seq::<Seq<u8>>::empty());
    if part == seq![0x2eu8, 0x2eu8] {
        if w.len() > 0 {
            let last = w.last();
            assert(is_plain(w[w.len() - 1]));
            assert(x =~= w.drop_last());
            assert(x.len() > 0 ==> slashed(x).len() > 1) by {
                if x.len() > 0 {
                    assert(is_plain(w[x.len() - 1]));
                    assert(x[x.len() - 1] == w[x.len() - 1]);
                }
            }
            assert(x.len() == 0 ==> slashed(x).push(0x2f) =~= seq![0x2fu8]);
            assert(normalized(p) == and_slash(normalized(q + part)) + last);
        }
    } else if part.len() > 0 && part != seq![0x2eu8] {
        assert(x.drop_last() =~= w);
        assert(x.last() == part);
        assert(w.len() == 0 ==> slashed(w).push(0x2f) =~= seq![0x2fu8]);
        assert(slashed(x) == slashed(w).push(0x2f) + part);
    }
}

/// The user has this text at `ptr`, up to the first zero, and it is neither empty nor too long.
pub open spec fn text_at(m: Mem, ptr: u64, text: Seq<u8>) -> bool {
    &&& 0 < text.len() < 4096
    &&& m.base <= ptr && ptr + text.len() < m.base + m.bytes.len()
    &&& forall|i: int| 0 <= i < text.len() ==> #[trigger] text[i] != 0 && m.bytes[ptr + i - m.base] == text[i]
    &&& m.bytes[ptr + text.len() - m.base] == 0
}

/// The file that a text names: from the root if it begins with a slash, else from the working directory.
pub open spec fn named(text: Seq<u8>, cwd: Seq<u8>) -> Seq<u8> {
    if text[0] == 0x2f {
        normalized(text)
    } else if cwd.last() == 0x2f {
        normalized(cwd + text)
    } else {
        normalized(cwd.push(0x2f) + text)
    }
}

/// A working directory begins with a slash.
pub open spec fn is_cwd(cwd: Seq<u8>) -> bool {
    cwd.len() > 0 && cwd[0] == 0x2f
}

proof fn lemma_text_len(m: Mem, ptr: u64, text: Seq<u8>, from: int)
    requires
        text_at(m, ptr, text),
        0 <= from <= text.len(),
    ensures
        c_len(m, ptr, from) == text.len(),
    decreases text.len() - from,
{
    if from < text.len() {
        assert(text[from] != 0);
        lemma_text_len(m, ptr, text, from + 1);
    }
}

pub proof fn lemma_named(m: Mem, ptr: u64, text: Seq<u8>, cwd: Seq<u8>, allow_empty: bool)
    requires
        text_at(m, ptr, text),
        is_cwd(cwd),
    ensures
        user_path(m, ptr, cwd, allow_empty) == Ok::<Seq<u8>, i64>(named(text, cwd)),
{
    lemma_text_len(m, ptr, text, 0);
    assert(m.range(ptr as int, text.len() as int) =~= text);
}

/// The words of a file's description are where the user looks for them.
pub open spec fn described<M: Memory>(um: &M, at: int, a: FuseAttr) -> bool {
    &&& u64_at(um, at) == 0
    &&& u64_at(um, at + 8) == a.ino
    &&& u64_at(um, at + 16) == a.nlink
    &&& u64_at(um, at + 24) == a.mode + a.uid * 0x1_0000_0000
    &&& u64_at(um, at + 32) == a.gid
    &&& u64_at(um, at + 40) == a.rdev
    &&& u64_at(um, at + 48) == a.size
    &&& u64_at(um, at + 56) == a.blksize
    &&& u64_at(um, at + 64) == a.blocks
    &&& u64_at(um, at + 72) == a.atime
    &&& u64_at(um, at + 80) == a.atimensec
    &&& u64_at(um, at + 88) == a.mtime
    &&& u64_at(um, at + 96) == a.mtimensec
    &&& u64_at(um, at + 104) == a.ctime
    &&& u64_at(um, at + 112) == a.ctimensec
}

proof fn lemma_described<M: Memory>(um: &M, m: Mem, at: u64, a: FuseAttr)
    requires
        mem(um) == stat_written(m, at, stat_of(a)),
        m.base <= at && at + 144 <= m.base + m.bytes.len(),
    ensures
        described(um, at as int, a),
{
    let ws = stat_words(stat_of(a));
    assert(ws.len() == 18);
    assert(range(um, at as int, 144) =~= le_words(ws));
    lemma_word_of(um, at as int, ws, 0);
    lemma_word_of(um, at as int, ws, 1);
    lemma_word_of(um, at as int, ws, 2);
    lemma_word_of(um, at as int, ws, 3);
    lemma_word_of(um, at as int, ws, 4);
    lemma_word_of(um, at as int, ws, 5);
    lemma_word_of(um, at as int, ws, 6);
    lemma_word_of(um, at as int, ws, 7);
    lemma_word_of(um, at as int, ws, 8);
    lemma_word_of(um, at as int, ws, 9);
    lemma_word_of(um, at as int, ws, 10);
    lemma_word_of(um, at as int, ws, 11);
    lemma_word_of(um, at as int, ws, 12);
    lemma_word_of(um, at as int, ws, 13);
    lemma_word_of(um, at as int, ws, 14);
}

/// Asking about a file by its name tells what the host says of the file of that name.
pub proof fn law_stat_tells_of_the_named_file<C: FuseClient, M: Memory>(
    args: &SyscallArgs,
    fs: &mut Fs<C>,
    um: &mut M,
    cwd: &Cwd,
    text: Seq<u8>,
    r: i64,
)
    requires
        call_ensures(sys_stat::<C, M>, (args, fs, um, cwd), r),
        text_at(mem(old(um)), args.arg0, text),
        is_cwd(cwd@),
        within(old(um), args.arg1 as int, 144),
    ensures
        ({
            let t = since(old(fs).log(), final(fs).log());
            &&& t.len() > 1 ==> (t[1] matches FsEvent::ResolvePath { path, .. } && path == named(text, cwd@))
            &&& r == 0 ==> {
                ||| t.len() > 2 && (t[1] matches FsEvent::ResolvePath { path, reply: Ok(node) } && (t[2] matches FsEvent::GetAttr {
                    nodeid,
                    reply: Ok(attr),
                } && nodeid == node && path == named(text, cwd@) && described(final(um), args.arg1 as int, attr)))
                ||| mem(final(um)) == mem(old(um)) && exists|i: int| 0 <= i < t.len() && is_zero_error(#[trigger] t[i])
            }
            &&& r != 0 ==> mem(final(um)) == mem(old(um))
        }),
{
    lemma_named(mem(old(um)), args.arg0, text, cwd@, false);
    let t = since(old(fs).log(), final(fs).log());
    if t.len() > 2 {
        if let FsEvent::GetAttr { reply: Ok(attr), .. } = t[2] {
            lemma_described(final(um), mem(old(um)), args.arg1, attr);
        }
    }
    if r == 0 && t.len() > 0 {
        assert(is_zero_error(t[0]) || t.len() > 1);
        if t.len() > 1 {
            assert(is_zero_error(t[0]) || is_zero_error(t[1]) || t.len() > 2);
            if t.len() > 2 {
                assert(is_zero_error(t[0]) || is_zero_error(t[1]) || is_zero_error(t[2]) || t[2] is GetAttr);
            }
        }
    }
}

/// The host says that it failed, with an error that is none.
pub open spec fn is_zero_error(e: FsEvent) -> bool {
    match e {
        FsEvent::FlushAllWriteCaches { reply: Err(x) } => x == 0,
        FsEvent::FlushWriteCache { reply: Err(x), .. } => x == 0,
        FsEvent::ResolvePath { reply: Err(x), .. } => x == 0,
        FsEvent::GetAttr { reply: Err(x), .. } => x == 0,
        _ => false,
    }
}

/// What is asked of the host by a name: to find the directory that holds it.
pub open spec fn parent_found(e: FsEvent, text: Seq<u8>, cwd: Seq<u8>, node: u64, name: Seq<u8>) -> bool {
    &&& name.len() > 0 && !name.contains(0x2f)
    &&& e matches FsEvent::ResolvePath { path, reply } && reply == Ok::<u64, i32>(node) && named(text, cwd) == and_slash(path) + name
}

proof fn lemma_split_named(path: Seq<u8>, text: Seq<u8>, cwd: Seq<u8>)
    requires
        path == named(text, cwd),
        split(path) is Some,
    ensures
        ({
            let (dir, name) = split(path)->0;
            &&& name.len() > 0 && !name.contains(0x2f)
            &&& path == and_slash(crate::syscall::handlers::fs::dir_path(dir)) + name
        }),
{
    let raw = if text[0] == 0x2f {
        text
    } else if cwd.last() == 0x2f {
        cwd + text
    } else {
        cwd.push(0x2f) + text
    };
    assert(path == normalized(raw));
    lemma_split_normalized(raw);
}

proof fn lemma_split_normalized(raw: Seq<u8>)
    requires
        split(normalized(raw)) is Some,
    ensures
        ({
            let path = normalized(raw);
            let (dir, name) = split(path)->0;
            &&& name.len() > 0 && !name.contains(0x2f)
            &&& path == and_slash(crate::syscall::handlers::fs::dir_path(dir)) + name
        }),
{
    let path = normalized(raw);
    let w = walk(parts_of(raw));
    lemma_parts_have_no_slash(raw);
    lemma_walk_plain(parts_of(raw));
    law_split(path);
    crate::syscall::handlers::path::lemma_last_where(path, false, path.len() as int);
    if w.len() == 0 {
        assert(path == seq![0x2fu8]);
        let end = crate::syscall::handlers::path::last_where(path, false, 1) + 1;
        assert(end == 0);
    } else {
        let last = w.last();
        assert(is_plain(w[w.len() - 1]));
        let init = slashed(w.drop_last());
        assert(path == init.push(0x2f) + last);
        let n = path.len() as int;
        assert(path[n - 1] == last[last.len() - 1]);
        assert(last.contains(last[last.len() - 1]));
        assert(crate::syscall::handlers::path::last_where(path, false, n) == n - 1);
        lemma_last_slash(path, init.len() as int, n);
        assert(path.take(init.len() as int) =~= init);
        assert(path.subrange(init.len() as int + 1, n) =~= last);
        let (dir, name) = split(path)->0;
        assert(dir == init && name == last);
        if w.len() > 1 {
            let d = w.drop_last();
            assert(is_plain(w[w.len() - 2]));
            assert(d.last() == w[w.len() - 2]);
            assert(init == slashed(d.drop_last()).push(0x2f) + d.last());
            assert(init.len() > 1);
        } else {
            assert(w.drop_last() =~= Seq::<Seq<u8>>::empty());
            assert(init =~= Seq::<u8>::empty());
            assert(init.push(0x2f) =~= seq![0x2fu8]);
        }
    }
}

proof fn lemma_last_slash(path: Seq<u8>, k: int, n: int)
    requires
        0 <= k < n <= path.len(),
        path[k] == 0x2f,
        forall|j: int| k < j < n ==> path[j] != 0x2f,
    ensures
        crate::syscall::handlers::path::last_where(path, true, n) == k,
    decreases n,
{
    if n - 1 > k {
        lemma_last_slash(path, k, n - 1);
    }
}

/// A directory is made by its name in the directory that holds it, with the mode that was asked for.
pub proof fn law_mkdir_makes_the_named_directory<C: FuseClient, M: Memory>(
    args: &SyscallArgs,
    fs: &mut Fs<C>,
    um: &M,
    cwd: &Cwd,
    text: Seq<u8>,
    r: i64,
)
    requires
        call_ensures(sys_mkdir::<C, M>, (args, fs, um, cwd), r),
        text_at(mem(um), args.arg0, text),
        is_cwd(cwd@),
    ensures
        ({
            let t = since(old(fs).log(), final(fs).log());
            &&& t.len() > 1 ==> (t[1] matches FsEvent::MkDir { parent, name, mode, reply } && parent_found(t[0], text, cwd@, parent, name) && mode
                == args.arg1 as u32 && (reply is Ok ==> r == 0) && (reply matches Err(e) ==> r == e))
            &&& t.len() == 0 ==> r < 0
            &&& t.len() == 1 ==> (t[0] matches FsEvent::ResolvePath { reply: Err(e), .. } && r == e)
        }),
{
    lemma_named(mem(um), args.arg0, text, cwd@, false);
    let path = named(text, cwd@);
    if split(path) is Some {
        lemma_split_named(path, text, cwd@);
    }
}

/// A file is removed by its name from the directory that holds it, and not as a directory.
pub proof fn law_unlink_removes_the_named_file<C: FuseClient, M: Memory>(
    args: &SyscallArgs,
    fs: &mut Fs<C>,
    um: &M,
    cwd: &Cwd,
    text: Seq<u8>,
    r: i64,
)
    requires
        call_ensures(sys_unlink::<C, M>, (args, fs, um, cwd), r),
        text_at(mem(um), args.arg0, text),
        is_cwd(cwd@),
    ensures
        ({
            let t = since(old(fs).log(), final(fs).log());
            &&& t.len() > 1 ==> (t[1] matches FsEvent::Unlink { parent, name, reply } && parent_found(t[0], text, cwd@, parent, name) && (reply
                is Ok ==> r == 0) && (reply matches Err(e) ==> r == e))
            &&& t.len() == 0 ==> r < 0
            &&& t.len() == 1 ==> (t[0] matches FsEvent::ResolvePath { reply: Err(e), .. } && r == e)
        }),
{
    lemma_named(mem(um), args.arg0, text, cwd@, false);
    let path = named(text, cwd@);
    if split(path) is Some {
        lemma_split_named(path, text, cwd@);
    }
}

/// A directory is removed by its name from the directory that holds it, and as a directory.
pub proof fn law_rmdir_removes_the_named_directory<C: FuseClient, M: Memory>(
    args: &SyscallArgs,
    fs: &mut Fs<C>,
    um: &M,
    cwd: &Cwd,
    text: Seq<u8>,
    r: i64,
)
    requires
        call_ensures(sys_rmdir::<C, M>, (args, fs, um, cwd), r),
        text_at(mem(um), args.arg0, text),
        is_cwd(cwd@),
    ensures
        ({
            let t = since(old(fs).log(), final(fs).log());
            &&& t.len() > 1 ==> (t[1] matches FsEvent::RmDir { parent, name, reply } && parent_found(t[0], text, cwd@, parent, name) && (reply
                is Ok ==> r == 0) && (reply matches Err(e) ==> r == e))
            &&& t.len() == 0 ==> r < 0
            &&& t.len() == 1 ==> (t[0] matches FsEvent::ResolvePath { reply: Err(e), .. } && r == e)
        }),
{
    lemma_named(mem(um), args.arg0, text, cwd@, false);
    let path = named(text, cwd@);
    if split(path) is Some {
        lemma_split_named(path, text, cwd@);
    }
}

/// Renaming asks for the first name to become the second, each in the directory that holds it.
pub proof fn law_rename_from_the_first_to_the_second<C: FuseClient, M: Memory>(
    args: &SyscallArgs,
    fs: &mut Fs<C>,
    um: &M,
    cwd: &Cwd,
    from: Seq<u8>,
    to: Seq<u8>,
    r: i64,
)
    requires
        call_ensures(sys_rename::<C, M>, (args, fs, um, cwd), r),
        text_at(mem(um), args.arg0, from),
        text_at(mem(um), args.arg1, to),
        is_cwd(cwd@),
    ensures
        ({
            let t = since(old(fs).log(), final(fs).log());
            t.len() > 2 ==> (t[2] matches FsEvent::Rename { parent, name, new_parent, new_name, reply } && parent_found(
                t[0],
                from,
                cwd@,
                parent,
                name,
            ) && parent_found(t[1], to, cwd@, new_parent, new_name) && (reply is Ok ==> r == 0) && (reply matches Err(e) ==> r == e)) || (
            t[2] matches FsEvent::Forget { .. })
        }),
{
    lemma_named(mem(um), args.arg0, from, cwd@, false);
    lemma_named(mem(um), args.arg1, to, cwd@, false);
    if split(named(from, cwd@)) is Some {
        lemma_split_named(named(from, cwd@), from, cwd@);
    }
    if split(named(to, cwd@)) is Some {
        lemma_split_named(named(to, cwd@), to, cwd@);
    }
    let t = since(old(fs).log(), final(fs).log());
    if t.len() > 2 {
        assert(t.skip(2)[0] == t[2]);
        if let FsEvent::ResolvePath { reply: Ok(a), .. } = t[0] {
            if let FsEvent::ResolvePath { reply: Ok(b), .. } = t[1] {
                assert(t[2] is Rename);
                assert(parent_found(t[0], from, cwd@, a, (split(named(from, cwd@))->0).1));
                assert(parent_found(t[1], to, cwd@, b, (split(named(to, cwd@))->0).1));
            } else {
                assert(t.skip(2) == forget_events(a));
                assert(forget_events(a).len() > 0);
                assert(forget_events(a)[0] is Forget);
            }
        }
    }
}

/// Changing the working directory: it is the named one afterwards, if the host knows it.
pub proof fn law_chdir_goes_to_the_named_directory<C: FuseClient, M: Memory>(
    args: &SyscallArgs,
    fs: &mut Fs<C>,
    um: &M,
    cwd: &mut Cwd,
    text: Seq<u8>,
    r: i64,
)
    requires
        call_ensures(sys_chdir::<C, M>, (args, fs, um, cwd), r),
        text_at(mem(um), args.arg0, text),
        is_cwd(old(cwd)@),
    ensures
        ({
            let t = since(old(fs).log(), final(fs).log());
            &&& t.len() > 0 && (t[0] matches FsEvent::ResolvePath { path, reply } && path == named(text, old(cwd)@) && (reply matches Err(e) ==> r
                == e && final(cwd)@ == old(cwd)@) && (reply is Ok ==> r == 0 || r == -22))
            &&& r == 0 && (t[0] matches FsEvent::ResolvePath { reply: Ok(_), .. }) ==> final(cwd)@ == named(text, old(cwd)@)
            &&& r != 0 ==> final(cwd)@ == old(cwd)@
        }),
{
    lemma_named(mem(um), args.arg0, text, old(cwd)@, false);
}

/// Asking for the working directory gives its name with a zero at the end, if there is room for both.
pub proof fn law_getcwd_gives_the_name<M: Memory>(args: &SyscallArgs, um: &mut M, cwd: &Cwd, r: i64)
    requires
        call_ensures(sys_getcwd::<M>, (args, um, cwd), r),
        args.arg1 > cwd@.len() ==> within(old(um), args.arg0 as int, cwd@.len() as int + 1),
    ensures
        args.arg1 > cwd@.len() ==> r == args.arg0 as i64 && super::streams::came_to(old(um), final(um), args.arg0 as int, cwd@.push(0)),
        args.arg1 <= cwd@.len() ==> r == -34 && mem(final(um)) == mem(old(um)),
{
    assert(final(um).bytes() == mem(final(um)).bytes);
}

/// Cutting or stretching a file by its name asks for the size of the file of that name.
pub proof fn law_truncate_sizes_the_named_file<C: FuseClient, M: Memory>(
    args: &SyscallArgs,
    fs: &mut Fs<C>,
    um: &M,
    cwd: &Cwd,
    text: Seq<u8>,
    r: i64,
)
    requires
        call_ensures(sys_truncate::<C, M>, (args, fs, um, cwd), r),
        text_at(mem(um), args.arg0, text),
        is_cwd(cwd@),
    ensures
        ({
            let t = since(old(fs).log(), final(fs).log());
            &&& args.arg1 > i64::MAX ==> r == -22 && final(fs).log() == old(fs).log()
            &&& args.arg1 <= i64::MAX ==> t.len() > 0 && (t[0] matches FsEvent::ResolvePath { path, reply } && path == named(text, cwd@) && (
            reply matches Err(e) ==> r == e && t.len() == 1) && (reply matches Ok(node) ==> t.len() > 1 && (t[1] matches FsEvent::SetAttrSize {
                nodeid,
                size,
                reply: got,
                ..
            } && nodeid == node && size == args.arg1 && (got is Ok ==> r == 0) && (got matches Err(e) ==> r == e))))
        }),
{
    lemma_named(mem(um), args.arg0, text, cwd@, false);
}

/// What opening the named file comes to. A name that there is leads to a descriptor of that file, at its start; the host is told
/// how it is to be opened; and it is taken for a directory if it is asked for as one. A name that there is not is made, if that is
/// asked for. The descriptor is the lowest that was not open.
pub open spec fn opens(
    text: Seq<u8>,
    cwd: Seq<u8>,
    flags: u32,
    mode_of_new: u32,
    t: Seq<FsEvent>,
    a: Seq<Option<FileDescriptor>>,
    b: Seq<Option<FileDescriptor>>,
    r: i64,
) -> bool {
    let d = b[r as int]->0;
    &&& t.len() > 0
    &&& t[0] matches FsEvent::ResolvePath { path, reply } && {
        &&& path == named(text, cwd)
        &&& reply matches Err(e) ==> if e == -2 && flags & 0o100 != 0 {
            t.len() > 2 ==> (t[2] matches FsEvent::Create { parent, name, flags: f, mode, reply: got } && {
                &&& parent_found(t[1], text, cwd, parent, name)
                &&& f == flags && mode == mode_of_new
                &&& got matches Err(x) ==> r == x && b == a
                &&& got matches Ok((node, fh)) ==> opened(a, b, r as int, d) && d.flags == flags && d.kind
                    == (FdKind::File { fuse_fh: fh, fuse_nodeid: node, offset: 0, size: 0 })
            })
        } else {
            r == e && b == a && t.len() == 1
        }
        &&& reply matches Ok(node) ==> t.len() > 1 && if flags & 0o200000 != 0 {
            t[1] matches FsEvent::OpenDir { nodeid, reply: got } && nodeid == node && (got matches Err(x) ==> r == x && b
                == a) && (got matches Ok(fh) ==> opened(a, b, r as int, d) && d.flags == flags && d.kind
                == (FdKind::Directory { fuse_fh: fh, fuse_nodeid: node, offset: 0 }))
        } else {
            t[1] matches FsEvent::Open { nodeid, flags: f, reply: got } && nodeid == node && f == flags && (got matches Err(x) ==> r
                == x && b == a) && (got matches Ok(fh) ==> {
                &&& opened(a, b, r as int, d)
                &&& d.flags == flags
                &&& d.kind matches FdKind::File { fuse_fh, fuse_nodeid, offset, size } && {
                    &&& fuse_fh == fh && fuse_nodeid == node && offset == 0
                    &&& flags & 0o1000 != 0 ==> size == 0
                    &&& flags & 0o1000 == 0 ==> t.len() == 3 && (t[2] matches FsEvent::GetAttr { nodeid: n, reply: about } && n == node && (
                    about matches Ok(attr) ==> size == attr.size))
                }
            })
        }
    }
}

/// Opening a file by its name.
pub proof fn law_open_opens_the_named_file<C: FuseClient, M: Memory>(
    args: &SyscallArgs,
    fds: &mut FdTable,
    fs: &mut Fs<C>,
    um: &M,
    cwd: &Cwd,
    text: Seq<u8>,
    r: i64,
)
    requires
        call_ensures(sys_open::<C, M>, (args, fds, fs, um, cwd), r),
        text_at(mem(um), args.arg0, text),
        is_cwd(cwd@),
        old(fds)@.len() < i64::MAX,
    ensures
        opens(text, cwd@, args.arg1 as u32, args.arg2 as u32, since(old(fs).log(), final(fs).log()), old(fds)@, final(fds)@, r),
{
    lemma_named(mem(um), args.arg0, text, cwd@, false);
    law_lowest_free(old(fds)@, 0);
    let path = named(text, cwd@);
    if split(path) is Some {
        lemma_split_named(path, text, cwd@);
    }
    let t = since(old(fs).log(), final(fs).log());
    if t.len() > 1 {
        assert(t.skip(1)[0] == t[1]);
        if t.len() > 2 {
            assert(t.skip(1)[1] == t[2]);
        }
    }
}

/// Opening a file by its name, from the working directory or from the root.
pub proof fn law_openat_opens_the_named_file<C: FuseClient, M: Memory>(
    args: &SyscallArgs,
    fds: &mut FdTable,
    fs: &mut Fs<C>,
    um: &M,
    cwd: &Cwd,
    text: Seq<u8>,
    r: i64,
)
    requires
        call_ensures(sys_openat::<C, M>, (args, fds, fs, um, cwd), r),
        text_at(mem(um), args.arg1, text),
        is_cwd(cwd@),
        old(fds)@.len() < i64::MAX,
        args.arg0 as i32 == -100 || text.len() > 0 && text[0] == 0x2f,
    ensures
        opens(text, cwd@, args.arg2 as u32, args.arg3 as u32, since(old(fs).log(), final(fs).log()), old(fds)@, final(fds)@, r),
{
    lemma_named(mem(um), args.arg1, text, cwd@, false);
    law_lowest_free(old(fds)@, 0);
    let path = named(text, cwd@);
    if split(path) is Some {
        lemma_split_named(path, text, cwd@);
    }
    let t = since(old(fs).log(), final(fs).log());
    if t.len() > 1 {
        assert(t.skip(1)[0] == t[1]);
        if t.len() > 2 {
            assert(t.skip(1)[1] == t[2]);
        }
    }
}

/// Making a file asks the host to make the named file, emptied and open for writing, in the directory that is named before it; and
/// gives the lowest descriptor that was not open for it.
pub proof fn law_creat_makes_the_named_file<C: FuseClient, M: Memory>(
    args: &SyscallArgs,
    fds: &mut FdTable,
    fs: &mut Fs<C>,
    um: &M,
    cwd: &Cwd,
    text: Seq<u8>,
    r: i64,
)
    requires
        call_ensures(sys_creat::<C, M>, (args, fds, fs, um, cwd), r),
        text_at(mem(um), args.arg0, text),
        is_cwd(cwd@),
        old(fds)@.len() < i64::MAX,
    ensures
        ({
            let t = since(old(fs).log(), final(fs).log());
            let d = final(fds)@[r as int]->0;
            &&& t.len() > 1 ==> (t[1] matches FsEvent::Create { parent, name, flags: f, mode, reply: got } && {
                &&& parent_found(t[0], text, cwd@, parent, name)
                &&& f == 0o1101 && mode == args.arg1 as u32
                &&& got matches Err(x) ==> r == x && final(fds)@ == old(fds)@
                &&& got matches Ok((node, fh)) ==> opened(old(fds)@, final(fds)@, r as int, d) && d.kind == (FdKind::File {
                    fuse_fh: fh,
                    fuse_nodeid: node,
                    offset: 0,
                    size: 0,
                })
            })
            &&& t.len() <= 1 ==> final(fds)@ == old(fds)@ && (r >= 0 ==> t.len() == 1 && (t[0] matches FsEvent::ResolvePath { reply: Err(x), .. } && x
                == r))
        }),
{
    lemma_named(mem(um), args.arg0, text, cwd@, false);
    law_lowest_free(old(fds)@, 0);
    let path = named(text, cwd@);
    if split(path) is Some {
        lemma_split_named(path, text, cwd@);
    }
}

/// What describing the named file comes to: the host finds it by its name, and what it knows of it comes to the user.
pub open spec fn tells<M: Memory>(text: Seq<u8>, cwd: Seq<u8>, t: Seq<FsEvent>, before: &M, after: &M, at: int, r: i64) -> bool {
    &&& t.len() > 1 ==> (t[1] matches FsEvent::ResolvePath { path, .. } && path == named(text, cwd))
    &&& r == 0 ==> {
        ||| t.len() > 2 && (t[1] matches FsEvent::ResolvePath { path, reply: Ok(node) } && (t[2] matches FsEvent::GetAttr {
            nodeid,
            reply: Ok(attr),
        } && nodeid == node && path == named(text, cwd) && described(after, at, attr)))
        ||| mem(after) == mem(before) && exists|i: int| 0 <= i < t.len() && is_zero_error(#[trigger] t[i])
    }
    &&& r != 0 ==> mem(after) == mem(before)
}

/// The description of a file that is named from the working directory or from the root is that of the named file.
pub proof fn law_newfstatat_tells_of_the_named_file<C: FuseClient, M: Memory>(
    args: &SyscallArgs,
    fds: &FdTable,
    fs: &mut Fs<C>,
    um: &mut M,
    cwd: &Cwd,
    text: Seq<u8>,
    r: i64,
)
    requires
        call_ensures(sys_newfstatat::<C, M>, (args, fds, fs, um, cwd), r),
        text_at(mem(old(um)), args.arg1, text),
        text.len() > 0,
        is_cwd(cwd@),
        args.arg0 as i32 == -100 || text[0] == 0x2f,
        within(old(um), args.arg2 as int, 144),
    ensures
        tells(text, cwd@, since(old(fs).log(), final(fs).log()), old(um), final(um), args.arg2 as int, r),
{
    lemma_named(mem(old(um)), args.arg1, text, cwd@, true);
    let t = since(old(fs).log(), final(fs).log());
    if t.len() > 2 {
        if let FsEvent::GetAttr { reply: Ok(attr), .. } = t[2] {
            lemma_described(final(um), mem(old(um)), args.arg2, attr);
        }
    }
    if r == 0 && t.len() > 0 {
        assert(is_zero_error(t[0]) || t.len() > 1);
        if t.len() > 1 {
            assert(is_zero_error(t[0]) || is_zero_error(t[1]) || t.len() > 2);
            if t.len() > 2 {
                assert(is_zero_error(t[0]) || is_zero_error(t[1]) || is_zero_error(t[2]) || t[2] is GetAttr);
            }
        }
    }
}

/// The description of an open file or directory is what the host knows of its node, once what was written to it is out; that of
/// anything else says what it is and no more. Where nothing is open there is none.
pub proof fn law_fstat_tells_of_the_open_file<C: FuseClient, M: Memory>(args: &SyscallArgs, fds: &FdTable, fs: &mut Fs<C>, um: &mut M, r: i64)
    requires
        call_ensures(sys_fstat::<C, M>, (args, fds, fs, um), r),
        within(old(um), args.arg1 as int, 144),
    ensures
        ({
            let t = since(old(fs).log(), final(fs).log());
            let at = args.arg1 as int;
            if args.arg0 < fds@.len() && fds@[args.arg0 as int] is Some {
                match (fds@[args.arg0 as int]->0).kind {
                    FdKind::File { fuse_fh, fuse_nodeid, .. } => {
                        &&& t.len() > 0 && (t[0] matches FsEvent::FlushWriteCache { fh, reply } && fh == fuse_fh && (reply matches Err(e) ==> r == e
                            && t.len() == 1 && mem(final(um)) == mem(old(um))) && (reply is Ok ==> t.len() == 2 && told_of(
                            t[1],
                            fuse_nodeid,
                            old(um),
                            final(um),
                            at,
                            r,
                        )))
                    },
                    FdKind::Directory { fuse_nodeid, .. } => t.len() == 1 && told_of(t[0], fuse_nodeid, old(um), final(um), at, r),
                    FdKind::Console => t.len() == 0 && r == 0 && u64_at(final(um), at + 24) == 0o20666,
                    FdKind::Pipe { .. } => t.len() == 0 && r == 0 && u64_at(final(um), at + 24) == 0o10666,
                    _ => t.len() == 0 && r == 0 && u64_at(final(um), at + 24) == 0o140666,
                }
            } else {
                r == -9 && t.len() == 0 && mem(final(um)) == mem(old(um))
            }
        }),
{
    let t = since(old(fs).log(), final(fs).log());
    let m = mem(old(um));
    if t.len() > 0 {
        if let FsEvent::GetAttr { reply: Ok(attr), .. } = t[0] {
            if mem(final(um)) == stat_written(m, args.arg1, stat_of(attr)) {
                lemma_described(final(um), m, args.arg1, attr);
            }
        }
        if t.len() > 1 {
            assert(t.skip(1)[0] == t[1]);
            if let FsEvent::GetAttr { reply: Ok(attr), .. } = t[1] {
                if mem(final(um)) == stat_written(m, args.arg1, stat_of(attr)) {
                    lemma_described(final(um), m, args.arg1, attr);
                }
            }
        }
    } else if args.arg0 < fds@.len() && fds@[args.arg0 as int] is Some {
        let kind = (fds@[args.arg0 as int]->0).kind;
        let ws = stat_words(crate::syscall::handlers::fs::bare_stat(crate::syscall::handlers::fs::bare_mode(kind)->0));
        assert(ws.len() == 18);
        assert(range(final(um), args.arg1 as int, 144) =~= le_words(ws));
        lemma_word_of(final(um), args.arg1 as int, ws, 3);
    }
}

/// The host was asked of this node, and what it knows came to the user.
pub open spec fn told_of<M: Memory>(e: FsEvent, node: u64, before: &M, after: &M, at: int, r: i64) -> bool {
    e matches FsEvent::GetAttr { nodeid, reply } && nodeid == node && (reply matches Err(x) ==> r == x && mem(after) == mem(before)) && (
    reply matches Ok(attr) ==> r == 0 && described(after, at, attr))
}

/// A directory that is named from the working directory or from the root is made as any other.
pub proof fn law_mkdirat_makes_the_named_directory<C: FuseClient, M: Memory>(
    args: &SyscallArgs,
    fs: &mut Fs<C>,
    um: &M,
    cwd: &Cwd,
    text: Seq<u8>,
    r: i64,
)
    requires
        call_ensures(sys_mkdirat::<C, M>, (args, fs, um, cwd), r),
        text_at(mem(um), args.arg1, text),
        is_cwd(cwd@),
        args.arg0 as i32 == -100 || text.len() > 0 && text[0] == 0x2f,
    ensures
        ({
            let t = since(old(fs).log(), final(fs).log());
            &&& t.len() > 1 ==> (t[1] matches FsEvent::MkDir { parent, name, mode, reply } && parent_found(t[0], text, cwd@, parent, name) && mode
                == args.arg2 as u32 && (reply is Ok ==> r == 0) && (reply matches Err(e) ==> r == e))
            &&& t.len() == 0 ==> r < 0
            &&& t.len() == 1 ==> (t[0] matches FsEvent::ResolvePath { reply: Err(e), .. } && r == e)
        }),
{
    lemma_named(mem(um), args.arg1, text, cwd@, false);
    let path = named(text, cwd@);
    if split(path) is Some {
        lemma_split_named(path, text, cwd@);
    }
}

/// What is named from the working directory or from the root is removed as a directory if that is asked for, else as a file.
pub proof fn law_unlinkat_removes_what_is_named<C: FuseClient, M: Memory>(
    args: &SyscallArgs,
    fs: &mut Fs<C>,
    um: &M,
    cwd: &Cwd,
    text: Seq<u8>,
    r: i64,
)
    requires
        call_ensures(sys_unlinkat::<C, M>, (args, fs, um, cwd), r),
        text_at(mem(um), args.arg1, text),
        is_cwd(cwd@),
        args.arg0 as i32 == -100 || text.len() > 0 && text[0] == 0x2f,
    ensures
        ({
            let t = since(old(fs).log(), final(fs).log());
            &&& t.len() > 1 && args.arg2 as u32 & 0x200 == 0 ==> (t[1] matches FsEvent::Unlink { parent, name, reply } && parent_found(
                t[0],
                text,
                cwd@,
                parent,
                name,
            ) && (reply is Ok ==> r == 0) && (reply matches Err(e) ==> r == e))
            &&& t.len() > 1 && args.arg2 as u32 & 0x200 != 0 ==> (t[1] matches FsEvent::RmDir { parent, name, reply } && parent_found(
                t[0],
                text,
                cwd@,
                parent,
                name,
            ) && (reply is Ok ==> r == 0) && (reply matches Err(e) ==> r == e))
            &&& t.len() == 0 ==> r < 0
            &&& t.len() == 1 ==> (t[0] matches FsEvent::ResolvePath { reply: Err(e), .. } && r == e)
        }),
{
    lemma_named(mem(um), args.arg1, text, cwd@, false);
    let path = named(text, cwd@);
    if split(path) is Some {
        lemma_split_named(path, text, cwd@);
    }
}

/// Asking whether there is a file asks the host for the named file, and says what it says.
pub proof fn law_access_asks_for_the_named_file<C: FuseClient, M: Memory>(
    args: &SyscallArgs,
    fs: &mut Fs<C>,
    um: &M,
    cwd: &Cwd,
    text: Seq<u8>,
    r: i64,
)
    requires
        call_ensures(sys_access::<C, M>, (args, fs, um, cwd), r),
        text_at(mem(um), args.arg0, text),
        is_cwd(cwd@),
    ensures
        ({
            let t = since(old(fs).log(), final(fs).log());
            &&& t.len() > 0
            &&& t[0] matches FsEvent::ResolvePath { path, reply } && path == named(text, cwd@) && (reply is Ok ==> r == 0) && (reply matches Err(e)
                ==> r == e && t.len() == 1)
        }),
{
    lemma_named(mem(um), args.arg0, text, cwd@, false);
}

/// The description of a file that is named, and not followed, is that of the named file, for there are no links.
pub proof fn law_lstat_tells_of_the_named_file<C: FuseClient, M: Memory>(
    args: &SyscallArgs,
    fs: &mut Fs<C>,
    um: &mut M,
    cwd: &Cwd,
    text: Seq<u8>,
    r: i64,
)
    requires
        call_ensures(sys_lstat::<C, M>, (args, fs, um, cwd), r),
        text_at(mem(old(um)), args.arg0, text),
        is_cwd(cwd@),
        within(old(um), args.arg1 as int, 144),
    ensures
        tells(text, cwd@, since(old(fs).log(), final(fs).log()), old(um), final(um), args.arg1 as int, r),
{
    lemma_named(mem(old(um)), args.arg0, text, cwd@, false);
    let t = since(old(fs).log(), final(fs).log());
    if t.len() > 2 {
        if let FsEvent::GetAttr { reply: Ok(attr), .. } = t[2] {
            lemma_described(final(um), mem(old(um)), args.arg1, attr);
        }
    }
    if r == 0 && t.len() > 0 {
        assert(is_zero_error(t[0]) || t.len() > 1);
        if t.len() > 1 {
            assert(is_zero_error(t[0]) || is_zero_error(t[1]) || t.len() > 2);
            if t.len() > 2 {
                assert(is_zero_error(t[0]) || is_zero_error(t[1]) || is_zero_error(t[2]) || t[2] is GetAttr);
            }
        }
    }
}

} // verus!
