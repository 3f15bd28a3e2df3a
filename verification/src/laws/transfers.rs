//! Moving file data: which bytes of the file go where.

use vstd::prelude::*;

use crate::fs::client::FsEvent;
use crate::layout::{DIRECT_MAP_OFFSET, PAGE_SIZE};
use crate::memory::page_table::{page_of, PageEntry};
use crate::syscall::handlers::transfer::{chunk_event, chunk_reply, min_u32, page_rest, transferred, translated, Direction};

verus! {

/// The byte at virtual address `v` is the byte at physical address `p`.
pub open spec fn leads(mappings: Map<u64, PageEntry>, v: int, p: int) -> bool {
    let page = (v - v % (PAGE_SIZE as int)) as u64;
    if v >= DIRECT_MAP_OFFSET {
        p == v - DIRECT_MAP_OFFSET
    } else {
        mappings.contains_key(page) && mappings[page].present && p == (mappings[page].paddr + v % (PAGE_SIZE as int))
            % 0x1_0000_0000_0000_0000
    }
}

/// Virtual address `v` leads to no byte at all.
#[verifier::opaque]
pub open spec fn nowhere(mappings: Map<u64, PageEntry>, v: int) -> bool {
    let page = (v - v % (PAGE_SIZE as int)) as u64;
    v < DIRECT_MAP_OFFSET && !(mappings.contains_key(page) && mappings[page].present)
}

/// The host moves no more than it was asked to, and its errors are negative.
pub open spec fn honest(e: FsEvent) -> bool {
    match e {
        FsEvent::Read { count, reply, .. } => match reply {
            Ok(n) => n <= count,
            Err(err) => err < 0,
        },
        FsEvent::Write { count, reply, .. } => match reply {
            Ok(n) => n <= count,
            Err(err) => err < 0,
        },
        _ => true,
    }
}

pub open spec fn all_honest(t: Seq<FsEvent>) -> bool {
    forall|i: int| 0 <= i < t.len() ==> honest(#[trigger] t[i])
}

/// How many bytes a request moved.
pub open spec fn bytes_moved(e: FsEvent) -> int {
    match e {
        FsEvent::Read { reply: Ok(n), .. } => n as int,
        FsEvent::Write { reply: Ok(n), .. } => n as int,
        _ => 0,
    }
}

/// How many bytes the first `i` requests moved.
pub open spec fn moved_by(t: Seq<FsEvent>, i: int) -> int
    decreases i,
{
    if i <= 0 {
        0
    } else {
        moved_by(t, i - 1) + bytes_moved(t[i - 1])
    }
}

/// The request asks to move bytes of the file behind `fh` from offset `f` on, and the bytes at virtual address `v` on, which way
/// it is: at least one, no more than `rest`, and up to the end of the page if that is nearer.
#[verifier::opaque]
pub open spec fn asks(e: FsEvent, dir: Direction, fh: u64, f: int, mappings: Map<u64, PageEntry>, v: int, rest: int) -> bool {
    let to_end = PAGE_SIZE - v % (PAGE_SIZE as int);
    match dir {
        Direction::Read => e matches FsEvent::Read { fh: h, offset, paddr, count, .. } && h == fh && offset == f && leads(
            mappings,
            v,
            paddr as int,
        ) && count == (if rest <= to_end { rest } else { to_end }),
        Direction::Write => e matches FsEvent::Write { fh: h, offset, paddr, count, .. } && h == fh && offset == f && leads(
            mappings,
            v,
            paddr as int,
        ) && count == (if rest <= to_end { rest } else { to_end }),
    }
}

/// Request `i` goes on where those before it have ended.
#[verifier::opaque]
pub open spec fn next(dir: Direction, fh: u64, mappings: Map<u64, PageEntry>, f: int, v: int, count: int, t: Seq<FsEvent>, i: int) -> bool {
    let done = moved_by(t, i);
    0 <= done < count && asks(t[i], dir, fh, f + done, mappings, v + done, count - done)
}

/// The request ended the move: it moved nothing.
pub open spec fn ends(e: FsEvent) -> bool {
    match e {
        FsEvent::Read { reply, .. } => reply is Err || reply == Ok::<u32, i32>(0),
        FsEvent::Write { reply, .. } => reply is Err || reply == Ok::<u32, i32>(0),
        _ => false,
    }
}

/// What moving `count` bytes between offset `f` of a file and virtual address `v` is: the requests follow each other without a
/// gap, in the file and in memory alike; as many bytes were moved as is said; and the move ends early only where the host moves
/// nothing, or where an address leads nowhere.
pub open spec fn in_step(
    dir: Direction,
    fh: u64,
    mappings: Map<u64, PageEntry>,
    f: int,
    v: int,
    count: int,
    t: Seq<FsEvent>,
    r: Result<u32, i32>,
) -> bool {
    let n = moved_by(t, t.len() as int);
    &&& 0 <= n <= count
    &&& forall|i: int| 0 <= i < t.len() ==> #[trigger] next(dir, fh, mappings, f, v, count, t, i)
    &&& r matches Ok(k) ==> k == n
    &&& r matches Err(e) ==> n == 0 && e < 0
    &&& n < count ==> (t.len() > 0 && ends(t[t.len() - 1])) || nowhere(mappings, v + n)
}

proof fn lemma_moved_by(t: Seq<FsEvent>, i: int)
    requires
        0 < i <= t.len(),
    ensures
        moved_by(t, i) == bytes_moved(t[0]) + moved_by(t.skip(1), i - 1),
    decreases i,
{
    if i > 1 {
        lemma_moved_by(t, i - 1);
        assert(t.skip(1)[i - 2] == t[i - 1]);
        assert(moved_by(t, i) == moved_by(t, i - 1) + bytes_moved(t[i - 1]));
        assert(moved_by(t.skip(1), i - 1) == moved_by(t.skip(1), i - 2) + bytes_moved(t.skip(1)[i - 2]));
    } else {
        assert(moved_by(t, 0) == 0);
        assert(moved_by(t.skip(1), 0) == 0);
    }
}

/// A transfer is what moving bytes is.
pub proof fn law_transfer(
    dir: Direction,
    fh: u64,
    mappings: Map<u64, PageEntry>,
    f: u64,
    v: u64,
    count: u32,
    t: Seq<FsEvent>,
    r: Result<u32, i32>,
)
    requires
        transferred(dir, fh, mappings, f, v, count, 0, t, r),
        all_honest(t),
        f + count <= u64::MAX,
        v + count <= u64::MAX,
    ensures
        in_step(dir, fh, mappings, f as int, v as int, count as int, t, r),
{
    lemma_transfer(dir, fh, mappings, f, v, count, 0, t, r);
}

proof fn lemma_first(dir: Direction, fh: u64, mappings: Map<u64, PageEntry>, f: u64, v: u64, count: u32, e: FsEvent)
    requires
        count > 0,
        translated(mappings, v) matches Some(paddr) && e == chunk_event(dir, fh, f, paddr, min_u32(count, page_rest(v)), chunk_reply(e)),
    ensures
        asks(e, dir, fh, f as int, mappings, v as int, count as int),
        bytes_moved(e) == match chunk_reply(e) {
            Ok(n) => n as int,
            Err(_) => 0,
        },
        ends(e) <==> chunk_reply(e) is Err || chunk_reply(e) == Ok::<u32, i32>(0),
{
    reveal(asks);
    assert(v as int - v as int % PAGE_SIZE as int == page_of(v));
}

proof fn lemma_nowhere(mappings: Map<u64, PageEntry>, v: u64)
    requires
        translated(mappings, v) is None,
    ensures
        nowhere(mappings, v as int),
{
    reveal(nowhere);
    assert(v as int - v as int % PAGE_SIZE as int == page_of(v));
}

proof fn lemma_transfer(
    dir: Direction,
    fh: u64,
    mappings: Map<u64, PageEntry>,
    f: u64,
    v: u64,
    count: u32,
    total: u32,
    t: Seq<FsEvent>,
    r: Result<u32, i32>,
)
    requires
        transferred(dir, fh, mappings, f, v, count, total, t, r),
        all_honest(t),
        f + count <= u64::MAX,
        v + count <= u64::MAX,
        total + count <= u32::MAX,
    ensures
        ({
            let n = moved_by(t, t.len() as int);
            &&& 0 <= n <= count
            &&& forall|i: int| 0 <= i < t.len() ==> #[trigger] next(dir, fh, mappings, f as int, v as int, count as int, t, i)
            &&& r matches Ok(k) ==> k == total + n
            &&& r matches Err(e) ==> n == 0 && e < 0 && total == 0
            &&& n < count ==> (t.len() > 0 && ends(t[t.len() - 1])) || nowhere(mappings, v + n)
        }),
    decreases count,
{
    assert(moved_by(t, 0) == 0);
    if count > 0 && translated(mappings, v) is None {
        lemma_nowhere(mappings, v);
    } else if count > 0 {
        assert(honest(t[0]));
        lemma_first(dir, fh, mappings, f, v, count, t[0]);
        assert(moved_by(t, 1) == moved_by(t, 0) + bytes_moved(t[0]));
        assert(next(dir, fh, mappings, f as int, v as int, count as int, t, 0)) by {
            reveal(next);
        }
        match chunk_reply(t[0]) {
            Ok(n) => {
                if n > 0 {
                    let rest = t.skip(1);
                    assert forall|i: int| 0 <= i < rest.len() implies honest(#[trigger] rest[i]) by {
                        assert(rest[i] == t[i + 1]);
                    }
                    lemma_transfer(dir, fh, mappings, (f + n) as u64, (v + n) as u64, (count - n) as u32, (total + n) as u32, rest, r);
                    lemma_moved_by(t, t.len() as int);
                    assert forall|i: int| 0 <= i < t.len() implies #[trigger] next(
                        dir,
                        fh,
                        mappings,
                        f as int,
                        v as int,
                        count as int,
                        t,
                        i,
                    ) by {
                        reveal(next);
                        if i > 0 {
                            lemma_moved_by(t, i);
                            assert(rest[i - 1] == t[i]);
                            assert(next(dir, fh, mappings, f + n, v + n, count - n, rest, i - 1));
                        }
                    }
                    if rest.len() > 0 {
                        assert(rest[rest.len() - 1] == t[t.len() - 1]);
                    }
                }
            },
            Err(_) => {},
        }
    }
}

} // verus!
