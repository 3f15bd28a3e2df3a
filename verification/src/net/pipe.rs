//! Pipes.

use std::collections::VecDeque;
use vstd::prelude::*;

use super::socket::{EPOLLERR, EPOLLHUP, EPOLLIN, EPOLLOUT};
use super::wait::Wait;
use crate::syscall::errno::EPIPE;

verus! {

broadcast use vstd::std_specs::vecdeque::group_vec_dequeue_axioms;

/// Bytes that a pipe holds at most.
pub const PIPE_CAPACITY: usize = 65536;

/// A pipe: the bytes in it, and how many ends are open.
pub struct PipeState {
    pub buf: VecDeque<u8>,
    pub readers: u32,
    pub writers: u32,
}

/// What a `PipeState` stands for.
#[verifier::ext_equal]
pub struct Pipe {
    pub buf: Seq<u8>,
    pub readers: u32,
    pub writers: u32,
}

impl View for PipeState {
    type V = Pipe;

    open spec fn view(&self) -> Pipe {
        Pipe { buf: self.buf@, readers: self.readers, writers: self.writers }
    }
}

/// A pipe with both ends open and nothing in it.
pub open spec fn new_pipe() -> Pipe {
    Pipe { buf: Seq::empty(), readers: 1, writers: 1 }
}

impl PipeState {
    pub fn new() -> (r: Self)
        ensures
            r@ == new_pipe(),
    {
        PipeState { buf: VecDeque::new(), readers: 1, writers: 1 }
    }
}

pub open spec fn min(a: int, b: int) -> int {
    if a <= b { a } else { b }
}

/// What an attempt to read up to `max` bytes comes to: bytes, or the end if there are none and
/// nobody can write any.
pub open spec fn read_outcome(p: Pipe, max: int) -> Wait {
    if p.buf.len() > 0 {
        Wait::Ready(min(max, p.buf.len() as int) as i64)
    } else if p.writers == 0 {
        Wait::Ready(0)
    } else {
        Wait::Block
    }
}

/// The pipe after an attempt to read up to `max` bytes.
pub open spec fn after_read(p: Pipe, max: int) -> Pipe {
    Pipe { buf: p.buf.skip(min(max, p.buf.len() as int)), ..p }
}

/// The bytes that an attempt to read up to `max` bytes gets.
pub open spec fn bytes_read(p: Pipe, max: int) -> Seq<u8> {
    p.buf.take(min(max, p.buf.len() as int))
}

/// How many of `len` bytes the pipe takes.
pub open spec fn accepted(p: Pipe, len: int) -> int {
    if p.readers == 0 || p.buf.len() >= PIPE_CAPACITY { 0 } else { min(len, PIPE_CAPACITY - p.buf.len()) }
}

/// What an attempt to write `len` bytes comes to: an error if nobody can read them, else as many
/// as there is room for.
pub open spec fn write_outcome(p: Pipe, len: int) -> Wait {
    if p.readers == 0 {
        Wait::Ready(EPIPE)
    } else if p.buf.len() >= PIPE_CAPACITY {
        Wait::Block
    } else {
        Wait::Ready(accepted(p, len) as i64)
    }
}

/// The pipe after an attempt to write `data`.
pub open spec fn after_write(p: Pipe, data: Seq<u8>) -> Pipe {
    Pipe { buf: p.buf + data.take(accepted(p, data.len() as int)), ..p }
}

/// One attempt to read.
pub fn try_read(p: &mut PipeState, buf: &mut [u8]) -> (r: Wait)
    requires
        old(p)@.buf.len() <= i64::MAX,
    ensures
        r == read_outcome(old(p)@, old(buf)@.len() as int),
        final(p)@ == after_read(old(p)@, old(buf)@.len() as int),
        final(buf)@.len() == old(buf)@.len(),
        final(buf)@ == bytes_read(old(p)@, old(buf)@.len() as int) + old(buf)@.skip(
            min(old(buf)@.len() as int, old(p)@.buf.len() as int),
        ),
{
    let len: usize = p.buf.len();
    if len == 0 {
        assert(p@.buf.skip(0) =~= p@.buf);
        assert(bytes_read(old(p)@, old(buf)@.len() as int) + old(buf)@.skip(0) =~= old(buf)@);
        return if p.writers == 0 {
            Wait::Ready(0)
        } else {
            Wait::Block
        };
    }
    let max: usize = buf.len();
    let n: usize = if max < len { max } else { len };
    let mut i: usize = 0;
    assert(p@ =~= after_read(old(p)@, 0));
    while i < n
        invariant
            i <= n,
            n == min(old(buf)@.len() as int, old(p)@.buf.len() as int),
            buf@.len() == old(buf)@.len(),
            p@ == after_read(old(p)@, i as int),
            buf@ == old(p)@.buf.take(i as int) + old(buf)@.skip(i as int),
        decreases n - i,
    {
        match p.buf.pop_front() {
            Some(b) => {
                buf[i] = b;
                proof {
                    assert(p@.buf =~= old(p)@.buf.skip(i + 1));
                    assert(buf@ =~= old(p)@.buf.take(i + 1) + old(buf)@.skip(i + 1));
                }
            },
            None => {},
        }
        i += 1;
    }
    Wait::Ready(n as i64)
}

/// One attempt to write.
pub fn try_write(p: &mut PipeState, data: &[u8]) -> (r: Wait)
    ensures
        r == write_outcome(old(p)@, data@.len() as int),
        final(p)@ == after_write(old(p)@, data@),
{
    if p.readers == 0 {
        assert(p@ =~= after_write(old(p)@, data@));
        return Wait::Ready(EPIPE);
    }
    let len: usize = p.buf.len();
    let space: usize = if len < PIPE_CAPACITY { PIPE_CAPACITY - len } else { 0 };
    if space == 0 {
        assert(p@ =~= after_write(old(p)@, data@));
        return Wait::Block;
    }
    let n: usize = if data.len() < space { data.len() } else { space };
    let mut i: usize = 0;
    assert(p@.buf =~= old(p)@.buf + data@.take(0));
    while i < n
        invariant
            i <= n <= data@.len(),
            p@.buf == old(p)@.buf + data@.take(i as int),
            p.readers == old(p).readers,
            p.writers == old(p).writers,
        decreases n - i,
    {
        p.buf.push_back(data[i]);
        i += 1;
        assert(p@.buf =~= old(p)@.buf + data@.take(i as int));
    }
    assert(p@ =~= after_write(old(p)@, data@));
    Wait::Ready(n as i64)
}

/// The events that one end of a pipe is ready for.
pub open spec fn readiness_of(p: Pipe, write_end: bool) -> u32 {
    if write_end {
        if p.readers == 0 {
            EPOLLERR
        } else if p.buf.len() < PIPE_CAPACITY {
            EPOLLOUT
        } else {
            0
        }
    } else if p.writers == 0 {
        EPOLLIN | EPOLLHUP
    } else if p.buf.len() > 0 {
        EPOLLIN
    } else {
        0
    }
}

/// The events that one end of a pipe is ready for.
pub fn pipe_readiness(p: &PipeState, write_end: bool) -> (r: u32)
    ensures
        r == readiness_of(p@, write_end),
{
    if write_end {
        if p.readers == 0 {
            EPOLLERR
        } else if p.buf.len() < PIPE_CAPACITY {
            EPOLLOUT
        } else {
            0
        }
    } else {
        let mut ev: u32 = 0;
        if p.buf.len() > 0 || p.writers == 0 {
            ev = ev | EPOLLIN;
        }
        if p.writers == 0 {
            ev = ev | EPOLLHUP;
        }
        assert(0u32 | 1u32 == 1u32) by (bit_vector);
        ev
    }
}

/// Bytes come out of a pipe in the order in which they went in: reading as many as were written
/// to an empty pipe gives them back and leaves the pipe empty.
pub proof fn law_read_gives_back_write(p: Pipe, data: Seq<u8>)
    requires
        p.buf.len() == 0,
        p.readers > 0,
        data.len() <= PIPE_CAPACITY,
    ensures
        write_outcome(p, data.len() as int) == Wait::Ready(data.len() as i64),
        bytes_read(after_write(p, data), data.len() as int) == data,
        after_read(after_write(p, data), data.len() as int) == p,
{
    assert(after_write(p, data).buf =~= data);
    assert(bytes_read(after_write(p, data), data.len() as int) =~= data);
    assert(after_read(after_write(p, data), data.len() as int) =~= p);
}

/// What the pipe takes of a write is read after all that was in it before, and before anything else.
pub proof fn law_bytes_keep_their_order(p: Pipe, data: Seq<u8>)
    ensures
        ({
            let q = after_write(p, data);
            let before = p.buf.len() as int;
            let taken = accepted(p, data.len() as int);
            &&& bytes_read(q, before) == p.buf
            &&& bytes_read(after_read(q, before), taken) == data.take(taken)
            &&& after_read(after_read(q, before), taken) == (Pipe { buf: Seq::empty(), ..p })
        }),
{
    let q = after_write(p, data);
    let before = p.buf.len() as int;
    let taken = accepted(p, data.len() as int);
    assert(bytes_read(q, before) =~= p.buf);
    assert(after_read(q, before).buf =~= data.take(taken));
    assert(bytes_read(after_read(q, before), taken) =~= data.take(taken));
    assert(after_read(after_read(q, before), taken).buf =~= Seq::<u8>::empty());
}

/// Two reads in a row get what one read of both sizes gets.
pub proof fn law_reads_join(p: Pipe, a: int, b: int)
    requires
        0 <= a,
        0 <= b,
    ensures
        bytes_read(p, a) + bytes_read(after_read(p, a), b) == bytes_read(p, a + b),
        after_read(after_read(p, a), b) == after_read(p, a + b),
{
    assert(bytes_read(p, a) + bytes_read(after_read(p, a), b) =~= bytes_read(p, a + b));
    assert(after_read(after_read(p, a), b).buf =~= after_read(p, a + b).buf);
}

/// A pipe never holds more than its capacity, and what is written goes behind what is there.
pub proof fn law_capacity(p: Pipe, data: Seq<u8>)
    requires
        p.buf.len() <= PIPE_CAPACITY,
    ensures
        after_write(p, data).buf.len() <= PIPE_CAPACITY,
        after_write(p, data).buf.take(p.buf.len() as int) == p.buf,
{
    assert(after_write(p, data).buf.take(p.buf.len() as int) =~= p.buf);
}

} // verus!
