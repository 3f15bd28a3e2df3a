//! Calls that may have to wait.

use vstd::prelude::*;

use crate::net::device::Poll;
use crate::net::stream::{polled_sys, StreamOp, Sys};
use crate::net::wait::Wait;
use crate::sched::scheduler::{Parking, Switch};

verus! {

/// What is done with each of several buffers.
#[derive(Clone, Copy, Debug, PartialEq, Eq, Structural)]
pub enum Gather {
    /// Sent as one message.
    Send { id: usize, nonblocking: bool },
    /// Filled from one message.
    Recv { id: usize, nonblocking: bool },
    /// Written to a socket.
    Socket { id: usize },
    /// Written to a pipe.
    Pipe { id: usize, nonblocking: bool },
}

/// How a call goes on when its thread runs again.
#[derive(Clone, Copy, Debug, PartialEq, Eq, Structural)]
pub enum Again {
    Stream(StreamOp),
    Accept { id: usize, addr: u64, addr_len: u64, flags: u32 },
    Connect { id: usize },
    /// At buffer `index` of those described from `iov` on, after `total` bytes.
    Gather { gather: Gather, iov: u64, count: u64, index: u64, addr: u64, len: u64, total: i64 },
}

/// What a call comes to: a result, or a change of threads and how it goes on.
#[derive(Clone, Copy, Debug, PartialEq, Eq, Structural)]
pub enum Call {
    Return(i64),
    Parked(Option<Switch>, Again),
}

/// The call that ends like `p`, and goes on like `again`.
pub open spec fn call_of(p: Parking, again: Again) -> Call {
    match p {
        Parking::Return(v) => Call::Return(v),
        Parking::Parked(s) => Call::Parked(s, again),
    }
}

pub(crate) fn into_call(p: Parking, again: Again) -> (r: Call)
    ensures
        r == call_of(p, again),
{
    match p {
        Parking::Return(v) => Call::Return(v),
        Parking::Parked(s) => Call::Parked(s, again),
    }
}

/// The state in which the attempt is made that decides what a wait comes to: packets are moved if the first one fails.
pub open spec fn after_first(s: Sys, first: Wait, q: Seq<Poll>, c: int) -> Sys {
    if first is Block { polled_sys(s, q[s.net.polls.len() as int], c) } else { s }
}

} // verus!
