//! Socket addresses and epoll events in the user's memory.

use vstd::prelude::*;

use super::socket::AF_INET;
use super::tcp::Endpoint;
use crate::memory::access::{
    byte, from_le32, from_le64, law_le32_round_trip, law_le64_round_trip, le32, le64, mem, range, reachable,
    read_bytes, read_u32, read_u64, stored, write_bytes, write_u32, write_u64, wrote, Mem, Memory,
};
use crate::syscall::errno::{EAFNOSUPPORT, EFAULT, EINVAL};

verus! {

/// Size of a socket address.
pub const SOCKADDR_LEN: u32 = 16;

/// Size of an epoll event, whose two fields have no gap between them.
pub const EPOLL_EVENT_LEN: u64 = 12;

#[derive(Clone, Copy, Debug, PartialEq, Eq, Structural)]
pub struct EpollEvent {
    pub events: u32,
    pub data: u64,
}

/// The family of a socket address: its first two bytes, the lower one first.
pub open spec fn family_of(sa: Seq<u8>) -> int {
    sa[0] + sa[1] * 0x100
}

/// The endpoint in a socket address: port and address have their highest byte first.
pub open spec fn endpoint_of(sa: Seq<u8>) -> Endpoint {
    Endpoint {
        addr: (sa[4] * 0x100_0000 + sa[5] * 0x1_0000 + sa[6] * 0x100 + sa[7]) as u32,
        port: (sa[2] * 0x100 + sa[3]) as u16,
    }
}

/// The socket address of an endpoint.
pub open spec fn sockaddr_of(ep: Endpoint) -> Seq<u8> {
    seq![
        2u8,
        0u8,
        (ep.port / 0x100) as u8,
        (ep.port % 0x100) as u8,
        (ep.addr / 0x100_0000) as u8,
        (ep.addr / 0x1_0000 % 0x100) as u8,
        (ep.addr / 0x100 % 0x100) as u8,
        (ep.addr % 0x100) as u8,
        0u8,
        0u8,
        0u8,
        0u8,
        0u8,
        0u8,
        0u8,
        0u8,
    ]
}

/// What comes of the socket address of `len` bytes at `addr`.
pub open spec fn parsed<M: Memory>(um: &M, addr: u64, len: u32) -> Result<Endpoint, i64> {
    let sa = range(um, addr as int, 16);
    if addr == 0 {
        Err(EFAULT)
    } else if len < SOCKADDR_LEN {
        Err(EINVAL)
    } else if family_of(sa) != AF_INET {
        Err(EAFNOSUPPORT)
    } else {
        Ok(endpoint_of(sa))
    }
}

/// Reads a socket address.
pub fn parse_sockaddr<M: Memory>(um: &M, uaddr: u64, ulen: u32) -> (r: Result<Endpoint, i64>)
    requires
        uaddr != 0 && ulen >= SOCKADDR_LEN ==> reachable(um, uaddr, 16),
    ensures
        r == parsed(um, uaddr, ulen),
{
    if uaddr == 0 {
        return Err(EFAULT);
    }
    if ulen < SOCKADDR_LEN {
        return Err(EINVAL);
    }
    let b = read_bytes(um, uaddr, 16);
    let family: u16 = b[0] as u16 + b[1] as u16 * 0x100;
    if family != AF_INET {
        return Err(EAFNOSUPPORT);
    }
    let port: u16 = b[2] as u16 * 0x100 + b[3] as u16;
    let addr: u32 = b[4] as u32 * 0x100_0000 + b[5] as u32 * 0x1_0000 + b[6] as u32 * 0x100 + b[7] as u32;
    Ok(Endpoint { addr, port })
}

/// The memory after a socket address was written at `addr`, and its length at `len_ptr`, as far as given.
pub open spec fn sockaddr_written(m: Mem, addr: u64, len_ptr: u64, ep: Endpoint) -> Mem {
    if addr == 0 {
        m
    } else if len_ptr == 0 {
        m.stored(addr as int, sockaddr_of(ep))
    } else {
        m.stored(addr as int, sockaddr_of(ep)).stored(len_ptr as int, le32(SOCKADDR_LEN))
    }
}

/// Writes the socket address of `ep`, and its length, unless the pointers are null.
pub fn write_sockaddr<M: Memory>(um: &mut M, uaddr: u64, ulen_ptr: u64, ep: Endpoint) -> (r: Result<(), i64>)
    requires
        uaddr != 0 ==> reachable(old(um), uaddr, 16),
        uaddr != 0 && ulen_ptr != 0 ==> reachable(old(um), ulen_ptr, 4),
    ensures
        r is Ok,
        mem(final(um)) == sockaddr_written(mem(old(um)), uaddr, ulen_ptr, ep),
{
    if uaddr == 0 {
        return Ok(());
    }
    let sa: Vec<u8> = vec![
        2u8,
        0u8,
        (ep.port / 0x100) as u8,
        (ep.port % 0x100) as u8,
        (ep.addr / 0x100_0000) as u8,
        (ep.addr / 0x1_0000 % 0x100) as u8,
        (ep.addr / 0x100 % 0x100) as u8,
        (ep.addr % 0x100) as u8,
        0u8,
        0u8,
        0u8,
        0u8,
        0u8,
        0u8,
        0u8,
        0u8,
    ];
    assert(sa@ =~= sockaddr_of(ep));
    write_bytes(um, uaddr, sa.as_slice());
    if ulen_ptr != 0 {
        write_u32(um, ulen_ptr, SOCKADDR_LEN);
    }
    Ok(())
}

/// Reading the socket address of an endpoint gives the endpoint back.
pub proof fn law_sockaddr_round_trip(ep: Endpoint)
    ensures
        sockaddr_of(ep).len() == 16,
        family_of(sockaddr_of(ep)) == AF_INET,
        endpoint_of(sockaddr_of(ep)) == ep,
{
}

/// The bytes of an epoll event.
pub open spec fn event_bytes(ev: EpollEvent) -> Seq<u8> {
    le32(ev.events) + le64(ev.data)
}

/// The epoll event in these bytes.
pub open spec fn event_of(b: Seq<u8>) -> EpollEvent {
    EpollEvent { events: from_le32(b.take(4)) as u32, data: from_le64(b.skip(4)) as u64 }
}

/// Reads an epoll event.
pub fn read_epoll_event<M: Memory>(um: &M, p: u64) -> (r: EpollEvent)
    requires
        reachable(um, p, EPOLL_EVENT_LEN as int),
    ensures
        r == event_of(range(um, p as int, EPOLL_EVENT_LEN as int)),
{
    let events: u32 = read_u32(um, p);
    let data: u64 = read_u64(um, p + 4);
    proof {
        let b = range(um, p as int, EPOLL_EVENT_LEN as int);
        assert(b.take(4) =~= range(um, p as int, 4));
        assert(b.skip(4) =~= range(um, p + 4, 8));
    }
    EpollEvent { events, data }
}

/// Writes an epoll event.
pub fn write_epoll_event<M: Memory>(um: &mut M, p: u64, ev: &EpollEvent)
    requires
        reachable(old(um), p, EPOLL_EVENT_LEN as int),
    ensures
        wrote(old(um), final(um), p as int, event_bytes(*ev)),
{
    write_u32(um, p, ev.events);
    write_u64(um, p + 4, ev.data);
    assert(um.bytes() =~= stored(old(um), p as int, event_bytes(*ev)));
}

/// Reading the bytes of an epoll event gives the event back.
pub proof fn law_event_round_trip(ev: EpollEvent)
    ensures
        event_bytes(ev).len() == EPOLL_EVENT_LEN,
        event_of(event_bytes(ev)) == ev,
{
    law_le32_round_trip(ev.events);
    law_le64_round_trip(ev.data);
    assert(event_bytes(ev).take(4) =~= le32(ev.events));
    assert(event_bytes(ev).skip(4) =~= le64(ev.data));
}

} // verus!
