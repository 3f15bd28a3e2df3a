use sumi_kernel::memory::access::{read_bytes, read_u32, write_bytes, write_u32};
use sumi_kernel::memory::test_utils::TestDirectMap;
use sumi_kernel::net::abi::{parse_sockaddr, read_epoll_event, write_epoll_event, write_sockaddr, EpollEvent};
use sumi_kernel::net::socket::AF_INET;
use sumi_kernel::net::tcp::Endpoint;
use sumi_kernel::syscall::errno::{EAFNOSUPPORT, EFAULT, EINVAL};

const BASE: u64 = 0x4000;

#[test]
fn parse_sockaddr_round_trips_loopback() {
    let mut um = TestDirectMap::at(BASE, 64);
    let mut sa = [0u8; 16];
    sa[0..2].copy_from_slice(&AF_INET.to_ne_bytes());
    sa[2..4].copy_from_slice(&3456u16.to_be_bytes());
    sa[4..8].copy_from_slice(&[127, 0, 0, 1]);
    write_bytes(&mut um, BASE, &sa);

    let ep = parse_sockaddr(&um, BASE, 16).expect("valid sockaddr_in");
    assert_eq!(ep.port, 3456);
    assert_eq!(ep.addr, Endpoint::v4(127, 0, 0, 1, 0).addr);
}

#[test]
fn parse_sockaddr_rejects_short_len() {
    let um = TestDirectMap::at(BASE, 64);
    assert_eq!(parse_sockaddr(&um, BASE, 8), Err(EINVAL));
}

#[test]
fn parse_sockaddr_rejects_bad_family() {
    let mut um = TestDirectMap::at(BASE, 64);
    let mut sa = [0u8; 16];
    sa[0..2].copy_from_slice(&99u16.to_ne_bytes());
    write_bytes(&mut um, BASE, &sa);
    assert_eq!(parse_sockaddr(&um, BASE, 16), Err(EAFNOSUPPORT));
}

#[test]
fn parse_sockaddr_rejects_null() {
    let um = TestDirectMap::at(BASE, 64);
    assert_eq!(parse_sockaddr(&um, 0, 16), Err(EFAULT));
}

#[test]
fn write_sockaddr_round_trips() {
    let mut um = TestDirectMap::at(BASE, 64);
    write_bytes(&mut um, BASE, &[0xFFu8; 16]);
    write_u32(&mut um, BASE + 32, 16);
    let ep = Endpoint::v4(10, 0, 2, 15, 8080);
    write_sockaddr(&mut um, BASE, BASE + 32, ep).expect("write_sockaddr");
    assert_eq!(read_u32(&um, BASE + 32), 16);
    let round = parse_sockaddr(&um, BASE, 16).unwrap();
    assert_eq!(round.port, 8080);
    assert_eq!(round.addr, Endpoint::v4(10, 0, 2, 15, 0).addr);
}

#[test]
fn epoll_event_round_trips_at_unaligned_offset() {
    let mut um = TestDirectMap::at(BASE, 32);
    let p = BASE + 1;
    let ev = EpollEvent { events: 0xDEADBEEF, data: 0x0123_4567_89AB_CDEF };
    write_epoll_event(&mut um, p, &ev);
    let back = read_epoll_event(&um, p);
    let (events, data) = (back.events, back.data);
    assert_eq!(events, 0xDEADBEEF);
    assert_eq!(data, 0x0123_4567_89AB_CDEF);
    assert_eq!(
        read_bytes(&um, BASE, 14),
        vec![0, 0xEF, 0xBE, 0xAD, 0xDE, 0xEF, 0xCD, 0xAB, 0x89, 0x67, 0x45, 0x23, 0x01, 0]
    );
}

#[test]
fn write_sockaddr_lays_out_the_port_and_address_big_end_first() {
    let mut um = TestDirectMap::at(BASE, 64);
    write_bytes(&mut um, BASE, &[0xFFu8; 16]);
    write_sockaddr(&mut um, BASE, 0, Endpoint::v4(10, 0, 2, 15, 0x1F90)).unwrap();
    assert_eq!(read_bytes(&um, BASE, 8), vec![2, 0, 0x1F, 0x90, 10, 0, 2, 15]);
    assert_eq!(read_bytes(&um, BASE + 8, 8), vec![0; 8]);
}

#[test]
fn write_sockaddr_to_nowhere_writes_nothing() {
    let mut um = TestDirectMap::at(BASE, 64);
    assert_eq!(write_sockaddr(&mut um, 0, BASE, Endpoint::v4(1, 2, 3, 4, 5)), Ok(()));
    assert_eq!(read_bytes(&um, BASE, 64), vec![0; 64]);
}
