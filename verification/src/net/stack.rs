//! The network interface and its clock.

use smoltcp::iface::{Config, Interface, PollResult, SocketSet};
use smoltcp::phy::{Loopback, Medium};
use smoltcp::time::Instant;
use smoltcp::wire::{EthernetAddress, HardwareAddress, IpAddress, IpCidr};
use vstd::prelude::*;

use super::device::{after_poll, PollDevice, LATEST_MICROS};
use super::tcp::{addresses, can_grow, empty_set, no_sockets, origin, prefixes, tcp_sockets};
use crate::memory::access::from_le64;
use crate::time::{elapsed_ns, monotonic_ns, Clock};

verus! {

/// The address of the network card.
pub const GUEST_MAC: [u8; 6] = [2, 0, 0, 0, 0, 1];

/// Ports from which connections are made.
pub const EPHEMERAL_LO: u16 = 49152;

pub const EPHEMERAL_HI: u16 = 65535;

/// The address 127.0.0.1.
pub const LOOPBACK_ADDR: u32 = 0x7f00_0001;

/// The address 10.0.2.15.
pub const GUEST_ADDR: u32 = 0x0a00_020f;

#[verifier::external_type_specification]
#[verifier::external_body]
pub struct ExLoopback(Loopback);

/// Microseconds since boot, which is what the stack goes by.
pub fn now(clock: &Clock, tsc: u64) -> (r: i64)
    ensures
        r == elapsed_ns(*clock, tsc) / 1000,
        0 <= r <= LATEST_MICROS,
{
    (monotonic_ns(clock, tsc) / 1000) as i64
}

/// The number from which the stack derives its random numbers: the first eight bytes of the seed, else the time.
pub open spec fn stack_seed(seed: Option<[u8; 32]>, clock: Clock, tsc: u64) -> int {
    match seed {
        Some(s) => from_le64(s@),
        None => elapsed_ns(clock, tsc),
    }
}

/// The number from which the stack derives its random numbers.
pub fn seed_from_rng(seed: &Option<[u8; 32]>, clock: &Clock, tsc: u64) -> (r: u64)
    ensures
        r == stack_seed(*seed, *clock, tsc),
{
    match seed {
        Some(s) => s[0] as u64 + s[1] as u64 * 0x100 + s[2] as u64 * 0x1_0000 + s[3] as u64 * 0x100_0000 + s[4] as u64
            * 0x1_0000_0000 + s[5] as u64 * 0x100_0000_0000 + s[6] as u64 * 0x1_0000_0000_0000 + s[7] as u64
            * 0x100_0000_0000_0000,
        None => monotonic_ns(clock, tsc),
    }
}

/// `smoltcp::phy::Loopback::new`: an Ethernet device that gives back what is sent through it.
#[verifier::external_body]
fn new_loopback_device() -> (r: Loopback) {
    Loopback::new(Medium::Ethernet)
}

/// `smoltcp::iface::Interface::new` over a device whose medium is Ethernet, the only one that is built in: an interface
/// without addresses, made from what it is given. What it derives from that is not stated.
#[verifier::external_body]
fn new_interface(device: &mut Loopback, mac: [u8; 6], seed: u64, micros: i64) -> (r: Interface)
    ensures
        addresses(r) == Seq::<u32>::empty(),
        prefixes(r) == Seq::<u8>::empty(),
        origin(r) == (mac@, seed, micros),
{
    let mut config = Config::new(HardwareAddress::Ethernet(EthernetAddress(mac)));
    config.random_seed = seed;
    Interface::new(config, device, Instant::from_micros(micros))
}

/// The address is that of one host, or none.
pub open spec fn one_host(addr: u32) -> bool {
    addr != 0xffff_ffff && !(0xe000_0000 <= addr <= 0xefff_ffff)
}

/// `smoltcp::iface::Interface::update_ip_addrs` with a closure that adds one address behind the others. There is room for two,
/// and the interface panics on an address of more than one host. What it forgets of its neighbors is not stated.
#[verifier::external_body]
fn add_address(iface: &mut Interface, addr: u32, prefix: u8)
    requires
        addresses(*old(iface)).len() < 2,
        forall|i: int| 0 <= i < addresses(*old(iface)).len() ==> one_host(#[trigger] addresses(*old(iface))[i]),
        one_host(addr),
        prefix <= 32,
    ensures
        addresses(*final(iface)) == addresses(*old(iface)).push(addr),
        prefixes(*final(iface)) == prefixes(*old(iface)).push(prefix),
        origin(*final(iface)) == origin(*old(iface)),
{
    iface.update_ip_addrs(
        |addrs| {
            let _ = addrs.push(IpCidr::new(IpAddress::Ipv4(addr.into()), prefix));
        },
    );
}

/// `smoltcp::iface::Interface::poll` over a loopback device: moves packets between the sockets and the
/// device, which may change any socket but neither adds nor removes one, nor changes the sizes of
/// their buffers. The result tells whether a socket may have changed. What the packets do to
/// the sockets is not stated. The stack adds durations to the time, which must not overflow.
#[verifier::external_body]
fn poll_loopback(iface: &mut Interface, device: &mut Loopback, sockets: &mut SocketSet<'static>, micros: i64) -> (changed: bool)
    requires
        0 <= micros <= LATEST_MICROS,
    ensures
        addresses(*final(iface)) == addresses(*old(iface)),
        can_grow(*final(sockets)) == can_grow(*old(sockets)),
        after_poll(tcp_sockets(*old(sockets)), tcp_sockets(*final(sockets))),
{
    match iface.poll(Instant::from_micros(micros), device, sockets) {
        PollResult::None => false,
        PollResult::SocketStateChanged => true,
    }
}

impl PollDevice for Loopback {
    fn pre_poll(&mut self) {
    }

    fn poll(&mut self, iface: &mut Interface, sockets: &mut SocketSet<'static>, micros: i64) -> (changed: bool) {
        poll_loopback(iface, self, sockets, micros)
    }
}

/// A stack within the guest: an interface with the addresses 127.0.0.1/8 and 10.0.2.15/24 over a
/// device that gives back what is sent, and no sockets.
pub fn build(seed: &Option<[u8; 32]>, clock: &Clock, tsc: u64) -> (r: (Interface, Loopback, SocketSet<'static>))
    ensures
        addresses(r.0) == seq![LOOPBACK_ADDR, GUEST_ADDR],
        prefixes(r.0) == seq![8u8, 24u8],
        origin(r.0) == (GUEST_MAC@, stack_seed(*seed, *clock, tsc) as u64, (elapsed_ns(*clock, tsc) / 1000) as i64),
        tcp_sockets(r.2) == no_sockets(),
        can_grow(r.2),
{
    let mut device = new_loopback_device();
    let s: u64 = seed_from_rng(seed, clock, tsc);
    let mac: [u8; 6] = GUEST_MAC;
    let mut iface = new_interface(&mut device, mac, s, now(clock, tsc));
    add_address(&mut iface, LOOPBACK_ADDR, 8);
    add_address(&mut iface, GUEST_ADDR, 24);
    (iface, device, empty_set())
}

} // verus!
