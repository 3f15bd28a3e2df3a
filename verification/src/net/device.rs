//! What packets go through, and the record of what was done with it.

use smoltcp::iface::{Interface, SocketHandle, SocketSet};
use vstd::prelude::*;

use super::tcp::{addresses, can_grow, tcp_sockets, TcpInfo};

verus! {

/// The buffers of a socket hold no more than they have room for.
pub open spec fn fits(i: TcpInfo) -> bool {
    i.tx.len() <= i.tx_size && i.rx.len() <= i.rx_size
}

/// The sockets `b` may come of the sockets `a` when packets are moved: they are the same ones, with
/// buffers of the same sizes.
pub open spec fn after_poll(a: Map<SocketHandle, TcpInfo>, b: Map<SocketHandle, TcpInfo>) -> bool {
    &&& a.dom() == b.dom()
    &&& forall|h: SocketHandle| #[trigger]
        a.contains_key(h) ==> b[h].tx_size == a[h].tx_size && b[h].rx_size == a[h].rx_size && (fits(a[h]) ==> fits(b[h]))
}

/// The latest time that the clock shows, in microseconds after boot.
pub const LATEST_MICROS: i64 = 18_446_744_073_709_551;

/// A device that packets go through.
pub trait PollDevice: Sized {
    /// Called once before packets are moved.
    fn pre_poll(&mut self);

    /// Moves packets between the sockets and the device, at `micros` microseconds after boot. Gives
    /// back whether a socket may have changed.
    fn poll(&mut self, iface: &mut Interface, sockets: &mut SocketSet<'static>, micros: i64) -> (changed: bool)
        requires
            0 <= micros <= LATEST_MICROS,
        ensures
            addresses(*final(iface)) == addresses(*old(iface)),
            can_grow(*final(sockets)) == can_grow(*old(sockets)),
            after_poll(tcp_sockets(*old(sockets)), tcp_sockets(*final(sockets))),
    ;
}

/// One advance of the stack over a device: the device was told of it, and then packets were moved, each time at some time and
/// with some answer. The sockets are those that it began with, and those after the last time.
#[verifier::ext_equal]
pub struct Poll {
    pub times: Seq<i64>,
    pub answers: Seq<bool>,
    pub from: Map<SocketHandle, TcpInfo>,
    pub socks: Map<SocketHandle, TcpInfo>,
}

impl Poll {
    /// Packets were moved as often as they have to be, all at the time `micros`.
    pub open spec fn at(self, micros: i64) -> bool {
        self.times == Seq::new(NET_POLL_ITERS as nat, |i: int| micros) && self.answers.len() == NET_POLL_ITERS
    }

    /// Some time a socket may have changed.
    pub open spec fn changed(self) -> bool {
        exists|i: int| 0 <= i < self.answers.len() && #[trigger] self.answers[i]
    }
}

/// How often packets are moved each time the stack is advanced, so that a connection is made at once.
pub const NET_POLL_ITERS: usize = 5;

/// A device together with the record of what was done with it, in order.
pub struct Link<D> {
    device: D,
    log: Ghost<Seq<Poll>>,
}

impl<D> Link<D> {
    /// The advances of the stack so far.
    pub closed spec fn log(&self) -> Seq<Poll> {
        self.log@
    }

    /// The device behind the record.
    pub closed spec fn inner(&self) -> D {
        self.device
    }

    /// A device with which nothing was done yet.
    pub fn new(device: D) -> (r: Self)
        ensures
            r.log() == Seq::<Poll>::empty(),
            r.inner() == device,
    {
        Link { device, log: Ghost(Seq::empty()) }
    }

    /// The device itself.
    pub fn device(&self) -> (r: &D)
        ensures
            *r == self.inner(),
    {
        &self.device
    }
}

impl<D: PollDevice> Link<D> {
    /// Tells the device that packets will be moved, which begins an advance.
    pub fn pre_poll(&mut self)
        ensures
            final(self).log() == old(self).log().push(
                (Poll { times: Seq::empty(), answers: Seq::empty(), from: Map::empty(), socks: Map::empty() }),
            ),
    {
        self.device.pre_poll();
        proof {
            self.log@ = self.log@.push(Poll { times: Seq::empty(), answers: Seq::empty(), from: Map::empty(), socks: Map::empty() });
        }
    }

    /// Moves packets, in the advance that was begun.
    pub fn poll(&mut self, iface: &mut Interface, sockets: &mut SocketSet<'static>, micros: i64) -> (changed: bool)
        requires
            0 <= micros <= LATEST_MICROS,
            old(self).log().len() > 0,
        ensures
            addresses(*final(iface)) == addresses(*old(iface)),
            can_grow(*final(sockets)) == can_grow(*old(sockets)),
            after_poll(tcp_sockets(*old(sockets)), tcp_sockets(*final(sockets))),
            ({
                let p = old(self).log().last();
                final(self).log() == old(self).log().drop_last().push(
                    (Poll {
                        times: p.times.push(micros),
                        answers: p.answers.push(changed),
                        from: if p.times.len() == 0 { tcp_sockets(*old(sockets)) } else { p.from },
                        socks: tcp_sockets(*final(sockets)),
                    }),
                )
            }),
    {
        let changed = self.device.poll(iface, sockets, micros);
        proof {
            let p = self.log@.last();
            self.log@ = self.log@.drop_last().push(
                Poll {
                    times: p.times.push(micros),
                    answers: p.answers.push(changed),
                    from: if p.times.len() == 0 { tcp_sockets(*old(sockets)) } else { p.from },
                    socks: tcp_sockets(*sockets),
                },
            );
        }
        changed
    }
}

} // verus!
