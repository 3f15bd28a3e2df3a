//! Frames that come and go.

use vstd::prelude::*;

use super::words::{byte_at, same_but};
use crate::memory::access::Memory;
use crate::net::nic::{done, NicEvent, NicPort};
use crate::net::virtio::{frame_of, local_ip, payload, VirtioNetDevice};

verus! {

/// The four bytes from `at` up are an address of the guest: one of 127.0.0.0/8, or 10.0.2.15.
pub open spec fn of_the_guest(f: Seq<u8>, at: int) -> bool {
    f[at] == 127 || f[at] == 10 && f[at + 1] == 0 && f[at + 2] == 2 && f[at + 3] == 15
}

/// The first six bytes are those of `mac`.
pub open spec fn goes_to(f: Seq<u8>, mac: Seq<u8>) -> bool {
    forall|k: int| 0 <= k < 6 ==> f[k] == #[trigger] mac[k]
}

/// The first six bytes are all ones.
pub open spec fn goes_to_all(f: Seq<u8>) -> bool {
    forall|k: int| 0 <= k < 6 ==> #[trigger] f[k] == 0xff
}

proof fn lemma_of_the_guest(f: Seq<u8>, at: int)
    requires
        0 <= at,
        at + 4 <= f.len(),
    ensures
        local_ip(f.subrange(at, at + 4)) <==> of_the_guest(f, at),
{
    let ip = f.subrange(at, at + 4);
    assert(ip[0] == f[at] && ip[1] == f[at + 1] && ip[2] == f[at + 2] && ip[3] == f[at + 3]);
    let own = seq![10u8, 0u8, 2u8, 15u8];
    if of_the_guest(f, at) && f[at] != 127 {
        assert(ip =~= own);
    }
    if ip == own {
        assert(ip[0] == own[0] && ip[1] == own[1] && ip[2] == own[2] && ip[3] == own[3]);
    }
}

proof fn lemma_goes_to(f: Seq<u8>, mac: Seq<u8>)
    requires
        f.len() >= 6,
        mac.len() == 6,
    ensures
        f.take(6) == mac <==> goes_to(f, mac),
        f.take(6) == seq![0xffu8, 0xffu8, 0xffu8, 0xffu8, 0xffu8, 0xffu8] <==> goes_to_all(f),
{
    if goes_to(f, mac) {
        assert(f.take(6) =~= mac);
    }
    if f.take(6) == mac {
        assert forall|k: int| 0 <= k < 6 implies f[k] == #[trigger] mac[k] by {
            assert(f.take(6)[k] == f[k]);
        }
    }
    let ones = seq![0xffu8, 0xffu8, 0xffu8, 0xffu8, 0xffu8, 0xffu8];
    if goes_to_all(f) {
        assert(f.take(6) =~= ones);
    }
    if f.take(6) == ones {
        assert forall|k: int| 0 <= k < 6 implies #[trigger] f[k] == 0xff by {
            assert(f.take(6)[k] == f[k]);
            assert(ones[k] == 0xff);
        }
    }
}

/// A frame that is sent lies in the buffer of the card, behind twelve zeros, and the card is told of all of it; unless it is for the
/// guest itself: then the card is told nothing. The guest gets it back in either case.
pub proof fn law_frame_goes_to_the_card<P: NicPort, M: Memory>(d: &mut VirtioNetDevice<P>, dm: &mut M, frame: &[u8], r: bool)
    requires
        call_ensures(VirtioNetDevice::<P>::transmit_frame::<M>, (d, dm, frame), r),
        old(d).reaches(old(dm)),
        frame@.len() <= 2036,
    ensures
        ({
            let f = frame@;
            let at = old(d).tx_buf.0 as int;
            let a = old(d).nic.log();
            let b = final(d).nic.log();
            let n = a.len() as int;
            let ip = f[12] == 8 && f[13] == 0 && f.len() >= 34 && of_the_guest(f, 30);
            let arp = f[12] == 8 && f[13] == 6 && f.len() >= 42 && goes_to_all(f) && of_the_guest(f, 38);
            &&& forall|k: int| 0 <= k < 12 ==> #[trigger] byte_at(final(dm), at + k) == 0
            &&& forall|k: int| 0 <= k < f.len() ==> byte_at(final(dm), at + 12 + k) == #[trigger] f[k]
            &&& same_but(old(dm), final(dm), at, 12 + f.len() as int)
            &&& r <==> !(f.len() >= 14 && (goes_to(f, old(d).mac@) || ip || arp))
            &&& r ==> b.len() == n + 3 && b[n] == (NicEvent::SetDesc {
                queue: 1,
                head: old(d).tx_desc,
                addr: old(d).tx_buf.0,
                len: (12 + f.len()) as u32,
                flags: 0,
            }) && b[n + 1] == (NicEvent::Submit { queue: 1, head: old(d).tx_desc }) && b[n + 2] == (NicEvent::Write { reg: 0x050, value: 1 })
            &&& !r ==> b == a
            &&& final(d).loopback@.len() == old(d).loopback@.len() + 1
            &&& final(d).loopback@[old(d).loopback@.len() as int]@ == f
            &&& forall|i: int| 0 <= i < old(d).loopback@.len() ==> #[trigger] final(d).loopback@[i]@ == old(d).loopback@[i]@
        }),
{
    let f = frame@;
    let at = old(d).tx_buf.0 as int;
    let data = Seq::new(12, |i: int| 0u8) + f;
    assert forall|k: int| 0 <= k < data.len() implies final(dm).bytes()[at + k - final(dm).base()] == #[trigger] data[k] by {}
    assert forall|k: int| 0 <= k < 12 implies #[trigger] byte_at(final(dm), at + k) == 0 by {
        assert(data[k] == 0);
    }
    assert forall|k: int| 0 <= k < f.len() implies byte_at(final(dm), at + 12 + k) == #[trigger] f[k] by {
        assert(data[12 + k] == f[k]);
    }
    if f.len() >= 14 {
        lemma_goes_to(f, old(d).mac@);
        if f.len() >= 34 {
            lemma_of_the_guest(f, 30);
        }
        if f.len() >= 42 {
            lemma_of_the_guest(f, 38);
        }
    }
    let back = old(d).returning();
    let n = old(d).loopback@.len() as int;
    assert(final(d).returning() == back.push(f));
    assert(final(d).returning().len() == n + 1);
    assert(final(d).returning()[n] == f);
    assert forall|i: int| 0 <= i < n implies #[trigger] final(d).loopback@[i]@ == old(d).loopback@[i]@ by {
        assert(final(d).returning()[i] == back[i]);
    }
}

/// A frame that the guest sent itself comes first, and the oldest of them before the others.
pub proof fn law_own_frames_come_first<P: NicPort, M: Memory>(d: &mut VirtioNetDevice<P>, dm: &M, r: Option<Vec<u8>>)
    requires
        call_ensures(VirtioNetDevice::<P>::receive_frame::<M>, (d, dm), r),
        old(d).loopback@.len() > 0,
    ensures
        r matches Some(f) && f@ == old(d).loopback@[0]@,
        final(d).loopback@.len() == old(d).loopback@.len() - 1,
        forall|i: int| 0 <= i < final(d).loopback@.len() ==> #[trigger] final(d).loopback@[i]@ == old(d).loopback@[i + 1]@,
        final(d).nic.log() == old(d).nic.log(),
{
    let back = old(d).returning();
    assert(back[0] == old(d).loopback@[0]@);
    assert(frame_of(r) == Some(back[0]));
    assert(final(d).returning() == back.skip(1));
    assert(final(d).returning().len() == back.len() - 1);
    assert forall|i: int| 0 <= i < final(d).loopback@.len() implies #[trigger] final(d).loopback@[i]@ == old(d).loopback@[i + 1]@ by {
        assert(final(d).returning()[i] == back[i + 1]);
    }
}

/// A frame that the card has put into one of its buffers is what stands there behind the header, and the card gets the buffer back.
pub proof fn law_frame_comes_from_the_card<P: NicPort, M: Memory>(d: &mut VirtioNetDevice<P>, dm: &M, r: Option<Vec<u8>>)
    requires
        call_ensures(VirtioNetDevice::<P>::receive_frame::<M>, (d, dm), r),
        old(d).reaches(dm),
        old(d).loopback@.len() == 0,
    ensures
        ({
            let a = old(d).nic.log();
            let b = final(d).nic.log();
            let n = a.len() as int;
            &&& final(d).loopback@.len() == 0
            &&& b.len() > n
            &&& b[n] matches NicEvent::Complete { queue, reply } && queue == 0 && {
                &&& reply is None ==> r is None && b.len() == n + 1
                &&& r matches Some(f) ==> {
                    &&& reply is Some
                    &&& b.len() == n + 2
                    &&& b[n + 1] == (NicEvent::Submit { queue: 0, head: (reply->0.id % 0x1_0000) as u16 })
                    &&& exists|i: int| #[trigger] holds_frame(dm, *old(d), i, reply->0.len, f@) && old(d).rx_desc@[i] == reply->0.id % 0x1_0000
                }
                &&& reply is Some && old(d).rx_desc@.contains((reply->0.id % 0x1_0000) as u16) ==> r is Some
            }
        }),
{
    let a = old(d).nic.log();
    let b = final(d).nic.log();
    let n = a.len() as int;
    let t = done(a, b);
    assert(old(d).returning().len() == 0);
    assert(final(d).returning().len() == 0);
    assert(t.len() == b.len() - n);
    assert(t[0] == b[n]);
    if t.len() == 2 {
        assert(t[1] == b[n + 1]);
    }
    if let NicEvent::Complete { queue: 0, reply: Some(e) } = t[0] {
        if let Some(f) = r {
            let id = (e.id % 0x1_0000) as u16;
            assert(frame_of(r) == Some(f@));
            let i = choose|i: int| #[trigger] crate::net::virtio::entry_of(old(d).rx_desc@, id, i) && frame_of(r) == Some(payload(dm, old(d).rx_pool.0, i, e.len));
            assert(f@ == payload(dm, old(d).rx_pool.0, i, e.len));
            assert(holds_frame(dm, *old(d), i, e.len, f@));
        }
    }
}

/// Buffer `i` of the card, of which it filled `len` bytes, holds the frame behind a header of twelve bytes.
pub open spec fn holds_frame<P: NicPort, M: Memory>(dm: &M, d: VirtioNetDevice<P>, i: int, len: u32, f: Seq<u8>) -> bool {
    let full = if len <= 2048 { len as int } else { 2048 };
    &&& 0 <= i < d.rx_desc@.len()
    &&& f.len() == (if full >= 12 { full - 12 } else { 0 })
    &&& forall|k: int| 0 <= k < f.len() ==> byte_at(dm, d.rx_pool.0 + 2048 * i + 12 + k) == #[trigger] f[k]
}

} // verus!
