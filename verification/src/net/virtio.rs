//! The virtio network card: bringing it up, and moving frames through its queues.

use std::collections::VecDeque;
use vstd::prelude::*;

use super::nic::{done, keeps_log, lemma_log_trans, Nic, NicEvent, NicPort, QueueAddrs, UsedElem};
use crate::address::PhysicalAddr;
use crate::memory::access::{
    byte, encode_u32, fill, le32, lemma_wrote_framed, range, reachable, read_bytes, same_window, stored, within,
    write_bytes, wrote, Memory,
};
use crate::memory::allocators::kmalloc::{
    allocated, in_used_pages, keeps, law_user_writes_keep_heap, lemma_keeps_trans, natural_alignment, Block,
    KernelAllocator, HEADER_SIZE,
};
use crate::memory::allocators::palloc::{PageAllocator, peak_grows};
use crate::memory::errors::Result;

verus! {

broadcast use {vstd::std_specs::vecdeque::group_vec_dequeue_axioms, super::nic::group_nic_log, crate::memory::allocators::palloc::group_peak};

/// Buffers for frames that come in.
pub const RX_COUNT: usize = 64;

pub const RX_BUF_SIZE: u64 = 2048;

pub const TX_BUF_SIZE: u64 = 2048;

/// Size of the header before each frame, which is all zeros on the way out.
pub const VIRTIO_NET_HDR_LEN: u64 = 12;

/// Size of the header of a frame.
pub const ETH_HDR_LEN: usize = 14;

/// Where the address is that a packet goes to.
pub const IPV4_DST_OFF: usize = 30;

/// Where the address is that is asked for.
pub const ARP_TARGET_PROTO_OFF: usize = 38;

/// First byte of the addresses of the loopback network.
pub const LOOPBACK_NET: u8 = 127;

/// Entries of each queue.
pub const QUEUE_SIZE: u32 = 128;

pub const VIRTIO_MMIO_MAGIC: u32 = 0x000;

pub const VIRTIO_MMIO_VERSION: u32 = 0x004;

pub const VIRTIO_MMIO_DEVICE_ID: u32 = 0x008;

pub const VIRTIO_MMIO_DEVICE_FEATURES: u32 = 0x010;

pub const VIRTIO_MMIO_DEVICE_FEATURES_SEL: u32 = 0x014;

pub const VIRTIO_MMIO_DRIVER_FEATURES: u32 = 0x020;

pub const VIRTIO_MMIO_DRIVER_FEATURES_SEL: u32 = 0x024;

pub const VIRTIO_MMIO_QUEUE_SEL: u32 = 0x030;

pub const VIRTIO_MMIO_QUEUE_NUM_MAX: u32 = 0x034;

pub const VIRTIO_MMIO_QUEUE_NUM: u32 = 0x038;

pub const VIRTIO_MMIO_QUEUE_READY: u32 = 0x044;

pub const VIRTIO_MMIO_QUEUE_NOTIFY: u32 = 0x050;

pub const VIRTIO_MMIO_STATUS: u32 = 0x070;

pub const VIRTIO_MMIO_QUEUE_DESC_LOW: u32 = 0x080;

pub const VIRTIO_MMIO_QUEUE_DESC_HIGH: u32 = 0x084;

pub const VIRTIO_MMIO_QUEUE_AVAIL_LOW: u32 = 0x090;

pub const VIRTIO_MMIO_QUEUE_AVAIL_HIGH: u32 = 0x094;

pub const VIRTIO_MMIO_QUEUE_USED_LOW: u32 = 0x0a0;

pub const VIRTIO_MMIO_QUEUE_USED_HIGH: u32 = 0x0a4;

pub const VIRTIO_MMIO_CONFIG: u32 = 0x100;

pub const VIRTIO_MMIO_MAGIC_VALUE: u32 = 0x7472_6976;

pub const VIRTIO_DEVICE_NET: u32 = 1;

/// What the driver tells of itself in the status register: it has seen the card.
pub const STATUS_SEEN: u32 = 1;

/// It knows how to drive the card.
pub const STATUS_DRIVER: u32 = 3;

/// The features are agreed on.
pub const STATUS_AGREED: u32 = 11;

/// All is set up.
pub const STATUS_READY: u32 = 15;

/// The bit by which the card agrees to the features.
pub const FEATURES_OK: u32 = 8;

/// The lower half of the features that the driver takes: the card tells its address.
pub const FEATURES_LOW: u32 = 0x20;

/// The upper half: the card speaks the first standard version.
pub const FEATURES_HIGH: u32 = 1;

/// A buffer that the card writes to.
pub const VIRTQ_DESC_F_WRITE: u16 = 2;

/// A register to read, or to write.
pub enum Step {
    Read(u32),
    Write(u32, u32),
}

/// The step was taken, whatever was read.
pub open spec fn taken(ev: NicEvent, s: Step) -> bool {
    match s {
        Step::Read(reg) => ev matches NicEvent::Read { reg: r, .. } && r == reg,
        Step::Write(reg, value) => ev == (NicEvent::Write { reg, value }),
    }
}

/// The first `n` of the steps were taken.
pub open spec fn follows(t: Seq<NicEvent>, steps: Seq<Step>, n: int) -> bool {
    n <= t.len() && n <= steps.len() && forall|i: int| 0 <= i < n ==> taken(#[trigger] t[i], steps[i])
}

/// What was read in step `i`.
pub open spec fn got(t: Seq<NicEvent>, i: int) -> u32 {
    match t[i] {
        NicEvent::Read { value, .. } => value,
        _ => 0,
    }
}

/// How the driver and the card agree on features.
pub open spec fn handshake_steps() -> Seq<Step> {
    seq![
        Step::Read(VIRTIO_MMIO_MAGIC),
        Step::Read(VIRTIO_MMIO_VERSION),
        Step::Read(VIRTIO_MMIO_DEVICE_ID),
        Step::Write(VIRTIO_MMIO_STATUS, 0),
        Step::Write(VIRTIO_MMIO_STATUS, STATUS_SEEN),
        Step::Write(VIRTIO_MMIO_STATUS, STATUS_DRIVER),
        Step::Write(VIRTIO_MMIO_DEVICE_FEATURES_SEL, 0),
        Step::Read(VIRTIO_MMIO_DEVICE_FEATURES),
        Step::Write(VIRTIO_MMIO_DEVICE_FEATURES_SEL, 1),
        Step::Read(VIRTIO_MMIO_DEVICE_FEATURES),
        Step::Write(VIRTIO_MMIO_DRIVER_FEATURES_SEL, 0),
        Step::Write(VIRTIO_MMIO_DRIVER_FEATURES, FEATURES_LOW),
        Step::Write(VIRTIO_MMIO_DRIVER_FEATURES_SEL, 1),
        Step::Write(VIRTIO_MMIO_DRIVER_FEATURES, FEATURES_HIGH),
        Step::Write(VIRTIO_MMIO_STATUS, STATUS_AGREED),
        Step::Read(VIRTIO_MMIO_STATUS),
    ]
}

/// How many of these steps are taken: they end when it is not the right card, or it lacks a feature.
pub open spec fn handshake_len(t: Seq<NicEvent>) -> int {
    if got(t, 0) != VIRTIO_MMIO_MAGIC_VALUE {
        1
    } else if got(t, 1) != 2 {
        2
    } else if got(t, 2) != VIRTIO_DEVICE_NET {
        3
    } else if got(t, 9) & FEATURES_HIGH == 0 || got(t, 7) & FEATURES_LOW == 0 {
        10
    } else {
        16
    }
}

/// The card is the right one, and agrees.
pub open spec fn agreed(t: Seq<NicEvent>) -> bool {
    handshake_len(t) == 16 && got(t, 15) & FEATURES_OK != 0
}

/// Agrees with the card on features. Gives back whether it is the right one and does.
fn handshake<P: NicPort>(nic: &mut Nic<P>) -> (r: bool)
    ensures
        keeps_log(old(nic).log(), final(nic).log()),
        ({
            let t = done(old(nic).log(), final(nic).log());
            t.len() == handshake_len(t) && follows(t, handshake_steps(), t.len() as int) && r == agreed(t)
        }),
{
    assert(keeps_log(old(nic).log(), nic.log()));
    if nic.read32(VIRTIO_MMIO_MAGIC) != VIRTIO_MMIO_MAGIC_VALUE {
        return false;
    }
    if nic.read32(VIRTIO_MMIO_VERSION) != 2 {
        return false;
    }
    if nic.read32(VIRTIO_MMIO_DEVICE_ID) != VIRTIO_DEVICE_NET {
        return false;
    }
    nic.write32(VIRTIO_MMIO_STATUS, 0);
    nic.write32(VIRTIO_MMIO_STATUS, STATUS_SEEN);
    nic.write32(VIRTIO_MMIO_STATUS, STATUS_DRIVER);
    nic.write32(VIRTIO_MMIO_DEVICE_FEATURES_SEL, 0);
    let low = nic.read32(VIRTIO_MMIO_DEVICE_FEATURES);
    nic.write32(VIRTIO_MMIO_DEVICE_FEATURES_SEL, 1);
    let high = nic.read32(VIRTIO_MMIO_DEVICE_FEATURES);
    if high & FEATURES_HIGH == 0 || low & FEATURES_LOW == 0 {
        return false;
    }
    nic.write32(VIRTIO_MMIO_DRIVER_FEATURES_SEL, 0);
    nic.write32(VIRTIO_MMIO_DRIVER_FEATURES, FEATURES_LOW);
    nic.write32(VIRTIO_MMIO_DRIVER_FEATURES_SEL, 1);
    nic.write32(VIRTIO_MMIO_DRIVER_FEATURES, FEATURES_HIGH);
    nic.write32(VIRTIO_MMIO_STATUS, STATUS_AGREED);
    nic.read32(VIRTIO_MMIO_STATUS) & FEATURES_OK != 0
}

/// The lower and the upper half of an address.
pub open spec fn low_half(a: u64) -> u32 {
    (a % 0x1_0000_0000) as u32
}

pub open spec fn high_half(a: u64) -> u32 {
    (a / 0x1_0000_0000) as u32
}

/// How the card is told of a queue.
pub open spec fn queue_steps(queue: u32, q: QueueAddrs) -> Seq<Step> {
    seq![
        Step::Write(VIRTIO_MMIO_QUEUE_SEL, queue),
        Step::Read(VIRTIO_MMIO_QUEUE_NUM_MAX),
        Step::Write(VIRTIO_MMIO_QUEUE_NUM, QUEUE_SIZE),
        Step::Write(VIRTIO_MMIO_QUEUE_DESC_LOW, low_half(q.desc)),
        Step::Write(VIRTIO_MMIO_QUEUE_DESC_HIGH, high_half(q.desc)),
        Step::Write(VIRTIO_MMIO_QUEUE_AVAIL_LOW, low_half(q.avail)),
        Step::Write(VIRTIO_MMIO_QUEUE_AVAIL_HIGH, high_half(q.avail)),
        Step::Write(VIRTIO_MMIO_QUEUE_USED_LOW, low_half(q.used)),
        Step::Write(VIRTIO_MMIO_QUEUE_USED_HIGH, high_half(q.used)),
        Step::Write(VIRTIO_MMIO_QUEUE_READY, 1),
    ]
}

/// How much is done to set up a queue: its memory is made, then the card is told of it, unless it takes too few entries.
pub open spec fn queue_len(t: Seq<NicEvent>) -> int {
    match t[0] {
        NicEvent::NewQueue { reply: Some(_), .. } => if got(t, 2) < QUEUE_SIZE { 3 } else { 11 },
        _ => 1,
    }
}

/// The record begins with setting up a queue.
pub open spec fn sets_up(queue: u32, t: Seq<NicEvent>) -> bool {
    &&& t.len() >= queue_len(t)
    &&& t.len() > 0
    &&& t[0] matches NicEvent::NewQueue { queue: n, reply } && n == queue && (reply matches Some(q) ==> follows(
        t.skip(1),
        queue_steps(queue, q),
        queue_len(t) - 1,
    ))
}

/// Sets up a queue.
fn setup_queue<P: NicPort>(nic: &mut Nic<P>, queue: u32) -> (r: bool)
    ensures
        keeps_log(old(nic).log(), final(nic).log()),
        ({
            let t = done(old(nic).log(), final(nic).log());
            sets_up(queue, t) && t.len() == queue_len(t) && r == (queue_len(t) == 11)
        }),
{
    assert(keeps_log(old(nic).log(), nic.log()));
    let q = match nic.new_queue(queue) {
        Some(q) => q,
        None => {
            return false;
        },
    };
    let ghost log1 = nic.log();
    assert(keeps_log(log1, nic.log()));
    nic.write32(VIRTIO_MMIO_QUEUE_SEL, queue);
    if nic.read32(VIRTIO_MMIO_QUEUE_NUM_MAX) < QUEUE_SIZE {
        proof {
            lemma_log_trans(old(nic).log(), log1, nic.log());
        }
        return false;
    }
    nic.write32(VIRTIO_MMIO_QUEUE_NUM, QUEUE_SIZE);
    nic.write32(VIRTIO_MMIO_QUEUE_DESC_LOW, (q.desc % 0x1_0000_0000) as u32);
    nic.write32(VIRTIO_MMIO_QUEUE_DESC_HIGH, (q.desc / 0x1_0000_0000) as u32);
    nic.write32(VIRTIO_MMIO_QUEUE_AVAIL_LOW, (q.avail % 0x1_0000_0000) as u32);
    nic.write32(VIRTIO_MMIO_QUEUE_AVAIL_HIGH, (q.avail / 0x1_0000_0000) as u32);
    nic.write32(VIRTIO_MMIO_QUEUE_USED_LOW, (q.used % 0x1_0000_0000) as u32);
    nic.write32(VIRTIO_MMIO_QUEUE_USED_HIGH, (q.used / 0x1_0000_0000) as u32);
    nic.write32(VIRTIO_MMIO_QUEUE_READY, 1);
    proof {
        lemma_log_trans(old(nic).log(), log1, nic.log());
    }
    true
}

/// The record begins with handing the card a buffer for each of the entries.
pub open spec fn posts(t: Seq<NicEvent>, pool: u64, heads: Seq<u16>) -> bool {
    &&& t.len() >= 3 * heads.len()
    &&& forall|i: int|
        0 <= i < heads.len() ==> {
            &&& t[3 * i] == (NicEvent::AllocDesc { queue: 0, reply: Some(#[trigger] heads[i]) })
            &&& t[3 * i + 1] == (NicEvent::SetDesc {
                queue: 0,
                head: heads[i],
                addr: (pool + RX_BUF_SIZE * i) as u64,
                len: RX_BUF_SIZE as u32,
                flags: VIRTQ_DESC_F_WRITE,
            })
            &&& t[3 * i + 2] == (NicEvent::Submit { queue: 0, head: heads[i] })
        }
}

/// Hands the card the buffers for frames that come in.
fn post_buffers<P: NicPort>(nic: &mut Nic<P>, pool: PhysicalAddr) -> (r: Option<Vec<u16>>)
    requires
        pool.0 + RX_BUF_SIZE * RX_COUNT <= u64::MAX,
    ensures
        keeps_log(old(nic).log(), final(nic).log()),
        ({
            let t = done(old(nic).log(), final(nic).log());
            match r {
                Some(heads) => heads@.len() == RX_COUNT && t.len() == 3 * RX_COUNT && posts(t, pool.0, heads@),
                None => runs_out(t, pool.0),
            }
        }),
{
    assert(keeps_log(old(nic).log(), nic.log()));
    let mut heads: Vec<u16> = Vec::new();
    let mut i: usize = 0;
    while i < RX_COUNT
        invariant
            i <= RX_COUNT,
            pool.0 + RX_BUF_SIZE * RX_COUNT <= u64::MAX,
            heads@.len() == i,
            keeps_log(old(nic).log(), nic.log()),
            done(old(nic).log(), nic.log()).len() == 3 * i,
            posts(done(old(nic).log(), nic.log()), pool.0, heads@),
        decreases RX_COUNT - i,
    {
        let ghost t = done(old(nic).log(), nic.log());
        let head = match nic.alloc_desc(0) {
            Some(h) => h,
            None => {
                proof {
                    let u = done(old(nic).log(), nic.log());
                    assert(u == t.push(NicEvent::AllocDesc { queue: 0, reply: None }));
                    assert(posts(u, pool.0, heads@));
                    assert(u[3 * heads@.len() as int] == (NicEvent::AllocDesc { queue: 0, reply: None }));
                }
                return None;
            },
        };
        let addr: u64 = pool.as_u64() + RX_BUF_SIZE * i as u64;
        nic.set_desc(0, head, addr, RX_BUF_SIZE as u32, VIRTQ_DESC_F_WRITE);
        nic.submit(0, head);
        let ghost before = heads@;
        heads.push(head);
        proof {
            let u = done(old(nic).log(), nic.log());
            assert(u.len() == t.len() + 3);
            assert forall|k: int| 0 <= k < heads@.len() implies {
                &&& u[3 * k] == (NicEvent::AllocDesc { queue: 0, reply: Some(#[trigger] heads@[k]) })
                &&& u[3 * k + 1] == (NicEvent::SetDesc {
                    queue: 0,
                    head: heads@[k],
                    addr: (pool.0 + RX_BUF_SIZE * k) as u64,
                    len: RX_BUF_SIZE as u32,
                    flags: VIRTQ_DESC_F_WRITE,
                })
                &&& u[3 * k + 2] == (NicEvent::Submit { queue: 0, head: heads@[k] })
            } by {
                if k < before.len() {
                    assert(heads@[k] == before[k]);
                    assert(u[3 * k] == t[3 * k] && u[3 * k + 1] == t[3 * k + 1] && u[3 * k + 2] == t[3 * k + 2]);
                }
            }
        }
        i += 1;
    }
    Some(heads)
}

/// There is no entry for some buffer.
pub open spec fn runs_out(t: Seq<NicEvent>, pool: u64) -> bool {
    exists|heads: Seq<u16>| #[trigger]
        posts(t, pool, heads) && heads.len() < RX_COUNT && t.len() == 3 * heads.len() + 1 && t[3 * heads.len() as int]
            == (NicEvent::AllocDesc { queue: 0, reply: None })
}

/// The card, ready for use.
pub struct VirtioNetDevice<P: NicPort> {
    pub nic: Nic<P>,
    pub rx_desc: Vec<u16>,
    pub rx_pool: PhysicalAddr,
    pub tx_desc: u16,
    pub tx_buf: PhysicalAddr,
    pub mac: [u8; 6],
    /// Frames that were sent, which come back first: those to the guest itself are never received otherwise, and the
    /// stack drops the others.
    pub loopback: VecDeque<Vec<u8>>,
}

/// What was found out when the card was brought up.
#[verifier::ext_equal]
pub struct Found {
    pub rx_desc: Seq<u16>,
    pub rx_pool: u64,
    pub tx_desc: u16,
    pub tx_buf: u64,
    pub mac: Seq<u8>,
}

impl<P: NicPort> VirtioNetDevice<P> {
    pub open spec fn found(&self) -> Found {
        Found {
            rx_desc: self.rx_desc@,
            rx_pool: self.rx_pool.0,
            tx_desc: self.tx_desc,
            tx_buf: self.tx_buf.0,
            mac: self.mac@,
        }
    }

    /// The frames that come back.
    pub open spec fn returning(&self) -> Seq<Seq<u8>> {
        Seq::new(self.loopback@.len(), |i: int| self.loopback@[i]@)
    }

    /// The buffers of the card can be read and written.
    pub open spec fn reaches<M: Memory>(&self, dm: &M) -> bool {
        &&& self.rx_desc@.len() == RX_COUNT
        &&& within(dm, self.rx_pool.0 as int, RX_BUF_SIZE * RX_COUNT)
        &&& self.rx_pool.0 + RX_BUF_SIZE * RX_COUNT <= u64::MAX
        &&& within(dm, self.tx_buf.0 as int, TX_BUF_SIZE as int)
        &&& self.tx_buf.0 + TX_BUF_SIZE <= u64::MAX
    }
}

/// The end of bringing up the card: an entry for sending is taken, the card is told that all is set up, and its address is read.
pub open spec fn finished(t: Seq<NicEvent>, f: Found) -> bool {
    &&& t.len() == 4
    &&& t[0] == (NicEvent::AllocDesc { queue: 1, reply: Some(f.tx_desc) })
    &&& t[1] == (NicEvent::Write { reg: VIRTIO_MMIO_STATUS, value: STATUS_READY })
    &&& taken(t[2], Step::Read(VIRTIO_MMIO_CONFIG))
    &&& taken(t[3], Step::Read((VIRTIO_MMIO_CONFIG + 4) as u32))
    &&& f.mac == le32(got(t, 2)) + le32(got(t, 3)).take(2)
}

/// What is done with the card once its queues are set up and there is memory for the buffers.
pub open spec fn filled(t: Seq<NicEvent>, pool: u64, buf: u64, r: Option<Found>) -> bool {
    match r {
        Some(f) => f.rx_pool == pool && f.tx_buf == buf && f.rx_desc.len() == RX_COUNT && posts(t, pool, f.rx_desc) && finished(
            t.skip(3 * RX_COUNT as int),
            f,
        ),
        None => runs_out(t, pool) || exists|heads: Seq<u16>| #[trigger]
            posts(t, pool, heads) && heads.len() == RX_COUNT && t.len() == 3 * RX_COUNT + 1 && t[3 * RX_COUNT as int]
                == (NicEvent::AllocDesc { queue: 1, reply: None }),
    }
}

/// What is done with the card to bring it up, given where there is memory for the buffers, and what comes of it.
pub open spec fn brought_up(t: Seq<NicEvent>, buffers: Option<(u64, u64)>, r: Option<Found>) -> bool {
    follows(t, handshake_steps(), handshake_len(t)) && if !agreed(t) {
        t.len() == handshake_len(t) && r is None
    } else {
        let rx = t.skip(16);
        sets_up(0, rx) && if queue_len(rx) < 11 {
            rx.len() == queue_len(rx) && r is None
        } else {
            let tx = rx.skip(11);
            sets_up(1, tx) && if queue_len(tx) < 11 {
                tx.len() == queue_len(tx) && r is None
            } else {
                match buffers {
                    None => tx.len() == 11 && r is None,
                    Some((pool, buf)) => filled(tx.skip(11), pool, buf, r),
                }
            }
        }
    }
}

/// What there is of a device.
pub open spec fn found_of<P: NicPort>(r: core::result::Result<VirtioNetDevice<P>, Nic<P>>) -> Option<Found> {
    match r {
        Ok(d) => Some(d.found()),
        Err(_) => None,
    }
}

/// What was done with the card, in the end.
pub open spec fn log_of<P: NicPort>(r: core::result::Result<VirtioNetDevice<P>, Nic<P>>) -> Seq<NicEvent> {
    match r {
        Ok(d) => d.nic.log(),
        Err(nic) => nic.log(),
    }
}

/// The card is ready for its buffers: memory for them is asked for.
pub open spec fn asks_memory(t: Seq<NicEvent>) -> bool {
    agreed(t) && queue_len(t.skip(16)) == 11 && queue_len(t.skip(27)) == 11
}

/// The heap after the buffers were asked for, and where they are, if there was memory for both.
pub open spec fn buffers_made(
    before: KernelAllocator,
    after: KernelAllocator,
    used: Seq<bool>,
    used_after: Seq<bool>,
    buffers: Option<(u64, u64)>,
) -> bool {
    let pool_size = RX_BUF_SIZE * RX_COUNT;
    exists|mid: KernelAllocator, used_mid: Seq<bool>, pool: Result<PhysicalAddr>| #[trigger]
        allocated(before, mid, used, used_mid, pool_size, natural_alignment(pool_size), pool) && match pool {
            Err(_) => buffers is None && after == mid && used_after == used_mid,
            Ok(p) => exists|buf: Result<PhysicalAddr>| #[trigger]
                allocated(
                    mid,
                    after,
                    used_mid,
                    used_after,
                    TX_BUF_SIZE as int,
                    natural_alignment(TX_BUF_SIZE as int),
                    buf,
                ) && match buf {
                    Ok(b) => buffers == Some((p.0, b.0)),
                    Err(_) => buffers is None,
                },
        }
}

/// Asks the heap for the buffers.
fn make_buffers<M: Memory>(heap: &mut KernelAllocator, palloc: &mut PageAllocator, dm: &mut M) -> (r: Option<
    (PhysicalAddr, PhysicalAddr),
>)
    requires
        old(palloc).wf(),
        old(heap).wf(old(palloc)@, old(dm)),
    ensures
        peak_grows(old(palloc)@, old(palloc).peak(), final(palloc)@, final(palloc).peak()),
        final(palloc).wf(),
        final(heap).wf(final(palloc)@, final(dm)),
        same_window(old(dm), final(dm)),
        keeps(old(dm), final(dm), old(heap).live()),
        buffers_made(
            *old(heap),
            *final(heap),
            old(palloc)@,
            final(palloc)@,
            match r {
                Some((pool, buf)) => Some((pool.0, buf.0)),
                None => None,
            },
        ),
        r matches Some((pool, buf)) ==> {
            &&& final(heap).live().contains_key(pool.0 - HEADER_SIZE)
            &&& final(heap).live()[pool.0 - HEADER_SIZE] >= RX_BUF_SIZE * RX_COUNT + HEADER_SIZE
            &&& final(heap).live().contains_key(buf.0 - HEADER_SIZE)
            &&& final(heap).live()[buf.0 - HEADER_SIZE] >= TX_BUF_SIZE + HEADER_SIZE
        },
{
    let pool = match heap.calloc(palloc, dm, RX_BUF_SIZE * RX_COUNT as u64) {
        Ok(p) => p,
        Err(_) => {
            return None;
        },
    };
    let ghost mid = *heap;
    let ghost dm1 = *dm;
    let buf = heap.calloc(palloc, dm, TX_BUF_SIZE);
    proof {
        assert(keeps(&dm1, dm, old(heap).live())) by {
            assert forall|s: int, a: int|
                old(heap).live().contains_key(s) && s <= a < s + #[trigger] old(heap).live()[s] implies #[trigger] byte(dm, a)
                == byte(&dm1, a) by {
                assert(mid.live().contains_key(s) && mid.live()[s] == old(heap).live()[s]);
            }
        }
        lemma_keeps_trans(old(dm), &dm1, dm, old(heap).live());
    }
    match buf {
        Ok(b) => Some((pool, b)),
        Err(_) => None,
    }
}

/// A live allocation can be read and written.
proof fn lemma_live_reached<M: Memory>(heap: KernelAllocator, used: Seq<bool>, dm: &M, addr: u64, size: int)
    requires
        heap.wf(used, dm),
        heap.live().contains_key(addr - HEADER_SIZE),
        heap.live()[addr - HEADER_SIZE] >= size + HEADER_SIZE,
        0 <= size,
    ensures
        reachable(dm, addr, size),
{
    let s = addr - HEADER_SIZE;
    assert(in_used_pages(used, Block { start: s, size: heap.live()[s] }));
    assert(within(dm, s, heap.live()[s]));
}

impl<P: NicPort> VirtioNetDevice<P> {
    /// What bringing up the card does to the heap and to the card, and what comes of it.
    pub open spec fn initialized(
        log: Seq<NicEvent>,
        heap: KernelAllocator,
        heap_after: KernelAllocator,
        used: Seq<bool>,
        used_after: Seq<bool>,
        r: core::result::Result<Self, Nic<P>>,
    ) -> bool {
        let t = done(log, log_of(r));
        &&& keeps_log(log, log_of(r))
        &&& r matches Ok(d) ==> d.loopback@ == Seq::<Vec<u8>>::empty()
        &&& exists|buffers: Option<(u64, u64)>| #[trigger]
            brought_up(t, buffers, found_of(r)) && if asks_memory(t) {
                buffers_made(heap, heap_after, used, used_after, buffers)
            } else {
                heap_after == heap && used_after == used
            }
    }

    /// Brings up the card, or gives it back where it is not there, is another one or does not agree, or where there is no memory
    /// for its buffers.
    #[verifier::spinoff_prover]
    #[verifier::rlimit(40)]
    pub fn init<M: Memory>(nic: Nic<P>, heap: &mut KernelAllocator, palloc: &mut PageAllocator, dm: &mut M) -> (r:
        core::result::Result<Self, Nic<P>>)
        requires
            old(palloc).wf(),
            old(heap).wf(old(palloc)@, old(dm)),
        ensures
            peak_grows(old(palloc)@, old(palloc).peak(), final(palloc)@, final(palloc).peak()),
            final(palloc).wf(),
            final(heap).wf(final(palloc)@, final(dm)),
            same_window(old(dm), final(dm)),
            keeps(old(dm), final(dm), old(heap).live()),
            Self::initialized(nic.log(), *old(heap), *final(heap), old(palloc)@, final(palloc)@, r),
            r matches Ok(d) ==> d.reaches(final(dm)) && d.owns(*final(heap)),
    {
        let mut nic = nic;
        let ghost log0 = nic.log();
        if !negotiate(&mut nic) {
            let r: core::result::Result<Self, Nic<P>> = Err(nic);
            proof {
                assert(brought_up(done(log0, log_of(r)), None, found_of(r)));
                assert(Self::initialized(log0, *heap, *heap, palloc@, palloc@, r));
            }
            return r;
        }
        let ghost log1 = nic.log();
        let (rx_pool, tx_buf) = match make_buffers(heap, palloc, dm) {
            Some(b) => b,
            None => {
                let r: core::result::Result<Self, Nic<P>> = Err(nic);
                proof {
                    lemma_ready(log0, log1, log1);
                    assert(brought_up(done(log0, log_of(r)), None, found_of(r)));
                    assert(Self::initialized(log0, *old(heap), *heap, old(palloc)@, palloc@, r));
                }
                return r;
            },
        };
        proof {
            lemma_live_reached(*heap, palloc@, dm, rx_pool.0, RX_BUF_SIZE * RX_COUNT);
            lemma_live_reached(*heap, palloc@, dm, tx_buf.0, TX_BUF_SIZE as int);
        }
        let ghost buffers = Some((rx_pool.0, tx_buf.0));
        match finish(&mut nic, rx_pool, tx_buf) {
            None => {
                let r: core::result::Result<Self, Nic<P>> = Err(nic);
                proof {
                    lemma_ready(log0, log1, log_of(r));
                    assert(brought_up(done(log0, log_of(r)), buffers, found_of(r)));
                    assert(Self::initialized(log0, *old(heap), *heap, old(palloc)@, palloc@, r));
                }
                r
            },
            Some((rx_desc, tx_desc, mac)) => {
                let d = VirtioNetDevice { nic, rx_desc, rx_pool, tx_desc, tx_buf, mac, loopback: VecDeque::new() };
                let ghost f = d.found();
                let r: core::result::Result<Self, Nic<P>> = Ok(d);
                proof {
                    lemma_ready(log0, log1, log_of(r));
                    assert(found_of(r) == Some(f));
                    assert(brought_up(done(log0, log_of(r)), buffers, found_of(r)));
                    assert(Self::initialized(log0, *old(heap), *heap, old(palloc)@, palloc@, r));
                }
                r
            },
        }
    }

    /// The buffers of the card are the card's alone: they are live allocations.
    pub open spec fn owns(&self, heap: KernelAllocator) -> bool {
        &&& heap.live().contains_key(self.rx_pool.0 - HEADER_SIZE)
        &&& heap.live()[self.rx_pool.0 - HEADER_SIZE] >= RX_BUF_SIZE * RX_COUNT + HEADER_SIZE
        &&& heap.live().contains_key(self.tx_buf.0 - HEADER_SIZE)
        &&& heap.live()[self.tx_buf.0 - HEADER_SIZE] >= TX_BUF_SIZE + HEADER_SIZE
    }
}

/// A record that begins with handing over buffers still does when more is done.
proof fn lemma_posts_longer(t: Seq<NicEvent>, u: Seq<NicEvent>, pool: u64, heads: Seq<u16>)
    requires
        posts(t, pool, heads),
        t.len() <= u.len(),
        u.take(t.len() as int) == t,
    ensures
        posts(u, pool, heads),
{
    assert forall|i: int| 0 <= i < t.len() implies u[i] == #[trigger] t[i] by {
        assert(u.take(t.len() as int)[i] == u[i]);
    }
    assert forall|i: int| 0 <= i < heads.len() implies {
        &&& u[3 * i] == (NicEvent::AllocDesc { queue: 0, reply: Some(#[trigger] heads[i]) })
        &&& u[3 * i + 1] == (NicEvent::SetDesc {
            queue: 0,
            head: heads[i],
            addr: (pool + RX_BUF_SIZE * i) as u64,
            len: RX_BUF_SIZE as u32,
            flags: VIRTQ_DESC_F_WRITE,
        })
        &&& u[3 * i + 2] == (NicEvent::Submit { queue: 0, head: heads[i] })
    } by {
        assert(u[3 * i] == t[3 * i] && u[3 * i + 1] == t[3 * i + 1] && u[3 * i + 2] == t[3 * i + 2]);
    }
}

/// The card has agreed and both queues are set up.
spec fn ready(t: Seq<NicEvent>) -> bool {
    &&& t.len() == 38
    &&& agreed(t)
    &&& follows(t, handshake_steps(), 16)
    &&& sets_up(0, t.skip(16))
    &&& queue_len(t.skip(16)) == 11
    &&& sets_up(1, t.skip(27))
    &&& queue_len(t.skip(27)) == 11
}

/// Agrees with the card, and sets up its queues.
fn negotiate<P: NicPort>(nic: &mut Nic<P>) -> (r: bool)
    ensures
        keeps_log(old(nic).log(), final(nic).log()),
        ({
            let t = done(old(nic).log(), final(nic).log());
            if r {
                ready(t)
            } else {
                !asks_memory(t) && forall|b: Option<(u64, u64)>| #[trigger] brought_up(t, b, None)
            }
        }),
{
    let ghost log0 = nic.log();
    if !handshake(nic) {
        return false;
    }
    let ghost log1 = nic.log();
    let rx = setup_queue(nic, 0);
    let ghost log2 = nic.log();
    proof {
        lemma_log_trans(log0, log1, log2);
        assert(forall|i: int| 0 <= i < 16 ==> got(done(log0, log2), i) == got(done(log0, log1), i));
        assert(done(log0, log2).skip(16) =~= done(log1, log2));
    }
    if !rx {
        return false;
    }
    let tx = setup_queue(nic, 1);
    let ghost log3 = nic.log();
    proof {
        lemma_log_trans(log1, log2, log3);
        lemma_log_trans(log0, log1, log3);
        let t = done(log0, log3);
        assert(forall|i: int| 0 <= i < 16 ==> got(t, i) == got(done(log0, log1), i));
        assert(t.skip(16) =~= done(log1, log3));
        lemma_sets_up_longer(0, done(log1, log2), done(log1, log3));
        assert(t.skip(16).skip(11) =~= done(log2, log3));
        assert(t.skip(27) =~= done(log2, log3));
    }
    tx
}

/// What holds of the start of a record still does when more is done.
proof fn lemma_ready(a: Seq<NicEvent>, b: Seq<NicEvent>, c: Seq<NicEvent>)
    requires
        keeps_log(a, b),
        keeps_log(b, c),
        ready(done(a, b)),
    ensures
        ({
            let t = done(a, c);
            &&& keeps_log(a, c)
            &&& asks_memory(t)
            &&& follows(t, handshake_steps(), handshake_len(t))
            &&& sets_up(0, t.skip(16))
            &&& queue_len(t.skip(16)) == 11
            &&& sets_up(1, t.skip(16).skip(11))
            &&& queue_len(t.skip(16).skip(11)) == 11
            &&& t.skip(16).skip(11).skip(11) == done(b, c)
        }),
{
    lemma_log_trans(a, b, c);
    let t = done(a, c);
    let u = done(a, b);
    assert(forall|i: int| 0 <= i < 38 ==> t[i] == #[trigger] u[i]);
    assert(forall|i: int| 0 <= i < 16 ==> got(t, i) == got(u, i));
    assert(t.skip(16).skip(11) =~= t.skip(27));
    assert(t.skip(16).skip(11).skip(11) =~= done(b, c));
    lemma_sets_up_longer(0, u.skip(16), t.skip(16));
    lemma_sets_up_longer(1, u.skip(27), t.skip(27));
}

/// Hands the card its buffers, and tells it that all is set up. Gives back the entries for receiving and for sending, and the
/// address of the card.
fn finish<P: NicPort>(nic: &mut Nic<P>, rx_pool: PhysicalAddr, tx_buf: PhysicalAddr) -> (r: Option<(Vec<u16>, u16, [u8; 6])>)
    requires
        rx_pool.0 + RX_BUF_SIZE * RX_COUNT <= u64::MAX,
    ensures
        keeps_log(old(nic).log(), final(nic).log()),
        filled(
            done(old(nic).log(), final(nic).log()),
            rx_pool.0,
            tx_buf.0,
            match r {
                Some((rx_desc, tx_desc, mac)) => Some(
                    (Found { rx_desc: rx_desc@, rx_pool: rx_pool.0, tx_desc, tx_buf: tx_buf.0, mac: mac@ }),
                ),
                None => None,
            },
        ),
{
    let rx_desc = match post_buffers(nic, rx_pool) {
        Some(heads) => heads,
        None => {
            return None;
        },
    };
    let ghost log1 = nic.log();
    let ghost t1 = done(old(nic).log(), log1);
    let tx_desc = match nic.alloc_desc(1) {
        Some(h) => h,
        None => {
            proof {
                let t = done(old(nic).log(), nic.log());
                assert(t.take(192) =~= t1);
                lemma_posts_longer(t1, t, rx_pool.0, rx_desc@);
            }
            return None;
        },
    };
    nic.write32(VIRTIO_MMIO_STATUS, STATUS_READY);
    let lo = nic.read32(VIRTIO_MMIO_CONFIG);
    let hi = nic.read32(VIRTIO_MMIO_CONFIG + 4);
    let a = encode_u32(lo);
    let b = encode_u32(hi);
    let mac: [u8; 6] = [a[0], a[1], a[2], a[3], b[0], b[1]];
    proof {
        let t = done(old(nic).log(), nic.log());
        assert(t.take(192) =~= t1);
        lemma_posts_longer(t1, t, rx_pool.0, rx_desc@);
        assert(mac@ =~= le32(lo) + le32(hi).take(2));
        assert(t.skip(192).len() == 4);
    }
    Some((rx_desc, tx_desc, mac))
}

proof fn lemma_sets_up_longer(queue: u32, t: Seq<NicEvent>, u: Seq<NicEvent>)
    requires
        sets_up(queue, t),
        queue_len(t) == 11,
        t.len() <= u.len(),
        forall|i: int| 0 <= i < t.len() ==> u[i] == #[trigger] t[i],
    ensures
        sets_up(queue, u),
        queue_len(u) == 11,
{
    assert(u[0] == t[0] && u[2] == t[2]);
    if let NicEvent::NewQueue { reply: Some(q), .. } = t[0] {
        let steps = queue_steps(queue, q);
        assert forall|i: int| 0 <= i < 10 implies taken(#[trigger] u.skip(1)[i], steps[i]) by {
            assert(taken(t.skip(1)[i], steps[i]));
            assert(u[i + 1] == t[i + 1]);
        }
    }
}

/// The address is the guest's own: one of the loopback network, or that of the card.
pub open spec fn local_ip(ip: Seq<u8>) -> bool {
    ip[0] == LOOPBACK_NET || ip == seq![10u8, 0u8, 2u8, 15u8]
}

/// The frame goes to the guest itself: it is addressed to the card, or it carries a packet to one of the guest's own addresses,
/// or asks everyone for one of them.
pub open spec fn self_directed(mac: Seq<u8>, frame: Seq<u8>) -> bool {
    let dst = frame.take(6);
    frame.len() >= ETH_HDR_LEN && {
        ||| dst == mac
        ||| frame[12] == 8 && frame[13] == 0 && frame.len() >= IPV4_DST_OFF + 4 && local_ip(
            frame.subrange(IPV4_DST_OFF as int, IPV4_DST_OFF + 4),
        )
        ||| frame[12] == 8 && frame[13] == 6 && dst == seq![0xffu8, 0xffu8, 0xffu8, 0xffu8, 0xffu8, 0xffu8] && frame.len()
            >= ARP_TARGET_PROTO_OFF + 4 && local_ip(frame.subrange(ARP_TARGET_PROTO_OFF as int, ARP_TARGET_PROTO_OFF + 4))
    }
}

/// How many bytes of a frame of `len` bytes fit the buffer for sending, behind the header.
pub fn sendable(len: usize) -> (r: usize)
    ensures
        r == if len as int <= TX_BUF_SIZE - VIRTIO_NET_HDR_LEN { len as int } else { TX_BUF_SIZE - VIRTIO_NET_HDR_LEN },
{
    let available: usize = (TX_BUF_SIZE - VIRTIO_NET_HDR_LEN) as usize;
    if len <= available {
        len
    } else {
        available
    }
}

/// Where the bytes of a frame are that the card put into buffer `i`, of `len` bytes in all.
pub open spec fn payload<M: Memory>(dm: &M, pool: u64, i: int, len: u32) -> Seq<u8> {
    let n = if len <= RX_BUF_SIZE { len as int } else { RX_BUF_SIZE as int };
    range(
        dm,
        pool + RX_BUF_SIZE * i + VIRTIO_NET_HDR_LEN,
        if n >= VIRTIO_NET_HDR_LEN { n - VIRTIO_NET_HDR_LEN } else { 0 },
    )
}

/// The first place of `id` among the entries.
pub open spec fn entry_of(heads: Seq<u16>, id: u16, i: int) -> bool {
    0 <= i < heads.len() && heads[i] == id && !heads.take(i).contains(id)
}

/// What is done with the card to get a frame, and the frame.
pub open spec fn received<M: Memory>(dm: &M, pool: u64, heads: Seq<u16>, t: Seq<NicEvent>, r: Option<Seq<u8>>) -> bool {
    t.len() > 0 && (t[0] matches NicEvent::Complete { queue: 0, reply } && match reply {
        None => t.len() == 1 && r is None,
        Some(e) => {
            let id = (e.id % 0x1_0000) as u16;
            if heads.contains(id) {
                &&& t.len() == 2
                &&& t[1] == (NicEvent::Submit { queue: 0, head: id })
                &&& exists|i: int| #[trigger] entry_of(heads, id, i) && r == Some(payload(dm, pool, i, e.len))
            } else {
                t.len() == 1 && r is None
            }
        },
    })
}

/// The frames on their way back once `frame` was sent.
pub open spec fn sent_back(back: Seq<Seq<u8>>, frame: Seq<u8>) -> Seq<Seq<u8>> {
    back.push(frame)
}

/// The next frame that comes back, and those behind it.
pub open spec fn first_back(back: Seq<Seq<u8>>) -> Option<(Seq<u8>, Seq<Seq<u8>>)> {
    if back.len() > 0 {
        Some((back[0], back.skip(1)))
    } else {
        None
    }
}

/// The bytes of a frame.
pub open spec fn frame_of(r: Option<Vec<u8>>) -> Option<Seq<u8>> {
    match r {
        Some(f) => Some(f@),
        None => None,
    }
}

impl<P: NicPort> VirtioNetDevice<P> {
    /// The address of the card.
    pub fn mac(&self) -> (r: [u8; 6])
        ensures
            r@ == self.mac@,
    {
        self.mac
    }

    fn is_local_ip(ip: [u8; 4]) -> (r: bool)
        ensures
            r == local_ip(ip@),
    {
        let r = ip[0] == LOOPBACK_NET || (ip[0] == 10 && ip[1] == 0 && ip[2] == 2 && ip[3] == 15);
        proof {
            let guest = seq![10u8, 0u8, 2u8, 15u8];
            if ip[0] == 10 && ip[1] == 0 && ip[2] == 2 && ip[3] == 15 {
                assert(ip@ =~= guest);
            } else if ip@ == guest {
                assert(ip@[0] == guest[0] && ip@[1] == guest[1] && ip@[2] == guest[2] && ip@[3] == guest[3]);
            }
        }
        r
    }

    fn is_self_directed_frame(&self, frame: &[u8]) -> (r: bool)
        ensures
            r == self_directed(self.mac@, frame@),
    {
        if frame.len() < ETH_HDR_LEN {
            return false;
        }
        let mac = self.mac;
        let to_mac = frame[0] == mac[0] && frame[1] == mac[1] && frame[2] == mac[2] && frame[3] == mac[3] && frame[4] == mac[4]
            && frame[5] == mac[5];
        let to_all = frame[0] == 0xff && frame[1] == 0xff && frame[2] == 0xff && frame[3] == 0xff && frame[4] == 0xff && frame[5]
            == 0xff;
        proof {
            let dst = frame@.take(6);
            let all = seq![0xffu8, 0xffu8, 0xffu8, 0xffu8, 0xffu8, 0xffu8];
            assert(to_mac == (dst == mac@)) by {
                if to_mac {
                    assert(dst =~= mac@);
                } else {
                    assert(dst[0] != mac@[0] || dst[1] != mac@[1] || dst[2] != mac@[2] || dst[3] != mac@[3] || dst[4] != mac@[4]
                        || dst[5] != mac@[5]);
                }
            }
            assert(to_all == (dst == all)) by {
                if to_all {
                    assert(dst =~= all);
                } else {
                    assert(dst[0] != all[0] || dst[1] != all[1] || dst[2] != all[2] || dst[3] != all[3] || dst[4] != all[4] || dst[5]
                        != all[5]);
                }
            }
        }
        if to_mac {
            return true;
        }
        if frame[12] == 8 && frame[13] == 0 && frame.len() >= IPV4_DST_OFF + 4 {
            let ip = [
                frame[IPV4_DST_OFF],
                frame[IPV4_DST_OFF + 1],
                frame[IPV4_DST_OFF + 2],
                frame[IPV4_DST_OFF + 3],
            ];
            assert(ip@ =~= frame@.subrange(IPV4_DST_OFF as int, IPV4_DST_OFF + 4));
            Self::is_local_ip(ip)
        } else if frame[12] == 8 && frame[13] == 6 && to_all && frame.len() >= ARP_TARGET_PROTO_OFF + 4 {
            let ip = [
                frame[ARP_TARGET_PROTO_OFF],
                frame[ARP_TARGET_PROTO_OFF + 1],
                frame[ARP_TARGET_PROTO_OFF + 2],
                frame[ARP_TARGET_PROTO_OFF + 3],
            ];
            assert(ip@ =~= frame@.subrange(ARP_TARGET_PROTO_OFF as int, ARP_TARGET_PROTO_OFF + 4));
            Self::is_local_ip(ip)
        } else {
            false
        }
    }

    /// Asks the card to put what has come in into the buffers.
    pub fn kick_rx(&mut self)
        ensures
            final(self).found() == old(self).found(),
            final(self).loopback == old(self).loopback,
            final(self).nic.log() == old(self).nic.log().push(NicEvent::Write { reg: VIRTIO_MMIO_QUEUE_NOTIFY, value: 0 }),
    {
        self.nic.write32(VIRTIO_MMIO_QUEUE_NOTIFY, 0);
    }

    /// A frame that came back, or else one that the card has put into a buffer, which it then gets again. A buffer that was
    /// never handed to the card is left alone.
    pub fn receive_frame<M: Memory>(&mut self, dm: &M) -> (r: Option<Vec<u8>>)
        requires
            old(self).reaches(dm),
        ensures
            final(self).found() == old(self).found(),
            ({
                let log = old(self).nic.log();
                match first_back(old(self).returning()) {
                    Some((frame, rest)) => {
                        &&& frame_of(r) == Some(frame)
                        &&& final(self).returning() == rest
                        &&& final(self).nic.log() == log
                    },
                    None => {
                        &&& final(self).returning() == old(self).returning()
                        &&& keeps_log(log, final(self).nic.log())
                        &&& received(
                            dm,
                            old(self).rx_pool.0,
                            old(self).rx_desc@,
                            done(log, final(self).nic.log()),
                            frame_of(r),
                        )
                    },
                }
            }),
    {
        let ghost back = self.returning();
        match self.loopback.pop_front() {
            Some(frame) => {
                proof {
                    assert(frame@ == back[0]);
                    assert(self.returning() =~= back.skip(1));
                }
                return Some(frame);
            },
            None => {},
        }
        assert(self.returning() =~= back);
        let ghost log = self.nic.log();
        assert(keeps_log(log, self.nic.log()));
        let elem = match self.nic.complete(0) {
            Some(e) => e,
            None => {
                return None;
            },
        };
        let id: u16 = (elem.id % 0x1_0000) as u16;
        let mut i: usize = 0;
        while i < self.rx_desc.len() && self.rx_desc[i] != id
            invariant
                i <= self.rx_desc@.len(),
                !self.rx_desc@.take(i as int).contains(id),
            decreases self.rx_desc@.len() - i,
        {
            i += 1;
            assert(self.rx_desc@.take(i as int) =~= self.rx_desc@.take(i - 1).push(self.rx_desc@[i - 1]));
        }
        if i == self.rx_desc.len() {
            assert(self.rx_desc@.take(i as int) =~= self.rx_desc@);
            return None;
        }
        assert(self.rx_desc@.contains(id)) by {
            assert(self.rx_desc@[i as int] == id);
        }
        assert(entry_of(self.rx_desc@, id, i as int));
        let len: u64 = if elem.len as u64 <= RX_BUF_SIZE {
            elem.len as u64
        } else {
            RX_BUF_SIZE
        };
        let n: u64 = if len >= VIRTIO_NET_HDR_LEN {
            len - VIRTIO_NET_HDR_LEN
        } else {
            0
        };
        let frame = read_bytes(dm, self.rx_pool.as_u64() + RX_BUF_SIZE * i as u64 + VIRTIO_NET_HDR_LEN, n);
        self.nic.submit(0, id);
        Some(frame)
    }

    /// Sends a frame. It also comes back; where it goes to the guest itself that is all. Gives back whether the card got it, and
    /// [`VirtioNetDevice::tx_complete`] is to be asked until it is done.
    pub fn transmit_frame<M: Memory>(&mut self, dm: &mut M, frame: &[u8]) -> (r: bool)
        requires
            old(self).reaches(old(dm)),
            frame@.len() <= TX_BUF_SIZE - VIRTIO_NET_HDR_LEN,
        ensures
            final(self).found() == old(self).found(),
            final(self).returning() == sent_back(old(self).returning(), frame@),
            wrote(old(dm), final(dm), old(self).tx_buf.0 as int, Seq::new(VIRTIO_NET_HDR_LEN as nat, |i: int| 0u8) + frame@),
            r == !self_directed(old(self).mac@, frame@),
            final(self).nic.log() == if r {
                old(self).nic.log().push(
                    (NicEvent::SetDesc {
                        queue: 1,
                        head: old(self).tx_desc,
                        addr: old(self).tx_buf.0,
                        len: (VIRTIO_NET_HDR_LEN + frame@.len()) as u32,
                        flags: 0,
                    }),
                ).push((NicEvent::Submit { queue: 1, head: old(self).tx_desc })).push(
                    (NicEvent::Write { reg: VIRTIO_MMIO_QUEUE_NOTIFY, value: 1 }),
                )
            } else {
                old(self).nic.log()
            },
    {
        let ghost dm0 = *dm;
        let base = self.tx_buf.as_u64();
        fill(dm, base, 0, VIRTIO_NET_HDR_LEN);
        write_bytes(dm, base + VIRTIO_NET_HDR_LEN, frame);
        proof {
            let zeros = Seq::new(VIRTIO_NET_HDR_LEN as nat, |i: int| 0u8);
            assert(dm.bytes() =~= stored(&dm0, base as int, zeros + frame@));
        }
        let local = self.is_self_directed_frame(frame);
        let ghost back = self.returning();
        let mut copy: Vec<u8> = Vec::new();
        copy.extend_from_slice(frame);
        assert(copy@ =~= frame@);
        self.loopback.push_back(copy);
        assert(self.returning() =~= back.push(frame@));
        if local {
            return false;
        }
        self.nic.set_desc(1, self.tx_desc, base, VIRTIO_NET_HDR_LEN as u32 + frame.len() as u32, 0);
        self.nic.submit(1, self.tx_desc);
        self.nic.write32(VIRTIO_MMIO_QUEUE_NOTIFY, 1);
        true
    }

    /// Whether the card is done with a frame that it was to send.
    pub fn tx_complete(&mut self) -> (r: bool)
        ensures
            final(self).found() == old(self).found(),
            final(self).loopback == old(self).loopback,
            exists|reply: Option<UsedElem>| #[trigger]
                old(self).nic.log().push((NicEvent::Complete { queue: 1, reply })) == final(self).nic.log() && r == (reply is Some),
    {
        let reply = self.nic.complete(1);
        assert(old(self).nic.log().push((NicEvent::Complete { queue: 1, reply })) == self.nic.log());
        reply.is_some()
    }
}

/// Sending leaves the heap sound, and every other allocation alone.
pub proof fn law_sending_keeps_heap<P: NicPort, M: Memory>(
    d: VirtioNetDevice<P>,
    heap: KernelAllocator,
    used: Seq<bool>,
    before: &M,
    after: &M,
    data: Seq<u8>,
)
    requires
        heap.wf(used, before),
        d.owns(heap),
        d.reaches(before),
        data.len() <= TX_BUF_SIZE,
        wrote(before, after, d.tx_buf.0 as int, data),
    ensures
        heap.wf(used, after),
        keeps(before, after, heap.live().remove(d.tx_buf.0 - HEADER_SIZE)),
{
    lemma_wrote_framed(before, after, d.tx_buf.0 as int, data);
    law_user_writes_keep_heap(heap, used, before, after, d.tx_buf.0 - HEADER_SIZE, d.tx_buf.0 as int, d.tx_buf.0 + data.len());
}

/// The frames on their way back after the frames were sent, one after the other.
pub open spec fn all_sent_back(back: Seq<Seq<u8>>, frames: Seq<Seq<u8>>) -> Seq<Seq<u8>>
    decreases frames.len(),
{
    if frames.len() == 0 {
        back
    } else {
        sent_back(all_sent_back(back, frames.drop_last()), frames.last())
    }
}

/// The frames that `n` receives in a row give, as long as any is on its way back.
pub open spec fn received_back(back: Seq<Seq<u8>>, n: nat) -> Seq<Seq<u8>>
    decreases n,
{
    match first_back(back) {
        Some((frame, rest)) if n > 0 => seq![frame] + received_back(rest, (n - 1) as nat),
        _ => Seq::empty(),
    }
}

/// Frames come back in the order in which they were sent, behind those that were on their way back already, each of them once.
pub proof fn law_frames_return_in_order(back: Seq<Seq<u8>>, frames: Seq<Seq<u8>>)
    ensures
        received_back(all_sent_back(back, frames), back.len() + frames.len()) == back + frames,
{
    lemma_all_sent_back(back, frames);
    lemma_received_back(back + frames);
}

proof fn lemma_all_sent_back(back: Seq<Seq<u8>>, frames: Seq<Seq<u8>>)
    ensures
        all_sent_back(back, frames) == back + frames,
    decreases frames.len(),
{
    if frames.len() == 0 {
        assert(back + frames =~= back);
    } else {
        lemma_all_sent_back(back, frames.drop_last());
        assert(back + frames =~= (back + frames.drop_last()).push(frames.last()));
    }
}

proof fn lemma_received_back(back: Seq<Seq<u8>>)
    ensures
        received_back(back, back.len()) == back,
    decreases back.len(),
{
    if back.len() > 0 {
        lemma_received_back(back.skip(1));
        assert(back =~= seq![back[0]] + back.skip(1));
    } else {
        assert(back =~= Seq::empty());
    }
}

} // verus!
