use sumi_kernel::layout::KERNEL_STACK;
use sumi_kernel::memory::access::{read_bytes, write_bytes};
use sumi_kernel::memory::test_utils::{make_alloc, TestDirectMap};
use sumi_kernel::net::nic::{Nic, NicPort, QueueAddrs, UsedElem};
use sumi_kernel::net::virtio::{
    sendable, VirtioNetDevice, RX_BUF_SIZE, RX_COUNT, STATUS_READY, VIRTIO_MMIO_CONFIG, VIRTIO_MMIO_DEVICE_FEATURES,
    VIRTIO_MMIO_DEVICE_FEATURES_SEL, VIRTIO_MMIO_DEVICE_ID, VIRTIO_MMIO_MAGIC, VIRTIO_MMIO_MAGIC_VALUE,
    VIRTIO_MMIO_QUEUE_DESC_HIGH, VIRTIO_MMIO_QUEUE_DESC_LOW, VIRTIO_MMIO_QUEUE_NOTIFY, VIRTIO_MMIO_QUEUE_NUM_MAX,
    VIRTIO_MMIO_STATUS, VIRTIO_MMIO_VERSION,
};

/// A card that behaves, and notes what was done with it.
struct Card {
    magic: u32,
    features: [u32; 2],
    sel: usize,
    status: u32,
    queue_max: u32,
    next: [u16; 2],
    free: u16,
    writes: Vec<(u32, u32)>,
    descs: Vec<(u32, u16, u64, u32, u16)>,
    submitted: Vec<(u32, u16)>,
    done: Vec<(u32, UsedElem)>,
}

fn card() -> Card {
    Card {
        magic: VIRTIO_MMIO_MAGIC_VALUE,
        features: [0x20, 1],
        sel: 0,
        status: 0,
        queue_max: 256,
        next: [0, 0],
        free: 128,
        writes: Vec::new(),
        descs: Vec::new(),
        submitted: Vec::new(),
        done: Vec::new(),
    }
}

impl NicPort for Card {
    fn read32(&mut self, reg: u32) -> u32 {
        match reg {
            VIRTIO_MMIO_MAGIC => self.magic,
            VIRTIO_MMIO_VERSION => 2,
            VIRTIO_MMIO_DEVICE_ID => 1,
            VIRTIO_MMIO_DEVICE_FEATURES => self.features[self.sel],
            VIRTIO_MMIO_STATUS => self.status,
            VIRTIO_MMIO_QUEUE_NUM_MAX => self.queue_max,
            VIRTIO_MMIO_CONFIG => 0x4433_2211,
            _ if reg == VIRTIO_MMIO_CONFIG + 4 => 0x8877_6655,
            _ => 0,
        }
    }

    fn write32(&mut self, reg: u32, value: u32) {
        self.writes.push((reg, value));
        if reg == VIRTIO_MMIO_DEVICE_FEATURES_SEL {
            self.sel = value as usize;
        }
        if reg == VIRTIO_MMIO_STATUS {
            self.status = value;
        }
    }

    fn new_queue(&mut self, queue: u32) -> Option<QueueAddrs> {
        Some(QueueAddrs { desc: 0x1_2000_0000 + queue as u64, avail: 0x2000, used: 0x3000 })
    }

    fn alloc_desc(&mut self, queue: u32) -> Option<u16> {
        let n = self.next[queue as usize];
        if n >= self.free {
            return None;
        }
        self.next[queue as usize] = n + 1;
        Some(n)
    }

    fn set_desc(&mut self, queue: u32, head: u16, addr: u64, len: u32, flags: u16) {
        self.descs.push((queue, head, addr, len, flags));
    }

    fn submit(&mut self, queue: u32, head: u16) {
        self.submitted.push((queue, head));
    }

    fn complete(&mut self, queue: u32) -> Option<UsedElem> {
        let i = self.done.iter().position(|d| d.0 == queue)?;
        Some(self.done.remove(i).1)
    }
}

fn up(card: Card) -> (Option<VirtioNetDevice<Card>>, TestDirectMap) {
    let (mut dm, mut pa, mut heap) = make_alloc(4);
    let d = VirtioNetDevice::init(Nic::new(card), &mut heap, &mut pa, &mut dm);
    (d.ok(), dm)
}

#[test]
fn the_card_is_brought_up() {
    let (d, _dm) = up(card());
    let d = d.unwrap();
    assert_eq!(d.mac(), [0x11, 0x22, 0x33, 0x44, 0x55, 0x66]);
    assert_eq!(d.rx_desc, (0..64u16).collect::<Vec<_>>());
    assert_eq!(d.tx_desc, 0);
    assert!(d.rx_pool.as_u64() > KERNEL_STACK);
    let port = d.nic.port();
    assert_eq!(port.descs.len(), RX_COUNT);
    assert_eq!(port.descs[3], (0, 3, d.rx_pool.as_u64() + 3 * RX_BUF_SIZE, 2048, 2));
    assert_eq!(port.submitted.len(), RX_COUNT);
    assert_eq!(port.status, STATUS_READY);
    assert!(port.writes.contains(&(VIRTIO_MMIO_QUEUE_DESC_LOW, 0x2000_0001)));
    assert!(port.writes.contains(&(VIRTIO_MMIO_QUEUE_DESC_HIGH, 1)));
}

#[test]
fn another_device_is_left_alone() {
    let mut c = card();
    c.magic = 7;
    let (d, _dm) = up(c);
    assert!(d.is_none());
}

#[test]
fn a_card_that_is_given_up_comes_back() {
    let mut c = card();
    c.queue_max = 64;
    let (mut dm, mut pa, mut heap) = make_alloc(4);
    let nic = VirtioNetDevice::init(Nic::new(c), &mut heap, &mut pa, &mut dm).err().unwrap();
    assert!(!nic.port().writes.is_empty());
    assert_ne!(nic.port().status, STATUS_READY);
}

#[test]
fn a_card_without_the_features_is_given_up() {
    let mut c = card();
    c.features = [0, 1];
    assert!(up(c).0.is_none());
    let mut c = card();
    c.features = [0x20, 0];
    assert!(up(c).0.is_none());
}

#[test]
fn a_card_with_short_queues_is_given_up() {
    let mut c = card();
    c.queue_max = 64;
    assert!(up(c).0.is_none());
    let mut c = card();
    c.free = 10;
    assert!(up(c).0.is_none());
}

fn frame_to(dst: [u8; 6], kind: [u8; 2], len: usize) -> Vec<u8> {
    let mut f = vec![0u8; len];
    f[..6].copy_from_slice(&dst);
    f[12..14].copy_from_slice(&kind);
    f
}

#[test]
fn frames_to_the_guest_itself_stay() {
    let (d, mut dm) = up(card());
    let mut d = d.unwrap();
    let own = frame_to([0x11, 0x22, 0x33, 0x44, 0x55, 0x66], [0, 0], 14);
    assert!(!d.transmit_frame(&mut dm, &own));
    let mut ip = frame_to([9; 6], [8, 0], 34);
    ip[30..34].copy_from_slice(&[127, 9, 9, 9]);
    assert!(!d.transmit_frame(&mut dm, &ip));
    ip[30..34].copy_from_slice(&[10, 0, 2, 15]);
    assert!(!d.transmit_frame(&mut dm, &ip));
    let mut arp = frame_to([0xff; 6], [8, 6], 42);
    arp[38..42].copy_from_slice(&[10, 0, 2, 15]);
    assert!(!d.transmit_frame(&mut dm, &arp));
    assert_eq!(d.nic.port().submitted.len(), RX_COUNT);
    assert_eq!(d.receive_frame(&dm).unwrap(), own);
    assert_eq!(d.receive_frame(&dm).unwrap().len(), 34);
    d.receive_frame(&dm).unwrap();
    assert_eq!(d.receive_frame(&dm).unwrap(), arp);
    assert!(d.receive_frame(&dm).is_none());
}

#[test]
fn frames_to_others_go_out_behind_an_empty_header() {
    let (d, mut dm) = up(card());
    let mut d = d.unwrap();
    let base = d.tx_buf.as_u64();
    write_bytes(&mut dm, base, &[0xee; 64]);
    let mut ip = frame_to([9; 6], [8, 0], 34);
    ip[30..34].copy_from_slice(&[10, 0, 2, 2]);
    assert!(d.transmit_frame(&mut dm, &ip));
    assert_eq!(read_bytes(&dm, base, 12), vec![0; 12]);
    assert_eq!(read_bytes(&dm, base + 12, 34), ip);
    let port = d.nic.port();
    assert_eq!(*port.descs.last().unwrap(), (1, 0, base, 46, 0));
    assert_eq!(*port.submitted.last().unwrap(), (1, 0));
    assert_eq!(*port.writes.last().unwrap(), (VIRTIO_MMIO_QUEUE_NOTIFY, 1));
    assert!(!d.tx_complete());
    assert_eq!(d.receive_frame(&dm).unwrap(), ip);
    let mut arp = frame_to([0xff; 6], [8, 6], 42);
    arp[38..42].copy_from_slice(&[10, 0, 2, 2]);
    assert!(d.transmit_frame(&mut dm, &arp));
    assert!(d.transmit_frame(&mut dm, &[1, 2, 3]));
}

#[test]
fn received_frames_lose_their_header_and_the_buffer_goes_back() {
    let mut c = card();
    c.done.push((0, UsedElem { id: 0x5_0002, len: 12 + 5 }));
    c.done.push((0, UsedElem { id: 1, len: 7 }));
    c.done.push((0, UsedElem { id: 1, len: 99_999 }));
    c.done.push((0, UsedElem { id: 500, len: 20 }));
    let (d, mut dm) = up(c);
    let mut d = d.unwrap();
    let buf = d.rx_pool.as_u64() + 2 * RX_BUF_SIZE;
    write_bytes(&mut dm, buf + 12, b"hello!");
    assert_eq!(d.receive_frame(&dm).unwrap(), b"hello");
    assert_eq!(*d.nic.port().submitted.last().unwrap(), (0, 2));
    assert_eq!(d.receive_frame(&dm).unwrap(), b"");
    assert_eq!(d.receive_frame(&dm).unwrap().len(), 2036);
    assert!(d.receive_frame(&dm).is_none());
    d.kick_rx();
    assert_eq!(*d.nic.port().writes.last().unwrap(), (VIRTIO_MMIO_QUEUE_NOTIFY, 0));
}

#[test]
fn a_frame_is_cut_to_the_buffer() {
    assert_eq!(sendable(0), 0);
    assert_eq!(sendable(1514), 1514);
    assert_eq!(sendable(2036), 2036);
    assert_eq!(sendable(4000), 2036);
}
