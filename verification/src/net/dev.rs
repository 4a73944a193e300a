//! The network device: where it is, how it is set up, and how a frame goes
//! out.
use crate::hw::virtio;
use crate::hw::virtio::{Desc, Setup, Wait, DEV_NET, D_NEXT, D_WRITE, MAGIC, MAX_LOOKS, QDEPTH, ST_FEAT_OK};
use crate::mem::frame;
use crate::mem::frame::{Mem, MemV};
use crate::net::sock::{N_RXDESC, RXBUF};
use vstd::prelude::*;

verus! {

/// Slots that may hold a device, the first one, and the distance between two.
pub const NSLOT: usize = 16;

pub const SLOT0: u64 = 0x1000_0000;

pub const SLOT_STEP: u64 = 0x1000;

/// Bytes before a frame.
pub const HEADER: u32 = 10;

/// What could be read from a slot; nothing from an absent one.
#[derive(Clone, Copy, PartialEq, Eq, Structural, Debug)]
pub struct Slot {
    pub magic: Option<u32>,
    pub ver: Option<u32>,
    pub devid: Option<u32>,
}

pub open spec fn is_net(s: Slot) -> bool {
    s.magic == Some(MAGIC) && (s.ver == Some(1u32) || s.ver == Some(2u32)) && s.devid == Some(DEV_NET)
}

/// The first slot from `i` on that holds a network device.
pub open spec fn net_slot(s: Seq<Slot>, i: int) -> Option<int>
    decreases s.len() - i,
{
    if i >= s.len() {
        None
    } else if is_net(s[i]) {
        Some(i)
    } else {
        net_slot(s, i + 1)
    }
}

/// Address of the registers of the network device.
pub fn probe(slots: &[Slot; NSLOT]) -> (r: Option<u64>)
    ensures
        match net_slot(slots@, 0) {
            Some(i) => r == Some((SLOT0 + i * SLOT_STEP) as u64),
            None => r is None,
        },
{
    let mut i: usize = 0;
    while i < NSLOT
        invariant
            i <= NSLOT,
            net_slot(slots@, 0) == net_slot(slots@, i as int),
        decreases NSLOT - i,
    {
        let s = slots[i];
        let magic = match s.magic {
            Some(v) => v == MAGIC,
            None => false,
        };
        let ver = match s.ver {
            Some(v) => v == 1 || v == 2,
            None => false,
        };
        let devid = match s.devid {
            Some(v) => v == DEV_NET,
            None => false,
        };
        if magic && ver && devid {
            return Some(SLOT0 + i as u64 * SLOT_STEP);
        }
        i += 1;
    }
    None
}

/// A queue: its two frames and the number of its entries.
#[derive(Clone, Copy, PartialEq, Eq, Structural, Debug)]
pub struct Queue {
    pub base: u64,
    pub used: u64,
    pub q: u32,
}

/// Memory after a queue took its frames. A frame that was had without the
/// other stays taken.
pub open spec fn after_queue(m: MemV, qmax: u32) -> (MemV, Option<Queue>) {
    if qmax == 0 || !m.fa.can_alloc(0) {
        (m, None)
    } else if !m.grab(0).fa.can_alloc(0) {
        (m.grab(0), None)
    } else {
        (
            m.grab(0).grab(0),
            Some(
                Queue {
                    base: m.fa.next_frame(),
                    used: m.grab(0).fa.next_frame(),
                    q: virtio::depth(qmax),
                },
            ),
        )
    }
}

pub fn qsetup(m: &mut Mem, qmax: u32) -> (r: Option<Queue>)
    requires
        old(m)@.wf(),
    ensures
        final(m)@.wf(),
        (final(m)@, r) == after_queue(old(m)@, qmax),
{
    if qmax == 0 {
        return None;
    }
    let base = match frame::alloc_frame_cg(m, 0) {
        Some(p) => p,
        None => {
            return None;
        },
    };
    let used = match frame::alloc_frame_cg(m, 0) {
        Some(p) => p,
        None => {
            return None;
        },
    };
    Some(
        Queue {
            base,
            used,
            q: if qmax < QDEPTH as u32 {
                qmax
            } else {
                QDEPTH as u32
            },
        },
    )
}

/// The device once it is set up.
pub struct NetDev {
    pub ready: bool,
    pub base: u64,
    pub rx: Queue,
    pub tx: Queue,
    pub mac: [u8; 6],
    /// Receive buffers posted; frames offered and frames taken.
    pub rx_avail: u16,
    pub tx_avail: u16,
    pub tx_used: u16,
}

/// What was read from the device on the way.
pub struct Seen {
    pub base: Option<u64>,
    pub status: u32,
    pub rx_max: u32,
    pub tx_max: u32,
    pub mac: [u8; 6],
}

/// A device that is not set up.
pub fn absent() -> (d: NetDev)
    ensures
        !d.ready,
        d.base == 0,
        d.rx == (Queue { base: 0, used: 0, q: 0 }),
        d.tx == (Queue { base: 0, used: 0, q: 0 }),
        forall|i: int| 0 <= i < 6 ==> d.mac@[i] == 0,
        d.rx_avail == 0,
        d.tx_avail == 0,
        d.tx_used == 0,
{
    let q = Queue { base: 0, used: 0, q: 0 };
    NetDev { ready: false, base: 0, rx: q, tx: q, mac: [0; 6], rx_avail: 0, tx_avail: 0, tx_used: 0 }
}

/// Sets the device up: a queue to receive with all buffers posted, a queue to
/// send, and its address.
pub fn init(d: &mut NetDev, m: &mut Mem, r: &Seen) -> (o: Setup)
    requires
        old(m)@.wf(),
    ensures
        final(m)@.wf(),
        ({
            let (m1, rx) = after_queue(old(m)@, r.rx_max);
            let (m2, tx) = after_queue(m1, r.tx_max);
            if r.base is None {
                o == Setup::NoDevice && *final(d) == *old(d) && final(m)@ == old(m)@
            } else if r.status & ST_FEAT_OK == 0 {
                o == Setup::Refused && *final(d) == (NetDev { base: r.base->0, ..*old(d) }) && final(m)@ == old(m)@
            } else if rx is None {
                o == Setup::NoQueue && *final(d) == (NetDev { base: r.base->0, ..*old(d) }) && final(m)@ == m1
            } else if tx is None {
                o == Setup::NoQueue && *final(d) == (NetDev { base: r.base->0, ..*old(d) }) && final(m)@ == m2
            } else {
                &&& o == (Setup::Ready { q: N_RXDESC as u32 })
                &&& final(m)@ == m2
                &&& *final(d) == (NetDev {
                    ready: true,
                    base: r.base->0,
                    rx: rx->0,
                    tx: tx->0,
                    mac: r.mac,
                    rx_avail: N_RXDESC as u16,
                    tx_avail: old(d).tx_avail,
                    tx_used: old(d).tx_used,
                })
            }
        }),
{
    let base = match r.base {
        Some(b) => b,
        None => {
            return Setup::NoDevice;
        },
    };
    d.base = base;
    if r.status & ST_FEAT_OK == 0 {
        return Setup::Refused;
    }
    let rx = match qsetup(m, r.rx_max) {
        Some(q) => q,
        None => {
            return Setup::NoQueue;
        },
    };
    let tx = match qsetup(m, r.tx_max) {
        Some(q) => q,
        None => {
            return Setup::NoQueue;
        },
    };
    d.rx = rx;
    d.tx = tx;
    d.rx_avail = N_RXDESC as u16;
    d.mac = r.mac;
    d.ready = true;
    Setup::Ready { q: N_RXDESC as u32 }
}

/// The descriptor of a receive buffer.
pub fn rx_desc(addr: u64) -> (d: Desc)
    ensures
        d == (Desc { addr, len: RXBUF as u32, flags: D_WRITE, next: 0 }),
{
    Desc { addr, len: RXBUF as u32, flags: D_WRITE, next: 0 }
}

/// Offers a frame of `total` bytes behind its header: the two descriptors,
/// and the place in the ring of offered frames.
pub fn tx_offer(d: &mut NetDev, hdr: u64, data: u64, total: u32) -> (r: ([Desc; 2], u16))
    ensures
        r.0@ == seq![
            Desc { addr: hdr, len: HEADER, flags: D_NEXT, next: 1 },
            Desc { addr: data, len: total, flags: 0, next: 0 },
        ],
        r.1 == old(d).tx_avail % QDEPTH,
        *final(d) == (NetDev { tx_avail: old(d).tx_avail.wrapping_add(1), ..*old(d) }),
{
    let slot: u16 = d.tx_avail % QDEPTH;
    let v = [
        Desc { addr: hdr, len: HEADER, flags: D_NEXT, next: 1 },
        Desc { addr: data, len: total, flags: 0, next: 0 },
    ];
    assert(v@ =~= seq![
        Desc { addr: hdr, len: HEADER, flags: D_NEXT, next: 1 },
        Desc { addr: data, len: total, flags: 0, next: 0 },
    ]);
    d.tx_avail = d.tx_avail.wrapping_add(1);
    (v, slot)
}

/// One look at the count of frames that the device took.
pub fn tx_look(d: &NetDev, used_idx: u16, ticks: u64, deadline: u64, looks: u32) -> (r: Wait)
    ensures
        r == if used_idx != d.tx_used {
            Wait::Used
        } else if ticks >= deadline || looks > MAX_LOOKS {
            Wait::TimedOut
        } else {
            Wait::Again
        },
{
    if used_idx != d.tx_used {
        Wait::Used
    } else if ticks >= deadline || looks > MAX_LOOKS {
        Wait::TimedOut
    } else {
        Wait::Again
    }
}

/// The device took a frame.
pub fn tx_done(d: &mut NetDev)
    ensures
        *final(d) == (NetDev { tx_used: old(d).tx_used.wrapping_add(1), ..*old(d) }),
{
    d.tx_used = d.tx_used.wrapping_add(1);
}

/// An interrupt of the device. True: acknowledge the causes read. Without a
/// device there is nothing to do; with one, what arrived is harvested.
pub fn on_irq(d: &NetDev, intstat: u32) -> (r: (bool, bool))
    ensures
        r.0 == (d.ready && intstat & 1 != 0),
        r.1 == d.ready,
{
    (d.ready && intstat & 1 != 0, d.ready)
}

} // verus!
