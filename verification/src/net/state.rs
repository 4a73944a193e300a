//! Network state: sockets, the gateway's hardware address, and the
//! single-flight transmit link.
use crate::net::laws;
use crate::net::linger;
use crate::net::tcp::{Tcb, TcbV};
use std::collections::VecDeque;
use vstd::prelude::*;

verus! {

pub const NSOCK: usize = 8;

/// UDP packets a socket queues before it drops.
pub const UDP_QUEUE: usize = 8;

pub const RX_CAP: usize = 32768;

pub const UNACK_CAP: usize = 65536;

/// Retransmission timeout, in ticks.
pub const RTO_TICKS: u64 = 20;

/// How long a closing socket lingers past its retransmission time, in ticks.
pub const CLOSE_TIMEOUT: u64 = 3000;

// ---- link ----

/// The transmit side of the device. A frame handed over is staged in `sent`;
/// the device answers for each whether it completed the frame before the
/// deadline. With no answer left it never does.
pub struct Link {
    pub sent: Vec<Vec<u8>>,
    pub verdicts: VecDeque<bool>,
}

#[verifier::ext_equal]
pub struct LinkV {
    pub sent: Seq<Seq<u8>>,
    pub verdicts: Seq<bool>,
}

impl View for Link {
    type V = LinkV;

    open spec fn view(&self) -> LinkV {
        LinkV {
            sent: Seq::new(self.sent@.len(), |i: int| self.sent@[i]@),
            verdicts: self.verdicts@,
        }
    }
}

impl LinkV {
    pub open spec fn accepts(self) -> bool {
        self.verdicts.len() > 0 && self.verdicts[0]
    }

    pub open spec fn submit(self, frame: Seq<u8>) -> LinkV {
        LinkV {
            sent: self.sent.push(frame),
            verdicts: if self.verdicts.len() > 0 {
                self.verdicts.skip(1)
            } else {
                self.verdicts
            },
        }
    }
}

impl Link {
    pub fn new() -> (l: Link)
        ensures
            l@ == (LinkV { sent: Seq::empty(), verdicts: Seq::empty() }),
    {
        let l = Link { sent: Vec::new(), verdicts: VecDeque::new() };
        assert(l@.sent =~= Seq::empty());
        l
    }

    /// Stages one frame and consumes the device's verdict on it.
    pub fn submit(&mut self, frame: Vec<u8>) -> (ok: bool)
        ensures
            final(self)@ == old(self)@.submit(frame@),
            ok == old(self)@.accepts(),
    {
        self.sent.push(frame);
        let ok = match self.verdicts.pop_front() {
            Some(v) => v,
            None => false,
        };
        assert(self@.sent =~= old(self)@.sent.push(frame@));
        assert(self@.verdicts =~= old(self)@.submit(frame@).verdicts);
        ok
    }
}

// ---- sockets ----

pub struct Sock {
    pub used: bool,
    /// 0 = UDP, 1 = TCP.
    pub kind: u8,
    /// The descriptor is gone, the connection still drains.
    pub closing: bool,
    pub lport: u16,
    pub peer_ip: u32,
    pub peer_port: u16,
    /// UDP: (source address, source port, payload).
    pub rx: VecDeque<(u32, u16, Vec<u8>)>,
    pub tcp: Tcb,
}

#[verifier::ext_equal]
pub struct SockV {
    pub used: bool,
    pub kind: u8,
    pub closing: bool,
    pub lport: u16,
    pub peer_ip: u32,
    pub peer_port: u16,
    pub rx: Seq<(u32, u16, Seq<u8>)>,
    pub tcp: TcbV,
}

impl View for Sock {
    type V = SockV;

    open spec fn view(&self) -> SockV {
        SockV {
            used: self.used,
            kind: self.kind,
            closing: self.closing,
            lport: self.lport,
            peer_ip: self.peer_ip,
            peer_port: self.peer_port,
            rx: Seq::new(self.rx@.len(), |i: int| (self.rx@[i].0, self.rx@[i].1, self.rx@[i].2@)),
            tcp: self.tcp@,
        }
    }
}

impl SockV {
    pub open spec fn fresh() -> SockV {
        SockV {
            used: false,
            kind: 0,
            closing: false,
            lport: 0,
            peer_ip: 0,
            peer_port: 0,
            rx: Seq::empty(),
            tcp: TcbV::fresh(),
        }
    }

    /// Bounds every operation keeps.
    pub open spec fn wf(self) -> bool {
        &&& self.tcp.rx.len() <= RX_CAP
        &&& self.tcp.unacked.len() <= UNACK_CAP
        &&& self.rx.len() <= UDP_QUEUE
        &&& forall|i: int| 0 <= i < self.rx.len() ==> (#[trigger] self.rx[i]).2.len() <= 0xffff
    }
}

impl Sock {
    pub fn new() -> (s: Sock)
        ensures
            s@ == SockV::fresh(),
    {
        let s = Sock {
            used: false,
            kind: 0,
            closing: false,
            lport: 0,
            peer_ip: 0,
            peer_port: 0,
            rx: VecDeque::new(),
            tcp: Tcb::new(),
        };
        assert(s@.rx =~= Seq::empty());
        s
    }
}

// ---- the whole ----

pub struct NetState {
    pub link: Link,
    /// Our hardware address.
    pub mac: [u8; 6],
    pub arp_ok: bool,
    pub gw_mac: [u8; 6],
    /// Tick of the last ARP request.
    pub arp_req_at: u64,
    pub socks: [Sock; NSOCK],
    /// Ephemeral port allocator.
    pub next_port: u16,
}

#[verifier::ext_equal]
pub struct NetV {
    pub link: LinkV,
    pub mac: Seq<u8>,
    pub arp_ok: bool,
    pub gw_mac: Seq<u8>,
    pub arp_req_at: u64,
    pub socks: Seq<SockV>,
    pub next_port: u16,
}

impl View for NetState {
    type V = NetV;

    open spec fn view(&self) -> NetV {
        NetV {
            link: self.link@,
            mac: self.mac@,
            arp_ok: self.arp_ok,
            gw_mac: self.gw_mac@,
            arp_req_at: self.arp_req_at,
            socks: Seq::new(NSOCK as nat, |i: int| self.socks@[i]@),
            next_port: self.next_port,
        }
    }
}

impl NetV {
    /// Bounds on the slots and their buffers.
    pub open spec fn bounded(self) -> bool {
        &&& self.socks.len() == NSOCK
        &&& self.mac.len() == 6
        &&& self.gw_mac.len() == 6
        &&& forall|i: int| 0 <= i < NSOCK ==> (#[trigger] self.socks[i]).wf()
    }

    /// What every operation keeps: the bounds; each connection's retransmit
    /// buffer covers its window; no two slots hold the same connection; and a
    /// slot lingers only while a FIN is under way.
    pub open spec fn wf(self) -> bool {
        &&& self.bounded()
        &&& laws::all_cover(self)
        &&& linger::unique(self)
        &&& linger::all_parting(self)
    }

    pub open spec fn with_sock(self, i: int, s: SockV) -> NetV {
        NetV { socks: self.socks.update(i, s), ..self }
    }

    pub open spec fn with_tcb(self, i: int, t: TcbV) -> NetV {
        self.with_sock(i, SockV { tcp: t, ..self.socks[i] })
    }
}

impl NetState {
    pub fn new(mac: [u8; 6]) -> (n: NetState)
        ensures
            n@.wf(),
            n@ == (NetV {
                link: LinkV { sent: Seq::empty(), verdicts: Seq::empty() },
                mac: mac@,
                arp_ok: false,
                gw_mac: Seq::new(6, |i: int| 0u8),
                arp_req_at: 0,
                socks: Seq::new(NSOCK as nat, |i: int| SockV::fresh()),
                next_port: 49152,
            }),
    {
        let n = NetState {
            link: Link::new(),
            mac,
            arp_ok: false,
            gw_mac: [0; 6],
            arp_req_at: 0,
            socks: [
                Sock::new(),
                Sock::new(),
                Sock::new(),
                Sock::new(),
                Sock::new(),
                Sock::new(),
                Sock::new(),
                Sock::new(),
            ],
            next_port: 49152,
        };
        assert(n@.socks =~= Seq::new(NSOCK as nat, |i: int| SockV::fresh()));
        assert(n@.gw_mac =~= Seq::new(6, |i: int| 0u8));
        proof {
            linger::law_start_apart(n@);
        }
        n
    }
}

} // verus!
