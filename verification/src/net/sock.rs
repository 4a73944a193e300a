//! Frame demultiplexing and the socket interface.
use crate::net::linger;
use crate::net::state::{NetState, NetV, SockV, NSOCK, UDP_QUEUE};
use crate::net::tcp;
use crate::net::tcp::TcbV;
use crate::net::wire;
use crate::net::wire::{GUEST_IP, GW_IP, TCP_PROTO, UDP_PROTO};
use vstd::prelude::*;

verus! {

/// 1500 less IPv4 and UDP headers.
pub const MAXUDP: usize = 1472;

/// First ephemeral port.
pub const EPHEMERAL: u16 = 49152;

/// Receive buffers posted to the device.
pub const N_RXDESC: usize = 8;

pub const RXBUF: usize = 2048;

/// Bytes the device puts in front of each received frame.
pub const NET_HDR: usize = 10;

// ---- receive path ----

pub open spec fn arp_reply(f: Seq<u8>) -> bool {
    &&& f.len() >= 42
    &&& wire::be16_of(f, 12) == 0x0806
    &&& wire::be16_of(f, 20) == 2
    &&& wire::be32_of(f, 28) == GW_IP
    &&& wire::be32_of(f, 38) == GUEST_IP
}

/// IPv4 header length.
pub open spec fn ihl(f: Seq<u8>) -> int {
    f[14] % 16 * 4
}

/// An IPv4 packet for us with at least a transport header's first 8 bytes.
pub open spec fn ip_for_us(f: Seq<u8>) -> bool {
    &&& f.len() >= 34
    &&& wire::be16_of(f, 12) == 0x0800
    &&& f[14] / 16 == 4
    &&& ihl(f) >= 20
    &&& f.len() >= 14 + ihl(f) + 8
    &&& wire::be32_of(f, 30) == GUEST_IP
}

/// The TCP segment inside: bounded by the IP total length, not by the frame,
/// which Ethernet may have padded.
pub open spec fn tcp_part(f: Seq<u8>) -> Seq<u8> {
    f.subrange(14 + ihl(f), 14 + wire::be16_of(f, 16))
}

pub open spec fn has_tcp(f: Seq<u8>) -> bool {
    &&& ip_for_us(f)
    &&& f[23] == TCP_PROTO
    &&& ihl(f) <= wire::be16_of(f, 16)
    &&& f.len() >= 14 + wire::be16_of(f, 16)
}

pub open spec fn udp_len(f: Seq<u8>) -> int {
    wire::be16_of(f, 14 + ihl(f) + 4)
}

pub open spec fn has_udp(f: Seq<u8>) -> bool {
    &&& ip_for_us(f)
    &&& f[23] == UDP_PROTO
    &&& udp_len(f) >= 8
    &&& f.len() >= 14 + ihl(f) + udp_len(f)
}

impl NetV {
    /// First open socket on the port, from slot `from` on.
    pub open spec fn on_port(self, port: u16, from: int) -> Option<int>
        decreases self.socks.len() - from,
    {
        if from >= self.socks.len() {
            None
        } else if self.socks[from].used && self.socks[from].lport == port {
            Some(from)
        } else {
            self.on_port(port, from + 1)
        }
    }

    /// A UDP datagram is queued on the first socket of its port, or dropped
    /// when there is none or its queue is full.
    pub open spec fn on_udp(self, src_ip: u32, sport: u16, dport: u16, payload: Seq<u8>) -> NetV {
        match self.on_port(dport, 0) {
            Some(i) => if self.socks[i].rx.len() < UDP_QUEUE {
                self.with_sock(
                    i,
                    SockV {
                        rx: self.socks[i].rx.push((src_ip, sport, payload)),
                        ..self.socks[i]
                    },
                )
            } else {
                self
            },
            None => self,
        }
    }

    /// A received Ethernet frame.
    pub open spec fn on_frame(self, f: Seq<u8>, now: u64) -> NetV {
        if arp_reply(f) {
            NetV { gw_mac: f.subrange(22, 28), arp_ok: true, ..self }
        } else if has_tcp(f) {
            self.on_tcp(wire::be32_of(f, 26) as u32, tcp_part(f), now).0
        } else if has_udp(f) {
            let uo = 14 + ihl(f);
            self.on_udp(
                wire::be32_of(f, 26) as u32,
                wire::be16_of(f, uo) as u16,
                wire::be16_of(f, uo + 2) as u16,
                f.subrange(uo + 8, uo + udp_len(f)),
            )
        } else {
            self
        }
    }
}

fn deliver_udp(n: &mut NetState, src_ip: u32, sport: u16, dport: u16, payload: &[u8])
    requires
        payload@.len() <= 0xffff,
    ensures
        final(n)@ == old(n)@.on_udp(src_ip, sport, dport, payload@),
        old(n)@.wf() ==> final(n)@.wf(),
{
    let mut i: usize = 0;
    while i < NSOCK
        invariant
            i <= NSOCK,
            payload@.len() <= 0xffff,
            n@ == old(n)@,
            old(n)@.on_port(dport, i as int) == old(n)@.on_port(dport, 0),
        decreases NSOCK - i,
    {
        assert(n@.socks[i as int] == n.socks@[i as int]@);
        if n.socks[i].used && n.socks[i].lport == dport {
            if n.socks[i].rx.len() < UDP_QUEUE {
                let mut p: Vec<u8> = Vec::new();
                wire::push_all(&mut p, payload);
                assert(p@ =~= payload@);
                n.socks[i].rx.push_back((src_ip, sport, p));
                let ghost want = SockV {
                    rx: old(n)@.socks[i as int].rx.push((src_ip, sport, payload@)),
                    ..old(n)@.socks[i as int]
                };
                assert(n.socks@[i as int]@ =~= want);
                assert(n@ =~= old(n)@.with_sock(i as int, want));
                assert(old(n)@.wf() ==> n@.wf()) by {
                    if old(n)@.wf() {
                        let s = old(n)@.socks[i as int];
                        assert(s.wf() && linger::parting(s));
                        assert(want.wf());
                        linger::lemma_slot_changed(old(n)@, n@, i as int, want);
                    }
                }
            }
            return;
        }
        i += 1;
    }
}

/// Demultiplexes one received frame: an ARP reply of the gateway, TCP, or
/// UDP. Anything else is ignored.
pub fn parse_frame(n: &mut NetState, f: &[u8], now: u64)
    ensures
        final(n)@ == old(n)@.on_frame(f@, now),
        old(n)@.wf() ==> final(n)@.wf(),
{
    if f.len() < 14 {
        return;
    }
    let etype = wire::be16(f, 12);
    if etype == 0x0806 {
        if f.len() < 42 {
            return;
        }
        if wire::be16(f, 20) != 2 || wire::be32(f, 28) != GW_IP || wire::be32(f, 38) != GUEST_IP {
            return;
        }
        let mac: [u8; 6] = [f[22], f[23], f[24], f[25], f[26], f[27]];
        assert(mac@ =~= f@.subrange(22, 28));
        n.gw_mac = mac;
        n.arp_ok = true;
        assert(n@ =~= old(n)@.on_frame(f@, now));
        proof {
            if old(n)@.wf() {
                linger::lemma_slots_same(old(n)@, n@);
            }
        }
        return;
    }
    if etype != 0x0800 {
        return;
    }
    if f.len() < 34 || f[14] / 16 != 4 {
        return;
    }
    let h: usize = (f[14] % 16) as usize * 4;
    if h < 20 || f.len() < 14 + h + 8 {
        return;
    }
    if f[23] != UDP_PROTO && f[23] != TCP_PROTO {
        return;
    }
    if wire::be32(f, 30) != GUEST_IP {
        return;
    }
    let src_ip = wire::be32(f, 26);
    if f[23] == TCP_PROTO {
        let ip_len: usize = wire::be16(f, 16) as usize;
        if ip_len < h || f.len() < 14 + ip_len {
            return;
        }
        tcp::tcp_rx(n, src_ip, vstd::slice::slice_subrange(f, 14 + h, 14 + ip_len), now);
        return;
    }
    let uo: usize = 14 + h;
    let sport = wire::be16(f, uo);
    let dport = wire::be16(f, uo + 2);
    let ulen: usize = wire::be16(f, uo + 4) as usize;
    if ulen < 8 || f.len() < uo + ulen {
        return;
    }
    deliver_udp(n, src_ip, sport, dport, vstd::slice::slice_subrange(f, uo + 8, uo + ulen));
}

/// One entry of the device's used ring: which buffer, and how many bytes the
/// device wrote to it.
#[derive(Clone, Copy)]
pub struct UsedElem {
    pub id: usize,
    pub len: usize,
}

/// A used entry holds a frame.
pub open spec fn holds_frame(e: UsedElem) -> bool {
    e.id < N_RXDESC && NET_HDR <= e.len <= RXBUF
}

impl NetV {
    /// The entries' frames, parsed in ring order.
    pub open spec fn on_ring(self, ring: Seq<UsedElem>, bufs: Seq<[u8; RXBUF]>, upto: int, now: u64) -> NetV
        decreases upto,
    {
        if upto <= 0 {
            self
        } else {
            let n = self.on_ring(ring, bufs, upto - 1, now);
            let e = ring[upto - 1];
            if holds_frame(e) {
                n.on_frame(bufs[e.id as int]@.subrange(NET_HDR as int, e.len as int), now)
            } else {
                n
            }
        }
    }
}

/// Buffers to post again, in ring order: those of every entry that names one.
pub open spec fn reposts(ring: Seq<UsedElem>) -> Seq<usize>
    decreases ring.len(),
{
    if ring.len() == 0 {
        Seq::empty()
    } else if ring.last().id < N_RXDESC {
        reposts(ring.drop_last()).push(ring.last().id)
    } else {
        reposts(ring.drop_last())
    }
}

/// Drains the receive ring: parses each frame and lists the buffers to post
/// again. `tx_done` tells whether the transmit ring advanced. The flag says
/// whether sleepers are to be woken.
pub fn harvest_locked(
    n: &mut NetState,
    ring: &Vec<UsedElem>,
    bufs: &[[u8; RXBUF]; N_RXDESC],
    tx_done: bool,
    now: u64,
) -> (r: (bool, Vec<usize>))
    ensures
        final(n)@ == old(n)@.on_ring(ring@, bufs@, ring@.len() as int, now),
        r.0 == (tx_done || exists|i: int| 0 <= i < ring@.len() && holds_frame(#[trigger] ring@[i])),
        r.1@ == reposts(ring@),
        old(n)@.wf() ==> final(n)@.wf(),
{
    let mut got = false;
    let mut again: Vec<usize> = Vec::new();
    let mut i: usize = 0;
    while i < ring.len()
        invariant
            i <= ring@.len(),
            n@ == old(n)@.on_ring(ring@, bufs@, i as int, now),
            got == exists|j: int| 0 <= j < i && holds_frame(#[trigger] ring@[j]),
            again@ == reposts(ring@.take(i as int)),
            old(n)@.wf() ==> n@.wf(),
        decreases ring@.len() - i,
    {
        let e = ring[i];
        if e.id < N_RXDESC && e.len >= NET_HDR && e.len <= RXBUF {
            parse_frame(
                n,
                vstd::slice::slice_subrange(bufs[e.id].as_slice(), NET_HDR, e.len),
                now,
            );
            got = true;
            assert(holds_frame(ring@[i as int]));
        }
        if e.id < N_RXDESC {
            again.push(e.id);
        }
        i += 1;
        assert(ring@.take(i as int).drop_last() =~= ring@.take(i - 1));
    }
    assert(ring@.take(i as int) =~= ring@);
    (got || tx_done, again)
}

// ---- transmit ----

impl NetV {
    pub open spec fn arp_requested(self, now: u64) -> NetV {
        NetV { arp_req_at: now, link: self.link.submit(wire::arp_frame(self.mac)), ..self }
    }
}

fn arp_request_locked(n: &mut NetState, now: u64)
    ensures
        final(n)@ == old(n)@.arp_requested(now),
{
    let f = wire::build_arp_frame(&n.mac);
    n.arp_req_at = now;
    n.link.submit(f);
    assert(n@ =~= old(n)@.arp_requested(now));
}

fn udp_send_locked(n: &mut NetState, dst_ip: u32, dport: u16, sport: u16, data: &[u8]) -> (ok: bool)
    ensures
        14 + 20 + 8 + data@.len() > 2048 ==> !ok && final(n)@ == old(n)@,
        14 + 20 + 8 + data@.len() <= 2048 ==> {
            &&& ok == old(n)@.link.accepts()
            &&& final(n)@ == (NetV {
                link: old(n)@.link.submit(
                    wire::udp_frame(old(n)@.gw_mac, old(n)@.mac, dst_ip, dport, sport, data@),
                ),
                ..old(n)@
            })
        },
{
    if data.len() > 2048 - 14 - 20 - 8 {
        return false;
    }
    let f = wire::build_udp_frame(&n.gw_mac, &n.mac, dst_ip, dport, sport, data);
    let ok = n.link.submit(f);
    assert(n@.socks =~= old(n)@.socks);
    ok
}

// ---- socket interface ----

impl NetV {
    pub open spec fn port_used(self, port: u16) -> bool {
        self.on_port(port, 0) is Some
    }

    /// Port after `p` in the ephemeral range.
    pub open spec fn port_after(p: u16) -> u16 {
        if p == u16::MAX || p + 1 < EPHEMERAL {
            EPHEMERAL
        } else {
            (p + 1) as u16
        }
    }

    /// First free port tried from `p` on, within `tries` tries (0: none), and
    /// the allocator's next port.
    pub open spec fn port_scan(self, p: u16, tries: nat) -> (u16, u16)
        decreases tries,
    {
        if tries == 0 {
            (0, p)
        } else if !self.port_used(p) {
            (p, NetV::port_after(p))
        } else {
            self.port_scan(NetV::port_after(p), (tries - 1) as nat)
        }
    }

    /// Opening a socket of the given kind.
    pub open spec fn on_open(self, kind: u8) -> (NetV, Option<int>) {
        match self.free_slot(0) {
            None => (self, None),
            Some(i) => {
                let (port, next) = self.port_scan(self.next_port, 1024);
                let n = NetV { next_port: next, ..self };
                if port == 0 {
                    (n, None)
                } else {
                    (
                        n.with_sock(
                            i,
                            SockV {
                                used: true,
                                kind,
                                closing: false,
                                lport: port,
                                peer_ip: 0,
                                peer_port: 0,
                                rx: Seq::empty(),
                                tcp: TcbV::fresh(),
                            },
                        ),
                        Some(i),
                    )
                }
            },
        }
    }

    pub open spec fn is_open(self, idx: int) -> bool {
        0 <= idx < NSOCK && self.socks[idx].used
    }

    /// Sending a datagram on UDP socket `idx`.
    pub open spec fn on_udp_send(self, idx: int, data: Seq<u8>, now: u64) -> (NetV, int) {
        let s = self.socks[idx];
        if data.len() > MAXUDP || s.kind != 0 {
            (self, -1)
        } else if !self.arp_ok {
            (
                if now.wrapping_sub(self.arp_req_at) > 100 {
                    self.arp_requested(now)
                } else {
                    self
                },
                -2,
            )
        } else if s.peer_ip == 0 || s.peer_port == 0 {
            (self, -1)
        } else {
            (
                NetV {
                    link: self.link.submit(
                        wire::udp_frame(self.gw_mac, self.mac, s.peer_ip, s.peer_port, s.lport, data),
                    ),
                    ..self
                },
                if self.link.accepts() {
                    data.len() as int
                } else {
                    -1
                },
            )
        }
    }
}

fn port_used(n: &NetState, port: u16) -> (r: bool)
    ensures
        r == n@.port_used(port),
{
    let mut i: usize = 0;
    while i < NSOCK
        invariant
            i <= NSOCK,
            n@.on_port(port, i as int) == n@.on_port(port, 0),
        decreases NSOCK - i,
    {
        assert(n@.socks[i as int] == n.socks@[i as int]@);
        if n.socks[i].used && n.socks[i].lport == port {
            return true;
        }
        i += 1;
    }
    false
}

/// Next free ephemeral port, or 0 after 1024 tries.
pub fn alloc_port(n: &mut NetState) -> (port: u16)
    ensures
        (port, final(n)@.next_port) == old(n)@.port_scan(old(n)@.next_port, 1024),
        final(n)@ == (NetV { next_port: final(n)@.next_port, ..old(n)@ }),
        old(n)@.wf() ==> final(n)@.wf(),
{
    let mut k: u32 = 0;
    while k < 1024
        invariant
            k <= 1024,
            n@ == (NetV { next_port: n@.next_port, ..old(n)@ }),
            n@.port_scan(n@.next_port, (1024 - k) as nat) == old(n)@.port_scan(
                old(n)@.next_port,
                1024,
            ),
        decreases 1024 - k,
    {
        let ghost before = n@;
        let p = n.next_port;
        n.next_port = if p == u16::MAX || p + 1 < EPHEMERAL {
            EPHEMERAL
        } else {
            p + 1
        };
        assert(n@ =~= (NetV { next_port: NetV::port_after(p), ..before }));
        proof {
            lemma_on_port_ignores_next(before, n@, p, 0);
        }
        if !port_used(n, p) {
            proof {
                lemma_scan_ignores_next(before, old(n)@, p, (1024 - k) as nat);
                if old(n)@.wf() {
                    linger::lemma_slots_same(old(n)@, n@);
                }
            }
            return p;
        }
        k += 1;
        proof {
            lemma_scan_ignores_next(before, n@, NetV::port_after(p), (1024 - k) as nat);
        }
    }
    proof {
        if old(n)@.wf() {
            linger::lemma_slots_same(old(n)@, n@);
        }
    }
    0
}

proof fn lemma_on_port_ignores_next(a: NetV, b: NetV, port: u16, from: int)
    requires
        a.socks == b.socks,
    ensures
        a.on_port(port, from) == b.on_port(port, from),
    decreases a.socks.len() - from,
{
    if from < a.socks.len() {
        lemma_on_port_ignores_next(a, b, port, from + 1);
    }
}

proof fn lemma_scan_ignores_next(a: NetV, b: NetV, p: u16, tries: nat)
    requires
        a.socks == b.socks,
    ensures
        a.port_scan(p, tries) == b.port_scan(p, tries),
    decreases tries,
{
    if tries > 0 {
        lemma_on_port_ignores_next(a, b, p, 0);
        lemma_scan_ignores_next(a, b, NetV::port_after(p), (tries - 1) as nat);
    }
}

/// Opens a socket (0 = UDP, 1 = TCP) with an ephemeral port.
pub fn sock_open_kind(n: &mut NetState, kind: u8) -> (r: Option<usize>)
    ensures
        ({
            let (m, i) = old(n)@.on_open(kind);
            &&& final(n)@ == m
            &&& match i {
                Some(k) => r == Some(k as usize) && 0 <= k < NSOCK,
                None => r is None,
            }
        }),
        old(n)@.wf() ==> final(n)@.wf(),
{
    proof {
        if old(n)@.wf() {
            linger::law_open_keeps_all(old(n)@, kind);
        }
    }
    let i: usize = match tcp::find_free(n) {
        Some(i) => i,
        None => {
            return None;
        },
    };
    let port = alloc_port(n);
    if port == 0 {
        return None;
    }
    let ghost mid = n@;
    let s = &mut n.socks[i];
    s.used = true;
    s.kind = kind;
    s.closing = false;
    s.lport = port;
    s.peer_ip = 0;
    s.peer_port = 0;
    s.rx.clear();
    s.tcp.reset();
    assert(n.socks@[i as int]@ =~= old(n)@.on_open(kind).0.socks[i as int]);
    assert(n@ =~= old(n)@.on_open(kind).0);
    Some(i)
}

/// Closes a socket. A UDP slot is freed at once; TCP closes as its state asks.
pub fn sock_close(n: &mut NetState, idx: usize, now: u64)
    ensures
        final(n)@ == if !old(n)@.is_open(idx as int) {
            old(n)@
        } else if old(n)@.socks[idx as int].kind == 1 {
            old(n)@.on_close(idx as int, now)
        } else {
            old(n)@.with_sock(
                idx as int,
                SockV { used: false, rx: Seq::empty(), ..old(n)@.socks[idx as int] },
            )
        },
        old(n)@.wf() ==> final(n)@.wf(),
{
    if idx >= NSOCK || !n.socks[idx].used {
        return;
    }
    if n.socks[idx].kind == 1 {
        let _ = tcp::tcp_close(n, idx, now);
        return;
    }
    n.socks[idx].used = false;
    n.socks[idx].rx.clear();
    let ghost want = SockV { used: false, rx: Seq::empty(), ..old(n)@.socks[idx as int] };
    assert(n.socks@[idx as int]@ =~= want);
    assert(n@ =~= old(n)@.with_sock(idx as int, want));
    proof {
        if old(n)@.wf() {
            assert(old(n)@.socks[idx as int].wf());
            linger::lemma_slot_changed(old(n)@, n@, idx as int, want);
        }
    }
}

/// Binds a fixed local port, free across UDP and TCP, closing holders
/// included.
pub fn sock_bind(n: &mut NetState, idx: usize, port: u16) -> (ok: bool)
    ensures
        ok == (old(n)@.is_open(idx as int) && old(n)@.can_bind(idx as int, port)),
        final(n)@ == if ok {
            old(n)@.bound(idx as int, port)
        } else {
            old(n)@
        },
        old(n)@.wf() ==> final(n)@.wf(),
{
    if idx >= NSOCK || !n.socks[idx].used || port == 0 {
        return false;
    }
    if n.socks[idx].kind == 1 {
        return tcp::tcp_bind(n, idx, port);
    }
    if tcp::port_taken(n, idx, port) {
        return false;
    }
    n.socks[idx].lport = port;
    assert(n@ =~= old(n)@.bound(idx as int, port));
    proof {
        if old(n)@.wf() {
            linger::law_bind_keeps_all(old(n)@, idx as int, port);
        }
    }
    true
}

pub fn sock_listen(n: &mut NetState, idx: usize) -> (ok: bool)
    ensures
        ok == old(n)@.can_listen(idx as int),
        final(n)@ == if ok {
            old(n)@.with_tcb(
                idx as int,
                TcbV { state: tcp::TState::Listen, ..old(n)@.socks[idx as int].tcp },
            )
        } else {
            old(n)@
        },
        old(n)@.wf() ==> final(n)@.wf(),
{
    tcp::tcp_listen(n, idx)
}

/// Slot of a connection to hand out, if there is one.
pub fn sock_accept(n: &NetState, idx: usize) -> (r: Option<usize>)
    ensures
        !n@.listening(idx as int) ==> r is None,
        n@.listening(idx as int) ==> match n@.acceptable(idx as int, 0) {
            Some(i) => r == Some(i as usize) && 0 <= i < NSOCK,
            None => r is None,
        },
{
    tcp::tcp_accept(n, idx)
}

pub fn sock_accept_commit(n: &mut NetState, idx: usize)
    ensures
        final(n)@ == if old(n)@.is_open(idx as int) {
            old(n)@.with_tcb(idx as int, TcbV { accepted: true, ..old(n)@.socks[idx as int].tcp })
        } else {
            old(n)@
        },
        old(n)@.wf() ==> final(n)@.wf(),
{
    tcp::tcp_accept_commit(n, idx)
}

/// Per-tick scan; nothing happens without a device. True: wake the sleepers.
pub fn tick(n: &mut NetState, ready: bool, now: u64) -> (wake: bool)
    requires
        old(n)@.wf(),
    ensures
        (final(n)@, wake) == if ready {
            old(n)@.tick(NSOCK as int, now)
        } else {
            (old(n)@, false)
        },
        final(n)@.wf(),
{
    if !ready {
        return false;
    }
    tcp::tcp_tick(n, now)
}

pub fn sock_connect(n: &mut NetState, idx: usize, ip_be: u32, port: u16) -> (ok: bool)
    ensures
        ok == old(n)@.is_open(idx as int),
        final(n)@ == if ok {
            old(n)@.with_sock(
                idx as int,
                SockV { peer_ip: ip_be, peer_port: port, ..old(n)@.socks[idx as int] },
            )
        } else {
            old(n)@
        },
        old(n)@.wf() ==> final(n)@.wf(),
{
    if idx >= NSOCK || !n.socks[idx].used {
        return false;
    }
    n.socks[idx].peer_ip = ip_be;
    n.socks[idx].peer_port = port;
    assert(n@ =~= old(n)@.with_sock(
        idx as int,
        SockV { peer_ip: ip_be, peer_port: port, ..old(n)@.socks[idx as int] },
    ));
    proof {
        if old(n)@.wf() {
            let s = old(n)@.socks[idx as int];
            assert(s.wf() && linger::parting(s));
            linger::lemma_slot_changed(old(n)@, n@, idx as int, n@.socks[idx as int]);
        }
    }
    true
}

/// Sends data: its length, -2 when the caller should retry (UDP: the gateway
/// is not resolved yet; TCP: too much unacknowledged), -1 on error.
pub fn sock_send(n: &mut NetState, idx: usize, data: &[u8], now: u64) -> (r: isize)
    requires
        old(n)@.wf(),
    ensures
        (final(n)@, r as int) == if !old(n)@.is_open(idx as int) {
            (old(n)@, -1)
        } else if old(n)@.socks[idx as int].kind == 1 {
            old(n)@.on_send(idx as int, data@, now)
        } else {
            old(n)@.on_udp_send(idx as int, data@, now)
        },
        final(n)@.wf(),
{
    if idx >= NSOCK || !n.socks[idx].used {
        return -1;
    }
    if n.socks[idx].kind == 1 {
        return tcp::tcp_send(n, idx, data, now);
    }
    if data.len() > MAXUDP {
        return -1;
    }
    if n.socks[idx].kind != 0 {
        return -1;
    }
    if !n.arp_ok {
        if now.wrapping_sub(n.arp_req_at) > 100 {
            arp_request_locked(n, now);
        }
        proof {
            linger::lemma_slots_same(old(n)@, n@);
        }
        return -2;
    }
    let ip = n.socks[idx].peer_ip;
    let port = n.socks[idx].peer_port;
    let sport = n.socks[idx].lport;
    if ip == 0 || port == 0 {
        return -1;
    }
    let ok = udp_send_locked(n, ip, port, sport, data);
    proof {
        linger::lemma_slots_same(old(n)@, n@);
    }
    if ok {
        data.len() as isize
    } else {
        -1
    }
}

impl NetV {
    /// Reading a socket into a buffer of `room` bytes: the state after it, the
    /// bytes delivered, and the result code.
    pub open spec fn on_sock_recv(self, idx: int, room: nat) -> (NetV, Seq<u8>, int) {
        let s = self.socks[idx];
        if !self.is_open(idx) {
            (self, Seq::empty(), -1)
        } else if s.kind == 1 {
            self.on_recv(idx, room)
        } else if s.rx.len() == 0 {
            (self, Seq::empty(), -2)
        } else {
            let k = tcp::min_nat(room, s.rx[0].2.len());
            (
                self.with_sock(idx, SockV { rx: s.rx.skip(1), ..s }),
                s.rx[0].2.take(k as int),
                k as int,
            )
        }
    }
}

/// Receives into `out`: bytes delivered, 0 at end of a TCP stream, -2 when
/// there is nothing yet, -1 on error. What of a datagram does not fit is lost.
pub fn sock_recv(n: &mut NetState, idx: usize, out: &mut [u8]) -> (r: isize)
    requires
        old(n)@.wf(),
    ensures
        ({
            let (m, got, code) = old(n)@.on_sock_recv(idx as int, old(out)@.len());
            final(n)@ == m && final(out)@ == tcp::overlay(old(out)@, got) && r == code
        }),
        final(n)@.wf(),
{
    assert(tcp::overlay(out@, Seq::empty()) =~= out@);
    if idx >= NSOCK || !n.socks[idx].used {
        return -1;
    }
    if n.socks[idx].kind == 1 {
        return tcp::tcp_recv(n, idx, out);
    }
    let ghost s0 = n@.socks[idx as int];
    assert(s0.wf());
    match n.socks[idx].rx.pop_front() {
        Some((_ip, _port, pkt)) => {
            assert(s0.rx[0].2 == pkt@);
            assert(n.socks@[idx as int]@ =~= (SockV { rx: s0.rx.skip(1), ..s0 }));
            assert(n@ =~= old(n)@.with_sock(idx as int, SockV { rx: s0.rx.skip(1), ..s0 }));
            proof {
                assert(linger::parting(s0));
                linger::lemma_slot_changed(old(n)@, n@, idx as int, n@.socks[idx as int]);
            }
            let k: usize = if out.len() < pkt.len() {
                out.len()
            } else {
                pkt.len()
            };
            let mut j: usize = 0;
            while j < k
                invariant
                    j <= k <= pkt@.len(),
                    k <= old(out)@.len(),
                    out@.len() == old(out)@.len(),
                    out@ == tcp::overlay(old(out)@, pkt@.take(j as int)),
                decreases k - j,
            {
                out[j] = pkt[j];
                j += 1;
                assert(out@ =~= tcp::overlay(old(out)@, pkt@.take(j as int)));
            }
            k as isize
        },
        None => {
            assert(n@ =~= old(n)@);
            -2
        },
    }
}

} // verus!
