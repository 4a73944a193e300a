//! Connections as the peer sees them: what goes out byte by byte, and what
//! becomes of what comes in.
use crate::net::state::{NetV, SockV, NSOCK, UNACK_CAP};
use crate::net::tcp;
use crate::net::tcp::{Dest, TcbV, MSS};
use crate::net::wire;
use crate::net::wire::GUEST_IP;
use vstd::prelude::*;

verus! {

// ---- frames, read by the peer ----

pub open spec fn n2(f: Seq<u8>, o: int) -> int {
    f[o] * 256 + f[o + 1]
}

pub open spec fn n4(f: Seq<u8>, o: int) -> int {
    f[o] * 0x100_0000 + f[o + 1] * 0x1_0000 + f[o + 2] * 0x100 + f[o + 3]
}

/// The frame is a TCP segment from this machine to the peer of a connection.
pub open spec fn goes(f: Seq<u8>, n: NetV, d: Dest) -> bool {
    &&& f.len() >= 54
    &&& f.take(6) == n.gw_mac
    &&& f.subrange(6, 12) == n.mac
    &&& f[12] == 8 && f[13] == 0
    &&& f[14] == 0x45
    &&& n2(f, 16) == f.len() - 14
    &&& f[23] == 6
    &&& n4(f, 26) == GUEST_IP
    &&& n4(f, 30) == d.ip
    &&& n2(f, 34) == d.sport
    &&& n2(f, 36) == d.dport
    &&& f[46] == 0x50
}

/// Sequence number, acknowledgment number, flags and payload of a segment.
pub open spec fn seq_of(f: Seq<u8>) -> int {
    n4(f, 38)
}

pub open spec fn ack_of(f: Seq<u8>) -> int {
    n4(f, 42)
}

pub open spec fn flags_of(f: Seq<u8>) -> u8 {
    f[47]
}

pub open spec fn payload_of(f: Seq<u8>) -> Seq<u8> {
    f.skip(54)
}

/// How far a sequence number lies behind another, on the circle.
pub open spec fn dist(a: int, b: u32) -> int {
    (a - b) % 0x1_0000_0000
}

/// The device takes frame number `k` from now.
pub open spec fn taken(n: NetV, k: int) -> bool {
    0 <= k < n.link.verdicts.len() && n.link.verdicts[k]
}

proof fn lemma_be4(v: u32)
    ensures
        wire::be32_bytes(v).len() == 4,
        n4(wire::be32_bytes(v), 0) == v,
{
}

pub proof fn lemma_ip(total: u16, proto: u8, dst: u32)
    ensures
        ({
            let i = wire::ip_packet_hdr(total, proto, dst);
            &&& i.len() == 20
            &&& i[0] == 0x45
            &&& n2(i, 2) == total
            &&& i[9] == proto
            &&& n4(i, 12) == GUEST_IP
            &&& n4(i, 16) == dst
        }),
{
    let i = wire::ip_packet_hdr(total, proto, dst);
    let g = wire::be32_bytes(GUEST_IP);
    let e = wire::be32_bytes(dst);
    lemma_be4(GUEST_IP);
    lemma_be4(dst);
    assert(i[12] == g[0] && i[13] == g[1] && i[14] == g[2] && i[15] == g[3]);
    assert(i[16] == e[0] && i[17] == e[1] && i[18] == e[2] && i[19] == e[3]);
    assert(i[2] == wire::be16_bytes(total)[0] && i[3] == wire::be16_bytes(total)[1]);
}

proof fn lemma_seg(sport: u16, dport: u16, seq: u32, ack: u32, flags: u8, ck: u16, p: Seq<u8>)
    ensures
        ({
            let t = wire::tcp_seg(sport, dport, seq, ack, flags, ck, p);
            &&& t.len() == 20 + p.len()
            &&& n2(t, 0) == sport
            &&& n2(t, 2) == dport
            &&& n4(t, 4) == seq
            &&& n4(t, 8) == ack
            &&& t[12] == 0x50
            &&& t[13] == flags
            &&& t.skip(20) == p
        }),
{
    let t = wire::tcp_seg(sport, dport, seq, ack, flags, ck, p);
    let g = wire::be32_bytes(seq);
    let e = wire::be32_bytes(ack);
    lemma_be4(seq);
    lemma_be4(ack);
    assert(t[0] == wire::be16_bytes(sport)[0] && t[1] == wire::be16_bytes(sport)[1]);
    assert(t[2] == wire::be16_bytes(dport)[0] && t[3] == wire::be16_bytes(dport)[1]);
    assert(t[4] == g[0] && t[5] == g[1] && t[6] == g[2] && t[7] == g[3]);
    assert(t[8] == e[0] && t[9] == e[1] && t[10] == e[2] && t[11] == e[3]);
    assert(t.skip(20) =~= p);
}

#[verifier::spinoff_prover]
#[verifier::rlimit(40)]
pub proof fn lemma_frame(n: NetV, d: Dest, seq: u32, ack: u32, flags: u8, p: Seq<u8>)
    requires
        n.mac.len() == 6,
        n.gw_mac.len() == 6,
        p.len() <= 65000,
    ensures
        ({
            let f = n.frame(d, seq, ack, flags, p);
            &&& goes(f, n, d)
            &&& seq_of(f) == seq
            &&& ack_of(f) == ack
            &&& flags_of(f) == flags
            &&& payload_of(f) == p
        }),
{
    let f = n.frame(d, seq, ack, flags, p);
    let total = (40 + p.len()) as u16;
    let h = wire::eth_hdr(n.gw_mac, n.mac, 0x0800);
    let i = wire::ip_packet_hdr(total, 6, d.ip);
    let t = wire::tcp_seg_sealed(d.ip, d.sport, d.dport, seq, ack, flags, p);
    lemma_ip(total, 6, d.ip);
    let ck = wire::tcp_cksum_of(GUEST_IP, d.ip, wire::tcp_seg(d.sport, d.dport, seq, ack, flags, 0, p));
    lemma_seg(d.sport, d.dport, seq, ack, flags, ck, p);
    assert(h.len() == 14);
    assert(f == h + i + t);
    assert forall|x: int| 0 <= x < 20 implies f[14 + x] == i[x] by {}
    assert forall|x: int| 0 <= x < t.len() implies f[34 + x] == t[x] by {}
    assert(f.take(6) =~= n.gw_mac);
    assert(f.subrange(6, 12) =~= n.mac);
    assert(f[12] == h[12] && f[13] == h[13]);
    assert(h[12] == wire::be16_bytes(0x0800)[0] && h[13] == wire::be16_bytes(0x0800)[1]);
    assert(f[14] == i[0] && f[16] == i[2] && f[17] == i[3] && f[23] == i[9]);
    assert(f[26] == i[12] && f[27] == i[13] && f[28] == i[14] && f[29] == i[15]);
    assert(f[30] == i[16] && f[31] == i[17] && f[32] == i[18] && f[33] == i[19]);
    assert(f[34] == t[0] && f[35] == t[1] && f[36] == t[2] && f[37] == t[3]);
    assert(f[38] == t[4] && f[39] == t[5] && f[40] == t[6] && f[41] == t[7]);
    assert(f[42] == t[8] && f[43] == t[9] && f[44] == t[10] && f[45] == t[11]);
    assert(f[46] == t[12] && f[47] == t[13]);
    assert(f.skip(54) =~= t.skip(20));
}

// ---- sending ----

/// Frames from `from` on, all to the peer, each with its payload at the place
/// that its sequence number says.
pub open spec fn laid(n: NetV, m: NetV, d: Dest, first: u32, ack: u32, data: Seq<u8>) -> bool {
    let from = n.link.sent.len();
    &&& m.link.sent.len() >= from
    &&& m.link.sent.take(from as int) == n.link.sent
    &&& forall|j: int|
        from <= j < m.link.sent.len() ==> {
            let f = #[trigger] m.link.sent[j];
            let at = dist(seq_of(f), first);
            &&& goes(f, n, d)
            &&& ack_of(f) == ack
            &&& flags_of(f) == 0x10
            &&& 1 <= payload_of(f).len() <= 1460
            &&& at + payload_of(f).len() <= data.len()
            &&& payload_of(f) == data.subrange(at, at + payload_of(f).len())
        }
}

/// Frame `j` of `m` was taken by the device and carries byte `p` of what
/// begins at `first`.
pub open spec fn carries(n: NetV, m: NetV, j: int, first: u32, p: int) -> bool {
    let from = n.link.sent.len();
    let f = m.link.sent[j];
    from <= j < m.link.sent.len() && taken(n, j - from) && dist(seq_of(f), first) <= p < dist(seq_of(f), first)
        + payload_of(f).len()
}

/// Some frame that the device took carries byte `p`.
pub open spec fn carried(n: NetV, m: NetV, first: u32, p: int) -> bool {
    exists|j: int| #[trigger] carries(n, m, j, first, p)
}

/// What a run of segments puts on the link: number `j` carries the bytes from
/// `off + 1460 * j` on.
#[verifier::spinoff_prover]
#[verifier::rlimit(40)]
proof fn lemma_run(n: NetV, d: Dest, seq: u32, ack: u32, data: Seq<u8>, off: nat)
    requires
        n.mac.len() == 6,
        n.gw_mac.len() == 6,
        data.len() <= UNACK_CAP,
        off <= data.len(),
    ensures
        ({
            let (m, done) = n.tx_run(d, seq, ack, data, off);
            let from = n.link.sent.len() as int;
            let c = m.link.sent.len() - from;
            &&& c >= 0
            &&& m.mac == n.mac && m.gw_mac == n.gw_mac
            &&& m.link.sent.take(from) == n.link.sent
            &&& off <= done <= data.len()
            &&& forall|j: int|
                from <= j < from + c ==> {
                    let f = #[trigger] m.link.sent[j];
                    let at = off + 1460 * (j - from);
                    let to = if at + 1460 < data.len() {
                        at + 1460
                    } else {
                        data.len() as int
                    };
                    &&& at < data.len()
                    &&& goes(f, n, d)
                    &&& seq_of(f) == seq.wrapping_add(at as u32)
                    &&& ack_of(f) == ack
                    &&& flags_of(f) == 0x10
                    &&& payload_of(f) == data.subrange(at, to)
                }
            &&& forall|k: int| 0 <= k < c - 1 ==> #[trigger] taken(n, k)
            &&& if done == data.len() {
                &&& off + 1460 * (c - 1) < data.len() || c == 0
                &&& data.len() <= off + 1460 * c
                &&& c > 0 ==> taken(n, c - 1)
            } else {
                &&& c > 0
                &&& !taken(n, c - 1)
                &&& done == off + 1460 * (c - 1)
            }
        }),
    decreases data.len() - off,
{
    let (m, done) = n.tx_run(d, seq, ack, data, off);
    let from = n.link.sent.len() as int;
    if off < data.len() {
        let k = tcp::min_nat(MSS as nat, (data.len() - off) as nat);
        let p = data.subrange(off as int, (off + k) as int);
        lemma_frame(n, d, seq.wrapping_add(off as u32), ack, 0x10, p);
        let n1 = n.tx(d, seq.wrapping_add(off as u32), ack, 0x10, p);
        assert(n1.link.sent.len() == from + 1);
        assert(n1.link.sent.take(from) =~= n.link.sent);
        assert(n.link.accepts() == taken(n, 0));
        if n.link.accepts() {
            lemma_run(n1, d, seq, ack, data, off + k);
            assert(m == n1.tx_run(d, seq, ack, data, off + k).0);
            let c1 = m.link.sent.len() - (from + 1);
            assert(m.link.sent.take(from) =~= m.link.sent.take(from + 1).take(from));
            assert(m.link.sent[from] == m.link.sent.take(from + 1)[from]);
            assert forall|x: int| x >= 0 implies taken(n1, x) == #[trigger] taken(n, x + 1) by {}
            assert forall|x: int| 0 <= x < c1 implies #[trigger] taken(n, x) by {
                if x > 0 {
                    assert(taken(n1, x - 1));
                    assert(taken(n, (x - 1) + 1));
                }
            }
            if c1 > 0 {
                assert(taken(n1, c1 - 1) == taken(n, (c1 - 1) + 1));
                assert(k == 1460) by {
                    let f = m.link.sent[from + 1];
                }
            }
            assert forall|j: int| from <= j < from + 1 + c1 implies ({
                let f = #[trigger] m.link.sent[j];
                let at = off + 1460 * (j - from);
                let to = if at + 1460 < data.len() {
                    at + 1460
                } else {
                    data.len() as int
                };
                &&& at < data.len()
                &&& goes(f, n, d)
                &&& seq_of(f) == seq.wrapping_add(at as u32)
                &&& ack_of(f) == ack
                &&& flags_of(f) == 0x10
                &&& payload_of(f) == data.subrange(at, to)
            }) by {
                if j > from {
                    let f = m.link.sent[j];
                    assert(goes(f, n1, d));
                }
            }
        } else {
            assert(m == n1);
        }
    } else {
        assert(m.link.sent.take(from) =~= n.link.sent);
    }
}

/// A run of segments from its beginning: where each payload lies, and which
/// bytes are sent.
#[verifier::spinoff_prover]
#[verifier::rlimit(40)]
proof fn lemma_whole_run(n: NetV, d: Dest, seq: u32, ack: u32, data: Seq<u8>)
    requires
        n.mac.len() == 6,
        n.gw_mac.len() == 6,
        data.len() <= UNACK_CAP,
    ensures
        ({
            let (m, done) = n.tx_run(d, seq, ack, data, 0);
            &&& laid(n, m, d, seq, ack, data)
            &&& forall|p: int| 0 <= p < done ==> #[trigger] carried(n, m, seq, p)
            &&& (forall|k: int| 0 <= k && 1460 * k < data.len() ==> #[trigger] taken(n, k)) ==> done == data.len()
            &&& data.len() > 0 ==> m.link.sent.len() > n.link.sent.len()
        }),
{
    let (m, done) = n.tx_run(d, seq, ack, data, 0);
    let from = n.link.sent.len() as int;
    lemma_run(n, d, seq, ack, data, 0);
    let c = m.link.sent.len() - from;
    assert forall|j: int| from <= j < m.link.sent.len() implies dist(seq_of(#[trigger] m.link.sent[j]), seq) == 1460 * (j
        - from) by {
        let at = 1460 * (j - from);
        assert(seq_of(m.link.sent[j]) == seq.wrapping_add(at as u32));
        lemma_dist(seq, at as u32);
    }
    assert forall|p: int| 0 <= p < done implies #[trigger] carried(n, m, seq, p) by {
        let k = p / 1460;
        let j = from + k;
        assert(k < c);
        assert(taken(n, k));
        assert(m.link.sent[j].len() >= 0);
        assert(carries(n, m, j, seq, p));
    }
    if forall|k: int| 0 <= k && 1460 * k < data.len() ==> #[trigger] taken(n, k) {
        if done < data.len() {
            assert(taken(n, c - 1));
        }
    }
}

proof fn lemma_dist(a: u32, k: u32)
    ensures
        dist(a.wrapping_add(k) as int, a) == k,
{
    let s = a + k;
    if s > 0xffff_ffff {
        assert((s - 0x1_0000_0000 - a) % 0x1_0000_0000 == k) by {
            vstd::arithmetic::div_mod::lemma_mod_add_multiples_vanish(k as int - 0x1_0000_0000, 0x1_0000_0000);
        }
    }
}

/// Sending on a connection: every segment that goes out carries, at the place
/// that its sequence number says, a piece of the data, to the peer, with what
/// was received acknowledged. Each byte that is reported as sent is in a segment
/// that the device took, and is kept until it is acknowledged; the next sequence
/// number is behind the last of them. All is sent if the device takes all.
pub proof fn law_sent_data_reassembles(n: NetV, idx: int, data: Seq<u8>, now: u64)
    requires
        n.wf(),
        0 <= idx < NSOCK,
        n.socks[idx].used && n.socks[idx].kind == 1,
        n.socks[idx].tcp.state is Est || n.socks[idx].tcp.state is CloseWait,
        n.socks[idx].tcp.unacked.len() + data.len() <= UNACK_CAP,
    ensures
        ({
            let (m, r) = n.on_send(idx, data, now);
            let s = n.socks[idx];
            let t = s.tcp;
            let u = m.socks[idx].tcp;
            let sent = if r > 0 {
                r
            } else {
                0
            };
            &&& laid(n, m, Dest { ip: t.rip, dport: t.rport, sport: s.lport }, t.snd_nxt, t.rcv_nxt, data)
            &&& sent <= data.len()
            &&& forall|p: int| 0 <= p < sent ==> #[trigger] carried(n, m, t.snd_nxt, p)
            &&& data.len() > 0 && (forall|k: int| 0 <= k && 1460 * k < data.len() ==> #[trigger] taken(n, k)) ==> r
                == data.len()
            &&& r <= 0 ==> r == -1 && u == t
            &&& u.unacked == t.unacked + data.take(sent)
            &&& dist(u.snd_nxt as int, t.snd_nxt) == sent
            &&& u.snd_una == t.snd_una && u.rcv_nxt == t.rcv_nxt && u.rx == t.rx && u.state == t.state
            &&& forall|j: int| 0 <= j < NSOCK && j != idx ==> #[trigger] m.socks[j] == n.socks[j]
        }),
{
    let t = n.socks[idx].tcp;
    let d = n.dest(idx);
    assert(n.can_send(idx));
    lemma_whole_run(n, d, t.snd_nxt, t.rcv_nxt, data);
    tcp::lemma_tx_run_frame(n, d, t.snd_nxt, t.rcv_nxt, data, 0);
    let (x, done) = n.tx_run(d, t.snd_nxt, t.rcv_nxt, data, 0);
    let (m, r) = n.on_send(idx, data, now);
    lemma_dist(t.snd_nxt, done as u32);
    lemma_dist(t.snd_nxt, 0);
    assert(t.unacked + data.take(0) =~= t.unacked);
    assert(m.link == x.link);
    if r > 0 {
        assert forall|p: int| 0 <= p < r implies #[trigger] carried(n, m, t.snd_nxt, p) by {
            assert(carried(n, x, t.snd_nxt, p));
            let j = choose|j: int| #[trigger] carries(n, x, j, t.snd_nxt, p);
            assert(carries(n, m, j, t.snd_nxt, p));
        }
    }
}

/// A tick at which a connection is due repeats what is not acknowledged, up to
/// four segments of it, at the sequence numbers it had; nothing is forgotten
/// and nothing is counted as sent anew.
pub proof fn law_retransmission_repeats(n: NetV, i: int, now: u64)
    requires
        n.wf(),
        0 <= i < NSOCK,
        n.socks[i].used && n.socks[i].kind == 1,
        n.socks[i].tcp.state is Est || n.socks[i].tcp.state is CloseWait,
        n.socks[i].tcp.unacked.len() > 0,
        now >= n.socks[i].tcp.rto_at,
        n.socks[i].tcp.retries < tcp::MAX_RETRY,
    ensures
        ({
            let m = n.tick_slot(i, now).0;
            let s = n.socks[i];
            let t = s.tcp;
            let u = m.socks[i].tcp;
            &&& laid(n, m, Dest { ip: t.rip, dport: t.rport, sport: s.lport }, t.snd_una, t.rcv_nxt, t.unacked)
            &&& m.link.sent.len() > n.link.sent.len()
            &&& (forall|k: int| 0 <= k < 4 ==> #[trigger] taken(n, k)) ==> forall|p: int|
                0 <= p < t.unacked.len() && p < 5840 ==> #[trigger] carried(n, m, t.snd_una, p)
            &&& u == (TcbV { retries: (t.retries + 1) as u8, rto_at: u.rto_at, ..t })
            &&& u.rto_at == now.wrapping_add(20)
            &&& m.socks[i] == (SockV { tcp: u, ..s })
            &&& forall|j: int| 0 <= j < NSOCK && j != i ==> #[trigger] m.socks[j] == n.socks[j]
        }),
{
    let s = n.socks[i];
    let t = s.tcp;
    let d = n.dest(i);
    let total = tcp::min_nat(t.unacked.len(), 4 * MSS as nat) as int;
    let part = t.unacked.take(total);
    let m = n.tick_slot(i, now).0;
    let (x, done) = n.tx_run(d, t.snd_una, t.rcv_nxt, part, 0);
    assert(s.wf());
    tcp::lemma_tx_run_frame(n, d, t.snd_una, t.rcv_nxt, part, 0);
    lemma_whole_run(n, d, t.snd_una, t.rcv_nxt, part);
    assert(m.link == x.link);
    assert(laid(n, m, d, t.snd_una, t.rcv_nxt, t.unacked)) by {
        assert forall|j: int| n.link.sent.len() <= j < m.link.sent.len() implies ({
            let f = #[trigger] m.link.sent[j];
            let at = dist(seq_of(f), t.snd_una);
            &&& at + payload_of(f).len() <= t.unacked.len()
            &&& payload_of(f) == t.unacked.subrange(at, at + payload_of(f).len())
        }) by {
            let f = x.link.sent[j];
            let at = dist(seq_of(f), t.snd_una);
            assert(0 <= at);
            assert(part.subrange(at, at + payload_of(f).len()) =~= t.unacked.subrange(
                at,
                at + payload_of(f).len(),
            ));
        }
    }
    if forall|k: int| 0 <= k < 4 ==> #[trigger] taken(n, k) {
        assert(done == part.len());
        assert forall|p: int| 0 <= p < t.unacked.len() && p < 5840 implies #[trigger] carried(n, m, t.snd_una, p) by {
            assert(carried(n, x, t.snd_una, p));
            let j = choose|j: int| #[trigger] carries(n, x, j, t.snd_una, p);
            assert(carries(n, m, j, t.snd_una, p));
        }
    }
}

} // verus!
