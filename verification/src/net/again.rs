//! What time brings: repeats, giving up, and what the device's ring holds.
use crate::net::linger;
use crate::net::peer;
use crate::net::sock;
use crate::net::sock::{UsedElem, RXBUF};
use crate::net::state::{NetState, NetV, SockV, NSOCK};
use crate::net::stream;
use crate::net::tcp;
use crate::net::tcp::TcbV;
use crate::net::wire;
use crate::net::wire::GUEST_IP;
use vstd::prelude::*;

verus! {

// ---- timers ----

/// The answer to an opening that was not acknowledged is repeated every twenty
/// ticks, with the same numbers; after five repeats the slot is free.
pub proof fn law_answer_is_repeated(n: NetV, i: int, now: u64)
    requires
        n.wf(),
        0 <= i < NSOCK,
        n.socks[i].used && n.socks[i].kind == 1,
        n.socks[i].tcp.state is SynRcvd,
        now < u64::MAX - 20,
    ensures
        ({
            let (m, woken) = n.tick_slot(i, now);
            let s = n.socks[i];
            let t = s.tcp;
            &&& now < t.rto_at ==> m == n && !woken
            &&& now >= t.rto_at && t.retries < 5 ==> peer::answers(n, m, peer::end_of(s), t.iss, t.rcv_nxt, 18)
                && m.socks[i] == (SockV {
                tcp: TcbV { retries: (t.retries + 1) as u8, rto_at: (now + 20) as u64, ..t },
                ..s
            })
            &&& now >= t.rto_at && t.retries >= 5 ==> !m.socks[i].used && m.socks[i].tcp.state is Closed && m.link
                == n.link && woken
            &&& peer::others_same(n, m, i)
        }),
{
    let s = n.socks[i];
    let t = s.tcp;
    peer::lemma_tx(n, peer::end_of(s), t.iss, t.rcv_nxt, 18);
}

/// A connection whose data was sent six times without an acknowledgment is
/// given up: the peer is told with a reset, and the slot is free.
pub proof fn law_connection_is_given_up(n: NetV, i: int, now: u64)
    requires
        n.wf(),
        0 <= i < NSOCK,
        n.socks[i].used && n.socks[i].kind == 1,
        n.socks[i].tcp.state is Est || n.socks[i].tcp.state is CloseWait || n.socks[i].tcp.state is FinW1
            || n.socks[i].tcp.state is LastAck,
        n.socks[i].tcp.unacked.len() > 0,
        now >= n.socks[i].tcp.rto_at,
        n.socks[i].tcp.retries >= 5,
    ensures
        ({
            let (m, woken) = n.tick_slot(i, now);
            let s = n.socks[i];
            &&& peer::answers(n, m, peer::end_of(s), 0, s.tcp.rcv_nxt, 20)
            &&& !m.socks[i].used && !m.socks[i].closing
            &&& m.socks[i].tcp.state is Closed
            &&& m.socks[i].tcp.unacked.len() == 0 && m.socks[i].tcp.rx.len() == 0
            &&& woken
            &&& peer::others_same(n, m, i)
        }),
{
    let s = n.socks[i];
    peer::lemma_tx(n, peer::end_of(s), 0, s.tcp.rcv_nxt, 20);
}

/// Before its time, and with nothing to repeat, a connection is left alone.
pub proof fn law_nothing_before_its_time(n: NetV, i: int, now: u64)
    requires
        0 <= i < NSOCK,
        n.socks[i].used && n.socks[i].kind == 1,
        n.socks[i].tcp.state is Est || n.socks[i].tcp.state is CloseWait,
        now < n.socks[i].tcp.rto_at || n.socks[i].tcp.unacked.len() == 0,
    ensures
        n.tick_slot(i, now) == (n, false),
{
}

/// An acknowledgment of something new takes that out of what is repeated and
/// starts the timer over; without data it is not answered.
pub proof fn law_acknowledgment_restarts(n: NetV, i: int, ip: u32, seg: Seq<u8>, now: u64)
    requires
        n.wf(),
        0 <= i < NSOCK,
        peer::intact(ip, seg),
        peer::at_slot(n.socks[i], ip, seg),
        n.socks[i].tcp.state is Est,
        seg[13] & 0x10 != 0,
        seg[13] & 4 == 0,
        seg[13] & 2 == 0,
        seg[13] & 1 == 0,
        peer::acks_sent(n.socks[i].tcp, seg),
        peer::data_of(seg).len() == 0,
        now < u64::MAX - 20,
    ensures
        ({
            let m = n.on_tcp(ip, seg, now).0;
            let s = n.socks[i].tcp;
            let t = m.socks[i].tcp;
            let a = peer::gap(stream::n4(seg, 8) as u32, s.snd_una);
            &&& a == 0 ==> m == n
            &&& a > 0 ==> t.retries == 0 && t.rto_at == now + 20 && t.snd_una == stream::n4(seg, 8)
            &&& 0 < a <= s.unacked.len() ==> t.unacked == s.unacked.skip(a)
            &&& t.rx == s.rx && t.rcv_nxt == s.rcv_nxt && t.snd_nxt == s.snd_nxt && t.state is Est
            &&& m.link == n.link
            &&& peer::others_same(n, m, i)
        }),
{
    peer::lemma_fields(seg);
    peer::lemma_found(n, i, ip, seg, now);
    let s = n.socks[i].tcp;
    let ack = stream::n4(seg, 8) as u32;
    peer::lemma_sub(ack, s.snd_una);
    peer::lemma_sub(s.snd_nxt, s.snd_una);
    assert(linger::parting(n.socks[i]));
    if peer::gap(ack, s.snd_una) == 0 {
        assert(ack == s.snd_una);
        assert(n.on_tcp(ip, seg, now).0 =~= n);
    }
}

// ---- the ring ----

/// What the device filled is taken in order: two turns are as one with the
/// entries of both.
pub proof fn law_turns_add_up(n: NetV, a: Seq<UsedElem>, b: Seq<UsedElem>, bufs: Seq<[u8; RXBUF]>, now: u64)
    ensures
        n.on_ring(a + b, bufs, (a + b).len() as int, now) == n.on_ring(a, bufs, a.len() as int, now).on_ring(
            b,
            bufs,
            b.len() as int,
            now,
        ),
    decreases b.len(),
{
    lemma_ring(n, a, b, bufs, b.len() as int, now);
}

proof fn lemma_ring(n: NetV, a: Seq<UsedElem>, b: Seq<UsedElem>, bufs: Seq<[u8; RXBUF]>, k: int, now: u64)
    requires
        0 <= k <= b.len(),
    ensures
        n.on_ring(a + b, bufs, a.len() + k, now) == n.on_ring(a, bufs, a.len() as int, now).on_ring(b, bufs, k, now),
    decreases k,
{
    if k > 0 {
        lemma_ring(n, a, b, bufs, k - 1, now);
        assert((a + b)[a.len() + k - 1] == b[k - 1]);
    } else {
        lemma_ring_head(n, a, b, bufs, a.len() as int, now);
    }
}

proof fn lemma_ring_head(n: NetV, a: Seq<UsedElem>, b: Seq<UsedElem>, bufs: Seq<[u8; RXBUF]>, k: int, now: u64)
    requires
        0 <= k <= a.len(),
    ensures
        n.on_ring(a + b, bufs, k, now) == n.on_ring(a, bufs, k, now),
    decreases k,
{
    if k > 0 {
        lemma_ring_head(n, a, b, bufs, k - 1, now);
        assert((a + b)[k - 1] == a[k - 1]);
    }
}

/// An entry's frame stands behind the ten bytes of the device's header, up to
/// the length the device wrote; an entry without room for that header, or of no
/// buffer, holds none.
pub proof fn law_entry_is_a_frame(n: NetV, e: UsedElem, bufs: Seq<[u8; RXBUF]>, now: u64)
    ensures
        e.id < 8 && 10 <= e.len <= 2048 ==> n.on_ring(seq![e], bufs, 1, now) == n.on_frame(
            bufs[e.id as int]@.subrange(10, e.len as int),
            now,
        ),
        !(e.id < 8 && 10 <= e.len <= 2048) ==> n.on_ring(seq![e], bufs, 1, now) == n,
{
    reveal_with_fuel(NetV::on_ring, 2);
}

/// Every buffer the device is done with is given back to it, whether it held a
/// frame or not, and no other is.
pub proof fn law_buffers_go_back(ring: Seq<UsedElem>, id: usize)
    ensures
        sock::reposts(ring).contains(id) <==> id < 8 && exists|i: int| 0 <= i < ring.len() && (#[trigger] ring[i]).id == id,
        (forall|i: int| 0 <= i < ring.len() ==> (#[trigger] ring[i]).id < 8) ==> sock::reposts(ring).len() == ring.len(),
    decreases ring.len(),
{
    let r = sock::reposts(ring);
    if ring.len() > 0 {
        let l = ring.drop_last();
        let q = sock::reposts(l);
        law_buffers_go_back(l, id);
        assert forall|i: int| 0 <= i < l.len() implies #[trigger] l[i] == ring[i] by {}
        if ring.last().id < 8 {
            assert(r == q.push(ring.last().id));
            assert(r[q.len() as int] == ring.last().id);
            if q.contains(id) {
                let k = choose|k: int| 0 <= k < q.len() && q[k] == id;
                assert(r[k] == id);
            }
            if r.contains(id) {
                let k = choose|k: int| 0 <= k < r.len() && r[k] == id;
                if k < q.len() {
                    assert(q[k] == id);
                } else {
                    assert(ring[ring.len() - 1].id == id);
                }
            }
        }
        if exists|i: int| 0 <= i < ring.len() && (#[trigger] ring[i]).id == id {
            let i = choose|i: int| 0 <= i < ring.len() && (#[trigger] ring[i]).id == id;
            if i < l.len() {
                assert(l[i].id == id);
            }
        }
        if q.contains(id) {
            let i = choose|i: int| 0 <= i < l.len() && (#[trigger] l[i]).id == id;
            assert(ring[i].id == id);
        }
    }
}

/// Harvesting wakes just where a frame came or a transmission is done, gives
/// every buffer back, and takes the frames in order.
pub proof fn law_harvest(
    n: &mut NetState,
    ring: &Vec<UsedElem>,
    bufs: &[[u8; RXBUF]; 8],
    done: bool,
    now: u64,
    r: (bool, Vec<usize>),
    id: usize,
)
    requires
        call_ensures(sock::harvest_locked, (n, ring, bufs, done, now), r),
    ensures
        r.0 <==> done || exists|i: int|
            0 <= i < ring@.len() && (#[trigger] ring@[i]).id < 8 && 10 <= ring@[i].len <= 2048,
        r.1@.contains(id) <==> id < 8 && exists|i: int| 0 <= i < ring@.len() && (#[trigger] ring@[i]).id == id,
        final(n)@ == old(n)@.on_ring(ring@, bufs@, ring@.len() as int, now),
{
    law_buffers_go_back(ring@, id);
    if exists|i: int| 0 <= i < ring@.len() && (#[trigger] ring@[i]).id < 8 && 10 <= ring@[i].len <= 2048 {
        let i = choose|i: int| 0 <= i < ring@.len() && (#[trigger] ring@[i]).id < 8 && 10 <= ring@[i].len <= 2048;
        assert(sock::holds_frame(ring@[i]));
    }
}

// ---- the gateway ----

/// Without the gateway's address nothing goes out but the question for it, to
/// all, with our addresses and its own, at most once in a hundred ticks.
pub proof fn law_gateway_is_asked(n: NetV, i: int, data: Seq<u8>, now: u64)
    requires
        n.wf(),
        0 <= i < NSOCK,
        n.socks[i].kind == 0,
        !n.arp_ok,
        data.len() <= 1472,
        now >= n.arp_req_at,
    ensures
        ({
            let (m, r) = n.on_udp_send(i, data, now);
            let f = m.link.sent.last();
            &&& r == -2
            &&& m.socks == n.socks
            &&& now - n.arp_req_at <= 100 ==> m == n
            &&& now - n.arp_req_at > 100 ==> {
                &&& m.link.sent.len() == n.link.sent.len() + 1
                &&& m.link.sent.drop_last() == n.link.sent
                &&& m.arp_req_at == now
                &&& f.len() == 42
                &&& forall|x: int| 0 <= x < 6 ==> f[x] == 0xff
                &&& f.subrange(6, 12) == n.mac
                &&& f[12] == 8 && f[13] == 6
                &&& f[14] == 0 && f[15] == 1 && f[16] == 8 && f[17] == 0 && f[18] == 6 && f[19] == 4
                &&& f[20] == 0 && f[21] == 1
                &&& f.subrange(22, 28) == n.mac
                &&& stream::n4(f, 28) == GUEST_IP
                &&& stream::n4(f, 38) == 0x0a00_0202
            }
        }),
{
    let (m, r) = n.on_udp_send(i, data, now);
    let f = wire::arp_frame(n.mac);
    let h = wire::eth_hdr(Seq::new(6, |i: int| 0xffu8), n.mac, 0x0806);
    assert(h.len() == 14);
    assert(h[12] == 8 && h[13] == 6);
    assert(f.len() == 42);
    assert forall|x: int| 0 <= x < 14 implies f[x] == h[x] by {}
    let a = wire::be16_bytes(1);
    let b = wire::be16_bytes(0x0800);
    assert(f[14] == a[0] && f[15] == a[1] && f[16] == b[0] && f[17] == b[1] && f[20] == a[0] && f[21] == a[1]);
    assert(f.subrange(6, 12) =~= n.mac);
    assert(f.subrange(22, 28) =~= n.mac);
    let p = wire::be32_bytes(GUEST_IP);
    let q = wire::be32_bytes(0x0a00_0202);
    assert(f[28] == p[0] && f[29] == p[1] && f[30] == p[2] && f[31] == p[3]);
    assert(f[38] == q[0] && f[39] == q[1] && f[40] == q[2] && f[41] == q[3]);
    assert(m.link.sent.len() > n.link.sent.len() ==> m.link.sent.drop_last() =~= n.link.sent);
}

// ---- from frame to socket ----

/// A segment in a frame for this machine is what its connection gets, whatever
/// pads the frame behind it.
pub proof fn law_segment_is_handed_on(
    n: &mut NetState,
    f: &[u8],
    now: u64,
    u: (),
    t: &mut NetState,
    ip: u32,
    seg: &[u8],
    woken: bool,
)
    requires
        f@.len() >= 42,
        f@[12] == 8 && f@[13] == 0,
        f@[14] / 16 == 4,
        f@[14] % 16 * 4 >= 20,
        f@[23] == 6,
        stream::n4(f@, 26) == ip,
        stream::n4(f@, 30) == GUEST_IP,
        stream::n2(f@, 16) == f@[14] % 16 * 4 + seg@.len(),
        f@.len() >= 14 + f@[14] % 16 * 4 + 8,
        f@.len() >= 14 + f@[14] % 16 * 4 + seg@.len(),
        f@.subrange(14 + f@[14] % 16 * 4, 14 + f@[14] % 16 * 4 + seg@.len()) == seg@,
        call_ensures(sock::parse_frame, (n, f, now), u),
        old(t)@ == old(n)@,
        call_ensures(tcp::tcp_rx, (t, ip, seg, now), woken),
    ensures
        final(n)@ == final(t)@,
{
    assert(wire::be16_of(f@, 12) == 0x0800);
    assert(wire::be16_of(f@, 16) == stream::n2(f@, 16));
    assert(wire::be32_of(f@, 26) == stream::n4(f@, 26));
    assert(sock::has_tcp(f@));
    assert(sock::tcp_part(f@) == seg@);
}

/// A send arms the timer for twenty ticks later; one that is not of a connection,
/// or for which there is no room, sends nothing.
pub proof fn law_send_arms(n: &mut NetState, idx: usize, data: &[u8], now: u64, r: isize)
    requires
        old(n)@.wf(),
        idx < NSOCK,
        now < u64::MAX - 20,
        call_ensures(sock::sock_send, (n, idx, data, now), r),
    ensures
        ({
            let s = old(n)@.socks[idx as int];
            let t = final(n)@.socks[idx as int];
            let open = s.used && s.kind == 1 && (s.tcp.state is Est || s.tcp.state is CloseWait);
            &&& open && r > 0 ==> t.tcp.rto_at == now + 20 && t.tcp.retries == 0
            &&& open && s.tcp.unacked.len() + data@.len() > 65536 ==> r == -2 && final(n)@ == old(n)@
            &&& !s.used ==> r == -1 && final(n)@ == old(n)@
            &&& s.used && s.kind == 1 && !open ==> r == -1 && final(n)@ == old(n)@
        }),
{
    let s = old(n)@.socks[idx as int];
    tcp::lemma_tx_run_frame(old(n)@, old(n)@.dest(idx as int), s.tcp.snd_nxt, s.tcp.rcv_nxt, data@, 0);
}

/// Datagrams are read one at a time, oldest first.
pub proof fn law_datagram_is_read(n: &mut NetState, idx: usize, out: &mut [u8], r: isize)
    requires
        old(n)@.wf(),
        idx < NSOCK,
        old(n)@.socks[idx as int].used,
        old(n)@.socks[idx as int].kind == 0,
        call_ensures(sock::sock_recv, (n, idx, out), r),
    ensures
        ({
            let q = old(n)@.socks[idx as int].rx;
            &&& q.len() == 0 ==> r == -2 && final(n)@ == old(n)@ && final(out)@ == old(out)@
            &&& q.len() > 0 ==> 0 <= r && final(out)@.take(r as int) == q[0].2.take(r as int) && (r == q[0].2.len() || r
                == old(out)@.len()) && final(n)@.socks[idx as int].rx == q.skip(1)
            &&& q.len() > 0 ==> final(out)@.skip(r as int) == old(out)@.skip(r as int)
        }),
{
    peer::law_datagrams_are_read_in_order(old(n)@, idx as int, old(out)@.len());
    let q = old(n)@.socks[idx as int].rx;
    if q.len() > 0 {
        assert(final(out)@.take(r as int) =~= q[0].2.take(r as int));
        assert(final(out)@.skip(r as int) =~= old(out)@.skip(r as int));
    } else {
        assert(final(out)@ =~= old(out)@);
    }
}

} // verus!
