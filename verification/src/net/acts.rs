//! What the operations on sockets do, told of the operations themselves.
use crate::net::linger;
use crate::net::peer;
use crate::net::sock;
use crate::net::state::{NetState, NetV, SockV, NSOCK, UNACK_CAP};
use crate::net::stream;
use crate::net::tcp;
use crate::net::tcp::{Dest, TcbV};
use vstd::prelude::*;

verus! {

/// Every segment of a send carries, at the place that its sequence number says,
/// a piece of the data; each byte reported as sent is in a segment that the
/// device took, and is kept until it is acknowledged.
pub proof fn law_send(n: &mut NetState, idx: usize, data: &[u8], now: u64, r: isize)
    requires
        old(n)@.wf(),
        idx < NSOCK,
        old(n)@.socks[idx as int].used && old(n)@.socks[idx as int].kind == 1,
        old(n)@.socks[idx as int].tcp.state is Est || old(n)@.socks[idx as int].tcp.state is CloseWait,
        old(n)@.socks[idx as int].tcp.unacked.len() + data@.len() <= UNACK_CAP,
        call_ensures(sock::sock_send, (n, idx, data, now), r),
    ensures
        ({
            let a = old(n)@;
            let b = final(n)@;
            let s = a.socks[idx as int];
            let t = s.tcp;
            let u = b.socks[idx as int].tcp;
            let sent = if r > 0 { r as int } else { 0 };
            &&& stream::laid(a, b, Dest { ip: t.rip, dport: t.rport, sport: s.lport }, t.snd_nxt, t.rcv_nxt, data@)
            &&& forall|p: int| 0 <= p < sent ==> #[trigger] stream::carried(a, b, t.snd_nxt, p)
            &&& data@.len() > 0 && (forall|k: int|
                0 <= k && 1460 * k < data@.len() ==> #[trigger] stream::taken(a, k)) ==> r == data@.len()
            &&& u.unacked == t.unacked + data@.take(sent)
            &&& stream::dist(u.snd_nxt as int, t.snd_nxt) == sent
            &&& peer::others_same(a, b, idx as int)
        }),
{
    stream::law_sent_data_reassembles(old(n)@, idx as int, data@, now);
}

proof fn lemma_idle(n: NetV, upto: int, now: u64)
    requires
        n.socks.len() == NSOCK,
        0 <= upto <= NSOCK,
        forall|j: int| 0 <= j < upto ==> !(#[trigger] n.socks[j]).used,
    ensures
        n.tick(upto, now) == (n, false),
    decreases upto,
{
    if upto > 0 {
        lemma_idle(n, upto - 1, now);
    }
}

proof fn lemma_one(n: NetV, i: int, upto: int, now: u64)
    requires
        n.socks.len() == NSOCK,
        0 <= i < upto <= NSOCK,
        forall|j: int| 0 <= j < NSOCK && j != i ==> !(#[trigger] n.socks[j]).used,
        n.tick_slot(i, now).0.socks.len() == NSOCK,
        forall|j: int| 0 <= j < NSOCK && j != i ==> #[trigger] n.tick_slot(i, now).0.socks[j] == n.socks[j],
    ensures
        n.tick(upto, now).0 == n.tick_slot(i, now).0,
    decreases upto,
{
    if upto == i + 1 {
        lemma_idle(n, i, now);
    } else {
        lemma_one(n, i, upto - 1, now);
    }
}

/// With one connection open, a tick at which it is due repeats what is not
/// acknowledged, at the sequence numbers it had.
pub proof fn law_tick(n: &mut NetState, now: u64, wake: bool, i: int)
    requires
        old(n)@.wf(),
        0 <= i < NSOCK,
        old(n)@.socks[i].used && old(n)@.socks[i].kind == 1,
        old(n)@.socks[i].tcp.state is Est || old(n)@.socks[i].tcp.state is CloseWait,
        old(n)@.socks[i].tcp.unacked.len() > 0,
        now >= old(n)@.socks[i].tcp.rto_at,
        old(n)@.socks[i].tcp.retries < 5,
        forall|j: int| 0 <= j < NSOCK && j != i ==> !(#[trigger] old(n)@.socks[j]).used,
        call_ensures(tcp::tcp_tick, (n, now), wake),
    ensures
        ({
            let a = old(n)@;
            let b = final(n)@;
            let s = a.socks[i];
            let t = s.tcp;
            &&& stream::laid(a, b, Dest { ip: t.rip, dport: t.rport, sport: s.lport }, t.snd_una, t.rcv_nxt, t.unacked)
            &&& b.link.sent.len() > a.link.sent.len()
            &&& (forall|k: int| 0 <= k < 4 ==> #[trigger] stream::taken(a, k)) ==> forall|p: int|
                0 <= p < t.unacked.len() && p < 5840 ==> #[trigger] stream::carried(a, b, t.snd_una, p)
            &&& b.socks[i].tcp.unacked == t.unacked
            &&& b.socks[i].tcp.snd_una == t.snd_una
            &&& b.socks[i].tcp.snd_nxt == t.snd_nxt
            &&& b.socks[i].tcp.retries == t.retries + 1
        }),
{
    stream::law_retransmission_repeats(old(n)@, i, now);
    linger::lemma_tick_slot(old(n)@, i, now);
    lemma_one(old(n)@, i, NSOCK as int, now);
}

/// Data of a segment that comes in order is what a read gives next, behind what
/// waited, and it is acknowledged.
pub proof fn law_receive(n: &mut NetState, ip: u32, seg: &[u8], now: u64, wake: bool, i: int)
    requires
        old(n)@.wf(),
        0 <= i < NSOCK,
        peer::intact(ip, seg@),
        peer::at_slot(old(n)@.socks[i], ip, seg@),
        old(n)@.socks[i].tcp.state is Est,
        seg@[13] & 0x10 != 0,
        seg@[13] & 4 == 0,
        seg@[13] & 2 == 0,
        seg@[13] & 1 == 0,
        peer::acks_sent(old(n)@.socks[i].tcp, seg@),
        peer::data_of(seg@).len() > 0,
        stream::n4(seg@, 4) == old(n)@.socks[i].tcp.rcv_nxt,
        old(n)@.socks[i].tcp.rx.len() + peer::data_of(seg@).len() <= 32768,
        call_ensures(tcp::tcp_rx, (n, ip, seg, now), wake),
    ensures
        ({
            let s = old(n)@.socks[i].tcp;
            let t = final(n)@.socks[i].tcp;
            &&& t.rx == s.rx + peer::data_of(seg@)
            &&& peer::ahead(t.rcv_nxt, s.rcv_nxt, peer::data_of(seg@).len() as int)
            &&& peer::answers(old(n)@, final(n)@, peer::end_of(old(n)@.socks[i]), s.snd_nxt, t.rcv_nxt, 0x10)
            &&& peer::others_same(old(n)@, final(n)@, i)
            &&& wake
        }),
{
    peer::law_in_order_data_is_taken(old(n)@, i, ip, seg@, now);
    let p = peer::data_of(seg@);
    assert(p.take(p.len() as int) =~= p);
}

/// A read gives the first bytes that wait, at the start of the buffer, and the
/// rest of both stays.
pub proof fn law_recv(n: &mut NetState, idx: usize, out: &mut [u8], r: isize)
    requires
        old(n)@.wf(),
        idx < NSOCK,
        old(n)@.socks[idx as int].used && old(n)@.socks[idx as int].kind == 1,
        old(n)@.socks[idx as int].tcp.rx.len() > 0,
        call_ensures(sock::sock_recv, (n, idx, out), r),
    ensures
        0 <= r <= old(out)@.len(),
        final(out)@.take(r as int) + final(n)@.socks[idx as int].tcp.rx == old(n)@.socks[idx as int].tcp.rx,
        final(out)@.skip(r as int) == old(out)@.skip(r as int),
        r == old(out)@.len() || final(n)@.socks[idx as int].tcp.rx.len() == 0,
        peer::others_same(old(n)@, final(n)@, idx as int),
{
    peer::law_read_takes_the_oldest(old(n)@, idx as int, old(out)@.len());
    let got = old(n)@.on_recv(idx as int, old(out)@.len()).1;
    assert(final(out)@.take(r as int) =~= got);
    assert(final(out)@.skip(r as int) =~= old(out)@.skip(r as int));
}

/// A port is given to a socket just where it is one and no other open socket has
/// it.
pub proof fn law_bind(n: &mut NetState, idx: usize, port: u16, ok: bool)
    requires
        old(n)@.wf(),
        call_ensures(sock::sock_bind, (n, idx, port), ok),
    ensures
        ok <==> idx < NSOCK && old(n)@.socks[idx as int].used && port != 0 && forall|j: int|
            0 <= j < NSOCK && j != idx && old(n)@.socks[j].used ==> (#[trigger] old(n)@.socks[j]).lport != port,
        ok ==> final(n)@.socks[idx as int] == (SockV { lport: port, ..old(n)@.socks[idx as int] }),
        ok ==> peer::others_same(old(n)@, final(n)@, idx as int),
        !ok ==> final(n)@ == old(n)@,
{
}

/// A socket that listens is one with a port that held no connection.
pub proof fn law_listen(n: &mut NetState, idx: usize, ok: bool)
    requires
        old(n)@.wf(),
        call_ensures(sock::sock_listen, (n, idx), ok),
    ensures
        ok <==> idx < NSOCK && old(n)@.socks[idx as int].used && old(n)@.socks[idx as int].kind == 1
            && old(n)@.socks[idx as int].lport != 0 && old(n)@.socks[idx as int].tcp.state is Closed,
        ok ==> final(n)@.socks[idx as int].tcp.state is Listen,
        ok ==> final(n)@.socks[idx as int].lport == old(n)@.socks[idx as int].lport,
        ok ==> peer::others_same(old(n)@, final(n)@, idx as int),
        !ok ==> final(n)@ == old(n)@,
{
}

/// Who a socket sends to is who it was told; nothing else of it changes.
pub proof fn law_connect(n: &mut NetState, idx: usize, ip: u32, port: u16, ok: bool)
    requires
        old(n)@.wf(),
        call_ensures(sock::sock_connect, (n, idx, ip, port), ok),
    ensures
        ok <==> idx < NSOCK && old(n)@.socks[idx as int].used,
        ok ==> final(n)@.socks[idx as int] == (SockV { peer_ip: ip, peer_port: port, ..old(n)@.socks[idx as int] }),
        ok ==> peer::others_same(old(n)@, final(n)@, idx as int),
        !ok ==> final(n)@ == old(n)@,
{
}

/// A connection that is handed out is not handed out again.
pub proof fn law_accept(n: &mut NetState, li: usize, r: Option<usize>, u: ())
    requires
        old(n)@.wf(),
        li < NSOCK,
        old(n)@.socks[li as int].used,
        old(n)@.socks[li as int].tcp.state is Listen,
        call_ensures(sock::sock_accept, (&*old(n), li), r),
        r is Some ==> call_ensures(sock::sock_accept_commit, (n, r->0), u),
    ensures
        r is Some ==> {
            let i = r->0 as int;
            &&& 0 <= i < NSOCK
            &&& peer::waits_for(old(n)@.socks[i], li as int)
            &&& old(n)@.socks[i].tcp.state is Est
            &&& final(n)@.socks[i] == (SockV {
                tcp: TcbV { accepted: true, ..old(n)@.socks[i].tcp },
                ..old(n)@.socks[i]
            })
            &&& !peer::waits_for(final(n)@.socks[i], li as int)
            &&& peer::others_same(old(n)@, final(n)@, i)
        },
        r is None ==> forall|j: int|
            0 <= j < NSOCK ==> !(peer::waits_for(#[trigger] old(n)@.socks[j], li as int) && old(n)@.socks[j].tcp.state is Est),
{
    peer::law_waiting_connection_is_handed_out(old(n)@, li as int, 0);
}

/// A socket that is closed is gone, or, a connection, tells its peer so.
pub proof fn law_close(n: &mut NetState, idx: usize, now: u64, u: ())
    requires
        old(n)@.wf(),
        idx < NSOCK,
        old(n)@.socks[idx as int].used,
        call_ensures(sock::sock_close, (n, idx, now), u),
    ensures
        ({
            let s = old(n)@.socks[idx as int];
            let t = final(n)@.socks[idx as int];
            &&& s.kind != 1 ==> !t.used && t.rx.len() == 0 && final(n)@.link == old(n)@.link
            &&& s.kind == 1 && s.tcp.state is Est ==> t.used && t.closing && peer::answers(
                old(n)@,
                final(n)@,
                peer::end_of(s),
                s.tcp.snd_nxt,
                s.tcp.rcv_nxt,
                17,
            )
            &&& s.kind == 1 && s.tcp.state is Listen ==> !t.used
            &&& peer::others_same(old(n)@, final(n)@, idx as int)
        }),
{
    let s = old(n)@.socks[idx as int];
    if s.kind == 1 && (s.tcp.state is Est || s.tcp.state is CloseWait) {
        peer::law_close_tells_the_peer(old(n)@, idx as int, now);
    }
}

/// A datagram that comes is the next but those that wait, for the socket on its
/// port.
pub proof fn law_datagram(
    n: &mut NetState,
    f: &[u8],
    now: u64,
    u: (),
    i: int,
    ip: u32,
    sport: u16,
    dport: u16,
    data: Seq<u8>,
)
    requires
        old(n)@.wf(),
        0 <= i < NSOCK,
        peer::is_datagram(f@, ip, sport, dport, data),
        old(n)@.socks[i].used,
        old(n)@.socks[i].lport == dport,
        forall|j: int| 0 <= j < i ==> !((#[trigger] old(n)@.socks[j]).used && old(n)@.socks[j].lport == dport),
        old(n)@.socks[i].rx.len() < 8,
        call_ensures(sock::parse_frame, (n, f, now), u),
    ensures
        final(n)@.socks[i].rx == old(n)@.socks[i].rx.push((ip, sport, data)),
        peer::others_same(old(n)@, final(n)@, i),
{
    peer::law_datagram_is_queued(old(n)@, i, f@, ip, sport, dport, data, now);
}

} // verus!
