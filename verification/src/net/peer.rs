//! What a peer's segments and datagrams do, byte by byte, and what the peer is
//! answered.
use crate::net::linger;
use crate::net::sock;
use crate::net::state::{NetV, SockV, NSOCK};
use crate::net::stream;
use crate::net::tcp;
use crate::net::tcp::{Dest, TcbV};
use crate::net::wire;
use crate::net::wire::GUEST_IP;
use vstd::prelude::*;

verus! {

/// The segment's header is whole and its checksum right.
pub open spec fn intact(ip: u32, seg: Seq<u8>) -> bool {
    &&& seg.len() >= 20
    &&& seg.len() < 0x1_0000
    &&& 20 <= seg[12] / 16 * 4 <= seg.len()
    &&& wire::tcp_cksum_of(ip, GUEST_IP, seg) == 0
}

/// The slot holds the connection that the segment belongs to.
pub open spec fn at_slot(s: SockV, ip: u32, seg: Seq<u8>) -> bool {
    &&& s.used && s.kind == 1
    &&& !(s.tcp.state is Listen)
    &&& s.lport == stream::n2(seg, 2)
    &&& s.tcp.rip == ip
    &&& s.tcp.rport == stream::n2(seg, 0)
}

/// Its data.
pub open spec fn data_of(seg: Seq<u8>) -> Seq<u8> {
    seg.skip((seg[12] / 16 * 4) as int)
}

/// `a` lies `k` behind `b` on the circle of sequence numbers.
pub open spec fn ahead(a: u32, b: u32, k: int) -> bool {
    a == (b + k) % 0x1_0000_0000
}

/// How far `a` lies behind `b` on the circle.
pub open spec fn gap(a: u32, b: u32) -> int {
    (a - b) % 0x1_0000_0000
}

/// What it acknowledges was sent.
pub open spec fn acks_sent(t: TcbV, seg: Seq<u8>) -> bool {
    gap(stream::n4(seg, 8) as u32, t.snd_una) <= gap(t.snd_nxt, t.snd_una)
}

/// Exactly one more frame is on the link: a segment without data from the
/// connection, with these numbers and flags.
pub open spec fn answers(n: NetV, m: NetV, d: Dest, seq: u32, ack: u32, flags: u8) -> bool {
    let f = m.link.sent.last();
    &&& m.link.sent.len() == n.link.sent.len() + 1
    &&& m.link.sent.drop_last() == n.link.sent
    &&& stream::goes(f, n, d)
    &&& stream::seq_of(f) == seq
    &&& stream::ack_of(f) == ack
    &&& stream::flags_of(f) == flags
    &&& stream::payload_of(f).len() == 0
}

pub open spec fn end_of(s: SockV) -> Dest {
    Dest { ip: s.tcp.rip, dport: s.tcp.rport, sport: s.lport }
}

/// Every other slot is as it was.
pub open spec fn others_same(n: NetV, m: NetV, i: int) -> bool {
    &&& m.socks.len() == n.socks.len()
    &&& forall|j: int| 0 <= j < n.socks.len() && j != i ==> #[trigger] m.socks[j] == n.socks[j]
}

pub proof fn lemma_sub(a: u32, b: u32)
    ensures
        a.wrapping_sub(b) == gap(a, b),
{
}

proof fn lemma_add(b: u32, k: u32)
    ensures
        ahead(b.wrapping_add(k), b, k as int),
{
}

proof fn lemma_add_one(b: u32, k: u32)
    ensures
        ahead(b.wrapping_add(k).wrapping_add(1), b, k + 1),
{
}

pub proof fn lemma_fields(seg: Seq<u8>)
    requires
        seg.len() >= 20,
    ensures
        wire::be16_of(seg, 0) == stream::n2(seg, 0),
        wire::be16_of(seg, 2) == stream::n2(seg, 2),
        wire::be32_of(seg, 4) == stream::n4(seg, 4),
        wire::be32_of(seg, 8) == stream::n4(seg, 8),
        0 <= stream::n2(seg, 0) < 0x1_0000,
        0 <= stream::n2(seg, 2) < 0x1_0000,
        0 <= stream::n4(seg, 4) < 0x1_0000_0000,
        0 <= stream::n4(seg, 8) < 0x1_0000_0000,
{
}

pub proof fn lemma_tx(n: NetV, d: Dest, seq: u32, ack: u32, flags: u8)
    requires
        n.mac.len() == 6,
        n.gw_mac.len() == 6,
    ensures
        answers(n, n.tx(d, seq, ack, flags, Seq::empty()), d, seq, ack, flags),
{
    let m = n.tx(d, seq, ack, flags, Seq::empty());
    stream::lemma_frame(n, d, seq, ack, flags, Seq::empty());
    assert(m.link.sent.drop_last() =~= n.link.sent);
}

/// Where the segment goes.
pub proof fn lemma_found(n: NetV, i: int, ip: u32, seg: Seq<u8>, now: u64)
    requires
        n.wf(),
        0 <= i < NSOCK,
        intact(ip, seg),
        at_slot(n.socks[i], ip, seg),
        seg[13] & 4 == 0,
    ensures
        n.on_tcp(ip, seg, now) == n.on_child(
            i,
            stream::n4(seg, 4) as u32,
            stream::n4(seg, 8) as u32,
            seg[13],
            data_of(seg),
            now,
        ),
{
    lemma_fields(seg);
    linger::lemma_child_is(n, ip, stream::n2(seg, 0) as u16, stream::n2(seg, 2) as u16, i);
}

/// Data that comes in order, with an acknowledgment of what was sent, is taken
/// as far as there is room and acknowledged; what the peer has acknowledged is
/// not sent again.
pub proof fn law_in_order_data_is_taken(n: NetV, i: int, ip: u32, seg: Seq<u8>, now: u64)
    requires
        n.wf(),
        0 <= i < NSOCK,
        intact(ip, seg),
        at_slot(n.socks[i], ip, seg),
        n.socks[i].tcp.state is Est,
        seg[13] & 0x10 != 0,
        seg[13] & 4 == 0,
        seg[13] & 2 == 0,
        seg[13] & 1 == 0,
        acks_sent(n.socks[i].tcp, seg),
        data_of(seg).len() > 0,
        stream::n4(seg, 4) == n.socks[i].tcp.rcv_nxt,
    ensures
        ({
            let (m, woken) = n.on_tcp(ip, seg, now);
            let s = n.socks[i].tcp;
            let t = m.socks[i].tcp;
            let p = data_of(seg);
            let k = if s.rx.len() + p.len() <= 32768 { p.len() as int } else { 32768 - s.rx.len() };
            let a = gap(stream::n4(seg, 8) as u32, s.snd_una);
            &&& t.rx == s.rx + p.take(k)
            &&& ahead(t.rcv_nxt, s.rcv_nxt, k)
            &&& answers(n, m, end_of(n.socks[i]), s.snd_nxt, t.rcv_nxt, 0x10)
            &&& t.snd_una == stream::n4(seg, 8)
            &&& t.snd_nxt == s.snd_nxt
            &&& t.unacked == if a <= s.unacked.len() { s.unacked.skip(a) } else { Seq::empty() }
            &&& t.state is Est
            &&& woken
            &&& others_same(n, m, i)
            &&& m.socks[i] == (SockV { tcp: t, ..n.socks[i] })
        }),
{
    lemma_fields(seg);
    lemma_found(n, i, ip, seg, now);
    let s = n.socks[i].tcp;
    let ack = stream::n4(seg, 8) as u32;
    lemma_sub(ack, s.snd_una);
    lemma_sub(s.snd_nxt, s.snd_una);
    let p = data_of(seg);
    let k = if s.rx.len() + p.len() <= 32768 { p.len() as int } else { 32768 - s.rx.len() };
    assert(n.socks[i].wf());
    lemma_add(s.rcv_nxt, k as u32);
    let e = s.on_segment(stream::n4(seg, 4) as u32, ack, seg[13], p, now)->0;
    let a = n.with_tcb(i, e.tcb);
    lemma_tx(a, end_of(n.socks[i]), s.snd_nxt, e.tcb.rcv_nxt, 0x10);
    assert(linger::parting(n.socks[i]));
    if gap(ack, s.snd_una) == 0 {
        assert(ack == s.snd_una);
        assert(s.unacked.skip(0) =~= s.unacked);
    }
    if gap(ack, s.snd_una) > s.unacked.len() {
        assert(s.unacked.skip(s.unacked.len() as int) =~= Seq::empty());
    }
}

/// Data that does not come in order is not taken; the peer is told what is
/// wanted next.
pub proof fn law_other_data_is_not_taken(n: NetV, i: int, ip: u32, seg: Seq<u8>, now: u64)
    requires
        n.wf(),
        0 <= i < NSOCK,
        intact(ip, seg),
        at_slot(n.socks[i], ip, seg),
        n.socks[i].tcp.state is Est,
        seg[13] & 0x10 != 0,
        seg[13] & 4 == 0,
        seg[13] & 2 == 0,
        seg[13] & 1 == 0,
        acks_sent(n.socks[i].tcp, seg),
        data_of(seg).len() > 0,
        stream::n4(seg, 4) != n.socks[i].tcp.rcv_nxt,
    ensures
        ({
            let m = n.on_tcp(ip, seg, now).0;
            let s = n.socks[i].tcp;
            let t = m.socks[i].tcp;
            &&& t.rx == s.rx
            &&& t.rcv_nxt == s.rcv_nxt
            &&& t.state is Est
            &&& answers(n, m, end_of(n.socks[i]), s.snd_nxt, s.rcv_nxt, 0x10)
            &&& others_same(n, m, i)
        }),
{
    lemma_fields(seg);
    lemma_found(n, i, ip, seg, now);
    let s = n.socks[i].tcp;
    let ack = stream::n4(seg, 8) as u32;
    lemma_sub(ack, s.snd_una);
    lemma_sub(s.snd_nxt, s.snd_una);
    let e = s.on_segment(stream::n4(seg, 4) as u32, ack, seg[13], data_of(seg), now)->0;
    lemma_tx(n.with_tcb(i, e.tcb), end_of(n.socks[i]), s.snd_nxt, s.rcv_nxt, 0x10);
    assert(linger::parting(n.socks[i]));
}

/// A segment that acknowledges what was not sent is dropped.
pub proof fn law_false_acknowledgment_is_dropped(n: NetV, i: int, ip: u32, seg: Seq<u8>, now: u64)
    requires
        n.wf(),
        0 <= i < NSOCK,
        intact(ip, seg),
        at_slot(n.socks[i], ip, seg),
        seg[13] & 0x10 != 0,
        seg[13] & 4 == 0,
        !acks_sent(n.socks[i].tcp, seg),
    ensures
        n.on_tcp(ip, seg, now) == (n, false),
{
    lemma_fields(seg);
    lemma_found(n, i, ip, seg, now);
    let s = n.socks[i].tcp;
    lemma_sub(stream::n4(seg, 8) as u32, s.snd_una);
    lemma_sub(s.snd_nxt, s.snd_una);
}

#[verifier::spinoff_prover]
#[verifier::rlimit(40)]
proof fn lemma_end(s: TcbV, ack: u32, flags: u8, p: Seq<u8>, now: u64)
    requires
        s.state is Est,
        flags & 0x10 != 0,
        flags & 1 != 0,
        s.ack_in_window(ack),
        s.rx.len() + p.len() <= 32768,
    ensures
        ({
            let e = s.on_segment(s.rcv_nxt, ack, flags, p, now)->0;
            let t = e.tcb;
            &&& s.on_segment(s.rcv_nxt, ack, flags, p, now) is Some
            &&& t.state is CloseWait
            &&& t.rx == s.rx + p
            &&& ahead(t.rcv_nxt, s.rcv_nxt, p.len() as int + 1)
            &&& t.rip == s.rip && t.rport == s.rport
            &&& e.reply == Some((s.snd_nxt, t.rcv_nxt, 0x10u8))
            &&& e.wake
        }),
{
    let a = s.on_ack(ack, now);
    assert(a.state is Est && a.rx == s.rx && a.rcv_nxt == s.rcv_nxt && a.snd_nxt == s.snd_nxt);
    assert(p.take(p.len() as int) =~= p);
    assert(p.len() == 0 ==> s.rx + p =~= s.rx);
    let d = if p.len() > 0 {
        a.on_data(s.rcv_nxt, p)
    } else {
        a
    };
    assert(d.rx == s.rx + p);
    assert(d.rcv_nxt == s.rcv_nxt.wrapping_add(p.len() as u32));
    lemma_add_one(s.rcv_nxt, p.len() as u32);
}

/// The end of the peer's stream, in order and with no data that is left out,
/// is taken and acknowledged: the connection can still send, and once all is
/// read a read tells the end.
#[verifier::spinoff_prover]
#[verifier::rlimit(40)]
pub proof fn law_end_of_stream(n: NetV, i: int, ip: u32, seg: Seq<u8>, now: u64)
    requires
        n.wf(),
        0 <= i < NSOCK,
        intact(ip, seg),
        at_slot(n.socks[i], ip, seg),
        n.socks[i].tcp.state is Est,
        seg[13] & 0x10 != 0,
        seg[13] & 4 == 0,
        seg[13] & 1 != 0,
        acks_sent(n.socks[i].tcp, seg),
        stream::n4(seg, 4) == n.socks[i].tcp.rcv_nxt,
        n.socks[i].tcp.rx.len() + data_of(seg).len() <= 32768,
    ensures
        ({
            let (m, woken) = n.on_tcp(ip, seg, now);
            let s = n.socks[i].tcp;
            let t = m.socks[i].tcp;
            &&& t.state is CloseWait
            &&& t.rx == s.rx + data_of(seg)
            &&& ahead(t.rcv_nxt, s.rcv_nxt, data_of(seg).len() as int + 1)
            &&& answers(n, m, end_of(n.socks[i]), s.snd_nxt, t.rcv_nxt, 0x10)
            &&& woken
            &&& others_same(n, m, i)
            &&& t.rx.len() == 0 ==> m.on_recv(i, 1).2 == 0
        }),
{
    lemma_fields(seg);
    lemma_found(n, i, ip, seg, now);
    let s = n.socks[i].tcp;
    let ack = stream::n4(seg, 8) as u32;
    let p = data_of(seg);
    lemma_sub(ack, s.snd_una);
    lemma_sub(s.snd_nxt, s.snd_una);
    let e = s.on_segment(stream::n4(seg, 4) as u32, ack, seg[13], p, now)->0;
    lemma_end(s, ack, seg[13], p, now);
    lemma_tx(n.with_tcb(i, e.tcb), end_of(n.socks[i]), s.snd_nxt, e.tcb.rcv_nxt, 0x10);
    assert(linger::parting(n.socks[i]));
}

/// A reset takes the connection down, at once and without an answer.
pub proof fn law_reset_ends(n: NetV, i: int, ip: u32, seg: Seq<u8>, now: u64)
    requires
        n.wf(),
        0 <= i < NSOCK,
        intact(ip, seg),
        at_slot(n.socks[i], ip, seg),
        seg[13] & 4 != 0,
    ensures
        ({
            let (m, woken) = n.on_tcp(ip, seg, now);
            &&& !m.socks[i].used
            &&& m.socks[i].tcp.state is Closed
            &&& m.socks[i].tcp.rx.len() == 0 && m.socks[i].tcp.unacked.len() == 0
            &&& m.link == n.link
            &&& others_same(n, m, i)
            &&& woken
        }),
{
    lemma_fields(seg);
    linger::lemma_child_is(n, ip, stream::n2(seg, 0) as u16, stream::n2(seg, 2) as u16, i);
}

// ---- opening from outside ----

/// The slot is an open listener on the port.
pub open spec fn listens(s: SockV, port: int) -> bool {
    s.used && s.kind == 1 && !s.closing && s.tcp.state is Listen && s.lport == port
}

/// The slot is a connection of listener `li` that is not handed out yet.
pub open spec fn waits_for(s: SockV, li: int) -> bool {
    s.used && s.kind == 1 && !s.closing && !s.tcp.accepted && s.tcp.parent == Some(li as usize)
}

proof fn lemma_no_child(n: NetV, ip: u32, sport: u16, dport: u16, from: int)
    requires
        0 <= from,
        forall|i: int| from <= i < n.socks.len() ==> !(#[trigger] n.socks[i]).is_child(ip, sport, dport),
    ensures
        n.child(ip, sport, dport, from) is None,
    decreases n.socks.len() - from,
{
    if from < n.socks.len() {
        lemma_no_child(n, ip, sport, dport, from + 1);
    }
}

proof fn lemma_listener(n: NetV, dport: u16, upto: int)
    requires
        0 <= upto <= n.socks.len(),
    ensures
        match n.listener(dport, upto) {
            Some(i) => 0 <= i < upto && listens(n.socks[i], dport as int),
            None => forall|i: int| 0 <= i < upto ==> !listens(#[trigger] n.socks[i], dport as int),
        },
    decreases upto,
{
    if upto > 0 {
        lemma_listener(n, dport, upto - 1);
    }
}

proof fn lemma_free(n: NetV, from: int)
    requires
        0 <= from,
    ensures
        match n.free_slot(from) {
            Some(i) => from <= i < n.socks.len() && !n.socks[i].used && forall|j: int|
                from <= j < i ==> (#[trigger] n.socks[j]).used,
            None => forall|j: int| from <= j < n.socks.len() ==> (#[trigger] n.socks[j]).used,
        },
    decreases n.socks.len() - from,
{
    if from < n.socks.len() {
        lemma_free(n, from + 1);
    }
}

/// The segment belongs to no connection.
pub open spec fn at_no_slot(n: NetV, ip: u32, seg: Seq<u8>) -> bool {
    forall|i: int| 0 <= i < n.socks.len() ==> !at_slot(#[trigger] n.socks[i], ip, seg)
}

/// What a peer that opens a connection finds: with a listener on the port that
/// has no connection waiting and a slot that is free, a connection is made and
/// answered with its first number and the peer's next; else nothing happens.
pub proof fn law_opening_is_answered(n: NetV, ip: u32, seg: Seq<u8>, now: u64, li: int)
    requires
        n.wf(),
        intact(ip, seg),
        at_no_slot(n, ip, seg),
        seg[13] & 4 == 0,
        seg[13] & 2 != 0,
        0 <= li < NSOCK,
        listens(n.socks[li], stream::n2(seg, 2)),
        forall|j: int| 0 <= j < NSOCK && j != li ==> !listens(#[trigger] n.socks[j], stream::n2(seg, 2)),
    ensures
        ({
            let (m, woken) = n.on_tcp(ip, seg, now);
            let busy = exists|j: int| 0 <= j < NSOCK && waits_for(#[trigger] n.socks[j], li);
            let full = forall|j: int| 0 <= j < NSOCK ==> (#[trigger] n.socks[j]).used;
            &&& busy || full ==> m == n && !woken
            &&& !busy && !full ==> woken && exists|c: int| #[trigger] made_for(n, m, c, li, ip, seg)
        }),
{
    lemma_fields(seg);
    let sport = stream::n2(seg, 0) as u16;
    let dport = stream::n2(seg, 2) as u16;
    assert forall|i: int| 0 <= i < n.socks.len() implies !(#[trigger] n.socks[i]).is_child(ip, sport, dport) by {
        assert(!at_slot(n.socks[i], ip, seg));
    }
    lemma_no_child(n, ip, sport, dport, 0);
    lemma_listener(n, dport, NSOCK as int);
    lemma_free(n, 0);
    let busy = exists|j: int| 0 <= j < NSOCK && waits_for(#[trigger] n.socks[j], li);
    if n.has_pending(li) {
        let j = choose|j: int| 0 <= j < n.socks.len() && (#[trigger] n.socks[j]).pending_of(li);
        assert(waits_for(n.socks[j], li));
    }
    if busy {
        let j = choose|j: int| 0 <= j < NSOCK && waits_for(#[trigger] n.socks[j], li);
        assert(n.socks[j].pending_of(li));
    }
    if !n.has_pending(li) {
        if let Some(c) = n.free_slot(0) {
            let seq = stream::n4(seg, 4) as u32;
            let k = n.syn_child(c, li, ip, sport, seq, now);
            lemma_add(seq, 1);
            lemma_add(k.tcp.iss, 1);
            lemma_tx(
                n.with_sock(c, k),
                Dest { ip, dport: sport, sport: k.lport },
                k.tcp.iss,
                seq.wrapping_add(1),
                18,
            );
            assert(made_for(n, n.on_tcp(ip, seg, now).0, c, li, ip, seg));
        }
    }
}

/// Slot `c` was free and holds the connection the segment opens, half open; the
/// answer carries its first number and asks for the peer's next.
pub open spec fn made_for(n: NetV, m: NetV, c: int, li: int, ip: u32, seg: Seq<u8>) -> bool {
    let t = m.socks[c].tcp;
    &&& 0 <= c < NSOCK
    &&& !n.socks[c].used
    &&& at_slot(m.socks[c], ip, seg)
    &&& waits_for(m.socks[c], li)
    &&& t.state is SynRcvd
    &&& ahead(t.rcv_nxt, stream::n4(seg, 4) as u32, 1)
    &&& t.snd_una == t.iss
    &&& ahead(t.snd_nxt, t.iss, 1)
    &&& t.rx.len() == 0 && t.unacked.len() == 0
    &&& answers(n, m, end_of(m.socks[c]), t.iss, t.rcv_nxt, 18)
    &&& others_same(n, m, c)
}

/// The peer's acknowledgment of our first number opens the connection: its
/// listener can hand it out then.
pub proof fn law_third_segment_opens(n: NetV, i: int, li: int, ip: u32, seg: Seq<u8>, now: u64)
    requires
        n.wf(),
        0 <= i < NSOCK,
        0 <= li < NSOCK,
        intact(ip, seg),
        at_slot(n.socks[i], ip, seg),
        n.socks[i].tcp.state is SynRcvd,
        waits_for(n.socks[i], li),
        ahead(n.socks[i].tcp.snd_nxt, n.socks[i].tcp.snd_una, 1),
        seg[13] & 0x10 != 0,
        seg[13] & 4 == 0,
        seg[13] & 2 == 0,
        seg[13] & 1 == 0,
        data_of(seg).len() == 0,
        stream::n4(seg, 8) == n.socks[i].tcp.snd_nxt,
    ensures
        ({
            let (m, woken) = n.on_tcp(ip, seg, now);
            &&& m.socks[i].tcp.state is Est
            &&& waits_for(m.socks[i], li)
            &&& m.socks[i].tcp.snd_una == m.socks[i].tcp.snd_nxt
            &&& m.link == n.link
            &&& woken
            &&& others_same(n, m, i)
            &&& m.acceptable(li, 0) is Some
        }),
{
    lemma_fields(seg);
    lemma_found(n, i, ip, seg, now);
    let s = n.socks[i].tcp;
    let ack = stream::n4(seg, 8) as u32;
    lemma_sub(ack, s.snd_una);
    lemma_sub(s.snd_nxt, s.snd_una);
    let m = n.on_tcp(ip, seg, now).0;
    law_waiting_connection_is_handed_out(m, li, 0);
    assert(m.socks[i].pending_of(li));
}

/// What a listener hands out is the first connection of its own that is open
/// and was not handed out; none is just where there is none.
pub proof fn law_waiting_connection_is_handed_out(n: NetV, li: int, from: int)
    requires
        0 <= from,
    ensures
        match n.acceptable(li, from) {
            Some(i) => from <= i < n.socks.len() && waits_for(n.socks[i], li) && n.socks[i].tcp.state is Est && forall|j: int|
                from <= j < i ==> !(waits_for(#[trigger] n.socks[j], li) && n.socks[j].tcp.state is Est),
            None => forall|j: int|
                from <= j < n.socks.len() ==> !(waits_for(#[trigger] n.socks[j], li) && n.socks[j].tcp.state is Est),
        },
    decreases n.socks.len() - from,
{
    if from < n.socks.len() {
        law_waiting_connection_is_handed_out(n, li, from + 1);
    }
}

/// A segment for no connection, which opens none, is answered with a reset that
/// acknowledges all it carries.
pub proof fn law_stranger_is_reset(n: NetV, ip: u32, seg: Seq<u8>, now: u64)
    requires
        n.wf(),
        intact(ip, seg),
        at_no_slot(n, ip, seg),
        seg[13] & 4 == 0,
        seg[13] & 2 == 0 || forall|j: int| 0 <= j < NSOCK ==> !listens(#[trigger] n.socks[j], stream::n2(seg, 2)),
    ensures
        ({
            let (m, woken) = n.on_tcp(ip, seg, now);
            let fin: int = if seg[13] & 1 != 0 { 1 } else { 0 };
            &&& answers(
                n,
                m,
                Dest { ip, dport: stream::n2(seg, 0) as u16, sport: stream::n2(seg, 2) as u16 },
                0,
                ((stream::n4(seg, 4) + data_of(seg).len() + fin) % 0x1_0000_0000) as u32,
                20,
            )
            &&& m.socks == n.socks
            &&& !woken
        }),
{
    lemma_fields(seg);
    let sport = stream::n2(seg, 0) as u16;
    let dport = stream::n2(seg, 2) as u16;
    assert forall|i: int| 0 <= i < n.socks.len() implies !(#[trigger] n.socks[i]).is_child(ip, sport, dport) by {
        assert(!at_slot(n.socks[i], ip, seg));
    }
    lemma_no_child(n, ip, sport, dport, 0);
    lemma_listener(n, dport, NSOCK as int);
    let seq = stream::n4(seg, 4) as u32;
    let fin: u32 = if seg[13] & 1 != 0 { 1 } else { 0 };
    let k = (data_of(seg).len() + fin) as u32;
    lemma_add(seq, k);
    lemma_tx(n, Dest { ip, dport: sport, sport: dport }, 0, seq.wrapping_add(k), 20);
}

// ---- closing ----

/// Closing a connection tells the peer that nothing more comes, with the number
/// behind all that was sent; the slot lingers until the peer has that.
pub proof fn law_close_tells_the_peer(n: NetV, i: int, now: u64)
    requires
        n.wf(),
        0 <= i < NSOCK,
        n.socks[i].used && n.socks[i].kind == 1,
        n.socks[i].tcp.state is Est || n.socks[i].tcp.state is CloseWait,
    ensures
        ({
            let m = n.on_close(i, now);
            let s = n.socks[i].tcp;
            let t = m.socks[i].tcp;
            &&& answers(n, m, end_of(n.socks[i]), s.snd_nxt, s.rcv_nxt, 17)
            &&& ahead(t.snd_nxt, s.snd_nxt, 1)
            &&& t.fin_sent
            &&& m.socks[i].used && m.socks[i].closing
            &&& s.state is Est ==> t.state is FinW1
            &&& s.state is CloseWait ==> t.state is LastAck
            &&& t.unacked == s.unacked && t.rx == s.rx
            &&& others_same(n, m, i)
        }),
{
    let s = n.socks[i].tcp;
    lemma_tx(n, end_of(n.socks[i]), s.snd_nxt, s.rcv_nxt, 17);
    lemma_add(s.snd_nxt, 1);
}

/// Closing a listener frees its slot and says nothing.
pub proof fn law_close_of_a_listener(n: NetV, i: int, now: u64)
    requires
        n.wf(),
        0 <= i < NSOCK,
        n.socks[i].tcp.state is Listen,
    ensures
        !n.on_close(i, now).socks[i].used,
        n.on_close(i, now).socks[i].tcp.state is Closed,
        n.on_close(i, now).link == n.link,
        others_same(n, n.on_close(i, now), i),
{
}

/// A read gives the first bytes that wait, and leaves the rest; with none it
/// tells the end of the stream, an error, or that there is nothing yet.
pub proof fn law_read_takes_the_oldest(n: NetV, i: int, room: nat)
    requires
        n.wf(),
        0 <= i < NSOCK,
        n.socks[i].used && n.socks[i].kind == 1,
    ensures
        ({
            let (m, got, r) = n.on_recv(i, room);
            let s = n.socks[i].tcp;
            let t = m.socks[i].tcp;
            &&& s.rx.len() > 0 ==> r == got.len() && got + t.rx == s.rx && (got.len() == room || t.rx.len() == 0)
            &&& s.rx.len() > 0 ==> got.len() <= room
            &&& s.rx.len() == 0 ==> got.len() == 0 && m == n
            &&& s.rx.len() == 0 && s.state is CloseWait ==> r == 0
            &&& s.rx.len() == 0 && s.state is Closed ==> r == -1
            &&& s.rx.len() == 0 && !(s.state is CloseWait) && !(s.state is Closed) ==> r == -2
            &&& t == (TcbV { rx: t.rx, ..s })
            &&& m.link == n.link
            &&& others_same(n, m, i)
        }),
{
    let (m, got, r) = n.on_recv(i, room);
    if n.socks[i].tcp.rx.len() > 0 {
        assert(got + m.socks[i].tcp.rx =~= n.socks[i].tcp.rx);
    }
}

// ---- datagrams ----

/// The frame is a datagram for this machine from an address and port to a port.
pub open spec fn is_datagram(f: Seq<u8>, ip: u32, sport: u16, dport: u16, data: Seq<u8>) -> bool {
    let h = f[14] % 16 * 4;
    let u = 14 + h;
    &&& f.len() >= 42
    &&& f[12] == 8 && f[13] == 0
    &&& f[14] / 16 == 4 && h >= 20
    &&& f[23] == 17
    &&& stream::n4(f, 26) == ip
    &&& stream::n4(f, 30) == GUEST_IP
    &&& f.len() >= u + 8 + data.len()
    &&& stream::n2(f, u) == sport
    &&& stream::n2(f, u + 2) == dport
    &&& stream::n2(f, u + 4) == 8 + data.len()
    &&& f.subrange(u + 8, u + 8 + data.len()) == data
}

proof fn lemma_port(n: NetV, port: u16, from: int)
    requires
        0 <= from,
    ensures
        match n.on_port(port, from) {
            Some(i) => from <= i < n.socks.len() && n.socks[i].used && n.socks[i].lport == port && forall|j: int|
                from <= j < i ==> !((#[trigger] n.socks[j]).used && n.socks[j].lport == port),
            None => forall|j: int|
                from <= j < n.socks.len() ==> !((#[trigger] n.socks[j]).used && n.socks[j].lport == port),
        },
    decreases n.socks.len() - from,
{
    if from < n.socks.len() {
        lemma_port(n, port, from + 1);
    }
}

/// A datagram is the last that its port's socket has to read, with where it
/// came from, unless eight wait already or no socket has the port.
pub proof fn law_datagram_is_queued(n: NetV, i: int, f: Seq<u8>, ip: u32, sport: u16, dport: u16, data: Seq<u8>, now: u64)
    requires
        n.wf(),
        0 <= i < NSOCK,
        is_datagram(f, ip, sport, dport, data),
        n.socks[i].used,
        n.socks[i].lport == dport,
        forall|j: int| 0 <= j < i ==> !((#[trigger] n.socks[j]).used && n.socks[j].lport == dport),
    ensures
        ({
            let m = n.on_frame(f, now);
            &&& n.socks[i].rx.len() < 8 ==> m.socks[i] == (SockV {
                rx: n.socks[i].rx.push((ip, sport, data)),
                ..n.socks[i]
            })
            &&& n.socks[i].rx.len() >= 8 ==> m.socks[i] == n.socks[i]
            &&& others_same(n, m, i)
            &&& m.link == n.link
        }),
{
    lemma_port(n, dport, 0);
    assert(n.on_port(dport, 0) == Some(i));
    assert(wire::be16_of(f, 12) == 0x0800);
    assert(!sock::arp_reply(f));
    assert(sock::has_udp(f));
}

/// Datagrams are read one at a time, oldest first; what the buffer has no room
/// for is lost.
pub proof fn law_datagrams_are_read_in_order(n: NetV, i: int, room: nat)
    requires
        n.wf(),
        0 <= i < NSOCK,
        n.socks[i].used,
        n.socks[i].kind == 0,
    ensures
        ({
            let (m, got, r) = n.on_sock_recv(i, room);
            let q = n.socks[i].rx;
            &&& q.len() == 0 ==> r == -2 && m == n && got.len() == 0
            &&& q.len() > 0 ==> {
                &&& r == got.len()
                &&& got == q[0].2.take(r)
                &&& r == room || r == q[0].2.len()
                &&& r <= room
                &&& m.socks[i] == (SockV { rx: q.skip(1), ..n.socks[i] })
            }
            &&& others_same(n, m, i)
        }),
{
}

/// A datagram that is sent goes to the socket's peer, from its port, with all
/// its bytes; without the gateway's address one is asked for and nothing goes.
#[verifier::spinoff_prover]
#[verifier::rlimit(40)]
pub proof fn law_datagram_goes_out(n: NetV, i: int, data: Seq<u8>, now: u64)
    requires
        n.wf(),
        0 <= i < NSOCK,
        n.socks[i].kind == 0,
        n.arp_ok,
        n.socks[i].peer_ip != 0,
        n.socks[i].peer_port != 0,
        data.len() <= 1472,
    ensures
        ({
            let (m, r) = n.on_udp_send(i, data, now);
            let f = m.link.sent.last();
            &&& m.link.sent.len() == n.link.sent.len() + 1
            &&& m.link.sent.drop_last() == n.link.sent
            &&& f.len() == 42 + data.len()
            &&& f.take(6) == n.gw_mac
            &&& f.subrange(6, 12) == n.mac
            &&& f[12] == 8 && f[13] == 0 && f[14] == 0x45 && f[23] == 17
            &&& stream::n2(f, 16) == 28 + data.len()
            &&& stream::n4(f, 26) == GUEST_IP
            &&& stream::n4(f, 30) == n.socks[i].peer_ip
            &&& stream::n2(f, 34) == n.socks[i].lport
            &&& stream::n2(f, 36) == n.socks[i].peer_port
            &&& stream::n2(f, 38) == 8 + data.len()
            &&& f.skip(42) == data
            &&& r == if stream::taken(n, 0) { data.len() as int } else { -1 }
            &&& m.socks == n.socks
        }),
{
    let (m, r) = n.on_udp_send(i, data, now);
    let s = n.socks[i];
    let f = m.link.sent.last();
    let h = wire::eth_hdr(n.gw_mac, n.mac, 0x0800);
    let p = wire::ip_packet_hdr((28 + data.len()) as u16, 17, s.peer_ip);
    stream::lemma_ip((28 + data.len()) as u16, 17, s.peer_ip);
    assert(f == wire::udp_frame(n.gw_mac, n.mac, s.peer_ip, s.peer_port, s.lport, data));
    assert(m.link.sent.drop_last() =~= n.link.sent);
    assert(h.len() == 14);
    assert(f.take(6) =~= n.gw_mac);
    assert(f.subrange(6, 12) =~= n.mac);
    assert(h[12] == 8 && h[13] == 0);
    assert forall|x: int| 0 <= x < 20 implies f[14 + x] == p[x] by {}
    assert(f[16] == p[2] && f[17] == p[3] && f[23] == p[9]);
    assert(f[26] == p[12] && f[27] == p[13] && f[28] == p[14] && f[29] == p[15]);
    assert(f[30] == p[16] && f[31] == p[17] && f[32] == p[18] && f[33] == p[19]);
    let a = wire::be16_bytes(s.lport);
    let b = wire::be16_bytes(s.peer_port);
    let c = wire::be16_bytes((8 + data.len()) as u16);
    assert(f[34] == a[0] && f[35] == a[1] && f[36] == b[0] && f[37] == b[1] && f[38] == c[0] && f[39] == c[1]);
    assert(f.skip(42) =~= data);
}

/// The gateway's answer gives its address, which later frames go to.
pub proof fn law_gateway_is_learnt(n: NetV, f: Seq<u8>, now: u64)
    requires
        f.len() >= 42,
        f[12] == 8 && f[13] == 6,
        f[20] == 0 && f[21] == 2,
        stream::n4(f, 28) == 0x0a00_0202,
        stream::n4(f, 38) == GUEST_IP,
    ensures
        n.on_frame(f, now) == (NetV { arp_ok: true, gw_mac: f.subrange(22, 28), ..n }),
{
    assert(wire::be16_of(f, 12) == 0x0806);
    assert(wire::be16_of(f, 20) == 2);
}

/// A frame that is no answer of the gateway, no segment and no datagram for
/// this machine changes nothing.
pub proof fn law_other_frames_are_ignored(n: NetV, f: Seq<u8>, now: u64)
    requires
        f.len() < 42 || !(f[12] == 8 && (f[13] == 0 || f[13] == 6)) || (f[13] == 0 && stream::n4(f, 30) != GUEST_IP)
            || (f[13] == 0 && f[23] != 6 && f[23] != 17),
    ensures
        n.on_frame(f, now) == n,
{
    if f.len() >= 34 {
        assert(wire::be16_of(f, 12) == f[12] * 256 + f[13]);
        assert(wire::be32_of(f, 30) == stream::n4(f, 30));
    }
}

// ---- slots and ports ----

/// A socket that is opened has a slot that was free, of its kind and with
/// nothing in it, and a port of the ephemeral range that no other has.
pub proof fn law_open_takes_a_free_slot(n: NetV, kind: u8)
    requires
        n.wf(),
        n.next_port >= 49152,
    ensures
        ({
            let (m, r) = n.on_open(kind);
            &&& r matches Some(i) ==> {
                &&& 0 <= i < NSOCK && !n.socks[i].used
                &&& forall|j: int| 0 <= j < i ==> (#[trigger] n.socks[j]).used
                &&& m.socks[i].used && m.socks[i].kind == kind && !m.socks[i].closing
                &&& m.socks[i].lport >= 49152
                &&& forall|j: int| 0 <= j < NSOCK && n.socks[j].used ==> (#[trigger] n.socks[j]).lport != m.socks[i].lport
                &&& m.socks[i].rx.len() == 0 && m.socks[i].tcp.rx.len() == 0 && m.socks[i].tcp.unacked.len() == 0
                &&& m.socks[i].tcp.state is Closed
                &&& m.socks[i].peer_ip == 0 && m.socks[i].peer_port == 0
                &&& others_same(n, m, i)
            }
            &&& r is None ==> m.socks == n.socks
            &&& (forall|j: int| 0 <= j < NSOCK ==> (#[trigger] n.socks[j]).used) ==> r is None
            &&& m.next_port >= 49152
        }),
{
    lemma_free(n, 0);
    lemma_scan(n, n.next_port, 1024);
    let (port, next) = n.port_scan(n.next_port, 1024);
    lemma_port(n, port, 0);
}

proof fn lemma_scan(n: NetV, p: u16, tries: nat)
    requires
        p >= 49152,
    ensures
        ({
            let (port, next) = n.port_scan(p, tries);
            &&& port == 0 || (port >= 49152 && !n.port_used(port))
            &&& next >= 49152
        }),
    decreases tries,
{
    if tries > 0 && n.port_used(p) {
        lemma_scan(n, NetV::port_after(p), (tries - 1) as nat);
    }
}

} // verus!
