//! What holds of the network stack across its operations.
use crate::net::state::{NetV, SockV, NSOCK, RX_CAP, UNACK_CAP};
use crate::net::tcp::{TState, TcbV};
use crate::net::wire::MAX_SEG;
use vstd::prelude::*;

verus! {

pub proof fn lemma_child_range(n: NetV, src_ip: u32, sport: u16, dport: u16, from: int)
    requires
        from >= 0,
    ensures
        n.child(src_ip, sport, dport, from) matches Some(i) ==> from <= i < n.socks.len()
            && n.socks[i].is_child(src_ip, sport, dport),
    decreases n.socks.len() - from,
{
    if from < n.socks.len() {
        lemma_child_range(n, src_ip, sport, dport, from + 1);
    }
}

pub proof fn lemma_free_range(n: NetV, from: int)
    requires
        from >= 0,
    ensures
        n.free_slot(from) matches Some(i) ==> from <= i < n.socks.len() && !n.socks[i].used,
    decreases n.socks.len() - from,
{
    if from < n.socks.len() {
        lemma_free_range(n, from + 1);
    }
}

/// A received segment keeps the bounds on buffers and timers.
pub proof fn law_receive_keeps_bounds(n: NetV, src_ip: u32, seg: Seq<u8>, now: u64)
    requires
        n.bounded(),
    ensures
        n.on_tcp(src_ip, seg, now).0.bounded(),
{
    let sport = crate::net::wire::be16_of(seg, 0) as u16;
    let dport = crate::net::wire::be16_of(seg, 2) as u16;
    lemma_child_range(n, src_ip, sport, dport, 0);
    lemma_free_range(n, 0);
    if let Some(i) = n.child(src_ip, sport, dport, 0) {
        assert(n.socks[i].wf());
    }
    if let Some(i) = n.free_slot(0) {
        assert(n.socks[i].wf());
    }
}

/// Sequence numbers between `snd_una` and `snd_nxt`.
pub open spec fn in_flight(t: TcbV) -> nat {
    t.snd_nxt.wrapping_sub(t.snd_una) as nat
}

/// The retransmit buffer holds exactly the bytes in flight; a SYN or a FIN
/// takes one sequence number more and no byte.
pub open spec fn covers_window(t: TcbV) -> bool {
    match t.state {
        TState::SynRcvd => t.unacked.len() == 0 && in_flight(t) == 1,
        TState::Est | TState::CloseWait => in_flight(t) == t.unacked.len(),
        TState::FinW1 => t.fin_sent && in_flight(t) == t.unacked.len() + 1,
        TState::Closing | TState::LastAck => in_flight(t) == t.unacked.len() + 1,
        TState::FinW2 => t.unacked.len() == 0 && in_flight(t) == 0,
        TState::Closed | TState::Listen => true,
    }
}

/// Every open TCP slot's buffer covers its window.
pub open spec fn all_cover(n: NetV) -> bool {
    forall|i: int| 0 <= i < n.socks.len() && (#[trigger] n.socks[i]).used && n.socks[i].kind == 1
        ==> covers_window(n.socks[i].tcp)
}

/// A segment keeps the retransmit buffer equal to the bytes in flight.
pub proof fn law_segment_keeps_window(t: TcbV, seq: u32, ackn: u32, flags: u8, payload: Seq<u8>, now: u64)
    requires
        covers_window(t),
        t.unacked.len() <= UNACK_CAP,
    ensures
        t.on_segment(seq, ackn, flags, payload, now) matches Some(e) ==> covers_window(e.tcb),
{
}

/// Receiving, from the wire on, keeps every connection's retransmit buffer
/// equal to its bytes in flight.
pub proof fn law_receive_keeps_window(n: NetV, src_ip: u32, seg: Seq<u8>, now: u64)
    requires
        n.bounded(),
        all_cover(n),
    ensures
        all_cover(n.on_tcp(src_ip, seg, now).0),
{
    let sport = crate::net::wire::be16_of(seg, 0) as u16;
    let dport = crate::net::wire::be16_of(seg, 2) as u16;
    lemma_child_range(n, src_ip, sport, dport, 0);
    lemma_free_range(n, 0);
    if let Some(i) = n.child(src_ip, sport, dport, 0) {
        assert(n.socks[i].wf());
        law_segment_keeps_window(
            n.socks[i].tcp,
            crate::net::wire::be32_of(seg, 4) as u32,
            crate::net::wire::be32_of(seg, 8) as u32,
            seg[13],
            seg.skip(crate::net::tcp::seg_doff(seg)),
            now,
        );
    }
}

/// Sending keeps every connection's retransmit buffer equal to its bytes in
/// flight, and appends to it exactly the bytes reported as sent.
pub proof fn law_send_keeps_window(n: NetV, idx: int, data: Seq<u8>, now: u64)
    requires
        n.bounded(),
        all_cover(n),
    ensures
        all_cover(n.on_send(idx, data, now).0),
        n.on_send(idx, data, now).1 > 0 ==> n.on_send(idx, data, now).0.socks[idx].tcp.unacked
            == n.socks[idx].tcp.unacked + data.take(n.on_send(idx, data, now).1),
{
    if n.can_send(idx) {
        assert(n.socks[idx].wf());
        let t = n.socks[idx].tcp;
        crate::net::tcp::lemma_tx_run_frame(n, n.dest(idx), t.snd_nxt, t.rcv_nxt, data, 0);
    }
}

/// Closing keeps every connection's retransmit buffer equal to its bytes in
/// flight, the FIN counted.
pub proof fn law_close_keeps_window(n: NetV, idx: int, now: u64)
    requires
        n.bounded(),
        all_cover(n),
        n.is_tcp(idx),
    ensures
        all_cover(n.on_close(idx, now)),
{
    assert(n.socks[idx].wf());
}

/// A tick keeps every connection's retransmit buffer equal to its bytes in
/// flight.
pub proof fn law_tick_keeps_window(n: NetV, upto: int, now: u64)
    requires
        n.bounded(),
        all_cover(n),
        0 <= upto <= NSOCK,
    ensures
        all_cover(n.tick(upto, now).0),
        n.tick(upto, now).0.bounded(),
    decreases upto,
{
    if upto > 0 {
        law_tick_keeps_window(n, upto - 1, now);
        let m = n.tick(upto - 1, now).0;
        let i = upto - 1;
        let t = m.socks[i].tcp;
        let total = crate::net::tcp::min_nat(t.unacked.len(), 4 * crate::net::tcp::MSS as nat);
        assert(m.socks[i].wf());
        crate::net::tcp::lemma_tx_run_frame(
            m,
            m.dest(i),
            t.snd_una,
            t.rcv_nxt,
            t.unacked.take(total as int),
            0,
        );
    }
}

/// Data is delivered in order, without gaps and without loss: what a segment
/// adds to the receive buffer is a prefix of its payload, taken only when it
/// starts at `rcv_nxt`, and `rcv_nxt` moves by the number of bytes taken,
/// plus one when a FIN is taken.
pub proof fn law_in_order_delivery(t: TcbV, seq: u32, ackn: u32, flags: u8, payload: Seq<u8>, now: u64)
    requires
        t.rx.len() <= RX_CAP,
        payload.len() <= MAX_SEG,
    ensures
        t.on_segment(seq, ackn, flags, payload, now) matches Some(e) ==> {
            let k = e.tcb.rx.len() - t.rx.len();
            let moved = e.tcb.rcv_nxt.wrapping_sub(t.rcv_nxt);
            &&& 0 <= k <= payload.len()
            &&& e.tcb.rx == t.rx + payload.take(k)
            &&& k > 0 ==> seq == t.rcv_nxt
            &&& e.tcb.rx.len() <= RX_CAP
            &&& moved == k || moved == k + 1
            &&& flags & crate::net::tcp::F_FIN == 0 ==> moved == k
        },
{
    if let Some(e) = t.on_segment(seq, ackn, flags, payload, now) {
        let k = e.tcb.rx.len() - t.rx.len();
        assert(t.rx =~= t.rx + payload.take(0));
        assert(e.tcb.rx =~= t.rx + payload.take(k));
    }
}

/// At most one connection of each listener waits to be handed out.
pub open spec fn backlog_one(n: NetV) -> bool {
    forall|li: int, i: int, j: int|
        0 <= i < n.socks.len() && 0 <= j < n.socks.len() && 0 <= li < NSOCK
            && (#[trigger] n.socks[i].pending_of(li)) && (#[trigger] n.socks[j].pending_of(li)) ==> i == j
}

/// Receiving keeps the backlog of every listener at one at most: a second
/// SYN changes nothing while a connection waits.
pub proof fn law_backlog_is_one(n: NetV, src_ip: u32, seg: Seq<u8>, now: u64)
    requires
        n.bounded(),
        backlog_one(n),
    ensures
        backlog_one(n.on_tcp(src_ip, seg, now).0),
{
    let sport = crate::net::wire::be16_of(seg, 0) as u16;
    let dport = crate::net::wire::be16_of(seg, 2) as u16;
    lemma_child_range(n, src_ip, sport, dport, 0);
    lemma_free_range(n, 0);
    let m = n.on_tcp(src_ip, seg, now).0;
    if let Some(c) = n.child(src_ip, sport, dport, 0) {
        assert forall|li: int, i: int| 0 <= i < m.socks.len() && 0 <= li < NSOCK && #[trigger] m.socks[i].pending_of(li)
            implies n.socks[i].pending_of(li) by {}
    } else if m.socks != n.socks {
        let li0 = n.listener(dport, NSOCK as int)->0;
        let ci = n.free_slot(0)->0;
        lemma_listener_range(n, dport, NSOCK as int);
        assert forall|li: int, i: int|
            0 <= i < m.socks.len() && 0 <= li < NSOCK && i != ci && #[trigger] m.socks[i].pending_of(li) implies n.socks[i].pending_of(
            li,
        ) by {}
        assert forall|li: int| 0 <= li < NSOCK && #[trigger] m.socks[ci].pending_of(li) implies li == li0 by {}
    }
}

pub proof fn lemma_listener_range(n: NetV, dport: u16, upto: int)
    ensures
        n.listener(dport, upto) matches Some(i) ==> 0 <= i < upto && n.socks[i].is_listener(dport),
    decreases upto,
{
    if upto > 0 {
        lemma_listener_range(n, dport, upto - 1);
    }
}

/// A segment with a short header or a wrong checksum changes nothing and is
/// answered by nothing.
pub proof fn law_invalid_segment_ignored(n: NetV, src_ip: u32, seg: Seq<u8>, now: u64)
    requires
        !NetV::seg_valid(src_ip, seg),
    ensures
        n.on_tcp(src_ip, seg, now) == (n, false),
{
}

/// Bytes taken by two reads are, in order, the bytes one read with the summed
/// room takes.
pub proof fn law_reads_concatenate(n: NetV, idx: int, a: nat, b: nat)
    requires
        n.bounded(),
        n.is_tcp(idx),
        n.socks[idx].tcp.rx.len() > a,
    ensures
        ({
            let (m, first, c1) = n.on_recv(idx, a);
            let (l, second, c2) = m.on_recv(idx, b);
            let (k, whole, c3) = n.on_recv(idx, a + b);
            l == k && whole == first + second && c3 == c1 + c2
        }),
{
    let rx = n.socks[idx].tcp.rx;
    let (m, first, c1) = n.on_recv(idx, a);
    let (l, second, c2) = m.on_recv(idx, b);
    let (k, whole, c3) = n.on_recv(idx, a + b);
    assert(m.socks[idx].tcp.rx == rx.skip(a as int));
    assert(whole =~= first + second);
    assert(l.socks[idx].tcp.rx =~= k.socks[idx].tcp.rx);
    assert(l.socks =~= k.socks);
}

/// A freshly opened socket's port is held by no other open socket.
pub proof fn law_open_port_is_free(n: NetV, kind: u8)
    requires
        n.bounded(),
    ensures
        n.on_open(kind).1 matches Some(i) ==> 0 <= i < NSOCK && !n.socks[i].used && !n.on_open(
            kind,
        ).0.port_taken(i, n.on_open(kind).0.socks[i].lport),
{
    if let Some(i) = n.on_open(kind).1 {
        lemma_free_range(n, 0);
        let m = n.on_open(kind).0;
        let port = m.socks[i].lport;
        lemma_scan_free(n, n.next_port, 1024);
        lemma_on_port_complete(n, port, 0);
        assert forall|j: int| 0 <= j < NSOCK && j != i && (#[trigger] m.socks[j]).used implies m.socks[j].lport
            != port by {
            assert(m.socks[j] == n.socks[j]);
        }
    }
}

proof fn lemma_scan_free(n: NetV, p: u16, tries: nat)
    ensures
        n.port_scan(p, tries).0 != 0 ==> !n.port_used(n.port_scan(p, tries).0),
    decreases tries,
{
    if tries > 0 {
        lemma_scan_free(n, NetV::port_after(p), (tries - 1) as nat);
    }
}

proof fn lemma_on_port_complete(n: NetV, port: u16, from: int)
    requires
        0 <= from,
    ensures
        n.on_port(port, from) is None ==> forall|j: int|
            from <= j < n.socks.len() && (#[trigger] n.socks[j]).used ==> n.socks[j].lport != port,
        n.on_port(port, from) matches Some(i) ==> from <= i < n.socks.len() && n.socks[i].used
            && n.socks[i].lport == port,
    decreases n.socks.len() - from,
{
    if from < n.socks.len() {
        lemma_on_port_complete(n, port, from + 1);
    }
}

/// Before anything is sent or received, retransmit buffers and bytes in flight
/// agree: there are none.
pub proof fn law_start_covers_window(n: NetV)
    requires
        forall|i: int| 0 <= i < n.socks.len() ==> (#[trigger] n.socks[i]) == SockV::fresh(),
    ensures
        all_cover(n),
{
}

} // verus!
