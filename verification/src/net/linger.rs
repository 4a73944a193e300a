//! Connections that were closed: who they belong to until they are gone, and
//! that they go.
use crate::net::laws;
use crate::net::state::{NetV, SockV, CLOSE_TIMEOUT, NSOCK};
use crate::net::tcp;
use crate::net::tcp::{F_ACK, F_FIN, F_RST};
use crate::net::wire;
use vstd::prelude::*;

verus! {

/// The two slots hold connections with the same 4-tuple.
pub open spec fn same_peer(a: SockV, b: SockV) -> bool {
    a.is_child(b.tcp.rip, b.tcp.rport, b.lport) && b.is_child(b.tcp.rip, b.tcp.rport, b.lport)
}

/// No two slots hold connections with the same 4-tuple.
pub open spec fn unique(n: NetV) -> bool {
    forall|i: int, j: int|
        0 <= i < n.socks.len() && 0 <= j < n.socks.len() && #[trigger] same_peer(n.socks[i], n.socks[j])
            ==> i == j
}

/// A slot lingers only while a FIN is under way.
pub open spec fn parting(s: SockV) -> bool {
    s.used && s.kind == 1 && s.closing ==> s.tcp.state is FinW1 || s.tcp.state is FinW2 || s.tcp.state is Closing
        || s.tcp.state is LastAck
}

pub open spec fn all_parting(n: NetV) -> bool {
    forall|i: int| 0 <= i < n.socks.len() ==> parting(#[trigger] n.socks[i])
}

/// No slot before the first one found has the 4-tuple.
proof fn lemma_child_first(n: NetV, ip: u32, sport: u16, dport: u16, from: int)
    requires
        0 <= from,
    ensures
        n.child(ip, sport, dport, from) is None ==> forall|j: int|
            from <= j < n.socks.len() ==> !(#[trigger] n.socks[j]).is_child(ip, sport, dport),
    decreases n.socks.len() - from,
{
    if from < n.socks.len() {
        lemma_child_first(n, ip, sport, dport, from + 1);
    }
}

/// With 4-tuples apart, the slot that has one is the one found.
pub proof fn lemma_child_is(n: NetV, ip: u32, sport: u16, dport: u16, i: int)
    requires
        unique(n),
        0 <= i < n.socks.len(),
        n.socks[i].is_child(ip, sport, dport),
    ensures
        n.child(ip, sport, dport, 0) == Some(i),
{
    lemma_child_first(n, ip, sport, dport, 0);
    laws::lemma_child_range(n, ip, sport, dport, 0);
    let j = n.child(ip, sport, dport, 0)->0;
    assert(same_peer(n.socks[j], n.socks[i]));
}

/// Where slots only lose connections, 4-tuples stay apart.
proof fn lemma_fewer(n: NetV, m: NetV)
    requires
        unique(n),
        m.socks.len() == n.socks.len(),
        forall|i: int|
            0 <= i < n.socks.len() ==> #[trigger] same_side(n.socks[i], m.socks[i]),
    ensures
        unique(m),
{
    assert forall|i: int, j: int|
        0 <= i < m.socks.len() && 0 <= j < m.socks.len() && #[trigger] same_peer(m.socks[i], m.socks[j]) implies i
        == j by {
        assert(same_side(n.socks[i], m.socks[i]));
        assert(same_side(n.socks[j], m.socks[j]));
        assert(same_peer(n.socks[i], n.socks[j]));
    }
}

/// The slot holds the same connection as before, or none.
pub open spec fn same_side(a: SockV, b: SockV) -> bool {
    forall|ip: u32, sport: u16, dport: u16| #[trigger] b.is_child(ip, sport, dport) ==> a.is_child(ip, sport, dport)
}

/// Before anything is sent or received there is no connection.
pub proof fn law_start_apart(n: NetV)
    requires
        forall|i: int| 0 <= i < n.socks.len() ==> (#[trigger] n.socks[i]) == SockV::fresh(),
    ensures
        unique(n),
        all_parting(n),
{
    assert forall|i: int, j: int|
        0 <= i < n.socks.len() && 0 <= j < n.socks.len() && #[trigger] same_peer(n.socks[i], n.socks[j]) implies i
        == j by {
        assert(n.socks[i] == SockV::fresh());
    }
}

/// Receiving keeps 4-tuples apart: a connection is only opened where no slot
/// has its 4-tuple, one that lingers included; and only slots whose FIN is
/// under way linger.
pub proof fn law_receive_keeps_apart(n: NetV, src_ip: u32, seg: Seq<u8>, now: u64)
    requires
        n.bounded(),
        unique(n),
        all_parting(n),
    ensures
        unique(n.on_tcp(src_ip, seg, now).0),
        all_parting(n.on_tcp(src_ip, seg, now).0),
{
    let sport = wire::be16_of(seg, 0) as u16;
    let dport = wire::be16_of(seg, 2) as u16;
    laws::lemma_child_range(n, src_ip, sport, dport, 0);
    laws::lemma_free_range(n, 0);
    laws::lemma_listener_range(n, dport, NSOCK as int);
    lemma_child_first(n, src_ip, sport, dport, 0);
    let m = n.on_tcp(src_ip, seg, now).0;
    if n.child(src_ip, sport, dport, 0) is Some {
        let c = n.child(src_ip, sport, dport, 0)->0;
        assert forall|i: int| 0 <= i < n.socks.len() implies #[trigger] same_side(n.socks[i], m.socks[i]) by {
            if i != c {
                assert(m.socks[i] == n.socks[i]);
            }
        }
        lemma_fewer(n, m);
        assert forall|i: int| 0 <= i < m.socks.len() implies parting(#[trigger] m.socks[i]) by {
            assert(parting(n.socks[i]));
        }
    } else if m.socks != n.socks {
        let ci = n.free_slot(0)->0;
        assert forall|i: int, j: int|
            0 <= i < m.socks.len() && 0 <= j < m.socks.len() && #[trigger] same_peer(
                m.socks[i],
                m.socks[j],
            ) implies i == j by {
            if i != ci && j != ci {
                assert(same_peer(n.socks[i], n.socks[j]));
            } else if i != ci {
                assert(!n.socks[i].is_child(src_ip, sport, dport));
            } else if j != ci {
                assert(!n.socks[j].is_child(src_ip, sport, dport));
            }
        }
        assert forall|i: int| 0 <= i < m.socks.len() implies parting(#[trigger] m.socks[i]) by {
            assert(parting(n.socks[i]));
        }
    }
}

/// Closing keeps 4-tuples apart, and only slots whose FIN is under way linger.
pub proof fn law_close_keeps_apart(n: NetV, idx: int, now: u64)
    requires
        n.bounded(),
        unique(n),
        all_parting(n),
        n.is_tcp(idx),
    ensures
        unique(n.on_close(idx, now)),
        all_parting(n.on_close(idx, now)),
{
    let m = n.on_close(idx, now);
    assert forall|i: int| 0 <= i < n.socks.len() implies #[trigger] same_side(n.socks[i], m.socks[i]) by {
        if i != idx {
            assert(m.socks[i] == n.socks[i]);
        }
    }
    lemma_fewer(n, m);
    assert forall|i: int| 0 <= i < m.socks.len() implies parting(#[trigger] m.socks[i]) by {
        assert(parting(n.socks[i]));
    }
}

/// Opening keeps 4-tuples apart: the new slot's port is nobody else's.
pub proof fn law_open_keeps_apart(n: NetV, kind: u8)
    requires
        n.bounded(),
        unique(n),
        all_parting(n),
    ensures
        unique(n.on_open(kind).0),
        all_parting(n.on_open(kind).0),
{
    laws::law_open_port_is_free(n, kind);
    let m = n.on_open(kind).0;
    if let Some(c) = n.on_open(kind).1 {
        assert forall|i: int, j: int|
            0 <= i < m.socks.len() && 0 <= j < m.socks.len() && #[trigger] same_peer(
                m.socks[i],
                m.socks[j],
            ) implies i == j by {
            if i != c && j != c {
                assert(same_peer(n.socks[i], n.socks[j]));
            }
        }
    } else {
        assert(m.socks == n.socks);
    }
    assert forall|i: int| 0 <= i < m.socks.len() implies parting(#[trigger] m.socks[i]) by {
        assert(parting(n.socks[i]));
    }
}

/// Binding a free port keeps 4-tuples apart.
pub proof fn law_bind_keeps_apart(n: NetV, idx: int, port: u16)
    requires
        n.bounded(),
        unique(n),
        all_parting(n),
        n.is_open(idx),
        n.can_bind(idx, port),
    ensures
        unique(n.bound(idx, port)),
        all_parting(n.bound(idx, port)),
{
    let m = n.bound(idx, port);
    assert forall|i: int, j: int|
        0 <= i < m.socks.len() && 0 <= j < m.socks.len() && #[trigger] same_peer(m.socks[i], m.socks[j]) implies i
        == j by {
        if i != idx && j != idx {
            assert(same_peer(n.socks[i], n.socks[j]));
        }
    }
    assert forall|i: int| 0 <= i < m.socks.len() implies parting(#[trigger] m.socks[i]) by {
        assert(parting(n.socks[i]));
    }
}

/// What one slot's tick leaves of the slots.
pub proof fn lemma_tick_slot(n: NetV, i: int, now: u64)
    requires
        n.bounded(),
        0 <= i < NSOCK,
    ensures
        n.tick_slot(i, now).0.socks.len() == n.socks.len(),
        forall|j: int|
            0 <= j < n.socks.len() && j != i ==> #[trigger] n.tick_slot(i, now).0.socks[j] == n.socks[j],
        same_side(n.socks[i], n.tick_slot(i, now).0.socks[i]),
        parting(n.socks[i]) ==> parting(n.tick_slot(i, now).0.socks[i]),
{
    let t = n.socks[i].tcp;
    let total = tcp::min_nat(t.unacked.len(), 4 * tcp::MSS as nat);
    assert(n.socks[i].wf());
    tcp::lemma_tx_run_frame(n, n.dest(i), t.snd_una, t.rcv_nxt, t.unacked.take(total as int), 0);
}

/// A tick over the slots below `upto` leaves those from there on alone.
proof fn lemma_tick(n: NetV, upto: int, now: u64)
    requires
        n.bounded(),
        laws::all_cover(n),
        0 <= upto <= NSOCK,
    ensures
        n.tick(upto, now).0.bounded(),
        n.tick(upto, now).0.socks.len() == n.socks.len(),
        forall|j: int| upto <= j < n.socks.len() ==> #[trigger] n.tick(upto, now).0.socks[j] == n.socks[j],
        forall|j: int|
            0 <= j < n.socks.len() ==> same_side(n.socks[j], #[trigger] n.tick(upto, now).0.socks[j]) && (parting(
                n.socks[j],
            ) ==> parting(n.tick(upto, now).0.socks[j])),
    decreases upto,
{
    if upto > 0 {
        lemma_tick(n, upto - 1, now);
        laws::law_tick_keeps_window(n, upto, now);
        let m = n.tick(upto - 1, now).0;
        lemma_tick_slot(m, upto - 1, now);
        assert forall|j: int| 0 <= j < n.socks.len() implies same_side(
            n.socks[j],
            #[trigger] n.tick(upto, now).0.socks[j],
        ) && (parting(n.socks[j]) ==> parting(n.tick(upto, now).0.socks[j])) by {
            assert(same_side(n.socks[j], m.socks[j]));
            if j != upto - 1 {
                assert(m.tick_slot(upto - 1, now).0.socks[j] == m.socks[j]);
            }
        }
        assert forall|j: int| upto <= j < n.socks.len() implies #[trigger] n.tick(upto, now).0.socks[j]
            == n.socks[j] by {
            assert(m.tick_slot(upto - 1, now).0.socks[j] == m.socks[j]);
            assert(m.socks[j] == n.socks[j]);
        }
    }
}

/// A tick keeps 4-tuples apart, and only slots whose FIN is under way linger.
pub proof fn law_tick_keeps_apart(n: NetV, now: u64)
    requires
        n.bounded(),
        laws::all_cover(n),
        unique(n),
        all_parting(n),
    ensures
        unique(n.tick(NSOCK as int, now).0),
        all_parting(n.tick(NSOCK as int, now).0),
{
    lemma_tick(n, NSOCK as int, now);
    let m = n.tick(NSOCK as int, now).0;
    assert forall|i: int| 0 <= i < n.socks.len() implies #[trigger] same_side(n.socks[i], m.socks[i]) by {}
    lemma_fewer(n, m);
    assert forall|i: int| 0 <= i < m.socks.len() implies parting(#[trigger] m.socks[i]) by {
        assert(parting(n.socks[i]));
    }
}

/// A segment that came from the peer of the connection in slot `i`.
pub open spec fn from_peer(s: SockV, src_ip: u32, seg: Seq<u8>) -> bool {
    &&& NetV::seg_valid(src_ip, seg)
    &&& s.is_child(src_ip, wire::be16_of(seg, 0) as u16, wire::be16_of(seg, 2) as u16)
}

/// The segment acknowledges everything that was sent, the FIN included.
pub open spec fn acks_all(s: SockV, seg: Seq<u8>) -> bool {
    seg[13] & F_ACK != 0 && seg[13] & F_RST == 0 && wire::be32_of(seg, 8) as u32 == s.tcp.snd_nxt
}

// ---- all that is kept ----

/// A slot that changes on its own keeps the rest: it holds the connection it
/// held, or none.
pub proof fn lemma_slot_changed(n: NetV, m: NetV, i: int, t: SockV)
    requires
        n.wf(),
        0 <= i < NSOCK,
        m.socks == n.socks.update(i, t),
        m.mac.len() == 6,
        m.gw_mac.len() == 6,
        t.wf(),
        t.used && t.kind == 1 ==> laws::covers_window(t.tcp),
        parting(t),
        same_side(n.socks[i], t),
    ensures
        m.wf(),
{
    assert forall|j: int| 0 <= j < n.socks.len() implies #[trigger] same_side(n.socks[j], m.socks[j]) by {
        if j != i {
            assert(m.socks[j] == n.socks[j]);
        }
    }
    lemma_fewer(n, m);
    assert forall|j: int| 0 <= j < m.socks.len() implies parting(#[trigger] m.socks[j]) by {
        assert(parting(n.socks[j]));
    }
    assert forall|j: int| 0 <= j < m.socks.len() && (#[trigger] m.socks[j]).used && m.socks[j].kind
        == 1 implies laws::covers_window(m.socks[j].tcp) by {
        if j != i {
            assert(m.socks[j] == n.socks[j]);
        }
    }
    assert forall|j: int| 0 <= j < NSOCK implies (#[trigger] m.socks[j]).wf() by {
        assert(n.socks[j].wf());
    }
}

/// Nothing about the slots changes: all is kept.
pub proof fn lemma_slots_same(n: NetV, m: NetV)
    requires
        n.wf(),
        m.socks == n.socks,
        m.mac.len() == 6,
        m.gw_mac.len() == 6,
    ensures
        m.wf(),
{
    lemma_slot_changed(n, m, 0, n.socks[0]);
    assert(m.socks =~= n.socks.update(0, n.socks[0]));
}

/// Receiving keeps all that is to be kept.
pub proof fn law_receive_keeps_all(n: NetV, src_ip: u32, seg: Seq<u8>, now: u64)
    requires
        n.wf(),
    ensures
        n.on_tcp(src_ip, seg, now).0.wf(),
{
    laws::law_receive_keeps_bounds(n, src_ip, seg, now);
    laws::law_receive_keeps_window(n, src_ip, seg, now);
    law_receive_keeps_apart(n, src_ip, seg, now);
}

/// So does closing.
pub proof fn law_close_keeps_all(n: NetV, idx: int, now: u64)
    requires
        n.wf(),
        n.is_tcp(idx),
    ensures
        n.on_close(idx, now).wf(),
{
    laws::law_close_keeps_window(n, idx, now);
    law_close_keeps_apart(n, idx, now);
    let m = n.on_close(idx, now);
    assert forall|j: int| 0 <= j < NSOCK implies (#[trigger] m.socks[j]).wf() by {
        assert(n.socks[j].wf());
    }
}

/// So does sending.
pub proof fn law_send_keeps_all(n: NetV, idx: int, data: Seq<u8>, now: u64)
    requires
        n.wf(),
    ensures
        n.on_send(idx, data, now).0.wf(),
{
    laws::law_send_keeps_window(n, idx, data, now);
    let m = n.on_send(idx, data, now).0;
    if n.can_send(idx) {
        let t = n.socks[idx].tcp;
        tcp::lemma_tx_run_frame(n, n.dest(idx), t.snd_nxt, t.rcv_nxt, data, 0);
        assert(n.socks[idx].wf() && parting(n.socks[idx]));
        assert(m.socks =~= n.socks.update(idx, m.socks[idx]));
        lemma_slot_changed(n, m, idx, m.socks[idx]);
    }
}

/// So does a tick.
pub proof fn law_tick_keeps_all(n: NetV, now: u64)
    requires
        n.wf(),
    ensures
        n.tick(NSOCK as int, now).0.wf(),
{
    laws::law_tick_keeps_window(n, NSOCK as int, now);
    law_tick_keeps_apart(n, now);
}

/// So does opening a socket.
pub proof fn law_open_keeps_all(n: NetV, kind: u8)
    requires
        n.wf(),
    ensures
        n.on_open(kind).0.wf(),
{
    laws::law_open_port_is_free(n, kind);
    law_open_keeps_apart(n, kind);
    let m = n.on_open(kind).0;
    assert forall|j: int| 0 <= j < NSOCK implies (#[trigger] m.socks[j]).wf() by {
        assert(n.socks[j].wf());
    }
    assert forall|j: int| 0 <= j < m.socks.len() && (#[trigger] m.socks[j]).used && m.socks[j].kind
        == 1 implies laws::covers_window(m.socks[j].tcp) by {
        if n.on_open(kind).1 != Some(j) {
            assert(m.socks[j] == n.socks[j]);
        }
    }
}

/// So does binding one to a port.
pub proof fn law_bind_keeps_all(n: NetV, idx: int, port: u16)
    requires
        n.wf(),
        n.is_open(idx),
        n.can_bind(idx, port),
    ensures
        n.bound(idx, port).wf(),
{
    law_bind_keeps_apart(n, idx, port);
    let m = n.bound(idx, port);
    assert forall|j: int| 0 <= j < NSOCK implies (#[trigger] m.socks[j]).wf() by {
        assert(n.socks[j].wf());
    }
    assert forall|j: int| 0 <= j < m.socks.len() && (#[trigger] m.socks[j]).used && m.socks[j].kind
        == 1 implies laws::covers_window(m.socks[j].tcp) by {
        assert(n.socks[j].used && n.socks[j].kind == 1);
    }
}

// ---- how a close ends ----

/// The acknowledgment of our FIN frees a slot that lingers for it: the slot is
/// unused, nothing else changes, and nothing is sent.
pub proof fn law_fin_ack_frees(n: NetV, i: int, src_ip: u32, seg: Seq<u8>, now: u64)
    requires
        n.wf(),
        0 <= i < NSOCK,
        n.socks[i].closing,
        n.socks[i].tcp.state is LastAck || n.socks[i].tcp.state is Closing,
        from_peer(n.socks[i], src_ip, seg),
        acks_all(n.socks[i], seg),
    ensures
        n.on_tcp(src_ip, seg, now) == (n.with_sock(i, n.socks[i].dropped()), true),
        !n.on_tcp(src_ip, seg, now).0.socks[i].used,
        n.on_tcp(src_ip, seg, now).0.link == n.link,
{
    lemma_child_is(n, src_ip, wire::be16_of(seg, 0) as u16, wire::be16_of(seg, 2) as u16, i);
    assert(laws::covers_window(n.socks[i].tcp));
    let m = n.on_tcp(src_ip, seg, now).0;
    assert(m.socks =~= n.with_sock(i, n.socks[i].dropped()).socks);
}

/// Closing a connection whose peer had closed: the slot lingers, and the peer's
/// acknowledgment of our FIN frees it, with no answer.
pub proof fn law_close_then_ack_frees(n: NetV, i: int, src_ip: u32, seg: Seq<u8>, then: u64, now: u64)
    requires
        n.wf(),
        n.is_tcp(i),
        n.socks[i].tcp.state is CloseWait,
        from_peer(n.on_close(i, then).socks[i], src_ip, seg),
        acks_all(n.on_close(i, then).socks[i], seg),
    ensures
        n.on_close(i, then).socks[i].used,
        n.on_close(i, then).socks[i].closing,
        n.on_close(i, then).wf(),
        !n.on_close(i, then).on_tcp(src_ip, seg, now).0.socks[i].used,
        n.on_close(i, then).on_tcp(src_ip, seg, now).0.link == n.on_close(i, then).link,
{
    law_close_keeps_all(n, i, then);
    law_fin_ack_frees(n.on_close(i, then), i, src_ip, seg, now);
}

/// A slot that lingers for the acknowledgment of our FIN while the peer still
/// sends goes on to wait for the peer's FIN, and where that comes with the
/// acknowledgment, right after what was received, the slot is free.
pub proof fn law_fin_ack_moves_on(n: NetV, i: int, src_ip: u32, seg: Seq<u8>, now: u64)
    requires
        n.wf(),
        0 <= i < NSOCK,
        n.socks[i].closing,
        n.socks[i].tcp.state is FinW1,
        from_peer(n.socks[i], src_ip, seg),
        acks_all(n.socks[i], seg),
    ensures
        seg[13] & F_FIN == 0 ==> {
            let s = n.on_tcp(src_ip, seg, now).0.socks[i];
            s.used && s.closing && s.tcp.state is FinW2 && s.tcp.unacked.len() == 0
        },
        seg[13] & F_FIN != 0 && seg.len() == tcp::seg_doff(seg) && wire::be32_of(seg, 4) as u32
            == n.socks[i].tcp.rcv_nxt ==> !n.on_tcp(src_ip, seg, now).0.socks[i].used,
{
    lemma_child_is(n, src_ip, wire::be16_of(seg, 0) as u16, wire::be16_of(seg, 2) as u16, i);
    assert(laws::covers_window(n.socks[i].tcp));
    assert(n.socks[i].tcp.rcv_nxt.wrapping_add(0) == n.socks[i].tcp.rcv_nxt);
}

/// No slot lingers for ever: a tick that comes `CLOSE_TIMEOUT` after the timer
/// frees it where nothing is left to retransmit, and where something is, a due
/// tick frees it or counts one more of at most `MAX_RETRY` retransmissions.
pub proof fn law_lingering_ends(n: NetV, i: int, now: u64)
    requires
        n.wf(),
        0 <= i < NSOCK,
        n.socks[i].used,
        n.socks[i].kind == 1,
        n.socks[i].closing,
    ensures
        n.socks[i].tcp.unacked.len() == 0 && now >= n.socks[i].tcp.rto_at.wrapping_add(CLOSE_TIMEOUT) ==> !n.tick(
            NSOCK as int,
            now,
        ).0.socks[i].used,
        n.socks[i].tcp.unacked.len() > 0 && now >= n.socks[i].tcp.rto_at ==> {
            let s = n.tick(NSOCK as int, now).0.socks[i];
            !s.used || (s.tcp.retries == n.socks[i].tcp.retries + 1 && s.tcp.retries <= tcp::MAX_RETRY)
        },
{
    lemma_tick_one(n, i, NSOCK as int, now);
    lemma_tick(n, i, now);
    let m = n.tick(i, now).0;
    assert(m.socks[i] == n.socks[i]);
    assert(parting(n.socks[i]));
    let t = m.socks[i].tcp;
    let total = tcp::min_nat(t.unacked.len(), 4 * tcp::MSS as nat);
    tcp::lemma_tx_run_frame(m, m.dest(i), t.snd_una, t.rcv_nxt, t.unacked.take(total as int), 0);
}

/// Slot `i` after a tick is what its own step made of it.
proof fn lemma_tick_one(n: NetV, i: int, upto: int, now: u64)
    requires
        n.bounded(),
        laws::all_cover(n),
        0 <= i < upto <= NSOCK,
    ensures
        n.tick(upto, now).0.socks[i] == n.tick(i, now).0.tick_slot(i, now).0.socks[i],
    decreases upto,
{
    if i < upto - 1 {
        lemma_tick_one(n, i, upto - 1, now);
        lemma_tick(n, upto - 1, now);
        let m = n.tick(upto - 1, now).0;
        lemma_tick_slot(m, upto - 1, now);
        assert(m.tick_slot(upto - 1, now).0.socks[i] == m.socks[i]);
    }
}

} // verus!
