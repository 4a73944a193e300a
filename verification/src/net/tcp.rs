//! Minimal TCP: passive open, in-order transfer, fixed-timeout retransmit,
//! half-close. Out-of-order data is dropped; the peer retransmits.
use crate::net::linger;
use crate::net::state::{NetState, NetV, SockV, CLOSE_TIMEOUT, NSOCK, RTO_TICKS, RX_CAP, UNACK_CAP};
use crate::net::wire;
use crate::net::wire::{GUEST_IP, MAX_SEG};
use std::collections::VecDeque;
use vstd::prelude::*;

verus! {

pub const MSS: usize = 1460;

pub const MAX_RETRY: u8 = 5;

pub const F_FIN: u8 = 1;

pub const F_SYN: u8 = 2;

pub const F_RST: u8 = 4;

pub const F_ACK: u8 = 16;

/// FIN and ACK.
pub const F_FINACK: u8 = 17;

/// SYN and ACK.
pub const F_SYNACK: u8 = 18;

/// RST and ACK.
pub const F_RSTACK: u8 = 20;

#[derive(Clone, Copy, PartialEq, Eq, Structural, Debug)]
pub enum TState {
    Closed,
    Listen,
    SynRcvd,
    Est,
    FinW1,
    FinW2,
    Closing,
    CloseWait,
    LastAck,
}

/// Transmission control block.
pub struct Tcb {
    pub state: TState,
    pub rip: u32,
    pub rport: u16,
    pub iss: u32,
    pub snd_una: u32,
    pub snd_nxt: u32,
    pub rcv_nxt: u32,
    pub fin_sent: bool,
    /// Handed out by accept.
    pub accepted: bool,
    /// Listener this connection came in on.
    pub parent: Option<usize>,
    /// Bytes from `snd_una` on, kept for retransmission.
    pub unacked: Vec<u8>,
    pub rto_at: u64,
    pub retries: u8,
    /// In-order payload not yet read.
    pub rx: VecDeque<u8>,
}

#[verifier::ext_equal]
pub struct TcbV {
    pub state: TState,
    pub rip: u32,
    pub rport: u16,
    pub iss: u32,
    pub snd_una: u32,
    pub snd_nxt: u32,
    pub rcv_nxt: u32,
    pub fin_sent: bool,
    pub accepted: bool,
    pub parent: Option<usize>,
    pub unacked: Seq<u8>,
    pub rto_at: u64,
    pub retries: u8,
    pub rx: Seq<u8>,
}

impl View for Tcb {
    type V = TcbV;

    open spec fn view(&self) -> TcbV {
        TcbV {
            state: self.state,
            rip: self.rip,
            rport: self.rport,
            iss: self.iss,
            snd_una: self.snd_una,
            snd_nxt: self.snd_nxt,
            rcv_nxt: self.rcv_nxt,
            fin_sent: self.fin_sent,
            accepted: self.accepted,
            parent: self.parent,
            unacked: self.unacked@,
            rto_at: self.rto_at,
            retries: self.retries,
            rx: self.rx@,
        }
    }
}

pub open spec fn min_nat(a: nat, b: nat) -> nat {
    if a <= b {
        a
    } else {
        b
    }
}

/// What a segment does to a connection: the new block, whether a sleeper may
/// need waking, and the answer `(seq, ack, flags)` to send.
pub struct Reaction {
    pub tcb: TcbV,
    pub wake: bool,
    pub reply: Option<(u32, u32, u8)>,
}

impl TcbV {
    pub open spec fn fresh() -> TcbV {
        TcbV {
            state: TState::Closed,
            rip: 0,
            rport: 0,
            iss: 0,
            snd_una: 0,
            snd_nxt: 0,
            rcv_nxt: 0,
            fin_sent: false,
            accepted: false,
            parent: None,
            unacked: Seq::empty(),
            rto_at: 0,
            retries: 0,
            rx: Seq::empty(),
        }
    }

    /// The acknowledgment number lies in `[snd_una, snd_nxt]` on the circle of
    /// sequence numbers.
    pub open spec fn ack_in_window(self, ackn: u32) -> bool {
        ackn.wrapping_sub(self.snd_una) <= self.snd_nxt.wrapping_sub(self.snd_una)
    }

    /// State after an acknowledgment that moves `snd_una` to `ackn`.
    pub open spec fn state_on_ack(self, ackn: u32) -> TState {
        match self.state {
            TState::SynRcvd => TState::Est,
            TState::FinW1 => if self.fin_sent && ackn == self.snd_nxt {
                TState::FinW2
            } else {
                TState::FinW1
            },
            TState::Closing | TState::LastAck => if ackn == self.snd_nxt {
                TState::Closed
            } else {
                self.state
            },
            s => s,
        }
    }

    /// Takes an in-window acknowledgment.
    pub open spec fn on_ack(self, ackn: u32, now: u64) -> TcbV {
        if ackn == self.snd_una {
            self
        } else {
            TcbV {
                unacked: self.unacked.skip(
                    min_nat(ackn.wrapping_sub(self.snd_una) as nat, self.unacked.len()) as int,
                ),
                snd_una: ackn,
                rto_at: now.wrapping_add(RTO_TICKS),
                retries: 0,
                state: self.state_on_ack(ackn),
                ..self
            }
        }
    }

    /// In-order data is taken as far as the buffer has room.
    pub open spec fn on_data(self, seq: u32, payload: Seq<u8>) -> TcbV {
        if seq == self.rcv_nxt {
            let k = min_nat(
                if self.rx.len() <= RX_CAP {
                    (RX_CAP - self.rx.len()) as nat
                } else {
                    0
                },
                payload.len(),
            );
            TcbV {
                rx: self.rx + payload.take(k as int),
                rcv_nxt: self.rcv_nxt.wrapping_add(k as u32),
                ..self
            }
        } else {
            self
        }
    }

    /// A FIN that arrives right at `rcv_nxt` is taken.
    pub open spec fn takes_fin(self, seq: u32, payload: Seq<u8>) -> bool {
        seq.wrapping_add(payload.len() as u32) == self.rcv_nxt
    }

    pub open spec fn on_fin(self) -> TcbV {
        TcbV {
            rcv_nxt: self.rcv_nxt.wrapping_add(1),
            state: match self.state {
                TState::Est => TState::CloseWait,
                TState::FinW2 => TState::Closed,
                TState::FinW1 => TState::Closing,
                s => s,
            },
            ..self
        }
    }

    pub open spec fn pure_ack(self) -> Option<(u32, u32, u8)> {
        Some((self.snd_nxt, self.rcv_nxt, F_ACK))
    }

    pub open spec fn receives_data(self) -> bool {
        self.state is Est || self.state is FinW2 || self.state is CloseWait
    }

    /// What the part of a segment after the acknowledgment does.
    pub open spec fn on_body(self, seq: u32, flags: u8, payload: Seq<u8>, woken: bool) -> Reaction {
        let fin = flags & F_FIN != 0;
        if self.state is SynRcvd {
            Reaction {
                tcb: self,
                wake: woken,
                reply: if flags & F_SYN != 0 {
                    Some((self.iss, self.rcv_nxt, F_SYNACK))
                } else {
                    None
                },
            }
        } else if self.receives_data() {
            let d = if payload.len() > 0 {
                self.on_data(seq, payload)
            } else {
                self
            };
            let w = woken || (payload.len() > 0 && seq == self.rcv_nxt);
            if fin {
                let take = d.takes_fin(seq, payload);
                let t = if take {
                    d.on_fin()
                } else {
                    d
                };
                Reaction { tcb: t, wake: w || take, reply: t.pure_ack() }
            } else {
                Reaction {
                    tcb: d,
                    wake: w,
                    reply: if payload.len() > 0 {
                        d.pure_ack()
                    } else {
                        None
                    },
                }
            }
        } else if self.state is FinW1 && fin && self.takes_fin(seq, payload) {
            Reaction { tcb: self.on_fin(), wake: true, reply: self.on_fin().pure_ack() }
        } else {
            Reaction { tcb: self, wake: woken || self.state is Closed, reply: None }
        }
    }

    /// The whole reaction to one segment; `None` when the acknowledgment is
    /// out of window and the segment is dropped.
    pub open spec fn on_segment(
        self,
        seq: u32,
        ackn: u32,
        flags: u8,
        payload: Seq<u8>,
        now: u64,
    ) -> Option<Reaction> {
        if flags & F_ACK != 0 {
            if !self.ack_in_window(ackn) {
                None
            } else {
                let r = self.on_ack(ackn, now).on_body(
                    seq,
                    flags,
                    payload,
                    ackn != self.snd_una,
                );
                Some(Reaction { wake: r.wake || r.tcb.state is Closed, ..r })
            }
        } else {
            let r = self.on_body(seq, flags, payload, false);
            Some(Reaction { wake: r.wake || r.tcb.state is Closed, ..r })
        }
    }
}

impl Tcb {
    pub fn new() -> (t: Tcb)
        ensures
            t@ == TcbV::fresh(),
    {
        Tcb {
            state: TState::Closed,
            rip: 0,
            rport: 0,
            iss: 0,
            snd_una: 0,
            snd_nxt: 0,
            rcv_nxt: 0,
            fin_sent: false,
            accepted: false,
            parent: None,
            unacked: Vec::new(),
            rto_at: 0,
            retries: 0,
            rx: VecDeque::new(),
        }
    }

    pub fn reset(&mut self)
        ensures
            final(self)@ == TcbV::fresh(),
    {
        *self = Tcb::new();
    }

    /// Drops the first `k` unacknowledged bytes.
    fn drop_acked(&mut self, k: usize)
        requires
            k <= old(self)@.unacked.len(),
        ensures
            final(self)@ == (TcbV { unacked: old(self)@.unacked.skip(k as int), ..old(self)@ }),
    {
        let rest = self.unacked.split_off(k);
        self.unacked = rest;
        assert(self.unacked@ =~= old(self)@.unacked.skip(k as int));
    }

    /// Appends the first `k` bytes of `payload` to the receive buffer.
    fn take_payload(&mut self, payload: &[u8], k: usize)
        requires
            k <= payload@.len(),
        ensures
            final(self)@ == (TcbV { rx: old(self)@.rx + payload@.take(k as int), ..old(self)@ }),
    {
        let mut j: usize = 0;
        while j < k
            invariant
                j <= k <= payload@.len(),
                self@ == (TcbV { rx: old(self)@.rx + payload@.take(j as int), ..old(self)@ }),
            decreases k - j,
        {
            self.rx.push_back(payload[j]);
            j += 1;
            assert(payload@.take(j as int) =~= payload@.take(j - 1).push(payload@[j - 1]));
            assert(self@.rx =~= old(self)@.rx + payload@.take(j as int));
        }
    }

    /// Moves the first `k` received bytes to the start of `out`.
    fn deliver(&mut self, out: &mut [u8], k: usize)
        requires
            k <= old(out)@.len(),
            k <= old(self)@.rx.len(),
        ensures
            final(self)@ == (TcbV { rx: old(self)@.rx.skip(k as int), ..old(self)@ }),
            final(out)@ == overlay(old(out)@, old(self)@.rx.take(k as int)),
    {
        let ghost t0 = self@;
        let ghost o0 = out@;
        let mut j: usize = 0;
        assert(t0.rx.skip(0) =~= t0.rx);
        assert(overlay(o0, t0.rx.take(0)) =~= o0);
        while j < k
            invariant
                j <= k <= t0.rx.len(),
                k <= o0.len(),
                out@.len() == o0.len(),
                out@ == overlay(o0, t0.rx.take(j as int)),
                self@ == (TcbV { rx: t0.rx.skip(j as int), ..t0 }),
            decreases k - j,
        {
            if let Some(b) = self.rx.pop_front() {
                out[j] = b;
            }
            j += 1;
            assert(out@ =~= overlay(o0, t0.rx.take(j as int)));
            assert(self@.rx =~= t0.rx.skip(j as int));
        }
    }

    /// Takes the acknowledgment of a segment. False: out of window.
    fn ack(&mut self, ackn: u32, now: u64) -> (ok: bool)
        ensures
            ok == old(self)@.ack_in_window(ackn),
            final(self)@ == if ok {
                old(self)@.on_ack(ackn, now)
            } else {
                old(self)@
            },
    {
        let lo = self.snd_una;
        let hi = self.snd_nxt;
        if ackn.wrapping_sub(lo) > hi.wrapping_sub(lo) {
            return false;
        }
        if ackn != lo {
            let adv: usize = ackn.wrapping_sub(lo) as usize;
            let k: usize = if adv < self.unacked.len() {
                adv
            } else {
                self.unacked.len()
            };
            self.drop_acked(k);
            self.snd_una = ackn;
            self.rto_at = now.wrapping_add(RTO_TICKS);
            self.retries = 0;
            match self.state {
                TState::SynRcvd => {
                    self.state = TState::Est;
                },
                TState::FinW1 => {
                    if self.fin_sent && ackn == self.snd_nxt {
                        self.state = TState::FinW2;
                    }
                },
                TState::Closing | TState::LastAck => {
                    if ackn == self.snd_nxt {
                        self.state = TState::Closed;
                    }
                },
                _ => {},
            }
            assert(self@ =~= old(self)@.on_ack(ackn, now));
        }
        true
    }

    /// Feeds one segment to the connection: `(wake, answer)`, or `None` when
    /// it is dropped for an acknowledgment out of window.
    pub fn segment(&mut self, seq: u32, ackn: u32, flags: u8, payload: &[u8], now: u64) -> (r: Option<
        (bool, Option<(u32, u32, u8)>),
    >)
        requires
            payload@.len() <= MAX_SEG,
        ensures
            match old(self)@.on_segment(seq, ackn, flags, payload@, now) {
                Some(e) => r == Some((e.wake, e.reply)) && final(self)@ == e.tcb,
                None => r is None && final(self)@ == old(self)@,
            },
    {
        let mut wake = false;
        let mut reply: Option<(u32, u32, u8)> = None;
        if flags & F_ACK != 0 {
            let moved = ackn != self.snd_una;
            if !self.ack(ackn, now) {
                return None;
            }
            wake = moved;
        }
        let ghost woken = wake;
        let ghost mid = self@;
        if self.state == TState::SynRcvd {
            if flags & F_SYN != 0 {
                reply = Some((self.iss, self.rcv_nxt, F_SYNACK));
            }
        } else if self.state == TState::Est || self.state == TState::FinW2 || self.state
            == TState::CloseWait {
            if payload.len() > 0 {
                if seq == self.rcv_nxt {
                    let room: usize = if self.rx.len() <= RX_CAP {
                        RX_CAP - self.rx.len()
                    } else {
                        0
                    };
                    let k: usize = if room < payload.len() {
                        room
                    } else {
                        payload.len()
                    };
                    self.take_payload(payload, k);
                    self.rcv_nxt = self.rcv_nxt.wrapping_add(k as u32);
                    wake = true;
                }
                reply = Some((self.snd_nxt, self.rcv_nxt, F_ACK));
                assert(self@ =~= mid.on_data(seq, payload@));
            }
            if flags & F_FIN != 0 {
                let fin_seq = seq.wrapping_add(payload.len() as u32);
                if fin_seq == self.rcv_nxt {
                    self.rcv_nxt = self.rcv_nxt.wrapping_add(1);
                    if self.state == TState::Est {
                        self.state = TState::CloseWait;
                    } else if self.state == TState::FinW2 {
                        self.state = TState::Closed;
                    }
                    wake = true;
                }
                reply = Some((self.snd_nxt, self.rcv_nxt, F_ACK));
            }
        } else if self.state == TState::FinW1 {
            if flags & F_FIN != 0 {
                let fin_seq = seq.wrapping_add(payload.len() as u32);
                if fin_seq == self.rcv_nxt {
                    self.rcv_nxt = self.rcv_nxt.wrapping_add(1);
                    self.state = TState::Closing;
                    wake = true;
                    reply = Some((self.snd_nxt, self.rcv_nxt, F_ACK));
                }
            }
        }
        if self.state == TState::Closed {
            wake = true;
        }
        assert(self@ =~= mid.on_body(seq, flags, payload@, woken).tcb);
        Some((wake, reply))
    }
}

// ---- transmit ----

/// Where a segment goes and how it is addressed.
pub struct Dest {
    pub ip: u32,
    pub dport: u16,
    pub sport: u16,
}

impl NetV {
    pub open spec fn frame(self, d: Dest, seq: u32, ack: u32, flags: u8, payload: Seq<u8>) -> Seq<u8> {
        wire::tcp_frame(self.gw_mac, self.mac, d.ip, d.dport, d.sport, seq, ack, flags, payload)
    }

    /// Hands one segment to the link.
    pub open spec fn tx(self, d: Dest, seq: u32, ack: u32, flags: u8, payload: Seq<u8>) -> NetV {
        NetV { link: self.link.submit(self.frame(d, seq, ack, flags, payload)), ..self }
    }

    pub open spec fn dest(self, i: int) -> Dest {
        Dest {
            ip: self.socks[i].tcp.rip,
            dport: self.socks[i].tcp.rport,
            sport: self.socks[i].lport,
        }
    }

    /// Sends `data[off..]` in segments of at most `MSS` bytes, in order, until
    /// all is sent or the link refuses one: the state after it and how much
    /// of `data` is sent then.
    pub open spec fn tx_run(self, d: Dest, seq: u32, ack: u32, data: Seq<u8>, off: nat) -> (NetV, nat)
        decreases data.len() - off,
    {
        if off >= data.len() {
            (self, off)
        } else {
            let k = min_nat(MSS as nat, (data.len() - off) as nat);
            let n = self.tx(
                d,
                seq.wrapping_add(off as u32),
                ack,
                F_ACK,
                data.subrange(off as int, (off + k) as int),
            );
            if self.link.accepts() {
                n.tx_run(d, seq, ack, data, off + k)
            } else {
                (n, off)
            }
        }
    }
}

/// Builds and submits one segment. False when it exceeds the staging buffer
/// (nothing is sent then) or the device did not complete it.
fn tx_seg(n: &mut NetState, d: Dest, seq: u32, ack: u32, flags: u8, payload: &[u8]) -> (ok: bool)
    ensures
        14 + 20 + 20 + payload@.len() > 2048 ==> !ok && final(n)@ == old(n)@,
        14 + 20 + 20 + payload@.len() <= 2048 ==> {
            &&& ok == old(n)@.link.accepts()
            &&& final(n)@ == old(n)@.tx(d, seq, ack, flags, payload@)
        },
{
    if payload.len() > 2048 - 14 - 20 - 20 {
        return false;
    }
    let f = wire::build_tcp_frame(&n.gw_mac, &n.mac, d.ip, d.dport, d.sport, seq, ack, flags, payload);
    let ok = n.link.submit(f);
    assert(n@ =~= old(n)@.tx(d, seq, ack, flags, payload@));
    ok
}

/// Best-effort reset answering an unexpected segment.
fn send_rst(n: &mut NetState, d: Dest, ack: u32)
    ensures
        final(n)@ == old(n)@.tx(d, 0, ack, F_RSTACK, Seq::empty()),
{
    let none: [u8; 0] = [];
    assert(none@ =~= Seq::<u8>::empty());
    tx_seg(n, d, 0, ack, F_RSTACK, none.as_slice());
}

/// Sends a segment without payload.
fn tx_ctl(n: &mut NetState, d: Dest, seq: u32, ack: u32, flags: u8)
    ensures
        final(n)@ == old(n)@.tx(d, seq, ack, flags, Seq::empty()),
{
    let none: [u8; 0] = [];
    assert(none@ =~= Seq::<u8>::empty());
    tx_seg(n, d, seq, ack, flags, none.as_slice());
}

fn tx_run(n: &mut NetState, d: Dest, seq: u32, ack: u32, data: &[u8]) -> (done: usize)
    requires
        data@.len() <= UNACK_CAP,
    ensures
        done <= data@.len(),
        (final(n)@, done as nat) == old(n)@.tx_run(d, seq, ack, data@, 0),
{
    let mut off: usize = 0;
    while off < data.len()
        invariant
            off <= data@.len() <= UNACK_CAP,
            n@.tx_run(d, seq, ack, data@, off as nat) == old(n)@.tx_run(d, seq, ack, data@, 0),
        decreases data@.len() - off,
    {
        let k: usize = if MSS < data.len() - off {
            MSS
        } else {
            data.len() - off
        };
        let chunk = vstd::slice::slice_subrange(data, off, off + k);
        let d2 = Dest { ip: d.ip, dport: d.dport, sport: d.sport };
        if !tx_seg(n, d2, seq.wrapping_add(off as u32), ack, F_ACK, chunk) {
            return off;
        }
        off += k;
    }
    off
}

// ---- receive ----

impl SockV {
    /// A TCP slot on the given local port.
    pub open spec fn tcp_on(self, port: u16) -> bool {
        self.used && self.kind == 1 && self.lport == port
    }

    /// A connection with this 4-tuple; one whose slot lingers after a close is
    /// still the peer's.
    pub open spec fn is_child(self, src_ip: u32, sport: u16, dport: u16) -> bool {
        self.tcp_on(dport) && !(self.tcp.state is Listen) && self.tcp.rip == src_ip && self.tcp.rport
            == sport
    }

    pub open spec fn is_listener(self, dport: u16) -> bool {
        self.tcp_on(dport) && !self.closing && self.tcp.state is Listen
    }

    /// An established or half-open connection that the listener has not
    /// handed out yet.
    pub open spec fn pending_of(self, li: int) -> bool {
        self.used && !self.closing && self.kind == 1 && self.tcp.parent == Some(li as usize)
            && !self.tcp.accepted
    }

    /// The slot freed, its connection forgotten.
    pub open spec fn dropped(self) -> SockV {
        SockV { used: false, closing: false, tcp: TcbV::fresh(), ..self }
    }
}

impl NetV {
    /// First connection with this exact 4-tuple, from slot `from` on.
    pub open spec fn child(self, src_ip: u32, sport: u16, dport: u16, from: int) -> Option<int>
        decreases self.socks.len() - from,
    {
        if from >= self.socks.len() {
            None
        } else if self.socks[from].is_child(src_ip, sport, dport) {
            Some(from)
        } else {
            self.child(src_ip, sport, dport, from + 1)
        }
    }

    /// Last listener on the port among the slots below `upto`.
    pub open spec fn listener(self, dport: u16, upto: int) -> Option<int>
        decreases upto,
    {
        if upto <= 0 {
            None
        } else if self.socks[upto - 1].is_listener(dport) {
            Some(upto - 1)
        } else {
            self.listener(dport, upto - 1)
        }
    }

    /// First unused slot from `from` on.
    pub open spec fn free_slot(self, from: int) -> Option<int>
        decreases self.socks.len() - from,
    {
        if from >= self.socks.len() {
            None
        } else if !self.socks[from].used {
            Some(from)
        } else {
            self.free_slot(from + 1)
        }
    }

    pub open spec fn has_pending(self, li: int) -> bool {
        exists|i: int| 0 <= i < self.socks.len() && (#[trigger] self.socks[i]).pending_of(li)
    }

    /// Connection set up by a SYN: the slot's new contents.
    pub open spec fn syn_child(self, ci: int, li: int, src_ip: u32, sport: u16, seq: u32, now: u64) -> SockV {
        let lport = self.socks[li].lport;
        let iss = iss_for(lport, now);
        SockV {
            used: true,
            kind: 1,
            closing: false,
            lport,
            tcp: TcbV {
                state: TState::SynRcvd,
                rip: src_ip,
                rport: sport,
                iss,
                snd_una: iss,
                snd_nxt: iss.wrapping_add(1),
                rcv_nxt: seq.wrapping_add(1),
                accepted: false,
                parent: Some(li as usize),
                unacked: Seq::empty(),
                rx: Seq::empty(),
                rto_at: now.wrapping_add(RTO_TICKS),
                retries: 0,
                ..self.socks[ci].tcp
            },
            ..self.socks[ci]
        }
    }

    /// A SYN reaches listener `li`: with a backlog of one, it opens a
    /// connection in the first free slot and answers SYN+ACK.
    pub open spec fn on_syn(self, li: int, src_ip: u32, sport: u16, seq: u32, now: u64) -> (NetV, bool) {
        if self.has_pending(li) {
            (self, false)
        } else {
            match self.free_slot(0) {
                None => (self, false),
                Some(ci) => {
                    let c = self.syn_child(ci, li, src_ip, sport, seq, now);
                    let n = self.with_sock(ci, c);
                    (
                        n.tx(
                            Dest { ip: src_ip, dport: sport, sport: c.lport },
                            c.tcp.iss,
                            seq.wrapping_add(1),
                            F_SYNACK,
                            Seq::empty(),
                        ),
                        true,
                    )
                },
            }
        }
    }

    /// A segment reaches connection `i`.
    pub open spec fn on_child(self, i: int, seq: u32, ackn: u32, flags: u8, payload: Seq<u8>, now: u64) -> (
        NetV,
        bool,
    ) {
        match self.socks[i].tcp.on_segment(seq, ackn, flags, payload, now) {
            None => (self, false),
            Some(e) => {
                let a = self.with_tcb(i, e.tcb);
                let b = match e.reply {
                    Some((sq, ak, fl)) => a.tx(a.dest(i), sq, ak, fl, Seq::empty()),
                    None => a,
                };
                if b.socks[i].closing && e.tcb.state is Closed {
                    (b.with_sock(i, b.socks[i].dropped()), e.wake)
                } else {
                    (b, e.wake)
                }
            },
        }
    }

    /// Header fields are present and the checksum is right.
    pub open spec fn seg_valid(src_ip: u32, seg: Seq<u8>) -> bool {
        &&& seg.len() >= 20
        &&& 20 <= seg_doff(seg) <= seg.len()
        &&& wire::tcp_cksum_of(src_ip, GUEST_IP, seg) == 0
    }

    /// A received segment, from the wire bytes on.
    pub open spec fn on_tcp(self, src_ip: u32, seg: Seq<u8>, now: u64) -> (NetV, bool) {
        let sport = wire::be16_of(seg, 0) as u16;
        let dport = wire::be16_of(seg, 2) as u16;
        let seq = wire::be32_of(seg, 4) as u32;
        let ackn = wire::be32_of(seg, 8) as u32;
        let flags = seg[13];
        let payload = seg.skip(seg_doff(seg));
        let child = self.child(src_ip, sport, dport, 0);
        if !NetV::seg_valid(src_ip, seg) {
            (self, false)
        } else if flags & F_RST != 0 {
            match child {
                Some(i) => (self.with_sock(i, self.socks[i].dropped()), true),
                None => (self, false),
            }
        } else if let Some(i) = child {
            self.on_child(i, seq, ackn, flags, payload, now)
        } else if flags & F_SYN != 0 && self.listener(dport, NSOCK as int) is Some {
            self.on_syn(self.listener(dport, NSOCK as int)->0, src_ip, sport, seq, now)
        } else {
            let fin: u32 = if flags & F_FIN != 0 {
                1
            } else {
                0
            };
            let ack = seq.wrapping_add((payload.len() + fin) as u32);
            (self.tx(Dest { ip: src_ip, dport: sport, sport: dport }, 0, ack, F_RSTACK, Seq::empty()), false)
        }
    }
}

/// Header length in bytes, from the data-offset nibble.
pub open spec fn seg_doff(seg: Seq<u8>) -> int {
    seg[12] / 16 * 4
}

/// Initial sequence number for a connection on `lport` at tick `now`.
pub open spec fn iss_for(lport: u16, now: u64) -> u32 {
    (now as u32).wrapping_add((lport * 0x1_0000) as u32).wrapping_add(0x1_2345)
}

fn find_child(n: &NetState, src_ip: u32, sport: u16, dport: u16) -> (r: Option<usize>)
    ensures
        match n@.child(src_ip, sport, dport, 0) {
            Some(i) => r == Some(i as usize) && 0 <= i < NSOCK,
            None => r is None,
        },
{
    let mut i: usize = 0;
    while i < NSOCK
        invariant
            i <= NSOCK,
            n@.child(src_ip, sport, dport, i as int) == n@.child(src_ip, sport, dport, 0),
        decreases NSOCK - i,
    {
        let s = &n.socks[i];
        assert(n@.socks[i as int] == s@);
        if s.used && s.kind == 1 && s.lport == dport && s.tcp.state != TState::Listen && s.tcp.rip == src_ip
            && s.tcp.rport == sport {
            return Some(i);
        }
        i += 1;
    }
    None
}

fn find_listener(n: &NetState, dport: u16) -> (r: Option<usize>)
    ensures
        match n@.listener(dport, NSOCK as int) {
            Some(i) => r == Some(i as usize) && 0 <= i < NSOCK,
            None => r is None,
        },
{
    let mut i: usize = NSOCK;
    while i > 0
        invariant
            i <= NSOCK,
            n@.listener(dport, i as int) == n@.listener(dport, NSOCK as int),
        decreases i,
    {
        i -= 1;
        let s = &n.socks[i];
        assert(n@.socks[i as int] == s@);
        if s.used && s.kind == 1 && !s.closing && s.lport == dport && s.tcp.state == TState::Listen {
            return Some(i);
        }
    }
    None
}

/// First unused slot.
pub fn find_free(n: &NetState) -> (r: Option<usize>)
    ensures
        match n@.free_slot(0) {
            Some(i) => r == Some(i as usize) && 0 <= i < NSOCK && !n@.socks[i].used,
            None => r is None,
        },
{
    let mut i: usize = 0;
    while i < NSOCK
        invariant
            i <= NSOCK,
            n@.free_slot(i as int) == n@.free_slot(0),
        decreases NSOCK - i,
    {
        assert(n@.socks[i as int] == n.socks@[i as int]@);
        if !n.socks[i].used {
            return Some(i);
        }
        i += 1;
    }
    None
}

fn has_pending(n: &NetState, li: usize) -> (r: bool)
    ensures
        r == n@.has_pending(li as int),
{
    let mut i: usize = 0;
    while i < NSOCK
        invariant
            i <= NSOCK,
            forall|j: int| 0 <= j < i ==> !(#[trigger] n@.socks[j]).pending_of(li as int),
        decreases NSOCK - i,
    {
        let s = &n.socks[i];
        assert(n@.socks[i as int] == s@);
        let mine = match s.tcp.parent {
            Some(p) => p == li,
            None => false,
        };
        if s.used && !s.closing && s.kind == 1 && mine && !s.tcp.accepted {
            assert(n@.socks[i as int].pending_of(li as int));
            return true;
        }
        i += 1;
    }
    false
}

fn listener_syn(n: &mut NetState, li: usize, src_ip: u32, sport: u16, seq: u32, now: u64) -> (wake: bool)
    requires
        li < NSOCK,
    ensures
        (final(n)@, wake) == old(n)@.on_syn(li as int, src_ip, sport, seq, now),
{
    if has_pending(n, li) {
        return false;
    }
    let ci: usize = match find_free(n) {
        Some(i) => i,
        None => {
            return false;
        },
    };
    let lport = n.socks[li].lport;
    let iss = (now as u32).wrapping_add(lport as u32 * 0x1_0000).wrapping_add(0x1_2345);
    {
        let c = &mut n.socks[ci];
        c.used = true;
        c.kind = 1;
        c.closing = false;
        c.lport = lport;
        c.tcp.state = TState::SynRcvd;
        c.tcp.rip = src_ip;
        c.tcp.rport = sport;
        c.tcp.iss = iss;
        c.tcp.snd_una = iss;
        c.tcp.snd_nxt = iss.wrapping_add(1);
        c.tcp.rcv_nxt = seq.wrapping_add(1);
        c.tcp.accepted = false;
        c.tcp.parent = Some(li);
        c.tcp.unacked = Vec::new();
        c.tcp.rx = VecDeque::new();
        c.tcp.rto_at = now.wrapping_add(RTO_TICKS);
        c.tcp.retries = 0;
    }
    assert(n@ =~= old(n)@.with_sock(
        ci as int,
        old(n)@.syn_child(ci as int, li as int, src_ip, sport, seq, now),
    ));
    let d = Dest { ip: src_ip, dport: sport, sport: lport };
    tx_ctl(n, d, iss, seq.wrapping_add(1), F_SYNACK);
    true
}

/// Frees a slot: the connection is forgotten, local port and UDP fields stay.
fn drop_slot(n: &mut NetState, i: usize)
    requires
        i < NSOCK,
    ensures
        final(n)@ == old(n)@.with_sock(i as int, old(n)@.socks[i as int].dropped()),
{
    n.socks[i].used = false;
    n.socks[i].closing = false;
    n.socks[i].tcp.reset();
    assert(n@ =~= old(n)@.with_sock(i as int, old(n)@.socks[i as int].dropped()));
}

fn dest_of(n: &NetState, i: usize) -> (d: Dest)
    requires
        i < NSOCK,
    ensures
        d == n@.dest(i as int),
{
    Dest { ip: n.socks[i].tcp.rip, dport: n.socks[i].tcp.rport, sport: n.socks[i].lport }
}

fn child_rx(n: &mut NetState, i: usize, seq: u32, ackn: u32, flags: u8, payload: &[u8], now: u64) -> (wake:
    bool)
    requires
        i < NSOCK,
        payload@.len() <= MAX_SEG,
    ensures
        (final(n)@, wake) == old(n)@.on_child(i as int, seq, ackn, flags, payload@, now),
{
    let (wake, reply) = match n.socks[i].tcp.segment(seq, ackn, flags, payload, now) {
        Some(e) => e,
        None => {
            assert(n@ =~= old(n)@);
            return false;
        },
    };
    let ghost e = old(n)@.socks[i as int].tcp.on_segment(seq, ackn, flags, payload@, now)->0;
    assert(n@ =~= old(n)@.with_tcb(i as int, e.tcb));
    if let Some((sq, ak, fl)) = reply {
        let d = dest_of(n, i);
        tx_ctl(n, d, sq, ak, fl);
    }
    if n.socks[i].closing && n.socks[i].tcp.state == TState::Closed {
        drop_slot(n, i);
    }
    wake
}

/// One received TCP segment. True if a sleeper may need waking.
pub fn tcp_rx(n: &mut NetState, src_ip: u32, seg: &[u8], now: u64) -> (wake: bool)
    requires
        seg@.len() <= MAX_SEG,
    ensures
        (final(n)@, wake) == old(n)@.on_tcp(src_ip, seg@, now),
        old(n)@.wf() ==> final(n)@.wf(),
{
    proof {
        if old(n)@.wf() {
            linger::law_receive_keeps_all(old(n)@, src_ip, seg@, now);
        }
    }
    if seg.len() < 20 {
        return false;
    }
    let sport = wire::be16(seg, 0);
    let dport = wire::be16(seg, 2);
    let seq = wire::be32(seg, 4);
    let ackn = wire::be32(seg, 8);
    let doff: usize = (seg[12] / 16) as usize * 4;
    if doff < 20 || seg.len() < doff {
        return false;
    }
    let flags = seg[13];
    if wire::tcp_cksum(src_ip, GUEST_IP, seg) != 0 {
        return false;
    }
    let payload = vstd::slice::slice_subrange(seg, doff, seg.len());
    assert(payload@ =~= seg@.skip(doff as int));
    let child = find_child(n, src_ip, sport, dport);
    if flags & F_RST != 0 {
        if let Some(i) = child {
            drop_slot(n, i);
            return true;
        }
        return false;
    }
    if let Some(i) = child {
        return child_rx(n, i, seq, ackn, flags, payload, now);
    }
    if flags & F_SYN != 0 {
        if let Some(li) = find_listener(n, dport) {
            return listener_syn(n, li, src_ip, sport, seq, now);
        }
    }
    let fin: u32 = if flags & F_FIN != 0 {
        1
    } else {
        0
    };
    let ack = seq.wrapping_add(payload.len() as u32 + fin);
    let d = Dest { ip: src_ip, dport: sport, sport: dport };
    send_rst(n, d, ack);
    false
}

// ---- socket operations ----

impl NetV {
    /// The slot is an open TCP socket.
    pub open spec fn is_tcp(self, idx: int) -> bool {
        0 <= idx < NSOCK && self.socks[idx].used && self.socks[idx].kind == 1
    }

    /// Some other open socket, UDP or TCP, holds the local port.
    pub open spec fn port_taken(self, idx: int, port: u16) -> bool {
        exists|j: int|
            0 <= j < NSOCK && j != idx && (#[trigger] self.socks[j]).used && self.socks[j].lport == port
    }

    pub open spec fn can_bind(self, idx: int, port: u16) -> bool {
        port != 0 && !self.port_taken(idx, port)
    }

    pub open spec fn bound(self, idx: int, port: u16) -> NetV {
        self.with_sock(idx, SockV { lport: port, ..self.socks[idx] })
    }

    pub open spec fn can_listen(self, idx: int) -> bool {
        self.is_tcp(idx) && self.socks[idx].lport != 0 && self.socks[idx].tcp.state is Closed
    }

    /// First established connection of the listener not handed out yet, from
    /// slot `from` on.
    pub open spec fn acceptable(self, li: int, from: int) -> Option<int>
        decreases self.socks.len() - from,
    {
        if from >= self.socks.len() {
            None
        } else if self.socks[from].pending_of(li) && self.socks[from].tcp.state is Est {
            Some(from)
        } else {
            self.acceptable(li, from + 1)
        }
    }

    pub open spec fn listening(self, li: int) -> bool {
        0 <= li < NSOCK && self.socks[li].used && self.socks[li].tcp.state is Listen
    }

    pub open spec fn can_send(self, idx: int) -> bool {
        self.is_tcp(idx) && (self.socks[idx].tcp.state is Est || self.socks[idx].tcp.state is CloseWait)
    }

    /// Accepted data: the state after sending, and the result code.
    pub open spec fn on_send(self, idx: int, data: Seq<u8>, now: u64) -> (NetV, int) {
        if !self.can_send(idx) {
            (self, -1)
        } else if self.socks[idx].tcp.unacked.len() + data.len() > UNACK_CAP {
            (self, -2)
        } else {
            let t = self.socks[idx].tcp;
            let (n, done) = self.tx_run(self.dest(idx), t.snd_nxt, t.rcv_nxt, data, 0);
            if done == 0 {
                (n, -1)
            } else {
                (
                    n.with_tcb(
                        idx,
                        TcbV {
                            unacked: t.unacked + data.take(done as int),
                            snd_nxt: t.snd_nxt.wrapping_add(done as u32),
                            rto_at: now.wrapping_add(RTO_TICKS),
                            retries: 0,
                            ..t
                        },
                    ),
                    done as int,
                )
            }
        }
    }

    /// Closing a TCP socket.
    pub open spec fn on_close(self, idx: int, now: u64) -> NetV {
        let s = self.socks[idx];
        let t = s.tcp;
        match t.state {
            TState::Est | TState::CloseWait => {
                let n = self.tx(self.dest(idx), t.snd_nxt, t.rcv_nxt, F_FINACK, Seq::empty());
                n.with_sock(
                    idx,
                    SockV {
                        closing: true,
                        tcp: TcbV {
                            fin_sent: true,
                            snd_nxt: t.snd_nxt.wrapping_add(1),
                            rto_at: now.wrapping_add(RTO_TICKS),
                            retries: 0,
                            state: if t.state is Est {
                                TState::FinW1
                            } else {
                                TState::LastAck
                            },
                            ..t
                        },
                        ..s
                    },
                )
            },
            TState::Listen => self.with_sock(idx, SockV { used: false, tcp: TcbV::fresh(), ..s }),
            _ => {
                let n = if t.rip != 0 {
                    self.tx(self.dest(idx), 0, t.rcv_nxt, F_RSTACK, Seq::empty())
                } else {
                    self
                };
                n.with_sock(idx, s.dropped())
            },
        }
    }
}

/// True if another open socket holds `port`.
pub fn port_taken(n: &NetState, idx: usize, port: u16) -> (r: bool)
    ensures
        r == n@.port_taken(idx as int, port),
{
    let mut j: usize = 0;
    while j < NSOCK
        invariant
            j <= NSOCK,
            forall|k: int|
                0 <= k < j && k != idx ==> !((#[trigger] n@.socks[k]).used && n@.socks[k].lport == port),
        decreases NSOCK - j,
    {
        assert(n@.socks[j as int] == n.socks@[j as int]@);
        if j != idx && n.socks[j].used && n.socks[j].lport == port {
            return true;
        }
        j += 1;
    }
    false
}

/// Binds a TCP socket to a port free across UDP and TCP.
pub fn tcp_bind(n: &mut NetState, idx: usize, port: u16) -> (ok: bool)
    ensures
        ok == (old(n)@.is_tcp(idx as int) && old(n)@.can_bind(idx as int, port)),
        final(n)@ == if ok {
            old(n)@.bound(idx as int, port)
        } else {
            old(n)@
        },
        old(n)@.wf() ==> final(n)@.wf(),
{
    if idx >= NSOCK || !n.socks[idx].used || n.socks[idx].kind != 1 || port == 0 {
        return false;
    }
    if port_taken(n, idx, port) {
        return false;
    }
    n.socks[idx].lport = port;
    assert(n@ =~= old(n)@.bound(idx as int, port));
    proof {
        if old(n)@.wf() {
            linger::law_bind_keeps_all(old(n)@, idx as int, port);
        }
    }
    true
}

pub fn tcp_listen(n: &mut NetState, idx: usize) -> (ok: bool)
    ensures
        ok == old(n)@.can_listen(idx as int),
        final(n)@ == if ok {
            old(n)@.with_tcb(
                idx as int,
                TcbV { state: TState::Listen, ..old(n)@.socks[idx as int].tcp },
            )
        } else {
            old(n)@
        },
        old(n)@.wf() ==> final(n)@.wf(),
{
    if idx >= NSOCK || !n.socks[idx].used || n.socks[idx].kind != 1 {
        return false;
    }
    if n.socks[idx].lport == 0 || n.socks[idx].tcp.state != TState::Closed {
        return false;
    }
    n.socks[idx].tcp.state = TState::Listen;
    assert(n@ =~= old(n)@.with_tcb(
        idx as int,
        TcbV { state: TState::Listen, ..old(n)@.socks[idx as int].tcp },
    ));
    proof {
        if old(n)@.wf() {
            let s = old(n)@.socks[idx as int];
            assert(s.wf() && linger::parting(s));
            linger::lemma_slot_changed(old(n)@, n@, idx as int, n@.socks[idx as int]);
        }
    }
    true
}

/// Peeks at a connection to hand out; the caller commits once its descriptor
/// is allocated.
pub fn tcp_accept(n: &NetState, li: usize) -> (r: Option<usize>)
    ensures
        !n@.listening(li as int) ==> r is None,
        n@.listening(li as int) ==> match n@.acceptable(li as int, 0) {
            Some(i) => r == Some(i as usize) && 0 <= i < NSOCK,
            None => r is None,
        },
{
    if li >= NSOCK || !n.socks[li].used || n.socks[li].tcp.state != TState::Listen {
        return None;
    }
    let mut i: usize = 0;
    while i < NSOCK
        invariant
            i <= NSOCK,
            n@.listening(li as int),
            n@.acceptable(li as int, i as int) == n@.acceptable(li as int, 0),
        decreases NSOCK - i,
    {
        let s = &n.socks[i];
        assert(n@.socks[i as int] == s@);
        let mine = match s.tcp.parent {
            Some(p) => p == li,
            None => false,
        };
        if s.used && !s.closing && s.kind == 1 && mine && !s.tcp.accepted && s.tcp.state == TState::Est {
            return Some(i);
        }
        i += 1;
    }
    None
}

/// Marks a peeked connection handed out.
pub fn tcp_accept_commit(n: &mut NetState, idx: usize)
    ensures
        final(n)@ == if idx < NSOCK && old(n)@.socks[idx as int].used {
            old(n)@.with_tcb(idx as int, TcbV { accepted: true, ..old(n)@.socks[idx as int].tcp })
        } else {
            old(n)@
        },
        old(n)@.wf() ==> final(n)@.wf(),
{
    if idx < NSOCK && n.socks[idx].used {
        n.socks[idx].tcp.accepted = true;
        assert(n@ =~= old(n)@.with_tcb(
            idx as int,
            TcbV { accepted: true, ..old(n)@.socks[idx as int].tcp },
        ));
        proof {
            if old(n)@.wf() {
                let s = old(n)@.socks[idx as int];
                assert(s.wf() && linger::parting(s));
                linger::lemma_slot_changed(old(n)@, n@, idx as int, n@.socks[idx as int]);
            }
        }
    }
}

/// Sends data on a connection: bytes sent, -2 when the retransmit buffer has
/// no room for all of it, -1 on error.
pub fn tcp_send(n: &mut NetState, idx: usize, data: &[u8], now: u64) -> (r: isize)
    requires
        old(n)@.wf(),
    ensures
        (final(n)@, r as int) == old(n)@.on_send(idx as int, data@, now),
        final(n)@.wf(),
{
    proof {
        linger::law_send_keeps_all(old(n)@, idx as int, data@, now);
    }
    if idx >= NSOCK || !n.socks[idx].used || n.socks[idx].kind != 1 {
        return -1;
    }
    let st = n.socks[idx].tcp.state;
    if st != TState::Est && st != TState::CloseWait {
        return -1;
    }
    assert(n@.socks[idx as int].wf());
    if data.len() > UNACK_CAP - n.socks[idx].tcp.unacked.len() {
        return -2;
    }
    let d = dest_of(n, idx);
    let seq = n.socks[idx].tcp.snd_nxt;
    let ack = n.socks[idx].tcp.rcv_nxt;
    let done = tx_run(n, d, seq, ack, data);
    proof {
        lemma_tx_run_frame(old(n)@, d, seq, ack, data@, 0);
    }
    if done == 0 {
        return -1;
    }
    let sent = vstd::slice::slice_subrange(data, 0, done);
    assert(sent@ =~= data@.take(done as int));
    let ghost mid = n@;
    let t = &mut n.socks[idx].tcp;
    wire::push_all(&mut t.unacked, sent);
    t.snd_nxt = seq.wrapping_add(done as u32);
    t.rto_at = now.wrapping_add(RTO_TICKS);
    t.retries = 0;
    proof {
        let t0 = old(n)@.socks[idx as int].tcp;
        let t1 = TcbV {
            unacked: t0.unacked + data@.take(done as int),
            snd_nxt: t0.snd_nxt.wrapping_add(done as u32),
            rto_at: now.wrapping_add(RTO_TICKS),
            retries: 0,
            ..t0
        };
        assert(mid.socks[idx as int].tcp == t0);
        assert(n@ =~= mid.with_tcb(idx as int, t1));
    }
    done as isize
}

/// Sending touches nothing but the link.
pub proof fn lemma_tx_run_frame(n: NetV, d: Dest, seq: u32, ack: u32, data: Seq<u8>, off: nat)
    ensures
        n.tx_run(d, seq, ack, data, off).0 == (NetV {
            link: n.tx_run(d, seq, ack, data, off).0.link,
            ..n
        }),
        off <= data.len() ==> off <= n.tx_run(d, seq, ack, data, off).1 <= data.len(),
    decreases data.len() - off,
{
    if off < data.len() {
        let k = min_nat(MSS as nat, (data.len() - off) as nat);
        let m = n.tx(
            d,
            seq.wrapping_add(off as u32),
            ack,
            F_ACK,
            data.subrange(off as int, (off + k) as int),
        );
        lemma_tx_run_frame(m, d, seq, ack, data, off + k);
    }
}

impl NetV {
    /// Reading from a TCP socket into a buffer of `room` bytes: the state
    /// after it, the bytes delivered, and the result code: a count, 0 at end
    /// of stream, -2 when there is nothing yet, -1 on error.
    pub open spec fn on_recv(self, idx: int, room: nat) -> (NetV, Seq<u8>, int) {
        if !self.is_tcp(idx) {
            (self, Seq::empty(), -1)
        } else {
            let t = self.socks[idx].tcp;
            if t.rx.len() > 0 {
                let k = min_nat(room, t.rx.len());
                (
                    self.with_tcb(idx, TcbV { rx: t.rx.skip(k as int), ..t }),
                    t.rx.take(k as int),
                    k as int,
                )
            } else {
                (
                    self,
                    Seq::empty(),
                    match t.state {
                        TState::CloseWait => 0,
                        TState::Closed => -1,
                        _ => -2int,
                    },
                )
            }
        }
    }
}

/// `b` written over the start of `a`.
pub open spec fn overlay(a: Seq<u8>, b: Seq<u8>) -> Seq<u8> {
    b + a.skip(b.len() as int)
}

pub fn tcp_recv(n: &mut NetState, idx: usize, out: &mut [u8]) -> (r: isize)
    requires
        old(n)@.wf(),
    ensures
        ({
            let (m, got, code) = old(n)@.on_recv(idx as int, old(out)@.len());
            final(n)@ == m && final(out)@ == overlay(old(out)@, got) && r == code
        }),
        final(n)@.wf(),
{
    assert(overlay(out@, Seq::empty()) =~= out@);
    if idx >= NSOCK || !n.socks[idx].used || n.socks[idx].kind != 1 {
        return -1;
    }
    let st = n.socks[idx].tcp.state;
    assert(n@.socks[idx as int].wf());
    let have = n.socks[idx].tcp.rx.len();
    if have > 0 {
        let k: usize = if out.len() < have {
            out.len()
        } else {
            have
        };
        n.socks[idx].tcp.deliver(out, k);
        assert(n@ =~= old(n)@.on_recv(idx as int, old(out)@.len()).0);
        proof {
            assert(linger::parting(old(n)@.socks[idx as int]));
            linger::lemma_slot_changed(old(n)@, n@, idx as int, n@.socks[idx as int]);
        }
        return k as isize;
    }
    assert(n@ =~= old(n)@);
    match st {
        TState::CloseWait => 0,
        TState::Closed => -1,
        _ => -2,
    }
}

/// Closes a TCP socket: FIN for an open connection, whose slot then lingers
/// until the peer's acknowledgment or the timeout frees it; a listener is
/// dropped; anything else is reset and freed. A slot that is no open TCP socket
/// is just marked unused. True if all is done, false if the slot lingers.
pub fn tcp_close(n: &mut NetState, idx: usize, now: u64) -> (done: bool)
    ensures
        final(n)@ == if old(n)@.is_tcp(idx as int) {
            old(n)@.on_close(idx as int, now)
        } else if idx < NSOCK {
            old(n)@.with_sock(idx as int, SockV { used: false, ..old(n)@.socks[idx as int] })
        } else {
            old(n)@
        },
        done == !(idx < NSOCK && final(n)@.socks[idx as int].used),
        old(n)@.wf() ==> final(n)@.wf(),
{
    proof {
        if old(n)@.wf() && old(n)@.is_tcp(idx as int) {
            linger::law_close_keeps_all(old(n)@, idx as int, now);
        }
    }
    if idx >= NSOCK || !n.socks[idx].used || n.socks[idx].kind != 1 {
        if idx < NSOCK {
            n.socks[idx].used = false;
            assert(n@ =~= old(n)@.with_sock(
                idx as int,
                SockV { used: false, ..old(n)@.socks[idx as int] },
            ));
            proof {
                if old(n)@.wf() {
                    assert(old(n)@.socks[idx as int].wf());
                    linger::lemma_slot_changed(old(n)@, n@, idx as int, n@.socks[idx as int]);
                }
            }
        }
        return true;
    }
    let st = n.socks[idx].tcp.state;
    match st {
        TState::Est | TState::CloseWait => {
            let d = dest_of(n, idx);
            let seq = n.socks[idx].tcp.snd_nxt;
            let ack = n.socks[idx].tcp.rcv_nxt;
            tx_ctl(n, d, seq, ack, F_FINACK);
            let s = &mut n.socks[idx];
            s.tcp.fin_sent = true;
            s.tcp.snd_nxt = seq.wrapping_add(1);
            s.tcp.rto_at = now.wrapping_add(RTO_TICKS);
            s.tcp.retries = 0;
            s.tcp.state = if st == TState::Est {
                TState::FinW1
            } else {
                TState::LastAck
            };
            s.closing = true;
            assert(n@ =~= old(n)@.on_close(idx as int, now));
            false
        },
        TState::Listen => {
            n.socks[idx].used = false;
            n.socks[idx].tcp.reset();
            assert(n@ =~= old(n)@.on_close(idx as int, now));
            true
        },
        _ => {
            if n.socks[idx].tcp.rip != 0 {
                let d = dest_of(n, idx);
                let ack = n.socks[idx].tcp.rcv_nxt;
                send_rst(n, d, ack);
            }
            drop_slot(n, idx);
            true
        },
    }
}

// ---- timer ----

impl NetV {
    /// At tick `now`, the connection in slot `i` is due for a retransmission.
    pub open spec fn rto_due(self, i: int, now: u64) -> bool {
        now >= self.socks[i].tcp.rto_at
    }

    /// One more retransmission counted and the timer rearmed.
    pub open spec fn rearmed(self, i: int, now: u64) -> NetV {
        let t = self.socks[i].tcp;
        self.with_tcb(
            i,
            TcbV { retries: (t.retries + 1) as u8, rto_at: now.wrapping_add(RTO_TICKS), ..t },
        )
    }

    /// Retransmission step of a connection with data: what is unacknowledged,
    /// up to four segments, goes out again from `snd_una`.
    pub open spec fn resent(self, i: int) -> NetV {
        let t = self.socks[i].tcp;
        let total = min_nat(t.unacked.len(), 4 * MSS as nat);
        self.tx_run(self.dest(i), t.snd_una, t.rcv_nxt, t.unacked.take(total as int), 0).0
    }

    /// The slot has lingered long enough for a FIN that was never acknowledged,
    /// or for the peer's that never came.
    pub open spec fn lingers_out(self, st: TState, i: int, now: u64) -> bool {
        (st is FinW1 || st is FinW2 || st is LastAck || st is Closing) && self.socks[i].closing && now
            >= self.socks[i].tcp.rto_at.wrapping_add(CLOSE_TIMEOUT)
    }

    /// What one tick does to slot `i`, and whether a sleeper may need waking.
    pub open spec fn tick_slot(self, i: int, now: u64) -> (NetV, bool) {
        let s = self.socks[i];
        let t = s.tcp;
        if !s.used || s.kind != 1 {
            (self, false)
        } else {
            match t.state {
                TState::SynRcvd => if !self.rto_due(i, now) {
                    (self, false)
                } else if t.retries >= MAX_RETRY {
                    (self.with_sock(i, SockV { used: false, tcp: TcbV::fresh(), ..s }), true)
                } else {
                    (
                        self.tx(self.dest(i), t.iss, t.rcv_nxt, F_SYNACK, Seq::empty()).rearmed(
                            i,
                            now,
                        ),
                        false,
                    )
                },
                TState::Closed | TState::Listen => (self, false),
                _ => {
                    let due = t.unacked.len() > 0 && self.rto_due(i, now);
                    if due && t.retries >= MAX_RETRY {
                        let n = self.tx(self.dest(i), 0, t.rcv_nxt, F_RSTACK, Seq::empty());
                        (n.with_sock(i, s.dropped()), true)
                    } else {
                        let n = if due {
                            self.resent(i).rearmed(i, now)
                        } else {
                            self
                        };
                        if n.lingers_out(t.state, i, now) {
                            (n.with_sock(i, n.socks[i].dropped()), true)
                        } else {
                            (n, false)
                        }
                    }
                },
            }
        }
    }

    /// Slots `0..upto` ticked in order.
    pub open spec fn tick(self, upto: int, now: u64) -> (NetV, bool)
        decreases upto,
    {
        if upto <= 0 {
            (self, false)
        } else {
            let (n, w) = self.tick(upto - 1, now);
            let (m, v) = n.tick_slot(upto - 1, now);
            (m, w || v)
        }
    }
}

fn tick_slot(n: &mut NetState, i: usize, now: u64) -> (wake: bool)
    requires
        i < NSOCK,
        old(n)@.bounded(),
    ensures
        (final(n)@, wake) == old(n)@.tick_slot(i as int, now),
        final(n)@.bounded(),
{
    assert(n@.socks[i as int].wf());
    if !n.socks[i].used || n.socks[i].kind != 1 {
        return false;
    }
    let st = n.socks[i].tcp.state;
    match st {
        TState::SynRcvd => {
            if now >= n.socks[i].tcp.rto_at {
                if n.socks[i].tcp.retries >= MAX_RETRY {
                    n.socks[i].used = false;
                    n.socks[i].tcp.reset();
                    assert(n@ =~= old(n)@.tick_slot(i as int, now).0);
                    return true;
                }
                let d = dest_of(n, i);
                let iss = n.socks[i].tcp.iss;
                let rnx = n.socks[i].tcp.rcv_nxt;
                tx_ctl(n, d, iss, rnx, F_SYNACK);
                n.socks[i].tcp.retries += 1;
                n.socks[i].tcp.rto_at = now.wrapping_add(RTO_TICKS);
                assert(n@ =~= old(n)@.tick_slot(i as int, now).0);
            }
            false
        },
        TState::Closed | TState::Listen => { false },
        _ => {
            if n.socks[i].tcp.unacked.len() > 0 && now >= n.socks[i].tcp.rto_at {
                let d = dest_of(n, i);
                let ack = n.socks[i].tcp.rcv_nxt;
                if n.socks[i].tcp.retries >= MAX_RETRY {
                    send_rst(n, d, ack);
                    drop_slot(n, i);
                    return true;
                }
                let una = n.socks[i].tcp.snd_una;
                let total: usize = if n.socks[i].tcp.unacked.len() < 4 * MSS {
                    n.socks[i].tcp.unacked.len()
                } else {
                    4 * MSS
                };
                let mut chunk: Vec<u8> = Vec::new();
                wire::push_all(
                    &mut chunk,
                    vstd::slice::slice_subrange(n.socks[i].tcp.unacked.as_slice(), 0, total),
                );
                assert(chunk@ =~= n@.socks[i as int].tcp.unacked.take(total as int));
                tx_run(n, d, una, ack, chunk.as_slice());
                proof {
                    lemma_tx_run_frame(old(n)@, d, una, ack, chunk@, 0);
                }
                let ghost mid = n@;
                assert(mid == old(n)@.resent(i as int));
                n.socks[i].tcp.retries += 1;
                n.socks[i].tcp.rto_at = now.wrapping_add(RTO_TICKS);
                assert(n@ =~= mid.rearmed(i as int, now));
            }
            if (st == TState::FinW1 || st == TState::FinW2 || st == TState::LastAck || st
                == TState::Closing) && n.socks[i].closing && now >= n.socks[i].tcp.rto_at.wrapping_add(CLOSE_TIMEOUT) {
                drop_slot(n, i);
                return true;
            }
            false
        },
    }
}

/// Per-tick retransmit and timeout scan. True if a sleeper may need waking.
pub fn tcp_tick(n: &mut NetState, now: u64) -> (wake: bool)
    requires
        old(n)@.wf(),
    ensures
        (final(n)@, wake) == old(n)@.tick(NSOCK as int, now),
        final(n)@.wf(),
{
    let mut wake = false;
    let mut i: usize = 0;
    while i < NSOCK
        invariant
            i <= NSOCK,
            n@.bounded(),
            (n@, wake) == old(n)@.tick(i as int, now),
        decreases NSOCK - i,
    {
        let w = tick_slot(n, i, now);
        wake = wake || w;
        i += 1;
    }
    proof {
        linger::law_tick_keeps_all(old(n)@, now);
    }
    wake
}

} // verus!
