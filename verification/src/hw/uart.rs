//! The console: a ring of bytes to send, a ring of bytes received, and what
//! the chip's registers ask for.
use vstd::prelude::*;

verus! {

pub const TX_CAP: usize = 512;

pub const RING_CAP: usize = 256;

/// Bits of the register of enabled interrupts.
pub const IER_RX: u8 = 1;

pub const IER_TX: u8 = 2;

/// Bits of the line status.
pub const LSR_RX_READY: u8 = 1;

pub const LSR_TX_EMPTY: u8 = 0x20;

/// Interrupts served at once, at most.
pub const MAX_ROUNDS: u32 = 64;

pub const CTRL_C: u8 = 3;

pub const CTRL_D: u8 = 4;

pub struct Uart {
    /// Bytes to send go through the ring; before that each waits for the chip.
    pub tx_on: bool,
    pub tx: [u8; TX_CAP],
    pub tx_r: usize,
    pub tx_n: usize,
    pub rx: [u8; RING_CAP],
    pub rx_r: usize,
    pub rx_n: usize,
    pub eof: bool,
}

#[verifier::ext_equal]
pub struct UartV {
    pub tx_on: bool,
    /// Bytes to send and bytes received, oldest first.
    pub tx: Seq<u8>,
    pub rx: Seq<u8>,
    pub eof: bool,
}

impl Uart {
    pub open spec fn wf(&self) -> bool {
        self.tx_r < TX_CAP && self.tx_n <= TX_CAP && self.rx_r < RING_CAP && self.rx_n <= RING_CAP
    }
}

impl View for Uart {
    type V = UartV;

    open spec fn view(&self) -> UartV {
        UartV {
            tx_on: self.tx_on,
            tx: Seq::new(self.tx_n as nat, |k: int| self.tx@[(self.tx_r + k) % (TX_CAP as int)]),
            rx: Seq::new(self.rx_n as nat, |k: int| self.rx@[(self.rx_r + k) % (RING_CAP as int)]),
            eof: self.eof,
        }
    }
}

/// Both rings empty, sending not through the ring yet.
pub fn init() -> (u: Uart)
    ensures
        u.wf(),
        u@ == (UartV { tx_on: false, tx: Seq::empty(), rx: Seq::empty(), eof: false }),
{
    let u = Uart {
        tx_on: false,
        tx: [0; TX_CAP],
        tx_r: 0,
        tx_n: 0,
        rx: [0; RING_CAP],
        rx_r: 0,
        rx_n: 0,
        eof: false,
    };
    assert(u@ =~= (UartV { tx_on: false, tx: Seq::empty(), rx: Seq::empty(), eof: false }));
    u
}

/// Enabled interrupts with those for received bytes.
pub fn irq_enable(ier: u8) -> (r: u8)
    ensures
        r == ier | IER_RX,
{
    ier | IER_RX
}

/// From now on bytes to send go through the ring.
pub fn tx_enable(u: &mut Uart)
    requires
        old(u).wf(),
    ensures
        final(u).wf(),
        final(u)@ == (UartV { tx_on: true, ..old(u)@ }),
{
    u.tx_on = true;
    assert(u@ =~= (UartV { tx_on: true, ..old(u)@ }));
}

fn tx_push(u: &mut Uart, c: u8)
    requires
        old(u).wf(),
        old(u).tx_n < TX_CAP,
    ensures
        final(u).wf(),
        final(u)@ == (UartV { tx: old(u)@.tx.push(c), ..old(u)@ }),
{
    let w: usize = (u.tx_r + u.tx_n) % TX_CAP;
    u.tx[w] = c;
    u.tx_n = u.tx_n + 1;
    assert(u@ =~= (UartV { tx: old(u)@.tx.push(c), ..old(u)@ }));
}

fn tx_pop(u: &mut Uart) -> (r: Option<u8>)
    requires
        old(u).wf(),
    ensures
        final(u).wf(),
        old(u)@.tx.len() == 0 ==> r is None && final(u)@ == old(u)@,
        old(u)@.tx.len() > 0 ==> r == Some(old(u)@.tx[0]) && final(u)@ == (UartV {
            tx: old(u)@.tx.skip(1),
            ..old(u)@
        }),
{
    if u.tx_n == 0 {
        return None;
    }
    let c = u.tx[u.tx_r];
    u.tx_r = (u.tx_r + 1) % TX_CAP;
    u.tx_n = u.tx_n - 1;
    assert(u@ =~= (UartV { tx: old(u)@.tx.skip(1), ..old(u)@ }));
    Some(c)
}

/// What is to be done with the chip for a byte to send.
#[derive(Clone, Copy, PartialEq, Eq, Structural, Debug)]
pub enum Put {
    /// Wait until the chip can take a byte and give it this one.
    Wait { byte: u8 },
    /// Enable the interrupts for sent bytes; give the chip a byte if there is
    /// one here.
    Arm { first: Option<u8> },
}

/// Sends a byte; `empty` tells whether the chip can take one now.
pub fn putchar(u: &mut Uart, c: u8, empty: bool) -> (r: Put)
    requires
        old(u).wf(),
    ensures
        final(u).wf(),
        !old(u)@.tx_on || old(u)@.tx.len() >= TX_CAP ==> r == (Put::Wait { byte: c })
            && final(u)@ == old(u)@,
        old(u)@.tx_on && old(u)@.tx.len() < TX_CAP ==> {
            let q = old(u)@.tx.push(c);
            if empty {
                r == (Put::Arm { first: Some(q[0]) }) && final(u)@ == (UartV {
                    tx: q.skip(1),
                    ..old(u)@
                })
            } else {
                r == (Put::Arm { first: None }) && final(u)@ == (UartV { tx: q, ..old(u)@ })
            }
        },
{
    if !u.tx_on || u.tx_n >= TX_CAP {
        return Put::Wait { byte: c };
    }
    tx_push(u, c);
    if empty {
        let b = tx_pop(u);
        return Put::Arm { first: b };
    }
    Put::Arm { first: None }
}

/// What is to be done when the chip may take bytes.
#[derive(Clone, Copy, PartialEq, Eq, Structural, Debug)]
pub enum Drain {
    /// The chip is busy: stop.
    Busy,
    /// Give it this byte and look again.
    Send { byte: u8 },
    /// Nothing is left: disable the interrupts for sent bytes, and stop.
    Disarm,
}

/// One step of sending what waits, given the line status.
pub fn tx_drain(u: &mut Uart, lsr: u8) -> (r: Drain)
    requires
        old(u).wf(),
    ensures
        final(u).wf(),
        r == if lsr & LSR_TX_EMPTY == 0 {
            Drain::Busy
        } else if old(u)@.tx.len() > 0 {
            Drain::Send { byte: old(u)@.tx[0] }
        } else {
            Drain::Disarm
        },
        final(u)@ == if r is Send {
            UartV { tx: old(u)@.tx.skip(1), ..old(u)@ }
        } else {
            old(u)@
        },
{
    if lsr & LSR_TX_EMPTY == 0 {
        return Drain::Busy;
    }
    match tx_pop(u) {
        Some(b) => Drain::Send { byte: b },
        None => Drain::Disarm,
    }
}

/// Enabled interrupts without those for sent bytes, and with them.
pub fn disarmed(ier: u8) -> (r: u8)
    ensures
        r == ier & !IER_TX,
{
    ier & !IER_TX
}

pub fn armed(ier: u8) -> (r: u8)
    ensures
        r == ier | IER_TX,
{
    ier | IER_TX
}

fn push(u: &mut Uart, c: u8)
    requires
        old(u).wf(),
    ensures
        final(u).wf(),
        final(u)@ == if old(u)@.rx.len() < RING_CAP {
            UartV { rx: old(u)@.rx.push(c), ..old(u)@ }
        } else {
            old(u)@
        },
{
    if u.rx_n < RING_CAP {
        let w: usize = (u.rx_r + u.rx_n) % RING_CAP;
        u.rx[w] = c;
        u.rx_n = u.rx_n + 1;
        assert(u@ =~= (UartV { rx: old(u)@.rx.push(c), ..old(u)@ }));
    }
}

/// Takes the oldest byte received.
pub fn pop(u: &mut Uart) -> (r: Option<u8>)
    requires
        old(u).wf(),
    ensures
        final(u).wf(),
        old(u)@.rx.len() == 0 ==> r is None && final(u)@ == old(u)@,
        old(u)@.rx.len() > 0 ==> r == Some(old(u)@.rx[0]) && final(u)@ == (UartV {
            rx: old(u)@.rx.skip(1),
            ..old(u)@
        }),
{
    if u.rx_n == 0 {
        return None;
    }
    let c = u.rx[u.rx_r];
    u.rx_r = (u.rx_r + 1) % RING_CAP;
    u.rx_n = u.rx_n - 1;
    assert(u@ =~= (UartV { rx: old(u)@.rx.skip(1), ..old(u)@ }));
    Some(c)
}

/// Whether the end of input was typed since the last call.
pub fn take_eof(u: &mut Uart) -> (r: bool)
    requires
        old(u).wf(),
    ensures
        final(u).wf(),
        r == old(u)@.eof,
        final(u)@ == (UartV { eof: false, ..old(u)@ }),
{
    let r = u.eof;
    u.eof = false;
    assert(u@ =~= (UartV { eof: false, ..old(u)@ }));
    r
}

/// A byte from the chip: the interrupt key is not kept (true: kill the
/// foreground process), the end-of-input key is remembered, a carriage return
/// becomes a line feed. What does not fit is lost.
pub fn rx_byte(u: &mut Uart, c: u8) -> (kill: bool)
    requires
        old(u).wf(),
    ensures
        final(u).wf(),
        kill == (c == CTRL_C),
        final(u)@ == if c == CTRL_C {
            old(u)@
        } else if c == CTRL_D {
            UartV { eof: true, ..old(u)@ }
        } else if old(u)@.rx.len() < RING_CAP {
            UartV {
                rx: old(u)@.rx.push(
                    if c == 0x0d {
                        0x0a
                    } else {
                        c
                    },
                ),
                ..old(u)@
            }
        } else {
            old(u)@
        },
{
    if c == CTRL_C {
        true
    } else if c == CTRL_D {
        u.eof = true;
        assert(u@ =~= (UartV { eof: true, ..old(u)@ }));
        false
    } else {
        push(
            u,
            if c == 0x0d {
                0x0a
            } else {
                c
            },
        );
        false
    }
}

/// A byte of input: the oldest received, or else one that the chip holds now.
/// `direct` is that byte, if the chip has one; it is not taken from the chip
/// when the ring gives one.
pub fn getchar(u: &mut Uart, direct: Option<u8>) -> (r: Option<u8>)
    requires
        old(u).wf(),
    ensures
        final(u).wf(),
        old(u)@.rx.len() > 0 ==> r == Some(old(u)@.rx[0]) && final(u)@ == (UartV {
            rx: old(u)@.rx.skip(1),
            ..old(u)@
        }),
        old(u)@.rx.len() == 0 ==> r == direct && final(u)@ == old(u)@,
{
    match pop(u) {
        Some(c) => Some(c),
        None => direct,
    }
}

/// What an interrupt of the chip asks for.
#[derive(Clone, Copy, PartialEq, Eq, Structural, Debug)]
pub enum Why {
    /// Nothing is pending, or nothing known.
    Done,
    /// The chip can take bytes.
    Tx,
    /// The chip has bytes; wake who waits for input.
    Rx,
    /// Reading the line status clears it.
    Line,
}

/// The cause in the interrupt register. Bit 0 is set when there is none; the
/// three bits above it tell which.
pub open spec fn cause(iir: u8) -> Why {
    if iir & 1 == 1 {
        Why::Done
    } else if iir & 0x0e == 0x02 {
        Why::Tx
    } else if iir & 0x0e == 0x04 || iir & 0x0e == 0x0c {
        Why::Rx
    } else if iir & 0x0e == 0x06 {
        Why::Line
    } else {
        Why::Done
    }
}

/// One round of serving the chip: what to do, given the interrupt register
/// and the rounds done. No more than a limited number are done at once.
pub fn on_irq(iir: u8, rounds: u32) -> (r: Why)
    ensures
        r == if rounds > MAX_ROUNDS {
            Why::Done
        } else {
            cause(iir)
        },
{
    if rounds > MAX_ROUNDS || iir & 1 == 1 {
        return Why::Done;
    }
    let id: u8 = iir & 0x0e;
    if id == 0x02 {
        Why::Tx
    } else if id == 0x04 || id == 0x0c {
        Why::Rx
    } else if id == 0x06 {
        Why::Line
    } else {
        Why::Done
    }
}

/// Bytes reach the chip in the order they were sent, whatever the chip was
/// ready for: a byte that is handed over is the oldest that waits, and what
/// waits then is the rest with the new byte at its end.
pub proof fn law_sent_in_order(q: Seq<u8>, c: u8)
    ensures
        q.push(c) == seq![q.push(c)[0]] + q.push(c).skip(1),
        q.len() > 0 ==> q.push(c)[0] == q[0] && q.push(c).skip(1) == q.skip(1).push(c),
{
    assert(q.push(c) =~= seq![q.push(c)[0]] + q.push(c).skip(1));
    if q.len() > 0 {
        assert(q.push(c).skip(1) =~= q.skip(1).push(c));
    }
}

} // verus!
