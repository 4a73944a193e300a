//! What becomes of the console's keys, and of the bytes that go to it.
use crate::hw::uart;
use crate::hw::uart::{Drain, Put, Uart};
use vstd::prelude::*;

verus! {

/// A typed character is kept behind those that wait, a carriage return as a line
/// feed; the interrupt key asks for a kill and the end key for an end, and
/// neither is kept. What has no room is lost, and what waits stays.
pub proof fn law_typed_is_kept(u: &mut Uart, c: u8, kill: bool)
    requires
        call_ensures(uart::rx_byte, (u, c), kill),
    ensures
        kill <==> c == 3,
        c == 3 ==> final(u)@ == old(u)@,
        c == 4 ==> final(u)@.eof && final(u)@.rx == old(u)@.rx,
        c != 4 ==> final(u)@.eof == old(u)@.eof,
        c != 3 && c != 4 && c != 13 && old(u)@.rx.len() < uart::RING_CAP ==> final(u)@.rx == old(u)@.rx.push(c),
        c == 13 && old(u)@.rx.len() < uart::RING_CAP ==> final(u)@.rx == old(u)@.rx.push(10),
        old(u)@.rx.len() >= uart::RING_CAP ==> final(u)@.rx == old(u)@.rx,
        final(u)@.tx == old(u)@.tx,
{
}

/// What is read is the oldest that waits, or, where none does, what the chip
/// holds.
pub proof fn law_oldest_is_read(u: &mut Uart, direct: Option<u8>, r: Option<u8>)
    requires
        call_ensures(uart::getchar, (u, direct), r),
    ensures
        old(u)@.rx.len() > 0 ==> r is Some && seq![r->0] + final(u)@.rx == old(u)@.rx,
        old(u)@.rx.len() == 0 ==> r == direct && final(u)@.rx.len() == 0,
        final(u)@.tx == old(u)@.tx,
        final(u)@.eof == old(u)@.eof,
{
    if old(u)@.rx.len() > 0 {
        assert(seq![old(u)@.rx[0]] + old(u)@.rx.skip(1) =~= old(u)@.rx);
    }
}

/// A byte to send goes to the chip behind all that waits, and none is lost: what
/// goes now and what waits then are what waited and the byte.
pub proof fn law_sent_byte_waits_its_turn(u: &mut Uart, c: u8, empty: bool, r: Put)
    requires
        call_ensures(uart::putchar, (u, c, empty), r),
    ensures
        !old(u)@.tx_on || old(u)@.tx.len() >= uart::TX_CAP ==> r == (Put::Wait { byte: c }) && final(u)@ == old(u)@,
        old(u)@.tx_on && old(u)@.tx.len() < uart::TX_CAP ==> {
            &&& r is Arm
            &&& empty <==> r->first is Some
            &&& empty ==> seq![r->first->0] + final(u)@.tx == old(u)@.tx.push(c)
            &&& !empty ==> final(u)@.tx == old(u)@.tx.push(c)
        },
        final(u)@.rx == old(u)@.rx,
{
    let q = old(u)@.tx.push(c);
    assert(seq![q[0]] + q.skip(1) =~= q);
}

/// A chip that can take a byte is given the oldest that waits; one that cannot
/// is given none.
pub proof fn law_drained_in_order(u: &mut Uart, lsr: u8, r: Drain)
    requires
        call_ensures(uart::tx_drain, (u, lsr), r),
    ensures
        lsr & 0x20 == 0 ==> r is Busy && final(u)@ == old(u)@,
        lsr & 0x20 != 0 && old(u)@.tx.len() > 0 ==> r is Send && seq![r->byte] + final(u)@.tx == old(u)@.tx,
        lsr & 0x20 != 0 && old(u)@.tx.len() == 0 ==> r is Disarm && final(u)@ == old(u)@,
        final(u)@.rx == old(u)@.rx,
{
    if old(u)@.tx.len() > 0 {
        assert(seq![old(u)@.tx[0]] + old(u)@.tx.skip(1) =~= old(u)@.tx);
    }
}

} // verus!
