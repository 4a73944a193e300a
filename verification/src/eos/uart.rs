//! The console, polled.
use vstd::prelude::*;

verus! {

pub const UART_BASE: u32 = 0x1000_0000;

pub const LSR_DR: u8 = 1;

pub const LSR_THRE: u8 = 0x20;

/// A value for a register of the chip, by its offset.
#[derive(Clone, Copy, PartialEq, Eq, Structural, Debug)]
pub struct Set8 {
    pub off: u8,
    pub val: u8,
}

/// Eight bits without parity, buffers on, no interrupts.
pub fn uart_init() -> (v: [Set8; 3])
    ensures
        v@ == seq![
            Set8 { off: 1, val: 0 },
            Set8 { off: 3, val: 3 },
            Set8 { off: 2, val: 7 },
        ],
{
    let v = [Set8 { off: 1, val: 0 }, Set8 { off: 3, val: 3 }, Set8 { off: 2, val: 7 }];
    assert(v@ =~= seq![
        Set8 { off: 1, val: 0 },
        Set8 { off: 3, val: 3 },
        Set8 { off: 2, val: 7 },
    ]);
    v
}

/// What a byte becomes on the wire: a line feed gets a carriage return before
/// it.
pub open spec fn wire(c: u8) -> Seq<u8> {
    if c == 0x0a {
        seq![0x0du8, 0x0au8]
    } else {
        seq![c]
    }
}

/// What bytes become on the wire.
pub open spec fn wired(s: Seq<u8>) -> Seq<u8>
    decreases s.len(),
{
    if s.len() == 0 {
        Seq::empty()
    } else {
        wired(s.drop_last()) + wire(s.last())
    }
}

pub struct Console {
    /// Bytes for the chip, oldest first.
    pub out: Vec<u8>,
}

/// Sends one byte.
pub fn putc_raw(con: &mut Console, c: u8)
    ensures
        final(con).out@ == old(con).out@ + wire(c),
{
    if c == 0x0a {
        con.out.push(0x0d);
    }
    con.out.push(c);
    assert(con.out@ =~= old(con).out@ + wire(c));
}

impl Console {
    /// Sends text.
    pub fn write(&mut self, s: &[u8])
        ensures
            final(self).out@ == old(self).out@ + wired(s@),
    {
        let mut i: usize = 0;
        assert(wired(s@.take(0)) =~= Seq::empty());
        assert(self.out@ =~= old(self).out@ + wired(s@.take(0)));
        while i < s.len()
            invariant
                i <= s@.len(),
                self.out@ == old(self).out@ + wired(s@.take(i as int)),
            decreases s@.len() - i,
        {
            putc_raw(self, s[i]);
            i += 1;
            proof {
                assert(s@.take(i as int).drop_last() =~= s@.take(i - 1));
                assert(self.out@ =~= old(self).out@ + wired(s@.take(i as int)));
            }
        }
        assert(s@.take(i as int) =~= s@);
    }
}

/// The byte received, if the line status tells of one.
pub fn getc_nb(lsr: u8, rbr: u8) -> (r: Option<u8>)
    ensures
        r == if lsr & LSR_DR == 0 {
            None
        } else {
            Some(rbr)
        },
{
    if lsr & LSR_DR == 0 {
        None
    } else {
        Some(rbr)
    }
}

} // verus!
