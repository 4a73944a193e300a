//! Calls to the firmware, as the registers they are made with.
use vstd::prelude::*;

verus! {

pub const EID_SET_TIMER: u64 = 0;

pub const EID_PUTCHAR: u64 = 1;

pub const EID_SHUTDOWN: u64 = 8;

pub const EID_HSM: u64 = 0x48_534d;

pub const EID_IPI: u64 = 0x73_5049;

pub const EID_RFENCE: u64 = 0x5246_4e43;

/// A call: extension, function and arguments.
#[derive(Clone, Copy, PartialEq, Eq, Structural, Debug)]
pub struct SbiCall {
    pub eid: u64,
    pub fid: u64,
    pub a0: u64,
    pub a1: u64,
    pub a2: u64,
    pub a3: u64,
}

/// Writes one byte to the console.
pub fn console_putchar(c: u8) -> (r: SbiCall)
    ensures
        r == (SbiCall { eid: EID_PUTCHAR, fid: 0, a0: c as u64, a1: 0, a2: 0, a3: 0 }),
{
    SbiCall { eid: EID_PUTCHAR, fid: 0, a0: c as u64, a1: 0, a2: 0, a3: 0 }
}

/// Arms the calling hart's timer.
pub fn set_timer(stime: u64) -> (r: SbiCall)
    ensures
        r == (SbiCall { eid: EID_SET_TIMER, fid: 0, a0: stime, a1: 0, a2: 0, a3: 0 }),
{
    SbiCall { eid: EID_SET_TIMER, fid: 0, a0: stime, a1: 0, a2: 0, a3: 0 }
}

/// Turns the machine off.
pub fn shutdown() -> (r: SbiCall)
    ensures
        r == (SbiCall { eid: EID_SHUTDOWN, fid: 0, a0: 0, a1: 0, a2: 0, a3: 0 }),
{
    SbiCall { eid: EID_SHUTDOWN, fid: 0, a0: 0, a1: 0, a2: 0, a3: 0 }
}

/// Starts a hart at an address.
pub fn hart_start(hartid: u64, start_addr: u64, opaque: u64) -> (r: SbiCall)
    ensures
        r == (SbiCall { eid: EID_HSM, fid: 0, a0: hartid, a1: start_addr, a2: opaque, a3: 0 }),
{
    SbiCall { eid: EID_HSM, fid: 0, a0: hartid, a1: start_addr, a2: opaque, a3: 0 }
}

/// Interrupts every hart of a mask.
pub fn send_ipi(hart_mask: u64) -> (r: SbiCall)
    ensures
        r == (SbiCall { eid: EID_IPI, fid: 0, a0: hart_mask, a1: 0, a2: 0, a3: 0 }),
{
    SbiCall { eid: EID_IPI, fid: 0, a0: hart_mask, a1: 0, a2: 0, a3: 0 }
}

/// Has every hart of a mask forget the translations of a range; all of them
/// when start and size are zero.
pub fn remote_sfence_vma(hart_mask: u64, start: u64, size: u64) -> (r: SbiCall)
    ensures
        r == (SbiCall { eid: EID_RFENCE, fid: 1, a0: hart_mask, a1: 0, a2: start, a3: size }),
{
    SbiCall { eid: EID_RFENCE, fid: 1, a0: hart_mask, a1: 0, a2: start, a3: size }
}

} // verus!
