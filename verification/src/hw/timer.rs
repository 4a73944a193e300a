//! The clock: ticks of ten milliseconds, counted for all harts.
use crate::hw::sbi;
use crate::hw::sbi::SbiCall;
use vstd::prelude::*;

verus! {

/// Steps of the hardware clock in a second.
pub const FREQ: u64 = 10_000_000;

/// Steps of the hardware clock in a tick.
pub const STEP: u64 = 100_000;

/// Supervisor timer interrupts, in the register of enabled interrupts.
pub const SIE_TIMER: u64 = 0x20;

pub struct Timer {
    pub ticks: u64,
}

impl Timer {
    pub fn new() -> (t: Timer)
        ensures
            t.ticks == 0,
    {
        Timer { ticks: 0 }
    }
}

pub fn freq() -> (f: u64)
    ensures
        f == FREQ,
{
    FREQ
}

/// Arms the timer for the next tick, a hundredth of a second from now.
pub fn set_next(time: u64) -> (c: SbiCall)
    ensures
        c == (SbiCall { eid: sbi::EID_SET_TIMER, fid: 0, a0: time.wrapping_add(STEP), a1: 0, a2: 0, a3: 0 }),
{
    sbi::set_timer(time.wrapping_add(STEP))
}

/// Timer interrupts of a hart: the enabled interrupts from now on, and the
/// call that arms the first tick.
pub fn init_on(sie: u64, time: u64) -> (r: (u64, SbiCall))
    ensures
        r.0 == sie | SIE_TIMER,
        r.1 == (SbiCall { eid: sbi::EID_SET_TIMER, fid: 0, a0: time.wrapping_add(STEP), a1: 0, a2: 0, a3: 0 }),
{
    (sie | SIE_TIMER, set_next(time))
}

/// Counts one tick. The count wraps.
pub fn tick(t: &mut Timer)
    ensures
        final(t).ticks == old(t).ticks.wrapping_add(1),
{
    t.ticks = t.ticks.wrapping_add(1);
}

pub fn ticks(t: &Timer) -> (n: u64)
    ensures
        n == t.ticks,
{
    t.ticks
}

/// Every other tick the running process gives way.
pub fn should_preempt(t: &Timer) -> (r: bool)
    ensures
        r == (t.ticks % 2 == 0),
{
    t.ticks % 2 == 0
}

/// The tick at which a sleep of `n` ticks ends.
pub fn sleep_ticks(t: &Timer, n: u64) -> (target: u64)
    requires
        t.ticks + n <= u64::MAX,
    ensures
        target == t.ticks + n,
{
    t.ticks + n
}

/// Whether a sleep is over.
pub fn slept(t: &Timer, target: u64) -> (r: bool)
    ensures
        r == (t.ticks >= target),
{
    t.ticks >= target
}

} // verus!
