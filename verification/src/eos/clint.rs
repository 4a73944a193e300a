//! The timer: a count in two halves, and the count at which it interrupts.
use vstd::prelude::*;

verus! {

pub const TIMEBASE_HZ: u64 = 10_000_000;

pub const TICK_HZ: u64 = 100;

pub const TICK_INTERVAL: u64 = 100_000;

/// Software, timer and external interrupts.
pub const MIE_ALL: u32 = 0x888;

/// The count, if the high half did not change while the low half was read.
pub fn mtime_get(h1: u32, lo: u32, h2: u32) -> (r: Option<u64>)
    ensures
        h1 == h2 ==> r == Some((h2 * 0x1_0000_0000 + lo) as u64),
        h1 != h2 ==> r is None,
{
    if h1 == h2 {
        Some(h2 as u64 * 0x1_0000_0000 + lo as u64)
    } else {
        None
    }
}

/// Low and high half of a count.
pub fn halves(v: u64) -> (r: (u32, u32))
    ensures
        r.1 * 0x1_0000_0000 + r.0 == v,
{
    ((v % 0x1_0000_0000) as u32, (v / 0x1_0000_0000) as u32)
}

/// The values for the two halves, in order: high, low, high. The first keeps
/// the timer quiet until the last is written.
pub fn mtimecmp_set(next: u64) -> (v: (u32, u32, u32))
    ensures
        v.0 == u32::MAX,
        v.2 * 0x1_0000_0000 + v.1 == next,
{
    let (lo, hi) = halves(next);
    (u32::MAX, lo, hi)
}

/// The first count to interrupt at.
pub fn timer_init(now: u64) -> (next: u64)
    ensures
        next == now.wrapping_add(TICK_INTERVAL),
{
    now.wrapping_add(TICK_INTERVAL)
}

/// While the halves are written the timer is set no earlier than the old or
/// the new count, whichever is first.
pub proof fn law_no_early_interrupt(before: u64, next: u64)
    ensures
        ({
            let lo0 = before % 0x1_0000_0000;
            let lo = next % 0x1_0000_0000;
            let top = u32::MAX * 0x1_0000_0000;
            top + lo0 >= before && top + lo >= next
        }),
{
}

} // verus!
