//! What traps, ticks and the start of the other harts do, told of the functions
//! that serve them.
use crate::hw::timer;
use crate::hw::timer::Timer;
use crate::task::family;
use crate::task::state::MAX_HART;
use crate::trap::boot;
use crate::trap::boot::{Smp, Verdict};
use crate::trap::cause;
use crate::trap::frame::TrapFrame;
use crate::trap::handler;
use crate::trap::handler::{Act, Cause, Traps};
use vstd::prelude::*;

verus! {

// ---- traps ----

/// A call is left to be served, and the program goes on behind its instruction;
/// with any other trap it goes on where it was.
pub proof fn law_call(t: &mut Traps, tf: &mut TrapFrame, h: usize, c: &Cause, time: u64, a: Act)
    requires
        cause::ordinary(old(t)@, h as int, *c),
        c.scause < 0x8000_0000_0000_0000,
        c.scause & 0xfff == 8,
        old(tf).sepc < u64::MAX - 4,
        call_ensures(handler::rust_trap_handler, (t, tf, h, c, time), a),
    ensures
        a is Call,
        final(t)@ == old(t)@,
        final(tf).sepc == old(tf).sepc + 4,
        final(tf).x == old(tf).x && final(tf).sstatus == old(tf).sstatus,
{
    cause::law_call_is_left_to_the_call(old(t)@, h as int, *c, time);
}

/// A fault of a program ends its process with a code of its own.
pub proof fn law_fault(t: &mut Traps, tf: &mut TrapFrame, h: usize, c: &Cause, time: u64, a: Act)
    requires
        cause::ordinary(old(t)@, h as int, *c),
        old(t)@.s.current[h as int] > 1,
        !((old(t)@.s.procs[old(t)@.s.current[h as int] as int]->0).state is Zombie),
        (old(t)@.s.procs[old(t)@.s.current[h as int] as int]->0).parent != old(t)@.s.current[h as int],
        c.scause < 0x8000_0000_0000_0000,
        c.scause & 0xfff != 8,
        call_ensures(handler::rust_trap_handler, (t, tf, h, c, time), a),
    ensures
        ({
            let pid = old(t)@.s.current[h as int] as int;
            let code = c.scause & 0xfff;
            &&& a is Exit
            &&& a->code == if code == 2 || code == 12 || code == 13 || code == 15 { -2int } else { -1 }
            &&& final(t)@.s.procs[pid] is Some
            &&& (final(t)@.s.procs[pid]->0).state is Zombie
            &&& (final(t)@.s.procs[pid]->0).exit_code == a->code
            &&& *final(tf) == *old(tf)
        }),
{
    cause::law_fault_ends_the_process(old(t)@, h as int, *c, time);
}

/// A killed process ends at its next trap with the code of the kill.
pub proof fn law_kill(t: &mut Traps, tf: &mut TrapFrame, h: usize, c: &Cause, time: u64, a: Act)
    requires
        old(t)@.s.wf(),
        h < MAX_HART,
        c.sstatus & 0x100 == 0,
        1 < old(t)@.s.current[h as int] < old(t)@.s.procs.len(),
        old(t)@.s.procs[old(t)@.s.current[h as int] as int] matches Some(p) && p.killed && p.state is Running && p.parent
            != old(t)@.s.current[h as int],
        call_ensures(handler::rust_trap_handler, (t, tf, h, c, time), a),
    ensures
        a is Exit,
        ({
            let pid = old(t)@.s.current[h as int] as int;
            &&& final(t)@.s.procs[pid] is Some
            &&& (final(t)@.s.procs[pid]->0).state is Zombie
            &&& (final(t)@.s.procs[pid]->0).exit_code == (old(t)@.s.procs[pid]->0).kill_code
        }),
{
    cause::law_kill_takes_effect(old(t)@, h as int, *c, time);
}

/// A tick wakes just those whose tick has come, and every second one asks for a
/// switch; the next comes a hundredth of a second later.
pub proof fn law_tick(t: &mut Traps, tf: &mut TrapFrame, h: usize, c: &Cause, time: u64, a: Act, i: int)
    requires
        cause::ordinary(old(t)@, h as int, *c),
        c.scause >= 0x8000_0000_0000_0000,
        c.scause & 0xfff == 5,
        old(t)@.ticks < u64::MAX,
        time < u64::MAX - 100_000,
        cause::asleep(old(t)@.s, i),
        call_ensures(handler::rust_trap_handler, (t, tf, h, c, time), a),
    ensures
        ({
            let now = old(t)@.ticks + 1;
            let p = old(t)@.s.procs[i]->0;
            let q = final(t)@.s.procs[i]->0;
            &&& final(t)@.ticks == now
            &&& a is Clock
            &&& a->arm.a0 == time + 100_000
            &&& now >= p.wake_at ==> final(t)@.s.procs[i] is Some && q.state is Runnable
            &&& now >= p.wake_at && family::off_hart(old(t)@.s, i as usize) ==> final(t)@.s.queues[h as int].contains(
                i as usize,
            )
            &&& now < p.wake_at ==> final(t)@.s.procs[i] == old(t)@.s.procs[i]
            &&& now % 2 == 0 ==> final(t)@.s.yield_flag[h as int]
            &&& now % 2 == 1 ==> final(t)@.s.yield_flag == old(t)@.s.yield_flag
        }),
{
    cause::law_tick_wakes_sleepers(old(t)@, h as int, *c, time, i);
}

/// At the end of a trap the hart switches just where that was asked for; where
/// it was not, nothing changes.
pub proof fn law_switch_when_asked(t: &mut Traps, h: usize, r: Option<crate::task::sched::Next>)
    requires
        old(t)@.s.wf(),
        h < MAX_HART,
        call_ensures(handler::trap_end, (t, h), r),
    ensures
        r is Some <==> old(t)@.s.yield_flag[h as int],
        r is None ==> final(t)@ == old(t)@,
        final(t)@.n == old(t)@.n && final(t)@.ticks == old(t)@.ticks,
{
    if !old(t)@.s.yield_flag[h as int] {
        assert(old(t)@.s.yield_flag.update(h as int, false) =~= old(t)@.s.yield_flag);
        assert(final(t)@ =~= old(t)@);
    }
}

/// An interrupt from another hart is remembered until it is asked for, hart by
/// hart.
pub proof fn law_soft_interrupt(t: &mut Traps, h: usize, sip: u64, r: bool, u: &Traps, a: bool, other: usize)
    requires
        h < MAX_HART,
        other < MAX_HART,
        old(t)@.soft.len() == MAX_HART,
        call_ensures(handler::poll_soft_ack, (t, h, sip), r),
        u@ == final(t)@,
        call_ensures(handler::soft_acked, (u, other), a),
    ensures
        r <==> sip & 2 != 0,
        a <==> old(t)@.soft[other as int] || (other == h && sip & 2 != 0),
        final(t)@.s == old(t)@.s,
{
}

// ---- ticks ----

/// Who sleeps for `n` ticks wakes at the `n`th and not before; of two ticks in a
/// row one asks for a switch.
pub proof fn law_sleep(t: &Timer, n: u64, target: u64, u: &Timer, done: bool, w: &mut Timer, x: (), p: bool, v: &Timer, q: bool)
    requires
        t.ticks + n <= u64::MAX,
        call_ensures(timer::sleep_ticks, (t, n), target),
        u.ticks >= t.ticks,
        call_ensures(timer::slept, (u, target), done),
        old(w).ticks == t.ticks,
        t.ticks < u64::MAX,
        call_ensures(timer::tick, (w,), x),
        call_ensures(timer::should_preempt, (t,), p),
        v.ticks == final(w).ticks,
        call_ensures(timer::should_preempt, (v,), q),
    ensures
        done <==> u.ticks - t.ticks >= n,
        final(w).ticks == t.ticks + 1,
        p != q,
{
}

// ---- the other harts ----

/// The test of the harts passes just where every hart that was started has
/// answered, and fails only once its time is over.
pub proof fn law_verdict(b: &Smp, soft: &[bool; MAX_HART], now: u64, deadline: u64, v: Verdict)
    requires
        call_ensures(boot::verdict, (b, soft, now, deadline), v),
    ensures
        v is Pass <==> forall|h: int| 0 <= h < MAX_HART && #[trigger] b@.started[h] ==> soft@[h],
        v is Fail ==> now >= deadline,
        v is Again ==> now < deadline,
{
}

/// A hart that the firmware started is to be sent an interrupt, until it was;
/// one that it did not start never.
pub proof fn law_started_harts(
    b: &mut Smp,
    c: &mut Smp,
    h: usize,
    rc: i64,
    sc: i64,
    u: (),
    w: (),
    d: &Smp,
    now: u64,
    deadline: u64,
    r: bool,
)
    requires
        h < MAX_HART,
        forall|k: int| 0 <= k < MAX_HART ==> !#[trigger] old(b)@.pending[k],
        forall|k: int| 0 <= k < MAX_HART ==> !#[trigger] old(b)@.started[k],
        old(b)@.pending.len() == MAX_HART,
        old(b)@.started.len() == MAX_HART,
        call_ensures(boot::on_start, (b, h, rc), u),
        *old(c) == *final(b),
        call_ensures(boot::on_sent, (c, h, sc), w),
        *d == *final(c),
        call_ensures(boot::sending, (d, now, deadline), r),
    ensures
        final(b)@.started[h as int] == (rc == 0),
        final(c)@.started == final(b)@.started,
        r <==> rc == 0 && sc != 0 && now < deadline,
{
    if rc == 0 && sc != 0 {
        assert(final(c)@.pending[h as int]);
    } else {
        assert forall|k: int| 0 <= k < MAX_HART implies !#[trigger] final(c)@.pending[k] by {
            assert(!old(b)@.pending[k]);
        }
    }
}

} // verus!
