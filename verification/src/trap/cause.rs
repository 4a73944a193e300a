//! What each cause of a trap does to the process that ran and to those that
//! sleep.
use crate::task::family;
use crate::task::state::{ProcV, SchedV, BLOCK_NET, BLOCK_SLEEP, BLOCK_VIRTIO, MAX_HART};
use crate::trap::handler;
use crate::trap::handler::{Act, Cause, TrapsV};
use vstd::prelude::*;

verus! {

/// The trap comes from a program or an idle hart, and the hart's process was not
/// killed.
pub open spec fn ordinary(t: TrapsV, h: int, c: Cause) -> bool {
    &&& t.s.wf()
    &&& 0 <= h < MAX_HART
    &&& c.sstatus & 0x100 == 0
    &&& t.s.current[h] < t.s.procs.len()
    &&& t.s.procs[t.s.current[h] as int] matches Some(p) && !p.killed
}

/// A call leaves all as it is, for the call itself to change.
pub proof fn law_call_is_left_to_the_call(t: TrapsV, h: int, c: Cause, time: u64)
    requires
        ordinary(t, h, c),
        c.scause < 0x8000_0000_0000_0000,
        c.scause & 0xfff == 8,
    ensures
        t.trap(h, c, time) == (t, Act::Call),
{
}

/// A program that does what it may not ends, and the code tells.
pub proof fn law_fault_ends_the_process(t: TrapsV, h: int, c: Cause, time: u64)
    requires
        ordinary(t, h, c),
        t.s.current[h] > 1,
        !((t.s.procs[t.s.current[h] as int]->0).state is Zombie),
        (t.s.procs[t.s.current[h] as int]->0).parent != t.s.current[h],
        c.scause < 0x8000_0000_0000_0000,
        c.scause & 0xfff != 8,
    ensures
        ({
            let pid = t.s.current[h];
            let (u, a) = t.trap(h, c, time);
            let bad = c.scause & 0xfff == 2 || c.scause & 0xfff == 12 || c.scause & 0xfff == 13 || c.scause & 0xfff == 15;
            &&& a is Exit
            &&& a->code == if bad { -2int } else { -1 }
            &&& u.s.procs[pid as int] is Some
            &&& (u.s.procs[pid as int]->0).state is Zombie
            &&& (u.s.procs[pid as int]->0).exit_code == a->code
            &&& u.n == t.n && u.ticks == t.ticks
        }),
{
    let pid = t.s.current[h];
    family::law_ended_process(t.s, pid, handler::FAULTED, h, t.ticks);
    family::law_ended_process(t.s, pid, handler::CONFUSED, h, t.ticks);
}

/// A killed process ends at its next trap, with the code of the kill.
pub proof fn law_kill_takes_effect(t: TrapsV, h: int, c: Cause, time: u64)
    requires
        t.s.wf(),
        0 <= h < MAX_HART,
        c.sstatus & 0x100 == 0,
        1 < t.s.current[h] < t.s.procs.len(),
        t.s.procs[t.s.current[h] as int] matches Some(p) && p.killed && p.state is Running && p.parent
            != t.s.current[h],
    ensures
        ({
            let pid = t.s.current[h];
            let (u, a) = t.trap(h, c, time);
            &&& a is Exit
            &&& u.s.procs[pid as int] is Some
            &&& (u.s.procs[pid as int]->0).state is Zombie
            &&& (u.s.procs[pid as int]->0).exit_code == (t.s.procs[pid as int]->0).kill_code
        }),
{
    let pid = t.s.current[h];
    family::law_ended_process(t.s, pid, (t.s.procs[pid as int]->0).kill_code, h, t.ticks);
}

/// Interrupts of devices and of other harts change no process: the first is left
/// to its device, the second asks for a switch.
pub proof fn law_other_interrupts(t: TrapsV, h: int, c: Cause, time: u64)
    requires
        ordinary(t, h, c),
        c.scause >= 0x8000_0000_0000_0000,
    ensures
        c.scause & 0xfff == 9 ==> t.trap(h, c, time) == (t, Act::External),
        c.scause & 0xfff == 1 ==> t.trap(h, c, time) == (
            TrapsV {
                s: SchedV { yield_flag: t.s.yield_flag.update(h, true), ..t.s },
                soft: t.soft.update(h, true),
                ..t
            },
            Act::Soft,
        ),
{
}

/// The process sleeps until a tick.
pub open spec fn asleep(s: SchedV, i: int) -> bool {
    0 <= i < s.procs.len() && (s.procs[i] matches Some(p) && p.state is Blocked && p.blocked_on == 2)
}

proof fn lemma_billed(s: SchedV, h: int, now: u64)
    requires
        s.wf(),
        0 <= h < MAX_HART,
    ensures
        s.billed(h, now).wf(),
        s.billed(h, now) == (SchedV { cpu: s.billed(h, now).cpu, ..s }),
{
}

/// A tick counts, arms the next one, and wakes just those sleepers whose tick
/// has come, at the back of the hart's queue; every second tick the process
/// that runs gives way.
pub proof fn law_tick_wakes_sleepers(t: TrapsV, h: int, c: Cause, time: u64, i: int)
    requires
        ordinary(t, h, c),
        c.scause >= 0x8000_0000_0000_0000,
        c.scause & 0xfff == 5,
        t.ticks < u64::MAX,
        asleep(t.s, i),
    ensures
        ({
            let (u, a) = t.trap(h, c, time);
            let now = t.ticks + 1;
            let p = t.s.procs[i]->0;
            &&& u.ticks == now
            &&& a is Clock
            &&& a->arm.a0 == time.wrapping_add(100_000)
            &&& u.s.current == t.s.current
            &&& now >= p.wake_at ==> u.s.procs[i] == Some(
                ProcV { state: crate::task::state::State::Runnable, blocked_on: 0, ..p },
            )
            &&& now >= p.wake_at && family::off_hart(t.s, i as usize) ==> u.s.queues[h].contains(i as usize)
            &&& now < p.wake_at ==> u.s.procs[i] == Some(p)
            &&& now % 2 == 0 ==> u.s.yield_flag[h]
            &&& now % 2 == 1 ==> u.s.yield_flag == t.s.yield_flag
        }),
{
    let now = (t.ticks + 1) as u64;
    let s0 = t.s.billed(h, now);
    lemma_billed(t.s, h, now);
    let n = s0.procs.len() as int;
    family::law_everyone_due_wakes(s0, n, BLOCK_SLEEP, h, now);
    let s1 = s0.wake_all(n, BLOCK_SLEEP, h, now).0;
    lemma_wakes_wf(s0, n, BLOCK_SLEEP, h, now);
    family::law_everyone_due_wakes(s1, n, BLOCK_VIRTIO, h, 0);
    let s2 = s1.wake_all(n, BLOCK_VIRTIO, h, 0).0;
    lemma_wakes_wf(s1, n, BLOCK_VIRTIO, h, 0);
    family::law_everyone_due_wakes(s2, n, BLOCK_NET, h, 0);
    let s3 = s2.wake_all(n, BLOCK_NET, h, 0).0;
    lemma_wakes_wf(s2, n, BLOCK_NET, h, 0);
    assert(s0.procs[i] == t.s.procs[i]);
    lemma_woken(s0, i, h, now);
    lemma_kept_in_queue(s1.queues[h], s2.queues[h], i as usize);
    lemma_kept_in_queue(s2.queues[h], s3.queues[h], i as usize);
    assert(family::off_hart(s0, i as usize) == family::off_hart(t.s, i as usize));
}

/// What waking leaves of one process.
proof fn lemma_woken(s: SchedV, i: int, h: int, now: u64)
    requires
        s.wf(),
        0 <= h < MAX_HART,
        asleep(s, i),
    ensures
        ({
            let p = s.procs[i]->0;
            let t = s.wake_all(s.procs.len() as int, BLOCK_SLEEP, h, now).0;
            now >= p.wake_at ==> t.procs[i] == Some(
                ProcV { state: crate::task::state::State::Runnable, blocked_on: 0, ..p },
            )
        }),
{
    lemma_woken_upto(s, i, s.procs.len() as int, h, now);
}

proof fn lemma_woken_upto(s: SchedV, i: int, upto: int, h: int, now: u64)
    requires
        s.wf(),
        0 <= h < MAX_HART,
        asleep(s, i),
        0 <= upto <= s.procs.len(),
    ensures
        ({
            let p = s.procs[i]->0;
            let t = s.wake_all(upto, BLOCK_SLEEP, h, now).0;
            &&& t.procs.len() == s.procs.len()
            &&& now >= p.wake_at && i < upto ==> t.procs[i] == Some(
                ProcV { state: crate::task::state::State::Runnable, blocked_on: 0, ..p },
            )
            &&& !(i < upto) ==> t.procs[i] == s.procs[i]
        }),
    decreases upto,
{
    if upto > 0 {
        lemma_woken_upto(s, i, upto - 1, h, now);
        family::law_everyone_due_wakes(s, upto - 1, BLOCK_SLEEP, h, now);
        let u = s.wake_all(upto - 1, BLOCK_SLEEP, h, now).0;
        assert(u.procs[upto - 1] == s.procs[upto - 1]);
    }
}

proof fn lemma_wakes_wf(s: SchedV, upto: int, reason: u8, h: int, now: u64)
    requires
        s.wf(),
        0 <= h < MAX_HART,
        0 <= upto <= s.procs.len(),
    ensures
        s.wake_all(upto, reason, h, now).0.wf(),
        s.wake_all(upto, reason, h, now).0.yield_flag == s.yield_flag,
        s.wake_all(upto, reason, h, now).0.procs.len() == s.procs.len(),
        s.wake_all(upto, reason, h, now).0.current == s.current,
    decreases upto,
{
    if upto > 0 {
        lemma_wakes_wf(s, upto - 1, reason, h, now);
    }
}

proof fn lemma_kept_in_queue(q: Seq<usize>, r: Seq<usize>, x: usize)
    requires
        r.len() >= q.len(),
        r.take(q.len() as int) == q,
    ensures
        q.contains(x) ==> r.contains(x),
{
    if q.contains(x) {
        let i = choose|i: int| 0 <= i < q.len() && q[i] == x;
        assert(r[i] == r.take(q.len() as int)[i]);
    }
}

} // verus!
