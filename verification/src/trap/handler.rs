//! What a trap leads to.
use crate::hw::sbi;
use crate::hw::sbi::SbiCall;
use crate::hw::timer;
use crate::hw::timer::Timer;
use crate::net::sock;
use crate::net::state::{NetState, NetV, NSOCK};
use crate::task::group;
use crate::task::keep;
use crate::task::life;
use crate::task::sched;
use crate::task::sched::Next;
use crate::task::state::{Sched, SchedV, BLOCK_NET, BLOCK_SLEEP, BLOCK_VIRTIO, MAX_CG, MAX_HART};
use crate::trap::frame::TrapFrame;
use vstd::prelude::*;

verus! {

/// The trap came from supervisor mode.
pub const SPP: u64 = 0x100;

/// Exit codes of a process that faults.
pub const FAULTED: i32 = -2;

pub const CONFUSED: i32 = -1;

/// Software, timer and external interrupts, in the register of enabled
/// interrupts.
pub const SIE_ALL: u64 = 0x222;

/// Software interrupt pending.
pub const SIP_SOFT: u64 = 2;

#[derive(Clone, Copy, PartialEq, Eq, Structural, Debug)]
pub enum Kind {
    Soft,
    Clock,
    External,
    StrayInterrupt,
    Call,
    Fault,
    StrayException,
}

/// What a cause register means: the top bit tells interrupts from exceptions.
pub open spec fn kind(scause: u64) -> Kind {
    let code = scause & 0xfff;
    if scause >= 0x8000_0000_0000_0000 {
        if code == 1 {
            Kind::Soft
        } else if code == 5 {
            Kind::Clock
        } else if code == 9 {
            Kind::External
        } else {
            Kind::StrayInterrupt
        }
    } else if code == 8 {
        Kind::Call
    } else if code == 2 || code == 12 || code == 13 || code == 15 {
        Kind::Fault
    } else {
        Kind::StrayException
    }
}

pub fn classify(scause: u64) -> (k: Kind)
    ensures
        k == kind(scause),
{
    let code: u64 = scause & 0xfff;
    if scause >= 0x8000_0000_0000_0000 {
        if code == 1 {
            Kind::Soft
        } else if code == 5 {
            Kind::Clock
        } else if code == 9 {
            Kind::External
        } else {
            Kind::StrayInterrupt
        }
    } else if code == 8 {
        Kind::Call
    } else if code == 2 || code == 12 || code == 13 || code == 15 {
        Kind::Fault
    } else {
        Kind::StrayException
    }
}

/// The registers that describe a trap, and the place where harts idle.
#[derive(Clone, Copy, PartialEq, Eq, Structural, Debug)]
pub struct Cause {
    pub scause: u64,
    pub sstatus: u64,
    pub sepc: u64,
    pub idle_lo: u64,
    pub idle_hi: u64,
}

/// The kernel itself trapped, and not while idling.
pub open spec fn nested(c: Cause) -> bool {
    c.sstatus & SPP != 0 && !(c.idle_lo <= c.sepc < c.idle_hi)
}

/// Whether the kernel itself trapped. Nothing of the machine's state but the
/// registers is looked at: a kernel at fault may have spoilt the rest.
pub fn is_nested(c: &Cause) -> (r: bool)
    ensures
        r == nested(*c),
{
    c.sstatus & SPP != 0 && (c.sepc < c.idle_lo || c.sepc >= c.idle_hi)
}

/// What is left to do for a trap.
#[derive(Clone, Copy, PartialEq, Eq, Structural, Debug)]
pub enum Act {
    /// The kernel is at fault: stop this hart.
    Park,
    /// The process ended with this code; go on as told.
    Exit { code: i32, next: Next },
    /// Clear the pending software interrupt.
    Soft,
    /// Arm the next tick; interrupt idle harts with work if `kick`.
    Clock { arm: SbiCall, kick: bool },
    /// Claim, serve and complete interrupts until none is pending.
    External,
    /// Perform the call and store its result.
    Call,
    /// Nothing known.
    Stray,
}

/// All that a trap may change.
pub struct Traps {
    pub s: Sched,
    pub n: NetState,
    /// There is a network device.
    pub net_ready: bool,
    pub t: Timer,
    /// Harts that took a software interrupt.
    pub soft: [bool; MAX_HART],
}

#[verifier::ext_equal]
pub struct TrapsV {
    pub s: SchedV,
    pub n: NetV,
    pub net_ready: bool,
    pub ticks: u64,
    pub soft: Seq<bool>,
}

impl View for Traps {
    type V = TrapsV;

    open spec fn view(&self) -> TrapsV {
        TrapsV {
            s: self.s@,
            n: self.n@,
            net_ready: self.net_ready,
            ticks: self.t.ticks,
            soft: self.soft@,
        }
    }
}

pub open spec fn yielding(s: SchedV, h: int) -> SchedV {
    SchedV { yield_flag: s.yield_flag.update(h, true), ..s }
}

impl TrapsV {
    /// The process of the hart ends.
    pub open spec fn ends(self, h: int, code: i32, now: u64) -> (TrapsV, Act) {
        let (s, next) = self.s.exit(self.s.current[h], code, h, now);
        (TrapsV { s, ..self }, Act::Exit { code, next })
    }

    /// A tick: the group of the hart's process is charged, sleepers whose time
    /// has come and those that wait for the disk are woken, the network's
    /// timers run, and every other tick the process gives way.
    pub open spec fn clock(self, h: int, time: u64) -> (TrapsV, Act) {
        let now = self.ticks.wrapping_add(1);
        let s0 = self.s.billed(h, now);
        let (s1, k1) = s0.wake_all(s0.procs.len() as int, BLOCK_SLEEP, h, now);
        let (s2, k2) = s1.wake_all(s1.procs.len() as int, BLOCK_VIRTIO, h, 0);
        let (n1, wake) = if self.net_ready {
            self.n.tick(NSOCK as int, now)
        } else {
            (self.n, false)
        };
        let (s3, k3) = if wake {
            s2.wake_all(s2.procs.len() as int, BLOCK_NET, h, 0)
        } else {
            (s2, false)
        };
        let s4 = if now % 2 == 0 {
            yielding(s3, h)
        } else {
            s3
        };
        (
            TrapsV { s: s4, n: n1, ticks: now, ..self },
            Act::Clock {
                arm: SbiCall {
                    eid: sbi::EID_SET_TIMER,
                    fid: 0,
                    a0: time.wrapping_add(timer::STEP),
                    a1: 0,
                    a2: 0,
                    a3: 0,
                },
                kick: k1 || k2 || k3,
            },
        )
    }

    /// What a trap does at once, and what is left to do.
    pub open spec fn trap(self, h: int, c: Cause, time: u64) -> (TrapsV, Act) {
        let cur = self.s.current[h];
        let doomed = self.s.proc(cur as int) matches Some(p) && p.killed && p.state is Running;
        if nested(c) {
            (self, Act::Park)
        } else if doomed {
            self.ends(h, (self.s.proc(cur as int)->0).kill_code, self.ticks)
        } else {
            match kind(c.scause) {
                Kind::Soft => (
                    TrapsV { s: yielding(self.s, h), soft: self.soft.update(h, true), ..self },
                    Act::Soft,
                ),
                Kind::Clock => self.clock(h, time),
                Kind::External => (self, Act::External),
                Kind::StrayInterrupt => (self, Act::Stray),
                Kind::Call => (self, Act::Call),
                Kind::Fault => self.ends(h, FAULTED, self.ticks),
                Kind::StrayException => self.ends(h, CONFUSED, self.ticks),
            }
        }
    }
}

/// Ends the hart's process.
pub fn do_exit(t: &mut Traps, h: usize, code: i32) -> (n: Next)
    requires
        h < MAX_HART,
    ensures
        (final(t)@, Act::Exit { code, next: n }) == old(t)@.ends(h as int, code, old(t)@.ticks),
{
    let pid = life::current_pid(&t.s, h);
    let now: u64 = timer::ticks(&t.t);
    let n = life::exit(&mut t.s, pid, code, h, now);
    assert(t@ =~= (TrapsV { s: t.s@, ..old(t)@ }));
    n
}

fn clock(t: &mut Traps, h: usize, time: u64) -> (a: Act)
    requires
        h < MAX_HART,
        old(t)@.n.wf(),
    ensures
        (final(t)@, a) == old(t)@.clock(h as int, time),
        final(t)@.n.wf(),
{
    timer::tick(&mut t.t);
    let arm = timer::set_next(time);
    let now: u64 = timer::ticks(&t.t);
    group::cg_tick(&mut t.s, h, now);
    let k1 = life::wake_sleepers(&mut t.s, h, now);
    let k2 = life::wake_virtio(&mut t.s, h);
    let ready = t.net_ready;
    let wake = sock::tick(&mut t.n, ready, now);
    let k3 = if wake {
        life::wake_net(&mut t.s, h)
    } else {
        false
    };
    if timer::should_preempt(&t.t) {
        life::set_yield_flag(&mut t.s, h);
    }
    let a = Act::Clock { arm, kick: k1 || k2 || k3 };
    assert((t@, a) =~= old(t)@.clock(h as int, time));
    a
}

/// A trap on hart `h`. A nested trap of the kernel is never survived; a
/// process that was killed ends at its next trap; a call continues after the
/// instruction that made it. `time` is the hardware clock.
pub fn rust_trap_handler(t: &mut Traps, tf: &mut TrapFrame, h: usize, c: &Cause, time: u64) -> (a: Act)
    requires
        h < MAX_HART,
        old(t)@.n.wf(),
    ensures
        (final(t)@, a) == old(t)@.trap(h as int, *c, time),
        final(t)@.n.wf(),
        *final(tf) == if a is Call {
            TrapFrame { sepc: old(tf).sepc.wrapping_add(4), ..*old(tf) }
        } else {
            *old(tf)
        },
{
    if is_nested(c) {
        return Act::Park;
    }
    let cur = life::current_pid(&t.s, h);
    if life::is_killed(&t.s, cur) && life::is_running(&t.s, cur) {
        let code = life::kill_code(&t.s, cur);
        let next = do_exit(t, h, code);
        return Act::Exit { code, next };
    }
    match classify(c.scause) {
        Kind::Soft => {
            t.soft[h] = true;
            life::set_yield_flag(&mut t.s, h);
            assert(t@ =~= (TrapsV {
                s: yielding(old(t)@.s, h as int),
                soft: old(t)@.soft.update(h as int, true),
                ..old(t)@
            }));
            Act::Soft
        },
        Kind::Clock => clock(t, h, time),
        Kind::External => Act::External,
        Kind::StrayInterrupt => Act::Stray,
        Kind::Call => {
            tf.sepc = tf.sepc.wrapping_add(4);
            Act::Call
        },
        Kind::Fault => {
            let next = do_exit(t, h, FAULTED);
            Act::Exit { code: FAULTED, next }
        },
        Kind::StrayException => {
            let next = do_exit(t, h, CONFUSED);
            Act::Exit { code: CONFUSED, next }
        },
    }
}

/// End of a trap: if the process was asked to give way, what runs next.
pub fn trap_end(t: &mut Traps, h: usize) -> (r: Option<Next>)
    requires
        h < MAX_HART,
    ensures
        ({
            let s = SchedV { yield_flag: old(t)@.s.yield_flag.update(h as int, false), ..old(t)@.s };
            if old(t)@.s.yield_flag[h as int] {
                let (s2, next) = s.schedule(h as int, old(t)@.ticks);
                final(t)@ == (TrapsV { s: s2, ..old(t)@ }) && r == Some(next)
            } else {
                final(t)@ == (TrapsV { s, ..old(t)@ }) && r is None
            }
        }),
{
    let now: u64 = timer::ticks(&t.t);
    if life::take_yield_flag(&mut t.s, h) {
        let n = sched::schedule_point(&mut t.s, h, now);
        assert(t@ =~= (TrapsV { s: t.s@, ..old(t)@ }));
        Some(n)
    } else {
        assert(t@ =~= (TrapsV { s: t.s@, ..old(t)@ }));
        None
    }
}

// ---- software interrupts ----

/// Whether a hart has taken a software interrupt.
pub fn soft_acked(t: &Traps, hart: usize) -> (r: bool)
    ensures
        r == t@.soft[(hart % MAX_HART) as int],
{
    t.soft[hart % MAX_HART]
}

/// Takes a pending software interrupt without a trap. True if one was
/// pending; it is then to be cleared.
pub fn poll_soft_ack(t: &mut Traps, hart: usize, sip: u64) -> (r: bool)
    ensures
        r == (sip & SIP_SOFT != 0),
        final(t)@ == if r {
            TrapsV { soft: old(t)@.soft.update((hart % MAX_HART) as int, true), ..old(t)@ }
        } else {
            old(t)@
        },
{
    if sip & SIP_SOFT == 0 {
        return false;
    }
    t.soft[hart % MAX_HART] = true;
    assert(t@ =~= (TrapsV {
        soft: old(t)@.soft.update((hart % MAX_HART) as int, true),
        ..old(t)@
    }));
    true
}

/// The interrupts a hart enables.
pub fn init_on(sie: u64) -> (r: u64)
    ensures
        r == sie | SIE_ALL,
{
    sie | SIE_ALL
}

// ---- laws ----

/// A process that was killed and runs does not come back from its next trap,
/// whatever that is: it ends, with the code it was killed with.
pub proof fn law_killed_process_ends(t: TrapsV, h: int, c: Cause, time: u64)
    requires
        0 <= h < MAX_HART,
        t.s.proc(t.s.current[h] as int) matches Some(p) && p.killed && p.state is Running,
        !nested(c),
    ensures
        t.trap(h, c, time).1 is Exit,
        t.trap(h, c, time).1->code == (t.s.proc(t.s.current[h] as int)->0).kill_code,
{
}

/// A trap of the kernel itself changes nothing.
pub proof fn law_nested_trap_parks(t: TrapsV, h: int, c: Cause, time: u64)
    requires
        nested(c),
    ensures
        t.trap(h, c, time) == (t, Act::Park),
{
}

/// Interrupts never end a process that was not killed.
pub proof fn law_interrupts_spare(t: TrapsV, h: int, c: Cause, time: u64)
    requires
        !(t.s.proc(t.s.current[h] as int) matches Some(p) && p.killed && p.state is Running),
        c.scause >= 0x8000_0000_0000_0000,
    ensures
        !(t.trap(h, c, time).1 is Exit),
{
}

/// A trap, whatever its cause, leaves every process's memory, files, places and
/// names alone, and the accounts of the groups but for what a tick charges.
pub proof fn law_traps_keep(t: TrapsV, h: int, c: Cause, time: u64)
    requires
        t.s.wf(),
        0 <= h < MAX_HART,
    ensures
        ({
            let charged = t.trap(h, c, time).1 is Clock;
            keep::kept(
                if charged {
                    t.s.billed(h, t.ticks.wrapping_add(1))
                } else {
                    t.s
                },
                t.trap(h, c, time).0.s,
            )
        }),
{
    let cur = t.s.current[h];
    keep::law_exit_keeps(t.s, cur, FAULTED, h, t.ticks);
    keep::law_exit_keeps(t.s, cur, CONFUSED, h, t.ticks);
    if let Some(p) = t.s.proc(cur as int) {
        keep::law_exit_keeps(t.s, cur, p.kill_code, h, t.ticks);
    }
    if kind(c.scause) is Clock {
        let now = t.ticks.wrapping_add(1);
        let s0 = t.s.billed(h, now);
        let s1 = s0.wake_all(s0.procs.len() as int, BLOCK_SLEEP, h, now).0;
        keep::law_wakes_keep(s0, s0.procs.len() as int, BLOCK_SLEEP, h, now);
        let s2 = s1.wake_all(s1.procs.len() as int, BLOCK_VIRTIO, h, 0).0;
        keep::law_wakes_keep(s1, s1.procs.len() as int, BLOCK_VIRTIO, h, 0);
        keep::lemma_trans(s0, s1, s2);
        let s3 = s2.wake_all(s2.procs.len() as int, BLOCK_NET, h, 0).0;
        keep::law_wakes_keep(s2, s2.procs.len() as int, BLOCK_NET, h, 0);
        keep::lemma_trans(s0, s2, s3);
    }
}

/// A tick counts for the group of the process that the hart runs and for no
/// other. A group that has had every tick of the window so far is over any cap
/// below a hundred percent, so that it is passed over when another process is
/// looked for.
pub proof fn law_ticks_count_toward_the_cap(t: TrapsV, h: int, c: Cause, time: u64)
    requires
        t.s.wf(),
        0 <= h < MAX_HART,
        t.trap(h, c, time).1 is Clock,
        t.s.running_on(h) matches Some(p) && p.cg < MAX_CG,
    ensures
        ({
            let g = (t.s.running_on(h)->0).cg as int;
            let now = t.ticks.wrapping_add(1);
            let s = t.trap(h, c, time).0.s;
            let u = t.s.cpu[g];
            &&& s.cpu == t.s.cpu.update(g, group::ticked(u, now))
            &&& u.cap != 0 && u.cap <= 100 && (if now % 100 == 0 {
                u.win != now / 100
            } else {
                u.win == now / 100 && u.win_use == now % 100
            }) ==> s.over_quota(g, now)
        }),
{
    law_traps_keep(t, h, c, time);
    let g = (t.s.running_on(h)->0).cg as int;
    let now = t.ticks.wrapping_add(1);
    let u = t.s.cpu[g];
    let e = (now % 100 + 1) as int;
    if u.cap != 0 && u.cap <= 100 {
        assert(e * 100 > (u.cap - 1) * e) by (nonlinear_arith)
            requires
                e >= 1,
                1 <= u.cap <= 100,
        ;
    }
}

} // verus!
