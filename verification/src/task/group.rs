//! Groups and namespaces: processor accounting and caps, frame limits,
//! membership.
use crate::mem::frame;
use crate::mem::frame::Mem;
use crate::task::state;
use crate::task::state::{Cg, CpuUse, ProcV, Sched, SchedV, MAX_CG, MAX_HART};
use vstd::prelude::*;

verus! {

/// Flag that asks for a process-id namespace.
pub const CLONE_NEWPID: usize = 0x2000_0000;

/// One more tick for a group, in the window of a hundred ticks of `now`.
pub open spec fn ticked(c: CpuUse, now: u64) -> CpuUse {
    CpuUse {
        ticks: c.ticks.wrapping_add(1),
        cap: c.cap,
        win: now / 100,
        win_use: if c.win == now / 100 {
            c.win_use.wrapping_add(1)
        } else {
            1
        },
    }
}

impl SchedV {
    /// One more tick for the group of the process that hart `h` runs; the last
    /// group stands for all beyond the table.
    pub open spec fn billed(self, h: int, now: u64) -> SchedV {
        match self.running_on(h) {
            Some(p) => {
                let g = if p.cg < MAX_CG {
                    p.cg as int
                } else {
                    MAX_CG - 1
                };
                SchedV { cpu: self.cpu.update(g, ticked(self.cpu[g], now)), ..self }
            },
            None => self,
        }
    }
}

/// Charges one tick to the group of the process that hart `h` runs.
pub fn cg_tick(s: &mut Sched, h: usize, now: u64)
    requires
        h < MAX_HART,
    ensures
        final(s)@ == old(s)@.billed(h as int, now),
{
    let cur: usize = s.current[h];
    if cur >= s.procs.len() {
        return;
    }
    assert(s@.procs[cur as int] == state::opt_proc(s.procs@[cur as int]));
    let g: usize = match &s.procs[cur] {
        Some(p) => if p.cg < MAX_CG {
            p.cg
        } else {
            MAX_CG - 1
        },
        None => {
            return;
        },
    };
    let c = s.cpu[g];
    let win: u64 = now / 100;
    let used: u64 = if c.win == win {
        c.win_use.wrapping_add(1)
    } else {
        1
    };
    s.cpu[g] = CpuUse { ticks: c.ticks.wrapping_add(1), cap: c.cap, win, win_use: used };
    proof {
        assert(s@.procs =~= old(s)@.procs);
        assert(s@.queues =~= old(s)@.queues);
    }
}

/// Caps a group's processor time at `pct` percent, a hundred at most. False
/// for a group that does not exist.
pub fn cg_set_cpu(s: &mut Sched, id: usize, pct: u64) -> (ok: bool)
    ensures
        ok == (id < MAX_CG && id < old(s)@.cg.len()),
        !ok ==> final(s)@ == old(s)@,
        ok ==> final(s)@ == (SchedV {
            cpu: old(s)@.cpu.update(
                id as int,
                CpuUse {
                    cap: (if pct < 100 {
                        pct + 1
                    } else {
                        101
                    }) as u64,
                    ..old(s)@.cpu[id as int]
                },
            ),
            ..old(s)@
        }),
{
    if id >= MAX_CG || id >= s.cg.len() {
        return false;
    }
    let cap: u64 = if pct < 100 {
        pct + 1
    } else {
        101
    };
    let c = s.cpu[id];
    s.cpu[id] = CpuUse { ticks: c.ticks, cap, win: c.win, win_use: c.win_use };
    proof {
        assert(s@.procs =~= old(s)@.procs);
        assert(s@.queues =~= old(s)@.queues);
    }
    true
}

/// Makes a group below that of the hart's process, with a frame limit (0 =
/// none). `usize::MAX` when there are as many as there may be.
pub fn cgcreate(s: &mut Sched, m: &mut Mem, h: usize, limit: u64) -> (id: usize)
    requires
        old(s)@.wf(),
        old(m)@.wf(),
        h < MAX_HART,
    ensures
        final(s)@.wf(),
        final(m)@.wf(),
        old(s)@.cg.len() >= MAX_CG ==> id == usize::MAX && final(s)@ == old(s)@ && final(m)@ == old(m)@,
        old(s)@.cg.len() < MAX_CG ==> {
            let parent = match old(s)@.running_on(h as int) {
                Some(p) => p.cg,
                None => 0,
            };
            &&& id == old(s)@.cg.len()
            &&& final(s)@ == (SchedV { cg: old(s)@.cg.push(Cg { parent }), ..old(s)@ })
            &&& final(m)@ == old(m)@.limited(id, limit)
        },
{
    let cur: usize = s.current[h];
    let mut parent: usize = 0;
    if cur < s.procs.len() {
        assert(s@.procs[cur as int] == state::opt_proc(s.procs@[cur as int]));
        if let Some(p) = &s.procs[cur] {
            parent = p.cg;
        }
    }
    if s.cg.len() >= MAX_CG {
        return usize::MAX;
    }
    let id: usize = s.cg.len();
    s.cg.push(Cg { parent });
    proof {
        assert(s@.procs =~= old(s)@.procs);
        assert(s@.queues =~= old(s)@.queues);
    }
    frame::set_cg_limit(m, id, limit);
    id
}

/// Moves the hart's process into a group. False if the group or the process
/// does not exist.
pub fn cgenter(s: &mut Sched, h: usize, id: usize) -> (ok: bool)
    requires
        h < MAX_HART,
    ensures
        ok == (id < old(s)@.cg.len() && old(s)@.running_on(h as int) is Some),
        !ok ==> final(s)@ == old(s)@,
        ok ==> final(s)@ == old(s)@.with_proc(
            old(s)@.current[h as int] as int,
            ProcV { cg: id, ..old(s)@.running_on(h as int)->0 },
        ),
{
    if id >= s.cg.len() {
        return false;
    }
    let cur: usize = s.current[h];
    if cur < s.procs.len() {
        assert(s@.procs[cur as int] == state::opt_proc(s.procs@[cur as int]));
        if let Some(p) = &mut s.procs[cur] {
            p.cg = id;
            proof {
                let q = old(s)@.running_on(h as int)->0;
                assert(s@ =~= old(s)@.with_proc(cur as int, ProcV { cg: id, ..q }));
            }
            return true;
        }
    }
    assert(s@ =~= old(s)@);
    false
}

/// Sets the frame limit of a group (0 = none). False if there is no such
/// group.
pub fn cgsetlimit(s: &Sched, m: &mut Mem, id: usize, limit: u64) -> (ok: bool)
    requires
        s@.wf(),
        old(m)@.wf(),
    ensures
        final(m)@.wf(),
        ok == (id < s@.cg.len()),
        !ok ==> final(m)@ == old(m)@,
        ok ==> final(m)@ == old(m)@.limited(id, limit),
{
    if id >= s.cg.len() {
        return false;
    }
    frame::set_cg_limit(m, id, limit);
    true
}

/// Has the next child of the hart's process found a process-id namespace.
/// False for any other flags, and without a process.
pub fn unshare(s: &mut Sched, h: usize, flags: usize) -> (ok: bool)
    requires
        h < MAX_HART,
    ensures
        ok == (flags == CLONE_NEWPID && old(s)@.running_on(h as int) is Some),
        !ok ==> final(s)@ == old(s)@,
        ok ==> final(s)@ == old(s)@.with_proc(
            old(s)@.current[h as int] as int,
            ProcV { pending_ns: true, ..old(s)@.running_on(h as int)->0 },
        ),
{
    if flags != CLONE_NEWPID {
        return false;
    }
    let cur: usize = s.current[h];
    if cur < s.procs.len() {
        assert(s@.procs[cur as int] == state::opt_proc(s.procs@[cur as int]));
        if let Some(p) = &mut s.procs[cur] {
            p.pending_ns = true;
            proof {
                let q = old(s)@.running_on(h as int)->0;
                assert(s@ =~= old(s)@.with_proc(cur as int, ProcV { pending_ns: true, ..q }));
            }
            return true;
        }
    }
    assert(s@ =~= old(s)@);
    false
}

} // verus!
