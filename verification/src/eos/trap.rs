//! Traps: ticks, calls and faults.
use crate::eos::clint::TICK_INTERVAL;
use crate::eos::task;
use crate::eos::task::{Eos, EosV, Task, TrapFrame, MAX_TASKS};
use vstd::prelude::*;

verus! {

pub const SYS_YIELD: u32 = 0;

pub const SYS_PUTC: u32 = 1;

pub const SYS_GETC: u32 = 2;

pub const SYS_TICKS: u32 = 3;

pub const SYS_TASKID: u32 = 4;

/// What a read of the console gives when there is nothing.
pub const NO_CHAR: u32 = 0xffff_ffff;

pub const ECALL: u32 = 11;

pub open spec fn cause_name(mcause: u32) -> &'static str {
    if mcause == 0x8000_0007 {
        "machine timer interrupt"
    } else if mcause == 0x8000_0003 {
        "machine software interrupt"
    } else if mcause == 0x8000_000b {
        "machine external interrupt"
    } else if mcause == 0xb {
        "ecall from M-mode"
    } else if mcause == 2 {
        "illegal instruction"
    } else if mcause == 0 {
        "instruction address misaligned"
    } else if mcause == 1 {
        "instruction access fault"
    } else if mcause == 4 {
        "load address misaligned"
    } else if mcause == 5 {
        "load access fault"
    } else if mcause == 6 {
        "store address misaligned"
    } else if mcause == 7 {
        "store access fault"
    } else if mcause == 3 {
        "breakpoint"
    } else {
        "unknown"
    }
}

/// The name of a cause.
pub fn mcause_str(mcause: u32) -> (s: &'static str)
    ensures
        s == cause_name(mcause),
{
    match mcause {
        0x8000_0007 => "machine timer interrupt",
        0x8000_0003 => "machine software interrupt",
        0x8000_000b => "machine external interrupt",
        0xb => "ecall from M-mode",
        0x2 => "illegal instruction",
        0x0 => "instruction address misaligned",
        0x1 => "instruction access fault",
        0x4 => "load address misaligned",
        0x5 => "load access fault",
        0x6 => "store address misaligned",
        0x7 => "store access fault",
        0x3 => "breakpoint",
        _ => "unknown",
    }
}

/// What is left to do for a trap. The task to return to is the current one.
#[derive(Clone, Copy, PartialEq, Eq, Structural, Debug)]
pub enum Act {
    Return,
    /// Set the timer to this count.
    SetTimer { next: u64 },
    /// Clear the pending software interrupt.
    ClearSoft,
    /// Send a byte.
    Putc { byte: u8 },
    /// Silence interrupts, print the fault and who is killed for it, and end
    /// the task by `kill_current`.
    Killed { id: usize },
    /// Silence interrupts, report the fault, and stop.
    Fatal,
    /// A fault while a fault was reported: silence interrupts and stop.
    Nested,
}

pub open spec fn cur(e: EosV) -> Task {
    e.tasks[e.current as int]
}

impl EosV {
    /// The saved registers of the current task changed.
    pub open spec fn with_frame(self, f: TrapFrame) -> EosV {
        self.with_task(self.current as int, Task { frame: f, ..cur(self) })
    }

    /// A call: it continues after the instruction, of two bytes or four.
    pub open spec fn returning(self, insn: u16) -> u32 {
        cur(self).frame.mepc.wrapping_add(
            if insn & 3 == 3 {
                4
            } else {
                2
            },
        )
    }
}

/// The state after a call and the trap's action, with registers given as what
/// they are set to.
pub open spec fn call_regs(e: EosV, input: Option<u8>) -> Seq<u32> {
    let r = cur(e).frame.regs@;
    let nr = r[17];
    if nr == SYS_GETC {
        r.update(
            10,
            match input {
                Some(b) => b as u32,
                None => NO_CHAR,
            },
        )
    } else if nr == SYS_TICKS {
        r.update(10, (e.ticks % 0x1_0000_0000) as u32).update(11, (e.ticks / 0x1_0000_0000) as u32)
    } else if nr == SYS_TASKID {
        r.update(10, e.current as u32)
    } else {
        r
    }
}

/// What a trap does to the current task's saved registers.
pub open spec fn framed(e: EosV, f: EosV, insn: u16, input: Option<u8>) -> bool {
    let t = cur(f);
    &&& f == e.with_task(e.current as int, t)
    &&& t.name == cur(e).name
    &&& t.alive == cur(e).alive
    &&& t.runs == cur(e).runs
    &&& t.frame.mstatus == cur(e).frame.mstatus
    &&& t.frame.mepc == e.returning(insn)
    &&& t.frame.regs@ == call_regs(e, input)
}

fn set_frame(e: &mut Eos, f: TrapFrame)
    requires
        old(e)@.wf(),
    ensures
        final(e)@.wf(),
        final(e)@ == old(e)@.with_frame(f),
{
    let i: usize = e.current;
    let t = e.tasks[i];
    e.tasks[i] = Task { frame: f, ..t };
    assert(e@ =~= old(e)@.with_frame(f));
}

/// A call of the current task. `insn` is the first half of the instruction
/// that made it, `input` what the console holds.
fn on_call(e: &mut Eos, insn: u16, input: Option<u8>) -> (a: Act)
    requires
        old(e)@.wf(),
    ensures
        final(e)@.wf(),
        ({
            let nr = cur(old(e)@).frame.regs@[17];
            exists|f: EosV| #[trigger]
                framed(old(e)@, f, insn, input) && final(e)@ == (if nr == SYS_YIELD {
                    f.switched()
                } else {
                    f
                })
        }),
        a == if cur(old(e)@).frame.regs@[17] == SYS_PUTC {
            Act::Putc { byte: cur(old(e)@).frame.regs@[10] as u8 }
        } else {
            Act::Return
        },
{
    let i: usize = e.current;
    let mut f = e.tasks[i].frame;
    let step: u32 = if insn & 3 == 3 {
        4
    } else {
        2
    };
    f.mepc = f.mepc.wrapping_add(step);
    let nr: u32 = f.regs[17];
    let a0: u32 = f.regs[10];
    if nr == SYS_GETC {
        f.regs[10] = match input {
            Some(b) => b as u32,
            None => NO_CHAR,
        };
    } else if nr == SYS_TICKS {
        f.regs[10] = (e.ticks % 0x1_0000_0000) as u32;
        f.regs[11] = (e.ticks / 0x1_0000_0000) as u32;
    } else if nr == SYS_TASKID {
        f.regs[10] = i as u32;
    }
    set_frame(e, f);
    assert(framed(old(e)@, e@, insn, input));
    if nr == SYS_YIELD {
        task::schedule(e);
        Act::Return
    } else if nr == SYS_PUTC {
        Act::Putc { byte: a0 as u8 }
    } else {
        Act::Return
    }
}

impl EosV {
    pub open spec fn ticked(self) -> EosV {
        EosV {
            ticks: self.ticks.wrapping_add(1),
            next_at: self.next_at.wrapping_add(TICK_INTERVAL),
            ..self
        }
    }

    /// A fault is reported: the shell's stops the machine, another task's kills
    /// the task, and one during the report stops the machine.
    pub open spec fn faulted(self) -> (EosV, Act) {
        if self.dumping {
            (self, Act::Nested)
        } else {
            (
                EosV { dumping: true, ..self },
                if self.current != 0 {
                    Act::Killed { id: self.current }
                } else {
                    Act::Fatal
                },
            )
        }
    }

    /// The report is over, and the current task with it.
    pub open spec fn killed(self) -> EosV {
        EosV {
            dumping: false,
            ..self.with_task(self.current as int, Task { alive: false, ..cur(self) })
        }.switched()
    }
}

/// Interrupt or exception.
pub open spec fn is_int(mcause: u32) -> bool {
    mcause >= 0x8000_0000
}

/// Serves a trap of the current task.
pub fn rust_trap(e: &mut Eos, mcause: u32, insn: u16, input: Option<u8>) -> (a: Act)
    requires
        old(e)@.wf(),
    ensures
        final(e)@.wf(),
        mcause == 0x8000_0007 ==> final(e)@ == old(e)@.ticked().switched() && a == (Act::SetTimer {
            next: old(e)@.ticked().next_at,
        }),
        mcause == 0x8000_0003 ==> final(e)@ == old(e)@.switched() && a == Act::ClearSoft,
        is_int(mcause) && mcause != 0x8000_0007 && mcause != 0x8000_0003 ==> final(e)@ == old(e)@ && a
            == Act::Return,
        mcause == ECALL ==> {
            let nr = cur(old(e)@).frame.regs@[17];
            &&& exists|f: EosV| #[trigger]
                framed(old(e)@, f, insn, input) && final(e)@ == (if nr == SYS_YIELD {
                    f.switched()
                } else {
                    f
                })
            &&& a == if nr == SYS_PUTC {
                Act::Putc { byte: cur(old(e)@).frame.regs@[10] as u8 }
            } else {
                Act::Return
            }
        },
        !is_int(mcause) && mcause != ECALL ==> (final(e)@, a) == old(e)@.faulted(),
{
    if mcause >= 0x8000_0000 {
        if mcause == 0x8000_0007 {
            e.ticks = e.ticks.wrapping_add(1);
            e.next_at = e.next_at.wrapping_add(TICK_INTERVAL);
            let next: u64 = e.next_at;
            task::schedule(e);
            return Act::SetTimer { next };
        }
        if mcause == 0x8000_0003 {
            task::schedule(e);
            return Act::ClearSoft;
        }
        return Act::Return;
    }
    if mcause == ECALL {
        return on_call(e, insn, input);
    }
    if e.dumping {
        return Act::Nested;
    }
    e.dumping = true;
    let i: usize = e.current;
    if i != 0 {
        Act::Killed { id: i }
    } else {
        Act::Fatal
    }
}

/// Kills the current task, once its fault has been reported, and goes on with
/// another.
pub fn kill_current(e: &mut Eos)
    requires
        old(e)@.wf(),
    ensures
        final(e)@.wf(),
        final(e)@ == old(e)@.killed(),
{
    let i: usize = e.current;
    let t = e.tasks[i];
    e.tasks[i] = Task { alive: false, ..t };
    e.dumping = false;
    assert(e@.tasks =~= old(e)@.tasks.update(i as int, Task { alive: false, ..cur(old(e)@) }));
    task::schedule(e);
}

/// While a fault is reported, another one stops the machine and changes
/// nothing; once the report is over, faults are reported again.
pub proof fn law_fault_in_report_stops(e: EosV)
    requires
        e.wf(),
        !e.dumping,
    ensures
        e.faulted().0.faulted() == (e.faulted().0, Act::Nested),
        e.faulted().1 is Killed <==> e.current != 0,
        !e.faulted().0.killed().dumping,
        e.faulted().0.killed().faulted().1 !is Nested,
{
}

/// A fault of a task other than the shell leaves the shell alive if it was.
pub proof fn law_fault_spares_shell(e: EosV)
    requires
        e.wf(),
        e.current != 0,
        e.tasks[0].alive,
        !e.dumping,
    ensures
        e.faulted().0.killed().wf(),
        e.faulted().0.killed().tasks[0].alive,
        e.faulted().0.killed().current != e.current,
        !e.faulted().0.killed().tasks[e.current as int].alive,
{
    let f = e.with_task(e.current as int, Task { alive: false, ..cur(e) });
    assert(f.tasks[0].alive);
    assert(EosV { dumping: false, ..e.faulted().0.with_task(e.current as int, Task { alive: false, ..cur(e) }) } == f);
    task::law_switch_to_live(f, 0);
}

/// Preemption keeps a task's registers: a tick changes none of the saved
/// frames.
pub proof fn law_tick_keeps_frames(e: EosV, i: int)
    requires
        e.wf(),
        0 <= i < MAX_TASKS,
    ensures
        e.ticked().switched().tasks[i].frame == e.tasks[i].frame,
{
}

} // verus!
