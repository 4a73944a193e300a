//! Saved registers and trap stacks.
use crate::task::state::MAX_HART;
use vstd::prelude::*;

verus! {

/// Bytes of a trap stack. The stacks lie one after another, and the first is
/// aligned to this.
pub const STACK: u64 = 16384;

/// Registers of a process, saved when it traps.
#[derive(Clone, Copy, PartialEq, Eq, Debug)]
pub struct TrapFrame {
    pub x: [u64; 32],
    pub sstatus: u64,
    pub sepc: u64,
    pub kernel_sp: u64,
}

impl TrapFrame {
    pub fn empty() -> (t: TrapFrame)
        ensures
            t.x@ == Seq::new(32, |i: int| 0u64),
            t.sstatus == 0,
            t.sepc == 0,
            t.kernel_sp == 0,
    {
        let t = TrapFrame { x: [0; 32], sstatus: 0, sepc: 0, kernel_sp: 0 };
        assert(t.x@ =~= Seq::new(32, |i: int| 0u64));
        t
    }

    /// Number of the call that was asked for.
    pub fn syscall_id(&self) -> (n: u64)
        ensures
            n == self.x@[17],
    {
        self.x[17]
    }

    /// Argument `i` of a call.
    pub fn arg(&self, i: usize) -> (v: u64)
        requires
            i < 22,
        ensures
            v == self.x@[10 + i],
    {
        self.x[10 + i]
    }

    /// The result of a call.
    pub fn set_ret(&mut self, v: u64)
        ensures
            final(self).x@ == old(self).x@.update(10, v),
            final(self).sstatus == old(self).sstatus,
            final(self).sepc == old(self).sepc,
            final(self).kernel_sp == old(self).kernel_sp,
    {
        self.x[10] = v;
    }
}

/// Where the trap stack of a hart ends; the stacks start at `base`.
pub open spec fn stack_top(base: u64, hart: int) -> int {
    base + (hart % (MAX_HART as int) + 1) * STACK
}

pub fn trap_stack_top_hart(base: u64, hart: u64) -> (a: u64)
    requires
        base + MAX_HART * STACK <= u64::MAX,
    ensures
        a == stack_top(base, hart as int),
{
    base + (hart % 4 + 1) * STACK
}

/// The same for the hart that asks.
pub fn trap_stack_top(base: u64, hartid: u64) -> (a: u64)
    requires
        base + MAX_HART * STACK <= u64::MAX,
    ensures
        a == stack_top(base, hartid as int),
{
    trap_stack_top_hart(base, hartid % 4)
}

/// The hart whose trap stack an address lies in.
pub fn reaffirm_hartid(base: u64, sp: u64) -> (h: u64)
    requires
        base <= sp,
    ensures
        h == (sp - base) / STACK as int % (MAX_HART as int),
{
    (sp - base) / STACK % 4
}

/// Whatever lies on a hart's trap stack tells which hart it is.
pub proof fn law_stack_names_hart(base: u64, hart: int, used: int)
    requires
        0 <= hart < MAX_HART,
        0 < used <= STACK,
    ensures
        base <= stack_top(base, hart) - used,
        (stack_top(base, hart) - used - base) / STACK as int % (MAX_HART as int) == hart,
{
}

/// The stacks of two harts do not overlap.
pub proof fn law_stacks_apart(base: u64, a: int, b: int)
    requires
        0 <= a < b < MAX_HART,
    ensures
        stack_top(base, a) <= stack_top(base, b) - STACK,
{
}

} // verus!
