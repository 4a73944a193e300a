//! Tasks, and the round they run in.
use vstd::prelude::*;

verus! {

pub const STACK_SIZE: u32 = 4096;

pub const MAX_TASKS: usize = 3;

/// Machine mode, interrupts on now and after a return.
pub const START_STATUS: u32 = 0x1888;

#[derive(Clone, Copy, PartialEq, Eq, Debug)]
pub struct TrapFrame {
    pub regs: [u32; 32],
    pub mepc: u32,
    pub mstatus: u32,
}

#[derive(Clone, Copy)]
pub struct Task {
    pub frame: TrapFrame,
    pub name: &'static str,
    pub alive: bool,
    pub runs: u32,
}

pub struct Eos {
    pub tasks: [Task; MAX_TASKS],
    pub current: usize,
    pub ticks: u64,
    /// Count at which the timer interrupts next.
    pub next_at: u64,
    /// A fault is being reported.
    pub dumping: bool,
}

#[verifier::ext_equal]
pub struct EosV {
    pub tasks: Seq<Task>,
    pub current: usize,
    pub ticks: u64,
    pub next_at: u64,
    pub dumping: bool,
}

impl View for Eos {
    type V = EosV;

    open spec fn view(&self) -> EosV {
        EosV {
            tasks: self.tasks@,
            current: self.current,
            ticks: self.ticks,
            next_at: self.next_at,
            dumping: self.dumping,
        }
    }
}

/// A task that does not run.
pub open spec fn is_blank(t: Task) -> bool {
    &&& t.frame.regs@ == Seq::new(32, |i: int| 0u32)
    &&& t.frame.mepc == 0
    &&& t.frame.mstatus == 0
    &&& !t.alive
    &&& t.runs == 0
}

impl EosV {
    pub open spec fn wf(self) -> bool {
        self.tasks.len() == MAX_TASKS && self.current < MAX_TASKS
    }

    pub open spec fn with_task(self, i: int, t: Task) -> EosV {
        EosV { tasks: self.tasks.update(i, t), ..self }
    }
}

impl Eos {
    /// The shell and its two workers, none alive.
    pub fn new() -> (e: Eos)
        ensures
            e@.wf(),
            e@.tasks[0].name == "shell",
            e@.tasks[1].name == "blink",
            e@.tasks[2].name == "fib",
            forall|i: int| 0 <= i < MAX_TASKS ==> is_blank(#[trigger] e@.tasks[i]),
            e@.current == 0,
            e@.ticks == 0,
            e@.next_at == 0,
            !e@.dumping,
    {
        let f = TrapFrame { regs: [0; 32], mepc: 0, mstatus: 0 };
        let a = Task { frame: f, name: "shell", alive: false, runs: 0 };
        let b = Task { frame: f, name: "blink", alive: false, runs: 0 };
        let c = Task { frame: f, name: "fib", alive: false, runs: 0 };
        assert(f.regs@ =~= Seq::new(32, |i: int| 0u32));
        Eos { tasks: [a, b, c], current: 0, ticks: 0, next_at: 0, dumping: false }
    }
}

/// Top of a stack: the end of its area, aligned down to sixteen bytes.
pub open spec fn stack_top(base: u32) -> int {
    (base + STACK_SIZE) / 16 * 16
}


/// Makes a task ready.
pub fn task_init(e: &mut Eos, idx: usize, base: u32, entry: u32, on_exit: u32, name: &'static str)
    requires
        old(e)@.wf(),
        idx < MAX_TASKS,
        base + STACK_SIZE <= u32::MAX,
    ensures
        final(e)@.wf(),
        ({
            let t = final(e)@.tasks[idx as int];
            &&& t.frame.regs@ == old(e)@.tasks[idx as int].frame.regs@.update(0, 0).update(1, on_exit).update(
                2,
                stack_top(base) as u32,
            )
            &&& t.frame.mepc == entry
            &&& t.frame.mstatus == START_STATUS
            &&& t.name == name
            &&& t.alive
            &&& t.runs == 0
            &&& final(e)@ == old(e)@.with_task(idx as int, t)
        }),
{
    let mut f = e.tasks[idx].frame;
    f.regs[0] = 0;
    f.regs[1] = on_exit;
    f.regs[2] = (base + STACK_SIZE) / 16 * 16;
    f.mepc = entry;
    f.mstatus = START_STATUS;
    e.tasks[idx] = Task { frame: f, name, alive: true, runs: 0 };
    assert(e@ =~= old(e)@.with_task(idx as int, e@.tasks[idx as int]));
}

/// The task after the current one: the next alive in the round, the current
/// one last. Where none is alive, the next in the round all the same.
pub open spec fn next_task(t: Seq<Task>, cur: int) -> int {
    if t[(cur + 1) % 3].alive {
        (cur + 1) % 3
    } else if t[(cur + 2) % 3].alive {
        (cur + 2) % 3
    } else if t[cur].alive {
        cur
    } else {
        (cur + 1) % 3
    }
}

impl EosV {
    /// After a switch. A task that goes on is not counted again.
    pub open spec fn switched(self) -> EosV {
        let n = next_task(self.tasks, self.current as int);
        if n == self.current {
            self
        } else {
            EosV {
                current: n as usize,
                ..self.with_task(
                    n,
                    Task { runs: self.tasks[n].runs.wrapping_add(1), ..self.tasks[n] },
                )
            }
        }
    }
}

/// Switches to the next task.
pub fn schedule(e: &mut Eos)
    requires
        old(e)@.wf(),
    ensures
        final(e)@.wf(),
        final(e)@ == old(e)@.switched(),
{
    let cur: usize = e.current;
    let mut nxt: usize = (cur + 1) % 3;
    let mut tries: usize = 0;
    while tries < MAX_TASKS && !e.tasks[nxt].alive
        invariant
            *e == *old(e),
            e@.wf(),
            cur == e@.current,
            tries <= MAX_TASKS,
            nxt == (cur + 1 + tries) % 3,
            forall|k: int|
                1 <= k <= tries ==> !(#[trigger] e@.tasks[(cur + k) % 3]).alive,
        decreases MAX_TASKS - tries,
    {
        assert(!e@.tasks[(cur + (tries + 1)) % 3].alive);
        nxt = (nxt + 1) % 3;
        tries += 1;
    }
    proof {
        if tries >= 1 {
            assert(!e@.tasks[(cur + 1) % 3].alive);
        }
        if tries >= 2 {
            assert(!e@.tasks[(cur + 2) % 3].alive);
        }
        if tries >= 3 {
            assert(!e@.tasks[(cur + 3) % 3].alive);
            assert((cur + 3) % 3 == cur);
        }
    }
    assert(nxt == next_task(e@.tasks, cur as int));
    if nxt == cur {
        return;
    }
    let t = e.tasks[nxt];
    e.tasks[nxt] = Task { runs: t.runs.wrapping_add(1), ..t };
    e.current = nxt;
    assert(e@ =~= old(e)@.switched());
}

/// No task starves: a task that is alive runs within three switches.
pub proof fn law_round_robin(e: EosV, i: int)
    requires
        e.wf(),
        0 <= i < MAX_TASKS,
        e.tasks[i].alive,
    ensures
        e.current == i || e.switched().current == i || e.switched().switched().current == i,
{
    let n = next_task(e.tasks, e.current as int);
    let f = e.switched();
    assert(f.tasks[i].alive);
    assert forall|k: int| 0 <= k < 3 implies (#[trigger] f.tasks[k]).alive == e.tasks[k].alive by {}
    assert(f.tasks[(n + 1) % 3].alive == e.tasks[(n + 1) % 3].alive);
    assert(f.tasks[(n + 2) % 3].alive == e.tasks[(n + 2) % 3].alive);
}

/// A switch leads to a task that is alive whenever there is one.
pub proof fn law_switch_to_live(e: EosV, i: int)
    requires
        e.wf(),
        0 <= i < MAX_TASKS,
        e.tasks[i].alive,
    ensures
        e.switched().wf(),
        e.switched().tasks[e.switched().current as int].alive,
{
}

} // verus!
