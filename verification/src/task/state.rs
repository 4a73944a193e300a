//! The process table and the scheduler's state.
use std::collections::VecDeque;
use vstd::prelude::*;

verus! {

pub const MAX_HART: usize = 4;

pub const USER_STACK_TOP: u64 = 0x7000_0000;

pub const USER_STACK_PAGES: u64 = 8;

pub const TRAPFRAME_VA: u64 = 0x7fff_e000;

/// Open files per process.
pub const NFD: usize = 16;

/// Exit codes remembered after their process is reaped.
pub const REAPLOG: usize = 32;

/// Groups with processor accounting.
pub const MAX_CG: usize = 256;

#[derive(Clone, Copy, PartialEq, Eq, Structural, Debug)]
pub enum State {
    Runnable,
    Running,
    Blocked,
    Zombie,
}

// ---- what a blocked process waits for ----

pub const BLOCK_STDIN: u8 = 1;

pub const BLOCK_SLEEP: u8 = 2;

pub const BLOCK_VIRTIO: u8 = 3;

/// Woken by network reception only, not by the clock.
pub const BLOCK_NET: u8 = 4;

/// Woken by the exit of a child.
pub const BLOCK_WAIT: u8 = 5;

/// One entry of a process's descriptor table.
#[derive(Clone, Copy, PartialEq, Eq, Structural, Debug)]
pub struct Fd {
    /// 0 empty, 1 stdin, 2 stdout, 3 stderr, 4 file, 5 pipe read end,
    /// 6 pipe write end.
    pub kind: u8,
    pub id: i32,
    pub off: u64,
    /// File identity for files.
    pub path: u64,
    pub cloexec: bool,
}

pub struct Proc {
    pub pid: usize,
    pub parent: usize,
    pub state: State,
    pub exit_code: i32,
    /// Root of the page table.
    pub root: u64,
    /// Frame of the saved registers.
    pub tf_pa: u64,
    pub brk: u64,
    pub fds: [Fd; NFD],
    pub children: Vec<usize>,
    pub name: Vec<u8>,
    pub killed: bool,
    pub kill_code: i32,
    pub blocked_on: u8,
    pub wake_at: u64,
    pub cwd: Vec<u8>,
    /// File-system root the process is confined to.
    pub fsroot: Vec<u8>,
    /// Anonymous mappings grow down from here.
    pub mmap_base: u64,
    /// The break never shrinks below this.
    pub brk_min: u64,
    pub traced: bool,
    /// Group the process is charged to.
    pub cg: usize,
    /// Process-id namespace; 0 is the root.
    pub ns: usize,
    /// Id within the namespace.
    pub lpid: usize,
    /// The next forked child founds a namespace.
    pub pending_ns: bool,
    /// Tick of creation.
    pub start_ms: u64,
}

#[verifier::ext_equal]
pub struct ProcV {
    pub pid: usize,
    pub parent: usize,
    pub state: State,
    pub exit_code: i32,
    pub root: u64,
    pub tf_pa: u64,
    pub brk: u64,
    pub fds: Seq<Fd>,
    pub children: Seq<usize>,
    pub name: Seq<u8>,
    pub killed: bool,
    pub kill_code: i32,
    pub blocked_on: u8,
    pub wake_at: u64,
    pub cwd: Seq<u8>,
    pub fsroot: Seq<u8>,
    pub mmap_base: u64,
    pub brk_min: u64,
    pub traced: bool,
    pub cg: usize,
    pub ns: usize,
    pub lpid: usize,
    pub pending_ns: bool,
    pub start_ms: u64,
}

impl View for Proc {
    type V = ProcV;

    open spec fn view(&self) -> ProcV {
        ProcV {
            pid: self.pid,
            parent: self.parent,
            state: self.state,
            exit_code: self.exit_code,
            root: self.root,
            tf_pa: self.tf_pa,
            brk: self.brk,
            fds: self.fds@,
            children: self.children@,
            name: self.name@,
            killed: self.killed,
            kill_code: self.kill_code,
            blocked_on: self.blocked_on,
            wake_at: self.wake_at,
            cwd: self.cwd@,
            fsroot: self.fsroot@,
            mmap_base: self.mmap_base,
            brk_min: self.brk_min,
            traced: self.traced,
            cg: self.cg,
            ns: self.ns,
            lpid: self.lpid,
            pending_ns: self.pending_ns,
            start_ms: self.start_ms,
        }
    }
}

/// A process-id namespace: where it came from, and the next local id.
#[derive(Clone, Copy, PartialEq, Eq, Structural, Debug)]
pub struct Ns {
    pub parent: usize,
    pub next: usize,
}

/// A group: the group its creator was in.
#[derive(Clone, Copy, PartialEq, Eq, Structural, Debug)]
pub struct Cg {
    pub parent: usize,
}

/// Processor accounting of a group: ticks in all, cap in percent plus one
/// (0 = none), and the ticks used in the window of a hundred it last ran in.
#[derive(Clone, Copy, PartialEq, Eq, Structural, Debug)]
pub struct CpuUse {
    pub ticks: u64,
    pub cap: u64,
    pub win: u64,
    pub win_use: u64,
}

pub struct Sched {
    pub procs: Vec<Option<Proc>>,
    pub queues: [VecDeque<usize>; MAX_HART],
    /// Process each hart runs; 0 is none.
    pub current: [usize; MAX_HART],
    pub next_pid: usize,
    pub yield_flag: [bool; MAX_HART],
    /// The hart sleeps until an interrupt.
    pub idle: [bool; MAX_HART],
    pub ns: Vec<Ns>,
    pub cg: Vec<Cg>,
    pub cpu: [CpuUse; MAX_CG],
    /// Tasks taken from another hart's queue.
    pub steals: u64,
    /// Exit codes of reaped processes, oldest first.
    pub reaped: VecDeque<(usize, i32)>,
    /// Process that the interrupt key goes to; 0 is none.
    pub fg_pid: usize,
    pub active: bool,
}

#[verifier::ext_equal]
pub struct SchedV {
    pub procs: Seq<Option<ProcV>>,
    pub queues: Seq<Seq<usize>>,
    pub current: Seq<usize>,
    pub next_pid: usize,
    pub yield_flag: Seq<bool>,
    pub idle: Seq<bool>,
    pub ns: Seq<Ns>,
    pub cg: Seq<Cg>,
    pub cpu: Seq<CpuUse>,
    pub steals: u64,
    pub reaped: Seq<(usize, i32)>,
    pub fg_pid: usize,
    pub active: bool,
}

pub open spec fn opt_proc(p: Option<Proc>) -> Option<ProcV> {
    match p {
        Some(q) => Some(q@),
        None => None,
    }
}

impl View for Sched {
    type V = SchedV;

    open spec fn view(&self) -> SchedV {
        SchedV {
            procs: Seq::new(self.procs@.len(), |i: int| opt_proc(self.procs@[i])),
            queues: Seq::new(MAX_HART as nat, |h: int| self.queues@[h]@),
            current: self.current@,
            next_pid: self.next_pid,
            yield_flag: self.yield_flag@,
            idle: self.idle@,
            ns: self.ns@,
            cg: self.cg@,
            cpu: self.cpu@,
            steals: self.steals,
            reaped: self.reaped@,
            fg_pid: self.fg_pid,
            active: self.active,
        }
    }
}

impl SchedV {
    /// The process with this id, if there is one.
    pub open spec fn proc(self, pid: int) -> Option<ProcV> {
        if 0 <= pid < self.procs.len() {
            self.procs[pid]
        } else {
            None
        }
    }

    pub open spec fn with_proc(self, pid: int, p: ProcV) -> SchedV {
        SchedV { procs: self.procs.update(pid, Some(p)), ..self }
    }

    pub open spec fn with_queue(self, h: int, q: Seq<usize>) -> SchedV {
        SchedV { queues: self.queues.update(h, q), ..self }
    }

    pub open spec fn wf(self) -> bool {
        &&& self.queues.len() == MAX_HART
        &&& self.current.len() == MAX_HART
        &&& self.yield_flag.len() == MAX_HART
        &&& self.idle.len() == MAX_HART
        &&& self.cpu.len() == MAX_CG
        &&& self.reaped.len() <= REAPLOG
        &&& self.ns.len() >= 1
        &&& 1 <= self.cg.len() <= MAX_CG
        &&& 1 <= self.next_pid
        &&& self.procs.len() <= self.next_pid
        &&& forall|i: int|
            0 <= i < self.procs.len() ==> match #[trigger] self.procs[i] {
                Some(p) => p.fds.len() == NFD && p.pid == i && p.ns < self.ns.len(),
                None => true,
            }
    }
}

impl Sched {
    /// An empty table with the root namespace and the root group.
    pub fn new() -> (s: Sched)
        ensures
            s@.wf(),
            s@ == (SchedV {
                procs: Seq::empty(),
                queues: Seq::new(MAX_HART as nat, |h: int| Seq::<usize>::empty()),
                current: Seq::new(MAX_HART as nat, |h: int| 0usize),
                next_pid: 1,
                yield_flag: Seq::new(MAX_HART as nat, |h: int| false),
                idle: Seq::new(MAX_HART as nat, |h: int| false),
                ns: seq![Ns { parent: 0, next: 1 }],
                cg: seq![Cg { parent: 0 }],
                cpu: Seq::new(
                    MAX_CG as nat,
                    |i: int| CpuUse { ticks: 0, cap: 0, win: 0, win_use: 0 },
                ),
                steals: 0,
                reaped: Seq::empty(),
                fg_pid: 0,
                active: false,
            }),
    {
        let mut ns: Vec<Ns> = Vec::new();
        ns.push(Ns { parent: 0, next: 1 });
        let mut cg: Vec<Cg> = Vec::new();
        cg.push(Cg { parent: 0 });
        let s = Sched {
            procs: Vec::new(),
            queues: [VecDeque::new(), VecDeque::new(), VecDeque::new(), VecDeque::new()],
            current: [0; MAX_HART],
            next_pid: 1,
            yield_flag: [false; MAX_HART],
            idle: [false; MAX_HART],
            ns,
            cg,
            cpu: [CpuUse { ticks: 0, cap: 0, win: 0, win_use: 0 }; MAX_CG],
            steals: 0,
            reaped: VecDeque::new(),
            fg_pid: 0,
            active: false,
        };
        proof {
            assert(s@.procs =~= Seq::empty());
            assert(s@.queues =~= Seq::new(MAX_HART as nat, |h: int| Seq::<usize>::empty()));
            assert(s@.current =~= Seq::new(MAX_HART as nat, |h: int| 0usize));
            assert(s@.yield_flag =~= Seq::new(MAX_HART as nat, |h: int| false));
            assert(s@.idle =~= Seq::new(MAX_HART as nat, |h: int| false));
            assert(s@.ns =~= seq![Ns { parent: 0, next: 1 }]);
            assert(s@.cg =~= seq![Cg { parent: 0 }]);
            assert(s@.cpu =~= Seq::new(
                MAX_CG as nat,
                |i: int| CpuUse { ticks: 0, cap: 0, win: 0, win_use: 0 },
            ));
        }
        s
    }
}

} // verus!
