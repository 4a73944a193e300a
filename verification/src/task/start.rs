//! Starting up: the first process, and what a hart with nothing to run does.
use crate::mem::frame;
use crate::mem::frame::{Mem, MemV};
use crate::mem::kernel;
use crate::mem::pagetable as pt;
use crate::task::elf;
use crate::task::image;
use crate::task::laws;
use crate::task::proc;
use crate::task::state;
use crate::task::sched;
use crate::task::sched::Next;
use crate::task::state::{Proc, Sched, SchedV, MAX_HART};
use crate::trap::frame as tf;
use crate::trap::frame::STACK;
use vstd::prelude::*;

verus! {

/// Status a hart idles with: it stays in supervisor mode, and interrupts are
/// on once it is there.
pub const IDLE_SSTATUS: u64 = 0x120;

// ---- idle harts ----

/// Saved registers a hart idles with: it runs the idle loop on its trap stack.
pub open spec fn idle_words(base: u64, h: int, idle_loop: u64) -> Seq<u64> {
    let top = tf::stack_top(base, h) as u64;
    proc::start_words(frame::zero_frame(), top, idle_loop, top).update(32, IDLE_SSTATUS)
}

/// Memory with a frame of saved registers for each of the first `h` harts.
pub open spec fn idled(m: MemV, base: u64, idle_loop: u64, h: int) -> MemV
    decreases h,
{
    if h <= 0 {
        m
    } else {
        let p = idled(m, base, idle_loop, h - 1);
        image::with_frame(p.grab(0), p.fa.next_frame(), idle_words(base, h - 1, idle_loop))
    }
}

/// A frame more is taken and filled.
proof fn lemma_idled_step(m: MemV, base: u64, idle_loop: u64, h: int)
    requires
        m.wf(),
        m.fa.can_alloc(0),
    ensures
        ({
            let t = m.fa.next_frame();
            let n = image::with_frame(m.grab(0), t, idle_words(base, h, idle_loop));
            &&& n.wf()
            &&& n.fa.room(0) == m.fa.room(0) - 1
            &&& kernel::keeps_live(m, n)
            &&& n.live(t)
            &&& m.free(t)
            &&& n.ram[frame::fi(t)] == idle_words(base, h, idle_loop)
            &&& m.grab(0).ram[frame::fi(t)] == frame::zero_frame()
        }),
{
    let t = m.fa.next_frame();
    let g = m.grab(0);
    let n = image::with_frame(g, t, idle_words(base, h, idle_loop));
    frame::law_alloc(m, 0);
    frame::lemma_room(m, 0);
    pt::lemma_fi_inj(t, t);
    assert forall|i: int| 0 <= i < n.fa.recycled.len() implies n.ram[frame::fi(#[trigger] n.fa.recycled[i])]
        == frame::zero_frame() by {
        let r = n.fa.recycled[i];
        assert(g.fa.recycled.contains(r));
        assert(g.free(r));
        pt::lemma_fi_inj(r, t);
    }
    assert forall|p: u64| frame::in_ram(p) && !m.free(p) implies #[trigger] n.ram[frame::fi(p)]
        == m.ram[frame::fi(p)] && !n.free(p) by {
        pt::lemma_fi_inj(p, t);
        assert(g.free(p) ==> m.free(p));
    }
}

/// Makes a frame of saved registers for every hart to idle with, charged to
/// the root group. The trap stacks start at `base`.
pub fn idle_init(m: &mut Mem, base: u64, idle_loop: u64) -> (r: [u64; MAX_HART])
    requires
        old(m)@.wf(),
        old(m)@.fa.room(0) >= MAX_HART,
        base + MAX_HART * STACK <= u64::MAX,
    ensures
        final(m)@.wf(),
        final(m)@ == idled(old(m)@, base, idle_loop, MAX_HART as int),
        forall|h: int|
            0 <= h < MAX_HART ==> #[trigger] r@[h] == idled(old(m)@, base, idle_loop, h).fa.next_frame(),
        forall|h: int|
            0 <= h < MAX_HART ==> final(m)@.live(#[trigger] r@[h]) && old(m)@.free(r@[h])
                && final(m)@.ram[frame::fi(r@[h])] == idle_words(base, h, idle_loop),
        forall|h: int, k: int| 0 <= h < k < MAX_HART ==> #[trigger] r@[h] != #[trigger] r@[k],
        kernel::keeps_live(old(m)@, final(m)@),
        final(m)@.fa.room(0) == old(m)@.fa.room(0) - MAX_HART,
{
    let ghost m0 = m@;
    let mut r: [u64; MAX_HART] = [0; MAX_HART];
    let mut h: usize = 0;
    while h < MAX_HART
        invariant
            m0 == old(m)@,
            h <= MAX_HART,
            m@.wf(),
            m@ == idled(m0, base, idle_loop, h as int),
            m@.fa.room(0) == m0.fa.room(0) - h,
            m0.fa.room(0) >= MAX_HART,
            base + MAX_HART * STACK <= u64::MAX,
            forall|k: int| 0 <= k < h ==> #[trigger] r@[k] == idled(m0, base, idle_loop, k).fa.next_frame(),
            forall|k: int|
                0 <= k < h ==> m@.live(#[trigger] r@[k]) && m0.free(r@[k]) && m@.ram[frame::fi(r@[k])]
                    == idle_words(base, k, idle_loop),
            forall|k: int, j: int| 0 <= k < j < h ==> #[trigger] r@[k] != #[trigger] r@[j],
            kernel::keeps_live(m0, m@),
        decreases MAX_HART - h,
    {
        let ghost m1 = m@;
        let ghost r1 = r@;
        proof {
            frame::lemma_room(m1, 0);
            lemma_idled_step(m1, base, idle_loop, h as int);
            frame::law_alloc(m1, 0);
        }
        let t = match frame::alloc_frame_cg(m, 0) {
            Some(t) => t,
            None => 0,
        };
        let top = tf::trap_stack_top_hart(base, h as u64);
        proc::start_frame(m, t, top, idle_loop, top);
        let ghost m2 = m@;
        pt::wr_word(m, t, 32, IDLE_SSTATUS);
        r[h] = t;
        proof {
            pt::lemma_fi_inj(t, t);
            assert(m@.ram =~= image::with_frame(m1.grab(0), t, idle_words(base, h as int, idle_loop)).ram);
            assert(!m0.free(t) ==> !m1.free(t));
            assert forall|k: int| 0 <= k < h implies m@.live(#[trigger] r@[k]) && m0.free(r@[k])
                && m@.ram[frame::fi(r@[k])] == idle_words(base, k, idle_loop) by {
                assert(r@[k] == r1[k]);
                assert(m1.live(r1[k]));
                assert(m@.ram[frame::fi(r1[k])] == m1.ram[frame::fi(r1[k])]);
            }
            assert forall|k: int, j: int| 0 <= k < j < h + 1 implies #[trigger] r@[k] != #[trigger] r@[j] by {
                assert(m1.live(r1[k]));
            }
            assert forall|p: u64| frame::in_ram(p) && !m0.free(p) implies #[trigger] m@.ram[frame::fi(p)]
                == m0.ram[frame::fi(p)] && !m@.free(p) by {
                assert(m1.ram[frame::fi(p)] == m0.ram[frame::fi(p)]);
            }
        }
        h += 1;
    }
    r
}

// ---- the first process ----

/// The table before there is a process.
pub open spec fn blank() -> SchedV {
    SchedV {
        procs: Seq::empty(),
        queues: Seq::new(MAX_HART as nat, |h: int| Seq::<usize>::empty()),
        current: Seq::new(MAX_HART as nat, |h: int| 0usize),
        next_pid: 1,
        yield_flag: Seq::new(MAX_HART as nat, |h: int| false),
        idle: Seq::new(MAX_HART as nat, |h: int| false),
        ns: seq![state::Ns { parent: 0, next: 1 }],
        cg: seq![state::Cg { parent: 0 }],
        cpu: Seq::new(
            state::MAX_CG as nat,
            |i: int| state::CpuUse { ticks: 0, cap: 0, win: 0, win_use: 0 },
        ),
        steals: 0,
        reaped: Seq::empty(),
        fg_pid: 0,
        active: false,
    }
}

pub open spec fn init_name() -> Seq<u8> {
    seq![0x69u8, 0x6eu8, 0x69u8, 0x74u8]
}

/// Makes the table and starts the first process, `init`, in it. Its id is
/// returned: 1, or none when the file is no executable or a frame cannot be
/// had. The scheduler is active then.
pub fn init(m: &mut Mem, kroot: u64, elf_bytes: &[u8], h: usize, ksp: u64, now: u64) -> (r: (Sched, Option<usize>))
    requires
        proc::mem_ok(blank(), old(m)@, kroot),
        h < MAX_HART,
        elf::elf_ok(elf_bytes@) ==> proc::loadable(elf_bytes@),
    ensures
        r.0@.wf(),
        r.0@.active,
        proc::mem_ok(r.0@, final(m)@, kroot),
        kernel::keeps_live(old(m)@, final(m)@),
        r.1 is Some <==> elf::elf_ok(elf_bytes@) && image::space_cost(old(m)@, kroot) + proc::load_cost(
            old(m)@,
            kroot,
            elf_bytes@,
        ) <= old(m)@.fa.room(0),
        r.1 is None ==> r.0@ == if image::space_cost(old(m)@, kroot) <= old(m)@.fa.room(0) {
            (SchedV { active: true, ..blank().reserved() })
        } else {
            (SchedV { active: true, ..blank() })
        },
        r.1 is None ==> image::given_back(old(m)@, final(m)@),
        r.1 matches Some(pid) ==> {
            let c = r.0@.procs[pid as int]->0;
            &&& pid == 1
            &&& r.0@ == (SchedV {
                active: true,
                ..blank().reserved().spawned(
                    1,
                    0,
                    c.root,
                    c.tf_pa,
                    init_name(),
                    proc::start_brk(elf_bytes@),
                    h as int,
                    now,
                )
            })
            &&& proc::started(
                final(m)@,
                c.root,
                c.tf_pa,
                frame::zero_frame(),
                elf_bytes@,
                Seq::empty(),
                Seq::empty(),
                ksp,
            )
        },
{
    let mut s = Sched::new();
    assert(s@ =~= blank());
    let name: [u8; 4] = [0x69, 0x6e, 0x69, 0x74];
    assert(name@ =~= init_name());
    let pid = proc::spawn_from_elf(&mut s, m, kroot, name.as_slice(), elf_bytes, 0, h, ksp, now);
    let ghost s1 = s@;
    s.active = true;
    proof {
        assert(s@ =~= SchedV { active: true, ..s1 });
        assert forall|i: int| #[trigger] proc::held(s@, i) == proc::held(s1, i) by {}
        proc::lemma_mem_same(s1, s@, m@, kroot);
    }
    (s, pid)
}

/// The process a hart runs, if it runs one.
pub fn with_current(s: &Sched, h: usize) -> (r: Option<&Proc>)
    requires
        s@.wf(),
        h < MAX_HART,
    ensures
        match r {
            Some(p) => s@.proc(s@.current[h as int] as int) == Some(p@),
            None => s@.proc(s@.current[h as int] as int) is None,
        },
{
    let pid: usize = s.current[h];
    if pid >= s.procs.len() {
        return None;
    }
    assert(s@.procs[pid as int] == state::opt_proc(s.procs@[pid as int]));
    match &s.procs[pid] {
        Some(p) => Some(p),
        None => None,
    }
}

/// The same, to change it.
pub fn with_current_mut(s: &mut Sched, h: usize) -> (r: Option<&mut Proc>)
    requires
        old(s)@.wf(),
        h < MAX_HART,
    ensures
        match r {
            Some(p) => {
                &&& old(s)@.proc(old(s)@.current[h as int] as int) == Some(p@)
                &&& final(s)@ == old(s)@.with_proc(old(s)@.current[h as int] as int, final(p)@)
            },
            None => old(s)@.proc(old(s)@.current[h as int] as int) is None && final(s)@ == old(s)@,
        },
{
    let pid: usize = s.current[h];
    if pid >= s.procs.len() {
        return None;
    }
    assert(s@.procs[pid as int] == state::opt_proc(s.procs@[pid as int]));
    match &mut s.procs[pid] {
        Some(p) => Some(p),
        None => None,
    }
}

/// First entry of the asking hart into user mode.
pub fn run(s: &mut Sched, hartid: usize, now: u64) -> (n: Option<Next>)
    ensures
        ({
            let h = (hartid % MAX_HART) as int;
            let (t, r) = old(s)@.pick(h, now);
            match r {
                Some(pid) => final(s)@ == t.running(h, pid) && n == Some(t.enter(pid)),
                None => final(s)@ == t && n is None,
            }
        }),
{
    sched::run_on(s, hartid % MAX_HART, now)
}

/// The table that the first process is started in is in order: that process
/// waits in one queue, and no hart has any.
pub proof fn law_start_in_order(root: u64, tf_pa: u64, brk: u64, h: int, now: u64)
    requires
        0 <= h < MAX_HART,
    ensures
        laws::in_order(
            SchedV {
                active: true,
                ..blank().reserved().spawned(1, 0, root, tf_pa, init_name(), brk, h, now)
            },
        ),
{
    let s = SchedV {
        active: true,
        ..blank().reserved().spawned(1, 0, root, tf_pa, init_name(), brk, h, now)
    };
    assert(s.wf());
    assert forall|x: usize| #[trigger] laws::total(s, x) == if x == 1 {
        1nat
    } else {
        0
    } by {
        assert(s.queues[h] =~= seq![1usize]);
        assert(s.queues[h].drop_last() =~= Seq::<usize>::empty());
        reveal_with_fuel(laws::occ, 2);
        assert forall|k: int| 0 <= k < MAX_HART && k != h implies s.queues[k] == Seq::<usize>::empty() by {}
        assert(laws::occ(s.queues[h], x) == if x == 1 {
            1nat
        } else {
            0
        });
    }
    assert(!s.is_current(1));
    assert forall|i: int| (#[trigger] s.proc(i)) is Some implies i == 1 by {}
}

} // verus!
