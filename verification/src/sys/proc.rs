//! Calls on processes.
use crate::fs::vfs;
use crate::fs::vfs::{Fs, FsV};
use crate::mem::frame;
use crate::mem::frame::{Mem, MemV, PAGE_SIZE};
use crate::mem::kernel;
use crate::mem::pagetable as pt;
use crate::mem::space;
use crate::mem::space::VA_END;
use crate::sys::fd;
use crate::task::args;
use crate::task::elf;
use crate::task::image;
use crate::task::life;
use crate::task::proc;
use crate::task::state;
use crate::task::state::{ProcV, Sched, SchedV, MAX_HART};
use crate::task::wait;
use crate::task::wait::TRY_AGAIN;
use vstd::prelude::*;

verus! {

/// Kills a process: 0, or -1 where there is no such live process.
pub fn sys_kill(s: &mut Sched, h: usize, pid: usize) -> (r: i64)
    requires
        h < MAX_HART,
    ensures
        ({
            let (t, ok) = old(s)@.kill_with(
                old(s)@.target(h as int, pid) as int,
                life::KILLED,
                h as int,
            );
            final(s)@ == t && r == if ok {
                0int
            } else {
                -1
            }
        }),
{
    if life::kill(s, h, pid) {
        0
    } else {
        -1
    }
}

/// What a wait answers: a child's number and its code; -1 when there is no
/// child, -2 when the caller should ask again.
pub open spec fn wait_answer(c: i32) -> int {
    if c == TRY_AGAIN {
        -2
    } else if c < 0 {
        -1
    } else {
        c as int
    }
}

/// What a wait for any child does: the answer and a code. A child that ended
/// is reaped and its memory is free; without one the caller waits, or learns
/// that there is none.
pub open spec fn wait_done(s0: SchedV, m0: MemV, s: SchedV, m: MemV, h: int, v: i64, code: i32) -> bool {
    match s0.running_on(h) {
        None => v == -1 && code == 0 && s == s0 && m == m0,
        Some(p) => match s0.ended(p.ns, wait::ANY_CHILD, p.children, 0) {
            Some(c) => {
                let q = s0.procs[c as int]->0;
                &&& v == wait_answer(c as i32)
                &&& code == q.exit_code
                &&& s == s0.reap(s0.current[h] as int, c)
                &&& forall|t: u64| #[trigger]
                    m.free(t) <==> m0.free(t) || space::owns(m0, q.root, t) || t == q.tf_pa
                &&& forall|t: u64|
                    frame::in_ram(t) && !m.free(t) ==> #[trigger] m.ram[frame::fi(t)] == m0.ram[frame::fi(t)]
            },
            None => {
                &&& m == m0
                &&& code == 0
                &&& if !s0.awaited(p.ns, wait::ANY_CHILD, p.children) {
                    v == -1 && s == s0
                } else {
                    v == -2 && s == (SchedV {
                        yield_flag: s0.yield_flag.update(h, true),
                        ..s0.waiting(h)
                    })
                }
            },
        },
    }
}

/// Waits for any child of the hart's process. The code goes to the caller if
/// the answer is a child.
pub fn sys_wait(s: &mut Sched, m: &mut Mem, kroot: u64, h: usize) -> (r: (i64, i32))
    requires
        old(s)@.wf(),
        proc::mem_ok(old(s)@, old(m)@, kroot),
        h < MAX_HART,
    ensures
        final(s)@.wf(),
        proc::mem_ok(final(s)@, final(m)@, kroot),
        wait_done(old(s)@, old(m)@, final(s)@, final(m)@, h as int, r.0, r.1),
{
    let pid = life::current_pid(s, h);
    let (c, code) = wait::wait(s, m, kroot, pid, h);
    if c == TRY_AGAIN {
        return (-2, code);
    }
    if c < 0 {
        return (-1, code);
    }
    (c as i64, code)
}

/// Forks the hart's process; `usize::MAX` when there is no room.
pub fn sys_fork(s: &mut Sched, m: &mut Mem, kroot: u64, h: usize, now: u64) -> (child: usize)
    requires
        old(s)@.wf(),
        proc::mem_ok(old(s)@, old(m)@, kroot),
        h < MAX_HART,
        fd::busy(old(s)@, h as int),
        old(s)@.next_pid < usize::MAX,
        forall|i: int| 0 <= i < old(s)@.ns.len() ==> (#[trigger] old(s)@.ns[i]).next < usize::MAX,
    ensures
        final(s)@.wf(),
        proc::mem_ok(final(s)@, final(m)@, kroot),
        proc::fork_done(
            old(s)@,
            old(m)@,
            final(s)@,
            final(m)@,
            kroot,
            old(s)@.current[h as int],
            h as int,
            now,
            child,
        ),
{
    let pid = life::current_pid(s, h);
    proc::fork(s, m, kroot, pid, h, now)
}

/// What replacing a program does: 0 and the new program is in memory, or -1
/// and the table is as it was. It succeeds where there is a file, it is a
/// program, and there is room.
pub open spec fn exec_answer(
    s0: SchedV,
    m0: MemV,
    s: SchedV,
    m: MemV,
    kroot: u64,
    h: int,
    file: Option<Seq<u8>>,
    av: Seq<Seq<u8>>,
    env: Seq<Seq<u8>>,
    ksp: u64,
    r: int,
) -> bool {
    &&& r == 0 || r == -1
    &&& r == -1 ==> s == s0 && image::given_back(m0, m)
    &&& r == -1 && !(file is Some && elf::elf_ok(file->0)) ==> m == m0
    &&& r == 0 ==> file is Some && proc::exec_done(s0, m0, s, m, s0.current[h], file->0, av, env, ksp)
    &&& r == 0 <==> file is Some && elf::elf_ok(file->0) && fd::busy(s0, h) && image::bare_cost(m0, kroot)
        + proc::load_cost(m0, kroot, file->0) <= m0.fa.room(s0.charged(h))
}

/// The file at a path.
pub open spec fn file_of(fs: FsV, path: Option<Seq<u8>>) -> Option<Seq<u8>> {
    match path {
        Some(p) => fs.whole(p),
        None => None,
    }
}

pub open spec fn opt_bytes(p: Option<&[u8]>) -> Option<Seq<u8>> {
    match p {
        Some(v) => Some(v@),
        None => None,
    }
}

/// Replaces the program of the hart's process: 0, or -1 where there is no
/// such file, it is no program, or there is no room.
pub fn sys_exec(
    s: &mut Sched,
    m: &mut Mem,
    fs: &mut Fs,
    kroot: u64,
    h: usize,
    path: Option<&[u8]>,
    av: &Vec<Vec<u8>>,
    env: &Vec<Vec<u8>>,
    ksp: u64,
) -> (r: i64)
    requires
        old(s)@.wf(),
        proc::mem_ok(old(s)@, old(m)@, kroot),
        old(fs).wf(),
        h < MAX_HART,
        file_of(old(fs)@, opt_bytes(path)) matches Some(d) ==> elf::elf_ok(d) ==> proc::loadable(d),
    ensures
        final(s)@.wf(),
        proc::mem_ok(final(s)@, final(m)@, kroot),
        final(fs).wf(),
        final(fs)@ == old(fs)@,
        exec_answer(
            old(s)@,
            old(m)@,
            final(s)@,
            final(m)@,
            kroot,
            h as int,
            file_of(old(fs)@, opt_bytes(path)),
            args::strs_of(av@),
            args::strs_of(env@),
            ksp,
            r as int,
        ),
{
    let p = match path {
        Some(p) => p,
        None => {
            return -1;
        },
    };
    let d = match vfs::read_file(fs, p) {
        Some(d) => d,
        None => {
            return -1;
        },
    };
    let pid = life::current_pid(s, h);
    if proc::exec(s, m, kroot, pid, d.as_slice(), av, env, h, ksp) {
        0
    } else {
        -1
    }
}

// ---- the break ----

/// A space that grew into free frames leaves the rest of memory in order.
pub proof fn lemma_mem_grown(s: SchedV, m: MemV, n: MemV, kroot: u64, c: int)
    requires
        proc::mem_ok(s, m, kroot),
        proc::held(s, c) is Some,
        n.wf(),
        space::space_wf(n, (proc::held(s, c)->0).0),
        space::space_only(m, n, (proc::held(s, c)->0).0),
        image::seated(n, (proc::held(s, c)->0).0, (proc::held(s, c)->0).1),
    ensures
        proc::mem_ok(s, n, kroot),
{
    let h = proc::held(s, c)->0;
    assert(proc::one_ok(m, kroot, h));
    lemma_apart_kept(m, n, kroot, h.0);
    assert forall|u: u64| u < VA_END && u % PAGE_SIZE == 0 implies #[trigger] pt::leaf_at(n, kroot, u)
        == kernel::kernel_leaf(u) by {
        assert(pt::leaf_at(m, kroot, u) == kernel::kernel_leaf(u));
        pt::lemma_vpn_bound(u, 2);
        pt::lemma_vpn_bound(u, 1);
        pt::lemma_vpn_bound(u, 0);
    }
    assert forall|i: int| (#[trigger] proc::held(s, i)) is Some implies proc::one_ok(
        n,
        kroot,
        proc::held(s, i)->0,
    ) by {
        let g = proc::held(s, i)->0;
        assert(proc::one_ok(m, kroot, g));
        if i != c {
            assert(proc::two_ok(m, h, g));
            lemma_apart_kept(m, n, g.0, h.0);
            image::lemma_seated_same(m, n, g.0, g.1);
            lemma_frame_kept(m, n, g.1, h.0);
            assert forall|t: u64| #[trigger] space::owns(n, g.0, t) implies !space::owns(n, kroot, t) by {
                assert(space::owns(m, g.0, t));
            }
        } else {
            lemma_frame_kept(m, n, h.1, h.0);
            assert forall|t: u64| #[trigger] space::owns(n, h.0, t) implies !space::owns(n, kroot, t) by {
                if space::owns(m, kroot, t) {
                    space::lemma_owned_live(m, kroot, t);
                    assert(space::owns(m, h.0, t));
                }
            }
        }
    }
    assert forall|i: int, j: int|
        i != j && (#[trigger] proc::held(s, i)) is Some && (#[trigger] proc::held(s, j)) is Some implies proc::two_ok(
        n,
        proc::held(s, i)->0,
        proc::held(s, j)->0,
    ) by {
        let a = proc::held(s, i)->0;
        let b = proc::held(s, j)->0;
        assert(proc::two_ok(m, a, b));
        assert(proc::two_ok(m, b, a));
        assert(proc::one_ok(m, kroot, a) && proc::one_ok(m, kroot, b));
        lemma_owned_after(s, m, n, c, i);
        lemma_owned_after(s, m, n, c, j);
        assert forall|t: u64| #[trigger] space::owns(n, a.0, t) implies !space::owns(n, b.0, t) by {
            if space::owns(n, b.0, t) {
                if space::owns(m, a.0, t) {
                    space::lemma_owned_live(m, a.0, t);
                }
                if space::owns(m, b.0, t) {
                    space::lemma_owned_live(m, b.0, t);
                }
            }
        }
        if space::owns(n, a.0, b.1) {
            assert(space::owns(m, a.0, b.1) || m.free(b.1));
        }
        if space::owns(n, b.0, a.1) {
            assert(space::owns(m, b.0, a.1) || m.free(a.1));
        }
    }
}

/// What a process's space holds after another's grew: what it held, and for
/// the one that grew frames that were free.
proof fn lemma_owned_after(s: SchedV, m: MemV, n: MemV, c: int, i: int)
    requires
        proc::held(s, c) is Some,
        proc::held(s, i) is Some,
        m.wf(),
        space::space_wf(m, (proc::held(s, i)->0).0),
        i != c ==> proc::two_ok(m, proc::held(s, c)->0, proc::held(s, i)->0),
        space::space_only(m, n, (proc::held(s, c)->0).0),
    ensures
        forall|t: u64| #[trigger]
            space::owns(n, (proc::held(s, i)->0).0, t) ==> space::owns(m, (proc::held(s, i)->0).0, t) || (i
                == c && m.free(t)),
{
    if i != c {
        lemma_apart_kept(m, n, (proc::held(s, i)->0).0, (proc::held(s, c)->0).0);
    }
}

proof fn lemma_apart_kept(m: MemV, n: MemV, other: u64, root: u64)
    requires
        m.wf(),
        space::space_wf(m, other),
        space::apart(m, root, other) || space::apart(m, other, root),
        space::space_only(m, n, root),
    ensures
        space::space_wf(n, other),
        pt::same_leaves(m, n, other),
        forall|t: u64| #[trigger] space::owns(n, other, t) == space::owns(m, other, t),
{
    assert forall|t: u64| #[trigger] space::owns(m, other, t) implies n.ram[frame::fi(t)] == m.ram[frame::fi(
        t,
    )] && !n.free(t) by {
        space::lemma_owned_live(m, other, t);
        assert(!space::owns(m, root, t));
        assert(frame::in_ram(t));
    }
    space::lemma_space_kept(m, n, other);
}

proof fn lemma_frame_kept(m: MemV, n: MemV, t: u64, root: u64)
    requires
        m.live(t),
        !space::owns(m, root, t),
        space::space_only(m, n, root),
    ensures
        n.live(t),
        !space::owns(n, root, t),
{
    assert(!n.free(t));
}

/// The range that a growth of the break takes can be mapped: it lies below
/// the end of user memory, and no page of the kernel is in it.
pub open spec fn can_grow(m: MemV, p: ProcV, inc: int) -> bool {
    &&& p.brk + inc <= VA_END
    &&& space::user_range(m, p.root, pt::page_down(p.brk), pt::span(p.brk, inc as u64))
}

/// What moving the break does: the old break is the answer, and nothing
/// happens for an increment that is not positive. Otherwise the pages it
/// passes become writable and read as zero, as far as there are frames.
pub open spec fn sbrk_done(s0: SchedV, m0: MemV, s: SchedV, m: MemV, h: int, inc: int, r: u64) -> bool {
    let p = s0.running_on(h)->0;
    &&& r == p.brk
    &&& inc <= 0 ==> s == s0 && m == m0
    &&& inc > 0 ==> {
        let start = pt::page_down(p.brk);
        let n = pt::span(p.brk, inc as u64);
        let cg = if s0.active {
            p.cg
        } else {
            0
        };
        &&& s == s0.with_proc(s0.current[h] as int, ProcV { brk: (p.brk + inc) as u64, ..p })
        &&& space::space_only(m0, m, p.root)
        &&& space::filled(m0, m, p.root, start, space::fits(m0, p.root, start, n, m0.fa.room(cg)))
        &&& space::filled_leaves(
            m0,
            m,
            p.root,
            start,
            space::fits(m0, p.root, start, n, m0.fa.room(cg)),
            pt::PTE_R | pt::PTE_W,
        )
    }
}

/// Moves the break up. Returns the old break.
pub fn sys_sbrk(s: &mut Sched, m: &mut Mem, kroot: u64, h: usize, inc: i32) -> (r: u64)
    requires
        old(s)@.wf(),
        proc::mem_ok(old(s)@, old(m)@, kroot),
        h < MAX_HART,
        fd::busy(old(s)@, h as int),
        inc > 0 ==> can_grow(old(m)@, old(s)@.running_on(h as int)->0, inc as int),
    ensures
        final(s)@.wf(),
        proc::mem_ok(final(s)@, final(m)@, kroot),
        sbrk_done(old(s)@, old(m)@, final(s)@, final(m)@, h as int, inc as int, r),
{
    let pid: usize = s.current[h];
    assert(s@.procs[pid as int] == state::opt_proc(s.procs@[pid as int]));
    let (brk, root) = match &s.procs[pid] {
        Some(p) => (p.brk, p.root),
        None => (0, 0),
    };
    if inc <= 0 {
        return brk;
    }
    let cg = life::current_cg(s, h);
    proof {
        assert(proc::held(s@, pid as int) is Some);
        assert(proc::one_ok(m@, kroot, proc::held(s@, pid as int)->0));
        assert((pt::PTE_R | pt::PTE_W) & pt::PTE_RWX != 0) by (bit_vector);
    }
    let ghost m0 = m@;
    let _ = space::alloc_map_user(m, root, brk, inc as u64, pt::PTE_R | pt::PTE_W, cg);
    proof {
        assert((pt::PTE_R | pt::PTE_W) <= 14) by (bit_vector);
        image::lemma_seated_filled(
            m0,
            m@,
            root,
            (proc::held(s@, pid as int)->0).1,
            pt::page_down(brk),
            space::fits(m0, root, pt::page_down(brk), pt::span(brk, inc as u64), m0.fa.room(cg)),
            pt::PTE_R | pt::PTE_W,
        );
        lemma_mem_grown(s@, m0, m@, kroot, pid as int);
    }
    if let Some(p) = &mut s.procs[pid] {
        p.brk = brk + inc as u64;
    }
    proof {
        let t = old(s)@.with_proc(
            pid as int,
            ProcV { brk: (brk + inc) as u64, ..old(s)@.running_on(h as int)->0 },
        );
        assert(s@.procs[pid as int] == state::opt_proc(s.procs@[pid as int]));
        assert(s@.procs =~= t.procs);
        assert(s@ =~= t);
        assert forall|i: int| #[trigger] proc::held(s@, i) == proc::held(old(s)@, i) by {}
        proc::lemma_mem_same(old(s)@, s@, m@, kroot);
    }
    brk
}

} // verus!
