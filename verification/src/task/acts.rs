//! What the operations on processes do, told of the operations themselves.
use crate::mem::frame;
use crate::mem::frame::{Mem, WORDS};
use crate::mem::space;
use crate::mem::space::VA_END;
use crate::task::fair;
use crate::task::family;
use crate::task::group;
use crate::task::keep;
use crate::task::life;
use crate::task::path;
use crate::task::proc;
use crate::task::route;
use crate::task::sched;
use crate::task::sched::Next;
use crate::task::state::{CpuUse, ProcV, Sched, SchedV, State, MAX_CG, MAX_HART, NFD};
use crate::task::wait;
use vstd::prelude::*;

verus! {

/// Process `pid` is in the table.
pub open spec fn there(s: SchedV, pid: usize) -> bool {
    pid < s.procs.len() && s.procs[pid as int] is Some
}

pub open spec fn got(s: SchedV, pid: usize) -> ProcV {
    s.procs[pid as int]->0
}

/// From `a` to `b` only this process changed, to `q`.
pub open spec fn only(a: SchedV, b: SchedV, pid: usize, q: ProcV) -> bool {
    &&& b.procs.len() == a.procs.len()
    &&& b.procs[pid as int] == Some(q)
    &&& forall|i: int| 0 <= i < a.procs.len() && i != pid ==> #[trigger] b.procs[i] == a.procs[i]
    &&& b == (SchedV { procs: b.procs, ..a })
}

/// A forked child has every descriptor of its parent, its directories, name,
/// group and break, the same memory, and the same registers but for its result,
/// 0; the parent and everyone else have what they had.
pub proof fn law_fork(
    s: &mut Sched,
    m: &mut Mem,
    kroot: u64,
    parent: usize,
    h: usize,
    now: u64,
    r: usize,
    i: int,
    va: u64,
)
    requires
        old(s)@.wf(),
        there(old(s)@, parent),
        old(s)@.next_pid < usize::MAX,
        h < MAX_HART,
        old(m)@.ram[frame::fi(got(old(s)@, parent).tf_pa)].len() == WORDS,
        0 <= i < NFD,
        va < VA_END,
        call_ensures(proc::fork, (s, m, kroot, parent, h, now), r),
        r != usize::MAX,
    ensures
        r == old(s)@.next_pid,
        there(final(s)@, r),
        got(final(s)@, r).fds[i].kind == got(old(s)@, parent).fds[i].kind,
        got(final(s)@, r).fds[i].off == got(old(s)@, parent).fds[i].off,
        got(final(s)@, r).fds[i].path == got(old(s)@, parent).fds[i].path,
        got(final(s)@, r).fds[i].id == got(old(s)@, parent).fds[i].id,
        got(final(s)@, r).fds[i].cloexec == got(old(s)@, parent).fds[i].cloexec,
        got(final(s)@, r).cwd == got(old(s)@, parent).cwd,
        got(final(s)@, r).fsroot == got(old(s)@, parent).fsroot,
        got(final(s)@, r).name == got(old(s)@, parent).name,
        got(final(s)@, r).cg == got(old(s)@, parent).cg,
        got(final(s)@, r).brk == got(old(s)@, parent).brk,
        got(final(s)@, r).parent == parent,
        got(final(s)@, r).state is Runnable,
        got(final(s)@, parent) == (ProcV {
            children: got(old(s)@, parent).children.push(r),
            pending_ns: false,
            ..got(old(s)@, parent)
        }),
        forall|j: int|
            0 <= j < old(s)@.procs.len() && j != parent ==> #[trigger] final(s)@.procs[j] == old(s)@.procs[j],
        space::umem(final(m)@, got(final(s)@, r).root, va) == space::umem(old(m)@, got(old(s)@, parent).root, va),
        final(m)@.ram[frame::fi(got(final(s)@, r).tf_pa)] == old(m)@.ram[frame::fi(got(old(s)@, parent).tf_pa)].update(
            10,
            0,
        ),
{
    family::law_fork_inherits(old(s)@, old(m)@, final(s)@, final(m)@, kroot, parent, h as int, now, r);
    family::law_fork_copies(old(s)@, old(m)@, final(s)@, final(m)@, kroot, parent, h as int, now, r);
    let a = old(m)@.ram[frame::fi(got(old(s)@, parent).tf_pa)];
    let b = final(m)@.ram[frame::fi(got(final(s)@, r).tf_pa)];
    assert(b =~= a.update(10, 0));
    assert(family::same_fd(got(final(s)@, r).fds[i], got(old(s)@, parent).fds[i]));
}

/// A process that waits in the hart's queue, ready and within its quota, is run
/// after the scheduling point or stands nearer to the front; with one like that
/// in front of the queue's other processes, the one that ran does not go on.
pub proof fn law_scheduling_point(s: &mut Sched, h: usize, now: u64, n: Next, k: int)
    requires
        old(s)@.wf(),
        h < MAX_HART,
        0 <= k < old(s)@.queues[h as int].len(),
        old(s)@.queues[h as int][k] != old(s)@.current[h as int],
        fair::ready(old(s)@, h as int, old(s)@.queues[h as int][k]),
        fair::in_quota(old(s)@, old(s)@.queues[h as int][k], now),
        call_ensures(sched::schedule_point, (s, h, now), n),
    ensures
        ({
            let pid = old(s)@.queues[h as int][k];
            ||| final(s)@.current[h as int] == pid && n is Run && n->pid == pid
            ||| exists|i: int|
                0 <= i < k && i < final(s)@.queues[h as int].len() && #[trigger] final(s)@.queues[h as int][i] == pid
        }),
        (forall|i: int| 0 <= i <= k ==> #[trigger] old(s)@.queues[h as int][i] != old(s)@.current[h as int]) ==> n is Run
            && n->pid != old(s)@.current[h as int] && final(s)@.current[h as int] == n->pid,
{
    fair::law_waiting_moves_up(old(s)@, h as int, now, k);
    if forall|i: int| 0 <= i <= k ==> #[trigger] old(s)@.queues[h as int][i] != old(s)@.current[h as int] {
        lemma_first(old(s)@, h as int, now, k);
    }
}

/// The first in line that can run within quota.
proof fn lemma_first(s: SchedV, h: int, now: u64, k: int)
    requires
        s.wf(),
        0 <= h < MAX_HART,
        0 <= k < s.queues[h].len(),
        fair::ready(s, h, s.queues[h][k]),
        fair::in_quota(s, s.queues[h][k], now),
        forall|i: int| 0 <= i <= k ==> #[trigger] s.queues[h][i] != s.current[h],
    ensures
        s.schedule(h, now).1 is Run,
        s.schedule(h, now).1->pid != s.current[h],
        s.schedule(h, now).0.current[h] == s.schedule(h, now).1->pid,
    decreases k,
{
    if forall|i: int|
        0 <= i < k ==> !(fair::ready(s, h, #[trigger] s.queues[h][i]) && fair::in_quota(s, s.queues[h][i], now)) {
        fair::law_next_in_line_runs(s, h, now, k);
    } else {
        let i = choose|i: int|
            0 <= i < k && fair::ready(s, h, #[trigger] s.queues[h][i]) && fair::in_quota(s, s.queues[h][i], now);
        lemma_first(s, h, now, i);
    }
}

/// A process that ends is left with its code, the hart goes on with another or
/// sleeps, and each child it had is process 1's.
pub proof fn law_exit(s: &mut Sched, pid: usize, code: i32, h: usize, now: u64, n: Next, i: int)
    requires
        old(s)@.wf(),
        h < MAX_HART,
        pid > 1,
        there(old(s)@, pid),
        !(got(old(s)@, pid).state is Zombie),
        got(old(s)@, pid).parent != pid,
        call_ensures(life::exit, (s, pid, code, h, now), n),
    ensures
        there(final(s)@, pid),
        got(final(s)@, pid).state is Zombie,
        got(final(s)@, pid).exit_code == code,
        n is Run ==> n->pid != pid && final(s)@.current[h as int] == n->pid,
        0 <= i < got(old(s)@, pid).children.len() && got(old(s)@, pid).children[i] != pid && there(
            old(s)@,
            got(old(s)@, pid).children[i],
        ) ==> got(final(s)@, got(old(s)@, pid).children[i]).parent == 1,
{
    family::law_ended_process(old(s)@, pid, code, h as int, now);
    keep::law_exit_keeps(old(s)@, pid, code, h as int, now);
}

/// A wait answers with the first child in order that is meant and has ended: its
/// number and its code; that child is gone then, and every other process is as
/// it was. With none it tells that there is none, or that it has not ended.
pub proof fn law_waitpid(
    s: &mut Sched,
    m: &mut Mem,
    kroot: u64,
    pid: usize,
    target: i64,
    options: usize,
    h: usize,
    r: (i32, i32),
    i: int,
)
    requires
        old(s)@.wf(),
        h < MAX_HART,
        there(old(s)@, pid),
        call_ensures(wait::waitpid, (s, m, kroot, pid, target, options, h), r),
    ensures
        ({
            let p = got(old(s)@, pid);
            let kids = p.children;
            &&& 0 <= i < kids.len() && kids[i] != pid && family::over(old(s)@, p.ns, target, kids, i) && (forall|j: int|
                0 <= j < i ==> !#[trigger] family::over(old(s)@, p.ns, target, kids, j)) ==> {
                &&& r.0 == kids[i] as i32
                &&& r.1 == got(old(s)@, kids[i]).exit_code
                &&& final(s)@.procs[kids[i] as int] is None
                &&& forall|j: int|
                    0 <= j < old(s)@.procs.len() && j != pid && j != kids[i] ==> #[trigger] final(s)@.procs[j]
                        == old(s)@.procs[j]
            }
            &&& (forall|j: int| 0 <= j < kids.len() ==> !#[trigger] family::over(old(s)@, p.ns, target, kids, j)) ==> {
                &&& r.1 == 0
                &&& r.0 == -1 || r.0 == 0 || r.0 == -2
                &&& kids.len() == 0 ==> r.0 == -1
                &&& final(m)@ == old(m)@
            }
        }),
{
    let p = got(old(s)@, pid);
    let kids = p.children;
    family::law_first_ended_child_is_found(old(s)@, p.ns, target, kids, 0);
    if let Some(c) = old(s)@.ended(p.ns, target, kids, 0) {
        let k = choose|k: int|
            0 <= k < kids.len() && kids[k] == c && #[trigger] family::over(old(s)@, p.ns, target, kids, k) && (forall|j: int|
                0 <= j < k ==> !#[trigger] family::over(old(s)@, p.ns, target, kids, j));
        assert(family::over(old(s)@, p.ns, target, kids, k));
        if 0 <= i < kids.len() && kids[i] != pid && family::over(old(s)@, p.ns, target, kids, i) && (forall|j: int|
            0 <= j < i ==> !#[trigger] family::over(old(s)@, p.ns, target, kids, j)) {
            assert(i == k);
            family::law_reaped_child_is_gone(old(s)@, pid, c, c);
        }
    } else if 0 <= i < kids.len() {
        assert(!family::over(old(s)@, p.ns, target, kids, i));
    }
}

/// A blocked process is not ready until it is woken, and remembers why.
pub proof fn law_block(s: &mut Sched, h: usize, reason: u8, wake_at: u64, u: ())
    requires
        h < MAX_HART,
        there(old(s)@, old(s)@.current[h as int]),
        got(old(s)@, old(s)@.current[h as int]).state is Running,
        call_ensures(life::block_current, (s, h, reason, wake_at), u),
    ensures
        only(
            old(s)@,
            final(s)@,
            old(s)@.current[h as int],
            ProcV {
                state: State::Blocked,
                blocked_on: reason,
                wake_at,
                ..got(old(s)@, old(s)@.current[h as int])
            },
        ),
{
}

/// The interrupt key ends the foreground process with code 130.
pub proof fn law_interrupt_key(s: &mut Sched, h: usize, ok: bool)
    requires
        old(s)@.wf(),
        h < MAX_HART,
        call_ensures(life::kill_fg, (s, h), ok),
    ensures
        ok <==> old(s)@.fg_pid != 0 && there(old(s)@, old(s)@.fg_pid) && !(got(old(s)@, old(s)@.fg_pid).state is Zombie),
        ok ==> got(final(s)@, old(s)@.fg_pid).killed && got(final(s)@, old(s)@.fg_pid).kill_code == 130,
        !ok ==> final(s)@ == old(s)@,
        forall|i: int|
            0 <= i < old(s)@.procs.len() && i != old(s)@.fg_pid ==> #[trigger] final(s)@.procs[i] == old(s)@.procs[i],
{
    if old(s)@.fg_pid != 0 {
        family::law_kill_marks(old(s)@, old(s)@.fg_pid, 130, h as int);
    }
}

// ---- places ----

/// A process goes to a directory that is a path, and nowhere else; nothing of it
/// changes but that.
pub proof fn law_chdir(s: &mut Sched, pid: usize, cwd: &[u8], ok: bool)
    requires
        call_ensures(path::set_cwd, (s, pid, cwd), ok),
    ensures
        ok <==> 0 < cwd@.len() <= 127 && cwd@[0] == 0x2f && there(old(s)@, pid),
        ok ==> only(old(s)@, final(s)@, pid, ProcV { cwd: cwd@, ..got(old(s)@, pid) }),
        !ok ==> final(s)@ == old(s)@,
{
}

/// A process that is confined to a directory stands at its top.
pub proof fn law_chroot(s: &mut Sched, pid: usize, root: &[u8], ok: bool)
    requires
        call_ensures(path::set_root, (s, pid, root), ok),
    ensures
        ok <==> 0 < root@.len() <= 127 && root@[0] == 0x2f && there(old(s)@, pid),
        ok ==> only(old(s)@, final(s)@, pid, ProcV { fsroot: root@, cwd: seq![0x2fu8], ..got(old(s)@, pid) }),
        !ok ==> final(s)@ == old(s)@,
{
}

/// A path of names from the top of the jail is spelled as the jail's path and
/// the names.
pub proof fn law_resolve(root: &[u8], cwd: &[u8], p: &[u8], names: Seq<Seq<u8>>, r: Vec<u8>)
    requires
        names.len() > 0,
        forall|k: int| 0 <= k < names.len() ==> route::ordinary(#[trigger] names[k]),
        p@ == route::text(names),
        route::text(path::jail(root@) + names).len() <= 127,
        call_ensures(path::resolve_path, (root, cwd, p), r),
    ensures
        r@ == route::text(path::jail(root@) + names),
{
    route::law_names_lead_down(root@, cwd@, names);
    route::law_spelling(path::jail(root@) + names);
}

// ---- groups ----

/// A group that is made is a new one below the caller's, with its limit; no
/// process changes.
pub proof fn law_group_is_made(s: &mut Sched, m: &mut Mem, h: usize, limit: u64, id: usize)
    requires
        old(s)@.wf(),
        h < MAX_HART,
        old(s)@.cg.len() < MAX_CG,
        old(m)@.wf(),
        call_ensures(group::cgcreate, (s, m, h, limit), id),
    ensures
        id == old(s)@.cg.len(),
        final(s)@.cg.len() == id + 1,
        forall|g: int| 0 <= g < id ==> #[trigger] final(s)@.cg[g] == old(s)@.cg[g],
        there(old(s)@, old(s)@.current[h as int]) ==> final(s)@.cg[id as int].parent == got(
            old(s)@,
            old(s)@.current[h as int],
        ).cg,
        final(s)@.procs == old(s)@.procs,
        final(m)@.fa.lim[id as int] == limit,
        final(m)@.ram == old(m)@.ram,
        forall|g: int| 0 <= g < MAX_CG && g != id ==> #[trigger] final(m)@.fa.lim[g] == old(m)@.fa.lim[g],
{
}

/// A process enters a group that there is, and is of it from then on.
pub proof fn law_group_is_entered(s: &mut Sched, h: usize, id: usize, ok: bool)
    requires
        h < MAX_HART,
        call_ensures(group::cgenter, (s, h, id), ok),
    ensures
        ok <==> id < old(s)@.cg.len() && there(old(s)@, old(s)@.current[h as int]),
        ok ==> only(
            old(s)@,
            final(s)@,
            old(s)@.current[h as int],
            ProcV { cg: id, ..got(old(s)@, old(s)@.current[h as int]) },
        ),
        !ok ==> final(s)@ == old(s)@,
{
}

/// A cap of so many percent lets a group that ran all of a window's ticks so far
/// go on just where it is a hundred or more; no cap is in the way of another
/// group.
pub proof fn law_cap(s: &mut Sched, id: usize, pct: u64, ok: bool)
    requires
        old(s)@.wf(),
        call_ensures(group::cg_set_cpu, (s, id, pct), ok),
    ensures
        ok <==> id < MAX_CG && id < old(s)@.cg.len(),
        ok ==> final(s)@.cpu[id as int] == (CpuUse {
            cap: final(s)@.cpu[id as int].cap,
            ..old(s)@.cpu[id as int]
        }),
        ok ==> final(s)@.cpu[id as int].cap == if pct >= 100 { 101 } else { pct + 1 },
        forall|g: int| 0 <= g < MAX_CG && g != id ==> #[trigger] final(s)@.cpu[g] == old(s)@.cpu[g],
        final(s)@.procs == old(s)@.procs,
{
}

/// Asking for a namespace marks the caller, for its next child.
pub proof fn law_unshare(s: &mut Sched, h: usize, flags: usize, ok: bool)
    requires
        h < MAX_HART,
        call_ensures(group::unshare, (s, h, flags), ok),
    ensures
        ok <==> flags == 0x2000_0000 && there(old(s)@, old(s)@.current[h as int]),
        ok ==> only(
            old(s)@,
            final(s)@,
            old(s)@.current[h as int],
            ProcV { pending_ns: true, ..got(old(s)@, old(s)@.current[h as int]) },
        ),
        !ok ==> final(s)@ == old(s)@,
{
}

/// A tick is charged to the group of the process that runs, in the window of a
/// hundred ticks it falls in.
pub proof fn law_tick_is_charged(s: &mut Sched, h: usize, now: u64, u: ())
    requires
        old(s)@.wf(),
        h < MAX_HART,
        there(old(s)@, old(s)@.current[h as int]),
        got(old(s)@, old(s)@.current[h as int]).cg < MAX_CG,
        call_ensures(group::cg_tick, (s, h, now), u),
    ensures
        ({
            let g = got(old(s)@, old(s)@.current[h as int]).cg as int;
            let a = old(s)@.cpu[g];
            let b = final(s)@.cpu[g];
            &&& a.ticks < u64::MAX ==> b.ticks == a.ticks + 1
            &&& b.win == now / 100
            &&& a.win == now / 100 && a.win_use < u64::MAX ==> b.win_use == a.win_use + 1
            &&& a.win != now / 100 ==> b.win_use == 1
            &&& b.cap == a.cap
            &&& forall|x: int| 0 <= x < MAX_CG && x != g ==> #[trigger] final(s)@.cpu[x] == old(s)@.cpu[x]
            &&& final(s)@.procs == old(s)@.procs
        }),
{
}

} // verus!
