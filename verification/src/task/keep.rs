//! What scheduling, waking, killing and ending leave alone: every process's
//! memory, files, places and names.
use crate::mem::frame::MemV;
use crate::task::life;
use crate::task::proc;
use crate::task::state::{ProcV, SchedV, State, MAX_HART, NFD};
use vstd::prelude::*;

verus! {

/// The same process: only its state, the marks on it and its family may differ.
pub open spec fn same_process(p: ProcV, q: ProcV) -> bool {
    q == (ProcV {
        state: q.state,
        exit_code: q.exit_code,
        killed: q.killed,
        kill_code: q.kill_code,
        blocked_on: q.blocked_on,
        wake_at: q.wake_at,
        parent: q.parent,
        children: q.children,
        ..p
    })
}

/// The same processes, and the same namespaces, groups and records.
pub open spec fn kept(a: SchedV, b: SchedV) -> bool {
    &&& b.queues.len() == a.queues.len()
    &&& b.current.len() == a.current.len()
    &&& b.yield_flag.len() == a.yield_flag.len()
    &&& b.idle.len() == a.idle.len()
    &&& b.cpu == a.cpu
    &&& b.reaped == a.reaped
    &&& b.ns == a.ns
    &&& b.cg == a.cg
    &&& b.next_pid == a.next_pid
    &&& b.procs.len() == a.procs.len()
    &&& forall|i: int|
        0 <= i < a.procs.len() ==> match (a.procs[i], #[trigger] b.procs[i]) {
            (Some(p), Some(q)) => same_process(p, q),
            (None, None) => true,
            _ => false,
        }
}

pub proof fn lemma_trans(a: SchedV, b: SchedV, c: SchedV)
    requires
        kept(a, b),
        kept(b, c),
    ensures
        kept(a, c),
{
    assert forall|i: int| 0 <= i < a.procs.len() implies match (a.procs[i], #[trigger] c.procs[i]) {
        (Some(p), Some(q)) => same_process(p, q),
        (None, None) => true,
        _ => false,
    } by {
        let x = b.procs[i];
    }
}

proof fn lemma_with_proc(s: SchedV, i: int, q: ProcV)
    requires
        s.proc(i) matches Some(p) && same_process(p, q),
    ensures
        kept(s, s.with_proc(i, q)),
{
}

proof fn lemma_with_queue(s: SchedV, h: int, q: Seq<usize>)
    requires
        0 <= h < s.queues.len(),
    ensures
        kept(s, s.with_queue(h, q)),
{
}

// ---- waking and killing ----

proof fn lemma_wake(s: SchedV, pid: int, hq: int)
    requires
        s.queues.len() == MAX_HART,
        0 <= hq < MAX_HART,
    ensures
        kept(s, s.wake(pid, hq)),
{
    if let Some(p) = s.proc(pid) {
        let q = ProcV { state: State::Runnable, blocked_on: 0, ..p };
        let t = s.with_proc(pid, q);
        lemma_with_proc(s, pid, q);
        lemma_with_queue(t, hq, t.queues[hq].push(pid as usize));
        lemma_trans(s, t, t.with_queue(hq, t.queues[hq].push(pid as usize)));
    }
}

/// Waking sleepers changes no process but in its state.
pub proof fn law_wakes_keep(s: SchedV, upto: int, reason: u8, hq: int, now: u64)
    requires
        s.queues.len() == MAX_HART,
        0 <= hq < MAX_HART,
    ensures
        kept(s, s.wake_all(upto, reason, hq, now).0),
    decreases upto,
{
    if upto > 0 {
        law_wakes_keep(s, upto - 1, reason, hq, now);
        let t = s.wake_all(upto - 1, reason, hq, now).0;
        lemma_wake(t, upto - 1, hq);
        lemma_trans(s, t, t.wake(upto - 1, hq));
    }
}

/// Killing a process changes no process but in state and marks.
pub proof fn law_kill_keeps(s: SchedV, pid: int, code: i32, hq: int)
    requires
        s.queues.len() == MAX_HART,
        0 <= hq < MAX_HART,
    ensures
        kept(s, s.kill_with(pid, code, hq).0),
{
    if let Some(p) = s.proc(pid) {
        let q = ProcV { killed: true, kill_code: code, ..p };
        let t = s.with_proc(pid, q);
        lemma_with_proc(s, pid, q);
        lemma_wake(t, pid, hq);
        lemma_trans(s, t, t.wake(pid, hq));
    }
}

// ---- scheduling ----

proof fn lemma_pick_pass(s: SchedV, h: int, off: int, skip: bool, now: u64)
    requires
        s.queues.len() == MAX_HART,
        0 <= h,
        0 <= off,
    ensures
        kept(s, s.pick_pass(h, off, skip, now).0),
    decreases MAX_HART - off,
{
    if off < MAX_HART {
        let v = (h + off) % (MAX_HART as int);
        let (q, r) = s.pop_valid(h, s.queues[v], Seq::empty(), skip, now);
        let t = s.with_queue(v, q);
        lemma_with_queue(s, v, q);
        if r is None {
            lemma_pick_pass(t, h, off + 1, skip, now);
            lemma_trans(s, t, t.pick_pass(h, off + 1, skip, now).0);
        }
    }
}

/// Picking a process changes no process.
pub proof fn law_pick_keeps(s: SchedV, h: int, now: u64)
    requires
        s.queues.len() == MAX_HART,
        0 <= h < MAX_HART,
    ensures
        kept(s, s.pick(h, now).0),
{
    lemma_pick_pass(s, h, 0, true, now);
    let t = s.pick_pass(h, 0, true, now).0;
    lemma_pick_pass(t, h, 0, false, now);
    lemma_trans(s, t, t.pick_pass(h, 0, false, now).0);
}

proof fn lemma_running(s: SchedV, h: int, pid: usize)
    requires
        0 <= h < s.current.len(),
        0 <= h < s.idle.len(),
    ensures
        kept(s, s.running(h, pid)),
{
}

/// Switching at the end of a trap changes no process but in its state.
pub proof fn law_schedule_keeps(s: SchedV, h: int, now: u64)
    requires
        s.wf(),
        0 <= h < MAX_HART,
    ensures
        kept(s, s.schedule(h, now).0),
{
    let t = s.requeue(h);
    assert(kept(s, t));
    law_pick_keeps(t, h, now);
    let (u, r) = t.pick(h, now);
    lemma_trans(s, t, u);
    if let Some(pid) = r {
        lemma_running(u, h, pid);
        lemma_trans(s, u, u.running(h, pid));
    } else {
        lemma_trans(s, u, u.idling(h));
    }
}

// ---- ending ----

/// Every task set aside was in some hart's queue.
spec fn on_harts(stash: Seq<(int, usize)>) -> bool {
    forall|i: int| 0 <= i < stash.len() ==> 0 <= (#[trigger] stash[i]).0 < MAX_HART
}

proof fn lemma_unstash(s: SchedV, stash: Seq<(int, usize)>, upto: int)
    requires
        s.queues.len() == MAX_HART,
        0 <= upto <= stash.len(),
        on_harts(stash),
    ensures
        kept(s, s.unstash(stash, upto)),
    decreases upto,
{
    if upto > 0 {
        lemma_unstash(s, stash, upto - 1);
        let t = s.unstash(stash, upto - 1);
        let (v, pid) = stash[upto - 1];
        lemma_with_queue(t, v, t.queues[v].push(pid));
        lemma_trans(s, t, t.with_queue(v, t.queues[v].push(pid)));
    }
}

proof fn lemma_scan_stash(
    s: SchedV,
    h: int,
    exclude: usize,
    v: int,
    q: Seq<usize>,
    back: Seq<usize>,
    stash: Seq<(int, usize)>,
    skip: bool,
    now: u64,
)
    requires
        0 <= v < MAX_HART,
        on_harts(stash),
    ensures
        on_harts(s.scan_queue(h, exclude, v, q, back, stash, skip, now).1),
    decreases q.len(),
{
    if q.len() > 0 {
        let rest = q.skip(1);
        if q[0] == exclude || !s.takeable(h, q[0]) {
            lemma_scan_stash(s, h, exclude, v, rest, back, stash, skip, now);
        } else if skip && s.over_quota(s.group_of(q[0]), now) {
            if stash.len() < crate::task::sched::STASH_ALL {
                lemma_scan_stash(s, h, exclude, v, rest, back, stash.push((v, q[0])), skip, now);
            } else {
                lemma_scan_stash(s, h, exclude, v, rest, back.push(q[0]), stash, skip, now);
            }
        }
    }
}

proof fn lemma_find_pass(s: SchedV, h: int, exclude: usize, off: int, stash: Seq<(int, usize)>, skip: bool, now: u64)
    requires
        s.queues.len() == MAX_HART,
        0 <= h,
        0 <= off,
        on_harts(stash),
    ensures
        kept(s, s.find_pass(h, exclude, off, stash, skip, now).0),
    decreases MAX_HART - off,
{
    if off >= MAX_HART {
        lemma_unstash(s, stash, stash.len() as int);
    } else {
        let v = (h + off) % (MAX_HART as int);
        let (q, st, r) = s.scan_queue(h, exclude, v, s.queues[v], Seq::empty(), stash, skip, now);
        lemma_scan_stash(s, h, exclude, v, s.queues[v], Seq::empty(), stash, skip, now);
        let t = s.with_queue(v, q);
        lemma_with_queue(s, v, q);
        if r is Some {
            let u = if off > 0 {
                SchedV { steals: t.steals.wrapping_add(1), ..t }
            } else {
                t
            };
            assert(kept(s, u));
            lemma_unstash(u, st, st.len() as int);
            lemma_trans(s, u, u.unstash(st, st.len() as int));
        } else {
            lemma_find_pass(t, h, exclude, off + 1, st, skip, now);
            lemma_trans(s, t, t.find_pass(h, exclude, off + 1, st, skip, now).0);
        }
    }
}

proof fn lemma_reparent(s: SchedV, kids: Seq<usize>, n: int)
    ensures
        kept(s, life::reparent(s, kids, n)),
    decreases n,
{
    if n > 0 {
        lemma_reparent(s, kids, n - 1);
        let t = life::reparent(s, kids, n - 1);
        let c = kids[n - 1];
        if let Some(p) = t.proc(c as int) {
            let p1 = ProcV { parent: 1, ..p };
            let u = t.with_proc(c as int, p1);
            lemma_with_proc(t, c as int, p1);
            lemma_trans(s, t, u);
            if let Some(init) = u.proc(1) {
                let i1 = ProcV { children: init.children.push(c), ..init };
                lemma_with_proc(u, 1, i1);
                lemma_trans(s, u, u.with_proc(1, i1));
            }
        }
    }
}

proof fn lemma_orphaned(s: SchedV, pid: int)
    ensures
        kept(s, s.orphaned(pid)),
{
    if pid != 1 {
        let kids = match s.proc(pid) {
            Some(p) => p.children,
            None => Seq::empty(),
        };
        lemma_reparent(s, kids, kids.len() as int);
        let t = life::reparent(s, kids, kids.len() as int);
        if let Some(me) = t.proc(pid) {
            let q = ProcV { children: Seq::empty(), ..me };
            lemma_with_proc(t, pid, q);
            lemma_trans(s, t, t.with_proc(pid, q));
        }
    }
}

/// The end of a process changes no process but in state, marks and family; its
/// memory is still its own until it is reaped.
pub proof fn law_exit_keeps(s: SchedV, pid: usize, code: i32, h: int, now: u64)
    requires
        s.wf(),
        0 <= h < MAX_HART,
    ensures
        kept(s, s.exit(pid, code, h, now).0),
{
    if !(s.proc(pid as int) matches Some(p) && p.state is Zombie) {
        let a = s.died(pid as int, code);
        assert(kept(s, a));
        let b = a.orphaned(pid as int);
        lemma_orphaned(a, pid as int);
        lemma_trans(s, a, b);
        let c = b.parent_told(pid as int, h);
        lemma_wake(b, b.parent_of(pid as int) as int, h);
        lemma_trans(s, b, c);
        lemma_find_pass(c, h, pid, 0, Seq::empty(), true, now);
        let d = c.find_pass(h, pid, 0, Seq::empty(), true, now).0;
        lemma_find_pass(d, h, pid, 0, Seq::empty(), false, now);
        lemma_trans(c, d, d.find_pass(h, pid, 0, Seq::empty(), false, now).0);
        let (e, next) = c.find_next(h, pid, now);
        lemma_trans(s, c, e);
        if let Some(x) = next {
            lemma_running(e, h, x);
            lemma_trans(s, e, e.running(h, x));
        } else {
            lemma_trans(s, e, e.idling(h));
        }
    }
}

// ---- what that means ----

/// Where the same processes are kept, the table is as well formed and everyone's
/// memory as separate as before.
pub proof fn law_kept_memory(a: SchedV, b: SchedV, m: MemV, kroot: u64)
    requires
        a.wf(),
        proc::mem_ok(a, m, kroot),
        kept(a, b),
    ensures
        b.wf(),
        proc::mem_ok(b, m, kroot),
{
    assert forall|i: int| #[trigger] proc::held(b, i) == proc::held(a, i) by {
        if 0 <= i < a.procs.len() {
            let x = b.procs[i];
            assert(a.procs[i] is Some == x is Some);
        }
    }
    proc::lemma_mem_same(a, b, m, kroot);
    assert forall|i: int| 0 <= i < b.procs.len() implies match #[trigger] b.procs[i] {
        Some(p) => p.fds.len() == NFD && p.pid == i && p.ns < b.ns.len(),
        None => true,
    } by {
        let x = a.procs[i];
    }
}

} // verus!
