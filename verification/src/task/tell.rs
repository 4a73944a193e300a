//! What is asked of processes and told of them, told of the operations
//! themselves.
use crate::task::acts;
use crate::task::family;
use crate::task::life;
use crate::task::path;
use crate::task::state::{ProcV, Sched, SchedV, MAX_CG, MAX_HART};
use crate::user::fmt;
use vstd::prelude::*;

verus! {

// ---- waking ----

/// What a wake for `reason` leaves: everyone who slept for it, until a tick that
/// has come where they slept until one, is ready, and queued if no hart has
/// them; nobody else changes.
pub open spec fn woken(a: SchedV, b: SchedV, h: int, reason: u8, now: u64, i: int) -> bool {
    let p = a.procs[i]->0;
    let due = a.procs[i] is Some && p.state is Blocked && p.blocked_on == reason && (reason == 2 ==> now >= p.wake_at);
    &&& b.procs.len() == a.procs.len()
    &&& due ==> b.procs[i] is Some && (b.procs[i]->0).state is Runnable && (b.procs[i]->0).blocked_on == 0
    &&& due && family::off_hart(a, i as usize) ==> b.queues[h].contains(i as usize)
    &&& !due ==> b.procs[i] == a.procs[i]
    &&& b.queues[h].len() >= a.queues[h].len()
    &&& b.queues[h].take(a.queues[h].len() as int) == a.queues[h]
}

/// A tick, a key, the disk and the network wake those who wait for them, and
/// only those.
pub proof fn law_wakes(s: &mut Sched, h: usize, now: u64, kick: bool, i: int)
    requires
        old(s)@.wf(),
        h < MAX_HART,
        0 <= i < old(s)@.procs.len(),
    ensures
        call_ensures(life::wake_sleepers, (s, h, now), kick) ==> woken(old(s)@, final(s)@, h as int, 2, now, i),
        call_ensures(life::wake_stdin, (s, h), kick) ==> woken(old(s)@, final(s)@, h as int, 1, now, i),
        call_ensures(life::wake_virtio, (s, h), kick) ==> woken(old(s)@, final(s)@, h as int, 3, now, i),
        call_ensures(life::wake_net, (s, h), kick) ==> woken(old(s)@, final(s)@, h as int, 4, now, i),
{
    let a = old(s)@;
    let n = a.procs.len() as int;
    family::law_everyone_due_wakes(a, n, 2, h as int, now);
    family::law_everyone_due_wakes(a, n, 1, h as int, 0);
    family::law_everyone_due_wakes(a, n, 3, h as int, 0);
    family::law_everyone_due_wakes(a, n, 4, h as int, 0);
    assert(family::due(a, i, 2, now) || !family::due(a, i, 2, now));
    assert(a.wake_all(n, 2, h as int, now).0.procs[i] == a.wake_all(n, 2, h as int, now).0.procs[i]);
    assert(a.wake_all(n, 1, h as int, 0).0.procs[i] == a.wake_all(n, 1, h as int, 0).0.procs[i]);
    assert(a.wake_all(n, 3, h as int, 0).0.procs[i] == a.wake_all(n, 3, h as int, 0).0.procs[i]);
    assert(a.wake_all(n, 4, h as int, 0).0.procs[i] == a.wake_all(n, 4, h as int, 0).0.procs[i]);
}

/// A hart is interrupted just where it sleeps with work in its queue.
pub proof fn law_idle_harts_are_kicked(s: &Sched, v: Vec<usize>, h: usize)
    requires
        h < MAX_HART,
        call_ensures(life::kick_idle, (s,), v),
    ensures
        v@.contains(h) <==> s@.idle[h as int] && s@.queues[h as int].len() > 0,
{
    lemma_kicks(s@, MAX_HART as int, h);
}

proof fn lemma_kicks(s: SchedV, n: int, h: usize)
    requires
        0 <= n <= MAX_HART,
    ensures
        life::kick_list(s, n).contains(h) <==> h < n && s.idle[h as int] && s.queues[h as int].len() > 0,
    decreases n,
{
    if n > 0 {
        lemma_kicks(s, n - 1, h);
        let q = life::kick_list(s, n - 1);
        let r = life::kick_list(s, n);
        if s.idle[n - 1] && s.queues[n - 1].len() > 0 {
            assert(r == q.push((n - 1) as usize));
            assert(r[q.len() as int] == n - 1);
            if q.contains(h) {
                let k = choose|k: int| 0 <= k < q.len() && q[k] == h;
                assert(r[k] == h);
            }
            if r.contains(h) {
                let k = choose|k: int| 0 <= k < r.len() && r[k] == h;
                if k < q.len() {
                    assert(q[k] == h);
                }
            }
        }
    }
}

/// A switch that was asked for is asked for once.
pub proof fn law_asked_once(s: &mut Sched, t: &mut Sched, w: &mut Sched, h: usize, u: (), v: bool, x: bool)
    requires
        old(s)@.wf(),
        h < MAX_HART,
        call_ensures(life::set_yield_flag, (s, h), u) || call_ensures(life::yield_now, (s, h), u),
        old(t)@ == final(s)@,
        call_ensures(life::take_yield_flag, (t, h), v),
        old(w)@ == final(t)@,
        call_ensures(life::take_yield_flag, (w, h), x),
    ensures
        v,
        !x,
        final(w)@.procs == old(s)@.procs,
        forall|j: int| 0 <= j < MAX_HART && j != h ==> #[trigger] final(w)@.yield_flag[j] == old(s)@.yield_flag[j],
{
}

// ---- killing ----

/// A kill reaches the process that the caller's namespace gives the number, and
/// no other.
pub proof fn law_kill(s: &mut Sched, h: usize, pid: usize, ok: bool, i: int)
    requires
        old(s)@.wf(),
        h < MAX_HART,
        old(s)@.current[h as int] < old(s)@.procs.len(),
        old(s)@.procs[old(s)@.current[h as int] as int] is Some,
        old(s)@.procs.len() <= usize::MAX,
        0 <= i < old(s)@.procs.len(),
        old(s)@.procs[i] is Some,
        (old(s)@.procs[i]->0).ns == (old(s)@.procs[old(s)@.current[h as int] as int]->0).ns,
        (old(s)@.procs[i]->0).lpid == pid,
        forall|j: int|
            0 <= j < old(s)@.procs.len() && j != i && #[trigger] old(s)@.procs[j] is Some ==> (old(s)@.procs[j]->0).ns != (
            old(s)@.procs[i]->0).ns || (old(s)@.procs[j]->0).lpid != pid,
        call_ensures(life::kill, (s, h, pid), ok),
    ensures
        ok <==> !((old(s)@.procs[i]->0).state is Zombie),
        ok ==> final(s)@.procs[i] is Some && (final(s)@.procs[i]->0).killed && (final(s)@.procs[i]->0).kill_code == -9,
        ok ==> !((final(s)@.procs[i]->0).state is Blocked),
        !ok ==> final(s)@ == old(s)@,
        forall|j: int| 0 <= j < old(s)@.procs.len() && j != i ==> #[trigger] final(s)@.procs[j] == old(s)@.procs[j],
{
    let a = old(s)@;
    family::law_names_are_local(a, h as int, pid);
    let t = a.target(h as int, pid);
    assert(t == i);
    family::law_kill_marks(a, t, life::KILLED, h as int);
}

/// The process is a member of the group that has not ended, and not the caller.
pub open spec fn victim(s: SchedV, i: int, cg: usize, me: usize) -> bool {
    s.procs[i] is Some && (s.procs[i]->0).cg == cg && !((s.procs[i]->0).state is Zombie) && i != me
}

/// How many there are below `n`.
pub open spec fn victims(s: SchedV, n: int, cg: usize, me: usize) -> int
    decreases n,
{
    if n <= 0 {
        0
    } else if victim(s, n - 1, cg, me) {
        victims(s, n - 1, cg, me) + 1
    } else {
        victims(s, n - 1, cg, me)
    }
}

proof fn lemma_group(s: SchedV, n: int, cg: usize, me: usize, hq: int, i: int)
    requires
        0 <= n <= s.procs.len() <= usize::MAX,
        0 <= i < s.procs.len(),
    ensures
        ({
            let (t, k) = s.kill_group(n, cg, me, hq);
            let p = s.procs[i]->0;
            let q = t.procs[i]->0;
            &&& t.procs.len() == s.procs.len()
            &&& k == victims(s, n, cg, me)
            &&& !(i < n && victim(s, i, cg, me)) ==> t.procs[i] == s.procs[i]
            &&& i < n && victim(s, i, cg, me) ==> t.procs[i] is Some && q == (ProcV {
                killed: true,
                kill_code: q.kill_code,
                state: q.state,
                blocked_on: q.blocked_on,
                ..p
            }) && q.kill_code == -9 && if p.state is Blocked {
                q.state is Runnable && q.blocked_on == 0
            } else {
                q.state == p.state && q.blocked_on == p.blocked_on
            }
        }),
    decreases n,
{
    if n > 0 {
        lemma_group(s, n - 1, cg, me, hq, i);
        lemma_group(s, n - 1, cg, me, hq, n - 1);
    }
}

/// Killing a group marks every member that has not ended, but for the caller,
/// wakes those that sleep, and tells how many; nobody else changes.
pub proof fn law_group_is_killed(s: &mut Sched, h: usize, cg: usize, r: i64, i: int)
    requires
        old(s)@.wf(),
        h < MAX_HART,
        old(s)@.procs.len() <= usize::MAX,
        0 <= i < old(s)@.procs.len(),
        call_ensures(life::cg_kill, (s, h, cg), r),
    ensures
        ({
            let a = old(s)@;
            let b = final(s)@;
            let me = a.current[h as int];
            let p = a.procs[i]->0;
            let q = b.procs[i]->0;
            let there = 0 < cg < MAX_CG && cg < a.cg.len();
            &&& !there ==> r == -1 && b == a
            &&& there ==> r == victims(a, a.procs.len() as int, cg, me)
            &&& there && victim(a, i, cg, me) ==> b.procs[i] is Some && q.killed && q.kill_code == -9 && !(
            q.state is Blocked) && q.root == p.root && q.cg == p.cg && q.fds == p.fds
            &&& !(there && victim(a, i, cg, me)) ==> b.procs[i] == a.procs[i]
        }),
{
    let a = old(s)@;
    lemma_group(a, a.procs.len() as int, cg, a.current[h as int], h as int, i);
}

// ---- telling ----

/// Asking about a process tells whether it is there, whether it has ended, and
/// when it started.
pub proof fn law_pidinfo(s: &Sched, pid: usize, r: i64)
    requires
        call_ensures(life::pidinfo, (s, pid), r),
    ensures
        r == -1 <==> !acts::there(s@, pid),
        r > 0 <==> acts::there(s@, pid) && !(acts::got(s@, pid).state is Zombie),
        r < -1 <==> acts::there(s@, pid) && acts::got(s@, pid).state is Zombie,
        acts::there(s@, pid) && acts::got(s@, pid).start_ms <= i64::MAX - 2 ==> (if r > 0 { r as int } else { -r }) - 2
            == acts::got(s@, pid).start_ms,
{
}

/// A process that is traced is told to be, until it is not.
pub proof fn law_trace(s: &mut Sched, pid: usize, on: bool, ok: bool, t: &Sched, r: bool)
    requires
        call_ensures(life::set_traced, (s, pid, on), ok),
        t@ == final(s)@,
        call_ensures(life::is_traced, (t, pid), r),
    ensures
        ok <==> acts::there(old(s)@, pid),
        ok ==> r == on,
        ok ==> acts::only(old(s)@, final(s)@, pid, ProcV { traced: on, ..acts::got(old(s)@, pid) }),
        !ok ==> final(s)@ == old(s)@,
{
}

/// Who is killed, runs, or ended how, is as the table has it.
pub proof fn law_state_is_told(s: &Sched, h: usize, pid: usize, k: bool, r: bool, c: i32, cur: usize, l: usize, g: usize)
    requires
        h < MAX_HART,
        acts::there(s@, pid),
        s@.current[h as int] == pid,
        call_ensures(life::is_killed, (s, pid), k),
        call_ensures(life::is_running, (s, pid), r),
        call_ensures(life::kill_code, (s, pid), c),
        call_ensures(life::current_pid, (s, h), cur),
        call_ensures(life::current_lpid, (s, h), l),
        call_ensures(life::current_cg, (s, h), g),
    ensures
        k == acts::got(s@, pid).killed,
        r == (acts::got(s@, pid).state is Running),
        c == acts::got(s@, pid).kill_code,
        cur == pid,
        l == acts::got(s@, pid).lpid,
        s@.active ==> g == acts::got(s@, pid).cg,
{
}

/// A path is taken from the process's own directory and jail.
pub proof fn law_path_of_a_process(s: &Sched, pid: usize, c: Vec<u8>, f: Vec<u8>, p: &[u8], r: Vec<u8>)
    requires
        acts::there(s@, pid),
        call_ensures(path::get_cwd, (s, pid), c),
        call_ensures(path::get_root, (s, pid), f),
        call_ensures(path::resolve_for, (s, pid, p), r),
    ensures
        c@ == acts::got(s@, pid).cwd,
        f@ == acts::got(s@, pid).fsroot,
        r@ == path::spelled(path::resolved(f@, c@, p@)),
{
}

/// The line of a process: its number and its parent's, both of its namespace, a
/// letter for its state, its break and its directory.
pub open spec fn line_of(p: ProcV, parent: usize) -> Seq<u8> {
    let letter: u8 = if p.state is Zombie {
        0x5a
    } else if p.state is Blocked {
        0x42
    } else {
        0x52
    };
    fmt::digits(p.lpid as nat, 10) + seq![0x20u8] + fmt::digits(parent as nat, 10) + seq![0x20u8, letter, 0x20u8]
        + fmt::digits(p.brk as nat, 10) + seq![0x20u8] + p.cwd + seq![0x0au8]
}

/// A parent's number in the namespace, or in the table where it is of another.
pub open spec fn parent_in(s: SchedV, p: ProcV, ns: usize) -> usize {
    if acts::there(s, p.parent) && acts::got(s, p.parent).ns == ns {
        acts::got(s, p.parent).lpid
    } else {
        p.parent
    }
}

/// The line stands in the text at `a`.
pub open spec fn has_line(r: Seq<u8>, l: Seq<u8>, a: int) -> bool {
    0 <= a && a + l.len() <= r.len() && r.subrange(a, a + l.len()) == l
}

proof fn lemma_lines(s: SchedV, ns: usize, n: int, i: int)
    requires
        0 <= i < n <= s.procs.len(),
        s.procs[i] is Some,
        (s.procs[i]->0).ns == ns,
    ensures
        exists|a: int| #[trigger] has_line(s.ps_lines(ns, n), s.ps_line(s.procs[i]->0, ns), a),
    decreases n,
{
    let r = s.ps_lines(ns, n);
    let q = s.ps_lines(ns, n - 1);
    let l = s.ps_line(s.procs[i]->0, ns);
    if i == n - 1 {
        assert(r.subrange(q.len() as int, q.len() as int + l.len()) =~= l);
        assert(has_line(r, l, q.len() as int));
    } else {
        lemma_lines(s, ns, n - 1, i);
        let a = choose|a: int| #[trigger] has_line(q, l, a);
        assert(r.len() >= q.len());
        assert(r.subrange(a, a + l.len()) =~= q.subrange(a, a + l.len()));
        assert(has_line(r, l, a));
    }
}

proof fn lemma_no_lines(s: SchedV, ns: usize, n: int)
    requires
        0 <= n <= s.procs.len(),
        forall|i: int| 0 <= i < n && (#[trigger] s.procs[i]) is Some ==> (s.procs[i]->0).ns != ns,
    ensures
        s.ps_lines(ns, n).len() == 0,
    decreases n,
{
    if n > 0 {
        lemma_no_lines(s, ns, n - 1);
        assert(s.procs[n - 1] is Some || s.procs[n - 1] is None);
    }
}

/// A listing has a line for every process of the asker's namespace, and none of
/// another.
pub proof fn law_listing(s: &Sched, caller: usize, r: Vec<u8>, i: int)
    requires
        acts::there(s@, caller),
        0 <= i < s@.procs.len(),
        s@.procs[i] is Some,
        (s@.procs[i]->0).ns == acts::got(s@, caller).ns,
        call_ensures(path::ps_snapshot, (s, caller), r),
    ensures
        ({
            let p = s@.procs[i]->0;
            let ns = acts::got(s@, caller).ns;
            exists|a: int| #[trigger] has_line(r@, line_of(p, parent_in(s@, p, ns)), a)
        }),
        (forall|j: int| 0 <= j < s@.procs.len() && j != i && (#[trigger] s@.procs[j]) is Some ==> (s@.procs[j]->0).ns != acts::got(
            s@,
            caller,
        ).ns) ==> r@.len() == line_of(
            s@.procs[i]->0,
            parent_in(s@, s@.procs[i]->0, acts::got(s@, caller).ns),
        ).len(),
{
    let ns = acts::got(s@, caller).ns;
    let n = s@.procs.len() as int;
    lemma_lines(s@, ns, n, i);
    let p = s@.procs[i]->0;
    assert(s@.ps_line(p, ns) =~= line_of(p, parent_in(s@, p, ns)));
    let a = choose|a: int| #[trigger] has_line(s@.ps_lines(ns, n), s@.ps_line(p, ns), a);
    assert(has_line(r@, line_of(p, parent_in(s@, p, ns)), a));
    if forall|j: int| 0 <= j < n && j != i && (#[trigger] s@.procs[j]) is Some ==> (s@.procs[j]->0).ns != ns {
        lemma_alone(s@, ns, n, i);
    }
}

proof fn lemma_alone(s: SchedV, ns: usize, n: int, i: int)
    requires
        0 <= i < n <= s.procs.len(),
        s.procs[i] is Some,
        (s.procs[i]->0).ns == ns,
        forall|j: int| 0 <= j < n && j != i && (#[trigger] s.procs[j]) is Some ==> (s.procs[j]->0).ns != ns,
    ensures
        s.ps_lines(ns, n).len() == s.ps_line(s.procs[i]->0, ns).len(),
    decreases n,
{
    if i == n - 1 {
        lemma_no_lines(s, ns, n - 1);
    } else {
        lemma_alone(s, ns, n - 1, i);
        assert(s.procs[n - 1] is Some || s.procs[n - 1] is None);
    }
}

} // verus!
