//! Whose turn it is after an end, with quotas, and when a hart has nothing of
//! its own.
use crate::mem::frame::Mem;
use crate::task::fair;
use crate::task::family;
use crate::task::life;
use crate::task::sched;
use crate::task::sched::{Next, STASH};
use crate::task::state::{Sched, SchedV, MAX_HART};
use crate::task::wait;
use vstd::prelude::*;

verus! {

// ---- after an end ----

/// The end of a process wakes its parent if that waits for a child, and nobody
/// else.
pub proof fn law_waiting_parent_wakes(s: &mut Sched, pid: usize, code: i32, h: usize, now: u64, n: Next, x: int)
    requires
        old(s)@.wf(),
        h < MAX_HART,
        1 < pid < old(s)@.procs.len(),
        old(s)@.procs[pid as int] is Some,
        !((old(s)@.procs[pid as int]->0).state is Zombie),
        0 <= x < old(s)@.procs.len(),
        x != pid,
        old(s)@.procs[x] matches Some(q) && q.state is Blocked,
        forall|i: int| 0 <= i < (old(s)@.procs[pid as int]->0).children.len() ==> (#[trigger] (
        old(s)@.procs[pid as int]->0).children[i]) != pid,
        call_ensures(life::exit, (s, pid, code, h, now), n),
    ensures
        final(s)@.procs[x] is Some,
        ({
            let waits = x != 0 && x == (old(s)@.procs[pid as int]->0).parent && (old(s)@.procs[x]->0).blocked_on == 5;
            (final(s)@.procs[x]->0).state is Blocked <==> !waits
        }),
{
    let a0 = old(s)@;
    let p = a0.procs[pid as int]->0;
    let a = a0.died(pid as int, code);
    let b = a.orphaned(pid as int);
    family::lemma_reparent(a, p.children, p.children.len() as int, pid as int);
    family::lemma_reparent(a, p.children, p.children.len() as int, x);
    let c = b.parent_told(pid as int, h as int);
    family::lemma_find_pass(c, h as int, pid, 0, Seq::empty(), true, now);
    let d = c.find_pass(h as int, pid, 0, Seq::empty(), true, now).0;
    family::lemma_find_pass(d, h as int, pid, 0, Seq::empty(), false, now);
    let (e, next) = c.find_next(h as int, pid, now);
    assert(e.procs == c.procs);
    assert((b.procs[pid as int]->0).parent == p.parent);
    assert((b.procs[x]->0).state is Blocked);
    if let Some(y) = next {
        assert(c.takeable(h as int, y));
        if y == x {
            assert(!((c.procs[x]->0).state is Blocked));
        }
    }
}

// ---- from another hart ----

/// The hart has a process that can go on.
pub open spec fn runs(s: SchedV, h: int) -> bool {
    s.current[h] < s.procs.len() && (s.procs[s.current[h] as int] matches Some(p) && (p.state is Running
        || p.state is Runnable))
}

proof fn lemma_none(s: SchedV, h: int, q: Seq<usize>, stash: Seq<usize>, skip: bool, now: u64)
    requires
        forall|i: int| 0 <= i < q.len() ==> !fair::ready(s, h, #[trigger] q[i]),
    ensures
        s.pop_valid(h, q, stash, skip, now) == (stash, None::<usize>),
    decreases q.len(),
{
    if q.len() > 0 {
        fair::lemma_ready(s, h, q[0]);
        assert(!fair::ready(s, h, q[0]));
        assert forall|i: int| 0 <= i < q.skip(1).len() implies !fair::ready(s, h, #[trigger] q.skip(1)[i]) by {
            assert(q.skip(1)[i] == q[i + 1]);
        }
        lemma_none(s, h, q.skip(1), stash, skip, now);
    }
}

/// A hart with nothing of its own to run takes from the next hart in turn the
/// first of its queue that can run within quota.
pub proof fn law_idle_hart_takes_from_the_next(s: SchedV, h: int, now: u64, k: int)
    requires
        s.wf(),
        0 <= h < MAX_HART,
        !runs(s, h),
        forall|i: int| 0 <= i < s.queues[h].len() ==> !fair::ready(s, h, #[trigger] s.queues[h][i]),
        0 <= k < s.queues[(h + 1) % 4].len(),
        k < STASH,
        fair::ready(s, h, s.queues[(h + 1) % 4][k]),
        fair::in_quota(s, s.queues[(h + 1) % 4][k], now),
        forall|i: int|
            0 <= i < k ==> !(fair::ready(s, h, #[trigger] s.queues[(h + 1) % 4][i]) && fair::in_quota(
                s,
                s.queues[(h + 1) % 4][i],
                now,
            )),
        s.queues[(h + 1) % 4][k] != s.current[h],
    ensures
        ({
            let (t, n) = s.schedule(h, now);
            &&& n is Run
            &&& n->pid == s.queues[(h + 1) % 4][k]
            &&& t.current[h] == n->pid
            &&& t.steals == s.steals.wrapping_add(1)
        }),
{
    let v = (h + 1) % 4;
    let q = s.queues[v];
    let r = s.requeue(h);
    fair::lemma_same_ready(s, h, s.current[h]);
    assert(r.queues == s.queues);
    assert forall|i: int| 0 <= i < r.queues[h].len() implies !fair::ready(r, h, #[trigger] r.queues[h][i]) by {
        fair::lemma_same_ready(s, h, s.queues[h][i]);
    }
    lemma_none(r, h, r.queues[h], Seq::empty(), true, now);
    assert((h + 0) % (MAX_HART as int) == h);
    let a = r.with_queue(h, Seq::empty());
    assert(a.queues[v] == q);
    assert forall|i: int| 0 <= i < q.len() implies fair::ready(a, h, #[trigger] q[i]) == fair::ready(s, h, q[i]) by {
        fair::lemma_same_ready(s, h, q[i]);
        assert(a.procs == r.procs && a.current == r.current);
    }
    assert forall|i: int| 0 <= i < q.len() && fair::ready(s, h, #[trigger] q[i]) implies fair::in_quota(a, q[i], now)
        == fair::in_quota(s, q[i], now) by {}
    let j = fair::lemma_pop(a, h, q, Seq::empty(), now, k);
    assert(j == k) by {
        if j < k {
            assert(fair::ready(s, h, q[j]));
            assert(fair::in_quota(s, q[j], now));
        }
    }
    assert(r.pick_pass(h, 0, true, now) == a.pick_pass(h, 1, true, now));
}

// ---- quotas ----

proof fn lemma_pop_quota(s: SchedV, h: int, q: Seq<usize>, stash: Seq<usize>, now: u64)
    requires
        q.len() + stash.len() <= STASH,
    ensures
        ({
            let (rest, found) = s.pop_valid(h, q, stash, true, now);
            &&& found matches Some(p) ==> fair::ready(s, h, p) && fair::in_quota(s, p, now)
            &&& found is None ==> forall|i: int|
                0 <= i < q.len() ==> !(fair::ready(s, h, #[trigger] q[i]) && fair::in_quota(s, q[i], now))
        }),
    decreases q.len(),
{
    if q.len() > 0 {
        fair::lemma_ready(s, h, q[0]);
        if fair::ready(s, h, q[0]) {
            fair::lemma_quota(s, q[0], now);
        }
        let t = q.skip(1);
        lemma_pop_quota(s, h, t, stash, now);
        if stash.len() < STASH {
            lemma_pop_quota(s, h, t, stash.push(q[0]), now);
        }
        if s.pop_valid(h, q, stash, true, now).1 is None {
            assert forall|i: int| 0 <= i < q.len() implies !(fair::ready(s, h, #[trigger] q[i]) && fair::in_quota(
                s,
                q[i],
                now,
            )) by {
                if i > 0 {
                    assert(t[i - 1] == q[i]);
                }
            }
        }
    }
}

proof fn lemma_pass_quota(s: SchedV, h: int, off: int, now: u64, v: int, i: int)
    requires
        s.queues.len() == MAX_HART,
        0 <= h < MAX_HART,
        0 <= off <= MAX_HART,
        forall|x: int| 0 <= x < MAX_HART ==> (#[trigger] s.queues[x]).len() <= STASH,
        0 <= v < MAX_HART,
        (v - h) % 4 >= off,
        0 <= i < s.queues[v].len(),
        fair::ready(s, h, s.queues[v][i]),
        fair::in_quota(s, s.queues[v][i], now),
    ensures
        s.pick_pass(h, off, true, now).1 matches Some(p) && fair::ready(s, h, p) && fair::in_quota(s, p, now),
    decreases MAX_HART - off,
{
    let w = (h + off) % 4;
    assert(s.queues[w].len() <= STASH);
    lemma_pop_quota(s, h, s.queues[w], Seq::empty(), now);
    let (q, r) = s.pop_valid(h, s.queues[w], Seq::empty(), true, now);
    if r is None {
        assert(v != w);
        let t = s.with_queue(w, q);
        lemma_pop_len(s, h, s.queues[w], Seq::empty(), now);
        assert(t.queues[v] == s.queues[v]);
        assert((v - h) % 4 >= off + 1);
        lemma_pass_quota(t, h, off + 1, now, v, i);
    }
}

proof fn lemma_pop_len(s: SchedV, h: int, q: Seq<usize>, stash: Seq<usize>, now: u64)
    ensures
        s.pop_valid(h, q, stash, true, now).0.len() <= q.len() + stash.len(),
    decreases q.len(),
{
    if q.len() > 0 {
        lemma_pop_len(s, h, q.skip(1), stash, now);
        lemma_pop_len(s, h, q.skip(1), stash.push(q[0]), now);
    }
}

/// As long as some process that waits, on whatever hart, can run within its
/// group's quota, none runs that is over its own. (So many wait on no hart that
/// not all could be set aside.)
pub proof fn law_quotas_hold(s: SchedV, h: int, now: u64, v: int, i: int)
    requires
        s.wf(),
        0 <= h < MAX_HART,
        forall|x: int| 0 <= x < MAX_HART ==> (#[trigger] s.queues[x]).len() < STASH,
        0 <= v < MAX_HART,
        0 <= i < s.queues[v].len(),
        fair::ready(s, h, s.queues[v][i]),
        fair::in_quota(s, s.queues[v][i], now),
    ensures
        ({
            let n = s.schedule(h, now).1;
            &&& n is Run
            &&& fair::ready(s, h, n->pid)
            &&& fair::in_quota(s, n->pid, now)
        }),
{
    let r = s.requeue(h);
    let p = s.queues[v][i];
    fair::lemma_same_ready(s, h, p);
    assert forall|x: int| 0 <= x < MAX_HART implies (#[trigger] r.queues[x]).len() <= STASH by {
        assert(s.queues[x].len() < STASH);
    }
    assert(r.queues[v][i] == p);
    lemma_groups(s, h, p);
    lemma_pass_quota(r, h, 0, now, v, i);
    let y = r.pick_pass(h, 0, true, now).1->0;
    fair::lemma_same_ready(s, h, y);
    lemma_groups(s, h, y);
    assert(r.pick(h, now).1 == Some(y));
    sched::lemma_pick_frame(r, h, now);
    assert(r.pick(h, now).0.procs == r.procs);
}

proof fn lemma_groups(s: SchedV, h: int, p: usize)
    requires
        s.wf(),
        0 <= h < MAX_HART,
        p < s.procs.len(),
        s.procs[p as int] is Some,
    ensures
        s.requeue(h).procs[p as int] is Some,
        (s.requeue(h).procs[p as int]->0).cg == (s.procs[p as int]->0).cg,
        s.requeue(h).cpu == s.cpu,
{
}

proof fn lemma_scan_quota(
    s: SchedV,
    h: int,
    ex: usize,
    v: int,
    q: Seq<usize>,
    back: Seq<usize>,
    stash: Seq<(int, usize)>,
    now: u64,
)
    ensures
        ({
            let found = s.scan_queue(h, ex, v, q, back, stash, true, now).2;
            &&& found matches Some(p) ==> fair::ready(s, h, p) && fair::in_quota(s, p, now)
            &&& found is None ==> forall|i: int|
                0 <= i < q.len() && #[trigger] q[i] != ex ==> !(fair::ready(s, h, q[i]) && fair::in_quota(s, q[i], now))
        }),
    decreases q.len(),
{
    if q.len() > 0 {
        fair::lemma_ready(s, h, q[0]);
        if fair::ready(s, h, q[0]) {
            fair::lemma_quota(s, q[0], now);
        }
        let t = q.skip(1);
        lemma_scan_quota(s, h, ex, v, t, back, stash, now);
        lemma_scan_quota(s, h, ex, v, t, back, stash.push((v, q[0])), now);
        lemma_scan_quota(s, h, ex, v, t, back.push(q[0]), stash, now);
        if s.scan_queue(h, ex, v, q, back, stash, true, now).2 is None {
            assert forall|i: int| 0 <= i < q.len() && #[trigger] q[i] != ex implies !(fair::ready(s, h, q[i])
                && fair::in_quota(s, q[i], now)) by {
                if i > 0 {
                    assert(t[i - 1] == q[i]);
                }
            }
        }
    }
}

proof fn lemma_find_quota(
    s: SchedV,
    h: int,
    ex: usize,
    off: int,
    stash: Seq<(int, usize)>,
    now: u64,
    v: int,
    i: int,
)
    requires
        s.queues.len() == MAX_HART,
        0 <= h < MAX_HART,
        0 <= off <= MAX_HART,
        0 <= v < MAX_HART,
        (v - h) % 4 >= off,
        0 <= i < s.queues[v].len(),
        s.queues[v][i] != ex,
        fair::ready(s, h, s.queues[v][i]),
        fair::in_quota(s, s.queues[v][i], now),
    ensures
        s.find_pass(h, ex, off, stash, true, now).1 matches Some(p) && fair::ready(s, h, p) && fair::in_quota(s, p, now),
    decreases MAX_HART - off,
{
    let w = (h + off) % 4;
    lemma_scan_quota(s, h, ex, w, s.queues[w], Seq::empty(), stash, now);
    let (q, st, r) = s.scan_queue(h, ex, w, s.queues[w], Seq::empty(), stash, true, now);
    if r is None {
        assert(v != w);
        let t = s.with_queue(w, q);
        assert(t.queues[v] == s.queues[v]);
        lemma_find_quota(t, h, ex, off + 1, st, now, v, i);
    }
}

/// A hart whose process ends goes on with one that can run within its quota, if
/// such a one waits on any hart.
pub proof fn law_end_goes_on(s: &mut Sched, pid: usize, code: i32, h: usize, now: u64, n: Next, v: int, i: int)
    requires
        old(s)@.wf(),
        h < MAX_HART,
        1 < pid < old(s)@.procs.len(),
        old(s)@.procs[pid as int] is Some,
        !((old(s)@.procs[pid as int]->0).state is Zombie),
        0 <= v < MAX_HART,
        0 <= i < old(s)@.queues[v].len(),
        old(s)@.queues[v][i] != pid,
        fair::ready(old(s)@, h as int, old(s)@.queues[v][i]),
        fair::in_quota(old(s)@, old(s)@.queues[v][i], now),
        call_ensures(life::exit, (s, pid, code, h, now), n),
    ensures
        n is Run,
        n->pid != pid,
        fair::in_quota(old(s)@, n->pid, now),
        final(s)@.current[h as int] == n->pid,
        (final(s)@.procs[n->pid as int]->0).state is Running,
{
    let a0 = old(s)@;
    let y = a0.queues[v][i];
    let p = a0.procs[pid as int]->0;
    let a = a0.died(pid as int, code);
    let b = a.orphaned(pid as int);
    family::lemma_reparent(a, p.children, p.children.len() as int, pid as int);
    family::lemma_reparent(a, p.children, p.children.len() as int, y as int);
    assert(b.queues == a0.queues && b.current == a0.current && b.cpu == a0.cpu);
    let c = b.parent_told(pid as int, h as int);
    assert(c.current == a0.current && c.cpu == a0.cpu);
    assert(c.queues[v][i] == y);
    assert(fair::ready(c, h as int, y));
    lemma_find_quota(c, h as int, pid, 0, Seq::empty(), now, v, i);
    family::lemma_find_pass(c, h as int, pid, 0, Seq::empty(), true, now);
    let x = c.find_pass(h as int, pid, 0, Seq::empty(), true, now).1->0;
    family::lemma_reparent(a, p.children, p.children.len() as int, x as int);
    assert(c.find_next(h as int, pid, now).1 == Some(x));
    assert((c.procs[x as int]->0).cg == (a0.procs[x as int]->0).cg);
}

// ---- waiting ----

/// A wait without a child that has ended: with one that has not, the caller
/// sleeps until it is told, or learns at once if it asked not to sleep; without
/// any it learns that.
pub proof fn law_wait_sleeps(
    s: &mut Sched,
    m: &mut Mem,
    kroot: u64,
    pid: usize,
    target: i64,
    options: usize,
    h: usize,
    r: (i32, i32),
    k: int,
)
    requires
        old(s)@.wf(),
        h < MAX_HART,
        old(s)@.current[h as int] == pid,
        pid < old(s)@.procs.len(),
        old(s)@.procs[pid as int] matches Some(p) && p.state is Running,
        forall|j: int|
            0 <= j < (old(s)@.procs[pid as int]->0).children.len() ==> !#[trigger] family::over(
                old(s)@,
                (old(s)@.procs[pid as int]->0).ns,
                target,
                (old(s)@.procs[pid as int]->0).children,
                j,
            ),
        call_ensures(wait::waitpid, (s, m, kroot, pid, target, options, h), r),
    ensures
        ({
            let p = old(s)@.procs[pid as int]->0;
            let c = p.children[k];
            let one = 0 <= k < p.children.len() && family::meant(old(s)@, p.ns, target, c) && c < old(s)@.procs.len()
                && old(s)@.procs[c as int] is Some;
            let q = final(s)@.procs[pid as int]->0;
            &&& r.1 == 0
            &&& one && options & 1 != 0 ==> r.0 == 0 && final(s)@ == old(s)@
            &&& one && options & 1 == 0 ==> r.0 < 0 && final(s)@.procs[pid as int] is Some && q.state is Blocked
                && q.blocked_on == 5 && final(s)@.yield_flag[h as int]
            &&& p.children.len() == 0 ==> r.0 == -1 && final(s)@ == old(s)@
        }),
{
    let p = old(s)@.procs[pid as int]->0;
    family::law_first_ended_child_is_found(old(s)@, p.ns, target, p.children, 0);
    if 0 <= k < p.children.len() {
        assert(!family::over(old(s)@, p.ns, target, p.children, k));
        assert(old(s)@.child_named(p.ns, target, p.children[k]) == family::meant(old(s)@, p.ns, target, p.children[k]));
    }
}

} // verus!
